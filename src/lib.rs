use vstd::prelude::*;

pub mod cycles;
pub mod distance;
pub mod shape;
pub mod graphviz;
pub mod laws;

verus! {

/// A dense index naming a vertex of the current polyhedron: ids in use are always `0..n`.
pub type VertexId = usize;

/// Why a topological operation was refused.
#[derive(Debug, Clone, Copy, PartialEq, Eq, Structural)]
pub enum TopologyError {
    /// A vertex or edge outside the current structure was named, or the result would be inconsistent.
    InvalidTopology,
    /// An edge set handed in as a face boundary is not one simple closed walk.
    MalformedBoundary,
}

} // verus!
