use vstd::prelude::*;

use crate::cycles::{circ_next, copy_walk, deleted, is_boundary, replaced, Cycle, Cycles};
use crate::distance::{complete4, contracted, lemma_with_edge_keeps, well_formed, Distance};
use crate::{TopologyError, VertexId};

verus! {

/// Face `f` is a closed walk of at least three vertices of `d`, each step along an edge of `d`.
pub open spec fn face_fits(d: Seq<Seq<bool>>, f: Seq<VertexId>) -> bool {
    &&& f.len() >= 3
    &&& forall|k: int| 0 <= k < f.len() ==> #[trigger] f[k] < d.len()
    &&& forall|k: int| 0 <= k < f.len() ==> d[#[trigger] f[k] as int][circ_next(f, k) as int]
}

/// Every face of `faces` fits the connectivity `d`.
pub open spec fn faces_fit(d: Seq<Seq<bool>>, faces: Seq<Seq<VertexId>>) -> bool {
    forall|i: int| 0 <= i < faces.len() ==> face_fits(d, #[trigger] faces[i])
}

/// `nb` lists the neighbours of `v` in `m`, in increasing order.
pub open spec fn lists_neighbours(m: Seq<Seq<bool>>, v: int, nb: Seq<VertexId>) -> bool {
    &&& forall|a: int, b: int| 0 <= a < b < nb.len() ==> nb[a] < nb[b]
    &&& forall|u: VertexId| nb.contains(u) <==> (u < m.len() && m[v][u as int])
}

/// The copy of `v` that a split hands its `q`-th neighbour (from zero, in increasing order):
/// the first keeps `v`, the others get `n`, `n + 1`, ... in turn.
pub open spec fn copy_id(v: int, n: int, q: int) -> int {
    if q == 0 {
        v
    } else {
        n + q - 1
    }
}

/// `c` is one of the vertices that `v` became: `v` itself, or an id that is new in `d1`.
pub open spec fn is_copy(c: int, v: int, d0: Seq<Seq<bool>>, d1: Seq<Seq<bool>>) -> bool {
    c == v || d0.len() <= c < d1.len()
}

/// Some edge among the first `j` of `ring` joins `c` and `e`.
pub open spec fn ring_joins(ring: Seq<[VertexId; 2]>, j: int, c: int, e: int) -> bool {
    exists|k: int|
        0 <= k < j && ((#[trigger] ring[k][0] == c && ring[k][1] == e) || (ring[k][0] == e
            && ring[k][1] == c))
}

/// `d1` and `f1` come from `d0` and `f0` by splitting vertex `v` into a ring of new vertices
/// joined by the edges `ring`: the faces still fit; one face is added whose boundary is exactly
/// the ring; the ring's ends are `v` or new ids; no edge between other old vertices changes;
/// each former neighbour of `v` is joined to exactly one copy, each copy to exactly one former
/// neighbour and to nothing else old; and two copies are joined exactly where the ring joins them.
pub open spec fn is_split(
    d0: Seq<Seq<bool>>,
    f0: Seq<Seq<VertexId>>,
    v: VertexId,
    d1: Seq<Seq<bool>>,
    f1: Seq<Seq<VertexId>>,
    ring: Seq<[VertexId; 2]>,
) -> bool {
    &&& v < d0.len()
    &&& well_formed(d1)
    &&& faces_fit(d1, f1)
    &&& ring.len() >= 3
    &&& d1.len() == d0.len() + ring.len() - 1
    &&& forall|k: int| 0 <= k < ring.len() ==> d1[#[trigger] ring[k][0] as int][ring[k][1] as int]
    &&& forall|k: int|
        0 <= k < ring.len() ==> (#[trigger] ring[k][0] == v || ring[k][0] >= d0.len()) && (
        ring[k][1] == v || ring[k][1] >= d0.len())
    &&& forall|i: int, j: int|
        0 <= i < d0.len() && 0 <= j < d0.len() && i != v && j != v ==> #[trigger] d1[i][j]
            == d0[i][j]
    &&& forall|x: int|
        0 <= x < d0.len() && x != v ==> (d0[v as int][x] <==> exists|c: int|
            is_copy(c, v as int, d0, d1) && #[trigger] d1[c][x])
    &&& forall|c: int, e: int, x: int|
        is_copy(c, v as int, d0, d1) && is_copy(e, v as int, d0, d1) && 0 <= x < d0.len() && x != v
            && #[trigger] d1[c][x] && #[trigger] d1[e][x] ==> c == e
    &&& forall|c: int, x: int, y: int|
        is_copy(c, v as int, d0, d1) && 0 <= x < d0.len() && x != v && 0 <= y < d0.len() && y != v
            && #[trigger] d1[c][x] && #[trigger] d1[c][y] ==> x == y
    &&& forall|c: int| #[trigger]
        is_copy(c, v as int, d0, d1) ==> exists|x: int| 0 <= x < d0.len() && x != v && #[trigger] d1[c][x]
    &&& forall|c: int, e: int|
        is_copy(c, v as int, d0, d1) && is_copy(e, v as int, d0, d1) ==> (#[trigger] d1[c][e]
            <==> ring_joins(ring, ring.len() as int, c, e))
    &&& exists|nb: Seq<VertexId>|
        lists_neighbours(d0, v as int, nb) && nb.len() == ring.len() && forall|q: int, x: int|
            0 <= q < nb.len() && 0 <= x < d0.len() && x != v ==> (#[trigger] d1[copy_id(
                v as int,
                d0.len() as int,
                q,
            )][x] <==> x == nb[q])
    &&& f1.len() == f0.len() + 1
    &&& is_boundary(f1.last(), ring)
}

/// The faces `faces` after the edge between `a` and `b` is contracted: on each, the larger id
/// is replaced by the smaller, and then removed with every id above it moved down by one.
pub open spec fn contracted_faces(faces: Seq<Seq<VertexId>>, a: VertexId, b: VertexId) -> Seq<
    Seq<VertexId>,
> {
    let lo = if a < b { a } else { b };
    let hi = if a < b { b } else { a };
    faces.map_values(|c: Seq<VertexId>| deleted(replaced(c, hi, lo), hi))
}

/// A polyhedron: its connectivity and its faces, kept in step.
#[derive(Debug, Clone)]
pub struct Shape {
    pub distance: Distance,
    pub cycles: Cycles,
}

impl Shape {
    /// The connectivity is well formed and every face walks along its edges.
    pub open spec fn wf(&self) -> bool {
        self.distance.wf() && faces_fit(self.distance@, self.cycles@)
    }
}

/// Whether face `f` fits the connectivity `d`.
fn check_face(d: &Distance, f: &Cycle) -> (r: bool)
    requires
        d.wf(),
    ensures
        r == face_fits(d@, f@),
{
    let len = f.len();
    if len < 3 {
        return false;
    }
    let n = d.len();
    let mut k: usize = 0;
    while k < len
        invariant
            d.wf(),
            n == d.n(),
            len == f@.len(),
            k <= len,
            forall|p: int| 0 <= p < k ==> #[trigger] f@[p] < n,
        decreases len - k,
    {
        if f.0[k] >= n {
            return false;
        }
        k = k + 1;
    }
    let mut k: usize = 0;
    while k < len
        invariant
            d.wf(),
            n == d.n(),
            len == f@.len(),
            len >= 3,
            k <= len,
            forall|p: int| 0 <= p < len ==> #[trigger] f@[p] < n,
            forall|p: int| 0 <= p < k ==> d@[#[trigger] f@[p] as int][circ_next(f@, p) as int],
        decreases len - k,
    {
        let a = f.0[k];
        let b = if k + 1 == len { f.0[0] } else { f.0[k + 1] };
        if !d.connected(a, b) {
            return false;
        }
        k = k + 1;
    }
    true
}

/// Whether every face of `faces` fits the connectivity `d`.
fn check_faces(d: &Distance, faces: &Cycles) -> (r: bool)
    requires
        d.wf(),
    ensures
        r == faces_fit(d@, faces@),
{
    let mut i: usize = 0;
    while i < faces.cycles.len()
        invariant
            d.wf(),
            i <= faces@.len(),
            faces@.len() == faces.cycles@.len(),
            forall|p: int| 0 <= p < i ==> face_fits(d@, #[trigger] faces@[p]),
        decreases faces@.len() - i,
    {
        if !check_face(d, &faces.cycles[i]) {
            assert(faces@[i as int] == faces.cycles@[i as int]@);
            return false;
        }
        i = i + 1;
    }
    true
}


/// Where `x` first stands in `s`, if anywhere.
fn position(s: &Vec<VertexId>, x: VertexId) -> (r: Option<usize>)
    ensures
        r is Some ==> r->Some_0 < s@.len() && s@[r->Some_0 as int] == x,
{
    let mut i: usize = 0;
    while i < s.len()
        invariant
            i <= s@.len(),
        decreases s@.len() - i,
    {
        if s[i] == x {
            return Some(i);
        }
        i = i + 1;
    }
    None
}

/// The copy of `v` that a split hands the neighbour `u`: the first neighbour keeps `v` itself,
/// the `k`-th (from zero) gets the new id `n + k - 1`.
fn copy_of(nb: &Vec<VertexId>, v: VertexId, n: usize, u: VertexId) -> (r: Option<VertexId>)
    requires
        v < n,
        n + nb@.len() - 1 <= usize::MAX,
    ensures
        r is Some ==> (r->Some_0 == v || n <= r->Some_0) && r->Some_0 < n + nb@.len() - 1,
{
    match position(nb, u) {
        None => None,
        Some(k) => {
            if k == 0 {
                Some(v)
            } else {
                Some(n + k - 1)
            }
        },
    }
}

/// A copy of `edges`.
fn copy_edges(edges: &Vec<[VertexId; 2]>) -> (r: Vec<[VertexId; 2]>)
    ensures
        r@ == edges@,
{
    let mut out: Vec<[VertexId; 2]> = Vec::new();
    let mut j: usize = 0;
    while j < edges.len()
        invariant
            j <= edges@.len(),
            out@ == edges@.take(j as int),
        decreases edges@.len() - j,
    {
        out.push(edges[j]);
        j = j + 1;
        assert(out@ =~= edges@.take(j as int));
    }
    assert(out@ =~= edges@);
    out
}

/// The result of splitting vertex `v`: the new connectivity, faces, and the ring of new edges.
struct Split {
    distance: Distance,
    cycles: Cycles,
    ring: Vec<[VertexId; 2]>,
}

/// Splits vertex `v` of `d` and `faces` without touching them, as `Shape::split_vertex` describes.
#[verifier::rlimit(100)]
#[verifier::spinoff_prover]
fn split_of(d: &Distance, faces: &Cycles, v: VertexId) -> (r: Option<Split>)
    requires
        d.wf(),
    ensures
        r is Some ==> v < d.n() && r->Some_0.distance.wf() && is_split(
            d@,
            faces@,
            v,
            r->Some_0.distance@,
            r->Some_0.cycles@,
            r->Some_0.ring@,
        ),
{
    let n = d.len();
    if v >= n {
        return None;
    }
    let nb = d.connections(v);
    let deg = nb.len();
    if deg < 3 || deg - 1 > usize::MAX - n {
        return None;
    }
    let total = n + (deg - 1);
    let mut walks: Vec<Cycle> = Vec::new();
    let mut ring: Vec<[VertexId; 2]> = Vec::new();
    let mut i: usize = 0;
    while i < faces.cycles.len()
        invariant
            v < n,
            deg == nb@.len(),
            total == n + deg - 1,
            i <= faces.cycles@.len(),
            walks@.len() == i,
            forall|k: int|
                0 <= k < ring@.len() ==> (#[trigger] ring@[k][0] == v || n <= ring@[k][0])
                    && ring@[k][0] < total && (ring@[k][1] == v || n <= ring@[k][1])
                    && ring@[k][1] < total,
        decreases faces.cycles@.len() - i,
    {
        let f = &faces.cycles[i].0;
        match position(f, v) {
            None => {
                walks.push(Cycle(copy_walk(f)));
            },
            Some(p) => {
                let len = f.len();
                let a = if p == 0 { f[len - 1] } else { f[p - 1] };
                let b = if p + 1 == len { f[0] } else { f[p + 1] };
                let ca = match copy_of(&nb, v, n, a) {
                    Some(c) => c,
                    None => return None,
                };
                let cb = match copy_of(&nb, v, n, b) {
                    Some(c) => c,
                    None => return None,
                };
                let mut walk: Vec<VertexId> = Vec::new();
                let mut q: usize = 0;
                while q < len
                    invariant
                        len == f@.len(),
                        q <= len,
                    decreases len - q,
                {
                    if q == p {
                        walk.push(ca);
                        walk.push(cb);
                    } else {
                        walk.push(f[q]);
                    }
                    q = q + 1;
                }
                walks.push(Cycle(walk));
                ring.push([ca, cb]);
            },
        }
        i = i + 1;
    }
    if ring.len() != deg {
        return None;
    }
    let face = match Cycle::from_edges(copy_edges(&ring)) {
        Ok(c) => c,
        Err(_) => return None,
    };
    let mut dist = d.snapshot();
    dist.grow(deg - 1);
    assert forall|x: int| 0 <= x < deg implies #[trigger] nb@[x] < n && nb@[x] != v by {
        assert(nb@.contains(nb@[x]));
    }
    assert forall|x: int| 0 <= x < n && x != v implies #[trigger] dist@[v as int][x] == (d@[v as int][x] && forall|q: int|
        1 <= q < 1 ==> #[trigger] nb@[q] != x) by {}
    let mut k: usize = 1;
    while k < deg
        invariant
            dist.wf(),
            dist.n() == total,
            v < n,
            deg == nb@.len(),
            total == n + deg - 1,
            1 <= k <= deg,
            n == d.n(),
            n == d@.len(),
            d.wf(),
            forall|x: int| 0 <= x < deg ==> #[trigger] nb@[x] < n && nb@[x] != v,
            forall|a: int, b: int| 0 <= a < b < nb@.len() ==> nb@[a] < nb@[b],
            forall|i: int, j: int|
                0 <= i < n && 0 <= j < n && i != v && j != v ==> #[trigger] dist.adj(i, j) == d.adj(i, j),
            forall|x: int|
                0 <= x < n && x != v ==> #[trigger] dist@[v as int][x] == (d@[v as int][x] && forall|q: int|
                    1 <= q < k ==> #[trigger] nb@[q] != x),
            forall|q: int, x: int|
                1 <= q < deg && 0 <= x < n ==> #[trigger] dist@[n + q - 1][x] == (q < k && x == nb@[q]),
            forall|c: int, e: int|
                is_copy(c, v as int, d@, dist@) && is_copy(e, v as int, d@, dist@) ==> !#[trigger] dist@[c][e],
            forall|k: int|
                0 <= k < ring@.len() ==> (#[trigger] ring@[k][0] == v || n <= ring@[k][0])
                    && ring@[k][0] < total && (ring@[k][1] == v || n <= ring@[k][1])
                    && ring@[k][1] < total,
        decreases deg - k,
    {
        assert(nb@.contains(nb@[k as int]));
        let ghost g0 = dist;
        let ghost d0 = dist@;
        dist.disconnect(v, nb[k]);
        let ghost d1 = dist@;
        dist.connect(n + k - 1, nb[k]);
        assert forall|i: int, j: int|
            0 <= i < n && 0 <= j < n && i != v && j != v implies #[trigger] dist.adj(i, j) == d.adj(
                i,
                j,
            ) by {
            assert(g0.adj(i, j) == d.adj(i, j));
            lemma_with_edge_keeps(d0, v as int, nb@[k as int] as int, false, i, j);
            lemma_with_edge_keeps(d1, (n + k - 1) as int, nb@[k as int] as int, true, i, j);
        }
        let ghost w = nb@[k as int] as int;
        assert forall|x: int| 0 <= x < n && x != v implies #[trigger] dist@[v as int][x] == (d@[v as int][x] && forall|q: int|
            1 <= q < k + 1 ==> #[trigger] nb@[q] != x) by {
            if x != w {
                lemma_with_edge_keeps(d0, v as int, w, false, v as int, x);
                lemma_with_edge_keeps(d1, (n + k - 1) as int, w, true, v as int, x);
            } else {
                lemma_with_edge_keeps(d1, (n + k - 1) as int, w, true, v as int, x);
                assert(nb@[k as int] == x);
            }
        }
        assert forall|q: int, x: int| 1 <= q < deg && 0 <= x < n implies #[trigger] dist@[n + q - 1][x] == (q < k + 1 && x == nb@[q]) by {
            if !(q == k && x == w) {
                lemma_with_edge_keeps(d0, v as int, w, false, n + q - 1, x);
                lemma_with_edge_keeps(d1, (n + k - 1) as int, w, true, n + q - 1, x);
                if q == k {
                    assert(d0[n + q - 1][x] == (q < k && x == nb@[q]));
                }
            }
        }
        assert forall|c: int, e: int| is_copy(c, v as int, d@, dist@) && is_copy(e, v as int, d@, dist@) implies !#[trigger] dist@[c][e] by {
            assert(is_copy(c, v as int, d@, d0) && is_copy(e, v as int, d@, d0));
            assert(w < n && w != v);
            assert(d@.len() == n);
            assert(c == v || c >= n);
            assert(e == v || e >= n);
            assert(0 <= c < d0.len() && 0 <= e < d0.len());
            lemma_with_edge_keeps(d0, v as int, w, false, c, e);
            lemma_with_edge_keeps(d1, (n + k - 1) as int, w, true, c, e);
        }
        k = k + 1;
    }
    let mut j: usize = 0;
    while j < ring.len()
        invariant
            dist.wf(),
            dist.n() == total,
            v < n,
            total == n + deg - 1,
            j <= ring@.len(),
            forall|k: int|
                0 <= k < ring@.len() ==> (#[trigger] ring@[k][0] == v || n <= ring@[k][0])
                    && ring@[k][0] < total && (ring@[k][1] == v || n <= ring@[k][1])
                    && ring@[k][1] < total,
            forall|k: int| 0 <= k < j ==> dist.adj(#[trigger] ring@[k][0] as int, ring@[k][1] as int),
            n == d.n(),
            n == d@.len(),
            d.wf(),
            deg == nb@.len(),
            deg >= 3,
            forall|x: int| 0 <= x < deg ==> #[trigger] nb@[x] < n && nb@[x] != v,
            forall|x: int|
                0 <= x < n && x != v ==> #[trigger] dist@[v as int][x] == (d@[v as int][x] && forall|q: int|
                    1 <= q < deg ==> #[trigger] nb@[q] != x),
            forall|q: int, x: int|
                1 <= q < deg && 0 <= x < n && x != v ==> #[trigger] dist@[n + q - 1][x] == (x == nb@[q]),
            forall|c: int, e: int|
                is_copy(c, v as int, d@, dist@) && is_copy(e, v as int, d@, dist@) ==> (#[trigger] dist@[c][e]
                    == ring_joins(ring@, j as int, c, e)),
            forall|i: int, j: int|
                0 <= i < n && 0 <= j < n && i != v && j != v ==> #[trigger] dist.adj(i, j) == d.adj(i, j),
        decreases ring@.len() - j,
    {
        let e = ring[j];
        if e[0] == e[1] {
            return None;
        }
        let ghost g0 = dist;
        let ghost d0 = dist@;
        dist.connect(e[0], e[1]);
        assert(e[0] == v || e[0] >= n);
        assert(e[1] == v || e[1] >= n);
        assert forall|x: int| 0 <= x < n && x != v implies #[trigger] dist@[v as int][x] == (d@[v as int][x] && forall|q: int|
            1 <= q < deg ==> #[trigger] nb@[q] != x) by {
            lemma_with_edge_keeps(d0, e[0] as int, e[1] as int, true, v as int, x);
        }
        assert forall|q: int, x: int| 1 <= q < deg && 0 <= x < n && x != v implies #[trigger] dist@[n + q - 1][x] == (x == nb@[q]) by {
            lemma_with_edge_keeps(d0, e[0] as int, e[1] as int, true, n + q - 1, x);
        }
        assert forall|c: int, f: int| is_copy(c, v as int, d@, dist@) && is_copy(f, v as int, d@, dist@) implies (#[trigger] dist@[c][f]
            == ring_joins(ring@, j + 1, c, f)) by {
            if (c == e[0] && f == e[1]) || (c == e[1] && f == e[0]) {
                assert(ring@[j as int] == e);
            } else {
                lemma_with_edge_keeps(d0, e[0] as int, e[1] as int, true, c, f);
                if ring_joins(ring@, j + 1, c, f) {
                    let q = choose|q: int| 0 <= q < j + 1 && ((#[trigger] ring@[q][0] == c && ring@[q][1] == f) || (ring@[q][0] == f
                        && ring@[q][1] == c));
                    assert(q != j);
                }
            }
        }
        assert forall|i: int, j: int|
            0 <= i < n && 0 <= j < n && i != v && j != v implies #[trigger] dist.adj(i, j) == d.adj(
                i,
                j,
            ) by {
            assert(g0.adj(i, j) == d.adj(i, j));
            lemma_with_edge_keeps(d0, e[0] as int, e[1] as int, true, i, j);
        }
        assert forall|k: int| 0 <= k < j + 1 implies dist.adj(
            #[trigger] ring@[k][0] as int,
            ring@[k][1] as int,
        ) by {
            if k < j {
                assert(g0.adj(ring@[k][0] as int, ring@[k][1] as int));
                if !((ring@[k][0] == e[0] && ring@[k][1] == e[1]) || (ring@[k][0] == e[1]
                    && ring@[k][1] == e[0])) {
                    lemma_with_edge_keeps(d0, e[0] as int, e[1] as int, true, ring@[k][0] as int, ring@[k][1] as int);
                }
            }
        }
        j = j + 1;
    }
    let mut cycles = Cycles { cycles: walks };
    cycles.push(face);
    if !check_faces(&dist, &cycles) {
        return None;
    }
    assert(ring@.len() >= 3);
    assert(dist@.len() == d@.len() + ring@.len() - 1);
    assert(forall|k: int| 0 <= k < ring@.len() ==> dist@[#[trigger] ring@[k][0] as int][ring@[k][1] as int]);
    assert forall|i: int, j: int|
        0 <= i < d@.len() && 0 <= j < d@.len() && i != v && j != v implies #[trigger] dist@[i][j]
            == d@[i][j] by {
        assert(dist.adj(i, j) == d.adj(i, j));
    }
    assert(cycles@.last() == face@);
    let ghost d1 = dist@;
    assert(d1.len() == total);
    assert forall|x: int| 0 <= x < d@.len() && x != v implies (d@[v as int][x] <==> exists|c: int|
        is_copy(c, v as int, d@, d1) && #[trigger] d1[c][x]) by {
        if d@[v as int][x] {
            assert(nb@.contains(x as VertexId));
            let q = choose|q: int| 0 <= q < nb@.len() && nb@[q] == x as VertexId;
            if q == 0 {
                assert forall|p: int| 1 <= p < deg implies #[trigger] nb@[p] != x by {
                    assert(nb@[0] < nb@[p]);
                }
                assert(is_copy(v as int, v as int, d@, d1) && d1[v as int][x]);
            } else {
                assert(is_copy(n + q - 1, v as int, d@, d1) && d1[n + q - 1][x]);
            }
        }
        if exists|c: int| is_copy(c, v as int, d@, d1) && #[trigger] d1[c][x] {
            let c = choose|c: int| is_copy(c, v as int, d@, d1) && #[trigger] d1[c][x];
            if c != v {
                let q = c - n + 1;
                assert(d1[n + q - 1][x] == (x == nb@[q]));
                assert(nb@.contains(nb@[q]));
            }
        }
    }
    assert forall|c: int, e: int, x: int|
        is_copy(c, v as int, d@, d1) && is_copy(e, v as int, d@, d1) && 0 <= x < d@.len() && x != v
            && #[trigger] d1[c][x] && #[trigger] d1[e][x] implies c == e by {
        if c != v {
            let qc = c - n + 1;
            assert(d1[n + qc - 1][x] == (x == nb@[qc]));
        }
        if e != v {
            let qe = e - n + 1;
            assert(d1[n + qe - 1][x] == (x == nb@[qe]));
        }
        if c != v && e != v {
            let qc = c - n + 1;
            let qe = e - n + 1;
            if qc < qe {
                assert(nb@[qc] < nb@[qe]);
            } else if qe < qc {
                assert(nb@[qe] < nb@[qc]);
            }
        }
    }
    assert forall|c: int, x: int, y: int|
        is_copy(c, v as int, d@, d1) && 0 <= x < d@.len() && x != v && 0 <= y < d@.len() && y != v
            && #[trigger] d1[c][x] && #[trigger] d1[c][y] implies x == y by {
        if c != v {
            let q = c - n + 1;
            assert(d1[n + q - 1][x] == (x == nb@[q]));
            assert(d1[n + q - 1][y] == (y == nb@[q]));
        } else {
            assert(nb@.contains(x as VertexId));
            assert(nb@.contains(y as VertexId));
            let qx = choose|q: int| 0 <= q < nb@.len() && nb@[q] == x as VertexId;
            let qy = choose|q: int| 0 <= q < nb@.len() && nb@[q] == y as VertexId;
            if qx != 0 {
                assert(nb@[qx] != x);
            }
            if qy != 0 {
                assert(nb@[qy] != y);
            }
        }
    }
    assert(lists_neighbours(d@, v as int, nb@));
    assert forall|q: int, x: int|
        0 <= q < nb@.len() && 0 <= x < d@.len() && x != v implies (#[trigger] d1[copy_id(
            v as int,
            d@.len() as int,
            q,
        )][x] <==> x == nb@[q]) by {
        if q == 0 {
            assert(d1[v as int][x] == (d@[v as int][x] && forall|p: int|
                1 <= p < deg ==> #[trigger] nb@[p] != x));
            if x == nb@[0] {
                assert(nb@.contains(nb@[0]));
                assert forall|p: int| 1 <= p < deg implies #[trigger] nb@[p] != x by {
                    assert(nb@[0] < nb@[p]);
                }
            }
            if d1[v as int][x] {
                assert(nb@.contains(x as VertexId));
                let k = choose|k: int| 0 <= k < nb@.len() && nb@[k] == x as VertexId;
                if k != 0 {
                    assert(nb@[k] != x);
                }
            }
        } else {
            assert(d1[n + q - 1][x] == (x == nb@[q]));
        }
    }
    assert(nb@.len() == ring@.len());
    assert forall|c: int| #[trigger]
        is_copy(c, v as int, d@, d1) implies exists|x: int| 0 <= x < d@.len() && x != v && #[trigger] d1[c][x] by {
        if c == v {
            let x = nb@[0] as int;
            assert(nb@.contains(nb@[0]));
            assert forall|p: int| 1 <= p < deg implies #[trigger] nb@[p] != x by {
                assert(nb@[0] < nb@[p]);
            }
            assert(d1[c][x]);
        } else {
            let q = c - n + 1;
            let x = nb@[q] as int;
            assert(d1[n + q - 1][x] == (x == nb@[q]));
            assert(d1[c][x]);
        }
    }
    Some(Split { distance: dist, cycles, ring })
}

impl Shape {
    /// A polyhedron with the given connectivity and faces; `InvalidTopology` where a face does
    /// not walk along edges of the connectivity.
    pub fn new(distance: Distance, cycles: Cycles) -> (r: Result<Shape, TopologyError>)
        requires
            distance.wf(),
        ensures
            r is Ok <==> faces_fit(distance@, cycles@),
            r is Ok ==> r->Ok_0.distance@ == distance@ && r->Ok_0.cycles@ == cycles@,
            r is Ok ==> r->Ok_0.wf(),
            r is Err ==> r->Err_0 == TopologyError::InvalidTopology,
    {
        if check_faces(&distance, &cycles) {
            Ok(Shape { distance, cycles })
        } else {
            Err(TopologyError::InvalidTopology)
        }
    }

    /// The tetrahedron: four vertices joined pairwise, and four triangular faces.
    pub fn tetrahedron() -> (r: Shape)
        ensures
            r.wf(),
            r.distance@ == complete4(),
            r.cycles@ == seq![seq![0usize, 1, 2], seq![0usize, 3, 1], seq![0usize, 2, 3], seq![1usize, 3, 2]],
    {
        let distance = Distance::tetrahedron();
        let cycles = Cycles::new(vec![vec![0, 1, 2], vec![0, 3, 1], vec![0, 2, 3], vec![1, 3, 2]]);
        let ghost faces = seq![seq![0usize, 1, 2], seq![0usize, 3, 1], seq![0usize, 2, 3], seq![1usize, 3, 2]];
        assert(cycles@ =~= faces);
        assert forall|i: int| 0 <= i < faces.len() implies face_fits(complete4(), #[trigger] faces[i]) by {
            let f = faces[i];
            assert forall|k: int| 0 <= k < f.len() implies complete4()[#[trigger] f[k] as int][circ_next(f, k) as int] by {}
        }
        Shape { distance, cycles }
    }

    /// Splits vertex `v` into as many vertices as it has neighbours, one for each: the first
    /// keeps the id `v`, the others take new ids after the existing ones. Each face through `v`
    /// now passes through the two copies facing its neighbours there, and the copies bound a new
    /// face, whose edges are returned.
    /// `InvalidTopology` where `v` is no vertex or the faces around it do not close up into one
    /// ring; nothing changes then.
    pub fn split_vertex(&mut self, v: VertexId) -> (r: Result<Vec<[VertexId; 2]>, TopologyError>)
        requires
            old(self).wf(),
        ensures
            final(self).wf(),
            v >= old(self).distance.n() ==> r is Err,
            r is Err ==> r->Err_0 == TopologyError::InvalidTopology && final(self).distance@ == old(
                self,
            ).distance@ && final(self).cycles@ == old(self).cycles@,
            r is Ok ==> is_split(
                old(self).distance@,
                old(self).cycles@,
                v,
                final(self).distance@,
                final(self).cycles@,
                r->Ok_0@,
            ),
    {
        match split_of(&self.distance, &self.cycles, v) {
            None => Err(TopologyError::InvalidTopology),
            Some(s) => {
                self.distance = s.distance;
                self.cycles = s.cycles;
                Ok(s.ring)
            },
        }
    }

    /// Truncates every vertex: splits the vertices `0..n` present at the start one after the other and
    /// returns all the edges of the new faces.
    /// `InvalidTopology` where one split is refused; nothing changes then.
    pub fn truncate(&mut self) -> (r: Result<Vec<[VertexId; 2]>, TopologyError>)
        requires
            old(self).wf(),
        ensures
            final(self).wf(),
            r is Err ==> r->Err_0 == TopologyError::InvalidTopology && final(self).distance@ == old(
                self,
            ).distance@ && final(self).cycles@ == old(self).cycles@,
            r is Ok ==> final(self).cycles@.len() == old(self).cycles@.len() + old(self).distance.n(),
            r is Ok ==> final(self).distance.n() >= old(self).distance.n(),
            r is Ok ==> forall|k: int|
                0 <= k < r->Ok_0@.len() ==> #[trigger] r->Ok_0@[k][0] < final(self).distance.n()
                    && r->Ok_0@[k][1] < final(self).distance.n() && final(self).distance.adj(
                    r->Ok_0@[k][0] as int,
                    r->Ok_0@[k][1] as int,
                ),
    {
        let n0 = self.distance.len();
        let mut d = self.distance.snapshot();
        let mut c = self.cycles.snapshot();
        let mut all: Vec<[VertexId; 2]> = Vec::new();
        let mut v: usize = 0;
        while v < n0
            invariant
                self.wf(),
                self.distance@ == old(self).distance@,
                self.cycles@ == old(self).cycles@,
                d.wf(),
                faces_fit(d@, c@),
                d.n() >= n0,
                v <= n0,
                c@.len() == self.cycles@.len() + v,
                forall|k: int|
                    0 <= k < all@.len() ==> #[trigger] all@[k][0] < d.n() && all@[k][1] < d.n()
                        && d.adj(all@[k][0] as int, all@[k][1] as int) && (all@[k][0] < v
                        || all@[k][0] >= n0) && (all@[k][1] < v || all@[k][1] >= n0),
            decreases n0 - v,
        {
            let s = match split_of(&d, &c, v) {
                None => return Err(TopologyError::InvalidTopology),
                Some(s) => s,
            };
            let ghost gd = d;
            let ghost before = all@;
            let mut j: usize = 0;
            while j < s.ring.len()
                invariant
                    is_split(gd@, c@, v, s.distance@, s.cycles@, s.ring@),
                    gd.wf(),
                    gd.n() >= n0,
                    v < n0,
                    j <= s.ring@.len(),
                    all@.len() == before.len() + j,
                    forall|k: int| 0 <= k < before.len() ==> #[trigger] all@[k] == before[k],
                    forall|k: int|
                        0 <= k < before.len() ==> #[trigger] before[k][0] < gd.n() && before[k][1]
                            < gd.n() && gd.adj(before[k][0] as int, before[k][1] as int) && (
                        before[k][0] < v || before[k][0] >= n0) && (before[k][1] < v
                            || before[k][1] >= n0),
                    forall|k: int|
                        before.len() <= k < all@.len() ==> #[trigger] all@[k] == s.ring@[k
                            - before.len()],
                decreases s.ring@.len() - j,
            {
                all.push(s.ring[j]);
                j = j + 1;
            }
            assert forall|k: int|
                0 <= k < all@.len() implies #[trigger] all@[k][0] < s.distance.n() && all@[k][1]
                < s.distance.n() && s.distance.adj(all@[k][0] as int, all@[k][1] as int) && (
            all@[k][0] < v + 1 || all@[k][0] >= n0) && (all@[k][1] < v + 1 || all@[k][1] >= n0) by {
                if k < before.len() {
                    assert(before[k][0] < gd.n());
                    assert(s.distance@[before[k][0] as int][before[k][1] as int] == gd@[before[k][0] as int][before[k][1] as int]);
                } else {
                    let q = k - before.len();
                    assert(s.ring@[q][0] == v || s.ring@[q][0] >= gd.n());
                    assert(s.distance@[s.ring@[q][0] as int][s.ring@[q][1] as int]);
                    assert(is_boundary(s.cycles@.last(), s.ring@));
                    assert(crate::cycles::is_step(s.cycles@.last(), s.ring@[q][0], s.ring@[q][1]));
                }
            }
            d = s.distance;
            c = s.cycles;
            v = v + 1;
        }
        self.distance = d;
        self.cycles = c;
        Ok(all)
    }

    /// Contracts the edge between `a` and `b` in the connectivity and the faces together. The
    /// smaller id `lo` keeps the merged vertex; on every face the larger id `hi` is replaced by
    /// `lo` (dropped where it stood next to `lo`), and then, as in the connectivity, every id
    /// above `hi` moves down by one, so that the ids stay `0..n - 1`. `InvalidTopology`, with
    /// nothing changed, where `a` and `b` are not joined by an edge or where a face would no
    /// longer fit the contracted connectivity (for one, by shrinking below three vertices).
    pub fn contract_edge(&mut self, a: VertexId, b: VertexId) -> (r: Result<(), TopologyError>)
        requires
            old(self).wf(),
        ensures
            final(self).wf(),
            r is Ok <==> (a < old(self).distance.n() && b < old(self).distance.n()
                && old(self).distance.adj(a as int, b as int) && faces_fit(
                contracted(old(self).distance@, a as int, b as int),
                contracted_faces(old(self).cycles@, a, b),
            )),
            r is Ok ==> final(self).distance@ == contracted(old(self).distance@, a as int, b as int),
            r is Ok ==> final(self).cycles@ == contracted_faces(old(self).cycles@, a, b),
            r is Err ==> r->Err_0 == TopologyError::InvalidTopology && final(self).distance@ == old(
                self,
            ).distance@ && final(self).cycles@ == old(self).cycles@,
    {
        let n = self.distance.len();
        if a >= n || b >= n || !self.distance.connected(a, b) {
            return Err(TopologyError::InvalidTopology);
        }
        let lo = if a < b { a } else { b };
        let hi = if a < b { b } else { a };
        let mut distance = self.distance.snapshot();
        distance.contract(a, b);
        let mut cycles = self.cycles.snapshot();
        let ghost before = cycles@;
        cycles.replace(hi, lo);
        cycles.delete(hi);
        assert(cycles@ =~= contracted_faces(before, a, b));
        if !check_faces(&distance, &cycles) {
            return Err(TopologyError::InvalidTopology);
        }
        self.distance = distance;
        self.cycles = cycles;
        Ok(())
    }

    /// A copy of the polyhedron, independent of it from now on.
    pub fn snapshot(&self) -> (r: Shape)
        ensures
            r.distance@ == self.distance@,
            r.cycles@ == self.cycles@,
            r.distance.n() == self.distance.n(),
    {
        Shape { distance: self.distance.snapshot(), cycles: self.cycles.snapshot() }
    }
}

} // verus!
