use vstd::prelude::*;

use crate::{TopologyError, VertexId};

verus! {

/// The connectivity of a polyhedron: a symmetric adjacency matrix over the vertex ids `0..n`.
#[derive(Debug, Clone, PartialEq, Eq)]
pub struct Distance {
    pub matrix: Vec<Vec<bool>>,
}

impl View for Distance {
    type V = Seq<Seq<bool>>;

    open spec fn view(&self) -> Seq<Seq<bool>> {
        self.matrix@.map_values(|row: Vec<bool>| row@)
    }
}

/// `m` is square, symmetric and free of self-loops.
pub open spec fn well_formed(m: Seq<Seq<bool>>) -> bool {
    &&& forall|i: int| 0 <= i < m.len() ==> #[trigger] m[i].len() == m.len()
    &&& forall|i: int, j: int| 0 <= i < m.len() && 0 <= j < m.len() ==> #[trigger] m[i][j] == m[j][i]
    &&& forall|i: int| 0 <= i < m.len() ==> !#[trigger] m[i][i]
}

/// `n` vertices and no edge.
pub open spec fn empty_graph(n: nat) -> Seq<Seq<bool>> {
    Seq::new(n, |i: int| Seq::new(n, |j: int| false))
}

/// The complete graph on four vertices.
pub open spec fn complete4() -> Seq<Seq<bool>> {
    Seq::new(4, |i: int| Seq::new(4, |j: int| i != j))
}

/// `m` with the edge between `a` and `b` set to `on`.
pub open spec fn with_edge(m: Seq<Seq<bool>>, a: int, b: int, on: bool) -> Seq<Seq<bool>> {
    Seq::new(
        m.len(),
        |i: int|
            Seq::new(
                m[i].len(),
                |j: int|
                    if (i == a && j == b) || (i == b && j == a) {
                        on
                    } else {
                        m[i][j]
                    },
            ),
    )
}

/// Setting one edge leaves every other pair as it was.
pub proof fn lemma_with_edge_keeps(m: Seq<Seq<bool>>, a: int, b: int, on: bool, i: int, j: int)
    requires
        well_formed(m),
        0 <= i < m.len(),
        0 <= j < m.len(),
        !((i == a && j == b) || (i == b && j == a)),
    ensures
        with_edge(m, a, b, on)[i][j] == m[i][j],
{
}

/// `m` with `k` isolated vertices added after the others.
pub open spec fn grown(m: Seq<Seq<bool>>, k: nat) -> Seq<Seq<bool>> {
    Seq::new(
        m.len() + k,
        |i: int|
            Seq::new(
                m.len() + k,
                |j: int|
                    if i < m.len() && j < m.len() {
                        m[i][j]
                    } else {
                        false
                    },
            ),
    )
}

/// The id that new vertex `i` had before vertex `v` was taken out.
pub open spec fn skip(i: int, v: int) -> int {
    if i < v {
        i
    } else {
        i + 1
    }
}

/// `m` with vertex `v` and its edges removed, higher ids moved down by one.
pub open spec fn removed(m: Seq<Seq<bool>>, v: int) -> Seq<Seq<bool>> {
    Seq::new(
        (m.len() - 1) as nat,
        |i: int| Seq::new((m.len() - 1) as nat, |j: int| m[skip(i, v)][skip(j, v)]),
    )
}

/// Vertices `lo` and `hi` of `m` merged into one at `lo`: it has the edges of both (but none to
/// itself), and then `hi` is removed.
pub open spec fn merged(m: Seq<Seq<bool>>, lo: int, hi: int) -> Seq<Seq<bool>> {
    Seq::new(
        (m.len() - 1) as nat,
        |i: int|
            Seq::new(
                (m.len() - 1) as nat,
                |j: int|
                    {
                        let x = skip(i, hi);
                        let y = skip(j, hi);
                        i != j && (m[x][y] || (x == lo && m[hi][y]) || (y == lo && m[x][hi]))
                    },
            ),
    )
}

/// The edge between `a` and `b` contracted: the smaller id keeps the merged vertex.
pub open spec fn contracted(m: Seq<Seq<bool>>, a: int, b: int) -> Seq<Seq<bool>> {
    if a < b {
        merged(m, a, b)
    } else {
        merged(m, b, a)
    }
}

/// Where id `x` goes when the edge between `a` and `b` is contracted.
pub open spec fn moved(x: VertexId, a: VertexId, b: VertexId) -> VertexId {
    let lo = if a < b { a } else { b };
    let hi = if a < b { b } else { a };
    if x == hi {
        lo
    } else if x > hi {
        (x - 1) as VertexId
    } else {
        x
    }
}

/// The edge `e` renamed after the edge between `a` and `b` was contracted.
pub open spec fn moved_edge(e: [VertexId; 2], a: VertexId, b: VertexId) -> [VertexId; 2] {
    [moved(e[0], a, b), moved(e[1], a, b)]
}

/// Every edge of `edges` contracted in turn; each later edge is renamed by the earlier
/// contractions, and one whose ends have already been merged is passed over.
pub open spec fn contracted_all(m: Seq<Seq<bool>>, edges: Seq<[VertexId; 2]>) -> Seq<Seq<bool>>
    decreases edges.len(),
{
    if edges.len() == 0 {
        m
    } else {
        let e = edges[0];
        let rest = edges.drop_first();
        if e[0] == e[1] {
            contracted_all(m, rest)
        } else {
            contracted_all(
                contracted(m, e[0] as int, e[1] as int),
                rest.map_values(|f: [VertexId; 2]| moved_edge(f, e[0], e[1])),
            )
        }
    }
}

/// `x` comes before `y` in lexicographic order.
pub open spec fn lex_less(x: [VertexId; 2], y: [VertexId; 2]) -> bool {
    x[0] < y[0] || (x[0] == y[0] && x[1] < y[1])
}

/// The neighbours of `v` in `m`.
pub open spec fn neighbours(m: Seq<Seq<bool>>, v: int) -> Set<VertexId> {
    Set::new(|u: VertexId| u < m.len() && m[v][u as int])
}

/// `es` lists every pair `[i, j]` with `i < j` that shares an edge in `m`, each once, in
/// lexicographic order.
pub open spec fn lists_edges(m: Seq<Seq<bool>>, es: Seq<[VertexId; 2]>) -> bool {
    &&& forall|k: int|
        0 <= k < es.len() ==> es[k][0] < #[trigger] es[k][1] && es[k][1] < m.len() && m[es[k][0] as int][es[k][1] as int]
    &&& forall|i: int, j: int|
        0 <= i < j < m.len() && m[i][j] ==> exists|k: int|
            0 <= k < es.len() && #[trigger] es[k][0] == i && es[k][1] == j
    &&& forall|a: int, b: int| 0 <= a < b < es.len() ==> lex_less(#[trigger] es[a], #[trigger] es[b])
}

/// Every end of every edge is a vertex of an `n`-vertex graph.
pub open spec fn edges_within(edges: Seq<[VertexId; 2]>, n: nat) -> bool {
    forall|i: int| 0 <= i < edges.len() ==> #[trigger] edges[i][0] < n && edges[i][1] < n
}

impl Distance {
    /// The number of vertices.
    pub open spec fn n(&self) -> nat {
        self.matrix@.len()
    }

    /// Square, symmetric and free of self-loops.
    pub open spec fn wf(&self) -> bool {
        well_formed(self@)
    }

    /// Whether `i` and `j` share an edge.
    pub open spec fn adj(&self, i: int, j: int) -> bool {
        self@[i][j]
    }
}

/// A copy of `row`.
fn copy_row(row: &Vec<bool>) -> (r: Vec<bool>)
    ensures
        r@ == row@,
{
    let mut out: Vec<bool> = Vec::new();
    let mut j: usize = 0;
    while j < row.len()
        invariant
            j <= row@.len(),
            out@ == row@.take(j as int),
        decreases row@.len() - j,
    {
        out.push(row[j]);
        j = j + 1;
        assert(out@ =~= row@.take(j as int));
    }
    assert(out@ =~= row@);
    out
}

/// Where `x` goes when the edge between `a` and `b` is contracted.
fn moved_id(x: VertexId, a: VertexId, b: VertexId) -> (r: VertexId)
    ensures
        r == moved(x, a, b),
{
    let lo = if a < b { a } else { b };
    let hi = if a < b { b } else { a };
    if x == hi {
        lo
    } else if x > hi {
        x - 1
    } else {
        x
    }
}

impl Distance {
    /// `n` vertices and no edge.
    pub fn new(n: usize) -> (r: Distance)
        ensures
            r@ == empty_graph(n as nat),
            r.n() == n,
            r.wf(),
    {
        let mut matrix: Vec<Vec<bool>> = Vec::new();
        let mut i: usize = 0;
        while i < n
            invariant
                i <= n,
                matrix@.len() == i,
                forall|a: int| 0 <= a < i ==> #[trigger] matrix@[a]@ == Seq::new(n as nat, |j: int| false),
            decreases n - i,
        {
            let mut row: Vec<bool> = Vec::new();
            let mut j: usize = 0;
            while j < n
                invariant
                    j <= n,
                    row@ == Seq::new(j as nat, |b: int| false),
                decreases n - j,
            {
                row.push(false);
                j = j + 1;
                assert(row@ =~= Seq::new(j as nat, |b: int| false));
            }
            matrix.push(row);
            i = i + 1;
        }
        let r = Distance { matrix };
        assert(r@ =~= empty_graph(n as nat));
        r
    }

    /// The number of vertices.
    pub fn len(&self) -> (r: usize)
        ensures
            r == self.n(),
    {
        self.matrix.len()
    }

    /// Whether `i` and `j` share an edge.
    pub fn connected(&self, i: VertexId, j: VertexId) -> (r: bool)
        requires
            self.wf(),
            i < self.n(),
            j < self.n(),
        ensures
            r == self.adj(i as int, j as int),
    {
        assert(self.matrix@[i as int]@ == self@[i as int]);
        self.matrix[i][j]
    }

    /// Sets the edge between `a` and `b` to `on`, in both directions.
    fn set_edge(&mut self, a: VertexId, b: VertexId, on: bool)
        requires
            well_formed(old(self)@),
            a < old(self).n(),
            b < old(self).n(),
        ensures
            final(self)@ == with_edge(old(self)@, a as int, b as int, on),
            final(self).n() == old(self).n(),
    {
        let ghost m = self@;
        assert(self.matrix@[a as int]@ == m[a as int]);
        assert(m[a as int].len() == m.len() && m[b as int].len() == m.len());
        let mut row = copy_row(&self.matrix[a]);
        row.set(b, on);
        self.matrix.set(a, row);
        assert(self.matrix@[b as int]@ == self@[b as int]);
        assert(self@[b as int].len() == m.len());
        let mut row = copy_row(&self.matrix[b]);
        row.set(a, on);
        self.matrix.set(b, row);
        let ghost w = with_edge(m, a as int, b as int, on);
        assert forall|i: int| 0 <= i < m.len() implies #[trigger] self@[i] =~= w[i] by {
            assert(self@[i] == self.matrix@[i]@);
        }
        assert(self@ =~= w);
    }

    /// Joins `a` and `b` by an edge.
    pub fn connect(&mut self, a: VertexId, b: VertexId)
        requires
            old(self).wf(),
            a < old(self).n(),
            b < old(self).n(),
            a != b,
        ensures
            final(self)@ == with_edge(old(self)@, a as int, b as int, true),
            final(self).n() == old(self).n(),
            final(self).wf(),
    {
        self.set_edge(a, b, true);
    }

    /// Removes the edge between `a` and `b`, if there is one.
    pub fn disconnect(&mut self, a: VertexId, b: VertexId)
        requires
            old(self).wf(),
            a < old(self).n(),
            b < old(self).n(),
        ensures
            final(self)@ == with_edge(old(self)@, a as int, b as int, false),
            final(self).n() == old(self).n(),
            final(self).wf(),
    {
        self.set_edge(a, b, false);
    }

    /// The vertex ids `0..n`, in order.
    pub fn vertices(&self) -> (r: Vec<VertexId>)
        ensures
            r@ == Seq::new(self.n(), |i: int| i as VertexId),
    {
        let n = self.matrix.len();
        let mut out: Vec<VertexId> = Vec::new();
        let mut i: usize = 0;
        while i < n
            invariant
                i <= n,
                n == self.n(),
                out@ == Seq::new(i as nat, |k: int| k as VertexId),
            decreases n - i,
        {
            out.push(i);
            i = i + 1;
            assert(out@ =~= Seq::new(i as nat, |k: int| k as VertexId));
        }
        out
    }

    /// The neighbours of `v`, in increasing order.
    pub fn connections(&self, v: VertexId) -> (r: Vec<VertexId>)
        requires
            self.wf(),
            v < self.n(),
        ensures
            forall|a: int, b: int| 0 <= a < b < r@.len() ==> r@[a] < r@[b],
            forall|u: VertexId| r@.contains(u) <==> (u < self.n() && self.adj(v as int, u as int)),
            r@.len() == neighbours(self@, v as int).len(),
    {
        let n = self.matrix.len();
        let mut out: Vec<VertexId> = Vec::new();
        let mut u: usize = 0;
        while u < n
            invariant
                self.wf(),
                v < n,
                u <= n,
                n == self.n(),
                forall|a: int, b: int| 0 <= a < b < out@.len() ==> out@[a] < out@[b],
                forall|a: int| 0 <= a < out@.len() ==> out@[a] < u,
                forall|w: VertexId| out@.contains(w) <==> (w < u && self.adj(v as int, w as int)),
            decreases n - u,
        {
            if self.connected(v, u) {
                let ghost prev = out@;
                out.push(u);
                assert forall|w: VertexId| out@.contains(w) <==> (w < u + 1 && self.adj(v as int, w as int)) by {
                    if out@.contains(w) && w != u {
                        let k = choose|k: int| 0 <= k < out@.len() && out@[k] == w;
                        assert(prev[k] == w);
                    }
                    if w < u && self.adj(v as int, w as int) {
                        let k = choose|k: int| 0 <= k < prev.len() && prev[k] == w;
                        assert(out@[k] == w);
                    }
                    if w == u {
                        assert(out@[out@.len() - 1] == w);
                    }
                }
            }
            u = u + 1;
        }
        proof {
            assert(out@.no_duplicates()) by {
                assert forall|a: int, b: int| 0 <= a < out@.len() && 0 <= b < out@.len() && a != b implies out@[a] != out@[b] by {
                    if a < b {
                        assert(out@[a] < out@[b]);
                    } else {
                        assert(out@[b] < out@[a]);
                    }
                }
            }
            out@.unique_seq_to_set();
            assert(out@.to_set() =~= neighbours(self@, v as int));
        }
        out
    }

    /// Every pair `[i, j]` of vertices with `i < j` that share an edge, each once, in
    /// lexicographic order.
    pub fn edges(&self) -> (r: Vec<[VertexId; 2]>)
        requires
            self.wf(),
        ensures
            lists_edges(self@, r@),
    {
        let n = self.matrix.len();
        let mut out: Vec<[VertexId; 2]> = Vec::new();
        let mut i: usize = 0;
        while i < n
            invariant
                self.wf(),
                n == self.n(),
                i <= n,
                forall|k: int|
                    0 <= k < out@.len() ==> out@[k][0] < #[trigger] out@[k][1] && out@[k][1] < n
                        && self.adj(out@[k][0] as int, out@[k][1] as int) && out@[k][0] < i,
                forall|p: int, q: int|
                    0 <= p < q < n && p < i && self.adj(p, q) ==> exists|k: int|
                        0 <= k < out@.len() && #[trigger] out@[k][0] == p && out@[k][1] == q,
                forall|a: int, b: int|
                    0 <= a < b < out@.len() ==> lex_less(#[trigger] out@[a], #[trigger] out@[b]),
            decreases n - i,
        {
            let mut j: usize = i + 1;
            while j < n
                invariant
                    self.wf(),
                    n == self.n(),
                    i < n,
                    i + 1 <= j <= n,
                    forall|k: int|
                        0 <= k < out@.len() ==> out@[k][0] < #[trigger] out@[k][1] && out@[k][1]
                            < n && self.adj(out@[k][0] as int, out@[k][1] as int) && (out@[k][0]
                            < i || (out@[k][0] == i && out@[k][1] < j)),
                    forall|p: int, q: int|
                        0 <= p < q < n && (p < i || (p == i && q < j)) && self.adj(p, q)
                            ==> exists|k: int|
                            0 <= k < out@.len() && #[trigger] out@[k][0] == p && out@[k][1] == q,
                    forall|a: int, b: int|
                        0 <= a < b < out@.len() ==> lex_less(#[trigger] out@[a], #[trigger] out@[b]),
                decreases n - j,
            {
                if self.connected(i, j) {
                    let ghost prev = out@;
                    out.push([i, j]);
                    assert(out@[prev.len() as int][0] == i && out@[prev.len() as int][1] == j);
                    assert forall|a: int, b: int| 0 <= a < b < out@.len() implies lex_less(
                        #[trigger] out@[a],
                        #[trigger] out@[b],
                    ) by {
                        assert(out@[a] == prev[a]);
                        assert(prev[a][0] < prev[a][1]);
                        if b < prev.len() {
                            assert(out@[b] == prev[b]);
                        }
                    }
                    assert forall|p: int, q: int|
                        0 <= p < q < n && (p < i || (p == i && q < j + 1)) && self.adj(p, q)
                            implies exists|k: int|
                            0 <= k < out@.len() && #[trigger] out@[k][0] == p && out@[k][1] == q by {
                        if p == i && q == j {
                            assert(out@[prev.len() as int][0] == p);
                        } else {
                            let k = choose|k: int|
                                0 <= k < prev.len() && #[trigger] prev[k][0] == p && prev[k][1] == q;
                            assert(out@[k] == prev[k]);
                        }
                    }
                }
                j = j + 1;
            }
            assert forall|k: int| 0 <= k < out@.len() implies out@[k][0] < #[trigger] out@[k][1]
                && out@[k][1] < n && self.adj(out@[k][0] as int, out@[k][1] as int) && out@[k][0]
                < i + 1 by {}
            i = i + 1;
        }
        assert forall|p: int, q: int|
            0 <= p < q < self@.len() && self@[p][q] implies exists|k: int|
                0 <= k < out@.len() && #[trigger] out@[k][0] == p && out@[k][1] == q by {
            assert(self.adj(p, q));
        }
        out
    }

    /// The tetrahedron: four vertices, each joined to the other three.
    pub fn tetrahedron() -> (r: Distance)
        ensures
            r@ == complete4(),
            r.wf(),
    {
        let mut d = Distance::new(4);
        d.connect(0, 1);
        d.connect(0, 2);
        d.connect(0, 3);
        d.connect(1, 2);
        d.connect(1, 3);
        d.connect(2, 3);
        assert forall|i: int| 0 <= i < 4 implies #[trigger] d@[i] =~= complete4()[i] by {}
        assert(d@ =~= complete4());
        d
    }

    /// Adds `k` isolated vertices, numbered after the others.
    pub fn grow(&mut self, k: usize)
        requires
            old(self).wf(),
            old(self).n() + k <= usize::MAX,
        ensures
            final(self)@ == grown(old(self)@, k as nat),
            final(self).n() == old(self).n() + k,
            final(self).wf(),
    {
        let ghost m = self@;
        let n = self.matrix.len();
        let total = n + k;
        let mut out: Vec<Vec<bool>> = Vec::new();
        let mut i: usize = 0;
        while i < total
            invariant
                self@ == m,
                well_formed(m),
                n == m.len(),
                total == n + k,
                i <= total,
                out@.len() == i,
                forall|a: int| 0 <= a < i ==> #[trigger] out@[a]@ == grown(m, k as nat)[a],
            decreases total - i,
        {
            let mut row: Vec<bool> = Vec::new();
            let mut j: usize = 0;
            while j < total
                invariant
                    self@ == m,
                    well_formed(m),
                    n == m.len(),
                    total == n + k,
                    i < total,
                    j <= total,
                    row@ == grown(m, k as nat)[i as int].take(j as int),
                decreases total - j,
            {
                let val = if i < n && j < n { self.connected(i, j) } else { false };
                row.push(val);
                j = j + 1;
                assert(row@ =~= grown(m, k as nat)[i as int].take(j as int));
            }
            assert(row@ =~= grown(m, k as nat)[i as int]);
            out.push(row);
            i = i + 1;
        }
        self.matrix = out;
        assert forall|a: int| 0 <= a < total implies #[trigger] self@[a] == grown(m, k as nat)[a] by {
            assert(self@[a] == self.matrix@[a]@);
        }
        assert(self@ =~= grown(m, k as nat));
    }

    /// Removes vertex `v` with its edges; every higher id moves down by one.
    pub fn delete(&mut self, v: VertexId)
        requires
            old(self).wf(),
            v < old(self).n(),
        ensures
            final(self)@ == removed(old(self)@, v as int),
            final(self).n() == old(self).n() - 1,
            final(self).wf(),
    {
        let ghost m = self@;
        let n = self.matrix.len();
        let mut out: Vec<Vec<bool>> = Vec::new();
        let mut i: usize = 0;
        while i < n - 1
            invariant
                self@ == m,
                well_formed(m),
                n == m.len(),
                v < n,
                i <= n - 1,
                out@.len() == i,
                forall|a: int| 0 <= a < i ==> #[trigger] out@[a]@ == removed(m, v as int)[a],
            decreases n - 1 - i,
        {
            let x = if i < v { i } else { i + 1 };
            let mut row: Vec<bool> = Vec::new();
            let mut j: usize = 0;
            while j < n - 1
                invariant
                    self@ == m,
                    well_formed(m),
                    n == m.len(),
                    v < n,
                    i < n - 1,
                    x == skip(i as int, v as int),
                    j <= n - 1,
                    row@ == removed(m, v as int)[i as int].take(j as int),
                decreases n - 1 - j,
            {
                let y = if j < v { j } else { j + 1 };
                row.push(self.connected(x, y));
                j = j + 1;
                assert(row@ =~= removed(m, v as int)[i as int].take(j as int));
            }
            assert(row@ =~= removed(m, v as int)[i as int]);
            out.push(row);
            i = i + 1;
        }
        self.matrix = out;
        assert forall|a: int| 0 <= a < n - 1 implies #[trigger] self@[a] == removed(m, v as int)[a] by {
            assert(self@[a] == self.matrix@[a]@);
        }
        assert(self@ =~= removed(m, v as int));
    }

    /// Contracts the edge between `a` and `b`: the two become one vertex at the smaller id, with
    /// the edges of both, and the larger id is removed, higher ids moving down by one.
    pub fn contract(&mut self, a: VertexId, b: VertexId)
        requires
            old(self).wf(),
            a < old(self).n(),
            b < old(self).n(),
            a != b,
        ensures
            final(self)@ == contracted(old(self)@, a as int, b as int),
            final(self).n() == old(self).n() - 1,
            final(self).wf(),
    {
        let ghost m = self@;
        let lo = if a < b { a } else { b };
        let hi = if a < b { b } else { a };
        let ghost target = merged(m, lo as int, hi as int);
        let n = self.matrix.len();
        let mut out: Vec<Vec<bool>> = Vec::new();
        let mut i: usize = 0;
        while i < n - 1
            invariant
                self@ == m,
                well_formed(m),
                n == m.len(),
                lo < hi < n,
                target == merged(m, lo as int, hi as int),
                i <= n - 1,
                out@.len() == i,
                forall|p: int| 0 <= p < i ==> #[trigger] out@[p]@ == target[p],
            decreases n - 1 - i,
        {
            let x = if i < hi { i } else { i + 1 };
            let mut row: Vec<bool> = Vec::new();
            let mut j: usize = 0;
            while j < n - 1
                invariant
                    self@ == m,
                    well_formed(m),
                    n == m.len(),
                    lo < hi < n,
                    target == merged(m, lo as int, hi as int),
                    i < n - 1,
                    x == skip(i as int, hi as int),
                    j <= n - 1,
                    row@ == target[i as int].take(j as int),
                decreases n - 1 - j,
            {
                let y = if j < hi { j } else { j + 1 };
                let val = i != j && (self.connected(x, y) || (x == lo && self.connected(hi, y)) || (
                y == lo && self.connected(x, hi)));
                row.push(val);
                j = j + 1;
                assert(row@ =~= target[i as int].take(j as int));
            }
            assert(row@ =~= target[i as int]);
            out.push(row);
            i = i + 1;
        }
        self.matrix = out;
        assert forall|p: int| 0 <= p < n - 1 implies #[trigger] self@[p] == target[p] by {
            assert(self@[p] == self.matrix@[p]@);
        }
        assert(self@ =~= target);
    }


    /// Contracts every edge of `edges` in turn. Ids named by a later edge are read as they
    /// were before any contraction: each contraction renames them as it renames the vertices,
    /// and an edge whose ends have already been merged is passed over. An edge with an end
    /// outside `0..n` gives `InvalidTopology`, and nothing changes.
    pub fn contract_edges(&mut self, edges: Vec<[VertexId; 2]>) -> (r: Result<(), TopologyError>)
        requires
            old(self).wf(),
        ensures
            r is Ok <==> edges_within(edges@, old(self).n()),
            r is Ok ==> final(self)@ == contracted_all(old(self)@, edges@),
            r is Err ==> *final(self) == *old(self) && r->Err_0 == TopologyError::InvalidTopology,
            final(self).wf(),
    {
        let ghost m = self@;
        let n = self.matrix.len();
        let mut i: usize = 0;
        while i < edges.len()
            invariant
                self.wf(),
                n == self.n(),
                i <= edges@.len(),
                forall|p: int| 0 <= p < i ==> #[trigger] edges@[p][0] < n && edges@[p][1] < n,
            decreases edges@.len() - i,
        {
            if edges[i][0] >= n || edges[i][1] >= n {
                return Err(TopologyError::InvalidTopology);
            }
            i = i + 1;
        }
        let mut cur = edges;
        let len = cur.len();
        let mut k: usize = 0;
        assert(cur@.skip(0) =~= cur@);
        while k < len
            invariant
                self.wf(),
                len == cur@.len(),
                k <= len,
                contracted_all(self@, cur@.skip(k as int)) == contracted_all(m, edges@),
                edges_within(cur@.skip(k as int), self.n()),
            decreases len - k,
        {
            let e = cur[k];
            let ghost before = cur@;
            assert(before.skip(k as int).drop_first() =~= before.skip(k as int + 1));
            assert(before.skip(k as int)[0] == e);
            if e[0] != e[1] {
                let ghost nb = self.n();
                assert(e[0] < nb && e[1] < nb);
                assert(edges_within(before.skip(k as int), nb));
                self.contract(e[0], e[1]);
                assert(self.n() == self@.len());
                assert(self.n() == nb - 1);
                let mut q: usize = k + 1;
                while q < len
                    invariant
                        len == cur@.len(),
                        len == before.len(),
                        k < q <= len,
                        forall|p: int|
                            k < p < q ==> #[trigger] cur@[p] == moved_edge(before[p], e[0], e[1]),
                        forall|p: int| q <= p < len ==> #[trigger] cur@[p] == before[p],
                    decreases len - q,
                {
                    let f = cur[q];
                    cur.set(q, [moved_id(f[0], e[0], e[1]), moved_id(f[1], e[0], e[1])]);
                    q = q + 1;
                }
                assert(cur@.skip(k as int + 1) =~= before.skip(k as int + 1).map_values(
                    |f: [VertexId; 2]| moved_edge(f, e[0], e[1]),
                ));
                assert forall|p: int| 0 <= p < cur@.skip(k as int + 1).len() implies #[trigger] cur@.skip(
                    k as int + 1,
                )[p][0] < self.n() && cur@.skip(k as int + 1)[p][1] < self.n() by {
                    assert(before.skip(k as int)[p + 1] == before[k + 1 + p]);
                    assert(before.skip(k as int)[p + 1][0] < nb);
                    assert(before.skip(k as int)[p + 1][1] < nb);
                    assert(before[k + 1 + p][0] < nb && before[k + 1 + p][1] < nb);
                }
            }
            k = k + 1;
        }
        assert(cur@.skip(len as int) =~= Seq::<[VertexId; 2]>::empty());
        Ok(())
    }


    /// A copy of this structure, independent of it from now on.
    pub fn snapshot(&self) -> (r: Distance)
        ensures
            r@ == self@,
            r.n() == self.n(),
    {
        let mut out: Vec<Vec<bool>> = Vec::new();
        let mut i: usize = 0;
        while i < self.matrix.len()
            invariant
                i <= self.matrix@.len(),
                out@.len() == i,
                forall|a: int| 0 <= a < i ==> #[trigger] out@[a]@ == self.matrix@[a]@,
            decreases self.matrix@.len() - i,
        {
            out.push(copy_row(&self.matrix[i]));
            i = i + 1;
        }
        let r = Distance { matrix: out };
        assert(r@ =~= self@);
        r
    }


    /// Whether the matrix is square, symmetric and free of self-loops.
    pub fn is_well_formed(&self) -> (r: bool)
        ensures
            r == self.wf(),
    {
        let n = self.matrix.len();
        let mut i: usize = 0;
        while i < n
            invariant
                n == self@.len(),
                i <= n,
                forall|a: int| 0 <= a < i ==> #[trigger] self@[a].len() == n,
            decreases n - i,
        {
            assert(self.matrix@[i as int]@ == self@[i as int]);
            if self.matrix[i].len() != n {
                return false;
            }
            i = i + 1;
        }
        let mut i: usize = 0;
        while i < n
            invariant
                n == self@.len(),
                i <= n,
                forall|a: int| 0 <= a < n ==> #[trigger] self@[a].len() == n,
                forall|a: int, b: int| 0 <= a < i && 0 <= b < n ==> #[trigger] self@[a][b] == self@[b][a],
                forall|a: int| 0 <= a < i ==> !#[trigger] self@[a][a],
            decreases n - i,
        {
            let mut j: usize = 0;
            while j < n
                invariant
                    n == self@.len(),
                    i < n,
                    j <= n,
                    forall|a: int| 0 <= a < n ==> #[trigger] self@[a].len() == n,
                    forall|a: int, b: int| 0 <= a < i && 0 <= b < n ==> #[trigger] self@[a][b] == self@[b][a],
                    forall|b: int| 0 <= b < j ==> #[trigger] self@[i as int][b] == self@[b][i as int],
                    forall|a: int| 0 <= a < i ==> !#[trigger] self@[a][a],
                decreases n - j,
            {
                assert(self.matrix@[i as int]@ == self@[i as int]);
                assert(self.matrix@[j as int]@ == self@[j as int]);
                if self.matrix[i][j] != self.matrix[j][i] {
                    return false;
                }
                j = j + 1;
            }
            assert(self.matrix@[i as int]@ == self@[i as int]);
            if self.matrix[i][i] {
                return false;
            }
            i = i + 1;
        }
        true
    }

}

} // verus!
