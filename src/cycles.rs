use vstd::prelude::*;

use crate::{TopologyError, VertexId};

verus! {

/// One face: the circular walk of vertex ids along its boundary.
#[derive(Debug, Clone, Default)]
pub struct Cycle(pub Vec<VertexId>);

/// All faces of a polyhedron.
#[derive(Debug, Clone, Default)]
pub struct Cycles {
    pub cycles: Vec<Cycle>,
}

impl View for Cycle {
    type V = Seq<VertexId>;

    open spec fn view(&self) -> Seq<VertexId> {
        self.0@
    }
}

impl View for Cycles {
    type V = Seq<Seq<VertexId>>;

    open spec fn view(&self) -> Seq<Seq<VertexId>> {
        self.cycles@.map_values(|c: Cycle| c@)
    }
}

/// What deleting vertex `v` does to one id: it is dropped if it is `v`, and moves down if above.
pub open spec fn delete_step(v: VertexId, u: VertexId) -> Option<VertexId> {
    if u == v {
        None
    } else if u > v {
        Some((u - 1) as VertexId)
    } else {
        Some(u)
    }
}

/// A boundary with vertex `v` removed and every higher id moved down by one.
pub open spec fn deleted(s: Seq<VertexId>, v: VertexId) -> Seq<VertexId> {
    s.filter_map(|u: VertexId| delete_step(v, u))
}

/// The element before position `k` on the circular walk `s`.
pub open spec fn circ_prev(s: Seq<VertexId>, k: int) -> VertexId {
    if k == 0 {
        s[s.len() - 1]
    } else {
        s[k - 1]
    }
}

/// The element after position `k` on the circular walk `s`.
pub open spec fn circ_next(s: Seq<VertexId>, k: int) -> VertexId {
    if k + 1 == s.len() {
        s[0]
    } else {
        s[k + 1]
    }
}

/// What replacing `old` by `new` does at position `k`: an `old` next to a `new` is dropped,
/// any other `old` becomes `new`, everything else stays.
pub open spec fn replace_step(s: Seq<VertexId>, old_id: VertexId, new_id: VertexId, k: int) -> Option<
    VertexId,
> {
    if s[k] != old_id {
        Some(s[k])
    } else if circ_prev(s, k) == new_id || circ_next(s, k) == new_id {
        None
    } else {
        Some(new_id)
    }
}

/// A boundary with every `old_id` replaced by `new_id`, without placing `new_id` next to itself.
pub open spec fn replaced(s: Seq<VertexId>, old_id: VertexId, new_id: VertexId) -> Seq<VertexId> {
    Seq::new(s.len(), |k: int| replace_step(s, old_id, new_id, k)).filter_map(|o: Option<VertexId>| o)
}

/// No two circularly consecutive positions of `s` hold the same id.
pub open spec fn no_repeat(s: Seq<VertexId>) -> bool {
    s.len() >= 2 ==> forall|k: int| 0 <= k < s.len() ==> #[trigger] s[k] != circ_next(s, k)
}


/// The circular walk `s` steps between `a` and `b` somewhere, in one direction or the other.
pub open spec fn is_step(s: Seq<VertexId>, a: VertexId, b: VertexId) -> bool {
    exists|k: int|
        0 <= k < s.len() && ((s[k] == a && circ_next(s, k) == b) || (s[k] == b && circ_next(
            s,
            k,
        ) == a))
}

/// The undirected edge `e` joins `a` and `b`.
pub open spec fn joins(e: [VertexId; 2], a: VertexId, b: VertexId) -> bool {
    (e[0] == a && e[1] == b) || (e[0] == b && e[1] == a)
}

/// Some edge of `edges` joins `a` and `b`.
pub open spec fn has_join(edges: Seq<[VertexId; 2]>, a: VertexId, b: VertexId) -> bool {
    exists|i: int| 0 <= i < edges.len() && #[trigger] joins(edges[i], a, b)
}

/// `s` is a simple closed walk (at least three distinct vertices) whose steps are exactly the
/// edges of `edges`, each edge named once.
pub open spec fn is_boundary(s: Seq<VertexId>, edges: Seq<[VertexId; 2]>) -> bool {
    &&& s.len() >= 3
    &&& s.len() == edges.len()
    &&& s.no_duplicates()
    &&& forall|i: int| 0 <= i < edges.len() ==> is_step(s, #[trigger] edges[i][0], edges[i][1])
    &&& forall|k: int| 0 <= k < s.len() ==> has_join(edges, #[trigger] s[k], circ_next(s, k))
}


/// Whether the circular walk steps between `a` and `b`.
fn walk_has_step(s: &Vec<VertexId>, a: VertexId, b: VertexId) -> (r: bool)
    ensures
        r == is_step(s@, a, b),
{
    let n = s.len();
    let mut k: usize = 0;
    while k < n
        invariant
            n == s@.len(),
            k <= n,
            forall|j: int|
                0 <= j < k ==> !((s@[j] == a && circ_next(s@, j) == b) || (s@[j] == b && circ_next(
                    s@,
                    j,
                ) == a)),
        decreases n - k,
    {
        let next = if k + 1 == n { s[0] } else { s[k + 1] };
        if (s[k] == a && next == b) || (s[k] == b && next == a) {
            return true;
        }
        k = k + 1;
    }
    false
}

/// Whether some edge joins `a` and `b`.
fn edges_join(edges: &Vec<[VertexId; 2]>, a: VertexId, b: VertexId) -> (r: bool)
    ensures
        r == has_join(edges@, a, b),
{
    let mut i: usize = 0;
    while i < edges.len()
        invariant
            i <= edges@.len(),
            forall|j: int| 0 <= j < i ==> !joins(#[trigger] edges@[j], a, b),
        decreases edges@.len() - i,
    {
        let e = edges[i];
        if (e[0] == a && e[1] == b) || (e[0] == b && e[1] == a) {
            assert(joins(edges@[i as int], a, b));
            return true;
        }
        i = i + 1;
    }
    false
}

/// Whether no id occurs twice in `s`.
fn all_distinct(s: &Vec<VertexId>) -> (r: bool)
    ensures
        r == s@.no_duplicates(),
{
    let n = s.len();
    let mut i: usize = 0;
    while i < n
        invariant
            n == s@.len(),
            i <= n,
            forall|p: int, q: int| 0 <= p < q < n && p < i ==> s@[p] != s@[q],
        decreases n - i,
    {
        let mut j: usize = i + 1;
        while j < n
            invariant
                n == s@.len(),
                i < n,
                i + 1 <= j <= n,
                forall|p: int, q: int| 0 <= p < q < n && p < i ==> s@[p] != s@[q],
                forall|q: int| i < q < j ==> s@[i as int] != s@[q],
            decreases n - j,
        {
            if s[i] == s[j] {
                return false;
            }
            j = j + 1;
        }
        i = i + 1;
    }
    true
}

/// Whether `s` is a simple closed walk along exactly the given edges.
fn check_boundary(s: &Vec<VertexId>, edges: &Vec<[VertexId; 2]>) -> (r: bool)
    ensures
        r == is_boundary(s@, edges@),
{
    if s.len() < 3 || s.len() != edges.len() || !all_distinct(s) {
        return false;
    }
    let mut i: usize = 0;
    while i < edges.len()
        invariant
            i <= edges@.len(),
            forall|j: int| 0 <= j < i ==> is_step(s@, #[trigger] edges@[j][0], edges@[j][1]),
        decreases edges@.len() - i,
    {
        if !walk_has_step(s, edges[i][0], edges[i][1]) {
            return false;
        }
        i = i + 1;
    }
    let n = s.len();
    let mut k: usize = 0;
    while k < n
        invariant
            n == s@.len(),
            n >= 3,
            k <= n,
            forall|j: int| 0 <= j < k ==> has_join(edges@, #[trigger] s@[j], circ_next(s@, j)),
        decreases n - k,
    {
        let next = if k + 1 == n { s[0] } else { s[k + 1] };
        if !edges_join(edges, s[k], next) {
            return false;
        }
        k = k + 1;
    }
    true
}

/// The walk `s` starts with the first edge of `edges`, in the orientation given.
#[verifier::opaque]
pub open spec fn starts_along(s: Seq<VertexId>, edges: Seq<[VertexId; 2]>) -> bool {
    s.len() >= 2 && edges.len() >= 1 && s[0] == edges[0][0] && s[1] == edges[0][1]
}

/// Some simple closed walk has exactly the edges `edges`.
#[verifier::opaque]
pub open spec fn closes_up(edges: Seq<[VertexId; 2]>) -> bool {
    exists|s: Seq<VertexId>| is_boundary(s, edges)
}

/// The position after `k` on a circle of `len` positions.
pub open spec fn next_pos(k: int, len: int) -> int {
    if k + 1 == len {
        0
    } else {
        k + 1
    }
}

/// The position before `k` on a circle of `len` positions.
pub open spec fn prev_pos(k: int, len: int) -> int {
    if k == 0 {
        len - 1
    } else {
        k - 1
    }
}

/// The position reached after `i` moves from `p0` on a circle of `len` positions, forwards
/// where `d` is `1` and backwards otherwise.
pub open spec fn walk_pos(p0: int, d: int, i: int, len: int) -> int {
    if d == 1 {
        if p0 + i < len {
            p0 + i
        } else {
            p0 + i - len
        }
    } else {
        if p0 - i >= 0 {
            p0 - i
        } else {
            p0 - i + len
        }
    }
}

/// How many moves from `p0` reach position `k`.
pub open spec fn walk_index(p0: int, d: int, k: int, len: int) -> int {
    if d == 1 {
        if k >= p0 {
            k - p0
        } else {
            k - p0 + len
        }
    } else {
        if k <= p0 {
            p0 - k
        } else {
            p0 - k + len
        }
    }
}

/// Walking round a circle once visits every position once, one move at a time.
proof fn lemma_walk_pos(p0: int, d: int, len: int)
    requires
        0 <= p0 < len,
        d == 1 || d == -1,
    ensures
        walk_pos(p0, d, 0, len) == p0,
        forall|i: int| 0 <= i < len ==> 0 <= #[trigger] walk_pos(p0, d, i, len) < len,
        forall|i: int, j: int|
            0 <= i < len && 0 <= j < len && #[trigger] walk_pos(p0, d, i, len) == #[trigger] walk_pos(
                p0,
                d,
                j,
                len,
            ) ==> i == j,
        forall|i: int|
            0 <= i < len - 1 ==> #[trigger] walk_pos(p0, d, i + 1, len) == if d == 1 {
                next_pos(walk_pos(p0, d, i, len), len)
            } else {
                prev_pos(walk_pos(p0, d, i, len), len)
            },
        d == 1 ==> next_pos(walk_pos(p0, d, len - 1, len), len) == p0,
        d != 1 ==> prev_pos(walk_pos(p0, d, len - 1, len), len) == p0,
        forall|k: int|
            0 <= k < len ==> 0 <= #[trigger] walk_index(p0, d, k, len) < len && walk_pos(
                p0,
                d,
                walk_index(p0, d, k, len),
                len,
            ) == k,
{
}

/// A walk once round a simple closed walk `s`, in either direction, is a boundary for the same
/// edges as `s`.
proof fn lemma_walk_is_boundary(s: Seq<VertexId>, edges: Seq<[VertexId; 2]>, p0: int, d: int, face: Seq<VertexId>)
    requires
        is_boundary(s, edges),
        0 <= p0 < s.len(),
        d == 1 || d == -1,
        face.len() == s.len(),
        forall|i: int| 0 <= i < face.len() ==> #[trigger] face[i] == s[walk_pos(p0, d, i, s.len() as int)],
    ensures
        is_boundary(face, edges),
{
    let len = s.len() as int;
    lemma_walk_pos(p0, d, len);
    assert forall|a: int, b: int| 0 <= a < b < face.len() implies face[a] != face[b] by {
        assert(face[a] == s[walk_pos(p0, d, a, len)]);
        assert(face[b] == s[walk_pos(p0, d, b, len)]);
    }
    assert forall|i: int| 0 <= i < face.len() implies circ_next(face, i) == s[if d == 1 {
        next_pos(walk_pos(p0, d, i, len), len)
    } else {
        prev_pos(walk_pos(p0, d, i, len), len)
    }] by {
        if i + 1 == len {
            assert(face[0] == s[walk_pos(p0, d, 0, len)]);
        } else {
            assert(face[i + 1] == s[walk_pos(p0, d, i + 1, len)]);
        }
    }
    assert forall|e: int| 0 <= e < edges.len() implies is_step(face, #[trigger] edges[e][0], edges[e][1]) by {
        assert(is_step(s, edges[e][0], edges[e][1]));
        let k = choose|k: int|
            0 <= k < s.len() && ((s[k] == edges[e][0] && circ_next(s, k) == edges[e][1]) || (s[k]
                == edges[e][1] && circ_next(s, k) == edges[e][0]));
        assert(circ_next(s, k) == s[next_pos(k, len)]);
        if d == 1 {
            let i = walk_index(p0, d, k, len);
            assert(face[i] == s[k]);
            assert(circ_next(face, i) == s[next_pos(k, len)]);
        } else {
            let i = walk_index(p0, d, next_pos(k, len), len);
            assert(face[i] == s[next_pos(k, len)]);
            assert(prev_pos(next_pos(k, len), len) == k);
            assert(circ_next(face, i) == s[k]);
        }
    }
    assert forall|i: int| 0 <= i < face.len() implies has_join(edges, #[trigger] face[i], circ_next(face, i)) by {
        let q = walk_pos(p0, d, i, len);
        assert(face[i] == s[q]);
        if d == 1 {
            assert(has_join(edges, s[q], circ_next(s, q)));
        } else {
            let k = prev_pos(q, len);
            assert(circ_next(s, k) == s[q]);
            assert(has_join(edges, s[k], circ_next(s, k)));
            let j = choose|j: int| 0 <= j < edges.len() && #[trigger] joins(edges[j], s[k], circ_next(s, k));
            assert(joins(edges[j], face[i], circ_next(face, i)));
        }
    }
}

/// One move of the walk in `Cycle::from_edges`: on a simple closed walk `s`, the vertex that
/// `next_vertex` finds after the first `t` vertices of the walk round `s` is the next one.
#[verifier::rlimit(80)]
#[verifier::spinoff_prover]
proof fn lemma_walk_step(
    s: Seq<VertexId>,
    edges: Seq<[VertexId; 2]>,
    p0: int,
    d: int,
    face: Seq<VertexId>,
    found: Option<VertexId>,
)
    requires
        is_boundary(s, edges),
        0 <= p0 < s.len(),
        d == 1 || d == -1,
        2 <= face.len() < s.len(),
        forall|i: int| 0 <= i < face.len() ==> #[trigger] face[i] == s[walk_pos(p0, d, i, s.len() as int)],
        found is Some ==> !face.contains(found->Some_0) && has_join(edges, face.last(), found->Some_0),
        found is None ==> forall|j: int|
            0 <= j < edges.len() ==> !(#[trigger] edges[j][0] == face.last() && !face.contains(edges[j][1]))
                && !(edges[j][1] == face.last() && !face.contains(edges[j][0])),
    ensures
        found is Some,
        found->Some_0 == s[walk_pos(p0, d, face.len() as int, s.len() as int)],
{
    let m = s.len() as int;
    let t = face.len() as int;
    let last = face.last();
    lemma_walk_pos(p0, d, m);
    let x = s[walk_pos(p0, d, t, m)];
    assert forall|i: int| 0 <= i < face.len() implies face[i] != x by {
        assert(face[i] == s[walk_pos(p0, d, i, m)]);
    }
    assert(!face.contains(x));
    let q = walk_pos(p0, d, t - 1, m);
    assert(face[t - 1] == s[q]);
    if d == 1 {
        assert(circ_next(s, q) == s[next_pos(q, m)]);
        assert(has_join(edges, s[q], circ_next(s, q)));
        let i = choose|i: int| 0 <= i < edges.len() && #[trigger] joins(edges[i], s[q], circ_next(s, q));
        assert(found is Some);
    } else {
        let k = walk_pos(p0, d, t, m);
        assert(circ_next(s, k) == s[next_pos(k, m)]);
        assert(has_join(edges, s[k], circ_next(s, k)));
        let i = choose|i: int| 0 <= i < edges.len() && #[trigger] joins(edges[i], s[k], circ_next(s, k));
        assert(found is Some);
    }
    let y = found->Some_0;
    let jj = choose|jj: int| 0 <= jj < edges.len() && #[trigger] joins(edges[jj], last, y);
    assert(is_step(s, edges[jj][0], edges[jj][1]));
    let k = choose|k: int|
        0 <= k < s.len() && ((s[k] == edges[jj][0] && circ_next(s, k) == edges[jj][1]) || (s[k]
            == edges[jj][1] && circ_next(s, k) == edges[jj][0]));
    assert(circ_next(s, k) == s[next_pos(k, m)]);
    let before = walk_pos(p0, d, t - 2, m);
    assert(face[t - 2] == s[before]);
    assert(face.contains(face[t - 2]));
    if s[k] == last {
        assert(k == q);
    } else {
        assert(next_pos(k, m) == q);
        assert(k == prev_pos(q, m));
    }
    assert(y == x);
}

/// Whether `x` lies on the walk `s`.
fn walk_contains(s: &Vec<VertexId>, x: VertexId) -> (r: bool)
    ensures
        r == s@.contains(x),
{
    let mut i: usize = 0;
    while i < s.len()
        invariant
            i <= s@.len(),
            forall|j: int| 0 <= j < i ==> s@[j] != x,
        decreases s@.len() - i,
    {
        if s[i] == x {
            return true;
        }
        i = i + 1;
    }
    false
}

/// A vertex joined to `last` by some edge and not yet on `face`, if there is one.
fn next_vertex(edges: &Vec<[VertexId; 2]>, face: &Vec<VertexId>, last: VertexId) -> (r: Option<VertexId>)
    ensures
        r is Some ==> !face@.contains(r->Some_0) && has_join(edges@, last, r->Some_0),
        r is None ==> forall|j: int|
            0 <= j < edges@.len() ==> !(#[trigger] edges@[j][0] == last && !face@.contains(edges@[j][1]))
                && !(edges@[j][1] == last && !face@.contains(edges@[j][0])),
{
    let mut j: usize = 0;
    while j < edges.len()
        invariant
            j <= edges@.len(),
            forall|i: int|
                0 <= i < j ==> !(#[trigger] edges@[i][0] == last && !face@.contains(edges@[i][1]))
                    && !(edges@[i][1] == last && !face@.contains(edges@[i][0])),
        decreases edges@.len() - j,
    {
        let e = edges[j];
        if e[0] == last && !walk_contains(face, e[1]) {
            assert(joins(edges@[j as int], last, e[1]));
            return Some(e[1]);
        }
        if e[1] == last && !walk_contains(face, e[0]) {
            assert(joins(edges@[j as int], last, e[0]));
            return Some(e[0]);
        }
        j = j + 1;
    }
    None
}

impl Cycle {
    /// A face with the given boundary walk.
    pub fn from(vertices: Vec<VertexId>) -> (r: Cycle)
        ensures
            r@ == vertices@,
    {
        Cycle(vertices)
    }

    /// Rebuilds a face from the undirected edges of its boundary, given in any order and
    /// orientation: the walk starts with the first edge as given and goes on, each time, along
    /// an edge from the end reached to a vertex not yet visited. Edges that form one simple
    /// closed walk always give its face; any others give `MalformedBoundary`.
    #[verifier::rlimit(100)]
    #[verifier::spinoff_prover]
    pub fn from_edges(edges: Vec<[VertexId; 2]>) -> (r: Result<Cycle, TopologyError>)
        ensures
            r is Ok ==> is_boundary(r->Ok_0@, edges@),
            r is Ok ==> starts_along(r->Ok_0@, edges@),
            closes_up(edges@) ==> r is Ok,
            r is Err ==> r->Err_0 == TopologyError::MalformedBoundary,
    {
        proof {
            reveal(closes_up);
        }
        let m = edges.len();
        if m < 3 {
            return Err(TopologyError::MalformedBoundary);
        }
        let ghost good = closes_up(edges@);
        let ghost s: Seq<VertexId> = if good {
            choose|s: Seq<VertexId>| is_boundary(s, edges@)
        } else {
            Seq::empty()
        };
        let e0 = edges[0][0];
        let e1 = edges[0][1];
        let ghost k0: int = if good {
            choose|k: int|
                0 <= k < s.len() && ((s[k] == e0 && circ_next(s, k) == e1) || (s[k] == e1
                    && circ_next(s, k) == e0))
        } else {
            0
        };
        let ghost d: int = if good && s[k0] == e0 && circ_next(s, k0) == e1 {
            1
        } else {
            -1
        };
        let ghost p0: int = if d == 1 {
            k0
        } else {
            next_pos(k0, m as int)
        };
        proof {
            if good {
                assert(is_step(s, edges@[0][0], edges@[0][1]));
                lemma_walk_pos(p0, d, m as int);
                assert(circ_next(s, k0) == s[next_pos(k0, m as int)]);
            }
        }
        let mut face: Vec<VertexId> = vec![e0, e1];
        while face.len() < m
            invariant
                m == edges@.len(),
                m >= 3,
                2 <= face@.len() <= m,
                good == closes_up(edges@),
                face@[0] == edges@[0][0],
                face@[1] == edges@[0][1],
                good ==> is_boundary(s, edges@) && s.len() == m && (d == 1 || d == -1) && 0 <= p0 < m
                    && forall|i: int| 0 <= i < face@.len() ==> #[trigger] face@[i] == s[walk_pos(p0, d, i, m as int)],
            decreases m - face@.len(),
        {
            let t = face.len();
            let last = face[t - 1];
            let found = next_vertex(&edges, &face, last);
            proof {
                if good {
                    lemma_walk_step(s, edges@, p0, d, face@, found);
                }
            }
            match found {
                None => {
                    return Err(TopologyError::MalformedBoundary);
                },
                Some(y) => {
                    let ghost old_face = face@;
                    face.push(y);
                    proof {
                        if good {
                            assert forall|i: int| 0 <= i < face@.len() implies #[trigger] face@[i] == s[walk_pos(p0, d, i, m as int)] by {
                                if i < t {
                                    assert(face@[i] == old_face[i]);
                                }
                            }
                        }
                    }
                },
            }
        }
        proof {
            if good {
                lemma_walk_is_boundary(s, edges@, p0, d, face@);
            }
        }
        assert(starts_along(face@, edges@)) by {
            reveal(starts_along);
        }
        if check_boundary(&face, &edges) {
            Ok(Cycle(face))
        } else {
            Err(TopologyError::MalformedBoundary)
        }
    }

    /// Number of vertices on the boundary.
    pub fn len(&self) -> (r: usize)
        ensures
            r == self@.len(),
    {
        self.0.len()
    }

    /// The vertex at `index`, counted circularly.
    pub fn get(&self, index: usize) -> (r: VertexId)
        requires
            self@.len() > 0,
        ensures
            r == self@[index as int % self@.len() as int],
    {
        self.0[index % self.0.len()]
    }

    /// Writes `v` at `index`, counted circularly.
    pub fn set(&mut self, index: usize, v: VertexId)
        requires
            old(self)@.len() > 0,
        ensures
            final(self)@ == old(self)@.update(index as int % old(self)@.len() as int, v),
    {
        let i = index % self.0.len();
        self.0.set(i, v);
    }

    /// The boundary walk, front to back.
    pub fn iter(&self) -> (r: std::slice::Iter<'_, VertexId>)
        ensures
            vstd::std_specs::slice::into_iter_elts(r) == self@,
    {
        self.0.iter()
    }

    /// Whether `v` lies on the boundary.
    pub fn contains(&self, v: &VertexId) -> (r: bool)
        ensures
            r == self@.contains(*v),
    {
        let mut i: usize = 0;
        while i < self.0.len()
            invariant
                i <= self@.len(),
                forall|j: int| 0 <= j < i ==> self@[j] != *v,
            decreases self@.len() - i,
        {
            if self.0[i] == *v {
                return true;
            }
            i = i + 1;
        }
        false
    }

    /// Removes vertex `v` and moves every higher id down by one.
    pub fn delete(&mut self, v: VertexId)
        ensures
            final(self)@ == deleted(old(self)@, v),
    {
        self.0 = delete_in(&self.0, v);
    }

    /// Replaces every `old_id` by `new_id`; an `old_id` that already stands next to a `new_id`
    /// is dropped instead, so that no `new_id` comes to stand beside another. Higher ids are not
    /// renumbered.
    pub fn replace(&mut self, old_id: VertexId, new_id: VertexId)
        ensures
            final(self)@ == replaced(old(self)@, old_id, new_id),
    {
        self.0 = replace_in(&self.0, old_id, new_id);
    }
}

/// A copy of the walk `s`.
pub(crate) fn copy_walk(s: &Vec<VertexId>) -> (r: Vec<VertexId>)
    ensures
        r@ == s@,
{
    let mut out: Vec<VertexId> = Vec::new();
    let mut j: usize = 0;
    while j < s.len()
        invariant
            j <= s@.len(),
            out@ == s@.take(j as int),
        decreases s@.len() - j,
    {
        out.push(s[j]);
        j = j + 1;
        assert(out@ =~= s@.take(j as int));
    }
    assert(out@ =~= s@);
    out
}

/// The walk `s` with `v` removed and higher ids moved down.
fn delete_in(s: &Vec<VertexId>, v: VertexId) -> (r: Vec<VertexId>)
    ensures
        r@ == deleted(s@, v),
{
    let mut out: Vec<VertexId> = Vec::new();
    let mut i: usize = 0;
    while i < s.len()
        invariant
            i <= s@.len(),
            out@ == s@.take(i as int).filter_map(|u: VertexId| delete_step(v, u)),
        decreases s@.len() - i,
    {
        let u = s[i];
        proof {
            s@.lemma_filter_map_take_succ(|u: VertexId| delete_step(v, u), i as int);
        }
        if u > v {
            out.push(u - 1);
        } else if u < v {
            out.push(u);
        }
        i = i + 1;
    }
    assert(s@.take(s@.len() as int) =~= s@);
    out
}

/// The walk `s` with `old_id` replaced by `new_id` as `Cycle::replace` describes.
fn replace_in(s: &Vec<VertexId>, old_id: VertexId, new_id: VertexId) -> (r: Vec<VertexId>)
    ensures
        r@ == replaced(s@, old_id, new_id),
{
    let steps = Ghost(Seq::new(s@.len(), |k: int| replace_step(s@, old_id, new_id, k)));
    let n = s.len();
    let mut out: Vec<VertexId> = Vec::new();
    let mut i: usize = 0;
    while i < n
        invariant
            n == s@.len(),
            steps@ == Seq::new(s@.len(), |k: int| replace_step(s@, old_id, new_id, k)),
            i <= n,
            out@ == steps@.take(i as int).filter_map(|o: Option<VertexId>| o),
        decreases n - i,
    {
        proof {
            steps@.lemma_filter_map_take_succ(|o: Option<VertexId>| o, i as int);
        }
        let u = s[i];
        if u != old_id {
            out.push(u);
        } else {
            let prev = if i == 0 { s[n - 1] } else { s[i - 1] };
            let next = if i + 1 == n { s[0] } else { s[i + 1] };
            if prev != new_id && next != new_id {
                out.push(new_id);
            }
        }
        i = i + 1;
    }
    assert(steps@.take(n as int) =~= steps@);
    out
}

impl Cycles {
    /// A face set with one face per boundary walk given.
    pub fn new(cycles: Vec<Vec<VertexId>>) -> (r: Cycles)
        ensures
            r@ == cycles@.map_values(|c: Vec<VertexId>| c@),
    {
        let mut cycles = cycles;
        let ghost given = cycles@;
        let mut out: Vec<Cycle> = Vec::new();
        let mut rev: Vec<Cycle> = Vec::new();
        while cycles.len() > 0
            invariant
                given.len() == cycles@.len() + rev@.len(),
                forall|j: int| 0 <= j < cycles@.len() ==> #[trigger] cycles@[j] == given[j],
                forall|j: int|
                    0 <= j < rev@.len() ==> #[trigger] rev@[j]@ == given[given.len() - 1 - j]@,
            decreases cycles@.len(),
        {
            let c = cycles.pop().unwrap();
            rev.push(Cycle(c));
        }
        while rev.len() > 0
            invariant
                given.len() == out@.len() + rev@.len(),
                forall|j: int|
                    0 <= j < rev@.len() ==> #[trigger] rev@[j]@ == given[given.len() - 1 - j]@,
                forall|j: int| 0 <= j < out@.len() ==> #[trigger] out@[j]@ == given[j]@,
            decreases rev@.len(),
        {
            let c = rev.pop().unwrap();
            out.push(c);
        }
        let r = Cycles { cycles: out };
        assert(r@ =~= given.map_values(|c: Vec<VertexId>| c@));
        r
    }

    /// Number of faces.
    pub fn len(&self) -> (r: usize)
        ensures
            r == self@.len(),
    {
        self.cycles.len()
    }

    /// The face at `index`, counted circularly.
    pub fn get(&self, index: usize) -> (r: &Cycle)
        requires
            self@.len() > 0,
        ensures
            r@ == self@[index as int % self@.len() as int],
    {
        &self.cycles[index % self.cycles.len()]
    }

    /// The faces, in order.
    pub fn iter(&self) -> (r: std::slice::Iter<'_, Cycle>)
        ensures
            vstd::std_specs::slice::into_iter_elts(r) == self.cycles@,
    {
        self.cycles.iter()
    }

    /// Removes vertex `v` from every face and moves every higher id down by one.
    pub fn delete(&mut self, v: VertexId)
        ensures
            final(self)@ == old(self)@.map_values(|c: Seq<VertexId>| deleted(c, v)),
    {
        let ghost before = self@;
        let mut i: usize = 0;
        while i < self.cycles.len()
            invariant
                self.cycles@.len() == before.len(),
                i <= before.len(),
                forall|j: int| 0 <= j < i ==> #[trigger] self.cycles@[j]@ == deleted(before[j], v),
                forall|j: int| i <= j < before.len() ==> #[trigger] self.cycles@[j]@ == before[j],
            decreases before.len() - i,
        {
            assert(before[i as int] == self.cycles@[i as int]@);
            let c = Cycle(delete_in(&self.cycles[i].0, v));
            self.cycles.set(i, c);
            i = i + 1;
        }
        assert(self@ =~= before.map_values(|c: Seq<VertexId>| deleted(c, v)));
    }

    /// Replaces `old_id` by `new_id` in every face, as `Cycle::replace` does.
    pub fn replace(&mut self, old_id: VertexId, new_id: VertexId)
        ensures
            final(self)@ == old(self)@.map_values(|c: Seq<VertexId>| replaced(c, old_id, new_id)),
    {
        let ghost before = self@;
        let mut i: usize = 0;
        while i < self.cycles.len()
            invariant
                self.cycles@.len() == before.len(),
                i <= before.len(),
                forall|j: int|
                    0 <= j < i ==> #[trigger] self.cycles@[j]@ == replaced(before[j], old_id, new_id),
                forall|j: int| i <= j < before.len() ==> #[trigger] self.cycles@[j]@ == before[j],
            decreases before.len() - i,
        {
            assert(before[i as int] == self.cycles@[i as int]@);
            let c = Cycle(replace_in(&self.cycles[i].0, old_id, new_id));
            self.cycles.set(i, c);
            i = i + 1;
        }
        assert(self@ =~= before.map_values(|c: Seq<VertexId>| replaced(c, old_id, new_id)));
    }

    /// A copy of this face set, independent of it from now on.
    pub fn snapshot(&self) -> (r: Cycles)
        ensures
            r@ == self@,
    {
        let mut out: Vec<Cycle> = Vec::new();
        let mut i: usize = 0;
        while i < self.cycles.len()
            invariant
                i <= self.cycles@.len(),
                out@.len() == i,
                forall|a: int| 0 <= a < i ==> #[trigger] out@[a]@ == self.cycles@[a]@,
            decreases self.cycles@.len() - i,
        {
            out.push(Cycle(copy_walk(&self.cycles[i].0)));
            i = i + 1;
        }
        let r = Cycles { cycles: out };
        assert(r@ =~= self@);
        r
    }

    /// Adds a face after the others.
    pub fn push(&mut self, face: Cycle)
        ensures
            final(self)@ == old(self)@.push(face@),
    {
        self.cycles.push(face);
        assert(self@ =~= old(self)@.push(face@));
    }

}

} // verus!
