use vstd::prelude::*;

use crate::cycles::{circ_next, circ_prev, delete_step, deleted, no_repeat, replace_step, replaced};
use crate::distance::{removed, skip, well_formed};
use crate::VertexId;

verus! {

/// Every id on every face of `faces` is below `n`.
pub open spec fn ids_below(faces: Seq<Seq<VertexId>>, n: nat) -> bool {
    forall|i: int, k: int| 0 <= i < faces.len() && 0 <= k < faces[i].len() ==> #[trigger] faces[i][k] < n
}

/// Removing vertex `v` from a walk whose ids lie below `n` leaves ids below `n - 1`.
pub proof fn lemma_deleted_below(s: Seq<VertexId>, n: nat, v: VertexId)
    requires
        v < n,
        forall|k: int| 0 <= k < s.len() ==> #[trigger] s[k] < n,
    ensures
        forall|k: int| 0 <= k < deleted(s, v).len() ==> #[trigger] deleted(s, v)[k] < n - 1,
    decreases s.len(),
{
    if s.len() > 0 {
        lemma_deleted_below(s.drop_last(), n, v);
        assert(deleted(s, v) == match delete_step(v, s.last()) {
            Some(x) => deleted(s.drop_last(), v) + seq![x],
            None => deleted(s.drop_last(), v),
        });
    }
}

/// Deleting a vertex keeps the id space dense. Vertex `v` of a well-formed connectivity `d`
/// with `n` vertices is removed, together with every occurrence on the faces: what remains is a
/// well-formed connectivity over exactly `0..n - 1`; every other vertex gets an id in `0..n - 1`,
/// no two the same, and every id of `0..n - 1` is taken; and the faces name only those ids.
/// Applied after each deletion in turn, this holds of any sequence of deletions.
pub proof fn lemma_delete_keeps_ids_dense(d: Seq<Seq<bool>>, faces: Seq<Seq<VertexId>>, v: VertexId)
    requires
        well_formed(d),
        d.len() <= usize::MAX,
        v < d.len(),
        ids_below(faces, d.len()),
    ensures
        removed(d, v as int).len() == d.len() - 1,
        well_formed(removed(d, v as int)),
        forall|u: VertexId| u < d.len() && u != v ==> (#[trigger] delete_step(v, u)) is Some
            && delete_step(v, u)->Some_0 < d.len() - 1,
        forall|u: VertexId, w: VertexId|
            u < d.len() && w < d.len() && u != v && w != v && u != w ==> #[trigger] delete_step(v, u)
                != #[trigger] delete_step(v, w),
        forall|x: VertexId|
            x < d.len() - 1 ==> skip(x as int, v as int) < d.len() && skip(x as int, v as int) != v
                && delete_step(v, #[trigger] skip(x as int, v as int) as VertexId) == Some(x),
        ids_below(faces.map_values(|f: Seq<VertexId>| deleted(f, v)), (d.len() - 1) as nat),
{
    let m = removed(d, v as int);
    assert forall|i: int| 0 <= i < m.len() implies #[trigger] m[i].len() == m.len() by {}
    assert forall|x: VertexId| x < d.len() - 1 implies skip(x as int, v as int) < d.len() && skip(
        x as int,
        v as int,
    ) != v && delete_step(v, #[trigger] skip(x as int, v as int) as VertexId) == Some(x) by {
        if x >= v {
            assert(x + 1 < d.len());
        }
    }
    let after = faces.map_values(|f: Seq<VertexId>| deleted(f, v));
    assert forall|i: int, k: int| 0 <= i < after.len() && 0 <= k < after[i].len() implies #[trigger] after[i][k] < d.len() - 1 by {
        assert forall|j: int| 0 <= j < faces[i].len() implies #[trigger] faces[i][j] < d.len() by {}
        lemma_deleted_below(faces[i], d.len(), v);
    }
}

/// Keeping every value of a run of `Some` keeps them all, in order.
proof fn lemma_all_kept(t: Seq<Option<VertexId>>, w: Seq<VertexId>, i: int)
    requires
        t.len() == w.len(),
        forall|k: int| 0 <= k < t.len() ==> #[trigger] t[k] == Some(w[k]),
        0 <= i <= t.len(),
    ensures
        t.take(i).filter_map(|o: Option<VertexId>| o) == w.take(i),
    decreases i,
{
    if i > 0 {
        lemma_all_kept(t, w, i - 1);
        t.lemma_filter_map_take_succ(|o: Option<VertexId>| o, i - 1);
        assert(w.take(i) =~= w.take(i - 1) + seq![w[i - 1]]);
    }
}

/// Keeping every value but the one `None` at `p` keeps the others, in order.
proof fn lemma_one_dropped(t: Seq<Option<VertexId>>, w: Seq<VertexId>, p: int, i: int)
    requires
        0 <= p < t.len(),
        w.len() == t.len() - 1,
        t[p] is None,
        forall|k: int| 0 <= k < p ==> #[trigger] t[k] == Some(w[k]),
        forall|k: int| p < k < t.len() ==> #[trigger] t[k] == Some(w[k - 1]),
        0 <= i <= t.len(),
    ensures
        t.take(i).filter_map(|o: Option<VertexId>| o) == if i <= p {
            w.take(i)
        } else {
            w.take(i - 1)
        },
    decreases i,
{
    if i > 0 {
        lemma_one_dropped(t, w, p, i - 1);
        t.lemma_filter_map_take_succ(|o: Option<VertexId>| o, i - 1);
        if i - 1 < p {
            assert(w.take(i) =~= w.take(i - 1) + seq![w[i - 1]]);
        } else if i - 1 > p {
            assert(w.take(i - 1) =~= w.take(i - 2) + seq![w[i - 2]]);
        } else {
            assert(w.take(i - 1) =~= w.take(i - 1) + Seq::<VertexId>::empty());
        }
    }
}

/// A walk that visits no vertex twice has no two circularly consecutive equal ids.
proof fn lemma_distinct_no_repeat(w: Seq<VertexId>)
    requires
        w.no_duplicates(),
    ensures
        no_repeat(w),
{
    if w.len() >= 2 {
        assert forall|k: int| 0 <= k < w.len() implies #[trigger] w[k] != circ_next(w, k) by {
            if k + 1 == w.len() {
                assert(w[k] != w[0]);
            } else {
                assert(w[k] != w[k + 1]);
            }
        }
    }
}

/// Replacing a vertex never leaves a `new_id` beside a `new_id`: on a boundary that visits no
/// vertex twice, replacing `old_id` by `new_id` leaves no two circularly consecutive equal ids,
/// also where `new_id` already stood next to `old_id`. A face boundary is a simple closed walk
/// (`Cycle::from_edges` gives only such walks), so the law asks for that; on a walk that already
/// passes a vertex twice, such as `[0, 1, 0, 2]`, replacing `1` by `0` gives `[0, 0, 2]`.
pub proof fn lemma_replace_no_repeat(s: Seq<VertexId>, old_id: VertexId, new_id: VertexId)
    requires
        s.no_duplicates(),
    ensures
        no_repeat(replaced(s, old_id, new_id)),
{
    let t = Seq::new(s.len(), |k: int| replace_step(s, old_id, new_id, k));
    assert(t.take(t.len() as int) =~= t);
    if !s.contains(old_id) {
        assert forall|k: int| 0 <= k < t.len() implies #[trigger] t[k] == Some(s[k]) by {
            assert(s[k] != old_id);
        }
        lemma_all_kept(t, s, s.len() as int);
        assert(s.take(s.len() as int) =~= s);
        lemma_distinct_no_repeat(s);
    } else {
        let p = choose|p: int| 0 <= p < s.len() && s[p] == old_id;
        assert forall|k: int| 0 <= k < s.len() && k != p implies s[k] != old_id by {}
        if t[p] is None {
            let w = s.remove(p);
            assert forall|k: int| 0 <= k < p implies #[trigger] t[k] == Some(w[k]) by {}
            assert forall|k: int| p < k < t.len() implies #[trigger] t[k] == Some(w[k - 1]) by {}
            lemma_one_dropped(t, w, p, s.len() as int);
            assert(w.take(w.len() as int) =~= w);
            assert(w.no_duplicates()) by {
                assert forall|a: int, b: int| 0 <= a < b < w.len() implies w[a] != w[b] by {
                    let a2 = if a < p { a } else { a + 1 };
                    let b2 = if b < p { b } else { b + 1 };
                    assert(s[a2] != s[b2]);
                }
            }
            lemma_distinct_no_repeat(w);
        } else {
            let w = s.update(p, new_id);
            assert forall|k: int| 0 <= k < t.len() implies #[trigger] t[k] == Some(w[k]) by {}
            lemma_all_kept(t, w, s.len() as int);
            assert(w.take(w.len() as int) =~= w);
            if w.len() >= 2 {
                assert forall|k: int| 0 <= k < w.len() implies #[trigger] w[k] != circ_next(w, k) by {
                    let n2 = if k + 1 == w.len() { 0 } else { k + 1 };
                    assert(circ_next(w, k) == w[n2]);
                    if k != p && n2 != p {
                        assert(s[k] != s[n2]);
                    } else if k == p {
                        assert(circ_next(s, p) == s[n2]);
                    } else {
                        assert(circ_prev(s, p) == s[k]);
                    }
                }
            }
        }
    }
}

/// Deleting a vertex renumbers without merging: on a walk that visits no vertex twice, the
/// walk after deleting `v` visits no vertex twice either, and each id `x` on it stood on the
/// walk before as `x` (below `v`) or as `x + 1` (from `v` up).
pub proof fn lemma_deleted_keeps_distinct(s: Seq<VertexId>, v: VertexId)
    requires
        s.no_duplicates(),
    ensures
        deleted(s, v).no_duplicates(),
        forall|k: int|
            0 <= k < deleted(s, v).len() ==> (#[trigger] deleted(s, v)[k] < v ==> s.contains(
                deleted(s, v)[k],
            )) && (deleted(s, v)[k] >= v ==> s.contains((deleted(s, v)[k] + 1) as VertexId)),
    decreases s.len(),
{
    if s.len() > 0 {
        let r = s.drop_last();
        assert forall|i: int, j: int| 0 <= i < r.len() && 0 <= j < r.len() && i != j implies r[i] != r[j] by {
            assert(r[i] == s[i] && r[j] == s[j]);
        }
        lemma_deleted_keeps_distinct(r, v);
        let x = s.last();
        let dr = deleted(r, v);
        assert(deleted(s, v) == match delete_step(v, x) {
            Some(y) => dr + seq![y],
            None => dr,
        });
        assert forall|u: VertexId| r.contains(u) implies s.contains(u) && u != x by {
            let j = choose|j: int| 0 <= j < r.len() && r[j] == u;
            assert(s[j] == u);
            assert(s[s.len() - 1] == x);
        }
        if x != v {
            let y = delete_step(v, x)->Some_0;
            assert(s.contains(x)) by {
                assert(s[s.len() - 1] == x);
            }
            assert forall|k: int| 0 <= k < dr.len() implies dr[k] != y by {
                if dr[k] < v {
                    assert(r.contains(dr[k]));
                } else {
                    assert(r.contains((dr[k] + 1) as VertexId));
                }
            }
            let ds = deleted(s, v);
            assert forall|i: int, j: int| 0 <= i < ds.len() && 0 <= j < ds.len() && i != j implies ds[i] != ds[j] by {
                if i < dr.len() && j < dr.len() {
                    assert(ds[i] == dr[i] && ds[j] == dr[j]);
                } else if i < dr.len() {
                    assert(ds[i] == dr[i]);
                } else if j < dr.len() {
                    assert(ds[j] == dr[j]);
                }
            }
            assert forall|k: int| 0 <= k < ds.len() implies (#[trigger] ds[k] < v ==> s.contains(
                ds[k],
            )) && (ds[k] >= v ==> s.contains((ds[k] + 1) as VertexId)) by {
                if k < dr.len() {
                    assert(ds[k] == dr[k]);
                }
            }
        }
    }
}

} // verus!
