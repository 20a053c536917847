//! The implicit ternary tree over the positions of a sequence, heap order on
//! it, and the restoring moves of the heap as functions on sequences.

use crate::order::lawful;
use crate::order::le;
use crate::order::lemma_le_reflexive;
use crate::order::lemma_le_total;
use crate::order::lemma_le_transitive;
use vstd::prelude::*;
use vstd::seq_lib::to_multiset_contains;
use vstd::seq_lib::to_multiset_update;

verus! {

/// The position of the parent of position `i`; the root, position 0, is its own parent.
pub open spec fn parent_of(i: int) -> int {
    if i <= 0 {
        0
    } else {
        (i - 1) / 3
    }
}

/// Position `c` is one of the three child positions of position `p`.
pub open spec fn is_child_of(c: int, p: int) -> bool {
    3 * p + 1 <= c <= 3 * p + 3
}

/// How many children of position `p` lie before position `end`.
pub open spec fn child_count(p: int, end: int) -> int {
    let first = 3 * p + 1;
    if first >= end {
        0
    } else if end - first >= 3 {
        3
    } else {
        end - first
    }
}

/// No position from `lo` on holds less than any of its children before `end`.
pub open spec fn ordered_from<T: Ord>(s: Seq<T>, lo: int, end: int) -> bool {
    forall|i: int, c: int| lo <= i && is_child_of(c, i) && c < end ==> #[trigger] le(s[c], s[i])
}

/// Max-heap order: no element is less than any of its children.
pub open spec fn heap_ordered<T: Ord>(s: Seq<T>) -> bool {
    ordered_from(s, 0, s.len() as int)
}

/// `s` with the elements at positions `i` and `j` exchanged.
pub open spec fn swapped<T>(s: Seq<T>, i: int, j: int) -> Seq<T> {
    s.update(i, s[j]).update(j, s[i])
}

/// Exchanging two elements keeps the length and the contents.
pub proof fn lemma_swapped_permutes<T>(s: Seq<T>, i: int, j: int)
    requires
        0 <= i < s.len(),
        0 <= j < s.len(),
    ensures
        swapped(s, i, j).len() == s.len(),
        swapped(s, i, j).to_multiset() == s.to_multiset(),
{
    broadcast use vstd::multiset::group_multiset_axioms;

    if i == j {
        assert(swapped(s, i, j) =~= s);
    } else {
        let mid = s.update(i, s[j]);
        to_multiset_update(s, i, s[j]);
        to_multiset_update(mid, j, s[i]);
        to_multiset_contains(s, s[i]);
        to_multiset_contains(s, s[j]);
        assert(s.contains(s[i]));
        assert(s.contains(s[j]));
        assert(swapped(s, i, j).to_multiset() =~= s.to_multiset());
    }
}

/// The sequence after the element at `pos` has swum up: while it is not at the
/// root and is greater than its parent, it changes places with its parent.
pub open spec fn swim_spec<T: Ord>(s: Seq<T>, pos: int) -> Seq<T>
    decreases pos,
{
    if 0 < pos < s.len() && !le(s[pos], s[parent_of(pos)]) {
        swim_spec(swapped(s, pos, parent_of(pos)), parent_of(pos))
    } else {
        s
    }
}

/// `s` is heap ordered but for the element at `pos`, which may be greater than
/// its ancestors.
pub open spec fn swim_ready<T: Ord>(s: Seq<T>, pos: int) -> bool {
    &&& forall|i: int, c: int|
        0 <= i && is_child_of(c, i) && c < s.len() && c != pos ==> #[trigger] le(s[c], s[i])
    &&& forall|c: int|
        0 < pos && is_child_of(c, pos) && c < s.len() ==> #[trigger] le(s[c], s[parent_of(pos)])
}

/// Swimming the one element that may be out of place restores heap order.
pub proof fn lemma_swim_orders<T: Ord>(s: Seq<T>, pos: int)
    requires
        lawful::<T>(),
        0 <= pos < s.len(),
        swim_ready(s, pos),
    ensures
        heap_ordered(swim_spec(s, pos)),
    decreases pos,
{
    let p = parent_of(pos);
    if 0 < pos && !le(s[pos], s[p]) {
        let t = swapped(s, pos, p);
        lemma_le_total(s[pos], s[p]);
        assert forall|i: int, c: int|
            0 <= i && is_child_of(c, i) && c < t.len() && c != p implies #[trigger] le(
            t[c],
            t[i],
        ) by {
            if c == pos {
                assert(i == p);
            } else if i == pos {
                assert(le(s[c], s[p]));
            } else if i == p {
                assert(le(s[c], s[p]));
                lemma_le_transitive(s[c], s[p], s[pos]);
            } else {
                assert(le(s[c], s[i]));
            }
        }
        assert forall|c: int|
            0 < p && is_child_of(c, p) && c < t.len() implies #[trigger] le(
            t[c],
            t[parent_of(p)],
        ) by {
            let g = parent_of(p);
            assert(is_child_of(p, g));
            assert(le(s[p], s[g]));
            if c != pos {
                assert(le(s[c], s[p]));
                lemma_le_transitive(s[c], s[p], s[g]);
            }
        }
        lemma_swim_orders(t, p);
    } else {
        let r = swim_spec(s, pos);
        assert(r == s);
        assert forall|i: int, c: int|
            0 <= i && is_child_of(c, i) && c < s.len() implies #[trigger] le(s[c], s[i]) by {
            if c == pos {
                assert(i == p);
            }
        }
    }
}

/// The position of the greatest element among the `k` positions from `first`
/// on; of several greatest elements, the one at the highest position.
pub open spec fn best_among<T: Ord>(s: Seq<T>, first: int, k: int) -> int
    decreases k,
{
    if k <= 1 {
        first
    } else {
        let b = best_among(s, first, k - 1);
        let c = first + k - 1;
        if le(s[b], s[c]) {
            c
        } else {
            b
        }
    }
}

/// The child of `p` before `end` that holds the greatest element.
pub open spec fn best_child_of<T: Ord>(s: Seq<T>, p: int, end: int) -> int {
    best_among(s, 3 * p + 1, child_count(p, end))
}

/// The best of `k` positions is one of them.
pub proof fn lemma_best_among_in_range<T: Ord>(s: Seq<T>, first: int, k: int)
    requires
        k >= 1,
    ensures
        first <= best_among(s, first, k) < first + k,
    decreases k,
{
    if k > 1 {
        lemma_best_among_in_range(s, first, k - 1);
    }
}

/// No element among the `k` positions is greater than the one at the best position.
pub proof fn lemma_best_among_is_greatest<T: Ord>(s: Seq<T>, first: int, k: int)
    requires
        lawful::<T>(),
        k >= 1,
        0 <= first,
        first + k <= s.len(),
    ensures
        forall|j: int| first <= j < first + k ==> #[trigger] le(s[j], s[best_among(s, first, k)]),
    decreases k,
{
    let best = best_among(s, first, k);
    if k == 1 {
        lemma_le_reflexive(s[first]);
    } else {
        let b = best_among(s, first, k - 1);
        let c = first + k - 1;
        lemma_best_among_in_range(s, first, k - 1);
        lemma_best_among_is_greatest(s, first, k - 1);
        lemma_le_total(s[b], s[c]);
        lemma_le_reflexive(s[c]);
        assert forall|j: int| first <= j < first + k implies #[trigger] le(s[j], s[best]) by {
            if j < c {
                assert(le(s[j], s[b]));
                if best == c {
                    lemma_le_transitive(s[j], s[b], s[c]);
                }
            }
        }
    }
}

/// The best child of a position that has a child before `end` is such a
/// child, and no child before `end` holds a greater element.
pub proof fn lemma_best_child<T: Ord>(s: Seq<T>, p: int, end: int)
    requires
        0 <= p,
        3 * p + 1 < end <= s.len(),
    ensures
        is_child_of(best_child_of(s, p, end), p),
        best_child_of(s, p, end) < end,
        lawful::<T>() ==> forall|c: int|
            is_child_of(c, p) && c < end ==> #[trigger] le(s[c], s[best_child_of(s, p, end)]),
{
    lemma_best_among_in_range(s, 3 * p + 1, child_count(p, end));
    if lawful::<T>() {
        lemma_best_among_is_greatest(s, 3 * p + 1, child_count(p, end));
    }
}

/// The sequence after the element at `pos` has sunk within the positions
/// before `end`: while it has a child there and is less than its best child,
/// it changes places with that child.
pub open spec fn sink_spec<T: Ord>(s: Seq<T>, pos: int, end: int) -> Seq<T>
    decreases end - pos,
{
    if 0 <= pos && 3 * pos + 1 < end <= s.len() {
        let b = best_child_of(s, pos, end);
        if le(s[b], s[pos]) {
            s
        } else {
            proof {
                lemma_best_among_in_range(s, 3 * pos + 1, child_count(pos, end));
            }
            sink_spec(swapped(s, pos, b), b, end)
        }
    } else {
        s
    }
}

/// The positions from `lo` on and before `end` are heap ordered but for the
/// element at `pos`, which may be less than its descendants.
pub open spec fn sink_ready<T: Ord>(s: Seq<T>, lo: int, pos: int, end: int) -> bool {
    &&& forall|i: int, c: int|
        lo <= i && i != pos && is_child_of(c, i) && c < end ==> #[trigger] le(s[c], s[i])
    &&& forall|c: int|
        lo < pos && is_child_of(c, pos) && c < end ==> #[trigger] le(s[c], s[parent_of(pos)])
}

/// Sinking the one element that may be out of place restores heap order from
/// `lo` on.
pub proof fn lemma_sink_orders<T: Ord>(s: Seq<T>, lo: int, pos: int, end: int)
    requires
        lawful::<T>(),
        0 <= lo <= pos,
        end <= s.len(),
        sink_ready(s, lo, pos, end),
    ensures
        ordered_from(sink_spec(s, pos, end), lo, end),
    decreases end - pos,
{
    if 3 * pos + 1 < end {
        let b = best_child_of(s, pos, end);
        lemma_best_child(s, pos, end);
        if le(s[b], s[pos]) {
            assert forall|i: int, c: int|
                lo <= i && is_child_of(c, i) && c < end implies #[trigger] le(s[c], s[i]) by {
                if i == pos {
                    assert(le(s[c], s[b]));
                    lemma_le_transitive(s[c], s[b], s[pos]);
                }
            }
        } else {
            let t = swapped(s, pos, b);
            lemma_le_total(s[b], s[pos]);
            assert forall|i: int, c: int|
                lo <= i && i != b && is_child_of(c, i) && c < end implies #[trigger] le(
                t[c],
                t[i],
            ) by {
                if i == pos {
                    if c != b {
                        assert(le(s[c], s[b]));
                    }
                } else if c == pos {
                    assert(i == parent_of(pos));
                    assert(le(s[b], s[parent_of(pos)]));
                } else {
                    assert(le(s[c], s[i]));
                }
            }
            assert forall|c: int|
                lo < b && is_child_of(c, b) && c < end implies #[trigger] le(
                t[c],
                t[parent_of(b)],
            ) by {
                assert(parent_of(b) == pos);
                assert(le(s[c], s[b]));
            }
            lemma_sink_orders(t, lo, b, end);
        }
    } else {
        assert forall|i: int, c: int|
            lo <= i && is_child_of(c, i) && c < end implies #[trigger] le(s[c], s[i]) by {
            if i != pos {
                assert(le(s[c], s[i]));
            }
        }
    }
}

/// The sequence after the positions `k - 1`, `k - 2`, ..., 0 have been sunk,
/// in that order, each within the whole sequence.
pub open spec fn heapify_below<T: Ord>(s: Seq<T>, k: int) -> Seq<T>
    decreases k,
{
    if k <= 0 {
        s
    } else {
        heapify_below(sink_spec(s, k - 1, s.len() as int), k - 1)
    }
}

/// The sequence after bottom-up heap construction: every position that has a
/// child is sunk, from the last such position down to the root. The empty
/// sequence stays as it is.
pub open spec fn heapify<T: Ord>(s: Seq<T>) -> Seq<T> {
    if s.len() == 0 {
        s
    } else {
        heapify_below(s, parent_of(s.len() - 1) + 1)
    }
}

/// No element of a heap-ordered sequence is greater than the one at the root.
pub proof fn lemma_root_is_greatest<T: Ord>(s: Seq<T>, i: int)
    requires
        lawful::<T>(),
        heap_ordered(s),
        0 <= i < s.len(),
    ensures
        le(s[i], s[0]),
    decreases i,
{
    if i == 0 {
        lemma_le_reflexive(s[0]);
    } else {
        let p = parent_of(i);
        assert(is_child_of(i, p));
        assert(le(s[i], s[p]));
        lemma_root_is_greatest(s, p);
        lemma_le_transitive(s[i], s[p], s[0]);
    }
}

} // verus!
