//! What a max-priority queue does, stated on the multiset of its elements,
//! and the laws that follow from it.

use crate::order::equiv;
use crate::order::lawful;
use crate::order::le;
use crate::order::lemma_equiv_transitive;
use crate::order::lemma_le_reflexive;
use crate::order::lemma_le_transitive;
use vstd::multiset::Multiset;
use vstd::prelude::*;
use vstd::seq_lib::to_multiset_build;
use vstd::seq_lib::to_multiset_contains;
use vstd::seq_lib::to_multiset_insert;
use vstd::seq_lib::to_multiset_len;
use vstd::seq_lib::to_multiset_remove;
use vstd::seq_lib::to_multiset_update;

verus! {

/// `x` is an element of `m`, and no element of `m` is greater.
pub open spec fn is_greatest_of<T: Ord>(x: T, m: Multiset<T>) -> bool {
    &&& m.contains(x)
    &&& forall|y: T| #[trigger] m.contains(y) ==> le(y, x)
}

/// Removing the greatest element takes a queue from `before` to `after` and
/// gives `out`: nothing from an empty queue, which stays as it is, and
/// otherwise a greatest element, which leaves the queue once.
pub open spec fn popped<T: Ord>(before: Multiset<T>, out: Option<T>, after: Multiset<T>) -> bool {
    match out {
        None => before.len() == 0 && after == before,
        Some(x) => is_greatest_of(x, before) && after == before.remove(x),
    }
}

/// An operation on a queue.
pub enum Op<T> {
    /// Add the element.
    Push(T),
    /// Remove the greatest element.
    Pop,
}

/// The operation `op` takes a queue from `before` to `after` and gives `out`.
/// On the elements of a heap of a lawful element type, `push` and `pop` take
/// these steps.
pub open spec fn step<T: Ord>(
    before: Multiset<T>,
    op: Op<T>,
    out: Option<T>,
    after: Multiset<T>,
) -> bool {
    match op {
        Op::Push(item) => out is None && after == before.insert(item),
        Op::Pop => popped(before, out, after),
    }
}

/// The operations `ops`, applied in turn, take a queue through `states`,
/// from `states[0]` to the last of them, and give `outs`.
pub open spec fn is_run<T: Ord>(
    ops: Seq<Op<T>>,
    states: Seq<Multiset<T>>,
    outs: Seq<Option<T>>,
) -> bool {
    &&& states.len() == ops.len() + 1
    &&& outs.len() == ops.len()
    &&& forall|k: int|
        0 <= k < ops.len() ==> step(states[k], #[trigger] ops[k], outs[k], states[k + 1])
}

/// The number of additions among `ops`.
pub open spec fn push_count<T>(ops: Seq<Op<T>>) -> nat
    decreases ops.len(),
{
    if ops.len() == 0 {
        0
    } else if ops.last() is Push {
        push_count(ops.drop_last()) + 1
    } else {
        push_count(ops.drop_last())
    }
}

/// The number of removals among `ops`.
pub open spec fn pop_count<T>(ops: Seq<Op<T>>) -> nat
    decreases ops.len(),
{
    if ops.len() == 0 {
        0
    } else if ops.last() is Pop {
        pop_count(ops.drop_last()) + 1
    } else {
        pop_count(ops.drop_last())
    }
}

/// Size tracking: as long as every removal finds an element, the queue
/// holds as many elements more than at the start as there were additions,
/// less the removals.
pub proof fn lemma_size_tracking<T: Ord>(
    ops: Seq<Op<T>>,
    states: Seq<Multiset<T>>,
    outs: Seq<Option<T>>,
)
    requires
        is_run(ops, states, outs),
        forall|k: int| 0 <= k < ops.len() && #[trigger] ops[k] is Pop ==> states[k].len() > 0,
    ensures
        states.last().len() == states[0].len() + push_count(ops) - pop_count(ops),
    decreases ops.len(),
{
    if ops.len() > 0 {
        let n = ops.len() - 1;
        let ops0 = ops.drop_last();
        let states0 = states.drop_last();
        let outs0 = outs.drop_last();
        assert forall|k: int| 0 <= k < ops0.len() implies step(
            states0[k],
            #[trigger] ops0[k],
            outs0[k],
            states0[k + 1],
        ) by {
            assert(step(states[k], ops[k], outs[k], states[k + 1]));
        }
        assert forall|k: int| 0 <= k < ops0.len() && #[trigger] ops0[k] is Pop implies states0[k].len()
            > 0 by {
            assert(ops[k] is Pop);
        }
        lemma_size_tracking(ops0, states0, outs0);
        assert(states0.last() == states[n]);
        assert(step(states[n], ops[n], outs[n], states[n + 1]));
        assert(states.last() == states[n + 1]);
        match ops[n] {
            Op::Push(item) => {},
            Op::Pop => {
                assert(ops[n] is Pop);
                assert(states[n].len() > 0);
            },
        }
    }
}

/// `outs` is what removing the greatest element of `m` again and again
/// gives, in that order, until the queue is empty.
pub open spec fn drains_to<T: Ord>(m: Multiset<T>, outs: Seq<T>) -> bool
    decreases outs.len(),
{
    if outs.len() == 0 {
        popped(m, None, m)
    } else {
        &&& popped(m, Some(outs.first()), m.remove(outs.first()))
        &&& drains_to(m.remove(outs.first()), outs.drop_first())
    }
}

/// No element of `s` is greater than an element before it.
pub open spec fn non_increasing<T: Ord>(s: Seq<T>) -> bool {
    forall|i: int, j: int| 0 <= i <= j < s.len() ==> le(#[trigger] s[j], #[trigger] s[i])
}

/// Extraction order: emptying a queue gives its elements, each as often as
/// the queue held it, and none of them is greater than one given before it.
pub proof fn lemma_drain_order<T: Ord>(m: Multiset<T>, outs: Seq<T>)
    requires
        lawful::<T>(),
        drains_to(m, outs),
    ensures
        outs.to_multiset() == m,
        outs.len() == m.len(),
        non_increasing(outs),
    decreases outs.len(),
{
    broadcast use vstd::multiset::group_multiset_axioms;

    to_multiset_len(outs);
    if outs.len() == 0 {
        assert(outs.to_multiset() =~= m);
    } else {
        let x = outs.first();
        let rest = outs.drop_first();
        lemma_drain_order(m.remove(x), rest);
        assert(outs =~= rest.insert(0, x));
        to_multiset_insert(rest, 0, x);
        assert(outs.to_multiset() =~= m);
        assert forall|i: int, j: int| 0 <= i <= j < outs.len() implies le(
            #[trigger] outs[j],
            #[trigger] outs[i],
        ) by {
            if i == 0 {
                if j == 0 {
                    lemma_le_reflexive(x);
                } else {
                    to_multiset_contains(rest, outs[j]);
                    assert(rest[j - 1] == outs[j]);
                    assert(rest.contains(outs[j]));
                    assert(m.contains(outs[j]));
                }
            } else {
                assert(rest[i - 1] == outs[i]);
                assert(rest[j - 1] == outs[j]);
            }
        }
    }
}

/// The contents of a queue after the elements of `items` have been added
/// to `m` one by one, in their order.
pub open spec fn pushed_all<T>(m: Multiset<T>, items: Seq<T>) -> Multiset<T>
    decreases items.len(),
{
    if items.len() == 0 {
        m
    } else {
        pushed_all(m, items.drop_last()).insert(items.last())
    }
}

/// Adding the elements of a sequence one by one to an empty queue gives the
/// contents of the sequence.
pub proof fn lemma_pushed_all<T>(items: Seq<T>)
    ensures
        pushed_all(Multiset::empty(), items) == items.to_multiset(),
    decreases items.len(),
{
    broadcast use vstd::multiset::group_multiset_axioms;

    if items.len() == 0 {
        to_multiset_len(items);
        assert(items.to_multiset() =~= Multiset::<T>::empty());
    } else {
        lemma_pushed_all(items.drop_last());
        to_multiset_build(items.drop_last(), items.last());
        assert(items.drop_last().push(items.last()) =~= items);
    }
}

/// Extraction order after additions: emptying a queue to which the elements
/// of `items` were added one by one gives exactly those elements, each as
/// often as it was added, and none of them is greater than one given before it.
pub proof fn lemma_pushes_then_drain<T: Ord>(items: Seq<T>, outs: Seq<T>)
    requires
        lawful::<T>(),
        drains_to(pushed_all(Multiset::empty(), items), outs),
    ensures
        outs.to_multiset() == items.to_multiset(),
        outs.len() == items.len(),
        non_increasing(outs),
{
    lemma_pushed_all(items);
    lemma_drain_order(items.to_multiset(), outs);
    to_multiset_len(items);
}

/// Emptiness is stable: removals from an empty queue give nothing, however
/// many there are, and leave the queue empty.
pub proof fn lemma_pops_of_empty<T: Ord>(
    ops: Seq<Op<T>>,
    states: Seq<Multiset<T>>,
    outs: Seq<Option<T>>,
)
    requires
        is_run(ops, states, outs),
        states[0].len() == 0,
        forall|k: int| 0 <= k < ops.len() ==> #[trigger] ops[k] is Pop,
    ensures
        forall|k: int| 0 <= k < ops.len() ==> #[trigger] outs[k] is None,
        forall|k: int| 0 <= k <= ops.len() ==> #[trigger] states[k] == states[0],
    decreases ops.len(),
{
    if ops.len() > 0 {
        let n = ops.len() - 1;
        let ops0 = ops.drop_last();
        let states0 = states.drop_last();
        let outs0 = outs.drop_last();
        assert forall|k: int| 0 <= k < ops0.len() implies step(
            states0[k],
            #[trigger] ops0[k],
            outs0[k],
            states0[k + 1],
        ) by {
            assert(step(states[k], ops[k], outs[k], states[k + 1]));
        }
        assert forall|k: int| 0 <= k < ops0.len() implies #[trigger] ops0[k] is Pop by {
            assert(ops[k] is Pop);
        }
        lemma_pops_of_empty(ops0, states0, outs0);
        assert(states0[n] == states0[0]);
        assert(ops[n] is Pop);
        assert(step(states[n], ops[n], outs[n], states[n + 1]));
        if outs[n] is Some {
            vstd::multiset::axiom_count_le_len(states[n], outs[n]->0);
        }
        assert forall|k: int| 0 <= k < ops.len() implies #[trigger] outs[k] is None by {
            if k < n {
                assert(outs0[k] is None);
            }
        }
        assert forall|k: int| 0 <= k <= ops.len() implies #[trigger] states[k] == states[0] by {
            if k <= n {
                assert(states0[k] == states0[0]);
            }
        }
    }
}

/// The two sequences are equally long, and their elements are equal in the
/// order, position by position.
pub open spec fn matched<T: Ord>(a: Seq<T>, b: Seq<T>) -> bool {
    &&& a.len() == b.len()
    &&& forall|i: int| 0 <= i < a.len() ==> equiv(#[trigger] a[i], b[i])
}

/// The two multisets can be listed so that the lists match: they hold the
/// same elements up to equality in the order.
pub open spec fn similar<T: Ord>(m1: Multiset<T>, m2: Multiset<T>) -> bool {
    exists|a: Seq<T>, b: Seq<T>|
        #[trigger] matched(a, b) && a.to_multiset() == m1 && b.to_multiset() == m2
}

/// The two results are both nothing, or elements that are equal in the order.
pub open spec fn agree<T: Ord>(x: Option<T>, y: Option<T>) -> bool {
    match (x, y) {
        (None, None) => true,
        (Some(a), Some(b)) => equiv(a, b),
        _ => false,
    }
}

/// Every multiset is the contents of some sequence.
pub proof fn lemma_listing<T>(m: Multiset<T>) -> (s: Seq<T>)
    ensures
        s.to_multiset() == m,
    decreases m.len(),
{
    broadcast use vstd::multiset::group_multiset_axioms;

    if m.len() == 0 {
        let s = Seq::<T>::empty();
        to_multiset_len(s);
        assert(s.to_multiset() =~= m);
        s
    } else {
        let x = m.choose();
        let rest = lemma_listing(m.remove(x));
        let s = rest.push(x);
        to_multiset_build(rest, x);
        assert(s.to_multiset() =~= m);
        s
    }
}

/// Every multiset is similar to itself.
pub proof fn lemma_similar_reflexive<T: Ord>(m: Multiset<T>)
    requires
        lawful::<T>(),
    ensures
        similar(m, m),
{
    let s = lemma_listing(m);
    assert forall|i: int| 0 <= i < s.len() implies equiv(#[trigger] s[i], s[i]) by {
        lemma_le_reflexive(s[i]);
    }
    assert(matched(s, s));
}

/// Similar multisets hold equally many elements.
pub proof fn lemma_similar_len<T: Ord>(m1: Multiset<T>, m2: Multiset<T>)
    requires
        similar(m1, m2),
    ensures
        m1.len() == m2.len(),
{
    let (a, b) = choose|a: Seq<T>, b: Seq<T>|
        #[trigger] matched(a, b) && a.to_multiset() == m1 && b.to_multiset() == m2;
    to_multiset_len(a);
    to_multiset_len(b);
}

/// Adding the same element to similar multisets keeps them similar.
pub proof fn lemma_similar_push<T: Ord>(m1: Multiset<T>, m2: Multiset<T>, item: T)
    requires
        lawful::<T>(),
        similar(m1, m2),
    ensures
        similar(m1.insert(item), m2.insert(item)),
{
    let (a, b) = choose|a: Seq<T>, b: Seq<T>|
        #[trigger] matched(a, b) && a.to_multiset() == m1 && b.to_multiset() == m2;
    let a2 = a.push(item);
    let b2 = b.push(item);
    to_multiset_build(a, item);
    to_multiset_build(b, item);
    lemma_le_reflexive(item);
    assert forall|i: int| 0 <= i < a2.len() implies equiv(#[trigger] a2[i], b2[i]) by {
        if i < a.len() {
            assert(equiv(a[i], b[i]));
        }
    }
    assert(matched(a2, b2));
}

/// The greatest elements of similar multisets are equal in the order, and
/// without them the multisets are still similar.
pub proof fn lemma_similar_pop<T: Ord>(m1: Multiset<T>, m2: Multiset<T>, x1: T, x2: T)
    requires
        lawful::<T>(),
        similar(m1, m2),
        is_greatest_of(x1, m1),
        is_greatest_of(x2, m2),
    ensures
        equiv(x1, x2),
        similar(m1.remove(x1), m2.remove(x2)),
{
    broadcast use vstd::multiset::group_multiset_axioms;

    let (a, b) = choose|a: Seq<T>, b: Seq<T>|
        #[trigger] matched(a, b) && a.to_multiset() == m1 && b.to_multiset() == m2;
    to_multiset_contains(a, x1);
    to_multiset_contains(b, x2);
    assert(a.contains(x1));
    assert(b.contains(x2));
    let i = choose|i: int| 0 <= i < a.len() && a[i] == x1;
    let j = choose|j: int| 0 <= j < b.len() && b[j] == x2;
    assert(equiv(a[i], b[i]));
    assert(equiv(a[j], b[j]));
    assert(le(x1, x2)) by {
        to_multiset_contains(b, b[i]);
        assert(b.contains(b[i]));
        assert(m2.contains(b[i]));
        lemma_le_transitive(x1, b[i], x2);
    }
    assert(le(x2, x1)) by {
        to_multiset_contains(a, a[j]);
        assert(a.contains(a[j]));
        assert(m1.contains(a[j]));
        lemma_le_transitive(x2, a[j], x1);
    }
    let a1 = a.update(i, a[j]);
    let a2 = a1.remove(j);
    let b2 = b.remove(j);
    assert(a1[j] == a[j]);
    to_multiset_update(a, i, a[j]);
    to_multiset_remove(a1, j);
    to_multiset_remove(b, j);
    assert(a2.to_multiset() =~= m1.remove(x1));
    assert forall|k: int| 0 <= k < a2.len() implies equiv(#[trigger] a2[k], b2[k]) by {
        let k0 = if k < j {
            k
        } else {
            k + 1
        };
        assert(a2[k] == a1[k0]);
        assert(b2[k] == b[k0]);
        if k0 == i {
            lemma_equiv_transitive(a[j], x2, x1);
            lemma_equiv_transitive(a[j], x1, b[i]);
        } else {
            assert(equiv(a[k0], b[k0]));
        }
    }
    assert(matched(a2, b2));
}

/// One operation on two similar queues gives results that agree and leaves
/// the queues similar.
pub proof fn lemma_step_agrees<T: Ord>(
    before1: Multiset<T>,
    before2: Multiset<T>,
    op: Op<T>,
    out1: Option<T>,
    out2: Option<T>,
    after1: Multiset<T>,
    after2: Multiset<T>,
)
    requires
        lawful::<T>(),
        similar(before1, before2),
        step(before1, op, out1, after1),
        step(before2, op, out2, after2),
    ensures
        agree(out1, out2),
        similar(after1, after2),
{
    match op {
        Op::Push(item) => {
            lemma_similar_push(before1, before2, item);
        },
        Op::Pop => {
            lemma_similar_len(before1, before2);
            match (out1, out2) {
                (Some(x1), Some(x2)) => {
                    lemma_similar_pop(before1, before2, x1, x2);
                },
                (None, None) => {},
                (Some(x1), None) => {
                    assert(before1.count(x1) > 0);
                    vstd::multiset::axiom_count_le_len(before1, x1);
                },
                (None, Some(x2)) => {
                    assert(before2.count(x2) > 0);
                    vstd::multiset::axiom_count_le_len(before2, x2);
                },
            }
        },
    }
}

/// Two queues that start with similar contents and undergo the same
/// operations give results that agree at every step, and end with similar
/// contents.
pub proof fn lemma_similar_runs_agree<T: Ord>(
    ops: Seq<Op<T>>,
    states1: Seq<Multiset<T>>,
    outs1: Seq<Option<T>>,
    states2: Seq<Multiset<T>>,
    outs2: Seq<Option<T>>,
)
    requires
        lawful::<T>(),
        is_run(ops, states1, outs1),
        is_run(ops, states2, outs2),
        similar(states1[0], states2[0]),
    ensures
        forall|k: int| 0 <= k < ops.len() ==> agree(#[trigger] outs1[k], outs2[k]),
        similar(states1.last(), states2.last()),
    decreases ops.len(),
{
    if ops.len() > 0 {
        let n = ops.len() - 1;
        let ops0 = ops.drop_last();
        let s1 = states1.drop_last();
        let s2 = states2.drop_last();
        let o1 = outs1.drop_last();
        let o2 = outs2.drop_last();
        assert forall|k: int| 0 <= k < ops0.len() implies step(
            s1[k],
            #[trigger] ops0[k],
            o1[k],
            s1[k + 1],
        ) by {
            assert(step(states1[k], ops[k], outs1[k], states1[k + 1]));
        }
        assert forall|k: int| 0 <= k < ops0.len() implies step(
            s2[k],
            #[trigger] ops0[k],
            o2[k],
            s2[k + 1],
        ) by {
            assert(step(states2[k], ops[k], outs2[k], states2[k + 1]));
        }
        lemma_similar_runs_agree(ops0, s1, o1, s2, o2);
        assert(s1.last() == states1[n]);
        assert(s2.last() == states2[n]);
        assert(step(states1[n], ops[n], outs1[n], states1[n + 1]));
        assert(step(states2[n], ops[n], outs2[n], states2[n + 1]));
        lemma_step_agrees(
            states1[n],
            states2[n],
            ops[n],
            outs1[n],
            outs2[n],
            states1[n + 1],
            states2[n + 1],
        );
        assert forall|k: int| 0 <= k < ops.len() implies agree(#[trigger] outs1[k], outs2[k]) by {
            if k < n {
                assert(agree(o1[k], o2[k]));
            }
        }
    }
}

/// Agreement with any other max-priority queue: two queues that start with
/// the same contents and undergo the same additions and removals, in the
/// same order, give results that agree at every step.
pub proof fn lemma_runs_agree<T: Ord>(
    ops: Seq<Op<T>>,
    states1: Seq<Multiset<T>>,
    outs1: Seq<Option<T>>,
    states2: Seq<Multiset<T>>,
    outs2: Seq<Option<T>>,
)
    requires
        lawful::<T>(),
        is_run(ops, states1, outs1),
        is_run(ops, states2, outs2),
        states1[0] == states2[0],
    ensures
        forall|k: int| 0 <= k < ops.len() ==> agree(#[trigger] outs1[k], outs2[k]),
{
    lemma_similar_reflexive(states1[0]);
    lemma_similar_runs_agree(ops, states1, outs1, states2, outs2);
}

/// Emptying two queues with similar contents gives sequences that match.
pub proof fn lemma_drains_agree<T: Ord>(
    m1: Multiset<T>,
    m2: Multiset<T>,
    outs1: Seq<T>,
    outs2: Seq<T>,
)
    requires
        lawful::<T>(),
        similar(m1, m2),
        drains_to(m1, outs1),
        drains_to(m2, outs2),
    ensures
        matched(outs1, outs2),
    decreases outs1.len(),
{
    lemma_similar_len(m1, m2);
    if outs1.len() == 0 {
        if outs2.len() > 0 {
            assert(m2.count(outs2.first()) > 0);
            vstd::multiset::axiom_count_le_len(m2, outs2.first());
        }
    } else {
        let x1 = outs1.first();
        if outs2.len() == 0 {
            assert(m1.count(x1) > 0);
            vstd::multiset::axiom_count_le_len(m1, x1);
        } else {
            let x2 = outs2.first();
            lemma_similar_pop(m1, m2, x1, x2);
            let rest1 = outs1.drop_first();
            let rest2 = outs2.drop_first();
            lemma_drains_agree(m1.remove(x1), m2.remove(x2), rest1, rest2);
            assert forall|i: int| 0 <= i < outs1.len() implies equiv(
                #[trigger] outs1[i],
                outs2[i],
            ) by {
                if i > 0 {
                    assert(equiv(rest1[i - 1], rest2[i - 1]));
                }
            }
        }
    }
}

/// Bulk construction: emptying a queue that was made of a sequence at once
/// gives a sequence that matches the one from a queue to which the same
/// elements were added one by one, and both are non-increasing.
pub proof fn lemma_bulk_matches_pushes<T: Ord>(
    items: Seq<T>,
    outs_bulk: Seq<T>,
    outs_pushed: Seq<T>,
)
    requires
        lawful::<T>(),
        drains_to(items.to_multiset(), outs_bulk),
        drains_to(pushed_all(Multiset::empty(), items), outs_pushed),
    ensures
        matched(outs_bulk, outs_pushed),
        outs_bulk.len() == items.len(),
        non_increasing(outs_bulk),
        non_increasing(outs_pushed),
{
    lemma_pushed_all(items);
    lemma_similar_reflexive(items.to_multiset());
    lemma_drains_agree(items.to_multiset(), items.to_multiset(), outs_bulk, outs_pushed);
    lemma_drain_order(items.to_multiset(), outs_bulk);
    lemma_drain_order(items.to_multiset(), outs_pushed);
    to_multiset_len(items);
}

} // verus!
