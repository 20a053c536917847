//! The ternary heap: a max-priority queue in a vector.

use crate::layout::best_among;
use crate::layout::best_child_of;
use crate::layout::child_count;
use crate::layout::heap_ordered;
use crate::layout::heapify;
use crate::layout::heapify_below;
use crate::layout::is_child_of;
use crate::layout::lemma_root_is_greatest;
use crate::layout::lemma_sink_orders;
use crate::layout::lemma_swapped_permutes;
use crate::layout::lemma_swim_orders;
use crate::layout::ordered_from;
use crate::layout::parent_of;
use crate::layout::sink_spec;
use crate::layout::swapped;
use crate::layout::swim_spec;
use crate::order::lawful;
use crate::order::le;
use crate::order::lemma_operators;
use crate::queue::is_greatest_of;
use crate::queue::popped;
use vstd::multiset::Multiset;
use vstd::prelude::*;
use vstd::seq_lib::to_multiset_build;
use vstd::seq_lib::to_multiset_contains;
use vstd::seq_lib::to_multiset_len;
use vstd::seq_lib::to_multiset_remove;

verus! {

/// `<[Elem]>::swap` of std exchanges the elements at two positions of a slice
/// and leaves the others as they are. It panics if a position is out of bounds.
pub assume_specification<Elem>[ <[Elem]>::swap ](s: &mut [Elem], a: usize, b: usize)
    requires
        a < old(s)@.len(),
        b < old(s)@.len(),
    ensures
        final(s)@ == old(s)@.update(a as int, old(s)@[b as int]).update(b as int, old(s)@[a as int]),
;

/// A max-priority queue. The elements lie in a vector that is read as a
/// ternary tree: the root is at position 0 and the children of position `i`
/// are at positions `3 * i + 1`, `3 * i + 2` and `3 * i + 3`.
#[derive(Debug)]
pub struct TernaryHeap<T> {
    data: Vec<T>,
}

impl<T: Clone> Clone for TernaryHeap<T> {
    /// Clones the elements, each at its position.
    fn clone(&self) -> (copy: Self)
        ensures
            copy@.len() == self@.len(),
            forall|i: int| 0 <= i < self@.len() ==> cloned::<T>(#[trigger] self@[i], copy@[i]),
    {
        TernaryHeap { data: self.data.clone() }
    }
}

impl<T> View for TernaryHeap<T> {
    type V = Seq<T>;

    /// The elements in the order in which the vector holds them.
    closed spec fn view(&self) -> Seq<T> {
        self.data@
    }
}

impl<T: Ord> TernaryHeap<T> {
    /// The elements of the heap, each as often as it was added and not yet removed.
    pub open spec fn items(&self) -> Multiset<T> {
        self@.to_multiset()
    }

    /// The invariant of the heap: where the element type is lawful, no
    /// element is less than any of its children.
    pub open spec fn well_formed(&self) -> bool {
        lawful::<T>() ==> heap_ordered(self@)
    }

    /// The heap invariant: in a well-formed heap of a lawful element type no
    /// element is less than any of its children.
    pub proof fn lemma_heap_invariant(&self, i: int, c: int)
        requires
            lawful::<T>(),
            self.well_formed(),
            0 <= i,
            is_child_of(c, i),
            c < self@.len(),
        ensures
            le(self@[c], self@[i]),
    {
    }

    /// The root of a well-formed heap of a lawful element type is a greatest
    /// element of the heap.
    pub proof fn lemma_root_is_greatest_item(&self)
        requires
            lawful::<T>(),
            self.well_formed(),
            self@.len() > 0,
        ensures
            is_greatest_of(self@[0], self.items()),
    {
        let s = self@;
        to_multiset_contains(s, s[0]);
        assert(s.contains(s[0]));
        assert forall|y: T| #[trigger] self.items().contains(y) implies le(y, s[0]) by {
            to_multiset_contains(s, y);
            let i = choose|i: int| 0 <= i < s.len() && s[i] == y;
            lemma_root_is_greatest(s, i);
        }
    }

    /// Creates an empty heap.
    pub fn new() -> (heap: Self)
        ensures
            heap@ == Seq::<T>::empty(),
            heap.items() == Multiset::<T>::empty(),
            heap.well_formed(),
    {
        proof {
            to_multiset_len(Seq::<T>::empty());
            assert(Seq::<T>::empty().to_multiset() =~= Multiset::<T>::empty());
        }
        TernaryHeap { data: Vec::new() }
    }

    /// Creates an empty heap and asks for room for `capacity` elements. The
    /// request is a hint: where the room cannot be had, the heap is created
    /// without it.
    pub fn with_capacity(capacity: usize) -> (heap: Self)
        ensures
            heap@ == Seq::<T>::empty(),
            heap.items() == Multiset::<T>::empty(),
            heap.well_formed(),
    {
        let mut data: Vec<T> = Vec::new();
        let _ = data.try_reserve(capacity);
        proof {
            to_multiset_len(Seq::<T>::empty());
            assert(Seq::<T>::empty().to_multiset() =~= Multiset::<T>::empty());
        }
        TernaryHeap { data }
    }

    /// Returns the number of elements in the heap.
    pub fn len(&self) -> (n: usize)
        ensures
            n == self@.len(),
            n == self.items().len(),
    {
        proof {
            to_multiset_len(self@);
        }
        self.data.len()
    }

    /// Returns whether the heap holds no element.
    pub fn is_empty(&self) -> (b: bool)
        ensures
            b <==> self@.len() == 0,
            b <==> self.items().len() == 0,
    {
        proof {
            to_multiset_len(self@);
        }
        self.data.is_empty()
    }

    /// The position of the parent of `child`; the root is its own parent.
    pub fn parent(child: usize) -> (p: usize)
        ensures
            p == parent_of(child as int),
    {
        if child == 0 {
            0
        } else {
            (child - 1) / 3
        }
    }

    /// The child positions of `parent` that lie before `end`, in rising
    /// order, or `None` if there is none.
    pub fn children(parent: usize, end: usize) -> (r: Option<Vec<usize>>)
        ensures
            match r {
                None => 3 * parent + 1 >= end,
                Some(v) => {
                    &&& 3 * parent + 1 < end
                    &&& v@.len() == child_count(parent as int, end as int)
                    &&& forall|k: int| 0 <= k < v@.len() ==> #[trigger] v@[k] == 3 * parent + 1 + k
                },
            },
    {
        if end < 2 || parent > (end - 2) / 3 {
            return None;
        }
        let first_child = parent * 3 + 1;
        let last_child = if end - first_child > 3 {
            first_child + 3
        } else {
            end
        };
        let mut result: Vec<usize> = Vec::new();
        let mut child = first_child;
        while child < last_child
            invariant
                first_child <= child <= last_child,
                result@.len() == child - first_child,
                forall|k: int| 0 <= k < result@.len() ==> #[trigger] result@[k] == first_child + k,
            decreases last_child - child,
        {
            result.push(child);
            child += 1;
        }
        Some(result)
    }

    /// The child of `parent` before `end` that holds the greatest element; of
    /// several greatest ones, the one at the highest position.
    fn best_child(&self, parent: usize, end: usize) -> (r: Option<usize>)
        requires
            end <= self@.len(),
        ensures
            match r {
                None => 3 * parent + 1 >= end,
                Some(b) => {
                    &&& 3 * parent + 1 < end
                    &&& is_child_of(b as int, parent as int)
                    &&& b < end
                    &&& lawful::<T>() ==> b == best_child_of(self@, parent as int, end as int)
                },
            },
    {
        match Self::children(parent, end) {
            Some(vec) => {
                let mut best = vec[0];
                let mut k: usize = 1;
                while k < vec.len()
                    invariant
                        1 <= k <= vec@.len(),
                        vec@.len() == child_count(parent as int, end as int),
                        forall|j: int| 0 <= j < vec@.len() ==> #[trigger] vec@[j] == 3 * parent + 1 + j,
                        3 * parent + 1 < end <= self@.len(),
                        3 * parent + 1 <= best < 3 * parent + 1 + k,
                        lawful::<T>() ==> best == best_among(self@, 3 * parent + 1, k as int),
                    decreases vec@.len() - k,
                {
                    let child = vec[k];
                    proof {
                        if lawful::<T>() {
                            lemma_operators(self@[child as int], self@[best as int]);
                        }
                    }
                    if self.data[child] >= self.data[best] {
                        best = child;
                    }
                    k += 1;
                }
                Some(best)
            },
            None => None,
        }
    }

    /// Moves the element at `pos` up until it is at the root or not greater
    /// than its parent.
    fn swim(&mut self, pos: usize)
        requires
            pos < old(self)@.len(),
        ensures
            final(self)@.len() == old(self)@.len(),
            final(self)@.to_multiset() == old(self)@.to_multiset(),
            lawful::<T>() ==> final(self)@ == swim_spec(old(self)@, pos as int),
    {
        let mut at = pos;
        while at > 0
            invariant
                at < self@.len(),
                self@.len() == old(self)@.len(),
                self@.to_multiset() == old(self)@.to_multiset(),
                lawful::<T>() ==> swim_spec(self@, at as int) == swim_spec(old(self)@, pos as int),
            decreases at,
        {
            let parent = Self::parent(at);
            proof {
                if lawful::<T>() {
                    lemma_operators(self@[at as int], self@[parent as int]);
                }
                lemma_swapped_permutes(self@, at as int, parent as int);
            }
            if self.data[at] <= self.data[parent] {
                return ;
            }
            self.data.swap(at, parent);
            at = parent;
        }
    }

    /// Moves the element at `pos` down within the positions before `end`
    /// until it has no child there or is not less than its best child.
    fn sink_until(&mut self, pos: usize, end: usize)
        requires
            end <= old(self)@.len(),
        ensures
            final(self)@.len() == old(self)@.len(),
            final(self)@.to_multiset() == old(self)@.to_multiset(),
            forall|i: int| end <= i < old(self)@.len() ==> final(self)@[i] == old(self)@[i],
            lawful::<T>() ==> final(self)@ == sink_spec(old(self)@, pos as int, end as int),
    {
        let mut at = pos;
        loop
            invariant
                end <= self@.len(),
                self@.len() == old(self)@.len(),
                self@.to_multiset() == old(self)@.to_multiset(),
                forall|i: int| end <= i < old(self)@.len() ==> self@[i] == old(self)@[i],
                lawful::<T>() ==> sink_spec(self@, at as int, end as int) == sink_spec(
                    old(self)@,
                    pos as int,
                    end as int,
                ),
            decreases end - at,
        {
            match self.best_child(at, end) {
                None => {
                    return ;
                },
                Some(child) => {
                    proof {
                        if lawful::<T>() {
                            lemma_operators(self@[at as int], self@[child as int]);
                        }
                        lemma_swapped_permutes(self@, at as int, child as int);
                    }
                    if self.data[at] >= self.data[child] {
                        return ;
                    }
                    self.data.swap(at, child);
                    at = child;
                },
            }
        }
    }

    /// Moves the element at `pos` down within the whole heap.
    fn sink(&mut self, pos: usize)
        ensures
            final(self)@.len() == old(self)@.len(),
            final(self)@.to_multiset() == old(self)@.to_multiset(),
            lawful::<T>() ==> final(self)@ == sink_spec(
                old(self)@,
                pos as int,
                old(self)@.len() as int,
            ),
    {
        let end = self.data.len();
        self.sink_until(pos, end)
    }

    /// Adds an element to the heap: it is appended to the vector and swims up
    /// from there.
    pub fn push(&mut self, item: T)
        requires
            old(self).well_formed(),
        ensures
            final(self).well_formed(),
            final(self)@.len() == old(self)@.len() + 1,
            final(self).items() == old(self).items().insert(item),
            lawful::<T>() ==> final(self)@ == swim_spec(
                old(self)@.push(item),
                old(self)@.len() as int,
            ),
    {
        let old_len = self.len();
        self.data.push(item);
        proof {
            to_multiset_build(old(self)@, item);
            if lawful::<T>() {
                let s = old(self)@.push(item);
                assert forall|i: int, c: int|
                    0 <= i && is_child_of(c, i) && c < s.len() && c != old_len implies #[trigger] le(
                    s[c],
                    s[i],
                ) by {
                    assert(le(old(self)@[c], old(self)@[i]));
                }
                lemma_swim_orders(s, old_len as int);
            }
        }
        self.swim(old_len);
    }

    /// Removes the greatest element from the heap and returns it, or returns
    /// `None` if the heap is empty. The root changes places with the last
    /// element, which then sinks from the root, and leaves the vector.
    pub fn pop(&mut self) -> (r: Option<T>)
        requires
            old(self).well_formed(),
        ensures
            final(self).well_formed(),
            old(self)@.len() == 0 ==> r is None && final(self)@ == old(self)@,
            old(self)@.len() > 0 ==> {
                &&& r == Some(old(self)@[0])
                &&& final(self)@.len() == old(self)@.len() - 1
                &&& final(self).items() == old(self).items().remove(old(self)@[0])
            },
            lawful::<T>() ==> popped(old(self).items(), r, final(self).items()),
            lawful::<T>() && old(self)@.len() > 0 ==> final(self)@ == sink_spec(
                swapped(old(self)@, 0, old(self)@.len() - 1),
                0,
                old(self)@.len() - 1,
            ).drop_last(),
    {
        proof {
            to_multiset_len(old(self)@);
            if lawful::<T>() && old(self)@.len() > 0 {
                old(self).lemma_root_is_greatest_item();
            }
        }
        if !self.is_empty() {
            let last = self.len() - 1;
            self.data.swap(0, last);
            proof {
                let s = old(self)@;
                let t = swapped(s, 0, last as int);
                lemma_swapped_permutes(s, 0, last as int);
                if lawful::<T>() {
                    assert forall|i: int, c: int|
                        0 <= i && i != 0 && is_child_of(c, i) && c < last implies #[trigger] le(
                        t[c],
                        t[i],
                    ) by {
                        assert(le(s[c], s[i]));
                    }
                    lemma_sink_orders(t, 0, 0, last as int);
                }
            }
            self.sink_until(0, last);
            proof {
                let u = self@;
                to_multiset_remove(u, last as int);
                assert(u.remove(last as int) =~= u.drop_last());
                assert(u.drop_last() =~= u.subrange(0, last as int));
                if lawful::<T>() {
                    let v = u.drop_last();
                    assert forall|i: int, c: int|
                        0 <= i && is_child_of(c, i) && c < v.len() implies #[trigger] le(
                        v[c],
                        v[i],
                    ) by {
                        assert(le(u[c], u[i]));
                    }
                }
            }
        }
        self.data.pop()
    }
}

impl<T: Ord> vstd::std_specs::convert::FromSpecImpl<Vec<T>> for TernaryHeap<T> {
    /// A heap is not determined by the sequence of its elements as a value,
    /// so `from` is not held to `from_spec`: its `ensures` says what the
    /// heap holds.
    open spec fn obeys_from_spec() -> bool {
        false
    }

    /// Some heap whose elements lie as bottom-up construction leaves them.
    open spec fn from_spec(vec: Vec<T>) -> Self {
        choose|heap: TernaryHeap<T>| heap@ == heapify(vec@)
    }
}

impl<T: Ord> From<Vec<T>> for TernaryHeap<T> {
    /// Makes a heap of the elements of `vec`, in place and bottom-up: every
    /// position that has a child is sunk, from the last such position down to
    /// the root. An empty vector gives an empty heap.
    fn from(vec: Vec<T>) -> (heap: Self)
        ensures
            heap.well_formed(),
            heap@.len() == vec@.len(),
            heap.items() == vec@.to_multiset(),
            lawful::<T>() ==> heap@ == heapify(vec@),
    {
        let mut heap = TernaryHeap { data: vec };
        if heap.is_empty() {
            return heap;
        }
        let last_parent = Self::parent(heap.len() - 1);
        let mut next = last_parent + 1;
        while next > 0
            invariant
                vec@.len() > 0,
                next <= parent_of(vec@.len() - 1) + 1,
                heap@.len() == vec@.len(),
                heap@.to_multiset() == vec@.to_multiset(),
                lawful::<T>() ==> ordered_from(heap@, next as int, heap@.len() as int),
                lawful::<T>() ==> heapify_below(heap@, next as int) == heapify(vec@),
            decreases next,
        {
            next -= 1;
            proof {
                if lawful::<T>() {
                    let s = heap@;
                    assert forall|i: int, c: int|
                        next <= i && i != next && is_child_of(c, i) && c < s.len() implies #[trigger] le(
                        s[c],
                        s[i],
                    ) by {
                        assert(le(s[c], s[i]));
                    }
                    lemma_sink_orders(s, next as int, next as int, s.len() as int);
                }
            }
            heap.sink(next);
        }
        heap
    }
}

impl<T> vstd::std_specs::convert::FromSpecImpl<TernaryHeap<T>> for Vec<T> {
    open spec fn obeys_from_spec() -> bool {
        true
    }

    /// The vector of the heap.
    closed spec fn from_spec(heap: TernaryHeap<T>) -> Self {
        heap.data
    }
}

impl<T> From<TernaryHeap<T>> for Vec<T> {
    /// Hands out the vector of the heap as it is: in heap order, not sorted.
    fn from(heap: TernaryHeap<T>) -> (vec: Self)
        ensures
            vec@ == heap@,
    {
        heap.data
    }
}

} // verus!
