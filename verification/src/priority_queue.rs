//! A priority queue: a semantically-named facade over [`Heap`].
//!
//! Unlike the raw heap, whose array can be driven out of heap order by
//! `sort`, a queue keeps its heap valid across every operation; that is its
//! type invariant.

use vstd::multiset::Multiset;
use vstd::prelude::*;

use crate::compare::Comparator;
use crate::heap::{is_heap, sorted_desc, Heap};

verus! {

/// A comparator-driven priority queue wrapping exactly one [`Heap`].
#[derive(Clone, Debug, PartialEq)]
pub struct PriorityQueue<T, C: Comparator<T>> {
    heap: Heap<T, C>,
}

impl<T, C: Comparator<T>> View for PriorityQueue<T, C> {
    type V = Seq<T>;

    closed spec fn view(&self) -> Seq<T> {
        self.heap@
    }
}

impl<T, C: Comparator<T>> PriorityQueue<T, C> {
    /// The comparator this queue is ordered by.
    pub closed spec fn cmp(&self) -> C {
        self.heap.cmp()
    }

    /// The queue's heap is valid; established by `new` and preserved by
    /// every operation.
    pub open spec fn valid(&self) -> bool {
        is_heap(self.cmp(), self@)
    }

    pub fn new(compare: C, values: Option<Vec<T>>) -> (r: Self)
        ensures
            r.cmp() == compare,
            r.valid(),
            values is None ==> r@ == Seq::<T>::empty(),
            values is Some ==> r@.to_multiset() == (values->0)@.to_multiset() && r@.len() == (
            values->0)@.len(),
    {
        PriorityQueue { heap: Heap::new(compare, values) }
    }

    /// Read-only view of the underlying storage, in heap order.
    pub fn iter(&self) -> (r: &Vec<T>)
        ensures
            r@ == self@,
    {
        self.heap.iter()
    }

    /// Returns a reference to the element with highest priority.
    pub fn front(&self) -> (r: Option<&T>)
        requires
            self.valid(),
        ensures
            (r is None) <==> self@.len() == 0,
            r is Some ==> *(r->0) == self@[0] && forall|i: int|
                0 <= i < self@.len() ==> self.cmp().le(#[trigger] self@[i], self@[0]),
    {
        proof {
            crate::heap::lemma_heap_from_full(self.cmp(), self@);
            if self@.len() > 0 {
                assert forall|i: int| 0 <= i < self@.len() implies self.cmp().le(
                    #[trigger] self@[i],
                    self@[0],
                ) by {
                    crate::heap::lemma_heap_root_max(self.cmp(), self@, self@.len() as int, i);
                }
            }
        }
        let v = self.heap.iter();
        if v.len() == 0 {
            None
        } else {
            Some(&v[0])
        }
    }

    /// Returns a reference to the element with lowest priority.
    pub fn back(&self) -> (r: Option<&T>)
        ensures
            (r is None) <==> self@.len() == 0,
            r is Some ==> self@.contains(*(r->0)) && forall|i: int|
                0 <= i < self@.len() ==> self.cmp().le(*(r->0), #[trigger] self@[i]),
    {
        if self.heap.is_empty() {
            None
        } else {
            let idx = self.heap.min_index();
            let v = self.heap.iter();
            Some(&v[idx])
        }
    }

    pub fn enqueue(&mut self, value: T)
        requires
            old(self).valid(),
        ensures
            final(self).valid(),
            final(self).cmp() == old(self).cmp(),
            final(self)@.len() == old(self)@.len() + 1,
            final(self)@.to_multiset() == old(self)@.to_multiset().insert(value),
    {
        self.heap.insert(value);
    }

    /// Alias for enqueue.
    pub fn push(&mut self, value: T)
        requires
            old(self).valid(),
        ensures
            final(self).valid(),
            final(self).cmp() == old(self).cmp(),
            final(self)@.len() == old(self)@.len() + 1,
            final(self)@.to_multiset() == old(self)@.to_multiset().insert(value),
    {
        self.enqueue(value);
    }

    /// Removes and returns the element with the highest priority, or `None`
    /// when the queue is empty.
    pub fn dequeue(&mut self) -> (r: Option<T>)
        requires
            old(self).valid(),
        ensures
            final(self).valid(),
            final(self).cmp() == old(self).cmp(),
            old(self)@.len() == 0 ==> r is None && final(self)@ == old(self)@,
            old(self)@.len() > 0 ==> r == Some(old(self)@[0]) && final(self)@.len() == old(
                self,
            )@.len() - 1 && final(self)@.to_multiset() == old(self)@.to_multiset().remove(
                old(self)@[0],
            ) && (forall|i: int|
                0 <= i < old(self)@.len() ==> old(self).cmp().le(
                    #[trigger] old(self)@[i],
                    old(self)@[0],
                )),
    {
        proof {
            crate::heap::lemma_heap_from_full(self.cmp(), self@);
            if self@.len() > 0 {
                assert forall|i: int| 0 <= i < self@.len() implies self.cmp().le(
                    #[trigger] self@[i],
                    self@[0],
                ) by {
                    crate::heap::lemma_heap_root_max(self.cmp(), self@, self@.len() as int, i);
                }
            }
        }
        self.heap.extract_root()
    }

    /// Alias for `dequeue`.
    pub fn pop(&mut self) -> (r: Option<T>)
        requires
            old(self).valid(),
        ensures
            final(self).valid(),
            final(self).cmp() == old(self).cmp(),
            old(self)@.len() == 0 ==> r is None && final(self)@ == old(self)@,
            old(self)@.len() > 0 ==> r == Some(old(self)@[0]) && final(self)@.len() == old(
                self,
            )@.len() - 1 && final(self)@.to_multiset() == old(self)@.to_multiset().remove(
                old(self)@[0],
            ),
    {
        self.dequeue()
    }

    pub fn size(&self) -> (r: usize)
        ensures
            r == self@.len(),
    {
        self.heap.size()
    }

    pub fn is_empty(&self) -> (r: bool)
        ensures
            r <==> self@.len() == 0,
    {
        self.heap.is_empty()
    }
}

impl<T: Copy, C: Comparator<T> + Copy> PriorityQueue<T, C> {
    /// Removes the elements for which `predicate` returned true and keeps
    /// the rest, retaining a valid queue; returns the removed elements.
    /// The relative order of returned elements is unspecified; no element is
    /// ever dropped: the kept and returned elements together are exactly the
    /// old contents.
    pub fn extract_if<P: Fn(T) -> bool>(&mut self, predicate: P) -> (r: Vec<T>)
        requires
            old(self).valid(),
            forall|x: T| call_requires(predicate, (x,)),
        ensures
            final(self).valid(),
            final(self).cmp() == old(self).cmp(),
            final(self)@.to_multiset().add(r@.to_multiset()) == old(self)@.to_multiset(),
            forall|i: int| 0 <= i < r@.len() ==> call_ensures(predicate, (r@[i],), true),
            forall|i: int|
                0 <= i < final(self)@.len() ==> call_ensures(
                    predicate,
                    (final(self)@[i],),
                    false,
                ),
    {
        let ghost c = self.cmp();
        let ghost ms0 = self@.to_multiset();
        let mut extracted: Vec<T> = Vec::new();
        let mut retained: Vec<T> = Vec::new();
        proof {
            broadcast use vstd::multiset::group_multiset_axioms;

            assert forall|x: T|
                self@.to_multiset().add(extracted@.to_multiset()).add(
                    retained@.to_multiset(),
                ).count(x) == ms0.count(x) by {
                vstd::seq_lib::to_multiset_contains(extracted@, x);
                vstd::seq_lib::to_multiset_contains(retained@, x);
            }
            assert(self@.to_multiset().add(extracted@.to_multiset()).add(retained@.to_multiset())
                =~= ms0);
        }

        while self.size() > 0
            invariant
                self.valid(),
                self.cmp() == c,
                forall|x: T| call_requires(predicate, (x,)),
                self@.to_multiset().add(extracted@.to_multiset()).add(retained@.to_multiset())
                    == ms0,
                forall|i: int|
                    0 <= i < extracted@.len() ==> call_ensures(
                        predicate,
                        (extracted@[i],),
                        true,
                    ),
                forall|i: int|
                    0 <= i < retained@.len() ==> call_ensures(predicate, (retained@[i],), false),
            decreases self@.len(),
        {
            let ghost q0 = self@;
            let ghost ex0 = extracted@;
            let ghost re0 = retained@;
            let popped = self.pop().unwrap();
            if predicate(popped) {
                extracted.push(popped);
            } else {
                retained.push(popped);
            }
            proof {
                broadcast use vstd::multiset::group_multiset_axioms;

                vstd::seq_lib::to_multiset_contains(q0, popped);
                assert(q0[0] == popped);
                assert(0 <= 0 < q0.len() && q0[0] == popped);
                assert(q0.contains(popped));
                assert(q0.to_multiset().count(popped) > 0);
                assert forall|x: T|
                    self@.to_multiset().add(extracted@.to_multiset()).add(
                        retained@.to_multiset(),
                    ).count(x) == ms0.count(x) by {
                    vstd::seq_lib::to_multiset_build(ex0, popped);
                    vstd::seq_lib::to_multiset_build(re0, popped);
                    assert(q0.to_multiset().add(ex0.to_multiset()).add(re0.to_multiset()).count(x)
                        == ms0.count(x));
                }
                assert(self@.to_multiset().add(extracted@.to_multiset()).add(
                    retained@.to_multiset(),
                ) =~= ms0);
            }
        }
        proof {
            broadcast use vstd::multiset::group_multiset_axioms;

            self@.to_multiset_ensures();
            assert(self@.to_multiset().len() == self@.len());
            assert(self@.to_multiset() =~= Multiset::<T>::empty());
            assert forall|x: T|
                self@.to_multiset().count(x) == retained@.subrange(0, 0).to_multiset().count(
                    x,
                ) by {
                vstd::seq_lib::to_multiset_contains(self@, x);
                vstd::seq_lib::to_multiset_contains(retained@.subrange(0, 0), x);
            }
            assert(self@.to_multiset() =~= retained@.subrange(0, 0).to_multiset());
        }
        let mut i: usize = 0;
        while i < retained.len()
            invariant
                self.valid(),
                self.cmp() == c,
                i <= retained@.len(),
                self@.to_multiset() == retained@.subrange(0, i as int).to_multiset(),
                extracted@.to_multiset().add(retained@.to_multiset()) == ms0,
                forall|i: int|
                    0 <= i < extracted@.len() ==> call_ensures(
                        predicate,
                        (extracted@[i],),
                        true,
                    ),
                forall|i: int|
                    0 <= i < retained@.len() ==> call_ensures(predicate, (retained@[i],), false),
            decreases retained@.len() - i,
        {
            self.push(retained[i]);
            proof {
                broadcast use vstd::multiset::group_multiset_axioms;

                vstd::seq_lib::to_multiset_build(
                    retained@.subrange(0, i as int),
                    retained@[i as int],
                );
                assert(retained@.subrange(0, i + 1) =~= retained@.subrange(0, i as int).push(
                    retained@[i as int],
                ));
                assert(retained@.subrange(0, i as int).push(retained@[i as int]).to_multiset()
                    == retained@.subrange(0, i as int).to_multiset().insert(
                    retained@[i as int],
                ));
            }
            i = i + 1;
        }
        proof {
            broadcast use vstd::multiset::group_multiset_axioms;

            assert(retained@.subrange(0, retained@.len() as int) =~= retained@);
            assert(self@.to_multiset().add(extracted@.to_multiset()) =~= ms0);
            assert forall|k: int| 0 <= k < self@.len() implies call_ensures(
                predicate,
                (self@[k],),
                false,
            ) by {
                broadcast use vstd::multiset::group_multiset_axioms;

                vstd::seq_lib::to_multiset_contains(self@, self@[k]);
                vstd::seq_lib::to_multiset_contains(retained@, self@[k]);
                assert(self@.contains(self@[k]));
                assert(self@.to_multiset().count(self@[k]) > 0);
                assert(retained@.to_multiset().count(self@[k]) > 0);
                assert(retained@.contains(self@[k]));
                let j = choose|j: int| 0 <= j < retained@.len() && retained@[j] == self@[k];
                assert(call_ensures(predicate, (retained@[j],), false));
            }
        }
        extracted
    }

    /// Whether some element satisfies `predicate`; a pure scan over the
    /// backing storage that never mutates the queue.
    pub fn any<P: Fn(T) -> bool>(&self, predicate: P) -> (r: bool)
        requires
            forall|x: T| call_requires(predicate, (x,)),
        ensures
            r ==> exists|i: int|
                0 <= i < self@.len() && call_ensures(predicate, (#[trigger] self@[i],), true),
            !r ==> forall|i: int|
                0 <= i < self@.len() ==> call_ensures(predicate, (#[trigger] self@[i],), false),
    {
        let v = self.heap.iter();
        let mut i: usize = 0;
        while i < v.len()
            invariant
                v@ == self@,
                i <= self@.len(),
                forall|x: T| call_requires(predicate, (x,)),
                forall|k: int| 0 <= k < i ==> call_ensures(predicate, (#[trigger] self@[k],), false),
            decreases self@.len() - i,
        {
            if predicate(v[i]) {
                return true;
            }
            i = i + 1;
        }
        false
    }

    /// Returns a sorted copy of the elements, highest priority first. The
    /// queue itself is left untouched: the sort runs on a scratch heap.
    pub fn to_sorted_vec(&self) -> (r: Vec<T>)
        ensures
            r@.to_multiset() == self@.to_multiset(),
            r@.len() == self@.len(),
            sorted_desc(self.cmp(), r@),
    {
        let data = self.heap.clone_heap_data();
        let mut scratch = Heap::new(self.heap.comparator_copy(), Some(data));
        let asc = scratch.to_sorted();
        let n = asc.len();
        let mut r: Vec<T> = Vec::new();
        let mut i = n;
        while i > 0
            invariant
                n == asc@.len(),
                i <= n,
                r@.len() == n - i,
                forall|k: int| 0 <= k < r@.len() ==> r@[k] == asc@[n - 1 - k],
            decreases i,
        {
            i = i - 1;
            r.push(asc[i]);
        }
        proof {
            assert(r@ =~= asc@.reverse());
            asc@.lemma_reverse_to_multiset();
            let c = self.cmp();
            assert forall|a: int, b: int| 0 <= a <= b < r@.len() implies #[trigger] c.le(
                r@[b],
                r@[a],
            ) by {
                assert(r@[b] == asc@[n - 1 - b]);
                assert(r@[a] == asc@[n - 1 - a]);
                assert(c.le(asc@[n - 1 - b], asc@[n - 1 - a]));
            }
        }
        r
    }
}

} // verus!
