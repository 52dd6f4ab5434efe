//! An array-backed binary heap ordered by an injected comparator.
//!
//! The heap is a max-heap under the comparator: no child outranks its parent,
//! so the root holds the highest-priority element. `leaf` reports the
//! lowest-priority element by scanning on demand.

use vstd::prelude::*;

use crate::compare::{antisymmetric, lemma_le_properties, Comparator, ComparatorResult};

verus! {

/// Index of the parent of node `i` (meaningful for `i >= 1`).
pub open spec fn parent_of(i: int) -> int {
    (i - 1) / 2
}

/// The heap property: no child outranks its parent.
pub open spec fn is_heap<T, C: Comparator<T>>(c: C, s: Seq<T>) -> bool {
    forall|i: int| 1 <= i < s.len() ==> #[trigger] c.le(s[i], s[parent_of(i)])
}

/// `s` with the values at `i` and `j` exchanged.
pub open spec fn seq_swap<T>(s: Seq<T>, i: int, j: int) -> Seq<T> {
    s.update(i, s[j]).update(j, s[i])
}

/// The heap property restricted to links whose parent lies in `[j, bound)`.
pub open spec fn heap_from<T, C: Comparator<T>>(c: C, s: Seq<T>, j: int, bound: int) -> bool {
    forall|i: int|
        1 <= i < bound && parent_of(i) >= j ==> #[trigger] c.le(s[i], s[parent_of(i)])
}

/// Like [`heap_from`], except that the links into `j` itself may be broken.
/// This is the state sift-down starts from and restores.
pub open spec fn heap_from_except<T, C: Comparator<T>>(
    c: C,
    s: Seq<T>,
    j: int,
    bound: int,
) -> bool {
    forall|i: int|
        1 <= i < bound && parent_of(i) >= j && parent_of(i) != j ==> #[trigger] c.le(
            s[i],
            s[parent_of(i)],
        )
}

/// The heap property with one possible violation: the link from `j` up to its
/// parent may be broken, but `j`'s children are already bounded by `j`'s
/// parent. This is the state sift-up preserves while walking `j` to the root.
pub(crate) open spec fn heap_except_up<T, C: Comparator<T>>(c: C, s: Seq<T>, j: int) -> bool {
    &&& forall|i: int| 1 <= i < s.len() && i != j ==> #[trigger] c.le(s[i], s[parent_of(i)])
    &&& j > 0 ==> forall|k: int|
        1 <= k < s.len() && parent_of(k) == j ==> #[trigger] c.le(s[k], s[parent_of(j)])
}

/// A comparator-driven binary heap.
///
/// `nodes` is the backing array: index 0 is the root, the children of `i`
/// sit at `2*i + 1` and `2*i + 2`.
#[derive(Clone, Debug, PartialEq)]
pub struct Heap<T, C: Comparator<T>> {
    nodes: Vec<T>,
    comparator: C,
}

impl<T, C: Comparator<T>> View for Heap<T, C> {
    type V = Seq<T>;

    closed spec fn view(&self) -> Seq<T> {
        self.nodes@
    }
}

impl<T, C: Comparator<T>> Heap<T, C> {
    /// The comparator this heap is ordered by.
    pub closed spec fn cmp(&self) -> C {
        self.comparator
    }

    /// The heap invariant, over the backing sequence.
    pub open spec fn valid(&self) -> bool {
        is_heap(self.cmp(), self@)
    }

    /// Returns number of nodes in heap.
    pub fn size(&self) -> (r: usize)
        ensures
            r == self@.len(),
    {
        self.nodes.len()
    }

    pub fn is_empty(&self) -> (r: bool)
        ensures
            r <==> self@.len() == 0,
    {
        self.nodes.is_empty()
    }

    /// Empties the heap.
    pub fn clear(&mut self)
        ensures
            final(self)@ == Seq::<T>::empty(),
            final(self).cmp() == old(self).cmp(),
    {
        self.nodes.clear();
    }

    /// Swaps the nodes at indices `i` and `j`.
    fn swap(&mut self, i: usize, j: usize)
        requires
            i < old(self)@.len(),
            j < old(self)@.len(),
        ensures
            final(self).cmp() == old(self).cmp(),
            final(self)@ == old(self)@.update(i as int, old(self)@[j as int]).update(
                j as int,
                old(self)@[i as int],
            ),
            final(self)@.to_multiset() == old(self)@.to_multiset(),
            final(self)@.len() == old(self)@.len(),
    {
        proof {
            broadcast use vstd::seq_lib::to_multiset_update;
            broadcast use vstd::multiset::group_multiset_axioms;

        }
        let ghost s = self.nodes@;
        if i < j {
            let b = self.nodes.remove(j);
            let a = self.nodes.remove(i);
            self.nodes.insert(i, b);
            self.nodes.insert(j, a);
            proof {
                assert(self.nodes@ =~= s.update(i as int, s[j as int]).update(
                    j as int,
                    s[i as int],
                ));
                lemma_swap_multiset(s, i as int, j as int);
            }
        } else if j < i {
            let b = self.nodes.remove(i);
            let a = self.nodes.remove(j);
            self.nodes.insert(j, b);
            self.nodes.insert(i, a);
            proof {
                assert(self.nodes@ =~= s.update(i as int, s[j as int]).update(
                    j as int,
                    s[i as int],
                ));
                lemma_swap_multiset(s, j as int, i as int);
                assert(s.update(j as int, s[i as int]).update(i as int, s[j as int]) =~= s.update(
                    i as int,
                    s[j as int],
                ).update(j as int, s[i as int]));
            }
        } else {
            proof {
                assert(self.nodes@ =~= s.update(i as int, s[j as int]).update(
                    j as int,
                    s[i as int],
                ));
            }
        }
    }

    /// Compares the nodes at the two indices with the heap's comparator.
    fn compare_at(&self, first: usize, second: usize) -> (r: ComparatorResult)
        requires
            first < self@.len(),
            second < self@.len(),
        ensures
            (r == ComparatorResult::Greater <==> self.cmp().le(self@[second as int], self@[first as int])
                && !self.cmp().le(self@[first as int], self@[second as int])),
            (r == ComparatorResult::Less <==> self.cmp().le(self@[first as int], self@[second as int])
                && !self.cmp().le(self@[second as int], self@[first as int])),
            (r == ComparatorResult::Equal <==> self.cmp().le(self@[first as int], self@[second as int])
                && self.cmp().le(self@[second as int], self@[first as int])),
    {
        self.comparator.compare(&self.nodes[first], &self.nodes[second])
    }

    /// True when both indices are in bounds and the child outranks the parent,
    /// so the two must be exchanged to restore heap order.
    fn should_swap(&self, parent_index: usize, child_index: usize) -> (r: bool)
        ensures
            r <==> (parent_index < self@.len() && child_index < self@.len()
                && self.cmp().le(self@[parent_index as int], self@[child_index as int])
                && !self.cmp().le(self@[child_index as int], self@[parent_index as int])),
    {
        if parent_index >= self.size() || child_index >= self.size() {
            return false;
        }
        let r = self.compare_at(parent_index, child_index);
        r == ComparatorResult::Less
    }

    /// Sift-up: walks the node at `start_index` toward the root, swapping with
    /// its parent while it outranks it.
    pub(crate) fn heapify_up(&mut self, start_index: usize)
        requires
            start_index < old(self)@.len(),
        ensures
            final(self).cmp() == old(self).cmp(),
            final(self)@.len() == old(self)@.len(),
            final(self)@.to_multiset() == old(self)@.to_multiset(),
            heap_except_up(old(self).cmp(), old(self)@, start_index as int) ==> is_heap(
                final(self).cmp(),
                final(self)@,
            ),
    {
        let ghost c = self.cmp();
        let ghost s0 = self@;
        let mut child = start_index;
        while child > 0 && self.should_swap((child - 1) / 2, child)
            invariant
                child < self@.len(),
                self@.len() == s0.len(),
                self.cmp() == c,
                self@.to_multiset() == s0.to_multiset(),
                heap_except_up(c, s0, start_index as int) ==> heap_except_up(
                    c,
                    self@,
                    child as int,
                ),
            decreases child,
        {
            let parent = (child - 1) / 2;
            let ghost s_pre = self@;
            self.swap(parent, child);
            proof {
                if heap_except_up(c, s0, start_index as int) {
                    lemma_up_step(c, s_pre, child as int);
                }
            }
            child = parent;
        }
        proof {
            lemma_le_properties(&c);
            if heap_except_up(c, s0, start_index as int) {
                if child == 0 {
                    assert forall|i: int| 1 <= i < self@.len() implies #[trigger] c.le(
                        self@[i],
                        self@[parent_of(i)],
                    ) by {}
                } else {
                    // the loop stopped because the child no longer outranks its parent
                    assert(c.le(self@[child as int], self@[parent_of(child as int)]));
                }
            }
        }
    }

    /// Pushes a value into the heap, restoring the heap property by sift-up.
    pub fn insert(&mut self, value: T)
        ensures
            final(self).cmp() == old(self).cmp(),
            final(self)@.len() == old(self)@.len() + 1,
            final(self)@.to_multiset() == old(self)@.to_multiset().insert(value),
            old(self).valid() ==> final(self).valid(),
    {
        let ghost c = self.cmp();
        let ghost s0 = self@;
        self.nodes.push(value);
        proof {
            broadcast use vstd::seq_lib::to_multiset_build;

            if is_heap(c, s0) {
                assert forall|i: int| 1 <= i < self@.len() && i != s0.len() implies #[trigger] c.le(
                    self@[i],
                    self@[parent_of(i)],
                ) by {
                    assert(c.le(s0[i], s0[parent_of(i)]));
                }
                assert(heap_except_up(c, self@, s0.len() as int));
            }
        }
        let last = self.nodes.len() - 1;
        self.heapify_up(last);
    }

    /// Alias for insert.
    pub fn push(&mut self, value: T)
        ensures
            final(self).cmp() == old(self).cmp(),
            final(self)@.len() == old(self)@.len() + 1,
            final(self)@.to_multiset() == old(self)@.to_multiset().insert(value),
            old(self).valid() ==> final(self).valid(),
    {
        self.insert(value);
    }

    fn has_left_child(&self, parent_index: usize) -> (r: bool)
        ensures
            r <==> 2 * (parent_index as int) + 1 < self@.len(),
    {
        parent_index < self.size() / 2
    }

    fn has_right_child(&self, parent_index: usize) -> (r: bool)
        ensures
            r <==> 2 * (parent_index as int) + 2 < self@.len(),
    {
        let n = self.size();
        n > 0 && parent_index < (n - 1) / 2
    }

    /// Picks the child of `parent_index` to compare against during sift-down:
    /// the higher-priority child, the left one on ties; `None` when the node
    /// is a leaf.
    fn select_child_index(&self, parent_index: usize) -> (r: Option<usize>)
        ensures
            (r is None) <==> 2 * (parent_index as int) + 1 >= self@.len(),
            r is Some ==> (r->0 as int) < self@.len(),
            r is Some ==> (r->0 as int) == 2 * (parent_index as int) + 1 || (r->0 as int) == 2 * (
            parent_index as int) + 2,
            r is Some ==> forall|k: int|
                (k == 2 * (parent_index as int) + 1 || k == 2 * (parent_index as int) + 2) && k
                    < self@.len() ==> self.cmp().le(#[trigger] self@[k], self@[r->0 as int]),
    {
        proof {
            lemma_le_properties(&self.comparator);
        }
        let has_left_child = self.has_left_child(parent_index);
        let has_right_child = self.has_right_child(parent_index);

        if !has_left_child && !has_right_child {
            return None;
        }
        let n = self.size();
        proof {
            assert(2 * (parent_index as int) + 1 < n as int);
        }
        let left_child_index = 2 * parent_index + 1;
        if !has_right_child {
            return Some(left_child_index);
        }
        let right_child_index = 2 * parent_index + 2;

        let r = self.compare_at(left_child_index, right_child_index);
        if r == ComparatorResult::Less {
            Some(right_child_index)
        } else {
            Some(left_child_index)
        }
    }

    /// Bounded variant of the child pick used by the in-place sort: only
    /// indices below `index` take part; ties go to the left child.
    fn pick_child_before(&self, index: usize, left_child_index: usize, right_child_index: usize) -> (r:
        usize)
        requires
            index <= self@.len(),
            left_child_index < index,
            right_child_index == left_child_index + 1,
        ensures
            r == left_child_index || r == right_child_index,
            r < index,
            self.cmp().le(self@[left_child_index as int], self@[r as int]),
            right_child_index < index ==> self.cmp().le(self@[right_child_index as int], self@[r as int]),
    {
        proof {
            lemma_le_properties(&self.comparator);
        }
        if right_child_index < index && self.compare_at(right_child_index, left_child_index)
            == ComparatorResult::Greater {
            right_child_index
        } else {
            left_child_index
        }
    }

    /// Sift-down: walks the node at `start_index` toward the leaves, swapping
    /// it with its higher-priority child while that child outranks it.
    pub(crate) fn heapify_down(&mut self, start_index: usize)
        ensures
            final(self).cmp() == old(self).cmp(),
            final(self)@.len() == old(self)@.len(),
            final(self)@.to_multiset() == old(self)@.to_multiset(),
            forall|k: int|
                0 <= k < old(self)@.len() && k < start_index ==> final(self)@[k] == old(self)@[k],
            heap_from_except(
                old(self).cmp(),
                old(self)@,
                start_index as int,
                old(self)@.len() as int,
            ) ==> heap_from(
                final(self).cmp(),
                final(self)@,
                start_index as int,
                final(self)@.len() as int,
            ),
            heap_from(old(self).cmp(), old(self)@, start_index as int, old(self)@.len() as int)
                ==> final(self)@ == old(self)@,
    {
        let ghost c = self.cmp();
        let ghost s0 = self@;
        let ghost j0 = start_index as int;
        let ghost bound = self@.len() as int;
        let mut parent_index = start_index;
        let mut child_opt = self.select_child_index(parent_index);
        while child_opt.is_some() && self.should_swap(parent_index, child_opt.unwrap())
            invariant
                self@.len() == s0.len(),
                self.cmp() == c,
                self@.to_multiset() == s0.to_multiset(),
                bound == s0.len(),
                j0 == start_index as int,
                start_index <= parent_index,
                forall|k: int| 0 <= k < s0.len() && k < j0 ==> self@[k] == s0[k],
                (child_opt is None) <==> 2 * (parent_index as int) + 1 >= self@.len(),
                child_opt is Some ==> (child_opt->0 as int) < self@.len(),
                child_opt is Some ==> (child_opt->0 as int) == 2 * (parent_index as int) + 1 || (
                child_opt->0 as int) == 2 * (parent_index as int) + 2,
                child_opt is Some ==> forall|k: int|
                    (k == 2 * (parent_index as int) + 1 || k == 2 * (parent_index as int) + 2) && k
                        < self@.len() ==> c.le(#[trigger] self@[k], self@[child_opt->0 as int]),
                heap_from_except(c, s0, j0, bound) ==> forall|i: int|
                    1 <= i < bound && parent_of(i) >= j0 && parent_of(i) != parent_index as int
                        ==> #[trigger] c.le(self@[i], self@[parent_of(i)]),
                heap_from_except(c, s0, j0, bound) && parent_index as int > j0 ==> parent_of(
                    parent_index as int,
                ) >= j0 && (forall|k: int|
                    1 <= k < bound && parent_of(k) == parent_index as int ==> #[trigger] c.le(
                        self@[k],
                        self@[parent_of(parent_index as int)],
                    )),
                heap_from(c, s0, j0, bound) ==> self@ == s0,
            decreases self@.len() - parent_index,
        {
            let child = child_opt.unwrap();
            let ghost s_pre = self@;
            proof {
                if heap_from(c, s0, j0, bound) {
                    assert(parent_of(child as int) == parent_index as int);
                    assert(c.le(s_pre[child as int], s_pre[parent_index as int]));
                    assert(false);
                }
            }
            self.swap(parent_index, child);
            proof {
                if heap_from_except(c, s0, j0, bound) {
                    lemma_down_step(c, s_pre, j0, parent_index as int, child as int, bound);
                    assert(self@ == seq_swap(s_pre, parent_index as int, child as int));
                }
            }
            parent_index = child;
            child_opt = self.select_child_index(parent_index);
        }
        proof {
            lemma_le_properties(&c);
            if heap_from_except(c, s0, j0, bound) {
                let p = parent_index as int;
                assert forall|k: int| (k == 2 * p + 1 || k == 2 * p + 2) && k < bound implies c.le(
                    #[trigger] self@[k],
                    self@[p],
                ) by {
                    let m = child_opt->0 as int;
                    assert(child_opt is Some);
                    assert(c.le(self@[k], self@[m]));
                    assert(c.le(self@[m], self@[p]));
                    c.transitive(self@[k], self@[m], self@[p]);
                }
                lemma_down_exit(c, self@, j0, p, bound);
            }
        }
    }

    /// Bounded sift-down from the root, used by the in-place sort: only the
    /// region `[0, index)` takes part.
    pub(crate) fn heapify_down_until(&mut self, index: usize)
        requires
            index <= old(self)@.len(),
        ensures
            final(self).cmp() == old(self).cmp(),
            final(self)@.len() == old(self)@.len(),
            final(self)@.to_multiset() == old(self)@.to_multiset(),
            forall|k: int| index <= k < old(self)@.len() ==> final(self)@[k] == old(self)@[k],
            heap_from_except(old(self).cmp(), old(self)@, 0, index as int) ==> heap_from(
                final(self).cmp(),
                final(self)@,
                0,
                index as int,
            ),
            heap_from(old(self).cmp(), old(self)@, 0, index as int) ==> final(self)@ == old(self)@,
    {
        let ghost c = self.cmp();
        let ghost s0 = self@;
        let ghost bound = index as int;
        let mut parent_index: usize = 0;
        while parent_index < index / 2
            invariant
                index <= self@.len(),
                self@.len() == s0.len(),
                self.cmp() == c,
                self@.to_multiset() == s0.to_multiset(),
                bound == index as int,
                forall|k: int| index <= k < s0.len() ==> self@[k] == s0[k],
                heap_from_except(c, s0, 0, bound) ==> forall|i: int|
                    1 <= i < bound && parent_of(i) >= 0 && parent_of(i) != parent_index as int
                        ==> #[trigger] c.le(self@[i], self@[parent_of(i)]),
                heap_from_except(c, s0, 0, bound) && parent_index as int > 0 ==> parent_of(
                    parent_index as int,
                ) >= 0 && (forall|k: int|
                    1 <= k < bound && parent_of(k) == parent_index as int ==> #[trigger] c.le(
                        self@[k],
                        self@[parent_of(parent_index as int)],
                    )),
                heap_from(c, s0, 0, bound) ==> self@ == s0,
            decreases index - parent_index,
        {
            let left_child_index = 2 * parent_index + 1;
            let right_child_index = left_child_index + 1;
            let child = self.pick_child_before(index, left_child_index, right_child_index);
            let ghost s_pre = self@;
            let ghost p = parent_index as int;
            let ghost m = child as int;
            proof {
                lemma_le_properties(&c);
                assert forall|k: int| (k == 2 * p + 1 || k == 2 * p + 2) && k < bound implies c.le(
                    #[trigger] s_pre[k],
                    s_pre[m],
                ) by {}
            }
            if self.should_swap(parent_index, child) {
                proof {
                    if heap_from(c, s0, 0, bound) {
                        assert(parent_of(m) == p);
                        assert(c.le(s_pre[m], s_pre[p]));
                        assert(false);
                    }
                }
                self.swap(parent_index, child);
                proof {
                    if heap_from_except(c, s0, 0, bound) {
                        lemma_down_step(c, s_pre, 0, p, m, bound);
                        assert(self@ == seq_swap(s_pre, p, m));
                    }
                }
            } else {
                proof {
                    lemma_le_properties(&c);
                    if heap_from_except(c, s0, 0, bound) {
                        assert(c.le(s_pre[m], s_pre[p]));
                        lemma_down_noswap(c, s_pre, 0, p, m, bound);
                    }
                }
            }
            parent_index = child;
        }
        proof {
            if heap_from_except(c, s0, 0, bound) {
                let p = parent_index as int;
                assert(2 * p + 1 >= bound);
                lemma_down_exit(c, self@, 0, p, bound);
            }
        }
    }

    /// Removes and returns the highest-priority node, or `None` when the heap
    /// is empty; the heap property is restored by sift-down.
    pub fn extract_root(&mut self) -> (r: Option<T>)
        ensures
            final(self).cmp() == old(self).cmp(),
            old(self)@.len() == 0 ==> r is None && final(self)@ == old(self)@,
            old(self)@.len() > 0 ==> r == Some(old(self)@[0]) && final(self)@.len() == old(
                self,
            )@.len() - 1 && final(self)@.to_multiset() == old(self)@.to_multiset().remove(
                old(self)@[0],
            ),
            old(self).valid() ==> final(self).valid(),
            old(self).valid() && old(self)@.len() > 0 ==> forall|i: int|
                0 <= i < old(self)@.len() ==> old(self).cmp().le(
                    #[trigger] old(self)@[i],
                    old(self)@[0],
                ),
    {
        proof {
            broadcast use vstd::seq_lib::to_multiset_update;
            broadcast use vstd::seq_lib::to_multiset_remove;
            broadcast use vstd::seq_lib::to_multiset_contains;
            broadcast use vstd::multiset::group_multiset_axioms;

        }
        let ghost c = self.cmp();
        let ghost s0 = self@;
        if self.nodes.len() == 0 {
            return None;
        }
        proof {
            if is_heap(c, s0) {
                lemma_heap_from_full(c, s0);
                assert forall|i: int| 0 <= i < s0.len() implies c.le(#[trigger] s0[i], s0[0]) by {
                    lemma_heap_root_max(c, s0, s0.len() as int, i);
                }
            }
        }
        let root = self.nodes.swap_remove(0);
        proof {
            let n = s0.len() as int;
            let s1 = s0.update(0, s0.last());
            assert(self.nodes@ == s1.drop_last());
            assert(s1.drop_last() == s1.remove(n - 1));
            assert(s0.contains(s0[0]));
            assert(s0.to_multiset().count(s0[0]) > 0);
            if n == 1 {
                assert(self.nodes@.to_multiset() =~= s0.to_multiset().remove(s0[0]));
            } else {
                assert(s1[n - 1] == s0[n - 1]);
                assert(s1.to_multiset() == s0.to_multiset().insert(s0.last()).remove(s0[0]));
                assert(s1.remove(n - 1).to_multiset() == s1.to_multiset().remove(s1[n - 1]));
                assert(s0.contains(s0.last()));
                assert(self.nodes@.to_multiset() =~= s0.to_multiset().remove(s0[0]));
            }
            if is_heap(c, s0) {
                assert forall|i: int|
                    1 <= i < self@.len() && parent_of(i) >= 0 && parent_of(i) != 0 implies #[trigger] c.le(
                    self@[i],
                    self@[parent_of(i)],
                ) by {
                    assert(self@[i] == s0[i]);
                    assert(self@[parent_of(i)] == s0[parent_of(i)]);
                }
                assert(heap_from_except(c, self@, 0, self@.len() as int));
            }
        }
        self.heapify_down(0);
        proof {
            if is_heap(c, s0) {
                lemma_heap_from_full(c, self@);
            }
        }
        Some(root)
    }

    /// Alias for extract_root.
    pub fn pop(&mut self) -> (r: Option<T>)
        ensures
            final(self).cmp() == old(self).cmp(),
            old(self)@.len() == 0 ==> r is None && final(self)@ == old(self)@,
            old(self)@.len() > 0 ==> r == Some(old(self)@[0]) && final(self)@.len() == old(
                self,
            )@.len() - 1 && final(self)@.to_multiset() == old(self)@.to_multiset().remove(
                old(self)@[0],
            ),
            old(self).valid() ==> final(self).valid(),
            old(self).valid() && old(self)@.len() > 0 ==> forall|i: int|
                0 <= i < old(self)@.len() ==> old(self).cmp().le(
                    #[trigger] old(self)@[i],
                    old(self)@[0],
                ),
    {
        self.extract_root()
    }

    /// Re-establishes the heap property from arbitrary array order by
    /// bottom-up sift-down. A heap that is already valid is left untouched.
    pub fn fix(&mut self)
        ensures
            final(self).cmp() == old(self).cmp(),
            final(self)@.len() == old(self)@.len(),
            final(self)@.to_multiset() == old(self)@.to_multiset(),
            final(self).valid(),
            old(self).valid() ==> final(self)@ == old(self)@,
    {
        let ghost c = self.cmp();
        let ghost s0 = self@;
        let n = self.nodes.len();
        if n < 2 {
            return ;
        }
        let mut idx = n / 2;
        while idx > 0
            invariant
                self@.len() == s0.len(),
                self@.len() == n,
                self.cmp() == c,
                self@.to_multiset() == s0.to_multiset(),
                idx <= n / 2,
                heap_from(c, self@, idx as int, n as int),
                is_heap(c, s0) ==> self@ == s0,
            decreases idx,
        {
            idx = idx - 1;
            let ghost s_pre = self@;
            proof {
                assert forall|i: int|
                    1 <= i < n && parent_of(i) >= idx as int && parent_of(i) != idx as int implies #[trigger] c.le(
                    s_pre[i],
                    s_pre[parent_of(i)],
                ) by {
                    assert(parent_of(i) >= idx as int + 1);
                }
                if is_heap(c, s0) {
                    assert forall|i: int|
                        1 <= i < n && parent_of(i) >= idx as int implies #[trigger] c.le(
                        s_pre[i],
                        s_pre[parent_of(i)],
                    ) by {}
                    assert(heap_from(c, s_pre, idx as int, n as int));
                }
            }
            self.heapify_down(idx);
        }
        proof {
            lemma_heap_from_full(c, self@);
        }
    }

    /// Creates a heap ordered by `comparator`; when starting elements are
    /// supplied the structure is fixed into heap order once, bottom-up.
    pub fn new(comparator: C, values: Option<Vec<T>>) -> (r: Self)
        ensures
            r.cmp() == comparator,
            r.valid(),
            values is None ==> r@ == Seq::<T>::empty(),
            values is Some ==> r@.to_multiset() == (values->0)@.to_multiset() && r@.len() == (
            values->0)@.len(),
    {
        let mut this = match values {
            Some(vals) => Heap { nodes: vals, comparator },
            None => Heap { nodes: Vec::new(), comparator },
        };
        if !this.is_empty() {
            this.fix();
        }
        this
    }

    /// Recursively checks the heap property of the subtree rooted at
    /// `parent_index`.
    fn is_valid_from(&self, parent_index: usize) -> (r: bool)
        ensures
            r == subtree_ok(self.cmp(), self@, parent_index as int),
        decreases self@.len() - parent_index,
    {
        proof {
            lemma_le_properties(&self.comparator);
        }
        let n = self.size();
        let mut is_valid_left = true;
        let mut is_valid_right = true;

        if self.has_left_child(parent_index) {
            proof {
                assert(2 * (parent_index as int) + 1 < self@.len());
            }
            let left_child_index = (parent_index * 2) + 1;
            if self.compare_at(left_child_index, parent_index) == ComparatorResult::Greater {
                return false;
            }
            is_valid_left = self.is_valid_from(left_child_index);
        }
        if self.has_right_child(parent_index) {
            proof {
                assert(2 * (parent_index as int) + 2 < self@.len());
            }
            let right_child_index = (parent_index * 2) + 2;
            if self.compare_at(right_child_index, parent_index) == ComparatorResult::Greater {
                return false;
            }
            is_valid_right = self.is_valid_from(right_child_index);
        }
        is_valid_left && is_valid_right
    }

    /// Checks whether the heap property holds at every node; a test oracle.
    pub fn is_valid(&self) -> (r: bool)
        ensures
            r == self.valid(),
    {
        proof {
            lemma_subtree_ok_iff_is_heap(self.cmp(), self@);
        }
        self.is_valid_from(0)
    }

    /// Read-only view of the backing array, in current (heap) order, not
    /// sorted order.
    pub fn iter(&self) -> (r: &Vec<T>)
        ensures
            r@ == self@,
    {
        &self.nodes
    }

    /// Index of a lowest-priority node, found by a scan.
    pub(crate) fn min_index(&self) -> (r: usize)
        requires
            self@.len() > 0,
        ensures
            r < self@.len(),
            forall|i: int| 0 <= i < self@.len() ==> self.cmp().le(self@[r as int], #[trigger] self@[i]),
    {
        let ghost c = self.cmp();
        proof {
            lemma_le_properties(&c);
        }
        let mut best: usize = 0;
        let mut i: usize = 1;
        while i < self.nodes.len()
            invariant
                best < i <= self@.len(),
                self.cmp() == c,
                forall|k: int| 0 <= k < i ==> c.le(self@[best as int], #[trigger] self@[k]),
            decreases self@.len() - i,
        {
            proof {
                lemma_le_properties(&c);
            }
            let r = self.compare_at(i, best);
            if r == ComparatorResult::Less {
                let ghost prev = best as int;
                best = i;
                proof {
                    assert forall|k: int| 0 <= k < i + 1 implies c.le(
                        self@[best as int],
                        #[trigger] self@[k],
                    ) by {
                        if k < i {
                            c.transitive(self@[best as int], self@[prev], self@[k]);
                        }
                    }
                }
            }
            i = i + 1;
        }
        best
    }

    /// Whether the backing array is already in fully sorted order.
    fn is_sorted(&self) -> (r: bool)
        ensures
            r == sorted_asc(self.cmp(), self@),
    {
        let ghost c = self.cmp();
        proof {
            lemma_le_properties(&c);
        }
        let n = self.nodes.len();
        if n < 2 {
            proof {
                lemma_sorted_from_adjacent(c, self@);
            }
            return true;
        }
        let mut k: usize = 0;
        while k < n - 1
            invariant
                n == self@.len(),
                2 <= n,
                k <= n - 1,
                self.cmp() == c,
                forall|j: int| 0 <= j < k ==> #[trigger] c.le(self@[j], self@[j + 1]),
            decreases n - k,
        {
            proof {
                lemma_le_properties(&c);
            }
            let r = self.compare_at(k, k + 1);
            if r == ComparatorResult::Greater {
                proof {
                    assert(!c.le(self@[k as int], self@[k as int + 1]));
                }
                return false;
            }
            k = k + 1;
        }
        proof {
            lemma_sorted_from_adjacent(c, self@);
        }
        true
    }

    /// Sorts the backing array in place, lowest priority first and the root's
    /// element last. An already sorted array is left untouched; otherwise the
    /// heap shape is re-established and a classic in-place heapsort runs:
    /// swap the root with the last unsorted slot, shrink the active region,
    /// sift down, repeat. Afterwards the array is no longer a valid heap
    /// (unless `fix` is called again).
    pub fn sort(&mut self)
        ensures
            final(self).cmp() == old(self).cmp(),
            final(self)@.len() == old(self)@.len(),
            final(self)@.to_multiset() == old(self)@.to_multiset(),
            sorted_asc(final(self).cmp(), final(self)@),
            sorted_asc(old(self).cmp(), old(self)@) ==> final(self)@ == old(self)@,
    {
        let ghost c = self.cmp();
        let ghost s0 = self@;
        if self.is_sorted() {
            return ;
        }
        self.fix();
        let n = self.nodes.len();
        proof {
            lemma_le_properties(&c);
            if n < 2 {
                assert(sorted_asc(c, s0));
            }
            lemma_heap_from_full(c, self@);
        }
        let mut i = n;
        while i > 1
            invariant
                self@.len() == n,
                2 <= n,
                1 <= i <= n,
                self.cmp() == c,
                self@.to_multiset() == s0.to_multiset(),
                heap_from(c, self@, 0, i as int),
                forall|a: int, b: int| i <= a <= b < n ==> #[trigger] c.le(self@[a], self@[b]),
                forall|a: int, b: int| 0 <= a < i <= b < n ==> #[trigger] c.le(self@[a], self@[b]),
            decreases i,
        {
            i = i - 1;
            let ghost prev = self@;
            self.swap(0, i);
            let ghost s_pre = self@;
            proof {
                lemma_le_properties(&c);
                assert forall|a: int|
                    1 <= a < i as int && parent_of(a) >= 0 && parent_of(a) != 0 implies #[trigger] c.le(
                    s_pre[a],
                    s_pre[parent_of(a)],
                ) by {
                    assert(parent_of(a) < a);
                    assert(s_pre[a] == prev[a]);
                    assert(s_pre[parent_of(a)] == prev[parent_of(a)]);
                    assert(c.le(prev[a], prev[parent_of(a)]));
                }
                assert(heap_from_except(c, s_pre, 0, i as int));
            }
            self.heapify_down_until(i);
            proof {
                lemma_le_properties(&c);
                let fin = self@;
                let ii = i as int;
                lemma_prefix_multiset(s_pre, fin, ii);
                let r0 = s_pre.subrange(0, ii);
                let r1 = fin.subrange(0, ii);
                assert(fin[ii] == s_pre[ii]);
                assert(s_pre[ii] == prev[0]);
                assert forall|k: int| 0 <= k < r0.len() implies c.le(#[trigger] r0[k], prev[0]) by {
                    if k == 0 {
                        assert(r0[0] == prev[ii]);
                        lemma_heap_root_max(c, prev, ii + 1, ii);
                    } else {
                        assert(r0[k] == prev[k]);
                        lemma_heap_root_max(c, prev, ii + 1, k);
                    }
                }
                lemma_region_bounded(c, r0, r1, prev[0]);
                // the suffix, now including slot i, stays sorted
                assert forall|a: int, b: int| ii <= a <= b < n implies #[trigger] c.le(
                    fin[a],
                    fin[b],
                ) by {
                    if a == ii {
                        if b > ii {
                            assert(fin[b] == prev[b]);
                            assert(c.le(prev[0], prev[b]));
                        }
                    } else {
                        assert(fin[a] == prev[a] && fin[b] == prev[b]);
                    }
                }
                // everything in the active region stays below the suffix
                assert forall|a: int, b: int| 0 <= a < ii <= b < n implies #[trigger] c.le(
                    fin[a],
                    fin[b],
                ) by {
                    assert(r1[a] == fin[a]);
                    assert(c.le(fin[a], prev[0]));
                    assert(c.le(fin[ii], fin[b]));
                    c.transitive(fin[a], fin[ii], fin[b]);
                }
            }
        }
        proof {
            lemma_le_properties(&c);
            assert forall|a: int, b: int| 0 <= a <= b < self@.len() implies #[trigger] c.le(
                self@[a],
                self@[b],
            ) by {
                if a < i as int && i as int <= b {
                    assert(c.le(self@[a], self@[b]));
                }
            }
        }
    }
}

impl<T: Copy, C: Comparator<T>> Heap<T, C> {
    /// Returns a copy of the highest-priority node, or `None` when empty.
    pub fn root(&self) -> (r: Option<T>)
        ensures
            self@.len() == 0 ==> r is None,
            self@.len() > 0 ==> r == Some(self@[0]),
            self.valid() && self@.len() > 0 ==> forall|i: int|
                0 <= i < self@.len() ==> self.cmp().le(#[trigger] self@[i], self@[0]),
    {
        proof {
            if self.valid() && self@.len() > 0 {
                lemma_heap_from_full(self.cmp(), self@);
                assert forall|i: int| 0 <= i < self@.len() implies self.cmp().le(
                    #[trigger] self@[i],
                    self@[0],
                ) by {
                    lemma_heap_root_max(self.cmp(), self@, self@.len() as int, i);
                }
            }
        }
        if self.nodes.len() == 0 {
            None
        } else {
            Some(self.nodes[0])
        }
    }

    /// Alias for 'root' method.
    pub fn top(&self) -> (r: Option<T>)
        ensures
            self@.len() == 0 ==> r is None,
            self@.len() > 0 ==> r == Some(self@[0]),
            self.valid() && self@.len() > 0 ==> forall|i: int|
                0 <= i < self@.len() ==> self.cmp().le(#[trigger] self@[i], self@[0]),
    {
        self.root()
    }

    /// Returns the lowest-priority node, found by a scan, or `None` when
    /// empty.
    pub fn leaf(&self) -> (r: Option<T>)
        ensures
            self@.len() == 0 <==> r is None,
            r is Some ==> self@.contains(r->0) && forall|i: int|
                0 <= i < self@.len() ==> self.cmp().le(r->0, #[trigger] self@[i]),
    {
        let ghost c = self.cmp();
        if self.nodes.len() == 0 {
            return None;
        }
        let mut best = self.nodes[0];
        proof {
            lemma_le_properties(&c);
            assert(self@[0] == best);
        }
        let mut i: usize = 1;
        while i < self.nodes.len()
            invariant
                1 <= i <= self@.len(),
                self.cmp() == c,
                self@.contains(best),
                forall|k: int| 0 <= k < i ==> c.le(best, #[trigger] self@[k]),
            decreases self@.len() - i,
        {
            proof {
                lemma_le_properties(&c);
            }
            let r = self.comparator.compare(&self.nodes[i], &best);
            if r == ComparatorResult::Less {
                let ghost prev = best;
                best = self.nodes[i];
                proof {
                    assert(self@[i as int] == best);
                    assert forall|k: int| 0 <= k < i + 1 implies c.le(best, #[trigger] self@[k]) by {
                        if k < i {
                            c.transitive(best, prev, self@[k]);
                        }
                    }
                }
            } else {
                proof {
                    assert(c.le(best, self@[i as int]));
                }
            }
            i = i + 1;
        }
        Some(best)
    }

    /// A copy of the comparator, for building a scratch heap over the same
    /// order.
    pub(crate) fn comparator_copy(&self) -> (r: C) where C: Copy
        ensures
            r == self.cmp(),
    {
        self.comparator
    }

    /// Returns a copy of the backing array in its current order.
    pub fn clone_heap_data(&self) -> (r: Vec<T>)
        ensures
            r@ == self@,
    {
        vstd::slice::slice_to_vec(self.nodes.as_slice())
    }

    /// Sorts in place (see `sort`) and returns a copy of the sorted data.
    pub fn to_sorted(&mut self) -> (r: Vec<T>)
        ensures
            final(self).cmp() == old(self).cmp(),
            r@ == final(self)@,
            final(self)@.len() == old(self)@.len(),
            final(self)@.to_multiset() == old(self)@.to_multiset(),
            sorted_asc(final(self).cmp(), final(self)@),
    {
        self.sort();
        self.clone_heap_data()
    }

    /// Applies `f` to every node in place, then restores the heap property
    /// with one `fix`, since the updates may violate it arbitrarily.
    pub fn for_each_mut<F: Fn(T) -> T>(&mut self, f: F)
        requires
            forall|x: T| call_requires(f, (x,)),
        ensures
            final(self).cmp() == old(self).cmp(),
            final(self)@.len() == old(self)@.len(),
            final(self).valid(),
            exists|m: Seq<T>|
                #![trigger m.to_multiset()]
                m.len() == old(self)@.len() && (forall|i: int|
                    0 <= i < m.len() ==> call_ensures(f, (old(self)@[i],), #[trigger] m[i]))
                    && final(self)@.to_multiset() == m.to_multiset(),
    {
        let ghost c = self.cmp();
        let ghost s0 = self@;
        let ghost mut m: Seq<T> = Seq::empty();
        let n = self.nodes.len();
        let mut i: usize = 0;
        while i < n
            invariant
                n == self@.len(),
                self@.len() == s0.len(),
                self.cmp() == c,
                i <= n,
                m.len() == i as int,
                forall|k: int| 0 <= k < i ==> call_ensures(f, (s0[k],), #[trigger] m[k]),
                forall|k: int| 0 <= k < i ==> self@[k] == m[k],
                forall|k: int| i <= k < n ==> self@[k] == s0[k],
                forall|x: T| call_requires(f, (x,)),
            decreases n - i,
        {
            let v = f(self.nodes[i]);
            self.nodes[i] = v;
            proof {
                m = m.push(v);
            }
            i = i + 1;
        }
        proof {
            assert(self@ =~= m);
        }
        self.fix();
        proof {
            assert(m.to_multiset() == final(self)@.to_multiset());
        }
    }
}

/// Swapping two positions of a sequence preserves its multiset.
proof fn lemma_swap_multiset<T>(s: Seq<T>, i: int, j: int)
    requires
        0 <= i < s.len(),
        0 <= j < s.len(),
    ensures
        s.update(i, s[j]).update(j, s[i]).to_multiset() == s.to_multiset(),
{
    broadcast use vstd::seq_lib::to_multiset_update;
    broadcast use vstd::seq_lib::to_multiset_contains;
    broadcast use vstd::multiset::group_multiset_axioms;

    let s1 = s.update(i, s[j]);
    let t = s1.update(j, s[i]);
    if i == j {
        assert(t =~= s);
    } else {
        assert(s1[j] == s[j]);
        assert(s.contains(s[i]));
        assert(s.contains(s[j]));
        assert(s1.contains(s1[j]));
        assert(s.to_multiset().count(s[i]) > 0);
        assert(s1.to_multiset().count(s[j]) > 0);
        assert forall|x: T| t.to_multiset().count(x) == s.to_multiset().count(x) by {
            assert(s1.to_multiset() == s.to_multiset().insert(s[j]).remove(s[i]));
            assert(t.to_multiset() == s1.to_multiset().insert(s[i]).remove(s[j]));
        }
        assert(t.to_multiset() =~= s.to_multiset());
    }
}

/// One sift-up exchange keeps the "heap except at `j`" shape, moving the
/// possible violation from `j` to its parent.
proof fn lemma_up_step<T, C: Comparator<T>>(c: C, s: Seq<T>, j: int)
    requires
        0 < j < s.len(),
        heap_except_up(c, s, j),
        c.le(s[parent_of(j)], s[j]),
    ensures
        heap_except_up(c, s.update(parent_of(j), s[j]).update(j, s[parent_of(j)]), parent_of(j)),
{
    lemma_le_properties(&c);
    let p = parent_of(j);
    let t = s.update(p, s[j]).update(j, s[p]);
    assert(0 <= p < j);
    assert forall|i: int| 1 <= i < t.len() && i != p implies #[trigger] c.le(t[i], t[parent_of(i)]) by {
        if i == j {
            assert(t[j] == s[p] && t[p] == s[j]);
        } else if parent_of(i) == p {
            // sibling of j under p
            assert(t[i] == s[i]);
            assert(c.le(s[i], s[p]));
            c.transitive(s[i], s[p], s[j]);
        } else if parent_of(i) == j {
            // child of j: bounded by j's parent, whose old value now sits at j
            assert(t[i] == s[i] && t[parent_of(i)] == s[p]);
            assert(c.le(s[i], s[p]));
        } else {
            assert(t[i] == s[i] && t[parent_of(i)] == s[parent_of(i)]);
            assert(c.le(s[i], s[parent_of(i)]));
        }
    }
    if p > 0 {
        assert forall|k: int| 1 <= k < t.len() && parent_of(k) == p implies #[trigger] c.le(
            t[k],
            t[parent_of(p)],
        ) by {
            assert(parent_of(p) < p);
            assert(t[parent_of(p)] == s[parent_of(p)]);
            if k == j {
                assert(t[j] == s[p]);
                assert(c.le(s[p], s[parent_of(p)]));
            } else {
                assert(t[k] == s[k]);
                assert(c.le(s[k], s[p]));
                assert(c.le(s[p], s[parent_of(p)]));
                c.transitive(s[k], s[p], s[parent_of(p)]);
            }
        }
    }
}

/// Ascending under the comparator: lowest priority first, the
/// highest-priority (root) element last.
pub open spec fn sorted_asc<T, C: Comparator<T>>(c: C, s: Seq<T>) -> bool {
    forall|a: int, b: int| 0 <= a <= b < s.len() ==> #[trigger] c.le(s[a], s[b])
}

/// Descending under the comparator: highest priority first.
pub open spec fn sorted_desc<T, C: Comparator<T>>(c: C, s: Seq<T>) -> bool {
    forall|a: int, b: int| 0 <= a <= b < s.len() ==> #[trigger] c.le(s[b], s[a])
}

/// Law: for an antisymmetric comparator, a sorted arrangement of a multiset
/// is unique. Together with the `sort` and `to_sorted` contracts (sortedness
/// and multiset preservation) this pins the sorted output down to exactly
/// "the input sorted by the comparator".
pub proof fn lemma_sorted_unique<T, C: Comparator<T>>(c: C, s1: Seq<T>, s2: Seq<T>)
    requires
        antisymmetric(c),
        sorted_asc(c, s1),
        sorted_asc(c, s2),
        s1.to_multiset() == s2.to_multiset(),
    ensures
        s1 == s2,
    decreases s1.len(),
{
    broadcast use vstd::seq_lib::to_multiset_contains;
    broadcast use vstd::seq_lib::to_multiset_remove;
    broadcast use vstd::seq_lib::to_multiset_len;
    broadcast use vstd::multiset::group_multiset_axioms;

    lemma_le_properties(&c);
    s1.to_multiset_ensures();
    s2.to_multiset_ensures();
    assert(s1.len() == s2.len());
    if s1.len() == 0 {
        assert(s1 =~= s2);
    } else {
        let n = s1.len() as int;
        let x1 = s1[n - 1];
        let x2 = s2[n - 1];
        assert(s1.contains(x1));
        assert(s2.to_multiset().count(x1) > 0);
        assert(s2.contains(x1));
        let j1 = choose|j: int| 0 <= j < n && s2[j] == x1;
        assert(c.le(s2[j1], s2[n - 1]));
        assert(s2.contains(x2));
        assert(s1.to_multiset().count(x2) > 0);
        assert(s1.contains(x2));
        let j2 = choose|j: int| 0 <= j < n && s1[j] == x2;
        assert(c.le(s1[j2], s1[n - 1]));
        assert(x1 == x2);
        let t1 = s1.drop_last();
        let t2 = s2.drop_last();
        assert(t1 =~= s1.remove(n - 1));
        assert(t2 =~= s2.remove(n - 1));
        assert(t1.to_multiset() == s1.to_multiset().remove(x1));
        assert(t2.to_multiset() == s2.to_multiset().remove(x1));
        assert forall|a: int, b: int| 0 <= a <= b < t1.len() implies #[trigger] c.le(t1[a], t1[b]) by {
            assert(c.le(s1[a], s1[b]));
        }
        assert forall|a: int, b: int| 0 <= a <= b < t2.len() implies #[trigger] c.le(t2[a], t2[b]) by {
            assert(c.le(s2[a], s2[b]));
        }
        lemma_sorted_unique(c, t1, t2);
        assert(s1 =~= t1.push(x1));
        assert(s2 =~= t2.push(x1));
        assert(s1 == s2);
    }
}

/// Law: extraction follows the sorted order. For a valid heap and any
/// highest-priority-first sorted arrangement `v` of the same elements (as
/// `PriorityQueue::to_sorted_vec` returns), the root that `extract_root`
/// removes is exactly `v[0]`, and the remaining heap holds exactly the
/// elements of `v` without its first entry; repeating the argument step by
/// step, draining the heap yields `v`.
pub proof fn lemma_extract_follows_sorted<T, C: Comparator<T>>(c: C, s: Seq<T>, v: Seq<T>)
    requires
        antisymmetric(c),
        is_heap(c, s),
        s.len() > 0,
        sorted_desc(c, v),
        v.to_multiset() == s.to_multiset(),
    ensures
        v.len() == s.len(),
        v[0] == s[0],
        v.skip(1).to_multiset() == s.to_multiset().remove(s[0]),
    decreases s.len(),
{
    broadcast use vstd::seq_lib::to_multiset_contains;
    broadcast use vstd::seq_lib::to_multiset_remove;
    broadcast use vstd::seq_lib::to_multiset_len;
    broadcast use vstd::multiset::group_multiset_axioms;

    lemma_le_properties(&c);
    lemma_heap_from_full(c, s);
    s.to_multiset_ensures();
    v.to_multiset_ensures();
    assert(v.len() == s.len());
    let n = s.len() as int;
    assert(s.contains(s[0]));
    assert(v.to_multiset().count(s[0]) > 0);
    assert(v.contains(s[0]));
    let j = choose|j: int| 0 <= j < n && v[j] == s[0];
    assert(c.le(v[j], v[0]));
    assert(v.contains(v[0]));
    assert(s.to_multiset().count(v[0]) > 0);
    assert(s.contains(v[0]));
    let i = choose|i: int| 0 <= i < n && s[i] == v[0];
    lemma_heap_root_max(c, s, n, i);
    assert(c.le(s[i], s[0]));
    assert(v[0] == s[0]);
    assert(v.skip(1) =~= v.remove(0));
    assert(v.remove(0).to_multiset() == v.to_multiset().remove(v[0]));
}

/// A sequence whose adjacent pairs are ordered is sorted.
proof fn lemma_sorted_from_adjacent<T, C: Comparator<T>>(c: C, s: Seq<T>)
    requires
        forall|k: int| 0 <= k < s.len() - 1 ==> #[trigger] c.le(s[k], s[k + 1]),
    ensures
        sorted_asc(c, s),
{
    lemma_le_properties(&c);
    assert forall|a: int, b: int| 0 <= a <= b < s.len() implies #[trigger] c.le(s[a], s[b]) by {
        lemma_le_span(c, s, a, b);
    }
}

/// Chains adjacent orderedness from `a` up to `b`.
proof fn lemma_le_span<T, C: Comparator<T>>(c: C, s: Seq<T>, a: int, b: int)
    requires
        forall|k: int| 0 <= k < s.len() - 1 ==> #[trigger] c.le(s[k], s[k + 1]),
        0 <= a <= b < s.len(),
    ensures
        c.le(s[a], s[b]),
    decreases b - a,
{
    lemma_le_properties(&c);
    if a < b {
        lemma_le_span(c, s, a, b - 1);
        assert(c.le(s[b - 1], s[(b - 1) + 1]));
        c.transitive(s[a], s[b - 1], s[b]);
    }
}

/// Elements of a sequence bounded by `bnd` stay bounded in any rearrangement
/// with the same multiset.
proof fn lemma_region_bounded<T, C: Comparator<T>>(c: C, r0: Seq<T>, r1: Seq<T>, bnd: T)
    requires
        r0.to_multiset() == r1.to_multiset(),
        forall|k: int| 0 <= k < r0.len() ==> c.le(#[trigger] r0[k], bnd),
    ensures
        forall|k: int| 0 <= k < r1.len() ==> c.le(#[trigger] r1[k], bnd),
{
    broadcast use vstd::seq_lib::to_multiset_contains;
    broadcast use vstd::multiset::group_multiset_axioms;

    assert forall|k: int| 0 <= k < r1.len() implies c.le(#[trigger] r1[k], bnd) by {
        assert(r1.contains(r1[k]));
        assert(r1.to_multiset().count(r1[k]) > 0);
        assert(r0.contains(r1[k]));
        let j = choose|j: int| 0 <= j < r0.len() && r0[j] == r1[k];
        assert(c.le(r0[j], bnd));
    }
}

/// The heap property of the subtree rooted at `i`, stated recursively the way
/// `is_valid_from` checks it.
pub open spec fn subtree_ok<T, C: Comparator<T>>(c: C, s: Seq<T>, i: int) -> bool
    decreases s.len() - i,
    when 0 <= i
{
    &&& (2 * i + 1 < s.len() ==> c.le(s[2 * i + 1], s[i]) && subtree_ok(c, s, 2 * i + 1))
    &&& (2 * i + 2 < s.len() ==> c.le(s[2 * i + 2], s[i]) && subtree_ok(c, s, 2 * i + 2))
}

/// A global heap is valid at every subtree.
proof fn lemma_is_heap_subtree<T, C: Comparator<T>>(c: C, s: Seq<T>, i: int)
    requires
        is_heap(c, s),
        0 <= i,
    ensures
        subtree_ok(c, s, i),
    decreases s.len() - i,
{
    if 2 * i + 1 < s.len() {
        assert(parent_of(2 * i + 1) == i);
        assert(c.le(s[2 * i + 1], s[i]));
        lemma_is_heap_subtree(c, s, 2 * i + 1);
    }
    if 2 * i + 2 < s.len() {
        assert(parent_of(2 * i + 2) == i);
        assert(c.le(s[2 * i + 2], s[i]));
        lemma_is_heap_subtree(c, s, 2 * i + 2);
    }
}

/// Subtree validity at the root reaches every index.
proof fn lemma_subtree_at<T, C: Comparator<T>>(c: C, s: Seq<T>, i: int)
    requires
        subtree_ok(c, s, 0),
        0 <= i < s.len(),
    ensures
        subtree_ok(c, s, i),
    decreases i,
{
    if i > 0 {
        let p = parent_of(i);
        assert(0 <= p < i);
        lemma_subtree_at(c, s, p);
        assert(i == 2 * p + 1 || i == 2 * p + 2);
    }
}

/// The recursive subtree check at the root agrees with the flat heap
/// property.
pub proof fn lemma_subtree_ok_iff_is_heap<T, C: Comparator<T>>(c: C, s: Seq<T>)
    ensures
        subtree_ok(c, s, 0) <==> is_heap(c, s),
{
    if subtree_ok(c, s, 0) {
        assert forall|i: int| 1 <= i < s.len() implies #[trigger] c.le(s[i], s[parent_of(i)]) by {
            let p = parent_of(i);
            lemma_subtree_at(c, s, p);
            assert(i == 2 * p + 1 || i == 2 * p + 2);
        }
    }
    if is_heap(c, s) {
        lemma_is_heap_subtree(c, s, 0);
    }
}

/// The two heap-property formulations agree when the region is the whole
/// sequence.
pub proof fn lemma_heap_from_full<T, C: Comparator<T>>(c: C, s: Seq<T>)
    ensures
        heap_from(c, s, 0, s.len() as int) <==> is_heap(c, s),
{
    if heap_from(c, s, 0, s.len() as int) {
        assert forall|i: int| 1 <= i < s.len() implies #[trigger] c.le(s[i], s[parent_of(i)]) by {
            assert(parent_of(i) >= 0);
        }
    }
    if is_heap(c, s) {
        assert forall|i: int| 1 <= i < s.len() && parent_of(i) >= 0 implies #[trigger] c.le(
            s[i],
            s[parent_of(i)],
        ) by {}
    }
}

/// In a heap region `[0, bound)` the root bounds every element.
pub proof fn lemma_heap_root_max<T, C: Comparator<T>>(c: C, s: Seq<T>, bound: int, i: int)
    requires
        bound <= s.len(),
        heap_from(c, s, 0, bound),
        0 <= i < bound,
    ensures
        c.le(s[i], s[0]),
    decreases i,
{
    lemma_le_properties(&c);
    if i > 0 {
        assert(0 <= parent_of(i) < i);
        lemma_heap_root_max(c, s, bound, parent_of(i));
        assert(c.le(s[i], s[parent_of(i)]));
        c.transitive(s[i], s[parent_of(i)], s[0]);
    }
}

/// One sift-down exchange: swapping the hole `p` with its best child `m`
/// moves the possible violation from `p` down to `m`.
proof fn lemma_down_step<T, C: Comparator<T>>(
    c: C,
    s: Seq<T>,
    j0: int,
    p: int,
    m: int,
    bound: int,
)
    requires
        bound <= s.len(),
        0 <= j0 <= p < bound,
        m == 2 * p + 1 || m == 2 * p + 2,
        m < bound,
        forall|k: int| (k == 2 * p + 1 || k == 2 * p + 2) && k < bound ==> c.le(#[trigger] s[k], s[m]),
        forall|i: int|
            1 <= i < bound && parent_of(i) >= j0 && parent_of(i) != p ==> #[trigger] c.le(
                s[i],
                s[parent_of(i)],
            ),
        p > j0 ==> parent_of(p) >= j0 && (forall|k: int|
            1 <= k < bound && parent_of(k) == p ==> #[trigger] c.le(s[k], s[parent_of(p)])),
        c.le(s[p], s[m]),
    ensures
        forall|i: int|
            1 <= i < bound && parent_of(i) >= j0 && parent_of(i) != m ==> #[trigger] c.le(
                seq_swap(s, p, m)[i],
                seq_swap(s, p, m)[parent_of(i)],
            ),
        parent_of(m) >= j0,
        forall|k: int|
            1 <= k < bound && parent_of(k) == m ==> #[trigger] c.le(
                seq_swap(s, p, m)[k],
                seq_swap(s, p, m)[parent_of(m)],
            ),
{
    let t = seq_swap(s, p, m);
    assert(parent_of(m) == p);
    assert forall|i: int|
        1 <= i < bound && parent_of(i) >= j0 && parent_of(i) != m implies #[trigger] c.le(
        t[i],
        t[parent_of(i)],
    ) by {
        if i == m {
            assert(t[m] == s[p] && t[p] == s[m]);
        } else if parent_of(i) == p {
            assert(t[i] == s[i] && t[p] == s[m]);
            assert(i == 2 * p + 1 || i == 2 * p + 2);
            assert(c.le(s[i], s[m]));
        } else if i == p {
            assert(parent_of(p) < p);
            assert(p > j0);
            assert(t[p] == s[m] && t[parent_of(p)] == s[parent_of(p)]);
            assert(c.le(s[m], s[parent_of(p)]));
        } else {
            assert(t[i] == s[i] && t[parent_of(i)] == s[parent_of(i)]);
        }
    }
    assert forall|k: int| 1 <= k < bound && parent_of(k) == m implies #[trigger] c.le(
        t[k],
        t[parent_of(m)],
    ) by {
        assert(m < k);
        assert(t[k] == s[k]);
        assert(c.le(s[k], s[m]));
        assert(t[parent_of(m)] == s[m]);
    }
}

/// Descending through a node without swapping keeps the sift-down shape.
proof fn lemma_down_noswap<T, C: Comparator<T>>(
    c: C,
    s: Seq<T>,
    j0: int,
    p: int,
    m: int,
    bound: int,
)
    requires
        bound <= s.len(),
        0 <= j0 <= p < bound,
        m == 2 * p + 1 || m == 2 * p + 2,
        m < bound,
        forall|k: int| (k == 2 * p + 1 || k == 2 * p + 2) && k < bound ==> c.le(#[trigger] s[k], s[m]),
        forall|i: int|
            1 <= i < bound && parent_of(i) >= j0 && parent_of(i) != p ==> #[trigger] c.le(
                s[i],
                s[parent_of(i)],
            ),
        p > j0 ==> parent_of(p) >= j0 && (forall|k: int|
            1 <= k < bound && parent_of(k) == p ==> #[trigger] c.le(s[k], s[parent_of(p)])),
        c.le(s[m], s[p]),
    ensures
        forall|i: int|
            1 <= i < bound && parent_of(i) >= j0 && parent_of(i) != m ==> #[trigger] c.le(
                s[i],
                s[parent_of(i)],
            ),
        parent_of(m) >= j0,
        forall|k: int|
            1 <= k < bound && parent_of(k) == m ==> #[trigger] c.le(s[k], s[parent_of(m)]),
{
    lemma_le_properties(&c);
    assert(parent_of(m) == p);
    assert forall|i: int|
        1 <= i < bound && parent_of(i) >= j0 && parent_of(i) != m implies #[trigger] c.le(
        s[i],
        s[parent_of(i)],
    ) by {
        if parent_of(i) == p {
            assert(i == 2 * p + 1 || i == 2 * p + 2);
            assert(c.le(s[i], s[m]));
            c.transitive(s[i], s[m], s[p]);
        }
    }
    assert forall|k: int| 1 <= k < bound && parent_of(k) == m implies #[trigger] c.le(
        s[k],
        s[parent_of(m)],
    ) by {
        assert(c.le(s[k], s[m]));
        c.transitive(s[k], s[m], s[p]);
    }
}

/// When the hole's children no longer outrank it, the whole region is a heap
/// again.
proof fn lemma_down_exit<T, C: Comparator<T>>(c: C, s: Seq<T>, j0: int, p: int, bound: int)
    requires
        bound <= s.len(),
        0 <= j0 <= p,
        forall|k: int| (k == 2 * p + 1 || k == 2 * p + 2) && k < bound ==> c.le(#[trigger] s[k], s[p]),
        forall|i: int|
            1 <= i < bound && parent_of(i) >= j0 && parent_of(i) != p ==> #[trigger] c.le(
                s[i],
                s[parent_of(i)],
            ),
    ensures
        heap_from(c, s, j0, bound),
{
    assert forall|i: int| 1 <= i < bound && parent_of(i) >= j0 implies #[trigger] c.le(
        s[i],
        s[parent_of(i)],
    ) by {
        if parent_of(i) == p {
            assert(i == 2 * p + 1 || i == 2 * p + 2);
        }
    }
}

/// Two same-length sequences that agree from `b` on and have equal multisets
/// also have prefixes with equal multisets.
proof fn lemma_prefix_multiset<T>(s: Seq<T>, t: Seq<T>, b: int)
    requires
        s.len() == t.len(),
        0 <= b <= s.len(),
        s.to_multiset() == t.to_multiset(),
        forall|k: int| b <= k < s.len() ==> s[k] == t[k],
    ensures
        s.subrange(0, b).to_multiset() == t.subrange(0, b).to_multiset(),
{
    broadcast use vstd::multiset::group_multiset_axioms;

    let sp = s.subrange(0, b);
    let tp = t.subrange(0, b);
    let suf = s.subrange(b, s.len() as int);
    assert(t.subrange(b, t.len() as int) =~= suf);
    assert(s =~= sp + suf);
    assert(t =~= tp + suf);
    vstd::seq_lib::lemma_multiset_commutative(sp, suf);
    vstd::seq_lib::lemma_multiset_commutative(tp, suf);
    assert forall|x: T| sp.to_multiset().count(x) == tp.to_multiset().count(x) by {
        assert(s.to_multiset().count(x) == sp.to_multiset().count(x) + suf.to_multiset().count(x));
        assert(t.to_multiset().count(x) == tp.to_multiset().count(x) + suf.to_multiset().count(x));
    }
    assert(sp.to_multiset() =~= tp.to_multiset());
}

} // verus!
