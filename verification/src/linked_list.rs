//! A singly linked list of boxed nodes, modelled as the sequence of its
//! values from head to tail.

use vstd::prelude::*;

verus! {

#[derive(Debug, PartialEq)]
struct Node<T> {
    value: T,
    next: Option<Box<Node<T>>>,
}

/// The values hanging off an optional node chain, front first.
spec fn node_seq<T>(n: Option<Box<Node<T>>>) -> Seq<T>
    decreases n,
{
    match n {
        None => Seq::empty(),
        Some(b) => seq![b.value] + node_seq(b.next),
    }
}

/// The values of a node chain starting at a present node.
spec fn node_seq_from<T>(n: Node<T>) -> Seq<T> {
    seq![n.value] + node_seq(n.next)
}

#[derive(Debug, PartialEq)]
pub struct SinglyLinkedList<T> {
    head: Option<Box<Node<T>>>,
    len: usize,
}

impl<T> View for SinglyLinkedList<T> {
    type V = Seq<T>;

    closed spec fn view(&self) -> Seq<T> {
        node_seq(self.head)
    }
}

/// The error returned when a list is built from an empty source.
#[derive(Debug)]
pub enum SinglyLinkedListError {
    EmptySource,
}

impl<T> SinglyLinkedList<T> {
    /// The stored length agrees with the number of nodes.
    pub closed spec fn wf(&self) -> bool {
        self.len == self@.len()
    }

    pub fn new(head: T) -> (r: Self)
        ensures
            r@ == seq![head],
            r.wf(),
    {
        let r = SinglyLinkedList { head: Some(Box::new(Node { value: head, next: None })), len: 1 };
        proof {
            let b = r.head->0;
            assert(b.value == head && b.next is None);
            assert(node_seq(b.next) =~= Seq::<T>::empty());
            assert(r@ =~= seq![head]);
        }
        r
    }

    /// Returns reference to head.
    pub fn head(&self) -> (r: Option<&T>)
        ensures
            (r is None) <==> self@.len() == 0,
            r is Some ==> *(r->0) == self@[0],
    {
        match &self.head {
            None => None,
            Some(node) => Some(&node.value),
        }
    }

    /// Returns mutable reference to head; the final list differs from the
    /// old one at most in its first value.
    pub fn head_mut(&mut self) -> (r: Option<&mut T>)
        ensures
            (r is None) <==> old(self)@.len() == 0,
            r is None ==> final(self)@ == old(self)@,
            final(self)@.len() == old(self)@.len(),
            r is Some ==> *(r->0) == old(self)@[0] && (forall|i: int|
                1 <= i < old(self)@.len() ==> final(self)@[i] == old(self)@[i]),
            final(self).wf() == old(self).wf(),
    {
        match &mut self.head {
            None => None,
            Some(node) => Some(&mut node.value),
        }
    }

    /// Returns reference to tail.
    pub fn tail(&self) -> (r: Option<&T>)
        ensures
            (r is None) <==> self@.len() == 0,
            r is Some ==> *(r->0) == self@.last(),
    {
        match &self.head {
            None => None,
            Some(node) => Some(Self::last_value(node)),
        }
    }

    fn last_value(node: &Node<T>) -> (r: &T)
        ensures
            *r == node_seq_from(*node).last(),
        decreases *node,
    {
        match &node.next {
            None => {
                proof {
                    assert(node_seq_from(*node) =~= seq![node.value]);
                }
                &node.value
            },
            Some(next) => {
                let r = Self::last_value(next);
                proof {
                    assert(node_seq_from(*node).last() == node_seq_from(**next).last());
                }
                r
            },
        }
    }

    /// Returns mutable reference to tail; the final list differs from the
    /// old one at most in its last value.
    pub fn tail_mut(&mut self) -> (r: Option<&mut T>)
        ensures
            (r is None) <==> old(self)@.len() == 0,
            r is None ==> final(self)@ == old(self)@,
            final(self)@.len() == old(self)@.len(),
            r is Some ==> *(r->0) == old(self)@.last() && (forall|i: int|
                0 <= i < old(self)@.len() - 1 ==> final(self)@[i] == old(self)@[i]),
            final(self).wf() == old(self).wf(),
    {
        match &mut self.head {
            None => None,
            Some(node) => Some(Self::last_value_mut(node)),
        }
    }

    fn last_value_mut(node: &mut Node<T>) -> (r: &mut T)
        ensures
            *r == node_seq_from(*old(node)).last(),
            node_seq_from(*final(node)).len() == node_seq_from(*old(node)).len(),
            forall|i: int|
                0 <= i < node_seq_from(*old(node)).len() - 1 ==> node_seq_from(*final(node))[i]
                    == node_seq_from(*old(node))[i],
        decreases *old(node),
    {
        match &mut node.next {
            None => &mut node.value,
            Some(next) => Self::last_value_mut(&mut **next),
        }
    }

    /// Removes and returns head. The node after it becomes the new head.
    pub fn pop_head(&mut self) -> (r: Option<T>)
        requires
            old(self).wf(),
        ensures
            final(self).wf(),
            old(self)@.len() == 0 ==> r is None && final(self)@ == old(self)@,
            old(self)@.len() > 0 ==> r == Some(old(self)@[0]) && final(self)@ == old(
                self,
            )@.skip(1),
    {
        let r = self.remove(0);
        proof {
            if old(self)@.len() > 0 {
                assert(old(self)@.remove(0) =~= old(self)@.skip(1));
            }
        }
        r
    }

    /// Removes and returns tail. The node before it becomes the new tail.
    pub fn pop_tail(&mut self) -> (r: Option<T>)
        requires
            old(self).wf(),
        ensures
            final(self).wf(),
            old(self)@.len() == 0 ==> r is None && final(self)@ == old(self)@,
            old(self)@.len() > 0 ==> r == Some(old(self)@.last()) && final(self)@ == old(
                self,
            )@.drop_last(),
    {
        if self.len == 0 {
            return None;
        }
        let n = self.len;
        let r = self.remove(n - 1);
        proof {
            assert(old(self)@.remove(old(self)@.len() - 1) =~= old(self)@.drop_last());
        }
        r
    }

    /// Inserts a new value at the front; it becomes the head.
    pub fn insert_front(&mut self, value: T)
        requires
            old(self).wf(),
            old(self)@.len() < usize::MAX,
        ensures
            final(self).wf(),
            final(self)@ == seq![value] + old(self)@,
    {
        let mut taken: Option<Box<Node<T>>> = None;
        core::mem::swap(&mut self.head, &mut taken);
        self.head = Some(Box::new(Node { value, next: taken }));
        self.len = self.len + 1;
    }

    /// Inserts a new value at the end; it becomes the tail.
    pub fn insert_back(&mut self, value: T)
        requires
            old(self).wf(),
            old(self)@.len() < usize::MAX,
        ensures
            final(self).wf(),
            final(self)@ == old(self)@.push(value),
    {
        Self::push_back_node(&mut self.head, value);
        self.len = self.len + 1;
    }

    fn push_back_node(n: &mut Option<Box<Node<T>>>, value: T)
        ensures
            node_seq(*final(n)) == node_seq(*old(n)).push(value),
        decreases node_seq(*old(n)).len(),
    {
        let taken = n.take();
        match taken {
            None => {
                *n = Some(Box::new(Node { value, next: None }));
                proof {
                    assert(node_seq(*final(n)) =~= node_seq(*old(n)).push(value));
                }
            },
            Some(boxed) => {
                let node = *boxed;
                let mut next = node.next;
                Self::push_back_node(&mut next, value);
                *n = Some(Box::new(Node { value: node.value, next }));
                proof {
                    assert(node_seq(*final(n)) =~= node_seq(*old(n)).push(value));
                }
            },
        }
    }

    /// Removes and returns the value at `index` (zero based), or `None` when
    /// the index is out of bounds.
    pub fn remove(&mut self, index: usize) -> (r: Option<T>)
        requires
            old(self).wf(),
        ensures
            final(self).wf(),
            index >= old(self)@.len() ==> r is None && final(self)@ == old(self)@,
            index < old(self)@.len() ==> r == Some(old(self)@[index as int]) && final(self)@
                == old(self)@.remove(index as int),
    {
        if index >= self.len {
            return None;
        }
        let v = Self::remove_node(&mut self.head, index);
        self.len = self.len - 1;
        Some(v)
    }

    fn remove_node(n: &mut Option<Box<Node<T>>>, index: usize) -> (r: T)
        requires
            index < node_seq(*old(n)).len(),
        ensures
            r == node_seq(*old(n))[index as int],
            node_seq(*final(n)) == node_seq(*old(n)).remove(index as int),
        decreases index,
    {
        let boxed = n.take().unwrap();
        let node = *boxed;
        if index == 0 {
            *n = node.next;
            proof {
                assert(node_seq(*final(n)) =~= node_seq(*old(n)).remove(0));
            }
            node.value
        } else {
            let mut next = node.next;
            let r = Self::remove_node(&mut next, index - 1);
            *n = Some(Box::new(Node { value: node.value, next }));
            proof {
                assert(node_seq(*final(n)) =~= node_seq(*old(n)).remove(index as int));
            }
            r
        }
    }

    pub fn is_empty(&self) -> (r: bool)
        ensures
            r <==> self@.len() == 0,
    {
        self.head.is_none()
    }

    pub fn len(&self) -> (r: usize)
        requires
            self.wf(),
        ensures
            r == self@.len(),
    {
        self.len
    }
}

impl<T: Copy> SinglyLinkedList<T> {
    /// The values from head to tail, as a vector copy; replaces
    /// iterator-based traversal.
    pub fn iter(&self) -> (r: Vec<T>)
        ensures
            r@ == self@,
    {
        let mut out: Vec<T> = Vec::new();
        Self::collect_node(&self.head, &mut out);
        out
    }

    fn collect_node(n: &Option<Box<Node<T>>>, out: &mut Vec<T>)
        ensures
            final(out)@ == old(out)@ + node_seq(*n),
        decreases *n,
    {
        match n {
            None => {
                proof {
                    assert(old(out)@ + node_seq(*n) =~= old(out)@);
                }
            },
            Some(boxed) => {
                out.push(boxed.value);
                Self::collect_node(&boxed.next, out);
                proof {
                    assert(final(out)@ =~= old(out)@ + node_seq(*n));
                }
            },
        }
    }

    /// Applies `f` to every value in place, front to tail; replaces
    /// iterator-based mutation.
    pub fn iter_mut<F: Fn(T) -> T>(&mut self, f: F)
        requires
            old(self).wf(),
            forall|x: T| call_requires(f, (x,)),
        ensures
            final(self).wf(),
            final(self)@.len() == old(self)@.len(),
            forall|i: int|
                0 <= i < old(self)@.len() ==> call_ensures(
                    f,
                    (old(self)@[i],),
                    #[trigger] final(self)@[i],
                ),
    {
        Self::map_node(&mut self.head, &f);
    }

    fn map_node<F: Fn(T) -> T>(n: &mut Option<Box<Node<T>>>, f: &F)
        requires
            forall|x: T| call_requires(*f, (x,)),
        ensures
            node_seq(*final(n)).len() == node_seq(*old(n)).len(),
            forall|i: int|
                0 <= i < node_seq(*old(n)).len() ==> call_ensures(
                    *f,
                    (node_seq(*old(n))[i],),
                    #[trigger] node_seq(*final(n))[i],
                ),
        decreases node_seq(*old(n)).len(),
    {
        let taken = n.take();
        match taken {
            None => {
                *n = None;
            },
            Some(boxed) => {
                let node = *boxed;
                let new_value = f(node.value);
                let mut next = node.next;
                let ghost pre = next;
                Self::map_node(&mut next, f);
                let ghost post = next;
                *n = Some(Box::new(Node { value: new_value, next }));
                proof {
                    let s_old = node_seq(*old(n));
                    let s_new = node_seq(*final(n));
                    assert(s_old =~= seq![node.value] + node_seq(pre));
                    assert(s_new =~= seq![new_value] + node_seq(post));
                    assert forall|i: int| 0 <= i < s_old.len() implies call_ensures(
                        *f,
                        (s_old[i],),
                        #[trigger] s_new[i],
                    ) by {
                        if i == 0 {
                            assert(s_old[0] == node.value && s_new[0] == new_value);
                        } else {
                            assert(s_old[i] == node_seq(pre)[i - 1]);
                            assert(s_new[i] == node_seq(post)[i - 1]);
                        }
                    }
                }
            },
        }
    }

    /// Builds a list from a non-empty slice, front first; an empty slice is
    /// rejected.
    pub fn try_from(slice: &[T]) -> (r: Result<Self, SinglyLinkedListError>)
        ensures
            (r is Err) <==> slice@.len() == 0,
            r is Ok ==> (r->Ok_0)@ == slice@ && (r->Ok_0).wf(),
    {
        let v = vstd::slice::slice_to_vec(slice);
        if v.len() == 0 {
            return Err(SinglyLinkedListError::EmptySource);
        }
        let mut list = Self::new(v[0]);
        let mut i: usize = 1;
        while i < v.len()
            invariant
                1 <= i <= v@.len(),
                v@ == slice@,
                list.wf(),
                list@ == v@.subrange(0, i as int),
            decreases v@.len() - i,
        {
            list.insert_back(v[i]);
            proof {
                assert(v@.subrange(0, i as int).push(v@[i as int]) =~= v@.subrange(0, i + 1));
            }
            i = i + 1;
        }
        proof {
            assert(v@.subrange(0, v@.len() as int) =~= v@);
        }
        Ok(list)
    }
}

} // verus!
