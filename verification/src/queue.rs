//! A FIFO queue built from two stacks.
//!
//! `enqueue` pushes onto the inbox; `dequeue` pops from the outbox,
//! refilling it in reverse from the inbox whenever it runs dry. The abstract
//! contents, front first, are `outbox` reversed followed by `inbox`.

use vstd::prelude::*;

verus! {

pub struct Queue<T> {
    inbox: Vec<T>,
    outbox: Vec<T>,
}

impl<T> View for Queue<T> {
    type V = Seq<T>;

    closed spec fn view(&self) -> Seq<T> {
        self.outbox@.reverse() + self.inbox@
    }
}

impl<T> Queue<T> {
    pub fn new() -> (r: Self)
        ensures
            r@ == Seq::<T>::empty(),
    {
        let r = Queue { inbox: Vec::new(), outbox: Vec::new() };
        proof {
            assert(r@ =~= Seq::<T>::empty());
        }
        r
    }

    pub fn enqueue(&mut self, value: T)
        ensures
            final(self)@ == old(self)@.push(value),
    {
        self.inbox.push(value);
        proof {
            assert(final(self)@ =~= old(self)@.push(value));
        }
    }

    /// Moves every inbox element over to the outbox, reversing their order,
    /// but only when the outbox is empty; the abstract contents are kept.
    fn fill_outbox(&mut self)
        ensures
            final(self)@ == old(self)@,
            old(self)@.len() > 0 ==> final(self).outbox@.len() > 0,
    {
        if self.outbox.is_empty() {
            let ghost inbox0 = self.inbox@;
            while self.inbox.len() > 0
                invariant
                    self.inbox@ + self.outbox@.reverse() == inbox0,
                    self.outbox@.len() == inbox0.len() - self.inbox@.len(),
                decreases self.inbox@.len(),
            {
                let ghost in_pre = self.inbox@;
                let ghost out_pre = self.outbox@;
                let e = self.inbox.pop().unwrap();
                self.outbox.push(e);
                proof {
                    assert(self.inbox@ =~= in_pre.subrange(0, in_pre.len() - 1));
                    assert(self.outbox@.reverse() =~= seq![e] + out_pre.reverse());
                    assert(self.inbox@ + self.outbox@.reverse() =~= in_pre + out_pre.reverse());
                }
            }
            proof {
                assert(final(self)@ =~= old(self)@);
            }
        }
    }

    /// Removes and returns the front element, or `None` when empty.
    pub fn dequeue(&mut self) -> (r: Option<T>)
        ensures
            old(self)@.len() == 0 ==> r is None && final(self)@ == old(self)@,
            old(self)@.len() > 0 ==> r == Some(old(self)@[0]) && final(self)@ == old(
                self,
            )@.skip(1),
    {
        self.fill_outbox();
        let ghost mid = self@;
        let ghost out_pre = self.outbox@;
        let r = self.outbox.pop();
        proof {
            if mid.len() > 0 {
                assert(out_pre.reverse()[0] == out_pre[out_pre.len() - 1]);
                assert(mid[0] == out_pre[out_pre.len() - 1]);
                assert(final(self)@ =~= mid.skip(1));
            } else {
                assert(out_pre.len() == 0);
                assert(final(self)@ =~= mid);
            }
        }
        r
    }

    /// Returns a reference to the front element, or `None` when empty.
    pub fn peek(&self) -> (r: Option<&T>)
        ensures
            self@.len() == 0 ==> r is None,
            self@.len() > 0 ==> r is Some && *(r->0) == self@[0],
    {
        if !self.outbox.is_empty() {
            let n = self.outbox.len();
            proof {
                assert(self.outbox@.reverse()[0] == self.outbox@[n - 1]);
            }
            Some(&self.outbox[n - 1])
        } else {
            if self.inbox.is_empty() {
                None
            } else {
                Some(&self.inbox[0])
            }
        }
    }

    pub fn len(&self) -> (r: usize)
        requires
            self@.len() <= usize::MAX,
        ensures
            r == self@.len(),
    {
        self.inbox.len() + self.outbox.len()
    }

    pub fn is_empty(&self) -> (r: bool)
        ensures
            r <==> self@.len() == 0,
    {
        self.inbox.is_empty() && self.outbox.is_empty()
    }
}

impl<T> Default for Queue<T> {
    fn default() -> (r: Self)
        ensures
            r@ == Seq::<T>::empty(),
    {
        Queue::new()
    }
}

} // verus!
