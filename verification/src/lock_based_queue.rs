//! Baseline FIFO queue: a growable buffer with exclusive access.
//!
//! The index-linked queues elsewhere in this crate exist to avoid serializing
//! every operation; this type is the simple reference point they are measured
//! against. It makes no attempt at clever node management: values live in one
//! buffer, enqueue appends at the back, dequeue removes at the front.

use vstd::prelude::*;

verus! {

pub struct Queue<T> {
    items: Vec<T>,
}

impl<T> View for Queue<T> {
    type V = Seq<T>;

    closed spec fn view(&self) -> Seq<T> {
        self.items@
    }
}

impl<T> Queue<T> {
    /// Constructs an empty queue.
    pub fn new() -> (q: Queue<T>)
        ensures
            q@ == Seq::<T>::empty(),
    {
        Queue { items: Vec::new() }
    }

    /// Appends `x` at the back; never fails.
    pub fn enqueue(&mut self, x: T)
        ensures
            final(self)@ == old(self)@.push(x),
    {
        self.items.push(x);
    }

    /// Removes and returns the oldest value, or `None` when the queue is
    /// empty, in which case the queue is left untouched.
    pub fn dequeue(&mut self) -> (r: Option<T>)
        ensures
            old(self)@.len() == 0 ==> r is None && final(self)@ == old(self)@,
            old(self)@.len() > 0 ==> r == Some(old(self)@[0]) && final(self)@ == old(self)@.drop_first(),
    {
        if self.items.len() == 0 {
            None
        } else {
            let x = self.items.remove(0);
            proof {
                assert(self.items@ =~= old(self).items@.drop_first());
            }
            Some(x)
        }
    }
}

impl<T> Default for Queue<T> {
    fn default() -> (q: Self)
        ensures
            q@ == Seq::<T>::empty(),
    {
        Queue::new()
    }
}

} // verus!
