//! FIFO queue built on the singly-linked list.
//!
//! `add` enqueues at the back, `pop` dequeues from the front; the queue is
//! modelled as the sequence of its elements, oldest first.

use vstd::prelude::*;

use crate::linked_list::LinkedList;

verus! {

/// First-in-first-out queue over copyable values.
#[derive(Debug)]
pub struct Queue<T: Copy + PartialEq> {
    list: LinkedList<T>,
}

impl<T: Copy + PartialEq> View for Queue<T> {
    type V = Seq<T>;

    /// The queued elements, oldest first.
    closed spec fn view(&self) -> Seq<T> {
        self.list@
    }
}

impl<T: Copy + PartialEq> Queue<T> {
    /// Queue invariant, inherited from the underlying list. Established by
    /// `new` and preserved by every operation.
    pub closed spec fn wf(self) -> bool {
        self.list.wf()
    }

    /// An empty queue.
    pub fn new() -> (r: Queue<T>)
        ensures
            r.wf(),
            r@ == Seq::<T>::empty(),
    {
        Queue { list: LinkedList::new() }
    }

    /// Enqueues `v` at the back.
    pub fn add(&mut self, v: T)
        requires
            old(self).wf(),
            old(self)@.len() < usize::MAX,
        ensures
            final(self).wf(),
            final(self)@ == old(self)@.push(v),
    {
        self.list.append(v);
    }

    /// Dequeues and returns the oldest element; `None`, with the queue
    /// untouched, when the queue is empty.
    pub fn pop(&mut self) -> (r: Option<T>)
        requires
            old(self).wf(),
        ensures
            final(self).wf(),
            old(self)@.len() > 0 ==> r == Some(old(self)@[0]) && final(self)@
                == old(self)@.drop_first(),
            old(self)@.len() == 0 ==> r == None::<T> && *final(self) == *old(self),
    {
        let r = self.list.remove(0);
        proof {
            if old(self)@.len() > 0 {
                assert(old(self)@.remove(0) =~= old(self)@.drop_first());
            }
        }
        r
    }

    /// Number of queued elements.
    pub fn len(&self) -> (r: usize)
        requires
            self.wf(),
        ensures
            r == self@.len(),
    {
        self.list.len()
    }
}

} // verus!
