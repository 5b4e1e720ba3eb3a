use std::collections::VecDeque;
use vstd::prelude::*;

verus! {

/// A first-in, first-out queue.
pub struct Queue<T> {
    items: VecDeque<T>,
    /// The number of values held.
    pub length: usize,
}

impl<T> Queue<T> {
    /// The recorded length matches the values held.
    pub closed spec fn wf(&self) -> bool {
        self.length == self.items@.len()
    }

    /// The values held, from the head (next out) to the tail.
    pub closed spec fn view(&self) -> Seq<T> {
        self.items@
    }

    /// The number of values held.
    pub fn len(&self) -> (r: usize)
        requires
            self.wf(),
        ensures
            r == self@.len(),
    {
        self.length
    }

    /// An empty queue.
    pub fn new() -> (r: Self)
        ensures
            r.wf(),
            r@ == Seq::<T>::empty(),
    {
        Queue { items: VecDeque::new(), length: 0 }
    }

    /// Adds `val` at the tail.
    pub fn enqueue(&mut self, val: T)
        requires
            old(self).wf(),
        ensures
            final(self).wf(),
            final(self)@ == old(self)@.push(val),
    {
        self.items.push_back(val);
        self.length = self.items.len();
    }

    /// Takes the head value out; `None` when the queue is empty.
    pub fn deque(&mut self) -> (r: Option<T>)
        requires
            old(self).wf(),
        ensures
            final(self).wf(),
            old(self)@.len() == 0 ==> r is None && final(self)@ == old(self)@,
            old(self)@.len() > 0 ==> r == Some(old(self)@[0]) && final(self)@
                == old(self)@.drop_first(),
    {
        let r = self.items.pop_front();
        self.length = self.items.len();
        r
    }

    /// The head value, left in place; `None` when the queue is empty.
    pub fn peek(&self) -> (r: Option<&T>)
        requires
            self.wf(),
        ensures
            self@.len() == 0 ==> r is None,
            self@.len() > 0 ==> r == Some(&self@[0]),
    {
        if self.length > 0 {
            Some(&self.items[0])
        } else {
            None
        }
    }
}

} // verus!
