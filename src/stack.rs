use vstd::prelude::*;

verus! {

/// A last-in, first-out stack.
pub struct Stack<T> {
    items: Vec<T>,
    /// The number of values held.
    pub length: usize,
}

impl<T> Stack<T> {
    /// The recorded length matches the values held.
    pub closed spec fn wf(&self) -> bool {
        self.length == self.items@.len()
    }

    /// The values held, from the bottom to the top.
    pub closed spec fn view(&self) -> Seq<T> {
        self.items@
    }

    /// The number of values held.
    pub fn len(&self) -> (r: usize)
        requires
            self.wf(),
        ensures
            r == self@.len(),
    {
        self.length
    }

    /// An empty stack.
    pub fn new() -> (r: Self)
        ensures
            r.wf(),
            r@ == Seq::<T>::empty(),
    {
        Stack { items: Vec::new(), length: 0 }
    }

    /// Puts `val` on top.
    pub fn push(&mut self, val: T)
        requires
            old(self).wf(),
        ensures
            final(self).wf(),
            final(self)@ == old(self)@.push(val),
    {
        self.items.push(val);
        self.length = self.items.len();
    }

    /// Takes the top value off; `None` when the stack is empty.
    pub fn pop(&mut self) -> (r: Option<T>)
        requires
            old(self).wf(),
        ensures
            final(self).wf(),
            old(self)@.len() == 0 ==> r is None && final(self)@ == old(self)@,
            old(self)@.len() > 0 ==> r == Some(old(self)@.last()) && final(self)@
                == old(self)@.drop_last(),
    {
        let r = self.items.pop();
        self.length = self.items.len();
        r
    }

    /// The top value, left in place; `None` when the stack is empty.
    pub fn peek(&self) -> (r: Option<&T>)
        requires
            self.wf(),
        ensures
            self@.len() == 0 ==> r is None,
            self@.len() > 0 ==> r == Some(&self@.last()),
    {
        if self.length > 0 {
            Some(&self.items[self.length - 1])
        } else {
            None
        }
    }
}

} // verus!
