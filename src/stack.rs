use vstd::prelude::*;
use crate::list::List;

verus! {

/// A last-in first-out stack over a `List`, whose head is the top.
pub struct Stack<T> {
    data: List<T>,
}

impl<T> View for Stack<T> {
    type V = Seq<T>;

    /// The values, top first.
    closed spec fn view(&self) -> Seq<T> {
        self.data@
    }
}

impl<T> Stack<T> {
    /// A stack holding `val` alone.
    pub fn new(val: T) -> (s: Stack<T>)
        ensures
            s@ == seq![val],
    {
        Stack { data: List::new(val) }
    }

    /// Puts `val` on top.
    pub fn push(&mut self, val: T)
        ensures
            final(self)@ == seq![val] + old(self)@,
    {
        self.data.add_at_head(val);
    }

    /// The top value, if any.
    pub fn peek(&self) -> (r: Option<&T>)
        ensures
            r is Some == (self@.len() > 0),
            r is Some ==> *r->0 == self@[0],
    {
        self.data.get(0)
    }

    /// Removes every value.
    pub fn clear(&mut self)
        ensures
            final(self)@ == Seq::<T>::empty(),
    {
        self.data.clear();
    }

    pub fn count(&self) -> (r: usize)
        ensures
            r == self@.len(),
    {
        self.data.len()
    }

    /// Whether the stack holds nothing.
    pub fn empty(&self) -> (r: bool)
        ensures
            r == (self@.len() == 0),
    {
        self.data.len() == 0
    }

    /// Removes and returns the top value, if any.
    pub fn pop(&mut self) -> (r: Option<T>)
        ensures
            old(self)@.len() == 0 ==> r is None && final(self)@ == old(self)@,
            old(self)@.len() > 0 ==> r == Some(old(self)@[0]) && final(self)@ == old(self)@.drop_first(),
    {
        self.data.delete_head()
    }
}

impl<T> Default for Stack<T> {
    /// The empty stack.
    fn default() -> (s: Stack<T>)
        ensures
            s@ == Seq::<T>::empty(),
    {
        Stack { data: List::default() }
    }
}

} // verus!
