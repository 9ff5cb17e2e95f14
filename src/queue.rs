use vstd::prelude::*;
use crate::dlist::DList;

verus! {

/// A first-in first-out queue over a `DList`: values join at the tail and
/// leave at the head.
pub struct Queue<T> {
    data: DList<T>,
}

impl<T> View for Queue<T> {
    type V = Seq<T>;

    /// The values, oldest first.
    closed spec fn view(&self) -> Seq<T> {
        self.data@
    }
}

impl<T> Queue<T> {
    /// A queue holding `val` alone.
    pub fn new(val: T) -> (q: Queue<T>)
        ensures
            q@ == seq![val],
    {
        Queue { data: DList::new(val) }
    }

    pub fn count(&self) -> (r: usize)
        ensures
            r == self@.len(),
    {
        self.data.len()
    }

    /// Whether the queue holds nothing.
    pub fn empty(&self) -> (r: bool)
        ensures
            r == (self@.len() == 0),
    {
        self.data.len() == 0
    }

    /// Adds `val` at the tail.
    pub fn enqueue(&mut self, val: T)
        ensures
            final(self)@ == old(self)@.push(val),
    {
        self.data.add_at_tail(val);
    }

    /// Removes and returns the oldest value, if any.
    pub fn dequeue(&mut self) -> (r: Option<T>)
        ensures
            old(self)@.len() == 0 ==> r is None && final(self)@ == old(self)@,
            old(self)@.len() > 0 ==> r == Some(old(self)@[0]) && final(self)@ == old(self)@.drop_first(),
    {
        self.data.delete_head()
    }
}

impl<T: Clone> Queue<T> {
    /// A copy of the oldest value, if any.
    pub fn peek(&self) -> (r: Option<T>)
        ensures
            r is Some == (self@.len() > 0),
            r is Some ==> cloned(self@[0], r->0),
    {
        self.data.get(0)
    }
}

impl<T> Default for Queue<T> {
    /// The empty queue.
    fn default() -> (q: Queue<T>)
        ensures
            q@ == Seq::<T>::empty(),
    {
        Queue { data: DList::default() }
    }
}

} // verus!
