use vstd::prelude::*;

verus! {

/// A list of values that is walked from either end, head first.
pub struct DList<T> {
    data: Vec<T>,
}

impl<T> View for DList<T> {
    type V = Seq<T>;

    /// The values, head first.
    closed spec fn view(&self) -> Seq<T> {
        self.data@
    }
}

impl<T> DList<T> {
    /// A list holding `val` alone.
    pub fn new(val: T) -> (l: DList<T>)
        ensures
            l@ == seq![val],
    {
        let mut l = DList { data: Vec::new() };
        l.add_at_head(val);
        proof {
            assert(l@ =~= seq![val]);
        }
        l
    }

    /// A list holding `val` alone.
    pub fn new_with_val(val: T) -> (l: DList<T>)
        ensures
            l@ == seq![val],
    {
        Self::new(val)
    }

    /// Puts `val` in front.
    pub fn add_at_head(&mut self, val: T)
        ensures
            final(self)@ == seq![val] + old(self)@,
    {
        self.data.insert(0, val);
        proof {
            assert(final(self)@ =~= seq![val] + old(self)@);
        }
    }

    /// A reference to the value at `index`, if the list is that long.
    pub fn get_node(&self, index: usize) -> (r: Option<&T>)
        ensures
            r is Some == (index < self@.len()),
            r is Some ==> *r->0 == self@[index as int],
    {
        if index < self.data.len() {
            Some(&self.data[index])
        } else {
            None
        }
    }

    pub fn len(&self) -> (r: usize)
        ensures
            r == self@.len(),
    {
        self.data.len()
    }

    /// Removes every value.
    pub fn clear(&mut self)
        ensures
            final(self)@ == Seq::<T>::empty(),
    {
        self.data.clear();
    }

    /// Appends `val` at the tail.
    pub fn add(&mut self, val: T)
        ensures
            final(self)@ == old(self)@.push(val),
    {
        self.add_at_tail(val);
    }

    /// Appends `val` at the tail.
    pub fn add_at_tail(&mut self, val: T)
        ensures
            final(self)@ == old(self)@.push(val),
    {
        let n = self.data.len();
        self.add_at_index(n, val);
    }

    /// Inserts `val` so that it ends up at `index`; an index past the end
    /// leaves the list unchanged.
    pub fn add_at_index(&mut self, index: usize, val: T)
        ensures
            index <= old(self)@.len() ==> final(self)@ == old(self)@.insert(index as int, val),
            index > old(self)@.len() ==> final(self)@ == old(self)@,
    {
        if index <= self.data.len() {
            self.data.insert(index, val);
        }
    }

    /// Removes and returns the head, if any.
    pub fn delete_head(&mut self) -> (r: Option<T>)
        ensures
            old(self)@.len() == 0 ==> r is None && final(self)@ == old(self)@,
            old(self)@.len() > 0 ==> r == Some(old(self)@[0]) && final(self)@ == old(self)@.drop_first(),
    {
        self.delete_at_index(0)
    }

    /// Removes and returns the value at `index`, if the list is that long.
    pub fn delete_at_index(&mut self, index: usize) -> (r: Option<T>)
        ensures
            index >= old(self)@.len() ==> r is None && final(self)@ == old(self)@,
            index < old(self)@.len() ==> r == Some(old(self)@[index as int]) && final(self)@
                == old(self)@.remove(index as int),
    {
        if index < self.data.len() {
            let v = self.data.remove(index);
            proof {
                if index == 0 {
                    assert(old(self)@.remove(0) =~= old(self)@.drop_first());
                }
            }
            Some(v)
        } else {
            None
        }
    }
}

impl<T: Clone> DList<T> {
    /// A copy of the value at `index`, if the list is that long.
    pub fn get(&self, index: usize) -> (r: Option<T>)
        ensures
            r is Some == (index < self@.len()),
            r is Some ==> cloned(self@[index as int], r->0),
    {
        if index < self.data.len() {
            Some(self.data[index].clone())
        } else {
            None
        }
    }
}

impl<T> Default for DList<T> {
    /// The empty list.
    fn default() -> (l: DList<T>)
        ensures
            l@ == Seq::<T>::empty(),
    {
        DList { data: Vec::new() }
    }
}

} // verus!
