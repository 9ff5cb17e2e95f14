use vstd::prelude::*;

verus! {

/// Strictly ascending order.
pub open spec fn strictly_ascending(s: Seq<i64>) -> bool {
    forall|i: int, j: int| 0 <= i < j < s.len() ==> s[i] < s[j]
}

/// A list that keeps its values in ascending order, each value once.
pub struct OrderedList {
    data: Vec<i64>,
}

impl View for OrderedList {
    type V = Seq<i64>;

    /// The values, smallest first.
    closed spec fn view(&self) -> Seq<i64> {
        self.data@
    }
}

impl OrderedList {
    /// The values are strictly ascending.
    pub open spec fn wf(&self) -> bool {
        strictly_ascending(self@)
    }

    /// A list holding `t` alone.
    pub fn new(t: i64) -> (l: OrderedList)
        ensures
            l.wf(),
            l@ == seq![t],
    {
        let mut data: Vec<i64> = Vec::new();
        data.push(t);
        let l = OrderedList { data };
        proof {
            assert(l@ =~= seq![t]);
        }
        l
    }

    /// The first position whose value is not below `t`.
    fn lower_bound(&self, t: i64) -> (i: usize)
        requires
            self.wf(),
        ensures
            i <= self@.len(),
            forall|j: int| 0 <= j < i ==> self@[j] < t,
            forall|j: int| i <= j < self@.len() ==> t <= self@[j],
    {
        let mut i: usize = 0;
        while i < self.data.len() && self.data[i] < t
            invariant
                i <= self@.len(),
                self.wf(),
                forall|j: int| 0 <= j < i ==> self@[j] < t,
            decreases self@.len() - i,
        {
            i = i + 1;
        }
        i
    }

    /// Whether `t` is in the list.
    pub fn find(&self, t: &i64) -> (r: bool)
        requires
            self.wf(),
        ensures
            r == self@.contains(*t),
    {
        let i = self.lower_bound(*t);
        let r = i < self.data.len() && self.data[i] == *t;
        proof {
            if !r && self@.contains(*t) {
                let j = choose|j: int| 0 <= j < self@.len() && self@[j] == *t;
                if j > i {
                    assert(self@[i as int] < self@[j]);
                }
            }
        }
        r
    }

    /// Adds `t` at its place in the order; a value already present is not
    /// added again.
    pub fn add(&mut self, t: i64)
        requires
            old(self).wf(),
        ensures
            final(self).wf(),
            final(self)@.to_set() == old(self)@.to_set().insert(t),
            old(self)@.contains(t) ==> final(self)@ == old(self)@,
    {
        let i = self.lower_bound(t);
        if i < self.data.len() && self.data[i] == t {
            proof {
                assert(old(self)@.to_set().insert(t) =~= old(self)@.to_set());
            }
            return;
        }
        proof {
            if old(self)@.contains(t) {
                let j = choose|j: int| 0 <= j < old(self)@.len() && old(self)@[j] == t;
                if j > i {
                    assert(old(self)@[i as int] < old(self)@[j]);
                }
            }
        }
        self.data.insert(i, t);
        proof {
            let s = old(self)@;
            let n = final(self)@;
            assert(n == s.insert(i as int, t));
            assert forall|a: int, b: int| 0 <= a < b < n.len() implies n[a] < n[b] by {
                if b < i {
                } else if b == i {
                } else if a < i {
                    assert(n[b] == s[b - 1]);
                } else if a == i {
                    assert(n[b] == s[b - 1]);
                } else {
                    assert(n[a] == s[a - 1]);
                }
            }
            assert forall|x: i64| n.to_set().contains(x) == s.to_set().insert(t).contains(x) by {
                if n.to_set().contains(x) {
                    let k = choose|k: int| 0 <= k < n.len() && n[k] == x;
                    if k < i {
                        assert(s[k] == x);
                    } else if k > i {
                        assert(s[k - 1] == x);
                    }
                }
                if s.to_set().contains(x) {
                    let k = choose|k: int| 0 <= k < s.len() && s[k] == x;
                    if k < i {
                        assert(n[k] == x);
                    } else {
                        assert(n[k + 1] == x);
                    }
                }
                if x == t {
                    assert(n[i as int] == x);
                }
            }
            assert(n.to_set() =~= s.to_set().insert(t));
        }
    }

    /// Removes `t` if it is present.
    pub fn delete(&mut self, t: &i64)
        requires
            old(self).wf(),
        ensures
            final(self).wf(),
            final(self)@.to_set() == old(self)@.to_set().remove(*t),
            !old(self)@.contains(*t) ==> final(self)@ == old(self)@,
    {
        let i = self.lower_bound(*t);
        if i < self.data.len() && self.data[i] == *t {
            self.data.remove(i);
            proof {
                let s = old(self)@;
                let n = final(self)@;
                assert(n == s.remove(i as int));
                assert forall|a: int, b: int| 0 <= a < b < n.len() implies n[a] < n[b] by {
                    if a < i && b >= i {
                        assert(n[b] == s[b + 1]);
                    }
                }
                assert forall|x: i64| n.to_set().contains(x) == s.to_set().remove(*t).contains(x) by {
                    if n.to_set().contains(x) {
                        let k = choose|k: int| 0 <= k < n.len() && n[k] == x;
                        if k < i {
                            assert(s[k] == x);
                        } else {
                            assert(s[k + 1] == x);
                        }
                    }
                    if s.to_set().contains(x) && x != *t {
                        let k = choose|k: int| 0 <= k < s.len() && s[k] == x;
                        if k < i {
                            assert(n[k] == x);
                        } else {
                            assert(n[k - 1] == x);
                        }
                    }
                }
                assert(n.to_set() =~= s.to_set().remove(*t));
            }
        } else {
            proof {
                if old(self)@.contains(*t) {
                    let j = choose|j: int| 0 <= j < old(self)@.len() && old(self)@[j] == *t;
                    if j > i {
                        assert(old(self)@[i as int] < old(self)@[j]);
                    }
                }
                assert(old(self)@.to_set().remove(*t) =~= old(self)@.to_set());
            }
        }
    }
}

impl Default for OrderedList {
    /// The empty list.
    fn default() -> (l: OrderedList)
        ensures
            l.wf(),
            l@ == Seq::<i64>::empty(),
    {
        OrderedList { data: Vec::new() }
    }
}

} // verus!
