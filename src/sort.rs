use vstd::prelude::*;

verus! {

/// The values at positions `lo..hi` are in non-decreasing order.
pub open spec fn sorted_between(s: Seq<i32>, lo: int, hi: int) -> bool {
    forall|i: int, j: int| lo <= i <= j < hi ==> s[i] <= s[j]
}

/// Every value at positions `lo..hi` of `a` is a value at positions
/// `lo..hi` of `b`.
pub open spec fn drawn_from(a: Seq<i32>, b: Seq<i32>, lo: int, hi: int) -> bool {
    forall|k: int| lo <= k < hi ==> occurs_in(#[trigger] a[k], b, lo, hi)
}

/// `x` is a value at one of the positions `lo..hi` of `b`.
pub open spec fn occurs_in(x: i32, b: Seq<i32>, lo: int, hi: int) -> bool {
    exists|j: int| lo <= j < hi && b[j] == x
}

/// `a` and `b` agree outside positions `lo..hi`.
pub open spec fn same_outside(a: Seq<i32>, b: Seq<i32>, lo: int, hi: int) -> bool {
    a.len() == b.len() && forall|k: int| 0 <= k < a.len() && !(lo <= k < hi) ==> a[k] == b[k]
}

/// Exchanges the values at `i` and `j`.
fn swap(v: &mut Vec<i32>, i: usize, j: usize)
    requires
        i < old(v)@.len(),
        j < old(v)@.len(),
    ensures
        final(v)@ == old(v)@.update(i as int, old(v)@[j as int]).update(j as int, old(v)@[i as int]),
        final(v)@.to_multiset() == old(v)@.to_multiset(),
{
    let a = v[i];
    let b = v[j];
    v.set(i, b);
    v.set(j, a);
    proof {
        broadcast use vstd::seq_lib::group_to_multiset_ensures;

        let s = old(v)@;
        let s1 = s.update(i as int, b);
        assert(s1.to_multiset() =~= s.to_multiset().insert(b).remove(a));
        assert(final(v)@.to_multiset() =~= s1.to_multiset().insert(a).remove(s1[j as int]));
        assert(final(v)@.to_multiset() =~= s.to_multiset());
    }
}

proof fn lemma_drawn_trans(a: Seq<i32>, b: Seq<i32>, c: Seq<i32>, lo: int, hi: int)
    requires
        drawn_from(a, b, lo, hi),
        drawn_from(b, c, lo, hi),
    ensures
        drawn_from(a, c, lo, hi),
{
    assert forall|k: int| lo <= k < hi implies occurs_in(#[trigger] a[k], c, lo, hi) by {
        assert(occurs_in(a[k], b, lo, hi));
        let j1 = choose|j: int| lo <= j < hi && b[j] == a[k];
        assert(occurs_in(b[j1], c, lo, hi));
    }
}

/// Splits `lo..hi` around the value last in it: smaller or equal values
/// come before the returned position, which then holds that value, and
/// larger values after it.
fn partition(v: &mut Vec<i32>, lo: usize, hi: usize) -> (p: usize)
    requires
        lo < hi <= old(v)@.len(),
    ensures
        lo <= p < hi,
        final(v)@.to_multiset() == old(v)@.to_multiset(),
        same_outside(final(v)@, old(v)@, lo as int, hi as int),
        drawn_from(final(v)@, old(v)@, lo as int, hi as int),
        forall|k: int| lo <= k < p ==> final(v)@[k] <= final(v)@[p as int],
        forall|k: int| p < k < hi ==> final(v)@[p as int] <= final(v)@[k],
{
    let pivot = v[hi - 1];
    let mut i: usize = lo;
    let mut j: usize = lo;
    while j < hi - 1
        invariant
            lo <= i <= j <= hi - 1,
            hi <= v@.len(),
            v@[hi - 1] == pivot,
            v@.to_multiset() == old(v)@.to_multiset(),
            same_outside(v@, old(v)@, lo as int, hi as int),
            drawn_from(v@, old(v)@, lo as int, hi as int),
            forall|k: int| lo <= k < i ==> v@[k] <= pivot,
            forall|k: int| i <= k < j ==> v@[k] > pivot,
        decreases hi - 1 - j,
    {
        if v[j] <= pivot {
            let ghost before = v@;
            swap(v, i, j);
            proof {
                assert(drawn_from(v@, before, lo as int, hi as int)) by {
                    assert forall|k: int| lo <= k < hi implies occurs_in(#[trigger] v@[k], before, lo as int, hi as int) by {
                        if k == i {
                            assert(v@[k] == before[j as int]);
                        } else if k == j {
                            assert(v@[k] == before[i as int]);
                        } else {
                            assert(v@[k] == before[k]);
                        }
                    }
                }
                lemma_drawn_trans(v@, before, old(v)@, lo as int, hi as int);
            }
            i = i + 1;
        }
        j = j + 1;
    }
    let ghost before = v@;
    swap(v, i, hi - 1);
    proof {
        assert(drawn_from(v@, before, lo as int, hi as int)) by {
            assert forall|k: int| lo <= k < hi implies occurs_in(#[trigger] v@[k], before, lo as int, hi as int) by {
                if k == i {
                    assert(v@[k] == before[hi - 1]);
                } else if k == hi - 1 {
                    assert(v@[k] == before[i as int]);
                } else {
                    assert(v@[k] == before[k]);
                }
            }
        }
        lemma_drawn_trans(v@, before, old(v)@, lo as int, hi as int);
    }
    i
}

/// Sorts the positions `lo..hi` of `v` and leaves the rest as it was.
fn qsort(v: &mut Vec<i32>, lo: usize, hi: usize)
    requires
        lo <= hi <= old(v)@.len(),
    ensures
        final(v)@.to_multiset() == old(v)@.to_multiset(),
        same_outside(final(v)@, old(v)@, lo as int, hi as int),
        drawn_from(final(v)@, old(v)@, lo as int, hi as int),
        sorted_between(final(v)@, lo as int, hi as int),
    decreases hi - lo,
{
    if hi - lo <= 1 {
        proof {
            assert forall|k: int| lo <= k < hi implies occurs_in(#[trigger] v@[k], old(v)@, lo as int, hi as int) by {
                assert(v@[k] == old(v)@[k]);
            }
        }
        return;
    }
    let p = partition(v, lo, hi);
    let ghost v1 = v@;
    qsort(v, lo, p);
    let ghost v2 = v@;
    qsort(v, p + 1, hi);
    proof {
        let v3 = v@;
        assert(v3[p as int] == v1[p as int]);
        assert forall|k: int| lo <= k < p implies v3[k] <= v3[p as int] by {
            assert(v3[k] == v2[k]);
            let m = choose|m: int| lo <= m < p && v2[k] == v1[m];
        }
        assert forall|k: int| p < k < hi implies v3[p as int] <= v3[k] by {
            let m = choose|m: int| p + 1 <= m < hi && v3[k] == v2[m];
            assert(v2[m] == v1[m]);
        }
        assert forall|a: int, b: int| lo <= a <= b < hi implies v3[a] <= v3[b] by {
            if a < p && b < p {
                assert(v3[a] == v2[a] && v3[b] == v2[b]);
            } else if a < p {
                assert(v3[a] <= v3[p as int]);
            }
        }
        assert forall|k: int| lo <= k < hi implies occurs_in(#[trigger] v3[k], old(v)@, lo as int, hi as int) by {
            let w = if k < p {
                let m2 = choose|m: int| lo <= m < p && v2[k] == v1[m];
                assert(v3[k] == v2[k]);
                m2
            } else if k == p {
                p as int
            } else {
                let m2 = choose|m: int| p + 1 <= m < hi && v3[k] == v2[m];
                assert(v2[m2] == v1[m2]);
                m2
            };
            assert(v3[k] == v1[w]);
            let m = choose|m: int| lo <= m < hi && v1[w] == old(v)@[m];
            assert(v3[k] == old(v)@[m]);
        }
    }
}

/// Sorts `datas` in non-decreasing order.
pub fn quick_sort(datas: &mut Vec<i32>)
    ensures
        sorted(final(datas)@),
        final(datas)@.to_multiset() == old(datas)@.to_multiset(),
{
    let len = datas.len();
    qsort(datas, 0, len);
}

/// The values of `s` are in non-decreasing order.
pub open spec fn sorted(s: Seq<i32>) -> bool {
    sorted_between(s, 0, s.len() as int)
}

/// The values of `v` at positions `lo..hi`, in a new vector.
fn copy_range(v: &Vec<i32>, lo: usize, hi: usize) -> (r: Vec<i32>)
    requires
        lo <= hi <= v@.len(),
    ensures
        r@ == v@.subrange(lo as int, hi as int),
{
    let mut r: Vec<i32> = Vec::new();
    let mut i: usize = lo;
    while i < hi
        invariant
            lo <= i <= hi,
            hi <= v@.len(),
            r@ == v@.subrange(lo as int, i as int),
        decreases hi - i,
    {
        r.push(v[i]);
        i = i + 1;
        proof {
            assert(r@ =~= v@.subrange(lo as int, i as int));
        }
    }
    r
}

/// Merges two sorted vectors into one sorted vector holding the values of both.
fn merge(left: &Vec<i32>, right: &Vec<i32>) -> (r: Vec<i32>)
    requires
        sorted(left@),
        sorted(right@),
    ensures
        sorted(r@),
        r@.to_multiset() == left@.to_multiset().add(right@.to_multiset()),
{
    let mut out: Vec<i32> = Vec::new();
    let mut i: usize = 0;
    let mut j: usize = 0;
    proof {
        broadcast use vstd::seq_lib::group_to_multiset_ensures;

        assert(left@.subrange(0, 0) =~= Seq::<i32>::empty());
        assert(right@.subrange(0, 0) =~= Seq::<i32>::empty());
        assert(out@.to_multiset() =~= left@.subrange(0, 0).to_multiset().add(
            right@.subrange(0, 0).to_multiset(),
        ));
    }
    while i < left.len() || j < right.len()
        invariant
            i <= left@.len(),
            j <= right@.len(),
            sorted(left@),
            sorted(right@),
            sorted(out@),
            out@.to_multiset() == left@.subrange(0, i as int).to_multiset().add(
                right@.subrange(0, j as int).to_multiset(),
            ),
            out@.len() > 0 && i < left@.len() ==> out@.last() <= left@[i as int],
            out@.len() > 0 && j < right@.len() ==> out@.last() <= right@[j as int],
        decreases left@.len() + right@.len() - i - j,
    {
        let take_left = j >= right.len() || (i < left.len() && left[i] <= right[j]);
        let ghost before = out@;
        let ghost ml = left@.subrange(0, i as int).to_multiset();
        let ghost mr = right@.subrange(0, j as int).to_multiset();
        if take_left {
            let x = left[i];
            out.push(x);
            proof {
                broadcast use vstd::seq_lib::group_to_multiset_ensures;

                assert(left@.subrange(0, i + 1) =~= left@.subrange(0, i as int).push(x));
                assert(out@ == before.push(x));
                assert(before.push(x).to_multiset() == before.to_multiset().insert(x));
                assert(left@.subrange(0, i as int).push(x).to_multiset() == ml.insert(x));
                assert(left@.subrange(0, i + 1).to_multiset() == ml.insert(x));
                assert(ml.insert(x).add(mr) =~= ml.add(mr).insert(x));
            }
            i = i + 1;
        } else {
            let x = right[j];
            out.push(x);
            proof {
                broadcast use vstd::seq_lib::group_to_multiset_ensures;

                assert(right@.subrange(0, j + 1) =~= right@.subrange(0, j as int).push(x));
                assert(out@ == before.push(x));
                assert(before.push(x).to_multiset() == before.to_multiset().insert(x));
                assert(right@.subrange(0, j as int).push(x).to_multiset() == mr.insert(x));
                assert(right@.subrange(0, j + 1).to_multiset() == mr.insert(x));
                assert(ml.add(mr.insert(x)) =~= ml.add(mr).insert(x));
            }
            j = j + 1;
        }
    }
    proof {
        assert(left@.subrange(0, i as int) =~= left@);
        assert(right@.subrange(0, j as int) =~= right@);
    }
    out
}

/// Sorts `array` in non-decreasing order: each half is sorted on its own,
/// then the halves are merged.
pub fn merge_sort(array: &mut Vec<i32>)
    ensures
        sorted(final(array)@),
        final(array)@.to_multiset() == old(array)@.to_multiset(),
    decreases old(array)@.len(),
{
    let n = array.len();
    let mid = n / 2;
    if mid == 0 {
        return;
    }
    let mut left = copy_range(array, 0, mid);
    let mut right = copy_range(array, mid, n);
    merge_sort(&mut left);
    merge_sort(&mut right);
    let merged = merge(&left, &right);
    proof {
        vstd::seq_lib::lemma_multiset_commutative(
            old(array)@.subrange(0, mid as int),
            old(array)@.subrange(mid as int, n as int),
        );
        assert(old(array)@.subrange(0, mid as int) + old(array)@.subrange(mid as int, n as int)
            =~= old(array)@);
    }
    *array = merged;
}

} // verus!
