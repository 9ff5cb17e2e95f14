use vstd::prelude::*;

verus! {

/// Keys that a `MyHashMap` can hold: copied freely, compared for equality,
/// and hashed to a `u64`.
pub trait HashKey: Copy + Sized {
    /// The hash of the key.
    spec fn spec_hash(&self) -> u64;

    fn hash_key(&self) -> (h: u64)
        ensures
            h == self.spec_hash(),
    ;

    fn same_key(&self, other: &Self) -> (r: bool)
        ensures
            r == (*self == *other),
    ;
}

impl HashKey for i32 {
    open spec fn spec_hash(&self) -> u64 {
        *self as u64
    }

    fn hash_key(&self) -> (h: u64) {
        *self as u64
    }

    fn same_key(&self, other: &i32) -> (r: bool) {
        *self == *other
    }
}

impl HashKey for i64 {
    open spec fn spec_hash(&self) -> u64 {
        *self as u64
    }

    fn hash_key(&self) -> (h: u64) {
        *self as u64
    }

    fn same_key(&self, other: &i64) -> (r: bool) {
        *self == *other
    }
}

impl HashKey for u64 {
    open spec fn spec_hash(&self) -> u64 {
        *self
    }

    fn hash_key(&self) -> (h: u64) {
        *self
    }

    fn same_key(&self, other: &u64) -> (r: bool) {
        *self == *other
    }
}

/// The bucket that a hash falls in, among `n` buckets.
pub open spec fn slot(h: u64, n: nat) -> int {
    (h as nat % n) as int
}

/// Some entry of the bucket `s` has key `k`.
pub open spec fn bucket_has<K, V>(s: Seq<(K, V)>, k: K) -> bool {
    exists|i: int| 0 <= i < s.len() && #[trigger] s[i].0 == k
}

/// The value of an entry of the bucket `s` with key `k`.
pub open spec fn bucket_val<K, V>(s: Seq<(K, V)>, k: K) -> V {
    s[choose|i: int| 0 <= i < s.len() && #[trigger] s[i].0 == k].1
}

/// No two entries of the bucket `s` share a key.
pub open spec fn keys_unique<K, V>(s: Seq<(K, V)>) -> bool {
    forall|i: int, j: int|
        #![trigger s[i], s[j]]
        0 <= i < s.len() && 0 <= j < s.len() && s[i].0 == s[j].0 ==> i == j
}

/// The map that buckets `bs` hold: a key maps to the value of its entry in
/// the bucket that its hash picks.
pub open spec fn map_of<K: HashKey, V>(bs: Seq<Vec<(K, V)>>) -> Map<K, V> {
    Map::new(
        |k: K| bucket_has(bs[slot(k.spec_hash(), bs.len())]@, k),
        |k: K| bucket_val(bs[slot(k.spec_hash(), bs.len())]@, k),
    )
}

/// At least one bucket; each entry in the bucket that its key's hash picks;
/// no key twice in a bucket.
pub open spec fn buckets_wf<K: HashKey, V>(bs: Seq<Vec<(K, V)>>) -> bool {
    &&& bs.len() > 0
    &&& forall|b: int, i: int|
        0 <= b < bs.len() && 0 <= i < bs[b]@.len() ==> slot(
            (#[trigger] bs[b]@[i]).0.spec_hash(),
            bs.len(),
        ) == b
    &&& forall|b: int| 0 <= b < bs.len() ==> keys_unique(#[trigger] bs[b]@)
}

proof fn lemma_map_insert_ext<K, V>(m: Map<K, V>, n: Map<K, V>, k: K, v: V)
    requires
        n.contains_key(k),
        n[k] == v,
        forall|kk: K|
            kk != k ==> (#[trigger] n.contains_key(kk) == m.contains_key(kk) && (m.contains_key(kk)
                ==> n[kk] == m[kk])),
    ensures
        n == m.insert(k, v),
{
    assert forall|kk: K| #[trigger] n.contains_key(kk) == m.insert(k, v).contains_key(kk) by {
        if kk != k {
            assert(n.contains_key(kk) == m.contains_key(kk));
        }
    }
    assert forall|kk: K| n.contains_key(kk) implies #[trigger] n[kk] == m.insert(k, v)[kk] by {
        if kk != k {
            assert(n.contains_key(kk) == m.contains_key(kk));
        }
    }
    assert(n =~= m.insert(k, v));
}

proof fn lemma_map_remove_ext<K, V>(m: Map<K, V>, n: Map<K, V>, k: K)
    requires
        !n.contains_key(k),
        forall|kk: K|
            kk != k ==> (#[trigger] n.contains_key(kk) == m.contains_key(kk) && (m.contains_key(kk)
                ==> n[kk] == m[kk])),
    ensures
        n == m.remove(k),
{
    assert forall|kk: K| #[trigger] n.contains_key(kk) == m.remove(k).contains_key(kk) by {
        if kk != k {
            assert(n.contains_key(kk) == m.contains_key(kk));
        }
    }
    assert forall|kk: K| n.contains_key(kk) implies #[trigger] n[kk] == m.remove(k)[kk] by {
        assert(n.contains_key(kk) == m.contains_key(kk));
    }
    assert(n =~= m.remove(k));
}

proof fn lemma_map_of_at<K: HashKey, V>(bs: Seq<Vec<(K, V)>>, k: K)
    ensures
        map_of(bs).contains_key(k) == bucket_has(bs[slot(k.spec_hash(), bs.len())]@, k),
        map_of(bs).contains_key(k) ==> map_of(bs)[k] == bucket_val(
            bs[slot(k.spec_hash(), bs.len())]@,
            k,
        ),
{
}

proof fn lemma_bucket_at<K, V>(s: Seq<(K, V)>, k: K, i: int)
    requires
        keys_unique(s),
        0 <= i < s.len(),
        s[i].0 == k,
    ensures
        bucket_has(s, k),
        bucket_val(s, k) == s[i].1,
{
    assert(bucket_has(s, k));
    let j = choose|j: int| 0 <= j < s.len() && #[trigger] s[j].0 == k;
    assert(s[i].0 == s[j].0);
}

/// Replacing bucket `b` by `s2` changes the map only at keys of that bucket:
/// a key `kk` of bucket `b` other than `k` keeps its membership and value
/// where `s2` keeps the entries with keys other than `k`.
proof fn lemma_same_elsewhere<K: HashKey, V>(
    bs: Seq<Vec<(K, V)>>,
    nbs: Seq<Vec<(K, V)>>,
    b: int,
    k: K,
    kk: K,
)
    requires
        buckets_wf(bs),
        buckets_wf(nbs),
        nbs.len() == bs.len(),
        0 <= b < bs.len(),
        forall|c: int| 0 <= c < bs.len() && c != b ==> nbs[c] == bs[c],
        kk != k,
        forall|i: int|
            0 <= i < bs[b]@.len() && (#[trigger] bs[b]@[i]).0 != k ==> exists|j: int|
                0 <= j < nbs[b]@.len() && nbs[b]@[j] == bs[b]@[i],
        forall|j: int|
            0 <= j < nbs[b]@.len() && (#[trigger] nbs[b]@[j]).0 != k ==> exists|i: int|
                0 <= i < bs[b]@.len() && nbs[b]@[j] == bs[b]@[i],
    ensures
        map_of(nbs).contains_key(kk) == map_of(bs).contains_key(kk),
        map_of(bs).contains_key(kk) ==> map_of(nbs)[kk] == map_of(bs)[kk],
{
    let c = slot(kk.spec_hash(), bs.len());
    if c != b {
        assert(nbs[c] == bs[c]);
    } else {
        let o = bs[b]@;
        let n = nbs[b]@;
        assert(keys_unique(o));
        assert(keys_unique(n));
        if bucket_has(o, kk) {
            let i = choose|i: int| 0 <= i < o.len() && #[trigger] o[i].0 == kk;
            lemma_bucket_at(o, kk, i);
            let j = choose|j: int| 0 <= j < n.len() && n[j] == o[i];
            lemma_bucket_at(n, kk, j);
        }
        if bucket_has(n, kk) {
            let j = choose|j: int| 0 <= j < n.len() && #[trigger] n[j].0 == kk;
            let i = choose|i: int| 0 <= i < o.len() && n[j] == o[i];
            lemma_bucket_at(o, kk, i);
        }
    }
}

/// A map from keys to values that chains colliding keys in buckets.
pub struct MyHashMap<K, V> {
    buckets: Vec<Vec<(K, V)>>,
}

impl<K: HashKey, V> View for MyHashMap<K, V> {
    type V = Map<K, V>;

    /// The key-value pairs held.
    closed spec fn view(&self) -> Map<K, V> {
        map_of(self.buckets@)
    }
}

/// The position of `k` in `bucket`, if it is there.
fn position<K: HashKey, V>(bucket: &Vec<(K, V)>, k: &K) -> (r: Option<usize>)
    ensures
        r is Some ==> r->0 < bucket@.len() && bucket@[r->0 as int].0 == *k,
        r is None ==> !bucket_has(bucket@, *k),
{
    let mut i: usize = 0;
    while i < bucket.len()
        invariant
            i <= bucket@.len(),
            forall|j: int| 0 <= j < i ==> bucket@[j].0 != *k,
        decreases bucket@.len() - i,
    {
        if bucket[i].0.same_key(k) {
            return Some(i);
        }
        i = i + 1;
    }
    None
}

/// `n` empty buckets.
fn empty_buckets<K: HashKey, V>(n: usize) -> (bs: Vec<Vec<(K, V)>>)
    requires
        n > 0,
    ensures
        bs@.len() == n,
        buckets_wf(bs@),
        map_of(bs@) == Map::<K, V>::empty(),
{
    let mut bs: Vec<Vec<(K, V)>> = Vec::new();
    let mut i: usize = 0;
    while i < n
        invariant
            i <= n,
            bs@.len() == i,
            forall|b: int| 0 <= b < i ==> (#[trigger] bs@[b])@.len() == 0,
        decreases n - i,
    {
        bs.push(Vec::new());
        i = i + 1;
    }
    assert(map_of(bs@) =~= Map::<K, V>::empty());
    bs
}

impl<K: HashKey, V> MyHashMap<K, V> {
    /// The buckets are well formed.
    pub closed spec fn wf(&self) -> bool {
        buckets_wf(self.buckets@)
    }

    /// An empty map with four buckets.
    pub fn new() -> (m: MyHashMap<K, V>)
        ensures
            m.wf(),
            m@ == Map::<K, V>::empty(),
    {
        Self::with_cap(4)
    }

    /// An empty map with `cap` buckets, or one bucket where `cap` is zero.
    pub fn with_cap(cap: usize) -> (m: MyHashMap<K, V>)
        ensures
            m.wf(),
            m@ == Map::<K, V>::empty(),
    {
        let n = if cap == 0 {
            1
        } else {
            cap
        };
        MyHashMap { buckets: empty_buckets(n) }
    }

    fn index_of(&self, k: &K) -> (b: usize)
        requires
            self.buckets@.len() > 0,
        ensures
            b == slot(k.spec_hash(), self.buckets@.len()),
            b < self.buckets@.len(),
    {
        (k.hash_key() % (self.buckets.len() as u64)) as usize
    }

    /// The value stored for `k`, if any.
    pub fn get(&self, k: &K) -> (r: Option<&V>)
        requires
            self.wf(),
        ensures
            r is Some == self@.contains_key(*k),
            r is Some ==> *r->0 == self@[*k],
    {
        let b = self.index_of(k);
        match position(&self.buckets[b], k) {
            Some(i) => {
                proof {
                    lemma_bucket_at(self.buckets@[b as int]@, *k, i as int);
                }
                Some(&self.buckets[b][i].1)
            },
            None => None,
        }
    }

    /// A mutable reference to the value stored for `k`, if any; what is
    /// written through it becomes the value stored for `k`.
    pub fn get_mut(&mut self, k: &K) -> (r: Option<&mut V>)
        requires
            old(self).wf(),
        ensures
            r is Some == old(self)@.contains_key(*k),
            r is Some ==> *r->0 == old(self)@[*k] && final(self).wf() && final(self)@ == old(
                self,
            )@.insert(*k, *final(r->0)),
            r is None ==> *final(self) == *old(self),
    {
        let b = self.index_of(k);
        match position(&self.buckets[b], k) {
            Some(i) => {
                proof {
                    lemma_bucket_at(self.buckets@[b as int]@, *k, i as int);
                    lemma_entry_replaced(self.buckets@, b as int, i as int, *k);
                }
                Some(&mut self.buckets[b][i].1)
            },
            None => None,
        }
    }

    /// Stores `v` for `k`, replacing the value stored before, if any.
    pub fn put(&mut self, k: &K, v: V)
        requires
            old(self).wf(),
        ensures
            final(self).wf(),
            final(self)@ == old(self)@.insert(*k, v),
    {
        let b = self.index_of(k);
        let ghost bs0 = self.buckets@;
        match position(&self.buckets[b], k) {
            Some(i) => {
                proof {
                    lemma_entry_replaced(bs0, b as int, i as int, *k);
                }
                self.buckets[b].set(i, (*k, v));
                proof {
                    assert(self.buckets@[b as int]@ == bs0[b as int]@.update(i as int, (*k, v)));
                }
            },
            None => {
                let ghost o = bs0[b as int]@;
                self.buckets[b].push((*k, v));
                proof {
                    let nbs = self.buckets@;
                    let n = nbs[b as int]@;
                    assert(n == o.push((*k, v)));
                    assert(keys_unique(n)) by {
                        assert(keys_unique(o));
                        assert forall|i: int, j: int|
                            #![trigger n[i], n[j]]
                            0 <= i < n.len() && 0 <= j < n.len() && n[i].0 == n[j].0 implies i
                            == j by {
                            if i < o.len() && j == o.len() {
                                assert(o[i].0 == *k);
                            } else if j < o.len() && i == o.len() {
                                assert(o[j].0 == *k);
                            } else if i < o.len() && j < o.len() {
                                assert(o[i] == n[i] && o[j] == n[j]);
                            }
                        }
                    }
                    assert(buckets_wf(nbs)) by {
                        assert forall|c: int| 0 <= c < nbs.len() implies keys_unique(
                            #[trigger] nbs[c]@,
                        ) by {
                            if c != b {
                                assert(nbs[c] == bs0[c]);
                            }
                        }
                        assert forall|c: int, i: int|
                            0 <= c < nbs.len() && 0 <= i < nbs[c]@.len() implies slot(
                            (#[trigger] nbs[c]@[i]).0.spec_hash(),
                            nbs.len(),
                        ) == c by {
                            if c != b {
                                assert(nbs[c] == bs0[c]);
                            } else if i < o.len() {
                                assert(nbs[c]@[i] == bs0[c]@[i]);
                            }
                        }
                    }
                    assert forall|kk: K| kk != *k implies (#[trigger] map_of(nbs).contains_key(kk)
                        == map_of(bs0).contains_key(kk) && (map_of(bs0).contains_key(kk)
                        ==> map_of(nbs)[kk] == map_of(bs0)[kk])) by {
                        assert forall|i: int|
                            0 <= i < o.len() && (#[trigger] o[i]).0 != *k implies exists|j: int|
                            0 <= j < n.len() && n[j] == o[i] by {
                            assert(n[i] == o[i]);
                        }
                        assert forall|j: int|
                            0 <= j < n.len() && (#[trigger] n[j]).0 != *k implies exists|i: int|
                            0 <= i < o.len() && n[j] == o[i] by {
                            assert(n[j] == o[j]);
                        }
                        lemma_same_elsewhere(bs0, nbs, b as int, *k, kk);
                    }
                    lemma_bucket_at(n, *k, o.len() as int);
                    lemma_map_of_at(nbs, *k);
                    lemma_map_insert_ext(map_of(bs0), map_of(nbs), *k, v);
                }
            },
        }
    }

    /// Removes the pair for `k`, if there is one.
    pub fn remove(&mut self, k: &K)
        requires
            old(self).wf(),
        ensures
            final(self).wf(),
            final(self)@ == old(self)@.remove(*k),
    {
        let b = self.index_of(k);
        let ghost bs0 = self.buckets@;
        match position(&self.buckets[b], k) {
            Some(p) => {
                let ghost o = bs0[b as int]@;
                self.buckets[b].remove(p);
                proof {
                    let nbs = self.buckets@;
                    let n = nbs[b as int]@;
                    assert(n == o.remove(p as int));
                    assert(keys_unique(o));
                    assert(keys_unique(n)) by {
                        assert forall|i: int, j: int|
                            #![trigger n[i], n[j]]
                            0 <= i < n.len() && 0 <= j < n.len() && n[i].0 == n[j].0 implies i
                            == j by {
                            let oi = if i < p {
                                i
                            } else {
                                i + 1
                            };
                            let oj = if j < p {
                                j
                            } else {
                                j + 1
                            };
                            assert(n[i] == o[oi] && n[j] == o[oj]);
                        }
                    }
                    assert(buckets_wf(nbs)) by {
                        assert forall|c: int| 0 <= c < nbs.len() implies keys_unique(
                            #[trigger] nbs[c]@,
                        ) by {
                            if c != b {
                                assert(nbs[c] == bs0[c]);
                            }
                        }
                        assert forall|c: int, i: int|
                            0 <= c < nbs.len() && 0 <= i < nbs[c]@.len() implies slot(
                            (#[trigger] nbs[c]@[i]).0.spec_hash(),
                            nbs.len(),
                        ) == c by {
                            if c != b {
                                assert(nbs[c] == bs0[c]);
                            } else if i < p {
                                assert(nbs[c]@[i] == bs0[c]@[i]);
                            } else {
                                assert(nbs[c]@[i] == bs0[c]@[i + 1]);
                            }
                        }
                    }
                    assert forall|kk: K| kk != *k implies (#[trigger] map_of(nbs).contains_key(kk)
                        == map_of(bs0).contains_key(kk) && (map_of(bs0).contains_key(kk)
                        ==> map_of(nbs)[kk] == map_of(bs0)[kk])) by {
                        assert forall|i: int|
                            0 <= i < o.len() && (#[trigger] o[i]).0 != *k implies exists|j: int|
                            0 <= j < n.len() && n[j] == o[i] by {
                            if i < p {
                                assert(n[i] == o[i]);
                            } else {
                                assert(i != p);
                                assert(n[i - 1] == o[i]);
                            }
                        }
                        assert forall|j: int|
                            0 <= j < n.len() && (#[trigger] n[j]).0 != *k implies exists|i: int|
                            0 <= i < o.len() && n[j] == o[i] by {
                            if j < p {
                                assert(n[j] == o[j]);
                            } else {
                                assert(n[j] == o[j + 1]);
                            }
                        }
                        lemma_same_elsewhere(bs0, nbs, b as int, *k, kk);
                    }
                    assert(!bucket_has(n, *k)) by {
                        if bucket_has(n, *k) {
                            let j = choose|j: int| 0 <= j < n.len() && #[trigger] n[j].0 == *k;
                            let oj = if j < p {
                                j
                            } else {
                                j + 1
                            };
                            assert(o[oj].0 == o[p as int].0);
                        }
                    }
                    lemma_map_of_at(nbs, *k);
                    lemma_map_remove_ext(map_of(bs0), map_of(nbs), *k);
                }
            },
            None => {
                proof {
                    assert(map_of(bs0) =~= map_of(bs0).remove(*k));
                }
            },
        }
    }

    /// Removes every pair; the buckets stay.
    pub fn remove_all(&mut self)
        requires
            old(self).wf(),
        ensures
            final(self).wf(),
            final(self)@ == Map::<K, V>::empty(),
    {
        let n = self.buckets.len();
        self.buckets = empty_buckets(n);
    }
}

/// Replacing the value of the entry at position `i` of bucket `b`, whose key
/// is `k`, keeps the buckets well formed and stores the new value for `k`.
proof fn lemma_entry_replaced<K: HashKey, V>(bs: Seq<Vec<(K, V)>>, b: int, i: int, k: K)
    requires
        buckets_wf(bs),
        0 <= b < bs.len(),
        0 <= i < bs[b]@.len(),
        bs[b]@[i].0 == k,
    ensures
        forall|nbs: Seq<Vec<(K, V)>>|
            nbs.len() == bs.len() && (forall|c: int| 0 <= c < bs.len() && c != b ==> nbs[c] == bs[c])
                && nbs[b]@ == bs[b]@.update(i, (k, nbs[b]@[i].1)) ==> buckets_wf(nbs) && #[trigger] map_of(
                nbs,
            ) == map_of(bs).insert(k, nbs[b]@[i].1),
{
    assert forall|nbs: Seq<Vec<(K, V)>>|
        nbs.len() == bs.len() && (forall|c: int| 0 <= c < bs.len() && c != b ==> nbs[c] == bs[c])
            && nbs[b]@ == bs[b]@.update(i, (k, nbs[b]@[i].1)) implies buckets_wf(nbs) && #[trigger] map_of(
        nbs,
    ) == map_of(bs).insert(k, nbs[b]@[i].1) by {
        let v = nbs[b]@[i].1;
        let o = bs[b]@;
        let n = nbs[b]@;
        assert(keys_unique(o));
        assert(keys_unique(n)) by {
            assert forall|x: int, y: int|
                #![trigger n[x], n[y]]
                0 <= x < n.len() && 0 <= y < n.len() && n[x].0 == n[y].0 implies x == y by {
                assert(n[x].0 == o[x].0 && n[y].0 == o[y].0);
            }
        }
        assert(buckets_wf(nbs)) by {
            assert forall|c: int| 0 <= c < nbs.len() implies keys_unique(#[trigger] nbs[c]@) by {
                if c != b {
                    assert(nbs[c] == bs[c]);
                }
            }
            assert forall|c: int, x: int|
                0 <= c < nbs.len() && 0 <= x < nbs[c]@.len() implies slot(
                (#[trigger] nbs[c]@[x]).0.spec_hash(),
                nbs.len(),
            ) == c by {
                if c != b {
                    assert(nbs[c] == bs[c]);
                } else {
                    assert(nbs[c]@[x].0 == bs[c]@[x].0);
                }
            }
        }
        assert forall|kk: K| kk != k implies (#[trigger] map_of(nbs).contains_key(kk) == map_of(
            bs,
        ).contains_key(kk) && (map_of(bs).contains_key(kk) ==> map_of(nbs)[kk] == map_of(
            bs,
        )[kk])) by {
            assert forall|x: int|
                0 <= x < o.len() && (#[trigger] o[x]).0 != k implies exists|y: int|
                0 <= y < n.len() && n[y] == o[x] by {
                assert(n[x] == o[x]);
            }
            assert forall|y: int|
                0 <= y < n.len() && (#[trigger] n[y]).0 != k implies exists|x: int|
                0 <= x < o.len() && n[y] == o[x] by {
                assert(n[y] == o[y]);
            }
            lemma_same_elsewhere(bs, nbs, b, k, kk);
        }
        lemma_bucket_at(n, k, i);
        assert(slot(k.spec_hash(), bs.len()) == b);
        lemma_map_of_at(nbs, k);
        lemma_map_insert_ext(map_of(bs), map_of(nbs), k, v);
    }
}

} // verus!
