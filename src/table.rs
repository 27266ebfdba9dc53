//! The chained hash table.
use crate::key::{bytes_eq, hash_bytes, hash_of, HashKey};
use vstd::prelude::*;

verus! {

/// The bucket that a key with these bytes belongs to, among `cap` buckets.
pub open spec fn bucket_index(k: Seq<u8>, cap: nat) -> int {
    (hash_of(k) as int) % (cap as int)
}

/// What a lookup of key `k` finds in the contents `m`.
pub open spec fn lookup<V>(m: Map<Seq<u8>, V>, k: Seq<u8>) -> Option<V> {
    if m.contains_key(k) {
        Some(m[k])
    } else {
        None
    }
}

/// The number of buckets after a growth event from `cap` buckets.
pub open spec fn grown_capacity(cap: nat) -> nat {
    if cap == 0 {
        1
    } else {
        2 * cap
    }
}

/// The bucket holds an entry with key `k`.
pub open spec fn bucket_has<K: HashKey, V>(b: Seq<(K, V)>, k: Seq<u8>) -> bool {
    exists|j: int| 0 <= j < b.len() && (#[trigger] b[j]).0.key_bytes() == k
}

/// No entry among the first `n` of the bucket has key `k`.
pub open spec fn absent_before<K: HashKey, V>(b: Seq<(K, V)>, n: int, k: Seq<u8>) -> bool {
    forall|j: int| 0 <= j < n ==> (#[trigger] b[j]).0.key_bytes() != k
}

/// Every entry sits in the bucket of its key and agrees with `m`, keys within
/// a bucket are distinct, and every key of `m` has an entry.
pub open spec fn layout_ok<K: HashKey, V>(bs: Seq<Vec<(K, V)>>, m: Map<Seq<u8>, V>) -> bool {
    &&& forall|i: int, j: int|
        #![trigger bs[i]@[j]]
        0 <= i < bs.len() && 0 <= j < bs[i]@.len() ==> {
            let k = bs[i]@[j].0.key_bytes();
            &&& bucket_index(k, bs.len()) == i
            &&& m.contains_key(k)
            &&& m[k] == bs[i]@[j].1
        }
    &&& forall|i: int, j1: int, j2: int|
        #![trigger bs[i]@[j1], bs[i]@[j2]]
        0 <= i < bs.len() && 0 <= j1 < bs[i]@.len() && 0 <= j2 < bs[i]@.len()
            && bs[i]@[j1].0.key_bytes() == bs[i]@[j2].0.key_bytes() ==> j1 == j2
    &&& forall|k: Seq<u8>|
        #[trigger] m.contains_key(k) ==> bs.len() > 0 && bucket_has(
            bs[bucket_index(k, bs.len())]@,
            k,
        )
}

/// A map from keys to values, kept as a sequence of buckets of entries.
pub struct Hashmap<K, V> {
    buckets: Vec<Vec<(K, V)>>,
    size: usize,
    contents: Ghost<Map<Seq<u8>, V>>,
}

impl<K, V> View for Hashmap<K, V> {
    type V = Map<Seq<u8>, V>;

    /// The contents: each stored key's bytes mapped to its value.
    closed spec fn view(&self) -> Map<Seq<u8>, V> {
        self.contents@
    }
}

/// Position of an entry with the key's bytes in the bucket, if any.
fn find_in<K: HashKey, V>(bucket: &Vec<(K, V)>, key: &K) -> (r: Option<usize>)
    ensures
        match r {
            Some(j) => j < bucket@.len() && bucket@[j as int].0.key_bytes() == key.key_bytes(),
            None => absent_before(bucket@, bucket@.len() as int, key.key_bytes()),
        },
{
    let kb = key.as_key_bytes();
    let mut j: usize = 0;
    while j < bucket.len()
        invariant
            kb@ == key.key_bytes(),
            j <= bucket@.len(),
            absent_before(bucket@, j as int, key.key_bytes()),
        decreases bucket@.len() - j,
    {
        if bytes_eq(bucket[j].0.as_key_bytes(), kb) {
            return Some(j);
        }
        j = j + 1;
    }
    None
}

/// A key whose bucket has no entry for it is not stored.
proof fn lemma_absent_not_stored<K: HashKey, V>(
    bs: Seq<Vec<(K, V)>>,
    m: Map<Seq<u8>, V>,
    k: Seq<u8>,
)
    requires
        layout_ok(bs, m),
        bs.len() > 0,
        absent_before(
            bs[bucket_index(k, bs.len())]@,
            bs[bucket_index(k, bs.len())]@.len() as int,
            k,
        ),
    ensures
        !m.contains_key(k),
{
    if m.contains_key(k) {
        let b = bs[bucket_index(k, bs.len())]@;
        let w = choose|w: int| 0 <= w < b.len() && (#[trigger] b[w]).0.key_bytes() == k;
        assert(b[w].0.key_bytes() != k);
    }
}

/// The layout stays right when only the bucket of key `kb` changes and the
/// contents change only at `kb`, provided the new bucket is right on its own:
/// its entries route to it and agree with the new contents, its keys are
/// distinct, and it holds every key of the new contents that routes to it.
proof fn lemma_bucket_edit<K: HashKey, V>(
    bs: Seq<Vec<(K, V)>>,
    m: Map<Seq<u8>, V>,
    nbs: Seq<Vec<(K, V)>>,
    m2: Map<Seq<u8>, V>,
    kb: Seq<u8>,
)
    requires
        layout_ok(bs, m),
        bs.len() > 0,
        nbs.len() == bs.len(),
        forall|i: int|
            0 <= i < bs.len() && i != bucket_index(kb, bs.len()) ==> #[trigger] nbs[i] == bs[i],
        m2.remove(kb) == m.remove(kb),
        ({
            let idx = bucket_index(kb, bs.len());
            let b = nbs[idx]@;
            &&& forall|j: int|
                #![trigger b[j]]
                0 <= j < b.len() ==> {
                    let k = b[j].0.key_bytes();
                    &&& bucket_index(k, bs.len()) == idx
                    &&& m2.contains_key(k)
                    &&& m2[k] == b[j].1
                }
            &&& forall|j1: int, j2: int|
                #![trigger b[j1], b[j2]]
                0 <= j1 < b.len() && 0 <= j2 < b.len() && b[j1].0.key_bytes()
                    == b[j2].0.key_bytes() ==> j1 == j2
            &&& forall|k: Seq<u8>|
                #[trigger] m2.contains_key(k) && bucket_index(k, bs.len()) == idx ==> bucket_has(
                    b,
                    k,
                )
        }),
    ensures
        layout_ok(nbs, m2),
{
    let idx = bucket_index(kb, bs.len());
    assert forall|k: Seq<u8>| k != kb implies #[trigger] m2.contains_key(k) == m.contains_key(k)
        by {
        assert(m2.remove(kb).dom() == m2.dom().remove(kb));
        assert(m.remove(kb).dom() == m.dom().remove(kb));
        assert(m2.dom().remove(kb).contains(k) == m2.dom().contains(k));
        assert(m.dom().remove(kb).contains(k) == m.dom().contains(k));
    }
    assert forall|k: Seq<u8>| k != kb && #[trigger] m.contains_key(k) implies m2[k] == m[k] by {
        assert(m2.remove(kb).dom().contains(k));
        assert(m2.remove(kb)[k] == m2[k]);
        assert(m.remove(kb)[k] == m[k]);
    }
    assert forall|i: int, j: int|
        #![trigger nbs[i]@[j]]
        0 <= i < nbs.len() && 0 <= j < nbs[i]@.len() implies {
            let k = nbs[i]@[j].0.key_bytes();
            &&& bucket_index(k, nbs.len()) == i
            &&& m2.contains_key(k)
            &&& m2[k] == nbs[i]@[j].1
        } by {
        if i != idx {
            assert(nbs[i] == bs[i]);
            assert(nbs[i]@[j] == bs[i]@[j]);
        }
    }
    assert forall|i: int, j1: int, j2: int|
        #![trigger nbs[i]@[j1], nbs[i]@[j2]]
        0 <= i < nbs.len() && 0 <= j1 < nbs[i]@.len() && 0 <= j2 < nbs[i]@.len()
            && nbs[i]@[j1].0.key_bytes() == nbs[i]@[j2].0.key_bytes() implies j1 == j2 by {
        if i != idx {
            assert(nbs[i] == bs[i]);
            assert(nbs[i]@[j1] == bs[i]@[j1]);
            assert(nbs[i]@[j2] == bs[i]@[j2]);
        }
    }
    assert forall|k: Seq<u8>| #[trigger] m2.contains_key(k) implies nbs.len() > 0 && bucket_has(
        nbs[bucket_index(k, nbs.len())]@,
        k,
    ) by {
        let i = bucket_index(k, bs.len());
        if i != idx {
            assert(k != kb);
            assert(m.contains_key(k));
            assert(bucket_has(bs[i]@, k));
            let w = choose|w: int| 0 <= w < bs[i]@.len() && (#[trigger] bs[i]@[w]).0.key_bytes() == k;
            assert(nbs[i] == bs[i]);
            assert(nbs[i]@[w] == bs[i]@[w]);
        }
    }
}

impl<K: HashKey, V> Hashmap<K, V> {
    /// The table's invariant.
    pub closed spec fn wf(&self) -> bool {
        &&& layout_ok(self.buckets@, self.contents@)
        &&& self.contents@.dom().finite()
        &&& self.size == self.contents@.len()
        &&& self.size <= 3 * self.buckets@.len()
    }

    /// The number of buckets.
    pub closed spec fn spec_capacity(&self) -> nat {
        self.buckets@.len()
    }

    /// What a well-formed table shows of its invariant: finitely many keys, at
    /// most three per bucket, and none at all while it has no bucket.
    pub proof fn lemma_wf_facts(&self)
        requires
            self.wf(),
        ensures
            self@.dom().finite(),
            self@.len() <= 3 * self.spec_capacity(),
            self.spec_capacity() == 0 ==> self@ == Map::<Seq<u8>, V>::empty(),
    {
        if self.buckets@.len() == 0 {
            assert(self@ =~= Map::<Seq<u8>, V>::empty());
        }
    }

    /// An empty table with no buckets.
    pub fn new() -> (r: Self)
        ensures
            r.wf(),
            r@ == Map::<Seq<u8>, V>::empty(),
            r@.dom().finite(),
            r.spec_capacity() == 0,
    {
        Hashmap { buckets: Vec::new(), size: 0, contents: Ghost(Map::empty()) }
    }

    /// The number of entries.
    pub fn len(&self) -> (r: usize)
        requires
            self.wf(),
        ensures
            r == self@.len(),
            self@.dom().finite(),
    {
        self.size
    }

    /// Whether the table holds no entry.
    pub fn is_empty(&self) -> (r: bool)
        requires
            self.wf(),
        ensures
            r == (self@.len() == 0),
            r == (self@ == Map::<Seq<u8>, V>::empty()),
            self@.dom().finite(),
    {
        proof {
            if self.size == 0 {
                assert(self@.dom() =~= Set::<Seq<u8>>::empty());
                assert(self@ =~= Map::<Seq<u8>, V>::empty());
            } else {
                assert(self@.dom() != Set::<Seq<u8>>::empty());
            }
        }
        self.size == 0
    }

    /// The number of buckets.
    pub fn capacity(&self) -> (r: usize)
        ensures
            r == self.spec_capacity(),
    {
        self.buckets.len()
    }

    fn bucket_of(&self, key: &K) -> (r: usize)
        requires
            self.buckets@.len() > 0,
        ensures
            r < self.buckets@.len(),
            r == bucket_index(key.key_bytes(), self.buckets@.len()),
    {
        let h = hash_bytes(key.as_key_bytes());
        (h % (self.buckets.len() as u64)) as usize
    }

    /// The value stored under the key, if any.
    pub fn get(&self, key: &K) -> (r: Option<&V>)
        requires
            self.wf(),
        ensures
            match r {
                Some(v) => lookup(self@, key.key_bytes()) == Some(*v),
                None => lookup(self@, key.key_bytes()) == None::<V>,
            },
            self.spec_capacity() == 0 ==> r is None,
    {
        if self.buckets.len() == 0 {
            return None;
        }
        let idx = self.bucket_of(key);
        let bucket = &self.buckets[idx];
        match find_in(bucket, key) {
            Some(j) => Some(&bucket[j].1),
            None => {
                proof {
                    lemma_absent_not_stored(self.buckets@, self@, key.key_bytes());
                }
                None
            },
        }
    }

    /// Whether the key is stored.
    pub fn contains_key(&self, key: &K) -> (r: bool)
        requires
            self.wf(),
        ensures
            r == self@.contains_key(key.key_bytes()),
            self.spec_capacity() == 0 ==> !r,
    {
        if self.buckets.len() == 0 {
            return false;
        }
        let idx = self.bucket_of(key);
        let bucket = &self.buckets[idx];
        match find_in(bucket, key) {
            Some(j) => {
                assert(self.buckets@[idx as int]@[j as int].0.key_bytes() == key.key_bytes());
                true
            },
            None => {
                proof {
                    lemma_absent_not_stored(self.buckets@, self@, key.key_bytes());
                }
                false
            },
        }
    }

    /// Takes the entry with the key out of the table and returns its value.
    /// Entries left in the key's bucket may change their order.
    pub fn remove(&mut self, key: &K) -> (r: Option<V>)
        requires
            old(self).wf(),
        ensures
            final(self).wf(),
            r == lookup(old(self)@, key.key_bytes()),
            final(self)@ == old(self)@.remove(key.key_bytes()),
            final(self)@.dom().finite(),
            final(self)@.len() == if old(self)@.contains_key(key.key_bytes()) {
                old(self)@.len() - 1
            } else {
                old(self)@.len() as int
            },
            final(self).spec_capacity() == old(self).spec_capacity(),
            old(self).spec_capacity() == 0 ==> r is None && final(self)@ == old(self)@,
    {
        if self.buckets.len() == 0 {
            assert(self@.remove(key.key_bytes()) =~= self@);
            return None;
        }
        let idx = self.bucket_of(key);
        let ghost kb = key.key_bytes();
        let ghost bs = self.buckets@;
        let ghost m = self.contents@;
        let found = find_in(&self.buckets[idx], key);
        let j = match found {
            Some(j) => j,
            None => {
                proof {
                    lemma_absent_not_stored(bs, m, kb);
                    assert(m.remove(kb) =~= m);
                }
                return None;
            },
        };
        let mut bucket: Vec<(K, V)> = Vec::new();
        self.buckets.set_and_swap(idx, &mut bucket);
        let ghost ob = bucket@;
        let entry = bucket.swap_remove(j);
        self.buckets.set_and_swap(idx, &mut bucket);
        self.size = self.size - 1;
        self.contents = Ghost(m.remove(kb));
        proof {
            let nb = self.buckets@[idx as int]@;
            let m2 = self.contents@;
            assert(nb == ob.update(j as int, ob.last()).drop_last());
            assert(ob == bs[idx as int]@);
            assert(m2.len() == m.len() - 1);
            assert forall|k: Seq<u8>|
                #[trigger] m2.contains_key(k) && bucket_index(k, bs.len()) == idx implies bucket_has(
                nb,
                k,
            ) by {
                assert(bucket_has(ob, k));
                let w = choose|w: int| 0 <= w < ob.len() && (#[trigger] ob[w]).0.key_bytes() == k;
                let d = if w == ob.len() - 1 { j as int } else { w };
                assert(nb[d] == ob[w]);
            }
            assert forall|j1: int, j2: int|
                #![trigger nb[j1], nb[j2]]
                0 <= j1 < nb.len() && 0 <= j2 < nb.len() && nb[j1].0.key_bytes()
                    == nb[j2].0.key_bytes() implies j1 == j2 by {
                let s1 = if j1 == j { ob.len() - 1 } else { j1 };
                let s2 = if j2 == j { ob.len() - 1 } else { j2 };
                assert(bs[idx as int]@[s1] == nb[j1] && bs[idx as int]@[s2] == nb[j2]);
            }
            assert forall|jj: int| #![trigger nb[jj]] 0 <= jj < nb.len() implies {
                let k = nb[jj].0.key_bytes();
                &&& bucket_index(k, bs.len()) == idx
                &&& m2.contains_key(k)
                &&& m2[k] == nb[jj].1
            } by {
                let src = if jj == j { ob.len() - 1 } else { jj };
                assert(bs[idx as int]@[src] == nb[jj]);
            }
            assert(m2.remove(kb) =~= m.remove(kb));
            lemma_bucket_edit(bs, m, self.buckets@, m2, kb);
        }
        Some(entry.1)
    }

    /// Growth event: moves every entry into a bucket sequence of the grown
    /// capacity, in the bucket of its key there. The contents stay the same.
    fn resize(&mut self)
        requires
            old(self).wf(),
            old(self).size >= 3 * old(self).buckets@.len(),
        ensures
            final(self).wf(),
            final(self)@ == old(self)@,
            final(self).size == old(self).size,
            final(self).spec_capacity() == grown_capacity(old(self).spec_capacity()),
    {
        let old_cap = self.buckets.len();
        let new_cap: usize = if old_cap == 0 {
            1
        } else {
            2 * old_cap
        };
        let ghost m = self.contents@;
        let mut fresh: Vec<Vec<(K, V)>> = Vec::with_capacity(new_cap);
        let mut t: usize = 0;
        while t < new_cap
            invariant
                t <= new_cap,
                fresh@.len() == t,
                forall|u: int| 0 <= u < t ==> (#[trigger] fresh@[u])@.len() == 0,
            decreases new_cap - t,
        {
            fresh.push(Vec::new());
            t = t + 1;
        }
        let mut pending: Vec<Vec<(K, V)>> = Vec::new();
        std::mem::swap(&mut self.buckets, &mut pending);
        let ghost orig = pending@;
        while pending.len() > 0
            invariant
                layout_ok(orig, m),
                orig.len() == old_cap,
                pending@.len() <= old_cap,
                pending@ == orig.subrange(0, pending@.len() as int),
                fresh@.len() == new_cap,
                new_cap > 0,
                forall|i: int, j: int|
                    #![trigger fresh@[i]@[j]]
                    0 <= i < new_cap && 0 <= j < fresh@[i]@.len() ==> {
                        let k = fresh@[i]@[j].0.key_bytes();
                        &&& bucket_index(k, new_cap as nat) == i
                        &&& m.contains_key(k)
                        &&& m[k] == fresh@[i]@[j].1
                        &&& bucket_index(k, old_cap as nat) >= pending@.len()
                    },
                forall|i: int, j1: int, j2: int|
                    #![trigger fresh@[i]@[j1], fresh@[i]@[j2]]
                    0 <= i < new_cap && 0 <= j1 < fresh@[i]@.len() && 0 <= j2 < fresh@[i]@.len()
                        && fresh@[i]@[j1].0.key_bytes() == fresh@[i]@[j2].0.key_bytes() ==> j1 == j2,
                forall|k: Seq<u8>|
                    #[trigger] m.contains_key(k) && bucket_index(k, old_cap as nat) >= pending@.len()
                        ==> bucket_has(fresh@[bucket_index(k, new_cap as nat)]@, k),
            decreases pending@.len(),
        {
            let ghost whole = pending@;
            let mut bucket = pending.pop().unwrap();
            let ghost cur = pending@.len() as int;
            let ghost ob = orig[cur]@;
            assert(whole[cur] == orig[cur]);
            assert(pending@ =~= orig.subrange(0, cur));
            proof {
                assert forall|k: Seq<u8>|
                    #[trigger] m.contains_key(k) && bucket_index(k, old_cap as nat) == cur
                        && absent_before(ob, ob.len() as int, k) implies false by {
                    assert(bucket_has(orig[cur]@, k));
                    let w = choose|w: int| 0 <= w < ob.len() && (#[trigger] ob[w]).0.key_bytes() == k;
                    assert(ob[w].0.key_bytes() != k);
                }
            }
            while bucket.len() > 0
                invariant
                    layout_ok(orig, m),
                    orig.len() == old_cap,
                    0 <= cur < old_cap,
                    ob == orig[cur]@,
                    bucket@.len() <= ob.len(),
                    bucket@ == ob.subrange(0, bucket@.len() as int),
                    pending@.len() == cur,
                    fresh@.len() == new_cap,
                    new_cap > 0,
                    forall|i: int, j: int|
                        #![trigger fresh@[i]@[j]]
                        0 <= i < new_cap && 0 <= j < fresh@[i]@.len() ==> {
                            let k = fresh@[i]@[j].0.key_bytes();
                            &&& bucket_index(k, new_cap as nat) == i
                            &&& m.contains_key(k)
                            &&& m[k] == fresh@[i]@[j].1
                            &&& bucket_index(k, old_cap as nat) >= cur
                            &&& (bucket_index(k, old_cap as nat) == cur ==> absent_before(
                                ob,
                                bucket@.len() as int,
                                k,
                            ))
                        },
                    forall|i: int, j1: int, j2: int|
                        #![trigger fresh@[i]@[j1], fresh@[i]@[j2]]
                        0 <= i < new_cap && 0 <= j1 < fresh@[i]@.len() && 0 <= j2
                            < fresh@[i]@.len() && fresh@[i]@[j1].0.key_bytes()
                            == fresh@[i]@[j2].0.key_bytes() ==> j1 == j2,
                    forall|k: Seq<u8>|
                        #[trigger] m.contains_key(k) && (bucket_index(k, old_cap as nat) > cur || (
                        bucket_index(k, old_cap as nat) == cur && absent_before(
                            ob,
                            bucket@.len() as int,
                            k,
                        ))) ==> bucket_has(fresh@[bucket_index(k, new_cap as nat)]@, k),
                decreases bucket@.len(),
            {
                let ghost c = bucket@.len() as int;
                let ghost whole_b = bucket@;
                let entry = bucket.pop().unwrap();
                let ghost k0 = entry.0.key_bytes();
                assert(whole_b[c - 1] == ob[c - 1]);
                assert(ob[c - 1] == entry);
                assert(bucket@ =~= ob.subrange(0, c - 1));
                assert(orig[cur]@[c - 1] == entry);
                assert(bucket_index(k0, old_cap as nat) == cur);
                let h = hash_bytes(entry.0.as_key_bytes());
                let dst = (h % (new_cap as u64)) as usize;
                let ghost before = fresh@;
                let mut slot: Vec<(K, V)> = Vec::new();
                fresh.set_and_swap(dst, &mut slot);
                let ghost os = slot@;
                slot.push(entry);
                fresh.set_and_swap(dst, &mut slot);
                proof {
                    let after = fresh@;
                    assert(after[dst as int]@ == os.push(entry));
                    assert(os == before[dst as int]@);
                    assert forall|i: int, j: int|
                        #![trigger after[i]@[j]]
                        0 <= i < new_cap && 0 <= j < after[i]@.len() implies {
                            let k = after[i]@[j].0.key_bytes();
                            &&& bucket_index(k, new_cap as nat) == i
                            &&& m.contains_key(k)
                            &&& m[k] == after[i]@[j].1
                            &&& bucket_index(k, old_cap as nat) >= cur
                            &&& (bucket_index(k, old_cap as nat) == cur ==> absent_before(
                                ob,
                                c - 1,
                                k,
                            ))
                        } by {
                        if i == dst && j == os.len() {
                            assert(after[i]@[j] == ob[c - 1]);
                            assert forall|jj: int| 0 <= jj < c - 1 implies (#[trigger] ob[jj]).0.key_bytes() != k0 by {
                                assert(orig[cur]@[jj] == ob[jj]);
                                assert(orig[cur]@[c - 1] == ob[c - 1]);
                            }
                        } else if i == dst {
                            assert(after[i]@[j] == before[i]@[j]);
                        } else {
                            assert(after[i] == before[i]);
                            assert(after[i]@[j] == before[i]@[j]);
                        }
                    }
                    assert forall|i: int, j1: int, j2: int|
                        #![trigger after[i]@[j1], after[i]@[j2]]
                        0 <= i < new_cap && 0 <= j1 < after[i]@.len() && 0 <= j2 < after[i]@.len()
                            && after[i]@[j1].0.key_bytes() == after[i]@[j2].0.key_bytes() implies j1 == j2 by {
                        if i == dst {
                            if j1 == os.len() && j2 < os.len() {
                                assert(before[i]@[j2] == after[i]@[j2]);
                                assert(ob[c - 1].0.key_bytes() == k0);
                            } else if j2 == os.len() && j1 < os.len() {
                                assert(before[i]@[j1] == after[i]@[j1]);
                                assert(ob[c - 1].0.key_bytes() == k0);
                            } else if j1 < os.len() && j2 < os.len() {
                                assert(before[i]@[j1] == after[i]@[j1]);
                                assert(before[i]@[j2] == after[i]@[j2]);
                            }
                        } else {
                            assert(after[i] == before[i]);
                            assert(after[i]@[j1] == before[i]@[j1]);
                            assert(after[i]@[j2] == before[i]@[j2]);
                        }
                    }
                    assert forall|k: Seq<u8>|
                        #[trigger] m.contains_key(k) && (bucket_index(k, old_cap as nat) > cur || (
                        bucket_index(k, old_cap as nat) == cur && absent_before(ob, c - 1, k)))
                            implies bucket_has(after[bucket_index(k, new_cap as nat)]@, k) by {
                        let i = bucket_index(k, new_cap as nat);
                        if k == k0 {
                            assert(after[i]@[os.len() as int] == entry);
                        } else {
                            if bucket_index(k, old_cap as nat) == cur {
                                assert(ob[c - 1].0.key_bytes() == k0);
                                assert(absent_before(ob, c, k));
                            }
                            assert(bucket_has(before[i]@, k));
                            let w = choose|w: int|
                                0 <= w < before[i]@.len() && (#[trigger] before[i]@[w]).0.key_bytes() == k;
                            if i == dst {
                                assert(after[i]@[w] == before[i]@[w]);
                            } else {
                                assert(after[i] == before[i]);
                                assert(after[i]@[w] == before[i]@[w]);
                            }
                        }
                    }
                }
            }
        }
        self.buckets = fresh;
        proof {
            assert(layout_ok(self.buckets@, m));
        }
    }

    /// Stores the value under the key and returns the value it replaces, if
    /// any. A growth event comes first when the table holds three entries or
    /// more per bucket.
    pub fn insert(&mut self, key: K, value: V) -> (r: Option<V>)
        requires
            old(self).wf(),
            !old(self)@.contains_key(key.key_bytes()) ==> old(self)@.len() < usize::MAX,
        ensures
            final(self).wf(),
            r == lookup(old(self)@, key.key_bytes()),
            final(self)@ == old(self)@.insert(key.key_bytes(), value),
            final(self)@.dom().finite(),
            final(self)@.len() == if old(self)@.contains_key(key.key_bytes()) {
                old(self)@.len() as int
            } else {
                (old(self)@.len() + 1) as int
            },
            final(self).spec_capacity() == if old(self)@.len() >= 3 * old(self).spec_capacity() {
                grown_capacity(old(self).spec_capacity())
            } else {
                old(self).spec_capacity()
            },
            final(self)@.len() <= 3 * final(self).spec_capacity(),
    {
        let ghost kb = key.key_bytes();
        let ghost m2 = self.contents@.insert(kb, value);
        assert(self.size / 3 >= self.buckets@.len() <==> self.size >= 3 * self.buckets@.len());
        if self.size / 3 >= self.buckets.len() {
            self.resize();
        }
        let idx = self.bucket_of(&key);
        let ghost bs = self.buckets@;
        let ghost m = self.contents@;
        let mut bucket: Vec<(K, V)> = Vec::new();
        self.buckets.set_and_swap(idx, &mut bucket);
        let ghost ob = bucket@;
        assert(ob == bs[idx as int]@);
        assert(m2.remove(kb) =~= m.remove(kb));
        match find_in(&bucket, &key) {
            Some(j) => {
                let old_entry = bucket.swap_remove(j);
                bucket.push((old_entry.0, value));
                self.buckets.set_and_swap(idx, &mut bucket);
                self.contents = Ghost(m2);
                proof {
                    let nb = self.buckets@[idx as int]@;
                    let last = ob.len() - 1;
                    assert(m.contains_key(kb));
                    assert(m2.dom() =~= m.dom());
                    assert(nb == ob.update(j as int, ob.last()).drop_last().push(
                        (old_entry.0, value),
                    ));
                    // The entry at `j` moved to the end with its new value; the
                    // old last entry took its place.
                    assert forall|jj: int| #![trigger nb[jj]] 0 <= jj < nb.len() implies {
                        let k = nb[jj].0.key_bytes();
                        &&& bucket_index(k, bs.len()) == idx
                        &&& m2.contains_key(k)
                        &&& m2[k] == nb[jj].1
                    } by {
                        let src = if jj == last { j as int } else if jj == j { last } else { jj };
                        assert(nb[jj].0 == bs[idx as int]@[src].0);
                        if jj != last {
                            assert(nb[jj] == bs[idx as int]@[src]);
                        }
                    }
                    assert forall|j1: int, j2: int|
                        #![trigger nb[j1], nb[j2]]
                        0 <= j1 < nb.len() && 0 <= j2 < nb.len() && nb[j1].0.key_bytes()
                            == nb[j2].0.key_bytes() implies j1 == j2 by {
                        let s1 = if j1 == last { j as int } else if j1 == j { last } else { j1 };
                        let s2 = if j2 == last { j as int } else if j2 == j { last } else { j2 };
                        assert(nb[j1].0 == bs[idx as int]@[s1].0);
                        assert(nb[j2].0 == bs[idx as int]@[s2].0);
                    }
                    assert forall|k: Seq<u8>|
                        #[trigger] m2.contains_key(k) && bucket_index(k, bs.len()) == idx implies bucket_has(
                        nb,
                        k,
                    ) by {
                        assert(bucket_has(ob, k));
                        let w = choose|w: int|
                            0 <= w < ob.len() && (#[trigger] ob[w]).0.key_bytes() == k;
                        let d = if w == j { last } else if w == last { j as int } else { w };
                        assert(nb[d].0 == ob[w].0);
                    }
                    lemma_bucket_edit(bs, m, self.buckets@, m2, kb);
                }
                Some(old_entry.1)
            },
            None => {
                bucket.push((key, value));
                self.buckets.set_and_swap(idx, &mut bucket);
                self.size = self.size + 1;
                self.contents = Ghost(m2);
                proof {
                    let nb = self.buckets@[idx as int]@;
                    let last = ob.len() as int;
                    lemma_absent_not_stored(bs, m, kb);
                    assert(m2.len() == m.len() + 1);
                    assert(nb == ob.push((key, value)));
                    assert forall|jj: int| #![trigger nb[jj]] 0 <= jj < nb.len() implies {
                        let k = nb[jj].0.key_bytes();
                        &&& bucket_index(k, bs.len()) == idx
                        &&& m2.contains_key(k)
                        &&& m2[k] == nb[jj].1
                    } by {
                        if jj < last {
                            assert(nb[jj] == bs[idx as int]@[jj]);
                        }
                    }
                    assert forall|j1: int, j2: int|
                        #![trigger nb[j1], nb[j2]]
                        0 <= j1 < nb.len() && 0 <= j2 < nb.len() && nb[j1].0.key_bytes()
                            == nb[j2].0.key_bytes() implies j1 == j2 by {
                        if j1 < last {
                            assert(nb[j1] == bs[idx as int]@[j1]);
                        }
                        if j2 < last {
                            assert(nb[j2] == bs[idx as int]@[j2]);
                        }
                    }
                    assert forall|k: Seq<u8>|
                        #[trigger] m2.contains_key(k) && bucket_index(k, bs.len()) == idx implies bucket_has(
                        nb,
                        k,
                    ) by {
                        if k == kb {
                            assert(nb[last].0.key_bytes() == kb);
                        } else {
                            assert(bucket_has(ob, k));
                            let w = choose|w: int|
                                0 <= w < ob.len() && (#[trigger] ob[w]).0.key_bytes() == k;
                            assert(nb[w] == ob[w]);
                        }
                    }
                    lemma_bucket_edit(bs, m, self.buckets@, m2, kb);
                }
                None
            },
        }
    }
}

} // verus!
