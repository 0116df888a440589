//! A hash index over a list of path keys: from the hash of a key to the
//! positions of the list that hold a key with that hash.
use vstd::prelude::*;

use std::collections::HashMap;
use vstd::wrapping::u64_specs::wrapping_mul;

use crate::paths::{key_view, keys_equal, PathKey};

verus! {

broadcast use vstd::std_specs::hash::group_hash_axioms;

/// The starting value of the FNV-1a hash.
pub open spec fn hash_start() -> u64 {
    0xcbf2_9ce4_8422_2325
}

/// The multiplier of the FNV-1a hash.
pub open spec fn hash_prime() -> u64 {
    0x0000_0100_0000_01b3
}

/// One step of the FNV-1a hash.
pub open spec fn mix(h: u64, x: u64) -> u64 {
    wrapping_mul(h ^ x, hash_prime())
}

/// The hash `h` extended by the characters of `s`.
pub open spec fn hash_chars(h: u64, s: Seq<char>) -> u64
    decreases s.len(),
{
    if s.len() == 0 {
        h
    } else {
        mix(hash_chars(h, s.drop_last()), s.last() as u64)
    }
}

/// The hash `h` extended by the components of `k`, each closed by a mark
/// that no character has.
pub open spec fn hash_components(h: u64, k: PathKey) -> u64
    decreases k.len(),
{
    if k.len() == 0 {
        h
    } else {
        mix(hash_chars(hash_components(h, k.drop_last()), k.last()), 0xffff_ffff)
    }
}

/// The hash of a path key.
pub open spec fn key_hash(k: PathKey) -> u64 {
    hash_components(hash_start(), k)
}

fn hash_chars_of(h: u64, s: &Vec<char>) -> (r: u64)
    ensures
        r == hash_chars(h, s@),
{
    let mut r = h;
    let n = s.len();
    let mut i: usize = 0;
    assert(s@.take(0) =~= Seq::<char>::empty());
    while i < n
        invariant
            0 <= i <= n,
            n == s@.len(),
            r == hash_chars(h, s@.take(i as int)),
        decreases n - i,
    {
        assert(s@.take(i + 1).drop_last() =~= s@.take(i as int));
        r = (r ^ (s[i] as u64)).wrapping_mul(0x0000_0100_0000_01b3);
        i = i + 1;
    }
    assert(s@.take(n as int) =~= s@);
    r
}

/// The hash of a key.
pub fn hash_key(key: &Vec<Vec<char>>) -> (r: u64)
    ensures
        r == key_hash(key_view(key@)),
{
    let mut r: u64 = 0xcbf2_9ce4_8422_2325;
    let n = key.len();
    let mut i: usize = 0;
    assert(key_view(key@).take(0) =~= Seq::<Seq<char>>::empty());
    while i < n
        invariant
            0 <= i <= n,
            n == key@.len(),
            r == hash_components(hash_start(), key_view(key@).take(i as int)),
        decreases n - i,
    {
        assert(key_view(key@).take(i + 1).drop_last() =~= key_view(key@).take(i as int));
        r = hash_chars_of(r, &key[i]);
        r = (r ^ 0xffff_ffff).wrapping_mul(0x0000_0100_0000_01b3);
        i = i + 1;
    }
    assert(key_view(key@).take(n as int) =~= key_view(key@));
    r
}

/// Position `i` is in the bucket of hash `h`.
pub open spec fn in_bucket(b: Map<u64, Vec<usize>>, h: u64, i: int) -> bool {
    b.contains_key(h) && b[h]@.contains(i as usize)
}

/// Each position of `keys` is in the bucket of its key's hash, and each
/// bucket holds only positions of `keys` whose key has its hash.
pub open spec fn buckets_index(b: Map<u64, Vec<usize>>, keys: Seq<PathKey>) -> bool {
    &&& forall|i: int| 0 <= i < keys.len() ==> #[trigger] in_bucket(b, key_hash(keys[i]), i)
    &&& forall|h: u64, t: int|
        #![trigger b[h]@[t]]
        b.contains_key(h) && 0 <= t < b[h]@.len() ==> {
            &&& b[h]@[t] < keys.len()
            &&& key_hash(keys[b[h]@[t] as int]) == h
        }
}

proof fn lemma_add_to_bucket(
    b: Map<u64, Vec<usize>>,
    bucket: Vec<usize>,
    keys: Seq<PathKey>,
    key: PathKey,
)
    requires
        buckets_index(b, keys),
        bucket@ == (if b.contains_key(key_hash(key)) {
            b[key_hash(key)]@
        } else {
            Seq::<usize>::empty()
        }).push(keys.len() as usize),
        keys.len() <= usize::MAX,
    ensures
        buckets_index(b.insert(key_hash(key), bucket), keys.push(key)),
{
    let h = key_hash(key);
    let nb = b.insert(h, bucket);
    let ks = keys.push(key);
    let n = keys.len();
    assert forall|i: int| 0 <= i < ks.len() implies #[trigger] in_bucket(nb, key_hash(ks[i]), i) by {
        if i < n {
            assert(ks[i] == keys[i]);
            assert(in_bucket(b, key_hash(keys[i]), i));
            let g = key_hash(keys[i]);
            if g == h {
                let t = choose|t: int| 0 <= t < b[h]@.len() && b[h]@[t] == i as usize;
                assert(bucket@[t] == i as usize);
            } else {
                assert(nb[g] == b[g]);
            }
        } else {
            assert(ks[i] == key);
            assert(bucket@[bucket@.len() - 1] == n as usize);
        }
    }
    assert forall|g: u64, t: int|
        #![trigger nb[g]@[t]]
        nb.contains_key(g) && 0 <= t < nb[g]@.len() implies {
            &&& nb[g]@[t] < ks.len()
            &&& key_hash(ks[nb[g]@[t] as int]) == g
        } by {
        if g == h {
            if t < bucket@.len() - 1 {
                assert(b.contains_key(h));
                assert(nb[g]@[t] == b[h]@[t]);
                assert(ks[b[h]@[t] as int] == keys[b[h]@[t] as int]);
            }
        } else {
            assert(nb[g] == b[g]);
            assert(ks[b[g]@[t] as int] == keys[b[g]@[t] as int]);
        }
    }
}

/// The views of the keys of `v`, in order.
pub open spec fn keys_view(v: Seq<Vec<Vec<char>>>) -> Seq<PathKey> {
    v.map_values(|k: Vec<Vec<char>>| key_view(k@))
}

/// Hash buckets of positions in a list of keys.
pub struct KeyIndex {
    buckets: HashMap<u64, Vec<usize>>,
}

impl KeyIndex {
    /// Each position of `keys` is in the bucket of its key's hash, and each
    /// bucket holds only positions of `keys` whose key has its hash.
    pub closed spec fn indexes(&self, keys: Seq<PathKey>) -> bool {
        buckets_index(self.buckets@, keys)
    }

    /// An index of no keys.
    pub fn new() -> (r: Self)
        ensures
            r.indexes(Seq::<PathKey>::empty()),
    {
        KeyIndex { buckets: HashMap::new() }
    }

    /// Adds the position `keys.len()` for `key`.
    pub fn add(&mut self, Ghost(keys): Ghost<Seq<PathKey>>, key: &Vec<Vec<char>>, pos: usize)
        requires
            old(self).indexes(keys),
            pos == keys.len(),
        ensures
            final(self).indexes(keys.push(key_view(key@))),
    {
        let h = hash_key(key);
        let mut bucket: Vec<usize> = match self.buckets.get(&h) {
            Some(b) => b.clone(),
            None => Vec::new(),
        };
        bucket.push(pos);
        proof {
            lemma_add_to_bucket(self.buckets@, bucket, keys, key_view(key@));
        }
        self.buckets.insert(h, bucket);
    }

    /// The positions whose key may be `key`: every position of `keys` that
    /// holds `key` is among them.
    pub fn candidates(&self, Ghost(keys): Ghost<Seq<PathKey>>, key: &Vec<Vec<char>>) -> (r: Vec<
        usize,
    >)
        requires
            self.indexes(keys),
        ensures
            forall|t: int| 0 <= t < r@.len() ==> #[trigger] r@[t] < keys.len(),
            forall|i: int|
                0 <= i < keys.len() && keys[i] == key_view(key@) ==> r@.contains(i as usize),
    {
        let h = hash_key(key);
        match self.buckets.get(&h) {
            Some(b) => {
                let r = b.clone();
                assert forall|t: int| 0 <= t < r@.len() implies #[trigger] r@[t] < keys.len() by {
                    assert(self.buckets@[h]@[t] == r@[t]);
                }
                assert forall|i: int|
                    0 <= i < keys.len() && keys[i] == key_view(key@) implies r@.contains(
                    i as usize,
                ) by {
                    assert(in_bucket(self.buckets@, key_hash(keys[i]), i));
                }
                r
            },
            None => {
                assert forall|i: int|
                    0 <= i < keys.len() && keys[i] == key_view(key@) implies false by {
                    assert(in_bucket(self.buckets@, key_hash(keys[i]), i));
                }
                Vec::new()
            },
        }
    }

    /// The index of `keys`.
    pub fn of_keys(keys: &Vec<Vec<Vec<char>>>) -> (r: Self)
        ensures
            r.indexes(keys_view(keys@)),
    {
        let ghost ks = keys_view(keys@);
        let n = keys.len();
        let mut r = KeyIndex::new();
        let mut i: usize = 0;
        assert(ks.take(0) =~= Seq::<PathKey>::empty());
        while i < n
            invariant
                0 <= i <= n,
                n == keys@.len(),
                ks == keys_view(keys@),
                r.indexes(ks.take(i as int)),
            decreases n - i,
        {
            r.add(Ghost(ks.take(i as int)), &keys[i], i);
            assert(ks.take(i as int).push(key_view(keys@[i as int]@)) =~= ks.take(i + 1));
            i = i + 1;
        }
        assert(ks.take(n as int) =~= ks);
        r
    }

    /// Whether `keys`, which this indexes, holds `key`.
    pub fn holds(&self, keys: &Vec<Vec<Vec<char>>>, key: &Vec<Vec<char>>) -> (r: bool)
        requires
            self.indexes(keys_view(keys@)),
        ensures
            r == exists|j: int|
                0 <= j < keys@.len() && key_view(#[trigger] keys@[j]@) == key_view(key@),
    {
        let n = keys.len();
        let cands = self.candidates(Ghost(keys_view(keys@)), key);
        let m = cands.len();
        let mut t: usize = 0;
        while t < m
            invariant
                0 <= t <= m,
                m == cands@.len(),
                n == keys@.len(),
                forall|u: int| 0 <= u < m ==> #[trigger] cands@[u] < n,
                forall|u: int|
                    0 <= u < t ==> key_view(keys@[#[trigger] cands@[u] as int]@) != key_view(key@),
            decreases m - t,
        {
            let j = cands[t];
            if keys_equal(&keys[j], key) {
                assert(key_view(keys@[j as int]@) == key_view(key@));
                return true;
            }
            t = t + 1;
        }
        proof {
            if exists|j: int| 0 <= j < keys@.len() && key_view(#[trigger] keys@[j]@) == key_view(key@) {
                let j = choose|j: int|
                    0 <= j < keys@.len() && key_view(#[trigger] keys@[j]@) == key_view(key@);
                assert(keys_view(keys@)[j] == key_view(key@));
                assert(cands@.contains(j as usize));
                let u = choose|u: int| 0 <= u < m && cands@[u] == j as usize;
                assert(key_view(keys@[cands@[u] as int]@) != key_view(key@));
            }
        }
        false
    }
}

} // verus!
