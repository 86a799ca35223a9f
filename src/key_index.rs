//! A sequence of byte-string keys with hashed lookup of the last position
//! that holds a given key.
use std::collections::HashMap;
use std::hash::{DefaultHasher, Hasher};
use vstd::prelude::*;
use vstd::std_specs::hash::DefaultHasherAdditionalSpecFns;
use crate::bytes::{bytes_equal, copy_bytes};

verus! {

broadcast use vstd::std_specs::hash::group_hash_axioms;

/// The hash of a byte string.
pub open spec fn hash_of(b: Seq<u8>) -> u64 {
    DefaultHasher::spec_finish(seq![b])
}

/// Hashes a byte string.
pub fn hash_bytes(b: &[u8]) -> (r: u64)
    ensures
        r == hash_of(b@),
{
    let mut hasher = DefaultHasher::new();
    hasher.write(b);
    hasher.finish()
}

/// `bucket` lists, in increasing order, exactly the positions of `keys`
/// whose hash is `h`.
pub open spec fn is_bucket(bucket: Seq<usize>, keys: Seq<Seq<u8>>, h: u64) -> bool {
    &&& forall|k: int|
        0 <= k < bucket.len() ==> #[trigger] bucket[k] < keys.len() && hash_of(keys[bucket[k] as int])
            == h
    &&& forall|k1: int, k2: int| 0 <= k1 < k2 < bucket.len() ==> bucket[k1] < bucket[k2]
    &&& forall|i: int|
        0 <= i < keys.len() && hash_of(#[trigger] keys[i]) == h ==> exists|k: int|
            0 <= k < bucket.len() && bucket[k] as int == i
}

/// Keys in the order in which they were added, with their positions
/// grouped by hash.
pub struct KeyIndex {
    keys: Vec<Vec<u8>>,
    buckets: HashMap<u64, Vec<usize>>,
}

impl View for KeyIndex {
    type V = Seq<Seq<u8>>;

    closed spec fn view(&self) -> Seq<Seq<u8>> {
        self.keys@.map_values(|k: Vec<u8>| k@)
    }
}

impl KeyIndex {
    /// Every key's hash has a bucket, and each bucket is exact.
    pub closed spec fn wf(self) -> bool {
        &&& forall|h: u64| #[trigger]
            self.buckets@.contains_key(h) ==> is_bucket(self.buckets@[h]@, self@, h)
        &&& forall|i: int|
            0 <= i < self@.len() ==> self.buckets@.contains_key(hash_of(#[trigger] self@[i]))
    }

    /// No keys.
    pub fn new() -> (r: KeyIndex)
        ensures
            r.wf(),
            r@ == Seq::<Seq<u8>>::empty(),
    {
        let r = KeyIndex { keys: Vec::new(), buckets: HashMap::new() };
        assert(r@ =~= Seq::<Seq<u8>>::empty());
        r
    }

    /// Adds a key after the others.
    pub fn push(&mut self, key: &[u8])
        requires
            old(self).wf(),
        ensures
            final(self).wf(),
            final(self)@ == old(self)@.push(key@),
    {
        let ghost old_keys = self@;
        let h = hash_bytes(key);
        let n = self.keys.len();
        let mut bucket = match self.buckets.remove(&h) {
            Some(b) => b,
            None => Vec::new(),
        };
        let ghost old_bucket = bucket@;
        bucket.push(n);
        self.keys.push(copy_bytes(key));
        let ghost keys = self@;
        assert(keys =~= old_keys.push(key@));
        proof {
            assert forall|i: int| 0 <= i < keys.len() && hash_of(#[trigger] keys[i]) == h implies exists|k: int|
                0 <= k < bucket@.len() && bucket@[k] as int == i by {
                if i < n {
                    assert(keys[i] == old_keys[i]);
                    let k = choose|k: int| 0 <= k < old_bucket.len() && old_bucket[k] as int == i;
                    assert(bucket@[k] as int == i);
                } else {
                    assert(bucket@[bucket@.len() - 1] as int == i);
                }
            }
            assert forall|k: int| 0 <= k < bucket@.len() implies #[trigger] bucket@[k] < keys.len()
                && hash_of(keys[bucket@[k] as int]) == h by {
                if k < old_bucket.len() {
                    assert(keys[old_bucket[k] as int] == old_keys[old_bucket[k] as int]);
                }
            }
        }
        self.buckets.insert(h, bucket);
        proof {
            assert forall|g: u64| #[trigger] self.buckets@.contains_key(g) implies is_bucket(
                self.buckets@[g]@,
                keys,
                g,
            ) by {
                if g != h {
                    let b = self.buckets@[g]@;
                    assert forall|k: int| 0 <= k < b.len() implies #[trigger] b[k] < keys.len()
                        && hash_of(keys[b[k] as int]) == g by {
                        assert(keys[b[k] as int] == old_keys[b[k] as int]);
                    }
                    assert forall|i: int| 0 <= i < keys.len() && hash_of(#[trigger] keys[i]) == g implies exists|k: int|
                        0 <= k < b.len() && b[k] as int == i by {
                        assert(keys[i] == old_keys[i]);
                    }
                }
            }
            assert forall|i: int| 0 <= i < keys.len() implies self.buckets@.contains_key(
                hash_of(#[trigger] keys[i]),
            ) by {
                if i < n {
                    assert(keys[i] == old_keys[i]);
                }
            }
        }
    }

    /// The last position that holds `key`, if any.
    pub fn last_position(&self, key: &[u8]) -> (r: Option<usize>)
        requires
            self.wf(),
        ensures
            r matches Some(i) ==> i < self@.len() && self@[i as int] == key@ && forall|j: int|
                i < j < self@.len() ==> #[trigger] self@[j] != key@,
            r is None ==> forall|j: int| 0 <= j < self@.len() ==> #[trigger] self@[j] != key@,
    {
        let h = hash_bytes(key);
        let bucket = match self.buckets.get(&h) {
            Some(b) => b,
            None => {
                assert forall|j: int| 0 <= j < self@.len() implies #[trigger] self@[j] != key@ by {
                    if self@[j] == key@ {
                        assert(self.buckets@.contains_key(hash_of(self@[j])));
                    }
                }
                return None;
            },
        };
        assert(is_bucket(bucket@, self@, h));
        let mut k = bucket.len();
        while k > 0
            invariant
                self.wf(),
                is_bucket(bucket@, self@, h),
                h == hash_of(key@),
                0 <= k <= bucket@.len(),
                forall|m: int| k <= m < bucket@.len() ==> self@[#[trigger] bucket@[m] as int] != key@,
            decreases k,
        {
            k = k - 1;
            let i = bucket[k];
            if bytes_equal(self.keys[i].as_slice(), key) {
                assert forall|j: int| i < j < self@.len() implies #[trigger] self@[j] != key@ by {
                    if self@[j] == key@ {
                        let m = choose|m: int| 0 <= m < bucket@.len() && bucket@[m] as int == j;
                        if m < k {
                            assert(bucket@[m] < bucket@[k as int]);
                        } else if m > k {
                            assert(self@[bucket@[m] as int] != key@);
                        }
                    }
                }
                return Some(i);
            }
        }
        assert forall|j: int| 0 <= j < self@.len() implies #[trigger] self@[j] != key@ by {
            if self@[j] == key@ {
                let m = choose|m: int| 0 <= m < bucket@.len() && bucket@[m] as int == j;
                assert(self@[bucket@[m] as int] != key@);
            }
        }
        None
    }
}

} // verus!
