//! An index of hunks by their checksums.

use crate::bytes;
use crate::bytes::get_be;
use crate::header::same_bytes;
use std::collections::HashMap;
use vstd::prelude::*;

verus! {

broadcast use vstd::std_specs::hash::group_hash_axioms;

/// What tells hunks apart: the 16-bit checksum and the SHA-1 digest.
pub type HunkKey = (u16, Seq<u8>);

/// A hunk in the index.
struct Slot {
    crc: u16,
    sha1: [u8; 20],
    value: u64,
}

impl Slot {
    spec fn key(self) -> HunkKey {
        (self.crc, self.sha1@)
    }
}

/// Numbers by the checksums of hunks.
pub struct HunkIndex {
    buckets: HashMap<u64, Vec<Slot>>,
    model: Ghost<Map<HunkKey, u64>>,
}

/// The number by which a digest is found.
spec fn bucket_of(sha1: Seq<u8>) -> u64 {
    bytes::be_at(sha1, 0, 8) as u64
}

/// Whether a bucket has a slot with the given key.
spec fn bucket_has(bucket: Seq<Slot>, key: HunkKey) -> bool {
    exists|j: int| 0 <= j < bucket.len() && (#[trigger] bucket[j]).key() == key
}

impl View for HunkIndex {
    type V = Map<HunkKey, u64>;

    closed spec fn view(&self) -> Map<HunkKey, u64> {
        self.model@
    }
}

impl HunkIndex {
    /// Whether the buckets hold what the index stands for.
    pub closed spec fn wf(&self) -> bool {
        &&& forall|h: u64, j: int|
            self.buckets@.contains_key(h) && 0 <= j < self.buckets@[h]@.len() ==> {
                let s = #[trigger] self.buckets@[h]@[j];
                &&& self.model@.contains_key(s.key())
                &&& self.model@[s.key()] == s.value
                &&& bucket_of(s.sha1@) == h
            }
        &&& forall|k: HunkKey| #[trigger]
            self.model@.contains_key(k) ==> self.buckets@.contains_key(bucket_of(k.1)) && bucket_has(
                self.buckets@[bucket_of(k.1)]@,
                k,
            )
    }

    /// An index of nothing.
    pub fn new() -> (r: HunkIndex)
        ensures
            r.wf(),
            r@ == Map::<HunkKey, u64>::empty(),
    {
        HunkIndex { buckets: HashMap::new(), model: Ghost(Map::empty()) }
    }

    /// The number of a hunk with the given checksums.
    pub fn get(&self, crc: u16, sha1: &[u8; 20]) -> (r: Option<u64>)
        requires
            self.wf(),
        ensures
            r == if self@.contains_key((crc, sha1@)) {
                Some(self@[(crc, sha1@)])
            } else {
                None
            },
    {
        let ghost key = (crc, sha1@);
        let h = get_be(sha1.as_slice(), 0, 8);
        match self.buckets.get(&h) {
            None => None,
            Some(bucket) => {
                let mut j: usize = 0;
                while j < bucket.len()
                    invariant
                        j <= bucket@.len(),
                        self.wf(),
                        key == (crc, sha1@),
                        h == bucket_of(sha1@),
                        self.buckets@.contains_key(h),
                        self.buckets@[h] == *bucket,
                        forall|k: int| 0 <= k < j ==> (#[trigger] bucket@[k]).key() != key,
                    decreases bucket@.len() - j,
                {
                    assert(self.buckets@[h]@[j as int].key() == bucket@[j as int].key());
                    if bucket[j].crc == crc && same_bytes(bucket[j].sha1.as_slice(), sha1.as_slice()) {
                        return Some(bucket[j].value);
                    }
                    j = j + 1;
                }
                assert(!bucket_has(bucket@, key));
                None
            },
        }
    }

    /// Adds a hunk that is not in the index.
    pub fn insert(&mut self, crc: u16, sha1: &[u8; 20], value: u64)
        requires
            old(self).wf(),
            !old(self)@.contains_key((crc, sha1@)),
        ensures
            final(self).wf(),
            final(self)@ == old(self)@.insert((crc, sha1@), value),
    {
        let ghost key = (crc, sha1@);
        let ghost before = self.buckets@;
        let h = get_be(sha1.as_slice(), 0, 8);
        let mut bucket: Vec<Slot> = match self.buckets.remove(&h) {
            Some(b) => b,
            None => Vec::new(),
        };
        let ghost rest = bucket@;
        let slot = Slot { crc, sha1: *sha1, value };
        bucket.push(slot);
        self.buckets.insert(h, bucket);
        self.model = Ghost(self.model@.insert(key, value));
        proof {
            let now = self.buckets@;
            let model = self.model@;
            assert(now[h]@ == rest.push(slot));
            assert forall|g: u64, j: int|
                now.contains_key(g) && 0 <= j < now[g]@.len() implies ({
                let s = #[trigger] now[g]@[j];
                &&& model.contains_key(s.key())
                &&& model[s.key()] == s.value
                &&& bucket_of(s.sha1@) == g
            }) by {
                let s = now[g]@[j];
                if g == h {
                    if j < rest.len() {
                        assert(before.contains_key(h));
                        assert(before[h]@[j] == s);
                    }
                } else {
                    assert(before.contains_key(g));
                    assert(before[g]@[j] == s);
                }
            }
            assert forall|k: HunkKey| #[trigger] model.contains_key(k) implies now.contains_key(
                bucket_of(k.1),
            ) && bucket_has(now[bucket_of(k.1)]@, k) by {
                let b = bucket_of(k.1);
                if k == key {
                    assert(now[h]@[rest.len() as int].key() == key);
                } else {
                    assert(old(self).model@.contains_key(k));
                    let j = choose|j: int|
                        0 <= j < before[b]@.len() && (#[trigger] before[b]@[j]).key() == k;
                    assert(now[b]@[j] == before[b]@[j]);
                }
            }
        }
    }
}

} // verus!
