//! The index of one segment: for each key, the offset of the key's latest
//! record in that segment. It is a hash index: a key is looked up in the
//! bucket that its hash selects.

use vstd::prelude::*;
use std::collections::HashMap;
use crate::bytes::{copy_range, same};
use crate::scan::{entries, index_of, lemma_index_of_push, views};
use crate::segment::Segment;

verus! {

/// The hash of a key is kept below this prime.
pub const HASH_MODULUS: u64 = 4294967291;

/// The hash of a key grows by this factor with each byte.
pub const HASH_FACTOR: u64 = 31;

/// The hash of a key: its bytes read as the digits of a number, reduced at
/// each step.
pub open spec fn key_hash(key: Seq<u8>) -> u64
    decreases key.len(),
{
    if key.len() == 0 {
        0
    } else {
        ((key_hash(key.drop_last()) * HASH_FACTOR + key.last()) % (HASH_MODULUS as int)) as u64
    }
}

/// Computes the hash of a key.
pub fn hash(key: &[u8]) -> (h: u64)
    ensures
        h == key_hash(key@),
{
    let n = key.len();
    let mut h: u64 = 0;
    let mut i: usize = 0;
    assert(key@.subrange(0, 0) =~= Seq::<u8>::empty());
    while i < n
        invariant
            i <= n,
            n == key@.len(),
            h < HASH_MODULUS,
            h == key_hash(key@.subrange(0, i as int)),
        decreases n - i,
    {
        assert(key@.subrange(0, i + 1).drop_last() =~= key@.subrange(0, i as int));
        h = (h * HASH_FACTOR + key[i] as u64) % HASH_MODULUS;
        i = i + 1;
    }
    assert(key@.subrange(0, n as int) =~= key@);
    h
}

/// One key of an index with its offset.
struct IndexEntry {
    key: Vec<u8>,
    offset: u64,
}

/// The offset that a bucket holds for a key: that of the last entry with the
/// key.
spec fn bucket_get(bucket: Seq<IndexEntry>, key: Seq<u8>) -> Option<u64>
    decreases bucket.len(),
{
    if bucket.len() == 0 {
        None
    } else if bucket.last().key@ == key {
        Some(bucket.last().offset)
    } else {
        bucket_get(bucket.drop_last(), key)
    }
}

proof fn lemma_bucket_get_found(bucket: Seq<IndexEntry>, key: Seq<u8>, at: int)
    requires
        0 <= at < bucket.len(),
        bucket[at].key@ == key,
        forall|j: int| at < j < bucket.len() ==> (#[trigger] bucket[j]).key@ != key,
    ensures
        bucket_get(bucket, key) == Some(bucket[at].offset),
    decreases bucket.len(),
{
    if at < bucket.len() - 1 {
        assert(bucket[bucket.len() - 1].key@ != key);
        lemma_bucket_get_found(bucket.drop_last(), key, at);
    }
}

proof fn lemma_bucket_get_absent(bucket: Seq<IndexEntry>, key: Seq<u8>)
    requires
        forall|j: int| 0 <= j < bucket.len() ==> (#[trigger] bucket[j]).key@ != key,
    ensures
        bucket_get(bucket, key) is None,
    decreases bucket.len(),
{
    if bucket.len() > 0 {
        assert(bucket[bucket.len() - 1].key@ != key);
        lemma_bucket_get_absent(bucket.drop_last(), key);
    }
}

proof fn lemma_bucket_push(bucket: Seq<IndexEntry>, added: IndexEntry, key: Seq<u8>)
    ensures
        bucket_get(bucket.push(added), key) == if added.key@ == key {
            Some(added.offset)
        } else {
            bucket_get(bucket, key)
        },
{
    assert(bucket.push(added).drop_last() =~= bucket);
}

proof fn lemma_bucket_update(bucket: Seq<IndexEntry>, at: int, entry: IndexEntry, key: Seq<u8>)
    requires
        0 <= at < bucket.len(),
        bucket[at].key@ == entry.key@,
        forall|j: int| at < j < bucket.len() ==> (#[trigger] bucket[j]).key@ != entry.key@,
    ensures
        bucket_get(bucket.update(at, entry), key) == if entry.key@ == key {
            Some(entry.offset)
        } else {
            bucket_get(bucket, key)
        },
    decreases bucket.len(),
{
    let updated = bucket.update(at, entry);
    if at == bucket.len() - 1 {
        assert(updated.drop_last() =~= bucket.drop_last());
    } else {
        assert(bucket[bucket.len() - 1].key@ != entry.key@);
        assert(updated.drop_last() =~= bucket.drop_last().update(at, entry));
        lemma_bucket_update(bucket.drop_last(), at, entry, key);
    }
}

/// The place of the last entry of `bucket` that has the key `key`.
fn position(bucket: &Vec<IndexEntry>, key: &[u8]) -> (place: Option<usize>)
    ensures
        match place {
            Some(at) => at < bucket@.len() && bucket@[at as int].key@ == key@ && forall|j: int|
                at < j < bucket@.len() ==> (#[trigger] bucket@[j]).key@ != key@,
            None => forall|j: int| 0 <= j < bucket@.len() ==> (#[trigger] bucket@[j]).key@ != key@,
        },
{
    let mut i: usize = bucket.len();
    while i > 0
        invariant
            i <= bucket@.len(),
            forall|j: int| i <= j < bucket@.len() ==> (#[trigger] bucket@[j]).key@ != key@,
        decreases i,
    {
        i = i - 1;
        if same(bucket[i].key.as_slice(), key) {
            return Some(i);
        }
    }
    None
}

/// The index of one segment.
pub struct SegmentIndex {
    buckets: HashMap<u64, Vec<IndexEntry>>,
}

impl View for SegmentIndex {
    type V = Map<Seq<u8>, int>;

    closed spec fn view(&self) -> Map<Seq<u8>, int> {
        Map::new(
            |key: Seq<u8>|
                self.buckets@.contains_key(key_hash(key)) && bucket_get(
                    self.buckets@[key_hash(key)]@,
                    key,
                ) is Some,
            |key: Seq<u8>| bucket_get(self.buckets@[key_hash(key)]@, key).unwrap() as int,
        )
    }
}

impl SegmentIndex {
    /// An index without keys.
    pub fn new() -> (index: SegmentIndex)
        ensures
            index@ == Map::<Seq<u8>, int>::empty(),
    {
        let index = SegmentIndex { buckets: HashMap::new() };
        assert(index@ =~= Map::<Seq<u8>, int>::empty());
        index
    }

    /// The index of a segment as a scan of the whole segment gives it: each
    /// record sets the offset of its key, so the last record of a key wins.
    pub fn build_from_scan(segment: &Segment) -> (index: SegmentIndex)
        ensures
            index@ == index_of(entries(segment@)),
    {
        let records = segment.records();
        let n = records.len();
        let mut index = SegmentIndex::new();
        let mut i: usize = 0;
        assert(index@ =~= index_of(views(records@).subrange(0, 0)));
        while i < n
            invariant
                i <= n,
                n == records@.len(),
                index@ == index_of(views(records@).subrange(0, i as int)),
            decreases n - i,
        {
            index.record(records[i].key.as_slice(), records[i].offset);
            proof {
                lemma_index_of_push(views(records@).subrange(0, i as int), records@[i as int]@);
                assert(views(records@).subrange(0, i + 1) =~= views(records@).subrange(
                    0,
                    i as int,
                ).push(records@[i as int]@));
            }
            i = i + 1;
        }
        assert(views(records@).subrange(0, n as int) =~= views(records@));
        index
    }

    /// The offset recorded for `key`, if any.
    pub fn lookup(&self, key: &[u8]) -> (found: Option<u64>)
        ensures
            match found {
                Some(offset) => self@.contains_key(key@) && self@[key@] == offset,
                None => !self@.contains_key(key@),
            },
    {
        broadcast use vstd::std_specs::hash::group_hash_axioms;

        let h = hash(key);
        match self.buckets.get(&h) {
            None => None,
            Some(bucket) => {
                match position(bucket, key) {
                    Some(at) => {
                        proof {
                            lemma_bucket_get_found(bucket@, key@, at as int);
                        }
                        Some(bucket[at].offset)
                    },
                    None => {
                        proof {
                            lemma_bucket_get_absent(bucket@, key@);
                        }
                        None
                    },
                }
            },
        }
    }

    /// Records `offset` for `key`, in place of any offset recorded before.
    pub fn record(&mut self, key: &[u8], offset: u64)
        ensures
            final(self)@ == old(self)@.insert(key@, offset as int),
    {
        broadcast use vstd::std_specs::hash::group_hash_axioms;

        let h = hash(key);
        let entry = IndexEntry { key: copy_range(key, 0, key.len()), offset };
        assert(entry.key@ =~= key@);
        let removed = self.buckets.remove(&h);
        let mut bucket = match removed {
            Some(bucket) => bucket,
            None => Vec::new(),
        };
        let ghost before = bucket@;
        match position(&bucket, key) {
            Some(at) => {
                bucket.set(at, entry);
                assert forall|k: Seq<u8>|
                    bucket_get(bucket@, k) == if key@ == k {
                        Some(offset)
                    } else {
                        bucket_get(before, k)
                    } by {
                    lemma_bucket_update(before, at as int, entry, k);
                }
            },
            None => {
                bucket.push(entry);
                assert forall|k: Seq<u8>|
                    bucket_get(bucket@, k) == if key@ == k {
                        Some(offset)
                    } else {
                        bucket_get(before, k)
                    } by {
                    lemma_bucket_push(before, entry, k);
                }
            },
        }
        self.buckets.insert(h, bucket);
        assert(self@ =~= old(self)@.insert(key@, offset as int));
    }
}

} // verus!
