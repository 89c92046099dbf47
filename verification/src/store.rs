//! The segment store: the segments with one index each. A write appends to
//! the active segment and records the offset in its index; a read asks the
//! indexes from the newest to the oldest and reads the record at the first
//! offset it gets, so a newer record hides every older one of its key.

use vstd::prelude::*;
use crate::codec::{encode_record, is_key, is_token};
use crate::compaction::{compacted, exceeds};
use crate::error::EngineError;
use crate::index::SegmentIndex;
use crate::log::{appended, contents_of, lemma_appended_clean, lookup, rotates, SegmentLog};
use crate::scan::{
    entries, entries_from, index_of, is_clean, latest, lemma_entries_append,
    lemma_entries_read_back, lemma_index_of_push, lemma_latest_is_member, lemma_record_at_append,
    lemma_record_at_end, record_at, EntryView,
};

verus! {

/// Whether every offset of `index` leads to a record of its key in `data`.
pub open spec fn consistent(data: Seq<u8>, index: Map<Seq<u8>, int>) -> bool {
    forall|key: Seq<u8>| #[trigger]
        index.contains_key(key) ==> match record_at(data, index[key]) {
            Some((found, _)) => found == key,
            None => false,
        }
}

/// What a read through the indexes of the segments below `upto` gives: the
/// record at the offset that the newest index with the key holds.
pub open spec fn read_upto(
    segments: Seq<Seq<u8>>,
    indexes: Seq<Map<Seq<u8>, int>>,
    key: Seq<u8>,
    upto: nat,
) -> Result<Option<Seq<u8>>, EngineError>
    decreases upto,
{
    if upto == 0 {
        Ok(None)
    } else {
        let newest = upto - 1;
        if indexes[newest].contains_key(key) {
            match record_at(segments[newest], indexes[newest][key]) {
                Some((found, value)) => if found == key {
                    Ok(Some(value))
                } else {
                    Err(EngineError::IndexCorruption)
                },
                None => Err(EngineError::IndexCorruption),
            }
        } else {
            read_upto(segments, indexes, key, newest as nat)
        }
    }
}

/// The indexes that a scan of each segment gives.
pub open spec fn scanned_indexes(segments: Seq<Seq<u8>>) -> Seq<Map<Seq<u8>, int>> {
    Seq::new(segments.len(), |i: int| index_of(entries(segments[i])))
}

/// The mathematical value of a [`SegmentStore`].
pub struct StoreView {
    /// The bytes of the segments, oldest first.
    pub segments: Seq<Seq<u8>>,
    /// The index of each segment: the offset of each key.
    pub indexes: Seq<Map<Seq<u8>, int>>,
    /// The size beyond which the active segment takes no further record.
    pub limit: u64,
    /// The number of segments beyond which a write compacts the store.
    pub retention: Option<usize>,
}

impl StoreView {
    /// Every segment has its index, and every offset of an index leads to a
    /// record of its key.
    pub open spec fn wf(self) -> bool {
        &&& self.segments.len() == self.indexes.len()
        &&& forall|i: int|
            0 <= i < self.segments.len() ==> consistent(#[trigger] self.segments[i], self.indexes[i])
    }

    /// Every index is what a scan of its segment gives.
    pub open spec fn synced(self) -> bool {
        self.indexes == scanned_indexes(self.segments)
    }

    /// What a read of `key` returns.
    pub open spec fn read(self, key: Seq<u8>) -> Result<Option<Seq<u8>>, EngineError> {
        read_upto(self.segments, self.indexes, key, self.segments.len())
    }

    /// The store after the record of `key` and `value` was appended and its
    /// offset recorded.
    pub open spec fn put(self, key: Seq<u8>, value: Seq<u8>) -> StoreView {
        StoreView {
            segments: appended(self.segments, encode_record(key, value), self.limit),
            indexes: if rotates(self.segments, self.limit) {
                self.indexes.push(Map::<Seq<u8>, int>::empty().insert(key, 0))
            } else {
                self.indexes.update(
                    self.indexes.len() - 1,
                    self.indexes.last().insert(key, self.segments.last().len() as int),
                )
            },
            ..self
        }
    }

    /// Whether the store holds more segments than it retains.
    pub open spec fn exceeds(self) -> bool {
        exceeds(self.segments, self.retention)
    }

    /// Whether a scan of the segments gives the indexes that the store has,
    /// and the active segment is a whole number of lines. A store that was
    /// built from files of whole lines is steady, and so is every store after
    /// compaction.
    pub open spec fn steady(self) -> bool {
        &&& self.synced()
        &&& self.segments.len() > 0 ==> is_clean(self.segments.last())
    }

    /// The store after compaction, with the indexes of the new segments.
    pub open spec fn compacted(self) -> StoreView {
        StoreView {
            segments: compacted(self.segments, self.limit),
            indexes: scanned_indexes(compacted(self.segments, self.limit)),
            ..self
        }
    }

    /// The store after a write of `key` and `value`: the record is appended,
    /// and the store is compacted if it then holds more segments than it
    /// retains.
    pub open spec fn written(self, key: Seq<u8>, value: Seq<u8>) -> StoreView {
        if self.put(key, value).exceeds() {
            self.put(key, value).compacted()
        } else {
            self.put(key, value)
        }
    }
}

/// The store that is built from the segment files that were found.
pub open spec fn initial(files: Seq<Seq<u8>>, limit: u64, retention: Option<usize>) -> StoreView {
    StoreView { segments: files, indexes: scanned_indexes(files), limit, retention }
}

/// The index that a scan of a segment gives leads, for every key, to a record
/// of that key.
pub proof fn lemma_scanned_consistent(data: Seq<u8>)
    ensures
        consistent(data, index_of(entries(data))),
{
    let index = index_of(entries(data));
    assert forall|key: Seq<u8>| #[trigger] index.contains_key(key) implies match record_at(
        data,
        index[key],
    ) {
        Some((found, _)) => found == key,
        None => false,
    } by {
        lemma_latest_is_member(entries(data), key);
        lemma_entries_read_back(data, 0);
    }
}

/// A store whose indexes are what a scan gives is well formed.
pub proof fn lemma_synced_wf(store: StoreView)
    requires
        store.synced(),
    ensures
        store.wf(),
{
    assert forall|i: int| 0 <= i < store.segments.len() implies consistent(
        #[trigger] store.segments[i],
        store.indexes[i],
    ) by {
        lemma_scanned_consistent(store.segments[i]);
    }
}

/// An index stays consistent with its segment when an encoded record is
/// appended and the offset where the segment ended is recorded for its key.
pub proof fn lemma_consistent_append(
    data: Seq<u8>,
    index: Map<Seq<u8>, int>,
    key: Seq<u8>,
    value: Seq<u8>,
)
    requires
        consistent(data, index),
        is_key(key),
        is_token(value),
    ensures
        consistent(data + encode_record(key, value), index.insert(key, data.len() as int)),
{
    let after = data + encode_record(key, value);
    let recorded = index.insert(key, data.len() as int);
    assert forall|other: Seq<u8>| #[trigger] recorded.contains_key(other) implies match record_at(
        after,
        recorded[other],
    ) {
        Some((found, _)) => found == other,
        None => false,
    } by {
        if other == key {
            lemma_record_at_end(data, key, value);
        } else {
            assert(index.contains_key(other));
            lemma_record_at_append(data, encode_record(key, value), index[other]);
        }
    }
}

/// A read of a well-formed store does not fail: no offset leads to a record
/// of another key.
pub proof fn lemma_read_ok(store: StoreView, key: Seq<u8>, upto: nat)
    requires
        store.wf(),
        upto <= store.segments.len(),
    ensures
        read_upto(store.segments, store.indexes, key, upto) is Ok,
    decreases upto,
{
    if upto > 0 {
        assert(consistent(store.segments[upto - 1], store.indexes[upto - 1]));
        lemma_read_ok(store, key, (upto - 1) as nat);
    }
}

/// A well-formed store is well formed after a record was put.
pub proof fn lemma_put_wf(store: StoreView, key: Seq<u8>, value: Seq<u8>)
    requires
        store.wf(),
        is_key(key),
        is_token(value),
    ensures
        store.put(key, value).wf(),
{
    let after = store.put(key, value);
    let bytes = encode_record(key, value);
    let empty = Seq::<u8>::empty();
    assert forall|i: int| 0 <= i < after.segments.len() implies consistent(
        #[trigger] after.segments[i],
        after.indexes[i],
    ) by {
        if i < after.segments.len() - 1 {
            assert(after.segments[i] == store.segments[i]);
            assert(consistent(store.segments[i], store.indexes[i]));
        } else if rotates(store.segments, store.limit) {
            assert(consistent(empty, Map::<Seq<u8>, int>::empty()));
            lemma_consistent_append(empty, Map::<Seq<u8>, int>::empty(), key, value);
            assert(empty + bytes =~= bytes);
        } else {
            assert(consistent(store.segments[i], store.indexes[i]));
            lemma_consistent_append(store.segments[i], store.indexes[i], key, value);
        }
    }
}

/// A well-formed store is well formed after a write.
pub proof fn lemma_written_wf(store: StoreView, key: Seq<u8>, value: Seq<u8>)
    requires
        store.wf(),
        is_key(key),
        is_token(value),
    ensures
        store.written(key, value).wf(),
{
    lemma_put_wf(store, key, value);
    lemma_synced_wf(store.put(key, value).compacted());
}

/// A read through the indexes looks only at the segments below `upto`.
pub proof fn lemma_read_upto_prefix(
    segments: Seq<Seq<u8>>,
    indexes: Seq<Map<Seq<u8>, int>>,
    other_segments: Seq<Seq<u8>>,
    other_indexes: Seq<Map<Seq<u8>, int>>,
    key: Seq<u8>,
    upto: nat,
)
    requires
        forall|i: int|
            0 <= i < upto ==> segments[i] == other_segments[i] && indexes[i] == other_indexes[i],
    ensures
        read_upto(segments, indexes, key, upto) == read_upto(
            other_segments,
            other_indexes,
            key,
            upto,
        ),
    decreases upto,
{
    if upto > 0 {
        lemma_read_upto_prefix(
            segments,
            indexes,
            other_segments,
            other_indexes,
            key,
            (upto - 1) as nat,
        );
    }
}

/// Through indexes that a scan gives, a read finds what a scan of the
/// segments finds.
pub proof fn lemma_read_upto_scanned(segments: Seq<Seq<u8>>, key: Seq<u8>, upto: nat)
    requires
        upto <= segments.len(),
    ensures
        read_upto(segments, scanned_indexes(segments), key, upto) == Ok::<
            Option<Seq<u8>>,
            EngineError,
        >(lookup(segments.subrange(0, upto as int), key)),
    decreases upto,
{
    if upto > 0 {
        let newest = upto - 1;
        let below = segments.subrange(0, upto as int);
        assert(below.drop_last() =~= segments.subrange(0, newest));
        assert(below.last() == segments[newest]);
        lemma_read_upto_scanned(segments, key, newest as nat);
        if latest(entries(segments[newest]), key) is Some {
            lemma_latest_is_member(entries(segments[newest]), key);
            lemma_entries_read_back(segments[newest], 0);
        }
    }
}

/// Where every index is what a scan of its segment gives, a read returns
/// what a scan of the segments finds.
pub proof fn lemma_read_synced(store: StoreView, key: Seq<u8>)
    requires
        store.synced(),
    ensures
        store.read(key) == Ok::<Option<Seq<u8>>, EngineError>(lookup(store.segments, key)),
{
    lemma_read_upto_scanned(store.segments, key, store.segments.len());
    assert(store.segments.subrange(0, store.segments.len() as int) =~= store.segments);
}

/// Putting a record keeps a steady store steady.
pub proof fn lemma_put_steady(store: StoreView, key: Seq<u8>, value: Seq<u8>)
    requires
        store.steady(),
        is_key(key),
        is_token(value),
    ensures
        store.put(key, value).steady(),
{
    let after = store.put(key, value);
    let empty = Seq::<u8>::empty();
    lemma_appended_clean(store.segments, key, value, store.limit);
    if rotates(store.segments, store.limit) {
        lemma_entries_append(empty, key, value, 0);
        assert(empty + encode_record(key, value) =~= encode_record(key, value));
        assert(entries_from(empty, 0) =~= Seq::<EntryView>::empty());
        lemma_index_of_push(Seq::<EntryView>::empty(), EntryView { offset: 0, key, value });
        assert(index_of(Seq::<EntryView>::empty()) =~= Map::<Seq<u8>, int>::empty());
    } else {
        let data = store.segments.last();
        lemma_entries_append(data, key, value, 0);
        lemma_index_of_push(entries(data), EntryView { offset: data.len() as int, key, value });
    }
    assert(after.indexes =~= scanned_indexes(after.segments));
}

/// What a write reports: where the record went and what followed.
#[derive(Clone, Copy, Debug, PartialEq, Eq, Structural)]
pub struct WriteReceipt {
    /// The sequence number of the segment to which the record was appended.
    pub segment: usize,
    /// The offset of the record's first byte in that segment.
    pub offset: u64,
    /// Whether that segment was created for this record.
    pub created: bool,
    /// Whether the store was compacted after the append, which replaces
    /// every segment.
    pub compacted: bool,
}

/// The mathematical value of what a read returns.
pub open spec fn value_view(r: Result<Option<Vec<u8>>, EngineError>) -> Result<
    Option<Seq<u8>>,
    EngineError,
> {
    match r {
        Ok(Some(value)) => Ok(Some(value@)),
        Ok(None) => Ok(None),
        Err(e) => Err(e),
    }
}

/// The receipt of a write of a record of `bytes` to `segments`.
pub open spec fn receipt_for(
    segments: Seq<Seq<u8>>,
    bytes: Seq<u8>,
    limit: u64,
    retention: Option<usize>,
) -> WriteReceipt {
    WriteReceipt {
        segment: (appended(segments, bytes, limit).len() - 1) as usize,
        offset: if rotates(segments, limit) {
            0
        } else {
            segments.last().len() as u64
        },
        created: rotates(segments, limit),
        compacted: exceeds(appended(segments, bytes, limit), retention),
    }
}

/// The segments of a store with their indexes.
pub struct SegmentStore {
    log: SegmentLog,
    indexes: Vec<SegmentIndex>,
    retention: Option<usize>,
}

impl View for SegmentStore {
    type V = StoreView;

    closed spec fn view(&self) -> StoreView {
        StoreView {
            segments: self.log@,
            indexes: Seq::new(self.indexes@.len(), |i: int| self.indexes@[i]@),
            limit: self.log.limit(),
            retention: self.retention,
        }
    }
}

impl SegmentStore {
    fn index_all(log: &SegmentLog) -> (indexes: Vec<SegmentIndex>)
        ensures
            Seq::new(indexes@.len(), |i: int| indexes@[i]@) == scanned_indexes(log@),
    {
        let count = log.segment_count();
        let mut indexes: Vec<SegmentIndex> = Vec::new();
        let mut i: usize = 0;
        while i < count
            invariant
                i <= count,
                count == log@.len(),
                indexes@.len() == i,
                forall|j: int| 0 <= j < i ==> (#[trigger] indexes@[j])@ == index_of(entries(log@[j])),
            decreases count - i,
        {
            indexes.push(SegmentIndex::build_from_scan(log.segment(i)));
            i = i + 1;
        }
        assert(Seq::new(indexes@.len(), |i: int| indexes@[i]@) =~= scanned_indexes(log@));
        indexes
    }

    /// Builds the store from the segment files that were found, oldest first:
    /// each segment gets the index that a scan of it gives. With no file the
    /// store is empty, and the first write creates segment zero.
    pub fn initialize(files: Vec<Vec<u8>>, limit: u64, retention: Option<usize>) -> (store:
        SegmentStore)
        ensures
            store@ == initial(contents_of(files@), limit, retention),
            store@.wf(),
    {
        let log = SegmentLog::open(files, limit);
        let indexes = SegmentStore::index_all(&log);
        let store = SegmentStore { log, indexes, retention };
        proof {
            lemma_synced_wf(store@);
        }
        store
    }

    /// The number of segments.
    pub fn segment_count(&self) -> (count: usize)
        ensures
            count == self@.segments.len(),
    {
        self.log.segment_count()
    }

    /// The contents of the segments, oldest first: what the segment files hold.
    pub fn contents(&self) -> (files: Vec<Vec<u8>>)
        ensures
            contents_of(files@) == self@.segments,
    {
        self.log.contents()
    }

    /// Writes `value` for `key`: appends the record, to a new segment where
    /// the active one is larger than the limit, records its offset in the
    /// index of that segment, and compacts the store if it then holds more
    /// segments than it retains. A key or value that cannot be encoded is
    /// refused and changes nothing.
    pub fn write(&mut self, key: &[u8], value: &[u8]) -> (r: Result<WriteReceipt, EngineError>)
        requires
            old(self)@.wf(),
        ensures
            final(self)@.wf(),
            match r {
                Ok(receipt) => {
                    &&& is_key(key@) && is_token(value@)
                    &&& final(self)@ == old(self)@.written(key@, value@)
                    &&& receipt == receipt_for(
                        old(self)@.segments,
                        encode_record(key@, value@),
                        old(self)@.limit,
                        old(self)@.retention,
                    )
                },
                Err(e) => {
                    &&& e == EngineError::MalformedRecord
                    &&& !(is_key(key@) && is_token(value@))
                    &&& final(self)@ == old(self)@
                },
            },
    {
        let placement = match self.log.append_record(key, value) {
            Ok(placement) => placement,
            Err(e) => {
                assert(self@ =~= old(self)@);
                return Err(e);
            },
        };
        if placement.created {
            let mut index = SegmentIndex::new();
            index.record(key, placement.offset);
            self.indexes.push(index);
        } else {
            let mut index = self.indexes.pop().unwrap();
            index.record(key, placement.offset);
            self.indexes.push(index);
        }
        proof {
            assert(self@.indexes =~= old(self)@.put(key@, value@).indexes);
            assert(self@ == old(self)@.put(key@, value@));
            lemma_put_wf(old(self)@, key@, value@);
        }
        let compacted = match self.retention {
            Some(most) => self.log.segment_count() > most,
            None => false,
        };
        if compacted {
            self.compact();
        }
        Ok(
            WriteReceipt {
                segment: placement.segment,
                offset: placement.offset,
                created: placement.created,
                compacted,
            },
        )
    }

    /// Reads the value of `key`: asks the indexes from the newest segment to
    /// the oldest, and returns the value of the record at the first offset
    /// found. A key that no index holds is absent.
    pub fn read(&self, key: &[u8]) -> (r: Result<Option<Vec<u8>>, EngineError>)
        requires
            self@.wf(),
        ensures
            r is Ok,
            value_view(r) == self@.read(key@),
    {
        proof {
            lemma_read_ok(self@, key@, self@.segments.len());
        }
        let mut upto: usize = self.log.segment_count();
        while upto > 0
            invariant
                upto <= self@.segments.len(),
                self@.segments.len() == self@.indexes.len(),
                self@.read(key@) is Ok,
                self@.read(key@) == read_upto(self@.segments, self@.indexes, key@, upto as nat),
            decreases upto,
        {
            upto = upto - 1;
            match self.indexes[upto].lookup(key) {
                Some(offset) => {
                    return match self.log.segment(upto).read_record_at(offset, key) {
                        Ok(record) => Ok(Some(record.value)),
                        Err(e) => Err(e),
                    };
                },
                None => {},
            }
        }
        Ok(None)
    }

    /// Compacts the store: the segments are replaced by new ones that hold
    /// the latest record of every key, and each new segment gets the index
    /// that a scan of it gives.
    pub fn compact(&mut self)
        ensures
            final(self)@ == old(self)@.compacted(),
            final(self)@.wf(),
    {
        self.log.compact();
        self.indexes = SegmentStore::index_all(&self.log);
        proof {
            lemma_synced_wf(self@);
        }
    }
}

} // verus!
