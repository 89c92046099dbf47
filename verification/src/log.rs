//! The segments of a store, oldest first. The last segment is the active one:
//! it alone takes appends. A record goes to a new segment when the active
//! one has grown beyond the size limit, so a segment may exceed the limit by
//! the one record that was appended to it last.

use vstd::prelude::*;
use crate::bytes::{copy_range, same};
use crate::codec::{encode, encode_record, is_key, is_token};
use crate::error::EngineError;
use crate::scan::{
    entries, entries_from, is_clean, latest, lemma_entries_append, lemma_latest_concat,
    lemma_latest_push, views, EntryView,
};
use crate::segment::Segment;

verus! {

/// Whether the next record opens a new segment: there is no segment yet, or
/// the active one is larger than the limit.
pub open spec fn rotates(segments: Seq<Seq<u8>>, limit: u64) -> bool {
    segments.len() == 0 || segments.last().len() > limit
}

/// The segments after `bytes` were appended: to a new last segment where the
/// log rotates, else to the active one.
pub open spec fn appended(segments: Seq<Seq<u8>>, bytes: Seq<u8>, limit: u64) -> Seq<Seq<u8>> {
    if rotates(segments, limit) {
        segments.push(bytes)
    } else {
        segments.update(segments.len() - 1, segments.last() + bytes)
    }
}

/// The value that a scan finds for a key: that of the key's last record in
/// the newest segment that has a record of the key.
pub open spec fn lookup(segments: Seq<Seq<u8>>, key: Seq<u8>) -> Option<Seq<u8>>
    decreases segments.len(),
{
    if segments.len() == 0 {
        None
    } else {
        match latest(entries(segments.last()), key) {
            Some(entry) => Some(entry.value),
            None => lookup(segments.drop_last(), key),
        }
    }
}

/// All records of all segments in the order in which they were written.
pub open spec fn history(segments: Seq<Seq<u8>>) -> Seq<EntryView>
    decreases segments.len(),
{
    if segments.len() == 0 {
        Seq::empty()
    } else {
        history(segments.drop_last()) + entries(segments.last())
    }
}

/// The number of bytes in all segments together.
pub open spec fn total_bytes(segments: Seq<Seq<u8>>) -> nat
    decreases segments.len(),
{
    if segments.len() == 0 {
        0
    } else {
        total_bytes(segments.drop_last()) + segments.last().len()
    }
}

/// Whether every segment is a whole number of lines.
pub open spec fn all_clean(segments: Seq<Seq<u8>>) -> bool {
    forall|i: int| 0 <= i < segments.len() ==> is_clean(#[trigger] segments[i])
}

/// The contents of a list of files.
pub open spec fn contents_of(files: Seq<Vec<u8>>) -> Seq<Seq<u8>> {
    Seq::new(files.len(), |i: int| files[i]@)
}

/// The mathematical value of what a search returns.
pub open spec fn found_view(found: Option<Vec<u8>>) -> Option<Seq<u8>> {
    match found {
        Some(value) => Some(value@),
        None => None,
    }
}

/// A scan finds for a key the value of the last record with that key in the
/// history.
pub proof fn lemma_lookup_is_latest(segments: Seq<Seq<u8>>, key: Seq<u8>)
    ensures
        lookup(segments, key) == match latest(history(segments), key) {
            Some(entry) => Some(entry.value),
            None => None,
        },
    decreases segments.len(),
{
    if segments.len() > 0 {
        lemma_lookup_is_latest(segments.drop_last(), key);
        lemma_latest_concat(history(segments.drop_last()), entries(segments.last()), key);
    }
}

/// Where the log rotates or the active segment is a whole number of lines,
/// an appended record is one more record at the end of the history.
pub proof fn lemma_history_appended(
    segments: Seq<Seq<u8>>,
    key: Seq<u8>,
    value: Seq<u8>,
    limit: u64,
)
    requires
        is_key(key),
        is_token(value),
        rotates(segments, limit) || is_clean(segments.last()),
    ensures
        history(appended(segments, encode_record(key, value), limit)) == history(segments).push(
            EntryView {
                offset: if rotates(segments, limit) {
                    0
                } else {
                    segments.last().len() as int
                },
                key,
                value,
            },
        ),
{
    let bytes = encode_record(key, value);
    let after = appended(segments, bytes, limit);
    if rotates(segments, limit) {
        let empty = Seq::<u8>::empty();
        lemma_entries_append(empty, key, value, 0);
        assert(empty + bytes =~= bytes);
        assert(entries_from(empty, 0) =~= Seq::<EntryView>::empty());
        assert(after.drop_last() =~= segments);
        assert(history(after) =~= history(segments).push(
            EntryView { offset: 0, key, value },
        ));
    } else {
        lemma_entries_append(segments.last(), key, value, 0);
        assert(after.drop_last() =~= segments.drop_last());
        assert(history(after) =~= history(segments).push(
            EntryView { offset: segments.last().len() as int, key, value },
        ));
    }
}

/// Where the log rotates or the active segment is a whole number of lines,
/// a scan after an append finds the appended value for the appended key and
/// what it found before for every other key.
pub proof fn lemma_lookup_appended(
    segments: Seq<Seq<u8>>,
    key: Seq<u8>,
    value: Seq<u8>,
    limit: u64,
    other: Seq<u8>,
)
    requires
        is_key(key),
        is_token(value),
        rotates(segments, limit) || is_clean(segments.last()),
    ensures
        lookup(appended(segments, encode_record(key, value), limit), other) == if other == key {
            Some(value)
        } else {
            lookup(segments, other)
        },
{
    let after = appended(segments, encode_record(key, value), limit);
    lemma_history_appended(segments, key, value, limit);
    lemma_lookup_is_latest(segments, other);
    lemma_lookup_is_latest(after, other);
    let added = EntryView {
        offset: if rotates(segments, limit) {
            0
        } else {
            segments.last().len() as int
        },
        key,
        value,
    };
    lemma_latest_push(history(segments), added, other);
}

/// After an encoded record was appended, the active segment is a whole
/// number of lines, and the other segments are as they were.
pub proof fn lemma_appended_clean(segments: Seq<Seq<u8>>, key: Seq<u8>, value: Seq<u8>, limit: u64)
    ensures
        appended(segments, encode_record(key, value), limit).len() > 0,
        is_clean(appended(segments, encode_record(key, value), limit).last()),
        all_clean(segments) ==> all_clean(appended(segments, encode_record(key, value), limit)),
{
}

/// Where a record was appended.
#[derive(Clone, Copy, Debug, PartialEq, Eq, Structural)]
pub struct Placement {
    /// The sequence number of the segment that took the record.
    pub segment: usize,
    /// The offset of the record's first byte in that segment.
    pub offset: u64,
    /// Whether the segment was created for this record.
    pub created: bool,
}

/// The segments of a store with their size limit.
pub struct SegmentLog {
    segments: Vec<Segment>,
    limit: u64,
}

impl View for SegmentLog {
    type V = Seq<Seq<u8>>;

    closed spec fn view(&self) -> Seq<Seq<u8>> {
        Seq::new(self.segments@.len(), |i: int| self.segments@[i]@)
    }
}

impl SegmentLog {
    /// The size beyond which the active segment takes no further record.
    pub closed spec fn limit_spec(&self) -> u64 {
        self.limit
    }

    /// The size beyond which the active segment takes no further record.
    #[verifier::when_used_as_spec(limit_spec)]
    pub fn limit(&self) -> (limit: u64)
        ensures
            limit == self.limit_spec(),
    {
        self.limit
    }

    /// The log of the segment files that were found, oldest first.
    pub fn open(files: Vec<Vec<u8>>, limit: u64) -> (log: SegmentLog)
        ensures
            log@ == contents_of(files@),
            log.limit() == limit,
    {
        let mut files = files;
        let ghost given = files@;
        let mut newest_first: Vec<Segment> = Vec::new();
        while files.len() > 0
            invariant
                files@.len() <= given.len(),
                files@ == given.subrange(0, files@.len() as int),
                newest_first@.len() == given.len() - files@.len(),
                forall|j: int|
                    0 <= j < newest_first@.len() ==> (#[trigger] newest_first@[j])@ == given[
                        given.len() - 1 - j
                    ]@,
            decreases files@.len(),
        {
            let bytes = files.pop().unwrap();
            assert(files@ =~= given.subrange(0, files@.len() as int));
            newest_first.push(Segment::open(bytes));
        }
        let ghost reversed = newest_first@;
        let mut segments: Vec<Segment> = Vec::new();
        while newest_first.len() > 0
            invariant
                reversed.len() == given.len(),
                newest_first@.len() <= reversed.len(),
                newest_first@ == reversed.subrange(0, newest_first@.len() as int),
                segments@.len() == reversed.len() - newest_first@.len(),
                forall|j: int|
                    0 <= j < reversed.len() ==> (#[trigger] reversed[j])@ == given[given.len() - 1
                        - j]@,
                forall|i: int| 0 <= i < segments@.len() ==> (#[trigger] segments@[i])@ == given[i]@,
            decreases newest_first@.len(),
        {
            let segment = newest_first.pop().unwrap();
            assert(newest_first@ =~= reversed.subrange(0, newest_first@.len() as int));
            assert(segment == reversed[newest_first@.len() as int]);
            segments.push(segment);
        }
        let log = SegmentLog { segments, limit };
        assert(log@ =~= contents_of(given));
        log
    }

    /// The number of segments.
    pub fn segment_count(&self) -> (count: usize)
        ensures
            count == self@.len(),
    {
        self.segments.len()
    }

    /// The segment with the sequence number `number`.
    pub fn segment(&self, number: usize) -> (segment: &Segment)
        requires
            number < self@.len(),
        ensures
            segment@ == self@[number as int],
    {
        &self.segments[number]
    }

    /// The contents of the segments, oldest first: what the segment files hold.
    pub fn contents(&self) -> (files: Vec<Vec<u8>>)
        ensures
            contents_of(files@) == self@,
    {
        let n = self.segments.len();
        let mut files: Vec<Vec<u8>> = Vec::new();
        let mut i: usize = 0;
        while i < n
            invariant
                i <= n,
                n == self.segments@.len(),
                files@.len() == i,
                forall|j: int| 0 <= j < i ==> (#[trigger] files@[j])@ == self.segments@[j]@,
            decreases n - i,
        {
            let bytes = self.segments[i].bytes();
            files.push(copy_range(bytes.as_slice(), 0, bytes.len()));
            assert(files@[i as int]@ =~= self.segments@[i as int]@);
            i = i + 1;
        }
        assert(contents_of(files@) =~= self@);
        files
    }

    /// Appends the record of `key` and `value`: to a new segment where there
    /// is none or the active one is larger than the limit, else to the active
    /// segment. A key or value that cannot be encoded changes nothing.
    pub fn append_record(&mut self, key: &[u8], value: &[u8]) -> (r: Result<Placement, EngineError>)
        ensures
            final(self).limit() == old(self).limit(),
            match r {
                Ok(placement) => {
                    &&& is_key(key@) && is_token(value@)
                    &&& final(self)@ == appended(
                        old(self)@,
                        encode_record(key@, value@),
                        old(self).limit(),
                    )
                    &&& placement.created == rotates(old(self)@, old(self).limit())
                    &&& placement.segment == final(self)@.len() - 1
                    &&& placement.offset == if placement.created {
                        0
                    } else {
                        old(self)@.last().len() as int
                    }
                },
                Err(e) => {
                    &&& e == EngineError::MalformedRecord
                    &&& !(is_key(key@) && is_token(value@))
                    &&& final(self)@ == old(self)@
                },
            },
    {
        let bytes = match encode(key, value) {
            Ok(bytes) => bytes,
            Err(e) => {
                return Err(e);
            },
        };
        let count = self.segments.len();
        let created = count == 0 || self.segments[count - 1].size() > self.limit;
        if created {
            let mut segment = Segment::create();
            let offset = segment.append(bytes.as_slice());
            assert(segment@ =~= bytes@);
            self.segments.push(segment);
            assert(self@ =~= appended(old(self)@, bytes@, old(self).limit()));
            Ok(Placement { segment: count, offset, created })
        } else {
            let mut segment = self.segments.pop().unwrap();
            let offset = segment.append(bytes.as_slice());
            self.segments.push(segment);
            assert(self@ =~= appended(old(self)@, bytes@, old(self).limit()));
            Ok(Placement { segment: count - 1, offset, created })
        }
    }

    /// Looks for `key` by reading the segments from the newest to the oldest,
    /// and each segment from its last record to its first.
    pub fn find(&self, key: &[u8]) -> (found: Option<Vec<u8>>)
        ensures
            found_view(found) == lookup(self@, key@),
    {
        let mut remaining: usize = self.segments.len();
        assert(self@.subrange(0, remaining as int) =~= self@);
        while remaining > 0
            invariant
                remaining <= self.segments@.len(),
                lookup(self@, key@) == lookup(self@.subrange(0, remaining as int), key@),
            decreases remaining,
        {
            remaining = remaining - 1;
            let ghost upto = self@.subrange(0, remaining + 1);
            assert(upto.drop_last() =~= self@.subrange(0, remaining as int));
            assert(upto.last() == self.segments@[remaining as int]@);
            let mut records = self.segments[remaining].records();
            let ghost all = views(records@);
            assert(all.subrange(0, records@.len() as int) =~= all);
            while records.len() > 0
                invariant
                    records@.len() <= all.len(),
                    views(records@) == all.subrange(0, records@.len() as int),
                    latest(all, key@) == latest(views(records@), key@),
                    upto.len() > 0,
                    all == entries(upto.last()),
                    lookup(self@, key@) == lookup(upto, key@),
                decreases records@.len(),
            {
                let ghost before = views(records@);
                let entry = records.pop().unwrap();
                assert(before.last() == entry@);
                assert(views(records@) =~= before.drop_last());
                assert(views(records@) =~= all.subrange(0, records@.len() as int));
                if same(entry.key.as_slice(), key) {
                    return Some(entry.value);
                }
            }
        }
        assert(self@.subrange(0, 0) =~= Seq::<Seq<u8>>::empty());
        None
    }
}

} // verus!
