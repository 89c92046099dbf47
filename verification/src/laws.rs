//! What holds of the store whatever is written to it.

use vstd::prelude::*;
use crate::bytes::{lacks, lemma_find_byte, lemma_find_byte_is};
use crate::codec::{encode_record, is_key, is_token, SEPARATOR, TERMINATOR};
use crate::compaction::{
    compacted, distinct_keys, lemma_compacted_lookup, lemma_compacted_shape, lemma_latest_same,
    same_records, written,
};
use crate::error::EngineError;
use crate::log::{
    appended, history, lemma_appended_clean, lemma_lookup_appended, lemma_lookup_is_latest,
    lookup, rotates, total_bytes,
};
use crate::scan::{
    entries, entries_from, is_clean, latest, lemma_entries_concat, lemma_latest_is_member,
    lemma_latest_none, lemma_record_at_append, lemma_record_at_end, record_at, shifted,
    EntryView,
};
use crate::store::{
    consistent, initial, lemma_put_steady, lemma_read_ok, lemma_read_synced,
    lemma_read_upto_prefix, lemma_synced_wf, lemma_written_wf, StoreView,
};

verus! {

/// Every offset that an index holds leads to a record of its key: there is
/// a record at that offset, and its key is the key that was looked up.
pub proof fn law_offsets_lead_to_their_keys(store: StoreView, segment: int, key: Seq<u8>)
    requires
        store.wf(),
        0 <= segment < store.segments.len(),
        store.indexes[segment].contains_key(key),
    ensures
        record_at(store.segments[segment], store.indexes[segment][key]) is Some,
        record_at(store.segments[segment], store.indexes[segment][key]).unwrap().0 == key,
{
    assert(consistent(store.segments[segment], store.indexes[segment]));
}

/// A read of a well-formed store never fails: no offset leads to a record of
/// another key.
pub proof fn law_read_never_fails(store: StoreView, key: Seq<u8>)
    requires
        store.wf(),
    ensures
        store.read(key) is Ok,
{
    lemma_read_ok(store, key, store.segments.len());
}

/// A well-formed store stays well formed when it is written to.
pub proof fn law_writes_keep_well_formed(store: StoreView, key: Seq<u8>, value: Seq<u8>)
    requires
        store.wf(),
        is_key(key),
        is_token(value),
    ensures
        store.written(key, value).wf(),
{
    lemma_written_wf(store, key, value);
}

/// A store that is built from files, whatever they hold, is well formed, and
/// so is any store after compaction.
pub proof fn law_built_and_compacted_are_well_formed(
    store: StoreView,
    files: Seq<Seq<u8>>,
    limit: u64,
    retention: Option<usize>,
)
    ensures
        initial(files, limit, retention).wf(),
        store.compacted().wf(),
{
    lemma_synced_wf(store.compacted());
    lemma_synced_wf(initial(files, limit, retention));
}

/// A read that follows a write of its key returns the value written, where
/// the record went to a new segment, or to an active segment that was a whole
/// number of lines, or no compaction followed.
pub proof fn law_read_your_write(store: StoreView, key: Seq<u8>, value: Seq<u8>)
    requires
        store.wf(),
        is_key(key),
        is_token(value),
        rotates(store.segments, store.limit) || is_clean(store.segments.last()) || !store.put(
            key,
            value,
        ).exceeds(),
    ensures
        store.written(key, value).read(key) == Ok::<Option<Seq<u8>>, EngineError>(Some(value)),
{
    let after = store.put(key, value);
    if after.exceeds() {
        lemma_read_synced(after.compacted(), key);
        lemma_compacted_lookup(after.segments, store.limit, key);
        lemma_lookup_appended(store.segments, key, value, store.limit, key);
    } else {
        let empty = Seq::<u8>::empty();
        if rotates(store.segments, store.limit) {
            lemma_record_at_end(empty, key, value);
            assert(empty + encode_record(key, value) =~= encode_record(key, value));
        } else {
            lemma_record_at_end(store.segments.last(), key, value);
        }
    }
}

/// Last write wins: after two writes of one key, in the same segment or
/// with any rotation or compaction between or after them, a read of the key
/// returns the value of the second write.
pub proof fn law_last_write_wins(
    store: StoreView,
    key: Seq<u8>,
    first: Seq<u8>,
    second: Seq<u8>,
)
    requires
        store.wf(),
        is_key(key),
        is_token(first),
        is_token(second),
    ensures
        store.written(key, first).written(key, second).read(key) == Ok::<
            Option<Seq<u8>>,
            EngineError,
        >(Some(second)),
{
    let once = store.written(key, first);
    lemma_written_wf(store, key, first);
    lemma_appended_clean(store.segments, key, first, store.limit);
    lemma_compacted_shape(store.put(key, first).segments, store.limit);
    if once.segments.len() > 0 {
        assert(is_clean(once.segments[once.segments.len() - 1]));
    }
    law_read_your_write(once, key, second);
}

/// Newest segment wins: where the index of the newest segment holds a key,
/// a read returns the value of the record that this index leads to, whatever
/// the older segments hold for the key.
pub proof fn law_newest_segment_wins(store: StoreView, key: Seq<u8>)
    requires
        store.wf(),
        store.segments.len() > 0,
        store.indexes.last().contains_key(key),
    ensures
        store.read(key) == Ok::<Option<Seq<u8>>, EngineError>(
            Some(record_at(store.segments.last(), store.indexes.last()[key]).unwrap().1),
        ),
{
    let newest = store.segments.len() - 1;
    assert(consistent(store.segments[newest], store.indexes[newest]));
}

/// A write to a steady store is an insertion into a map: the store is steady
/// again, a read of the written key returns the written value, and a read of
/// any other key returns what it returned before.
pub proof fn law_write_is_insert(store: StoreView, key: Seq<u8>, value: Seq<u8>, other: Seq<u8>)
    requires
        store.steady(),
        is_key(key),
        is_token(value),
    ensures
        store.written(key, value).steady(),
        store.written(key, value).read(other) == if other == key {
            Ok::<Option<Seq<u8>>, EngineError>(Some(value))
        } else {
            store.read(other)
        },
{
    let after = store.put(key, value);
    lemma_put_steady(store, key, value);
    lemma_read_synced(store, other);
    lemma_read_synced(after, other);
    lemma_lookup_appended(store.segments, key, value, store.limit, other);
    if after.exceeds() {
        lemma_read_synced(after.compacted(), other);
        lemma_compacted_lookup(after.segments, store.limit, other);
        lemma_compacted_shape(after.segments, store.limit);
        let packed = after.compacted().segments;
        if packed.len() > 0 {
            assert(is_clean(packed[packed.len() - 1]));
        }
    }
}

/// The store after each of `writes`, a key with its value, was written in
/// turn.
pub open spec fn after_writes(store: StoreView, writes: Seq<(Seq<u8>, Seq<u8>)>) -> StoreView
    decreases writes.len(),
{
    if writes.len() == 0 {
        store
    } else {
        after_writes(store, writes.drop_last()).written(writes.last().0, writes.last().1)
    }
}

/// The value that the last of `writes` with the key `key` wrote.
pub open spec fn last_written(writes: Seq<(Seq<u8>, Seq<u8>)>, key: Seq<u8>) -> Option<Seq<u8>>
    decreases writes.len(),
{
    if writes.len() == 0 {
        None
    } else if writes.last().0 == key {
        Some(writes.last().1)
    } else {
        last_written(writes.drop_last(), key)
    }
}

/// After any number of writes to a steady store, with whatever rotations and
/// compactions they bring, the store is steady, and a read returns the value
/// of the last write of its key, or what it returned before the writes where
/// none of them wrote the key.
pub proof fn law_writes_are_inserts(
    store: StoreView,
    writes: Seq<(Seq<u8>, Seq<u8>)>,
    key: Seq<u8>,
)
    requires
        store.steady(),
        forall|i: int|
            0 <= i < writes.len() ==> is_key((#[trigger] writes[i]).0) && is_token(writes[i].1),
    ensures
        after_writes(store, writes).steady(),
        after_writes(store, writes).read(key) == match last_written(writes, key) {
            Some(value) => Ok::<Option<Seq<u8>>, EngineError>(Some(value)),
            None => store.read(key),
        },
    decreases writes.len(),
{
    if writes.len() > 0 {
        let earlier = writes.drop_last();
        assert forall|i: int| 0 <= i < earlier.len() implies is_key((#[trigger] earlier[i]).0)
            && is_token(earlier[i].1) by {
            assert(earlier[i] == writes[i]);
        }
        law_writes_are_inserts(store, earlier, key);
        assert(is_key(writes[writes.len() - 1].0));
        law_write_is_insert(after_writes(store, earlier), writes.last().0, writes.last().1, key);
    }
}

/// A write of one key to a well-formed store that is not compacted changes
/// the answer for no other key.
pub proof fn law_write_keeps_other_keys(
    store: StoreView,
    key: Seq<u8>,
    value: Seq<u8>,
    other: Seq<u8>,
)
    requires
        store.wf(),
        is_key(key),
        is_token(value),
        other != key,
        !store.put(key, value).exceeds(),
    ensures
        store.written(key, value).read(other) == store.read(other),
{
    let after = store.put(key, value);
    let count = store.segments.len();
    if rotates(store.segments, store.limit) {
        lemma_read_upto_prefix(
            after.segments,
            after.indexes,
            store.segments,
            store.indexes,
            other,
            count,
        );
    } else {
        let newest = count - 1;
        assert(consistent(store.segments[newest], store.indexes[newest]));
        if store.indexes[newest].contains_key(other) {
            lemma_record_at_append(
                store.segments[newest],
                encode_record(key, value),
                store.indexes[newest][other],
            );
        } else {
            lemma_read_upto_prefix(
                after.segments,
                after.indexes,
                store.segments,
                store.indexes,
                other,
                newest as nat,
            );
        }
    }
}

/// A key of which no segment holds a record is absent: in a store that was
/// built from files, a read of it returns nothing, and no error.
pub proof fn law_absent_key(
    files: Seq<Seq<u8>>,
    limit: u64,
    retention: Option<usize>,
    key: Seq<u8>,
)
    requires
        forall|i: int| 0 <= i < history(files).len() ==> (#[trigger] history(files)[i]).key != key,
    ensures
        initial(files, limit, retention).read(key) == Ok::<Option<Seq<u8>>, EngineError>(None),
{
    lemma_read_synced(initial(files, limit, retention), key);
    lemma_lookup_is_latest(files, key);
    if latest(history(files), key) is Some {
        lemma_latest_is_member(history(files), key);
    }
}

/// A store without segments holds no key.
pub proof fn law_empty_store_holds_nothing(limit: u64, retention: Option<usize>, key: Seq<u8>)
    ensures
        initial(Seq::empty(), limit, retention).read(key) == Ok::<Option<Seq<u8>>, EngineError>(
            None,
        ),
        initial(Seq::empty(), limit, retention).steady(),
{
}

/// Restart: a store that is built again from the files of a steady store is
/// that store, so every read returns after the restart what it returned
/// before. A store that was built from files is steady if its newest file is
/// a whole number of lines; writes keep it steady, and compaction makes any
/// store steady.
pub proof fn law_restart_changes_nothing(store: StoreView, key: Seq<u8>)
    requires
        store.steady(),
    ensures
        initial(store.segments, store.limit, store.retention) == store,
        initial(store.segments, store.limit, store.retention).read(key) == store.read(key),
{
}

/// The store that is built from files is steady where the newest file is a
/// whole number of lines.
pub proof fn law_initial_steady(files: Seq<Seq<u8>>, limit: u64, retention: Option<usize>)
    requires
        files.len() > 0 ==> is_clean(files.last()),
    ensures
        initial(files, limit, retention).steady(),
{
}

/// After compaction a read returns what a scan of the old segments finds,
/// and the store is steady. Where the indexes of the old store were what a
/// scan gives, every read returns what it returned before compaction.
pub proof fn law_compaction_keeps_values(store: StoreView, key: Seq<u8>)
    ensures
        store.compacted().steady(),
        store.compacted().read(key) == Ok::<Option<Seq<u8>>, EngineError>(
            lookup(store.segments, key),
        ),
        store.synced() ==> store.compacted().read(key) == store.read(key),
{
    lemma_read_synced(store.compacted(), key);
    lemma_compacted_lookup(store.segments, store.limit, key);
    lemma_compacted_shape(store.segments, store.limit);
    let packed = store.compacted().segments;
    if packed.len() > 0 {
        assert(is_clean(packed[packed.len() - 1]));
    }
    if store.synced() {
        lemma_read_synced(store, key);
    }
}

/// Compaction never adds bytes, and removes some where a key had more than
/// one record. After it no key has more than one record.
pub proof fn law_compaction_shrinks(store: StoreView)
    ensures
        total_bytes(store.compacted().segments) <= total_bytes(store.segments),
        !distinct_keys(history(store.segments)) ==> total_bytes(store.compacted().segments)
            < total_bytes(store.segments),
        distinct_keys(history(store.compacted().segments)),
{
    lemma_compacted_shape(store.segments, store.limit);
}

/// The keys that can be read after compaction are the keys of which some
/// segment held a record before: no key is lost and none appears.
pub proof fn law_compaction_keeps_keys(store: StoreView, key: Seq<u8>)
    ensures
        store.compacted().read(key) is Ok,
        store.compacted().read(key).unwrap() is Some <==> exists|i: int|
            0 <= i < history(store.segments).len() && (#[trigger] history(store.segments)[i]).key
                == key,
{
    law_compaction_keeps_values(store, key);
    lemma_lookup_is_latest(store.segments, key);
    if latest(history(store.segments), key) is Some {
        lemma_latest_is_member(history(store.segments), key);
    } else {
        lemma_latest_none(history(store.segments), key);
    }
}

/// For an engine that reads by scanning: a write to segments whose active
/// segment is a whole number of lines is an insertion into a map. The active
/// segment is a whole number of lines again, a scan finds the written value
/// for the written key, and for any other key what it found before.
pub proof fn law_scan_write_is_insert(
    segments: Seq<Seq<u8>>,
    key: Seq<u8>,
    value: Seq<u8>,
    limit: u64,
    retention: Option<usize>,
    other: Seq<u8>,
)
    requires
        is_key(key),
        is_token(value),
        rotates(segments, limit) || is_clean(segments.last()),
    ensures
        lookup(written(segments, key, value, limit, retention), other) == if other == key {
            Some(value)
        } else {
            lookup(segments, other)
        },
        written(segments, key, value, limit, retention).len() > 0 ==> is_clean(
            written(segments, key, value, limit, retention).last(),
        ),
{
    let after = appended(segments, encode_record(key, value), limit);
    lemma_lookup_appended(segments, key, value, limit, other);
    lemma_appended_clean(segments, key, value, limit);
    lemma_compacted_lookup(after, limit, other);
    lemma_compacted_shape(after, limit);
    let packed = compacted(after, limit);
    if packed.len() > 0 {
        assert(is_clean(packed[packed.len() - 1]));
    }
}

/// For an engine that reads by scanning, last write wins: after two writes
/// of one key, a scan finds the value of the second.
pub proof fn law_scan_last_write_wins(
    segments: Seq<Seq<u8>>,
    key: Seq<u8>,
    first: Seq<u8>,
    second: Seq<u8>,
    limit: u64,
    retention: Option<usize>,
)
    requires
        is_key(key),
        is_token(first),
        is_token(second),
    ensures
        lookup(
            written(written(segments, key, first, limit, retention), key, second, limit, retention),
            key,
        ) == Some(second),
{
    let once = written(segments, key, first, limit, retention);
    let after = appended(segments, encode_record(key, first), limit);
    lemma_appended_clean(segments, key, first, limit);
    lemma_compacted_shape(after, limit);
    if once.len() > 0 {
        assert(is_clean(once[once.len() - 1]));
    }
    law_scan_write_is_insert(once, key, second, limit, retention, key);
}

/// For an engine that reads by scanning, compaction changes what no scan
/// finds: every key keeps its latest value, no key is lost and none appears.
pub proof fn law_scan_compaction_keeps_values(segments: Seq<Seq<u8>>, limit: u64, key: Seq<u8>)
    ensures
        lookup(compacted(segments, limit), key) == lookup(segments, key),
        total_bytes(compacted(segments, limit)) <= total_bytes(segments),
        !distinct_keys(history(segments)) ==> total_bytes(compacted(segments, limit))
            < total_bytes(segments),
{
    lemma_compacted_lookup(segments, limit, key);
    lemma_compacted_shape(segments, limit);
}

/// A line without a separator is passed over: the records before it are
/// found as they are, the records after it are found at the offsets at which
/// they stand, and every key is looked up as if the line were not there.
pub proof fn law_line_without_separator_is_passed_over(
    before: Seq<u8>,
    line: Seq<u8>,
    after: Seq<u8>,
    key: Seq<u8>,
)
    requires
        is_clean(before),
        lacks(line, SEPARATOR),
        lacks(line, TERMINATOR),
    ensures
        entries(before + line.push(TERMINATOR) + after) == entries(before) + shifted(
            entries(after),
            (before.len() + line.len() + 1) as int,
        ),
        lookup(seq![before + line.push(TERMINATOR) + after], key) == lookup(
            seq![before + after],
            key,
        ),
{
    let ended = line.push(TERMINATOR);
    let front = before + ended;
    let none = Seq::<EntryView>::empty();
    lemma_find_byte_is(ended, TERMINATOR, 0, line.len() as int);
    lemma_find_byte_is(line, SEPARATOR, 0, line.len() as int);
    assert(ended.subrange(0, line.len() as int) =~= line);
    lemma_find_byte(ended, TERMINATOR, line.len() as int + 1);
    assert(entries_from(ended, line.len() as int + 1) =~= none);
    assert(entries(ended) =~= none);
    lemma_entries_concat(before, ended, 0);
    assert(entries(front) =~= entries(before));
    lemma_entries_concat(front, after, 0);
    lemma_entries_concat(before, after, 0);
    let with_line = entries(front + after);
    let without = entries(before + after);
    assert(same_records(with_line, without));
    lemma_latest_same(with_line, without, key);
    let one = seq![front + after];
    let other = seq![before + after];
    assert(one.drop_last() =~= Seq::<Seq<u8>>::empty());
    assert(other.drop_last() =~= Seq::<Seq<u8>>::empty());
    assert(lookup(one.drop_last(), key) is None);
    assert(lookup(other.drop_last(), key) is None);
    assert(one.last() == front + after);
    assert(other.last() == before + after);
}

} // verus!
