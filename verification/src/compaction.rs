//! Compaction: every key keeps its latest record, and the records that are
//! kept are written again, in the order in which they were written, into new
//! segments that start at sequence number zero. So a record that stands
//! later in the new files is still the later write.

use vstd::prelude::*;
use crate::codec::{encode_record, is_key, is_token};
use crate::index::SegmentIndex;
use crate::log::{
    all_clean, appended, history, lemma_appended_clean, lemma_history_appended,
    lemma_lookup_is_latest, lookup, rotates, total_bytes, SegmentLog,
};
use crate::scan::{
    entries, latest, lemma_entries_valid, lemma_entries_weight, lemma_latest_concat,
    lemma_latest_none, lemma_single, lemma_weight_concat, valid_entries, views, weight,
    Entry, EntryView,
};

verus! {

/// The entries that are the last with their key, in the order of `found`.
pub open spec fn survivors(found: Seq<EntryView>) -> Seq<EntryView>
    decreases found.len(),
{
    if found.len() == 0 {
        Seq::empty()
    } else {
        let rest = survivors(found.drop_first());
        if latest(found.drop_first(), found.first().key) is Some {
            rest
        } else {
            seq![found.first()] + rest
        }
    }
}

/// The segments that hold `records` after each was appended in turn to a log
/// without segments.
pub open spec fn replayed(records: Seq<EntryView>, limit: u64) -> Seq<Seq<u8>>
    decreases records.len(),
{
    if records.len() == 0 {
        Seq::empty()
    } else {
        appended(
            replayed(records.drop_last(), limit),
            encode_record(records.last().key, records.last().value),
            limit,
        )
    }
}

/// The segments after compaction.
pub open spec fn compacted(segments: Seq<Seq<u8>>, limit: u64) -> Seq<Seq<u8>> {
    replayed(survivors(history(segments)), limit)
}

/// Whether there are more segments than are retained.
pub open spec fn exceeds(segments: Seq<Seq<u8>>, retention: Option<usize>) -> bool {
    match retention {
        Some(most) => segments.len() > most,
        None => false,
    }
}

/// The segments after a write of `key` and `value`: the record is appended,
/// and the segments are compacted if they are then more than are retained.
pub open spec fn written(
    segments: Seq<Seq<u8>>,
    key: Seq<u8>,
    value: Seq<u8>,
    limit: u64,
    retention: Option<usize>,
) -> Seq<Seq<u8>> {
    let after = appended(segments, encode_record(key, value), limit);
    if exceeds(after, retention) {
        compacted(after, limit)
    } else {
        after
    }
}

/// Whether two runs of entries hold the same keys and values in the same
/// order.
pub open spec fn same_records(first: Seq<EntryView>, second: Seq<EntryView>) -> bool {
    &&& first.len() == second.len()
    &&& forall|i: int|
        0 <= i < first.len() ==> (#[trigger] first[i]).key == second[i].key && first[i].value
            == second[i].value
}

/// Whether no two entries have the same key.
pub open spec fn distinct_keys(found: Seq<EntryView>) -> bool {
    forall|i: int, j: int|
        0 <= i < j < found.len() ==> (#[trigger] found[i]).key != (#[trigger] found[j]).key
}

/// With one entry put in front, the last entry with a key is the last of the
/// others, or else the one in front.
pub proof fn lemma_latest_prepend(front: EntryView, rest: Seq<EntryView>, key: Seq<u8>)
    ensures
        latest(seq![front] + rest, key) == if latest(rest, key) is Some {
            latest(rest, key)
        } else if front.key == key {
            Some(front)
        } else {
            None
        },
{
    lemma_latest_concat(seq![front], rest, key);
    lemma_single(front, key);
}

/// Two runs with the same keys and values have, for each key, last entries
/// with the same value.
pub proof fn lemma_latest_same(first: Seq<EntryView>, second: Seq<EntryView>, key: Seq<u8>)
    requires
        same_records(first, second),
    ensures
        latest(first, key) is Some <==> latest(second, key) is Some,
        latest(first, key) is Some ==> latest(first, key).unwrap().value == latest(
            second,
            key,
        ).unwrap().value,
    decreases first.len(),
{
    if first.len() > 0 {
        assert(first[first.len() - 1].key == second[first.len() - 1].key);
        assert forall|i: int| 0 <= i < first.drop_last().len() implies (
        #[trigger] first.drop_last()[i]).key == second.drop_last()[i].key && first.drop_last()[i].value
            == second.drop_last()[i].value by {
            assert(first[i].key == second[i].key);
        }
        lemma_latest_same(first.drop_last(), second.drop_last(), key);
    }
}

/// The entries that survive are entries that were there, so they hold keys
/// and tokens where all did.
pub proof fn lemma_survivors_valid(found: Seq<EntryView>)
    requires
        valid_entries(found),
    ensures
        valid_entries(survivors(found)),
    decreases found.len(),
{
    if found.len() > 0 {
        assert forall|i: int| 0 <= i < found.drop_first().len() implies is_key(
            (#[trigger] found.drop_first()[i]).key,
        ) && is_token(found.drop_first()[i].value) by {
            assert(found.drop_first()[i] == found[i + 1]);
        }
        lemma_survivors_valid(found.drop_first());
        assert(is_key(found[0].key));
    }
}

/// For every key, the last entry among the survivors is the last entry of
/// all.
pub proof fn lemma_survivors_latest(found: Seq<EntryView>, key: Seq<u8>)
    ensures
        latest(survivors(found), key) == latest(found, key),
    decreases found.len(),
{
    if found.len() > 0 {
        let front = found.first();
        let rest = found.drop_first();
        lemma_survivors_latest(rest, key);
        assert(found =~= seq![front] + rest);
        lemma_latest_prepend(front, rest, key);
        lemma_latest_prepend(front, survivors(rest), key);
    }
}

/// No two survivors have the same key.
pub proof fn lemma_survivors_distinct(found: Seq<EntryView>)
    ensures
        distinct_keys(survivors(found)),
    decreases found.len(),
{
    if found.len() > 0 {
        let front = found.first();
        let rest = found.drop_first();
        lemma_survivors_distinct(rest);
        if latest(rest, front.key) is None {
            lemma_survivors_latest(rest, front.key);
            lemma_latest_none(survivors(rest), front.key);
            let kept = seq![front] + survivors(rest);
            assert forall|i: int, j: int| 0 <= i < j < kept.len() implies (#[trigger] kept[i]).key
                != (#[trigger] kept[j]).key by {
                assert(kept[j] == survivors(rest)[j - 1]);
                if i > 0 {
                    assert(kept[i] == survivors(rest)[i - 1]);
                }
            }
        }
    }
}

/// The survivors are no more than the entries, and weigh no more; where two
/// entries have the same key they are fewer and weigh less.
pub proof fn lemma_survivors_weight(found: Seq<EntryView>)
    ensures
        survivors(found).len() <= found.len(),
        weight(survivors(found)) <= weight(found),
        !distinct_keys(found) ==> weight(survivors(found)) < weight(found),
    decreases found.len(),
{
    if found.len() > 0 {
        let front = found.first();
        let rest = found.drop_first();
        lemma_survivors_weight(rest);
        assert(found =~= seq![front] + rest);
        lemma_weight_concat(seq![front], rest);
        lemma_weight_concat(seq![front], survivors(rest));
        lemma_single(front, front.key);
        if !distinct_keys(found) {
            let (i, j) = choose|i: int, j: int|
                0 <= i < j < found.len() && (#[trigger] found[i]).key == (#[trigger] found[j]).key;
            if i == 0 {
                if latest(rest, front.key) is None {
                    lemma_latest_none(rest, front.key);
                    assert(rest[j - 1] == found[j]);
                }
            } else {
                assert(rest[i - 1] == found[i]);
                assert(rest[j - 1] == found[j]);
                assert(!distinct_keys(rest));
            }
        }
    }
}

/// Appending bytes adds their number to the size of the log.
pub proof fn lemma_total_bytes_appended(segments: Seq<Seq<u8>>, bytes: Seq<u8>, limit: u64)
    ensures
        total_bytes(appended(segments, bytes, limit)) == total_bytes(segments) + bytes.len(),
{
    let after = appended(segments, bytes, limit);
    if rotates(segments, limit) {
        assert(after.drop_last() =~= segments);
    } else {
        assert(after.drop_last() =~= segments.drop_last());
    }
}

/// The records of a log take no more bytes than the log holds.
pub proof fn lemma_history_weight(segments: Seq<Seq<u8>>)
    ensures
        weight(history(segments)) <= total_bytes(segments),
    decreases segments.len(),
{
    if segments.len() > 0 {
        lemma_history_weight(segments.drop_last());
        lemma_weight_concat(history(segments.drop_last()), entries(segments.last()));
        lemma_entries_weight(segments.last(), 0);
    }
}

/// The records of a log hold keys and tokens.
pub proof fn lemma_history_valid(segments: Seq<Seq<u8>>)
    ensures
        valid_entries(history(segments)),
    decreases segments.len(),
{
    if segments.len() > 0 {
        lemma_history_valid(segments.drop_last());
        lemma_entries_valid(segments.last(), 0);
    }
}

/// Replayed records fill segments that are whole numbers of lines, take
/// exactly the bytes of their encodings, and are the records, in the same
/// order, that a scan of those segments finds.
pub proof fn lemma_replayed(records: Seq<EntryView>, limit: u64)
    requires
        valid_entries(records),
    ensures
        all_clean(replayed(records, limit)),
        same_records(history(replayed(records, limit)), records),
        total_bytes(replayed(records, limit)) == weight(records),
    decreases records.len(),
{
    if records.len() > 0 {
        let init = records.drop_last();
        let last = records.last();
        assert forall|i: int| 0 <= i < init.len() implies is_key((#[trigger] init[i]).key)
            && is_token(init[i].value) by {
            assert(init[i] == records[i]);
        }
        lemma_replayed(init, limit);
        let before = replayed(init, limit);
        assert(is_key(records[records.len() - 1].key));
        lemma_appended_clean(before, last.key, last.value, limit);
        lemma_history_appended(before, last.key, last.value, limit);
        lemma_total_bytes_appended(before, encode_record(last.key, last.value), limit);
        let after = history(replayed(records, limit));
        assert forall|i: int| 0 <= i < after.len() implies (#[trigger] after[i]).key
            == records[i].key && after[i].value == records[i].value by {
            if i < init.len() {
                assert(history(before)[i].key == init[i].key);
            }
        }
    }
}

/// Compaction changes the answer of no lookup.
pub proof fn lemma_compacted_lookup(segments: Seq<Seq<u8>>, limit: u64, key: Seq<u8>)
    ensures
        lookup(compacted(segments, limit), key) == lookup(segments, key),
{
    let kept = survivors(history(segments));
    lemma_history_valid(segments);
    lemma_survivors_valid(history(segments));
    lemma_replayed(kept, limit);
    lemma_latest_same(history(compacted(segments, limit)), kept, key);
    lemma_survivors_latest(history(segments), key);
    lemma_lookup_is_latest(segments, key);
    lemma_lookup_is_latest(compacted(segments, limit), key);
}

/// After compaction every segment is a whole number of lines, no key has
/// two records, and the log holds no more bytes than before; it holds fewer
/// where some key had two records.
pub proof fn lemma_compacted_shape(segments: Seq<Seq<u8>>, limit: u64)
    ensures
        all_clean(compacted(segments, limit)),
        distinct_keys(history(compacted(segments, limit))),
        total_bytes(compacted(segments, limit)) <= total_bytes(segments),
        !distinct_keys(history(segments)) ==> total_bytes(compacted(segments, limit))
            < total_bytes(segments),
{
    let kept = survivors(history(segments));
    lemma_history_valid(segments);
    lemma_survivors_valid(history(segments));
    lemma_replayed(kept, limit);
    lemma_survivors_distinct(history(segments));
    lemma_survivors_weight(history(segments));
    lemma_history_weight(segments);
    let after = history(compacted(segments, limit));
    assert forall|i: int, j: int| 0 <= i < j < after.len() implies (#[trigger] after[i]).key != (
    #[trigger] after[j]).key by {
        assert(kept[i].key != kept[j].key);
    }
}

impl SegmentLog {
    /// Compacts the log: reads every record from the newest to the oldest,
    /// keeps for each key the record that is met first, and writes the
    /// records that were kept, oldest first, into new segments.
    pub fn compact(&mut self)
        ensures
            final(self)@ == compacted(old(self)@, old(self).limit()),
            final(self).limit() == old(self).limit(),
    {
        let limit = self.limit();
        let count = self.segment_count();
        let mut all: Vec<Entry> = Vec::new();
        let mut i: usize = 0;
        assert(self@.subrange(0, 0) =~= Seq::<Seq<u8>>::empty());
        assert(views(all@) =~= history(self@.subrange(0, 0)));
        while i < count
            invariant
                i <= count,
                count == self@.len(),
                views(all@) == history(self@.subrange(0, i as int)),
            decreases count - i,
        {
            let ghost before = views(all@);
            let mut records = self.segment(i).records();
            let ghost found = views(records@);
            all.append(&mut records);
            assert(views(all@) =~= before + found);
            assert(self@.subrange(0, i + 1).drop_last() =~= self@.subrange(0, i as int));
            assert(self@.subrange(0, i + 1).last() == self@[i as int]);
            i = i + 1;
        }
        assert(self@.subrange(0, count as int) =~= self@);
        let ghost written = history(self@);
        let mut seen = SegmentIndex::new();
        let mut kept: Vec<Entry> = Vec::new();
        assert(written.subrange(written.len() as int, written.len() as int) =~= Seq::<
            EntryView,
        >::empty());
        assert(written.subrange(0, all@.len() as int) =~= written);
        while all.len() > 0
            invariant
                all@.len() <= written.len(),
                views(all@) == written.subrange(0, all@.len() as int),
                kept@.len() == survivors(
                    written.subrange(all@.len() as int, written.len() as int),
                ).len(),
                forall|t: int|
                    0 <= t < kept@.len() ==> (#[trigger] kept@[t])@ == survivors(
                        written.subrange(all@.len() as int, written.len() as int),
                    )[kept@.len() - 1 - t],
                forall|k: Seq<u8>| #[trigger]
                    seen@.contains_key(k) <==> latest(
                        written.subrange(all@.len() as int, written.len() as int),
                        k,
                    ) is Some,
            decreases all@.len(),
        {
            let ghost before = views(all@);
            let ghost later = written.subrange(all@.len() as int, written.len() as int);
            let entry = all.pop().unwrap();
            let ghost now = written.subrange(all@.len() as int, written.len() as int);
            proof {
                assert(before.last() == entry@);
                assert(views(all@) =~= written.subrange(0, all@.len() as int));
                assert(now.drop_first() =~= later);
                assert(now.first() == entry@);
                assert(now =~= seq![entry@] + later);
                assert forall|k: Seq<u8>|
                    latest(now, k) is Some <==> (latest(later, k) is Some || k == entry@.key) by {
                    lemma_latest_prepend(entry@, later, k);
                }
            }
            if seen.lookup(entry.key.as_slice()).is_none() {
                seen.record(entry.key.as_slice(), 0);
                let ghost held = kept@;
                kept.push(entry);
                assert forall|t: int| 0 <= t < kept@.len() implies (#[trigger] kept@[t])@
                    == survivors(now)[kept@.len() - 1 - t] by {
                    if t < held.len() {
                        assert(kept@[t] == held[t]);
                        assert(survivors(now)[kept@.len() - 1 - t] == survivors(later)[held.len()
                            - 1 - t]);
                    }
                }
            }
        }
        assert(written.subrange(0, written.len() as int) =~= written);
        let ghost chosen = survivors(written);
        proof {
            lemma_history_valid(self@);
            lemma_survivors_valid(written);
        }
        let mut fresh = SegmentLog::open(Vec::new(), limit);
        assert(fresh@ =~= replayed(chosen.subrange(0, 0), limit));
        while kept.len() > 0
            invariant
                valid_entries(chosen),
                kept@.len() <= chosen.len(),
                forall|t: int|
                    0 <= t < kept@.len() ==> (#[trigger] kept@[t])@ == chosen[chosen.len() - 1
                        - t],
                fresh.limit() == limit,
                fresh@ == replayed(chosen.subrange(0, chosen.len() - kept@.len()), limit),
            decreases kept@.len(),
        {
            let ghost done = chosen.len() - kept@.len();
            let ghost held = kept@;
            let entry = kept.pop().unwrap();
            proof {
                assert(entry == held[held.len() - 1]);
                assert(entry@ == chosen[done]);
                assert(is_key(chosen[done].key) && is_token(chosen[done].value));
                assert(chosen.subrange(0, done + 1).drop_last() =~= chosen.subrange(0, done));
                assert(chosen.subrange(0, done + 1).last() == chosen[done]);
                assert forall|t: int| 0 <= t < kept@.len() implies (#[trigger] kept@[t])@
                    == chosen[chosen.len() - 1 - t] by {
                    assert(kept@[t] == held[t]);
                }
            }
            let _ = fresh.append_record(entry.key.as_slice(), entry.value.as_slice());
        }
        assert(chosen.subrange(0, chosen.len() as int) =~= chosen);
        *self = fresh;
    }
}

} // verus!
