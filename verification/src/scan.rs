//! Reading the bytes of a segment as records. A record is a terminated line
//! that decodes; a line that does not decode, and bytes after the last
//! terminator, are passed over.

use vstd::prelude::*;
use vstd::slice::slice_subrange;
use crate::bytes::{find, find_byte, lemma_find_byte, lemma_find_byte_is};
use crate::codec::{
    decode_line, decode_spec, encode_record, is_key, is_token, lemma_decode_line_of,
    lemma_decode_parts, line_of, TERMINATOR,
};

verus! {

/// A record as it was found in a segment, with the offset of its first byte.
#[derive(Debug, PartialEq, Eq)]
pub struct Entry {
    pub offset: u64,
    pub key: Vec<u8>,
    pub value: Vec<u8>,
}

/// The mathematical value of an [`Entry`].
pub struct EntryView {
    pub offset: int,
    pub key: Seq<u8>,
    pub value: Seq<u8>,
}

impl View for Entry {
    type V = EntryView;

    open spec fn view(&self) -> EntryView {
        EntryView { offset: self.offset as int, key: self.key@, value: self.value@ }
    }
}

/// The values of a sequence of entries.
pub open spec fn views(found: Seq<Entry>) -> Seq<EntryView> {
    Seq::new(found.len(), |i: int| found[i]@)
}

/// Whether `data` is a whole number of lines: empty, or ending in a terminator.
pub open spec fn is_clean(data: Seq<u8>) -> bool {
    data.len() == 0 || data.last() == TERMINATOR
}

/// The record that begins at `offset`: what the bytes from `offset` up to the
/// next terminator decode to. There is none where no terminator follows.
pub open spec fn record_at(data: Seq<u8>, offset: int) -> Option<(Seq<u8>, Seq<u8>)> {
    let end = find_byte(data, TERMINATOR, offset);
    if 0 <= offset && end < data.len() {
        decode_spec(data.subrange(offset, end))
    } else {
        None
    }
}

/// The records of the lines that begin at `start` or later, in file order.
pub open spec fn entries_from(data: Seq<u8>, start: int) -> Seq<EntryView>
    decreases data.len() - start,
{
    let end = find_byte(data, TERMINATOR, start);
    if start < 0 || end >= data.len() {
        Seq::empty()
    } else {
        proof {
            lemma_find_byte(data, TERMINATOR, start);
        }
        let rest = entries_from(data, end + 1);
        match record_at(data, start) {
            Some((key, value)) => seq![EntryView { offset: start, key, value }] + rest,
            None => rest,
        }
    }
}

/// The records of a segment, in file order.
pub open spec fn entries(data: Seq<u8>) -> Seq<EntryView> {
    entries_from(data, 0)
}

/// The last of `found` that has the key `key`.
pub open spec fn latest(found: Seq<EntryView>, key: Seq<u8>) -> Option<EntryView>
    decreases found.len(),
{
    if found.len() == 0 {
        None
    } else if found.last().key == key {
        Some(found.last())
    } else {
        latest(found.drop_last(), key)
    }
}

/// The offset at which each key was last found.
pub open spec fn index_of(found: Seq<EntryView>) -> Map<Seq<u8>, int> {
    Map::new(|key: Seq<u8>| latest(found, key) is Some, |key: Seq<u8>| latest(found, key).unwrap().offset)
}

/// The last entry with a key is one of the entries, and has that key.
pub proof fn lemma_latest_is_member(found: Seq<EntryView>, key: Seq<u8>)
    requires
        latest(found, key) is Some,
    ensures
        latest(found, key).unwrap().key == key,
        exists|i: int| 0 <= i < found.len() && found[i] == latest(found, key).unwrap(),
    decreases found.len(),
{
    if found.last().key == key {
        assert(found[found.len() - 1] == latest(found, key).unwrap());
    } else {
        lemma_latest_is_member(found.drop_last(), key);
        let i = choose|i: int|
            0 <= i < found.drop_last().len() && found.drop_last()[i] == latest(
                found.drop_last(),
                key,
            ).unwrap();
        assert(found[i] == latest(found, key).unwrap());
    }
}

/// No entry has a key for which there is no last entry.
pub proof fn lemma_latest_none(found: Seq<EntryView>, key: Seq<u8>)
    requires
        latest(found, key) is None,
    ensures
        forall|i: int| 0 <= i < found.len() ==> (#[trigger] found[i]).key != key,
    decreases found.len(),
{
    if found.len() > 0 {
        lemma_latest_none(found.drop_last(), key);
        assert forall|i: int| 0 <= i < found.len() implies (#[trigger] found[i]).key != key by {
            if i < found.len() - 1 {
                assert(found.drop_last()[i] == found[i]);
            }
        }
    }
}

/// In two runs of entries, one after the other, the last entry with a key is
/// the last of the second run, or else the last of the first.
pub proof fn lemma_latest_concat(first: Seq<EntryView>, second: Seq<EntryView>, key: Seq<u8>)
    ensures
        latest(first + second, key) == if latest(second, key) is Some {
            latest(second, key)
        } else {
            latest(first, key)
        },
    decreases second.len(),
{
    if second.len() == 0 {
        assert(first + second =~= first);
    } else {
        assert((first + second).drop_last() =~= first + second.drop_last());
        assert((first + second).last() == second.last());
        lemma_latest_concat(first, second.drop_last(), key);
    }
}

/// One more entry at the end is the last for its own key and changes nothing
/// for the other keys.
pub proof fn lemma_latest_push(found: Seq<EntryView>, added: EntryView, key: Seq<u8>)
    ensures
        latest(found.push(added), key) == if added.key == key {
            Some(added)
        } else {
            latest(found, key)
        },
{
    assert(found.push(added).drop_last() =~= found);
}

/// One more entry at the end sets the offset of its key in the index.
pub proof fn lemma_index_of_push(found: Seq<EntryView>, added: EntryView)
    ensures
        index_of(found.push(added)) == index_of(found).insert(added.key, added.offset),
{
    assert forall|key: Seq<u8>|
        latest(found.push(added), key) == if added.key == key {
            Some(added)
        } else {
            latest(found, key)
        } by {
        lemma_latest_push(found, added, key);
    }
    assert(index_of(found.push(added)) =~= index_of(found).insert(added.key, added.offset));
}

/// A search that ends inside `data` ends at the same place when bytes follow
/// `data`.
pub proof fn lemma_find_byte_append(data: Seq<u8>, tail: Seq<u8>, b: u8, from: int)
    requires
        0 <= from,
        find_byte(data, b, from) < data.len(),
    ensures
        find_byte(data + tail, b, from) == find_byte(data, b, from),
{
    lemma_find_byte(data, b, from);
    lemma_find_byte_is(data + tail, b, from, find_byte(data, b, from));
}

/// A record stays what it is when bytes are appended to the segment.
pub proof fn lemma_record_at_append(data: Seq<u8>, tail: Seq<u8>, offset: int)
    requires
        record_at(data, offset) is Some,
    ensures
        record_at(data + tail, offset) == record_at(data, offset),
{
    let end = find_byte(data, TERMINATOR, offset);
    lemma_find_byte(data, TERMINATOR, offset);
    lemma_find_byte_append(data, tail, TERMINATOR, offset);
    assert((data + tail).subrange(offset, end) =~= data.subrange(offset, end));
}

/// An encoded record that is appended to a segment reads back at the offset
/// where the segment ended.
pub proof fn lemma_record_at_end(data: Seq<u8>, key: Seq<u8>, value: Seq<u8>)
    requires
        is_key(key),
        is_token(value),
    ensures
        record_at(data + encode_record(key, value), data.len() as int) == Some((key, value)),
{
    let all = data + encode_record(key, value);
    let start = data.len() as int;
    let end = start + line_of(key, value).len();
    lemma_find_byte_is(all, TERMINATOR, start, end);
    assert(all.subrange(start, end) =~= line_of(key, value));
    lemma_decode_line_of(key, value);
}

/// Every entry reads back, at its offset, as its own key and value, and its
/// offset lies in the segment at or after the start of the scan.
pub proof fn lemma_entries_read_back(data: Seq<u8>, start: int)
    requires
        0 <= start,
    ensures
        forall|i: int|
            0 <= i < entries_from(data, start).len() ==> {
                let e = #[trigger] entries_from(data, start)[i];
                &&& start <= e.offset < data.len()
                &&& record_at(data, e.offset) == Some((e.key, e.value))
            },
    decreases data.len() - start,
{
    let end = find_byte(data, TERMINATOR, start);
    if end < data.len() {
        lemma_find_byte(data, TERMINATOR, start);
        lemma_entries_read_back(data, end + 1);
    }
}

/// Whether every entry holds a key and a token.
pub open spec fn valid_entries(found: Seq<EntryView>) -> bool {
    forall|i: int|
        0 <= i < found.len() ==> is_key((#[trigger] found[i]).key) && is_token(found[i].value)
}

/// The number of bytes that the records of `found` take when encoded.
pub open spec fn weight(found: Seq<EntryView>) -> nat
    decreases found.len(),
{
    if found.len() == 0 {
        0
    } else {
        weight(found.drop_last()) + found.last().key.len() + found.last().value.len() + 2
    }
}

/// A run of one entry weighs what the entry weighs, and the entry is the
/// last for its own key alone.
pub proof fn lemma_single(entry: EntryView, key: Seq<u8>)
    ensures
        weight(seq![entry]) == entry.key.len() + entry.value.len() + 2,
        latest(seq![entry], key) == if entry.key == key {
            Some(entry)
        } else {
            None
        },
{
    let run = seq![entry];
    assert(run.drop_last() =~= Seq::<EntryView>::empty());
    assert(weight(run.drop_last()) == 0);
    assert(latest(run.drop_last(), key) is None);
    assert(run.last() == entry);
}

/// The weight of two runs of entries is the sum of their weights.
pub proof fn lemma_weight_concat(first: Seq<EntryView>, second: Seq<EntryView>)
    ensures
        weight(first + second) == weight(first) + weight(second),
    decreases second.len(),
{
    if second.len() == 0 {
        assert(first + second =~= first);
    } else {
        assert((first + second).drop_last() =~= first + second.drop_last());
        lemma_weight_concat(first, second.drop_last());
    }
}

/// The records that a scan finds hold keys and tokens.
pub proof fn lemma_entries_valid(data: Seq<u8>, start: int)
    requires
        0 <= start,
    ensures
        valid_entries(entries_from(data, start)),
{
    lemma_entries_read_back(data, start);
    assert forall|i: int| 0 <= i < entries_from(data, start).len() implies is_key(
        (#[trigger] entries_from(data, start)[i]).key,
    ) && is_token(entries_from(data, start)[i].value) by {
        let e = entries_from(data, start)[i];
        let end = find_byte(data, TERMINATOR, e.offset);
        lemma_decode_parts(data.subrange(e.offset, end));
    }
}

/// The records that a scan finds from `start` on take no more bytes than the
/// segment holds from there.
pub proof fn lemma_entries_weight(data: Seq<u8>, start: int)
    requires
        0 <= start <= data.len(),
    ensures
        weight(entries_from(data, start)) <= data.len() - start,
    decreases data.len() - start,
{
    let end = find_byte(data, TERMINATOR, start);
    lemma_find_byte(data, TERMINATOR, start);
    if end < data.len() {
        lemma_entries_weight(data, end + 1);
        let rest = entries_from(data, end + 1);
        match record_at(data, start) {
            Some((key, value)) => {
                let line = data.subrange(start, end);
                lemma_decode_parts(line);
                let first = seq![EntryView { offset: start, key, value }];
                lemma_weight_concat(first, rest);
                lemma_single(first[0], key);
                assert(line.len() == key.len() + 1 + value.len());
            },
            None => {},
        }
    } else {
        assert(weight(entries_from(data, start)) == 0);
    }
}

/// Appending an encoded record to a segment that is a whole number of lines
/// adds one entry, at the offset where the segment ended, and changes no
/// other.
pub proof fn lemma_entries_append(data: Seq<u8>, key: Seq<u8>, value: Seq<u8>, start: int)
    requires
        is_clean(data),
        is_key(key),
        is_token(value),
        0 <= start <= data.len(),
    ensures
        entries_from(data + encode_record(key, value), start) == entries_from(data, start).push(
            EntryView { offset: data.len() as int, key, value },
        ),
    decreases data.len() - start,
{
    let record = encode_record(key, value);
    let all = data + record;
    let added = EntryView { offset: data.len() as int, key, value };
    if start == data.len() {
        let end = start + line_of(key, value).len();
        lemma_find_byte_is(all, TERMINATOR, start, end);
        lemma_record_at_end(data, key, value);
        lemma_find_byte(data, TERMINATOR, start);
        assert(find_byte(all, TERMINATOR, end + 1) == all.len());
        assert(entries_from(all, end + 1) =~= Seq::<EntryView>::empty());
        assert(entries_from(data, start) =~= Seq::<EntryView>::empty());
        assert(entries_from(all, start) =~= entries_from(data, start).push(added));
    } else {
        lemma_find_byte(data, TERMINATOR, start);
        let end = find_byte(data, TERMINATOR, start);
        if end >= data.len() {
            assert(data[data.len() - 1] == TERMINATOR);
            assert(false);
        }
        lemma_find_byte_append(data, record, TERMINATOR, start);
        assert(all.subrange(start, end) =~= data.subrange(start, end));
        lemma_entries_append(data, key, value, end + 1);
        assert(entries_from(all, start) =~= entries_from(data, start).push(added));
    }
}

/// The entries of `found` with `by` added to each offset.
pub open spec fn shifted(found: Seq<EntryView>, by: int) -> Seq<EntryView> {
    Seq::new(
        found.len(),
        |i: int| EntryView { offset: found[i].offset + by, key: found[i].key, value: found[i].value },
    )
}

/// A search in bytes that stand behind others ends where it ends in those
/// bytes alone, moved by the length of what stands in front.
pub proof fn lemma_find_byte_shift(front: Seq<u8>, data: Seq<u8>, b: u8, from: int)
    requires
        0 <= from <= data.len(),
    ensures
        find_byte(front + data, b, front.len() + from) == front.len() + find_byte(data, b, from),
{
    lemma_find_byte(data, b, from);
    let at = find_byte(data, b, from);
    let all = front + data;
    assert forall|j: int| front.len() + from <= j < front.len() + at implies all[j] != b by {
        assert(all[j] == data[j - front.len()]);
    }
    if at < data.len() {
        assert(all[front.len() + at] == data[at]);
    }
    lemma_find_byte_is(all, b, front.len() + from, front.len() + at);
}

/// The records of bytes that stand behind others are the records of those
/// bytes alone, at offsets moved by the length of what stands in front.
pub proof fn lemma_entries_shift(front: Seq<u8>, data: Seq<u8>, start: int)
    requires
        0 <= start <= data.len(),
    ensures
        entries_from(front + data, front.len() + start) == shifted(
            entries_from(data, start),
            front.len() as int,
        ),
    decreases data.len() - start,
{
    let all = front + data;
    let by = front.len() as int;
    lemma_find_byte_shift(front, data, TERMINATOR, start);
    lemma_find_byte(data, TERMINATOR, start);
    let end = find_byte(data, TERMINATOR, start);
    if end < data.len() {
        lemma_entries_shift(front, data, end + 1);
        assert(all.subrange(by + start, by + end) =~= data.subrange(start, end));
        assert(entries_from(all, by + start) =~= shifted(entries_from(data, start), by));
    } else {
        assert(entries_from(all, by + start) =~= shifted(entries_from(data, start), by));
    }
}

/// The records of a whole number of lines with more bytes behind them are
/// the records of the lines, and then the records of the other bytes at
/// offsets moved by the length of the lines.
pub proof fn lemma_entries_concat(front: Seq<u8>, data: Seq<u8>, start: int)
    requires
        is_clean(front),
        0 <= start <= front.len(),
    ensures
        entries_from(front + data, start) == entries_from(front, start) + shifted(
            entries_from(data, 0),
            front.len() as int,
        ),
    decreases front.len() - start,
{
    let all = front + data;
    lemma_find_byte(front, TERMINATOR, start);
    if start == front.len() {
        lemma_entries_shift(front, data, 0);
        assert(entries_from(front, start) =~= Seq::<EntryView>::empty());
        assert(entries_from(all, start) =~= entries_from(front, start) + shifted(
            entries_from(data, 0),
            front.len() as int,
        ));
    } else {
        let end = find_byte(front, TERMINATOR, start);
        if end >= front.len() {
            assert(front[front.len() - 1] == TERMINATOR);
            assert(false);
        }
        lemma_find_byte_append(front, data, TERMINATOR, start);
        assert(all.subrange(start, end) =~= front.subrange(start, end));
        lemma_entries_concat(front, data, end + 1);
        assert(entries_from(all, start) =~= entries_from(front, start) + shifted(
            entries_from(data, 0),
            front.len() as int,
        ));
    }
}

/// Reads the records of a segment's bytes, in file order.
pub fn scan(data: &[u8]) -> (found: Vec<Entry>)
    ensures
        views(found@) == entries(data@),
{
    let n = data.len();
    let mut found: Vec<Entry> = Vec::new();
    let mut start: usize = 0;
    assert(views(found@) + entries_from(data@, 0) =~= entries(data@));
    loop
        invariant
            n == data@.len(),
            start <= n,
            views(found@) + entries_from(data@, start as int) == entries(data@),
        ensures
            views(found@) == entries(data@),
        decreases n - start,
    {
        let end = find(data, TERMINATOR, start);
        proof {
            lemma_find_byte(data@, TERMINATOR, start as int);
        }
        if end >= n {
            assert(views(found@) + entries_from(data@, start as int) =~= views(found@));
            break;
        }
        let ghost before = views(found@);
        match decode_line(slice_subrange(data, start, end)) {
            Ok(record) => {
                let entry = Entry { offset: start as u64, key: record.key, value: record.value };
                found.push(entry);
                assert(views(found@) =~= before.push(entry@));
                assert(before.push(entry@) + entries_from(data@, end + 1) =~= before + (seq![
                    entry@,
                ] + entries_from(data@, end + 1)));
            },
            Err(_) => {},
        }
        start = end + 1;
    }
    found
}

} // verus!
