//! A segment: the bytes of one append-only file. Bytes are only ever added at
//! the end, so the offset of a record never changes.

use vstd::prelude::*;
use vstd::slice::slice_subrange;
use crate::bytes::{extend, find, lemma_find_byte, same};
use crate::codec::{decode_line, Record, TERMINATOR};
use crate::error::EngineError;
use crate::scan::{entries, record_at, scan, views, Entry};

verus! {

/// The contents of one segment file.
#[derive(Debug)]
pub struct Segment {
    data: Vec<u8>,
}

impl View for Segment {
    type V = Seq<u8>;

    closed spec fn view(&self) -> Seq<u8> {
        self.data@
    }
}

impl Segment {
    /// A segment with no bytes, as a file that was just created.
    pub fn create() -> (segment: Segment)
        ensures
            segment@ == Seq::<u8>::empty(),
    {
        Segment { data: Vec::new() }
    }

    /// The segment of a file that holds `bytes`.
    pub fn open(bytes: Vec<u8>) -> (segment: Segment)
        ensures
            segment@ == bytes@,
    {
        Segment { data: bytes }
    }

    /// The number of bytes in the segment.
    pub fn size(&self) -> (size: u64)
        ensures
            size == self@.len(),
    {
        self.data.len() as u64
    }

    /// The bytes of the segment.
    pub fn bytes(&self) -> (bytes: &Vec<u8>)
        ensures
            bytes@ == self@,
    {
        &self.data
    }

    /// Adds `bytes` at the end and returns the offset at which they begin:
    /// the size of the segment before the call.
    pub fn append(&mut self, bytes: &[u8]) -> (offset: u64)
        ensures
            offset == old(self)@.len(),
            final(self)@ == old(self)@ + bytes@,
    {
        let offset = self.data.len() as u64;
        extend(&mut self.data, bytes);
        offset
    }

    /// Reads the record whose first byte is at `offset`: the line from there
    /// up to the next terminator. Where no record begins there, or its key is
    /// not `expected_key`, the index that gave the offset is corrupt.
    pub fn read_record_at(&self, offset: u64, expected_key: &[u8]) -> (r: Result<
        Record,
        EngineError,
    >)
        ensures
            match r {
                Ok(record) => record_at(self@, offset as int) == Some(record@) && record.key@
                    == expected_key@,
                Err(e) => e == EngineError::IndexCorruption && !(record_at(self@, offset as int)
                    is Some && record_at(self@, offset as int).unwrap().0 == expected_key@),
            },
    {
        let n = self.data.len();
        if offset >= n as u64 {
            proof {
                lemma_find_byte(self@, TERMINATOR, n as int);
            }
            return Err(EngineError::IndexCorruption);
        }
        let start = offset as usize;
        let end = find(self.data.as_slice(), TERMINATOR, start);
        if end >= n {
            return Err(EngineError::IndexCorruption);
        }
        proof {
            lemma_find_byte(self@, TERMINATOR, start as int);
        }
        match decode_line(slice_subrange(self.data.as_slice(), start, end)) {
            Ok(record) => {
                if same(record.key.as_slice(), expected_key) {
                    Ok(record)
                } else {
                    Err(EngineError::IndexCorruption)
                }
            },
            Err(_) => Err(EngineError::IndexCorruption),
        }
    }

    /// The records of the segment, in file order.
    pub fn records(&self) -> (found: Vec<Entry>)
        ensures
            views(found@) == entries(self@),
    {
        scan(self.data.as_slice())
    }
}

} // verus!
