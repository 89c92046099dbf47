//! The record codec: a record is one line of text, the key, a separator, the
//! value and a line terminator. Nothing is escaped, so neither the key nor the
//! value may hold the separator or the terminator, and the key is not empty.

use vstd::prelude::*;
use crate::bytes::{copy_range, extend, find, find_byte, lacks, lemma_find_byte, lemma_find_byte_is};
use crate::error::EngineError;

verus! {

/// The byte between key and value: a comma.
pub const SEPARATOR: u8 = 44;

/// The byte that ends a record: a line feed.
pub const TERMINATOR: u8 = 10;

/// A key with its value.
#[derive(Debug, PartialEq, Eq)]
pub struct Record {
    pub key: Vec<u8>,
    pub value: Vec<u8>,
}

impl View for Record {
    type V = (Seq<u8>, Seq<u8>);

    open spec fn view(&self) -> (Seq<u8>, Seq<u8>) {
        (self.key@, self.value@)
    }
}

/// A byte string that can stand in a record: it holds neither the separator
/// nor the terminator.
pub open spec fn is_token(s: Seq<u8>) -> bool {
    lacks(s, SEPARATOR) && lacks(s, TERMINATOR)
}

/// A byte string that can be a key: a token that is not empty.
pub open spec fn is_key(s: Seq<u8>) -> bool {
    s.len() > 0 && is_token(s)
}

/// The line of a record, without its terminator.
pub open spec fn line_of(key: Seq<u8>, value: Seq<u8>) -> Seq<u8> {
    key.push(SEPARATOR) + value
}

/// The bytes of a record as they stand in a segment.
pub open spec fn encode_record(key: Seq<u8>, value: Seq<u8>) -> Seq<u8> {
    line_of(key, value).push(TERMINATOR)
}

/// What a line, given without its terminator, decodes to: the bytes before
/// and after its separator, where it holds exactly one separator, no
/// terminator, and at least one byte before the separator.
pub open spec fn decode_spec(line: Seq<u8>) -> Option<(Seq<u8>, Seq<u8>)> {
    let at = find_byte(line, SEPARATOR, 0);
    if 0 < at < line.len() && find_byte(line, SEPARATOR, at + 1) == line.len() && find_byte(
        line,
        TERMINATOR,
        0,
    ) == line.len() {
        Some((line.subrange(0, at), line.subrange(at + 1, line.len() as int)))
    } else {
        None
    }
}

/// The line of a key and a token decodes to that key and that token.
pub proof fn lemma_decode_line_of(key: Seq<u8>, value: Seq<u8>)
    requires
        is_key(key),
        is_token(value),
    ensures
        decode_spec(line_of(key, value)) == Some((key, value)),
{
    let line = line_of(key, value);
    let at = key.len() as int;
    lemma_find_byte_is(line, SEPARATOR, 0, at);
    lemma_find_byte_is(line, SEPARATOR, at + 1, line.len() as int);
    lemma_find_byte_is(line, TERMINATOR, 0, line.len() as int);
    assert(line.subrange(0, at) =~= key);
    assert(line.subrange(at + 1, line.len() as int) =~= value);
}

/// Whatever a line decodes to is a key and a token, and the line is theirs.
pub proof fn lemma_decode_parts(line: Seq<u8>)
    requires
        decode_spec(line) is Some,
    ensures
        is_key(decode_spec(line).unwrap().0),
        is_token(decode_spec(line).unwrap().1),
        line == line_of(decode_spec(line).unwrap().0, decode_spec(line).unwrap().1),
{
    let at = find_byte(line, SEPARATOR, 0);
    lemma_find_byte(line, SEPARATOR, 0);
    lemma_find_byte(line, SEPARATOR, at + 1);
    lemma_find_byte(line, TERMINATOR, 0);
    let (key, value) = decode_spec(line).unwrap();
    assert(line =~= line_of(key, value));
}

/// A line decodes to a pair exactly when the pair is a key and a token and
/// the line is the pair's line.
pub proof fn law_decode_inverts_encode(line: Seq<u8>, key: Seq<u8>, value: Seq<u8>)
    ensures
        decode_spec(line) == Some((key, value)) <==> is_key(key) && is_token(value) && line
            == line_of(key, value),
{
    if decode_spec(line) == Some((key, value)) {
        lemma_decode_parts(line);
    }
    if is_key(key) && is_token(value) && line == line_of(key, value) {
        lemma_decode_line_of(key, value);
    }
}

/// Whether `bytes` holds neither the separator nor the terminator.
pub fn valid_token(bytes: &[u8]) -> (valid: bool)
    ensures
        valid == is_token(bytes@),
{
    let n = bytes.len();
    proof {
        lemma_find_byte(bytes@, SEPARATOR, 0);
        lemma_find_byte(bytes@, TERMINATOR, 0);
    }
    find(bytes, SEPARATOR, 0) == n && find(bytes, TERMINATOR, 0) == n
}

/// Whether `bytes` can be a key.
pub fn valid_key(bytes: &[u8]) -> (valid: bool)
    ensures
        valid == is_key(bytes@),
{
    bytes.len() > 0 && valid_token(bytes)
}

/// Encodes a record as one terminated line. A key that is empty, or a key or
/// value that holds the separator or the terminator, cannot be encoded.
pub fn encode(key: &[u8], value: &[u8]) -> (r: Result<Vec<u8>, EngineError>)
    ensures
        match r {
            Ok(bytes) => is_key(key@) && is_token(value@) && bytes@ == encode_record(
                key@,
                value@,
            ),
            Err(e) => e == EngineError::MalformedRecord && !(is_key(key@) && is_token(value@)),
        },
{
    if !valid_key(key) || !valid_token(value) {
        return Err(EngineError::MalformedRecord);
    }
    let mut bytes: Vec<u8> = Vec::new();
    extend(&mut bytes, key);
    bytes.push(SEPARATOR);
    extend(&mut bytes, value);
    bytes.push(TERMINATOR);
    assert(bytes@ =~= encode_record(key@, value@));
    Ok(bytes)
}

/// Decodes a line, given without its terminator, into its record. A line
/// that does not hold exactly one key and one value is malformed.
pub fn decode_line(line: &[u8]) -> (r: Result<Record, EngineError>)
    ensures
        match r {
            Ok(record) => decode_spec(line@) == Some(record@),
            Err(e) => e == EngineError::MalformedRecord && decode_spec(line@) is None,
        },
{
    let n = line.len();
    let at = find(line, SEPARATOR, 0);
    if at == 0 || at >= n {
        return Err(EngineError::MalformedRecord);
    }
    if find(line, SEPARATOR, at + 1) != n {
        return Err(EngineError::MalformedRecord);
    }
    if find(line, TERMINATOR, 0) != n {
        return Err(EngineError::MalformedRecord);
    }
    let key = copy_range(line, 0, at);
    let value = copy_range(line, at + 1, n);
    Ok(Record { key, value })
}

} // verus!
