//! Text at the edge of the engine. Keys and values are given and returned as
//! text and stored as the bytes of their UTF-8 encoding; segment files are
//! named by their sequence numbers.

use vstd::prelude::*;
use vstd::string::*;
use vstd::utf8::{decode_utf8, encode_utf8, encode_utf8_decode_utf8, encode_utf8_valid_utf8, valid_utf8};
use crate::error::EngineError;

verus! {

/// `String::from_utf8` of the standard library: it accepts the bytes exactly
/// when they are well-formed UTF-8, and the text that it then returns is
/// made of these bytes.
#[verifier::external_body]
fn string_from_utf8(bytes: Vec<u8>) -> (text: Option<String>)
    ensures
        text is Some <==> valid_utf8(bytes@),
        text matches Some(s) ==> encode_utf8(s@) == bytes@,
{
    String::from_utf8(bytes).ok()
}

/// The bytes that stand for a text.
pub fn bytes_of(text: &str) -> (bytes: Vec<u8>)
    ensures
        bytes@ == encode_utf8(text@),
{
    text.as_bytes_vec()
}

/// The text that bytes stand for, where they are well-formed UTF-8.
pub fn text_of(bytes: Vec<u8>) -> (text: Option<String>)
    ensures
        match text {
            Some(s) => valid_utf8(bytes@) && s@ == decode_utf8(bytes@),
            None => !valid_utf8(bytes@),
        },
{
    match string_from_utf8(bytes) {
        Some(s) => {
            proof {
                encode_utf8_decode_utf8(s@);
            }
            Some(s)
        },
        None => None,
    }
}

/// What a lookup that found bytes returns as text. Bytes that are no text
/// cannot be read as text: that is a failure to read.
pub open spec fn as_text(found: Result<Option<Seq<u8>>, EngineError>) -> Result<
    Option<Seq<char>>,
    EngineError,
> {
    match found {
        Ok(Some(bytes)) => if valid_utf8(bytes) {
            Ok(Some(decode_utf8(bytes)))
        } else {
            Err(EngineError::IoFailure)
        },
        Ok(None) => Ok(None),
        Err(e) => Err(e),
    }
}

/// The mathematical value of what a read of text returns.
pub open spec fn text_view(r: Result<Option<String>, EngineError>) -> Result<
    Option<Seq<char>>,
    EngineError,
> {
    match r {
        Ok(Some(text)) => Ok(Some(text@)),
        Ok(None) => Ok(None),
        Err(e) => Err(e),
    }
}

/// A text that was stored as its bytes is read back as the same text.
pub proof fn law_text_reads_back(text: Seq<char>)
    ensures
        as_text(Ok(Some(encode_utf8(text)))) == Ok::<Option<Seq<char>>, EngineError>(Some(text)),
{
    encode_utf8_valid_utf8(text);
    encode_utf8_decode_utf8(text);
}

/// The character of a decimal digit.
pub open spec fn digit_char(digit: int) -> char {
    if digit == 0 {
        '0'
    } else if digit == 1 {
        '1'
    } else if digit == 2 {
        '2'
    } else if digit == 3 {
        '3'
    } else if digit == 4 {
        '4'
    } else if digit == 5 {
        '5'
    } else if digit == 6 {
        '6'
    } else if digit == 7 {
        '7'
    } else if digit == 8 {
        '8'
    } else {
        '9'
    }
}

/// A number in decimal digits, without leading zeros.
pub open spec fn decimal(number: nat) -> Seq<char>
    decreases number,
{
    if number < 10 {
        seq![digit_char(number as int)]
    } else {
        decimal(number / 10).push(digit_char((number % 10) as int))
    }
}

/// The path of the segment file with a sequence number: in the directory,
/// the letters `db`, the number in decimal, and the ending `.log`.
pub open spec fn segment_path(directory: Seq<char>, number: nat) -> Seq<char> {
    directory + seq!['/', 'd', 'b'] + decimal(number) + seq!['.', 'l', 'o', 'g']
}

fn digit_text(digit: u64) -> (text: &'static str)
    requires
        digit < 10,
    ensures
        text@ == seq![digit_char(digit as int)],
{
    proof {
        reveal_strlit("0");
        reveal_strlit("1");
        reveal_strlit("2");
        reveal_strlit("3");
        reveal_strlit("4");
        reveal_strlit("5");
        reveal_strlit("6");
        reveal_strlit("7");
        reveal_strlit("8");
        reveal_strlit("9");
    }
    let text = if digit == 0 {
        "0"
    } else if digit == 1 {
        "1"
    } else if digit == 2 {
        "2"
    } else if digit == 3 {
        "3"
    } else if digit == 4 {
        "4"
    } else if digit == 5 {
        "5"
    } else if digit == 6 {
        "6"
    } else if digit == 7 {
        "7"
    } else if digit == 8 {
        "8"
    } else {
        "9"
    };
    assert(text@ =~= seq![digit_char(digit as int)]);
    text
}

/// Writes a number in decimal digits.
pub fn decimal_text(number: u64) -> (text: String)
    ensures
        text@ == decimal(number as nat),
    decreases number,
{
    if number < 10 {
        String::from_str(digit_text(number))
    } else {
        let mut text = decimal_text(number / 10);
        text.append(digit_text(number % 10));
        assert(text@ =~= decimal(number as nat));
        text
    }
}

/// The path of the segment file with the sequence number `number` in
/// `directory`.
pub fn segment_file_path(directory: &str, number: u64) -> (path: String)
    ensures
        path@ == segment_path(directory@, number as nat),
{
    proof {
        reveal_strlit("/db");
        reveal_strlit(".log");
    }
    let mut path = String::from_str(directory);
    path.append("/db");
    path.append(decimal_text(number).as_str());
    path.append(".log");
    assert(path@ =~= segment_path(directory@, number as nat));
    path
}

} // verus!
