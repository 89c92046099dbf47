//! The commands of the command loop: a line of input is a request to get a
//! key, to put a value for a key, or to quit; any other line is ignored.

use vstd::prelude::*;
use vstd::slice::slice_subrange;
use vstd::string::*;
use vstd::utf8::{decode_utf8, encode_utf8, valid_utf8};
use crate::bytes::{copy_range, find, find_byte, lemma_find_byte, same};
use crate::scan::lemma_find_byte_shift;
use crate::text::{bytes_of, text_of};

verus! {

/// The byte that parts the words of a command: a space.
pub const SPACE: u8 = 32;

/// A command with its arguments as text.
#[derive(Debug, PartialEq, Eq)]
pub enum Command {
    /// Read the value of a key.
    Get(String),
    /// Write a value for a key.
    Put(String, String),
    /// End the loop.
    Quit,
    /// No command: the line is ignored.
    Unknown,
}

/// What a line asks for, with its arguments as bytes.
pub enum Request {
    /// Read the value of a key.
    Get(Seq<u8>),
    /// Write a value for a key.
    Put(Seq<u8>, Seq<u8>),
    /// End the loop.
    Quit,
    /// Nothing.
    Unknown,
}

/// Whether a byte is white space of ASCII: a space, a tab, a line feed, a
/// vertical tab, a form feed or a carriage return.
pub open spec fn is_space(b: u8) -> bool {
    b == 32 || 9 <= b <= 13
}

/// Bytes without the white space at their start.
pub open spec fn trim_front(bytes: Seq<u8>) -> Seq<u8>
    decreases bytes.len(),
{
    if bytes.len() > 0 && is_space(bytes.first()) {
        trim_front(bytes.drop_first())
    } else {
        bytes
    }
}

/// Bytes without the white space at their end.
pub open spec fn trim_back(bytes: Seq<u8>) -> Seq<u8>
    decreases bytes.len(),
{
    if bytes.len() > 0 && is_space(bytes.last()) {
        trim_back(bytes.drop_last())
    } else {
        bytes
    }
}

/// Bytes without the white space at both ends.
pub open spec fn trimmed(bytes: Seq<u8>) -> Seq<u8> {
    trim_back(trim_front(bytes))
}

/// The words of `bytes`: the runs of bytes between one `separator` and the
/// next. Two separators in a row have an empty word between them.
pub open spec fn split(bytes: Seq<u8>, separator: u8) -> Seq<Seq<u8>>
    decreases bytes.len(),
{
    let at = find_byte(bytes, separator, 0);
    if at >= bytes.len() {
        seq![bytes]
    } else {
        proof {
            lemma_find_byte(bytes, separator, 0);
        }
        seq![bytes.subrange(0, at)] + split(bytes.subrange(at + 1, bytes.len() as int), separator)
    }
}

/// The bytes of the word `get`.
pub open spec fn get_word() -> Seq<u8> {
    seq![103u8, 101u8, 116u8]
}

/// The bytes of the word `put`.
pub open spec fn put_word() -> Seq<u8> {
    seq![112u8, 117u8, 116u8]
}

/// The bytes of the word `quit`.
pub open spec fn quit_word() -> Seq<u8> {
    seq![113u8, 117u8, 105u8, 116u8]
}

/// The bytes of the word `q`.
pub open spec fn q_word() -> Seq<u8> {
    seq![113u8]
}

/// What words ask for: `get` with one more word, `put` with two more, and
/// `quit` or `q` alone are requests.
pub open spec fn request_of_words(words: Seq<Seq<u8>>) -> Request {
    if words.len() == 2 && words[0] == get_word() {
        Request::Get(words[1])
    } else if words.len() == 3 && words[0] == put_word() {
        Request::Put(words[1], words[2])
    } else if words.len() == 1 && (words[0] == quit_word() || words[0] == q_word()) {
        Request::Quit
    } else {
        Request::Unknown
    }
}

/// What the bytes of a line ask for: the line is trimmed and parted into
/// words at every space.
pub open spec fn request_of(line: Seq<u8>) -> Request {
    request_of_words(split(trimmed(line), SPACE))
}

/// Whether a byte is white space of ASCII.
pub fn space(b: u8) -> (white: bool)
    ensures
        white == is_space(b),
{
    b == 32 || (9 <= b && b <= 13)
}

/// Parts `bytes` into its words at every `separator`.
pub fn split_words(bytes: &[u8], separator: u8) -> (words: Vec<Vec<u8>>)
    ensures
        Seq::new(words@.len(), |i: int| words@[i]@) == split(bytes@, separator),
{
    let n = bytes.len();
    let mut words: Vec<Vec<u8>> = Vec::new();
    let mut from: usize = 0;
    assert(bytes@.subrange(0, n as int) =~= bytes@);
    assert(Seq::new(words@.len(), |i: int| words@[i]@) + split(bytes@, separator) =~= split(
        bytes@,
        separator,
    ));
    loop
        invariant_except_break
            from <= n,
            n == bytes@.len(),
            Seq::new(words@.len(), |i: int| words@[i]@) + split(
                bytes@.subrange(from as int, n as int),
                separator,
            ) == split(bytes@, separator),
        ensures
            Seq::new(words@.len(), |i: int| words@[i]@) == split(bytes@, separator),
        decreases n - from,
    {
        let ghost before = Seq::new(words@.len(), |i: int| words@[i]@);
        let ghost rest = bytes@.subrange(from as int, n as int);
        let at = find(bytes, separator, from);
        proof {
            lemma_find_byte(bytes@, separator, from as int);
            assert(bytes@ =~= bytes@.subrange(0, from as int) + rest);
            lemma_find_byte_shift(bytes@.subrange(0, from as int), rest, separator, 0);
            assert(find_byte(rest, separator, 0) == at - from);
            assert(rest.subrange(0, at - from) =~= bytes@.subrange(from as int, at as int));
        }
        words.push(copy_range(bytes, from, at));
        assert(Seq::new(words@.len(), |i: int| words@[i]@) =~= before.push(
            bytes@.subrange(from as int, at as int),
        ));
        if at >= n {
            assert(rest.subrange(0, at - from) =~= rest);
            assert(before.push(rest) =~= before + seq![rest]);
            break;
        }
        proof {
            assert(rest.subrange(at - from + 1, rest.len() as int) =~= bytes@.subrange(
                at + 1,
                n as int,
            ));
            assert(before.push(bytes@.subrange(from as int, at as int)) + split(
                bytes@.subrange(at + 1, n as int),
                separator,
            ) =~= before + (seq![bytes@.subrange(from as int, at as int)] + split(
                bytes@.subrange(at + 1, n as int),
                separator,
            )));
        }
        from = at + 1;
    }
    words
}

fn word_of_get() -> (word: Vec<u8>)
    ensures
        word@ == get_word(),
{
    let mut word: Vec<u8> = Vec::new();
    word.push(103);
    word.push(101);
    word.push(116);
    assert(word@ =~= get_word());
    word
}

fn word_of_put() -> (word: Vec<u8>)
    ensures
        word@ == put_word(),
{
    let mut word: Vec<u8> = Vec::new();
    word.push(112);
    word.push(117);
    word.push(116);
    assert(word@ =~= put_word());
    word
}

fn word_of_quit() -> (word: Vec<u8>)
    ensures
        word@ == quit_word(),
{
    let mut word: Vec<u8> = Vec::new();
    word.push(113);
    word.push(117);
    word.push(105);
    word.push(116);
    assert(word@ =~= quit_word());
    word
}

fn word_of_q() -> (word: Vec<u8>)
    ensures
        word@ == q_word(),
{
    let mut word: Vec<u8> = Vec::new();
    word.push(113);
    assert(word@ =~= q_word());
    word
}

/// Whether a command is what a request asks for, with the bytes of the
/// request read as text. A request with a word that is no text is no
/// command.
pub open spec fn is_command_of(command: Command, request: Request) -> bool {
    match request {
        Request::Get(key) => if valid_utf8(key) {
            command matches Command::Get(k) && k@ == decode_utf8(key)
        } else {
            command is Unknown
        },
        Request::Put(key, value) => if valid_utf8(key) && valid_utf8(value) {
            command matches Command::Put(k, v) && k@ == decode_utf8(key) && v@ == decode_utf8(
                value,
            )
        } else {
            command is Unknown
        },
        Request::Quit => command is Quit,
        Request::Unknown => command is Unknown,
    }
}

/// Finds the bytes that are left when the white space at both ends is taken
/// away: they stand from the first place returned up to the second.
pub fn trim(bytes: &[u8]) -> (bounds: (usize, usize))
    ensures
        bounds.0 <= bounds.1 <= bytes@.len(),
        trimmed(bytes@) == bytes@.subrange(bounds.0 as int, bounds.1 as int),
{
    let n = bytes.len();
    let mut start: usize = 0;
    assert(bytes@.subrange(0, n as int) =~= bytes@);
    while start < n && space(bytes[start])
        invariant
            start <= n,
            n == bytes@.len(),
            trim_front(bytes@) == trim_front(bytes@.subrange(start as int, n as int)),
        decreases n - start,
    {
        assert(bytes@.subrange(start as int, n as int).drop_first() =~= bytes@.subrange(
            start + 1,
            n as int,
        ));
        start = start + 1;
    }
    let ghost front = bytes@.subrange(start as int, n as int);
    assert(trim_front(bytes@) == front);
    let mut end: usize = n;
    assert(front.subrange(0, end - start) =~= front);
    while end > start && space(bytes[end - 1])
        invariant
            start <= end <= n,
            n == bytes@.len(),
            front == bytes@.subrange(start as int, n as int),
            trim_back(front) == trim_back(front.subrange(0, end - start)),
        decreases end,
    {
        assert(front.subrange(0, end - start).drop_last() =~= front.subrange(0, end - start - 1));
        end = end - 1;
    }
    assert(front.subrange(0, end - start) =~= bytes@.subrange(start as int, end as int));
    (start, end)
}

/// Reads words as a command.
pub fn command_of_words(words: Vec<Vec<u8>>) -> (command: Command)
    ensures
        is_command_of(command, request_of_words(Seq::new(words@.len(), |i: int| words@[i]@))),
{
    let mut words = words;
    let ghost parts = Seq::new(words@.len(), |i: int| words@[i]@);
    let count = words.len();
    if count == 1 {
        let word = words.pop().unwrap();
        assert(word@ == parts[0]);
        if same(word.as_slice(), word_of_quit().as_slice()) || same(
            word.as_slice(),
            word_of_q().as_slice(),
        ) {
            Command::Quit
        } else {
            Command::Unknown
        }
    } else if count == 2 {
        let key = words.pop().unwrap();
        let word = words.pop().unwrap();
        assert(word@ == parts[0]);
        assert(key@ == parts[1]);
        if same(word.as_slice(), word_of_get().as_slice()) {
            match text_of(key) {
                Some(key) => Command::Get(key),
                None => Command::Unknown,
            }
        } else {
            Command::Unknown
        }
    } else if count == 3 {
        let value = words.pop().unwrap();
        let key = words.pop().unwrap();
        let word = words.pop().unwrap();
        assert(word@ == parts[0]);
        assert(key@ == parts[1]);
        assert(value@ == parts[2]);
        if same(word.as_slice(), word_of_put().as_slice()) {
            match text_of(key) {
                Some(key) => match text_of(value) {
                    Some(value) => Command::Put(key, value),
                    None => Command::Unknown,
                },
                None => Command::Unknown,
            }
        } else {
            Command::Unknown
        }
    } else {
        Command::Unknown
    }
}

/// Reads a line of input as a command.
pub fn parse_command(line: &str) -> (command: Command)
    ensures
        is_command_of(command, request_of(encode_utf8(line@))),
{
    let bytes = bytes_of(line);
    let (start, end) = trim(bytes.as_slice());
    let words = split_words(slice_subrange(bytes.as_slice(), start, end), SPACE);
    command_of_words(words)
}

} // verus!
