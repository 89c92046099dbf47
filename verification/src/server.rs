//! One turn of the command loop: a command is carried out on the engine, and
//! the outcome says what the loop has to print and to write to the files.

use vstd::prelude::*;
use vstd::utf8::encode_utf8;
use crate::codec::{encode_record, is_key, is_token};
use crate::command::Command;
use crate::compaction::written;
use crate::engine::Engine;
use crate::error::EngineError;
use crate::store::{receipt_for, WriteReceipt};
use crate::text::as_text;

verus! {

/// What came of a command.
#[derive(Debug, PartialEq, Eq)]
pub enum Outcome {
    /// The key has this value.
    Found(String),
    /// The key has no value.
    Missing,
    /// The read or the write failed.
    Failed(EngineError),
    /// The value was written; the receipt says where the record went.
    Stored(WriteReceipt),
    /// The engine was shut down, and the loop ends.
    Closed,
    /// The line was no command.
    Ignored,
}

/// What an outcome says of the value of a key, where it says anything.
pub open spec fn answer(outcome: Outcome) -> Option<Result<Option<Seq<char>>, EngineError>> {
    match outcome {
        Outcome::Found(value) => Some(Ok(Some(value@))),
        Outcome::Missing => Some(Ok(None)),
        Outcome::Failed(e) => Some(Err(e)),
        _ => None,
    }
}

/// Carries out a command on the engine. A read leaves the engine as it is;
/// a write changes it as the engine's own write does.
pub fn carry_out(engine: &mut Box<dyn Engine>, command: Command) -> (outcome: Outcome)
    requires
        old(engine).wf(),
    ensures
        final(engine).wf(),
        final(engine).limit() == old(engine).limit(),
        final(engine).retention() == old(engine).retention(),
        match command {
            Command::Get(key) => {
                &&& final(engine).segments() == old(engine).segments()
                &&& forall|k: Seq<u8>| #[trigger] final(engine).found(k) == old(engine).found(k)
                &&& answer(outcome) == Some(as_text(old(engine).found(encode_utf8(key@))))
            },
            Command::Put(key, value) => if is_key(encode_utf8(key@)) && is_token(
                encode_utf8(value@),
            ) {
                &&& outcome == Outcome::Stored(
                    receipt_for(
                        old(engine).segments(),
                        encode_record(encode_utf8(key@), encode_utf8(value@)),
                        old(engine).limit(),
                        old(engine).retention(),
                    ),
                )
                &&& final(engine).segments() == written(
                    old(engine).segments(),
                    encode_utf8(key@),
                    encode_utf8(value@),
                    old(engine).limit(),
                    old(engine).retention(),
                )
            } else {
                &&& outcome == Outcome::Failed(EngineError::MalformedRecord)
                &&& final(engine).segments() == old(engine).segments()
                &&& forall|k: Seq<u8>| #[trigger] final(engine).found(k) == old(engine).found(k)
            },
            Command::Quit => {
                &&& outcome is Closed
                &&& final(engine).segments() == old(engine).segments()
                &&& forall|k: Seq<u8>| #[trigger] final(engine).found(k) == old(engine).found(k)
            },
            Command::Unknown => {
                &&& outcome is Ignored
                &&& final(engine).segments() == old(engine).segments()
                &&& forall|k: Seq<u8>| #[trigger] final(engine).found(k) == old(engine).found(k)
            },
        },
{
    match command {
        Command::Get(key) => match engine.db_read(key) {
            Ok(Some(value)) => Outcome::Found(value),
            Ok(None) => Outcome::Missing,
            Err(e) => Outcome::Failed(e),
        },
        Command::Put(key, value) => match engine.db_write(key, value) {
            Ok(receipt) => Outcome::Stored(receipt),
            Err(e) => Outcome::Failed(e),
        },
        Command::Quit => {
            let _ = engine.shutdown();
            Outcome::Closed
        },
        Command::Unknown => Outcome::Ignored,
    }
}

} // verus!
