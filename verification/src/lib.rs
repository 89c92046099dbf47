//! A minimal log-structured key-value storage engine.
//!
//! Records are lines of text, a key and a value, in append-only segments. A
//! write appends to the newest segment; a read takes the newest record of
//! its key; compaction drops the records that newer ones have replaced. The
//! engine holds the contents of its segments and tells its caller, with each
//! write, what to add to the segment files.
//!
//! The modules, from the leaves up: `bytes` and `codec` for records, `scan`
//! for the records of a segment, `segment`, `index` and `log` for the
//! segments with their indexes, `compaction`, `store` for the whole, `laws`
//! for what holds of it, `replacement` for the steps that put new segment
//! files in the place of old ones, and `text`, `engine`, `command` and
//! `server` for what a caller sees.

pub mod bytes;
pub mod codec;
pub mod command;
pub mod compaction;
pub mod engine;
pub mod error;
pub mod index;
pub mod laws;
pub mod log;
pub mod replacement;
pub mod scan;
pub mod segment;
pub mod server;
pub mod store;
pub mod text;
