//! The failures that the engine reports.

use vstd::prelude::*;

verus! {

/// What can go wrong in an engine operation.
#[derive(Clone, Copy, Debug, PartialEq, Eq, Structural)]
pub enum EngineError {
    /// A segment file could not be opened, created, read or written.
    IoFailure,
    /// An index offset leads to a record whose key is not the key looked up.
    IndexCorruption,
    /// A line does not hold exactly one key and one value.
    MalformedRecord,
}

} // verus!
