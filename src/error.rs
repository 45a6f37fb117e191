//! Errors of the store's own logic.

use vstd::prelude::*;

verus! {

#[verifier::external_type_specification]
#[verifier::external_body]
pub struct ExJsonError(serde_json::Error);

/// What went wrong while reading stored data.
#[derive(Debug)]
pub enum NdbError {
    /// A structured record (an index, a descriptor) did not decode.
    Serde(serde_json::Error),
    /// A line of the write-ahead log that is not its last one did not decode.
    CorruptLog { line: usize },
    /// A record of a sorted run is cut short by the end of its data.
    CorruptData,
    /// A sparse index whose keys are not strictly ascending.
    UnsortedIndex,
    /// A record too long for the 4-byte lengths of the format.
    TooLarge,
}

} // verus!
