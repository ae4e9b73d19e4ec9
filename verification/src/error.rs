//! The failures that the library reports.

use vstd::prelude::*;

verus! {

/// Stored records that cannot be read. Loading stops at the first failure: no
/// record is skipped.
#[derive(Debug, Clone, Copy, PartialEq, Eq)]
pub enum ParseError {
    /// The text as a whole is not well-formed delimited text.
    Malformed,
    /// The record at this position, counted from zero, has fewer than four
    /// fields, or no hash, no name or no directory.
    MissingField(usize),
    /// The fourth field of the record at this position, counted from zero, is
    /// not a capture time: an optional `+`, then decimal digits, with a value
    /// that fits in 64 bits.
    BadTimestamp(usize),
}

/// A store that holds too few snapshots for what was asked of it.
#[derive(Debug, Clone, Copy, PartialEq, Eq)]
pub enum PreconditionError {
    /// The store holds no record, so it has no snapshot.
    NoSnapshot,
    /// All records of the store belong to one snapshot: there is no earlier
    /// one to compare it with.
    SingleSnapshot,
}

/// Why a comparison of stored records did not take place.
#[derive(Debug, Clone, Copy, PartialEq, Eq)]
pub enum DiffError {
    Parse(ParseError),
    Precondition(PreconditionError),
}

} // verus!
