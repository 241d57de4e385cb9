//! Error kinds reported by the revision log and the archive container.

use vstd::prelude::*;

verus! {

/// Why an archive was rejected as corrupt.
#[derive(Clone, Copy, Debug, PartialEq, Eq, Structural)]
pub enum CorruptReason {
    /// The file is shorter than the fixed-size index record.
    TruncatedIndex,
    /// A region offset lies outside the file or regions are out of order.
    RegionOutOfRange,
    /// The training-data region does not hold a tag and a framed payload.
    BadTrainingData,
    /// A text payload is not valid UTF-8.
    InvalidText,
    /// The revision header region is not a whole number of header records.
    BadHeaderRegion,
    /// The revision header region holds no record.
    EmptyHeaderRegion,
    /// An entry does not decode within the bytes its header assigns to it.
    BadEntry,
    /// The entries region is not exactly covered by the header lengths.
    BadEntryRegion,
}

/// Failures of revision-log and archive operations.
#[derive(Clone, Copy, Debug, PartialEq, Eq, Structural)]
pub enum MdaError {
    /// The archive bytes do not follow the container layout.
    CorruptArchive(CorruptReason),
    /// The requested revision does not exist.
    RevisionNotFound,
    /// The training-data tag names no known media kind.
    MediaKindUnknown,
    /// An underlying read, write or seek failed.
    Io,
    /// The revision log breaks one of its structural invariants.
    InvariantViolated,
    /// A value does not fit the fixed-width field that must carry it.
    LimitExceeded,
}

} // verus!
