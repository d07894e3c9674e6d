//! The archive engine's error taxonomy.
//!
//! Every failure aborts the whole pack or extract operation; there is no
//! retry or partial-success mode.

use vstd::prelude::*;

verus! {

/// Why a pack, encode or parse operation failed.
#[derive(Debug, Clone, Copy, PartialEq, Eq, Structural)]
pub enum ArchiveError {
    /// A degenerate input to the slice sizer: a zero-byte file, or a file
    /// whose recorded chunk size is zero.
    DomainError,
    /// A file needs more chunks than the header's one-byte pointer-count
    /// field can record, or the header grew past the offset field's range.
    CapacityError,
    /// A truncated or malformed header was met while reading an archive.
    ParseError,
}

impl ArchiveError {
    /// A short human-readable description of the error.
    pub fn describe(&self) -> (r: &'static str)
        ensures
            *self is DomainError ==> r@ == "zero-byte input has no chunk size"@,
            *self is CapacityError ==> r@ == "archive capacity exceeded"@,
            *self is ParseError ==> r@ == "truncated or malformed archive"@,
    {
        match self {
            ArchiveError::DomainError => "zero-byte input has no chunk size",
            ArchiveError::CapacityError => "archive capacity exceeded",
            ArchiveError::ParseError => "truncated or malformed archive",
        }
    }
}

} // verus!
