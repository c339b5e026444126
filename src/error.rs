//! Failures of the trapping computation.

use vstd::prelude::*;

verus! {

/// Why a run of the trapping computation stopped.
#[derive(Debug, Clone, Copy, PartialEq, Eq, Structural)]
pub enum TrapError {
    /// A plate image could not be decoded.
    DecodeError,
    /// A plate image's size differs from the job's declared size.
    SizeMismatch,
    /// A configured color has no matching file entry.
    MissingFileDescriptor,
    /// A trap image could not be encoded.
    EncodeError,
}

} // verus!
