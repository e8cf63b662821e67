use vstd::prelude::*;

use crate::signature::FileKind;

verus! {

/// Errors reported by the carver.
#[derive(Debug, Clone, Copy, PartialEq, Eq, Structural)]
pub enum CarverError {
    /// No header was found for the signature of `kind`.
    SignatureNotFound { kind: FileKind },
    /// A header of `kind` at `header_offset` has no footer.
    FooterNotFound { kind: FileKind, header_offset: usize },
    /// The byte range `[start, end)` is empty or inverted.
    InvalidRange { start: u64, end: u64 },
    /// The source ended with `remaining` bytes still to copy for the file at
    /// `offset_start`.
    ExtractionFailed { remaining: u64, offset_start: u64 },
}

} // verus!
