//! Error taxonomy of the memory engine.

use vstd::prelude::*;

use crate::pattern::PatternError;

verus! {

/// Everything that a memory operation can report.
///
/// All memory-safety preconditions (permission, commit state, overlap) are
/// checked before any mutation, so a failed operation never leaves memory
/// partially modified.
#[derive(Debug, Clone, PartialEq, Eq)]
pub enum MemoryError {
    /// A scan yielded zero matches; the payload is the pattern text.
    NotFound(String),
    /// Reserved for call sites that require exactly one match.
    MultipleMatchesFound,
    /// A read/write/quick-read size outside its valid range.
    InvalidSize(usize),
    /// No permission to read at the address.
    PagePermNoRead(usize),
    /// No permission to write at the address.
    PagePermNoWrite(usize),
    /// No permission to execute at the address.
    PagePermNoExecute(usize),
    /// The target page is not backed by committed memory.
    PageNotCommit(usize),
    /// The operating system refused to alter the page protection.
    ProtectionChangeFailed,
    /// The pattern text could not be parsed.
    PatternScan(PatternError),
    /// A patch overlapping the requested range is already tracked.
    PatchAlreadyExists(usize),
    /// The underlying permission or module query failed.
    OsQueryFailed,
}

} // verus!
