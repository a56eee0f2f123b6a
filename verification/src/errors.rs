//! Error taxonomy of the patch engine.

use vstd::prelude::*;

verus! {

/// Everything that can go wrong while patching a container in memory.
/// Each variant is fatal for the whole operation: no output is produced.
#[derive(Clone, Copy, Debug, PartialEq, Eq, Structural)]
pub enum PatchError {
    /// The buffer is too short to hold the magic and the two header bytes.
    MalformedHeader,
    /// The offset table is truncated, an entry places its data region at or
    /// before its offset array, the recorded string-table positions disagree
    /// with the table found there, a later table does not lie behind the
    /// string table, or a corrected offset field would not fit its width.
    MalformedOffsets,
    /// The string table is truncated, its offset array disagrees with its
    /// length array, or an entry is not valid UTF-8.
    CorruptStringTable,
    /// A patch key does not denote an index below the entry count.
    IndexOutOfRange,
}

impl PatchError {
    /// A short human-readable description, for callers that report failures.
    pub fn describe(&self) -> (r: &'static str)
        ensures
            r@ == self.spec_describe(),
    {
        match self {
            PatchError::MalformedHeader => "malformed header",
            PatchError::MalformedOffsets => "malformed offset table",
            PatchError::CorruptStringTable => "corrupt string table",
            PatchError::IndexOutOfRange => "patch key out of range",
        }
    }

    /// What `describe` returns, for use in contracts.
    pub open spec fn spec_describe(&self) -> Seq<char> {
        match self {
            PatchError::MalformedHeader => "malformed header"@,
            PatchError::MalformedOffsets => "malformed offset table"@,
            PatchError::CorruptStringTable => "corrupt string table"@,
            PatchError::IndexOutOfRange => "patch key out of range"@,
        }
    }
}

} // verus!
