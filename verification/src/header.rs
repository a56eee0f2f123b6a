//! The fixed-size prologue of a container file.

use vstd::prelude::*;

use crate::errors::PatchError;

verus! {

/// Length of the magic sequence at the start of every container file.
/// The magic itself is opaque to the patch engine; it is copied through.
pub const MAGIC_LEN: usize = 4;

/// Byte position of the version field.
pub const VERSION_POS: usize = 4;

/// Byte position of the encryption flag.
pub const FLAG_POS: usize = 5;

/// First byte position after the header, where the offset table starts.
pub const HEADER_END: usize = 6;

/// The two header bytes that follow the magic.
#[derive(Clone, Copy, Debug, PartialEq, Eq, Structural)]
pub struct Header {
    /// Container format version.  The offset table carries an entry for the
    /// extra table exactly when `version > 3`.
    pub version: u8,
    /// Encryption flag.  Read and copied through, never interpreted here.
    pub encryption_flag: u8,
}

/// What `parse_header` returns: the two bytes after the magic, read as
/// version and encryption flag, consuming two bytes; `None` when the buffer
/// cannot hold magic and header.
pub open spec fn spec_parse_header(b: Seq<u8>) -> Option<(int, Header)> {
    if b.len() < HEADER_END {
        None
    } else {
        Some(
            (
                (HEADER_END - MAGIC_LEN) as int,
                Header { version: b[VERSION_POS as int], encryption_flag: b[FLAG_POS as int] },
            ),
        )
    }
}

/// Reads the header of the full file buffer `buf`, at its fixed position
/// right after the magic.  Returns the number of bytes consumed (past the
/// magic) and the header; fails with `MalformedHeader` on a buffer too short
/// to hold both.
pub fn parse_header(buf: &Vec<u8>) -> (r: Result<(usize, Header), PatchError>)
    ensures
        match r {
            Ok(p) => spec_parse_header(buf@) == Some((p.0 as int, p.1)),
            Err(e) => spec_parse_header(buf@) is None && e == PatchError::MalformedHeader,
        },
{
    if buf.len() < HEADER_END {
        Err(PatchError::MalformedHeader)
    } else {
        Ok(
            (
                HEADER_END - MAGIC_LEN,
                Header { version: buf[VERSION_POS], encryption_flag: buf[FLAG_POS] },
            ),
        )
    }
}

} // verus!
