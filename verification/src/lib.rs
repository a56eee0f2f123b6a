//! In-place string-table patching for a binary container format.
//!
//! The container holds a fixed magic, a two-byte header, an offset table,
//! a string table, a resource table, an optional extra table and the encoded
//! object graph.  This crate edits individual string-table entries on the raw
//! bytes: it splices a rebuilt string table into the buffer and corrects every
//! offset field that points behind the patched region, leaving all other
//! bytes untouched.

pub mod errors;
pub mod header;
pub mod le_bytes;
pub mod offsets;
pub mod patch;
pub mod strings;
pub mod values;
pub mod utf8;
