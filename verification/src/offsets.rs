//! The offset table: one position triple per variable-length table.

use vstd::bytes::lemma_auto_spec_u32_to_from_le_bytes;
use vstd::bytes::spec_u32_to_le_bytes;
use vstd::prelude::*;

use crate::errors::PatchError;
use crate::le_bytes::read_u32_at;
use crate::le_bytes::push_u32;
use crate::le_bytes::spec_le32_at;

verus! {

/// Serialized size of one offset entry.
pub const ENTRY_SIZE: usize = 12;

/// Three byte positions describing one table: where its per-entry offset
/// array starts, where its raw data region starts, and where its per-entry
/// length array starts.  All positions are absolute file positions.
#[derive(Clone, Copy, Debug, PartialEq, Eq, Structural)]
pub struct OffsetEntry {
    /// Start of the per-entry offset array (and of the table as a whole).
    pub offset_pos: u32,
    /// Start of the raw data region.
    pub data_pos: u32,
    /// Start of the per-entry length array.
    pub lengths_pos: u32,
}

/// The container's offset table: entries for the string table, the resource
/// table, and — only when the header version is above 3 — the extra table.
#[derive(Clone, Copy, Debug, PartialEq, Eq)]
pub struct OffsetTable {
    pub strings: OffsetEntry,
    pub resources: OffsetEntry,
    pub extra: Option<OffsetEntry>,
}

/// Structural invariant of a single entry: the offset array lies strictly
/// before the data region.
pub open spec fn entry_ok(e: OffsetEntry) -> bool {
    e.offset_pos < e.data_pos
}

/// The extra entry exists exactly when the version asks for it.
pub open spec fn table_matches_version(version: u8, t: OffsetTable) -> bool {
    t.extra is Some <==> version > 3
}

/// Serialized size of the whole offset table for `version`.
pub open spec fn spec_offsets_size(version: u8) -> int {
    if version > 3 {
        3 * ENTRY_SIZE as int
    } else {
        2 * ENTRY_SIZE as int
    }
}

/// The entry whose three fields are stored little-endian at `pos`.
pub open spec fn spec_entry_at(b: Seq<u8>, pos: int) -> OffsetEntry {
    OffsetEntry {
        offset_pos: spec_le32_at(b, pos),
        data_pos: spec_le32_at(b, pos + 4),
        lengths_pos: spec_le32_at(b, pos + 8),
    }
}

/// Serialization of one entry, in field order.
pub open spec fn spec_entry_bytes(e: OffsetEntry) -> Seq<u8> {
    spec_u32_to_le_bytes(e.offset_pos) + spec_u32_to_le_bytes(e.data_pos) + spec_u32_to_le_bytes(
        e.lengths_pos,
    )
}

/// Serialization of the whole table.  The extra entry is written only when
/// the version asks for it; for a lower version it is dropped.
pub open spec fn spec_table_bytes(version: u8, t: OffsetTable) -> Seq<u8> {
    spec_entry_bytes(t.strings) + spec_entry_bytes(t.resources) + (match t.extra {
        Some(e) => if version > 3 {
            spec_entry_bytes(e)
        } else {
            Seq::<u8>::empty()
        },
        None => Seq::<u8>::empty(),
    })
}

/// What parsing the offset table at `pos` of `b` yields: entries for the
/// string and resource tables, an extra entry only when `version > 3`, and
/// the number of bytes consumed.  `None` on a truncated region or when an
/// entry places its data region at or before its offset array.
pub open spec fn spec_parse_offsets(version: u8, b: Seq<u8>, pos: int) -> Option<
    (int, OffsetTable),
> {
    if pos < 0 || pos + spec_offsets_size(version) > b.len() {
        None
    } else {
        let t = OffsetTable {
            strings: spec_entry_at(b, pos),
            resources: spec_entry_at(b, pos + 12),
            extra: if version > 3 {
                Some(spec_entry_at(b, pos + 24))
            } else {
                None
            },
        };
        if entry_ok(t.strings) && entry_ok(t.resources) && (match t.extra {
            Some(e) => entry_ok(e),
            None => true,
        }) {
            Some((spec_offsets_size(version), t))
        } else {
            None
        }
    }
}

/// Reads one offset entry at `pos`.
fn read_entry_at(buf: &Vec<u8>, pos: usize) -> (e: OffsetEntry)
    requires
        pos + 12 <= buf.len(),
    ensures
        e == spec_entry_at(buf@, pos as int),
{
    OffsetEntry {
        offset_pos: read_u32_at(buf, pos),
        data_pos: read_u32_at(buf, pos + 4),
        lengths_pos: read_u32_at(buf, pos + 8),
    }
}

/// Parses the offset table stored at byte position `pos` of `buf`.
/// Fails with `MalformedOffsets` exactly when the model parse fails.
pub fn parse_offsets_at(version: u8, buf: &Vec<u8>, pos: usize) -> (r: Result<
    (usize, OffsetTable),
    PatchError,
>)
    ensures
        match r {
            Ok(p) => spec_parse_offsets(version, buf@, pos as int) == Some((p.0 as int, p.1))
                && table_matches_version(version, p.1),
            Err(e) => spec_parse_offsets(version, buf@, pos as int) is None && e
                == PatchError::MalformedOffsets,
        },
{
    let need: usize = if version > 3 {
        36
    } else {
        24
    };
    if buf.len() < need || pos > buf.len() - need {
        return Err(PatchError::MalformedOffsets);
    }
    let strings = read_entry_at(buf, pos);
    let resources = read_entry_at(buf, pos + 12);
    let extra: Option<OffsetEntry> = if version > 3 {
        Some(read_entry_at(buf, pos + 24))
    } else {
        None
    };
    if strings.offset_pos >= strings.data_pos || resources.offset_pos >= resources.data_pos {
        return Err(PatchError::MalformedOffsets);
    }
    match &extra {
        Some(e) => {
            if e.offset_pos >= e.data_pos {
                return Err(PatchError::MalformedOffsets);
            }
        },
        None => {},
    }
    Ok((need, OffsetTable { strings, resources, extra }))
}

/// Parses an offset table that stands at the start of `buf`, as a
/// re-serialized fragment does.
pub fn parse_offsets(version: u8, buf: &Vec<u8>) -> (r: Result<(usize, OffsetTable), PatchError>)
    ensures
        match r {
            Ok(p) => spec_parse_offsets(version, buf@, 0) == Some((p.0 as int, p.1))
                && table_matches_version(version, p.1),
            Err(e) => spec_parse_offsets(version, buf@, 0) is None && e
                == PatchError::MalformedOffsets,
        },
{
    parse_offsets_at(version, buf, 0)
}

/// Appends the serialization of one entry.
fn push_entry(out: &mut Vec<u8>, e: &OffsetEntry)
    ensures
        final(out)@ == old(out)@ + spec_entry_bytes(*e),
{
    push_u32(out, e.offset_pos);
    push_u32(out, e.data_pos);
    push_u32(out, e.lengths_pos);
    assert(out@ =~= old(out)@ + spec_entry_bytes(*e));
}

/// Re-serializes the offset table in the same field order and width that
/// `parse_offsets` reads.
pub fn write_offsets(version: u8, t: &OffsetTable) -> (out: Vec<u8>)
    requires
        table_matches_version(version, *t),
    ensures
        out@ == spec_table_bytes(version, *t),
        out@.len() == spec_offsets_size(version),
{
    let mut out: Vec<u8> = Vec::new();
    push_entry(&mut out, &t.strings);
    push_entry(&mut out, &t.resources);
    match &t.extra {
        Some(e) => {
            push_entry(&mut out, e);
        },
        None => {},
    }
    proof {
        lemma_auto_spec_u32_to_from_le_bytes();
        assert(out@ =~= spec_table_bytes(version, *t));
    }
    out
}

/// One parsed entry re-serializes to exactly the twelve bytes it was read
/// from.
proof fn lemma_entry_round_trip(b: Seq<u8>, pos: int)
    requires
        0 <= pos,
        pos + 12 <= b.len(),
    ensures
        spec_entry_bytes(spec_entry_at(b, pos)) == b.subrange(pos, pos + 12),
{
    lemma_auto_spec_u32_to_from_le_bytes();
    assert(spec_u32_to_le_bytes(spec_le32_at(b, pos)) == b.subrange(pos, pos + 4));
    assert(spec_u32_to_le_bytes(spec_le32_at(b, pos + 4)) == b.subrange(pos + 4, pos + 8));
    assert(spec_u32_to_le_bytes(spec_le32_at(b, pos + 8)) == b.subrange(pos + 8, pos + 12));
    assert(spec_entry_bytes(spec_entry_at(b, pos)) =~= b.subrange(pos, pos + 12));
}

/// Serialized size of a well-formed table's bytes.
pub proof fn lemma_table_bytes_len(version: u8, t: OffsetTable)
    requires
        table_matches_version(version, t),
    ensures
        spec_table_bytes(version, t).len() == spec_offsets_size(version),
{
    lemma_auto_spec_u32_to_from_le_bytes();
}

/// Parsing depends only on the offset-table bytes themselves: the same
/// extent at another position of another buffer parses to the same table.
pub proof fn lemma_parse_offsets_relocate(
    version: u8,
    b1: Seq<u8>,
    pos1: int,
    b2: Seq<u8>,
    pos2: int,
)
    requires
        spec_parse_offsets(version, b1, pos1) is Some,
        0 <= pos2,
        pos2 + spec_offsets_size(version) <= b2.len(),
        b2.subrange(pos2, pos2 + spec_offsets_size(version)) == b1.subrange(
            pos1,
            pos1 + spec_offsets_size(version),
        ),
    ensures
        spec_parse_offsets(version, b2, pos2) == spec_parse_offsets(version, b1, pos1),
{
    let sz = spec_offsets_size(version);
    let ext1 = b1.subrange(pos1, pos1 + sz);
    let ext2 = b2.subrange(pos2, pos2 + sz);
    assert forall|o: int| 0 <= o && o + 4 <= sz implies #[trigger] spec_le32_at(b2, pos2 + o)
        == spec_le32_at(b1, pos1 + o) by {
        assert(b2.subrange(pos2 + o, pos2 + o + 4) =~= ext2.subrange(o, o + 4));
        assert(b1.subrange(pos1 + o, pos1 + o + 4) =~= ext1.subrange(o, o + 4));
    };
    assert(spec_le32_at(b2, pos2 + 0) == spec_le32_at(b1, pos1 + 0));
    assert(spec_le32_at(b2, pos2 + 4) == spec_le32_at(b1, pos1 + 4));
    assert(spec_le32_at(b2, pos2 + 8) == spec_le32_at(b1, pos1 + 8));
    assert(spec_le32_at(b2, pos2 + 12) == spec_le32_at(b1, pos1 + 12));
    assert(spec_le32_at(b2, pos2 + 16) == spec_le32_at(b1, pos1 + 16));
    assert(spec_le32_at(b2, pos2 + 20) == spec_le32_at(b1, pos1 + 20));
    assert(spec_entry_at(b2, pos2) == spec_entry_at(b1, pos1));
    assert(spec_entry_at(b2, pos2 + 12) == spec_entry_at(b1, pos1 + 12));
    if version > 3 {
        assert(spec_le32_at(b2, pos2 + 24) == spec_le32_at(b1, pos1 + 24));
        assert(spec_le32_at(b2, pos2 + 28) == spec_le32_at(b1, pos1 + 28));
        assert(spec_le32_at(b2, pos2 + 32) == spec_le32_at(b1, pos1 + 32));
        assert(spec_entry_at(b2, pos2 + 24) == spec_entry_at(b1, pos1 + 24));
    }
}

/// Round trip: re-serializing a validly parsed offset table reproduces the
/// very bytes it was parsed from.
pub proof fn lemma_offsets_round_trip(version: u8, b: Seq<u8>, pos: int)
    requires
        spec_parse_offsets(version, b, pos) is Some,
    ensures
        ({
            let (l, t) = spec_parse_offsets(version, b, pos).unwrap();
            &&& table_matches_version(version, t)
            &&& spec_table_bytes(version, t) == b.subrange(pos, pos + l)
        }),
{
    let (l, t) = spec_parse_offsets(version, b, pos).unwrap();
    lemma_entry_round_trip(b, pos);
    lemma_entry_round_trip(b, pos + 12);
    if version > 3 {
        lemma_entry_round_trip(b, pos + 24);
    }
    assert(spec_table_bytes(version, t) =~= b.subrange(pos, pos + l));
}

/// Round trip the other way: a serialized table whose entries satisfy the
/// structural invariant parses back to itself.
pub proof fn lemma_offsets_parse_write(version: u8, t: OffsetTable)
    requires
        table_matches_version(version, t),
        entry_ok(t.strings),
        entry_ok(t.resources),
        match t.extra {
            Some(e) => entry_ok(e),
            None => true,
        },
    ensures
        spec_parse_offsets(version, spec_table_bytes(version, t), 0) == Some(
            (spec_offsets_size(version), t),
        ),
{
    lemma_auto_spec_u32_to_from_le_bytes();
    let b = spec_table_bytes(version, t);
    assert(b.len() == spec_offsets_size(version));
    assert(b.subrange(0, 4) =~= spec_u32_to_le_bytes(t.strings.offset_pos));
    assert(b.subrange(4, 8) =~= spec_u32_to_le_bytes(t.strings.data_pos));
    assert(b.subrange(8, 12) =~= spec_u32_to_le_bytes(t.strings.lengths_pos));
    assert(b.subrange(12, 16) =~= spec_u32_to_le_bytes(t.resources.offset_pos));
    assert(b.subrange(16, 20) =~= spec_u32_to_le_bytes(t.resources.data_pos));
    assert(b.subrange(20, 24) =~= spec_u32_to_le_bytes(t.resources.lengths_pos));
    if version > 3 {
        let e = t.extra.unwrap();
        assert(b.subrange(24, 28) =~= spec_u32_to_le_bytes(e.offset_pos));
        assert(b.subrange(28, 32) =~= spec_u32_to_le_bytes(e.data_pos));
        assert(b.subrange(32, 36) =~= spec_u32_to_le_bytes(e.lengths_pos));
        assert(spec_entry_at(b, 24) == e);
    }
    assert(spec_entry_at(b, 0) == t.strings);
    assert(spec_entry_at(b, 12) == t.resources);
}

} // verus!
