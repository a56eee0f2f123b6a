//! Tests of the byte-level container codec and the patch engine.

use scn_patch::errors::PatchError;
use scn_patch::header::parse_header;
use scn_patch::offsets::parse_offsets;
use scn_patch::offsets::parse_offsets_at;
use scn_patch::offsets::write_offsets;
use scn_patch::patch::apply_patch;
use scn_patch::patch::PatchSet;
use scn_patch::strings::read_strings;
use scn_patch::strings::write_strings;

fn push_u32(v: &mut Vec<u8>, x: u32) {
    v.extend_from_slice(&x.to_le_bytes());
}

fn string_table(strings: &[&[u8]]) -> Vec<u8> {
    let mut out = Vec::new();
    push_u32(&mut out, strings.len() as u32);
    let mut off: u32 = 0;
    for s in strings {
        push_u32(&mut out, off);
        off += s.len() as u32;
    }
    for s in strings {
        push_u32(&mut out, s.len() as u32);
    }
    for s in strings {
        out.extend_from_slice(s);
    }
    out
}

/// A whole container file: magic, header, offset table, filler up to `p`,
/// the string table, then `suffix` standing for the resource region.
fn container(version: u8, p: u32, strings: &[&[u8]], suffix: &[u8]) -> Vec<u8> {
    let n = strings.len() as u32;
    let table = string_table(strings);
    let end = p + table.len() as u32;
    let mut out = Vec::new();
    out.extend_from_slice(b"PSB\0");
    out.push(version);
    out.push(0);
    push_u32(&mut out, p);
    push_u32(&mut out, p + 4 + 8 * n);
    push_u32(&mut out, p + 4 + 4 * n);
    push_u32(&mut out, end);
    push_u32(&mut out, end + 8);
    push_u32(&mut out, end + 4);
    if version > 3 {
        push_u32(&mut out, end + 2);
        push_u32(&mut out, end + 10);
        push_u32(&mut out, end + 6);
    }
    assert!(out.len() <= p as usize);
    while out.len() < p as usize {
        out.push(0xEE);
    }
    out.extend_from_slice(&table);
    out.extend_from_slice(suffix);
    out
}

fn patch_of(pairs: &[(&[u8], &[u8])]) -> PatchSet {
    let mut ps = PatchSet::new();
    for (k, v) in pairs {
        assert!(ps.push(k.to_vec(), v.to_vec()));
    }
    ps
}

#[test]
fn header_reads_version_and_flag() {
    let raw = vec![0x50, 0x53, 0x42, 0x00, 7, 1];
    let (consumed, h) = parse_header(&raw).unwrap();
    assert_eq!(consumed, 2);
    assert_eq!(h.version, 7);
    assert_eq!(h.encryption_flag, 1);
}

#[test]
fn header_too_short_is_malformed() {
    let raw = vec![0x50, 0x53, 0x42, 0x00, 7];
    assert_eq!(parse_header(&raw), Err(PatchError::MalformedHeader));
}

#[test]
fn offsets_round_trip_low_version() {
    let raw = container(2, 40, &[b"Alice", b"Bob"], b"rest");
    let (consumed, t) = parse_offsets_at(2, &raw, 6).unwrap();
    assert_eq!(consumed, 24);
    assert!(t.extra.is_none());
    let bytes = write_offsets(2, &t);
    assert_eq!(&bytes[..], &raw[6..30]);
}

#[test]
fn offsets_round_trip_high_version() {
    let raw = container(5, 60, &[b"Alice", b"Bob"], b"rest");
    let (consumed, t) = parse_offsets_at(5, &raw, 6).unwrap();
    assert_eq!(consumed, 36);
    assert!(t.extra.is_some());
    let bytes = write_offsets(5, &t);
    assert_eq!(&bytes[..], &raw[6..42]);
}

#[test]
fn offsets_truncated_is_malformed() {
    let mut raw = container(2, 40, &[b"A"], b"");
    raw.truncate(20);
    assert_eq!(parse_offsets_at(2, &raw, 6), Err(PatchError::MalformedOffsets));
}

#[test]
fn offsets_inverted_entry_is_malformed() {
    // data region at or before the offset array
    let mut frag = Vec::new();
    push_u32(&mut frag, 50);
    push_u32(&mut frag, 50);
    push_u32(&mut frag, 70);
    push_u32(&mut frag, 100);
    push_u32(&mut frag, 120);
    push_u32(&mut frag, 110);
    assert_eq!(parse_offsets(2, &frag), Err(PatchError::MalformedOffsets));
}

#[test]
fn string_table_exact_bytes() {
    let strings = vec![b"A".to_vec(), b"BC".to_vec()];
    let (bytes, entry) = write_strings(&strings);
    let expected = vec![
        2, 0, 0, 0, // count
        0, 0, 0, 0, // offset of "A"
        1, 0, 0, 0, // offset of "BC"
        1, 0, 0, 0, // length of "A"
        2, 0, 0, 0, // length of "BC"
        0x41, 0x42, 0x43, // "ABC"
    ];
    assert_eq!(bytes, expected);
    assert_eq!(entry.offset_pos, 0);
    assert_eq!(entry.lengths_pos, 12);
    assert_eq!(entry.data_pos, 20);
    let (consumed, back) = read_strings(0, &bytes).unwrap();
    assert_eq!(consumed, bytes.len());
    assert_eq!(back, strings);
}

#[test]
fn string_table_bad_offset_array_is_corrupt() {
    let strings = vec![b"A".to_vec(), b"BC".to_vec()];
    let (mut bytes, _) = write_strings(&strings);
    bytes[8] = 9; // offset of the second entry no longer matches the lengths
    assert_eq!(read_strings(0, &bytes), Err(PatchError::CorruptStringTable));
}

#[test]
fn string_table_truncated_is_corrupt() {
    let strings = vec![b"A".to_vec(), b"BC".to_vec()];
    let (mut bytes, _) = write_strings(&strings);
    bytes.truncate(bytes.len() - 1);
    assert_eq!(read_strings(0, &bytes), Err(PatchError::CorruptStringTable));
}

#[test]
fn string_table_invalid_utf8_is_corrupt() {
    let raw = container(2, 40, &[b"\xFF\xFE", b"ok"], b"suffix");
    let ps = PatchSet::new();
    assert_eq!(apply_patch(&raw, &ps), Err(PatchError::CorruptStringTable));
}

#[test]
fn empty_patch_is_identity_low_version() {
    let raw = container(2, 40, &[b"Alice", b"Bob"], b"resource bytes here");
    let ps = PatchSet::new();
    assert_eq!(apply_patch(&raw, &ps), Ok(raw));
}

#[test]
fn empty_patch_is_identity_high_version() {
    let raw = container(5, 60, &[b"Alice", b"Bob"], b"resource bytes here");
    let ps = PatchSet::new();
    assert_eq!(apply_patch(&raw, &ps), Ok(raw));
}

#[test]
fn patch_replaces_one_entry() {
    // a 2-entry table ["Alice", "Bob"]; the patch {"1": "Robert"} grows the
    // table by len("Robert") - len("Bob") = 3 and moves the resource entry
    // by exactly that
    let suffix = b"0123456789abcdef";
    let raw = container(2, 40, &[b"Alice", b"Bob"], suffix);
    let ps = patch_of(&[(b"1", b"Robert")]);
    let out = apply_patch(&raw, &ps).unwrap();
    assert_eq!(out.len(), raw.len() + 3);
    // the patched string table reads back with entry 1 replaced
    let (_, strings) = read_strings(40, &out).unwrap();
    assert_eq!(strings, vec![b"Alice".to_vec(), b"Robert".to_vec()]);
    // every offset field of the resource entry moved by the delta
    let (_, t_in) = parse_offsets_at(2, &raw, 6).unwrap();
    let (_, t_out) = parse_offsets_at(2, &out, 6).unwrap();
    assert_eq!(t_out.resources.offset_pos, t_in.resources.offset_pos + 3);
    assert_eq!(t_out.resources.data_pos, t_in.resources.data_pos + 3);
    assert_eq!(t_out.resources.lengths_pos, t_in.resources.lengths_pos + 3);
    // the string-table entry itself is unchanged: same position, same count
    assert_eq!(t_out.strings, t_in.strings);
    // bytes outside the offset table and the splice are untouched
    assert_eq!(&out[..6], &raw[..6]);
    assert_eq!(&out[30..40], &raw[30..40]);
    assert_eq!(&out[out.len() - suffix.len()..], suffix);
}

#[test]
fn patch_shrinking_entry_moves_tables_back() {
    let suffix = b"resource region";
    let raw = container(2, 40, &[b"Alice", b"Bob"], suffix);
    let ps = patch_of(&[(b"1", b"B")]);
    let out = apply_patch(&raw, &ps).unwrap();
    assert_eq!(out.len(), raw.len() - 2);
    let (_, strings) = read_strings(40, &out).unwrap();
    assert_eq!(strings, vec![b"Alice".to_vec(), b"B".to_vec()]);
    let (_, t_in) = parse_offsets_at(2, &raw, 6).unwrap();
    let (_, t_out) = parse_offsets_at(2, &out, 6).unwrap();
    assert_eq!(t_out.resources.offset_pos, t_in.resources.offset_pos - 2);
    assert_eq!(&out[out.len() - suffix.len()..], suffix);
}

#[test]
fn patch_key_out_of_range_fails() {
    let raw = container(2, 40, &[b"Alice", b"Bob"], b"suffix");
    let ps = patch_of(&[(b"5", b"Robert")]);
    assert_eq!(apply_patch(&raw, &ps), Err(PatchError::IndexOutOfRange));
}

#[test]
fn patch_key_not_a_number_fails() {
    let raw = container(2, 40, &[b"Alice", b"Bob"], b"suffix");
    let ps = patch_of(&[(b"x1", b"Robert")]);
    assert_eq!(apply_patch(&raw, &ps), Err(PatchError::IndexOutOfRange));
}

#[test]
fn later_entry_wins_on_same_index() {
    let raw = container(2, 40, &[b"Alice", b"Bob"], b"suffix");
    let ps = patch_of(&[(b"1", b"Robert"), (b"1", b"Bobby")]);
    let out = apply_patch(&raw, &ps).unwrap();
    let (_, strings) = read_strings(40, &out).unwrap();
    assert_eq!(strings[1], b"Bobby".to_vec());
}

#[test]
fn unpatched_index_is_stable() {
    let raw = container(2, 40, &[b"Alice", b"Bob"], b"suffix");
    let (_, before) = read_strings(40, &raw).unwrap();
    let ps = patch_of(&[(b"0", b"Al")]);
    let out = apply_patch(&raw, &ps).unwrap();
    let (_, after) = read_strings(40, &out).unwrap();
    assert_eq!(after.len(), before.len());
    assert_eq!(after[1], before[1]);
    assert_eq!(after[0], b"Al".to_vec());
}

#[test]
fn low_version_never_has_extra_entry() {
    // version <= 3: no extra entry parses, none is written, and patching
    // shifts nothing besides the resource entry
    let raw = container(3, 40, &[b"Alice", b"Bob"], b"suffix");
    let (consumed, t) = parse_offsets_at(3, &raw, 6).unwrap();
    assert_eq!(consumed, 24);
    assert!(t.extra.is_none());
    let ps = patch_of(&[(b"1", b"Robert")]);
    let out = apply_patch(&raw, &ps).unwrap();
    let (_, t_out) = parse_offsets_at(3, &out, 6).unwrap();
    assert!(t_out.extra.is_none());
    assert_eq!(write_offsets(3, &t_out).len(), 24);
}

#[test]
fn high_version_extra_entry_is_shifted() {
    let raw = container(5, 60, &[b"Alice", b"Bob"], b"suffix");
    let ps = patch_of(&[(b"1", b"Robert")]);
    let out = apply_patch(&raw, &ps).unwrap();
    let (_, t_in) = parse_offsets_at(5, &raw, 6).unwrap();
    let (_, t_out) = parse_offsets_at(5, &out, 6).unwrap();
    let e_in = t_in.extra.unwrap();
    let e_out = t_out.extra.unwrap();
    assert_eq!(e_out.offset_pos, e_in.offset_pos + 3);
    assert_eq!(e_out.data_pos, e_in.data_pos + 3);
    assert_eq!(e_out.lengths_pos, e_in.lengths_pos + 3);
}

#[test]
fn too_short_for_header_fails() {
    let raw = vec![0x50, 0x53, 0x42, 0x00, 2];
    let ps = PatchSet::new();
    assert_eq!(apply_patch(&raw, &ps), Err(PatchError::MalformedHeader));
}

#[test]
fn truncated_offset_table_fails() {
    let mut raw = container(2, 40, &[b"Alice"], b"suffix");
    raw.truncate(25);
    let ps = PatchSet::new();
    assert_eq!(apply_patch(&raw, &ps), Err(PatchError::MalformedOffsets));
}

#[test]
fn strings_table_in_offset_region_fails() {
    let mut raw = container(2, 40, &[b"Alice"], b"suffix");
    // move the recorded string-table start into the offset table itself
    raw[6..10].copy_from_slice(&10u32.to_le_bytes());
    let ps = PatchSet::new();
    assert_eq!(apply_patch(&raw, &ps), Err(PatchError::MalformedOffsets));
}

#[test]
fn inconsistent_strings_entry_fails() {
    let mut raw = container(2, 40, &[b"Alice"], b"suffix");
    // the recorded data position no longer matches the table found at 40
    let wrong: u32 = 40 + 4 + 8 + 1;
    raw[10..14].copy_from_slice(&wrong.to_le_bytes());
    let ps = PatchSet::new();
    assert_eq!(apply_patch(&raw, &ps), Err(PatchError::MalformedOffsets));
}

#[test]
fn resource_table_in_front_of_splice_fails() {
    let mut raw = container(2, 40, &[b"Alice"], b"suffix");
    // resources inside the string table region
    raw[18..22].copy_from_slice(&41u32.to_le_bytes());
    raw[22..26].copy_from_slice(&45u32.to_le_bytes());
    let ps = PatchSet::new();
    assert_eq!(apply_patch(&raw, &ps), Err(PatchError::MalformedOffsets));
}

#[test]
fn truncated_string_table_fails() {
    let mut raw = container(2, 40, &[b"Alice"], b"");
    raw.truncate(43);
    let ps = PatchSet::new();
    assert_eq!(apply_patch(&raw, &ps), Err(PatchError::CorruptStringTable));
}

#[test]
fn patch_set_rejects_invalid_utf8_text() {
    let mut ps = PatchSet::new();
    assert!(!ps.push(b"0".to_vec(), vec![0xFF]));
    assert_eq!(ps.len(), 0);
    assert!(ps.push(b"0".to_vec(), b"fine".to_vec()));
    assert_eq!(ps.len(), 1);
}

#[test]
fn multibyte_replacement_text_round_trips() {
    let raw = container(2, 40, &[b"Alice", b"Bob"], b"suffix");
    // "B\xC3\xA9b\xC3\xA9": four scalar values, six bytes
    let ps = patch_of(&[(b"1", b"B\xC3\xA9b\xC3\xA9")]);
    let out = apply_patch(&raw, &ps).unwrap();
    let (_, strings) = read_strings(40, &out).unwrap();
    assert_eq!(strings[1], b"B\xC3\xA9b\xC3\xA9".to_vec());
    assert_eq!(out.len(), raw.len() + 3);
}
