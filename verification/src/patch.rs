//! The patch engine: applying an ordered set of string replacements to the
//! raw bytes of a container file.

use vstd::prelude::*;

use crate::errors::PatchError;
use crate::header::parse_header;
use crate::header::spec_parse_header;
use crate::header::HEADER_END;
use crate::le_bytes::append_range;
use crate::le_bytes::copy_bytes;
use crate::offsets::entry_ok;
use crate::offsets::lemma_offsets_parse_write;
use crate::offsets::lemma_offsets_round_trip;
use crate::offsets::lemma_parse_offsets_relocate;
use crate::offsets::lemma_table_bytes_len;
use crate::offsets::parse_offsets_at;
use crate::offsets::spec_offsets_size;
use crate::offsets::spec_parse_offsets;
use crate::offsets::spec_table_bytes;
use crate::offsets::write_offsets;
use crate::offsets::OffsetEntry;
use crate::offsets::OffsetTable;
use crate::strings::lens_of;
use crate::strings::lemma_prefix_in_range;
use crate::strings::lemma_read_strings_bounds;
use crate::strings::lemma_read_strings_relocate;
use crate::strings::lemma_read_strings_utf8;
use crate::strings::lemma_read_write_strings;
use crate::strings::lemma_sum_nonneg;
use crate::strings::lemma_sum_take_succ;
use crate::strings::lemma_write_read_strings;
use crate::strings::lemma_write_strings_len;
use crate::strings::read_strings;
use crate::strings::spec_frag_len;
use crate::strings::spec_read_strings;
use crate::strings::spec_write_strings;
use crate::strings::sum;
use crate::strings::write_strings;
use crate::utf8::is_utf8;
use crate::utf8::is_utf8_bytes;

verus! {

/// An ASCII decimal digit.
pub open spec fn is_digit(c: u8) -> bool {
    0x30 <= c <= 0x39
}

/// The number written by a sequence of decimal digits.
pub open spec fn digits_value(s: Seq<u8>) -> int
    decreases s.len(),
{
    if s.len() == 0 {
        0
    } else {
        digits_value(s.drop_last()) * 10 + (s.last() - 0x30)
    }
}

/// The index denoted by a patch key: its value when the key is one or more
/// decimal digits naming a number below 2^32, and nothing otherwise.  Entry
/// counts are 32-bit, so a larger number can never be a valid index.
pub open spec fn spec_parse_index(s: Seq<u8>) -> Option<int> {
    if s.len() == 0 || !(forall|i: int| 0 <= i < s.len() ==> is_digit(#[trigger] s[i]))
        || digits_value(s) > u32::MAX {
        None
    } else {
        Some(digits_value(s))
    }
}

/// A digit string names a non-negative number.
proof fn lemma_digits_nonneg(s: Seq<u8>)
    requires
        forall|k: int| 0 <= k < s.len() ==> is_digit(#[trigger] s[k]),
    ensures
        digits_value(s) >= 0,
    decreases s.len(),
{
    if s.len() > 0 {
        lemma_digits_nonneg(s.drop_last());
    }
}

/// Reading more digits never makes the number smaller.
proof fn lemma_digits_nondecreasing(s: Seq<u8>, i: int)
    requires
        0 <= i <= s.len(),
        forall|k: int| 0 <= k < s.len() ==> is_digit(#[trigger] s[k]),
    ensures
        digits_value(s) >= digits_value(s.take(i)),
    decreases s.len() - i,
{
    if i < s.len() {
        assert(s.take(i + 1).drop_last() =~= s.take(i));
        assert(forall|k: int| 0 <= k < s.take(i).len() ==> is_digit(#[trigger] s.take(i)[k]));
        lemma_digits_nonneg(s.take(i));
        lemma_digits_nondecreasing(s, i + 1);
    } else {
        assert(s.take(i) =~= s);
    }
}

/// A parsed index is a 32-bit value.
pub proof fn lemma_parse_index_range(s: Seq<u8>)
    ensures
        spec_parse_index(s) matches Some(v) ==> 0 <= v <= u32::MAX,
{
    if spec_parse_index(s) is Some {
        lemma_digits_nonneg(s);
    }
}

/// Parses a patch key.  Returns the index it denotes, or `None` for a key
/// that is empty, has a byte that is no decimal digit, or names a number
/// too large to be an index.
pub fn parse_index(key: &Vec<u8>) -> (r: Option<u64>)
    ensures
        match r {
            Some(v) => spec_parse_index(key@) == Some(v as int),
            None => spec_parse_index(key@) is None,
        },
{
    if key.len() == 0 {
        return None;
    }
    let mut acc: u64 = 0;
    let mut i: usize = 0;
    while i < key.len()
        invariant
            i <= key.len(),
            forall|k: int| 0 <= k < i ==> is_digit(#[trigger] key@[k]),
            acc == digits_value(key@.take(i as int)),
            acc <= 0xFFFF_FFFF,
        decreases key.len() - i,
    {
        let c: u8 = key[i];
        if c < 0x30 || c > 0x39 {
            return None;
        }
        proof {
            assert(key@.take(i + 1).drop_last() =~= key@.take(i as int));
        }
        acc = acc * 10 + ((c - 0x30) as u64);
        i = i + 1;
        if acc > 0xFFFF_FFFF {
            proof {
                if forall|k: int| 0 <= k < key@.len() ==> is_digit(#[trigger] key@[k]) {
                    lemma_digits_nondecreasing(key@, i as int);
                }
            }
            return None;
        }
    }
    proof {
        assert(key@.take(key@.len() as int) =~= key@);
    }
    Some(acc)
}

/// An ordered list of patch entries: a decimal key naming a string-table
/// index, and the UTF-8 replacement text for that entry.  Order matters:
/// when two entries name the same index, the later one wins.
pub struct PatchSet {
    entries: Vec<(Vec<u8>, Vec<u8>)>,
}

impl View for PatchSet {
    type V = Seq<(Seq<u8>, Seq<u8>)>;

    closed spec fn view(&self) -> Seq<(Seq<u8>, Seq<u8>)> {
        Seq::new(self.entries@.len(), |i: int| (self.entries@[i].0@, self.entries@[i].1@))
    }
}

impl PatchSet {
    /// Every replacement text is valid UTF-8; `push` maintains this.
    pub open spec fn wf(&self) -> bool {
        forall|i: int| 0 <= i < self@.len() ==> is_utf8((#[trigger] self@[i]).1)
    }

    /// An empty patch set.
    pub fn new() -> (r: PatchSet)
        ensures
            r@ == Seq::<(Seq<u8>, Seq<u8>)>::empty(),
            r.wf(),
    {
        let r = PatchSet { entries: Vec::new() };
        proof {
            assert(r@ =~= Seq::<(Seq<u8>, Seq<u8>)>::empty());
        }
        r
    }

    /// Number of entries.
    pub fn len(&self) -> (r: usize)
        ensures
            r == self@.len(),
    {
        self.entries.len()
    }

    /// Appends one replacement, after the entries already present.  Accepts
    /// and records it when the text is valid UTF-8; rejects it and leaves
    /// the set unchanged otherwise.
    pub fn push(&mut self, key: Vec<u8>, text: Vec<u8>) -> (ok: bool)
        ensures
            ok == is_utf8(text@),
            ok ==> final(self)@ == old(self)@.push((key@, text@)),
            !ok ==> final(self)@ == old(self)@,
            old(self).wf() ==> final(self).wf(),
    {
        if is_utf8_bytes(&text) {
            let ghost k = key@;
            let ghost t = text@;
            self.entries.push((key, text));
            proof {
                assert(self@ =~= old(self)@.push((k, t)));
            }
            true
        } else {
            false
        }
    }
}

/// The entry sequence after applying the patch entries in order, each one
/// replacing the table entry its key names: `None` when some key does not
/// denote an index below the entry count.
pub open spec fn spec_apply_entries(
    ss: Seq<Seq<u8>>,
    entries: Seq<(Seq<u8>, Seq<u8>)>,
) -> Option<Seq<Seq<u8>>>
    decreases entries.len(),
{
    if entries.len() == 0 {
        Some(ss)
    } else {
        match spec_apply_entries(ss, entries.drop_last()) {
            None => None,
            Some(cur) => {
                let e = entries.last();
                match spec_parse_index(e.0) {
                    None => None,
                    Some(i) => if i < cur.len() {
                        Some(cur.update(i, e.1))
                    } else {
                        None
                    },
                }
            },
        }
    }
}

/// Once a prefix of the entries fails, the whole list fails.
pub proof fn lemma_apply_entries_none_prefix(
    ss: Seq<Seq<u8>>,
    entries: Seq<(Seq<u8>, Seq<u8>)>,
    j: int,
)
    requires
        0 <= j <= entries.len(),
        spec_apply_entries(ss, entries.take(j)) is None,
    ensures
        spec_apply_entries(ss, entries) is None,
    decreases entries.len() - j,
{
    if j < entries.len() {
        assert(entries.take(j + 1).drop_last() =~= entries.take(j));
        lemma_apply_entries_none_prefix(ss, entries, j + 1);
    } else {
        assert(entries.take(j) =~= entries);
    }
}

/// Applying patch entries never changes the entry count.
pub proof fn lemma_apply_entries_len(ss: Seq<Seq<u8>>, entries: Seq<(Seq<u8>, Seq<u8>)>)
    requires
        spec_apply_entries(ss, entries) is Some,
    ensures
        spec_apply_entries(ss, entries).unwrap().len() == ss.len(),
    decreases entries.len(),
{
    if entries.len() > 0 {
        lemma_apply_entries_len(ss, entries.drop_last());
        lemma_parse_index_range(entries.last().0);
    }
}

/// An entry whose index no patch key names is left exactly as it was.
pub proof fn lemma_apply_entries_unpatched(
    ss: Seq<Seq<u8>>,
    entries: Seq<(Seq<u8>, Seq<u8>)>,
    i: int,
)
    requires
        spec_apply_entries(ss, entries) is Some,
        0 <= i < ss.len(),
        forall|j: int|
            0 <= j < entries.len() ==> spec_parse_index((#[trigger] entries[j]).0) != Some(i),
    ensures
        spec_apply_entries(ss, entries).unwrap()[i] == ss[i],
    decreases entries.len(),
{
    if entries.len() > 0 {
        assert(entries[entries.len() - 1] == entries.last());
        assert(forall|j: int|
            0 <= j < entries.drop_last().len() ==> #[trigger] entries.drop_last()[j]
                == entries[j]);
        lemma_apply_entries_unpatched(ss, entries.drop_last(), i);
        lemma_apply_entries_len(ss, entries.drop_last());
        lemma_parse_index_range(entries.last().0);
        let cur = spec_apply_entries(ss, entries.drop_last()).unwrap();
        match spec_parse_index(entries.last().0) {
            None => {},
            Some(idx) => {
                assert(idx != i);
                assert(spec_apply_entries(ss, entries).unwrap() == cur.update(
                    idx,
                    entries.last().1,
                ));
            },
        }
    }
}

/// When the table and every replacement are valid UTF-8, so is every entry
/// of the patched table.
pub proof fn lemma_apply_entries_utf8(ss: Seq<Seq<u8>>, entries: Seq<(Seq<u8>, Seq<u8>)>)
    requires
        spec_apply_entries(ss, entries) is Some,
        forall|k: int| 0 <= k < ss.len() ==> is_utf8(#[trigger] ss[k]),
        forall|j: int| 0 <= j < entries.len() ==> is_utf8((#[trigger] entries[j]).1),
    ensures
        forall|k: int|
            0 <= k < spec_apply_entries(ss, entries).unwrap().len() ==> is_utf8(
                #[trigger] spec_apply_entries(ss, entries).unwrap()[k],
            ),
    decreases entries.len(),
{
    if entries.len() > 0 {
        assert(entries[entries.len() - 1] == entries.last());
        assert(forall|j: int|
            0 <= j < entries.drop_last().len() ==> #[trigger] entries.drop_last()[j]
                == entries[j]);
        lemma_apply_entries_utf8(ss, entries.drop_last());
        lemma_apply_entries_len(ss, entries.drop_last());
        lemma_parse_index_range(entries.last().0);
        let cur = spec_apply_entries(ss, entries.drop_last()).unwrap();
        let res = spec_apply_entries(ss, entries).unwrap();
        match spec_parse_index(entries.last().0) {
            None => {},
            Some(idx) => {
                assert(res == cur.update(idx, entries.last().1));
                assert forall|k: int| 0 <= k < res.len() implies is_utf8(#[trigger] res[k]) by {
                    if k != idx {
                        assert(res[k] == cur[k]);
                    } else {
                        assert(res[k] == entries.last().1);
                    }
                };
            },
        }
    }
}

/// An offset entry moved by `delta` bytes.
pub open spec fn spec_shift(e: OffsetEntry, delta: int) -> OffsetEntry {
    OffsetEntry {
        offset_pos: (e.offset_pos + delta) as u32,
        data_pos: (e.data_pos + delta) as u32,
        lengths_pos: (e.lengths_pos + delta) as u32,
    }
}

/// All three moved positions of the entry stay representable.
pub open spec fn shift_fits(e: OffsetEntry, delta: int) -> bool {
    &&& 0 <= e.offset_pos + delta <= u32::MAX
    &&& 0 <= e.data_pos + delta <= u32::MAX
    &&& 0 <= e.lengths_pos + delta <= u32::MAX
}

/// The recorded string-table entry agrees with a table of `n` entries that
/// stands at its `offset_pos`: count, offset array, length array and data
/// region follow each other with no gap.
pub open spec fn strings_entry_consistent(e: OffsetEntry, n: int) -> bool {
    &&& e.lengths_pos == e.offset_pos + 4 + 4 * n
    &&& e.data_pos == e.offset_pos + 4 + 8 * n
}

/// Every other table lies at or behind `end`, the first byte after the
/// string table.  The splice leaves bytes from `end` on unchanged, so a
/// table in front of `end` could not be relocated by shifting its entry.
pub open spec fn tables_behind(t: OffsetTable, end: int) -> bool {
    &&& t.resources.offset_pos >= end
    &&& match t.extra {
        Some(e) => e.offset_pos >= end,
        None => true,
    }
}

/// The string-table entry of the output: the fresh fragment's own
/// positions, rebased to the splice position `p`.
pub open spec fn spec_rebased_entry(p: int, n: int) -> OffsetEntry {
    OffsetEntry {
        offset_pos: p as u32,
        data_pos: (p + 4 + 8 * n) as u32,
        lengths_pos: (p + 4 + 4 * n) as u32,
    }
}

/// The whole patch operation as a function of the input bytes and the
/// ordered patch entries: either the output bytes or the error.
///
/// The output is the input with the string table replaced by the
/// re-serialized patched table and the offset-table region overwritten:
/// the string-table entry is rebased onto the fresh fragment, and every
/// entry of the tables behind the splice is moved by the size difference.
/// Failures, in the order they are detected: a buffer too short for the
/// header; a malformed offset table; a recorded string-table entry that
/// disagrees with the table found at it, or a table in front of the splice
/// region; a corrupt string table; a patch key that names no entry; a
/// patched table whose positions would not fit their 32-bit fields (or the
/// output a machine word), which is reported as `MalformedOffsets`.
pub open spec fn spec_apply_patch(raw: Seq<u8>, entries: Seq<(Seq<u8>, Seq<u8>)>) -> Result<
    Seq<u8>,
    PatchError,
> {
    match spec_parse_header(raw) {
        None => Err(PatchError::MalformedHeader),
        Some((hl, h)) => match spec_parse_offsets(h.version, raw, HEADER_END as int) {
            None => Err(PatchError::MalformedOffsets),
            Some((ol, t)) => {
                let p = t.strings.offset_pos as int;
                if p < HEADER_END as int + ol {
                    Err(PatchError::MalformedOffsets)
                } else {
                    match spec_read_strings(raw, p) {
                        None => Err(PatchError::CorruptStringTable),
                        Some((sl, ss)) => {
                            if !strings_entry_consistent(t.strings, ss.len() as int) {
                                Err(PatchError::MalformedOffsets)
                            } else if !tables_behind(t, p + sl) {
                                Err(PatchError::MalformedOffsets)
                            } else {
                                match spec_apply_entries(ss, entries) {
                                    None => Err(PatchError::IndexOutOfRange),
                                    Some(patched) => {
                                        let flen = spec_frag_len(patched);
                                        let delta = flen - sl;
                                        if !(flen <= u32::MAX && shift_fits(t.resources, delta)
                                            && (match t.extra {
                                            Some(e) => shift_fits(e, delta),
                                            None => true,
                                        }) && raw.len() + delta <= usize::MAX as int) {
                                            Err(PatchError::MalformedOffsets)
                                        } else {
                                            let t2 = OffsetTable {
                                                strings: spec_rebased_entry(
                                                    p,
                                                    patched.len() as int,
                                                ),
                                                resources: spec_shift(t.resources, delta),
                                                extra: match t.extra {
                                                    Some(e) => Some(spec_shift(e, delta)),
                                                    None => None,
                                                },
                                            };
                                            Ok(
                                                raw.take(HEADER_END as int) + spec_table_bytes(
                                                    h.version,
                                                    t2,
                                                ) + raw.subrange(HEADER_END as int + ol, p)
                                                    + spec_write_strings(patched) + raw.skip(
                                                    p + sl,
                                                ),
                                            )
                                        }
                                    },
                                }
                            }
                        },
                    }
                }
            },
        },
    }
}

/// Moves one entry by `delta` bytes; fails when a moved position would not
/// fit its 32-bit field.
fn try_shift(e: &OffsetEntry, delta: i128) -> (r: Option<OffsetEntry>)
    requires
        -0x7FFF_FFFF_FFFF_FFFF <= delta <= 0xFFFF_FFFF,
    ensures
        match r {
            Some(se) => shift_fits(*e, delta as int) && se == spec_shift(*e, delta as int),
            None => !shift_fits(*e, delta as int),
        },
{
    let a: i128 = e.offset_pos as i128 + delta;
    let b: i128 = e.data_pos as i128 + delta;
    let c: i128 = e.lengths_pos as i128 + delta;
    let lim: i128 = 0xFFFF_FFFF;
    if a < 0 || a > lim || b < 0 || b > lim || c < 0 || c > lim {
        None
    } else {
        Some(OffsetEntry { offset_pos: a as u32, data_pos: b as u32, lengths_pos: c as u32 })
    }
}

/// Applies a patch set to the raw bytes of a container file and returns the
/// bytes of the patched file, exactly as the model `spec_apply_patch` lays
/// them out — or its error, with nothing written.  The whole operation is
/// in memory: on any failure there is no output at all.
#[verifier::loop_isolation(false)]
#[verifier::rlimit(100)]
pub fn apply_patch(raw: &Vec<u8>, patches: &PatchSet) -> (r: Result<Vec<u8>, PatchError>)
    requires
        patches.wf(),
    ensures
        match r {
            Ok(out) => spec_apply_patch(raw@, patches@) == Ok::<Seq<u8>, PatchError>(out@),
            Err(e) => spec_apply_patch(raw@, patches@) == Err::<Seq<u8>, PatchError>(e),
        },
{
    let h = match parse_header(raw) {
        Ok(pr) => pr.1,
        Err(e) => {
            return Err(e);
        },
    };
    let (ol, t) = match parse_offsets_at(h.version, raw, HEADER_END) {
        Ok(pr) => pr,
        Err(e) => {
            return Err(e);
        },
    };
    let p32: u32 = t.strings.offset_pos;
    let p: usize = p32 as usize;
    if p < HEADER_END + ol {
        return Err(PatchError::MalformedOffsets);
    }
    let (sl, mut table) = match read_strings(p, raw) {
        Ok(pr) => pr,
        Err(e) => {
            return Err(e);
        },
    };
    let ghost ss = table.deep_view();
    proof {
        lemma_read_strings_bounds(raw@, p as int);
    }
    let n: usize = table.len();
    if (t.strings.lengths_pos as u64) != (p as u64) + 4 + 4 * (n as u64) || (
    t.strings.data_pos as u64) != (p as u64) + 4 + 8 * (n as u64) {
        return Err(PatchError::MalformedOffsets);
    }
    let end64: u64 = (p as u64) + (sl as u64);
    if (t.resources.offset_pos as u64) < end64 {
        return Err(PatchError::MalformedOffsets);
    }
    match &t.extra {
        Some(e) => {
            if (e.offset_pos as u64) < end64 {
                return Err(PatchError::MalformedOffsets);
            }
        },
        None => {},
    }
    // Replace the entries the patch names, in order: later entries win.
    let m: usize = patches.entries.len();
    proof {
        assert(patches@.take(0) =~= Seq::<(Seq<u8>, Seq<u8>)>::empty());
    }
    let mut j: usize = 0;
    while j < m
        invariant
            j <= m,
            table@.len() == n,
            spec_apply_entries(ss, patches@.take(j as int)) == Some(table.deep_view()),
        decreases m - j,
    {
        let ghost pre = table.deep_view();
        let ghost prew = table@;
        let pair: &(Vec<u8>, Vec<u8>) = &patches.entries[j];
        proof {
            assert(patches@[j as int] == (pair.0@, pair.1@));
            assert(patches@.take(j as int + 1).drop_last() =~= patches@.take(j as int));
            assert(patches@.take(j as int + 1).last() == patches@[j as int]);
        }
        let iv: u64 = match parse_index(&pair.0) {
            Some(v) => v,
            None => {
                proof {
                    assert(spec_apply_entries(ss, patches@.take(j as int + 1)) is None);
                    lemma_apply_entries_none_prefix(ss, patches@, j as int + 1);
                }
                return Err(PatchError::IndexOutOfRange);
            },
        };
        if iv >= n as u64 {
            proof {
                assert(spec_apply_entries(ss, patches@.take(j as int + 1)) is None);
                lemma_apply_entries_none_prefix(ss, patches@, j as int + 1);
            }
            return Err(PatchError::IndexOutOfRange);
        }
        let idx: usize = iv as usize;
        let text: Vec<u8> = copy_bytes(&pair.1);
        let ghost tview = text@;
        table[idx] = text;
        proof {
            assert(table@ == prew.update(idx as int, table@[idx as int]));
            assert(table@[idx as int]@ == tview);
            assert forall|k: int| 0 <= k < n implies #[trigger] table.deep_view()[k] == pre.update(
                iv as int,
                pair.1@,
            )[k] by {
                if k == iv as int {
                    assert(table@[k].deep_view() =~= table@[k]@);
                } else {
                    assert(table@[k] == prew[k]);
                }
            };
            assert(table.deep_view() =~= pre.update(iv as int, pair.1@));
            assert(spec_apply_entries(ss, patches@.take(j as int + 1)) == Some(
                table.deep_view(),
            ));
        }
        j = j + 1;
    }
    proof {
        assert(patches@.take(m as int) =~= patches@);
    }
    let ghost patched = table.deep_view();
    // The rebuilt table's positions must fit their 32-bit fields.
    let ghost pls = lens_of(patched);
    proof {
        assert(forall|k: int| 0 <= k < pls.len() ==> #[trigger] pls[k] >= 0);
        lemma_sum_nonneg(pls);
        assert(pls.take(0) =~= Seq::<int>::empty());
    }
    let mut total_new: u64 = 0;
    let mut q: usize = 0;
    while q < n
        invariant
            q <= n,
            total_new == sum(pls.take(q as int)),
            total_new <= 0xFFFF_FFFF,
        decreases n - q,
    {
        let el: u64 = table[q].len() as u64;
        proof {
            assert(pls[q as int] == table@[q as int]@.len());
            lemma_sum_take_succ(pls, q as int);
            lemma_prefix_in_range(pls, q as int + 1);
        }
        if el > 0xFFFF_FFFF {
            return Err(PatchError::MalformedOffsets);
        }
        total_new = total_new + el;
        if total_new > 0xFFFF_FFFF {
            return Err(PatchError::MalformedOffsets);
        }
        q = q + 1;
    }
    proof {
        assert(pls.take(n as int) =~= pls);
    }
    let flen64: u64 = 4 + 8 * (n as u64) + total_new;
    if flen64 > 0xFFFF_FFFF {
        return Err(PatchError::MalformedOffsets);
    }
    let delta: i128 = (flen64 as i128) - (sl as i128);
    let new_res: OffsetEntry = match try_shift(&t.resources, delta) {
        Some(e) => e,
        None => {
            return Err(PatchError::MalformedOffsets);
        },
    };
    let new_extra: Option<OffsetEntry> = match &t.extra {
        Some(e) => match try_shift(e, delta) {
            Some(se) => Some(se),
            None => {
                return Err(PatchError::MalformedOffsets);
            },
        },
        None => None,
    };
    if (raw.len() as i128) + delta > (usize::MAX as i128) {
        return Err(PatchError::MalformedOffsets);
    }
    // Serialize the patched table and splice it in.
    let wres = write_strings(&table);
    let mut frag: Vec<u8> = wres.0;
    let fe: OffsetEntry = wres.1;
    let new_strings = OffsetEntry {
        offset_pos: p32,
        data_pos: p32 + fe.data_pos,
        lengths_pos: p32 + fe.lengths_pos,
    };
    proof {
        assert(new_strings == spec_rebased_entry(p as int, n as int));
    }
    let t2 = OffsetTable { strings: new_strings, resources: new_res, extra: new_extra };
    let mut tb: Vec<u8> = write_offsets(h.version, &t2);
    let mut out: Vec<u8> = Vec::new();
    append_range(&mut out, raw, 0, HEADER_END);
    out.append(&mut tb);
    append_range(&mut out, raw, HEADER_END + ol, p);
    out.append(&mut frag);
    append_range(&mut out, raw, p + sl, raw.len());
    proof {
        assert(raw@.subrange(0, HEADER_END as int) =~= raw@.take(HEADER_END as int));
        assert(raw@.subrange(p as int + sl as int, raw@.len() as int) =~= raw@.skip(
            p as int + sl as int,
        ));
        assert(out@ =~= raw@.take(HEADER_END as int) + spec_table_bytes(h.version, t2)
            + raw@.subrange(HEADER_END as int + ol as int, p as int) + spec_write_strings(patched)
            + raw@.skip(p as int + sl as int));
        assert(spec_apply_patch(raw@, patches@) == Ok::<Seq<u8>, PatchError>(out@));
    }
    Ok(out)
}

/// Identity: patching with an empty patch set yields output byte-identical
/// to the input, whenever the input patches at all.
pub proof fn lemma_empty_patch_identity(raw: Seq<u8>)
    requires
        spec_apply_patch(raw, Seq::<(Seq<u8>, Seq<u8>)>::empty()) is Ok,
    ensures
        spec_apply_patch(raw, Seq::<(Seq<u8>, Seq<u8>)>::empty()) == Ok::<Seq<u8>, PatchError>(
            raw,
        ),
{
    let entries = Seq::<(Seq<u8>, Seq<u8>)>::empty();
    let h = spec_parse_header(raw).unwrap().1;
    let (ol, t) = spec_parse_offsets(h.version, raw, HEADER_END as int).unwrap();
    let p = t.strings.offset_pos as int;
    let (sl, ss) = spec_read_strings(raw, p).unwrap();
    assert(spec_apply_entries(ss, entries) == Some(ss));
    lemma_read_strings_bounds(raw, p);
    lemma_write_read_strings(raw, p);
    lemma_offsets_round_trip(h.version, raw, HEADER_END as int);
    let delta = spec_frag_len(ss) - sl;
    assert(delta == 0);
    assert(spec_shift(t.resources, 0) == t.resources);
    match t.extra {
        Some(e) => {
            assert(spec_shift(e, 0) == e);
        },
        None => {},
    }
    assert(spec_rebased_entry(p, ss.len() as int) == t.strings);
    let out = spec_apply_patch(raw, entries).unwrap();
    assert(out =~= raw);
}

/// Locality: outside the rewritten offset-table region and the spliced
/// string table, every byte of the output equals the corresponding input
/// byte; the suffix behind the splice is moved as one block.
pub proof fn lemma_patch_locality(raw: Seq<u8>, entries: Seq<(Seq<u8>, Seq<u8>)>)
    requires
        spec_apply_patch(raw, entries) is Ok,
    ensures
        ({
            let out = spec_apply_patch(raw, entries).unwrap();
            let h = spec_parse_header(raw).unwrap().1;
            let (ol, t) = spec_parse_offsets(h.version, raw, HEADER_END as int).unwrap();
            let p = t.strings.offset_pos as int;
            let (sl, ss) = spec_read_strings(raw, p).unwrap();
            let new_len = spec_frag_len(spec_apply_entries(ss, entries).unwrap());
            &&& out.len() == raw.len() + new_len - sl
            &&& out.skip(p + new_len) == raw.skip(p + sl)
            &&& out.take(HEADER_END as int) == raw.take(HEADER_END as int)
            &&& out.subrange(HEADER_END as int + ol, p) == raw.subrange(HEADER_END as int + ol, p)
        }),
{
    let out = spec_apply_patch(raw, entries).unwrap();
    let h = spec_parse_header(raw).unwrap().1;
    let (ol, t) = spec_parse_offsets(h.version, raw, HEADER_END as int).unwrap();
    let p = t.strings.offset_pos as int;
    let (sl, ss) = spec_read_strings(raw, p).unwrap();
    let patched = spec_apply_entries(ss, entries).unwrap();
    let new_len = spec_frag_len(patched);
    lemma_read_strings_bounds(raw, p);
    lemma_write_strings_len(patched);
    let t2 = OffsetTable {
        strings: spec_rebased_entry(p, patched.len() as int),
        resources: spec_shift(t.resources, new_len - sl),
        extra: match t.extra {
            Some(e) => Some(spec_shift(e, new_len - sl)),
            None => None,
        },
    };
    lemma_table_bytes_len(h.version, t2);
    assert(out.len() == raw.len() + new_len - sl);
    assert(out.skip(p + new_len) =~= raw.skip(p + sl));
    assert(out.take(HEADER_END as int) =~= raw.take(HEADER_END as int));
    assert(out.subrange(HEADER_END as int + ol, p) =~= raw.subrange(HEADER_END as int + ol, p));
}

/// Index stability: the output's string table parses at the same position,
/// has the same entry count, and any entry whose index no patch key names
/// reads back exactly as it did from the input.
pub proof fn lemma_index_stability(raw: Seq<u8>, entries: Seq<(Seq<u8>, Seq<u8>)>, i: int)
    requires
        spec_apply_patch(raw, entries) is Ok,
        forall|j: int| 0 <= j < entries.len() ==> is_utf8((#[trigger] entries[j]).1),
        forall|j: int|
            0 <= j < entries.len() ==> spec_parse_index((#[trigger] entries[j]).0) != Some(i),
    ensures
        ({
            let out = spec_apply_patch(raw, entries).unwrap();
            let h = spec_parse_header(raw).unwrap().1;
            let (ol, t) = spec_parse_offsets(h.version, raw, HEADER_END as int).unwrap();
            let p = t.strings.offset_pos as int;
            let (sl, ss) = spec_read_strings(raw, p).unwrap();
            &&& spec_read_strings(out, p) is Some
            &&& spec_read_strings(out, p).unwrap().1.len() == ss.len()
            &&& 0 <= i < ss.len() ==> spec_read_strings(out, p).unwrap().1[i] == ss[i]
        }),
{
    let out = spec_apply_patch(raw, entries).unwrap();
    let h = spec_parse_header(raw).unwrap().1;
    let (ol, t) = spec_parse_offsets(h.version, raw, HEADER_END as int).unwrap();
    let p = t.strings.offset_pos as int;
    let (sl, ss) = spec_read_strings(raw, p).unwrap();
    let patched = spec_apply_entries(ss, entries).unwrap();
    let new_len = spec_frag_len(patched);
    lemma_read_strings_bounds(raw, p);
    lemma_read_strings_utf8(raw, p);
    lemma_apply_entries_utf8(ss, entries);
    lemma_apply_entries_len(ss, entries);
    lemma_read_write_strings(patched);
    lemma_write_strings_len(patched);
    let t2 = OffsetTable {
        strings: spec_rebased_entry(p, patched.len() as int),
        resources: spec_shift(t.resources, new_len - sl),
        extra: match t.extra {
            Some(e) => Some(spec_shift(e, new_len - sl)),
            None => None,
        },
    };
    lemma_table_bytes_len(h.version, t2);
    let frag = spec_write_strings(patched);
    assert(out.subrange(p, p + new_len) =~= frag);
    assert(frag.subrange(0, new_len) =~= frag);
    lemma_read_strings_relocate(frag, 0, out, p);
    assert(spec_read_strings(out, p) == Some((new_len, patched)));
    if 0 <= i < ss.len() {
        lemma_apply_entries_unpatched(ss, entries, i);
    }
}

/// Delta correctness: the output's offset table parses at the same
/// position, and every field of its resource entry (and of the extra entry,
/// when the version has one) is the input's field moved by exactly the byte
/// difference between the new and the old string table.
pub proof fn lemma_delta_correctness(raw: Seq<u8>, entries: Seq<(Seq<u8>, Seq<u8>)>)
    requires
        spec_apply_patch(raw, entries) is Ok,
    ensures
        ({
            let out = spec_apply_patch(raw, entries).unwrap();
            let h = spec_parse_header(raw).unwrap().1;
            let (ol, t) = spec_parse_offsets(h.version, raw, HEADER_END as int).unwrap();
            let p = t.strings.offset_pos as int;
            let (sl, ss) = spec_read_strings(raw, p).unwrap();
            let delta = spec_frag_len(spec_apply_entries(ss, entries).unwrap()) - sl;
            &&& spec_parse_offsets(h.version, out, HEADER_END as int) is Some
            &&& ({
                let t2 = spec_parse_offsets(h.version, out, HEADER_END as int).unwrap().1;
                &&& t2.resources.data_pos == t.resources.data_pos + delta
                &&& t2.resources.offset_pos == t.resources.offset_pos + delta
                &&& t2.resources.lengths_pos == t.resources.lengths_pos + delta
                &&& (t2.extra is Some <==> t.extra is Some)
                &&& match (t.extra, t2.extra) {
                    (Some(e), Some(e2)) => e2.offset_pos == e.offset_pos + delta
                        && e2.data_pos == e.data_pos + delta && e2.lengths_pos == e.lengths_pos
                        + delta,
                    _ => true,
                }
            })
        }),
{
    let out = spec_apply_patch(raw, entries).unwrap();
    let h = spec_parse_header(raw).unwrap().1;
    let (ol, t) = spec_parse_offsets(h.version, raw, HEADER_END as int).unwrap();
    let p = t.strings.offset_pos as int;
    let (sl, ss) = spec_read_strings(raw, p).unwrap();
    let patched = spec_apply_entries(ss, entries).unwrap();
    let delta = spec_frag_len(patched) - sl;
    lemma_read_strings_bounds(raw, p);
    lemma_apply_entries_len(ss, entries);
    lemma_write_strings_len(patched);
    let t2 = OffsetTable {
        strings: spec_rebased_entry(p, patched.len() as int),
        resources: spec_shift(t.resources, delta),
        extra: match t.extra {
            Some(e) => Some(spec_shift(e, delta)),
            None => None,
        },
    };
    lemma_table_bytes_len(h.version, t2);
    assert(entry_ok(t2.strings));
    assert(entry_ok(t2.resources));
    match t2.extra {
        Some(e2) => {
            assert(entry_ok(e2));
        },
        None => {},
    }
    lemma_offsets_parse_write(h.version, t2);
    let tbytes = spec_table_bytes(h.version, t2);
    assert(out.subrange(HEADER_END as int, HEADER_END as int + ol) =~= tbytes);
    assert(tbytes.subrange(0, spec_offsets_size(h.version)) =~= tbytes);
    lemma_parse_offsets_relocate(h.version, tbytes, 0, out, HEADER_END as int);
    assert(spec_parse_offsets(h.version, out, HEADER_END as int) == Some((ol, t2)));
}

} // verus!
