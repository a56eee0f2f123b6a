//! The string table codec.
//!
//! Physical layout of a string table holding `n` entries, relative to the
//! table's start: a four-byte entry count, then `n` four-byte entry offsets
//! (each relative to the data region), then `n` four-byte entry lengths,
//! then the entries' raw UTF-8 bytes, back to back.  All integers are
//! little-endian.  The layout is canonical: the offset array must equal the
//! running sums of the length array, so a table re-serialized from the
//! sequence it parses to is byte-identical to the original.

use vstd::bytes::lemma_auto_spec_u32_to_from_le_bytes;
use vstd::bytes::spec_u32_to_le_bytes;
use vstd::prelude::*;
use vstd::slice::slice_subrange;
use vstd::slice::slice_to_vec;

use crate::errors::PatchError;
use crate::le_bytes::append_range;
use crate::le_bytes::push_u32;
use crate::le_bytes::read_u32_at;
use crate::le_bytes::spec_le32_at;
use crate::offsets::OffsetEntry;
use crate::utf8::is_utf8;
use crate::utf8::is_utf8_bytes;

verus! {

/// Sum of a sequence of integers.
pub open spec fn sum(ls: Seq<int>) -> int
    decreases ls.len(),
{
    if ls.len() == 0 {
        0
    } else {
        sum(ls.drop_last()) + ls.last()
    }
}

/// Sum of the first `i` elements.
pub open spec fn prefix_sum(ls: Seq<int>, i: int) -> int {
    sum(ls.take(i))
}

/// The entry lengths of a string sequence.
pub open spec fn lens_of(ss: Seq<Seq<u8>>) -> Seq<int> {
    Seq::new(ss.len(), |i: int| ss[i].len() as int)
}

/// Total byte count of the entries of a string sequence.
pub open spec fn sum_lens(ss: Seq<Seq<u8>>) -> int {
    sum(lens_of(ss))
}

/// Serialization of a sequence of 32-bit values, back to back.
pub open spec fn le32_concat(vs: Seq<u32>) -> Seq<u8>
    decreases vs.len(),
{
    if vs.len() == 0 {
        Seq::<u8>::empty()
    } else {
        le32_concat(vs.drop_last()) + spec_u32_to_le_bytes(vs.last())
    }
}

/// Concatenation of byte strings, back to back.
pub open spec fn concat_bytes(ss: Seq<Seq<u8>>) -> Seq<u8>
    decreases ss.len(),
{
    if ss.len() == 0 {
        Seq::<u8>::empty()
    } else {
        concat_bytes(ss.drop_last()) + ss.last()
    }
}

/// The offset-array values of a string sequence: running sums of the
/// entry lengths, relative to the data region.
pub open spec fn offsets_of(ss: Seq<Seq<u8>>) -> Seq<u32> {
    Seq::new(ss.len(), |i: int| prefix_sum(lens_of(ss), i) as u32)
}

/// The length-array values of a string sequence.
pub open spec fn lens32_of(ss: Seq<Seq<u8>>) -> Seq<u32> {
    Seq::new(ss.len(), |i: int| ss[i].len() as u32)
}

/// Serialized size of the table fragment for `ss`.
pub open spec fn spec_frag_len(ss: Seq<Seq<u8>>) -> int {
    4 + 8 * ss.len() + sum_lens(ss)
}

/// Serialization of a full string table: count, offset array, length
/// array, raw bytes.
pub open spec fn spec_write_strings(ss: Seq<Seq<u8>>) -> Seq<u8> {
    spec_u32_to_le_bytes(ss.len() as u32) + le32_concat(offsets_of(ss)) + le32_concat(
        lens32_of(ss),
    ) + concat_bytes(ss)
}

/// The offset entry of a freshly serialized fragment of `n` entries, with
/// positions relative to the fragment start.
pub open spec fn spec_frag_entry(n: int) -> OffsetEntry {
    OffsetEntry {
        offset_pos: 0,
        data_pos: (4 + 8 * n) as u32,
        lengths_pos: (4 + 4 * n) as u32,
    }
}

/// The length-array values stored at a table at position `pos` with entry
/// count `n`.
pub open spec fn spec_read_lens(b: Seq<u8>, pos: int, n: int) -> Seq<int> {
    Seq::new(n as nat, |i: int| spec_le32_at(b, pos + 4 + 4 * n + 4 * i) as int)
}

/// The offset-array values stored at a table at position `pos` with entry
/// count `n`.
pub open spec fn spec_read_offs(b: Seq<u8>, pos: int, n: int) -> Seq<int> {
    Seq::new(n as nat, |i: int| spec_le32_at(b, pos + 4 + 4 * i) as int)
}

/// What parsing the string table at `pos` of `b` yields: the bytes the
/// table occupies and the entry sequence.  `None` when the table is
/// truncated, when its offset array does not match the running sums of its
/// length array, or when an entry is not valid UTF-8.
pub open spec fn spec_read_strings(b: Seq<u8>, pos: int) -> Option<(int, Seq<Seq<u8>>)> {
    if pos < 0 || pos + 4 > b.len() {
        None
    } else {
        let n = spec_le32_at(b, pos) as int;
        if pos + 4 + 8 * n > b.len() {
            None
        } else {
            let lens = spec_read_lens(b, pos, n);
            let offs = spec_read_offs(b, pos, n);
            let total = sum(lens);
            if pos + 4 + 8 * n + total > b.len() {
                None
            } else if !(forall|i: int| 0 <= i < n ==> offs[i] == prefix_sum(lens, i)) {
                None
            } else {
                let data = pos + 4 + 8 * n;
                let ss = Seq::new(
                    n as nat,
                    |i: int|
                        b.subrange(
                            data + prefix_sum(lens, i),
                            data + prefix_sum(lens, i) + lens[i],
                        ),
                );
                if forall|i: int| 0 <= i < n ==> is_utf8(ss[i]) {
                    Some((4 + 8 * n + total, ss))
                } else {
                    None
                }
            }
        }
    }
}

/// Extending a prefix by one element adds that element's value to its sum.
pub proof fn lemma_sum_take_succ(ls: Seq<int>, i: int)
    requires
        0 <= i < ls.len(),
    ensures
        sum(ls.take(i + 1)) == sum(ls.take(i)) + ls[i],
{
    assert(ls.take(i + 1).drop_last() =~= ls.take(i));
    assert(ls.take(i + 1).last() == ls[i]);
}

/// A sum of non-negative values is non-negative.
pub proof fn lemma_sum_nonneg(ls: Seq<int>)
    requires
        forall|k: int| 0 <= k < ls.len() ==> ls[k] >= 0,
    ensures
        sum(ls) >= 0,
    decreases ls.len(),
{
    if ls.len() > 0 {
        lemma_sum_nonneg(ls.drop_last());
    }
}

/// With non-negative values, every prefix sum lies between 0 and the total,
/// with room for the next element.
pub proof fn lemma_prefix_in_range(ls: Seq<int>, i: int)
    requires
        forall|k: int| 0 <= k < ls.len() ==> ls[k] >= 0,
        0 <= i <= ls.len(),
    ensures
        0 <= prefix_sum(ls, i),
        i < ls.len() ==> prefix_sum(ls, i) + ls[i] <= sum(ls),
        prefix_sum(ls, i) <= sum(ls),
    decreases ls.len() - i,
{
    assert(forall|k: int| 0 <= k < ls.take(i).len() ==> ls.take(i)[k] >= 0);
    lemma_sum_nonneg(ls.take(i));
    if i < ls.len() {
        lemma_sum_take_succ(ls, i);
        lemma_prefix_in_range(ls, i + 1);
    } else {
        assert(ls.take(i) =~= ls);
    }
}

/// Length of a serialized 32-bit array.
pub proof fn lemma_le32_concat_len(vs: Seq<u32>)
    ensures
        le32_concat(vs).len() == 4 * vs.len(),
    decreases vs.len(),
{
    lemma_auto_spec_u32_to_from_le_bytes();
    if vs.len() > 0 {
        lemma_le32_concat_len(vs.drop_last());
    }
}

/// Each value of a serialized 32-bit array stands at its own four bytes.
pub proof fn lemma_le32_concat_segment(vs: Seq<u32>, i: int)
    requires
        0 <= i < vs.len(),
    ensures
        le32_concat(vs).subrange(4 * i, 4 * i + 4) == spec_u32_to_le_bytes(vs[i]),
    decreases vs.len(),
{
    lemma_auto_spec_u32_to_from_le_bytes();
    lemma_le32_concat_len(vs);
    lemma_le32_concat_len(vs.drop_last());
    if i == vs.len() - 1 {
        assert(le32_concat(vs).subrange(4 * i, 4 * i + 4) =~= spec_u32_to_le_bytes(vs.last()));
    } else {
        lemma_le32_concat_segment(vs.drop_last(), i);
        assert(le32_concat(vs).subrange(4 * i, 4 * i + 4) =~= le32_concat(
            vs.drop_last(),
        ).subrange(4 * i, 4 * i + 4));
    }
}

/// A byte region whose four-byte groups each serialize the values of `vs`
/// is the serialization of `vs`.
pub proof fn lemma_le32_concat_matches(b: Seq<u8>, q: int, vs: Seq<u32>)
    requires
        0 <= q,
        q + 4 * vs.len() <= b.len(),
        forall|i: int|
            0 <= i < vs.len() ==> spec_u32_to_le_bytes(vs[i]) == b.subrange(
                q + 4 * i,
                q + 4 * i + 4,
            ),
    ensures
        le32_concat(vs) == b.subrange(q, q + 4 * vs.len()),
    decreases vs.len(),
{
    lemma_auto_spec_u32_to_from_le_bytes();
    if vs.len() == 0 {
        assert(le32_concat(vs) =~= b.subrange(q, q));
    } else {
        let m = vs.len() - 1;
        assert(forall|i: int|
            0 <= i < m ==> spec_u32_to_le_bytes(vs.drop_last()[i]) == b.subrange(
                q + 4 * i,
                q + 4 * i + 4,
            ));
        lemma_le32_concat_matches(b, q, vs.drop_last());
        assert(le32_concat(vs) =~= b.subrange(q, q + 4 * vs.len()));
    }
}

/// Length of a concatenation of byte strings.
pub proof fn lemma_concat_len(ss: Seq<Seq<u8>>)
    ensures
        concat_bytes(ss).len() == sum_lens(ss),
    decreases ss.len(),
{
    if ss.len() > 0 {
        lemma_concat_len(ss.drop_last());
        assert(lens_of(ss.drop_last()) =~= lens_of(ss).drop_last());
    } else {
        assert(lens_of(ss) =~= Seq::<int>::empty());
    }
}

/// Each entry of a concatenation stands at its own region, delimited by the
/// running sums of the entry lengths.
pub proof fn lemma_concat_segment(ss: Seq<Seq<u8>>, i: int)
    requires
        0 <= i < ss.len(),
    ensures
        concat_bytes(ss).subrange(
            prefix_sum(lens_of(ss), i),
            prefix_sum(lens_of(ss), i) + ss[i].len(),
        ) == ss[i],
    decreases ss.len(),
{
    lemma_concat_len(ss);
    lemma_concat_len(ss.drop_last());
    assert(forall|k: int| 0 <= k < lens_of(ss).len() ==> lens_of(ss)[k] >= 0);
    let start = prefix_sum(lens_of(ss), i);
    if i == ss.len() - 1 {
        assert(lens_of(ss).take(i) =~= lens_of(ss.drop_last()));
        assert(start == sum_lens(ss.drop_last()));
        assert(concat_bytes(ss).subrange(start, start + ss[i].len()) =~= ss.last());
    } else {
        lemma_concat_segment(ss.drop_last(), i);
        assert(lens_of(ss.drop_last()).take(i) =~= lens_of(ss).take(i));
        lemma_prefix_in_range(lens_of(ss.drop_last()), i);
        assert(concat_bytes(ss).subrange(start, start + ss[i].len()) =~= concat_bytes(
            ss.drop_last(),
        ).subrange(start, start + ss[i].len()));
    }
}

/// A byte region whose delimited segments each equal the entries of `ss`
/// is the concatenation of `ss`.
#[verifier::rlimit(50)]
pub proof fn lemma_concat_matches(b: Seq<u8>, q: int, ss: Seq<Seq<u8>>)
    requires
        0 <= q,
        q + sum_lens(ss) <= b.len(),
        forall|i: int|
            0 <= i < ss.len() ==> ss[i] == b.subrange(
                q + prefix_sum(lens_of(ss), i),
                q + prefix_sum(lens_of(ss), i) + ss[i].len(),
            ),
    ensures
        concat_bytes(ss) == b.subrange(q, q + sum_lens(ss)),
    decreases ss.len(),
{
    assert(forall|k: int| 0 <= k < lens_of(ss).len() ==> lens_of(ss)[k] >= 0);
    if ss.len() == 0 {
        assert(concat_bytes(ss) =~= b.subrange(q, q));
    } else {
        let m = ss.len() - 1;
        assert(lens_of(ss.drop_last()) =~= lens_of(ss).drop_last());
        assert(forall|i: int|
            0 <= i < m ==> lens_of(ss.drop_last()).take(i) =~= lens_of(ss).take(i));
        assert(forall|i: int|
            0 <= i < m ==> ss.drop_last()[i] == b.subrange(
                q + prefix_sum(lens_of(ss.drop_last()), i),
                q + prefix_sum(lens_of(ss.drop_last()), i) + ss.drop_last()[i].len(),
            ));
        lemma_concat_matches(b, q, ss.drop_last());
        assert(lens_of(ss).take(m) =~= lens_of(ss).drop_last());
        assert(prefix_sum(lens_of(ss), m) == sum_lens(ss.drop_last()));
        lemma_sum_take_succ(lens_of(ss), m);
        assert(lens_of(ss).take(ss.len() as int) =~= lens_of(ss));
        assert(sum_lens(ss) == sum_lens(ss.drop_last()) + ss.last().len());
        assert(ss[m] == b.subrange(
            q + prefix_sum(lens_of(ss), m),
            q + prefix_sum(lens_of(ss), m) + ss[m].len(),
        ));
        assert(concat_bytes(ss) == concat_bytes(ss.drop_last()) + ss.last());
        lemma_concat_len(ss.drop_last());
        assert(concat_bytes(ss) =~= b.subrange(q, q + sum_lens(ss)));
    }
}

/// Round trip: a serialized table parses back, at position 0, to the very
/// sequence it was built from, consuming its whole length.
#[verifier::rlimit(60)]
pub proof fn lemma_read_write_strings(ss: Seq<Seq<u8>>)
    requires
        spec_frag_len(ss) <= u32::MAX,
        forall|i: int| 0 <= i < ss.len() ==> is_utf8(#[trigger] ss[i]),
    ensures
        spec_read_strings(spec_write_strings(ss), 0) == Some((spec_frag_len(ss), ss)),
{
    lemma_auto_spec_u32_to_from_le_bytes();
    let b = spec_write_strings(ss);
    let n = ss.len() as int;
    let ls = lens_of(ss);
    assert(forall|k: int| 0 <= k < ls.len() ==> #[trigger] ls[k] >= 0);
    lemma_sum_nonneg(ls);
    lemma_le32_concat_len(offsets_of(ss));
    lemma_le32_concat_len(lens32_of(ss));
    lemma_concat_len(ss);
    assert(b.len() == 4 + 8 * n + sum_lens(ss));
    assert(b.subrange(0, 4) =~= spec_u32_to_le_bytes(ss.len() as u32));
    assert(spec_le32_at(b, 0) == ss.len() as u32);
    let np = spec_le32_at(b, 0) as int;
    assert(np == n);
    let reg_o = le32_concat(offsets_of(ss));
    let reg_l = le32_concat(lens32_of(ss));
    let reg_d = concat_bytes(ss);
    assert(b.subrange(4, 4 + 4 * n) =~= reg_o);
    assert(b.subrange(4 + 4 * n, 4 + 8 * n) =~= reg_l);
    assert(b.subrange(4 + 8 * n, b.len() as int) =~= reg_d);
    let lens = spec_read_lens(b, 0, n);
    let offs = spec_read_offs(b, 0, n);
    assert forall|i: int| 0 <= i < n implies lens[i] == ls[i] && offs[i] == prefix_sum(ls, i) by {
        lemma_prefix_in_range(ls, i);
        lemma_le32_concat_segment(offsets_of(ss), i);
        lemma_le32_concat_segment(lens32_of(ss), i);
        assert(b.subrange(4 + 4 * i, 4 + 4 * i + 4) =~= reg_o.subrange(4 * i, 4 * i + 4));
        assert(b.subrange(4 + 4 * n + 4 * i, 4 + 4 * n + 4 * i + 4) =~= reg_l.subrange(
            4 * i,
            4 * i + 4,
        ));
    };
    assert(lens =~= ls);
    assert forall|i: int| 0 <= i < n implies offs[i] == prefix_sum(lens, i) by {
        assert(lens.take(i) =~= ls.take(i));
    };
    let total = sum(lens);
    assert(total == sum_lens(ss));
    let data = 0 + 4 + 8 * n;
    let parsed = Seq::new(
        n as nat,
        |i: int| b.subrange(data + prefix_sum(lens, i), data + prefix_sum(lens, i) + lens[i]),
    );
    assert forall|i: int| 0 <= i < n implies parsed[i] == ss[i] by {
        lemma_prefix_in_range(ls, i);
        lemma_concat_segment(ss, i);
        assert(lens.take(i) =~= ls.take(i));
        assert(b.subrange(data + prefix_sum(lens, i), data + prefix_sum(lens, i) + lens[i])
            =~= reg_d.subrange(prefix_sum(ls, i), prefix_sum(ls, i) + ss[i].len()));
    };
    assert(parsed =~= ss);
}

/// Serialized size of a string table.
pub proof fn lemma_write_strings_len(ss: Seq<Seq<u8>>)
    ensures
        spec_write_strings(ss).len() == spec_frag_len(ss),
{
    lemma_auto_spec_u32_to_from_le_bytes();
    lemma_le32_concat_len(offsets_of(ss));
    lemma_le32_concat_len(lens32_of(ss));
    lemma_concat_len(ss);
}

/// Every entry of a table that parses is valid UTF-8.
pub proof fn lemma_read_strings_utf8(b: Seq<u8>, pos: int)
    requires
        spec_read_strings(b, pos) is Some,
    ensures
        forall|k: int|
            0 <= k < spec_read_strings(b, pos).unwrap().1.len() ==> is_utf8(
                #[trigger] spec_read_strings(b, pos).unwrap().1[k],
            ),
{
}

/// A table that parses lies within the buffer, behind its position.
pub proof fn lemma_read_strings_bounds(b: Seq<u8>, pos: int)
    requires
        spec_read_strings(b, pos) is Some,
    ensures
        0 <= pos,
        4 <= spec_read_strings(b, pos).unwrap().0,
        pos + spec_read_strings(b, pos).unwrap().0 <= b.len(),
        spec_read_strings(b, pos).unwrap().1.len() <= u32::MAX,
{
    let n = spec_le32_at(b, pos) as int;
    let lens = spec_read_lens(b, pos, n);
    assert(forall|k: int| 0 <= k < lens.len() ==> #[trigger] lens[k] >= 0);
    lemma_sum_nonneg(lens);
}

/// Canonical form: a table that parses re-serializes to exactly the bytes
/// it occupies.
#[verifier::rlimit(60)]
pub proof fn lemma_write_read_strings(b: Seq<u8>, pos: int)
    requires
        spec_read_strings(b, pos) is Some,
    ensures
        ({
            let (l, ss) = spec_read_strings(b, pos).unwrap();
            &&& l == spec_frag_len(ss)
            &&& ss.len() == spec_le32_at(b, pos) as int
            &&& spec_write_strings(ss) == b.subrange(pos, pos + l)
        }),
{
    lemma_auto_spec_u32_to_from_le_bytes();
    let (l, ss) = spec_read_strings(b, pos).unwrap();
    let n = spec_le32_at(b, pos) as int;
    let lens = spec_read_lens(b, pos, n);
    let offs = spec_read_offs(b, pos, n);
    let total = sum(lens);
    let data = pos + 4 + 8 * n;
    assert(forall|k: int| 0 <= k < lens.len() ==> #[trigger] lens[k] >= 0);
    lemma_sum_nonneg(lens);
    assert forall|i: int| 0 <= i < n implies ss[i].len() == lens[i] by {
        lemma_prefix_in_range(lens, i);
    };
    assert(lens_of(ss) =~= lens);
    assert(sum_lens(ss) == total);
    assert(l == spec_frag_len(ss));
    // count field
    assert(spec_u32_to_le_bytes(ss.len() as u32) == b.subrange(pos, pos + 4));
    // offset array
    assert forall|i: int| 0 <= i < n implies spec_u32_to_le_bytes(#[trigger] offsets_of(ss)[i])
        == b.subrange(pos + 4 + 4 * i, pos + 4 + 4 * i + 4) by {
        lemma_prefix_in_range(lens, i);
        assert(offs[i] == prefix_sum(lens, i));
        assert(offsets_of(ss)[i] == prefix_sum(lens, i) as u32);
    };
    lemma_le32_concat_matches(b, pos + 4, offsets_of(ss));
    // length array
    assert forall|i: int| 0 <= i < n implies spec_u32_to_le_bytes(#[trigger] lens32_of(ss)[i])
        == b.subrange(pos + 4 + 4 * n + 4 * i, pos + 4 + 4 * n + 4 * i + 4) by {
        lemma_prefix_in_range(lens, i);
        assert(lens32_of(ss)[i] == lens[i] as u32);
    };
    lemma_le32_concat_matches(b, pos + 4 + 4 * n, lens32_of(ss));
    // data region
    assert forall|i: int| 0 <= i < ss.len() implies #[trigger] ss[i] == b.subrange(
        data + prefix_sum(lens_of(ss), i),
        data + prefix_sum(lens_of(ss), i) + ss[i].len(),
    ) by {
        assert(lens_of(ss).take(i) =~= lens.take(i));
    };
    lemma_concat_matches(b, data, ss);
    assert(spec_write_strings(ss) =~= b.subrange(pos, pos + l));
}

/// Parsing depends only on the bytes of the table itself: the same extent
/// at another position of another buffer parses to the same result.
#[verifier::spinoff_prover]
#[verifier::rlimit(100)]
pub proof fn lemma_read_strings_relocate(b1: Seq<u8>, pos1: int, b2: Seq<u8>, pos2: int)
    requires
        spec_read_strings(b1, pos1) is Some,
        0 <= pos2,
        pos2 + spec_read_strings(b1, pos1).unwrap().0 <= b2.len(),
        b2.subrange(pos2, pos2 + spec_read_strings(b1, pos1).unwrap().0) == b1.subrange(
            pos1,
            pos1 + spec_read_strings(b1, pos1).unwrap().0,
        ),
    ensures
        spec_read_strings(b2, pos2) == spec_read_strings(b1, pos1),
{
    let (l, ss) = spec_read_strings(b1, pos1).unwrap();
    let n = spec_le32_at(b1, pos1) as int;
    let lens = spec_read_lens(b1, pos1, n);
    let offs = spec_read_offs(b1, pos1, n);
    let total = sum(lens);
    assert(forall|k: int| 0 <= k < lens.len() ==> #[trigger] lens[k] >= 0);
    lemma_sum_nonneg(lens);
    let ext1 = b1.subrange(pos1, pos1 + l);
    let ext2 = b2.subrange(pos2, pos2 + l);
    assert forall|o: int| 0 <= o && o + 4 <= l implies #[trigger] spec_le32_at(b2, pos2 + o)
        == spec_le32_at(b1, pos1 + o) by {
        assert(b2.subrange(pos2 + o, pos2 + o + 4) =~= ext2.subrange(o, o + 4));
        assert(b1.subrange(pos1 + o, pos1 + o + 4) =~= ext1.subrange(o, o + 4));
    };
    assert(spec_le32_at(b2, pos2 + 0) == spec_le32_at(b1, pos1 + 0));
    assert(spec_le32_at(b2, pos2) == spec_le32_at(b1, pos1));
    let n2 = spec_le32_at(b2, pos2) as int;
    assert(n2 == n);
    let lens2 = spec_read_lens(b2, pos2, n);
    let offs2 = spec_read_offs(b2, pos2, n);
    assert forall|i: int| 0 <= i < n implies lens2[i] == lens[i] && offs2[i] == offs[i] by {
        let ol = 4 + 4 * n + 4 * i;
        let oo = 4 + 4 * i;
        assert(spec_le32_at(b2, pos2 + ol) == spec_le32_at(b1, pos1 + ol));
        assert(spec_le32_at(b2, pos2 + oo) == spec_le32_at(b1, pos1 + oo));
        assert(pos2 + 4 + 4 * n + 4 * i == pos2 + ol);
        assert(pos1 + 4 + 4 * n + 4 * i == pos1 + ol);
        assert(pos2 + 4 + 4 * i == pos2 + oo);
        assert(pos1 + 4 + 4 * i == pos1 + oo);
    };
    assert(lens2 =~= lens);
    assert(offs2 =~= offs);
    let data1 = pos1 + 4 + 8 * n;
    let data2 = pos2 + 4 + 8 * n;
    let parsed1 = Seq::new(
        n as nat,
        |i: int| b1.subrange(data1 + prefix_sum(lens, i), data1 + prefix_sum(lens, i) + lens[i]),
    );
    let parsed2 = Seq::new(
        n as nat,
        |i: int| b2.subrange(data2 + prefix_sum(lens, i), data2 + prefix_sum(lens, i) + lens[i]),
    );
    assert forall|i: int| 0 <= i < n implies parsed2[i] == parsed1[i] by {
        lemma_prefix_in_range(lens, i);
        let q = 4 + 8 * n + prefix_sum(lens, i);
        assert(b2.subrange(data2 + prefix_sum(lens, i), data2 + prefix_sum(lens, i) + lens[i])
            =~= ext2.subrange(q, q + lens[i]));
        assert(b1.subrange(data1 + prefix_sum(lens, i), data1 + prefix_sum(lens, i) + lens[i])
            =~= ext1.subrange(q, q + lens[i]));
    };
    assert(parsed2 =~= parsed1);
    assert(spec_read_strings(b2, pos2) == spec_read_strings(b1, pos1));
}

/// Reads the string table at byte position `pos` of `buf`: its byte span
/// and its entries, in order.  Fails with `CorruptStringTable` exactly when
/// the model parse fails: on a truncated table, an offset array that does
/// not match the running sums of the length array, or an entry that is not
/// valid UTF-8.
#[verifier::loop_isolation(false)]
#[verifier::rlimit(60)]
pub fn read_strings(pos: usize, buf: &Vec<u8>) -> (r: Result<(usize, Vec<Vec<u8>>), PatchError>)
    ensures
        match r {
            Ok(p) => spec_read_strings(buf@, pos as int) == Some((p.0 as int, p.1.deep_view())),
            Err(e) => spec_read_strings(buf@, pos as int) is None && e
                == PatchError::CorruptStringTable,
        },
{
    if buf.len() < 4 || pos > buf.len() - 4 {
        return Err(PatchError::CorruptStringTable);
    }
    let n32: u32 = read_u32_at(buf, pos);
    let n: usize = n32 as usize;
    let ghost gn = n as int;
    if (pos as u128) + 4 + 8 * (n as u128) > buf.len() as u128 {
        return Err(PatchError::CorruptStringTable);
    }
    assert(pos + 4 + 8 * gn <= buf.len());
    let ghost lens = spec_read_lens(buf@, pos as int, gn);
    let ghost offs = spec_read_offs(buf@, pos as int, gn);
    proof {
        assert(forall|k: int| 0 <= k < lens.len() ==> #[trigger] lens[k] >= 0);
        lemma_sum_nonneg(lens);
    }
    let mut lens_vec: Vec<u32> = Vec::new();
    let mut running: u64 = 0;
    let mut i: usize = 0;
    while i < n
        invariant
            i <= n,
            lens_vec@.len() == i,
            forall|k: int| 0 <= k < i ==> #[trigger] lens_vec@[k] as int == lens[k],
            running == prefix_sum(lens, i as int),
            running <= (i as int) * 0xFFFF_FFFF,
            forall|k: int| 0 <= k < i ==> #[trigger] offs[k] == prefix_sum(lens, k),
        decreases n - i,
    {
        let off_i: u32 = read_u32_at(buf, pos + 4 + 4 * i);
        let len_i: u32 = read_u32_at(buf, pos + 4 + 4 * n + 4 * i);
        proof {
            assert(offs[i as int] == off_i as int);
            assert(lens[i as int] == len_i as int);
        }
        if (off_i as u64) != running {
            proof {
                assert(offs[i as int] != prefix_sum(lens, i as int));
                assert(spec_read_strings(buf@, pos as int) is None);
            }
            return Err(PatchError::CorruptStringTable);
        }
        proof {
            lemma_sum_take_succ(lens, i as int);
        }
        running = running + (len_i as u64);
        lens_vec.push(len_i);
        i = i + 1;
    }
    proof {
        assert(lens.take(gn) =~= lens);
    }
    let total: u64 = running;
    if (pos as u128) + 4 + 8 * (n as u128) + (total as u128) > buf.len() as u128 {
        return Err(PatchError::CorruptStringTable);
    }
    let data: usize = pos + 4 + 8 * n;
    let ghost ss = Seq::new(
        gn as nat,
        |k: int|
            buf@.subrange(
                data + prefix_sum(lens, k),
                data + prefix_sum(lens, k) + lens[k],
            ),
    );
    let mut result: Vec<Vec<u8>> = Vec::new();
    let mut start: usize = data;
    let mut j: usize = 0;
    while j < n
        invariant
            j <= n,
            result@.len() == j,
            forall|k: int| 0 <= k < j ==> #[trigger] result@[k]@ == ss[k],
            forall|k: int| 0 <= k < j ==> is_utf8(#[trigger] ss[k]),
            start == data + prefix_sum(lens, j as int),
        decreases n - j,
    {
        let len_j: u32 = lens_vec[j];
        proof {
            lemma_prefix_in_range(lens, j as int);
        }
        let s: Vec<u8> = slice_to_vec(slice_subrange(buf.as_slice(), start, start + (len_j as usize)));
        if !is_utf8_bytes(&s) {
            proof {
                assert(s@ == ss[j as int]);
                assert(!is_utf8(ss[j as int]));
                assert(spec_read_strings(buf@, pos as int) is None);
            }
            return Err(PatchError::CorruptStringTable);
        }
        proof {
            assert(s@ == ss[j as int]);
        }
        result.push(s);
        proof {
            lemma_sum_take_succ(lens, j as int);
        }
        start = start + (len_j as usize);
        j = j + 1;
    }
    let l: usize = 4 + 8 * n + (total as usize);
    proof {
        assert forall|k: int| 0 <= k < gn implies #[trigger] result.deep_view()[k] == ss[k] by {
            assert(result@[k].deep_view() =~= result@[k]@);
        };
        assert(result.deep_view() =~= ss);
        assert(spec_read_strings(buf@, pos as int) == Some((l as int, ss)));
    }
    Ok((l, result))
}

/// Serializes the full entry sequence as one table fragment, and returns
/// with it the fragment's own offset entry, with positions relative to the
/// fragment start.  The whole table is rebuilt: when any entry's length
/// changes, every position after it moves, so no narrower rewrite exists.
#[verifier::loop_isolation(false)]
#[verifier::rlimit(60)]
pub fn write_strings(strings: &Vec<Vec<u8>>) -> (r: (Vec<u8>, OffsetEntry))
    requires
        spec_frag_len(strings.deep_view()) <= u32::MAX,
    ensures
        r.0@ == spec_write_strings(strings.deep_view()),
        r.0@.len() == spec_frag_len(strings.deep_view()),
        r.1 == spec_frag_entry(strings@.len() as int),
{
    let ghost ss = strings.deep_view();
    let ghost ls = lens_of(ss);
    proof {
        assert(forall|k: int| 0 <= k < ls.len() ==> #[trigger] ls[k] >= 0);
        lemma_sum_nonneg(ls);
        assert(ss.len() == strings@.len());
    }
    let n: usize = strings.len();
    let mut out: Vec<u8> = Vec::new();
    push_u32(&mut out, n as u32);
    proof {
        assert(out@ =~= spec_u32_to_le_bytes(ss.len() as u32) + le32_concat(
            offsets_of(ss).take(0),
        ));
    }
    let mut running: u64 = 0;
    let mut i: usize = 0;
    while i < n
        invariant
            i <= n,
            running == prefix_sum(ls, i as int),
            out@ == spec_u32_to_le_bytes(ss.len() as u32) + le32_concat(
                offsets_of(ss).take(i as int),
            ),
        decreases n - i,
    {
        let ghost oi = i as int;
        proof {
            lemma_prefix_in_range(ls, oi);
        }
        push_u32(&mut out, running as u32);
        proof {
            assert(offsets_of(ss)[oi] == running as u32);
            assert(offsets_of(ss).take(oi + 1).drop_last() =~= offsets_of(ss).take(oi));
            assert(offsets_of(ss).take(oi + 1).last() == offsets_of(ss)[oi]);
            assert(out@ =~= spec_u32_to_le_bytes(ss.len() as u32) + le32_concat(
                offsets_of(ss).take(oi + 1),
            ));
            lemma_sum_take_succ(ls, oi);
            assert(ls[oi] == strings@[oi]@.len());
        }
        running = running + (strings[i].len() as u64);
        i = i + 1;
    }
    proof {
        assert(offsets_of(ss).take(n as int) =~= offsets_of(ss));
    }
    let ghost head_o = spec_u32_to_le_bytes(ss.len() as u32) + le32_concat(offsets_of(ss));
    let mut i2: usize = 0;
    while i2 < n
        invariant
            i2 <= n,
            out@ == head_o + le32_concat(lens32_of(ss).take(i2 as int)),
        decreases n - i2,
    {
        let ghost oi = i2 as int;
        proof {
            lemma_prefix_in_range(ls, oi);
            assert(ls[oi] == strings@[oi]@.len());
        }
        push_u32(&mut out, strings[i2].len() as u32);
        proof {
            assert(lens32_of(ss)[oi] == strings@[oi]@.len() as u32);
            assert(lens32_of(ss).take(oi + 1).drop_last() =~= lens32_of(ss).take(oi));
            assert(lens32_of(ss).take(oi + 1).last() == lens32_of(ss)[oi]);
            assert(out@ =~= head_o + le32_concat(lens32_of(ss).take(oi + 1)));
        }
        i2 = i2 + 1;
    }
    proof {
        assert(lens32_of(ss).take(n as int) =~= lens32_of(ss));
    }
    let ghost head_l = head_o + le32_concat(lens32_of(ss));
    let mut i3: usize = 0;
    while i3 < n
        invariant
            i3 <= n,
            out@ == head_l + concat_bytes(ss.take(i3 as int)),
        decreases n - i3,
    {
        let ghost oi = i3 as int;
        let entry: &Vec<u8> = &strings[i3];
        append_range(&mut out, entry, 0, entry.len());
        proof {
            assert(entry@.subrange(0, entry@.len() as int) =~= entry@);
            assert(ss.take(oi + 1).drop_last() =~= ss.take(oi));
            assert(ss.take(oi + 1).last() == ss[oi]);
            assert(ss[oi] == entry@);
            assert(out@ =~= head_l + concat_bytes(ss.take(oi + 1)));
        }
        i3 = i3 + 1;
    }
    proof {
        lemma_auto_spec_u32_to_from_le_bytes();
        assert(ss.take(n as int) =~= ss);
        assert(out@ =~= spec_write_strings(ss));
        lemma_le32_concat_len(offsets_of(ss));
        lemma_le32_concat_len(lens32_of(ss));
        lemma_concat_len(ss);
    }
    let dp: u64 = 4 + 8 * (n as u64);
    let lp: u64 = 4 + 4 * (n as u64);
    let entry = OffsetEntry { offset_pos: 0, data_pos: dp as u32, lengths_pos: lp as u32 };
    (out, entry)
}

} // verus!
