//! Little-endian 32-bit reads and writes on byte buffers.
//!
//! Every multi-byte field of the container format is a fixed-width
//! little-endian unsigned 32-bit integer; these helpers tie the executable
//! accesses to `vstd::bytes`' specification functions.

use vstd::bytes::spec_u32_from_le_bytes;
use vstd::bytes::spec_u32_to_le_bytes;
use vstd::bytes::u32_from_le_bytes;
use vstd::bytes::u32_to_le_bytes;
use vstd::prelude::*;
use vstd::slice::slice_subrange;

verus! {

/// The 32-bit value stored little-endian at byte position `pos` of `b`.
pub open spec fn spec_le32_at(b: Seq<u8>, pos: int) -> u32 {
    spec_u32_from_le_bytes(b.subrange(pos, pos + 4))
}

/// Reads the little-endian 32-bit value at `pos`.
pub fn read_u32_at(buf: &Vec<u8>, pos: usize) -> (x: u32)
    requires
        pos + 4 <= buf.len(),
    ensures
        x == spec_le32_at(buf@, pos as int),
{
    let s = slice_subrange(buf.as_slice(), pos, pos + 4);
    u32_from_le_bytes(s)
}

/// Appends the bytes `src[from..to]` to `out`.
pub fn append_range(out: &mut Vec<u8>, src: &Vec<u8>, from: usize, to: usize)
    requires
        from <= to <= src.len(),
    ensures
        final(out)@ == old(out)@ + src@.subrange(from as int, to as int),
{
    let mut j: usize = from;
    proof {
        assert(out@ =~= old(out)@ + src@.subrange(from as int, from as int));
    }
    while j < to
        invariant
            from <= j <= to,
            to <= src.len(),
            out@ == old(out)@ + src@.subrange(from as int, j as int),
        decreases to - j,
    {
        let b: u8 = src[j];
        out.push(b);
        proof {
            assert(out@ =~= old(out)@ + src@.subrange(from as int, j + 1));
        }
        j = j + 1;
    }
}

/// Copies a byte string.
pub fn copy_bytes(src: &Vec<u8>) -> (r: Vec<u8>)
    ensures
        r@ == src@,
{
    let mut v: Vec<u8> = Vec::new();
    append_range(&mut v, src, 0, src.len());
    proof {
        assert(src@.subrange(0, src@.len() as int) =~= src@);
    }
    v
}

/// Appends `x` to `out` as four little-endian bytes.
pub fn push_u32(out: &mut Vec<u8>, x: u32)
    ensures
        final(out)@ == old(out)@ + spec_u32_to_le_bytes(x),
{
    let mut b = u32_to_le_bytes(x);
    out.append(&mut b);
}

} // verus!
