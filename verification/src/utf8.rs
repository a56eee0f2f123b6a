//! UTF-8 validity, stated over byte sequences and checked executably.
//!
//! String-table entries must be valid UTF-8; a table whose raw bytes are not
//! is corrupt.  Validity is defined here from the encoding rules themselves:
//! one to four bytes per scalar value, no overlong forms, no surrogates,
//! nothing above the last scalar value.

use vstd::prelude::*;

verus! {

/// A continuation byte: high bits `10`.
pub open spec fn is_cont(b: u8) -> bool {
    0x80 <= b <= 0xBF
}

/// Admissible second byte of a three-byte sequence led by `b0`.  The two
/// special leads exclude overlong forms (`0xE0`) and surrogates (`0xED`).
pub open spec fn ok_second_of_3(b0: u8, b1: u8) -> bool {
    if b0 == 0xE0 {
        0xA0 <= b1 <= 0xBF
    } else if b0 == 0xED {
        0x80 <= b1 <= 0x9F
    } else {
        is_cont(b1)
    }
}

/// Admissible second byte of a four-byte sequence led by `b0`.  The two
/// special leads exclude overlong forms (`0xF0`) and values past the last
/// scalar value (`0xF4`).
pub open spec fn ok_second_of_4(b0: u8, b1: u8) -> bool {
    if b0 == 0xF0 {
        0x90 <= b1 <= 0xBF
    } else if b0 == 0xF4 {
        0x80 <= b1 <= 0x8F
    } else {
        is_cont(b1)
    }
}

/// Length of the well-formed encoded scalar value at the front of `b`,
/// or 0 when the front of `b` is not one.
pub open spec fn utf8_step(b: Seq<u8>) -> int {
    if b.len() == 0 {
        0
    } else {
        let b0 = b[0];
        if b0 < 0x80 {
            1
        } else if 0xC2 <= b0 <= 0xDF {
            if b.len() >= 2 && is_cont(b[1]) {
                2
            } else {
                0
            }
        } else if 0xE0 <= b0 <= 0xEF {
            if b.len() >= 3 && ok_second_of_3(b0, b[1]) && is_cont(b[2]) {
                3
            } else {
                0
            }
        } else if 0xF0 <= b0 <= 0xF4 {
            if b.len() >= 4 && ok_second_of_4(b0, b[1]) && is_cont(b[2]) && is_cont(b[3]) {
                4
            } else {
                0
            }
        } else {
            0
        }
    }
}

/// `b` is a well-formed UTF-8 encoding: a sequence of well-formed encoded
/// scalar values covering all of `b`.
pub open spec fn is_utf8(b: Seq<u8>) -> bool
    decreases b.len(),
{
    b.len() == 0 || (utf8_step(b) > 0 && is_utf8(b.skip(utf8_step(b))))
}

/// Executable form of `utf8_step`, reading at position `i` of `buf`.
fn utf8_step_at(buf: &Vec<u8>, i: usize) -> (k: usize)
    requires
        i < buf.len(),
    ensures
        k == utf8_step(buf@.skip(i as int)),
{
    let ghost tail = buf@.skip(i as int);
    let b0 = buf[i];
    let rem: usize = buf.len() - i;
    if b0 < 0x80 {
        1
    } else if 0xC2 <= b0 && b0 <= 0xDF {
        if rem >= 2 && 0x80 <= buf[i + 1] && buf[i + 1] <= 0xBF {
            2
        } else {
            0
        }
    } else if 0xE0 <= b0 && b0 <= 0xEF {
        if rem >= 3 {
            let b1 = buf[i + 1];
            let b2 = buf[i + 2];
            let second_ok: bool = if b0 == 0xE0 {
                0xA0 <= b1 && b1 <= 0xBF
            } else if b0 == 0xED {
                0x80 <= b1 && b1 <= 0x9F
            } else {
                0x80 <= b1 && b1 <= 0xBF
            };
            if second_ok && 0x80 <= b2 && b2 <= 0xBF {
                3
            } else {
                0
            }
        } else {
            0
        }
    } else if 0xF0 <= b0 && b0 <= 0xF4 {
        if rem >= 4 {
            let b1 = buf[i + 1];
            let b2 = buf[i + 2];
            let b3 = buf[i + 3];
            let second_ok: bool = if b0 == 0xF0 {
                0x90 <= b1 && b1 <= 0xBF
            } else if b0 == 0xF4 {
                0x80 <= b1 && b1 <= 0x8F
            } else {
                0x80 <= b1 && b1 <= 0xBF
            };
            if second_ok && 0x80 <= b2 && b2 <= 0xBF && 0x80 <= b3 && b3 <= 0xBF {
                4
            } else {
                0
            }
        } else {
            0
        }
    } else {
        0
    }
}

/// Decides whether `buf` is a well-formed UTF-8 encoding.
pub fn is_utf8_bytes(buf: &Vec<u8>) -> (r: bool)
    ensures
        r == is_utf8(buf@),
{
    let mut i: usize = 0;
    proof {
        assert(buf@.skip(0) =~= buf@);
    }
    while i < buf.len()
        invariant
            i <= buf.len(),
            is_utf8(buf@) <==> is_utf8(buf@.skip(i as int)),
        decreases buf.len() - i,
    {
        let k = utf8_step_at(buf, i);
        if k == 0 {
            assert(!is_utf8(buf@.skip(i as int)));
            return false;
        }
        proof {
            assert(buf@.skip(i as int).skip(k as int) =~= buf@.skip(i + k));
        }
        i = i + k;
    }
    assert(buf@.skip(i as int) =~= Seq::<u8>::empty());
    true
}

} // verus!
