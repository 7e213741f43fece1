//! Integers as bytes.

use vstd::prelude::*;

use crate::bytes::{
    le16, le32, le64, lemma_u16_at, lemma_u32_at, lemma_u64_at, u16_at, u32_at, u64_at,
};

verus! {

broadcast use crate::bytes::group_le_len;

/// Two bytes are the digits of a number to the base 256, the lowest first.
pub proof fn law_u16_is_little_endian(s: Seq<u8>, pos: int)
    requires
        0 <= pos,
        pos + 2 <= s.len(),
    ensures
        u16_at(s, pos) == s[pos] + 0x100 * s[pos + 1],
{
    reveal(u16_at);
    let a = s[pos];
    let b = s[pos + 1];
    assert((a as u16) | ((b as u16) << 8) == (a as u16) + 0x100 * (b as u16)) by (bit_vector);
}

/// Four bytes are the digits of a number to the base 256, the lowest first.
pub proof fn law_u32_is_little_endian(s: Seq<u8>, pos: int)
    requires
        0 <= pos,
        pos + 4 <= s.len(),
    ensures
        u32_at(s, pos) == s[pos] + 0x100 * s[pos + 1] + 0x1_0000 * s[pos + 2] + 0x100_0000 * s[pos
            + 3],
{
    reveal(u32_at);
    let a = s[pos];
    let b = s[pos + 1];
    let c = s[pos + 2];
    let d = s[pos + 3];
    assert((a as u32) | ((b as u32) << 8) | ((c as u32) << 16) | ((d as u32) << 24) == (a as u32)
        + 0x100 * (b as u32) + 0x1_0000 * (c as u32) + 0x100_0000 * (d as u32)) by (bit_vector);
}

/// Eight bytes are the digits of a number to the base 256, the lowest first.
pub proof fn law_u64_is_little_endian(s: Seq<u8>, pos: int)
    requires
        0 <= pos,
        pos + 8 <= s.len(),
    ensures
        u64_at(s, pos) == s[pos] + 0x100 * s[pos + 1] + 0x1_0000 * s[pos + 2] + 0x100_0000 * s[pos
            + 3] + 0x1_0000_0000 * s[pos + 4] + 0x100_0000_0000 * s[pos + 5] + 0x1_0000_0000_0000
            * s[pos + 6] + 0x100_0000_0000_0000 * s[pos + 7],
{
    reveal(u64_at);
    let a = s[pos];
    let b = s[pos + 1];
    let c = s[pos + 2];
    let d = s[pos + 3];
    let e = s[pos + 4];
    let f = s[pos + 5];
    let g = s[pos + 6];
    let h = s[pos + 7];
    assert((a as u64) | ((b as u64) << 8) | ((c as u64) << 16) | ((d as u64) << 24) | ((e as u64)
        << 32) | ((f as u64) << 40) | ((g as u64) << 48) | ((h as u64) << 56) == (a as u64) + 0x100
        * (b as u64) + 0x1_0000 * (c as u64) + 0x100_0000 * (d as u64) + 0x1_0000_0000 * (e as u64)
        + 0x100_0000_0000 * (f as u64) + 0x1_0000_0000_0000 * (g as u64) + 0x100_0000_0000_0000 * (
    h as u64)) by (bit_vector);
}

/// A `u16` is written as its two digits to the base 256, the lowest first.
pub proof fn law_written_u16_is_little_endian(x: u16)
    ensures
        le16(x).len() == 2,
        x == le16(x)[0] + 0x100 * le16(x)[1],
{
    assert(le16(x).subrange(0, 2) =~= le16(x));
    lemma_u16_at(le16(x), 0, x);
    law_u16_is_little_endian(le16(x), 0);
}

/// A `u32` is written as its four digits to the base 256, the lowest first.
pub proof fn law_written_u32_is_little_endian(x: u32)
    ensures
        le32(x).len() == 4,
        x == le32(x)[0] + 0x100 * le32(x)[1] + 0x1_0000 * le32(x)[2] + 0x100_0000 * le32(x)[3],
{
    assert(le32(x).subrange(0, 4) =~= le32(x));
    lemma_u32_at(le32(x), 0, x);
    law_u32_is_little_endian(le32(x), 0);
}

/// A `u64` is written as its eight digits to the base 256, the lowest first.
pub proof fn law_written_u64_is_little_endian(x: u64)
    ensures
        le64(x).len() == 8,
        x == le64(x)[0] + 0x100 * le64(x)[1] + 0x1_0000 * le64(x)[2] + 0x100_0000 * le64(x)[3]
            + 0x1_0000_0000 * le64(x)[4] + 0x100_0000_0000 * le64(x)[5] + 0x1_0000_0000_0000
            * le64(x)[6] + 0x100_0000_0000_0000 * le64(x)[7],
{
    assert(le64(x).subrange(0, 8) =~= le64(x));
    lemma_u64_at(le64(x), 0, x);
    law_u64_is_little_endian(le64(x), 0);
}

} // verus!
