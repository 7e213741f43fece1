//! Little-endian integers as byte sequences, and other facts about bytes.

use vstd::prelude::*;

verus! {

/// The two bytes of `x`, low byte first.
#[verifier::opaque]
pub open spec fn le16(x: u16) -> Seq<u8> {
    seq![(x & 0xff) as u8, ((x >> 8) & 0xff) as u8]
}

/// The four bytes of `x`, low byte first.
#[verifier::opaque]
pub open spec fn le32(x: u32) -> Seq<u8> {
    seq![
        (x & 0xff) as u8,
        ((x >> 8) & 0xff) as u8,
        ((x >> 16) & 0xff) as u8,
        ((x >> 24) & 0xff) as u8,
    ]
}

/// The eight bytes of `x`, low byte first.
#[verifier::opaque]
pub open spec fn le64(x: u64) -> Seq<u8> {
    seq![
        (x & 0xff) as u8,
        ((x >> 8) & 0xff) as u8,
        ((x >> 16) & 0xff) as u8,
        ((x >> 24) & 0xff) as u8,
        ((x >> 32) & 0xff) as u8,
        ((x >> 40) & 0xff) as u8,
        ((x >> 48) & 0xff) as u8,
        ((x >> 56) & 0xff) as u8,
    ]
}

/// The little-endian `u16` that starts at `pos`.
#[verifier::opaque]
pub open spec fn u16_at(s: Seq<u8>, pos: int) -> u16 {
    (s[pos] as u16) | ((s[pos + 1] as u16) << 8)
}

/// The little-endian `u32` that starts at `pos`.
#[verifier::opaque]
pub open spec fn u32_at(s: Seq<u8>, pos: int) -> u32 {
    (s[pos] as u32) | ((s[pos + 1] as u32) << 8) | ((s[pos + 2] as u32) << 16) | ((s[pos
        + 3] as u32) << 24)
}

/// The little-endian `u64` that starts at `pos`.
#[verifier::opaque]
pub open spec fn u64_at(s: Seq<u8>, pos: int) -> u64 {
    (s[pos] as u64) | ((s[pos + 1] as u64) << 8) | ((s[pos + 2] as u64) << 16) | ((s[pos
        + 3] as u64) << 24) | ((s[pos + 4] as u64) << 32) | ((s[pos + 5] as u64) << 40) | ((s[pos
        + 6] as u64) << 48) | ((s[pos + 7] as u64) << 56)
}

/// A `u16` takes two bytes.
pub broadcast proof fn lemma_le16_len(x: u16)
    ensures
        #[trigger] le16(x).len() == 2,
{
    reveal(le16);
}

/// A `u32` takes four bytes.
pub broadcast proof fn lemma_le32_len(x: u32)
    ensures
        #[trigger] le32(x).len() == 4,
{
    reveal(le32);
}

/// A `u64` takes eight bytes.
pub broadcast proof fn lemma_le64_len(x: u64)
    ensures
        #[trigger] le64(x).len() == 8,
{
    reveal(le64);
}

/// The widths of the integers.
pub broadcast group group_le_len {
    lemma_le16_len,
    lemma_le32_len,
    lemma_le64_len,
}

/// `part` stands in `s` at `pos`.
pub open spec fn stands_at(s: Seq<u8>, pos: int, part: Seq<u8>) -> bool {
    0 <= pos && pos + part.len() <= s.len() && s.subrange(pos, pos + part.len()) == part
}

/// `n` zero bytes.
pub open spec fn zeros(n: nat) -> Seq<u8> {
    Seq::new(n, |i: int| 0u8)
}

/// Every byte of `s` is zero.
pub open spec fn all_zero(s: Seq<u8>) -> bool {
    forall|i: int| 0 <= i < s.len() ==> s[i] == 0
}

/// A sum stands where its parts stand one after the other.
pub proof fn lemma_stands_at_sum(s: Seq<u8>, pos: int, a: Seq<u8>, b: Seq<u8>)
    ensures
        stands_at(s, pos, a + b) <==> stands_at(s, pos, a) && stands_at(
            s,
            pos + a.len(),
            b,
        ),
{
    if stands_at(s, pos, a + b) {
        let whole = s.subrange(pos, pos + (a + b).len());
        assert(s.subrange(pos, pos + a.len()) =~= a) by {
            assert forall|i: int| 0 <= i < a.len() implies s[pos + i] == a[i] by {
                assert(whole[i] == (a + b)[i]);
            }
        }
        assert(s.subrange(pos + a.len(), pos + a.len() + b.len()) =~= b) by {
            assert forall|i: int| 0 <= i < b.len() implies s[pos + a.len() + i] == b[i] by {
                assert(whole[a.len() + i] == (a + b)[a.len() + i]);
            }
        }
    }
    if stands_at(s, pos, a) && stands_at(s, pos + a.len(), b) {
        let left = s.subrange(pos, pos + a.len());
        let right = s.subrange(pos + a.len(), pos + a.len() + b.len());
        assert(s.subrange(pos, pos + (a + b).len()) =~= a + b) by {
            assert forall|i: int| 0 <= i < (a + b).len() implies s[pos + i] == (a + b)[i] by {
                if i < a.len() {
                    assert(left[i] == a[i]);
                } else {
                    assert(right[i - a.len()] == b[i - a.len()]);
                }
            }
        }
    }
}

/// Reading back a `u16` where its bytes stand.
pub proof fn lemma_u16_at(s: Seq<u8>, pos: int, x: u16)
    requires
        stands_at(s, pos, le16(x)),
    ensures
        u16_at(s, pos) == x,
{
    reveal(le16);
    reveal(u16_at);
    let b = s.subrange(pos, pos + 2);
    assert(s[pos] == b[0] && s[pos + 1] == b[1]);
    assert((((x & 0xff) as u8) as u16) | ((((x >> 8) & 0xff) as u8) as u16) << 8 == x)
        by (bit_vector);
}

/// Reading back a `u32` where its bytes stand.
pub proof fn lemma_u32_at(s: Seq<u8>, pos: int, x: u32)
    requires
        stands_at(s, pos, le32(x)),
    ensures
        u32_at(s, pos) == x,
{
    reveal(le32);
    reveal(u32_at);
    let b = s.subrange(pos, pos + 4);
    assert(s[pos] == b[0] && s[pos + 1] == b[1] && s[pos + 2] == b[2] && s[pos + 3] == b[3]);
    assert((((x & 0xff) as u8) as u32) | ((((x >> 8) & 0xff) as u8) as u32) << 8 | ((((x >> 16)
        & 0xff) as u8) as u32) << 16 | ((((x >> 24) & 0xff) as u8) as u32) << 24 == x)
        by (bit_vector);
}

/// Reading back a `u64` where its bytes stand.
pub proof fn lemma_u64_at(s: Seq<u8>, pos: int, x: u64)
    requires
        stands_at(s, pos, le64(x)),
    ensures
        u64_at(s, pos) == x,
{
    reveal(le64);
    reveal(u64_at);
    let b = s.subrange(pos, pos + 8);
    assert(s[pos] == b[0] && s[pos + 1] == b[1] && s[pos + 2] == b[2] && s[pos + 3] == b[3]
        && s[pos + 4] == b[4] && s[pos + 5] == b[5] && s[pos + 6] == b[6] && s[pos + 7] == b[7]);
    assert((((x & 0xff) as u8) as u64) | ((((x >> 8) & 0xff) as u8) as u64) << 8 | ((((x >> 16)
        & 0xff) as u8) as u64) << 16 | ((((x >> 24) & 0xff) as u8) as u64) << 24 | ((((x >> 32)
        & 0xff) as u8) as u64) << 32 | ((((x >> 40) & 0xff) as u8) as u64) << 40 | ((((x >> 48)
        & 0xff) as u8) as u64) << 48 | ((((x >> 56) & 0xff) as u8) as u64) << 56 == x)
        by (bit_vector);
}

/// The bytes of the `u64` read at `pos` are the bytes that stand there.
pub proof fn lemma_le64_of_u64_at(s: Seq<u8>, pos: int)
    requires
        0 <= pos,
        pos + 8 <= s.len(),
    ensures
        le64(u64_at(s, pos)) == s.subrange(pos, pos + 8),
{
    reveal(le64);
    reveal(u64_at);
    let (a, b, c, d) = (s[pos], s[pos + 1], s[pos + 2], s[pos + 3]);
    let (e, f, g, h) = (s[pos + 4], s[pos + 5], s[pos + 6], s[pos + 7]);
    let x = u64_at(s, pos);
    assert((x & 0xff) as u8 == a && ((x >> 8) & 0xff) as u8 == b && ((x >> 16) & 0xff) as u8 == c
        && ((x >> 24) & 0xff) as u8 == d && ((x >> 32) & 0xff) as u8 == e && ((x >> 40)
        & 0xff) as u8 == f && ((x >> 48) & 0xff) as u8 == g && ((x >> 56) & 0xff) as u8 == h)
        by (bit_vector)
        requires
            x == (a as u64) | ((b as u64) << 8) | ((c as u64) << 16) | ((d as u64) << 24) | ((
            e as u64) << 32) | ((f as u64) << 40) | ((g as u64) << 48) | ((h as u64) << 56),
    ;
    assert(le64(x) =~= s.subrange(pos, pos + 8));
}

/// The low half of a length, as a `u16` field holds it.
pub fn low16(x: usize) -> (r: u16)
    ensures
        r as int == x as int % 0x1_0000,
{
    assert((x as u16) as int == x as int % 0x1_0000) by (bit_vector);
    x as u16
}

/// The low half of a length, as a `u32` field holds it.
pub fn low32(x: usize) -> (r: u32)
    ensures
        r as int == x as int % 0x1_0000_0000,
{
    assert((x as u32) as int == x as int % 0x1_0000_0000) by (bit_vector);
    x as u32
}

/// Whether two byte strings are equal.
pub fn same_bytes(a: &[u8], b: &[u8]) -> (r: bool)
    ensures
        r == (a@ == b@),
{
    if a.len() != b.len() {
        return false;
    }
    let mut i: usize = 0;
    while i < a.len()
        invariant
            a@.len() == b@.len(),
            i <= a@.len(),
            forall|j: int| 0 <= j < i ==> a@[j] == b@[j],
        decreases a@.len() - i,
    {
        if a[i] != b[i] {
            return false;
        }
        i += 1;
    }
    assert(a@ =~= b@);
    true
}

/// Whether a byte string holds zeros only.
pub fn is_all_zero(a: &[u8]) -> (r: bool)
    ensures
        r == all_zero(a@),
{
    let mut i: usize = 0;
    while i < a.len()
        invariant
            i <= a@.len(),
            forall|j: int| 0 <= j < i ==> a@[j] == 0,
        decreases a@.len() - i,
    {
        if a[i] != 0 {
            return false;
        }
        i += 1;
    }
    true
}

/// Appends `n` zero bytes.
pub fn push_zeros(v: &mut Vec<u8>, n: usize)
    ensures
        final(v)@ == old(v)@ + zeros(n as nat),
{
    let mut i: usize = 0;
    proof {
        assert(v@ =~= old(v)@ + zeros(0));
    }
    while i < n
        invariant
            i <= n,
            v@ == old(v)@ + zeros(i as nat),
        decreases n - i,
    {
        v.push(0);
        i += 1;
        proof {
            assert(v@ =~= old(v)@ + zeros(i as nat));
        }
    }
}

} // verus!
