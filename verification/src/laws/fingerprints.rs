//! The fingerprint as a remainder of polynomials.

use vstd::prelude::*;

use crate::fprint::{absorb_all, eight_steps, fp_from, lemma_eight_steps, lemma_pow_linear, POLY};

verus! {

/// The bytes of two texts of one length, added bit by bit.
pub open spec fn xor_bytes(a: Seq<u8>, b: Seq<u8>) -> Seq<u8> {
    Seq::new(a.len(), |i: int| a[i] ^ b[i])
}

/// Fingerprints add up: adding two starting points and two texts bit by bit adds
/// their fingerprints bit by bit.
pub proof fn law_fingerprint_is_linear(i: u64, j: u64, a: Seq<u8>, b: Seq<u8>)
    requires
        a.len() == b.len(),
    ensures
        fp_from(i ^ j, xor_bytes(a, b)) == fp_from(i, a) ^ fp_from(j, b),
    decreases a.len(),
{
    if a.len() > 0 {
        let x = a.drop_last();
        let y = b.drop_last();
        law_fingerprint_is_linear(i, j, x, y);
        assert(xor_bytes(a, b).drop_last() =~= xor_bytes(x, y));
        let f = absorb_all(POLY, i, x);
        let g = absorb_all(POLY, j, y);
        let p = a.last();
        let q = b.last();
        assert((f ^ g) ^ ((p ^ q) as u64) == (f ^ (p as u64)) ^ (g ^ (q as u64))) by (bit_vector);
        lemma_pow_linear(POLY, f ^ (p as u64), g ^ (q as u64), 8);
    }
}

/// A byte that cancels the lowest byte of the remainder shifts it out.
pub proof fn law_cancelled_byte_is_shifted_out(f: u64, byte: u8)
    requires
        f % 0x100 == byte,
    ensures
        fp_from(f, seq![byte]) == f / 0x100,
{
    let b = byte as u64;
    let one = seq![byte];
    assert(one.drop_last() =~= Seq::<u8>::empty());
    assert(absorb_all(POLY, f, one.drop_last()) == f);
    lemma_eight_steps(POLY, f ^ b);
    let g = f ^ b;
    assert(g & 0xff == 0 && g >> 8 == f / 0x100) by (bit_vector)
        requires
            f % 0x100 == b,
            g == f ^ b,
    ;
    assert(g & 0xff == 0 ==> eight_steps(POLY, g) == g >> 8) by (bit_vector);
}

/// The highest bit of a byte is the polynomial itself, and each lower bit is the
/// one above it times the indeterminate: shifted down by one, with the polynomial
/// added for a bit that falls out. Together with [`law_fingerprint_is_linear`] and
/// [`law_cancelled_byte_is_shifted_out`] this fixes every fingerprint.
pub proof fn law_bits_of_a_byte(byte: u8)
    requires
        byte < 0x80,
    ensures
        fp_from(0, seq![0x80u8]) == 0xa795d0f2_9b4dcdf8u64,
        fp_from(0, seq![byte]) == ({
            let above = fp_from(0, seq![(2 * byte) as u8]);
            if above % 2 == 1 {
                (above / 2) ^ 0xa795d0f2_9b4dcdf8u64
            } else {
                above / 2
            }
        }),
{
    let none = Seq::<u8>::empty();
    let top = seq![0x80u8];
    let low = seq![byte];
    let two = (2 * byte) as u8;
    let high = seq![two];
    assert(top.drop_last() =~= none && low.drop_last() =~= none && high.drop_last() =~= none);
    assert(absorb_all(POLY, 0, none) == 0);
    let b = byte as u64;
    let c = two as u64;
    assert(0u64 ^ b == b && 0u64 ^ c == c && 0u64 ^ 0x80u64 == 0x80u64) by (bit_vector);
    lemma_eight_steps(POLY, 0x80);
    lemma_eight_steps(POLY, b);
    lemma_eight_steps(POLY, c);
    assert(eight_steps(0xa795d0f2_9b4dcdf8u64, 0x80) == 0xa795d0f2_9b4dcdf8u64) by (bit_vector);
    let above = eight_steps(POLY, c);
    assert(eight_steps(0xa795d0f2_9b4dcdf8u64, b) == if above % 2 == 1 {
        (above / 2) ^ 0xa795d0f2_9b4dcdf8u64
    } else {
        above / 2
    }) by (bit_vector)
        requires
            b < 0x80,
            c == 2 * b,
            above == eight_steps(0xa795d0f2_9b4dcdf8u64, c),
    ;
}

} // verus!
