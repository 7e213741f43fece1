//! The 64-bit Rabin fingerprint that checks every message and checkpoint block.
//!
//! A fingerprint is a remainder modulo a fixed polynomial over GF(2), with the
//! coefficients in reflected bit order: shifting right by one multiplies by the
//! indeterminate. Data is absorbed a byte at a time. The code absorbs eight
//! bytes per step with eight tables, which gives the same value.

use vstd::prelude::*;

use crate::bytes::u64_at;

verus! {

/// The polynomial. It is also the fingerprint of the empty string.
pub const POLY: u64 = 0xa795d0f2_9b4dcdf8;

/// Multiplies a remainder by the indeterminate, modulo `poly`.
pub open spec fn times_x(poly: u64, f: u64) -> u64 {
    if f & 1 == 1 {
        (f >> 1) ^ poly
    } else {
        f >> 1
    }
}

/// Multiplies a remainder by the `n`th power of the indeterminate.
pub open spec fn times_x_pow(poly: u64, f: u64, n: nat) -> u64
    decreases n,
{
    if n == 0 {
        f
    } else {
        times_x(poly, times_x_pow(poly, f, (n - 1) as nat))
    }
}

/// One byte absorbed into the remainder `f`.
pub open spec fn absorb(poly: u64, f: u64, byte: u8) -> u64 {
    times_x_pow(poly, f ^ (byte as u64), 8)
}

/// The bytes of `data` absorbed into `init`, first to last.
pub open spec fn absorb_all(poly: u64, init: u64, data: Seq<u8>) -> u64
    decreases data.len(),
{
    if data.len() == 0 {
        init
    } else {
        absorb(poly, absorb_all(poly, init, data.drop_last()), data.last())
    }
}

/// The fingerprint of `data`, continued from `init`.
pub open spec fn fp_from(init: u64, data: Seq<u8>) -> u64 {
    absorb_all(POLY, init, data)
}

/// The fingerprint of `data`.
pub open spec fn fp(data: Seq<u8>) -> u64 {
    fp_from(POLY, data)
}

proof fn lemma_times_x_linear(poly: u64, a: u64, b: u64)
    ensures
        times_x(poly, a ^ b) == times_x(poly, a) ^ times_x(poly, b),
{
    assert(times_x(poly, a ^ b) == times_x(poly, a) ^ times_x(poly, b)) by (bit_vector);
}

pub(crate) proof fn lemma_pow_linear(poly: u64, a: u64, b: u64, n: nat)
    ensures
        times_x_pow(poly, a ^ b, n) == times_x_pow(poly, a, n) ^ times_x_pow(poly, b, n),
    decreases n,
{
    if n > 0 {
        let m = (n - 1) as nat;
        lemma_pow_linear(poly, a, b, m);
        lemma_times_x_linear(poly, times_x_pow(poly, a, m), times_x_pow(poly, b, m));
    }
}

proof fn lemma_pow_sum(poly: u64, f: u64, m: nat, n: nat)
    ensures
        times_x_pow(poly, times_x_pow(poly, f, m), n) == times_x_pow(poly, f, m + n),
    decreases n,
{
    if n > 0 {
        lemma_pow_sum(poly, f, m, (n - 1) as nat);
    }
}

/// Eight steps, written out.
pub(crate) open spec fn eight_steps(poly: u64, f: u64) -> u64 {
    times_x(
        poly,
        times_x(
            poly,
            times_x(
                poly,
                times_x(
                    poly,
                    times_x(poly, times_x(poly, times_x(poly, times_x(poly, f)))),
                ),
            ),
        ),
    )
}

pub(crate) proof fn lemma_eight_steps(poly: u64, f: u64)
    ensures
        times_x_pow(poly, f, 8) == eight_steps(poly, f),
{
    reveal_with_fuel(times_x_pow, 9);
}

/// A remainder with an empty low byte just moves down.
proof fn lemma_pow8_moves(poly: u64, f: u64)
    requires
        f & 0xff == 0,
    ensures
        times_x_pow(poly, f, 8) == f >> 8,
{
    lemma_eight_steps(poly, f);
    assert(eight_steps(poly, f) == f >> 8) by (bit_vector)
        requires
            f & 0xff == 0,
    ;
}

/// Eight steps split into the low byte's part and the rest.
proof fn lemma_pow8_split(poly: u64, f: u64)
    ensures
        times_x_pow(poly, f, 8) == (f >> 8) ^ times_x_pow(poly, f & 0xff, 8),
{
    let hi = f & !0xffu64;
    let lo = f & 0xff;
    assert(f == hi ^ lo && hi & 0xff == 0 && hi >> 8 == f >> 8) by (bit_vector)
        requires
            hi == f & !0xffu64,
            lo == f & 0xff,
    ;
    lemma_pow_linear(poly, hi, lo, 8);
    lemma_pow8_moves(poly, hi);
}

/// A byte parked `m` bits up comes down to the low byte in `m` steps.
proof fn lemma_comes_down(poly: u64, b: u64, m: u64)
    requires
        b <= 0xff,
        m == 0 || m == 8 || m == 16 || m == 24 || m == 32 || m == 40 || m == 48 || m == 56,
    ensures
        times_x_pow(poly, b << m, m as nat) == b,
    decreases m,
{
    if m == 0 {
        assert(b << 0u64 == b) by (bit_vector);
    } else {
        let k = (m - 8) as u64;
        let f = b << m;
        assert(f & 0xff == 0 && f >> 8 == b << k) by (bit_vector)
            requires
                b <= 0xff,
                8 <= m <= 56,
                k == m - 8,
                f == b << m,
        ;
        lemma_pow8_moves(poly, f);
        lemma_comes_down(poly, b, k);
        lemma_pow_sum(poly, f, 8, k as nat);
    }
}

/// A byte parked `m` bits up contributes what its table row says.
proof fn lemma_parked(poly: u64, b: u64, m: u64)
    requires
        b <= 0xff,
        m == 0 || m == 8 || m == 16 || m == 24 || m == 32 || m == 40 || m == 48 || m == 56,
    ensures
        times_x_pow(poly, b << m, 64) == times_x_pow(poly, b, (64 - m) as nat),
{
    lemma_comes_down(poly, b, m);
    lemma_pow_sum(poly, b << m, m as nat, (64 - m) as nat);
}

/// One more byte absorbed is the same byte parked above the earlier ones.
proof fn lemma_absorb_parks(poly: u64, f: u64, m: u64, byte: u8)
    requires
        m == 0 || m == 8 || m == 16 || m == 24 || m == 32 || m == 40 || m == 48 || m == 56,
    ensures
        absorb(poly, times_x_pow(poly, f, m as nat), byte) == times_x_pow(
            poly,
            f ^ ((byte as u64) << m),
            (m + 8) as nat,
        ),
{
    let b = byte as u64;
    lemma_comes_down(poly, b, m);
    lemma_pow_linear(poly, f, b << m, m as nat);
    lemma_pow_sum(poly, f ^ (b << m), m as nat, 8);
}

/// Eight bytes absorbed one by one are one 64-bit word absorbed at once.
proof fn lemma_absorb_word(poly: u64, f: u64, data: Seq<u8>)
    requires
        data.len() == 8,
    ensures
        absorb_all(poly, f, data) == times_x_pow(poly, f ^ u64_at(data, 0), 64),
{
    reveal(u64_at);
    let (a, b, c, d) = (data[0], data[1], data[2], data[3]);
    let (e, g, h, i) = (data[4], data[5], data[6], data[7]);
    let f1 = f ^ ((a as u64) << 0u64);
    let f2 = f1 ^ ((b as u64) << 8u64);
    let f3 = f2 ^ ((c as u64) << 16u64);
    let f4 = f3 ^ ((d as u64) << 24u64);
    let f5 = f4 ^ ((e as u64) << 32u64);
    let f6 = f5 ^ ((g as u64) << 40u64);
    let f7 = f6 ^ ((h as u64) << 48u64);
    let f8 = f7 ^ ((i as u64) << 56u64);
    lemma_absorb_parks(poly, f, 0, a);
    lemma_absorb_parks(poly, f1, 8, b);
    lemma_absorb_parks(poly, f2, 16, c);
    lemma_absorb_parks(poly, f3, 24, d);
    lemma_absorb_parks(poly, f4, 32, e);
    lemma_absorb_parks(poly, f5, 40, g);
    lemma_absorb_parks(poly, f6, 48, h);
    lemma_absorb_parks(poly, f7, 56, i);
    assert(f8 == f ^ ((a as u64) | ((b as u64) << 8) | ((c as u64) << 16) | ((d as u64) << 24) | ((
    e as u64) << 32) | ((g as u64) << 40) | ((h as u64) << 48) | ((i as u64) << 56)))
        by (bit_vector)
        requires
            f8 == f ^ ((a as u64) << 0u64) ^ ((b as u64) << 8u64) ^ ((c as u64) << 16u64) ^ ((
            d as u64) << 24u64) ^ ((e as u64) << 32u64) ^ ((g as u64) << 40u64) ^ ((h as u64)
                << 48u64) ^ ((i as u64) << 56u64),
    ;
    let d0 = data.take(0);
    let d1 = data.take(1);
    let d2 = data.take(2);
    let d3 = data.take(3);
    let d4 = data.take(4);
    let d5 = data.take(5);
    let d6 = data.take(6);
    let d7 = data.take(7);
    assert(data.drop_last() =~= d7 && d7.drop_last() =~= d6 && d6.drop_last() =~= d5);
    assert(d5.drop_last() =~= d4 && d4.drop_last() =~= d3 && d3.drop_last() =~= d2);
    assert(d2.drop_last() =~= d1 && d1.drop_last() =~= d0);
    assert(absorb_all(poly, f, d0) == f);
    assert(absorb_all(poly, f, d1) == times_x_pow(poly, f1, 8));
    assert(absorb_all(poly, f, d2) == times_x_pow(poly, f2, 16));
    assert(absorb_all(poly, f, d3) == times_x_pow(poly, f3, 24));
    assert(absorb_all(poly, f, d4) == times_x_pow(poly, f4, 32));
    assert(absorb_all(poly, f, d5) == times_x_pow(poly, f5, 40));
    assert(absorb_all(poly, f, d6) == times_x_pow(poly, f6, 48));
    assert(absorb_all(poly, f, d7) == times_x_pow(poly, f7, 56));
}

/// Absorbing a concatenation is absorbing its parts one after the other.
pub proof fn law_fingerprint_chains(init: u64, a: Seq<u8>, b: Seq<u8>)
    ensures
        fp_from(fp_from(init, a), b) == fp_from(init, a + b),
{
    lemma_absorb_sum(POLY, init, a, b);
}

proof fn lemma_absorb_sum(poly: u64, init: u64, a: Seq<u8>, b: Seq<u8>)
    ensures
        absorb_all(poly, absorb_all(poly, init, a), b) == absorb_all(poly, init, a + b),
    decreases b.len(),
{
    if b.len() == 0 {
        assert(a + b =~= a);
    } else {
        lemma_absorb_sum(poly, init, a, b.drop_last());
        assert((a + b).drop_last() =~= a + b.drop_last());
        assert((a + b).last() == b.last());
    }
}

/// The fingerprint of nothing is the polynomial.
pub proof fn law_fingerprint_of_empty()
    ensures
        fp(Seq::<u8>::empty()) == POLY,
        fp(Seq::<u8>::empty()) == 0xa795d0f2_9b4dcdf8u64,
{
}

proof fn lemma_times_x_injective(a: u64, b: u64)
    requires
        times_x(POLY, a) == times_x(POLY, b),
    ensures
        a == b,
{
    assert(times_x(0xa795d0f2_9b4dcdf8u64, a) == times_x(0xa795d0f2_9b4dcdf8u64, b) ==> a == b)
        by (bit_vector);
}

proof fn lemma_pow_injective(a: u64, b: u64, n: nat)
    requires
        times_x_pow(POLY, a, n) == times_x_pow(POLY, b, n),
    ensures
        a == b,
    decreases n,
{
    if n > 0 {
        let m = (n - 1) as nat;
        lemma_times_x_injective(times_x_pow(POLY, a, m), times_x_pow(POLY, b, m));
        lemma_pow_injective(a, b, m);
    }
}

/// Two different starting points stay apart over the same data.
pub proof fn law_fingerprint_keeps_starts_apart(init1: u64, init2: u64, data: Seq<u8>)
    requires
        init1 != init2,
    ensures
        fp_from(init1, data) != fp_from(init2, data),
    decreases data.len(),
{
    if data.len() > 0 {
        let rest = data.drop_last();
        law_fingerprint_keeps_starts_apart(init1, init2, rest);
        let a = absorb_all(POLY, init1, rest);
        let b = absorb_all(POLY, init2, rest);
        let c = data.last() as u64;
        if absorb(POLY, a, data.last()) == absorb(POLY, b, data.last()) {
            lemma_pow_injective(a ^ c, b ^ c, 8);
            assert(a == b) by (bit_vector)
                requires
                    a ^ c == b ^ c,
            ;
        }
    }
}

/// Changing one byte always changes the fingerprint.
pub proof fn law_fingerprint_sees_one_byte(init: u64, data: Seq<u8>, i: int, byte: u8)
    requires
        0 <= i < data.len(),
        byte != data[i],
    ensures
        fp_from(init, data.update(i, byte)) != fp_from(init, data),
{
    let head = data.take(i);
    let tail = data.skip(i + 1);
    let old1 = seq![data[i]];
    let new1 = seq![byte];
    let changed = data.update(i, byte);
    assert(data =~= (head + old1) + tail);
    assert(changed =~= (head + new1) + tail);
    law_fingerprint_chains(init, head + old1, tail);
    law_fingerprint_chains(init, head + new1, tail);
    let f = fp_from(init, head);
    assert((head + old1).drop_last() =~= head);
    assert((head + new1).drop_last() =~= head);
    let a = data[i] as u64;
    let b = byte as u64;
    if absorb(POLY, f, data[i]) == absorb(POLY, f, byte) {
        lemma_pow_injective(f ^ a, f ^ b, 8);
        assert(a == b) by (bit_vector)
            requires
                f ^ a == f ^ b,
        ;
    }
    law_fingerprint_keeps_starts_apart(
        absorb(POLY, f, data[i]),
        absorb(POLY, f, byte),
        tail,
    );
}

/// The tables by which eight bytes are absorbed at once: row `k` holds, for
/// each byte value, what that byte contributes after `8 * (k + 1)` steps.
pub struct Tables {
    poly: u64,
    rows: Vec<Vec<u64>>,
}

impl Tables {
    /// The polynomial that the tables were built for.
    pub closed spec fn poly_of(self) -> u64 {
        self.poly
    }

    #[verifier::type_invariant]
    closed spec fn wf(self) -> bool {
        &&& self.rows@.len() == 8
        &&& forall|k: int| 0 <= k < 8 ==> #[trigger] Self::row_ok(self.poly, self.rows@[k]@, k)
    }

    closed spec fn row_ok(poly: u64, row: Seq<u64>, k: int) -> bool {
        &&& row.len() == 256
        &&& forall|i: int|
            0 <= i < 256 ==> #[trigger] row[i] == times_x_pow(poly, i as u64, (8 * (k + 1)) as nat)
    }

    /// Builds the tables for a polynomial.
    pub fn new(poly: u64) -> (r: Tables)
        ensures
            r.poly_of() == poly,
    {
        let mut first: Vec<u64> = Vec::new();
        let mut i: u64 = 0;
        while i < 256
            invariant
                0 <= i <= 256,
                first@.len() == i,
                forall|j: int|
                    0 <= j < i ==> #[trigger] first@[j] == times_x_pow(poly, j as u64, 8),
            decreases 256 - i,
        {
            let mut f: u64 = i;
            let mut n: u64 = 0;
            while n < 8
                invariant
                    n <= 8,
                    f == times_x_pow(poly, i, n as nat),
                decreases 8 - n,
            {
                if f & 1 == 1 {
                    f = (f >> 1) ^ poly;
                } else {
                    f = f >> 1;
                }
                n += 1;
            }
            first.push(f);
            i += 1;
        }
        let mut rows: Vec<Vec<u64>> = Vec::new();
        rows.push(first);
        let mut k: usize = 1;
        while k < 8
            invariant
                1 <= k <= 8,
                rows@.len() == k,
                forall|j: int| 0 <= j < k ==> #[trigger] Self::row_ok(poly, rows@[j]@, j),
            decreases 8 - k,
        {
            let mut row: Vec<u64> = Vec::new();
            let mut i: usize = 0;
            assert(Self::row_ok(poly, rows@[k - 1]@, k - 1));
            assert(Self::row_ok(poly, rows@[0]@, 0));
            while i < 256
                invariant
                    i <= 256,
                    1 <= k < 8,
                    rows@.len() == k,
                    Self::row_ok(poly, rows@[k - 1]@, k - 1),
                    Self::row_ok(poly, rows@[0]@, 0),
                    row@.len() == i,
                    forall|j: int|
                        0 <= j < i ==> #[trigger] row@[j] == times_x_pow(
                            poly,
                            j as u64,
                            (8 * (k + 1)) as nat,
                        ),
                decreases 256 - i,
            {
                let f: u64 = rows[k - 1][i];
                let low: usize = (f & 0xff) as usize;
                assert((f & 0xff) < 256) by (bit_vector);
                let g: u64 = (f >> 8) ^ rows[0][low];
                proof {
                    lemma_pow8_split(poly, f);
                    lemma_pow_sum(poly, i as u64, (8 * k) as nat, 8);
                    assert(8 * (k - 1 + 1) == 8 * k);
                    assert(8 * k + 8 == 8 * (k + 1));
                }
                row.push(g);
                i += 1;
            }
            rows.push(row);
            k += 1;
        }
        Tables { poly, rows }
    }

    /// What byte value `i` contributes after `8 * (k + 1)` steps.
    fn entry(&self, k: usize, i: u64) -> (r: u64)
        requires
            k < 8,
            i < 256,
        ensures
            r == times_x_pow(self.poly_of(), i, (8 * (k + 1)) as nat),
    {
        proof {
            use_type_invariant(self);
            assert(Self::row_ok(self.poly, self.rows@[k as int]@, k as int));
        }
        self.rows[k][i as usize]
    }

    /// Absorbs one 64-bit word, the low byte first.
    fn absorb_word(&self, x: u64) -> (r: u64)
        ensures
            r == times_x_pow(self.poly_of(), x, 64),
    {
        let b0: u64 = x & 0xff;
        let b1: u64 = (x >> 8) & 0xff;
        let b2: u64 = (x >> 16) & 0xff;
        let b3: u64 = (x >> 24) & 0xff;
        let b4: u64 = (x >> 32) & 0xff;
        let b5: u64 = (x >> 40) & 0xff;
        let b6: u64 = (x >> 48) & 0xff;
        let b7: u64 = x >> 56;
        proof {
            let p = self.poly_of();
            assert(b0 < 256 && b1 < 256 && b2 < 256 && b3 < 256 && b4 < 256 && b5 < 256 && b6 < 256
                && b7 < 256 && x == (b0 << 0u64) ^ (b1 << 8u64) ^ (b2 << 16u64) ^ (b3 << 24u64) ^ (
            b4 << 32u64) ^ (b5 << 40u64) ^ (b6 << 48u64) ^ (b7 << 56u64)) by (bit_vector)
                requires
                    b0 == x & 0xff,
                    b1 == (x >> 8) & 0xff,
                    b2 == (x >> 16) & 0xff,
                    b3 == (x >> 24) & 0xff,
                    b4 == (x >> 32) & 0xff,
                    b5 == (x >> 40) & 0xff,
                    b6 == (x >> 48) & 0xff,
                    b7 == x >> 56,
            ;
            let s1 = (b0 << 0u64) ^ (b1 << 8u64);
            let s2 = s1 ^ (b2 << 16u64);
            let s3 = s2 ^ (b3 << 24u64);
            let s4 = s3 ^ (b4 << 32u64);
            let s5 = s4 ^ (b5 << 40u64);
            let s6 = s5 ^ (b6 << 48u64);
            lemma_pow_linear(p, b0 << 0u64, b1 << 8u64, 64);
            lemma_pow_linear(p, s1, b2 << 16u64, 64);
            lemma_pow_linear(p, s2, b3 << 24u64, 64);
            lemma_pow_linear(p, s3, b4 << 32u64, 64);
            lemma_pow_linear(p, s4, b5 << 40u64, 64);
            lemma_pow_linear(p, s5, b6 << 48u64, 64);
            lemma_pow_linear(p, s6, b7 << 56u64, 64);
            lemma_parked(p, b0, 0);
            lemma_parked(p, b1, 8);
            lemma_parked(p, b2, 16);
            lemma_parked(p, b3, 24);
            lemma_parked(p, b4, 32);
            lemma_parked(p, b5, 40);
            lemma_parked(p, b6, 48);
            lemma_parked(p, b7, 56);
        }
        self.entry(7, b0) ^ self.entry(6, b1) ^ self.entry(5, b2) ^ self.entry(4, b3) ^ self.entry(
            3,
            b4,
        ) ^ self.entry(2, b5) ^ self.entry(1, b6) ^ self.entry(0, b7)
    }

    /// Absorbs `data` into `init`, eight bytes at a time and then byte by byte.
    pub fn absorb_slice(&self, init: u64, data: &[u8]) -> (r: u64)
        ensures
            r == absorb_all(self.poly_of(), init, data@),
    {
        let mut f: u64 = init;
        let mut pos: usize = 0;
        let ghost poly = self.poly_of();
        assert(data@.take(0) =~= Seq::<u8>::empty());
        while data.len() - pos >= 8
            invariant
                pos <= data@.len(),
                poly == self.poly_of(),
                f == absorb_all(poly, init, data@.take(pos as int)),
            decreases data@.len() - pos,
        {
            let w: u64 = word_at(data, pos);
            proof {
                reveal(u64_at);
                let chunk = data@.subrange(pos as int, pos + 8);
                lemma_absorb_word(poly, f, chunk);
                assert(u64_at(chunk, 0) == u64_at(data@, pos as int));
                lemma_absorb_sum(poly, init, data@.take(pos as int), chunk);
                assert(data@.take(pos + 8) =~= data@.take(pos as int) + chunk);
            }
            f = self.absorb_word(f ^ w);
            pos += 8;
        }
        while pos < data.len()
            invariant
                pos <= data@.len(),
                poly == self.poly_of(),
                f == absorb_all(poly, init, data@.take(pos as int)),
            decreases data@.len() - pos,
        {
            let x: u64 = f ^ (data[pos] as u64);
            let low: u64 = x & 0xff;
            proof {
                assert(x & 0xff < 256) by (bit_vector);
                lemma_pow8_split(poly, x);
                let byte = data@[pos as int] as u64;
                assert((f >> 8) == ((f ^ byte) >> 8)) by (bit_vector)
                    requires
                        byte < 256,
                ;
                assert(data@.take(pos + 1).drop_last() =~= data@.take(pos as int));
            }
            f = (f >> 8) ^ self.entry(0, low);
            pos += 1;
        }
        assert(data@.take(data@.len() as int) =~= data@);
        f
    }
}

/// Loads the little-endian word at `pos`.
fn word_at(data: &[u8], pos: usize) -> (r: u64)
    requires
        pos + 8 <= data@.len(),
    ensures
        r == u64_at(data@, pos as int),
{
    reveal(u64_at);
    (data[pos] as u64) | ((data[pos + 1] as u64) << 8) | ((data[pos + 2] as u64) << 16) | ((data[pos
        + 3] as u64) << 24) | ((data[pos + 4] as u64) << 32) | ((data[pos + 5] as u64) << 40) | ((
    data[pos + 6] as u64) << 48) | ((data[pos + 7] as u64) << 56)
}

/// The fingerprint of `data`.
pub fn fingerprint(data: &[u8]) -> (r: u64)
    ensures
        r == fp(data@),
{
    fingerprint_with(POLY, data)
}

/// Continues a fingerprint from `init` over `data`, so that a message in
/// several buffers can be fingerprinted one buffer at a time.
pub fn fingerprint_with(init: u64, data: &[u8]) -> (r: u64)
    ensures
        r == fp_from(init, data@),
{
    let tables = Tables::new(POLY);
    tables.absorb_slice(init, data)
}

} // verus!
