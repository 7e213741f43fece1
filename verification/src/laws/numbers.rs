//! Numbers as text.

use vstd::prelude::*;

use crate::text::{
    all_digits, decimal, digit, digits_of, is_hex, is_number, is_signed, number, unblanked,
    unsigned, value_of,
};

verus! {

/// The largest number that is told apart: larger ones all count as this.
pub open spec fn at_most_max(n: int) -> int {
    if n > 0xffff_ffff_ffff_ffff {
        0xffff_ffff_ffff_ffff
    } else {
        n
    }
}

/// A number below ten is its digit. A larger one is the number without its last
/// digit, followed by that digit.
pub proof fn law_decimal_digits(n: nat, d: nat)
    requires
        d < 10,
    ensures
        decimal(d).len() == 1,
        decimal(d)[0] == 48 + d,
        n > 0 ==> decimal(10 * n + d).len() == decimal(n).len() + 1,
        n > 0 ==> decimal(10 * n + d).drop_last() == decimal(n),
        n > 0 ==> decimal(10 * n + d).last() == 48 + d,
{
    if n > 0 {
        assert((10 * n + d) / 10 == n);
        assert(decimal(10 * n + d).drop_last() =~= decimal(n));
    }
}

proof fn lemma_digit_behind(s: Seq<u8>, radix: nat, d: u8)
    requires
        radix > 0,
    ensures
        value_of(s.push(d), radix) == value_of(s, radix) * radix + digit(d),
        all_digits(s.push(d), radix) <==> all_digits(s, radix) && digit(d) < radix,
{
    assert(s.push(d).drop_last() =~= s);
    if all_digits(s.push(d), radix) {
        assert forall|i: int| 0 <= i < s.len() implies digit(#[trigger] s[i]) < radix by {
            assert(s.push(d)[i] == s[i]);
        }
        assert(s.push(d)[s.len() as int] == d);
    }
}

proof fn lemma_scaled(n: int, radix: int, d: int)
    requires
        n >= 0,
        radix >= 1,
        0 <= d,
    ensures
        at_most_max(at_most_max(n) * radix + d) == at_most_max(n * radix + d),
{
    if n > 0xffff_ffff_ffff_ffff {
        assert(n * radix >= n && 0xffff_ffff_ffff_ffffint * radix >= 0xffff_ffff_ffff_ffff)
            by (nonlinear_arith)
            requires
                n >= 0,
                radix >= 1,
        ;
    }
}

/// A digit behind a decimal number makes it ten times the number, plus the digit.
/// A number that is too large counts as the largest.
pub proof fn law_decimal_number_grows(s: Seq<u8>, d: u8)
    requires
        s.len() > 0,
        49 <= s[0] <= 57,
        forall|i: int| 0 <= i < s.len() ==> 48 <= #[trigger] s[i] <= 57,
        48 <= d <= 57,
    ensures
        is_number(seq![s[0]]),
        number(seq![s[0]]) == s[0] - 48,
        is_number(s.push(d)),
        number(s.push(d)) == at_most_max(number(s) * 10 + (d - 48)),
{
    let one = seq![s[0]];
    let t = s.push(d);
    assert(one.drop_last() =~= Seq::<u8>::empty());
    assert(value_of(one.drop_last(), 10) == 0);
    assert(t[0] == s[0]);
    assert(unblanked(one) == one && unblanked(s) == s && unblanked(t) == t);
    assert forall|i: int| 0 <= i < t.len() implies digit(#[trigger] t[i]) < 10 by {
        if i < s.len() {
            assert(t[i] == s[i]);
        }
    }
    lemma_digit_behind(s, 10, d);
    lemma_scaled(value_of(s, 10) as int, 10, d - 48);
}

/// A number that starts with a zero is octal: a digit behind it makes it eight
/// times the number, plus the digit.
pub proof fn law_octal_number_grows(s: Seq<u8>, d: u8)
    requires
        s.len() > 0,
        s[0] == 48,
        forall|i: int| 0 <= i < s.len() ==> 48 <= #[trigger] s[i] <= 55,
        48 <= d <= 55,
    ensures
        is_number(seq![48u8]),
        number(seq![48u8]) == 0,
        is_number(s.push(d)),
        number(s.push(d)) == at_most_max(number(s) * 8 + (d - 48)),
{
    let one = seq![48u8];
    let t = s.push(d);
    assert(one.drop_last() =~= Seq::<u8>::empty());
    assert(value_of(one.drop_last(), 8) == 0);
    assert(t[0] == s[0]);
    assert(unblanked(one) == one && unblanked(s) == s && unblanked(t) == t);
    assert forall|i: int| 0 <= i < t.len() implies digit(#[trigger] t[i]) < 8 by {
        if i < s.len() {
            assert(t[i] == s[i]);
        }
    }
    if s.len() >= 2 {
        assert(48 <= s[1] <= 55);
    }
    assert(t.len() >= 2 && 48 <= t[1] <= 55);
    lemma_digit_behind(s, 8, d);
    lemma_scaled(value_of(s, 8) as int, 8, d - 48);
}

/// What a hexadecimal digit is worth, lower case or upper.
pub open spec fn hex_worth(d: u8, n: int) -> bool {
    ||| 48 <= d <= 57 && n == d - 48
    ||| 97 <= d <= 102 && n == d - 97 + 10
    ||| 65 <= d <= 70 && n == d - 65 + 10
}

/// A number that starts with `0x` is hexadecimal: a digit behind it makes it
/// sixteen times the number, plus the digit.
pub proof fn law_hex_number_grows(s: Seq<u8>, d: u8, n: int)
    requires
        s.len() >= 2,
        s[0] == 48,
        s[1] == 120 || s[1] == 88,
        forall|i: int| 2 <= i < s.len() ==> exists|w: int| #[trigger] hex_worth(#[trigger] s[i], w),
        hex_worth(d, n),
    ensures
        is_number(s.push(d)),
        s.len() == 2 ==> number(s.push(d)) == n,
        s.len() > 2 ==> number(s.push(d)) == at_most_max(number(s) * 16 + n),
{
    let t = s.push(d);
    assert(unblanked(s) == s && unblanked(t) == t);
    assert(digit(d) == n);
    let body = s.skip(2);
    assert(t.skip(2) =~= body.push(d));
    assert forall|i: int| 0 <= i < body.len() implies digit(#[trigger] body[i]) < 16 by {
        let w = choose|w: int| #[trigger] hex_worth(s[i + 2], w);
        assert(hex_worth(s[i + 2], w));
    }
    lemma_digit_behind(body, 16, d);
    if s.len() == 2 {
        assert(body =~= Seq::<u8>::empty());
        assert(t[2] == d);
    } else {
        assert(digit(body[0]) < 16);
        assert(s[2] == body[0] && t[2] == s[2]);
        lemma_scaled(value_of(body, 16) as int, 16, n);
    }
}

/// Blanks before a number make no difference.
pub proof fn law_blanks_do_not_count(s: Seq<u8>, blank: u8)
    requires
        s.len() > 0,
        blank == 32 || 9 <= blank <= 13,
    ensures
        is_number(seq![blank] + s) == is_number(s),
        is_number(s) ==> number(seq![blank] + s) == number(s),
{
    let t = seq![blank] + s;
    assert(t.skip(1) =~= s);
    assert(unblanked(t) == unblanked(s));
}

/// A plus sign makes no difference, and a minus sign negates modulo 2^64.
pub proof fn law_signs_count_modulo_the_word(s: Seq<u8>)
    requires
        s.len() > 0,
        48 <= s[0] <= 57,
        is_number(s),
    ensures
        is_number(seq![43u8] + s),
        number(seq![43u8] + s) == number(s),
        is_number(seq![45u8] + s),
        number(s) < 0xffff_ffff_ffff_ffff ==> number(seq![45u8] + s) == (0x1_0000_0000_0000_0000
            - number(s)) % 0x1_0000_0000_0000_0000,
{
    let p = seq![43u8] + s;
    let m = seq![45u8] + s;
    assert(p.skip(1) =~= s && m.skip(1) =~= s);
    assert(unblanked(p) == p && unblanked(m) == m && unblanked(s) == s);
    assert(unsigned(s) == s);
}

/// A decimal number with anything behind it that is no digit is no number.
pub proof fn law_trailing_text_is_refused(s: Seq<u8>, i: int)
    requires
        s.len() > 0,
        49 <= s[0] <= 57,
        0 <= i < s.len(),
        s[i] < 48 || s[i] > 57,
    ensures
        !is_number(s),
{
    assert(unblanked(s) == s);
    assert(unsigned(s) == s);
    assert(digit(s[i]) >= 10);
}

/// Nothing stands for zero, and blanks or a sign alone for no number.
pub proof fn law_empty_text_is_zero(c: u8)
    requires
        c == 32 || 9 <= c <= 13 || c == 43 || c == 45,
    ensures
        is_number(Seq::<u8>::empty()),
        number(Seq::<u8>::empty()) == 0,
        !is_number(seq![c]),
{
    let s = seq![c];
    let none = Seq::<u8>::empty();
    assert(s.skip(1) =~= none);
    assert(unblanked(none) == none);
    assert(!is_hex(none) && digits_of(none) == none);
    if c == 43 || c == 45 {
        assert(unblanked(s) == s && is_signed(s));
        assert(unsigned(s) =~= none);
    } else {
        assert(unblanked(s) =~= none);
    }
}

} // verus!
