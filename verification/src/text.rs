//! Numbers written out as text, and text as bytes.

use vstd::prelude::*;
use vstd::string::StringSliceAdditionalSpecFns;
use vstd::utf8::{
    encode_utf8, encode_utf8_decode_utf8, encode_utf8_valid_utf8, is_ascii_chars,
    is_ascii_chars_encode_utf8, valid_utf8,
};

verus! {

/// The decimal digits of `n`, most significant first, with no leading zero.
pub open spec fn decimal(n: nat) -> Seq<u8>
    decreases n,
{
    if n < 10 {
        seq![(48 + n) as u8]
    } else {
        decimal(n / 10).push((48 + n % 10) as u8)
    }
}

/// Blank characters that may stand before a number.
pub open spec fn is_blank(b: u8) -> bool {
    b == 0x20 || 0x09 <= b <= 0x0d
}

/// What `b` stands for as a digit. Bytes that are no digit give 99.
pub open spec fn digit(b: u8) -> nat {
    if 48 <= b <= 57 {
        (b - 48) as nat
    } else if 97 <= b <= 102 {
        (b - 87) as nat
    } else if 65 <= b <= 70 {
        (b - 55) as nat
    } else {
        99
    }
}

/// Every byte of `s` is a digit in base `radix`.
pub open spec fn all_digits(s: Seq<u8>, radix: nat) -> bool {
    forall|i: int| 0 <= i < s.len() ==> digit(#[trigger] s[i]) < radix
}

/// The value of a string of digits.
pub open spec fn value_of(s: Seq<u8>, radix: nat) -> nat
    decreases s.len(),
{
    if s.len() == 0 {
        0
    } else {
        value_of(s.drop_last(), radix) * radix + digit(s.last())
    }
}

/// `s` without its leading blanks.
pub open spec fn unblanked(s: Seq<u8>) -> Seq<u8>
    decreases s.len(),
{
    if s.len() > 0 && is_blank(s[0]) {
        unblanked(s.skip(1))
    } else {
        s
    }
}

/// `s` starts with a sign.
pub open spec fn is_signed(s: Seq<u8>) -> bool {
    s.len() > 0 && (s[0] == 43 || s[0] == 45)
}

/// `s` starts with a minus sign.
pub open spec fn is_negative(s: Seq<u8>) -> bool {
    s.len() > 0 && s[0] == 45
}

/// `s` without its sign.
pub open spec fn unsigned(s: Seq<u8>) -> Seq<u8> {
    if is_signed(s) {
        s.skip(1)
    } else {
        s
    }
}

/// `s` starts with `0x` and a hexadecimal digit.
pub open spec fn is_hex(s: Seq<u8>) -> bool {
    s.len() >= 3 && s[0] == 48 && (s[1] == 120 || s[1] == 88) && digit(s[2]) < 16
}

/// The base that a number's prefix selects.
pub open spec fn radix_of(s: Seq<u8>) -> nat {
    if is_hex(s) {
        16
    } else if s.len() > 0 && s[0] == 48 {
        8
    } else {
        10
    }
}

/// The digits behind a number's prefix.
pub open spec fn digits_of(s: Seq<u8>) -> Seq<u8> {
    if is_hex(s) {
        s.skip(2)
    } else {
        s
    }
}

/// `s` is empty, or a number with nothing behind it: blanks, a sign, a prefix
/// for the base, and at least one digit.
pub open spec fn is_number(s: Seq<u8>) -> bool {
    s.len() == 0 || {
        let u = unsigned(unblanked(s));
        digits_of(u).len() > 0 && all_digits(digits_of(u), radix_of(u))
    }
}

/// The `u64` that the text `s` stands for. Nothing stands for zero, a value too
/// large for the largest one, and a minus sign negates modulo 2^64.
pub open spec fn number(s: Seq<u8>) -> u64 {
    let t = unblanked(s);
    let u = unsigned(t);
    let n = value_of(digits_of(u), radix_of(u));
    if s.len() == 0 {
        0
    } else if n > u64::MAX {
        u64::MAX
    } else if is_negative(t) && n > 0 {
        (0x1_0000_0000_0000_0000 - n) as u64
    } else {
        n as u64
    }
}

/// The value of `b` as a digit in base `radix`, if it is one.
fn digit_in(b: u8, radix: u64) -> (r: Option<u64>)
    requires
        radix <= 16,
    ensures
        r == (if digit(b) < radix {
            Some(digit(b) as u64)
        } else {
            None
        }),
{
    let d: u64 = if 48 <= b && b <= 57 {
        (b - 48) as u64
    } else if 97 <= b && b <= 102 {
        (b - 87) as u64
    } else if 65 <= b && b <= 70 {
        (b - 55) as u64
    } else {
        99
    };
    if d < radix {
        Some(d)
    } else {
        None
    }
}

/// Number of blanks that a text starts with.
fn skip_blanks(value: &[u8]) -> (r: usize)
    ensures
        r <= value@.len(),
        value@.skip(r as int) == unblanked(value@),
{
    let ghost s = value@;
    let len: usize = value.len();
    let mut i: usize = 0;
    assert(s.skip(0) =~= s);
    while i < len && (value[i] == 0x20 || (0x09 <= value[i] && value[i] <= 0x0d))
        invariant
            i <= len,
            len == value@.len(),
            s == value@,
            unblanked(s.skip(i as int)) == unblanked(s),
        decreases len - i,
    {
        assert(s.skip(i as int).skip(1) =~= s.skip(i + 1));
        i += 1;
    }
    i
}

/// Reads digits from `start` to the end of a text. It gives nothing if a byte is
/// none, and no value if the value is too large.
fn read_radix(value: &[u8], start: usize, radix: u64) -> (r: Option<Option<u64>>)
    requires
        start <= value@.len(),
        8 <= radix <= 16,
    ensures
        ({
            let digits = value@.skip(start as int);
            let n = value_of(digits, radix as nat);
            &&& r is Some <==> all_digits(digits, radix as nat)
            &&& r is Some ==> r->Some_0 == (if n > u64::MAX {
                None
            } else {
                Some(n as u64)
            })
        }),
{
    let ghost digits = value@.skip(start as int);
    let len: usize = value.len();
    let mut i: usize = start;
    let mut acc: Option<u64> = Some(0);
    assert(digits.take(0) =~= Seq::<u8>::empty());
    while i < len
        invariant
            start <= i <= len,
            len == value@.len(),
            digits == value@.skip(start as int),
            8 <= radix <= 16,
            forall|j: int| 0 <= j < i - start ==> digit(#[trigger] digits[j]) < radix,
            acc == (if value_of(digits.take(i - start), radix as nat) > u64::MAX {
                None
            } else {
                Some(value_of(digits.take(i - start), radix as nat) as u64)
            }),
        decreases len - i,
    {
        let ghost k = i - start;
        let ghost v = value_of(digits.take(k), radix as nat);
        proof {
            assert(digits[k] == value@[i as int]);
            assert(digits.take(k + 1).drop_last() =~= digits.take(k));
            assert(value_of(digits.take(k + 1), radix as nat) == v * radix + digit(digits[k]));
            assert(v <= v * radix as nat) by (nonlinear_arith)
                requires
                    v >= 0,
                    radix >= 1,
            ;
        }
        let d: u64 = match digit_in(value[i], radix) {
            Some(d) => d,
            None => {
                assert(!(digit(digits[k]) < radix));
                return None;
            },
        };
        acc = match acc {
            Some(a) => match a.checked_mul(radix) {
                Some(m) => m.checked_add(d),
                None => None,
            },
            None => None,
        };
        i += 1;
    }
    assert(digits.take(len - start) =~= digits);
    Some(acc)
}

/// Reads a whole text as a number, and gives nothing if it is not one.
pub fn parse_number(value: &[u8]) -> (r: Option<u64>)
    ensures
        r == (if is_number(value@) {
            Some(number(value@))
        } else {
            None
        }),
{
    let len: usize = value.len();
    if len == 0 {
        return Some(0);
    }
    let mut i: usize = skip_blanks(value);
    let ghost t = unblanked(value@);
    let mut negative: bool = false;
    if i < len && (value[i] == 43 || value[i] == 45) {
        negative = value[i] == 45;
        i += 1;
    }
    let ghost u = unsigned(t);
    assert(u =~= value@.skip(i as int));
    let mut radix: u64 = 10;
    if i < len && value[i] == 48 {
        if len - i >= 3 && (value[i + 1] == 120 || value[i + 1] == 88) && digit_in(
            value[i + 2],
            16,
        ).is_some() {
            radix = 16;
            i += 2;
        } else {
            radix = 8;
        }
    }
    assert(digits_of(u) =~= value@.skip(i as int));
    assert(radix_of(u) == radix);
    if i == len {
        return None;
    }
    match read_radix(value, i, radix) {
        None => None,
        Some(None) => Some(u64::MAX),
        Some(Some(n)) => if negative && n > 0 {
            Some((u64::MAX - n) + 1)
        } else {
            Some(n)
        },
    }
}

/// The decimal digits of `n`, as bytes.
pub fn decimal_bytes(n: u64) -> (r: Vec<u8>)
    ensures
        r@ == decimal(n as nat),
    decreases n,
{
    if n < 10 {
        let mut v: Vec<u8> = Vec::new();
        v.push(48 + n as u8);
        assert(v@ =~= decimal(n as nat));
        v
    } else {
        let mut v = decimal_bytes(n / 10);
        v.push(48 + (n % 10) as u8);
        v
    }
}

/// Decimal digits are digits, and their value is the number.
pub proof fn lemma_decimal(n: nat)
    ensures
        decimal(n).len() > 0,
        forall|i: int| 0 <= i < decimal(n).len() ==> 48 <= #[trigger] decimal(n)[i] <= 57,
        all_digits(decimal(n), 10),
        value_of(decimal(n), 10) == n,
        n > 0 ==> decimal(n)[0] != 48,
    decreases n,
{
    let d = decimal(n);
    if n < 10 {
        assert(d.drop_last() =~= Seq::<u8>::empty());
        assert(value_of(d.drop_last(), 10) == 0);
    } else {
        lemma_decimal(n / 10);
        assert(d.drop_last() =~= decimal(n / 10));
    }
}

/// A number below ten to the `k` has at most `k` digits.
proof fn lemma_decimal_len(n: nat, k: nat)
    requires
        n < vstd::arithmetic::power::pow(10, k),
        k >= 1,
    ensures
        decimal(n).len() <= k,
    decreases k,
{
    vstd::arithmetic::power::lemma_pow1(10);
    if n >= 10 {
        if k == 1 {
        } else {
            assert(vstd::arithmetic::power::pow(10, k) == 10 * vstd::arithmetic::power::pow(
                10,
                (k - 1) as nat,
            )) by {
                reveal(vstd::arithmetic::power::pow);
            }
            lemma_decimal_len(n / 10, (k - 1) as nat);
        }
    }
}

/// A `u64` has at most twenty decimal digits.
pub proof fn lemma_decimal_u64_len(n: nat)
    requires
        n <= u64::MAX,
    ensures
        decimal(n).len() <= 20,
{
    reveal_with_fuel(vstd::arithmetic::power::pow, 21);
    assert(vstd::arithmetic::power::pow(10, 20) == 100_000_000_000_000_000_000);
    lemma_decimal_len(n, 20);
}

/// Decimal text stands for the number it was made from.
pub proof fn law_decimal_is_read_back(n: u64)
    requires
        n > 0,
    ensures
        is_number(decimal(n as nat)),
        number(decimal(n as nat)) == n,
{
    let d = decimal(n as nat);
    lemma_decimal(n as nat);
    assert(48 <= d[0] <= 57);
    assert(unblanked(d) == d);
    assert(unsigned(d) == d);
    assert(!is_hex(d));
}

/// Reads bytes as UTF-8, through `std::str::from_utf8`: that call succeeds on
/// exactly the valid encodings, and the text it gives is made of those bytes.
#[verifier::external_body]
pub(crate) fn utf8_text(bytes: &[u8]) -> (r: Option<&str>)
    ensures
        r is Some <==> valid_utf8(bytes@),
        r is Some ==> r->Some_0.spec_bytes() == bytes@,
{
    std::str::from_utf8(bytes).ok()
}

/// The characters of a string of ASCII bytes.
pub open spec fn ascii_chars(bytes: Seq<u8>) -> Seq<char> {
    Seq::new(bytes.len(), |i: int| bytes[i] as char)
}

/// ASCII bytes as a string.
pub fn ascii_string(bytes: &[u8]) -> (r: String)
    requires
        forall|i: int| 0 <= i < bytes@.len() ==> #[trigger] bytes@[i] < 128,
    ensures
        r@ == ascii_chars(bytes@),
{
    let ghost chars = ascii_chars(bytes@);
    proof {
        assert(is_ascii_chars(chars));
        is_ascii_chars_encode_utf8(chars);
        assert(encode_utf8(chars) =~= bytes@);
        encode_utf8_valid_utf8(chars);
    }
    match utf8_text(bytes) {
        Some(s) => {
            proof {
                encode_utf8_decode_utf8(chars);
                encode_utf8_decode_utf8(s@);
            }
            s.to_owned()
        },
        None => String::new(),
    }
}

/// A number as text.
pub open spec fn number_text(n: nat) -> Seq<char> {
    ascii_chars(decimal(n))
}

/// A number as text.
pub fn number_string(n: u64) -> (r: String)
    ensures
        r@ == number_text(n as nat),
{
    let digits = decimal_bytes(n);
    proof {
        lemma_decimal(n as nat);
    }
    ascii_string(digits.as_slice())
}

} // verus!
