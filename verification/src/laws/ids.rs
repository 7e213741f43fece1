//! Member ids and ballots: what they are on the wire, and which comes first.

use std::cmp::Ordering;

use vstd::prelude::*;

use crate::bytes::{le64, u64_at};
use crate::text::{decimal, law_decimal_is_read_back, lemma_decimal};
use crate::types::{
    ballot_order, byte_order, id_at, id_bytes, id_order, id_writable, lemma_before_nul, BallotView,
};
use crate::version::ProtocolVersion;

verus! {

/// Of two ids the shorter comes first, whatever they hold.
pub proof fn law_shorter_id_comes_first(a: Seq<u8>, b: Seq<u8>)
    requires
        a.len() < b.len(),
    ensures
        id_order(a, b) == Ordering::Less,
        id_order(b, a) == Ordering::Greater,
{
}

proof fn lemma_difference(a: Seq<u8>, b: Seq<u8>, k: int, i: int)
    requires
        a.len() == b.len(),
        0 <= k <= i < a.len(),
        forall|j: int| 0 <= j < i ==> a[j] == b[j],
        a[i] < b[i],
    ensures
        byte_order(a, b, k) == Ordering::Less,
        byte_order(b, a, k) == Ordering::Greater,
    decreases i - k,
{
    if k < i {
        lemma_difference(a, b, k + 1, i);
    }
}

/// Of two ids of one length the first byte in which they differ decides: the one
/// with the smaller byte there comes first.
pub proof fn law_first_different_byte_decides(a: Seq<u8>, b: Seq<u8>, i: int)
    requires
        a.len() == b.len(),
        0 <= i < a.len(),
        forall|j: int| 0 <= j < i ==> a[j] == b[j],
        a[i] < b[i],
    ensures
        id_order(a, b) == Ordering::Less,
        id_order(b, a) == Ordering::Greater,
{
    lemma_difference(a, b, 0, i);
}

/// `a` is shorter than `b`, or differs from it first at `i` and has the smaller
/// byte there.
spec fn lower_at(a: Seq<u8>, b: Seq<u8>, i: int) -> bool {
    a.len() < b.len() || (a.len() == b.len() && 0 <= i < a.len() && a[i] < b[i] && forall|j: int|
        0 <= j < i ==> a[j] == b[j])
}

proof fn lemma_decimals_differ(m: nat, n: nat) -> (i: int)
    requires
        m < n,
    ensures
        lower_at(decimal(m), decimal(n), i),
    decreases n,
{
    lemma_decimal(m);
    lemma_decimal(n);
    if n < 10 {
        0
    } else if m < 10 {
        lemma_decimal(n / 10);
        0
    } else if m / 10 == n / 10 {
        decimal(m).len() - 1
    } else {
        lemma_decimals_differ(m / 10, n / 10)
    }
}

/// Ids that are decimal numbers without leading zeros are ordered as the numbers
/// are.
pub proof fn law_decimal_ids_order_as_numbers(m: nat, n: nat)
    requires
        m < n,
    ensures
        id_order(decimal(m), decimal(n)) == Ordering::Less,
        id_order(decimal(n), decimal(m)) == Ordering::Greater,
{
    let i = lemma_decimals_differ(m, n);
    if decimal(m).len() == decimal(n).len() {
        law_first_different_byte_decides(decimal(m), decimal(n), i);
    }
}

/// A ballot of a lower round comes first, whoever owns the two.
pub proof fn law_ballot_round_comes_first(a: BallotView, b: BallotView)
    requires
        a.ballot_id < b.ballot_id,
    ensures
        ballot_order(a, b) == Ordering::Less,
        ballot_order(b, a) == Ordering::Greater,
{
}

/// Ballots of one round are ordered by their owners: a shorter id comes first,
/// and of two as long the first different byte decides.
pub proof fn law_ballots_of_one_round_order_by_owner(a: BallotView, b: BallotView, i: int)
    requires
        a.ballot_id == b.ballot_id,
        a.member_id.len() < b.member_id.len() || (a.member_id.len() == b.member_id.len() && 0 <= i
            < a.member_id.len() && a.member_id[i] < b.member_id[i] && forall|j: int|
            0 <= j < i ==> a.member_id[j] == b.member_id[j]),
    ensures
        ballot_order(a, b) == Ordering::Less,
        ballot_order(b, a) == Ordering::Greater,
{
    if a.member_id.len() == b.member_id.len() {
        law_first_different_byte_decides(a.member_id, b.member_id, i);
    }
}

/// From version 4 on an id field holds the text, a zero byte, and whatever
/// follows it. The writer fills it up with zeros. Every text of up to 63 bytes
/// without a zero byte is read from such a field, and written as one.
pub proof fn law_id_field_holds_the_text(
    s: Seq<u8>,
    pos: int,
    id: Seq<u8>,
    v: ProtocolVersion,
)
    requires
        v is V4 || v is V5 || v is V6,
        id.len() <= 63,
        forall|i: int| 0 <= i < id.len() ==> id[i] != 0,
        0 <= pos,
        pos + 64 <= s.len(),
        forall|i: int| 0 <= i < id.len() ==> s[pos + i] == id[i],
        s[pos + id.len()] == 0,
    ensures
        id_at(s, pos, v) == Some((id, pos + 64)),
        id_writable(id, v),
        id_bytes(id, v).len() == 64,
        forall|i: int|
            0 <= i < 64 ==> #[trigger] id_bytes(id, v)[i] == (if i < id.len() {
                id[i]
            } else {
                0
            }),
{
    let field = s.subrange(pos, pos + 64);
    let n = id.len() as int;
    assert forall|i: int| 0 <= i < n implies field[i] != 0 by {
        assert(s[pos + i] == id[i]);
    }
    assert(field[n] == s[pos + n]);
    lemma_before_nul(field, n);
    assert(field.take(n) =~= id);
}

/// From version 4 on an id field without a zero byte is refused, and so is one
/// that does not fit.
pub proof fn law_unterminated_id_is_refused(s: Seq<u8>, pos: int, v: ProtocolVersion)
    requires
        v is V4 || v is V5 || v is V6,
        0 <= pos,
        pos + 64 > s.len() || forall|i: int| 0 <= i < 64 ==> #[trigger] s[pos + i] != 0,
    ensures
        id_at(s, pos, v) is None,
{
    if pos + 64 <= s.len() {
        let field = s.subrange(pos, pos + 64);
        assert forall|i: int| 0 <= i < 64 implies field[i] != 0 by {
            assert(field[i] == s[pos + i]);
        }
        lemma_before_nul(field, 64);
        assert(field.take(64) =~= field);
    }
}

/// Up to version 3 an id field is a number. The id of a number above zero is its
/// decimal text, and that of zero is empty; each is written as that number.
pub proof fn law_numeric_id_is_its_number(s: Seq<u8>, pos: int, n: u64, v: ProtocolVersion)
    requires
        v is V1 || v is V2 || v is V3,
        0 <= pos,
        pos + 8 <= s.len(),
        u64_at(s, pos) == n,
    ensures
        ({
            let id = if n == 0 {
                Seq::empty()
            } else {
                decimal(n as nat)
            };
            &&& id_at(s, pos, v) == Some((id, pos + 8))
            &&& id_bytes(id, v) == le64(n)
        }),
{
    if n > 0 {
        law_decimal_is_read_back(n);
    }
}

} // verus!
