//! Values that several messages share: member ids, ballots, replica sets.

use std::cmp::Ordering;

use vstd::prelude::*;
use vstd::string::StringSliceAdditionalSpecFns;
use vstd::utf8::valid_utf8;

use crate::bytes::{
    le16, le32, le64, lemma_stands_at_sum, lemma_u16_at, lemma_u32_at, lemma_u64_at, low16, low32,
    push_zeros, same_bytes, stands_at, u16_at, u32_at, u64_at, zeros,
};
use crate::marshal::{decodes, refused, short, string_bytes, view_opt, Halt, Reader, Writer};
use crate::text::{
    decimal, decimal_bytes, is_number, law_decimal_is_read_back, lemma_decimal,
    lemma_decimal_u64_len, number, parse_number, utf8_text,
};
use crate::version::ProtocolVersion;

verus! {

broadcast use crate::bytes::group_le_len;

/// Width of a member id on the wire from version 4 on.
pub const MEMBER_ID_SIZE: usize = 64;

/// Longest member id: the last byte of the field is always a terminator.
pub const MAX_MEMBER_ID_LEN: usize = 63;

/// Longest configuration cookie of a member set.
pub const MAX_MEMBER_SET_COOKIE_LEN: u32 = 8192;

/// The bytes of `s` before its first zero byte, all of them if there is none.
pub open spec fn before_nul(s: Seq<u8>) -> Seq<u8>
    decreases s.len(),
{
    if s.len() == 0 || s[0] == 0 {
        Seq::empty()
    } else {
        seq![s[0]] + before_nul(s.skip(1))
    }
}

/// Width of a member id on the wire.
pub open spec fn id_size(v: ProtocolVersion) -> int {
    if v.num() > 3 {
        64
    } else {
        8
    }
}

/// The text of a member id that was sent as a number.
pub open spec fn id_text(n: u64) -> Seq<u8> {
    if n == 0 {
        Seq::empty()
    } else {
        decimal(n as nat)
    }
}

/// `id` can be written at version `v`. A numeric id field takes numbers only.
pub open spec fn id_writable(id: Seq<u8>, v: ProtocolVersion) -> bool {
    id.len() <= 63 && (v.num() <= 3 ==> is_number(id))
}

/// A member id on the wire.
pub open spec fn id_bytes(id: Seq<u8>, v: ProtocolVersion) -> Seq<u8> {
    if v.num() > 3 {
        id + zeros((64 - id.len()) as nat)
    } else {
        le64(number(id))
    }
}

/// The member id that a reader makes of the bytes of `id`.
pub open spec fn id_canon(id: Seq<u8>, v: ProtocolVersion) -> Seq<u8> {
    if v.num() > 3 {
        before_nul(id)
    } else {
        id_text(number(id))
    }
}

/// The member id at `pos`, and where it ends. A 64-byte field without a zero
/// byte is no member id.
pub open spec fn id_at(s: Seq<u8>, pos: int, v: ProtocolVersion) -> Option<(Seq<u8>, int)> {
    if pos + id_size(v) > s.len() {
        None
    } else if v.num() > 3 {
        let id = before_nul(s.subrange(pos, pos + 64));
        if id.len() < 64 {
            Some((id, pos + 64))
        } else {
            None
        }
    } else {
        Some((id_text(u64_at(s, pos)), pos + 8))
    }
}

/// Where reading what is no member id stops.
pub open spec fn id_halt(s: Seq<u8>, pos: int, v: ProtocolVersion) -> Halt {
    if pos + id_size(v) > s.len() {
        short(pos)
    } else {
        refused(pos + id_size(v))
    }
}

/// The order of two byte strings, compared byte by byte from `i` on.
pub open spec fn byte_order(a: Seq<u8>, b: Seq<u8>, i: int) -> Ordering
    decreases a.len() - i,
{
    if i < 0 || i >= a.len() || i >= b.len() {
        Ordering::Equal
    } else if a[i] < b[i] {
        Ordering::Less
    } else if a[i] > b[i] {
        Ordering::Greater
    } else {
        byte_order(a, b, i + 1)
    }
}

/// The order of member ids: a shorter id comes first, ids of one length compare
/// byte by byte.
pub open spec fn id_order(a: Seq<u8>, b: Seq<u8>) -> Ordering {
    if a.len() < b.len() {
        Ordering::Less
    } else if a.len() > b.len() {
        Ordering::Greater
    } else {
        byte_order(a, b, 0)
    }
}

pub(crate) proof fn lemma_before_nul(s: Seq<u8>, k: int)
    requires
        0 <= k <= s.len(),
        k < s.len() ==> s[k] == 0,
        forall|i: int| 0 <= i < k ==> s[i] != 0,
    ensures
        before_nul(s) == s.take(k),
    decreases s.len(),
{
    if k == 0 {
        assert(s.take(0) =~= Seq::<u8>::empty());
    } else {
        lemma_before_nul(s.skip(1), k - 1);
        assert(s.take(k) =~= seq![s[0]] + s.skip(1).take(k - 1));
    }
}

/// What stands before the first zero byte is a prefix without zero bytes.
proof fn lemma_before_nul_prefix(s: Seq<u8>)
    ensures
        before_nul(s).len() <= s.len(),
        before_nul(s) == s.take(before_nul(s).len() as int),
        forall|i: int| 0 <= i < before_nul(s).len() ==> before_nul(s)[i] != 0,
        before_nul(s).len() < s.len() ==> s[before_nul(s).len() as int] == 0,
        before_nul(before_nul(s)) == before_nul(s),
    decreases s.len(),
{
    let b = before_nul(s);
    if s.len() == 0 || s[0] == 0 {
        assert(b =~= s.take(0));
    } else {
        lemma_before_nul_prefix(s.skip(1));
        let c = before_nul(s.skip(1));
        assert(b =~= s.take(b.len() as int)) by {
            assert(c == s.skip(1).take(c.len() as int));
        }
        assert forall|i: int| 0 <= i < b.len() implies b[i] != 0 by {
            if i > 0 {
                assert(c[i - 1] != 0);
            }
        }
    }
    lemma_before_nul(b, b.len() as int);
    assert(b.take(b.len() as int) =~= b);
}

/// A written member id is read back, in the form that the version keeps.
pub proof fn law_member_id_round_trips(s: Seq<u8>, pos: int, id: Seq<u8>, v: ProtocolVersion)
    requires
        id_writable(id, v),
        stands_at(s, pos, id_bytes(id, v)),
    ensures
        id_at(s, pos, v) == Some((id_canon(id, v), pos + id_size(v))),
        id_bytes(id, v).len() == id_size(v),
{
    if v.num() > 3 {
        let field = s.subrange(pos, pos + 64);
        let k = before_nul(id).len() as int;
        lemma_before_nul_prefix(id);
        assert(field == id + zeros((64 - id.len()) as nat));
        assert forall|i: int| 0 <= i < k implies field[i] != 0 by {
            assert(field[i] == id[i] && before_nul(id)[i] == id[i]);
        }
        lemma_before_nul(field, k);
        assert(field.take(k) =~= id.take(k));
    } else {
        lemma_u64_at(s, pos, number(id));
    }
}

/// A member id that was read is in the form that the version keeps: writing and
/// reading it again changes nothing, and it obeys the length limit.
pub proof fn law_read_member_id_is_canonical(s: Seq<u8>, pos: int, v: ProtocolVersion)
    requires
        0 <= pos,
        id_at(s, pos, v) is Some,
    ensures
        ({
            let (id, end) = id_at(s, pos, v)->Some_0;
            &&& id_writable(id, v)
            &&& id_canon(id, v) == id
            &&& end == pos + id_size(v)
            &&& end <= s.len()
        }),
{
    let (id, end) = id_at(s, pos, v)->Some_0;
    if v.num() > 3 {
        lemma_before_nul_prefix(s.subrange(pos, pos + 64));
    } else {
        let n = u64_at(s, pos);
        lemma_decimal_u64_len(n as nat);
        if n > 0 {
            law_decimal_is_read_back(n);
            lemma_decimal(n as nat);
        }
    }
}

/// A replica member id.
///
/// The value is the id's text without terminator or padding, at most 63 bytes.
/// Up to version 3 it is sent as the number it spells, and an empty id as zero.
/// From version 4 on it is sent as a 64-byte field filled up with zeros. A
/// reader of such a field stops at the first zero byte, whatever follows it.
#[derive(Debug)]
pub struct MemberId {
    value: Vec<u8>,
}

impl View for MemberId {
    type V = Seq<u8>;

    closed spec fn view(&self) -> Seq<u8> {
        self.value@
    }
}

impl Clone for MemberId {
    fn clone(&self) -> (r: MemberId)
        ensures
            r@ == self@,
    {
        proof {
            use_type_invariant(self);
        }
        MemberId { value: vstd::slice::slice_to_vec(self.value.as_slice()) }
    }
}

impl Default for MemberId {
    fn default() -> (r: MemberId)
        ensures
            r@ == Seq::<u8>::empty(),
    {
        MemberId { value: Vec::new() }
    }
}

impl MemberId {
    /// The value leaves room for the terminator.
    #[verifier::type_invariant]
    pub open spec fn wf(self) -> bool {
        self@.len() <= 63
    }

    /// The empty member id.
    pub fn empty() -> (r: MemberId)
        ensures
            r@ == Seq::<u8>::empty(),
    {
        MemberId { value: Vec::new() }
    }

    /// A member id from text. The text must leave room for the terminator.
    pub fn from_str(s: &str) -> (r: MemberId)
        requires
            s.spec_bytes().len() <= 63,
        ensures
            r@ == s.spec_bytes(),
    {
        Self::from_bytes(s.as_bytes())
    }

    /// A member id from the bytes of its value, without terminator or padding.
    pub fn from_bytes(bytes: &[u8]) -> (r: MemberId)
        requires
            bytes@.len() <= 63,
        ensures
            r@ == bytes@,
    {
        MemberId { value: vstd::slice::slice_to_vec(bytes) }
    }

    /// The bytes of the value.
    pub fn value(&self) -> (r: &[u8])
        ensures
            r@ == self@,
            r@.len() <= 63,
    {
        proof {
            use_type_invariant(self);
        }
        self.value.as_slice()
    }

    /// The value as text, if it is valid UTF-8.
    pub fn as_str(&self) -> (r: Option<&str>)
        ensures
            r is Some <==> valid_utf8(self@),
            r is Some ==> r->Some_0.spec_bytes() == self@,
    {
        utf8_text(self.value.as_slice())
    }

    /// Width on the wire at `version`.
    pub fn base_size(version: ProtocolVersion) -> (r: u32)
        ensures
            r == id_size(version),
    {
        if version.member_id_is_fixed64() {
            64
        } else {
            8
        }
    }

    /// Writes the member id. Up to version 3 its text must be a number.
    pub fn marshal(&self, w: &mut Writer, version: ProtocolVersion)
        requires
            version.num() <= 3 ==> is_number(self@),
        ensures
            final(w)@ == old(w)@ + id_bytes(self@, version),
    {
        proof {
            use_type_invariant(self);
        }
        if version.member_id_is_fixed64() {
            let mut field = vstd::slice::slice_to_vec(self.value.as_slice());
            push_zeros(&mut field, MEMBER_ID_SIZE - self.value.len());
            w.write_data(field.as_slice());
        } else {
            w.write_u64(parse_member_id_u64(self.value.as_slice()));
        }
    }

    /// Reads a member id. A short buffer gives nothing, and neither does a
    /// 64-byte field without a terminator.
    pub fn unmarshal(r: &mut Reader, version: ProtocolVersion) -> (res: Option<MemberId>)
        ensures
            decodes(
                old(r)@,
                final(r)@,
                id_at(old(r)@.buf, old(r)@.pos, version),
                id_halt(old(r)@.buf, old(r)@.pos, version),
                view_opt(res),
            ),
    {
        proof {
            use_type_invariant(&*r);
        }
        if version.member_id_is_fixed64() {
            let field = r.read_data(MEMBER_ID_SIZE as u32)?;
            let mut end: usize = 0;
            while end < field.len() && field[end] != 0
                invariant
                    end <= field@.len(),
                    forall|i: int| 0 <= i < end ==> field@[i] != 0,
                decreases field@.len() - end,
            {
                end += 1;
            }
            proof {
                lemma_before_nul(field@, end as int);
            }
            if end == field.len() {
                return None;
            }
            let text = vstd::slice::slice_subrange(field, 0, end);
            assert(text@ =~= field@.take(end as int));
            Some(MemberId { value: vstd::slice::slice_to_vec(text) })
        } else {
            let value = r.read_u64()?;
            if value == 0 {
                Some(MemberId { value: Vec::new() })
            } else {
                proof {
                    lemma_decimal_u64_len(value as nat);
                }
                Some(MemberId { value: decimal_bytes(value) })
            }
        }
    }

    /// The order of member ids: a shorter id comes first, ids of one length
    /// compare byte by byte.
    pub fn compare(&self, other: &MemberId) -> (r: Ordering)
        ensures
            r == id_order(self@, other@),
    {
        compare_ids(self.value.as_slice(), other.value.as_slice())
    }
}

/// Compares two member ids' values.
fn compare_ids(a: &[u8], b: &[u8]) -> (r: Ordering)
    ensures
        r == id_order(a@, b@),
{
    if a.len() < b.len() {
        return Ordering::Less;
    }
    if a.len() > b.len() {
        return Ordering::Greater;
    }
    let mut i: usize = 0;
    while i < a.len()
        invariant
            a@.len() == b@.len(),
            0 <= i <= a@.len(),
            byte_order(a@, b@, i + 0) == byte_order(a@, b@, 0),
        decreases a@.len() - i,
    {
        if a[i] < b[i] {
            return Ordering::Less;
        }
        if a[i] > b[i] {
            return Ordering::Greater;
        }
        i += 1;
    }
    Ordering::Equal
}

impl PartialEq for MemberId {
    fn eq(&self, other: &Self) -> (r: bool) {
        same_bytes(self.value.as_slice(), other.value.as_slice())
    }
}

impl vstd::std_specs::cmp::PartialEqSpecImpl for MemberId {
    open spec fn obeys_eq_spec() -> bool {
        true
    }

    open spec fn eq_spec(&self, other: &Self) -> bool {
        self@ == other@
    }
}

impl Eq for MemberId {

}

impl PartialOrd for MemberId {
    fn partial_cmp(&self, other: &Self) -> (r: Option<Ordering>) {
        Some(self.compare(other))
    }
}

impl vstd::std_specs::cmp::PartialOrdSpecImpl for MemberId {
    open spec fn obeys_partial_cmp_spec() -> bool {
        true
    }

    open spec fn partial_cmp_spec(&self, other: &Self) -> Option<Ordering> {
        Some(id_order(self@, other@))
    }
}

/// The number that a member id spells: blanks, a sign and a prefix for the base
/// are understood, an empty id is zero, and a value too large is the largest.
/// The text must be a whole number.
pub fn parse_member_id_u64(value: &[u8]) -> (r: u64)
    requires
        is_number(value@),
    ensures
        r == number(value@),
{
    match parse_number(value) {
        Some(n) => n,
        None => 0,
    }
}

/// A ballot as plain values.
pub struct BallotView {
    /// The round.
    pub ballot_id: u32,
    /// The member that owns the ballot.
    pub member_id: Seq<u8>,
}

impl BallotView {
    /// The ballot can be written at version `v`.
    pub open spec fn writable(self, v: ProtocolVersion) -> bool {
        id_writable(self.member_id, v)
    }

    /// The ballot on the wire.
    pub open spec fn bytes(self, v: ProtocolVersion) -> Seq<u8> {
        le32(self.ballot_id) + id_bytes(self.member_id, v)
    }

    /// The ballot that a reader makes of those bytes.
    pub open spec fn canon(self, v: ProtocolVersion) -> BallotView {
        BallotView { member_id: id_canon(self.member_id, v), ..self }
    }
}

/// The ballot at `pos`, and where it ends.
pub open spec fn ballot_at(s: Seq<u8>, pos: int, v: ProtocolVersion) -> Option<(BallotView, int)> {
    if pos + 4 > s.len() {
        None
    } else {
        match id_at(s, pos + 4, v) {
            Some((member_id, end)) => Some(
                (BallotView { ballot_id: u32_at(s, pos), member_id }, end),
            ),
            None => None,
        }
    }
}

/// Where reading what is no ballot stops.
pub open spec fn ballot_halt(s: Seq<u8>, pos: int, v: ProtocolVersion) -> Halt {
    if pos + 4 > s.len() {
        short(pos)
    } else {
        id_halt(s, pos + 4, v)
    }
}

/// The order of ballots: by round, then by owner.
pub open spec fn ballot_order(a: BallotView, b: BallotView) -> Ordering {
    if a.ballot_id < b.ballot_id {
        Ordering::Less
    } else if a.ballot_id > b.ballot_id {
        Ordering::Greater
    } else {
        id_order(a.member_id, b.member_id)
    }
}

/// A written ballot is read back, in the form that the version keeps.
pub proof fn law_ballot_round_trips(s: Seq<u8>, pos: int, b: BallotView, v: ProtocolVersion)
    requires
        b.writable(v),
        stands_at(s, pos, b.bytes(v)),
    ensures
        ballot_at(s, pos, v) == Some((b.canon(v), pos + 4 + id_size(v))),
        b.bytes(v).len() == 4 + id_size(v),
{
    lemma_stands_at_sum(s, pos, le32(b.ballot_id), id_bytes(b.member_id, v));
    lemma_u32_at(s, pos, b.ballot_id);
    law_member_id_round_trips(s, pos + 4, b.member_id, v);
}

/// A ballot that was read is in the form that the version keeps.
pub proof fn law_read_ballot_is_canonical(s: Seq<u8>, pos: int, v: ProtocolVersion)
    requires
        0 <= pos,
        ballot_at(s, pos, v) is Some,
    ensures
        ({
            let (b, end) = ballot_at(s, pos, v)->Some_0;
            &&& b.writable(v)
            &&& b.canon(v) == b
            &&& end == pos + 4 + id_size(v)
            &&& end <= s.len()
        }),
{
    law_read_member_id_is_canonical(s, pos + 4, v);
}

/// A Paxos ballot: a round paired with the member that owns it.
#[derive(Debug)]
pub struct BallotNumber {
    /// The round.
    pub ballot_id: u32,
    /// The member that owns the ballot.
    pub member_id: MemberId,
}

impl View for BallotNumber {
    type V = BallotView;

    open spec fn view(&self) -> BallotView {
        BallotView { ballot_id: self.ballot_id, member_id: self.member_id@ }
    }
}

impl Clone for BallotNumber {
    fn clone(&self) -> (r: BallotNumber)
        ensures
            r@ == self@,
    {
        BallotNumber { ballot_id: self.ballot_id, member_id: self.member_id.clone() }
    }
}

impl Default for BallotNumber {
    fn default() -> (r: BallotNumber)
        ensures
            r@ == (BallotView { ballot_id: 0, member_id: Seq::empty() }),
    {
        BallotNumber { ballot_id: 0, member_id: MemberId::empty() }
    }
}

impl BallotNumber {
    /// A ballot of `member_id`.
    pub fn new(ballot_id: u32, member_id: MemberId) -> (r: BallotNumber)
        ensures
            r@ == (BallotView { ballot_id, member_id: member_id@ }),
    {
        BallotNumber { ballot_id, member_id }
    }

    /// Width on the wire at `version`.
    pub fn base_size(version: ProtocolVersion) -> (r: u32)
        ensures
            r == 4 + id_size(version),
    {
        4 + MemberId::base_size(version)
    }

    /// Writes the ballot. Up to version 3 its owner's id must be a number.
    pub fn marshal(&self, w: &mut Writer, version: ProtocolVersion)
        requires
            version.num() <= 3 ==> is_number(self@.member_id),
        ensures
            final(w)@ == old(w)@ + self@.bytes(version),
    {
        w.write_u32(self.ballot_id);
        self.member_id.marshal(w, version);
        assert(w@ =~= old(w)@ + self@.bytes(version));
    }

    /// Reads a ballot.
    pub fn unmarshal(r: &mut Reader, version: ProtocolVersion) -> (res: Option<BallotNumber>)
        ensures
            decodes(
                old(r)@,
                final(r)@,
                ballot_at(old(r)@.buf, old(r)@.pos, version),
                ballot_halt(old(r)@.buf, old(r)@.pos, version),
                view_opt(res),
            ),
    {
        proof {
            use_type_invariant(&*r);
        }
        let ballot_id = r.read_u32()?;
        let member_id = MemberId::unmarshal(r, version)?;
        Some(BallotNumber { ballot_id, member_id })
    }

    /// The order of ballots: by round, then by owner.
    pub fn compare(&self, other: &BallotNumber) -> (r: Ordering)
        ensures
            r == ballot_order(self@, other@),
    {
        if self.ballot_id < other.ballot_id {
            Ordering::Less
        } else if self.ballot_id > other.ballot_id {
            Ordering::Greater
        } else {
            self.member_id.compare(&other.member_id)
        }
    }
}

impl PartialEq for BallotNumber {
    fn eq(&self, other: &Self) -> (r: bool) {
        self.ballot_id == other.ballot_id && self.member_id == other.member_id
    }
}

impl vstd::std_specs::cmp::PartialEqSpecImpl for BallotNumber {
    open spec fn obeys_eq_spec() -> bool {
        true
    }

    open spec fn eq_spec(&self, other: &Self) -> bool {
        self@ == other@
    }
}

impl Eq for BallotNumber {

}

impl PartialOrd for BallotNumber {
    fn partial_cmp(&self, other: &Self) -> (r: Option<Ordering>) {
        Some(self.compare(other))
    }
}

impl vstd::std_specs::cmp::PartialOrdSpecImpl for BallotNumber {
    open spec fn obeys_partial_cmp_spec() -> bool {
        true
    }

    open spec fn partial_cmp_spec(&self, other: &Self) -> Option<Ordering> {
        Some(ballot_order(self@, other@))
    }
}

proof fn lemma_byte_order_total(a: Seq<u8>, b: Seq<u8>, c: Seq<u8>, i: int)
    requires
        a.len() == b.len() == c.len(),
        0 <= i <= a.len(),
        a.take(i) == b.take(i),
        b.take(i) == c.take(i),
    ensures
        byte_order(a, b, i) == Ordering::Equal <==> a == b,
        byte_order(a, b, i) == Ordering::Less <==> byte_order(b, a, i) == Ordering::Greater,
        byte_order(a, b, i) == Ordering::Less && byte_order(b, c, i) == Ordering::Less
            ==> byte_order(a, c, i) == Ordering::Less,
    decreases a.len() - i,
{
    if i == a.len() {
        assert(a =~= a.take(i) && b =~= b.take(i));
    } else {
        if a[i] == b[i] && b[i] == c[i] {
            assert(a.take(i + 1) =~= a.take(i).push(a[i]));
            assert(b.take(i + 1) =~= b.take(i).push(b[i]));
            assert(c.take(i + 1) =~= c.take(i).push(c[i]));
            lemma_byte_order_total(a, b, c, i + 1);
        } else if a[i] == b[i] {
            assert(a.take(i + 1) =~= a.take(i).push(a[i]));
            assert(b.take(i + 1) =~= b.take(i).push(b[i]));
            lemma_byte_order_total(a, b, b, i + 1);
        }
    }
}

/// Member ids are totally ordered, and only equal ids compare equal.
pub proof fn law_member_id_order_is_total(a: Seq<u8>, b: Seq<u8>, c: Seq<u8>)
    ensures
        id_order(a, b) == Ordering::Equal <==> a == b,
        id_order(a, b) == Ordering::Less <==> id_order(b, a) == Ordering::Greater,
        id_order(a, b) == Ordering::Less && id_order(b, c) == Ordering::Less ==> id_order(a, c)
            == Ordering::Less,
{
    if a.len() == b.len() {
        assert(a.take(0) =~= b.take(0));
        lemma_byte_order_total(a, b, b, 0);
        if b.len() == c.len() {
            assert(b.take(0) =~= c.take(0));
            lemma_byte_order_total(a, b, c, 0);
        }
    }
}

/// Ballots are totally ordered, and only equal ballots compare equal.
pub proof fn law_ballot_order_is_total(a: BallotView, b: BallotView, c: BallotView)
    ensures
        ballot_order(a, b) == Ordering::Equal <==> a == b,
        ballot_order(a, b) == Ordering::Less <==> ballot_order(b, a) == Ordering::Greater,
        ballot_order(a, b) == Ordering::Less && ballot_order(b, c) == Ordering::Less
            ==> ballot_order(a, c) == Ordering::Less,
{
    law_member_id_order_is_total(a.member_id, b.member_id, c.member_id);
}

/// A member of a replica set as plain values.
pub struct NodeView {
    /// The member's id.
    pub member_id: Seq<u8>,
    /// Its address.
    pub ip: u32,
    /// The port that it votes on.
    pub rsl_port: u16,
    /// The port that it serves learners on.
    pub rsl_learn_port: u16,
    /// The application's port.
    pub app_port: u16,
    /// Its host name.
    pub host_name: Seq<u8>,
}

/// Width on the wire of a member's fields before its host name.
pub open spec fn node_fixed(v: ProtocolVersion) -> int {
    id_size(v) + 10
}

impl NodeView {
    /// The member can be written at version `v`.
    pub open spec fn writable(self, v: ProtocolVersion) -> bool {
        id_writable(self.member_id, v)
    }

    /// The host name's length fits its field.
    pub open spec fn fits(self) -> bool {
        self.host_name.len() <= 0xffff
    }

    /// The second port on the wire.
    pub open spec fn second_port(self, v: ProtocolVersion) -> u16 {
        if v.num() > 3 {
            self.rsl_learn_port
        } else {
            self.app_port
        }
    }

    /// The member's fields before its host name, on the wire.
    pub open spec fn fixed_bytes(self, v: ProtocolVersion) -> Seq<u8> {
        id_bytes(self.member_id, v) + le32(self.ip) + le16(self.rsl_port) + le16(
            self.second_port(v),
        ) + le16((self.host_name.len() % 0x1_0000) as u16)
    }

    /// The member on the wire.
    pub open spec fn bytes(self, v: ProtocolVersion) -> Seq<u8> {
        self.fixed_bytes(v) + self.host_name
    }

    /// The member that a reader makes of those bytes: of the two ports that
    /// share a field, only the one that the version carries.
    pub open spec fn canon(self, v: ProtocolVersion) -> NodeView {
        NodeView {
            member_id: id_canon(self.member_id, v),
            rsl_learn_port: if v.num() > 3 {
                self.rsl_learn_port
            } else {
                0
            },
            app_port: if v.num() > 3 {
                0
            } else {
                self.app_port
            },
            ..self
        }
    }
}

/// The member at `pos`, and where it ends.
pub open spec fn node_at(s: Seq<u8>, pos: int, v: ProtocolVersion) -> Option<(NodeView, int)> {
    let rest = pos + id_size(v);
    let host = pos + node_fixed(v);
    if host > s.len() {
        None
    } else {
        match id_at(s, pos, v) {
            Some((member_id, _)) => {
                let end = host + u16_at(s, rest + 8);
                let port = u16_at(s, rest + 6);
                if end > s.len() {
                    None
                } else {
                    Some(
                        (
                            NodeView {
                                member_id,
                                ip: u32_at(s, rest),
                                rsl_port: u16_at(s, rest + 4),
                                rsl_learn_port: if v.num() > 3 {
                                    port
                                } else {
                                    0
                                },
                                app_port: if v.num() > 3 {
                                    0
                                } else {
                                    port
                                },
                                host_name: s.subrange(host, end),
                            },
                            end,
                        ),
                    )
                }
            },
            None => None,
        }
    }
}

/// The `n` members from `pos` on, and where they end.
pub open spec fn nodes_at(s: Seq<u8>, pos: int, n: nat, v: ProtocolVersion) -> Option<
    (Seq<NodeView>, int),
>
    decreases n,
{
    if n == 0 {
        Some((Seq::empty(), pos))
    } else {
        match nodes_at(s, pos, (n - 1) as nat, v) {
            Some((nodes, mid)) => match node_at(s, mid, v) {
                Some((node, end)) => Some((nodes.push(node), end)),
                None => None,
            },
            None => None,
        }
    }
}

/// Where reading what is no member stops.
pub open spec fn node_halt(s: Seq<u8>, pos: int, v: ProtocolVersion) -> Halt {
    let rest = pos + id_size(v);
    if id_at(s, pos, v) is None {
        id_halt(s, pos, v)
    } else if rest + 4 > s.len() {
        short(rest)
    } else if rest + 6 > s.len() {
        short(rest + 4)
    } else if rest + 8 > s.len() {
        short(rest + 6)
    } else if rest + 10 > s.len() {
        short(rest + 8)
    } else {
        short(rest + 10)
    }
}

/// Where reading what are no `n` members stops: in the first that is none.
pub open spec fn nodes_halt(s: Seq<u8>, pos: int, n: nat, v: ProtocolVersion) -> Halt
    decreases n,
{
    if n == 0 {
        refused(pos)
    } else {
        match nodes_at(s, pos, (n - 1) as nat, v) {
            Some((_, mid)) => node_halt(s, mid, v),
            None => nodes_halt(s, pos, (n - 1) as nat, v),
        }
    }
}

/// Members on the wire, one after the other.
pub open spec fn nodes_bytes(nodes: Seq<NodeView>, v: ProtocolVersion) -> Seq<u8>
    decreases nodes.len(),
{
    if nodes.len() == 0 {
        Seq::empty()
    } else {
        nodes_bytes(nodes.drop_last(), v) + nodes.last().bytes(v)
    }
}

/// Total length of the members' host names.
pub open spec fn host_total(nodes: Seq<NodeView>) -> nat
    decreases nodes.len(),
{
    if nodes.len() == 0 {
        0
    } else {
        host_total(nodes.drop_last()) + nodes.last().host_name.len()
    }
}

/// A replica set as plain values.
pub struct MemberSetView {
    /// The members.
    pub members: Seq<NodeView>,
    /// The configuration cookie.
    pub cookie: Seq<u8>,
}

impl MemberSetView {
    /// The set can be written at version `v`.
    pub open spec fn writable(self, v: ProtocolVersion) -> bool {
        forall|i: int| 0 <= i < self.members.len() ==> (#[trigger] self.members[i]).writable(v)
    }

    /// Every length fits its field and its limit.
    pub open spec fn fits(self) -> bool {
        &&& self.members.len() <= 0xffff
        &&& forall|i: int| 0 <= i < self.members.len() ==> (#[trigger] self.members[i]).fits()
        &&& self.cookie.len() <= MAX_MEMBER_SET_COOKIE_LEN
    }

    /// The set on the wire.
    pub open spec fn bytes(self, v: ProtocolVersion) -> Seq<u8> {
        le16((self.members.len() % 0x1_0000) as u16) + nodes_bytes(self.members, v) + string_bytes(
            self.cookie,
        )
    }

    /// Number of bytes that the set takes on the wire.
    pub open spec fn len(self, v: ProtocolVersion) -> nat {
        (node_fixed(v) * self.members.len() + 6 + self.cookie.len() + host_total(
            self.members,
        )) as nat
    }

    /// The set that a reader makes of those bytes.
    pub open spec fn canon(self, v: ProtocolVersion) -> MemberSetView {
        MemberSetView {
            members: self.members.map_values(|n: NodeView| n.canon(v)),
            cookie: self.cookie,
        }
    }
}

/// The replica set at `pos`, and where it ends. A cookie over the limit is
/// refused.
pub open spec fn member_set_at(s: Seq<u8>, pos: int, v: ProtocolVersion) -> Option<
    (MemberSetView, int),
> {
    if pos + 2 > s.len() {
        None
    } else {
        match nodes_at(s, pos + 2, u16_at(s, pos) as nat, v) {
            Some((members, mid)) => {
                if mid + 4 > s.len() {
                    None
                } else {
                    let len = u32_at(s, mid);
                    if len > MAX_MEMBER_SET_COOKIE_LEN || mid + 4 + len > s.len() {
                        None
                    } else {
                        Some(
                            (
                                MemberSetView {
                                    members,
                                    cookie: s.subrange(mid + 4, mid + 4 + len),
                                },
                                mid + 4 + len,
                            ),
                        )
                    }
                }
            },
            None => None,
        }
    }
}

/// Where reading what is no replica set stops.
pub open spec fn member_set_halt(s: Seq<u8>, pos: int, v: ProtocolVersion) -> Halt {
    if pos + 2 > s.len() {
        short(pos)
    } else {
        match nodes_at(s, pos + 2, u16_at(s, pos) as nat, v) {
            None => nodes_halt(s, pos + 2, u16_at(s, pos) as nat, v),
            Some((_, mid)) => if mid + 4 > s.len() {
                short(mid)
            } else if u32_at(s, mid) > MAX_MEMBER_SET_COOKIE_LEN {
                refused(mid + 4)
            } else {
                short(mid + 4)
            },
        }
    }
}

/// A replica-set configuration as plain values.
pub struct ConfigurationView {
    /// The configuration's number.
    pub configuration_number: u32,
    /// The decree from which it holds.
    pub initial_decree: u64,
    /// The replica set.
    pub member_set: MemberSetView,
}

impl ConfigurationView {
    /// The configuration can be written at version `v`.
    pub open spec fn writable(self, v: ProtocolVersion) -> bool {
        self.member_set.writable(v)
    }

    /// Every length fits its field and its limit.
    pub open spec fn fits(self) -> bool {
        self.member_set.fits()
    }

    /// The configuration on the wire.
    pub open spec fn bytes(self, v: ProtocolVersion) -> Seq<u8> {
        le32(self.configuration_number) + le64(self.initial_decree) + self.member_set.bytes(v)
    }

    /// Number of bytes that the configuration takes on the wire.
    pub open spec fn len(self, v: ProtocolVersion) -> nat {
        12 + self.member_set.len(v)
    }

    /// The configuration that a reader makes of those bytes.
    pub open spec fn canon(self, v: ProtocolVersion) -> ConfigurationView {
        ConfigurationView { member_set: self.member_set.canon(v), ..self }
    }
}

/// The configuration at `pos`, and where it ends.
pub open spec fn configuration_at(s: Seq<u8>, pos: int, v: ProtocolVersion) -> Option<
    (ConfigurationView, int),
> {
    if pos + 12 > s.len() {
        None
    } else {
        match member_set_at(s, pos + 12, v) {
            Some((member_set, end)) => Some(
                (
                    ConfigurationView {
                        configuration_number: u32_at(s, pos),
                        initial_decree: u64_at(s, pos + 4),
                        member_set,
                    },
                    end,
                ),
            ),
            None => None,
        }
    }
}

/// Where reading what is no configuration stops.
pub open spec fn configuration_halt(s: Seq<u8>, pos: int, v: ProtocolVersion) -> Halt {
    if pos + 4 > s.len() {
        short(pos)
    } else if pos + 12 > s.len() {
        short(pos + 4)
    } else {
        member_set_halt(s, pos + 12, v)
    }
}

proof fn lemma_host_total_grows(nodes: Seq<NodeView>, k: int)
    requires
        0 <= k <= nodes.len(),
    ensures
        host_total(nodes.take(k)) <= host_total(nodes),
    decreases nodes.len() - k,
{
    if k == nodes.len() {
        assert(nodes.take(k) =~= nodes);
    } else {
        lemma_host_total_grows(nodes, k + 1);
        assert(nodes.take(k + 1).drop_last() =~= nodes.take(k));
    }
}

proof fn lemma_nodes_at_fails(s: Seq<u8>, pos: int, k: nat, n: nat, v: ProtocolVersion)
    requires
        k <= n,
        nodes_at(s, pos, k, v) is None,
    ensures
        nodes_at(s, pos, n, v) is None,
        nodes_halt(s, pos, n, v) == nodes_halt(s, pos, k, v),
    decreases n,
{
    if k < n {
        lemma_nodes_at_fails(s, pos, k, (n - 1) as nat, v);
    }
}

/// A member of a replica set. Of the two ports that share a field on the wire,
/// the learn port is sent from version 4 on and the application port before.
#[derive(Debug, PartialEq, Eq)]
pub struct RslNode {
    /// The member's id.
    pub member_id: MemberId,
    /// Its address.
    pub ip: u32,
    /// The port that it votes on.
    pub rsl_port: u16,
    /// The port that it serves learners on.
    pub rsl_learn_port: u16,
    /// The application's port.
    pub app_port: u16,
    /// Its host name.
    pub host_name: Vec<u8>,
}

impl View for RslNode {
    type V = NodeView;

    open spec fn view(&self) -> NodeView {
        NodeView {
            member_id: self.member_id@,
            ip: self.ip,
            rsl_port: self.rsl_port,
            rsl_learn_port: self.rsl_learn_port,
            app_port: self.app_port,
            host_name: self.host_name@,
        }
    }
}

impl Clone for RslNode {
    fn clone(&self) -> (r: RslNode)
        ensures
            r@ == self@,
    {
        RslNode {
            member_id: self.member_id.clone(),
            ip: self.ip,
            rsl_port: self.rsl_port,
            rsl_learn_port: self.rsl_learn_port,
            app_port: self.app_port,
            host_name: vstd::slice::slice_to_vec(self.host_name.as_slice()),
        }
    }
}

impl Default for RslNode {
    fn default() -> (r: RslNode)
        ensures
            r@ == (NodeView {
                member_id: Seq::empty(),
                ip: 0,
                rsl_port: 0,
                rsl_learn_port: 0,
                app_port: 0,
                host_name: Seq::empty(),
            }),
    {
        RslNode {
            member_id: MemberId::empty(),
            ip: 0,
            rsl_port: 0,
            rsl_learn_port: 0,
            app_port: 0,
            host_name: Vec::new(),
        }
    }
}

impl RslNode {
    fn marshal(&self, w: &mut Writer, version: ProtocolVersion)
        requires
            self@.writable(version),
        ensures
            final(w)@ == old(w)@ + self@.bytes(version),
    {
        self.member_id.marshal(w, version);
        w.write_u32(self.ip);
        w.write_u16(self.rsl_port);
        if version.member_set_uses_learn_port() {
            w.write_u16(self.rsl_learn_port);
        } else {
            w.write_u16(self.app_port);
        }
        w.write_u16(low16(self.host_name.len()));
        w.write_data(self.host_name.as_slice());
        assert(w@ =~= old(w)@ + self@.bytes(version));
    }

    fn unmarshal(r: &mut Reader, version: ProtocolVersion) -> (res: Option<RslNode>)
        ensures
            decodes(
                old(r)@,
                final(r)@,
                node_at(old(r)@.buf, old(r)@.pos, version),
                node_halt(old(r)@.buf, old(r)@.pos, version),
                view_opt(res),
            ),
    {
        proof {
            use_type_invariant(&*r);
        }
        let member_id = MemberId::unmarshal(r, version)?;
        let ip = r.read_u32()?;
        let rsl_port = r.read_u16()?;
        let port = r.read_u16()?;
        let host_len = r.read_u16()?;
        let host_name = r.read_data(host_len as u32)?;
        let learns = version.member_set_uses_learn_port();
        Some(
            RslNode {
                member_id,
                ip,
                rsl_port,
                rsl_learn_port: if learns {
                    port
                } else {
                    0
                },
                app_port: if learns {
                    0
                } else {
                    port
                },
                host_name: vstd::slice::slice_to_vec(host_name),
            },
        )
    }
}

/// A replica set, and a cookie that the application attaches to it.
#[derive(Debug, PartialEq, Eq)]
pub struct MemberSet {
    /// The members.
    pub members: Vec<RslNode>,
    /// The configuration cookie.
    pub cookie: Vec<u8>,
}

impl View for MemberSet {
    type V = MemberSetView;

    open spec fn view(&self) -> MemberSetView {
        MemberSetView {
            members: self.members@.map_values(|n: RslNode| n@),
            cookie: self.cookie@,
        }
    }
}

impl Clone for MemberSet {
    fn clone(&self) -> (r: MemberSet)
        ensures
            r@ == self@,
    {
        let mut members: Vec<RslNode> = Vec::new();
        let mut i: usize = 0;
        while i < self.members.len()
            invariant
                i <= self.members@.len(),
                members@.len() == i,
                forall|j: int| 0 <= j < i ==> (#[trigger] members@[j])@ == self.members@[j]@,
            decreases self.members@.len() - i,
        {
            members.push(self.members[i].clone());
            i += 1;
        }
        let r = MemberSet { members, cookie: vstd::slice::slice_to_vec(self.cookie.as_slice()) };
        assert(r@.members =~= self@.members);
        r
    }
}

impl Default for MemberSet {
    fn default() -> (r: MemberSet)
        ensures
            r@ == (MemberSetView { members: Seq::empty(), cookie: Seq::empty() }),
    {
        let r = MemberSet { members: Vec::new(), cookie: Vec::new() };
        assert(r@.members =~= Seq::empty());
        r
    }
}

impl MemberSet {
    /// Writes the set. Up to version 3 its members' ids must be numbers.
    pub fn marshal(&self, w: &mut Writer, version: ProtocolVersion)
        requires
            self@.writable(version),
        ensures
            final(w)@ == old(w)@ + self@.bytes(version),
    {
        w.write_u16(low16(self.members.len()));
        let ghost start = w@;
        let mut i: usize = 0;
        assert(nodes_bytes(self@.members.take(0), version) =~= Seq::empty());
        while i < self.members.len()
            invariant
                i <= self.members@.len(),
                self@.writable(version),
                w@ == start + nodes_bytes(self@.members.take(i as int), version),
            decreases self.members@.len() - i,
        {
            proof {
                let next = self@.members.take(i + 1);
                assert(next.drop_last() =~= self@.members.take(i as int));
                assert(next.last() == self.members@[i as int]@);
                assert(self@.members[i as int].writable(version));
            }
            self.members[i].marshal(w, version);
            i += 1;
            assert(w@ =~= start + nodes_bytes(self@.members.take(i as int), version));
        }
        assert(self@.members.take(i as int) =~= self@.members);
        w.write_u32(low32(self.cookie.len()));
        w.write_data(self.cookie.as_slice());
        assert(w@ =~= old(w)@ + self@.bytes(version));
    }

    /// Reads a set. A short buffer gives nothing, and neither does a cookie
    /// over the limit.
    pub fn unmarshal(r: &mut Reader, version: ProtocolVersion) -> (res: Option<MemberSet>)
        ensures
            decodes(
                old(r)@,
                final(r)@,
                member_set_at(old(r)@.buf, old(r)@.pos, version),
                member_set_halt(old(r)@.buf, old(r)@.pos, version),
                view_opt(res),
            ),
    {
        proof {
            use_type_invariant(&*r);
        }
        let ghost start = r@;
        let num_members = r.read_u16()?;
        let mut members: Vec<RslNode> = Vec::new();
        let mut i: u16 = 0;
        assert(members@.map_values(|n: RslNode| n@) =~= Seq::empty());
        while i < num_members
            invariant
                i <= num_members,
                !start.overshoot,
                0 <= start.pos,
                start.pos + 2 <= start.buf.len(),
                num_members == u16_at(start.buf, start.pos),
                start == old(r)@,
                r@.buf == start.buf,
                start.pos + 2 <= r@.pos <= start.buf.len(),
                !r@.overshoot,
                nodes_at(start.buf, start.pos + 2, i as nat, version) == Some(
                    (members@.map_values(|n: RslNode| n@), r@.pos),
                ),
            decreases num_members - i,
        {
            proof {
                use_type_invariant(&*r);
                if node_at(r@.buf, r@.pos, version) is None {
                    lemma_nodes_at_fails(
                        start.buf,
                        start.pos + 2,
                        (i + 1) as nat,
                        num_members as nat,
                        version,
                    );
                }
            }
            let ghost before = members@.map_values(|n: RslNode| n@);
            let node = RslNode::unmarshal(r, version)?;
            members.push(node);
            i += 1;
            assert(members@.map_values(|n: RslNode| n@) =~= before.push(node@));
        }
        let cookie_len = r.read_u32()?;
        if cookie_len > MAX_MEMBER_SET_COOKIE_LEN {
            return None;
        }
        let cookie = r.read_data(cookie_len)?;
        Some(MemberSet { members, cookie: vstd::slice::slice_to_vec(cookie) })
    }

    /// Number of bytes that the set takes on the wire, as a length field would
    /// hold it.
    pub fn marshal_len(&self, version: ProtocolVersion) -> (r: u32)
        requires
            self@.len(version) <= usize::MAX,
        ensures
            r == self@.len(version) % 0x1_0000_0000,
    {
        let node_fixed: usize = (MemberId::base_size(version) + 10) as usize;
        let n: usize = self.members.len();
        proof {
            assert(node_fixed * n >= 0) by (nonlinear_arith);
            assert(self@.members.len() == n);
            assert(self@.len(version) == node_fixed * n + 6 + self.cookie@.len() + host_total(
                self@.members,
            ));
        }
        let mut len: usize = node_fixed * n + 6 + self.cookie.len();
        let ghost base = len;
        let mut i: usize = 0;
        assert(self@.members.take(0) =~= Seq::empty());
        while i < self.members.len()
            invariant
                i <= self.members@.len(),
                len == base + host_total(self@.members.take(i as int)),
                base + host_total(self@.members) <= usize::MAX,
            decreases self.members@.len() - i,
        {
            proof {
                let next = self@.members.take(i + 1);
                assert(next.drop_last() =~= self@.members.take(i as int));
                assert(next.last() == self.members@[i as int]@);
                lemma_host_total_grows(self@.members, i + 1);
            }
            len = len + self.members[i].host_name.len();
            i += 1;
        }
        assert(self@.members.take(i as int) =~= self@.members);
        low32(len)
    }
}

/// A replica-set configuration: its number, the decree from which it holds, and
/// the set itself. Checkpoint headers carry it.
#[derive(Debug, PartialEq, Eq)]
pub struct ConfigurationInfo {
    /// The configuration's number.
    pub configuration_number: u32,
    /// The decree from which it holds.
    pub initial_decree: u64,
    /// The replica set.
    pub member_set: MemberSet,
}

impl View for ConfigurationInfo {
    type V = ConfigurationView;

    open spec fn view(&self) -> ConfigurationView {
        ConfigurationView {
            configuration_number: self.configuration_number,
            initial_decree: self.initial_decree,
            member_set: self.member_set@,
        }
    }
}

impl Clone for ConfigurationInfo {
    fn clone(&self) -> (r: ConfigurationInfo)
        ensures
            r@ == self@,
    {
        ConfigurationInfo {
            configuration_number: self.configuration_number,
            initial_decree: self.initial_decree,
            member_set: self.member_set.clone(),
        }
    }
}

impl Default for ConfigurationInfo {
    fn default() -> (r: ConfigurationInfo)
        ensures
            r@ == (ConfigurationView {
                configuration_number: 0,
                initial_decree: 0,
                member_set: (MemberSetView { members: Seq::empty(), cookie: Seq::empty() }),
            }),
    {
        ConfigurationInfo {
            configuration_number: 0,
            initial_decree: 0,
            member_set: MemberSet::default(),
        }
    }
}

impl ConfigurationInfo {
    /// A configuration from its parts.
    pub fn new(configuration_number: u32, initial_decree: u64, member_set: MemberSet) -> (r:
        ConfigurationInfo)
        ensures
            r@ == (ConfigurationView {
                configuration_number,
                initial_decree,
                member_set: member_set@,
            }),
    {
        ConfigurationInfo { configuration_number, initial_decree, member_set }
    }

    /// Writes the configuration. Up to version 3 its members' ids must be
    /// numbers.
    pub fn marshal(&self, w: &mut Writer, version: ProtocolVersion)
        requires
            self@.writable(version),
        ensures
            final(w)@ == old(w)@ + self@.bytes(version),
    {
        w.write_u32(self.configuration_number);
        w.write_u64(self.initial_decree);
        self.member_set.marshal(w, version);
        assert(w@ =~= old(w)@ + self@.bytes(version));
    }

    /// Reads a configuration. A short buffer gives nothing, and neither does an
    /// unreadable member set.
    pub fn unmarshal(r: &mut Reader, version: ProtocolVersion) -> (res: Option<ConfigurationInfo>)
        ensures
            decodes(
                old(r)@,
                final(r)@,
                configuration_at(old(r)@.buf, old(r)@.pos, version),
                configuration_halt(old(r)@.buf, old(r)@.pos, version),
                view_opt(res),
            ),
    {
        proof {
            use_type_invariant(&*r);
        }
        let configuration_number = r.read_u32()?;
        let initial_decree = r.read_u64()?;
        let member_set = MemberSet::unmarshal(r, version)?;
        Some(ConfigurationInfo { configuration_number, initial_decree, member_set })
    }

    /// Number of bytes that the configuration takes on the wire.
    pub fn marshal_len(&self, version: ProtocolVersion) -> (r: u32)
        requires
            self@.member_set.len(version) <= usize::MAX,
            12 + self@.member_set.len(version) % 0x1_0000_0000 <= u32::MAX,
        ensures
            r == 12 + self@.member_set.len(version) % 0x1_0000_0000,
            self@.len(version) <= u32::MAX ==> r == self@.len(version),
    {
        12 + self.member_set.marshal_len(version)
    }
}

proof fn lemma_node_round_trips(s: Seq<u8>, pos: int, n: NodeView, v: ProtocolVersion)
    requires
        n.writable(v),
        n.fits(),
        stands_at(s, pos, n.bytes(v)),
    ensures
        node_at(s, pos, v) == Some((n.canon(v), pos + n.bytes(v).len())),
{
    let a = id_bytes(n.member_id, v);
    let b = le32(n.ip);
    let c = le16(n.rsl_port);
    let d = le16(n.second_port(v));
    let e = le16((n.host_name.len() % 0x1_0000) as u16);
    lemma_stands_at_sum(s, pos, n.fixed_bytes(v), n.host_name);
    lemma_stands_at_sum(s, pos, a + b + c + d, e);
    lemma_stands_at_sum(s, pos, a + b + c, d);
    lemma_stands_at_sum(s, pos, a + b, c);
    lemma_stands_at_sum(s, pos, a, b);
    law_member_id_round_trips(s, pos, n.member_id, v);
    let rest = pos + id_size(v);
    lemma_u32_at(s, rest, n.ip);
    lemma_u16_at(s, rest + 4, n.rsl_port);
    lemma_u16_at(s, rest + 6, n.second_port(v));
    lemma_u16_at(s, rest + 8, (n.host_name.len() % 0x1_0000) as u16);
}

proof fn lemma_node_len(n: NodeView, v: ProtocolVersion)
    requires
        n.writable(v),
    ensures
        n.bytes(v).len() == node_fixed(v) + n.host_name.len(),
{
}

proof fn lemma_nodes_round_trip(s: Seq<u8>, pos: int, nodes: Seq<NodeView>, v: ProtocolVersion)
    requires
        forall|i: int| 0 <= i < nodes.len() ==> (#[trigger] nodes[i]).writable(v),
        forall|i: int| 0 <= i < nodes.len() ==> (#[trigger] nodes[i]).fits(),
        stands_at(s, pos, nodes_bytes(nodes, v)),
    ensures
        nodes_at(s, pos, nodes.len(), v) == Some(
            (
                nodes.map_values(|n: NodeView| n.canon(v)),
                pos + nodes_bytes(nodes, v).len(),
            ),
        ),
    decreases nodes.len(),
{
    let canon = |n: NodeView| n.canon(v);
    if nodes.len() == 0 {
        assert(nodes.map_values(canon) =~= Seq::empty());
    } else {
        let front = nodes.drop_last();
        let last = nodes.last();
        lemma_stands_at_sum(s, pos, nodes_bytes(front, v), last.bytes(v));
        lemma_nodes_round_trip(s, pos, front, v);
        lemma_node_round_trips(s, pos + nodes_bytes(front, v).len(), last, v);
        assert(nodes.map_values(canon) =~= front.map_values(canon).push(last.canon(v)));
    }
}

proof fn lemma_nodes_len(nodes: Seq<NodeView>, v: ProtocolVersion)
    requires
        forall|i: int| 0 <= i < nodes.len() ==> (#[trigger] nodes[i]).writable(v),
    ensures
        nodes_bytes(nodes, v).len() == node_fixed(v) * nodes.len() + host_total(nodes),
    decreases nodes.len(),
{
    if nodes.len() > 0 {
        lemma_nodes_len(nodes.drop_last(), v);
        lemma_node_len(nodes.last(), v);
        assert(node_fixed(v) * nodes.len() == node_fixed(v) * (nodes.len() - 1) + node_fixed(v))
            by (nonlinear_arith);
    }
}

/// The length of a member set's bytes is the length that it reports.
pub proof fn law_member_set_len(m: MemberSetView, v: ProtocolVersion)
    requires
        m.writable(v),
    ensures
        m.bytes(v).len() == m.len(v),
{
    lemma_nodes_len(m.members, v);
}

/// A written member set is read back, in the form that the version keeps.
pub proof fn law_member_set_round_trips(s: Seq<u8>, pos: int, m: MemberSetView, v: ProtocolVersion)
    requires
        m.writable(v),
        m.fits(),
        stands_at(s, pos, m.bytes(v)),
    ensures
        member_set_at(s, pos, v) == Some((m.canon(v), pos + m.len(v))),
{
    let a = le16((m.members.len() % 0x1_0000) as u16);
    let b = nodes_bytes(m.members, v);
    let c = le32((m.cookie.len() % 0x1_0000_0000) as u32);
    lemma_stands_at_sum(s, pos, a + b, string_bytes(m.cookie));
    lemma_stands_at_sum(s, pos, a, b);
    let mid = pos + 2 + b.len();
    lemma_stands_at_sum(s, mid, c, m.cookie);
    lemma_u16_at(s, pos, (m.members.len() % 0x1_0000) as u16);
    lemma_nodes_round_trip(s, pos + 2, m.members, v);
    lemma_u32_at(s, mid, (m.cookie.len() % 0x1_0000_0000) as u32);
    law_member_set_len(m, v);
}

/// A written configuration is read back, in the form that the version keeps,
/// and takes the number of bytes that it reports.
pub proof fn law_configuration_round_trips(
    s: Seq<u8>,
    pos: int,
    c: ConfigurationView,
    v: ProtocolVersion,
)
    requires
        c.writable(v),
        c.fits(),
        stands_at(s, pos, c.bytes(v)),
    ensures
        configuration_at(s, pos, v) == Some((c.canon(v), pos + c.len(v))),
        c.bytes(v).len() == c.len(v),
{
    let a = le32(c.configuration_number);
    let b = le64(c.initial_decree);
    let m = c.member_set.bytes(v);
    lemma_stands_at_sum(s, pos, a + b, m);
    lemma_stands_at_sum(s, pos, a, b);
    lemma_u32_at(s, pos, c.configuration_number);
    lemma_u64_at(s, pos + 4, c.initial_decree);
    law_member_set_round_trips(s, pos + 12, c.member_set, v);
    law_member_set_len(c.member_set, v);
}

proof fn lemma_node_canonical(s: Seq<u8>, pos: int, v: ProtocolVersion)
    requires
        0 <= pos,
        node_at(s, pos, v) is Some,
    ensures
        ({
            let (n, end) = node_at(s, pos, v)->Some_0;
            &&& n.writable(v)
            &&& n.fits()
            &&& n.canon(v) == n
            &&& end == pos + node_fixed(v) + n.host_name.len()
            &&& end <= s.len()
        }),
{
    law_read_member_id_is_canonical(s, pos, v);
}

proof fn lemma_nodes_canonical(s: Seq<u8>, pos: int, n: nat, v: ProtocolVersion)
    requires
        0 <= pos <= s.len(),
        nodes_at(s, pos, n, v) is Some,
    ensures
        ({
            let (nodes, end) = nodes_at(s, pos, n, v)->Some_0;
            &&& nodes.len() == n
            &&& forall|i: int|
                0 <= i < n ==> (#[trigger] nodes[i]).writable(v) && nodes[i].fits()
                    && nodes[i].canon(v) == nodes[i]
            &&& end == pos + node_fixed(v) * n + host_total(nodes)
            &&& pos <= end <= s.len()
        }),
    decreases n,
{
    if n > 0 {
        let m = (n - 1) as nat;
        lemma_nodes_canonical(s, pos, m, v);
        let (front, mid) = nodes_at(s, pos, m, v)->Some_0;
        lemma_node_canonical(s, mid, v);
        let (nodes, end) = nodes_at(s, pos, n, v)->Some_0;
        assert(nodes.drop_last() =~= front);
        assert(node_fixed(v) * n == node_fixed(v) * m + node_fixed(v)) by (nonlinear_arith)
            requires
                n == m + 1,
        ;
    }
}

/// A member set that was read fits its limits and is in the form that the
/// version keeps, and it ends where its length says.
pub proof fn law_read_member_set_is_canonical(s: Seq<u8>, pos: int, v: ProtocolVersion)
    requires
        0 <= pos,
        member_set_at(s, pos, v) is Some,
    ensures
        ({
            let (m, end) = member_set_at(s, pos, v)->Some_0;
            &&& m.writable(v)
            &&& m.fits()
            &&& m.canon(v) == m
            &&& end == pos + m.len(v)
            &&& end <= s.len()
        }),
{
    lemma_nodes_canonical(s, pos + 2, u16_at(s, pos) as nat, v);
    let (m, end) = member_set_at(s, pos, v)->Some_0;
    assert(m.canon(v).members =~= m.members);
}

/// A configuration that was read fits its limits and is in the form that the
/// version keeps, and it ends where its length says.
pub proof fn law_read_configuration_is_canonical(s: Seq<u8>, pos: int, v: ProtocolVersion)
    requires
        0 <= pos,
        configuration_at(s, pos, v) is Some,
    ensures
        ({
            let (c, end) = configuration_at(s, pos, v)->Some_0;
            &&& c.writable(v)
            &&& c.fits()
            &&& c.canon(v) == c
            &&& end == pos + c.len(v)
            &&& end <= s.len()
        }),
{
    law_read_member_set_is_canonical(s, pos + 12, v);
}

pub(crate) proof fn lemma_id_prefix(s: Seq<u8>, k: int, pos: int, v: ProtocolVersion)
    requires
        0 <= pos,
        0 <= k <= s.len(),
        id_at(s.take(k), pos, v) is Some,
    ensures
        id_at(s, pos, v) == id_at(s.take(k), pos, v),
{
    reveal(u64_at);
    if v.num() > 3 {
        assert(s.take(k).subrange(pos, pos + 64) =~= s.subrange(pos, pos + 64));
    }
}

proof fn lemma_nodes_prefix(s: Seq<u8>, k: int, pos: int, n: nat, v: ProtocolVersion)
    requires
        0 <= pos <= k <= s.len(),
        nodes_at(s.take(k), pos, n, v) is Some,
    ensures
        nodes_at(s, pos, n, v) == nodes_at(s.take(k), pos, n, v),
    decreases n,
{
    reveal(u16_at);
    reveal(u32_at);
    if n > 0 {
        let t = s.take(k);
        let m = (n - 1) as nat;
        lemma_nodes_prefix(s, k, pos, m, v);
        lemma_nodes_canonical(t, pos, m, v);
        let (front, mid) = nodes_at(t, pos, m, v)->Some_0;
        lemma_id_prefix(s, k, mid, v);
        let (node, end) = node_at(t, mid, v)->Some_0;
        assert(t.subrange(mid + node_fixed(v), end) =~= s.subrange(mid + node_fixed(v), end));
    }
}

/// Reading a member set from a prefix of some bytes gives what reading it from
/// all of them gives.
pub proof fn law_member_set_prefix(s: Seq<u8>, k: int, pos: int, v: ProtocolVersion)
    requires
        0 <= pos,
        0 <= k <= s.len(),
        member_set_at(s.take(k), pos, v) is Some,
    ensures
        member_set_at(s, pos, v) == member_set_at(s.take(k), pos, v),
{
    reveal(u16_at);
    reveal(u32_at);
    let t = s.take(k);
    lemma_nodes_prefix(s, k, pos + 2, u16_at(t, pos) as nat, v);
    lemma_nodes_canonical(t, pos + 2, u16_at(t, pos) as nat, v);
    let (m, end) = member_set_at(t, pos, v)->Some_0;
    let mid = end - m.cookie.len();
    assert(t.subrange(mid, end) =~= s.subrange(mid, end));
}

proof fn lemma_nodes_local(s: Seq<u8>, k: int, pos: int, n: nat, v: ProtocolVersion)
    requires
        0 <= pos <= s.len(),
        k <= s.len(),
        nodes_at(s, pos, n, v) is Some,
        nodes_at(s, pos, n, v)->Some_0.1 <= k,
    ensures
        nodes_at(s.take(k), pos, n, v) == nodes_at(s, pos, n, v),
    decreases n,
{
    reveal(u16_at);
    reveal(u32_at);
    reveal(u64_at);
    if n > 0 {
        let t = s.take(k);
        let m = (n - 1) as nat;
        lemma_nodes_canonical(s, pos, m, v);
        let (front, mid) = nodes_at(s, pos, m, v)->Some_0;
        lemma_nodes_local(s, k, pos, m, v);
        let (node, end) = node_at(s, mid, v)->Some_0;
        if v.num() > 3 {
            assert(t.subrange(mid, mid + 64) =~= s.subrange(mid, mid + 64));
        }
        assert(t.subrange(mid + node_fixed(v), end) =~= s.subrange(mid + node_fixed(v), end));
    }
}

/// Reading a member set looks at no byte behind its end.
pub proof fn law_member_set_is_local(s: Seq<u8>, k: int, pos: int, v: ProtocolVersion)
    requires
        0 <= pos,
        member_set_at(s, pos, v) is Some,
        member_set_at(s, pos, v)->Some_0.1 <= k <= s.len(),
    ensures
        member_set_at(s.take(k), pos, v) == member_set_at(s, pos, v),
{
    reveal(u16_at);
    reveal(u32_at);
    let n = u16_at(s, pos) as nat;
    lemma_nodes_canonical(s, pos + 2, n, v);
    lemma_nodes_local(s, k, pos + 2, n, v);
    let (m, end) = member_set_at(s, pos, v)->Some_0;
    let mid = end - m.cookie.len();
    assert(s.take(k).subrange(mid, end) =~= s.subrange(mid, end));
}

/// A member set cannot be read from fewer bytes than it takes.
pub proof fn law_short_member_set_is_refused(s: Seq<u8>, k: int, pos: int, v: ProtocolVersion)
    requires
        0 <= pos,
        member_set_at(s, pos, v) is Some,
        0 <= k < member_set_at(s, pos, v)->Some_0.1,
    ensures
        member_set_at(s.take(k), pos, v) is None,
{
    law_read_member_set_is_canonical(s, pos, v);
    if member_set_at(s.take(k), pos, v) is Some {
        law_member_set_prefix(s, k, pos, v);
        law_read_member_set_is_canonical(s.take(k), pos, v);
    }
}

/// A written member set whose cookie is over the limit cannot be read, nor any
/// part of it.
pub proof fn law_long_cookie_is_refused(
    s: Seq<u8>,
    k: int,
    pos: int,
    m: MemberSetView,
    v: ProtocolVersion,
)
    requires
        m.writable(v),
        (MemberSetView { cookie: Seq::empty(), ..m }).fits(),
        MAX_MEMBER_SET_COOKIE_LEN < m.cookie.len() <= u32::MAX,
        stands_at(s, pos, m.bytes(v)),
        0 <= k <= s.len(),
    ensures
        member_set_at(s, pos, v) is None,
        member_set_at(s.take(k), pos, v) is None,
{
    let a = le16((m.members.len() % 0x1_0000) as u16);
    let b = nodes_bytes(m.members, v);
    let c = le32((m.cookie.len() % 0x1_0000_0000) as u32);
    lemma_stands_at_sum(s, pos, a + b, string_bytes(m.cookie));
    lemma_stands_at_sum(s, pos, a, b);
    let mid = pos + 2 + b.len();
    lemma_stands_at_sum(s, mid, c, m.cookie);
    lemma_u16_at(s, pos, (m.members.len() % 0x1_0000) as u16);
    let bare = MemberSetView { cookie: Seq::empty(), ..m };
    assert forall|i: int| 0 <= i < m.members.len() implies (#[trigger] m.members[i]).fits() by {
        assert(bare.members[i].fits());
    }
    lemma_nodes_round_trip(s, pos + 2, m.members, v);
    lemma_u32_at(s, mid, (m.cookie.len() % 0x1_0000_0000) as u32);
    if member_set_at(s.take(k), pos, v) is Some {
        law_member_set_prefix(s, k, pos, v);
    }
}

/// A configuration cannot be read from fewer bytes than it takes.
pub proof fn law_short_configuration_is_refused(
    s: Seq<u8>,
    k: int,
    pos: int,
    v: ProtocolVersion,
)
    requires
        0 <= pos,
        configuration_at(s, pos, v) is Some,
        0 <= k < configuration_at(s, pos, v)->Some_0.1,
    ensures
        configuration_at(s.take(k), pos, v) is None,
{
    law_read_configuration_is_canonical(s, pos, v);
    reveal(u32_at);
    reveal(u64_at);
    if configuration_at(s.take(k), pos, v) is Some {
        law_member_set_prefix(s, k, pos + 12, v);
        law_read_configuration_is_canonical(s.take(k), pos, v);
    }
}

/// No byte of the id is zero. A reader would stop at such a byte.
pub open spec fn id_clean(id: Seq<u8>) -> bool {
    forall|i: int| 0 <= i < id.len() ==> id[i] != 0
}

/// What is read back of a clean member id is written as the same bytes.
pub(crate) proof fn lemma_id_canon_bytes(id: Seq<u8>, v: ProtocolVersion)
    requires
        id_writable(id, v),
        id_clean(id),
    ensures
        id_bytes(id_canon(id, v), v) == id_bytes(id, v),
{
    if v.num() > 3 {
        lemma_before_nul(id, id.len() as int);
        assert(id.take(id.len() as int) =~= id);
    } else if number(id) > 0 {
        law_decimal_is_read_back(number(id));
    }
}

impl MemberSetView {
    /// The members' ids are clean.
    pub open spec fn clean(self) -> bool {
        forall|i: int| 0 <= i < self.members.len() ==> id_clean(#[trigger] self.members[i].member_id)
    }
}

proof fn lemma_nodes_canon_bytes(nodes: Seq<NodeView>, v: ProtocolVersion)
    requires
        forall|i: int| 0 <= i < nodes.len() ==> (#[trigger] nodes[i]).writable(v),
        forall|i: int| 0 <= i < nodes.len() ==> id_clean(#[trigger] nodes[i].member_id),
    ensures
        nodes_bytes(nodes.map_values(|n: NodeView| n.canon(v)), v) == nodes_bytes(nodes, v),
    decreases nodes.len(),
{
    let canon = |n: NodeView| n.canon(v);
    if nodes.len() > 0 {
        lemma_nodes_canon_bytes(nodes.drop_last(), v);
        assert(nodes.map_values(canon).drop_last() =~= nodes.drop_last().map_values(canon));
        lemma_id_canon_bytes(nodes.last().member_id, v);
    }
}

/// What is read back of a clean member set is written as the same bytes.
pub(crate) proof fn lemma_member_set_canon_bytes(m: MemberSetView, v: ProtocolVersion)
    requires
        m.writable(v),
        m.clean(),
    ensures
        m.canon(v).bytes(v) == m.bytes(v),
{
    lemma_nodes_canon_bytes(m.members, v);
}

proof fn lemma_host_total_canon(nodes: Seq<NodeView>, v: ProtocolVersion)
    ensures
        host_total(nodes.map_values(|n: NodeView| n.canon(v))) == host_total(nodes),
    decreases nodes.len(),
{
    let canon = |n: NodeView| n.canon(v);
    if nodes.len() > 0 {
        lemma_host_total_canon(nodes.drop_last(), v);
        assert(nodes.map_values(canon).drop_last() =~= nodes.drop_last().map_values(canon));
    }
}

/// What is read back of a member set takes the same number of bytes.
pub(crate) proof fn lemma_member_set_canon_len(m: MemberSetView, v: ProtocolVersion)
    ensures
        m.canon(v).len(v) == m.len(v),
{
    lemma_host_total_canon(m.members, v);
}

} // verus!
