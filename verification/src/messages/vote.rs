//! Votes, the messages that carry the replicated requests.
//!
//! The body holds, in order: the primary cookie (from version 2 on); a byte
//! that marks a reconfiguration, followed by the new member set if it is set
//! (from version 3 on); a byte by which the primary steps down (from version 5
//! on); and client requests up to the message's end. Cookie and requests are
//! strings, each with its length in front. A request is never empty.

use vstd::prelude::*;

use super::{
    header_at, header_size, law_read_header_is_canonical, law_written_message_verifies,
    lemma_sealed, message_bytes, message_checksum, message_len, Header, HeaderView, MAGIC, MSG_VOTE,
};
use crate::bytes::{lemma_stands_at_sum, stands_at};
use crate::marshal::{
    bool_bytes, decodes, law_string_round_trips, string_at, string_bytes, string_halt, view_opt,
    Reader, Writer,
};
use crate::types::{
    law_member_set_len, law_member_set_round_trips, law_read_member_set_is_canonical, member_set_at,
    MemberSet, MemberSetView,
};
use crate::version::ProtocolVersion;

verus! {

broadcast use crate::bytes::group_le_len;

/// Why a message is not written.
#[derive(Clone, Copy, Debug, PartialEq, Eq, Structural)]
pub enum MarshalError {
    /// A reconfiguration vote that also carries requests. A receiver may take
    /// such a vote for corrupt.
    ReconfigurationVoteWithRequests,
    /// A reconfiguration vote without the new member set.
    ReconfigurationVoteWithoutMembers,
}

impl MarshalError {
    /// The wording of the error.
    pub open spec fn wording(self) -> Seq<char> {
        match self {
            MarshalError::ReconfigurationVoteWithRequests =>
                "a reconfiguration vote cannot carry requests"@,
            MarshalError::ReconfigurationVoteWithoutMembers =>
                "a reconfiguration vote needs a member set"@,
        }
    }

    /// The error in words.
    pub fn message(self) -> (r: &'static str)
        ensures
            r@ == self.wording(),
    {
        match self {
            MarshalError::ReconfigurationVoteWithRequests =>
                "a reconfiguration vote cannot carry requests",
            MarshalError::ReconfigurationVoteWithoutMembers =>
                "a reconfiguration vote needs a member set",
        }
    }
}

/// A primary cookie on the wire.
pub open spec fn cookie_bytes(cookie: Seq<u8>, v: ProtocolVersion) -> Seq<u8> {
    if v.num() >= 2 {
        string_bytes(cookie)
    } else {
        Seq::empty()
    }
}

/// Number of bytes that a primary cookie takes on the wire.
pub open spec fn cookie_len(cookie: Seq<u8>, v: ProtocolVersion) -> nat {
    if v.num() >= 2 {
        4 + cookie.len()
    } else {
        0
    }
}

/// The primary cookie that a reader makes of those bytes.
pub open spec fn cookie_canon(cookie: Seq<u8>, v: ProtocolVersion) -> Seq<u8> {
    if v.num() >= 2 {
        cookie
    } else {
        Seq::empty()
    }
}

/// The primary cookie at `pos`, and where it ends.
pub open spec fn cookie_at(s: Seq<u8>, pos: int, v: ProtocolVersion) -> Option<(Seq<u8>, int)> {
    if v.num() >= 2 {
        string_at(s, pos)
    } else {
        Some((Seq::empty(), pos))
    }
}

/// Requests on the wire, one after the other.
pub open spec fn requests_bytes(requests: Seq<Seq<u8>>) -> Seq<u8>
    decreases requests.len(),
{
    if requests.len() == 0 {
        Seq::empty()
    } else {
        string_bytes(requests[0]) + requests_bytes(requests.skip(1))
    }
}

/// Number of bytes that requests take on the wire.
pub open spec fn requests_len(requests: Seq<Seq<u8>>) -> nat
    decreases requests.len(),
{
    if requests.len() == 0 {
        0
    } else {
        4 + requests[0].len() + requests_len(requests.skip(1))
    }
}

/// The requests from `pos` to the end. An empty request is refused.
pub open spec fn requests_at(s: Seq<u8>, pos: int) -> Option<Seq<Seq<u8>>>
    decreases s.len() - pos,
{
    if pos >= s.len() {
        Some(Seq::empty())
    } else {
        match string_at(s, pos) {
            None => None,
            Some((request, end)) => if request.len() == 0 {
                None
            } else {
                match requests_at(s, end) {
                    None => None,
                    Some(rest) => Some(seq![request] + rest),
                }
            },
        }
    }
}

/// A vote as plain values.
pub struct VoteView {
    /// The message header.
    pub header: HeaderView,
    /// The primary's cookie.
    pub primary_cookie: Seq<u8>,
    /// Whether the vote changes the configuration.
    pub is_reconfiguration: bool,
    /// The new member set of a vote that does.
    pub members_in_new_configuration: Option<MemberSetView>,
    /// Whether the primary steps down.
    pub relinquish_primary: bool,
    /// The client requests.
    pub requests: Seq<Seq<u8>>,
}

/// The reconfiguration byte and member set at `pos`, and where they end.
pub open spec fn reconfiguration_at(s: Seq<u8>, pos: int, v: ProtocolVersion) -> Option<
    (Option<MemberSetView>, int),
> {
    if v.num() < 3 {
        Some((None, pos))
    } else if pos + 1 > s.len() {
        None
    } else if s[pos] == 0 {
        Some((None, pos + 1))
    } else {
        match member_set_at(s, pos + 1, v) {
            Some((m, end)) => Some((Some(m), end)),
            None => None,
        }
    }
}

/// The step-down byte at `pos`, and where it ends.
pub open spec fn relinquish_at(s: Seq<u8>, pos: int, v: ProtocolVersion) -> Option<(bool, int)> {
    if v.num() < 5 {
        Some((false, pos))
    } else if pos + 1 > s.len() {
        None
    } else {
        Some((s[pos] != 0, pos + 1))
    }
}

/// The body of a vote, which goes from `pos` to the end.
pub open spec fn vote_body_at(s: Seq<u8>, pos: int, h: HeaderView) -> Option<VoteView> {
    match cookie_at(s, pos, h.version) {
        None => None,
        Some((cookie, p)) => match reconfiguration_at(s, p, h.version) {
            None => None,
            Some((members, q)) => match relinquish_at(s, q, h.version) {
                None => None,
                Some((relinquish, r)) => match requests_at(s, r) {
                    None => None,
                    Some(requests) => Some(
                        VoteView {
                            header: h,
                            primary_cookie: cookie,
                            is_reconfiguration: members is Some,
                            members_in_new_configuration: members,
                            relinquish_primary: relinquish,
                            requests,
                        },
                    ),
                },
            },
        },
    }
}

/// The vote that a buffer starts with. It ends where its own length field says,
/// whatever follows it in the buffer.
pub open spec fn parsed_vote(buf: Seq<u8>) -> Option<VoteView> {
    match header_at(buf, 0) {
        None => None,
        Some((h, end)) => if h.msg_id != MSG_VOTE || h.un_marshal_len > buf.len() {
            None
        } else {
            vote_body_at(buf.take(h.un_marshal_len as int), end, h)
        },
    }
}

impl VoteView {
    /// The version carries the mark of a reconfiguration, and it is set.
    pub open spec fn reconfigures(self) -> bool {
        self.header.version.num() >= 3 && self.is_reconfiguration
    }

    /// Why the vote is not written, if it is not.
    pub open spec fn refusal(self) -> Option<MarshalError> {
        if self.reconfigures() && self.requests.len() > 0 {
            Some(MarshalError::ReconfigurationVoteWithRequests)
        } else if self.reconfigures() && self.members_in_new_configuration is None {
            Some(MarshalError::ReconfigurationVoteWithoutMembers)
        } else {
            None
        }
    }

    /// The member ids of the vote can be written at its version.
    pub open spec fn writable(self) -> bool {
        &&& self.header.writable()
        &&& self.reconfigures() && self.members_in_new_configuration is Some
            ==> self.members_in_new_configuration->Some_0.writable(self.header.version)
    }

    /// The reconfiguration part on the wire.
    pub open spec fn reconfiguration_bytes(self) -> Seq<u8> {
        if self.header.version.num() < 3 {
            Seq::empty()
        } else if self.is_reconfiguration {
            bool_bytes(true) + self.members_in_new_configuration->Some_0.bytes(self.header.version)
        } else {
            bool_bytes(false)
        }
    }

    /// The step-down byte on the wire.
    pub open spec fn relinquish_bytes(self) -> Seq<u8> {
        if self.header.version.num() < 5 {
            Seq::empty()
        } else {
            bool_bytes(self.relinquish_primary)
        }
    }

    /// The body on the wire.
    pub open spec fn body(self) -> Seq<u8> {
        cookie_bytes(self.primary_cookie, self.header.version) + self.reconfiguration_bytes()
            + self.relinquish_bytes() + requests_bytes(self.requests)
    }

    /// Number of bytes that the reconfiguration part takes.
    pub open spec fn reconfiguration_len(self) -> nat {
        if self.header.version.num() < 3 {
            0
        } else if self.is_reconfiguration && self.members_in_new_configuration is Some {
            1 + self.members_in_new_configuration->Some_0.len(self.header.version)
        } else {
            1
        }
    }

    /// Number of bytes that the body takes.
    pub open spec fn body_len(self) -> nat {
        cookie_len(self.primary_cookie, self.header.version) + self.reconfiguration_len() + (
        if self.header.version.num() < 5 {
            0nat
        } else {
            1
        }) + requests_len(self.requests)
    }

    /// Number of bytes that the vote takes.
    pub open spec fn len(self) -> int {
        header_size(self.header.version) + self.body_len()
    }

    /// The vote as a whole message, checksum included.
    pub open spec fn bytes(self) -> Seq<u8> {
        message_bytes(self.header, self.body())
    }

    /// The vote with the checksum field as the header has it.
    pub open spec fn raw_bytes(self) -> Seq<u8> {
        self.header.bytes(self.len() as u32) + self.body()
    }

    /// The vote can be written and read back: it is not refused, it is a vote,
    /// and every length fits its field and its limit.
    pub open spec fn sendable(self) -> bool {
        &&& self.writable()
        &&& self.refusal() is None
        &&& self.header.magic == MAGIC
        &&& self.header.msg_id == MSG_VOTE
        &&& self.len() <= u32::MAX
        &&& self.reconfigures() ==> self.members_in_new_configuration->Some_0.fits()
        &&& forall|i: int|
            0 <= i < self.requests.len() ==> (#[trigger] self.requests[i]).len() > 0
    }

    /// The vote that a reader makes of its bytes, where the checksum field
    /// holds `checksum`.
    pub open spec fn canon(self, checksum: u64) -> VoteView {
        let v = self.header.version;
        VoteView {
            header: self.header.canon(self.len() as u32, checksum),
            primary_cookie: cookie_canon(self.primary_cookie, v),
            is_reconfiguration: self.reconfigures(),
            members_in_new_configuration: if self.reconfigures() {
                Some(self.members_in_new_configuration->Some_0.canon(v))
            } else {
                None
            },
            relinquish_primary: v.num() >= 5 && self.relinquish_primary,
            requests: self.requests,
        }
    }
}

proof fn lemma_requests_len(requests: Seq<Seq<u8>>)
    ensures
        requests_bytes(requests).len() == requests_len(requests),
    decreases requests.len(),
{
    if requests.len() > 0 {
        lemma_requests_len(requests.skip(1));
    }
}

proof fn lemma_requests_round_trip(s: Seq<u8>, pos: int, requests: Seq<Seq<u8>>)
    requires
        requests_len(requests) <= u32::MAX,
        stands_at(s, pos, requests_bytes(requests)),
        pos + requests_len(requests) == s.len(),
        forall|i: int| 0 <= i < requests.len() ==> (#[trigger] requests[i]).len() > 0,
    ensures
        requests_at(s, pos) == Some(requests),
    decreases requests.len(),
{
    if requests.len() == 0 {
        assert(requests =~= Seq::empty());
    } else {
        let rest = requests.skip(1);
        lemma_stands_at_sum(s, pos, string_bytes(requests[0]), requests_bytes(rest));
        law_string_round_trips(s, pos, requests[0]);
        lemma_requests_round_trip(s, pos + 4 + requests[0].len(), rest);
        assert(seq![requests[0]] + rest =~= requests);
    }
}

/// The body of a vote has the length that the vote reports.
pub proof fn law_vote_len(m: VoteView)
    requires
        m.writable(),
        m.refusal() is None,
    ensures
        m.body().len() == m.body_len(),
        message_len(m.header, m.body()) == m.len(),
{
    lemma_requests_len(m.requests);
    if m.reconfigures() {
        law_member_set_len(m.members_in_new_configuration->Some_0, m.header.version);
    }
}

/// A vote takes as many bytes inside another message as on its own.
pub(crate) proof fn lemma_raw_len(m: VoteView)
    requires
        m.writable(),
        m.refusal() is None,
        m.len() <= u32::MAX,
    ensures
        m.raw_bytes().len() == m.len(),
{
    law_vote_len(m);
    lemma_sealed(m.header, m.body());
}

/// The body of a vote is read back where it stands at the end of the bytes.
proof fn lemma_vote_body_round_trips(s: Seq<u8>, pos: int, m: VoteView, h: HeaderView)
    requires
        m.sendable(),
        stands_at(s, pos, m.body()),
        pos + m.body_len() == s.len(),
        h.version == m.header.version,
    ensures
        vote_body_at(s, pos, h) == Some(VoteView { header: h, ..m.canon(0) }),
{
    let v = m.header.version;
    let a = cookie_bytes(m.primary_cookie, v);
    let b = m.reconfiguration_bytes();
    let c = m.relinquish_bytes();
    let d = requests_bytes(m.requests);
    law_vote_len(m);
    lemma_requests_len(m.requests);
    lemma_stands_at_sum(s, pos, a + b + c, d);
    lemma_stands_at_sum(s, pos, a + b, c);
    lemma_stands_at_sum(s, pos, a, b);
    if v.num() >= 2 {
        law_string_round_trips(s, pos, m.primary_cookie);
    }
    let p = pos + a.len();
    if v.num() >= 3 {
        if m.is_reconfiguration {
            let ms = m.members_in_new_configuration->Some_0;
            lemma_stands_at_sum(s, p, bool_bytes(true), ms.bytes(v));
            assert(s.subrange(p, p + 1)[0] == 1);
            law_member_set_round_trips(s, p + 1, ms, v);
            law_member_set_len(ms, v);
        } else {
            assert(s.subrange(p, p + 1)[0] == 0);
        }
    }
    let q = p + b.len();
    if v.num() >= 5 {
        assert(s.subrange(q, q + 1)[0] == bool_bytes(m.relinquish_primary)[0]);
    }
    let r = q + c.len();
    lemma_requests_round_trip(s, r, m.requests);
}

/// A vote that is written is read back, in the form that its version keeps.
pub proof fn law_vote_round_trips(m: VoteView)
    requires
        m.sendable(),
    ensures
        parsed_vote(m.bytes()) == Some(m.canon(message_checksum(m.header, m.body()))),
{
    let h = m.header;
    let s = m.bytes();
    law_vote_len(m);
    law_written_message_verifies(h, m.body());
    let len = m.len() as u32;
    assert(s.take(len as int) =~= s);
    assert(s.subrange(header_size(h.version), s.len() as int) =~= s.skip(header_size(h.version)));
    lemma_vote_body_round_trips(
        s,
        header_size(h.version),
        m,
        h.canon(len, message_checksum(h, m.body())),
    );
}

/// A vote that is written is read back whatever follows it.
pub proof fn law_vote_is_found_before_anything(m: VoteView, tail: Seq<u8>)
    requires
        m.sendable(),
    ensures
        parsed_vote(m.bytes() + tail) == Some(m.canon(message_checksum(m.header, m.body()))),
{
    let s = m.bytes() + tail;
    let len = m.len();
    law_vote_round_trips(m);
    law_vote_len(m);
    law_written_message_verifies(m.header, m.body());
    let (h, end) = header_at(m.bytes(), 0)->Some_0;
    law_read_header_is_canonical(m.bytes(), 0);
    assert(m.bytes().take(end) =~= s.take(end));
    super::law_header_is_local(m.bytes(), s);
    assert(s.take(len) =~= m.bytes());
    assert(m.bytes().take(len) =~= m.bytes());
}

/// A buffer that starts with the bytes of a vote and is taken for some vote: the
/// header that is read is that of the vote.
pub(crate) proof fn lemma_accepted_header(m: VoteView, tail: Seq<u8>)
    requires
        m.writable(),
        m.refusal() is None,
        m.len() <= u32::MAX,
        parsed_vote(m.bytes() + tail) is Some,
    ensures
        m.header.magic == MAGIC,
        m.header.msg_id == MSG_VOTE,
        m.bytes().len() == m.len(),
        parsed_vote(m.bytes() + tail)->Some_0.header == m.header.canon(
            m.len() as u32,
            message_checksum(m.header, m.body()),
        ),
{
    let s = m.bytes() + tail;
    let h = m.header;
    let c = message_checksum(h, m.body());
    law_vote_len(m);
    super::lemma_message_bytes_len(h, m.body());
    super::lemma_magic_at(h, m.body(), tail);
    assert(h.magic == MAGIC) by {
        reveal(header_at);
    }
    law_written_message_verifies(h, m.body());
    law_read_header_is_canonical(m.bytes(), 0);
    let end = header_size(h.version);
    assert(m.bytes().take(end) =~= s.take(end));
    super::law_header_is_local(m.bytes(), s);
}

/// A vote whose bytes a reader accepts can be sent, if its lengths fit their
/// fields.
pub proof fn law_accepted_vote_is_sendable(m: VoteView)
    requires
        m.writable(),
        m.refusal() is None,
        m.len() <= u32::MAX,
        m.reconfigures() ==> m.members_in_new_configuration->Some_0.fits(),
        parsed_vote(m.bytes()) is Some,
    ensures
        m.sendable(),
{
    let none = Seq::<u8>::empty();
    let s = m.bytes();
    let h = m.header;
    let v = h.version;
    assert(s + none =~= s);
    lemma_accepted_header(m, none);
    law_vote_len(m);
    law_written_message_verifies(h, m.body());
    assert(s.take(m.len()) =~= s);
    let pos = header_size(v);
    assert(s.subrange(pos, s.len() as int) =~= s.skip(pos));
    let a = cookie_bytes(m.primary_cookie, v);
    let b = m.reconfiguration_bytes();
    let c = m.relinquish_bytes();
    let d = requests_bytes(m.requests);
    lemma_requests_len(m.requests);
    lemma_stands_at_sum(s, pos, a + b + c, d);
    lemma_stands_at_sum(s, pos, a + b, c);
    lemma_stands_at_sum(s, pos, a, b);
    if v.num() >= 2 {
        law_string_round_trips(s, pos, m.primary_cookie);
    }
    let p = pos + a.len();
    if v.num() >= 3 {
        if m.is_reconfiguration {
            let ms = m.members_in_new_configuration->Some_0;
            lemma_stands_at_sum(s, p, bool_bytes(true), ms.bytes(v));
            assert(s.subrange(p, p + 1)[0] == 1);
            law_member_set_round_trips(s, p + 1, ms, v);
            law_member_set_len(ms, v);
        } else {
            assert(s.subrange(p, p + 1)[0] == 0);
        }
    }
    let r = p + b.len() + c.len();
    assert(requests_at(s, r) is Some);
    lemma_accepted_requests(s, r, m.requests);
}

proof fn lemma_accepted_requests(s: Seq<u8>, pos: int, requests: Seq<Seq<u8>>)
    requires
        requests_len(requests) <= u32::MAX,
        stands_at(s, pos, requests_bytes(requests)),
        pos + requests_len(requests) == s.len(),
        requests_at(s, pos) is Some,
    ensures
        forall|i: int| 0 <= i < requests.len() ==> (#[trigger] requests[i]).len() > 0,
    decreases requests.len(),
{
    if requests.len() > 0 {
        let rest = requests.skip(1);
        lemma_stands_at_sum(s, pos, string_bytes(requests[0]), requests_bytes(rest));
        law_string_round_trips(s, pos, requests[0]);
        lemma_accepted_requests(s, pos + 4 + requests[0].len(), rest);
        assert forall|i: int| 0 <= i < requests.len() implies (#[trigger] requests[i]).len() > 0 by {
            if i > 0 {
                assert(rest[i - 1] == requests[i]);
            }
        }
    }
}

/// A vote is read from its own bytes alone, whatever follows them.
pub(crate) proof fn lemma_vote_is_local(s: Seq<u8>, t: Seq<u8>)
    requires
        parsed_vote(s) is Some,
        parsed_vote(s)->Some_0.len() <= t.len(),
        s.take(parsed_vote(s)->Some_0.len()) == t.take(parsed_vote(s)->Some_0.len()),
    ensures
        parsed_vote(t) == parsed_vote(s),
{
    law_read_vote_is_canonical(s);
    law_read_header_is_canonical(s, 0);
    let n = parsed_vote(s)->Some_0.len();
    let (h, end) = header_at(s, 0)->Some_0;
    assert(s.take(end) =~= s.take(n).take(end));
    assert(t.take(end) =~= t.take(n).take(end));
    super::law_header_is_local(s, t);
}

/// A vote inside another message keeps its checksum field, and is read back
/// whatever follows it.
pub proof fn law_nested_vote_round_trips(m: VoteView, tail: Seq<u8>)
    requires
        m.sendable(),
    ensures
        parsed_vote(m.raw_bytes() + tail) == Some(m.canon(m.header.checksum)),
        m.raw_bytes().len() == m.len(),
{
    let h = m.header;
    let s = m.raw_bytes() + tail;
    let len = m.len() as u32;
    let size = header_size(h.version);
    law_vote_len(m);
    lemma_stands_at_sum(s, 0, m.raw_bytes(), tail);
    assert(s.subrange(0, m.raw_bytes().len() as int) =~= m.raw_bytes());
    lemma_stands_at_sum(s, 0, h.bytes(len), m.body());
    super::law_header_round_trips(s, 0, h, len);
    let own = s.take(len as int);
    assert(own =~= m.raw_bytes());
    assert(own.subrange(size, len as int) =~= m.body());
    lemma_vote_body_round_trips(own, size, m, h.canon(len, h.checksum));
}

proof fn lemma_requests_canonical(s: Seq<u8>, pos: int)
    requires
        0 <= pos <= s.len(),
        requests_at(s, pos) is Some,
    ensures
        requests_len(requests_at(s, pos)->Some_0) == s.len() - pos,
        forall|i: int|
            0 <= i < requests_at(s, pos)->Some_0.len() ==> (#[trigger] requests_at(
                s,
                pos,
            )->Some_0[i]).len() > 0,
    decreases s.len() - pos,
{
    if pos < s.len() {
        let (request, end) = string_at(s, pos)->Some_0;
        lemma_requests_canonical(s, end);
        let all = requests_at(s, pos)->Some_0;
        let rest = requests_at(s, end)->Some_0;
        assert(all.skip(1) =~= rest);
        assert forall|i: int| 0 <= i < all.len() implies (#[trigger] all[i]).len() > 0 by {
            if i > 0 {
                assert(all[i] == rest[i - 1]);
            }
        }
    }
}

/// A vote that was read is in the form that its version keeps and as long as
/// its header says. Unless it reconfigures and carries requests too, it can be
/// written again.
pub proof fn law_read_vote_is_canonical(buf: Seq<u8>)
    requires
        parsed_vote(buf) is Some,
    ensures
        ({
            let m = parsed_vote(buf)->Some_0;
            &&& m.len() == m.header.un_marshal_len
            &&& m.len() <= buf.len()
            &&& m.canon(m.header.checksum) == m
            &&& m.writable()
            &&& m.refusal() is Some ==> m.refusal() == Some(
                MarshalError::ReconfigurationVoteWithRequests,
            )
            &&& m.refusal() is None ==> m.sendable()
        }),
{
    law_read_header_is_canonical(buf, 0);
    let m = parsed_vote(buf)->Some_0;
    let h = m.header;
    let v = h.version;
    let s = buf.take(h.un_marshal_len as int);
    let (_, p) = cookie_at(s, header_size(v), v)->Some_0;
    if v.num() >= 3 && s[p] != 0 {
        law_read_member_set_is_canonical(s, p + 1, v);
    }
    let (_, q) = reconfiguration_at(s, p, v)->Some_0;
    let (_, r) = relinquish_at(s, q, v)->Some_0;
    lemma_requests_canonical(s, r);
}

/// A vote: it carries the requests of one decree, or a change of configuration.
#[derive(Debug)]
pub struct Vote {
    /// The message header.
    pub header: Header,
    /// The primary's cookie, sent from version 2 on.
    pub primary_cookie: Vec<u8>,
    /// Whether the vote changes the configuration, sent from version 3 on.
    pub is_reconfiguration: bool,
    /// The new member set of a vote that does.
    pub members_in_new_configuration: Option<MemberSet>,
    /// Whether the primary steps down, sent from version 5 on.
    pub relinquish_primary: bool,
    /// The client requests, in order.
    pub requests: Vec<Vec<u8>>,
}

impl View for Vote {
    type V = VoteView;

    open spec fn view(&self) -> VoteView {
        VoteView {
            header: self.header@,
            primary_cookie: self.primary_cookie@,
            is_reconfiguration: self.is_reconfiguration,
            members_in_new_configuration: view_opt(self.members_in_new_configuration),
            relinquish_primary: self.relinquish_primary,
            requests: self.requests@.map_values(|r: Vec<u8>| r@),
        }
    }
}

impl Clone for Vote {
    fn clone(&self) -> (r: Vote)
        ensures
            r@ == self@,
    {
        let mut requests: Vec<Vec<u8>> = Vec::new();
        let mut i: usize = 0;
        while i < self.requests.len()
            invariant
                i <= self.requests@.len(),
                requests@.len() == i,
                forall|j: int| 0 <= j < i ==> (#[trigger] requests@[j])@ == self.requests@[j]@,
            decreases self.requests@.len() - i,
        {
            requests.push(vstd::slice::slice_to_vec(self.requests[i].as_slice()));
            i += 1;
        }
        let members = match &self.members_in_new_configuration {
            Some(m) => Some(m.clone()),
            None => None,
        };
        let r = Vote {
            header: self.header.clone(),
            primary_cookie: vstd::slice::slice_to_vec(self.primary_cookie.as_slice()),
            is_reconfiguration: self.is_reconfiguration,
            members_in_new_configuration: members,
            relinquish_primary: self.relinquish_primary,
            requests,
        };
        assert(r@.requests =~= self@.requests);
        r
    }
}

impl Vote {
    /// A vote with nothing but its header.
    pub fn new(header: Header) -> (r: Vote)
        ensures
            r@ == (VoteView {
                header: header@,
                primary_cookie: Seq::empty(),
                is_reconfiguration: false,
                members_in_new_configuration: None,
                relinquish_primary: false,
                requests: Seq::empty(),
            }),
    {
        let r = Vote {
            header,
            primary_cookie: Vec::new(),
            is_reconfiguration: false,
            members_in_new_configuration: None,
            relinquish_primary: false,
            requests: Vec::new(),
        };
        assert(r@.requests =~= Seq::empty());
        r
    }

    /// Appends a client request.
    pub fn add_request(&mut self, request: Vec<u8>)
        ensures
            final(self)@ == (VoteView {
                requests: old(self)@.requests.push(request@),
                ..old(self)@
            }),
    {
        self.requests.push(request);
        assert(self@.requests =~= old(self)@.requests.push(request@));
    }

    /// Length of the whole message. It must fit the length field.
    pub fn marshal_len(&self) -> (r: u32)
        requires
            self@.len() <= u32::MAX,
        ensures
            r == self@.len(),
    {
        Header::base_size(self.header.version) + self.body_len()
    }

    fn body_len(&self) -> (r: u32)
        requires
            self@.len() <= u32::MAX,
        ensures
            r == self@.body_len(),
    {
        let v = self.header.version;
        let mut len: u32 = 0;
        if v.has_primary_cookie() {
            len = 4 + self.primary_cookie.len() as u32;
        }
        if v.has_reconfiguration() {
            len = len + 1;
            if self.is_reconfiguration {
                match &self.members_in_new_configuration {
                    Some(ms) => {
                        len = len + ms.marshal_len(v);
                    },
                    None => {},
                }
            }
        }
        if v.has_relinquish_primary() {
            len = len + 1;
        }
        let mut i: usize = 0;
        assert(self@.requests.skip(0) =~= self@.requests);
        while i < self.requests.len()
            invariant
                i <= self.requests@.len(),
                self@.body_len() <= u32::MAX,
                len + requests_len(self@.requests.skip(i as int)) == self@.body_len(),
            decreases self.requests@.len() - i,
        {
            assert(self@.requests.skip(i as int).skip(1) =~= self@.requests.skip(i + 1));
            assert(self@.requests.skip(i as int)[0] == self.requests@[i as int]@);
            len = len + 4 + self.requests[i].len() as u32;
            i += 1;
        }
        len
    }

    fn write_requests(&self, w: &mut Writer)
        ensures
            final(w)@ == old(w)@ + requests_bytes(self@.requests),
    {
        let ghost start = w@;
        let mut i: usize = 0;
        assert(self@.requests.skip(0) =~= self@.requests);
        while i < self.requests.len()
            invariant
                i <= self.requests@.len(),
                w@ + requests_bytes(self@.requests.skip(i as int)) == start + requests_bytes(
                    self@.requests,
                ),
            decreases self.requests@.len() - i,
        {
            let ghost left = self@.requests.skip(i as int);
            let ghost before = w@;
            assert(left.skip(1) =~= self@.requests.skip(i + 1));
            assert(left[0] == self.requests@[i as int]@);
            w.write_string(self.requests[i].as_slice());
            assert(w@ + requests_bytes(left.skip(1)) =~= before + requests_bytes(left));
            i += 1;
        }
        assert(w@ + requests_bytes(self@.requests.skip(i as int)) =~= w@);
    }

    /// Writes header and body, with the checksum field as the header has it.
    /// A vote that is refused leaves the writer as it was.
    #[verifier::rlimit(40)]
    pub(crate) fn write_to(&self, w: &mut Writer) -> (r: Result<(), MarshalError>)
        requires
            self@.writable(),
            self@.len() <= u32::MAX,
        ensures
            r == (match self@.refusal() {
                Some(e) => Err::<(), MarshalError>(e),
                None => Ok(()),
            }),
            final(w)@ == (if r is Ok {
                old(w)@ + self@.raw_bytes()
            } else {
                old(w)@
            }),
    {
        let v = self.header.version;
        if v.has_reconfiguration() && self.is_reconfiguration {
            if self.requests.len() > 0 {
                return Err(MarshalError::ReconfigurationVoteWithRequests);
            }
            if self.members_in_new_configuration.is_none() {
                return Err(MarshalError::ReconfigurationVoteWithoutMembers);
            }
        }
        self.header.write(w, self.marshal_len());
        let ghost start = w@;
        if v.has_primary_cookie() {
            write_primary_cookie(w, self.primary_cookie.as_slice());
        }
        assert(w@ =~= start + cookie_bytes(self@.primary_cookie, v));
        let ghost second = w@;
        if v.has_reconfiguration() {
            w.write_bool(self.is_reconfiguration);
            if self.is_reconfiguration {
                match &self.members_in_new_configuration {
                    Some(ms) => {
                        ms.marshal(w, v);
                    },
                    None => {},
                }
            }
        }
        assert(w@ =~= second + self@.reconfiguration_bytes());
        let ghost third = w@;
        if v.has_relinquish_primary() {
            w.write_bool(self.relinquish_primary);
        }
        assert(w@ =~= third + self@.relinquish_bytes());
        self.write_requests(w);
        assert(w@ =~= old(w)@ + self@.raw_bytes());
        Ok(())
    }

    /// Writes the vote as a whole message. A reconfiguration vote that carries
    /// requests, or no member set, is refused.
    pub fn marshal_with_checksum(&self) -> (r: Result<Vec<u8>, MarshalError>)
        requires
            self@.writable(),
            self@.len() <= u32::MAX,
        ensures
            match self@.refusal() {
                Some(e) => r == Err::<Vec<u8>, MarshalError>(e),
                None => r is Ok && r->Ok_0@ == self@.bytes(),
            },
    {
        let mut w = Writer::with_capacity(self.marshal_len() as usize);
        match self.write_to(&mut w) {
            Ok(_) => {
                proof {
                    law_vote_len(self@);
                    lemma_sealed(self@.header, self@.body());
                    assert(w@ =~= self@.raw_bytes());
                }
                Ok(super::finalize(w.into_bytes()))
            },
            Err(e) => Err(e),
        }
    }

    /// Reads the vote that `buf` starts with. It ends where its own length
    /// field says, so no request can run into what follows it.
    #[verifier::rlimit(40)]
    pub fn unmarshal(buf: &[u8]) -> (r: Option<Vote>)
        ensures
            view_opt(r) == parsed_vote(buf@),
    {
        proof {
            if header_at(buf@, 0) is Some {
                law_read_header_is_canonical(buf@, 0);
            }
        }
        let mut r = Reader::new(buf);
        let header = Header::unmarshal(&mut r)?;
        if header.msg_id != MSG_VOTE {
            return None;
        }
        let v = header.version;
        let ulen = header.un_marshal_len as usize;
        if ulen > buf.len() {
            return None;
        }
        let own = vstd::slice::slice_subrange(buf, 0, ulen);
        let ghost s = buf@.take(ulen as int);
        assert(own@ =~= s);
        let mut br = Reader::new(own);
        br.set_read_pointer(Header::base_size(v));
        let primary_cookie = if v.has_primary_cookie() {
            read_primary_cookie(&mut br)?
        } else {
            Vec::new()
        };
        assert(cookie_at(s, header_size(v), v) == Some((primary_cookie@, br@.pos)));
        let ghost p = br@.pos;
        let mut members: Option<MemberSet> = None;
        if v.has_reconfiguration() {
            if br.read_bool()? {
                members = Some(MemberSet::unmarshal(&mut br, v)?);
            }
        }
        let is_reconfiguration = members.is_some();
        assert(reconfiguration_at(s, p, v) == Some((view_opt(members), br@.pos)));
        let ghost q = br@.pos;
        let relinquish_primary = if v.has_relinquish_primary() {
            br.read_bool()?
        } else {
            false
        };
        assert(relinquish_at(s, q, v) == Some((relinquish_primary, br@.pos)));
        let ghost start = br@.pos;
        let mut requests: Vec<Vec<u8>> = Vec::new();
        let ghost mut done: Seq<Seq<u8>> = Seq::empty();
        proof {
            use_type_invariant(&br);
            if requests_at(s, start) is Some {
                assert(done + requests_at(s, start)->Some_0 =~= requests_at(s, start)->Some_0);
            }
            assert(requests@.map_values(|r: Vec<u8>| r@) =~= done);
        }
        while (br.read_pointer() as usize) < ulen
            invariant
                br@.buf == s,
                !br@.overshoot,
                0 <= br@.pos <= s.len(),
                s.len() == ulen,
                ulen <= u32::MAX,
                requests@.map_values(|r: Vec<u8>| r@) == done,
                requests_at(s, start) == (match requests_at(s, br@.pos) {
                    Some(rest) => Some(done + rest),
                    None => None,
                }),
                parsed_vote(buf@) == (match requests_at(s, start) {
                    Some(requests) => Some(
                        VoteView {
                            header: header@,
                            primary_cookie: primary_cookie@,
                            is_reconfiguration,
                            members_in_new_configuration: view_opt(members),
                            relinquish_primary,
                            requests,
                        },
                    ),
                    None => None,
                }),
            decreases s.len() - br@.pos,
        {
            let ghost at = br@.pos;
            let req_len = br.read_u32()?;
            if req_len == 0 {
                return None;
            }
            let req = br.read_data(req_len)?;
            requests.push(vstd::slice::slice_to_vec(req));
            proof {
                assert(string_at(s, at) == Some((req@, br@.pos)));
                if requests_at(s, br@.pos) is Some {
                    let rest = requests_at(s, br@.pos)->Some_0;
                    assert(done + (seq![req@] + rest) =~= done.push(req@) + rest);
                }
                assert(requests@.map_values(|r: Vec<u8>| r@) =~= done.push(req@));
                done = done.push(req@);
            }
        }
        assert(done + Seq::<Seq<u8>>::empty() =~= done);
        Some(
            Vote {
                header,
                primary_cookie,
                is_reconfiguration,
                members_in_new_configuration: members,
                relinquish_primary,
                requests,
            },
        )
    }
}

/// Writes a primary cookie: its length, then its bytes.
pub(crate) fn write_primary_cookie(w: &mut Writer, cookie: &[u8])
    ensures
        final(w)@ == old(w)@ + string_bytes(cookie@),
{
    w.write_string(cookie);
}

/// Reads a primary cookie.
pub(crate) fn read_primary_cookie(r: &mut Reader) -> (res: Option<Vec<u8>>)
    ensures
        decodes(
            old(r)@,
            final(r)@,
            string_at(old(r)@.buf, old(r)@.pos),
            string_halt(old(r)@.buf, old(r)@.pos),
            view_opt(res),
        ),
{
    proof {
        use_type_invariant(&*r);
    }
    let len = r.read_u32()?;
    let cookie = r.read_data(len)?;
    Some(vstd::slice::slice_to_vec(cookie))
}

} // verus!
