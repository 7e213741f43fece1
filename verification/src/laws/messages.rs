//! Messages: what is sent comes back, and where it stands on the wire.

use vstd::prelude::*;

use crate::bytes::{le32, u16_at, u32_at, u64_at};
use crate::fprint::fp;
use crate::messages::{
    checksum_ok, header_at, header_size, law_message_round_trips, law_written_message_verifies,
    lemma_message_bytes_len, message_bytes, message_checksum, message_len, parsed_message,
    parsed_vote, requests_bytes, HeaderView, MsgView, VoteView, MSG_BOOTSTRAP, MSG_JOIN,
    MSG_PREPARE, MSG_PREPARE_ACCEPTED, MSG_STATUS_RESPONSE,
};
use crate::text::{decimal, law_decimal_is_read_back, lemma_decimal_u64_len};
use crate::types::{
    id_at, id_canon, id_size, id_writable, law_read_member_id_is_canonical, lemma_before_nul,
    MemberSetView, NodeView,
};
use crate::version::ProtocolVersion;

verus! {

broadcast use crate::bytes::group_le_len;

/// A member id that every reader gives back as it was: from version 4 on a text of
/// up to 63 bytes without a zero byte, before that nothing or a decimal number
/// without leading zeros.
pub open spec fn plain_id(id: Seq<u8>, v: ProtocolVersion) -> bool {
    if v is V4 || v is V5 || v is V6 {
        id.len() <= 63 && forall|i: int| 0 <= i < id.len() ==> id[i] != 0
    } else {
        id.len() == 0 || exists|n: u64| n > 0 && id == #[trigger] decimal(n as nat)
    }
}

pub(crate) proof fn lemma_plain_id(id: Seq<u8>, v: ProtocolVersion)
    requires
        plain_id(id, v),
    ensures
        id_writable(id, v),
        id_canon(id, v) == id,
{
    if v is V4 || v is V5 || v is V6 {
        lemma_before_nul(id, id.len() as int);
        assert(id.take(id.len() as int) =~= id);
    } else if id.len() > 0 {
        let n = choose|n: u64| n > 0 && id == #[trigger] decimal(n as nat);
        law_decimal_is_read_back(n);
        lemma_decimal_u64_len(n as nat);
    } else {
        assert(id =~= Seq::<u8>::empty());
    }
}

/// A header that can be sent and that every reader gives back as it was.
pub open spec fn plain_header(h: HeaderView) -> bool {
    &&& plain_id(h.member_id, h.version)
    &&& plain_id(h.ballot.member_id, h.version)
    &&& h.magic == 0xF00D_FACEu32
}

/// What a reader keeps of a header: everything, but for fields that the version
/// does not carry.
pub open spec fn header_kept(sent: HeaderView, read: HeaderView) -> bool {
    let v = sent.version;
    &&& read.version == v
    &&& read.magic == 0xF00D_FACEu32
    &&& read.msg_id == sent.msg_id
    &&& read.member_id == sent.member_id
    &&& read.decree == sent.decree
    &&& read.ballot == sent.ballot
    &&& read.configuration_number == (if v is V1 || v is V2 {
        1
    } else {
        sent.configuration_number
    })
    &&& read.payload == (if v is V6 {
        sent.payload
    } else {
        0
    })
}

/// A replica set that can be sent and that every reader gives back: at most 65535
/// members with host names of at most 65535 bytes, and a cookie of at most 8192.
pub open spec fn plain_set(set: MemberSetView, v: ProtocolVersion) -> bool {
    &&& set.members.len() <= 65535
    &&& forall|i: int|
        0 <= i < set.members.len() ==> plain_id((#[trigger] set.members[i]).member_id, v)
            && set.members[i].host_name.len() <= 65535
    &&& set.cookie.len() <= 8192
}

/// What a reader keeps of a member: everything, but for the one of two ports that
/// the version does not carry.
pub open spec fn node_kept(sent: NodeView, read: NodeView, v: ProtocolVersion) -> bool {
    let learns = v is V4 || v is V5 || v is V6;
    &&& read.member_id == sent.member_id
    &&& read.ip == sent.ip
    &&& read.rsl_port == sent.rsl_port
    &&& read.host_name == sent.host_name
    &&& read.rsl_learn_port == (if learns {
        sent.rsl_learn_port
    } else {
        0
    })
    &&& read.app_port == (if learns {
        0
    } else {
        sent.app_port
    })
}

/// What a reader keeps of a replica set: all members in order, and the cookie.
pub open spec fn set_kept(sent: MemberSetView, read: MemberSetView, v: ProtocolVersion) -> bool {
    &&& read.members.len() == sent.members.len()
    &&& forall|i: int|
        0 <= i < sent.members.len() ==> node_kept(sent.members[i], #[trigger] read.members[i], v)
    &&& read.cookie == sent.cookie
}

pub(crate) proof fn lemma_plain_set(set: MemberSetView, v: ProtocolVersion)
    requires
        plain_set(set, v),
    ensures
        set.writable(v),
        set.fits(),
        set_kept(set, set.canon(v), v),
{
    assert forall|i: int| 0 <= i < set.members.len() implies (#[trigger] set.members[i]).writable(
        v,
    ) && set.members[i].fits() && node_kept(set.members[i], set.canon(v).members[i], v) by {
        lemma_plain_id(set.members[i].member_id, v);
    }
}

/// The version carries the mark of a reconfiguration.
pub open spec fn carries_members(v: ProtocolVersion) -> bool {
    v is V3 || v is V4 || v is V5 || v is V6
}

/// A vote that can be sent and that every reader gives back: its requests are not
/// empty, and if it changes the configuration it has none and names the members.
pub open spec fn plain_vote(m: VoteView) -> bool {
    let v = m.header.version;
    let moves = carries_members(v) && m.is_reconfiguration;
    &&& plain_header(m.header)
    &&& m.header.msg_id == 1
    &&& m.len() <= 0xffff_ffff
    &&& forall|i: int| 0 <= i < m.requests.len() ==> (#[trigger] m.requests[i]).len() > 0
    &&& moves ==> m.requests.len() == 0 && m.members_in_new_configuration is Some && plain_set(
        m.members_in_new_configuration->Some_0,
        v,
    )
}

/// What a reader keeps of a vote: all requests in order, and every other field
/// that the version carries.
pub open spec fn vote_kept(sent: VoteView, read: VoteView) -> bool {
    let v = sent.header.version;
    let moves = carries_members(v) && sent.is_reconfiguration;
    &&& header_kept(sent.header, read.header)
    &&& read.header.un_marshal_len == sent.len()
    &&& read.requests == sent.requests
    &&& read.primary_cookie == (if v is V1 {
        Seq::empty()
    } else {
        sent.primary_cookie
    })
    &&& read.is_reconfiguration == moves
    &&& read.members_in_new_configuration is Some <==> moves
    &&& moves ==> set_kept(
        sent.members_in_new_configuration->Some_0,
        read.members_in_new_configuration->Some_0,
        v,
    )
    &&& read.relinquish_primary == (sent.relinquish_primary && (v is V5 || v is V6))
}

pub(crate) proof fn lemma_plain_vote(m: VoteView, checksum: u64)
    requires
        plain_vote(m),
    ensures
        m.sendable(),
        vote_kept(m, m.canon(checksum)),
{
    let v = m.header.version;
    lemma_plain_id(m.header.member_id, v);
    lemma_plain_id(m.header.ballot.member_id, v);
    if m.reconfigures() {
        lemma_plain_set(m.members_in_new_configuration->Some_0, v);
    }
}

/// A message that can be sent and that every reader gives back.
pub open spec fn plain_message(m: MsgView) -> bool {
    match m {
        MsgView::Base(h) => plain_header(h),
        MsgView::Vote(x) => plain_vote(x),
        MsgView::Join(x) => plain_header(x.header) && x.header.msg_id == MSG_JOIN,
        MsgView::Prepare(x) => plain_header(x.header) && x.header.msg_id == MSG_PREPARE
            && m.len() <= 0xffff_ffff,
        MsgView::PrepareAccepted(x) => plain_header(x.header) && x.header.msg_id
            == MSG_PREPARE_ACCEPTED && plain_vote(x.vote) && m.len() <= 0xffff_ffff,
        MsgView::StatusResponse(x) => plain_header(x.header) && x.header.msg_id
            == MSG_STATUS_RESPONSE && plain_id(x.query_ballot.member_id, x.header.version)
            && plain_id(x.max_ballot.member_id, x.header.version),
        MsgView::Bootstrap(x) => plain_header(x.header) && x.header.msg_id == MSG_BOOTSTRAP
            && plain_set(x.member_set, x.header.version) && m.len() <= 0xffff_ffff,
    }
}

/// What a reader keeps of a message.
pub open spec fn message_kept(sent: MsgView, read: MsgView) -> bool {
    &&& header_kept(sent.header(), read.header())
    &&& read.header().un_marshal_len == sent.bytes().len()
    &&& match (sent, read) {
        (MsgView::Base(_), MsgView::Base(_)) => true,
        (MsgView::Vote(a), MsgView::Vote(b)) => vote_kept(a, b),
        (MsgView::Join(a), MsgView::Join(b)) => {
            &&& b.learn_port == a.learn_port
            &&& b.min_decree_in_log == a.min_decree_in_log
            &&& b.checkpointed_decree == a.checkpointed_decree
            &&& b.checkpoint_size == a.checkpoint_size
        },
        (MsgView::Prepare(a), MsgView::Prepare(b)) => b.primary_cookie == (
        if a.header.version is V1 {
            Seq::empty()
        } else {
            a.primary_cookie
        }),
        (MsgView::PrepareAccepted(a), MsgView::PrepareAccepted(b)) => vote_kept(a.vote, b.vote),
        (MsgView::StatusResponse(a), MsgView::StatusResponse(b)) => {
            &&& b.query_decree == a.query_decree
            &&& b.query_ballot == a.query_ballot
            &&& b.last_received_ago == a.last_received_ago
            &&& b.min_decree_in_log == a.min_decree_in_log
            &&& b.checkpointed_decree == a.checkpointed_decree
            &&& b.checkpoint_size == a.checkpoint_size
            &&& b.max_ballot == a.max_ballot
            &&& b.state == a.state
        },
        (MsgView::Bootstrap(a), MsgView::Bootstrap(b)) => set_kept(
            a.member_set,
            b.member_set,
            a.header.version,
        ),
        _ => false,
    }
}

/// Every plain message can be sent, and what is read of its bytes is that message,
/// field by field.
#[verifier::spinoff_prover]
#[verifier::rlimit(60)]
pub proof fn law_plain_message_comes_back(m: MsgView)
    requires
        plain_message(m),
    ensures
        m.sendable(),
        parsed_message(m.kind(), m.bytes()) is Some,
        message_kept(m, parsed_message(m.kind(), m.bytes())->Some_0),
        checksum_ok(m.bytes()),
{
    let h = m.header();
    lemma_plain_id(h.member_id, h.version);
    lemma_plain_id(h.ballot.member_id, h.version);
    match m {
        MsgView::Vote(x) => {
            lemma_plain_vote(x, message_checksum(x.header, x.body()));
        },
        MsgView::PrepareAccepted(x) => {
            lemma_plain_vote(x.vote, x.vote.header.checksum);
        },
        MsgView::StatusResponse(x) => {
            lemma_plain_id(x.query_ballot.member_id, h.version);
            lemma_plain_id(x.max_ballot.member_id, h.version);
        },
        MsgView::Bootstrap(x) => {
            lemma_plain_set(x.member_set, h.version);
        },
        _ => {},
    }
    law_message_round_trips(m);
}

proof fn lemma_places(h: HeaderView, body: Seq<u8>)
    requires
        h.writable(),
        h.magic == 0xF00D_FACEu32,
        message_len(h, body) <= u32::MAX,
    ensures
        ({
            let s = message_bytes(h, body);
            let id = id_size(h.version);
            &&& s.len() >= 28 + id
            &&& u16_at(s, 0) == h.version.num()
            &&& u32_at(s, 2) == s.len()
            &&& u64_at(s, 6) == fp(s.skip(14))
            &&& u32_at(s, 14) == 0xF00D_FACE
            &&& u16_at(s, 18) == h.msg_id
            &&& id_at(s, 20, h.version) == Some((id_canon(h.member_id, h.version), 20 + id))
            &&& u64_at(s, 20 + id) == h.decree
            &&& s.skip(s.len() - body.len()) == body
        }),
{
    let s = message_bytes(h, body);
    law_written_message_verifies(h, body);
    reveal(header_at);
    law_read_member_id_is_canonical(s, 20, h.version);
}

/// Where the fields of a message stand on the wire: the version, the length of the
/// whole message, the fingerprint of all that follows it, the mark of a header, the
/// message id, the sender, the decree, and the body at the end.
pub proof fn law_message_fields_have_their_places(m: MsgView)
    requires
        plain_message(m),
    ensures
        ({
            let s = m.bytes();
            let h = m.header();
            let id = if carries_texts(h.version) {
                64int
            } else {
                8
            };
            &&& s.len() >= 28 + id
            &&& u16_at(s, 0) == h.version.num()
            &&& u32_at(s, 2) == s.len()
            &&& u64_at(s, 6) == fp(s.skip(14))
            &&& u32_at(s, 14) == 0xF00D_FACE
            &&& u16_at(s, 18) == h.msg_id
            &&& id_at(s, 20, h.version) == Some((h.member_id, 20 + id))
            &&& u64_at(s, 20 + id) == h.decree
            &&& s.skip(s.len() - m.body().len()) == m.body()
        }),
{
    let h = m.header();
    lemma_plain_id(h.member_id, h.version);
    lemma_plain_id(h.ballot.member_id, h.version);
    lemma_plain_lengths(m);
    lemma_places(h, m.body());
}

proof fn lemma_plain_lengths(m: MsgView)
    requires
        plain_message(m),
    ensures
        message_len(m.header(), m.body()) <= u32::MAX,
{
    law_plain_message_comes_back(m);
    law_message_round_trips(m);
    let h = m.header();
    lemma_plain_id(h.member_id, h.version);
    lemma_plain_id(h.ballot.member_id, h.version);
    lemma_message_bytes_len(h, m.body());
}

/// Member ids are texts in this version.
pub open spec fn carries_texts(v: ProtocolVersion) -> bool {
    v is V4 || v is V5 || v is V6
}

/// A buffer verifies if and only if it is as long as it says and holds the
/// fingerprint of all but its first fourteen bytes.
pub proof fn law_checksum_is_the_fingerprint(s: Seq<u8>)
    requires
        s.len() >= 14,
    ensures
        checksum_ok(s) <==> u32_at(s, 2) == s.len() && u64_at(s, 6) == fp(s.skip(14)),
{
}

/// Too few bytes verify in no case.
pub proof fn law_short_buffer_does_not_verify(s: Seq<u8>)
    requires
        s.len() < 14,
    ensures
        !checksum_ok(s),
{
}

proof fn lemma_requests_push(requests: Seq<Seq<u8>>, request: Seq<u8>)
    requires
        request.len() <= 0xffff_ffff,
    ensures
        requests_bytes(requests.push(request)) == requests_bytes(requests) + le32(
            request.len() as u32,
        ) + request,
    decreases requests.len(),
{
    let more = requests.push(request);
    if requests.len() == 0 {
        assert(more.skip(1) =~= Seq::empty());
        assert(requests_bytes(Seq::empty()) == Seq::<u8>::empty());
        assert(requests_bytes(more) =~= requests_bytes(requests) + le32(request.len() as u32)
            + request);
    } else {
        assert(more.skip(1) =~= requests.skip(1).push(request));
        lemma_requests_push(requests.skip(1), request);
        assert(requests_bytes(more) =~= requests_bytes(requests) + le32(request.len() as u32)
            + request);
    }
}

/// One more request puts its length and its bytes behind the others, and changes
/// nothing else of a vote's body.
pub proof fn law_request_is_put_behind_the_others(m: VoteView, request: Seq<u8>)
    requires
        request.len() <= 0xffff_ffff,
    ensures
        ({
            let more = VoteView { requests: m.requests.push(request), ..m };
            &&& more.body() == m.body() + le32(request.len() as u32) + request
            &&& more.len() == m.len() + 4 + request.len()
        }),
{
    let more = VoteView { requests: m.requests.push(request), ..m };
    lemma_requests_push(m.requests, request);
    assert(more.body() =~= m.body() + le32(request.len() as u32) + request);
    lemma_requests_len_push(m.requests, request);
}

proof fn lemma_requests_len_push(requests: Seq<Seq<u8>>, request: Seq<u8>)
    ensures
        crate::messages::requests_len(requests.push(request)) == crate::messages::requests_len(
            requests,
        ) + 4 + request.len(),
    decreases requests.len(),
{
    let more = requests.push(request);
    if requests.len() == 0 {
        assert(more.skip(1) =~= Seq::empty());
        assert(crate::messages::requests_len(Seq::empty()) == 0);
    } else {
        assert(more.skip(1) =~= requests.skip(1).push(request));
        lemma_requests_len_push(requests.skip(1), request);
    }
}

/// No message starts with an unknown version, without the mark of a header, or
/// with a length that is less than its header takes.
pub proof fn law_bad_header_is_refused(s: Seq<u8>, pos: int)
    requires
        0 <= pos,
        pos + 18 > s.len() || !(1 <= u16_at(s, pos) <= 6) || u32_at(s, pos + 14) != 0xF00D_FACE
            || u32_at(s, pos + 2) < 48,
    ensures
        header_at(s, pos) is None,
{
    reveal(header_at);
}

/// A vote that says it is longer than its buffer is refused, and so is any other
/// message that is read as a vote.
pub proof fn law_cut_vote_is_refused(s: Seq<u8>)
    requires
        s.len() >= 20,
        u32_at(s, 2) > s.len() || u16_at(s, 18) != 1,
    ensures
        parsed_vote(s) is None,
{
    reveal(header_at);
}

/// How long a header is: twenty bytes, the sender, the decree, the ballot and its
/// owner, and what later versions brought.
pub proof fn law_header_sizes(v: ProtocolVersion)
    ensures
        header_size(v) == (match v {
            ProtocolVersion::V1 => 48,
            ProtocolVersion::V2 => 48,
            ProtocolVersion::V3 => 52int,
            ProtocolVersion::V4 => 164,
            ProtocolVersion::V5 => 164,
            ProtocolVersion::V6 => 172,
        }),
{
}

} // verus!
