//! Where the parts of replica sets and messages stand, and what is refused.

use vstd::prelude::*;

use super::fields::law_flag_is_one_byte;
use super::messages::law_header_sizes;
use crate::bytes::{
    le16, le32, le64, lemma_u16_at, lemma_u32_at, lemma_u64_at, u16_at, u32_at, u64_at,
};
use crate::messages::{
    header_at, law_vote_len, parsed_bootstrap, parsed_join, parsed_prepare, parsed_prepare_accepted,
    parsed_status_response, reconfiguration_at, relinquish_at, requests_at, requests_bytes,
    BootstrapView, HeaderView, JoinView, MarshalError, PrepareAcceptedView, PrepareView,
    StatusResponseView, VoteView,
};
use crate::marshal::{bool_bytes, string_at};
use crate::types::{
    id_bytes, id_size, id_writable, member_set_at, nodes_bytes, ConfigurationView, MemberSetView,
    NodeView,
};
use crate::version::ProtocolVersion;

verus! {

broadcast use crate::bytes::group_le_len;

proof fn lemma_id_len(id: Seq<u8>, v: ProtocolVersion)
    requires
        id_writable(id, v),
    ensures
        id_bytes(id, v).len() == id_size(v),
{
}

/// A member on the wire: its id, its address, the port that it votes on, the port
/// for learners from version 4 on and that of the application before, the length
/// of its host name, and the name.
pub proof fn law_member_fields_have_their_places(n: NodeView, v: ProtocolVersion)
    requires
        id_writable(n.member_id, v),
        n.host_name.len() <= 65535,
    ensures
        ({
            let s = n.bytes(v);
            let id = if v is V4 || v is V5 || v is V6 {
                64int
            } else {
                8
            };
            &&& s.len() == id + 10 + n.host_name.len()
            &&& s.take(id) == id_bytes(n.member_id, v)
            &&& u32_at(s, id) == n.ip
            &&& u16_at(s, id + 4) == n.rsl_port
            &&& u16_at(s, id + 6) == (if v is V4 || v is V5 || v is V6 {
                n.rsl_learn_port
            } else {
                n.app_port
            })
            &&& u16_at(s, id + 8) == n.host_name.len()
            &&& s.skip(id + 10) == n.host_name
        }),
{
    let s = n.bytes(v);
    let id = id_size(v);
    lemma_id_len(n.member_id, v);
    assert(s.take(id) =~= id_bytes(n.member_id, v));
    assert(s.subrange(id, id + 4) =~= le32(n.ip));
    lemma_u32_at(s, id, n.ip);
    assert(s.subrange(id + 4, id + 6) =~= le16(n.rsl_port));
    lemma_u16_at(s, id + 4, n.rsl_port);
    assert(s.subrange(id + 6, id + 8) =~= le16(n.second_port(v)));
    lemma_u16_at(s, id + 6, n.second_port(v));
    assert(s.subrange(id + 8, id + 10) =~= le16((n.host_name.len() % 0x1_0000) as u16));
    lemma_u16_at(s, id + 8, (n.host_name.len() % 0x1_0000) as u16);
    assert(s.skip(id + 10) =~= n.host_name);
}

/// Members stand one after the other, in their order.
pub proof fn law_member_is_put_behind_the_others(
    nodes: Seq<NodeView>,
    n: NodeView,
    v: ProtocolVersion,
)
    ensures
        nodes_bytes(Seq::empty(), v) == Seq::<u8>::empty(),
        nodes_bytes(nodes.push(n), v) == nodes_bytes(nodes, v) + n.bytes(v),
{
    assert(nodes.push(n).drop_last() =~= nodes);
}

/// A replica set on the wire: the number of its members, the members, the length
/// of the cookie, and the cookie.
pub proof fn law_set_is_count_members_and_cookie(m: MemberSetView, v: ProtocolVersion)
    requires
        m.members.len() <= 65535,
        m.cookie.len() <= 0xffff_ffff,
    ensures
        m.bytes(v) == le16(m.members.len() as u16) + nodes_bytes(m.members, v) + le32(
            m.cookie.len() as u32,
        ) + m.cookie,
{
    assert(m.bytes(v) =~= le16(m.members.len() as u16) + nodes_bytes(m.members, v) + le32(
        m.cookie.len() as u32,
    ) + m.cookie);
}

/// A configuration on the wire: its number, the decree from which it holds, and
/// its replica set.
pub proof fn law_configuration_is_number_decree_and_set(c: ConfigurationView, v: ProtocolVersion)
    ensures
        ({
            let s = c.bytes(v);
            &&& s.len() == 12 + c.member_set.bytes(v).len()
            &&& u32_at(s, 0) == c.configuration_number
            &&& u64_at(s, 4) == c.initial_decree
            &&& s.skip(12) == c.member_set.bytes(v)
        }),
{
    let s = c.bytes(v);
    assert(s.subrange(0, 4) =~= le32(c.configuration_number));
    lemma_u32_at(s, 0, c.configuration_number);
    assert(s.subrange(4, 12) =~= le64(c.initial_decree));
    lemma_u64_at(s, 4, c.initial_decree);
    assert(s.skip(12) =~= c.member_set.bytes(v));
}

/// The body of a join message: the port for learners, the first decree in the log,
/// the decree of the checkpoint, and its size.
pub proof fn law_join_fields_have_their_places(m: JoinView)
    ensures
        ({
            let s = m.body();
            &&& s.len() == 26
            &&& u16_at(s, 0) == m.learn_port
            &&& u64_at(s, 2) == m.min_decree_in_log
            &&& u64_at(s, 10) == m.checkpointed_decree
            &&& u64_at(s, 18) == m.checkpoint_size
        }),
{
    let s = m.body();
    assert(s.subrange(0, 2) =~= le16(m.learn_port));
    lemma_u16_at(s, 0, m.learn_port);
    assert(s.subrange(2, 10) =~= le64(m.min_decree_in_log));
    lemma_u64_at(s, 2, m.min_decree_in_log);
    assert(s.subrange(10, 18) =~= le64(m.checkpointed_decree));
    lemma_u64_at(s, 10, m.checkpointed_decree);
    assert(s.subrange(18, 26) =~= le64(m.checkpoint_size));
    lemma_u64_at(s, 18, m.checkpoint_size);
}

/// The body of a status response: the decree and the ballot of the last query, how
/// long ago the last message came in, the first decree in the log, the decree of
/// the checkpoint and its size, the highest ballot, and the state.
#[verifier::rlimit(40)]
pub proof fn law_status_fields_have_their_places(m: StatusResponseView)
    requires
        id_writable(m.query_ballot.member_id, m.header.version),
        id_writable(m.max_ballot.member_id, m.header.version),
    ensures
        ({
            let s = m.body();
            let v = m.header.version;
            let id = if v is V4 || v is V5 || v is V6 {
                64int
            } else {
                8
            };
            let b = 12 + id;
            &&& s.len() == 52 + 2 * id
            &&& u64_at(s, 0) == m.query_decree
            &&& u32_at(s, 8) == m.query_ballot.ballot_id
            &&& s.subrange(12, b) == id_bytes(m.query_ballot.member_id, v)
            &&& u64_at(s, b) == m.last_received_ago as u64
            &&& u64_at(s, b + 8) == m.min_decree_in_log
            &&& u64_at(s, b + 16) == m.checkpointed_decree
            &&& u64_at(s, b + 24) == m.checkpoint_size
            &&& u32_at(s, b + 32) == m.max_ballot.ballot_id
            &&& s.subrange(b + 36, b + 36 + id) == id_bytes(m.max_ballot.member_id, v)
            &&& u32_at(s, b + 36 + id) == m.state
        }),
{
    let s = m.body();
    let v = m.header.version;
    let id = id_size(v);
    let b = 12 + id;
    lemma_id_len(m.query_ballot.member_id, v);
    lemma_id_len(m.max_ballot.member_id, v);
    assert(s.subrange(0, 8) =~= le64(m.query_decree));
    lemma_u64_at(s, 0, m.query_decree);
    assert(s.subrange(8, 12) =~= le32(m.query_ballot.ballot_id));
    lemma_u32_at(s, 8, m.query_ballot.ballot_id);
    assert(s.subrange(12, b) =~= id_bytes(m.query_ballot.member_id, v));
    assert(s.subrange(b, b + 8) =~= le64(m.last_received_ago as u64));
    lemma_u64_at(s, b, m.last_received_ago as u64);
    assert(s.subrange(b + 8, b + 16) =~= le64(m.min_decree_in_log));
    lemma_u64_at(s, b + 8, m.min_decree_in_log);
    assert(s.subrange(b + 16, b + 24) =~= le64(m.checkpointed_decree));
    lemma_u64_at(s, b + 16, m.checkpointed_decree);
    assert(s.subrange(b + 24, b + 32) =~= le64(m.checkpoint_size));
    lemma_u64_at(s, b + 24, m.checkpoint_size);
    assert(s.subrange(b + 32, b + 36) =~= le32(m.max_ballot.ballot_id));
    lemma_u32_at(s, b + 32, m.max_ballot.ballot_id);
    assert(s.subrange(b + 36, b + 36 + id) =~= id_bytes(m.max_ballot.member_id, v));
    assert(s.subrange(b + 36 + id, b + 40 + id) =~= le32(m.state));
    lemma_u32_at(s, b + 36 + id, m.state);
}

/// A vote is refused if its version carries the mark of a reconfiguration, the
/// mark is set, and it has requests or names no members. No other vote is.
pub proof fn law_votes_are_refused_for_a_reason(m: VoteView)
    ensures
        ({
            let v = m.header.version;
            let moves = (v is V3 || v is V4 || v is V5 || v is V6) && m.is_reconfiguration;
            &&& moves && m.requests.len() > 0 ==> m.refusal() == Some(
                MarshalError::ReconfigurationVoteWithRequests,
            )
            &&& moves && m.requests.len() == 0 && m.members_in_new_configuration is None
                ==> m.refusal() == Some(MarshalError::ReconfigurationVoteWithoutMembers)
            &&& !moves ==> m.refusal() is None
            &&& moves && m.requests.len() == 0 && m.members_in_new_configuration is Some
                ==> m.refusal() is None
        }),
{
}

/// A message with another id is not read as one of these.
pub proof fn law_other_messages_are_refused(s: Seq<u8>)
    requires
        s.len() >= 20,
    ensures
        u16_at(s, 18) != 3 ==> parsed_prepare(s) is None,
        u16_at(s, 18) != 4 ==> parsed_prepare_accepted(s) is None,
        u16_at(s, 18) != 7 ==> parsed_status_response(s) is None,
        u16_at(s, 18) != 12 ==> parsed_join(s) is None,
        u16_at(s, 18) != 14 ==> parsed_bootstrap(s) is None,
{
    reveal(header_at);
}

/// Requests go to the end of a vote. One that is empty is refused, and so is one
/// that does not end in the vote.
pub proof fn law_requests_are_read_to_the_end(s: Seq<u8>, pos: int)
    requires
        0 <= pos,
    ensures
        pos >= s.len() ==> requests_at(s, pos) == Some(Seq::<Seq<u8>>::empty()),
        pos < s.len() < pos + 4 ==> requests_at(s, pos) is None,
        pos + 4 <= s.len() && u32_at(s, pos) == 0 ==> requests_at(s, pos) is None,
        pos + 4 <= s.len() && pos + 4 + u32_at(s, pos) > s.len() ==> requests_at(s, pos) is None,
        pos + 4 < pos + 4 + u32_at(s, pos) <= s.len() ==> ({
            let end = pos + 4 + u32_at(s, pos);
            let rest = requests_at(s, end);
            &&& requests_at(s, pos) is Some <==> rest is Some
            &&& rest is Some ==> requests_at(s, pos)->Some_0 == seq![s.subrange(pos + 4, end)]
                + rest->Some_0
        }),
{
    if pos + 4 <= s.len() && u32_at(s, pos) == 0 {
        assert(string_at(s, pos)->Some_0.0.len() == 0);
    }
}

/// A header behind its checksum: the mark, the message id, the sender and the
/// decree, the configuration number from version 3 on, the ballot and its owner,
/// and the payload in version 6.
#[verifier::rlimit(40)]
pub proof fn law_header_fields_have_their_places(h: HeaderView)
    requires
        id_writable(h.member_id, h.version),
        id_writable(h.ballot.member_id, h.version),
    ensures
        ({
            let s = h.rest_bytes();
            let v = h.version;
            let id = if v is V4 || v is V5 || v is V6 {
                64int
            } else {
                8
            };
            let numbered = !(v is V1 || v is V2);
            let b = 14 + id + (if numbered {
                4int
            } else {
                0
            });
            &&& s.len() == b + 4 + id + (if v is V6 {
                8int
            } else {
                0
            })
            &&& u32_at(s, 0) == h.magic
            &&& u16_at(s, 4) == h.msg_id
            &&& s.subrange(6, 6 + id) == id_bytes(h.member_id, v)
            &&& u64_at(s, 6 + id) == h.decree
            &&& numbered ==> u32_at(s, 14 + id) == h.configuration_number
            &&& u32_at(s, b) == h.ballot.ballot_id
            &&& s.subrange(b + 4, b + 4 + id) == id_bytes(h.ballot.member_id, v)
            &&& v is V6 ==> u64_at(s, b + 4 + id) == h.payload
        }),
{
    let s = h.rest_bytes();
    let v = h.version;
    let id = id_size(v);
    lemma_id_len(h.member_id, v);
    lemma_id_len(h.ballot.member_id, v);
    assert(s.subrange(0, 4) =~= le32(h.magic));
    lemma_u32_at(s, 0, h.magic);
    assert(s.subrange(4, 6) =~= le16(h.msg_id));
    lemma_u16_at(s, 4, h.msg_id);
    assert(s.subrange(6, 6 + id) =~= id_bytes(h.member_id, v));
    assert(s.subrange(6 + id, 14 + id) =~= le64(h.decree));
    lemma_u64_at(s, 6 + id, h.decree);
    let c = h.configuration_bytes().len() as int;
    let b = 14 + id + c;
    if c > 0 {
        assert(s.subrange(14 + id, b) =~= le32(h.configuration_number));
        lemma_u32_at(s, 14 + id, h.configuration_number);
    }
    assert(s.subrange(b, b + 4) =~= le32(h.ballot.ballot_id));
    lemma_u32_at(s, b, h.ballot.ballot_id);
    assert(s.subrange(b + 4, b + 4 + id) =~= id_bytes(h.ballot.member_id, v));
    if v is V6 {
        assert(s.subrange(b + 4 + id, b + 12 + id) =~= le64(h.payload));
        lemma_u64_at(s, b + 4 + id, h.payload);
    }
}

/// The body of a vote: the cookie with its length from version 2 on, the mark of a
/// reconfiguration and if it is set the members from version 3 on, the mark of
/// stepping down from version 5 on, and the requests.
pub proof fn law_vote_body_is_in_order(m: VoteView)
    requires
        m.refusal() is None,
        m.primary_cookie.len() <= u32::MAX,
    ensures
        ({
            let v = m.header.version;
            let cookie = if v is V1 {
                Seq::empty()
            } else {
                le32(m.primary_cookie.len() as u32) + m.primary_cookie
            };
            let change = if v is V1 || v is V2 {
                Seq::empty()
            } else if m.is_reconfiguration {
                seq![1u8] + m.members_in_new_configuration->Some_0.bytes(v)
            } else {
                seq![0u8]
            };
            let leave = if v is V5 || v is V6 {
                seq![if m.relinquish_primary { 1u8 } else { 0u8 }]
            } else {
                Seq::empty()
            };
            &&& m.body() == cookie + change + leave + requests_bytes(m.requests)
        }),
{
    law_flag_is_one_byte(m.relinquish_primary);
    law_flag_is_one_byte(true);
    law_flag_is_one_byte(false);
    assert(bool_bytes(true) =~= seq![1u8]);
    assert(bool_bytes(false) =~= seq![0u8]);
}

/// A mark in a vote is set if its byte is anything but zero.
pub proof fn law_any_nonzero_mark_is_set(s: Seq<u8>, pos: int, v: ProtocolVersion)
    requires
        0 <= pos < s.len(),
    ensures
        v is V5 || v is V6 ==> relinquish_at(s, pos, v) == Some((s[pos] != 0, pos + 1)),
        !(v is V5 || v is V6) ==> relinquish_at(s, pos, v) == Some((false, pos)),
        v is V1 || v is V2 ==> reconfiguration_at(s, pos, v) == Some(
            (None::<MemberSetView>, pos),
        ),
        !(v is V1 || v is V2) && s[pos] == 0 ==> reconfiguration_at(s, pos, v) == Some(
            (None::<MemberSetView>, pos + 1),
        ),
        !(v is V1 || v is V2) && s[pos] != 0 ==> {
            let found = member_set_at(s, pos + 1, v);
            let read = reconfiguration_at(s, pos, v);
            &&& found is Some <==> read is Some
            &&& found is Some ==> read == Some((Some(found->Some_0.0), found->Some_0.1))
        },
{
}

/// The body of a prepare message is the cookie with its length, from version 2 on.
pub proof fn law_prepare_carries_the_cookie(m: PrepareView)
    requires
        m.primary_cookie.len() <= u32::MAX,
    ensures
        m.header.version is V1 ==> m.body().len() == 0,
        !(m.header.version is V1) ==> m.body() == le32(m.primary_cookie.len() as u32)
            + m.primary_cookie,
{
}

/// The body of an accepted prepare is the vote: its version, its length, its own
/// checksum as it is, the rest of its header, and its body.
pub proof fn law_accepted_prepare_carries_the_vote(m: PrepareAcceptedView)
    requires
        id_writable(m.vote.header.member_id, m.vote.header.version),
        id_writable(m.vote.header.ballot.member_id, m.vote.header.version),
        m.vote.reconfigures() ==> m.vote.members_in_new_configuration->Some_0.writable(
            m.vote.header.version,
        ),
        m.vote.refusal() is None,
        m.body().len() <= u32::MAX,
    ensures
        ({
            let s = m.body();
            &&& s.len() >= 14
            &&& u16_at(s, 0) == m.vote.header.version.num()
            &&& u32_at(s, 2) == s.len()
            &&& u64_at(s, 6) == m.vote.header.checksum
            &&& s.skip(14) == m.vote.header.rest_bytes() + m.vote.body()
        }),
{
    let s = m.body();
    let h = m.vote.header;
    law_header_fields_have_their_places(h);
    law_header_sizes(h.version);
    law_vote_len(m.vote);
    let len = m.vote.len() as u32;
    assert(s.subrange(0, 2) =~= le16(h.version.num()));
    lemma_u16_at(s, 0, h.version.num());
    assert(s.subrange(2, 6) =~= le32(len));
    lemma_u32_at(s, 2, len);
    assert(s.subrange(6, 14) =~= le64(h.checksum));
    lemma_u64_at(s, 6, h.checksum);
    assert(s.skip(14) =~= h.rest_bytes() + m.vote.body());
}

/// The body of a bootstrap message is the replica set.
pub proof fn law_bootstrap_carries_the_set(m: BootstrapView)
    ensures
        m.body() == m.member_set.bytes(m.header.version),
{
}

} // verus!
