//! From which bytes the parts of messages are read, whoever wrote them.

use vstd::prelude::*;

use crate::bytes::{u16_at, u32_at, u64_at};
use crate::marshal::{string_halt, Halt};
use crate::messages::{
    cookie_at, header_at, header_halt, parsed_bootstrap, parsed_join, parsed_prepare,
    parsed_prepare_accepted, parsed_status_response, parsed_vote, reconfiguration_at, relinquish_at,
    requests_at,
};
use crate::types::{
    ballot_at, ballot_halt, configuration_at, configuration_halt, id_at, id_halt, member_set_at,
    member_set_halt, node_at, nodes_at, BallotView, NodeView,
};
use crate::version::{law_version_round_trips, ProtocolVersion};

verus! {

/// A ballot is read if its round and its owner can be, and they stand one behind
/// the other.
pub proof fn law_ballot_is_read_from_its_places(s: Seq<u8>, pos: int, v: ProtocolVersion)
    ensures
        ({
            let owner = id_at(s, pos + 4, v);
            let b = ballot_at(s, pos, v);
            &&& b is Some <==> pos + 4 <= s.len() && owner is Some
            &&& b is Some ==> b->Some_0.0 == (BallotView {
                ballot_id: u32_at(s, pos),
                member_id: owner->Some_0.0,
            }) && b->Some_0.1 == owner->Some_0.1
        }),
{
}

/// A header is read if it is of a known version, fits the bytes, has the mark and
/// ids that can be read, and says that it is at least as long as it is. Its
/// fields stand behind one another. What the version does not carry is read as
/// configuration 1 and as payload 0.
pub proof fn law_header_is_read_from_its_places(s: Seq<u8>, pos: int, v: ProtocolVersion)
    requires
        0 <= pos,
        pos + 2 <= s.len(),
        ProtocolVersion::of_wire(u16_at(s, pos)) == Some(v),
    ensures
        ({
            let id = if v is V4 || v is V5 || v is V6 {
                64int
            } else {
                8
            };
            let numbered = !(v is V1 || v is V2);
            let b = pos + 28 + id + (if numbered {
                4int
            } else {
                0
            });
            let end = b + 4 + id + (if v is V6 {
                8int
            } else {
                0
            });
            let sender = id_at(s, pos + 20, v);
            let ballot = ballot_at(s, b, v);
            let read = header_at(s, pos);
            let h = read->Some_0.0;
            &&& read is Some <==> end <= s.len() && sender is Some && ballot is Some && u32_at(
                s,
                pos + 2,
            ) >= end - pos && u32_at(s, pos + 14) == 0xF00D_FACE
            &&& read is Some ==> {
                &&& read->Some_0.1 == end
                &&& h.version == v
                &&& h.un_marshal_len == u32_at(s, pos + 2)
                &&& h.checksum == u64_at(s, pos + 6)
                &&& h.magic == 0xF00D_FACE
                &&& h.msg_id == u16_at(s, pos + 18)
                &&& h.member_id == sender->Some_0.0
                &&& h.decree == u64_at(s, pos + 20 + id)
                &&& numbered ==> h.configuration_number == u32_at(s, pos + 28 + id)
                &&& !numbered ==> h.configuration_number == 1
                &&& h.ballot == ballot->Some_0.0
                &&& v is V6 ==> h.payload == u64_at(s, b + 4 + id)
                &&& !(v is V6) ==> h.payload == 0
            }
        }),
{
    reveal(header_at);
}

/// A member is read if its id can be and its fields and its whole host name are
/// there. The second port is for learners from version 4 on, and that of the
/// application before.
pub proof fn law_member_is_read_from_its_places(s: Seq<u8>, pos: int, v: ProtocolVersion)
    ensures
        ({
            let learns = v is V4 || v is V5 || v is V6;
            let p = pos + (if learns {
                64int
            } else {
                8
            });
            let id = id_at(s, pos, v);
            let end = p + 10 + u16_at(s, p + 8);
            let read = node_at(s, pos, v);
            let n = read->Some_0.0;
            &&& read is Some <==> p + 10 <= s.len() && id is Some && end <= s.len()
            &&& read is Some ==> {
                &&& read->Some_0.1 == end
                &&& n.member_id == id->Some_0.0
                &&& n.ip == u32_at(s, p)
                &&& n.rsl_port == u16_at(s, p + 4)
                &&& learns ==> n.rsl_learn_port == u16_at(s, p + 6) && n.app_port == 0
                &&& !learns ==> n.app_port == u16_at(s, p + 6) && n.rsl_learn_port == 0
                &&& n.host_name == s.subrange(p + 10, end)
            }
        }),
{
}

/// Members are read one behind the other, and all of them or none.
pub proof fn law_members_are_read_in_a_row(s: Seq<u8>, pos: int, n: nat, v: ProtocolVersion)
    ensures
        nodes_at(s, pos, 0, v) == Some((Seq::<NodeView>::empty(), pos)),
        ({
            let front = nodes_at(s, pos, n, v);
            let next = node_at(s, front->Some_0.1, v);
            let all = nodes_at(s, pos, n + 1, v);
            &&& all is Some <==> front is Some && next is Some
            &&& all is Some ==> all->Some_0.0 == front->Some_0.0.push(next->Some_0.0)
                && all->Some_0.1 == next->Some_0.1
        }),
{
}

/// A replica set is read if its members can be, as many as it says, and its whole
/// cookie is there and takes no more than 8192 bytes.
pub proof fn law_set_is_read_from_its_places(s: Seq<u8>, pos: int, v: ProtocolVersion)
    requires
        0 <= pos,
    ensures
        ({
            let members = nodes_at(s, pos + 2, u16_at(s, pos) as nat, v);
            let mid = members->Some_0.1;
            let end = mid + 4 + u32_at(s, mid);
            let read = member_set_at(s, pos, v);
            &&& read is Some <==> pos + 2 <= s.len() && members is Some && mid + 4 <= s.len()
                && u32_at(s, mid) <= 8192 && end <= s.len()
            &&& read is Some ==> {
                &&& read->Some_0.1 == end
                &&& read->Some_0.0.members == members->Some_0.0
                &&& read->Some_0.0.cookie == s.subrange(mid + 4, end)
            }
        }),
{
}

/// A configuration is read from its number, its first decree and its replica set.
pub proof fn law_configuration_is_read_from_its_places(s: Seq<u8>, pos: int, v: ProtocolVersion)
    ensures
        ({
            let set = member_set_at(s, pos + 12, v);
            let read = configuration_at(s, pos, v);
            &&& read is Some <==> pos + 12 <= s.len() && set is Some
            &&& read is Some ==> {
                &&& read->Some_0.1 == set->Some_0.1
                &&& read->Some_0.0.configuration_number == u32_at(s, pos)
                &&& read->Some_0.0.initial_decree == u64_at(s, pos + 4)
                &&& read->Some_0.0.member_set == set->Some_0.0
            }
        }),
{
}

/// A vote is read if it is one, its bytes are all there, and its parts can be read
/// one behind the other up to its end. What stands behind it makes no difference.
pub proof fn law_vote_is_read_part_by_part(s: Seq<u8>)
    requires
        header_at(s, 0) is Some,
    ensures
        ({
            let (h, start) = header_at(s, 0)->Some_0;
            let v = h.version;
            let t = s.take(h.un_marshal_len as int);
            let cookie = cookie_at(t, start, v);
            let change = reconfiguration_at(t, cookie->Some_0.1, v);
            let leave = relinquish_at(t, change->Some_0.1, v);
            let requests = requests_at(t, leave->Some_0.1);
            let read = parsed_vote(s);
            let m = read->Some_0;
            &&& read is Some <==> h.msg_id == 1 && h.un_marshal_len <= s.len() && cookie is Some
                && change is Some && leave is Some && requests is Some
            &&& read is Some ==> {
                &&& m.header == h
                &&& m.primary_cookie == cookie->Some_0.0
                &&& m.is_reconfiguration == (change->Some_0.0 is Some)
                &&& m.members_in_new_configuration == change->Some_0.0
                &&& m.relinquish_primary == leave->Some_0.0
                &&& m.requests == requests->Some_0
            }
        }),
{
}

/// A join message is read if it is one and its 26 bytes are there.
pub proof fn law_join_is_read_from_its_places(s: Seq<u8>)
    requires
        header_at(s, 0) is Some,
    ensures
        ({
            let (h, p) = header_at(s, 0)->Some_0;
            let read = parsed_join(s);
            let m = read->Some_0;
            &&& read is Some <==> h.msg_id == 12 && p + 26 <= s.len()
            &&& read is Some ==> {
                &&& m.header == h
                &&& m.learn_port == u16_at(s, p)
                &&& m.min_decree_in_log == u64_at(s, p + 2)
                &&& m.checkpointed_decree == u64_at(s, p + 10)
                &&& m.checkpoint_size == u64_at(s, p + 18)
            }
        }),
{
}

/// A status response is read if it is one, all its bytes are there, and both
/// ballots can be read.
pub proof fn law_status_is_read_from_its_places(s: Seq<u8>)
    requires
        header_at(s, 0) is Some,
    ensures
        ({
            let (h, p) = header_at(s, 0)->Some_0;
            let v = h.version;
            let id = if v is V4 || v is V5 || v is V6 {
                64int
            } else {
                8
            };
            let b = p + 12 + id;
            let asked = ballot_at(s, p + 8, v);
            let highest = ballot_at(s, b + 32, v);
            let read = parsed_status_response(s);
            let m = read->Some_0;
            &&& read is Some <==> h.msg_id == 7 && b + 40 + id <= s.len() && asked is Some
                && highest is Some
            &&& read is Some ==> {
                &&& m.header == h
                &&& m.query_decree == u64_at(s, p)
                &&& m.query_ballot == asked->Some_0.0
                &&& m.last_received_ago == u64_at(s, b) as i64
                &&& m.min_decree_in_log == u64_at(s, b + 8)
                &&& m.checkpointed_decree == u64_at(s, b + 16)
                &&& m.checkpoint_size == u64_at(s, b + 24)
                &&& m.max_ballot == highest->Some_0.0
                &&& m.state == u32_at(s, b + 36 + id)
            }
        }),
{
}

/// A prepare message, an accepted prepare and a bootstrap message are read if they
/// are what they are read as and the cookie, the vote or the replica set behind
/// the header can be read.
pub proof fn law_other_bodies_are_read_behind_the_header(s: Seq<u8>)
    requires
        header_at(s, 0) is Some,
    ensures
        ({
            let (h, p) = header_at(s, 0)->Some_0;
            let v = h.version;
            let cookie = cookie_at(s, p, v);
            let prepare = parsed_prepare(s);
            &&& prepare is Some <==> h.msg_id == 3 && cookie is Some
            &&& prepare is Some ==> prepare->Some_0.header == h && prepare->Some_0.primary_cookie
                == cookie->Some_0.0
            &&& v is V1 ==> cookie == Some((Seq::<u8>::empty(), p))
            &&& !(v is V1) ==> (cookie is Some <==> p + 4 <= s.len() && p + 4 + u32_at(s, p)
                <= s.len())
            &&& !(v is V1) && cookie is Some ==> cookie->Some_0.0 == s.subrange(
                p + 4,
                p + 4 + u32_at(s, p),
            )
        }),
        ({
            let (h, p) = header_at(s, 0)->Some_0;
            let vote = parsed_vote(s.skip(p));
            let accepted = parsed_prepare_accepted(s);
            &&& accepted is Some <==> h.msg_id == 4 && vote is Some
            &&& accepted is Some ==> accepted->Some_0.header == h && accepted->Some_0.vote
                == vote->Some_0
        }),
        ({
            let (h, p) = header_at(s, 0)->Some_0;
            let set = member_set_at(s, p, h.version);
            let bootstrap = parsed_bootstrap(s);
            &&& bootstrap is Some <==> h.msg_id == 14 && set is Some
            &&& bootstrap is Some ==> bootstrap->Some_0.header == h
                && bootstrap->Some_0.member_set == set->Some_0.0
        }),
{
}

/// A decoder that runs out of bytes stops in front of the field that does not fit,
/// and one that refuses what it read stops behind it: an id, a ballot, a string, a
/// configuration or a replica set.
pub proof fn law_reading_stops_at_the_field(s: Seq<u8>, pos: int, v: ProtocolVersion)
    requires
        0 <= pos <= s.len(),
    ensures
        ({
            let left = s.len() - pos;
            let id = if v is V4 || v is V5 || v is V6 {
                64int
            } else {
                8
            };
            &&& left < id ==> id_halt(s, pos, v) == (Halt { pos, overshoot: true })
            &&& left >= id ==> id_halt(s, pos, v) == (Halt { pos: pos + id, overshoot: false })
            &&& left < 4 ==> ballot_halt(s, pos, v) == (Halt { pos, overshoot: true })
            &&& 4 <= left < 4 + id ==> ballot_halt(s, pos, v) == (Halt {
                pos: pos + 4,
                overshoot: true,
            })
            &&& left >= 4 + id ==> ballot_halt(s, pos, v) == (Halt {
                pos: pos + 4 + id,
                overshoot: false,
            })
            &&& left < 4 ==> string_halt(s, pos) == (Halt { pos, overshoot: true })
            &&& left >= 4 ==> string_halt(s, pos) == (Halt { pos: pos + 4, overshoot: true })
            &&& left < 4 ==> configuration_halt(s, pos, v) == (Halt { pos, overshoot: true })
            &&& 4 <= left < 12 ==> configuration_halt(s, pos, v) == (Halt {
                pos: pos + 4,
                overshoot: true,
            })
            &&& left >= 12 ==> configuration_halt(s, pos, v) == member_set_halt(s, pos + 12, v)
            &&& left < 2 ==> member_set_halt(s, pos, v) == (Halt { pos, overshoot: true })
        }),
        ({
            let members = nodes_at(s, pos + 2, u16_at(s, pos) as nat, v);
            let mid = members->Some_0.1;
            let halt = member_set_halt(s, pos, v);
            pos + 2 <= s.len() && members is Some ==> {
                &&& mid + 4 > s.len() ==> halt == (Halt { pos: mid, overshoot: true })
                &&& mid + 4 <= s.len() && u32_at(s, mid) > 8192 ==> halt == (Halt {
                    pos: mid + 4,
                    overshoot: false,
                })
                &&& mid + 4 <= s.len() && u32_at(s, mid) <= 8192 ==> halt == (Halt {
                    pos: mid + 4,
                    overshoot: true,
                })
            }
        }),
{
}

/// The same of a header: of an unknown version it is given up behind the version,
/// and of a known one in front of the field that does not fit. A whole header that
/// is refused for its mark or its length is given up behind its end.
pub proof fn law_header_stops_at_the_field(s: Seq<u8>, pos: int)
    requires
        0 <= pos <= s.len(),
    ensures
        ({
            let left = s.len() - pos;
            let known = 1 <= u16_at(s, pos) <= 6;
            let id = if u16_at(s, pos) >= 4 {
                64int
            } else {
                8
            };
            let halt = header_halt(s, pos);
            let short_at = |at: int| Halt { pos: pos + at, overshoot: true };
            &&& left < 2 ==> halt == short_at(0)
            &&& left >= 2 && !known ==> halt == (Halt { pos: pos + 2, overshoot: false })
            &&& left >= 2 && known ==> {
                &&& left < 6 ==> halt == short_at(2)
                &&& 6 <= left < 14 ==> halt == short_at(6)
                &&& 14 <= left < 18 ==> halt == short_at(14)
                &&& 18 <= left < 20 ==> halt == short_at(18)
                &&& 20 <= left < 20 + id ==> halt == short_at(20)
                &&& 20 + id <= left < 28 + id && id_at(
                    s,
                    pos + 20,
                    ProtocolVersion::of_wire(u16_at(s, pos))->Some_0,
                ) is Some ==> halt == short_at(20 + id)
            }
        }),
{
    law_version_round_trips(ProtocolVersion::V1, u16_at(s, pos));
}

} // verus!
