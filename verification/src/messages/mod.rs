//! Messages: the header that all of them share, and the six kinds that carry a
//! body of their own.
//!
//! A message starts with a fixed header: version, length, checksum, magic,
//! message id, member id, decree, configuration number, ballot and payload.
//! Most message ids carry nothing more. Which parser applies to a buffer is the
//! caller's choice, for the receiver knows what it asked for: one message id
//! can stand for a bare [`Header`] or for a message with a body.

mod bootstrap;
mod join;
mod prepare;
mod prepare_accepted;
mod status_response;
mod vote;

pub use bootstrap::{
    law_bootstrap_round_trips, law_read_bootstrap_is_canonical, parsed_bootstrap, BootstrapMsg,
    BootstrapView,
};
pub use join::{
    law_join_round_trips, law_read_join_is_canonical, parsed_join, JoinMessage, JoinView,
};
pub use prepare::{
    law_prepare_round_trips, law_read_prepare_is_canonical, parsed_prepare, PrepareMsg, PrepareView,
};
pub use prepare_accepted::{
    law_prepare_accepted_round_trips, law_read_prepare_accepted_is_canonical,
    parsed_prepare_accepted, PrepareAccepted, PrepareAcceptedView,
};
pub use status_response::{
    law_read_status_response_is_canonical, law_status_response_round_trips, parsed_status_response,
    StatusResponse, StatusResponseView,
};
pub use vote::{
    cookie_at, cookie_bytes, cookie_canon, cookie_len, law_accepted_vote_is_sendable,
    law_nested_vote_round_trips, law_read_vote_is_canonical, law_vote_is_found_before_anything,
    law_vote_len, law_vote_round_trips, parsed_vote, reconfiguration_at, relinquish_at, requests_at,
    requests_bytes, requests_len, vote_body_at, MarshalError, Vote, VoteView,
};

pub(crate) use vote::{lemma_accepted_header, lemma_vote_is_local};

use vstd::prelude::*;

use crate::bytes::{
    le16, le32, le64, lemma_stands_at_sum, lemma_u16_at, lemma_u32_at, lemma_u64_at, stands_at,
    u16_at, u32_at, u64_at,
};
use crate::fprint::{fingerprint, fp};
use crate::marshal::{decodes, patched, refused, short, view_opt, Halt, Reader, Writer};
use crate::types::{
    ballot_at, ballot_halt, id_at, id_bytes, id_canon, id_clean, id_halt, id_size, id_writable,
    law_ballot_round_trips, law_member_id_round_trips, law_read_ballot_is_canonical,
    law_read_member_id_is_canonical, BallotNumber, BallotView, MemberId,
};
use crate::version::ProtocolVersion;

verus! {

broadcast use crate::bytes::group_le_len;

/// Marks a message header.
pub const MAGIC: u32 = 0xF00D_FACE;

/// Offset of the checksum field. The checksum covers all that follows it.
pub const CHECKSUM_OFFSET: usize = 6;

/// No message.
pub const MSG_NONE: u16 = 0;

/// A vote on a decree.
pub const MSG_VOTE: u16 = 1;

/// A vote was accepted.
pub const MSG_VOTE_ACCEPTED: u16 = 2;

/// A member prepares to lead.
pub const MSG_PREPARE: u16 = 3;

/// A prepare was accepted.
pub const MSG_PREPARE_ACCEPTED: u16 = 4;

/// A vote or a prepare was refused.
pub const MSG_NOT_ACCEPTED: u16 = 5;

/// Asks a member for its status.
pub const MSG_STATUS_QUERY: u16 = 6;

/// Answers a status query.
pub const MSG_STATUS_RESPONSE: u16 = 7;

/// Asks for logged votes.
pub const MSG_FETCH_VOTES: u16 = 8;

/// Asks for a checkpoint.
pub const MSG_FETCH_CHECKPOINT: u16 = 9;

/// A change of configuration was decided.
pub const MSG_RECONFIGURATION_DECISION: u16 = 10;

/// The sender's configuration is over.
pub const MSG_DEFUNCT_CONFIGURATION: u16 = 11;

/// A member joins.
pub const MSG_JOIN: u16 = 12;

/// Asks a member to join.
pub const MSG_JOIN_REQUEST: u16 = 13;

/// Starts a replica set.
pub const MSG_BOOTSTRAP: u16 = 14;

/// A message header as plain values.
pub struct HeaderView {
    /// Protocol version.
    pub version: ProtocolVersion,
    /// Length of the whole message.
    pub un_marshal_len: u32,
    /// Fingerprint of what follows the checksum field.
    pub checksum: u64,
    /// Always [`MAGIC`].
    pub magic: u32,
    /// The message id.
    pub msg_id: u16,
    /// The sender.
    pub member_id: Seq<u8>,
    /// The decree that the message is about.
    pub decree: u64,
    /// The sender's configuration.
    pub configuration_number: u32,
    /// The ballot that the message belongs to.
    pub ballot: BallotView,
    /// Data of the application.
    pub payload: u64,
}

/// Width of the header on the wire.
pub open spec fn header_size(v: ProtocolVersion) -> int {
    32 + 2 * id_size(v) + (if v.num() >= 3 {
        4int
    } else {
        0
    }) + (if v.num() >= 6 {
        8int
    } else {
        0
    })
}

/// What stands before the checksum field: the version and the message length.
pub open spec fn front_bytes(v: ProtocolVersion, len: u32) -> Seq<u8> {
    le16(v.num()) + le32(len)
}

impl HeaderView {
    /// The header can be written. A numeric id field takes numbers only.
    pub open spec fn writable(self) -> bool {
        id_writable(self.member_id, self.version) && self.ballot.writable(self.version)
    }

    /// The configuration number on the wire.
    pub open spec fn configuration_bytes(self) -> Seq<u8> {
        if self.version.num() >= 3 {
            le32(self.configuration_number)
        } else {
            Seq::empty()
        }
    }

    /// The payload on the wire.
    pub open spec fn payload_bytes(self) -> Seq<u8> {
        if self.version.num() >= 6 {
            le64(self.payload)
        } else {
            Seq::empty()
        }
    }

    /// What follows the checksum field.
    pub open spec fn rest_bytes(self) -> Seq<u8> {
        le32(self.magic) + le16(self.msg_id) + id_bytes(self.member_id, self.version) + le64(
            self.decree,
        ) + self.configuration_bytes() + self.ballot.bytes(self.version) + self.payload_bytes()
    }

    /// The header on the wire, with `len` as the message length.
    pub open spec fn bytes(self, len: u32) -> Seq<u8> {
        front_bytes(self.version, len) + le64(self.checksum) + self.rest_bytes()
    }

    /// The header that a reader makes of those bytes, where the length field
    /// holds `len` and the checksum field holds `checksum`. Fields that the
    /// version does not carry come back as their defaults.
    pub open spec fn canon(self, len: u32, checksum: u64) -> HeaderView {
        HeaderView {
            un_marshal_len: len,
            checksum,
            member_id: id_canon(self.member_id, self.version),
            configuration_number: if self.version.num() >= 3 {
                self.configuration_number
            } else {
                1
            },
            ballot: self.ballot.canon(self.version),
            payload: if self.version.num() >= 6 {
                self.payload
            } else {
                0
            },
            ..self
        }
    }
}

/// The header at `pos`, and where it ends. An unknown version is refused, and
/// so are a wrong magic and a length smaller than the header itself.
#[verifier::opaque]
pub open spec fn header_at(s: Seq<u8>, pos: int) -> Option<(HeaderView, int)> {
    if pos + 2 > s.len() {
        None
    } else {
        match ProtocolVersion::of_wire(u16_at(s, pos)) {
            None => None,
            Some(v) => {
                let end = pos + header_size(v);
                let decree = pos + 20 + id_size(v);
                let ballot = decree + 8 + (if v.num() >= 3 {
                    4int
                } else {
                    0
                });
                if end > s.len() {
                    None
                } else {
                    match (id_at(s, pos + 20, v), ballot_at(s, ballot, v)) {
                        (Some((member_id, _)), Some((b, _))) => {
                            if u32_at(s, pos + 2) < header_size(v) || u32_at(s, pos + 14) != MAGIC {
                                None
                            } else {
                                Some(
                                    (
                                        HeaderView {
                                            version: v,
                                            un_marshal_len: u32_at(s, pos + 2),
                                            checksum: u64_at(s, pos + 6),
                                            magic: MAGIC,
                                            msg_id: u16_at(s, pos + 18),
                                            member_id,
                                            decree: u64_at(s, decree),
                                            configuration_number: if v.num() >= 3 {
                                                u32_at(s, decree + 8)
                                            } else {
                                                1
                                            },
                                            ballot: b,
                                            payload: if v.num() >= 6 {
                                                u64_at(s, end - 8)
                                            } else {
                                                0
                                            },
                                        },
                                        end,
                                    ),
                                )
                            }
                        },
                        _ => None,
                    }
                }
            },
        }
    }
}

/// A written header is read back, in the form that the version keeps.
pub proof fn law_header_round_trips(s: Seq<u8>, pos: int, h: HeaderView, len: u32)
    requires
        h.writable(),
        h.magic == MAGIC,
        header_size(h.version) <= len,
        stands_at(s, pos, h.bytes(len)),
    ensures
        header_at(s, pos) == Some((h.canon(len, h.checksum), pos + header_size(h.version))),
        h.bytes(len).len() == header_size(h.version),
{
    reveal(header_at);
    let v = h.version;
    let a = le32(h.magic);
    let b = le16(h.msg_id);
    let c = id_bytes(h.member_id, v);
    let d = le64(h.decree);
    let e = h.configuration_bytes();
    let f = h.ballot.bytes(v);
    let g = h.payload_bytes();
    let front = front_bytes(v, len);
    lemma_stands_at_sum(s, pos, front + le64(h.checksum), h.rest_bytes());
    lemma_stands_at_sum(s, pos, front, le64(h.checksum));
    lemma_stands_at_sum(s, pos, le16(v.num()), le32(len));
    let mid = pos + 14;
    lemma_stands_at_sum(s, mid, a + b + c + d + e + f, g);
    lemma_stands_at_sum(s, mid, a + b + c + d + e, f);
    lemma_stands_at_sum(s, mid, a + b + c + d, e);
    lemma_stands_at_sum(s, mid, a + b + c, d);
    lemma_stands_at_sum(s, mid, a + b, c);
    lemma_stands_at_sum(s, mid, a, b);
    lemma_u16_at(s, pos, v.num());
    lemma_u32_at(s, pos + 2, len);
    lemma_u64_at(s, pos + 6, h.checksum);
    lemma_u32_at(s, mid, h.magic);
    lemma_u16_at(s, mid + 4, h.msg_id);
    law_member_id_round_trips(s, mid + 6, h.member_id, v);
    let decree = mid + 6 + id_size(v);
    lemma_u64_at(s, decree, h.decree);
    if v.num() >= 3 {
        lemma_u32_at(s, decree + 8, h.configuration_number);
    }
    let ballot = decree + 8 + e.len();
    law_ballot_round_trips(s, ballot, h.ballot, v);
    if v.num() >= 6 {
        lemma_u64_at(s, ballot + f.len(), h.payload);
    }
}

/// A header that was read is in the form that its version keeps. Its version,
/// length and checksum are those that the bytes hold.
pub proof fn law_read_header_is_canonical(s: Seq<u8>, pos: int)
    requires
        0 <= pos,
        header_at(s, pos) is Some,
    ensures
        ({
            let (h, end) = header_at(s, pos)->Some_0;
            &&& h.writable()
            &&& h.magic == MAGIC
            &&& h.canon(h.un_marshal_len, h.checksum) == h
            &&& header_size(h.version) <= h.un_marshal_len
            &&& end == pos + header_size(h.version)
            &&& end <= s.len()
            &&& ProtocolVersion::of_wire(u16_at(s, pos)) == Some(h.version)
            &&& h.un_marshal_len == u32_at(s, pos + 2)
            &&& h.checksum == u64_at(s, pos + 6)
        }),
{
    reveal(header_at);
    let (h, end) = header_at(s, pos)->Some_0;
    let v = h.version;
    law_read_member_id_is_canonical(s, pos + 20, v);
    law_read_ballot_is_canonical(
        s,
        pos + 28 + id_size(v) + (if v.num() >= 3 {
            4int
        } else {
            0
        }),
        v,
    );
}

/// A header is read from its own bytes alone.
pub proof fn law_header_is_local(s: Seq<u8>, t: Seq<u8>)
    requires
        header_at(s, 0) is Some,
        header_at(s, 0)->Some_0.1 <= t.len(),
        s.take(header_at(s, 0)->Some_0.1) == t.take(header_at(s, 0)->Some_0.1),
    ensures
        header_at(t, 0) == header_at(s, 0),
{
    law_read_header_is_canonical(s, 0);
    let (h, end) = header_at(s, 0)->Some_0;
    let x = s.take(end);
    let y = t.take(end);
    reveal(header_at);
    reveal(u16_at);
    reveal(u32_at);
    reveal(u64_at);
    assert forall|i: int| 0 <= i < end implies s[i] == t[i] by {
        assert(x[i] == y[i]);
    }
    let v = h.version;
    let b = 28 + id_size(v) + (if v.num() >= 3 {
        4int
    } else {
        0
    });
    lemma_id_local(s, t, 20, v);
    lemma_id_local(s, t, b + 4, v);
}

proof fn lemma_id_local(s: Seq<u8>, t: Seq<u8>, pos: int, v: ProtocolVersion)
    requires
        0 <= pos,
        pos + id_size(v) <= s.len(),
        pos + id_size(v) <= t.len(),
        forall|i: int| pos <= i < pos + id_size(v) ==> s[i] == t[i],
    ensures
        id_at(s, pos, v) == id_at(t, pos, v),
{
    if v.num() > 3 {
        assert(s.subrange(pos, pos + 64) =~= t.subrange(pos, pos + 64));
    } else {
        reveal(u64_at);
    }
}

/// A whole message: the header with the message's length, the fingerprint of
/// what follows it, and the body.
pub open spec fn message_bytes(h: HeaderView, body: Seq<u8>) -> Seq<u8> {
    front_bytes(h.version, message_len(h, body) as u32) + le64(message_checksum(h, body))
        + h.rest_bytes() + body
}

/// Length of a message.
pub open spec fn message_len(h: HeaderView, body: Seq<u8>) -> int {
    header_size(h.version) + body.len()
}

/// The checksum of a message.
pub open spec fn message_checksum(h: HeaderView, body: Seq<u8>) -> u64 {
    fp(h.rest_bytes() + body)
}

/// The buffer is a whole message, as long as its length field says, and its
/// checksum field holds the fingerprint of what follows the field.
pub open spec fn checksum_ok(buf: Seq<u8>) -> bool {
    buf.len() >= 14 && u32_at(buf, 2) == buf.len() && u64_at(buf, 6) == fp(buf.skip(14))
}

/// `s` with the fingerprint of what follows the checksum field put there.
pub open spec fn sealed(s: Seq<u8>) -> Seq<u8> {
    patched(s, 6, le64(fp(s.skip(14))))
}

/// Sealing a header and a body gives the message that they make up.
pub(crate) proof fn lemma_sealed(h: HeaderView, body: Seq<u8>)
    requires
        h.writable(),
        message_len(h, body) <= u32::MAX,
    ensures
        sealed(h.bytes(message_len(h, body) as u32) + body) == message_bytes(h, body),
        (h.bytes(message_len(h, body) as u32) + body).len() == message_len(h, body),
{
    let len = message_len(h, body) as u32;
    let s = h.bytes(len) + body;
    assert(s.skip(14) =~= h.rest_bytes() + body);
    assert(sealed(s) =~= message_bytes(h, body));
    assert(h.rest_bytes().len() == header_size(h.version) - 14);
}

/// Every message that is written verifies, is as long as its length field says,
/// and starts with its header.
pub proof fn law_written_message_verifies(h: HeaderView, body: Seq<u8>)
    requires
        h.writable(),
        h.magic == MAGIC,
        message_len(h, body) <= u32::MAX,
    ensures
        checksum_ok(message_bytes(h, body)),
        message_bytes(h, body).len() == message_len(h, body),
        message_bytes(h, body).skip(header_size(h.version)) == body,
        header_at(message_bytes(h, body), 0) == Some(
            (
                h.canon(message_len(h, body) as u32, message_checksum(h, body)),
                header_size(h.version),
            ),
        ),
{
    let len = message_len(h, body) as u32;
    let c = message_checksum(h, body);
    let s = message_bytes(h, body);
    let stored = HeaderView { checksum: c, ..h };
    let size = header_size(h.version);
    lemma_rest_len(h);
    lemma_four_parts(front_bytes(h.version, len), le64(c), h.rest_bytes(), body);
    assert(stored.rest_bytes() == h.rest_bytes());
    assert(stored.canon(len, c) == h.canon(len, c));
    law_header_round_trips(s, 0, stored, len);
    law_read_header_is_canonical(s, 0);
}

/// A message takes as many bytes as its header and its body.
pub(crate) proof fn lemma_message_bytes_len(h: HeaderView, body: Seq<u8>)
    requires
        h.writable(),
    ensures
        message_bytes(h, body).len() == message_len(h, body),
{
    lemma_rest_len(h);
}

/// Where the magic number of a message stands.
pub(crate) proof fn lemma_magic_at(h: HeaderView, body: Seq<u8>, tail: Seq<u8>)
    requires
        h.writable(),
    ensures
        u32_at(message_bytes(h, body) + tail, 14) == h.magic,
        u16_at(message_bytes(h, body) + tail, 18) == h.msg_id,
{
    let s = message_bytes(h, body) + tail;
    lemma_rest_len(h);
    assert(s.subrange(14, 18) =~= le32(h.magic));
    assert(s.subrange(18, 20) =~= le16(h.msg_id));
    lemma_u32_at(s, 14, h.magic);
    lemma_u16_at(s, 18, h.msg_id);
}

proof fn lemma_rest_len(h: HeaderView)
    requires
        h.writable(),
    ensures
        h.rest_bytes().len() == header_size(h.version) - 14,
{
}

proof fn lemma_four_parts(a: Seq<u8>, b: Seq<u8>, c: Seq<u8>, d: Seq<u8>)
    ensures
        stands_at(a + b + c + d, 0, a + b + c),
        (a + b + c + d).skip((a.len() + b.len()) as int) == c + d,
        (a + b + c + d).skip((a.len() + b.len() + c.len()) as int) == d,
{
    let s = a + b + c + d;
    assert(s.subrange(0, (a + b + c).len() as int) =~= a + b + c);
    assert(s.skip((a.len() + b.len()) as int) =~= c + d);
    assert(s.skip((a.len() + b.len() + c.len()) as int) =~= d);
}

/// The header that every message starts with.
///
/// The length and the checksum are computed when a message is written, so what
/// they hold before that does not matter.
#[derive(Debug, PartialEq, Eq)]
pub struct Header {
    /// Protocol version.
    pub version: ProtocolVersion,
    /// Length of the whole message.
    pub un_marshal_len: u32,
    /// Fingerprint of what follows the checksum field.
    pub checksum: u64,
    /// Always [`MAGIC`].
    pub magic: u32,
    /// The message id.
    pub msg_id: u16,
    /// The sender.
    pub member_id: MemberId,
    /// The decree that the message is about.
    pub decree: u64,
    /// The sender's configuration.
    pub configuration_number: u32,
    /// The ballot that the message belongs to.
    pub ballot: BallotNumber,
    /// Data of the application.
    pub payload: u64,
}

impl View for Header {
    type V = HeaderView;

    open spec fn view(&self) -> HeaderView {
        HeaderView {
            version: self.version,
            un_marshal_len: self.un_marshal_len,
            checksum: self.checksum,
            magic: self.magic,
            msg_id: self.msg_id,
            member_id: self.member_id@,
            decree: self.decree,
            configuration_number: self.configuration_number,
            ballot: self.ballot@,
            payload: self.payload,
        }
    }
}

impl Clone for Header {
    fn clone(&self) -> (r: Header)
        ensures
            r@ == self@,
    {
        Header {
            version: self.version,
            un_marshal_len: self.un_marshal_len,
            checksum: self.checksum,
            magic: self.magic,
            msg_id: self.msg_id,
            member_id: self.member_id.clone(),
            decree: self.decree,
            configuration_number: self.configuration_number,
            ballot: self.ballot.clone(),
            payload: self.payload,
        }
    }
}

impl Header {
    /// A header with everything that is computed later left at its default.
    pub fn new(
        version: ProtocolVersion,
        msg_id: u16,
        member_id: MemberId,
        decree: u64,
        configuration_number: u32,
        ballot: BallotNumber,
        payload: u64,
    ) -> (r: Header)
        ensures
            r@ == (HeaderView {
                version,
                un_marshal_len: 0,
                checksum: 0,
                magic: MAGIC,
                msg_id,
                member_id: member_id@,
                decree,
                configuration_number,
                ballot: ballot@,
                payload,
            }),
    {
        Header {
            version,
            un_marshal_len: 0,
            checksum: 0,
            magic: MAGIC,
            msg_id,
            member_id,
            decree,
            configuration_number,
            ballot,
            payload,
        }
    }

    /// Width of the header on the wire at `version`.
    pub fn base_size(version: ProtocolVersion) -> (r: u32)
        ensures
            r == header_size(version),
            r <= 172,
    {
        let mut size: u32 = 20 + MemberId::base_size(version) + 8 + BallotNumber::base_size(
            version,
        );
        if version.has_configuration_number() {
            size = size + 4;
        }
        if version.has_payload() {
            size = size + 8;
        }
        size
    }

    /// Writes the header with `marshal_len` in the length field.
    pub(crate) fn write(&self, w: &mut Writer, marshal_len: u32)
        requires
            self@.writable(),
        ensures
            final(w)@ == old(w)@ + self@.bytes(marshal_len),
    {
        w.write_u16(self.version.raw());
        w.write_u32(marshal_len);
        w.write_u64(self.checksum);
        w.write_u32(self.magic);
        w.write_u16(self.msg_id);
        self.member_id.marshal(w, self.version);
        w.write_u64(self.decree);
        if self.version.has_configuration_number() {
            w.write_u32(self.configuration_number);
        }
        self.ballot.marshal(w, self.version);
        if self.version.has_payload() {
            w.write_u64(self.payload);
        }
        assert(w@ =~= old(w)@ + self@.bytes(marshal_len));
    }

    /// Reads a header. An unknown version is refused, and so are a wrong magic
    /// and a length smaller than the header itself.
    pub fn unmarshal(r: &mut Reader) -> (res: Option<Header>)
        ensures
            decodes(
                old(r)@,
                final(r)@,
                header_at(old(r)@.buf, old(r)@.pos),
                header_halt(old(r)@.buf, old(r)@.pos),
                view_opt(res),
            ),
    {
        proof {
            use_type_invariant(&*r);
            reveal(header_at);
        }
        let raw = r.read_u16()?;
        let version = ProtocolVersion::from_wire(raw)?;
        let un_marshal_len = r.read_u32()?;
        let checksum = r.read_u64()?;
        let magic = r.read_u32()?;
        let msg_id = r.read_u16()?;
        let member_id = MemberId::unmarshal(r, version)?;
        let decree = r.read_u64()?;
        let configuration_number = if version.has_configuration_number() {
            r.read_u32()?
        } else {
            1
        };
        let ballot = BallotNumber::unmarshal(r, version)?;
        let payload = if version.has_payload() {
            r.read_u64()?
        } else {
            0
        };
        if un_marshal_len < Header::base_size(version) {
            return None;
        }
        if magic != MAGIC {
            return None;
        }
        Some(
            Header {
                version,
                un_marshal_len,
                checksum,
                magic,
                msg_id,
                member_id,
                decree,
                configuration_number,
                ballot,
                payload,
            },
        )
    }
}

/// Writes a message that is a header and nothing more.
pub fn marshal_base(header: &Header) -> (r: Vec<u8>)
    requires
        header@.writable(),
    ensures
        r@ == message_bytes(header@, Seq::empty()),
{
    let len = Header::base_size(header.version);
    let mut w = Writer::with_capacity(len as usize);
    header.write(&mut w, len);
    proof {
        lemma_sealed(header@, Seq::empty());
        assert(w@ =~= header@.bytes(len) + Seq::<u8>::empty());
    }
    finalize(w.into_bytes())
}

/// Reads the header that a message starts with.
pub fn unmarshal_base(buf: &[u8]) -> (r: Option<Header>)
    ensures
        view_opt(r) == parsed_base(buf@),
{
    let mut r = Reader::new(buf);
    Header::unmarshal(&mut r)
}

/// Where reading what is no header stops.
pub open spec fn header_halt(s: Seq<u8>, pos: int) -> Halt {
    if pos + 2 > s.len() {
        short(pos)
    } else {
        match ProtocolVersion::of_wire(u16_at(s, pos)) {
            None => refused(pos + 2),
            Some(v) => {
                let id = pos + 20;
                let decree = id + id_size(v);
                let ballot = decree + 8 + (if v.num() >= 3 {
                    4int
                } else {
                    0
                });
                let end = pos + header_size(v);
                if pos + 6 > s.len() {
                    short(pos + 2)
                } else if pos + 14 > s.len() {
                    short(pos + 6)
                } else if pos + 18 > s.len() {
                    short(pos + 14)
                } else if id > s.len() {
                    short(pos + 18)
                } else if id_at(s, id, v) is None {
                    id_halt(s, id, v)
                } else if decree + 8 > s.len() {
                    short(decree)
                } else if ballot > s.len() {
                    short(decree + 8)
                } else if ballot_at(s, ballot, v) is None {
                    ballot_halt(s, ballot, v)
                } else if end > s.len() {
                    short(end - 8)
                } else {
                    refused(end)
                }
            },
        }
    }
}

/// The header that a message starts with.
pub open spec fn parsed_base(buf: Seq<u8>) -> Option<HeaderView> {
    match header_at(buf, 0) {
        Some((h, _)) => Some(h),
        None => None,
    }
}

/// Puts the fingerprint of what follows the checksum field into the field.
pub(crate) fn finalize(bytes: Vec<u8>) -> (r: Vec<u8>)
    requires
        bytes@.len() >= 14,
    ensures
        r@ == sealed(bytes@),
{
    let data_off: usize = CHECKSUM_OFFSET + 8;
    let data = vstd::slice::slice_subrange(bytes.as_slice(), data_off, bytes.len());
    assert(data@ =~= bytes@.skip(14));
    let checksum = fingerprint(data);
    let mut w = Writer::with_capacity(bytes.len());
    w.write_data(bytes.as_slice());
    assert(w@ =~= bytes@);
    w.patch_u64_at(CHECKSUM_OFFSET, checksum);
    w.into_bytes()
}

/// Whether a buffer is a whole message with the right checksum. A buffer of
/// another length than the message's own length field is not.
pub fn verify_checksum(buf: &[u8]) -> (r: bool)
    ensures
        r == checksum_ok(buf@),
{
    let data_off: usize = CHECKSUM_OFFSET + 8;
    if buf.len() < data_off {
        return false;
    }
    let mut r = Reader::new(buf);
    let _ = r.read_u16();
    let (len, stored) = match (r.read_u32(), r.read_u64()) {
        (Some(len), Some(stored)) => (len, stored),
        _ => {
            return false;
        },
    };
    if len as usize != buf.len() {
        return false;
    }
    let data = vstd::slice::slice_subrange(buf, data_off, buf.len());
    assert(data@ =~= buf@.skip(14));
    fingerprint(data) == stored
}

/// Changing one byte behind the checksum field of a message that verifies makes
/// it fail to verify.
pub proof fn law_flipped_byte_is_caught(buf: Seq<u8>, i: int, byte: u8)
    requires
        checksum_ok(buf),
        6 <= i < buf.len(),
        byte != buf[i],
    ensures
        !checksum_ok(buf.update(i, byte)),
{
    let bad = buf.update(i, byte);
    reveal(u32_at);
    reveal(u64_at);
    if i >= 14 {
        crate::fprint::law_fingerprint_sees_one_byte(
            crate::fprint::POLY,
            buf.skip(14),
            i - 14,
            byte,
        );
        assert(bad.skip(14) =~= buf.skip(14).update(i - 14, byte));
    } else {
        assert(bad.skip(14) =~= buf.skip(14));
        crate::bytes::lemma_le64_of_u64_at(buf, 6);
        crate::bytes::lemma_le64_of_u64_at(bad, 6);
        if u64_at(bad, 6) == u64_at(buf, 6) {
            let x = buf.subrange(6, 14);
            let y = bad.subrange(6, 14);
            assert(x[i - 6] == y[i - 6]);
        }
    }
}

/// A message as plain values, tagged by its kind.
pub enum MsgView {
    /// A header and nothing more.
    Base(HeaderView),
    /// A vote.
    Vote(VoteView),
    /// A join message.
    Join(JoinView),
    /// A prepare.
    Prepare(PrepareView),
    /// An accepted prepare.
    PrepareAccepted(PrepareAcceptedView),
    /// A status response.
    StatusResponse(StatusResponseView),
    /// A bootstrap message.
    Bootstrap(BootstrapView),
}

impl MsgView {
    /// The kind of the message.
    pub open spec fn kind(self) -> MsgKind {
        match self {
            MsgView::Base(_) => MsgKind::Base,
            MsgView::Vote(_) => MsgKind::Vote,
            MsgView::Join(_) => MsgKind::Join,
            MsgView::Prepare(_) => MsgKind::Prepare,
            MsgView::PrepareAccepted(_) => MsgKind::PrepareAccepted,
            MsgView::StatusResponse(_) => MsgKind::StatusResponse,
            MsgView::Bootstrap(_) => MsgKind::Bootstrap,
        }
    }

    /// The header.
    pub open spec fn header(self) -> HeaderView {
        match self {
            MsgView::Base(h) => h,
            MsgView::Vote(m) => m.header,
            MsgView::Join(m) => m.header,
            MsgView::Prepare(m) => m.header,
            MsgView::PrepareAccepted(m) => m.header,
            MsgView::StatusResponse(m) => m.header,
            MsgView::Bootstrap(m) => m.header,
        }
    }

    /// The body on the wire.
    pub open spec fn body(self) -> Seq<u8> {
        match self {
            MsgView::Base(h) => Seq::empty(),
            MsgView::Vote(m) => m.body(),
            MsgView::Join(m) => m.body(),
            MsgView::Prepare(m) => m.body(),
            MsgView::PrepareAccepted(m) => m.body(),
            MsgView::StatusResponse(m) => m.body(),
            MsgView::Bootstrap(m) => m.body(),
        }
    }

    /// The message on the wire.
    pub open spec fn bytes(self) -> Seq<u8> {
        message_bytes(self.header(), self.body())
    }

    /// Number of bytes that the message takes.
    pub open spec fn len(self) -> int {
        match self {
            MsgView::Base(h) => header_size(h.version),
            MsgView::Vote(m) => m.len(),
            MsgView::Join(m) => m.len(),
            MsgView::Prepare(m) => m.len(),
            MsgView::PrepareAccepted(m) => m.len(),
            MsgView::StatusResponse(m) => m.len(),
            MsgView::Bootstrap(m) => m.len(),
        }
    }

    /// The member ids of the message can be written at its version.
    pub open spec fn writable(self) -> bool {
        match self {
            MsgView::Base(h) => h.writable(),
            MsgView::Vote(m) => m.writable(),
            MsgView::Join(m) => m.header.writable(),
            MsgView::Prepare(m) => m.header.writable(),
            MsgView::PrepareAccepted(m) => m.header.writable() && m.vote.writable(),
            MsgView::StatusResponse(m) => m.writable(),
            MsgView::Bootstrap(m) => m.writable(),
        }
    }

    /// Why the message is not written, if it is not.
    pub open spec fn refusal(self) -> Option<MarshalError> {
        match self {
            MsgView::Vote(m) => m.refusal(),
            MsgView::PrepareAccepted(m) => m.vote.refusal(),
            _ => None,
        }
    }

    /// The message can be written and read back.
    pub open spec fn sendable(self) -> bool {
        match self {
            MsgView::Base(h) => h.writable() && h.magic == MAGIC,
            MsgView::Vote(m) => m.sendable(),
            MsgView::Join(m) => m.sendable(),
            MsgView::Prepare(m) => m.sendable(),
            MsgView::PrepareAccepted(m) => m.sendable(),
            MsgView::StatusResponse(m) => m.sendable(),
            MsgView::Bootstrap(m) => m.sendable(),
        }
    }

    /// The message that a reader makes of its bytes.
    pub open spec fn canon(self) -> MsgView {
        match self {
            MsgView::Base(h) => MsgView::Base(
                h.canon(header_size(h.version) as u32, message_checksum(h, Seq::empty())),
            ),
            MsgView::Vote(m) => MsgView::Vote(m.canon(message_checksum(m.header, m.body()))),
            MsgView::Join(m) => MsgView::Join(m.canon()),
            MsgView::Prepare(m) => MsgView::Prepare(m.canon()),
            MsgView::PrepareAccepted(m) => MsgView::PrepareAccepted(m.canon()),
            MsgView::StatusResponse(m) => MsgView::StatusResponse(m.canon()),
            MsgView::Bootstrap(m) => MsgView::Bootstrap(m.canon()),
        }
    }
}

/// The message of kind `kind` that a buffer starts with.
pub open spec fn parsed_message(kind: MsgKind, buf: Seq<u8>) -> Option<MsgView> {
    match kind {
        MsgKind::Base => match parsed_base(buf) {
            Some(m) => Some(MsgView::Base(m)),
            None => None,
        },
        MsgKind::Vote => match parsed_vote(buf) {
            Some(m) => Some(MsgView::Vote(m)),
            None => None,
        },
        MsgKind::Join => match parsed_join(buf) {
            Some(m) => Some(MsgView::Join(m)),
            None => None,
        },
        MsgKind::Prepare => match parsed_prepare(buf) {
            Some(m) => Some(MsgView::Prepare(m)),
            None => None,
        },
        MsgKind::PrepareAccepted => match parsed_prepare_accepted(buf) {
            Some(m) => Some(MsgView::PrepareAccepted(m)),
            None => None,
        },
        MsgKind::StatusResponse => match parsed_status_response(buf) {
            Some(m) => Some(MsgView::StatusResponse(m)),
            None => None,
        },
        MsgKind::Bootstrap => match parsed_bootstrap(buf) {
            Some(m) => Some(MsgView::Bootstrap(m)),
            None => None,
        },
    }
}

/// Every message that can be sent is read back in the form that its version
/// keeps, takes the number of bytes that it reports, and verifies.
pub proof fn law_message_round_trips(m: MsgView)
    requires
        m.sendable(),
    ensures
        parsed_message(m.kind(), m.bytes()) == Some(m.canon()),
        m.bytes().len() == m.len(),
        m.len() <= u32::MAX,
        checksum_ok(m.bytes()),
        m.refusal() is None,
        m.writable(),
{
    match m {
        MsgView::Base(h) => {},
        MsgView::Vote(x) => {
            law_vote_round_trips(x);
            law_vote_len(x);
        },
        MsgView::Join(x) => {
            law_join_round_trips(x);
        },
        MsgView::Prepare(x) => {
            law_prepare_round_trips(x);
        },
        MsgView::PrepareAccepted(x) => {
            law_prepare_accepted_round_trips(x);
        },
        MsgView::StatusResponse(x) => {
            law_status_response_round_trips(x);
        },
        MsgView::Bootstrap(x) => {
            law_bootstrap_round_trips(x);
        },
    }
    law_written_message_verifies(m.header(), m.body());
}

/// A message that was read can be sent again, unless it is or holds a
/// reconfiguration vote with requests, or its length no longer fits the length
/// field. What is read of the message sent again is again that message, apart
/// from the length and checksum fields, and sending it once more gives the same
/// bytes.
pub proof fn law_reparse_reaches_a_fixpoint(kind: MsgKind, buf: Seq<u8>)
    requires
        parsed_message(kind, buf) is Some,
    ensures
        ({
            let m = parsed_message(kind, buf)->Some_0;
            &&& m.kind() == kind
            &&& m.writable()
            &&& m.refusal() is Some ==> m.refusal() == Some(
                MarshalError::ReconfigurationVoteWithRequests,
            )
            &&& m.refusal() is None && m.len() <= u32::MAX ==> {
                &&& m.sendable()
                &&& checksum_ok(m.bytes())
                &&& parsed_message(kind, m.bytes()) == Some(m.canon())
                &&& m.canon().sendable()
                &&& m.canon().bytes() == m.bytes()
            }
        }),
{
    let m = parsed_message(kind, buf)->Some_0;
    match m {
        MsgView::Base(h) => {
            law_read_header_is_canonical(buf, 0);
        },
        MsgView::Vote(x) => {
            law_read_vote_is_canonical(buf);
        },
        MsgView::Join(x) => {
            law_read_join_is_canonical(buf);
        },
        MsgView::Prepare(x) => {
            law_read_prepare_is_canonical(buf);
        },
        MsgView::PrepareAccepted(x) => {
            law_read_prepare_accepted_is_canonical(buf);
        },
        MsgView::StatusResponse(x) => {
            law_read_status_response_is_canonical(buf);
        },
        MsgView::Bootstrap(x) => {
            law_read_bootstrap_is_canonical(buf);
        },
    }
    if m.refusal() is None && m.len() <= u32::MAX {
        law_message_round_trips(m);
        lemma_canon_same_bytes(m);
    }
}

/// A message in canonical form differs from what is read back of it in the
/// length and checksum fields of its header only.
proof fn lemma_canon_same_bytes(m: MsgView)
    requires
        m.sendable(),
        m.header().canon(m.header().un_marshal_len, m.header().checksum) == m.header(),
        match m {
            MsgView::Vote(x) => x.canon(x.header.checksum) == (VoteView {
                header: x.header.canon(x.len() as u32, x.header.checksum),
                ..x
            }),
            MsgView::Prepare(x) => cookie_canon(x.primary_cookie, x.header.version)
                == x.primary_cookie,
            MsgView::PrepareAccepted(x) => x.vote.canon(x.vote.header.checksum) == x.vote,
            MsgView::StatusResponse(x) => x.query_ballot.canon(x.header.version) == x.query_ballot
                && x.max_ballot.canon(x.header.version) == x.max_ballot,
            MsgView::Bootstrap(x) => x.member_set.canon(x.header.version) == x.member_set,
            _ => true,
        },
    ensures
        m.canon().bytes() == m.bytes(),
        m.canon().sendable(),
{
    let c = m.canon();
    let h = m.header();
    assert(c.header() == (HeaderView {
        un_marshal_len: c.header().un_marshal_len,
        checksum: c.header().checksum,
        ..h
    }));
    assert(c.header().rest_bytes() == h.rest_bytes());
    assert(c.body() == m.body());
}

impl HeaderView {
    /// The header's ids are clean.
    pub open spec fn clean(self) -> bool {
        id_clean(self.member_id) && id_clean(self.ballot.member_id)
    }
}

impl VoteView {
    /// The ids that the vote sends are clean.
    pub open spec fn clean(self) -> bool {
        &&& self.header.clean()
        &&& self.reconfigures() && self.members_in_new_configuration is Some
            ==> self.members_in_new_configuration->Some_0.clean()
    }
}

impl MsgView {
    /// The ids that the message sends are clean: none holds a zero byte.
    pub open spec fn clean(self) -> bool {
        match self {
            MsgView::Base(h) => h.clean(),
            MsgView::Vote(m) => m.clean(),
            MsgView::Join(m) => m.header.clean(),
            MsgView::Prepare(m) => m.header.clean(),
            MsgView::PrepareAccepted(m) => m.header.clean() && m.vote.clean(),
            MsgView::StatusResponse(m) => m.header.clean() && id_clean(m.query_ballot.member_id)
                && id_clean(m.max_ballot.member_id),
            MsgView::Bootstrap(m) => m.header.clean() && m.member_set.clean(),
        }
    }
}

proof fn lemma_header_canon_bytes(h: HeaderView, len: u32, checksum: u64)
    requires
        h.writable(),
        h.clean(),
    ensures
        h.canon(len, checksum).rest_bytes() == h.rest_bytes(),
{
    crate::types::lemma_id_canon_bytes(h.member_id, h.version);
    crate::types::lemma_id_canon_bytes(h.ballot.member_id, h.version);
}

/// What is read back of a vote takes the same number of bytes.
pub(crate) proof fn lemma_vote_canon_len(m: VoteView, checksum: u64)
    requires
        m.refusal() is None,
    ensures
        m.canon(checksum).len() == m.len(),
{
    if m.reconfigures() {
        crate::types::lemma_member_set_canon_len(
            m.members_in_new_configuration->Some_0,
            m.header.version,
        );
    }
}

pub(crate) proof fn lemma_vote_canon_bytes(m: VoteView, checksum: u64)
    requires
        m.writable(),
        m.refusal() is None,
        m.clean(),
    ensures
        m.canon(checksum).body() == m.body(),
        m.canon(checksum).header.rest_bytes() == m.header.rest_bytes(),
        m.canon(checksum).len() == m.len(),
{
    lemma_header_canon_bytes(m.header, m.len() as u32, checksum);
    if m.reconfigures() {
        let ms = m.members_in_new_configuration->Some_0;
        let v = m.header.version;
        crate::types::lemma_member_set_canon_bytes(ms, v);
        crate::types::law_member_set_len(ms, v);
        crate::types::lemma_member_set_canon_len(ms, v);
    }
}

/// What is read back of a message with clean ids is written as the same bytes.
/// A zero byte inside an id would end it, and what follows that byte would be
/// lost.
pub proof fn law_clean_message_is_rewritten_alike(m: MsgView)
    requires
        m.sendable(),
        m.clean(),
    ensures
        parsed_message(m.kind(), m.bytes()) == Some(m.canon()),
        m.canon().bytes() == m.bytes(),
{
    law_message_round_trips(m);
    let c = m.canon();
    let h = m.header();
    lemma_header_canon_bytes(h, c.header().un_marshal_len, c.header().checksum);
    match m {
        MsgView::Vote(x) => {
            lemma_vote_canon_bytes(x, message_checksum(x.header, x.body()));
        },
        MsgView::PrepareAccepted(x) => {
            lemma_vote_canon_bytes(x.vote, x.vote.header.checksum);
        },
        MsgView::StatusResponse(x) => {
            crate::types::lemma_id_canon_bytes(x.query_ballot.member_id, h.version);
            crate::types::lemma_id_canon_bytes(x.max_ballot.member_id, h.version);
        },
        MsgView::Bootstrap(x) => {
            crate::types::lemma_member_set_canon_bytes(x.member_set, h.version);
        },
        _ => {},
    }
    assert(c.body() == m.body());
}

/// A message, tagged by its kind. The kind is the caller's choice and does not
/// follow from the message id: a prepare, for one, may be a bare header or a
/// message with a cookie.
#[derive(Debug)]
pub enum Msg {
    /// A header and nothing more.
    Base(Header),
    /// A vote.
    Vote(Vote),
    /// A join message.
    Join(JoinMessage),
    /// A prepare.
    Prepare(PrepareMsg),
    /// An accepted prepare.
    PrepareAccepted(PrepareAccepted),
    /// A status response.
    StatusResponse(StatusResponse),
    /// A bootstrap message.
    Bootstrap(BootstrapMsg),
}

impl View for Msg {
    type V = MsgView;

    open spec fn view(&self) -> MsgView {
        match self {
            Msg::Base(m) => MsgView::Base(m@),
            Msg::Vote(m) => MsgView::Vote(m@),
            Msg::Join(m) => MsgView::Join(m@),
            Msg::Prepare(m) => MsgView::Prepare(m@),
            Msg::PrepareAccepted(m) => MsgView::PrepareAccepted(m@),
            Msg::StatusResponse(m) => MsgView::StatusResponse(m@),
            Msg::Bootstrap(m) => MsgView::Bootstrap(m@),
        }
    }
}

impl Clone for Msg {
    fn clone(&self) -> (r: Msg)
        ensures
            r@ == self@,
    {
        match self {
            Msg::Base(m) => Msg::Base(m.clone()),
            Msg::Vote(m) => Msg::Vote(m.clone()),
            Msg::Join(m) => Msg::Join(m.clone()),
            Msg::Prepare(m) => Msg::Prepare(m.clone()),
            Msg::PrepareAccepted(m) => Msg::PrepareAccepted(m.clone()),
            Msg::StatusResponse(m) => Msg::StatusResponse(m.clone()),
            Msg::Bootstrap(m) => Msg::Bootstrap(m.clone()),
        }
    }
}

/// Which parser to apply to a buffer.
#[derive(Clone, Copy, Debug, PartialEq, Eq, Structural)]
pub enum MsgKind {
    /// A header and nothing more.
    Base,
    /// A vote.
    Vote,
    /// A join message.
    Join,
    /// A prepare.
    Prepare,
    /// An accepted prepare.
    PrepareAccepted,
    /// A status response.
    StatusResponse,
    /// A bootstrap message.
    Bootstrap,
}

impl Msg {
    /// Reads the message of kind `kind` that `buf` starts with.
    pub fn unmarshal(kind: MsgKind, buf: &[u8]) -> (r: Option<Msg>)
        ensures
            view_opt(r) == parsed_message(kind, buf@),
    {
        match kind {
            MsgKind::Base => Some(Msg::Base(unmarshal_base(buf)?)),
            MsgKind::Vote => Some(Msg::Vote(Vote::unmarshal(buf)?)),
            MsgKind::Join => Some(Msg::Join(JoinMessage::unmarshal(buf)?)),
            MsgKind::Prepare => Some(Msg::Prepare(PrepareMsg::unmarshal(buf)?)),
            MsgKind::PrepareAccepted => Some(
                Msg::PrepareAccepted(PrepareAccepted::unmarshal(buf)?),
            ),
            MsgKind::StatusResponse => Some(Msg::StatusResponse(StatusResponse::unmarshal(buf)?)),
            MsgKind::Bootstrap => Some(Msg::Bootstrap(BootstrapMsg::unmarshal(buf)?)),
        }
    }

    /// Writes the message, checksum included. A message that is or holds a vote
    /// is refused where the vote is.
    pub fn marshal_with_checksum(&self) -> (r: Result<Vec<u8>, MarshalError>)
        requires
            self@.writable(),
            self@.len() <= u32::MAX,
        ensures
            match self@.refusal() {
                Some(e) => r == Err::<Vec<u8>, MarshalError>(e),
                None => r is Ok && r->Ok_0@ == self@.bytes(),
            },
    {
        match self {
            Msg::Base(m) => Ok(marshal_base(m)),
            Msg::Vote(m) => m.marshal_with_checksum(),
            Msg::Join(m) => Ok(m.marshal_with_checksum()),
            Msg::Prepare(m) => Ok(m.marshal_with_checksum()),
            Msg::PrepareAccepted(m) => m.marshal_with_checksum(),
            Msg::StatusResponse(m) => Ok(m.marshal_with_checksum()),
            Msg::Bootstrap(m) => Ok(m.marshal_with_checksum()),
        }
    }

    /// The header.
    pub fn header(&self) -> (r: &Header)
        ensures
            r@ == self@.header(),
    {
        match self {
            Msg::Base(m) => m,
            Msg::Vote(m) => &m.header,
            Msg::Join(m) => &m.header,
            Msg::Prepare(m) => &m.header,
            Msg::PrepareAccepted(m) => &m.header,
            Msg::StatusResponse(m) => &m.header,
            Msg::Bootstrap(m) => &m.header,
        }
    }
}

} // verus!
