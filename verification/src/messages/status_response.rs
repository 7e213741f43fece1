//! The answer to a status query: what the member was last asked, what its log
//! and checkpoint hold, and the state that it is in.

use vstd::prelude::*;

use super::{
    header_at, header_size, law_read_header_is_canonical, law_written_message_verifies,
    lemma_sealed, message_bytes, message_checksum, message_len, Header, HeaderView, MAGIC,
    MSG_STATUS_RESPONSE,
};
use crate::bytes::{
    le32, le64, lemma_stands_at_sum, lemma_u32_at, lemma_u64_at, stands_at, u32_at, u64_at,
};
use crate::marshal::{view_opt, Reader, Writer};
use crate::types::{
    ballot_at, id_size, law_ballot_round_trips, law_read_ballot_is_canonical, BallotNumber,
    BallotView,
};
use crate::version::ProtocolVersion;

verus! {

broadcast use crate::bytes::group_le_len;

/// A status response as plain values.
pub struct StatusResponseView {
    /// The message header.
    pub header: HeaderView,
    /// The decree of the last query.
    pub query_decree: u64,
    /// The ballot of the last query.
    pub query_ballot: BallotView,
    /// How long ago the last message came in.
    pub last_received_ago: i64,
    /// The first decree in the log.
    pub min_decree_in_log: u64,
    /// The decree of the checkpoint.
    pub checkpointed_decree: u64,
    /// The size of the checkpoint.
    pub checkpoint_size: u64,
    /// The highest ballot seen.
    pub max_ballot: BallotView,
    /// The state that the member is in.
    pub state: u32,
}

/// Number of bytes that the body takes.
pub open spec fn status_body_len(v: ProtocolVersion) -> int {
    52 + 2 * id_size(v)
}

impl StatusResponseView {
    /// The body on the wire.
    pub open spec fn body(self) -> Seq<u8> {
        let v = self.header.version;
        le64(self.query_decree) + self.query_ballot.bytes(v) + le64(self.last_received_ago as u64)
            + le64(self.min_decree_in_log) + le64(self.checkpointed_decree) + le64(
            self.checkpoint_size,
        ) + self.max_ballot.bytes(v) + le32(self.state)
    }

    /// Number of bytes that the message takes.
    pub open spec fn len(self) -> int {
        header_size(self.header.version) + status_body_len(self.header.version)
    }

    /// The message on the wire.
    pub open spec fn bytes(self) -> Seq<u8> {
        message_bytes(self.header, self.body())
    }

    /// The member ids of the message can be written at its version.
    pub open spec fn writable(self) -> bool {
        &&& self.header.writable()
        &&& self.query_ballot.writable(self.header.version)
        &&& self.max_ballot.writable(self.header.version)
    }

    /// The message can be written and read back.
    pub open spec fn sendable(self) -> bool {
        &&& self.writable()
        &&& self.header.magic == MAGIC
        &&& self.header.msg_id == MSG_STATUS_RESPONSE
    }

    /// The message that a reader makes of its bytes.
    pub open spec fn canon(self) -> StatusResponseView {
        StatusResponseView {
            header: self.header.canon(
                self.len() as u32,
                message_checksum(self.header, self.body()),
            ),
            query_ballot: self.query_ballot.canon(self.header.version),
            max_ballot: self.max_ballot.canon(self.header.version),
            ..self
        }
    }
}

/// The status response that a buffer starts with.
pub open spec fn parsed_status_response(buf: Seq<u8>) -> Option<StatusResponseView> {
    match header_at(buf, 0) {
        None => None,
        Some((h, p)) => {
            let v = h.version;
            let b = p + 12 + id_size(v);
            if h.msg_id != MSG_STATUS_RESPONSE || p + status_body_len(v) > buf.len() {
                None
            } else {
                match (ballot_at(buf, p + 8, v), ballot_at(buf, b + 32, v)) {
                    (Some((query_ballot, _)), Some((max_ballot, end))) => Some(
                        StatusResponseView {
                            header: h,
                            query_decree: u64_at(buf, p),
                            query_ballot,
                            last_received_ago: u64_at(buf, b) as i64,
                            min_decree_in_log: u64_at(buf, b + 8),
                            checkpointed_decree: u64_at(buf, b + 16),
                            checkpoint_size: u64_at(buf, b + 24),
                            max_ballot,
                            state: u32_at(buf, end),
                        },
                    ),
                    _ => None,
                }
            }
        },
    }
}

/// A status response that is written is read back, in the form that its version
/// keeps.
pub proof fn law_status_response_round_trips(m: StatusResponseView)
    requires
        m.sendable(),
    ensures
        parsed_status_response(m.bytes()) == Some(m.canon()),
        message_len(m.header, m.body()) == m.len(),
{
    let s = m.bytes();
    let v = m.header.version;
    let p = header_size(v);
    lemma_status_body_len(m);
    law_written_message_verifies(m.header, m.body());
    assert(s.subrange(p, s.len() as int) =~= s.skip(p));
    assert(stands_at(s, p, m.body()));
    let ago = m.last_received_ago;
    let a = le64(m.query_decree);
    let b = m.query_ballot.bytes(v);
    let c = le64(ago as u64);
    let d = le64(m.min_decree_in_log);
    let e = le64(m.checkpointed_decree);
    let f = le64(m.checkpoint_size);
    let g = m.max_ballot.bytes(v);
    let h = le32(m.state);
    lemma_stands_at_sum(s, p, a + b + c + d + e + f + g, h);
    lemma_stands_at_sum(s, p, a + b + c + d + e + f, g);
    lemma_stands_at_sum(s, p, a + b + c + d + e, f);
    lemma_stands_at_sum(s, p, a + b + c + d, e);
    lemma_stands_at_sum(s, p, a + b + c, d);
    lemma_stands_at_sum(s, p, a + b, c);
    lemma_stands_at_sum(s, p, a, b);
    let q = p + 12 + id_size(v);
    lemma_u64_at(s, p, m.query_decree);
    law_ballot_round_trips(s, p + 8, m.query_ballot, v);
    lemma_u64_at(s, q, ago as u64);
    lemma_u64_at(s, q + 8, m.min_decree_in_log);
    lemma_u64_at(s, q + 16, m.checkpointed_decree);
    lemma_u64_at(s, q + 24, m.checkpoint_size);
    law_ballot_round_trips(s, q + 32, m.max_ballot, v);
    lemma_u32_at(s, q + 36 + id_size(v), m.state);
    assert((ago as u64) as i64 == ago) by (bit_vector);
}

proof fn lemma_status_body_len(m: StatusResponseView)
    requires
        m.writable(),
    ensures
        m.body().len() == status_body_len(m.header.version),
{
}

/// A status response that was read can be written again, and keeps its fields.
pub proof fn law_read_status_response_is_canonical(buf: Seq<u8>)
    requires
        parsed_status_response(buf) is Some,
    ensures
        ({
            let m = parsed_status_response(buf)->Some_0;
            let v = m.header.version;
            &&& m.sendable()
            &&& m.header.canon(m.header.un_marshal_len, m.header.checksum) == m.header
            &&& m.query_ballot.canon(v) == m.query_ballot
            &&& m.max_ballot.canon(v) == m.max_ballot
        }),
{
    law_read_header_is_canonical(buf, 0);
    let (h, p) = header_at(buf, 0)->Some_0;
    law_read_ballot_is_canonical(buf, p + 8, h.version);
    law_read_ballot_is_canonical(buf, p + 44 + id_size(h.version), h.version);
}

/// A member answers a status query.
#[derive(Debug)]
pub struct StatusResponse {
    /// The message header.
    pub header: Header,
    /// The decree of the last query.
    pub query_decree: u64,
    /// The ballot of the last query.
    pub query_ballot: BallotNumber,
    /// How long ago the last message came in.
    pub last_received_ago: i64,
    /// The first decree in the log.
    pub min_decree_in_log: u64,
    /// The decree of the checkpoint.
    pub checkpointed_decree: u64,
    /// The size of the checkpoint.
    pub checkpoint_size: u64,
    /// The highest ballot seen.
    pub max_ballot: BallotNumber,
    /// The state that the member is in.
    pub state: u32,
}

impl View for StatusResponse {
    type V = StatusResponseView;

    open spec fn view(&self) -> StatusResponseView {
        StatusResponseView {
            header: self.header@,
            query_decree: self.query_decree,
            query_ballot: self.query_ballot@,
            last_received_ago: self.last_received_ago,
            min_decree_in_log: self.min_decree_in_log,
            checkpointed_decree: self.checkpointed_decree,
            checkpoint_size: self.checkpoint_size,
            max_ballot: self.max_ballot@,
            state: self.state,
        }
    }
}

impl Clone for StatusResponse {
    fn clone(&self) -> (r: StatusResponse)
        ensures
            r@ == self@,
    {
        StatusResponse {
            header: self.header.clone(),
            query_decree: self.query_decree,
            query_ballot: self.query_ballot.clone(),
            last_received_ago: self.last_received_ago,
            min_decree_in_log: self.min_decree_in_log,
            checkpointed_decree: self.checkpointed_decree,
            checkpoint_size: self.checkpoint_size,
            max_ballot: self.max_ballot.clone(),
            state: self.state,
        }
    }
}

impl StatusResponse {
    /// Length of the whole message.
    pub fn marshal_len(&self) -> (r: u32)
        ensures
            r == self@.len(),
    {
        let v = self.header.version;
        8 + BallotNumber::base_size(v) + 32 + BallotNumber::base_size(v) + 4 + Header::base_size(v)
    }

    /// Writes the message, checksum included.
    pub fn marshal_with_checksum(&self) -> (r: Vec<u8>)
        requires
            self@.writable(),
        ensures
            r@ == self@.bytes(),
    {
        let v = self.header.version;
        let mut w = Writer::with_capacity(self.marshal_len() as usize);
        self.header.write(&mut w, self.marshal_len());
        let ghost head = w@;
        w.write_u64(self.query_decree);
        self.query_ballot.marshal(&mut w, v);
        w.write_u64(self.last_received_ago as u64);
        w.write_u64(self.min_decree_in_log);
        w.write_u64(self.checkpointed_decree);
        w.write_u64(self.checkpoint_size);
        self.max_ballot.marshal(&mut w, v);
        w.write_u32(self.state);
        proof {
            lemma_status_body_len(self@);
            lemma_sealed(self@.header, self@.body());
            assert(w@ =~= head + self@.body());
            assert(head =~= self@.header.bytes(self@.len() as u32));
        }
        super::finalize(w.into_bytes())
    }

    /// Reads a status response.
    pub fn unmarshal(buf: &[u8]) -> (r: Option<StatusResponse>)
        ensures
            view_opt(r) == parsed_status_response(buf@),
    {
        proof {
            if header_at(buf@, 0) is Some {
                law_read_header_is_canonical(buf@, 0);
            }
        }
        let mut r = Reader::new(buf);
        let header = Header::unmarshal(&mut r)?;
        if header.msg_id != MSG_STATUS_RESPONSE {
            return None;
        }
        let v = header.version;
        let query_decree = r.read_u64()?;
        let query_ballot = BallotNumber::unmarshal(&mut r, v)?;
        let ago = r.read_u64()?;
        let min_decree_in_log = r.read_u64()?;
        let checkpointed_decree = r.read_u64()?;
        let checkpoint_size = r.read_u64()?;
        let max_ballot = BallotNumber::unmarshal(&mut r, v)?;
        let state = r.read_u32()?;
        Some(
            StatusResponse {
                header,
                query_decree,
                query_ballot,
                last_received_ago: ago as i64,
                min_decree_in_log,
                checkpointed_decree,
                checkpoint_size,
                max_ballot,
                state,
            },
        )
    }
}

} // verus!
