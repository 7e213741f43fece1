//! The message by which a member joins: the port that it serves learners on, and
//! what its log and checkpoint hold. All versions send it alike.

use vstd::prelude::*;

use super::{
    header_at, header_size, law_read_header_is_canonical, law_written_message_verifies,
    lemma_sealed, message_bytes, message_checksum, message_len, Header, HeaderView, MAGIC, MSG_JOIN,
};
use crate::bytes::{
    le16, le64, lemma_stands_at_sum, lemma_u16_at, lemma_u64_at, stands_at, u16_at, u64_at,
};
use crate::marshal::{view_opt, Reader, Writer};

verus! {

broadcast use crate::bytes::group_le_len;

/// A join message as plain values.
pub struct JoinView {
    /// The message header.
    pub header: HeaderView,
    /// The port that the member serves learners on.
    pub learn_port: u16,
    /// The first decree in its log.
    pub min_decree_in_log: u64,
    /// The decree of its checkpoint.
    pub checkpointed_decree: u64,
    /// The size of its checkpoint.
    pub checkpoint_size: u64,
}

impl JoinView {
    /// The body on the wire.
    pub open spec fn body(self) -> Seq<u8> {
        le16(self.learn_port) + le64(self.min_decree_in_log) + le64(self.checkpointed_decree)
            + le64(self.checkpoint_size)
    }

    /// Number of bytes that the message takes.
    pub open spec fn len(self) -> int {
        header_size(self.header.version) + 26
    }

    /// The message on the wire.
    pub open spec fn bytes(self) -> Seq<u8> {
        message_bytes(self.header, self.body())
    }

    /// The message can be written and read back.
    pub open spec fn sendable(self) -> bool {
        &&& self.header.writable()
        &&& self.header.magic == MAGIC
        &&& self.header.msg_id == MSG_JOIN
    }

    /// The message that a reader makes of its bytes.
    pub open spec fn canon(self) -> JoinView {
        JoinView {
            header: self.header.canon(
                self.len() as u32,
                message_checksum(self.header, self.body()),
            ),
            ..self
        }
    }
}

/// The join message that a buffer starts with.
pub open spec fn parsed_join(buf: Seq<u8>) -> Option<JoinView> {
    match header_at(buf, 0) {
        None => None,
        Some((h, p)) => if h.msg_id != MSG_JOIN || p + 26 > buf.len() {
            None
        } else {
            Some(
                JoinView {
                    header: h,
                    learn_port: u16_at(buf, p),
                    min_decree_in_log: u64_at(buf, p + 2),
                    checkpointed_decree: u64_at(buf, p + 10),
                    checkpoint_size: u64_at(buf, p + 18),
                },
            )
        },
    }
}

/// A join message that is written is read back, in the form that its version
/// keeps.
pub proof fn law_join_round_trips(m: JoinView)
    requires
        m.sendable(),
    ensures
        parsed_join(m.bytes()) == Some(m.canon()),
        message_len(m.header, m.body()) == m.len(),
{
    let s = m.bytes();
    let p = header_size(m.header.version);
    law_written_message_verifies(m.header, m.body());
    assert(s.subrange(p, s.len() as int) =~= s.skip(p));
    assert(stands_at(s, p, m.body()));
    let a = le16(m.learn_port);
    let b = le64(m.min_decree_in_log);
    let c = le64(m.checkpointed_decree);
    let d = le64(m.checkpoint_size);
    lemma_stands_at_sum(s, p, a + b + c, d);
    lemma_stands_at_sum(s, p, a + b, c);
    lemma_stands_at_sum(s, p, a, b);
    lemma_u16_at(s, p, m.learn_port);
    lemma_u64_at(s, p + 2, m.min_decree_in_log);
    lemma_u64_at(s, p + 10, m.checkpointed_decree);
    lemma_u64_at(s, p + 18, m.checkpoint_size);
}

/// A join message that was read can be written again, and keeps its fields.
pub proof fn law_read_join_is_canonical(buf: Seq<u8>)
    requires
        parsed_join(buf) is Some,
    ensures
        ({
            let m = parsed_join(buf)->Some_0;
            &&& m.sendable()
            &&& m.header.canon(m.header.un_marshal_len, m.header.checksum) == m.header
        }),
{
    law_read_header_is_canonical(buf, 0);
}

/// A member joins the replica set.
#[derive(Debug)]
pub struct JoinMessage {
    /// The message header.
    pub header: Header,
    /// The port that the member serves learners on.
    pub learn_port: u16,
    /// The first decree in its log.
    pub min_decree_in_log: u64,
    /// The decree of its checkpoint.
    pub checkpointed_decree: u64,
    /// The size of its checkpoint.
    pub checkpoint_size: u64,
}

impl View for JoinMessage {
    type V = JoinView;

    open spec fn view(&self) -> JoinView {
        JoinView {
            header: self.header@,
            learn_port: self.learn_port,
            min_decree_in_log: self.min_decree_in_log,
            checkpointed_decree: self.checkpointed_decree,
            checkpoint_size: self.checkpoint_size,
        }
    }
}

impl Clone for JoinMessage {
    fn clone(&self) -> (r: JoinMessage)
        ensures
            r@ == self@,
    {
        JoinMessage {
            header: self.header.clone(),
            learn_port: self.learn_port,
            min_decree_in_log: self.min_decree_in_log,
            checkpointed_decree: self.checkpointed_decree,
            checkpoint_size: self.checkpoint_size,
        }
    }
}

impl JoinMessage {
    /// Length of the whole message.
    pub fn marshal_len(&self) -> (r: u32)
        ensures
            r == self@.len(),
    {
        Header::base_size(self.header.version) + 26
    }

    /// Writes the message, checksum included.
    pub fn marshal_with_checksum(&self) -> (r: Vec<u8>)
        requires
            self@.header.writable(),
        ensures
            r@ == self@.bytes(),
    {
        let mut w = Writer::with_capacity(self.marshal_len() as usize);
        self.header.write(&mut w, self.marshal_len());
        let ghost head = w@;
        w.write_u16(self.learn_port);
        w.write_u64(self.min_decree_in_log);
        w.write_u64(self.checkpointed_decree);
        w.write_u64(self.checkpoint_size);
        proof {
            lemma_sealed(self@.header, self@.body());
            assert(w@ =~= head + self@.body());
            assert(head =~= self@.header.bytes(self@.len() as u32));
        }
        super::finalize(w.into_bytes())
    }

    /// Reads a join message.
    pub fn unmarshal(buf: &[u8]) -> (r: Option<JoinMessage>)
        ensures
            view_opt(r) == parsed_join(buf@),
    {
        let mut r = Reader::new(buf);
        let header = Header::unmarshal(&mut r)?;
        if header.msg_id != MSG_JOIN {
            return None;
        }
        let learn_port = r.read_u16()?;
        let min_decree_in_log = r.read_u64()?;
        let checkpointed_decree = r.read_u64()?;
        let checkpoint_size = r.read_u64()?;
        Some(
            JoinMessage {
                header,
                learn_port,
                min_decree_in_log,
                checkpointed_decree,
                checkpoint_size,
            },
        )
    }
}

} // verus!
