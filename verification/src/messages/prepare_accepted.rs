//! The answer to a prepare. Its body is a complete vote, header included, whose
//! checksum field is left as it is: only the outer message is sealed, and its
//! checksum covers the vote.

use vstd::prelude::*;

use super::vote::{
    law_nested_vote_round_trips, law_read_vote_is_canonical, MarshalError, Vote, VoteView,
};
use super::{
    header_at, header_size, law_read_header_is_canonical, law_written_message_verifies,
    lemma_sealed, message_bytes, message_checksum, message_len, parsed_vote, Header, HeaderView,
    MAGIC, MSG_PREPARE_ACCEPTED,
};
use crate::marshal::{view_opt, Reader, Writer};

verus! {

broadcast use crate::bytes::group_le_len;

/// An accepted prepare as plain values.
pub struct PrepareAcceptedView {
    /// The message header.
    pub header: HeaderView,
    /// The vote that the member has accepted last.
    pub vote: VoteView,
}

impl PrepareAcceptedView {
    /// The body on the wire.
    pub open spec fn body(self) -> Seq<u8> {
        self.vote.raw_bytes()
    }

    /// Number of bytes that the message takes.
    pub open spec fn len(self) -> int {
        header_size(self.header.version) + self.vote.len()
    }

    /// The message on the wire.
    pub open spec fn bytes(self) -> Seq<u8> {
        message_bytes(self.header, self.body())
    }

    /// The message can be written and read back.
    pub open spec fn sendable(self) -> bool {
        &&& self.header.writable()
        &&& self.header.magic == MAGIC
        &&& self.header.msg_id == MSG_PREPARE_ACCEPTED
        &&& self.vote.sendable()
        &&& self.len() <= u32::MAX
    }

    /// The message that a reader makes of its bytes.
    pub open spec fn canon(self) -> PrepareAcceptedView {
        PrepareAcceptedView {
            header: self.header.canon(
                self.len() as u32,
                message_checksum(self.header, self.body()),
            ),
            vote: self.vote.canon(self.vote.header.checksum),
        }
    }
}

/// The accepted prepare that a buffer starts with.
pub open spec fn parsed_prepare_accepted(buf: Seq<u8>) -> Option<PrepareAcceptedView> {
    match header_at(buf, 0) {
        None => None,
        Some((h, p)) => if h.msg_id != MSG_PREPARE_ACCEPTED {
            None
        } else {
            match parsed_vote(buf.skip(p)) {
                Some(vote) => Some(PrepareAcceptedView { header: h, vote }),
                None => None,
            }
        },
    }
}

/// An accepted prepare that is written is read back, in the form that the
/// versions of message and vote keep.
pub proof fn law_prepare_accepted_round_trips(m: PrepareAcceptedView)
    requires
        m.sendable(),
    ensures
        parsed_prepare_accepted(m.bytes()) == Some(m.canon()),
        message_len(m.header, m.body()) == m.len(),
{
    let none = Seq::<u8>::empty();
    law_nested_vote_round_trips(m.vote, none);
    assert(m.vote.raw_bytes() + none =~= m.vote.raw_bytes());
    law_written_message_verifies(m.header, m.body());
}

/// An accepted prepare that was read can be written again, unless its vote
/// cannot be, and keeps its fields.
pub proof fn law_read_prepare_accepted_is_canonical(buf: Seq<u8>)
    requires
        parsed_prepare_accepted(buf) is Some,
    ensures
        ({
            let m = parsed_prepare_accepted(buf)->Some_0;
            &&& m.vote.refusal() is None && m.len() <= u32::MAX ==> m.sendable()
            &&& m.vote.refusal() is Some ==> m.vote.refusal() == Some(
                MarshalError::ReconfigurationVoteWithRequests,
            )
            &&& m.len() <= buf.len()
            &&& m.header.writable()
            &&& m.vote.writable()
            &&& m.header.canon(m.header.un_marshal_len, m.header.checksum) == m.header
            &&& m.vote.canon(m.vote.header.checksum) == m.vote
        }),
{
    law_read_header_is_canonical(buf, 0);
    let (h, p) = header_at(buf, 0)->Some_0;
    law_read_vote_is_canonical(buf.skip(p));
}

/// A prepare was accepted.
#[derive(Debug)]
pub struct PrepareAccepted {
    /// The message header.
    pub header: Header,
    /// The vote that the member has accepted last.
    pub vote: Vote,
}

impl View for PrepareAccepted {
    type V = PrepareAcceptedView;

    open spec fn view(&self) -> PrepareAcceptedView {
        PrepareAcceptedView { header: self.header@, vote: self.vote@ }
    }
}

impl Clone for PrepareAccepted {
    fn clone(&self) -> (r: PrepareAccepted)
        ensures
            r@ == self@,
    {
        PrepareAccepted { header: self.header.clone(), vote: self.vote.clone() }
    }
}

impl PrepareAccepted {
    /// Length of the whole message. It must fit the length field.
    pub fn marshal_len(&self) -> (r: u32)
        requires
            self@.len() <= u32::MAX,
        ensures
            r == self@.len(),
    {
        self.vote.marshal_len() + Header::base_size(self.header.version)
    }

    /// Writes the message, checksum included. It is refused where its vote is.
    pub fn marshal_with_checksum(&self) -> (r: Result<Vec<u8>, MarshalError>)
        requires
            self@.header.writable(),
            self@.vote.writable(),
            self@.len() <= u32::MAX,
        ensures
            match self@.vote.refusal() {
                Some(e) => r == Err::<Vec<u8>, MarshalError>(e),
                None => r is Ok && r->Ok_0@ == self@.bytes(),
            },
    {
        let mut w = Writer::with_capacity(self.marshal_len() as usize);
        self.header.write(&mut w, self.marshal_len());
        let ghost head = w@;
        match self.vote.write_to(&mut w) {
            Ok(_) => {
                proof {
                    super::vote::law_vote_len(self@.vote);
                    super::vote::lemma_raw_len(self@.vote);
                    lemma_sealed(self@.header, self@.body());
                    assert(w@ =~= head + self@.body());
                    assert(head =~= self@.header.bytes(self@.len() as u32));
                }
                Ok(super::finalize(w.into_bytes()))
            },
            Err(e) => Err(e),
        }
    }

    /// Reads an accepted prepare. Its vote starts right behind the header.
    pub fn unmarshal(buf: &[u8]) -> (r: Option<PrepareAccepted>)
        ensures
            view_opt(r) == parsed_prepare_accepted(buf@),
    {
        proof {
            if header_at(buf@, 0) is Some {
                law_read_header_is_canonical(buf@, 0);
            }
        }
        let mut r = Reader::new(buf);
        let header = Header::unmarshal(&mut r)?;
        if header.msg_id != MSG_PREPARE_ACCEPTED {
            return None;
        }
        let vote_start = r.read_pointer() as usize;
        let rest = vstd::slice::slice_subrange(buf, vote_start, buf.len());
        assert(rest@ =~= buf@.skip(vote_start as int));
        let vote = Vote::unmarshal(rest)?;
        Some(PrepareAccepted { header, vote })
    }
}

} // verus!
