//! The message that starts a replica set. Its body is the member set.

use vstd::prelude::*;

use super::{
    header_at, header_size, law_read_header_is_canonical, law_written_message_verifies,
    lemma_sealed, message_bytes, message_checksum, message_len, Header, HeaderView, MAGIC,
    MSG_BOOTSTRAP,
};
use crate::bytes::stands_at;
use crate::marshal::{view_opt, Reader, Writer};
use crate::types::{
    law_member_set_len, law_member_set_round_trips, law_read_member_set_is_canonical, member_set_at,
    MemberSet, MemberSetView,
};

verus! {

broadcast use crate::bytes::group_le_len;

/// A bootstrap message as plain values.
pub struct BootstrapView {
    /// The message header.
    pub header: HeaderView,
    /// The replica set to start.
    pub member_set: MemberSetView,
}

impl BootstrapView {
    /// The body on the wire.
    pub open spec fn body(self) -> Seq<u8> {
        self.member_set.bytes(self.header.version)
    }

    /// Number of bytes that the message takes.
    pub open spec fn len(self) -> int {
        header_size(self.header.version) + self.member_set.len(self.header.version)
    }

    /// The message on the wire.
    pub open spec fn bytes(self) -> Seq<u8> {
        message_bytes(self.header, self.body())
    }

    /// The member ids of the message can be written at its version.
    pub open spec fn writable(self) -> bool {
        self.header.writable() && self.member_set.writable(self.header.version)
    }

    /// The message can be written and read back.
    pub open spec fn sendable(self) -> bool {
        &&& self.writable()
        &&& self.member_set.fits()
        &&& self.header.magic == MAGIC
        &&& self.header.msg_id == MSG_BOOTSTRAP
        &&& self.len() <= u32::MAX
    }

    /// The message that a reader makes of its bytes.
    pub open spec fn canon(self) -> BootstrapView {
        BootstrapView {
            header: self.header.canon(
                self.len() as u32,
                message_checksum(self.header, self.body()),
            ),
            member_set: self.member_set.canon(self.header.version),
        }
    }
}

/// The bootstrap message that a buffer starts with.
pub open spec fn parsed_bootstrap(buf: Seq<u8>) -> Option<BootstrapView> {
    match header_at(buf, 0) {
        None => None,
        Some((h, p)) => if h.msg_id != MSG_BOOTSTRAP {
            None
        } else {
            match member_set_at(buf, p, h.version) {
                Some((member_set, _)) => Some(BootstrapView { header: h, member_set }),
                None => None,
            }
        },
    }
}

/// A bootstrap message that is written is read back, in the form that its
/// version keeps.
pub proof fn law_bootstrap_round_trips(m: BootstrapView)
    requires
        m.sendable(),
    ensures
        parsed_bootstrap(m.bytes()) == Some(m.canon()),
        message_len(m.header, m.body()) == m.len(),
{
    let s = m.bytes();
    let v = m.header.version;
    let p = header_size(v);
    law_member_set_len(m.member_set, v);
    law_written_message_verifies(m.header, m.body());
    assert(s.subrange(p, s.len() as int) =~= s.skip(p));
    assert(stands_at(s, p, m.body()));
    law_member_set_round_trips(s, p, m.member_set, v);
}

/// A bootstrap message that was read can be written again, and keeps its
/// fields.
pub proof fn law_read_bootstrap_is_canonical(buf: Seq<u8>)
    requires
        parsed_bootstrap(buf) is Some,
    ensures
        ({
            let m = parsed_bootstrap(buf)->Some_0;
            let v = m.header.version;
            &&& m.len() <= u32::MAX ==> m.sendable()
            &&& m.len() <= buf.len()
            &&& m.writable()
            &&& m.header.canon(m.header.un_marshal_len, m.header.checksum) == m.header
            &&& m.member_set.canon(v) == m.member_set
        }),
{
    law_read_header_is_canonical(buf, 0);
    let (h, p) = header_at(buf, 0)->Some_0;
    law_read_member_set_is_canonical(buf, p, h.version);
}

/// Starts a replica set.
#[derive(Debug)]
pub struct BootstrapMsg {
    /// The message header.
    pub header: Header,
    /// The replica set to start.
    pub member_set: MemberSet,
}

impl View for BootstrapMsg {
    type V = BootstrapView;

    open spec fn view(&self) -> BootstrapView {
        BootstrapView { header: self.header@, member_set: self.member_set@ }
    }
}

impl Clone for BootstrapMsg {
    fn clone(&self) -> (r: BootstrapMsg)
        ensures
            r@ == self@,
    {
        BootstrapMsg { header: self.header.clone(), member_set: self.member_set.clone() }
    }
}

impl BootstrapMsg {
    /// Length of the whole message. It must fit the length field.
    pub fn marshal_len(&self) -> (r: u32)
        requires
            self@.len() <= u32::MAX,
        ensures
            r == self@.len(),
    {
        Header::base_size(self.header.version) + self.member_set.marshal_len(self.header.version)
    }

    /// Writes the message, checksum included.
    pub fn marshal_with_checksum(&self) -> (r: Vec<u8>)
        requires
            self@.writable(),
            self@.len() <= u32::MAX,
        ensures
            r@ == self@.bytes(),
    {
        let mut w = Writer::with_capacity(self.marshal_len() as usize);
        self.header.write(&mut w, self.marshal_len());
        let ghost head = w@;
        self.member_set.marshal(&mut w, self.header.version);
        proof {
            law_member_set_len(self@.member_set, self@.header.version);
            lemma_sealed(self@.header, self@.body());
            assert(w@ =~= head + self@.body());
            assert(head =~= self@.header.bytes(self@.len() as u32));
        }
        super::finalize(w.into_bytes())
    }

    /// Reads a bootstrap message.
    pub fn unmarshal(buf: &[u8]) -> (r: Option<BootstrapMsg>)
        ensures
            view_opt(r) == parsed_bootstrap(buf@),
    {
        let mut r = Reader::new(buf);
        let header = Header::unmarshal(&mut r)?;
        if header.msg_id != MSG_BOOTSTRAP {
            return None;
        }
        let member_set = MemberSet::unmarshal(&mut r, header.version)?;
        Some(BootstrapMsg { header, member_set })
    }
}

} // verus!
