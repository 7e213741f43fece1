//! The message by which a member prepares to lead. Its body is the primary
//! cookie, sent from version 2 on.

use vstd::prelude::*;

use super::vote::{cookie_len, read_primary_cookie, write_primary_cookie};
use super::{
    cookie_at, cookie_bytes, cookie_canon, header_at, header_size, law_read_header_is_canonical,
    law_written_message_verifies, lemma_sealed, message_bytes, message_checksum, message_len,
    Header, HeaderView, MAGIC, MSG_PREPARE,
};
use crate::bytes::stands_at;
use crate::marshal::{law_string_round_trips, view_opt, Reader, Writer};

verus! {

broadcast use crate::bytes::group_le_len;

/// A prepare message as plain values.
pub struct PrepareView {
    /// The message header.
    pub header: HeaderView,
    /// The primary's cookie.
    pub primary_cookie: Seq<u8>,
}

impl PrepareView {
    /// The body on the wire.
    pub open spec fn body(self) -> Seq<u8> {
        cookie_bytes(self.primary_cookie, self.header.version)
    }

    /// Number of bytes that the message takes.
    pub open spec fn len(self) -> int {
        header_size(self.header.version) + cookie_len(self.primary_cookie, self.header.version)
    }

    /// The message on the wire.
    pub open spec fn bytes(self) -> Seq<u8> {
        message_bytes(self.header, self.body())
    }

    /// The message can be written and read back.
    pub open spec fn sendable(self) -> bool {
        &&& self.header.writable()
        &&& self.header.magic == MAGIC
        &&& self.header.msg_id == MSG_PREPARE
        &&& self.len() <= u32::MAX
    }

    /// The message that a reader makes of its bytes.
    pub open spec fn canon(self) -> PrepareView {
        PrepareView {
            header: self.header.canon(
                self.len() as u32,
                message_checksum(self.header, self.body()),
            ),
            primary_cookie: cookie_canon(self.primary_cookie, self.header.version),
        }
    }
}

/// The prepare message that a buffer starts with.
pub open spec fn parsed_prepare(buf: Seq<u8>) -> Option<PrepareView> {
    match header_at(buf, 0) {
        None => None,
        Some((h, p)) => if h.msg_id != MSG_PREPARE {
            None
        } else {
            match cookie_at(buf, p, h.version) {
                Some((cookie, _)) => Some(PrepareView { header: h, primary_cookie: cookie }),
                None => None,
            }
        },
    }
}

/// A prepare message that is written is read back, in the form that its version
/// keeps.
pub proof fn law_prepare_round_trips(m: PrepareView)
    requires
        m.sendable(),
    ensures
        parsed_prepare(m.bytes()) == Some(m.canon()),
        message_len(m.header, m.body()) == m.len(),
{
    let s = m.bytes();
    let v = m.header.version;
    let p = header_size(v);
    law_written_message_verifies(m.header, m.body());
    assert(s.subrange(p, s.len() as int) =~= s.skip(p));
    assert(stands_at(s, p, m.body()));
    if v.num() >= 2 {
        law_string_round_trips(s, p, m.primary_cookie);
    }
}

/// A prepare message that was read can be written again, and keeps its fields.
pub proof fn law_read_prepare_is_canonical(buf: Seq<u8>)
    requires
        parsed_prepare(buf) is Some,
    ensures
        ({
            let m = parsed_prepare(buf)->Some_0;
            &&& m.len() <= u32::MAX ==> m.sendable()
            &&& m.len() <= buf.len()
            &&& m.header.writable()
            &&& m.header.canon(m.header.un_marshal_len, m.header.checksum) == m.header
            &&& cookie_canon(m.primary_cookie, m.header.version) == m.primary_cookie
        }),
{
    law_read_header_is_canonical(buf, 0);
}

/// A member prepares to lead.
#[derive(Debug)]
pub struct PrepareMsg {
    /// The message header.
    pub header: Header,
    /// The primary's cookie, sent from version 2 on.
    pub primary_cookie: Vec<u8>,
}

impl View for PrepareMsg {
    type V = PrepareView;

    open spec fn view(&self) -> PrepareView {
        PrepareView { header: self.header@, primary_cookie: self.primary_cookie@ }
    }
}

impl Clone for PrepareMsg {
    fn clone(&self) -> (r: PrepareMsg)
        ensures
            r@ == self@,
    {
        PrepareMsg {
            header: self.header.clone(),
            primary_cookie: vstd::slice::slice_to_vec(self.primary_cookie.as_slice()),
        }
    }
}

impl PrepareMsg {
    /// Length of the whole message. It must fit the length field.
    pub fn marshal_len(&self) -> (r: u32)
        requires
            self@.len() <= u32::MAX,
        ensures
            r == self@.len(),
    {
        let cookie: u32 = if self.header.version.has_primary_cookie() {
            4 + self.primary_cookie.len() as u32
        } else {
            0
        };
        cookie + Header::base_size(self.header.version)
    }

    /// Writes the message, checksum included.
    pub fn marshal_with_checksum(&self) -> (r: Vec<u8>)
        requires
            self@.header.writable(),
            self@.len() <= u32::MAX,
        ensures
            r@ == self@.bytes(),
    {
        let mut w = Writer::with_capacity(self.marshal_len() as usize);
        self.header.write(&mut w, self.marshal_len());
        let ghost head = w@;
        if self.header.version.has_primary_cookie() {
            write_primary_cookie(&mut w, self.primary_cookie.as_slice());
        }
        proof {
            lemma_sealed(self@.header, self@.body());
            assert(w@ =~= head + self@.body());
            assert(head =~= self@.header.bytes(self@.len() as u32));
        }
        super::finalize(w.into_bytes())
    }

    /// Reads a prepare message.
    pub fn unmarshal(buf: &[u8]) -> (r: Option<PrepareMsg>)
        ensures
            view_opt(r) == parsed_prepare(buf@),
    {
        let mut r = Reader::new(buf);
        let header = Header::unmarshal(&mut r)?;
        if header.msg_id != MSG_PREPARE {
            return None;
        }
        let primary_cookie = if header.version.has_primary_cookie() {
            read_primary_cookie(&mut r)?
        } else {
            Vec::new()
        };
        Some(PrepareMsg { header, primary_cookie })
    }
}

} // verus!
