//! The header of a checkpoint file.
//!
//! From version 3 on it starts with fields of its own: version, length,
//! checksum, member id, last executed decree, highest ballot and configuration.
//! From version 4 on these are followed by the saved flag, the file's size and
//! the block size. Then comes the next vote, a whole message. The header is
//! filled up with zeros to a page boundary. Before version 3 it is the vote and
//! nothing else.
//!
//! The checksum field is carried along and never checked. What protects the
//! header is the checksum of the vote.

use std::cmp::Ordering;

use vstd::prelude::*;

use super::WriteError;
use crate::bytes::{
    le16, le32, le64, lemma_stands_at_sum, lemma_u16_at, lemma_u32_at, lemma_u64_at, push_zeros,
    stands_at, u16_at, u32_at, u64_at, zeros,
};
use crate::marshal::{bool_bytes, view_opt, Reader, Writer};
use crate::messages::{
    checksum_ok, header_at, law_flipped_byte_is_caught, law_read_header_is_canonical,
    law_read_vote_is_canonical, law_vote_len, law_written_message_verifies, message_checksum,
    parsed_vote, verify_checksum, Vote, VoteView,
};
use crate::types::{
    ballot_at, ballot_order, configuration_at, id_at, id_bytes, id_canon, id_size, id_writable,
    law_ballot_round_trips, law_configuration_round_trips, law_member_id_round_trips,
    law_read_ballot_is_canonical, law_read_configuration_is_canonical,
    law_read_member_id_is_canonical, BallotNumber, BallotView, ConfigurationInfo, ConfigurationView,
    MemberId,
};
use crate::version::ProtocolVersion;
use crate::{page_up, CHECKSUM_BLOCK_SIZE};

verus! {

broadcast use crate::bytes::group_le_len;

/// A checkpoint header as plain values.
pub struct CheckpointView {
    /// Protocol version.
    pub version: ProtocolVersion,
    /// Length of the header in the file.
    pub un_marshal_len: u32,
    /// Carried along and never checked.
    pub checksum: u64,
    /// The member that made the checkpoint.
    pub member_id: Seq<u8>,
    /// The last decree that is in the checkpoint.
    pub last_executed_decree: u64,
    /// The highest ballot that the member had seen.
    pub max_ballot: BallotView,
    /// The configuration, from version 3 on.
    pub state_configuration: Option<ConfigurationView>,
    /// The vote behind the checkpoint.
    pub next_vote: VoteView,
    /// Whether the application's state is in the file.
    pub state_saved: bool,
    /// Size of the whole file, from version 4 on.
    pub size: u64,
    /// Size of a block, from version 4 on. With zero the state is not in
    /// blocks.
    pub checksum_block_size: u32,
}

impl CheckpointView {
    /// A configuration that the version needs is missing.
    pub open spec fn lacks_configuration(self) -> bool {
        self.version.num() >= 3 && self.state_configuration is None
    }

    /// Offset of the vote in the header.
    pub open spec fn vote_offset(self) -> int {
        let v = self.version;
        (if v.num() >= 3 {
            26 + 2 * id_size(v) + self.state_configuration->Some_0.len(v)
        } else {
            0
        }) + (if v.num() >= 4 {
            13int
        } else {
            0
        })
    }

    /// Length of the header in the file: whole pages.
    pub open spec fn len(self) -> int {
        page_up(self.vote_offset() + page_up(self.next_vote.len()))
    }

    /// The member ids of the header can be written at its version, and those of
    /// the vote at the vote's.
    pub open spec fn writable(self) -> bool {
        let v = self.version;
        &&& self.next_vote.writable()
        &&& v.num() >= 3 ==> {
            &&& id_writable(self.member_id, v)
            &&& self.max_ballot.writable(v)
            &&& self.state_configuration is Some ==> self.state_configuration->Some_0.writable(v)
        }
    }

    /// The lengths of vote and configuration fit their fields.
    pub open spec fn measurable(self) -> bool {
        &&& self.next_vote.len() <= u32::MAX
        &&& self.state_configuration is Some ==> self.state_configuration->Some_0.len(self.version)
            <= u32::MAX
    }

    /// The fields that version 3 brought, on disk.
    #[verifier::opaque]
    pub open spec fn old_fields(self) -> Seq<u8> {
        let v = self.version;
        if v.num() >= 3 {
            le16(v.num()) + le32(self.len() as u32) + le64(self.checksum) + id_bytes(
                self.member_id,
                v,
            ) + le64(self.last_executed_decree) + self.max_ballot.bytes(v)
                + self.state_configuration->Some_0.bytes(v)
        } else {
            Seq::empty()
        }
    }

    /// The fields that version 4 brought, on disk.
    #[verifier::opaque]
    pub open spec fn new_fields(self) -> Seq<u8> {
        if self.version.num() >= 4 {
            bool_bytes(self.state_saved) + le64(self.size) + le32(self.checksum_block_size)
        } else {
            Seq::empty()
        }
    }

    /// The header on disk.
    pub open spec fn bytes(self) -> Seq<u8> {
        self.old_fields() + self.new_fields() + self.next_vote.bytes() + zeros(
            (self.len() - self.vote_offset() - self.next_vote.len()) as nat,
        )
    }

    /// The user state is in blocks that end in checksums.
    pub open spec fn blocks(self) -> bool {
        self.version.num() >= 4 && self.checksum_block_size > 0
    }

    /// Why the header is not written, if it is not.
    pub open spec fn refusal(self) -> Option<WriteError> {
        if self.lacks_configuration() {
            Some(WriteError::MissingConfiguration)
        } else if self.len() > u32::MAX {
            Some(WriteError::HeaderTooLarge)
        } else {
            match self.next_vote.refusal() {
                Some(e) => Some(WriteError::Vote(e)),
                None => None,
            }
        }
    }

    /// The header can be written and read back. The highest ballot must not be
    /// below that of the vote, in the forms that a reader makes of them.
    pub open spec fn storable(self) -> bool {
        let v = self.version;
        let w = self.next_vote.header.version;
        &&& self.writable()
        &&& self.measurable()
        &&& self.refusal() is None
        &&& self.next_vote.sendable()
        &&& if v.num() >= 3 {
            &&& self.state_configuration->Some_0.fits()
            &&& not_below(self.max_ballot.canon(v), self.next_vote.header.ballot.canon(w))
        } else {
            w == v
        }
    }

    /// The vote that a reader finds in the header.
    pub open spec fn vote_read(self) -> VoteView {
        let m = self.next_vote;
        m.canon(message_checksum(m.header, m.body()))
    }

    /// The header that a reader makes of those bytes.
    pub open spec fn canon(self) -> CheckpointView {
        let v = self.version;
        if v.num() >= 3 {
            CheckpointView {
                version: v,
                un_marshal_len: self.len() as u32,
                checksum: self.checksum,
                member_id: id_canon(self.member_id, v),
                last_executed_decree: self.last_executed_decree,
                max_ballot: self.max_ballot.canon(v),
                state_configuration: Some(self.state_configuration->Some_0.canon(v)),
                next_vote: self.vote_read(),
                state_saved: v.num() < 4 || self.state_saved,
                size: if v.num() >= 4 {
                    self.size
                } else {
                    0
                },
                checksum_block_size: if v.num() >= 4 {
                    self.checksum_block_size
                } else {
                    0
                },
            }
        } else {
            bare_header(v, self.vote_read())
        }
    }
}

/// `a` is no lower a ballot than `b`.
pub open spec fn not_below(a: BallotView, b: BallotView) -> bool {
    ballot_order(a, b) != Ordering::Less
}

/// The decree before `decree`. Before decree 0 comes the last one.
pub open spec fn decree_before(decree: u64) -> u64 {
    if decree == 0 {
        u64::MAX
    } else {
        (decree - 1) as u64
    }
}

/// The header of a file that holds a vote and nothing else.
pub open spec fn bare_header(v: ProtocolVersion, vote: VoteView) -> CheckpointView {
    CheckpointView {
        version: v,
        un_marshal_len: 0,
        checksum: 0,
        member_id: vote.header.member_id,
        last_executed_decree: decree_before(vote.header.decree),
        max_ballot: vote.header.ballot,
        state_configuration: None,
        next_vote: vote,
        state_saved: true,
        size: 0,
        checksum_block_size: 0,
    }
}

/// The vote that starts at `start`, if its checksum verifies.
pub open spec fn checked_vote_at(s: Seq<u8>, start: int) -> Option<VoteView> {
    match parsed_vote(s.skip(start)) {
        None => None,
        Some(vote) => if checksum_ok(
            s.subrange(start, start + vote.header.un_marshal_len),
        ) {
            Some(vote)
        } else {
            None
        },
    }
}

/// The fields that version 3 brought and where they end. The vote is not among
/// them, so `vote` takes its place.
pub open spec fn old_fields_at(s: Seq<u8>, v: ProtocolVersion, vote: VoteView) -> Option<
    (CheckpointView, int),
> {
    if 22 + id_size(v) > s.len() {
        None
    } else {
        match id_at(s, 14, v) {
            None => None,
            Some((member_id, p)) => match ballot_at(s, p + 8, v) {
                None => None,
                Some((max_ballot, q)) => match configuration_at(s, q, v) {
                    None => None,
                    Some((configuration, end)) => Some(
                        (
                            CheckpointView {
                                version: v,
                                un_marshal_len: u32_at(s, 2),
                                checksum: u64_at(s, 6),
                                member_id,
                                last_executed_decree: u64_at(s, p),
                                max_ballot,
                                state_configuration: Some(configuration),
                                next_vote: vote,
                                state_saved: true,
                                size: 0,
                                checksum_block_size: 0,
                            },
                            end,
                        ),
                    ),
                },
            },
        }
    }
}

/// All fields before the vote, and where they end.
pub open spec fn fields_at(s: Seq<u8>, v: ProtocolVersion, vote: VoteView) -> Option<
    (CheckpointView, int),
> {
    match old_fields_at(s, v, vote) {
        None => None,
        Some((h, q)) => if v.num() < 4 {
            Some((h, q))
        } else if q + 13 > s.len() {
            None
        } else {
            Some(
                (
                    CheckpointView {
                        state_saved: s[q] != 0,
                        size: u64_at(s, q + 1),
                        checksum_block_size: u32_at(s, q + 9),
                        ..h
                    },
                    q + 13,
                ),
            )
        },
    }
}

/// Where the fields before the vote end.
pub open spec fn fields_end(s: Seq<u8>, v: ProtocolVersion) -> Option<int> {
    match fields_at(s, v, arbitrary()) {
        Some((_, end)) => Some(end),
        None => None,
    }
}

/// The header that `s` is. The checksum of its vote must verify, and its highest
/// ballot must not be below that of the vote.
#[verifier::opaque]
pub open spec fn parsed_checkpoint(s: Seq<u8>) -> Option<CheckpointView> {
    if s.len() < 2 {
        None
    } else {
        match ProtocolVersion::of_wire(u16_at(s, 0)) {
            None => None,
            Some(v) => if v.num() < 3 {
                match checked_vote_at(s, 0) {
                    Some(vote) => Some(bare_header(v, vote)),
                    None => None,
                }
            } else {
                match fields_end(s, v) {
                    None => None,
                    Some(start) => match checked_vote_at(s, start) {
                        None => None,
                        Some(vote) => {
                            let h = fields_at(s, v, vote)->Some_0.0;
                            if not_below(h.max_ballot, vote.header.ballot) {
                                Some(h)
                            } else {
                                None
                            }
                        },
                    },
                }
            },
        }
    }
}

/// The header of a checkpoint file.
///
/// The length and the size are stamped when the header and the file are
/// written, so what they hold before that does not matter.
#[derive(Debug)]
pub struct CheckpointHeader {
    /// Protocol version.
    pub version: ProtocolVersion,
    /// Length of the header in the file.
    pub un_marshal_len: u32,
    /// Carried along and never checked.
    pub checksum: u64,
    /// The member that made the checkpoint.
    pub member_id: MemberId,
    /// The last decree that is in the checkpoint.
    pub last_executed_decree: u64,
    /// The highest ballot that the member had seen.
    pub max_ballot: BallotNumber,
    /// The configuration, from version 3 on.
    pub state_configuration: Option<ConfigurationInfo>,
    /// The vote behind the checkpoint.
    pub next_vote: Vote,
    /// Whether the application's state is in the file.
    pub state_saved: bool,
    /// Size of the whole file, from version 4 on.
    pub size: u64,
    /// Size of a block, from version 4 on. With zero the state is not in
    /// blocks.
    pub checksum_block_size: u32,
}

impl View for CheckpointHeader {
    type V = CheckpointView;

    open spec fn view(&self) -> CheckpointView {
        CheckpointView {
            version: self.version,
            un_marshal_len: self.un_marshal_len,
            checksum: self.checksum,
            member_id: self.member_id@,
            last_executed_decree: self.last_executed_decree,
            max_ballot: self.max_ballot@,
            state_configuration: view_opt(self.state_configuration),
            next_vote: self.next_vote@,
            state_saved: self.state_saved,
            size: self.size,
            checksum_block_size: self.checksum_block_size,
        }
    }
}

impl Clone for CheckpointHeader {
    fn clone(&self) -> (r: CheckpointHeader)
        ensures
            r@ == self@,
    {
        let configuration = match &self.state_configuration {
            Some(c) => Some(c.clone()),
            None => None,
        };
        CheckpointHeader {
            version: self.version,
            un_marshal_len: self.un_marshal_len,
            checksum: self.checksum,
            member_id: self.member_id.clone(),
            last_executed_decree: self.last_executed_decree,
            max_ballot: self.max_ballot.clone(),
            state_configuration: configuration,
            next_vote: self.next_vote.clone(),
            state_saved: self.state_saved,
            size: self.size,
            checksum_block_size: self.checksum_block_size,
        }
    }
}

/// Whether `a` is a lower ballot than `b`.
fn is_below(a: &BallotNumber, b: &BallotNumber) -> (r: bool)
    ensures
        r == !not_below(a@, b@),
{
    match a.compare(b) {
        Ordering::Less => true,
        _ => false,
    }
}

fn before(decree: u64) -> (r: u64)
    ensures
        r == decree_before(decree),
{
    if decree == 0 {
        u64::MAX
    } else {
        decree - 1
    }
}

/// `x` rounded up to a page multiple.
fn page_up_u64(x: u64) -> (r: u64)
    requires
        x <= 0x1_0000_0000_0000,
    ensures
        r == page_up(x as int),
{
    (x + 511) / 512 * 512
}

impl CheckpointHeader {
    /// A header for the checkpoint before `next_vote`, at the vote's version and
    /// with its ballot.
    pub fn new(next_vote: Vote) -> (r: CheckpointHeader)
        ensures
            r@ == (CheckpointView {
                version: next_vote@.header.version,
                un_marshal_len: 0,
                checksum: 0,
                member_id: Seq::empty(),
                last_executed_decree: decree_before(next_vote@.header.decree),
                max_ballot: next_vote@.header.ballot,
                state_configuration: None,
                next_vote: next_vote@,
                state_saved: true,
                size: 0,
                checksum_block_size: if next_vote@.header.version.num() >= 4 {
                    CHECKSUM_BLOCK_SIZE
                } else {
                    0
                },
            }),
    {
        let version = next_vote.header.version;
        CheckpointHeader {
            version,
            un_marshal_len: 0,
            checksum: 0,
            member_id: MemberId::empty(),
            last_executed_decree: before(next_vote.header.decree),
            max_ballot: next_vote.header.ballot.clone(),
            state_configuration: None,
            next_vote,
            state_saved: true,
            size: 0,
            checksum_block_size: if version.has_checkpoint_blocks() {
                CHECKSUM_BLOCK_SIZE
            } else {
                0
            },
        }
    }

    /// Length of the header in the file. It is `None` if the header has no form
    /// on disk: a configuration is missing, or the length does not fit its
    /// field.
    pub fn marshal_len(&self) -> (r: Option<u32>)
        requires
            self@.measurable(),
        ensures
            r == (if self@.lacks_configuration() || self@.len() > u32::MAX {
                None
            } else {
                Some(self@.len() as u32)
            }),
    {
        let offset: u32 = match self.next_vote_offset() {
            Some(offset) => offset,
            None => {
                return None;
            },
        };
        let vote: u64 = page_up_u64(self.next_vote.marshal_len() as u64);
        let len: u64 = page_up_u64(offset as u64 + vote);
        if len > u32::MAX as u64 {
            None
        } else {
            Some(len as u32)
        }
    }

    /// Offset of the vote in the header. It is `None` if a configuration is
    /// missing, or the offset does not fit a `u32`.
    pub fn next_vote_offset(&self) -> (r: Option<u32>)
        requires
            self@.measurable(),
        ensures
            r == (if self@.lacks_configuration() || self@.vote_offset() > u32::MAX {
                None
            } else {
                Some(self@.vote_offset() as u32)
            }),
    {
        let v = self.version;
        let mut len: u64 = 0;
        if v.has_checkpoint_header() {
            let config: u32 = match &self.state_configuration {
                Some(c) => c.marshal_len(v),
                None => {
                    return None;
                },
            };
            len = 22 + MemberId::base_size(v) as u64 + BallotNumber::base_size(v) as u64
                + config as u64;
        }
        if v.has_checkpoint_blocks() {
            len = len + 13;
        }
        if len > u32::MAX as u64 {
            None
        } else {
            Some(len as u32)
        }
    }

    #[verifier::rlimit(40)]
    fn write_fields(&self, w: &mut Writer, marshal_len: u32)
        requires
            self@.writable(),
            !self@.lacks_configuration(),
            marshal_len == self@.len(),
        ensures
            final(w)@ == old(w)@ + self@.old_fields() + self@.new_fields(),
    {
        let v = self.version;
        let ghost start = w@;
        proof {
            reveal(CheckpointView::old_fields);
            reveal(CheckpointView::new_fields);
        }
        if v.has_checkpoint_header() {
            w.write_u16(v.raw());
            w.write_u32(marshal_len);
            w.write_u64(self.checksum);
            self.member_id.marshal(w, v);
            w.write_u64(self.last_executed_decree);
            self.max_ballot.marshal(w, v);
            match &self.state_configuration {
                Some(c) => {
                    c.marshal(w, v);
                },
                None => {},
            }
        }
        assert(w@ =~= start + self@.old_fields());
        if v.has_checkpoint_blocks() {
            w.write_bool(self.state_saved);
            w.write_u64(self.size);
            w.write_u32(self.checksum_block_size);
        }
        assert(w@ =~= start + self@.old_fields() + self@.new_fields());
    }

    /// Writes the header as it stands in the file, filled up with zeros to a
    /// page boundary.
    #[verifier::rlimit(40)]
    pub fn marshal(&self) -> (r: Result<Vec<u8>, WriteError>)
        requires
            self@.writable(),
            self@.measurable(),
        ensures
            match self@.refusal() {
                Some(e) => r == Err::<Vec<u8>, WriteError>(e),
                None => r is Ok && r->Ok_0@ == self@.bytes() && r->Ok_0@.len() == self@.len(),
            },
    {
        if self.version.has_checkpoint_header() && self.state_configuration.is_none() {
            return Err(WriteError::MissingConfiguration);
        }
        let marshal_len: u32 = match self.marshal_len() {
            Some(len) => len,
            None => {
                return Err(WriteError::HeaderTooLarge);
            },
        };
        let vote = match self.next_vote.marshal_with_checksum() {
            Ok(vote) => vote,
            Err(e) => {
                return Err(WriteError::Vote(e));
            },
        };
        let mut w = Writer::with_capacity(marshal_len as usize);
        self.write_fields(&mut w, marshal_len);
        w.write_data(vote.as_slice());
        let mut bytes = w.into_bytes();
        proof {
            law_vote_len(self@.next_vote);
            lemma_vote_bytes_len(self@.next_vote);
            lemma_fields_len(self@);
        }
        let filled: usize = bytes.len();
        push_zeros(&mut bytes, marshal_len as usize - filled);
        assert(bytes@ =~= self@.bytes());
        Ok(bytes)
    }

    /// Reads a header. `buf` must be the header and nothing else, as long as its
    /// length field says. It is `None` if something is missing, the vote's
    /// checksum does not verify, or the highest ballot is below the vote's.
    #[verifier::rlimit(40)]
    pub fn unmarshal(buf: &[u8]) -> (r: Option<CheckpointHeader>)
        ensures
            view_opt(r) == parsed_checkpoint(buf@),
    {
        proof {
            reveal(parsed_checkpoint);
        }
        let mut r = Reader::new(buf);
        let raw = r.read_u16()?;
        let version = ProtocolVersion::from_wire(raw)?;
        if !version.has_checkpoint_header() {
            let next_vote = read_vote(buf, 0)?;
            return Some(
                CheckpointHeader {
                    version,
                    un_marshal_len: 0,
                    checksum: 0,
                    member_id: next_vote.header.member_id.clone(),
                    last_executed_decree: before(next_vote.header.decree),
                    max_ballot: next_vote.header.ballot.clone(),
                    state_configuration: None,
                    next_vote,
                    state_saved: true,
                    size: 0,
                    checksum_block_size: 0,
                },
            );
        }
        let un_marshal_len = r.read_u32()?;
        let checksum = r.read_u64()?;
        let member_id = MemberId::unmarshal(&mut r, version)?;
        let last_executed_decree = r.read_u64()?;
        let max_ballot = BallotNumber::unmarshal(&mut r, version)?;
        let state_configuration = ConfigurationInfo::unmarshal(&mut r, version)?;
        let ghost anything: VoteView = arbitrary();
        assert(old_fields_at(buf@, version, anything) is Some);
        let mut state_saved = true;
        let mut size: u64 = 0;
        let mut checksum_block_size: u32 = 0;
        if version.has_checkpoint_blocks() {
            state_saved = r.read_bool()?;
            size = r.read_u64()?;
            checksum_block_size = r.read_u32()?;
        }
        let start = r.position();
        proof {
            use_type_invariant(&r);
            assert(fields_end(buf@, version) == Some(start as int));
        }
        let next_vote = read_vote(buf, start)?;
        if is_below(&max_ballot, &next_vote.header.ballot) {
            return None;
        }
        Some(
            CheckpointHeader {
                version,
                un_marshal_len,
                checksum,
                member_id,
                last_executed_decree,
                max_ballot,
                state_configuration: Some(state_configuration),
                next_vote,
                state_saved,
                size,
                checksum_block_size,
            },
        )
    }

    /// Whether the user state is in blocks that end in checksums. If not, it
    /// follows the header as it is.
    pub fn uses_blocks(&self) -> (r: bool)
        ensures
            r == self@.blocks(),
    {
        self.version.has_checkpoint_blocks() && self.checksum_block_size > 0
    }
}

/// Reads the vote that starts at `start`, and checks its checksum.
fn read_vote(buf: &[u8], start: usize) -> (r: Option<Vote>)
    requires
        start <= buf@.len(),
    ensures
        view_opt(r) == checked_vote_at(buf@, start as int),
{
    let rest = vstd::slice::slice_subrange(buf, start, buf.len());
    assert(rest@ =~= buf@.skip(start as int));
    let vote = Vote::unmarshal(rest)?;
    proof {
        law_read_vote_is_canonical(rest@);
    }
    let len: usize = vote.header.un_marshal_len as usize;
    let own = vstd::slice::slice_subrange(rest, 0, len);
    assert(own@ =~= buf@.subrange(start as int, start + len));
    if verify_checksum(own) {
        Some(vote)
    } else {
        None
    }
}

pub(super) proof fn lemma_vote_bytes_len(m: VoteView)
    requires
        m.writable(),
        m.refusal() is None,
        m.len() <= u32::MAX,
    ensures
        m.bytes().len() == m.len(),
{
    law_vote_len(m);
    crate::messages::lemma_message_bytes_len(m.header, m.body());
}

pub(super) proof fn lemma_fields_len(h: CheckpointView)
    requires
        h.writable(),
        !h.lacks_configuration(),
    ensures
        (h.old_fields() + h.new_fields()).len() == h.vote_offset(),
        h.version.num() < 3 ==> h.old_fields() + h.new_fields() == Seq::<u8>::empty(),
{
    reveal(CheckpointView::old_fields);
    reveal(CheckpointView::new_fields);
    if h.version.num() < 3 {
        assert(h.old_fields() + h.new_fields() =~= Seq::<u8>::empty());
    }
    if h.version.num() >= 3 {
        let c = h.state_configuration->Some_0;
        crate::types::law_member_set_len(c.member_set, h.version);
    }
}

/// A header takes whole pages, and as many bytes as it reports.
pub proof fn law_header_takes_whole_pages(h: CheckpointView)
    requires
        h.writable(),
        h.measurable(),
        h.refusal() is None,
    ensures
        h.bytes().len() == h.len(),
        h.len() % 512 == 0,
        h.vote_offset() + h.next_vote.len() <= h.len(),
{
    lemma_vote_bytes_len(h.next_vote);
    lemma_fields_len(h);
}

pub(super) proof fn lemma_fields_round_trip(s: Seq<u8>, h: CheckpointView, vote: VoteView)
    requires
        h.writable(),
        h.version.num() >= 3,
        h.state_configuration is Some,
        h.state_configuration->Some_0.fits(),
        stands_at(s, 0, h.old_fields() + h.new_fields()),
    ensures
        fields_at(s, h.version, vote) == Some(
            (CheckpointView { next_vote: vote, ..h.canon() }, h.vote_offset()),
        ),
        u16_at(s, 0) == h.version.num(),
        u32_at(s, 2) == h.len() as u32,
        26 <= s.len(),
{
    reveal(CheckpointView::old_fields);
    reveal(CheckpointView::new_fields);
    let v = h.version;
    let a = le16(v.num());
    let b = le32(h.len() as u32);
    let c = le64(h.checksum);
    let d = id_bytes(h.member_id, v);
    let e = le64(h.last_executed_decree);
    let f = h.max_ballot.bytes(v);
    let g = h.state_configuration->Some_0.bytes(v);
    let id = id_size(v);
    lemma_stands_at_sum(s, 0, h.old_fields(), h.new_fields());
    lemma_stands_at_sum(s, 0, a + b + c + d + e + f, g);
    lemma_stands_at_sum(s, 0, a + b + c + d + e, f);
    lemma_stands_at_sum(s, 0, a + b + c + d, e);
    lemma_stands_at_sum(s, 0, a + b + c, d);
    lemma_stands_at_sum(s, 0, a + b, c);
    lemma_stands_at_sum(s, 0, a, b);
    lemma_u16_at(s, 0, v.num());
    lemma_u32_at(s, 2, h.len() as u32);
    lemma_u64_at(s, 6, h.checksum);
    law_member_id_round_trips(s, 14, h.member_id, v);
    lemma_u64_at(s, 14 + id, h.last_executed_decree);
    law_ballot_round_trips(s, 22 + id, h.max_ballot, v);
    law_configuration_round_trips(s, 26 + 2 * id, h.state_configuration->Some_0, v);
    if v.num() >= 4 {
        let q = h.vote_offset() - 13;
        let x = bool_bytes(h.state_saved);
        let y = le64(h.size);
        let z = le32(h.checksum_block_size);
        lemma_stands_at_sum(s, q, x + y, z);
        lemma_stands_at_sum(s, q, x, y);
        assert(s.subrange(q, q + 1)[0] == x[0]);
        lemma_u64_at(s, q + 1, h.size);
        lemma_u32_at(s, q + 9, h.checksum_block_size);
    }
}

proof fn lemma_vote_found(s: Seq<u8>, start: int, m: VoteView)
    requires
        m.sendable(),
        stands_at(s, start, m.bytes()),
    ensures
        checked_vote_at(s, start) == Some(m.canon(message_checksum(m.header, m.body()))),
{
    law_vote_len(m);
    lemma_vote_bytes_len(m);
    law_written_message_verifies(m.header, m.body());
    let tail = s.skip(start + m.len());
    assert(s.skip(start) =~= m.bytes() + tail);
    crate::messages::law_vote_is_found_before_anything(m, tail);
}

/// A header that is written is read back, in the form that its version keeps.
pub proof fn law_checkpoint_header_round_trips(h: CheckpointView, cut: int)
    requires
        h.storable(),
        h.vote_offset() + h.next_vote.len() <= cut <= h.len(),
    ensures
        parsed_checkpoint(h.bytes().take(cut)) == Some(h.canon()),
        h.version.num() >= 3 ==> u32_at(h.bytes(), 2) == h.len(),
        h.version.num() < 3 ==> u32_at(h.bytes(), 2) == h.next_vote.len(),
        ProtocolVersion::of_wire(u16_at(h.bytes(), 0)) == Some(h.version),
{
    reveal(parsed_checkpoint);
    let v = h.version;
    let m = h.next_vote;
    law_header_takes_whole_pages(h);
    lemma_vote_bytes_len(m);
    lemma_fields_len(h);
    let s = h.bytes().take(cut);
    let fields = h.old_fields() + h.new_fields();
    let start = h.vote_offset();
    assert(s.subrange(0, start) =~= fields);
    assert(s.subrange(start, start + m.len()) =~= m.bytes());
    lemma_vote_found(s, start, m);
    law_vote_len(m);
    law_written_message_verifies(m.header, m.body());
    if v.num() >= 3 {
        lemma_fields_round_trip(s, h, h.vote_read());
        lemma_fields_round_trip(s, h, arbitrary());
        assert(h.bytes().subrange(0, start) =~= fields);
        lemma_fields_round_trip(h.bytes(), h, arbitrary());
    } else {
        law_read_header_is_canonical(m.bytes(), 0);
        reveal(u16_at);
        reveal(u32_at);
        assert(h.bytes().take(m.len()) =~= m.bytes());
        assert forall|i: int| 0 <= i < 6 implies h.bytes()[i] == m.bytes()[i] by {
            assert(h.bytes().take(m.len())[i] == m.bytes()[i]);
        }
        assert(u16_at(s, 0) == u16_at(m.bytes(), 0));
        assert(u16_at(h.bytes(), 0) == u16_at(m.bytes(), 0));
        assert(u32_at(h.bytes(), 2) == u32_at(m.bytes(), 2));
    }
}

/// A header that was read ends no further than its bytes go, so its lengths fit
/// their fields wherever the number of bytes does.
pub proof fn law_read_checkpoint_header_fits(s: Seq<u8>)
    requires
        parsed_checkpoint(s) is Some,
        s.len() <= u32::MAX,
    ensures
        ({
            let h = parsed_checkpoint(s)->Some_0;
            &&& h.measurable()
            &&& h.writable()
            &&& !h.lacks_configuration()
            &&& h.vote_offset() + h.next_vote.len() <= s.len()
            &&& ProtocolVersion::of_wire(u16_at(s, 0)) == Some(h.version)
        }),
{
    reveal(parsed_checkpoint);
    let h = parsed_checkpoint(s)->Some_0;
    let v = h.version;
    if v.num() < 3 {
        law_read_vote_is_canonical(s.skip(0));
    } else {
        let start = fields_end(s, v)->Some_0;
        law_read_member_id_is_canonical(s, 14, v);
        law_read_ballot_is_canonical(s, 22 + id_size(v), v);
        law_read_configuration_is_canonical(s, 26 + 2 * id_size(v), v);
        law_read_vote_is_canonical(s.skip(start));
    }
}

/// A header cannot be read if it is cut off before its vote ends.
#[verifier::spinoff_prover]
#[verifier::rlimit(60)]
pub proof fn law_cut_checkpoint_header_is_refused(h: CheckpointView, cut: int)
    requires
        h.storable(),
        0 <= cut < h.vote_offset() + h.next_vote.len(),
    ensures
        parsed_checkpoint(h.bytes().take(cut)) is None,
{
    reveal(parsed_checkpoint);
    let whole = h.bytes();
    let s = whole.take(cut);
    let v = h.version;
    law_header_takes_whole_pages(h);
    law_checkpoint_header_round_trips(h, h.len());
    assert(whole.take(h.len()) =~= whole);
    if parsed_checkpoint(s) is Some {
        let g = parsed_checkpoint(s)->Some_0;
        reveal(u16_at);
        assert(g.version == v);
        let start = h.vote_offset();
        let m = h.next_vote;
        lemma_vote_bytes_len(m);
        lemma_fields_len(h);
        assert(whole.subrange(0, start) =~= h.old_fields() + h.new_fields());
        assert(whole.subrange(start, start + m.len()) =~= m.bytes());
        lemma_vote_found(whole, start, m);
        law_read_vote_is_canonical(whole.skip(start));
        if v.num() >= 3 {
            lemma_fields_round_trip(whole, h, arbitrary());
            lemma_fields_prefix(whole, cut, v);
        }
        lemma_vote_prefix(whole, cut, start);
    }
}

pub(super) proof fn lemma_fields_prefix(s: Seq<u8>, k: int, v: ProtocolVersion)
    requires
        0 <= k <= s.len(),
        fields_end(s.take(k), v) is Some,
    ensures
        fields_end(s, v) == fields_end(s.take(k), v),
        0 <= fields_end(s, v)->Some_0 <= k,
{
    let t = s.take(k);
    let id = id_size(v);
    law_read_member_id_is_canonical(t, 14, v);
    law_read_ballot_is_canonical(t, 22 + id, v);
    law_read_configuration_is_canonical(t, 26 + 2 * id, v);
    crate::types::lemma_id_prefix(s, k, 14, v);
    crate::types::lemma_id_prefix(s, k, 26 + id, v);
    crate::types::law_member_set_prefix(s, k, 38 + 2 * id, v);
}

pub(super) proof fn lemma_vote_prefix(s: Seq<u8>, k: int, start: int)
    requires
        0 <= start <= k <= s.len(),
        checked_vote_at(s.take(k), start) is Some,
        checked_vote_at(s, start) is Some,
    ensures
        start + checked_vote_at(s, start)->Some_0.len() <= k,
{
    let t = s.take(k).skip(start);
    let u = s.skip(start);
    law_read_vote_is_canonical(t);
    law_read_vote_is_canonical(u);
    let (a, end) = header_at(t, 0)->Some_0;
    law_read_header_is_canonical(t, 0);
    assert(t.take(end) =~= u.take(end));
    crate::messages::law_header_is_local(t, u);
}

proof fn lemma_changed_vote(s: Seq<u8>, start: int, m: VoteView, i: int, byte: u8)
    requires
        m.sendable(),
        6 <= i < m.len(),
        byte != m.bytes()[i],
        stands_at(s, start, m.bytes().update(i, byte)),
    ensures
        checked_vote_at(s, start) is None,
{
    lemma_vote_bytes_len(m);
    law_vote_len(m);
    law_written_message_verifies(m.header, m.body());
    law_flipped_byte_is_caught(m.bytes(), i, byte);
    law_read_header_is_canonical(m.bytes(), 0);
    let own = s.subrange(start, start + m.len());
    let part = s.skip(start);
    reveal(u32_at);
    assert forall|j: int| 2 <= j < 6 implies part[j] == m.bytes()[j] by {
        assert(own[j] == m.bytes().update(i, byte)[j]);
    }
    assert(u32_at(part, 2) == u32_at(m.bytes(), 2));
    if checked_vote_at(s, start) is Some {
        law_read_header_is_canonical(part, 0);
    }
}

/// A byte of the vote that is changed behind the vote's length makes the header
/// unreadable.
#[verifier::spinoff_prover]
#[verifier::rlimit(60)]
pub proof fn law_changed_checkpoint_header_is_refused(h: CheckpointView, i: int, byte: u8)
    requires
        h.storable(),
        6 <= i < h.next_vote.len(),
        byte != h.bytes()[h.vote_offset() + i],
    ensures
        parsed_checkpoint(h.bytes().update(h.vote_offset() + i, byte)) is None,
{
    reveal(parsed_checkpoint);
    let start = h.vote_offset();
    let m = h.next_vote;
    let v = h.version;
    let good = h.bytes();
    let bad = good.update(start + i, byte);
    law_header_takes_whole_pages(h);
    lemma_vote_bytes_len(m);
    lemma_fields_len(h);
    assert(good.subrange(start, start + m.len()) =~= m.bytes());
    assert(good[start + i] == good.subrange(start, start + m.len())[i]);
    assert(bad.subrange(start, start + m.len()) =~= m.bytes().update(i, byte));
    lemma_changed_vote(bad, start, m, i, byte);
    law_checkpoint_header_round_trips(h, h.len());
    assert(good.take(h.len()) =~= good);
    reveal(u16_at);
    assert(u16_at(bad, 0) == u16_at(good, 0)) by {
        if v.num() >= 3 {
            assert(start >= 2);
        }
    }
    if v.num() >= 3 {
        assert(bad.subrange(0, start) =~= h.old_fields() + h.new_fields());
        lemma_fields_round_trip(bad, h, arbitrary());
    }
}

} // verus!
