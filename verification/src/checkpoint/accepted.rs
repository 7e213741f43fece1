//! What holds of checkpoints that a reader accepts.

use vstd::prelude::*;

use super::blocks::{
    block_step, law_block_count_gives_the_state_size, law_changed_block_is_rejected,
    law_state_reads_back, state_in, stored_state, user_size,
};
use super::header::{
    bare_header, checked_vote_at, fields_at, fields_end, law_checkpoint_header_round_trips,
    law_header_takes_whole_pages, lemma_fields_len, lemma_fields_prefix, lemma_fields_round_trip,
    lemma_vote_bytes_len, lemma_vote_prefix, not_below, parsed_checkpoint, CheckpointView,
};
use super::laws::{lemma_canon_len, lemma_front_of_sum, lemma_state_fits, lemma_verified};
use super::reader::{block_size_of, body_of, declared_len, header_of, header_span, verified};
use super::writer::{checkpoint_file, create_refusal, finished_header};
use super::RejectReason;
use crate::bytes::{le16, le32, lemma_u16_at, lemma_u32_at, u16_at, u32_at, u64_at};
use crate::messages::{
    front_bytes, law_accepted_vote_is_sendable, law_read_vote_is_canonical, law_vote_len,
    lemma_accepted_header, lemma_vote_canon_bytes, lemma_vote_is_local, message_checksum,
    parsed_vote, VoteView,
};
use crate::source::at_most;
use crate::types::{
    id_canon, id_clean, id_size, law_member_set_is_local, law_read_ballot_is_canonical,
    law_read_configuration_is_canonical, law_read_member_id_is_canonical, lemma_id_canon_bytes,
    lemma_member_set_canon_bytes, lemma_member_set_canon_len,
};
use crate::version::ProtocolVersion;
use crate::page_up;

verus! {

broadcast use crate::bytes::group_le_len;

impl CheckpointView {
    /// The header is written without an error.
    pub open spec fn written(self) -> bool {
        &&& self.writable()
        &&& self.measurable()
        &&& self.refusal() is None
    }

    /// The header is written as one of its version: before version 3 a header is
    /// its vote, and the vote is that old too.
    pub open spec fn plain(self) -> bool {
        &&& self.written()
        &&& self.version.num() < 3 ==> self.next_vote.header.version.num() < 3
    }

    /// What comes before the vote of the header can be read back: every length
    /// there fits its field and its limit.
    pub open spec fn framed(self) -> bool {
        &&& self.plain()
        &&& self.version.num() >= 3 ==> self.state_configuration->Some_0.fits()
    }

    /// The header `read` has the user state where this one has it.
    pub open spec fn lays_out_as(self, read: CheckpointView) -> bool {
        &&& read.len() == self.len()
        &&& block_size_of(read) == block_size_of(self)
        &&& self.blocks() ==> read.size == self.size
    }

    /// The version at the front of the header's bytes. Before version 3 they are
    /// those of the vote.
    pub open spec fn front_version(self) -> ProtocolVersion {
        if self.version.num() >= 3 {
            self.version
        } else {
            self.next_vote.header.version
        }
    }

    /// The ids that the header stores are clean: none holds a zero byte.
    pub open spec fn clean(self) -> bool {
        &&& self.next_vote.clean()
        &&& self.version.num() >= 3 ==> {
            &&& id_clean(self.member_id)
            &&& id_clean(self.max_ballot.member_id)
            &&& self.state_configuration->Some_0.member_set.clean()
        }
    }

    /// The ids that the header stores are written as a reader gives them: up to
    /// version 3 a decimal number without a leading zero, from version 4 a text
    /// without a zero byte.
    pub open spec fn canonical(self) -> bool {
        let m = self.next_vote;
        &&& self.clean()
        &&& id_canon(self.member_id, self.version) == self.member_id
        &&& self.max_ballot.canon(self.version) == self.max_ballot
        &&& m.header.ballot.canon(m.header.version) == m.header.ballot
    }

    /// Where the vote ends in the header.
    pub open spec fn vote_end(self) -> int {
        self.vote_offset() + self.next_vote.len()
    }
}

/// What a header's bytes start with.
proof fn lemma_front(h: CheckpointView)
    requires
        h.plain(),
    ensures
        h.bytes().len() == h.len(),
        h.bytes().len() >= 6,
        u16_at(h.bytes(), 0) == h.front_version().num(),
        ProtocolVersion::of_wire(u16_at(h.bytes(), 0)) == Some(h.front_version()),
        u32_at(h.bytes(), 2) == (if h.version.num() >= 3 {
            h.len()
        } else {
            h.next_vote.len() as int
        }),
{
    let b = h.bytes();
    let m = h.next_vote;
    law_header_takes_whole_pages(h);
    lemma_vote_bytes_len(m);
    lemma_fields_len(h);
    if h.version.num() >= 3 {
        reveal(CheckpointView::old_fields);
        let len = h.len() as u32;
        assert(b.subrange(0, 2) =~= le16(h.version.num()));
        assert(b.subrange(2, 6) =~= le32(len));
        lemma_u16_at(b, 0, h.version.num());
        lemma_u32_at(b, 2, len);
    } else {
        law_vote_len(m);
        let len = m.len() as u32;
        assert(m.bytes().take(6) =~= front_bytes(m.header.version, len));
        assert(b.take(6) =~= m.bytes().take(6));
        assert(b.subrange(0, 2) =~= b.take(6).subrange(0, 2));
        assert(b.subrange(2, 6) =~= b.take(6).subrange(2, 6));
        let front = front_bytes(m.header.version, len);
        assert(front.subrange(0, 2) =~= le16(m.header.version.num()));
        assert(front.subrange(2, 6) =~= le32(len));
        lemma_u16_at(b, 0, m.header.version.num());
        lemma_u32_at(b, 2, len);
    }

}

/// What a reader makes of a header that it accepts: the header's own fields, in
/// the form that its version keeps, and a vote that is as long as the header's.
pub(super) proof fn lemma_accepted_parts(h: CheckpointView, cut: int)
    requires
        h.framed(),
        h.vote_end() <= cut <= h.len(),
        parsed_checkpoint(h.bytes().take(cut)) is Some,
    ensures
        ({
            let s = h.bytes().take(cut);
            let p = parsed_checkpoint(s)->Some_0;
            &&& checked_vote_at(s, h.vote_offset()) == Some(p.next_vote)
            &&& parsed_vote(h.next_vote.bytes() + s.skip(h.vote_end())) == Some(p.next_vote)
            &&& p.next_vote.len() == h.next_vote.len()
            &&& h.version.num() >= 3 ==> p == (CheckpointView {
                next_vote: p.next_vote,
                ..h.canon()
            })
            &&& h.version.num() < 3 ==> p == bare_header(
                h.front_version(),
                p.next_vote,
            )
        }),
{
    reveal(parsed_checkpoint);
    let v = h.version;
    let m = h.next_vote;
    let s = h.bytes().take(cut);
    let start = h.vote_offset();
    law_header_takes_whole_pages(h);
    lemma_front(h);
    lemma_vote_bytes_len(m);
    lemma_fields_len(h);
    reveal(u16_at);
    assert(u16_at(s, 0) == u16_at(h.bytes(), 0));
    assert(s.subrange(0, start) =~= h.old_fields() + h.new_fields());
    let p = parsed_checkpoint(s)->Some_0;
    if v.num() >= 3 {
        lemma_fields_round_trip(s, h, arbitrary());
        lemma_fields_round_trip(s, h, p.next_vote);
    }
    let tail = s.skip(start + m.len());
    assert(s.skip(start) =~= m.bytes() + tail);
    law_read_vote_is_canonical(s.skip(start));
    lemma_accepted_header(m, tail);
}

/// Fields that end before `k` are read from the first `k` bytes as from all.
proof fn lemma_fields_local(s: Seq<u8>, k: int, v: ProtocolVersion, vote: VoteView)
    requires
        fields_at(s, v, vote) is Some,
        fields_at(s, v, vote)->Some_0.1 <= k <= s.len(),
    ensures
        fields_at(s.take(k), v, vote) == fields_at(s, v, vote),
{
    let t = s.take(k);
    let id = id_size(v);
    reveal(u32_at);
    reveal(u64_at);
    law_read_member_id_is_canonical(s, 14, v);
    law_read_ballot_is_canonical(s, 22 + id, v);
    law_read_configuration_is_canonical(s, 26 + 2 * id, v);
    if v.num() > 3 {
        assert(t.subrange(14, 78) =~= s.subrange(14, 78));
        assert(t.subrange(26 + id, 90 + id) =~= s.subrange(26 + id, 90 + id));
    }
    law_member_set_is_local(s, k, 38 + 2 * id, v);
}

/// Where the parts of a header that was read stand.
pub(super) proof fn lemma_read_parts(s: Seq<u8>)
    requires
        parsed_checkpoint(s) is Some,
    ensures
        ({
            let p = parsed_checkpoint(s)->Some_0;
            let v = p.version;
            &&& s.len() >= 2
            &&& ProtocolVersion::of_wire(u16_at(s, 0)) == Some(v)
            &&& v.num() >= 3 ==> {
                &&& fields_end(s, v) == Some(p.vote_offset())
                &&& fields_at(s, v, p.next_vote) == Some((p, p.vote_offset()))
                &&& not_below(p.max_ballot, p.next_vote.header.ballot)
            }
            &&& v.num() < 3 ==> p == bare_header(v, p.next_vote)
            &&& checked_vote_at(s, p.vote_offset()) == Some(p.next_vote)
            &&& p.next_vote.header.un_marshal_len == p.next_vote.len()
            &&& 0 <= p.vote_offset()
            &&& p.vote_end() <= s.len()
        }),
{
    reveal(parsed_checkpoint);
    let p = parsed_checkpoint(s)->Some_0;
    let v = p.version;
    if v.num() >= 3 {
        let start = fields_end(s, v)->Some_0;
        law_read_member_id_is_canonical(s, 14, v);
        law_read_ballot_is_canonical(s, 22 + id_size(v), v);
        law_read_configuration_is_canonical(s, 26 + 2 * id_size(v), v);
    }
    law_read_vote_is_canonical(s.skip(p.vote_offset()));
}

/// Whatever bytes a header is read from, it is read from those up to the end of
/// its vote. It cannot be read if they are cut off before that, and what follows
/// makes no difference.
#[verifier::spinoff_prover]
#[verifier::rlimit(60)]
pub proof fn law_read_header_ends_with_its_vote(s: Seq<u8>, cut: int)
    requires
        parsed_checkpoint(s) is Some,
        0 <= cut <= s.len(),
    ensures
        parsed_checkpoint(s)->Some_0.vote_end() <= s.len(),
        parsed_checkpoint(s.take(cut)) == (if cut < parsed_checkpoint(s)->Some_0.vote_end() {
            None
        } else {
            parsed_checkpoint(s)
        }),
{
    let p = parsed_checkpoint(s)->Some_0;
    let v = p.version;
    let t = s.take(cut);
    let start = p.vote_offset();
    lemma_read_parts(s);
    reveal(u16_at);
    if cut < p.vote_end() {
        if parsed_checkpoint(t) is Some {
            lemma_read_parts(t);
            assert(u16_at(t, 0) == u16_at(s, 0));
            if v.num() >= 3 {
                lemma_fields_prefix(s, cut, v);
            }
            lemma_vote_prefix(s, cut, start);
            assert(false);
        }
    } else {
        reveal(parsed_checkpoint);
        let n = p.next_vote.len() as int;
        law_read_vote_is_canonical(s.skip(start));
        assert(t.skip(start).take(n) =~= s.skip(start).take(n));
        lemma_vote_is_local(s.skip(start), t.skip(start));
        assert(t.subrange(start, start + n) =~= s.subrange(start, start + n));
        assert(u16_at(t, 0) == u16_at(s, 0));
        if v.num() >= 3 {
            lemma_fields_local(s, cut, v, arbitrary());
            lemma_fields_local(s, cut, v, p.next_vote);
        }
    }
}

/// The same of a header that is written and accepted, wherever the reader finds
/// the vote to end where it was written to end. It does where the lengths before
/// the vote fit their fields.
pub proof fn law_accepted_header_ends_with_its_vote(h: CheckpointView, cut: int)
    requires
        h.written(),
        parsed_checkpoint(h.bytes()) is Some,
        parsed_checkpoint(h.bytes())->Some_0.vote_end() == h.vote_end(),
        0 <= cut <= h.len(),
    ensures
        parsed_checkpoint(h.bytes().take(cut)) == (if cut < h.vote_end() {
            None
        } else {
            parsed_checkpoint(h.bytes())
        }),
{
    law_header_takes_whole_pages(h);
    law_read_header_ends_with_its_vote(h.bytes(), cut);
}

/// A header that a reader accepts keeps its fields and its place: what is read
/// has the version, length, decree, member and highest ballot of the header, in
/// the form that its version keeps, and takes the same room in the file.
pub proof fn law_accepted_header_keeps_its_fields(h: CheckpointView)
    requires
        h.framed(),
        parsed_checkpoint(h.bytes()) is Some,
    ensures
        ({
            let p = parsed_checkpoint(h.bytes())->Some_0;
            &&& h.bytes().len() == h.len()
            &&& h.len() % 512 == 0
            &&& p.version == h.front_version()
            &&& p.vote_offset() == h.vote_offset()
            &&& p.vote_end() == h.vote_end()
            &&& p.len() == h.len()
            &&& block_size_of(p) == block_size_of(h)
            &&& h.version.num() >= 4 ==> p.size == h.size
            &&& h.version.num() >= 3 ==> p == (CheckpointView {
                next_vote: p.next_vote,
                ..h.canon()
            })
        }),
{
    law_header_takes_whole_pages(h);
    assert(h.bytes().take(h.len()) =~= h.bytes());
    lemma_accepted_parts(h, h.len());
    if h.version.num() >= 3 {
        lemma_member_set_canon_len(h.state_configuration->Some_0.member_set, h.version);
    }
}

/// A header that a reader accepts can be stored, if the lengths of its vote fit
/// their fields too and its own version is the one that it is written with.
pub proof fn law_accepted_header_is_storable(h: CheckpointView)
    requires
        h.framed(),
        h.version == h.front_version(),
        h.next_vote.reconfigures()
            ==> h.next_vote.members_in_new_configuration->Some_0.fits(),
        parsed_checkpoint(h.bytes()) is Some,
    ensures
        h.storable(),
{
    reveal(parsed_checkpoint);
    let m = h.next_vote;
    let b = h.bytes();
    law_header_takes_whole_pages(h);
    assert(b.take(h.len()) =~= b);
    lemma_accepted_parts(h, h.len());
    let p = parsed_checkpoint(b)->Some_0;
    let tail = b.skip(h.vote_end());
    lemma_vote_bytes_len(m);
    lemma_accepted_header(m, tail);
    assert((m.bytes() + tail).take(m.len() as int) =~= m.bytes());
    assert(m.bytes().take(m.len() as int) =~= m.bytes());
    lemma_vote_is_local(m.bytes() + tail, m.bytes());
    law_accepted_vote_is_sendable(m);
    lemma_front(h);
}

/// What is read back of a header with clean ids is written as the same bytes.
pub proof fn law_clean_header_is_rewritten_alike(h: CheckpointView)
    requires
        h.storable(),
        h.clean(),
    ensures
        parsed_checkpoint(h.bytes()) == Some(h.canon()),
        h.canon().bytes() == h.bytes(),
        h.canon().len() == h.len(),
        h.canon().refusal() is None,
{
    let c = h.canon();
    let v = h.version;
    let m = h.next_vote;
    law_header_takes_whole_pages(h);
    law_checkpoint_header_round_trips(h, h.len());
    assert(h.bytes().take(h.len()) =~= h.bytes());
    lemma_canon_len(h);
    let sum = message_checksum(m.header, m.body());
    lemma_vote_canon_bytes(m, sum);
    law_vote_len(m);
    assert(m.canon(sum).bytes() == m.bytes());
    assert(c.old_fields() == h.old_fields()) by {
        reveal(CheckpointView::old_fields);
        if v.num() >= 3 {
            lemma_id_canon_bytes(h.member_id, v);
            lemma_id_canon_bytes(h.max_ballot.member_id, v);
            lemma_member_set_canon_bytes(h.state_configuration->Some_0.member_set, v);
        }
    }
    assert(c.new_fields() == h.new_fields()) by {
        reveal(CheckpointView::new_fields);
    }
}

/// The same of a header that a reader accepts: with clean ids, writing what was
/// read gives the same bytes again.
pub proof fn law_accepted_header_is_rewritten_alike(h: CheckpointView)
    requires
        h.framed(),
        h.next_vote.reconfigures()
            ==> h.next_vote.members_in_new_configuration->Some_0.fits(),
        h.clean(),
        parsed_checkpoint(h.bytes()) is Some,
    ensures
        parsed_checkpoint(h.bytes())->Some_0.bytes() == h.bytes(),
        parsed_checkpoint(h.bytes())->Some_0.refusal() is None,
{
    let g = CheckpointView { version: h.front_version(), ..h };
    assert(g.bytes() =~= h.bytes()) by {
        reveal(CheckpointView::old_fields);
        reveal(CheckpointView::new_fields);
    }
    law_accepted_header_is_storable(g);
    law_clean_header_is_rewritten_alike(g);
}

/// A header from version 3 on with canonical ids, whose lengths fit, whose vote a
/// reader accepts and whose highest ballot is not below that of the vote is read
/// back with its fields, and what was read is written as the same bytes.
pub proof fn law_canonical_header_comes_back(h: CheckpointView)
    requires
        h.version.num() >= 3,
        h.framed(),
        h.next_vote.reconfigures()
            ==> h.next_vote.members_in_new_configuration->Some_0.fits(),
        parsed_vote(h.next_vote.bytes()) is Some,
        not_below(h.max_ballot, h.next_vote.header.ballot),
        h.canonical(),
    ensures
        h.bytes().len() == h.len(),
        h.len() % 512 == 0,
        parsed_checkpoint(h.bytes()) is Some,
        ({
            let p = parsed_checkpoint(h.bytes())->Some_0;
            &&& p.version == h.version
            &&& p.un_marshal_len == h.len()
            &&& p.last_executed_decree == h.last_executed_decree
            &&& p.member_id == h.member_id
            &&& p.max_ballot == h.max_ballot
            &&& p.len() == h.len()
            &&& p.refusal() is None
            &&& p.bytes() == h.bytes()
        }),
{
    law_header_takes_whole_pages(h);
    law_accepted_vote_is_sendable(h.next_vote);
    law_clean_header_is_rewritten_alike(h);
}

/// The header of a file that starts with a header's bytes is what a reader makes
/// of those.
#[verifier::spinoff_prover]
#[verifier::rlimit(60)]
proof fn lemma_accepted_file_header(f: CheckpointView, stored: Seq<u8>)
    requires
        f.plain(),
        parsed_checkpoint(f.bytes()) is Some,
    ensures
        header_of(f.bytes() + stored, (f.bytes() + stored).len() as int) == Ok::<
            CheckpointView,
            RejectReason,
        >(parsed_checkpoint(f.bytes())->Some_0),
        header_span(f.bytes() + stored) == f.len(),
{
    let blob = f.bytes();
    let file = blob + stored;
    let n = f.len();
    law_header_takes_whole_pages(f);
    lemma_front(f);
    let cut = if f.version.num() >= 3 {
        n
    } else {
        f.next_vote.len() as int
    };
    if f.version.num() < 3 {
        law_accepted_header_keeps_its_fields(f);
    }
    law_read_header_ends_with_its_vote(blob, cut);
    assert(blob.take(n) =~= blob);
    lemma_front_of_sum(blob, stored);
    assert(declared_len(file) == n) by {
        if f.version.num() < 3 {
            assert(f.vote_offset() == 0);
            assert(n == page_up(page_up(f.next_vote.len())));
        }
    }
    assert(n >= 512);
    assert(file.take(n) =~= blob);
    assert(at_most(blob, cut) =~= blob.take(cut));
}

/// A finished checkpoint file whose header a reader accepts is accepted, and its
/// user state is read back, wherever the header that is read has the state where
/// it was written. It does where the lengths before its vote fit their fields.
pub proof fn law_accepted_checkpoint_reads_back(h: CheckpointView, state: Seq<u8>)
    requires
        finished_header(h, state).plain(),
        parsed_checkpoint(finished_header(h, state).bytes()) is Some,
        finished_header(h, state).lays_out_as(
            parsed_checkpoint(finished_header(h, state).bytes())->Some_0,
        ),
        create_refusal(h) is None,
        checkpoint_file(h, state).len() <= u64::MAX,
    ensures
        ({
            let file = checkpoint_file(h, state);
            let size = file.len() as int;
            let read = parsed_checkpoint(finished_header(h, state).bytes())->Some_0;
            &&& header_of(file, size) == Ok::<CheckpointView, RejectReason>(read)
            &&& header_span(file) == h.len()
            &&& body_of(file, read) == stored_state(state, block_size_of(h))
            &&& state_in(body_of(file, read), block_size_of(read)) == Ok::<
                Seq<u8>,
                RejectReason,
            >(state)
            &&& verified(file).reject is None
            &&& verified(file).user_data_size == state.len()
            &&& state.len() == (if read.blocks() {
                user_size(size - read.len(), read.checksum_block_size as int)
            } else {
                size - read.len()
            })
        }),
{
    let f = finished_header(h, state);
    let file = checkpoint_file(h, state);
    let stored = stored_state(state, block_size_of(h));
    assert(f.len() == h.len());
    assert(block_size_of(f) == block_size_of(h));
    law_header_takes_whole_pages(f);
    lemma_accepted_file_header(f, stored);
    let read = parsed_checkpoint(f.bytes())->Some_0;
    assert(body_of(file, read) =~= stored);
    law_state_reads_back(state, block_size_of(h));
    if h.blocks() {
        law_block_count_gives_the_state_size(state, h.checksum_block_size);
    }
    lemma_state_fits(state, block_size_of(h));
    lemma_verified(file, read, state);
}

/// A step looks at the bytes that it takes, and at how many there are.
proof fn lemma_step_is_local(rest: Seq<u8>, size: u32, i: int, byte: u8)
    requires
        block_step(rest, Some(size)) is Ok,
        block_step(rest, Some(size))->Ok_0 is Some,
        block_step(rest, Some(size))->Ok_0->Some_0.1 <= i < rest.len(),
    ensures
        block_step(rest.update(i, byte), Some(size)) == block_step(rest, Some(size)),
{
    let (data, n) = block_step(rest, Some(size))->Ok_0->Some_0;
    let bad = rest.update(i, byte);
    assert(bad.take(n - 8) =~= rest.take(n - 8));
    reveal(u64_at);
    assert(u64_at(bad, n - 8) == u64_at(rest, n - 8));
}

/// A byte that is changed anywhere in user state that is in blocks makes the
/// state unreadable.
pub proof fn law_changed_state_is_rejected(rest: Seq<u8>, size: u32, i: int, byte: u8)
    requires
        state_in(rest, Some(size)) is Ok,
        0 <= i < rest.len(),
        byte != rest[i],
    ensures
        state_in(rest.update(i, byte), Some(size)) == Err::<Seq<u8>, RejectReason>(
            RejectReason::BlockChecksum,
        ),
    decreases rest.len(),
{
    let bad = rest.update(i, byte);
    let (data, n) = block_step(rest, Some(size))->Ok_0->Some_0;
    if i < n {
        law_changed_block_is_rejected(rest, size, i, byte);
    } else {
        lemma_step_is_local(rest, size, i, byte);
        law_changed_state_is_rejected(rest.skip(n), size, i - n, byte);
        assert(bad.skip(n) =~= rest.skip(n).update(i - n, byte));
    }
}

/// A byte that is changed anywhere behind the header of a file in blocks that is
/// accepted makes it rejected.
#[verifier::spinoff_prover]
#[verifier::rlimit(60)]
pub proof fn law_changed_file_is_rejected(file: Seq<u8>, h: CheckpointView, i: int, byte: u8)
    requires
        header_of(file, file.len() as int) == Ok::<CheckpointView, RejectReason>(h),
        verified(file).reject is None,
        h.blocks(),
        header_span(file) <= i,
        h.len() <= i < file.len(),
        byte != file[i],
    ensures
        verified(file.update(i, byte)).reject == Some(RejectReason::BlockChecksum),
        verified(file.update(i, byte)).user_data_size == 0,
{
    let bad = file.update(i, byte);
    let size = h.checksum_block_size;
    let body = body_of(file, h);
    lemma_front_kept(file, i, byte);
    assert(declared_len(bad) == declared_len(file));
    assert(header_span(bad) == header_span(file));
    assert(bad.take(header_span(file)) =~= file.take(header_span(file)));
    assert(header_of(bad, bad.len() as int) == header_of(file, file.len() as int));
    assert(body_of(bad, h) =~= body.update(i - h.len(), byte));
    law_changed_state_is_rejected(body, size, i - h.len(), byte);
}

proof fn lemma_front_kept(s: Seq<u8>, i: int, byte: u8)
    requires
        6 <= i < s.len(),
    ensures
        u16_at(s.update(i, byte), 0) == u16_at(s, 0),
        u32_at(s.update(i, byte), 2) == u32_at(s, 2),
{
    reveal(u16_at);
    reveal(u32_at);
}

/// A byte that is changed anywhere behind the header of a finished checkpoint in
/// blocks that is accepted, in its user state or in a checksum, makes the file
/// rejected, wherever the header that is read has blocks and ends no later than
/// the one that was written. It does where the lengths before its vote fit their
/// fields.
pub proof fn law_changed_checkpoint_is_rejected(
    h: CheckpointView,
    state: Seq<u8>,
    i: int,
    byte: u8,
)
    requires
        finished_header(h, state).plain(),
        parsed_checkpoint(finished_header(h, state).bytes()) is Some,
        parsed_checkpoint(finished_header(h, state).bytes())->Some_0.blocks(),
        parsed_checkpoint(finished_header(h, state).bytes())->Some_0.len() <= h.len(),
        verified(checkpoint_file(h, state)).reject is None,
        h.len() <= i < checkpoint_file(h, state).len(),
        byte != checkpoint_file(h, state)[i],
    ensures
        verified(checkpoint_file(h, state).update(i, byte)).reject == Some(
            RejectReason::BlockChecksum,
        ),
        verified(checkpoint_file(h, state).update(i, byte)).user_data_size == 0,
{
    let f = finished_header(h, state);
    assert(f.len() == h.len());
    lemma_accepted_file_header(f, stored_state(state, block_size_of(h)));
    let read = parsed_checkpoint(f.bytes())->Some_0;
    law_changed_file_is_rejected(checkpoint_file(h, state), read, i, byte);
}

/// The lengths before the vote of a header fit their fields, and a reader accepts
/// the header. Then the user state is found where it was written, so the finished
/// checkpoint reads back, and no byte behind its header can be changed unnoticed.
pub proof fn law_framed_checkpoint_is_found(h: CheckpointView, state: Seq<u8>)
    requires
        finished_header(h, state).framed(),
        parsed_checkpoint(finished_header(h, state).bytes()) is Some,
    ensures
        finished_header(h, state).lays_out_as(
            parsed_checkpoint(finished_header(h, state).bytes())->Some_0,
        ),
        parsed_checkpoint(finished_header(h, state).bytes())->Some_0.vote_end() == h.vote_end(),
        parsed_checkpoint(finished_header(h, state).bytes())->Some_0.len() == h.len(),
        h.blocks() ==> parsed_checkpoint(finished_header(h, state).bytes())->Some_0.blocks(),
{
    law_accepted_header_keeps_its_fields(finished_header(h, state));
}

} // verus!
