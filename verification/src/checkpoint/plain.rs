//! What a reader gets of a checkpoint header, field by field.

use vstd::prelude::*;

use super::accepted::{
    law_accepted_checkpoint_reads_back, law_accepted_header_keeps_its_fields,
    law_framed_checkpoint_is_found, lemma_accepted_parts, lemma_read_parts,
};
use super::blocks::{state_in, stored_state};
use super::header::{
    law_checkpoint_header_round_trips, law_header_takes_whole_pages, parsed_checkpoint,
    CheckpointView,
};
use super::reader::{block_size_of, verified};
use super::sizes::{blocks_in, law_state_reads_if_every_block_verifies};
use super::writer::{checkpoint_file, finished_header};
use super::RejectReason;
use crate::bytes::{u16_at, u32_at, u64_at};
use crate::laws::{
    law_configuration_is_read_from_its_places, lemma_plain_id, lemma_plain_set, lemma_plain_vote,
    plain_id, plain_set, plain_vote, set_kept, vote_kept,
};
use crate::messages::{checksum_ok, message_checksum, parsed_vote};
use crate::types::{ballot_at, configuration_at, id_at, id_size};
use crate::version::ProtocolVersion;

verus! {

/// A header that can be stored and that every reader gives back: its ids are
/// plain, and so are its configuration and its vote; before version 3 the vote is
/// of the same version.
pub open spec fn plain_header_fields(h: CheckpointView) -> bool {
    let v = h.version;
    &&& plain_vote(h.next_vote)
    &&& h.len() <= 0xffff_ffff
    &&& v is V1 || v is V2 ==> h.next_vote.header.version == v
    &&& !(v is V1 || v is V2) ==> {
        &&& plain_id(h.member_id, v)
        &&& plain_id(h.max_ballot.member_id, v)
        &&& h.state_configuration is Some
        &&& plain_set(h.state_configuration->Some_0.member_set, v)
        &&& h.state_configuration->Some_0.len(v) <= 0xffff_ffff
    }
    &&& h.state_configuration is Some ==> h.state_configuration->Some_0.len(v) <= 0xffff_ffff
}

proof fn lemma_plain_fields(h: CheckpointView)
    requires
        plain_header_fields(h),
    ensures
        h.framed(),
        h.version == h.front_version(),
        h.next_vote.sendable(),
        vote_kept(h.next_vote, h.vote_read()),
        !(h.version is V1 || h.version is V2) ==> {
            &&& h.canon().member_id == h.member_id
            &&& h.canon().max_ballot == h.max_ballot
            &&& set_kept(
                h.state_configuration->Some_0.member_set,
                h.canon().state_configuration->Some_0.member_set,
                h.version,
            )
        },
{
    let m = h.next_vote;
    lemma_plain_vote(m, message_checksum(m.header, m.body()));
    if !(h.version is V1 || h.version is V2) {
        lemma_plain_id(h.member_id, h.version);
        lemma_plain_id(h.max_ballot.member_id, h.version);
        lemma_plain_set(h.state_configuration->Some_0.member_set, h.version);
    }
}

/// A plain header whose highest ballot is the vote's ballot, or one of a higher
/// round, is read back field by field. Version 4 brought the mark of a saved
/// state, the size of the file and the size of its blocks. A header before version 3
/// has nothing but its vote: the last decree of the checkpoint is the one before
/// the vote's.
#[verifier::rlimit(40)]
pub proof fn law_plain_checkpoint_header_comes_back(h: CheckpointView)
    requires
        plain_header_fields(h),
        h.version is V1 || h.version is V2 || h.max_ballot.ballot_id
            > h.next_vote.header.ballot.ballot_id || h.max_ballot == h.next_vote.header.ballot,
    ensures
        parsed_checkpoint(h.bytes()) is Some,
        ({
            let p = parsed_checkpoint(h.bytes())->Some_0;
            let v = h.version;
            &&& p.version == v
            &&& vote_kept(h.next_vote, p.next_vote)
            &&& !(v is V1 || v is V2) ==> {
                &&& p.un_marshal_len == h.bytes().len()
                &&& p.checksum == h.checksum
                &&& p.member_id == h.member_id
                &&& p.last_executed_decree == h.last_executed_decree
                &&& p.max_ballot == h.max_ballot
                &&& p.state_configuration is Some
                &&& p.state_configuration->Some_0.configuration_number
                    == h.state_configuration->Some_0.configuration_number
                &&& p.state_configuration->Some_0.initial_decree
                    == h.state_configuration->Some_0.initial_decree
                &&& set_kept(
                    h.state_configuration->Some_0.member_set,
                    p.state_configuration->Some_0.member_set,
                    v,
                )
            }
            &&& v is V4 || v is V5 || v is V6 ==> {
                &&& p.state_saved == h.state_saved
                &&& p.size == h.size
                &&& p.checksum_block_size == h.checksum_block_size
            }
            &&& !(v is V4 || v is V5 || v is V6) ==> {
                &&& p.state_saved
                &&& p.size == 0
                &&& p.checksum_block_size == 0
            }
            &&& v is V1 || v is V2 ==> {
                &&& p.member_id == h.next_vote.header.member_id
                &&& p.max_ballot == h.next_vote.header.ballot
                &&& p.state_configuration is None
                &&& (p.last_executed_decree + 1) % 0x1_0000_0000_0000_0000
                    == h.next_vote.header.decree
            }
        }),
{
    lemma_plain_fields(h);
    law_header_takes_whole_pages(h);
    assert(h.storable()) by {
        if !(h.version is V1 || h.version is V2) {
            let b = h.next_vote.header.ballot;
            assert(h.vote_read().header.ballot == b);
            if h.max_ballot == b {
                crate::types::law_member_id_order_is_total(b.member_id, b.member_id, b.member_id);
            }
        }
    }
    law_checkpoint_header_round_trips(h, h.len());
    assert(h.bytes().take(h.len()) =~= h.bytes());
}

/// A header whose highest ballot is of a lower round than its vote's ballot is
/// refused, and so is one of the same round whose owner comes before.
#[verifier::rlimit(40)]
pub proof fn law_low_ballot_is_refused(h: CheckpointView, i: int)
    requires
        plain_header_fields(h),
        !(h.version is V1 || h.version is V2),
        ({
            let a = h.max_ballot;
            let b = h.next_vote.header.ballot;
            ||| a.ballot_id < b.ballot_id
            ||| a.ballot_id == b.ballot_id && a.member_id.len() < b.member_id.len()
            ||| a.ballot_id == b.ballot_id && a.member_id.len() == b.member_id.len() && 0 <= i
                < a.member_id.len() && a.member_id[i] < b.member_id[i] && forall|j: int|
                0 <= j < i ==> a.member_id[j] == b.member_id[j]
        }),
    ensures
        parsed_checkpoint(h.bytes()) is None,
{
    if parsed_checkpoint(h.bytes()) is Some {
        lemma_plain_fields(h);
        law_header_takes_whole_pages(h);
        let s = h.bytes();
        assert(s.take(h.len()) =~= s);
        law_accepted_header_keeps_its_fields(h);
        lemma_read_parts(s);
        lemma_accepted_parts(h, h.len());
        let tail = s.skip(h.vote_end());
        crate::messages::law_vote_is_found_before_anything(h.next_vote, tail);
        let a = h.max_ballot;
        let b = h.next_vote.header.ballot;
        if a.ballot_id < b.ballot_id {
            crate::laws::law_ballot_round_comes_first(a, b);
        } else {
            crate::laws::law_ballots_of_one_round_order_by_owner(a, b, i);
        }
    }
}

/// A checkpoint that is written reads back: with a plain header and blocks of
/// whole pages, if it has any, the finished file is accepted, as long as its header
/// says, and the user state behind the header is the one that was written.
#[verifier::rlimit(40)]
pub proof fn law_plain_checkpoint_reads_back(h: CheckpointView, state: Seq<u8>)
    requires
        plain_header_fields(finished_header(h, state)),
        h.version is V1 || h.version is V2 || h.max_ballot.ballot_id
            > h.next_vote.header.ballot.ballot_id || h.max_ballot == h.next_vote.header.ballot,
        h.checksum_block_size % 512 == 0,
        checkpoint_file(h, state).len() <= u64::MAX,
    ensures
        ({
            let file = checkpoint_file(h, state);
            let blocks = (h.version is V4 || h.version is V5 || h.version is V6)
                && h.checksum_block_size > 0;
            let body = file.skip(h.len());
            let size = if blocks {
                Some(h.checksum_block_size)
            } else {
                None
            };
            &&& h.len() <= file.len()
            &&& verified(file).reject is None
            &&& verified(file).user_data_size == state.len()
            &&& state_in(body, size) == Ok::<Seq<u8>, RejectReason>(state)
            &&& !blocks ==> body == state
            &&& blocks ==> body.len() == state.len() + 8 * blocks_in(
                body.len() as int,
                h.checksum_block_size as int,
            )
        }),
{
    let f = finished_header(h, state);
    let file = checkpoint_file(h, state);
    assert(f.len() == h.len());
    law_plain_checkpoint_header_comes_back(f);
    lemma_plain_fields(f);
    law_header_takes_whole_pages(f);
    law_framed_checkpoint_is_found(h, state);
    law_accepted_checkpoint_reads_back(h, state);
    assert(file.skip(h.len()) =~= stored_state(state, block_size_of(h)));
    if h.blocks() {
        law_state_reads_if_every_block_verifies(file.skip(h.len()), h.checksum_block_size);
    }
}

/// A header before version 3 is a vote that verifies. What it lacks is read as a
/// saved state without a size and without blocks.
pub proof fn law_bare_header_is_read_from_its_vote(s: Seq<u8>, v: ProtocolVersion)
    requires
        s.len() >= 2,
        ProtocolVersion::of_wire(u16_at(s, 0)) == Some(v),
        v is V1 || v is V2,
    ensures
        ({
            let vote = parsed_vote(s);
            let len = vote->Some_0.header.un_marshal_len as int;
            let read = parsed_checkpoint(s);
            let h = read->Some_0;
            &&& read is Some <==> vote is Some && checksum_ok(s.take(len))
            &&& read is Some ==> {
                &&& h.version == v
                &&& h.next_vote == vote->Some_0
                &&& h.member_id == vote->Some_0.header.member_id
                &&& h.max_ballot == vote->Some_0.header.ballot
                &&& (h.last_executed_decree + 1) % 0x1_0000_0000_0000_0000
                    == vote->Some_0.header.decree
                &&& h.state_configuration is None
                &&& h.state_saved
                &&& h.size == 0
                &&& h.checksum_block_size == 0
            }
        }),
{
    reveal(parsed_checkpoint);
    assert(s.skip(0) =~= s);
    let len = parsed_vote(s)->Some_0.header.un_marshal_len as int;
    assert(s.subrange(0, len) =~= s.take(len));
}

/// A header from version 3 on is read from its fields, which stand behind one
/// another, and from the vote behind them, which must verify. A highest ballot of
/// a higher round than the vote's will do, and one of a lower round will not.
pub proof fn law_checkpoint_header_is_read_from_its_places(s: Seq<u8>, v: ProtocolVersion)
    requires
        s.len() >= 2,
        ProtocolVersion::of_wire(u16_at(s, 0)) == Some(v),
        !(v is V1 || v is V2),
    ensures
        ({
            let texts = v is V4 || v is V5 || v is V6;
            let id = if texts {
                64int
            } else {
                8
            };
            let member = id_at(s, 14, v);
            let ballot = ballot_at(s, 22 + id, v);
            let configuration = configuration_at(s, 26 + 2 * id, v);
            let q = configuration->Some_0.1;
            let start = if texts {
                q + 13
            } else {
                q
            };
            let vote = parsed_vote(s.skip(start));
            let len = vote->Some_0.header.un_marshal_len as int;
            let there = 22 + id <= s.len() && member is Some && ballot is Some && configuration
                is Some && start <= s.len() && vote is Some && checksum_ok(
                s.subrange(start, start + len),
            );
            let round = ballot->Some_0.0.ballot_id;
            let voted = vote->Some_0.header.ballot.ballot_id;
            let read = parsed_checkpoint(s);
            let h = read->Some_0;
            &&& read is Some ==> there && round >= voted
            &&& there && round > voted ==> read is Some
            &&& read is Some ==> {
                &&& h.version == v
                &&& h.un_marshal_len == u32_at(s, 2)
                &&& h.checksum == u64_at(s, 6)
                &&& h.member_id == member->Some_0.0
                &&& h.last_executed_decree == u64_at(s, 14 + id)
                &&& h.max_ballot == ballot->Some_0.0
                &&& h.state_configuration == Some(configuration->Some_0.0)
                &&& h.next_vote == vote->Some_0
                &&& texts ==> h.state_saved == (s[q] != 0) && h.size == u64_at(s, q + 1)
                    && h.checksum_block_size == u32_at(s, q + 9)
                &&& !texts ==> h.state_saved && h.size == 0 && h.checksum_block_size == 0
            }
        }),
{
    reveal(parsed_checkpoint);
    law_configuration_is_read_from_its_places(s, 26 + 2 * id_size(v), v);
}

} // verus!
