//! What a finished checkpoint file is read back as.

use vstd::prelude::*;

use super::blocks::{law_state_reads_back, state_in, stored_state};
use super::header::{
    law_checkpoint_header_round_trips, law_header_takes_whole_pages, CheckpointView,
};
use super::reader::{
    block_size_of, body_fault, body_of, declared_len, header_of, header_span, verified,
};
use super::writer::{checkpoint_file, create_refusal, finished_header};
use super::RejectReason;
use crate::bytes::{u16_at, u32_at};

use crate::page_up;
use crate::source::at_most;

verus! {

/// What is read back of a header takes the same room in the file.
pub(crate) proof fn lemma_canon_len(h: CheckpointView)
    requires
        h.storable(),
    ensures
        h.canon().len() == h.len(),
        h.canon().vote_offset() == h.vote_offset(),
        h.canon().version == h.version,
        h.version.num() >= 4 ==> h.canon().size == h.size,
        block_size_of(h.canon()) == block_size_of(h),
{
    let v = h.version;
    let m = h.next_vote;
    crate::messages::lemma_vote_canon_len(m, 0);
    crate::messages::lemma_vote_canon_len(
        m,
        crate::messages::message_checksum(m.header, m.body()),
    );
    if v.num() >= 3 {
        crate::types::lemma_member_set_canon_len(h.state_configuration->Some_0.member_set, v);
    }
}

/// The header of a file that starts with a header's bytes is that header.
#[verifier::spinoff_prover]
#[verifier::rlimit(60)]
proof fn lemma_file_header(f: CheckpointView, stored: Seq<u8>)
    requires
        f.storable(),
    ensures
        header_of(f.bytes() + stored, (f.bytes() + stored).len() as int) == Ok::<
            CheckpointView,
            RejectReason,
        >(f.canon()),
        f.bytes().len() == f.len(),
{
    let blob = f.bytes();
    let file = blob + stored;
    law_header_takes_whole_pages(f);
    let n = f.len();
    let cut = if f.version.num() >= 3 {
        n
    } else {
        f.next_vote.len()
    };
    law_checkpoint_header_round_trips(f, cut);
    lemma_front_of_sum(blob, stored);
    assert(declared_len(file) == n) by {
        if f.version.num() < 3 {
            assert(f.vote_offset() == 0);
            assert(n == page_up(page_up(f.next_vote.len())));
        }
    }
    assert(header_span(file) == n);
    assert(file.take(n) =~= blob);
    assert(at_most(blob, cut) =~= blob.take(cut));
}

pub(super) proof fn lemma_front_of_sum(a: Seq<u8>, b: Seq<u8>)
    requires
        a.len() >= 6,
    ensures
        u16_at(a + b, 0) == u16_at(a, 0),
        u32_at(a + b, 2) == u32_at(a, 2),
{
    reveal(u16_at);
    reveal(u32_at);
}

pub(crate) proof fn lemma_checkpoint_reads_back(h: CheckpointView, state: Seq<u8>)
    requires
        finished_header(h, state).storable(),
        create_refusal(h) is None,
        checkpoint_file(h, state).len() <= u64::MAX,
    ensures
        ({
            let file = checkpoint_file(h, state);
            let size = file.len() as int;
            let read = finished_header(h, state).canon();
            &&& header_of(file, size) == Ok::<CheckpointView, RejectReason>(read)
            &&& read.len() == h.len()
            &&& body_of(file, read) == stored_state(state, block_size_of(h))
            &&& state_in(body_of(file, read), block_size_of(read)) == Ok::<
                Seq<u8>,
                RejectReason,
            >(state)
            &&& verified(file).reject is None
            &&& verified(file).user_data_size == state.len()
        }),
{
    let f = finished_header(h, state);
    let file = checkpoint_file(h, state);
    let stored = stored_state(state, block_size_of(h));
    assert(f.len() == h.len());
    assert(block_size_of(f) == block_size_of(h));
    lemma_canon_len(f);
    lemma_file_header(f, stored);
    let read = f.canon();
    assert(body_of(file, read) =~= stored);
    law_state_reads_back(state, block_size_of(h));
    lemma_state_fits(state, block_size_of(h));
    lemma_verified(file, read, state);
}

/// Stored state takes no less room than the state itself.
pub(super) proof fn lemma_state_fits(state: Seq<u8>, block_size: Option<u32>)
    requires
        block_size is Some ==> block_size->Some_0 > 8,
    ensures
        stored_state(state, block_size).len() >= state.len(),
{
    if block_size is Some {
        super::blocks::law_block_count_gives_the_state_size(state, block_size->Some_0);
    }
}

pub(super) proof fn lemma_verified(file: Seq<u8>, h: CheckpointView, state: Seq<u8>)
    requires
        header_of(file, file.len() as int) == Ok::<CheckpointView, RejectReason>(h),
        body_fault(h, file.len() as int) is None,
        state_in(body_of(file, h), block_size_of(h)) == Ok::<Seq<u8>, RejectReason>(state),
        state.len() <= u64::MAX,
    ensures
        verified(file).reject is None,
        verified(file).user_data_size == state.len(),
{
}

} // verus!
