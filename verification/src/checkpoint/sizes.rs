//! How long a checkpoint file is, how its user state is laid out, and which files
//! are rejected for that.

use vstd::arithmetic::div_mod::lemma_fundamental_div_mod_converse;
use vstd::prelude::*;

use super::blocks::{block_step, blocked, state_in, user_size};
use super::header::{parsed_checkpoint, CheckpointView};
use super::reader::{
    block_size_of, body_fault, body_of, header_of, header_span, header_there, said_len, verified,
};
use super::writer::create_refusal;
use super::{RejectReason, WriteError};
use crate::bytes::{
    le16, le32, le64, lemma_u16_at, lemma_u32_at, lemma_u64_at, u16_at, u32_at, u64_at,
};
use crate::fprint::fp;
use crate::laws::law_flag_is_one_byte;
use crate::source::at_most;
use crate::types::{id_bytes, id_size, id_writable};

verus! {

broadcast use crate::bytes::group_le_len;

/// A file without a whole page is short. One whose first two bytes are no version
/// is of none. One that is shorter than its header says, in whole pages, has lost
/// part of it.
pub proof fn law_broken_headers_are_told_apart(file: Seq<u8>)
    ensures
        ({
            let r = header_of(file, file.len() as int);
            let len = u32_at(file, 2) as int;
            let pages = if len <= 0xffff_fe00 {
                (len + 511) / 512 * 512
            } else {
                0xffff_fe00
            };
            &&& file.len() < 512 <==> r == Err::<CheckpointView, RejectReason>(
                RejectReason::ShortFile,
            )
            &&& file.len() >= 512 && !(1 <= u16_at(file, 0) <= 6) <==> r == Err::<
                CheckpointView,
                RejectReason,
            >(RejectReason::InvalidVersion)
            &&& file.len() >= 512 && 1 <= u16_at(file, 0) <= 6 && file.len() < pages <==> r
                == Err::<CheckpointView, RejectReason>(RejectReason::TruncatedHeader)
            &&& r is Ok ==> file.len() >= 512 && file.len() >= pages && 1 <= u16_at(file, 0) <= 6
            &&& r is Ok ==> parsed_checkpoint(
                at_most(
                    file.take(
                        if pages > 512 {
                            pages
                        } else {
                            512
                        },
                    ),
                    len,
                ),
            ) == Some(r->Ok_0)
        }),
{
}

/// A file with checksummed blocks that is accepted is just as long as its header
/// says, and one of another length is rejected for it.
pub proof fn law_accepted_file_has_its_size(file: Seq<u8>, h: CheckpointView)
    requires
        header_of(file, file.len() as int) == Ok::<CheckpointView, RejectReason>(h),
        h.version.num() >= 4,
        h.checksum_block_size > 0,
    ensures
        verified(file).reject is None ==> file.len() == h.size,
        file.len() != h.size && h.len() <= u32::MAX ==> verified(file).reject == Some(
            RejectReason::SizeMismatch,
        ),
{
}

proof fn lemma_same_front(a: Seq<u8>, b: Seq<u8>, n: int)
    requires
        6 <= n <= a.len(),
        n <= b.len(),
        a.take(n) == b.take(n),
    ensures
        u16_at(a, 0) == u16_at(b, 0),
        u32_at(a, 2) == u32_at(b, 2),
{
    reveal(u16_at);
    reveal(u32_at);
    assert forall|i: int| 0 <= i < 6 implies a[i] == b[i] by {
        assert(a[i] == a.take(n)[i]);
        assert(b[i] == b.take(n)[i]);
    }
}

/// No proper prefix of an accepted file with checksummed blocks is accepted, and
/// neither is the file with more bytes behind it.
pub proof fn law_file_of_another_length_is_rejected(
    file: Seq<u8>,
    h: CheckpointView,
    cut: int,
    more: Seq<u8>,
)
    requires
        header_of(file, file.len() as int) == Ok::<CheckpointView, RejectReason>(h),
        verified(file).reject is None,
        h.version.num() >= 4,
        h.checksum_block_size > 0,
        0 <= cut < file.len(),
        more.len() > 0,
    ensures
        verified(file.take(cut)).reject is Some,
        header_span(file) <= cut ==> verified(file.take(cut)).reject == Some(
            RejectReason::SizeMismatch,
        ),
        verified(file + more).reject == Some(RejectReason::SizeMismatch),
{
    let part = file.take(cut);
    let n = header_span(file);
    if cut >= 512 {
        assert(part.take(512) =~= file.take(512));
        lemma_same_front(part, file, 512);
        if cut >= n {
            assert(part.take(n) =~= file.take(n));
        }
    }
    let longer = file + more;
    assert(longer.take(512) =~= file.take(512));
    lemma_same_front(longer, file, 512);
    assert(longer.take(n) =~= file.take(n));
}

/// How many blocks of `size` bytes `total` bytes of a file make.
pub open spec fn blocks_in(total: int, size: int) -> int {
    (total + size - 1) / size
}

/// The smaller of two numbers.
pub open spec fn lesser(a: int, b: int) -> int {
    if a < b {
        a
    } else {
        b
    }
}

/// Block `k` of `rest` ends in the fingerprint of what it holds.
pub open spec fn block_verifies(rest: Seq<u8>, size: int, k: int) -> bool {
    let start = k * size;
    let end = lesser(start + size, rest.len() as int);
    end - start > 8 && u64_at(rest, end - 8) == fp(rest.subrange(start, end - 8))
}

proof fn lemma_word_behind(rest: Seq<u8>, n: int, pos: int)
    requires
        0 <= n,
        0 <= pos,
        n + pos + 8 <= rest.len(),
    ensures
        u64_at(rest.skip(n), pos) == u64_at(rest, n + pos),
{
    reveal(u64_at);
}

proof fn lemma_block_behind(rest: Seq<u8>, size: int, k: int)
    requires
        size > 8,
        rest.len() > size,
        0 <= k < blocks_in(rest.len() - size, size),
    ensures
        block_verifies(rest.skip(size), size, k) == block_verifies(rest, size, k + 1),
{
    let start = k * size;
    let n = rest.len() - size;
    assert((k + 1) * size == start + size) by (nonlinear_arith)
        requires
            start == k * size,
    ;
    assert(start >= 0) by (nonlinear_arith)
        requires
            k >= 0,
            size > 0,
            start == k * size,
    ;
    vstd::arithmetic::div_mod::lemma_fundamental_div_mod(n + size - 1, size);
    assert(start < n) by {
        let q = blocks_in(n, size);
        assert(k * size <= (q - 1) * size) by (nonlinear_arith)
            requires
                k <= q - 1,
                size > 0,
        ;
        assert((q - 1) * size == size * q - size) by (nonlinear_arith);
    }
    let end = lesser(start + size, n);
    if end - start > 8 {
        lemma_word_behind(rest, size, end - 8);
        assert(rest.skip(size).subrange(start, end - 8) =~= rest.subrange(
            start + size,
            end - 8 + size,
        ));
    }
}

proof fn lemma_blocks_step(n: int, size: int)
    requires
        size > 0,
        n > size,
    ensures
        blocks_in(n, size) == 1 + blocks_in(n - size, size),
        blocks_in(n - size, size) >= 1,
{
    let m = n - size + size - 1;
    vstd::arithmetic::div_mod::lemma_fundamental_div_mod(m, size);
    let q = m / size;
    let r = m % size;
    assert(m + size == size * (q + 1) + r) by (nonlinear_arith)
        requires
            m == size * q + r,
    ;
    lemma_fundamental_div_mod_converse(m + size, size, q + 1, r);
    assert(q >= 1) by (nonlinear_arith)
        requires
            m == size * q + r,
            r < size,
            m >= size,
            size > 0,
    ;
}

/// User state in blocks can be read if and only if every block verifies: its last
/// eight bytes are the fingerprint of those before them, of which there is one at
/// least. What is read is all but those eight bytes of each block.
#[verifier::spinoff_prover]
#[verifier::rlimit(60)]
pub proof fn law_state_reads_if_every_block_verifies(rest: Seq<u8>, size: u32)
    requires
        size > 8,
    ensures
        state_in(rest, Some(size)) is Ok <==> forall|k: int|
            0 <= k < blocks_in(rest.len() as int, size as int) ==> #[trigger] block_verifies(
                rest,
                size as int,
                k,
            ),
        state_in(rest, Some(size)) is Ok ==> state_in(rest, Some(size))->Ok_0.len() == rest.len()
            - 8 * blocks_in(rest.len() as int, size as int),
    decreases rest.len(),
{
    let s = size as int;
    let n = rest.len() as int;
    if n == 0 {
        lemma_fundamental_div_mod_converse(s - 1, s, 0, s - 1);
    } else if n <= s {
        lemma_fundamental_div_mod_converse(n + s - 1, s, 1, n - 1);
        assert(blocks_in(n, s) == 1);
        assert(0 * s == 0) by (nonlinear_arith);
        if n > 8 {
            assert(rest.subrange(0, n - 8) =~= rest.take(n - 8));
        }
        assert(block_verifies(rest, s, 0) <==> block_step(rest, Some(size)) is Ok);
        if block_step(rest, Some(size)) is Ok {
            assert(rest.skip(n) =~= Seq::<u8>::empty());
            assert(state_in(rest.skip(n), Some(size)) == Ok::<Seq<u8>, RejectReason>(
                Seq::empty(),
            ));
        } else {
            assert(!block_verifies(rest, s, 0));
        }
    } else {
        lemma_blocks_step(n, s);
        let tail = rest.skip(s);
        law_state_reads_if_every_block_verifies(tail, size);
        assert(0 * s == 0) by (nonlinear_arith);
        assert(rest.subrange(0, s - 8) =~= rest.take(s - 8));
        assert(block_verifies(rest, s, 0) <==> block_step(rest, Some(size)) is Ok);
        let q = blocks_in(n - s, s);
        assert forall|k: int| 0 <= k < q implies #[trigger] block_verifies(tail, s, k)
            == block_verifies(rest, s, k + 1) by {
            lemma_block_behind(rest, s, k);
        }
        if state_in(rest, Some(size)) is Ok {
            assert forall|k: int| 0 <= k < blocks_in(n, s) implies #[trigger] block_verifies(
                rest,
                s,
                k,
            ) by {
                if k > 0 {
                    assert(block_verifies(tail, s, k - 1));
                }
            }
        } else if forall|k: int|
            0 <= k < blocks_in(n, s) ==> #[trigger] block_verifies(rest, s, k) {
            assert(block_verifies(rest, s, 0));
            assert forall|k: int| 0 <= k < q implies #[trigger] block_verifies(tail, s, k) by {
                assert(block_verifies(rest, s, k + 1));
            }
        }
    }
}

/// Byte `i` of the user state that is read from blocks is the byte that stands in
/// block `i / (size - 8)`, at the same place as in the state.
#[verifier::spinoff_prover]
#[verifier::rlimit(60)]
pub proof fn law_read_state_is_what_the_blocks_hold(rest: Seq<u8>, size: u32, i: int)
    requires
        size > 8,
        state_in(rest, Some(size)) is Ok,
        0 <= i < state_in(rest, Some(size))->Ok_0.len(),
    ensures
        ({
            let room = size - 8;
            let at = i / room * size + i % room;
            &&& 0 <= at < rest.len()
            &&& state_in(rest, Some(size))->Ok_0[i] == rest[at]
        }),
    decreases rest.len(),
{
    let room = size - 8;
    let (data, n) = block_step(rest, Some(size))->Ok_0->Some_0;
    let more = state_in(rest.skip(n), Some(size))->Ok_0;
    assert(state_in(rest, Some(size))->Ok_0 == data + more);
    if i < data.len() {
        lemma_fundamental_div_mod_converse(i, room, 0, i);
        assert(0 * size == 0) by (nonlinear_arith);
    } else {
        assert(more.len() > 0);
        if rest.len() <= size {
            assert(rest.skip(n) =~= Seq::<u8>::empty());
            assert(state_in(rest.skip(n), Some(size)) == Ok::<Seq<u8>, RejectReason>(
                Seq::empty(),
            ));
        }
        assert(n == size && data.len() == room);
        law_read_state_is_what_the_blocks_hold(rest.skip(n), size, i - room);
        vstd::arithmetic::div_mod::lemma_fundamental_div_mod(i - room, room);
        let q = (i - room) / room;
        let r = (i - room) % room;
        assert(i == room * (q + 1) + r) by (nonlinear_arith)
            requires
                i - room == room * q + r,
        ;
        lemma_fundamental_div_mod_converse(i, room, q + 1, r);
        assert((q + 1) * size == q * size + size) by (nonlinear_arith);
        assert(q * size >= 0) by (nonlinear_arith)
            requires
                q >= 0,
                size > 0,
        ;
    }
}

/// The first block that does not verify decides: a block without room for a byte
/// of state is too short, and any other has a bad checksum.
#[verifier::spinoff_prover]
#[verifier::rlimit(60)]
pub proof fn law_first_bad_block_decides(rest: Seq<u8>, size: u32, k: int)
    requires
        size > 8,
        0 <= k < blocks_in(rest.len() as int, size as int),
        forall|j: int| 0 <= j < k ==> #[trigger] block_verifies(rest, size as int, j),
        !block_verifies(rest, size as int, k),
    ensures
        state_in(rest, Some(size)) == Err::<Seq<u8>, RejectReason>(
            if rest.len() - k * size <= 8 {
                RejectReason::BlockTooShort
            } else {
                RejectReason::BlockChecksum
            },
        ),
    decreases rest.len(),
{
    let s = size as int;
    let n = rest.len() as int;
    assert(0 * s == 0) by (nonlinear_arith);
    if n == 0 {
        lemma_fundamental_div_mod_converse(s - 1, s, 0, s - 1);
    } else if n <= s {
        lemma_fundamental_div_mod_converse(n + s - 1, s, 1, n - 1);
        if n > 8 {
            assert(rest.subrange(0, n - 8) =~= rest.take(n - 8));
        }
    } else {
        lemma_blocks_step(n, s);
        assert(rest.subrange(0, s - 8) =~= rest.take(s - 8));
        if k > 0 {
            assert(block_verifies(rest, s, 0));
            let tail = rest.skip(s);
            assert forall|j: int| 0 <= j < k - 1 implies #[trigger] block_verifies(tail, s, j) by {
                lemma_block_behind(rest, s, j);
                assert(block_verifies(rest, s, j + 1));
            }
            lemma_block_behind(rest, s, k - 1);
            law_first_bad_block_decides(tail, size, k - 1);
            assert(k * s == (k - 1) * s + s) by (nonlinear_arith);
        }
    }
}

/// The user state of a file in blocks of `size` bytes: byte `i` is in block
/// `i / (size - 8)`, and the blocks follow one another, each with eight bytes more
/// than it has room for state, the last one cut short.
#[verifier::spinoff_prover]
#[verifier::rlimit(60)]
pub proof fn law_state_stands_in_its_blocks(state: Seq<u8>, size: u32, i: int)
    requires
        size > 8,
        0 <= i < state.len(),
    ensures
        ({
            let room = size - 8;
            let at = i / room * size + i % room;
            &&& 0 <= at < blocked(state, room).len()
            &&& blocked(state, room)[at] == state[i]
        }),
    decreases state.len(),
{
    let room = size - 8;
    let s = blocked(state, room);
    if i < room {
        lemma_fundamental_div_mod_converse(i, room, 0, i);
        assert(0 * size == 0) by (nonlinear_arith);
    } else {
        let rest = state.skip(room);
        law_state_stands_in_its_blocks(rest, size, i - room);
        vstd::arithmetic::div_mod::lemma_fundamental_div_mod(i - room, room);
        let q = (i - room) / room;
        let r = (i - room) % room;
        assert(i == room * (q + 1) + r) by (nonlinear_arith)
            requires
                i - room == room * q + r,
        ;
        lemma_fundamental_div_mod_converse(i, room, q + 1, r);
        assert((q + 1) * size == q * size + size) by (nonlinear_arith);
        assert(q * size >= 0) by (nonlinear_arith)
            requires
                q >= 0,
                size > 0,
        ;
        assert(s.skip(size as int) =~= blocked(rest, room));
        assert(s[q * size + r + size] == blocked(rest, room)[q * size + r]);
    }
}

/// A checkpoint is begun unless one of three things is wrong, and the first of
/// them is reported: a header from version 3 on lacks its configuration, it is too
/// long for its length field, or its blocks are no whole pages.
pub proof fn law_checkpoint_is_refused_for_a_reason(h: CheckpointView)
    ensures
        ({
            let bare = h.version.num() >= 3 && h.state_configuration is None;
            let long = h.len() > 0xffff_ffff;
            let odd = h.version.num() >= 4 && h.checksum_block_size % 512 != 0;
            &&& create_refusal(h) is None <==> !bare && !long && !odd
            &&& bare ==> create_refusal(h) == Some(WriteError::MissingConfiguration)
            &&& !bare && long ==> create_refusal(h) == Some(WriteError::HeaderTooLarge)
            &&& !bare && !long && odd ==> create_refusal(h) == Some(
                WriteError::BlockSizeNotPageMultiple(h.checksum_block_size),
            )
        }),
{
}

/// A header takes whole pages, as few as hold the fields and the vote in whole
/// pages, and the vote stands behind the fields with nothing but zeros behind it.
pub proof fn law_header_is_fields_vote_and_zeros(h: CheckpointView, i: int)
    requires
        h.writable(),
        h.measurable(),
        h.refusal() is None,
    ensures
        ({
            let start = h.vote_offset();
            let end = start + h.next_vote.len();
            &&& h.bytes().len() == h.len()
            &&& h.len() % 512 == 0
            &&& end <= h.len() < end + 1024
            &&& h.bytes().subrange(start, end) == h.next_vote.bytes()
            &&& end <= i < h.len() ==> h.bytes()[i] == 0
            &&& h.version.num() < 3 ==> start == 0
        }),
{
    super::header::law_header_takes_whole_pages(h);
    super::header::lemma_vote_bytes_len(h.next_vote);
    super::header::lemma_fields_len(h);
    let start = h.vote_offset();
    assert(h.bytes().subrange(start, start + h.next_vote.len()) =~= h.next_vote.bytes());
}

/// How long a header is: the fields, then the vote in whole pages, and all of it in
/// whole pages again. Before version 3 there are no fields; the fields of version 3
/// are 26 bytes, two ids and the configuration, and version 4 brought 13 bytes
/// more.
pub proof fn law_header_length(h: CheckpointView)
    ensures
        ({
            let v = h.version;
            let texts = v is V4 || v is V5 || v is V6;
            let configuration = h.state_configuration->Some_0.len(v) as int;
            let fields = if v is V1 || v is V2 {
                0
            } else if texts {
                26 + 2 * 64 + configuration + 13
            } else {
                26 + 2 * 8 + configuration
            };
            let vote = (h.next_vote.len() + 511) / 512 * 512;
            &&& h.vote_offset() == fields
            &&& h.len() == (fields + vote + 511) / 512 * 512
        }),
{
}

/// A header is not written if it lacks its configuration, is too long for its
/// length field, or has a vote that is not written, and the first of these is
/// reported.
pub proof fn law_header_is_refused_for_a_reason(h: CheckpointView)
    ensures
        ({
            let bare = h.version.num() >= 3 && h.state_configuration is None;
            let long = h.len() > 0xffff_ffff;
            &&& bare ==> h.refusal() == Some(WriteError::MissingConfiguration)
            &&& !bare && long ==> h.refusal() == Some(WriteError::HeaderTooLarge)
            &&& !bare && !long && h.next_vote.refusal() is Some ==> h.refusal() == Some(
                WriteError::Vote(h.next_vote.refusal()->Some_0),
            )
            &&& !bare && !long && h.next_vote.refusal() is None ==> h.refusal() is None
        }),
{
}

/// What is reported of a file besides whether it is accepted: its size, and if its
/// header can be read the version, the header's length, the block size and the
/// mark of a saved state. User bytes are reported of an accepted file only.
pub proof fn law_verification_reports_the_header(file: Seq<u8>)
    requires
        file.len() <= u64::MAX,
    ensures
        ({
            let r = verified(file);
            let found = header_of(file, file.len() as int);
            &&& r.file_size == file.len()
            &&& found is Err ==> r.reject == Some(found->Err_0) && r.version is None
                && r.header_len == 0 && r.checksum_block_size == 0 && !r.state_saved
            &&& found is Ok ==> {
                let h = found->Ok_0;
                &&& r.version == Some(h.version.num())
                &&& h.len() <= 0xffff_ffff ==> r.header_len == h.len()
                &&& r.checksum_block_size == h.checksum_block_size
                &&& r.state_saved == h.state_saved
            }
            &&& r.reject is Some ==> r.user_data_size == 0
        }),
{
}

/// A file without checksummed blocks is accepted whatever follows its header, and
/// all of that is user state.
pub proof fn law_plain_file_is_all_state(file: Seq<u8>, h: CheckpointView)
    requires
        header_of(file, file.len() as int) == Ok::<CheckpointView, RejectReason>(h),
        h.len() <= file.len() <= u64::MAX,
        h.len() <= 0xffff_ffff,
        h.version.num() < 4 || h.checksum_block_size == 0,
    ensures
        verified(file).reject is None,
        verified(file).user_data_size == file.len() - h.len(),
{
    super::blocks::law_plain_state_reads_back(file.skip(h.len()));
}

/// State that is not in blocks is handed out in pieces of four mebibytes, the last
/// one shorter.
pub proof fn law_plain_state_comes_in_pieces(rest: Seq<u8>)
    ensures
        rest.len() == 0 ==> block_step(rest, None) == Ok::<Option<(Seq<u8>, int)>, RejectReason>(
            None,
        ),
        0 < rest.len() <= 0x40_0000 ==> block_step(rest, None) == Ok::<
            Option<(Seq<u8>, int)>,
            RejectReason,
        >(Some((rest, rest.len() as int))),
        rest.len() > 0x40_0000 ==> block_step(rest, None) == Ok::<
            Option<(Seq<u8>, int)>,
            RejectReason,
        >(Some((rest.take(0x40_0000), 0x40_0000int))),
{
    assert(rest.take(rest.len() as int) =~= rest);
}

/// Counting user bytes takes eight off each whole block, and eight off the rest if
/// it has more.
pub proof fn law_user_bytes_are_counted_by_blocks(full: int, last: int, size: int)
    requires
        size > 8,
        full >= 0,
        0 <= last < size,
    ensures
        user_size(full * size + last, size) == full * (size - 8) + (if last > 8 {
            last - 8
        } else {
            0
        }),
{
    lemma_fundamental_div_mod_converse(full * size + last, size, full, last);
}

/// A header cannot be judged if the bytes that decide are not there: the first
/// page, and of a known version all pages that the header says it has, if the file
/// is said to be that long.
pub proof fn law_header_needs_its_pages(bytes: Seq<u8>, file_size: int)
    ensures
        file_size < 512 ==> header_there(bytes, file_size),
        file_size >= 512 && bytes.len() < 512 ==> !header_there(bytes, file_size),
        512 <= file_size <= bytes.len() ==> header_there(bytes, file_size),
{
}

proof fn lemma_old_fields(h: CheckpointView)
    requires
        !(h.version is V1 || h.version is V2),
        id_writable(h.member_id, h.version),
        id_writable(h.max_ballot.member_id, h.version),
    ensures
        ({
            let s = h.old_fields();
            let v = h.version;
            let id = if v is V4 || v is V5 || v is V6 {
                64int
            } else {
                8
            };
            let configuration = h.state_configuration->Some_0.bytes(v);
            &&& s.len() == 26 + 2 * id + configuration.len()
            &&& s.subrange(0, 2) == le16(v.num())
            &&& s.subrange(2, 6) == le32(h.len() as u32)
            &&& s.subrange(6, 14) == le64(h.checksum)
            &&& s.subrange(14, 14 + id) == id_bytes(h.member_id, v)
            &&& s.subrange(14 + id, 22 + id) == le64(h.last_executed_decree)
            &&& s.subrange(22 + id, 26 + id) == le32(h.max_ballot.ballot_id)
            &&& s.subrange(26 + id, 26 + 2 * id) == id_bytes(h.max_ballot.member_id, v)
            &&& s.subrange(26 + 2 * id, s.len() as int) == configuration
        }),
{
    reveal(CheckpointView::old_fields);
    let s = h.old_fields();
    let v = h.version;
    let id = id_size(v);
    let n = s.len() as int;
    assert(id_bytes(h.member_id, v).len() == id);
    assert(id_bytes(h.max_ballot.member_id, v).len() == id);
    assert(s.subrange(0, 2) =~= le16(v.num()));
    assert(s.subrange(2, 6) =~= le32(h.len() as u32));
    assert(s.subrange(6, 14) =~= le64(h.checksum));
    assert(s.subrange(14, 14 + id) =~= id_bytes(h.member_id, v));
    assert(s.subrange(14 + id, 22 + id) =~= le64(h.last_executed_decree));
    assert(s.subrange(22 + id, 26 + id) =~= le32(h.max_ballot.ballot_id));
    assert(s.subrange(26 + id, 26 + 2 * id) =~= id_bytes(h.max_ballot.member_id, v));
    assert(s.subrange(26 + 2 * id, n) =~= h.state_configuration->Some_0.bytes(v));
}

/// Where the fields of a checkpoint header stand from version 3 on: the version,
/// the length of the header, a checksum, the member, the last decree, the highest
/// ballot and its owner, and the configuration. Version 4 brought the mark of a
/// saved state, the size of the file and that of its blocks.
#[verifier::rlimit(40)]
pub proof fn law_checkpoint_fields_have_their_places(h: CheckpointView)
    requires
        !(h.version is V1 || h.version is V2),
        id_writable(h.member_id, h.version),
        id_writable(h.max_ballot.member_id, h.version),
    ensures
        ({
            let s = h.bytes();
            let v = h.version;
            let texts = v is V4 || v is V5 || v is V6;
            let id = if texts {
                64int
            } else {
                8
            };
            let configuration = h.state_configuration->Some_0.bytes(v);
            let end = 26 + 2 * id + configuration.len();
            &&& u16_at(s, 0) == v.num()
            &&& u32_at(s, 2) == h.len() as u32
            &&& u64_at(s, 6) == h.checksum
            &&& s.subrange(14, 14 + id) == id_bytes(h.member_id, v)
            &&& u64_at(s, 14 + id) == h.last_executed_decree
            &&& u32_at(s, 22 + id) == h.max_ballot.ballot_id
            &&& s.subrange(26 + id, 26 + 2 * id) == id_bytes(h.max_ballot.member_id, v)
            &&& s.subrange(26 + 2 * id, end) == configuration
            &&& texts ==> s[end] == (if h.state_saved {
                1u8
            } else {
                0u8
            })
            &&& texts ==> u64_at(s, end + 1) == h.size
            &&& texts ==> u32_at(s, end + 9) == h.checksum_block_size
        }),
{
    lemma_old_fields(h);
    let a = h.old_fields();
    let b = h.new_fields();
    let s = h.bytes();
    let v = h.version;
    let id = id_size(v);
    let end = a.len() as int;
    assert(s.take(end) =~= a);
    assert forall|i: int, j: int| 0 <= i <= j <= end implies #[trigger] s.subrange(i, j)
        == a.subrange(i, j) by {
        assert(s.subrange(i, j) =~= s.take(end).subrange(i, j));
    }
    lemma_u16_at(s, 0, v.num());
    lemma_u32_at(s, 2, h.len() as u32);
    lemma_u64_at(s, 6, h.checksum);
    lemma_u64_at(s, 14 + id, h.last_executed_decree);
    lemma_u32_at(s, 22 + id, h.max_ballot.ballot_id);
    if v is V4 || v is V5 || v is V6 {
        reveal(CheckpointView::new_fields);
        law_flag_is_one_byte(h.state_saved);
        assert(s.subrange(end, end + 13) =~= b);
        assert(s[end] == b[0]);
        assert(s.subrange(end + 1, end + 9) =~= le64(h.size)) by {
            assert(b.subrange(1, 9) =~= le64(h.size));
            assert(s.subrange(end + 1, end + 9) =~= s.subrange(end, end + 13).subrange(1, 9));
        }
        lemma_u64_at(s, end + 1, h.size);
        assert(s.subrange(end + 9, end + 13) =~= le32(h.checksum_block_size)) by {
            assert(b.subrange(9, 13) =~= le32(h.checksum_block_size));
            assert(s.subrange(end + 9, end + 13) =~= s.subrange(end, end + 13).subrange(9, 13));
        }
        lemma_u32_at(s, end + 9, h.checksum_block_size);
    }
}

/// The user state is all that stands behind the header, by the length that the
/// header's own fields give it, and it is in blocks if the header is of version 4
/// or later and has a block size.
pub proof fn law_state_starts_behind_the_header(file: Seq<u8>, h: CheckpointView)
    ensures
        0 <= h.len() <= file.len() ==> body_of(file, h) == file.skip(h.len()),
        h.len() > file.len() ==> body_of(file, h).len() == 0,
        0 <= h.len() ==> said_len(h, file.len() as int) == body_of(file, h).len(),
        ({
            let v = h.version;
            let blocks = (v is V4 || v is V5 || v is V6) && h.checksum_block_size != 0;
            &&& blocks ==> block_size_of(h) == Some(h.checksum_block_size)
            &&& !blocks ==> block_size_of(h) is None
        }),
{
}

/// A file whose header was read is not read further if the header is too long for
/// its length field, or if the file is in blocks and not as long as its header
/// says. Any other file is.
pub proof fn law_body_is_refused_for_a_reason(h: CheckpointView, file_size: int)
    ensures
        ({
            let v = h.version;
            let blocks = (v is V4 || v is V5 || v is V6) && h.checksum_block_size != 0;
            let long = h.len() > 0xffff_ffff;
            let fault = body_fault(h, file_size);
            &&& long ==> fault == Some(RejectReason::HeaderUnmarshal)
            &&& !long && blocks && (file_size < h.size || file_size > h.size) ==> fault == Some(
                RejectReason::SizeMismatch,
            )
            &&& !long && (!blocks || file_size == h.size) ==> fault is None
        }),
{
}

} // verus!
