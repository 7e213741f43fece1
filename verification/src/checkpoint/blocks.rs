//! The user state in a checkpoint file: blocks that end in checksums.

use vstd::arithmetic::div_mod::{lemma_fundamental_div_mod, lemma_fundamental_div_mod_converse};
use vstd::prelude::*;

use super::RejectReason;
use crate::bytes::{le64, lemma_le64_of_u64_at, lemma_u64_at, u64_at};
use crate::fprint::{fp, law_fingerprint_sees_one_byte, POLY};
use crate::CHECKSUM_BLOCK_SIZE;

verus! {

broadcast use crate::bytes::group_le_len;

/// A block: some data and its fingerprint.
pub open spec fn block_of(data: Seq<u8>) -> Seq<u8> {
    data + le64(fp(data))
}

/// `data` in blocks that hold up to `room` bytes of it each.
pub open spec fn blocked(data: Seq<u8>, room: int) -> Seq<u8>
    decreases data.len(),
{
    if data.len() == 0 || room <= 0 {
        Seq::empty()
    } else if data.len() <= room {
        block_of(data)
    } else {
        block_of(data.take(room)) + blocked(data.skip(room), room)
    }
}

/// The user state as it stands in the file, in blocks of `block_size` bytes or
/// as it is.
pub open spec fn stored_state(data: Seq<u8>, block_size: Option<u32>) -> Seq<u8> {
    match block_size {
        Some(size) => blocked(data, size - 8),
        None => data,
    }
}

/// What a reader finds at the start of the rest of a file: nothing, or some user
/// data and the number of bytes that it takes in the file. A block that is too
/// short for its checksum is rejected, and so is one whose checksum does not
/// match. State that is not in blocks is read in pieces.
pub open spec fn block_step(rest: Seq<u8>, block_size: Option<u32>) -> Result<
    Option<(Seq<u8>, int)>,
    RejectReason,
> {
    if rest.len() == 0 {
        Ok(None)
    } else {
        match block_size {
            None => {
                let n = if rest.len() < CHECKSUM_BLOCK_SIZE {
                    rest.len() as int
                } else {
                    CHECKSUM_BLOCK_SIZE as int
                };
                Ok(Some((rest.take(n), n)))
            },
            Some(size) => {
                let n = if rest.len() < size {
                    rest.len() as int
                } else {
                    size as int
                };
                if n <= 8 {
                    Err(RejectReason::BlockTooShort)
                } else if u64_at(rest, n - 8) != fp(rest.take(n - 8)) {
                    Err(RejectReason::BlockChecksum)
                } else {
                    Ok(Some((rest.take(n - 8), n)))
                }
            },
        }
    }
}

/// The user state in the rest of a file.
pub open spec fn state_in(rest: Seq<u8>, block_size: Option<u32>) -> Result<Seq<u8>, RejectReason>
    decreases rest.len(),
{
    match block_step(rest, block_size) {
        Err(reason) => Err(reason),
        Ok(None) => Ok(Seq::empty()),
        Ok(Some((data, n))) => if 0 < n <= rest.len() {
            match state_in(rest.skip(n), block_size) {
                Ok(more) => Ok(data + more),
                Err(reason) => Err(reason),
            }
        } else {
            // A step is never empty and never longer than the rest.
            Ok(data)
        },
    }
}

/// Number of user bytes in `total` bytes of blocks, by count: every full block
/// has room for all but its checksum, and so has the last one if it is cut.
pub open spec fn user_size(total: int, block_size: int) -> int {
    let room = if block_size > 8 {
        block_size - 8
    } else {
        0
    };
    let last = total % block_size;
    total / block_size * room + (if last > 8 {
        last - 8
    } else {
        0
    })
}

proof fn lemma_block_found(data: Seq<u8>, tail: Seq<u8>, size: u32)
    requires
        0 < data.len() <= size - 8,
        tail.len() == 0 || data.len() == size - 8,
    ensures
        block_step(block_of(data) + tail, Some(size)) == Ok::<
            Option<(Seq<u8>, int)>,
            RejectReason,
        >(Some((data, data.len() as int + 8))),
{
    let rest = block_of(data) + tail;
    let n = data.len() as int + 8;
    assert(rest.take(n - 8) =~= data);
    assert(rest.subrange(n - 8, n) =~= le64(fp(data)));
    lemma_u64_at(rest, n - 8, fp(data));
}

/// User state that is written in blocks is read back.
pub proof fn law_blocks_read_back(data: Seq<u8>, size: u32)
    requires
        size > 8,
    ensures
        state_in(blocked(data, size - 8), Some(size)) == Ok::<Seq<u8>, RejectReason>(data),
    decreases data.len(),
{
    let room = size - 8;
    let s = blocked(data, room);
    if data.len() == 0 {
        assert(data =~= Seq::empty());
    } else if data.len() <= room {
        let none = Seq::<u8>::empty();
        lemma_block_found(data, none, size);
        assert(block_of(data) + none =~= s);
        assert(s.skip(data.len() as int + 8) =~= none);
        assert(state_in(none, Some(size)) == Ok::<Seq<u8>, RejectReason>(none));
        assert(data + none =~= data);
    } else {
        let first = data.take(room);
        let rest = data.skip(room);
        lemma_block_found(first, blocked(rest, room), size);
        law_blocks_read_back(rest, size);
        assert(s.skip(size as int) =~= blocked(rest, room));
        assert(first + rest =~= data);
    }
}

/// User state that is not in blocks is read back as it is.
pub proof fn law_plain_state_reads_back(data: Seq<u8>)
    ensures
        state_in(data, None) == Ok::<Seq<u8>, RejectReason>(data),
    decreases data.len(),
{
    if data.len() == 0 {
        assert(data =~= Seq::empty());
    } else {
        let n = if data.len() < CHECKSUM_BLOCK_SIZE {
            data.len() as int
        } else {
            CHECKSUM_BLOCK_SIZE as int
        };
        law_plain_state_reads_back(data.skip(n));
        assert(data.take(n) + data.skip(n) =~= data);
    }
}

/// User state that is written is read back, in blocks or not.
pub proof fn law_state_reads_back(data: Seq<u8>, block_size: Option<u32>)
    requires
        block_size is Some ==> block_size->Some_0 > 8,
    ensures
        state_in(stored_state(data, block_size), block_size) == Ok::<Seq<u8>, RejectReason>(data),
{
    match block_size {
        Some(size) => law_blocks_read_back(data, size),
        None => law_plain_state_reads_back(data),
    }
}

proof fn lemma_user_size_step(total: int, size: int)
    requires
        size > 8,
        total >= 0,
    ensures
        user_size(size + total, size) == size - 8 + user_size(total, size),
{
    lemma_fundamental_div_mod(total, size);
    let q = total / size;
    let r = total % size;
    vstd::arithmetic::mul::lemma_mul_is_distributive_add_other_way(size, q, 1);
    vstd::arithmetic::mul::lemma_mul_is_commutative(size, q);
    vstd::arithmetic::div_mod::lemma_mod_bound(total, size);
    lemma_fundamental_div_mod_converse(size + total, size, q + 1, r);
    vstd::arithmetic::mul::lemma_mul_is_distributive_add_other_way(size - 8, q, 1);
}

proof fn lemma_times(q: int, room: int)
    ensures
        q == 0 ==> q * room == 0,
        q == 1 ==> q * room == room,
{
    if q == 0 {
        assert(q * room == 0) by (nonlinear_arith)
            requires
                q == 0,
        ;
    }
    if q == 1 {
        assert(q * room == room) by (nonlinear_arith)
            requires
                q == 1,
        ;
    }
}

/// Counting the user bytes of a file's blocks gives the length of the user
/// state, and the blocks take eight bytes each beyond it.
pub proof fn law_block_count_gives_the_state_size(data: Seq<u8>, size: u32)
    requires
        size > 8,
    ensures
        user_size(blocked(data, size - 8).len() as int, size as int) == data.len(),
        blocked(data, size - 8).len() >= data.len(),
        (blocked(data, size - 8).len() - data.len()) % 8 == 0,
        data.len() > 0 ==> blocked(data, size - 8).len() >= data.len() + 8,
        blocked(data, size - 8).len() <= 9 * data.len(),
    decreases data.len(),
{
    let room = size - 8;
    let n = blocked(data, room).len() as int;
    if data.len() == 0 {
        lemma_fundamental_div_mod_converse(0, size as int, 0, 0);
        lemma_times(n / (size as int), room);
    } else if data.len() <= room {
        if n == size {
            lemma_fundamental_div_mod_converse(n, size as int, 1, 0);
        } else {
            lemma_fundamental_div_mod_converse(n, size as int, 0, n);
        }
        lemma_times(n / (size as int), room);
    } else {
        let rest = data.skip(room);
        law_block_count_gives_the_state_size(rest, size);
        lemma_user_size_step(blocked(rest, room).len() as int, size as int);
    }
}

/// A byte that is changed in a block, in its data or in its checksum, makes the
/// block unreadable.
pub proof fn law_changed_block_is_rejected(rest: Seq<u8>, size: u32, i: int, byte: u8)
    requires
        block_step(rest, Some(size)) is Ok,
        block_step(rest, Some(size))->Ok_0 is Some,
        0 <= i < block_step(rest, Some(size))->Ok_0->Some_0.1,
        byte != rest[i],
    ensures
        block_step(rest.update(i, byte), Some(size)) == Err::<Option<(Seq<u8>, int)>, RejectReason>(
            RejectReason::BlockChecksum,
        ),
{
    let (data, n) = block_step(rest, Some(size))->Ok_0->Some_0;
    let bad = rest.update(i, byte);
    if i < n - 8 {
        assert(bad.take(n - 8) =~= data.update(i, byte));
        law_fingerprint_sees_one_byte(POLY, data, i, byte);
        reveal(u64_at);
        assert(u64_at(bad, n - 8) == u64_at(rest, n - 8));
    } else {
        assert(bad.take(n - 8) =~= data);
        lemma_le64_of_u64_at(rest, n - 8);
        lemma_le64_of_u64_at(bad, n - 8);
        if u64_at(bad, n - 8) == u64_at(rest, n - 8) {
            let x = rest.subrange(n - 8, n);
            let y = bad.subrange(n - 8, n);
            assert(x[i - (n - 8)] == y[i - (n - 8)]);
        }
    }
}

/// A block that was rejected makes the whole state unreadable.
pub proof fn law_rejected_block_rejects_the_state(rest: Seq<u8>, block_size: Option<u32>)
    requires
        block_step(rest, block_size) is Err,
    ensures
        state_in(rest, block_size) == Err::<Seq<u8>, RejectReason>(
            block_step(rest, block_size)->Err_0,
        ),
{
}

/// More data behind full blocks: the last block is sealed on its own.
pub(crate) proof fn lemma_blocked_last(done: Seq<u8>, last: Seq<u8>, room: int)
    requires
        room > 0,
        done.len() as int % room == 0,
        0 < last.len() <= room,
    ensures
        blocked(done + last, room) == blocked(done, room) + block_of(last),
    decreases done.len(),
{
    let data = done + last;
    if done.len() == 0 {
        assert(data =~= last);
        assert(blocked(done, room) + block_of(last) =~= block_of(last));
    } else {
        if done.len() < room {
            vstd::arithmetic::div_mod::lemma_small_mod(done.len(), room as nat);
        }
        assert(done.len() >= room);
        let first = done.take(room);
        let rest = done.skip(room);
        assert(data.take(room) =~= first);
        assert(data.skip(room) =~= rest + last);
        vstd::arithmetic::div_mod::lemma_mod_sub_multiples_vanish(done.len() as int, room);
        assert(rest.len() as int % room == 0);
        assert(rest.len() == done.len() - room);
        lemma_blocked_last(rest, last, room);
        assert(blocked(data, room) == block_of(first) + blocked(rest + last, room));
        if done.len() == room {
            assert(rest =~= Seq::empty());
            assert(done =~= first);
            assert(blocked(done, room) == block_of(first));
            assert(blocked(rest, room) =~= Seq::empty());
            assert(blocked(rest, room) + block_of(last) =~= block_of(last));
        } else {
            assert(block_of(first) + (blocked(rest, room) + block_of(last)) =~= (block_of(first)
                + blocked(rest, room)) + block_of(last));
        }
    }
}

/// A step takes what it finds, and no more than there is.
pub(crate) proof fn lemma_step_bounds(rest: Seq<u8>, block_size: Option<u32>)
    requires
        block_step(rest, block_size) is Ok,
        block_step(rest, block_size)->Ok_0 is Some,
    ensures
        ({
            let (data, n) = block_step(rest, block_size)->Ok_0->Some_0;
            0 < data.len() <= n <= rest.len()
        }),
{
}

} // verus!
