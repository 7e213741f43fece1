//! Reading checkpoint files.

use vstd::prelude::*;

use super::blocks::{block_step, lemma_step_bounds, state_in, user_size};
use super::header::{
    law_read_checkpoint_header_fits, parsed_checkpoint, CheckpointHeader, CheckpointView,
};
use super::{CheckpointError, RejectReason};
use crate::bytes::{u16_at, u32_at, u64_at};
use crate::fprint::{fingerprint, fp};
use crate::marshal::Reader;
use crate::source::{at_most, beyond, SeekSource, Source};
use crate::version::ProtocolVersion;
use crate::{page_rounded, round_up_to_page, CHECKSUM_BLOCK_SIZE, CHECKSUM_SIZE, PAGE_SIZE};

verus! {

/// How many bytes of a file its header takes, by what the file says.
pub open spec fn declared_len(file: Seq<u8>) -> int {
    page_rounded(u32_at(file, 2) as int)
}

/// How many bytes of a file are read to get at its header.
pub open spec fn header_span(file: Seq<u8>) -> int {
    if declared_len(file) > 512 {
        declared_len(file)
    } else {
        512
    }
}

/// The header of a file, or why there is none. `file_size` is the size that the
/// file is said to have; `file` must have as many bytes at least.
pub open spec fn header_of(file: Seq<u8>, file_size: int) -> Result<CheckpointView, RejectReason> {
    if file_size < 512 {
        Err(RejectReason::ShortFile)
    } else if ProtocolVersion::of_wire(u16_at(file, 0)) is None {
        Err(RejectReason::InvalidVersion)
    } else if file_size < declared_len(file) {
        Err(RejectReason::TruncatedHeader)
    } else {
        match parsed_checkpoint(
            at_most(file.take(header_span(file)), u32_at(file, 2) as int),
        ) {
            Some(h) => Ok(h),
            None => Err(RejectReason::HeaderUnmarshal),
        }
    }
}

/// The bytes that decide about the header of a file that is said to have
/// `file_size` bytes are all there.
pub open spec fn header_there(file: Seq<u8>, file_size: int) -> bool {
    file_size < 512 || (file.len() >= 512 && (ProtocolVersion::of_wire(u16_at(file, 0)) is None
        || file_size < declared_len(file) || file.len() >= header_span(file)))
}

/// The block size by which the user state behind a header is read.
pub open spec fn block_size_of(h: CheckpointView) -> Option<u32> {
    if h.blocks() {
        Some(h.checksum_block_size)
    } else {
        None
    }
}

/// Why a file with this header is not read any further, if it is not.
pub open spec fn body_fault(h: CheckpointView, file_size: int) -> Option<RejectReason> {
    if h.len() > u32::MAX {
        Some(RejectReason::HeaderUnmarshal)
    } else if h.blocks() && file_size != h.size {
        Some(RejectReason::SizeMismatch)
    } else {
        None
    }
}

/// The bytes of a file behind its header. They start where the header's own
/// fields say that it ends.
pub open spec fn body_of(file: Seq<u8>, h: CheckpointView) -> Seq<u8> {
    beyond(file, h.len())
}

/// How many bytes behind its header a file of `file_size` bytes has.
pub open spec fn said_len(h: CheckpointView, file_size: int) -> int {
    if file_size >= h.len() {
        file_size - h.len()
    } else {
        0
    }
}

/// Reads the header of a checkpoint and leaves the user state alone. `file_size`
/// is the size of the whole file, and no length in the header is believed beyond
/// it.
#[verifier::rlimit(40)]
pub fn read_header<R: Source>(inner: &mut R, file_size: u64) -> (r: Result<
    CheckpointHeader,
    CheckpointError<R::Error>,
>)
    ensures
        final(inner).whole() == old(inner).whole(),
        final(inner).steady() == old(inner).steady(),
        old(inner).rest().len() >= file_size ==> header_there(
            old(inner).rest(),
            file_size as int,
        ),
        !header_there(old(inner).rest(), file_size as int) ==> match r {
            Ok(_) => false,
            Err(e) => e is UnexpectedEnd || (e is Io && !old(inner).steady()),
        },
        header_there(old(inner).rest(), file_size as int) ==> match header_of(
            old(inner).rest(),
            file_size as int,
        ) {
            Ok(h) => match r {
                Ok(header) => header@ == h && final(inner).rest() == old(inner).rest().skip(
                    header_span(old(inner).rest()),
                ),
                Err(e) => e is Io && !old(inner).steady(),
            },
            Err(reason) => match r {
                Ok(_) => false,
                Err(CheckpointError::Reject(found)) => found == reason,
                Err(e) => e is Io && !old(inner).steady(),
            },
        },
        r is Err && r->Err_0 is Reject ==> final(inner).rest() == beyond(
            old(inner).rest(),
            match r->Err_0->Reject_0 {
                RejectReason::ShortFile => 0,
                RejectReason::HeaderUnmarshal => header_span(old(inner).rest()),
                _ => 512,
            },
        ),
        r is Ok ==> {
            &&& r->Ok_0@.measurable()
            &&& r->Ok_0@.writable()
            &&& !r->Ok_0@.lacks_configuration()
        },
{
    if file_size < PAGE_SIZE as u64 {
        return Err(CheckpointError::Reject(RejectReason::ShortFile));
    }
    let ghost file = inner.rest();
    let page: usize = PAGE_SIZE as usize;
    let mut blob = match inner.read(page) {
        Ok(blob) => blob,
        Err(e) => {
            return Err(CheckpointError::Io(e));
        },
    };
    if blob.len() < page {
        return Err(CheckpointError::UnexpectedEnd);
    }
    let ghost first = blob@;
    let mut peek = Reader::new(blob.as_slice());
    let (raw_version, marshal_len) = match (peek.read_u16(), peek.read_u32()) {
        (Some(version), Some(len)) => (version, len),
        _ => {
            return Err(CheckpointError::UnexpectedEnd);
        },
    };
    proof {
        reveal(u16_at);
        reveal(u32_at);
        assert(first == file.take(512));
        assert(u16_at(file, 0) == raw_version);
        assert(u32_at(file, 2) == marshal_len);
    }
    if ProtocolVersion::from_wire(raw_version).is_none() {
        return Err(CheckpointError::Reject(RejectReason::InvalidVersion));
    }
    let write_size: u32 = round_up_to_page(marshal_len);
    if file_size < write_size as u64 {
        return Err(CheckpointError::Reject(RejectReason::TruncatedHeader));
    }
    if write_size > PAGE_SIZE {
        let more: usize = (write_size - PAGE_SIZE) as usize;
        let mut rest = match inner.read(more) {
            Ok(rest) => rest,
            Err(e) => {
                return Err(CheckpointError::Io(e));
            },
        };
        if rest.len() < more {
            return Err(CheckpointError::UnexpectedEnd);
        }
        blob.append(&mut rest);
        proof {
            assert(blob@ =~= file.take(write_size as int));
            assert(inner.rest() =~= file.skip(write_size as int));
        }
    }
    assert(blob@ =~= file.take(header_span(file)));
    assert(inner.rest() =~= file.skip(header_span(file)));
    let declared: usize = marshal_len as usize;
    let len: usize = if declared < blob.len() {
        declared
    } else {
        blob.len()
    };
    let own = vstd::slice::slice_subrange(blob.as_slice(), 0, len);
    assert(own@ =~= at_most(blob@, marshal_len as int));
    match CheckpointHeader::unmarshal(own) {
        Some(header) => {
            proof {
                law_read_checkpoint_header_fits(own@);
            }
            Ok(header)
        },
        None => Err(CheckpointError::Reject(RejectReason::HeaderUnmarshal)),
    }
}

/// Number of user bytes in `total` bytes of blocks: every full block has room
/// for all but its checksum, and so has the last one if it is cut.
pub fn user_data_size(total: u64, block_size: u32) -> (r: u64)
    requires
        block_size > 0,
    ensures
        r == user_size(total as int, block_size as int),
        r <= total,
{
    let size: u64 = block_size as u64;
    let full: u64 = total / size;
    let last: u64 = total % size;
    let room: u64 = if size > 8 {
        size - 8
    } else {
        0
    };
    proof {
        vstd::arithmetic::div_mod::lemma_fundamental_div_mod(total as int, size as int);
        assert(full * room <= full * size) by (nonlinear_arith)
            requires
                room <= size,
                full >= 0,
        ;
        assert(size * full == full * size) by (nonlinear_arith);
        assert(0 <= full * room) by (nonlinear_arith)
            requires
                full >= 0,
                room >= 0,
        ;
    }
    let mut n: u64 = full * room;
    if last > 8 {
        n = n + (last - 8);
    }
    n
}

/// A word is the same in the front part of some bytes that it lies in.
proof fn lemma_word_in_front(s: Seq<u8>, n: int, pos: int)
    requires
        0 <= pos,
        pos + 8 <= n <= s.len(),
    ensures
        u64_at(s.take(n), pos) == u64_at(s, pos),
{
    reveal(u64_at);
}

/// Whether a block ends in the fingerprint of its data.
fn is_sealed(block: &[u8]) -> (r: bool)
    requires
        block@.len() >= 8,
    ensures
        r == (u64_at(block@, block@.len() - 8) == fp(block@.take(block@.len() - 8))),
{
    let data_len: usize = block.len() - CHECKSUM_SIZE as usize;
    let data = vstd::slice::slice_subrange(block, 0, data_len);
    let tail = vstd::slice::slice_subrange(block, data_len, block.len());
    let mut r = Reader::new(tail);
    proof {
        assert(data@ =~= block@.take(data_len as int));
        assert(u64_at(tail@, 0) == u64_at(block@, data_len as int)) by {
            reveal(u64_at);
        }
    }
    match r.read_u64() {
        Some(stored) => fingerprint(data) == stored,
        None => false,
    }
}

/// Reads the user state of a checkpoint, and checks each block before any of its
/// bytes are handed out.
///
/// No more than one block is in memory at a time.
pub struct CheckpointReader<R: SeekSource> {
    inner: R,
    header: CheckpointHeader,
    header_len: u32,
    block_size: Option<u32>,
    block: Vec<u8>,
    pos: usize,
    remaining: u64,
    user_data_size: u64,
}

impl<R: SeekSource> CheckpointReader<R> {
    /// The header.
    pub closed spec fn head(self) -> CheckpointView {
        self.header@
    }

    /// The part of the block in memory that was not handed out by a read.
    pub closed spec fn buffered(self) -> Seq<u8> {
        self.block@.skip(self.pos as int)
    }

    /// The part of the file that was not read.
    pub closed spec fn left(self) -> Seq<u8> {
        at_most(self.inner.rest(), self.remaining as int)
    }

    /// The file is as long as it was said to be.
    pub closed spec fn complete(self) -> bool {
        self.inner.rest().len() >= self.remaining
    }

    /// Reads of the source never fail.
    pub closed spec fn steady(self) -> bool {
        self.inner.steady()
    }

    /// The number of user bytes, by count.
    pub closed spec fn counted(self) -> int {
        self.user_data_size as int
    }

    /// What the reader's own fields obey.
    pub closed spec fn wf(self) -> bool {
        &&& self.pos <= self.block@.len()
        &&& self.block_size == block_size_of(self.header@)
        &&& self.header_len == self.header@.len()
    }

    /// The user state that is still to be read, or why it cannot be.
    pub open spec fn coming(self) -> Result<Seq<u8>, RejectReason> {
        state_in(self.left(), block_size_of(self.head()))
    }

    /// Nothing but the position in the file has changed.
    pub open spec fn same_file(self, other: CheckpointReader<R>) -> bool {
        &&& self.head() == other.head()
        &&& self.counted() == other.counted()
        &&& self.steady() == other.steady()
    }

    /// Reads the header from where the source stands, checks it, and gets ready to
    /// read the user state, which starts behind the header's length from the start
    /// of the source. `file_size` is the size of the whole file.
    #[verifier::rlimit(40)]
    pub fn new(inner: R, file_size: u64) -> (r: Result<
        CheckpointReader<R>,
        CheckpointError<R::Error>,
    >)
        ensures
            !header_there(inner.rest(), file_size as int) ==> match r {
                Ok(_) => false,
                Err(e) => e is UnexpectedEnd || (e is Io && !inner.steady()),
            },
            header_there(inner.rest(), file_size as int) ==> match header_of(
                inner.rest(),
                file_size as int,
            ) {
                Err(reason) => match r {
                    Ok(_) => false,
                    Err(CheckpointError::Reject(found)) => found == reason,
                    Err(e) => e is Io && !inner.steady(),
                },
                Ok(h) => match r {
                    Ok(reader) => {
                        let body = body_of(inner.whole(), h);
                        let size = said_len(h, file_size as int);
                        &&& body_fault(h, file_size as int) is None
                        &&& reader.wf()
                        &&& reader.complete() == (body.len() >= size)
                        &&& reader.head() == h
                        &&& reader.buffered() == Seq::<u8>::empty()
                        &&& reader.left() == at_most(body, size)
                        &&& inner.whole().len() == file_size ==> reader.complete()
                            && reader.left() == body && body.len() == size
                        &&& reader.steady() == inner.steady()
                        &&& reader.counted() == (if h.blocks() {
                            user_size(size, h.checksum_block_size as int)
                        } else {
                            size
                        })
                    },
                    Err(CheckpointError::Reject(found)) => body_fault(h, file_size as int) == Some(
                        found,
                    ),
                    Err(e) => e is Io && !inner.steady(),
                },
            },
            r is Ok ==> r->Ok_0.wf(),
    {
        let mut inner = inner;
        let ghost file = inner.whole();
        let header = match read_header(&mut inner, file_size) {
            Ok(header) => header,
            Err(e) => {
                return Err(e);
            },
        };
        let header_len: u32 = match header.marshal_len() {
            Some(len) => len,
            None => {
                return Err(CheckpointError::Reject(RejectReason::HeaderUnmarshal));
            },
        };
        let remaining: u64 = if file_size >= header_len as u64 {
            file_size - header_len as u64
        } else {
            0
        };
        let mut block_size: Option<u32> = None;
        let mut user_bytes: u64 = remaining;
        if header.uses_blocks() {
            if file_size != header.size {
                return Err(CheckpointError::Reject(RejectReason::SizeMismatch));
            }
            let size: u32 = header.checksum_block_size;
            block_size = Some(size);
            user_bytes = user_data_size(remaining, size);
        }
        match inner.seek(header_len as u64) {
            Ok(_) => {},
            Err(e) => {
                return Err(CheckpointError::Io(e));
            },
        }
        let reader = CheckpointReader {
            inner,
            header,
            header_len,
            block_size,
            block: Vec::new(),
            pos: 0,
            remaining,
            user_data_size: user_bytes,
        };
        proof {
            assert(reader.buffered() =~= Seq::<u8>::empty());
            assert(reader.left() =~= at_most(body_of(file, header@), remaining as int));
            if file.len() == file_size {
                assert(reader.left() =~= body_of(file, header@));
            }
        }
        Ok(reader)
    }

    /// The header.
    pub fn header(&self) -> (r: &CheckpointHeader)
        ensures
            r@ == self.head(),
    {
        &self.header
    }

    /// Length of the header, which is where the user state starts.
    pub fn header_len(&self) -> (r: u32)
        requires
            self.wf(),
        ensures
            r == self.head().len(),
    {
        self.header_len
    }

    /// Number of user bytes in the file, by count.
    pub fn user_data_size(&self) -> (r: u64)
        ensures
            r == self.counted(),
    {
        self.user_data_size
    }

    /// Reads and checks the next block. Its data is what the next reads hand
    /// out. The result is its length, or `None` at the end of the file.
    #[verifier::rlimit(40)]
    fn load_block(&mut self) -> (r: Result<Option<usize>, CheckpointError<R::Error>>)
        requires
            old(self).wf(),
        ensures
            final(self).wf(),
            final(self).same_file(*old(self)),
            old(self).complete() ==> match block_step(
                old(self).left(),
                block_size_of(old(self).head()),
            ) {
                Ok(None) => {
                    &&& r is Ok
                    &&& r->Ok_0 is None
                    &&& *final(self) == *old(self)
                },
                Ok(Some((data, n))) => match r {
                    Ok(Some(len)) => {
                        &&& len == data.len()
                        &&& final(self).complete()
                        &&& final(self).left() == old(self).left().skip(n)
                        &&& final(self).buffered() == data
                    },
                    Ok(None) => false,
                    Err(e) => e is Io && !old(self).steady(),
                },
                Err(reason) => match r {
                    Ok(_) => false,
                    Err(CheckpointError::Reject(found)) => {
                        &&& found == reason
                        &&& final(self).complete()
                        &&& final(self).left() == (if found is BlockChecksum {
                            beyond(
                                old(self).left(),
                                block_size_of(old(self).head())->Some_0 as int,
                            )
                        } else {
                            old(self).left()
                        })
                    },
                    Err(e) => e is Io && !old(self).steady(),
                },
            },
            r is Err ==> final(self).buffered() == old(self).buffered(),
            !old(self).complete() ==> match r {
                Ok(Some(_)) => {
                    let step = block_step(old(self).left(), block_size_of(old(self).head()));
                    &&& !final(self).complete()
                    &&& step is Ok
                    &&& step->Ok_0 is Some
                    &&& final(self).left() == old(self).left().skip(step->Ok_0->Some_0.1)
                    &&& final(self).buffered() == step->Ok_0->Some_0.0
                },
                Ok(None) => false,
                Err(e) => e is Io ==> !old(self).steady(),
            },
            r is Ok && r->Ok_0 is Some ==> {
                &&& final(self).buffered().len() == r->Ok_0->Some_0
                &&& final(self).remaining < old(self).remaining
                &&& r->Ok_0->Some_0 + final(self).remaining <= old(self).remaining
            },
    {
        if self.remaining == 0 {
            return Ok(None);
        }
        let ghost left = self.left();
        let limit: u64 = match self.block_size {
            Some(size) => size as u64,
            None => CHECKSUM_BLOCK_SIZE as u64,
        };
        let on_disk: usize = if self.remaining < limit {
            self.remaining as usize
        } else {
            limit as usize
        };
        let token: usize = CHECKSUM_SIZE as usize;
        if self.block_size.is_some() && on_disk <= token {
            return Err(CheckpointError::Reject(RejectReason::BlockTooShort));
        }
        let mut block = match self.inner.read(on_disk) {
            Ok(block) => block,
            Err(e) => {
                return Err(CheckpointError::Io(e));
            },
        };
        if block.len() < on_disk {
            return Err(CheckpointError::UnexpectedEnd);
        }
        let ghost raw = block@;
        self.remaining = self.remaining - on_disk as u64;
        proof {
            assert(raw =~= left.take(on_disk as int));
            assert(self.left() =~= left.skip(on_disk as int));
            if self.block_size is Some {
                assert(beyond(left, self.block_size->Some_0 as int) =~= left.skip(on_disk as int));
            }
        }
        if self.block_size.is_some() {
            let data_len: usize = on_disk - token;
            proof {
                assert(raw.take(data_len as int) =~= left.take(data_len as int));
                lemma_word_in_front(left, on_disk as int, data_len as int);
            }
            if !is_sealed(block.as_slice()) {
                return Err(CheckpointError::Reject(RejectReason::BlockChecksum));
            }
            block.truncate(data_len);
            assert(block@ =~= raw.take(data_len as int));
        }
        let len: usize = block.len();
        self.block = block;
        self.pos = 0;
        assert(self.buffered() =~= block@);
        Ok(Some(len))
    }

    /// Reads, checks and returns the next block of user data, or `None` at the
    /// end of the file.
    pub fn next_block(&mut self) -> (r: Result<Option<Vec<u8>>, CheckpointError<R::Error>>)
        requires
            old(self).wf(),
        ensures
            final(self).wf(),
            final(self).same_file(*old(self)),
            old(self).complete() ==> match block_step(
                old(self).left(),
                block_size_of(old(self).head()),
            ) {
                Ok(None) => {
                    &&& r is Ok
                    &&& r->Ok_0 is None
                    &&& *final(self) == *old(self)
                },
                Ok(Some((data, n))) => match r {
                    Ok(Some(block)) => {
                        &&& block@ == data
                        &&& final(self).complete()
                        &&& final(self).left() == old(self).left().skip(n)
                        &&& final(self).buffered() == data
                    },
                    Ok(None) => false,
                    Err(e) => e is Io && !old(self).steady(),
                },
                Err(reason) => match r {
                    Ok(_) => false,
                    Err(CheckpointError::Reject(found)) => {
                        &&& found == reason
                        &&& final(self).complete()
                        &&& final(self).left() == (if found is BlockChecksum {
                            beyond(
                                old(self).left(),
                                block_size_of(old(self).head())->Some_0 as int,
                            )
                        } else {
                            old(self).left()
                        })
                    },
                    Err(e) => e is Io && !old(self).steady(),
                },
            },
            r is Err ==> final(self).buffered() == old(self).buffered(),
            !old(self).complete() ==> match r {
                Ok(Some(block)) => {
                    let step = block_step(old(self).left(), block_size_of(old(self).head()));
                    &&& !final(self).complete()
                    &&& step is Ok
                    &&& step->Ok_0 is Some
                    &&& final(self).left() == old(self).left().skip(step->Ok_0->Some_0.1)
                    &&& block@ == step->Ok_0->Some_0.0
                },
                Ok(None) => false,
                Err(e) => e is Io ==> !old(self).steady(),
            },
    {
        match self.load_block() {
            Ok(Some(_)) => {
                let block = vstd::slice::slice_to_vec(
                    vstd::slice::slice_subrange(
                        self.block.as_slice(),
                        self.pos,
                        self.block.len(),
                    ),
                );
                assert(block@ =~= self.buffered());
                Ok(Some(block))
            },
            Ok(None) => Ok(None),
            Err(e) => Err(e),
        }
    }

    /// Reads up to `want` bytes of user data. It gives fewer at the end of a
    /// block, and none only at the end of the file or when none are wanted.
    #[verifier::rlimit(40)]
    pub fn read(&mut self, want: usize) -> (r: Result<Vec<u8>, CheckpointError<R::Error>>)
        requires
            old(self).wf(),
        ensures
            final(self).wf(),
            final(self).same_file(*old(self)),
            final(self).complete() == old(self).complete() || r is Err,
            r is Err && r->Err_0 is Io ==> !old(self).steady(),
            r is Err ==> final(self).buffered() == old(self).buffered(),
            want == 0 || old(self).buffered().len() > 0 ==> r is Ok,
            old(self).complete() && block_step(
                old(self).left(),
                block_size_of(old(self).head()),
            ) is Ok ==> r is Ok || (r->Err_0 is Io && !old(self).steady()),
            r is Ok ==> {
                let step = block_step(old(self).left(), block_size_of(old(self).head()));
                if want == 0 || old(self).buffered().len() > 0 {
                    &&& r->Ok_0@ == at_most(old(self).buffered(), want as int)
                    &&& final(self).buffered() == beyond(old(self).buffered(), want as int)
                    &&& final(self).left() == old(self).left()
                } else {
                    match step {
                        Ok(Some((data, n))) => {
                            &&& r->Ok_0@ == at_most(data, want as int)
                            &&& final(self).buffered() == beyond(data, want as int)
                            &&& final(self).left() == old(self).left().skip(n)
                        },
                        Ok(None) => {
                            &&& old(self).complete()
                            &&& r->Ok_0@.len() == 0
                            &&& *final(self) == *old(self)
                        },
                        Err(_) => false,
                    }
                }
            },
            old(self).complete() && old(self).coming() is Ok ==> match r {
                Ok(part) => {
                    let before = old(self).buffered() + old(self).coming()->Ok_0;
                    &&& final(self).complete()
                    &&& final(self).coming() is Ok
                    &&& before == part@ + final(self).buffered() + final(self).coming()->Ok_0
                    &&& part@.len() <= want
                    &&& part@.len() == 0 ==> want == 0 || before.len() == 0
                },
                Err(e) => e is Io && !old(self).steady(),
            },
            old(self).complete() && old(self).coming() is Err ==> match r {
                Ok(part) => {
                    &&& final(self).complete()
                    &&& final(self).coming() == old(self).coming()
                    &&& part@.len() <= want
                    &&& part@.len() == 0 ==> want == 0
                },
                Err(CheckpointError::Reject(found)) => found == old(self).coming()->Err_0,
                Err(e) => e is Io && !old(self).steady(),
            },
    {
        let none: Vec<u8> = Vec::new();
        let ghost start = *self;
        proof {
            if self.coming() is Ok {
                let before = self.buffered() + self.coming()->Ok_0;
                assert(before =~= none@ + self.buffered() + self.coming()->Ok_0);
            }
            if block_step(self.left(), block_size_of(self.head())) is Ok && block_step(
                self.left(),
                block_size_of(self.head()),
            )->Ok_0 is Some {
                lemma_step_bounds(self.left(), block_size_of(self.head()));
            }
        }
        if want == 0 {
            assert(at_most(self.buffered(), 0) =~= none@);
            assert(beyond(self.buffered(), 0) =~= self.buffered());
            return Ok(none);
        }
        if self.pos == self.block.len() {
            assert(self.buffered() =~= Seq::<u8>::empty());
            match self.load_block() {
                Ok(Some(_)) => {},
                Ok(None) => {
                    return Ok(none);
                },
                Err(e) => {
                    return Err(e);
                },
            }
        }
        let ghost mid = *self;
        proof {
            if start.complete() && start.coming() is Ok {
                assert(start.buffered() + start.coming()->Ok_0 =~= mid.buffered()
                    + mid.coming()->Ok_0);
            }
        }
        let have: usize = self.block.len() - self.pos;
        let n: usize = if want < have {
            want
        } else {
            have
        };
        let from: usize = self.pos;
        let part = vstd::slice::slice_to_vec(
            vstd::slice::slice_subrange(self.block.as_slice(), from, from + n),
        );
        self.pos = from + n;
        proof {
            assert(mid.buffered() =~= part@ + self.buffered());
            assert(part@ =~= at_most(mid.buffered(), want as int));
            assert(self.buffered() =~= beyond(mid.buffered(), want as int));
            if start.complete() && start.coming() is Ok {
                let rest = self.coming()->Ok_0;
                assert(mid.buffered() + rest =~= part@ + self.buffered() + rest);
            }
        }
        Ok(part)
    }

    /// Reads and checks all blocks that are left, and says how many user bytes
    /// they hold. None of them is kept.
    #[verifier::rlimit(40)]
    pub fn verify_all(&mut self) -> (r: Result<u64, CheckpointError<R::Error>>)
        requires
            old(self).wf(),
        ensures
            final(self).wf(),
            final(self).same_file(*old(self)),
            !old(self).complete() ==> r is Err,
            r is Err && r->Err_0 is Io ==> !old(self).steady(),
            old(self).complete() ==> match old(self).coming() {
                Ok(data) => match r {
                    Ok(n) => {
                        &&& n == data.len()
                        &&& final(self).complete()
                        &&& final(self).left() == Seq::<u8>::empty()
                        &&& final(self).buffered() == (if old(self).left().len() == 0 {
                            old(self).buffered()
                        } else {
                            Seq::empty()
                        })
                    },
                    Err(e) => e is Io && !old(self).steady(),
                },
                Err(reason) => match r {
                    Ok(_) => false,
                    Err(CheckpointError::Reject(found)) => found == reason,
                    Err(e) => e is Io && !old(self).steady(),
                },
            },
    {
        let mut total: u64 = 0;
        let ghost bs = block_size_of(self.head());
        loop
            invariant
                self.wf(),
                self.same_file(*old(self)),
                self.complete() == old(self).complete(),
                bs == block_size_of(self.head()),
                total + self.remaining <= u64::MAX,
                self.left() == old(self).left() && self.buffered() == old(self).buffered() || {
                    &&& self.buffered() == Seq::<u8>::empty()
                    &&& old(self).left().len() > 0
                },
                old(self).complete() ==> {
                    &&& self.complete()
                    &&& match (old(self).coming(), self.coming()) {
                        (Ok(all), Ok(more)) => all.len() == total + more.len(),
                        (Err(a), Err(b)) => a == b,
                        _ => false,
                    }
                },
            decreases self.remaining,
        {
            proof {
                if block_step(self.left(), bs) is Ok && block_step(self.left(), bs)->Ok_0 is Some {
                    lemma_step_bounds(self.left(), bs);
                }
            }
            match self.load_block() {
                Ok(Some(len)) => {
                    total = total + len as u64;
                    self.pos = self.block.len();
                    assert(self.buffered() =~= Seq::<u8>::empty());
                },
                Ok(None) => {
                    assert(self.left() =~= Seq::<u8>::empty());
                    return Ok(total);
                },
                Err(e) => {
                    return Err(e);
                },
            }
        }
    }

    /// Reads the whole user state into memory. A large state is better read in
    /// parts.
    #[verifier::rlimit(40)]
    pub fn read_all(&mut self) -> (r: Result<Vec<u8>, CheckpointError<R::Error>>)
        requires
            old(self).wf(),
        ensures
            final(self).wf(),
            final(self).same_file(*old(self)),
            !old(self).complete() ==> r is Err,
            r is Err && r->Err_0 is Io ==> !old(self).steady(),
            old(self).complete() ==> match old(self).coming() {
                Ok(data) => match r {
                    Ok(all) => {
                        &&& all@ == old(self).buffered() + data
                        &&& final(self).complete()
                        &&& final(self).left() == Seq::<u8>::empty()
                        &&& final(self).buffered() == Seq::<u8>::empty()
                    },
                    Err(e) => e is Io && !old(self).steady(),
                },
                Err(reason) => match r {
                    Ok(_) => false,
                    Err(CheckpointError::Reject(found)) => found == reason,
                    Err(e) => e is Io && !old(self).steady(),
                },
            },
    {
        let mut out: Vec<u8> = vstd::slice::slice_to_vec(
            vstd::slice::slice_subrange(self.block.as_slice(), self.pos, self.block.len()),
        );
        self.pos = self.block.len();
        let ghost bs = block_size_of(self.head());
        assert(out@ =~= old(self).buffered());
        assert(self.buffered() =~= Seq::<u8>::empty());
        loop
            invariant
                self.wf(),
                self.same_file(*old(self)),
                self.complete() == old(self).complete(),
                bs == block_size_of(self.head()),
                self.buffered() == Seq::<u8>::empty(),
                old(self).complete() ==> {
                    &&& self.complete()
                    &&& match (old(self).coming(), self.coming()) {
                        (Ok(all), Ok(more)) => old(self).buffered() + all == out@ + more,
                        (Err(a), Err(b)) => a == b,
                        _ => false,
                    }
                },
            decreases self.remaining,
        {
            proof {
                if block_step(self.left(), bs) is Ok && block_step(self.left(), bs)->Ok_0 is Some {
                    lemma_step_bounds(self.left(), bs);
                }
            }
            let ghost had = out@;
            let ghost coming = self.coming();
            match self.load_block() {
                Ok(Some(_)) => {
                    let mut part = vstd::slice::slice_to_vec(
                        vstd::slice::slice_subrange(
                            self.block.as_slice(),
                            self.pos,
                            self.block.len(),
                        ),
                    );
                    assert(part@ =~= self.buffered());
                    let ghost data = part@;
                    out.append(&mut part);
                    self.pos = self.block.len();
                    proof {
                        assert(self.buffered() =~= Seq::<u8>::empty());
                        if old(self).complete() && coming is Ok {
                            let more = self.coming()->Ok_0;
                            assert(had + (data + more) =~= out@ + more);
                        }
                    }
                },
                Ok(None) => {
                    assert(out@ + Seq::<u8>::empty() =~= out@);
                    assert(self.left() =~= Seq::<u8>::empty());
                    return Ok(out);
                },
                Err(e) => {
                    return Err(e);
                },
            }
        }
    }
}

/// What was found out about a checkpoint file.
#[derive(Clone, Copy, Debug, PartialEq, Eq)]
pub struct Verification {
    /// The version, `None` if no header was read.
    pub version: Option<u16>,
    /// Length of the header, 0 if it was not read.
    pub header_len: u32,
    /// Size of the file.
    pub file_size: u64,
    /// Number of user bytes, 0 if the file is rejected.
    pub user_data_size: u64,
    /// The block size in the header.
    pub checksum_block_size: u32,
    /// The saved flag in the header.
    pub state_saved: bool,
    /// Why the file is rejected, `None` if it is accepted.
    pub reject: Option<RejectReason>,
}

impl Verification {
    /// Whether the file is accepted.
    pub fn accepted(&self) -> (r: bool)
        ensures
            r == (self.reject is None),
    {
        self.reject.is_none()
    }

    /// The outcome in a word.
    pub fn outcome(&self) -> (r: &'static str)
        ensures
            r@ == (if self.reject is None {
                "accept"@
            } else {
                "reject"@
            }),
    {
        if self.accepted() {
            "accept"
        } else {
            "reject"
        }
    }

    /// The outcome in words.
    pub fn detail(&self) -> (r: &'static str)
        ensures
            r@ == (match self.reject {
                None => "checkpoint valid"@,
                Some(reason) => reason.wording(),
            }),
    {
        match self.reject {
            None => "checkpoint valid",
            Some(reason) => reason.detail(),
        }
    }
}

/// What there is to find out about a checkpoint file.
pub open spec fn verified(file: Seq<u8>) -> Verification {
    let size = file.len() as u64;
    match header_of(file, file.len() as int) {
        Err(reason) => Verification {
            version: None,
            header_len: 0,
            file_size: size,
            user_data_size: 0,
            checksum_block_size: 0,
            state_saved: false,
            reject: Some(reason),
        },
        Ok(h) => {
            let known = Verification {
                version: Some(h.version.num()),
                header_len: if h.len() > u32::MAX {
                    0
                } else {
                    h.len() as u32
                },
                file_size: size,
                user_data_size: 0,
                checksum_block_size: h.checksum_block_size,
                state_saved: h.state_saved,
                reject: None,
            };
            match body_fault(h, file.len() as int) {
                Some(reason) => Verification { reject: Some(reason), ..known },
                None => match state_in(body_of(file, h), block_size_of(h)) {
                    Ok(data) => Verification { user_data_size: data.len() as u64, ..known },
                    Err(reason) => Verification { reject: Some(reason), ..known },
                },
            }
        },
    }
}

/// Reads a whole checkpoint file and checks every block. A malformed file is no
/// error: the result says why it is rejected.
#[verifier::rlimit(40)]
pub fn verify_file<R: SeekSource>(inner: R, file_size: u64) -> (r: Result<
    Verification,
    CheckpointError<R::Error>,
>)
    requires
        inner.rest() == inner.whole(),
        inner.whole().len() == file_size,
    ensures
        match r {
            Ok(v) => v == verified(inner.whole()),
            Err(e) => e is Io && !inner.steady(),
        },
{
    let mut inner = inner;
    let ghost file = inner.whole();
    let mut found = Verification {
        version: None,
        header_len: 0,
        file_size,
        user_data_size: 0,
        checksum_block_size: 0,
        state_saved: false,
        reject: None,
    };
    match read_header(&mut inner, file_size) {
        Ok(header) => {
            found.version = Some(header.version.raw());
            found.header_len = match header.marshal_len() {
                Some(len) => len,
                None => 0,
            };
            found.checksum_block_size = header.checksum_block_size;
            found.state_saved = header.state_saved;
        },
        Err(CheckpointError::Reject(reason)) => {
            found.reject = Some(reason);
            return Ok(found);
        },
        Err(e) => {
            return Err(e);
        },
    }
    match inner.seek(0) {
        Ok(_) => {},
        Err(e) => {
            return Err(CheckpointError::Io(e));
        },
    }
    assert(beyond(file, 0) =~= file);
    let mut reader = match CheckpointReader::new(inner, file_size) {
        Ok(reader) => reader,
        Err(CheckpointError::Reject(reason)) => {
            found.reject = Some(reason);
            return Ok(found);
        },
        Err(e) => {
            return Err(e);
        },
    };
    match reader.verify_all() {
        Ok(n) => {
            found.user_data_size = n;
        },
        Err(CheckpointError::Reject(reason)) => {
            found.reject = Some(reason);
        },
        Err(e) => {
            return Err(e);
        },
    }
    Ok(found)
}

} // verus!
