//! Writing checkpoint files.

use vstd::prelude::*;

use super::blocks::{blocked, lemma_blocked_last, state_in, stored_state};
use super::header::{CheckpointHeader, CheckpointView};
use super::reader::{block_size_of, body_of, header_of, verified};
use super::{CheckpointError, RejectReason, WriteError};
use crate::bytes::{le64, push_zeros, zeros};
use crate::dir::parsed_name;
use crate::durability::{
    done_in_part, grew_by_writes, lemma_opened_empty, lemma_removed_is_gone, live_file, open_ops,
    parent_of, publish_ops, remove_ops, write_one, Durability, FilePath, OpenMode, PathView,
};
use crate::fprint::{fingerprint, fingerprint_with, fp, law_fingerprint_chains, POLY};
use crate::marshal::Writer;
use crate::sim::{
    crash_image, flat_in, law_publication_is_all_or_nothing, written, CrashPolicy, OpView,
};
use crate::{CHECKSUM_SIZE, PAGE_SIZE};

verus! {

broadcast use crate::bytes::group_le_len;

/// The name under which a checkpoint is built.
pub open spec fn tmp_path(path: PathView) -> PathView {
    PathView { dir: path.dir, name: path.name + ".tmp"@ }
}

/// The path under which a checkpoint is built.
pub fn tmp_path_for(path: &FilePath) -> (r: FilePath)
    ensures
        r@ == tmp_path(path@),
{
    let mut name = path.name.clone();
    name.append(".tmp");
    FilePath { dir: path.dir.clone(), name }
}

/// Why a checkpoint with this header is not begun, if it is not.
pub open spec fn create_refusal(h: CheckpointView) -> Option<WriteError> {
    if h.lacks_configuration() {
        Some(WriteError::MissingConfiguration)
    } else if h.len() > u32::MAX {
        Some(WriteError::HeaderTooLarge)
    } else if h.blocks() && h.checksum_block_size % 512 != 0 {
        Some(WriteError::BlockSizeNotPageMultiple(h.checksum_block_size))
    } else if h.blocks() && h.checksum_block_size <= 8 {
        Some(WriteError::BlockSizeTooSmall(h.checksum_block_size))
    } else {
        None
    }
}

/// The header of a finished checkpoint that holds the user state `state`: its
/// size is that of the whole file.
pub open spec fn finished_header(h: CheckpointView, state: Seq<u8>) -> CheckpointView {
    CheckpointView {
        size: (h.len() + stored_state(state, block_size_of(h)).len()) as u64,
        ..h
    }
}

/// A finished checkpoint file.
pub open spec fn checkpoint_file(h: CheckpointView, state: Seq<u8>) -> Seq<u8> {
    finished_header(h, state).bytes() + stored_state(state, block_size_of(h))
}

/// The file that was being built, `tmp`, was written to, and then its removal was
/// asked for.
pub open spec fn given_up(before: Seq<OpView>, after: Seq<OpView>, tmp: PathView) -> bool {
    exists|mid: Seq<OpView>| #[trigger]
        grew_by_writes(before, mid, tmp, 0) && done_in_part(mid, after, remove_ops(mid, tmp))
}

/// The file that was being built, `tmp`, was written to. Once it held all of
/// `file` it was published, perhaps in part.
pub open spec fn published_in_part(
    before: Seq<OpView>,
    after: Seq<OpView>,
    tmp: PathView,
    target: PathView,
    file: Seq<u8>,
) -> bool {
    exists|mid: Seq<OpView>| #[trigger]
        grew_by_writes(before, mid, tmp, 0) && live_file(mid, tmp) == Some(file) && done_in_part(
            mid,
            after,
            publish_ops(tmp, target),
        )
}

/// The checksum that the last block of `state` still lacks while more state may
/// come.
pub open spec fn pending_token(state: Seq<u8>, block_size: Option<u32>) -> int {
    if block_size is Some && state.len() > 0 {
        8
    } else {
        0
    }
}

/// Writes a checkpoint file: it leaves room for the header, splits the user
/// state into blocks, and in the end writes the header and publishes the file.
///
/// The file is built under another name and gets its own only when it is
/// complete and safe. Nothing but the caller's own bytes is held in memory.
pub struct CheckpointWriter<D: Durability> {
    header: CheckpointHeader,
    header_len: u32,
    tmp_path: FilePath,
    final_path: FilePath,
    file: D::File,
    durability: D,
    block_size: Option<u32>,
    data_offset: u32,
    checksum: u64,
    bytes_issued: u64,
    user_bytes: u64,
    done: Ghost<Seq<u8>>,
    current: Ghost<Seq<u8>>,
}

impl<D: Durability> CheckpointWriter<D> {
    /// The header as it was given.
    pub closed spec fn head(self) -> CheckpointView {
        self.header@
    }

    /// The path that the file will have.
    pub closed spec fn target(self) -> PathView {
        self.final_path@
    }

    /// Everything that was asked of the file system.
    pub closed spec fn history(self) -> Seq<OpView> {
        self.durability.history()
    }

    /// The user state so far.
    pub closed spec fn state(self) -> Seq<u8> {
        self.done@ + self.current@
    }

    /// The path that the file has while it is built.
    pub open spec fn building(self) -> PathView {
        tmp_path(self.target())
    }

    /// Size that the file will have with the user state so far.
    pub open spec fn file_len(self) -> int {
        self.head().len() + stored_state(self.state(), block_size_of(self.head())).len()
    }

    /// The file system does whatever can be done.
    pub closed spec fn reliable(self) -> bool {
        self.durability.reliable()
    }

    /// The writer can be given up. This holds after an error too.
    pub closed spec fn usable(self) -> bool {
        &&& self.durability.ok()
        &&& D::path_of(&self.file) == self.tmp_path@
        &&& self.tmp_path@ == tmp_path(self.final_path@)
    }

    /// What the writer's own fields obey. A full block is not ended before more
    /// state comes, so once there is some, the current block holds some too.
    pub closed spec fn wf(self) -> bool {
        self.coherent() && (self.current@.len() == 0 && self.block_size is Some
            ==> self.done@.len() == 0)
    }

    /// What the writer's own fields obey while state is written.
    #[verifier::opaque]
    closed spec fn coherent(self) -> bool {
        let bs = block_size_of(self.header@);
        let content = live_file(self.durability.history(), self.tmp_path@);
        &&& self.durability.ok()
        &&& D::path_of(&self.file) == self.tmp_path@
        &&& self.tmp_path@ == tmp_path(self.final_path@)
        &&& self.header@.writable()
        &&& self.header@.measurable()
        &&& create_refusal(self.header@) is None
        &&& self.header_len == self.header@.len()
        &&& self.block_size == bs
        &&& self.user_bytes == self.state().len()
        &&& self.data_offset == self.current@.len()
        &&& content is Some
        &&& content->Some_0.len() == self.bytes_issued
        &&& match bs {
            Some(size) => {
                let room = size - 8;
                &&& self.done@.len() as int % room == 0
                &&& self.current@.len() <= room
                &&& self.current@.len() > 0 ==> self.checksum == fp(self.current@)
                &&& content->Some_0 == zeros(self.header_len as nat) + blocked(self.done@, room)
                    + self.current@
            },
            None => {
                &&& self.current@.len() == 0
                &&& content->Some_0 == zeros(self.header_len as nat) + self.done@
            },
        }
    }

    /// Begins a checkpoint. A header that has no form on disk is refused before
    /// the file system is touched, and so is a block size that no block can
    /// have. With an error the policy is given back.
    #[verifier::rlimit(40)]
    pub fn create_with(path: &FilePath, header: CheckpointHeader, durability: D) -> (r: Result<
        CheckpointWriter<D>,
        (CheckpointError<D::Error>, D),
    >)
        requires
            durability.ok(),
            header@.writable(),
            header@.measurable(),
        ensures
            match create_refusal(header@) {
                Some(e) => match r {
                    Ok(_) => false,
                    Err((found, after)) => {
                        &&& found == CheckpointError::<D::Error>::Write(e)
                        &&& after.ok()
                        &&& after.reliable() == durability.reliable()
                        &&& after.history() == durability.history()
                    },
                },
                None => match r {
                    Ok(w) => {
                        let h = durability.history();
                        let tmp = tmp_path(path@);
                        &&& w.wf()
                        &&& w.usable()
                        &&& w.reliable() == durability.reliable()
                        &&& w.head() == header@
                        &&& w.target() == path@
                        &&& w.state() == Seq::<u8>::empty()
                        &&& grew_by_writes(
                            h + open_ops(h, tmp, OpenMode::Create),
                            w.history(),
                            tmp,
                            0,
                        )
                    },
                    Err((e, after)) => {
                        let h = durability.history();
                        let tmp = tmp_path(path@);
                        let ops = open_ops(h, tmp, OpenMode::Create);
                        &&& e is Io
                        &&& !durability.reliable()
                        &&& after.ok()
                        &&& after.reliable() == durability.reliable()
                        &&& done_in_part(h, after.history(), ops) || grew_by_writes(
                            h + ops,
                            after.history(),
                            tmp,
                            0,
                        )
                    },
                },
            },
    {
        let mut durability = durability;
        if header.version.has_checkpoint_header() && header.state_configuration.is_none() {
            return Err((CheckpointError::Write(WriteError::MissingConfiguration), durability));
        }
        let header_len: u32 = match header.marshal_len() {
            Some(len) => len,
            None => {
                return Err((CheckpointError::Write(WriteError::HeaderTooLarge), durability));
            },
        };
        let mut block_size: Option<u32> = None;
        if header.uses_blocks() {
            let size: u32 = header.checksum_block_size;
            if size % PAGE_SIZE != 0 {
                let e = WriteError::BlockSizeNotPageMultiple(size);
                return Err((CheckpointError::Write(e), durability));
            }
            if size <= CHECKSUM_SIZE {
                let e = WriteError::BlockSizeTooSmall(size);
                return Err((CheckpointError::Write(e), durability));
            }
            block_size = Some(size);
        }
        let tmp_path = tmp_path_for(path);
        let ghost h = durability.history();
        let ghost tmp = tmp_path@;
        let file = match durability.open(&tmp_path, OpenMode::Create) {
            Ok(file) => file,
            Err(e) => {
                return Err((CheckpointError::Io(e), durability));
            },
        };
        proof {
            lemma_opened_empty(h, tmp);
        }
        let ghost opened = durability.history();
        let mut reserved: Vec<u8> = Vec::new();
        push_zeros(&mut reserved, header_len as usize);
        assert(reserved@ =~= zeros(header_len as nat));
        match write_one(&mut durability, &file, 0, reserved.as_slice()) {
            Ok(_) => {},
            Err(e) => {
                return Err((CheckpointError::Io(e), durability));
            },
        }
        let w = CheckpointWriter {
            header,
            header_len,
            tmp_path,
            final_path: path.clone(),
            file,
            durability,
            block_size,
            data_offset: 0,
            checksum: 0,
            bytes_issued: header_len as u64,
            user_bytes: 0,
            done: Ghost(Seq::empty()),
            current: Ghost(Seq::empty()),
        };
        proof {
            reveal(CheckpointWriter::coherent);
            assert(w.state() =~= Seq::<u8>::empty());
            let content = live_file(w.history(), tmp)->Some_0;
            assert(content =~= zeros(header_len as nat));
            match block_size {
                Some(size) => {
                    assert(blocked(Seq::<u8>::empty(), size - 8) == Seq::<u8>::empty());
                    assert(content =~= zeros(header_len as nat) + blocked(
                        Seq::<u8>::empty(),
                        size - 8,
                    ) + Seq::<u8>::empty());
                    vstd::arithmetic::div_mod::lemma_small_mod(0, (size - 8) as nat);
                },
                None => {
                    assert(content =~= zeros(header_len as nat) + Seq::<u8>::empty());
                },
            }
        }
        Ok(w)
    }

    /// The header. Its size is that of the file only when the file is finished.
    pub fn header(&self) -> (r: &CheckpointHeader)
        ensures
            r@ == self.head(),
    {
        &self.header
    }

    /// Number of user bytes so far.
    pub fn user_bytes(&self) -> (r: u64)
        requires
            self.wf(),
        ensures
            r == self.state().len(),
    {
        proof {
            self.lemma_fields();
        }
        self.user_bytes
    }

    /// Size that the file will have with the user bytes so far: the header, the
    /// user bytes and all checksums, that of the last block included.
    pub fn bytes_issued(&self) -> (r: u64)
        requires
            self.wf(),
            self.file_len() <= u64::MAX,
        ensures
            r == self.file_len(),
    {
        proof {
            self.lemma_issued();
        }
        self.bytes_issued + self.pending_checksum_len() as u64
    }

    fn pending_checksum_len(&self) -> (r: u32)
        requires
            self.wf(),
        ensures
            r == pending_token(self.state(), self.block_size),
    {
        proof {
            reveal(CheckpointWriter::coherent);
        }
        if self.block_size.is_some() && self.data_offset > 0 {
            CHECKSUM_SIZE
        } else {
            0
        }
    }

    proof fn lemma_issued(self)
        requires
            self.wf(),
        ensures
            self.file_len() == self.bytes_issued + pending_token(self.state(), self.block_size),
    {
        reveal(CheckpointWriter::coherent);
        match self.block_size {
            Some(size) => {
                let room = size - 8;
                if self.current@.len() > 0 {
                    lemma_blocked_last(self.done@, self.current@, room);
                } else {
                    assert(self.state() =~= Seq::<u8>::empty());
                    assert(blocked(self.done@, room) =~= Seq::<u8>::empty());
                }
            },
            None => {
                assert(self.state() =~= self.done@);
            },
        }
    }

    proof fn lemma_fields(self)
        requires
            self.coherent(),
        ensures
            self.data_offset == self.current@.len(),
            self.user_bytes == self.state().len(),
            self.tmp_path@ == tmp_path(self.final_path@),
            self.header_len == self.header@.len(),
            self.block_size == block_size_of(self.header@),
            self.block_size is Some ==> {
                &&& self.block_size->Some_0 > 8
                &&& self.current@.len() <= self.block_size->Some_0 - 8
                &&& self.done@.len() as int % (self.block_size->Some_0 - 8) == 0
            },
    {
        reveal(CheckpointWriter::coherent);
    }

    proof fn lemma_partly_issued(self)
        requires
            self.coherent(),
            self.block_size is Some,
        ensures
            self.bytes_issued == self.header@.len() + blocked(
                self.done@,
                self.block_size->Some_0 - 8,
            ).len() + self.current@.len(),
    {
        reveal(CheckpointWriter::coherent);
    }

    /// The writer builds the same file.
    closed spec fn same_job(self, other: CheckpointWriter<D>) -> bool {
        &&& self.header == other.header
        &&& self.header_len == other.header_len
        &&& self.tmp_path == other.tmp_path
        &&& self.final_path == other.final_path
        &&& self.file == other.file
        &&& self.block_size == other.block_size
    }

    /// Writes bytes behind those that were written.
    fn put(&mut self, data: &[u8]) -> (r: Result<(), D::Error>)
        requires
            old(self).durability.ok(),
            D::path_of(&old(self).file) == old(self).tmp_path@,
            live_file(old(self).history(), old(self).tmp_path@) is Some,
            live_file(old(self).history(), old(self).tmp_path@)->Some_0.len() == old(
                self,
            ).bytes_issued,
            old(self).bytes_issued + data@.len() <= u64::MAX,
        ensures
            final(self).durability.ok(),
            final(self).reliable() == old(self).reliable(),
            old(self).reliable() && old(self).bytes_issued + data@.len() <= usize::MAX ==> r is Ok,
            grew_by_writes(old(self).history(), final(self).history(), old(self).tmp_path@, 0),
            r is Ok ==> {
                &&& *final(self) == (CheckpointWriter {
                    durability: final(self).durability,
                    bytes_issued: (old(self).bytes_issued + data@.len()) as u64,
                    ..*old(self)
                })
                &&& live_file(final(self).history(), old(self).tmp_path@) == Some(
                    live_file(old(self).history(), old(self).tmp_path@)->Some_0 + data@,
                )
            },
            r is Err ==> *final(self) == (CheckpointWriter {
                durability: final(self).durability,
                ..*old(self)
            }),
    {
        let ghost content = live_file(self.history(), self.tmp_path@)->Some_0;
        let offset: u64 = self.bytes_issued;
        proof {
            assert(written(content, offset as int, data@) =~= content + data@);
        }
        match write_one(&mut self.durability, &self.file, offset, data) {
            Ok(_) => {
                self.bytes_issued = offset + data.len() as u64;
                Ok(())
            },
            Err(e) => Err(e),
        }
    }

    /// Ends the current block with its checksum.
    fn seal(&mut self) -> (r: Result<(), D::Error>)
        requires
            old(self).coherent(),
            old(self).block_size is Some,
            old(self).current@.len() > 0,
            old(self).bytes_issued + 8 <= u64::MAX,
        ensures
            final(self).usable(),
            final(self).reliable() == old(self).reliable(),
            old(self).reliable() && old(self).bytes_issued + 8 <= usize::MAX ==> r is Ok,
            grew_by_writes(old(self).history(), final(self).history(), old(self).tmp_path@, 0),
            r is Ok ==> {
                &&& *final(self) == (CheckpointWriter {
                    durability: final(self).durability,
                    bytes_issued: (old(self).bytes_issued + 8) as u64,
                    ..*old(self)
                })
                &&& live_file(final(self).history(), old(self).tmp_path@) == Some(
                    zeros(old(self).header_len as nat) + blocked(
                        old(self).state(),
                        old(self).block_size->Some_0 - 8,
                    ),
                )
            },
            r is Err ==> final(self).same_job(*old(self)),
    {
        proof {
            reveal(CheckpointWriter::coherent);
        }
        let mut token = Writer::new();
        token.write_u64(self.checksum);
        let bytes = token.into_bytes();
        proof {
            assert(bytes@ =~= le64(self.checksum));
            let room = self.block_size->Some_0 - 8;
            lemma_blocked_last(self.done@, self.current@, room);
            let content = live_file(self.history(), self.tmp_path@)->Some_0;
            assert(content + le64(fp(self.current@)) =~= zeros(self.header_len as nat) + blocked(
                self.state(),
                room,
            ));
        }
        self.put(bytes.as_slice())
    }

    /// Appends user state.
    #[verifier::rlimit(40)]
    pub fn write_state(&mut self, data: &[u8]) -> (r: Result<(), D::Error>)
        requires
            old(self).wf(),
            old(self).head().len() + stored_state(
                old(self).state() + data@,
                block_size_of(old(self).head()),
            ).len() <= u64::MAX,
        ensures
            final(self).usable(),
            final(self).reliable() == old(self).reliable(),
            final(self).head() == old(self).head(),
            final(self).target() == old(self).target(),
            grew_by_writes(old(self).history(), final(self).history(), old(self).building(), 0),
            r is Ok ==> final(self).wf() && final(self).state() == old(self).state() + data@,
            old(self).reliable() && old(self).head().len() + stored_state(
                old(self).state() + data@,
                block_size_of(old(self).head()),
            ).len() <= usize::MAX ==> r is Ok,
    {
        let ghost h = self.history();
        let ghost tmp = self.tmp_path@;
        assert(h.take(h.len() as int) =~= h);
        proof {
            self.lemma_fields();
            assert(self.usable()) by {
                reveal(CheckpointWriter::coherent);
            }
        }
        let block_size: u32 = match self.block_size {
            Some(size) => size,
            None => {
                proof {
                    reveal(CheckpointWriter::coherent);
                    assert(self.state() =~= self.done@);
                    assert(self.done@ + data@ =~= self.state() + data@);
                    let content = live_file(self.history(), tmp)->Some_0;
                    assert(content + data@ =~= zeros(self.header_len as nat) + (self.done@
                        + data@));
                }
                match self.put(data) {
                    Ok(_) => {},
                    Err(e) => {
                        return Err(e);
                    },
                }
                self.user_bytes = self.user_bytes + data.len() as u64;
                self.done = Ghost(self.done@ + data@);
                assert(self.state() =~= old(self).state() + data@);
                return Ok(());
            },
        };
        let ghost room = block_size - 8;
        let ghost all = self.state() + data@;
        let mut at: usize = 0;
        assert(data@.skip(0) =~= data@);
        while at < data.len()
            invariant
                at <= data@.len(),
                self.wf(),
                self.usable(),
                self.same_job(*old(self)),
                self.reliable() == old(self).reliable(),
                tmp == self.tmp_path@,
                tmp == old(self).building(),
                h == old(self).history(),
                self.block_size == Some(block_size),
                block_size_of(old(self).head()) == Some(block_size),
                block_size > 8,
                room == block_size - 8,
                all == old(self).state() + data@,
                self.state() + data@.skip(at as int) == all,
                self.head().len() + blocked(all, room).len() <= u64::MAX,
                grew_by_writes(h, self.history(), tmp, 0),
            decreases data@.len() - at,
        {
            let ghost start = *self;
            let rest = vstd::slice::slice_subrange(data, at, data.len());
            assert(rest@ =~= data@.skip(at as int));
            match self.fill_block(rest) {
                Ok(n) => {
                    proof {
                        lemma_grown_on(h, start.history(), self.history(), tmp);
                        assert(rest@ =~= rest@.take(n as int) + data@.skip(at + n));
                        assert(self.state() + data@.skip(at + n) =~= all);
                    }
                    at = at + n;
                },
                Err(e) => {
                    proof {
                        lemma_grown_on(h, start.history(), self.history(), tmp);
                    }
                    return Err(e);
                },
            }
        }
        proof {
            assert(data@.skip(at as int) =~= Seq::empty());
            assert(self.state() =~= all);
        }
        Ok(())
    }

    /// Appends as much user state as the current block takes, or a new one if it
    /// is full.
    #[verifier::rlimit(40)]
    fn fill_block(&mut self, data: &[u8]) -> (r: Result<usize, D::Error>)
        requires
            old(self).wf(),
            old(self).block_size is Some,
            data@.len() > 0,
            old(self).head().len() + blocked(
                old(self).state() + data@,
                old(self).block_size->Some_0 - 8,
            ).len() <= u64::MAX,
        ensures
            final(self).same_job(*old(self)),
            final(self).usable(),
            final(self).reliable() == old(self).reliable(),
            grew_by_writes(old(self).history(), final(self).history(), old(self).tmp_path@, 0),
            old(self).reliable() && old(self).head().len() + blocked(
                old(self).state() + data@,
                old(self).block_size->Some_0 - 8,
            ).len() <= usize::MAX ==> r is Ok,
            r is Ok ==> {
                &&& 0 < r->Ok_0 <= data@.len()
                &&& final(self).wf()
                &&& final(self).state() == old(self).state() + data@.take(r->Ok_0 as int)
            },
    {
        let ghost h = self.history();
        let ghost tmp = self.tmp_path@;
        let ghost before = self.state();
        let ghost room = self.block_size->Some_0 - 8;
        proof {
            self.lemma_fields();
            self.lemma_issued();
            lemma_blocked_grows(before, data@, room);
            assert(h.take(h.len() as int) =~= h);
        }
        let data_only: u32 = match self.block_size {
            Some(size) => size - CHECKSUM_SIZE,
            None => 0,
        };
        if self.data_offset == data_only {
            match self.seal_full() {
                Ok(_) => {},
                Err(e) => {
                    return Err(e);
                },
            }
        }
        let ghost mid = *self;
        proof {
            mid.lemma_fields();
            mid.lemma_partly_issued();
        }
        let left: usize = data.len();
        let free: usize = (data_only - self.data_offset) as usize;
        let take: usize = if left < free {
            left
        } else {
            free
        };
        let chunk = vstd::slice::slice_subrange(data, 0, take);
        proof {
            assert(chunk@ =~= data@.take(take as int));
            let rest = data@.skip(take as int);
            assert(before + data@ =~= (before + chunk@) + rest);
            let next = mid.current@ + chunk@;
            assert(mid.done@ + next =~= before + chunk@);
            lemma_blocked_last(mid.done@, next, room);
            lemma_blocked_grows(before + chunk@, rest, room);
            lemma_blocked_len(before + chunk@, room);
        }
        match self.extend_block(chunk) {
            Ok(_) => {
                proof {
                    lemma_grown_on(h, mid.history(), self.history(), tmp);
                }
                Ok(take)
            },
            Err(e) => {
                proof {
                    lemma_grown_on(h, mid.history(), self.history(), tmp);
                }
                Err(e)
            },
        }
    }

    /// Ends the current block, which is full, and begins a new one.
    #[verifier::rlimit(40)]
    fn seal_full(&mut self) -> (r: Result<(), D::Error>)
        requires
            old(self).wf(),
            old(self).block_size is Some,
            old(self).current@.len() == old(self).block_size->Some_0 - 8,
            old(self).bytes_issued + 8 <= u64::MAX,
        ensures
            final(self).same_job(*old(self)),
            final(self).usable(),
            final(self).reliable() == old(self).reliable(),
            old(self).reliable() && old(self).bytes_issued + 8 <= usize::MAX ==> r is Ok,
            grew_by_writes(old(self).history(), final(self).history(), old(self).tmp_path@, 0),
            r is Ok ==> {
                &&& final(self).coherent()
                &&& final(self).done@ == old(self).state()
                &&& final(self).current@ == Seq::<u8>::empty()
                &&& final(self).state() == old(self).state()
            },
    {
        let ghost before = self.state();
        let ghost room = self.block_size->Some_0 - 8;
        let ghost start = *self;
        proof {
            reveal(CheckpointWriter::coherent);
            self.lemma_issued();
        }
        match self.seal() {
            Ok(_) => {},
            Err(e) => {
                return Err(e);
            },
        }
        self.data_offset = 0;
        self.done = Ghost(before);
        self.current = Ghost(Seq::empty());
        proof {
            vstd::arithmetic::div_mod::lemma_mod_add_multiples_vanish(
                start.done@.len() as int,
                room,
            );
            assert(before.len() == start.done@.len() + room);
            assert(before.len() as int % room == 0);
            assert(self.state() =~= before);
            let content = live_file(self.history(), self.tmp_path@)->Some_0;
            assert(content =~= zeros(self.header_len as nat) + blocked(before, room) + Seq::<
                u8,
            >::empty());
        }
        Ok(())
    }

    /// Adds data to the current block, which has room for it.
    #[verifier::rlimit(40)]
    fn extend_block(&mut self, chunk: &[u8]) -> (r: Result<(), D::Error>)
        requires
            old(self).coherent(),
            old(self).block_size is Some,
            chunk@.len() > 0,
            old(self).current@.len() + chunk@.len() <= old(self).block_size->Some_0 - 8,
            old(self).bytes_issued + chunk@.len() <= u64::MAX,
            old(self).user_bytes + chunk@.len() <= u64::MAX,
        ensures
            final(self).same_job(*old(self)),
            final(self).usable(),
            final(self).reliable() == old(self).reliable(),
            old(self).reliable() && old(self).bytes_issued + chunk@.len() <= usize::MAX ==> r is Ok,
            grew_by_writes(old(self).history(), final(self).history(), old(self).tmp_path@, 0),
            r is Ok ==> final(self).wf() && final(self).state() == old(self).state() + chunk@,
    {
        let ghost room = self.block_size->Some_0 - 8;
        let ghost start = *self;
        let ghost next = self.current@ + chunk@;
        proof {
            reveal(CheckpointWriter::coherent);
            law_fingerprint_chains(POLY, self.current@, chunk@);
            let content = live_file(self.history(), self.tmp_path@)->Some_0;
            assert(content + chunk@ =~= zeros(self.header_len as nat) + blocked(self.done@, room)
                + next);
        }
        let n: usize = chunk.len();
        let checksum: u64 = if self.data_offset == 0 {
            assert(next =~= chunk@);
            fingerprint(chunk)
        } else {
            fingerprint_with(self.checksum, chunk)
        };
        match self.put(chunk) {
            Ok(_) => {},
            Err(e) => {
                return Err(e);
            },
        }
        self.checksum = checksum;
        self.user_bytes = self.user_bytes + n as u64;
        self.data_offset = self.data_offset + n as u32;
        self.current = Ghost(next);
        assert(self.state() =~= start.state() + chunk@);
        Ok(())
    }

    /// Appends user state and says how much, which is all of it.
    pub fn write(&mut self, data: &[u8]) -> (r: Result<usize, D::Error>)
        requires
            old(self).wf(),
            old(self).head().len() + stored_state(
                old(self).state() + data@,
                block_size_of(old(self).head()),
            ).len() <= u64::MAX,
        ensures
            final(self).usable(),
            final(self).reliable() == old(self).reliable(),
            final(self).head() == old(self).head(),
            final(self).target() == old(self).target(),
            grew_by_writes(old(self).history(), final(self).history(), old(self).building(), 0),
            old(self).reliable() && old(self).head().len() + stored_state(
                old(self).state() + data@,
                block_size_of(old(self).head()),
            ).len() <= usize::MAX ==> r is Ok,
            r is Ok ==> r->Ok_0 == data@.len() && final(self).wf() && final(self).state() == old(
                self,
            ).state() + data@,
    {
        match self.write_state(data) {
            Ok(_) => Ok(data.len()),
            Err(e) => Err(e),
        }
    }

    /// Ends the last block, writes the header with the size of the whole file,
    /// and publishes the file. The result is the header as it was written, and
    /// the policy. If the last block cannot be ended, or the header has no written
    /// form, the file is removed. If the header cannot be written to the file, or
    /// the file cannot be published, it stays under its other name.
    #[verifier::rlimit(40)]
    pub fn finish(self) -> (r: Result<(CheckpointHeader, D), (CheckpointError<D::Error>, D)>)
        requires
            self.wf(),
            self.file_len() <= u64::MAX,
        ensures
            match self.head().refusal() {
                Some(e) => match r {
                    Ok(_) => false,
                    Err((found, durability)) => {
                        &&& found == CheckpointError::<D::Error>::Write(e) || found is Io
                        &&& durability.ok()
                        &&& durability.reliable() == self.reliable()
                        &&& given_up(self.history(), durability.history(), self.building())
                        &&& self.reliable() && self.file_len() <= usize::MAX ==> {
                            &&& found is Write
                            &&& live_file(durability.history(), self.building()) is None
                        }
                    },
                },
                None => match r {
                    Ok((header, durability)) => {
                        let built = durability.history().take(
                            durability.history().len() - 3,
                        );
                        &&& header@ == (CheckpointView {
                            un_marshal_len: self.head().len() as u32,
                            ..finished_header(self.head(), self.state())
                        })
                        &&& durability.ok()
                        &&& durability.reliable() == self.reliable()
                        &&& durability.history().len() >= 3
                        &&& durability.history() == built + publish_ops(
                            self.building(),
                            self.target(),
                        )
                        &&& grew_by_writes(self.history(), built, self.building(), 0)
                        &&& live_file(built, self.building()) == Some(
                            checkpoint_file(self.head(), self.state()),
                        )
                    },
                    Err((e, durability)) => {
                        &&& e is Io
                        &&& durability.ok()
                        &&& durability.reliable() == self.reliable()
                        &&& !self.reliable() || self.file_len() > usize::MAX
                        &&& {
                            let h = self.history();
                            let after = durability.history();
                            ||| given_up(h, after, self.building())
                            ||| grew_by_writes(h, after, self.building(), 0)
                            ||| published_in_part(
                                h,
                                after,
                                self.building(),
                                self.target(),
                                checkpoint_file(self.head(), self.state()),
                            )
                        }
                    },
                },
            },
    {
        let mut w = self;
        let ghost h = w.history();
        let ghost tmp = w.tmp_path@;
        let ghost head = w.header@;
        let ghost state = w.state();
        let ghost bs = block_size_of(head);
        let ghost stored = stored_state(state, bs);
        proof {
            reveal(CheckpointWriter::coherent);
            w.lemma_issued();
            assert(h.take(h.len() as int) =~= h);
            if w.current@.len() == 0 {
                assert(state =~= w.done@);
                assert(w.done@ + w.current@ =~= w.done@);
            }
        }
        if w.block_size.is_some() && w.data_offset > 0 {
            match w.seal() {
                Ok(_) => {},
                Err(e) => {
                    let (_, durability) = w.abandon();
                    assert(given_up(h, durability.history(), tmp));
                    return Err((CheckpointError::Io(e), durability));
                },
            }
        } else {
            proof {
                if bs is Some {
                    assert(w.current@ =~= Seq::<u8>::empty());
                    assert(state =~= Seq::<u8>::empty());
                    assert(blocked(state, bs->Some_0 - 8) =~= Seq::<u8>::empty());
                    assert(zeros(w.header_len as nat) + blocked(w.done@, bs->Some_0 - 8)
                        + w.current@ =~= zeros(w.header_len as nat) + stored);
                }
            }
        }
        let ghost sealed = w.history();
        let ghost content = live_file(sealed, tmp)->Some_0;
        assert(content == zeros(w.header_len as nat) + stored);
        w.header.size = w.bytes_issued;
        proof {
            assert(w.header@ == finished_header(head, state));
            lemma_same_shape(head, w.header@);
        }
        let blob = match w.header.marshal() {
            Ok(blob) => blob,
            Err(e) => {
                assert(w.history() == sealed);
                let (_, durability) = w.abandon();
                assert(grew_by_writes(h, sealed, tmp, 0));
                assert(given_up(h, durability.history(), tmp));
                return Err((CheckpointError::Write(e), durability));
            },
        };
        let mut header = w.header;
        header.un_marshal_len = w.header_len;
        let mut durability = w.durability;
        match write_one(&mut durability, &w.file, 0, blob.as_slice()) {
            Ok(_) => {},
            Err(e) => {
                proof {
                    lemma_grown_on(h, sealed, durability.history(), tmp);
                }
                return Err((CheckpointError::Io(e), durability));
            },
        }
        let ghost built = durability.history();
        proof {
            lemma_grown_on(h, sealed, built, tmp);
            assert(written(content, 0, blob@) =~= blob@ + stored);
        }
        match durability.rename_durable(&w.file, &w.tmp_path, &w.final_path) {
            Ok(_) => {
                proof {
                    assert(durability.history().take(durability.history().len() - 3) =~= built);
                }
                Ok((header, durability))
            },
            Err(e) => Err((CheckpointError::Io(e), durability)),
        }
    }

    /// Gives the checkpoint up and removes the file that was built so far.
    pub fn abandon(self) -> (r: (Result<(), D::Error>, D))
        requires
            self.usable(),
        ensures
            r.1.ok(),
            r.1.reliable() == self.reliable(),
            self.reliable() ==> r.0 is Ok,
            r.0 is Ok ==> {
                &&& r.1.history() == self.history() + remove_ops(self.history(), self.building())
                &&& live_file(r.1.history(), self.building()) is None
            },
            done_in_part(
                self.history(),
                r.1.history(),
                remove_ops(self.history(), self.building()),
            ),
    {
        let mut durability = self.durability;
        let ghost h = durability.history();
        let r = durability.remove_file(&self.tmp_path);
        proof {
            lemma_removed_is_gone(h, self.building());
            let ops = remove_ops(h, self.building());
            assert(ops.take(ops.len() as int) =~= ops);
        }
        (r, durability)
    }
}

proof fn lemma_same_shape(h: CheckpointView, g: CheckpointView)
    requires
        g == (CheckpointView { size: g.size, ..h }),
    ensures
        g.len() == h.len(),
        g.refusal() == h.refusal(),
        g.writable() == h.writable(),
        g.measurable() == h.measurable(),
{
}

proof fn lemma_grown_on(a: Seq<OpView>, b: Seq<OpView>, c: Seq<OpView>, path: PathView)
    requires
        grew_by_writes(a, b, path, 0),
        grew_by_writes(b, c, path, 0),
    ensures
        grew_by_writes(a, c, path, 0),
{
    assert(c.take(a.len() as int) =~= b.take(a.len() as int)) by {
        assert forall|i: int| 0 <= i < a.len() implies c[i] == b[i] by {
            assert(c.take(b.len() as int)[i] == b[i]);
        }
    }
    assert forall|i: int| a.len() <= i < c.len() implies crate::durability::writes_beyond(
        #[trigger] c[i],
        path,
        0,
    ) by {
        if i < b.len() {
            assert(c.take(b.len() as int)[i] == b[i]);
            assert(crate::durability::writes_beyond(b[i], path, 0));
        }
    }
}

proof fn lemma_blocked_len(data: Seq<u8>, room: int)
    requires
        room > 0,
    ensures
        blocked(data, room).len() >= data.len(),
    decreases data.len(),
{
    if data.len() > room {
        lemma_blocked_len(data.skip(room), room);
    }
}

/// More data takes no less room in the file.
proof fn lemma_blocked_grows(a: Seq<u8>, b: Seq<u8>, room: int)
    requires
        room > 0,
    ensures
        blocked(a, room).len() <= blocked(a + b, room).len(),
    decreases a.len(),
{
    if a.len() > room {
        assert((a + b).skip(room) =~= a.skip(room) + b);
        lemma_blocked_grows(a.skip(room), b, room);
    } else if a.len() > 0 {
        if (a + b).len() > room {
            lemma_blocked_len((a + b).skip(room), room);
        }
    }
}

/// A finished checkpoint file is accepted, and its user state is read back.
pub proof fn law_checkpoint_reads_back(h: CheckpointView, state: Seq<u8>)
    requires
        finished_header(h, state).storable(),
        create_refusal(h) is None,
        checkpoint_file(h, state).len() <= u64::MAX,
    ensures
        ({
            let file = checkpoint_file(h, state);
            let size = file.len() as int;
            let read = finished_header(h, state).canon();
            &&& header_of(file, size) == Ok::<CheckpointView, RejectReason>(read)
            &&& read.len() == h.len()
            &&& body_of(file, read) == stored_state(state, block_size_of(h))
            &&& state_in(body_of(file, read), block_size_of(read)) == Ok::<
                Seq<u8>,
                RejectReason,
            >(state)
            &&& verified(file).reject is None
            &&& verified(file).user_data_size == state.len()
        }),
{
    super::laws::lemma_checkpoint_reads_back(h, state);
}

/// A checkpoint is old or new, and never a mixture. At every point of its
/// publication, and under every policy, a crash leaves under the checkpoint's
/// name what it would have left before, or the whole finished file.
pub proof fn law_checkpoint_is_old_or_new(
    built: Seq<OpView>,
    path: PathView,
    h: CheckpointView,
    state: Seq<u8>,
    k: int,
    policy: CrashPolicy,
)
    requires
        flat_in(built, parent_of(path)),
        live_file(built, tmp_path(path)) == Some(checkpoint_file(h, state)),
        0 <= k <= 3,
    ensures
        ({
            let before = crash_image(built, policy);
            let after = crash_image(
                built + publish_ops(tmp_path(path), path).take(k),
                policy,
            );
            &&& after.contains_key(path) ==> after[path] == checkpoint_file(h, state) || (
            before.contains_key(path) && after[path] == before[path])
            &&& before.contains_key(path) ==> after.contains_key(path)
            &&& k == 3 ==> after.contains_key(path) && after[path] == checkpoint_file(h, state)
        }),
{
    reveal_strlit(".tmp");
    assert(tmp_path(path).name.len() == path.name.len() + 4);
    law_publication_is_all_or_nothing(built, tmp_path(path), path, k, policy);
}

/// A checkpoint that is being built stands in the directory where it will stand,
/// under a name that is neither its own nor that of any log or checkpoint.
pub proof fn law_unfinished_checkpoint_is_not_listed(path: PathView)
    ensures
        tmp_path(path).dir == path.dir,
        tmp_path(path).name != path.name,
        tmp_path(path).name.take(path.name.len() as int) == path.name,
        parsed_name(tmp_path(path).name, "log"@) is None,
        parsed_name(tmp_path(path).name, "codex"@) is None,
{
    let name = tmp_path(path).name;
    reveal_strlit(".tmp");
    reveal_strlit("log");
    reveal_strlit("codex");
    assert(name.take(path.name.len() as int) =~= path.name);
    assert(name.len() == path.name.len() + 4);
    let n = name.len() as int;
    assert(name[n - 1] == 'p');
    assert(name.skip(n - 3)[2] == name[n - 1]);
    assert(n >= 5 ==> name.skip(n - 5)[4] == name[n - 1]);
}

} // verus!
