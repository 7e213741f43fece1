//! Sequential writing with blocks in flight.
//!
//! The caller fills a block in memory and hands it over when it is full; writers
//! issue it at its place in the file while the caller fills the next one. The
//! blocks go round a ring of slots: block `i` through slot `i % slots`.
//! [`WriteRing`] decides who may do what with which slot.
//!
//! Writes must be whole sectors, so the last block is filled up with zeros, and
//! the file gets its length in the end. [`SeqWriter`] does that over any
//! [`BlockDevice`].

use vstd::prelude::*;

use crate::bytes::{push_zeros, zeros};
use crate::durability::{
    lemma_opened_empty, lemma_push_live, live_file, write_one, Durability, FilePath, OpenMode,
    PathView,
};
use crate::seqread::{
    say_slots_below_threads, say_unaligned_block, slot_of, slots_below_threads, unaligned_block,
    SECTOR,
};
use crate::sim::{disk_after, live_files, resized, written, OpView};

verus! {

/// The shape of a writer.
#[derive(Clone, Copy, Debug, PartialEq, Eq, Structural)]
pub struct SeqWriterConfig {
    /// Writer threads: how many writes the device sees at once.
    pub threads: usize,
    /// Slots of the ring: how far the caller may run ahead. A ring of one
    /// overlaps nothing, so there are at least two.
    pub slots: usize,
    /// Bytes per write.
    pub block: usize,
}

impl Default for SeqWriterConfig {
    /// Four threads, four slots, blocks of four mebibytes.
    fn default() -> (r: SeqWriterConfig)
        ensures
            r.threads == 4,
            r.slots == 4,
            r.block == 0x40_0000,
    {
        SeqWriterConfig { threads: 4, slots: 4, block: 0x40_0000 }
    }
}

impl SeqWriterConfig {
    /// Why a writer cannot have this shape, if it cannot.
    pub open spec fn fault(self) -> Option<ConfigError> {
        if self.threads == 0 || self.block == 0 {
            Some(ConfigError::Zero)
        } else if self.slots < 2 {
            Some(ConfigError::TooFewSlots)
        } else if self.slots < self.threads {
            Some(ConfigError::SlotsBelowThreads { slots: self.slots, threads: self.threads })
        } else if self.block % 4096 != 0 {
            Some(ConfigError::UnalignedBlock { block: self.block })
        } else {
            None
        }
    }

    /// Whether a writer can have this shape.
    pub fn validate(&self) -> (r: Result<(), ConfigError>)
        ensures
            r == (match self.fault() {
                Some(e) => Err::<(), ConfigError>(e),
                None => Ok(()),
            }),
    {
        if self.threads == 0 || self.block == 0 {
            Err(ConfigError::Zero)
        } else if self.slots < 2 {
            Err(ConfigError::TooFewSlots)
        } else if self.slots < self.threads {
            Err(ConfigError::SlotsBelowThreads { slots: self.slots, threads: self.threads })
        } else if self.block % SECTOR != 0 {
            Err(ConfigError::UnalignedBlock { block: self.block })
        } else {
            Ok(())
        }
    }
}

/// Why a writer cannot have some shape.
#[derive(Clone, Copy, Debug, PartialEq, Eq, Structural)]
pub enum ConfigError {
    /// A number that must not be zero is.
    Zero,
    /// There are too few slots for anything to overlap.
    TooFewSlots,
    /// There are fewer slots than threads, so some would always wait.
    SlotsBelowThreads {
        /// The slots.
        slots: usize,
        /// The threads.
        threads: usize,
    },
    /// The block size is no multiple of a sector.
    UnalignedBlock {
        /// The block size.
        block: usize,
    },
}

impl ConfigError {
    /// The error in words.
    pub open spec fn wording(self) -> Seq<char> {
        match self {
            ConfigError::Zero => "SeqWriterConfig: threads and block must be non-zero"@,
            ConfigError::TooFewSlots =>
                "SeqWriterConfig: slots must be >= 2; "@
                    + "a ring of one is a legal-but-pointless depth 1, which overlaps nothing"@,
            ConfigError::SlotsBelowThreads { slots, threads } => slots_below_threads(
                "SeqWriterConfig"@,
                slots,
                threads,
            ) + ", or writers idle waiting for slots the caller has not filled"@,
            ConfigError::UnalignedBlock { block } => unaligned_block("SeqWriterConfig"@, block)
                + "; unbuffered writes are rejected outright when the length is not "@
                + "sector-aligned"@,
        }
    }

    /// The error in words.
    pub fn message(self) -> (r: String)
        ensures
            r@ == self.wording(),
    {
        match self {
            ConfigError::Zero => "SeqWriterConfig: threads and block must be non-zero".to_owned(),
            ConfigError::TooFewSlots => {
                let mut r = "SeqWriterConfig: slots must be >= 2; ".to_owned();
                r.append("a ring of one is a legal-but-pointless depth 1, which overlaps nothing");
                r
            },
            ConfigError::SlotsBelowThreads { slots, threads } => {
                let mut r = say_slots_below_threads("SeqWriterConfig", slots, threads);
                r.append(", or writers idle waiting for slots the caller has not filled");
                r
            },
            ConfigError::UnalignedBlock { block } => {
                let mut r = say_unaligned_block("SeqWriterConfig", block);
                r.append("; unbuffered writes are rejected outright when the length is not ");
                r.append("sector-aligned");
                r
            },
        }
    }
}

/// One write of a block to its place in the file.
pub struct BlockWrite {
    /// Where it goes.
    pub offset: int,
    /// What is written.
    pub data: Seq<u8>,
}

/// Where a writer's blocks go.
///
/// What the file holds is for proofs. An implementation that nothing is proved of
/// need not say.
pub trait BlockDevice: Sized {
    /// What an operation can fail with.
    type Error;

    /// The file that is being filled.
    open spec fn target(&self) -> PathView {
        arbitrary()
    }

    /// The contents of the file that is being filled.
    open spec fn image(&self) -> Seq<u8> {
        Seq::empty()
    }

    /// The blocks that were written since the file was created.
    open spec fn writes(&self) -> Seq<BlockWrite> {
        Seq::empty()
    }

    /// A file is being filled.
    open spec fn ready(&self) -> bool {
        true
    }

    /// The contents were made safe since the last write.
    open spec fn settled(&self) -> bool {
        true
    }

    /// What holds of the device's own state at all times.
    open spec fn ok(&self) -> bool {
        true
    }

    /// Nothing fails, unless the file would become too large for memory.
    open spec fn reliable(&self) -> bool {
        false
    }

    /// `config`, narrowed to what the device can use.
    open spec fn tuned(&self, config: SeqWriterConfig) -> SeqWriterConfig {
        config
    }

    /// Narrows `config` to what the device can use.
    fn tune(&self, config: SeqWriterConfig) -> (r: SeqWriterConfig)
        requires
            self.ok(),
        ensures
            r == self.tuned(config),
    ;

    /// Creates the file, or empties it if it exists.
    fn create(&mut self, path: &FilePath) -> (r: Result<(), Self::Error>)
        requires
            old(self).ok(),
        ensures
            final(self).ok(),
            final(self).reliable() == old(self).reliable(),
            old(self).reliable() ==> r is Ok,
            r is Ok ==> {
                &&& final(self).ready()
                &&& final(self).target() == path@
                &&& final(self).image() == Seq::<u8>::empty()
                &&& final(self).writes() == Seq::<BlockWrite>::empty()
            },
    ;

    /// Writes all of `data` at `offset`.
    fn write_block_at(&mut self, data: &[u8], offset: u64) -> (r: Result<(), Self::Error>)
        requires
            old(self).ok(),
            old(self).ready(),
            offset <= old(self).image().len(),
            offset + data@.len() <= u64::MAX,
        ensures
            final(self).ok(),
            final(self).reliable() == old(self).reliable(),
            old(self).reliable() && offset + data@.len() <= usize::MAX ==> r is Ok,
            r is Ok ==> {
                &&& final(self).ready()
                &&& final(self).target() == old(self).target()
                &&& final(self).image() == written(old(self).image(), offset as int, data@)
                &&& final(self).writes() == old(self).writes().push(
                    (BlockWrite { offset: offset as int, data: data@ }),
                )
            },
    ;

    /// Gives the file its length and makes its contents safe.
    fn set_len_durable(&mut self, len: u64) -> (r: Result<(), Self::Error>)
        requires
            old(self).ok(),
            old(self).ready(),
        ensures
            final(self).ok(),
            final(self).reliable() == old(self).reliable(),
            old(self).reliable() && len <= usize::MAX ==> r is Ok,
            r is Ok ==> {
                &&& final(self).ready()
                &&& final(self).settled()
                &&& final(self).target() == old(self).target()
                &&& final(self).image() == resized(old(self).image(), len as int)
                &&& final(self).writes() == old(self).writes()
            },
    ;
}

/// A device that writes each block at once, to a file behind a [`Durability`].
pub struct DurableDevice<D: Durability> {
    durability: D,
    file: Option<D::File>,
    issued: Ghost<Seq<BlockWrite>>,
}

impl<D: Durability> DurableDevice<D> {
    /// Everything that was asked of the file system.
    pub closed spec fn history(self) -> Seq<OpView> {
        self.durability.history()
    }

    /// The image of the device is what its file holds in the file system, and
    /// settling it ends with a sync of that file.
    pub proof fn law_image_is_the_file(self)
        requires
            self.ready(),
        ensures
            live_file(self.history(), self.target()) == Some(self.image()),
            self.settled() ==> self.history().len() > 0 && self.history().last() == (
            OpView::SyncFile { path: self.target() }),
    {
    }

    /// A device that has no file yet.
    pub fn new(durability: D) -> (r: DurableDevice<D>)
        requires
            durability.ok(),
        ensures
            r.ok(),
            r.history() == durability.history(),
            r.reliable() == durability.reliable(),
            !r.ready(),
    {
        DurableDevice { durability, file: None, issued: Ghost(Seq::empty()) }
    }

    /// Gives the [`Durability`] back.
    pub fn into_durability(self) -> (r: D)
        requires
            self.ok(),
        ensures
            r.ok(),
            r.history() == self.history(),
            r.reliable() == self.reliable(),
    {
        self.durability
    }
}

impl<D: Durability> BlockDevice for DurableDevice<D> {
    type Error = D::Error;

    closed spec fn target(&self) -> PathView {
        D::path_of(&self.file->Some_0)
    }

    closed spec fn image(&self) -> Seq<u8> {
        live_file(self.durability.history(), D::path_of(&self.file->Some_0))->Some_0
    }

    closed spec fn writes(&self) -> Seq<BlockWrite> {
        self.issued@
    }

    closed spec fn ready(&self) -> bool {
        &&& self.file is Some
        &&& live_file(self.durability.history(), D::path_of(&self.file->Some_0)) is Some
    }

    closed spec fn settled(&self) -> bool {
        let h = self.durability.history();
        h.len() > 0 && h.last() == (OpView::SyncFile { path: D::path_of(&self.file->Some_0) })
    }

    closed spec fn ok(&self) -> bool {
        self.durability.ok()
    }

    closed spec fn reliable(&self) -> bool {
        self.durability.reliable()
    }

    open spec fn tuned(&self, config: SeqWriterConfig) -> SeqWriterConfig {
        config
    }

    fn tune(&self, config: SeqWriterConfig) -> (r: SeqWriterConfig) {
        config
    }

    fn create(&mut self, path: &FilePath) -> (r: Result<(), D::Error>) {
        let ghost h = self.durability.history();
        match self.durability.open(path, OpenMode::Create) {
            Ok(file) => {
                proof {
                    lemma_opened_empty(h, path@);
                }
                self.file = Some(file);
                self.issued = Ghost(Seq::empty());
                Ok(())
            },
            Err(e) => Err(e),
        }
    }

    fn write_block_at(&mut self, data: &[u8], offset: u64) -> (r: Result<(), D::Error>) {
        let ghost issued = self.issued@.push(
            BlockWrite { offset: offset as int, data: data@ },
        );
        match &self.file {
            Some(file) => {
                match write_one(&mut self.durability, file, offset, data) {
                    Ok(_) => {
                        self.issued = Ghost(issued);
                        Ok(())
                    },
                    Err(e) => Err(e),
                }
            },
            None => {
                assert(false);
                Ok(())
            },
        }
    }

    fn set_len_durable(&mut self, len: u64) -> (r: Result<(), D::Error>) {
        let ghost h = self.durability.history();
        match &self.file {
            Some(file) => {
                let ghost path = D::path_of(file);
                match self.durability.set_size(file, len) {
                    Ok(_) => {},
                    Err(e) => {
                        return Err(e);
                    },
                }
                let ghost mid = self.durability.history();
                let r = self.durability.sync_file(file);
                proof {
                    let cut = OpView::Truncate { path, len };
                    let sync = OpView::SyncFile { path };
                    lemma_push_live(h, cut);
                    lemma_push_live(mid, sync);
                    assert(mid == h.push(cut));
                    let files = live_files(disk_after(h));
                    assert(files.contains_key(path));
                    assert(live_file(h, path) == Some(files[path]));
                    let after = live_files(disk_after(mid.push(sync)));
                    assert(after == files.insert(path, resized(files[path], len as int)));
                    assert(after.contains_key(path));
                    assert(live_file(mid.push(sync), path) == Some(after[path]));
                }
                r
            },
            None => {
                assert(false);
                Ok(())
            },
        }
    }
}

/// What a writer can fail with.
#[derive(Debug)]
pub enum SeqWriteError<E> {
    /// The writer cannot have this shape.
    Config(ConfigError),
    /// The device failed.
    Io(E),
    /// The device failed before, and nothing more is written.
    Poisoned,
    /// More bytes were committed than there was room for.
    Overcommit {
        /// How many bytes were committed.
        n: usize,
        /// How many there was room for.
        room: usize,
    },
}

/// A block filled up with zeros to whole sectors.
pub open spec fn whole_sectors(b: Seq<u8>) -> Seq<u8> {
    b + zeros(((4096 - b.len() % 4096) % 4096) as nat)
}

/// Block `i` of `data`.
pub open spec fn piece(data: Seq<u8>, block: int, i: int) -> Seq<u8> {
    data.subrange(
        i * block,
        if (i + 1) * block <= data.len() {
            (i + 1) * block
        } else {
            data.len() as int
        },
    )
}

/// The write that block `i` of `data` makes.
pub open spec fn piece_write(data: Seq<u8>, block: int, i: int) -> BlockWrite {
    BlockWrite { offset: i * block, data: whole_sectors(piece(data, block, i)) }
}

/// The writes that the first `n` blocks of `data` make.
pub open spec fn piece_writes(data: Seq<u8>, block: int, n: int) -> Seq<BlockWrite> {
    Seq::new(n as nat, |i: int| piece_write(data, block, i))
}

/// How many blocks `len` bytes make.
pub open spec fn block_count(len: int, block: int) -> int {
    (len + block - 1) / block
}

/// Writes a file from start to end, block by block.
///
/// A device that fails poisons the writer: every call after that fails too.
pub struct SeqWriter<Dev: BlockDevice> {
    device: Dev,
    block: usize,
    buf: Vec<u8>,
    index: u64,
    written: u64,
    poisoned: bool,
}

proof fn lemma_full_piece(data: Seq<u8>, more: Seq<u8>, block: int, n: int)
    requires
        block > 0,
        0 <= n,
        n * block <= data.len(),
    ensures
        piece_writes(data + more, block, n) == piece_writes(data, block, n),
{
    assert forall|i: int| 0 <= i < n implies piece_write(data + more, block, i) == #[trigger]
        piece_write(data, block, i) by {
        assert((i + 1) * block <= n * block) by (nonlinear_arith)
            requires
                i + 1 <= n,
                block > 0,
        ;
        assert(0 <= i * block <= (i + 1) * block) by (nonlinear_arith)
            requires
                i >= 0,
                block > 0,
        ;
        assert(piece(data + more, block, i) =~= piece(data, block, i));
    }
    assert(piece_writes(data + more, block, n) =~= piece_writes(data, block, n));
}

impl<Dev: BlockDevice> SeqWriter<Dev> {
    /// The bytes that were accepted so far.
    pub closed spec fn accepted(self) -> Seq<u8> {
        self.device.image() + self.buf@
    }

    /// The file that is written.
    pub closed spec fn target(self) -> PathView {
        self.device.target()
    }

    /// The size of a block.
    pub closed spec fn block_size(self) -> int {
        self.block as int
    }

    /// The device failed.
    pub closed spec fn broken(self) -> bool {
        self.poisoned
    }

    /// Nothing fails, unless the file would become too large for memory.
    pub closed spec fn reliable(self) -> bool {
        self.device.reliable()
    }

    /// How many bytes fit in before a block is handed over.
    pub closed spec fn room(self) -> int {
        self.block - self.buf@.len()
    }

    /// What the writer's own fields obey.
    pub closed spec fn wf(self) -> bool {
        &&& self.device.ok()
        &&& self.block > 0
        &&& self.block % 4096 == 0
        &&& self.poisoned || {
            &&& self.device.ready()
            &&& self.buf@.len() <= self.block
            &&& self.device.image().len() == self.index * self.block
            &&& self.written == self.device.image().len() + self.buf@.len()
            &&& self.written <= u64::MAX - 4096
            &&& self.device.writes() == piece_writes(
                self.device.image(),
                self.block as int,
                self.index as int,
            )
        }
    }

    /// Creates a file on a device. The shape is first narrowed to what the
    /// device can use. With an error the device is given back.
    pub fn create_on(device: Dev, path: &FilePath, config: SeqWriterConfig) -> (r: Result<
        SeqWriter<Dev>,
        (SeqWriteError<Dev::Error>, Dev),
    >)
        requires
            device.ok(),
        ensures
            match device.tuned(config).fault() {
                Some(e) => r == Err::<SeqWriter<Dev>, (SeqWriteError<Dev::Error>, Dev)>(
                    (SeqWriteError::Config(e), device),
                ),
                None => match r {
                    Ok(w) => {
                        &&& w.wf()
                        &&& !w.broken()
                        &&& w.target() == path@
                        &&& w.accepted() == Seq::<u8>::empty()
                        &&& w.block_size() == device.tuned(config).block
                        &&& w.reliable() == device.reliable()
                    },
                    Err((e, after)) => {
                        &&& e is Io
                        &&& !device.reliable()
                        &&& after.ok()
                        &&& after.reliable() == device.reliable()
                    },
                },
            },
    {
        let mut device = device;
        let config = device.tune(config);
        match config.validate() {
            Ok(_) => {},
            Err(e) => {
                return Err((SeqWriteError::Config(e), device));
            },
        }
        match device.create(path) {
            Ok(_) => {},
            Err(e) => {
                return Err((SeqWriteError::Io(e), device));
            },
        }
        let w = SeqWriter {
            device,
            block: config.block,
            buf: Vec::new(),
            index: 0,
            written: 0,
            poisoned: false,
        };
        proof {
            assert(w.accepted() =~= Seq::<u8>::empty());
            assert(0 * w.block == 0) by (nonlinear_arith);
            assert(w.device.writes() =~= piece_writes(w.device.image(), w.block as int, 0));
        }
        Ok(w)
    }

    /// How many bytes were accepted so far.
    pub fn bytes_written(&self) -> (r: u64)
        requires
            self.wf(),
        ensures
            !self.broken() ==> r == self.accepted().len(),
    {
        self.written
    }

    /// Hands the current block over and begins the next one.
    fn rotate(&mut self) -> (r: Result<(), SeqWriteError<Dev::Error>>)
        requires
            old(self).wf(),
            !old(self).broken(),
            old(self).room() == 0,
        ensures
            final(self).wf(),
            final(self).block_size() == old(self).block_size(),
            final(self).reliable() == old(self).reliable(),
            old(self).reliable() && old(self).accepted().len() <= usize::MAX ==> r is Ok,
            match r {
                Ok(_) => {
                    &&& !final(self).broken()
                    &&& final(self).target() == old(self).target()
                    &&& final(self).accepted() == old(self).accepted()
                    &&& final(self).room() == final(self).block_size()
                },
                Err(e) => e is Io && final(self).broken(),
            },
    {
        let ghost before = *self;
        proof {
            lemma_full_piece(self.device.image(), self.buf@, self.block as int, self.index as int);
            assert((self.index + 1) * self.block == self.index * self.block + self.block)
                by (nonlinear_arith);
            assert(self.index < (self.index + 1) * self.block) by (nonlinear_arith)
                requires
                    self.block >= 1,
                    self.index >= 0,
            ;
        }
        let offset: u64 = self.index * self.block as u64;
        match self.device.write_block_at(self.buf.as_slice(), offset) {
            Ok(_) => {},
            Err(e) => {
                self.poisoned = true;
                return Err(SeqWriteError::Io(e));
            },
        }
        self.buf = Vec::new();
        self.index = self.index + 1;
        proof {
            let data = before.accepted();
            let b = self.block as int;
            let i = before.index as int;
            assert(self.device.image() =~= data);
            assert(self.accepted() =~= data);
            assert(piece(data, b, i) =~= before.buf@);
            assert(whole_sectors(before.buf@) =~= before.buf@);
            assert(piece_writes(data, b, i + 1) =~= piece_writes(data, b, i).push(
                piece_write(data, b, i),
            ));
        }
        Ok(())
    }

    /// How many bytes the current block still takes. A full block is handed over
    /// first, so there is always room for some.
    pub fn available(&mut self) -> (r: Result<usize, SeqWriteError<Dev::Error>>)
        requires
            old(self).wf(),
        ensures
            final(self).wf(),
            final(self).block_size() == old(self).block_size(),
            final(self).reliable() == old(self).reliable(),
            old(self).reliable() && !old(self).broken() && old(self).accepted().len() <= usize::MAX
                ==> r is Ok,
            old(self).broken() ==> r is Err && r->Err_0 is Poisoned,
            match r {
                Ok(n) => {
                    &&& !final(self).broken()
                    &&& final(self).target() == old(self).target()
                    &&& final(self).accepted() == old(self).accepted()
                    &&& n == final(self).room()
                    &&& n > 0
                    &&& old(self).room() > 0 ==> n == old(self).room()
                    &&& old(self).room() == 0 ==> n == old(self).block_size()
                },
                Err(e) => final(self).broken() && (old(self).broken() || (e is Io && old(
                    self).room() == 0)),
            },
    {
        if self.poisoned {
            return Err(SeqWriteError::Poisoned);
        }
        if self.buf.len() == self.block {
            match self.rotate() {
                Ok(_) => {},
                Err(e) => {
                    return Err(e);
                },
            }
        }
        Ok(self.block - self.buf.len())
    }

    /// Puts `data` into the current block. It is refused if there is no room for
    /// it, and then nothing changes.
    pub fn commit(&mut self, data: &[u8]) -> (r: Result<(), SeqWriteError<Dev::Error>>)
        requires
            old(self).wf(),
            !old(self).broken() ==> old(self).accepted().len() + data@.len() <= u64::MAX - 4096,
        ensures
            final(self).wf(),
            final(self).block_size() == old(self).block_size(),
            final(self).reliable() == old(self).reliable(),
            final(self).broken() == old(self).broken(),
            final(self).target() == old(self).target(),
            if old(self).broken() {
                r is Err && r->Err_0 is Poisoned
            } else if data@.len() > old(self).room() {
                &&& r is Err
                &&& r->Err_0 is Overcommit
                &&& r->Err_0->n == data@.len()
                &&& r->Err_0->room == old(self).room()
                &&& final(self).accepted() == old(self).accepted()
                &&& final(self).room() == old(self).room()
            } else {
                &&& r is Ok
                &&& final(self).accepted() == old(self).accepted() + data@
                &&& final(self).room() == old(self).room() - data@.len()
            },
    {
        if self.poisoned {
            return Err(SeqWriteError::Poisoned);
        }
        let n: usize = data.len();
        let room: usize = self.block - self.buf.len();
        if n > room {
            return Err(SeqWriteError::Overcommit { n, room });
        }
        self.buf.extend_from_slice(data);
        self.written = self.written + n as u64;
        assert(self.accepted() =~= old(self).accepted() + data@);
        Ok(())
    }

    /// Writes all of `data`.
    #[verifier::rlimit(40)]
    pub fn write(&mut self, data: &[u8]) -> (r: Result<usize, SeqWriteError<Dev::Error>>)
        requires
            old(self).wf(),
            !old(self).broken() ==> old(self).accepted().len() + data@.len() <= u64::MAX - 4096,
        ensures
            final(self).wf(),
            final(self).block_size() == old(self).block_size(),
            final(self).reliable() == old(self).reliable(),
            old(self).reliable() && !old(self).broken() && old(self).accepted().len() + data@.len()
                <= usize::MAX ==> r is Ok,
            match r {
                Ok(n) => {
                    &&& n == data@.len()
                    &&& !final(self).broken()
                    &&& final(self).target() == old(self).target()
                    &&& final(self).accepted() == old(self).accepted() + data@
                    &&& data@.len() > 0 ==> final(self).room() < final(self).block_size()
                    &&& data@.len() <= old(self).room() ==> final(self).room() == old(self).room()
                        - data@.len()
                },
                Err(e) => final(self).broken() && (if old(self).broken() {
                    e is Poisoned
                } else {
                    e is Io && data@.len() > old(self).room()
                }),
            },
            old(self).broken() ==> r is Err && r->Err_0 is Poisoned,
    {
        if self.poisoned {
            return Err(SeqWriteError::Poisoned);
        }
        let mut at: usize = 0;
        let total: usize = data.len();
        proof {
            assert(data@.take(0) =~= Seq::<u8>::empty());
            assert(old(self).accepted() + Seq::<u8>::empty() =~= old(self).accepted());
        }
        while at < total
            invariant
                at <= total,
                total == data@.len(),
                self.wf(),
                self.block_size() == old(self).block_size(),
                self.reliable() == old(self).reliable(),
                self.target() == old(self).target(),
                !old(self).broken(),
                !self.broken(),
                at > 0 ==> self.room() < self.block_size(),
                old(self).accepted().len() + total <= u64::MAX - 4096,
                self.accepted() == old(self).accepted() + data@.take(at as int),
                self.room() == 0 && at < total ==> old(self).room() < total,
                at <= old(self).room() ==> self.room() == old(self).room() - at,
            decreases total - at,
        {
            let ghost before = *self;
            let room: usize = match self.available() {
                Ok(n) => n,
                Err(e) => {
                    return Err(e);
                },
            };
            let left: usize = total - at;
            let n: usize = if room < left {
                room
            } else {
                left
            };
            let part = vstd::slice::slice_subrange(data, at, at + n);
            assert(data@.take(at as int) + part@ =~= data@.take(at + n));
            match self.commit(part) {
                Ok(_) => {},
                Err(e) => {
                    return Err(e);
                },
            }
            proof {
                assert(self.accepted() =~= old(self).accepted() + data@.take(at + n));
            }
            at += n;
        }
        assert(data@.take(total as int) =~= data@);
        Ok(total)
    }

    /// Nothing is lost and nothing is forced: it only says whether the device
    /// has failed.
    pub fn flush(&mut self) -> (r: Result<(), SeqWriteError<Dev::Error>>)
        requires
            old(self).wf(),
        ensures
            *final(self) == *old(self),
            old(self).broken() ==> r is Err && r->Err_0 is Poisoned,
            !old(self).broken() ==> r is Ok,
    {
        if self.poisoned {
            Err(SeqWriteError::Poisoned)
        } else {
            Ok(())
        }
    }

    /// Hands everything over and gives the file its length. The file then holds
    /// the bytes that were accepted, and each of its blocks was written once, at
    /// its place. The last one was filled up with zeros.
    #[verifier::rlimit(40)]
    pub fn finish(self) -> (r: Result<(u64, Dev), SeqWriteError<Dev::Error>>)
        requires
            self.wf(),
        ensures
            self.broken() ==> r is Err && r->Err_0 is Poisoned,
            !self.broken() && r is Err ==> r->Err_0 is Io,
            self.reliable() && !self.broken() && self.accepted().len() + 4096 <= usize::MAX ==> r is Ok,
            match r {
                Ok((n, device)) => {
                    let data = self.accepted();
                    &&& n == data.len()
                    &&& device.ok()
                    &&& device.ready()
                    &&& device.settled()
                    &&& device.target() == self.target()
                    &&& device.image() == data
                    &&& device.writes() == piece_writes(
                        data,
                        self.block_size(),
                        block_count(data.len() as int, self.block_size()),
                    )
                },
                Err(_) => true,
            },
    {
        let mut this = self;
        if this.poisoned {
            return Err(SeqWriteError::Poisoned);
        }
        let ghost data = self.accepted();
        let ghost b = self.block as int;
        let ghost i = self.index as int;
        let filled: usize = this.buf.len();
        proof {
            lemma_full_piece(self.device.image(), self.buf@, b, i);
            assert((i + 1) * b == i * b + b) by (nonlinear_arith);
        }
        if filled > 0 {
            let over: usize = filled % SECTOR;
            if over > 0 {
                push_zeros(&mut this.buf, SECTOR - over);
            }
            assert(this.buf@ =~= whole_sectors(self.buf@));
            let offset: u64 = this.index * this.block as u64;
            match this.device.write_block_at(this.buf.as_slice(), offset) {
                Ok(_) => {},
                Err(e) => {
                    return Err(SeqWriteError::Io(e));
                },
            }
            proof {
                assert(piece(data, b, i) =~= self.buf@);
                assert(piece_writes(data, b, i + 1) =~= piece_writes(data, b, i).push(
                    piece_write(data, b, i),
                ));
                assert(block_count(data.len() as int, b) == i + 1) by {
                    vstd::arithmetic::div_mod::lemma_fundamental_div_mod_converse(
                        data.len() + b - 1,
                        b,
                        i + 1,
                        filled - 1,
                    );
                }
                assert(resized(this.device.image(), data.len() as int) =~= data);
            }
        } else {
            proof {
                assert(data =~= self.device.image());
                assert(block_count(data.len() as int, b) == i) by {
                    vstd::arithmetic::div_mod::lemma_fundamental_div_mod_converse(
                        data.len() + b - 1,
                        b,
                        i,
                        b - 1,
                    );
                }
                assert(resized(this.device.image(), data.len() as int) =~= data);
            }
        }
        match this.device.set_len_durable(this.written) {
            Ok(_) => Ok((this.written, this.device)),
            Err(e) => Err(SeqWriteError::Io(e)),
        }
    }
}

/// The blocks of a file, put back to back, are the file, and every write starts
/// and ends on a sector boundary.
pub proof fn law_written_blocks_reassemble(data: Seq<u8>, block: int, i: int)
    requires
        block > 0,
        block % 4096 == 0,
        0 <= i < block_count(data.len() as int, block),
    ensures
        ({
            let w = piece_write(data, block, i);
            let p = piece(data, block, i);
            &&& 0 < p.len() <= block
            &&& w.offset % 4096 == 0
            &&& w.data.len() % 4096 == 0
            &&& w.data.len() <= block
            &&& w.data.take(p.len() as int) == data.subrange(w.offset, w.offset + p.len())
            &&& w.data.skip(p.len() as int) == zeros((w.data.len() - p.len()) as nat)
            &&& w.offset + p.len() == (if i + 1 < block_count(data.len() as int, block) {
                piece_write(data, block, i + 1).offset
            } else {
                data.len() as int
            })
        }),
{
    let n = block_count(data.len() as int, block);
    let len = data.len() as int;
    vstd::arithmetic::div_mod::lemma_fundamental_div_mod(len + block - 1, block);
    assert(block * n == n * block) by (nonlinear_arith);
    assert((i + 1) * block == i * block + block) by (nonlinear_arith);
    assert((i + 1) * block <= n * block) by (nonlinear_arith)
        requires
            i + 1 <= n,
            block > 0,
    ;
    assert(0 <= i * block) by (nonlinear_arith)
        requires
            i >= 0,
            block > 0,
    ;
    if i + 1 < n {
        assert((i + 1) * block <= (n - 1) * block) by (nonlinear_arith)
            requires
                i + 1 <= n - 1,
                block > 0,
        ;
        assert((n - 1) * block == n * block - block) by (nonlinear_arith);
    }
    let k = block / 4096;
    assert(i * block == (i * k) * 4096) by (nonlinear_arith)
        requires
            block == k * 4096,
    ;
    vstd::arithmetic::div_mod::lemma_mod_multiples_basic(i * k, 4096);
    let w = piece_write(data, block, i);
    let p = piece(data, block, i);
    assert(w.data.take(p.len() as int) =~= data.subrange(w.offset, w.offset + p.len()));
    assert(w.data.skip(p.len() as int) =~= zeros((w.data.len() - p.len()) as nat));
}

/// What a slot of a writer's ring is doing.
#[derive(Clone, Copy, Debug, PartialEq, Eq, Structural)]
pub enum SlotUse {
    /// Nothing.
    Free,
    /// The caller is filling it with this block.
    Filling(u64),
    /// It holds this block, which is to be written.
    Pending(u64),
    /// A writer is writing this block.
    Writing(u64),
}

impl SlotUse {
    /// The block that the slot is busy with.
    pub open spec fn block(self) -> Option<u64> {
        match self {
            SlotUse::Free => None,
            SlotUse::Filling(i) => Some(i),
            SlotUse::Pending(i) => Some(i),
            SlotUse::Writing(i) => Some(i),
        }
    }
}

/// What the caller is to do to get a slot.
#[derive(Clone, Copy, Debug, PartialEq, Eq, Structural)]
pub enum SlotStep {
    /// Report that a write has failed.
    Failed,
    /// Wait for the slot.
    Wait,
    /// Fill this slot.
    Fill(usize),
}

/// What a writer is to do next.
#[derive(Clone, Copy, Debug, PartialEq, Eq, Structural)]
pub enum DrainStep {
    /// Stop: a write has failed, or there is nothing more to come.
    Leave,
    /// Wait for a block.
    Wait,
    /// Write the block in this slot.
    Write(usize, u64),
}

/// The ring of a writer: which slot does what.
pub struct WriteRing {
    slots: Vec<SlotUse>,
    published: u64,
    failed: bool,
    closed: bool,
    done: Ghost<Set<int>>,
}

impl WriteRing {
    /// What the slots are doing.
    pub closed spec fn uses(self) -> Seq<SlotUse> {
        self.slots@
    }

    /// How many blocks were handed over.
    pub closed spec fn handed_over(self) -> int {
        self.published as int
    }

    /// The blocks that were written.
    pub closed spec fn written_blocks(self) -> Set<int> {
        self.done@
    }

    /// A write has failed.
    pub closed spec fn broken(self) -> bool {
        self.failed
    }

    /// The caller has nothing more to hand over.
    pub closed spec fn ended(self) -> bool {
        self.closed
    }

    /// The slot is busy with a block of its own: one that is on its way, or the
    /// one that comes next.
    pub open spec fn slot_ok(self, s: int) -> bool {
        let n = self.uses().len() as int;
        match self.uses()[s] {
            SlotUse::Free => true,
            SlotUse::Filling(i) => slot_of(i as int, n) == s && i == self.handed_over(),
            SlotUse::Pending(i) => slot_of(i as int, n) == s && i < self.handed_over(),
            SlotUse::Writing(i) => slot_of(i as int, n) == s && i < self.handed_over(),
        }
    }

    /// Block `i` is on its way to the file.
    pub open spec fn in_flight(self, i: int) -> bool {
        let u = self.uses()[slot_of(i, self.uses().len() as int)];
        u == SlotUse::Pending(i as u64) || u == SlotUse::Writing(i as u64)
    }

    /// What holds of the ring at all times. Unless a write has failed, every
    /// block that was handed over is in the file or on its way there.
    pub open spec fn wf(self) -> bool {
        &&& self.uses().len() > 0
        &&& 0 <= self.handed_over() <= u64::MAX
        &&& forall|s: int| 0 <= s < self.uses().len() ==> #[trigger] self.slot_ok(s)
        &&& self.broken() || forall|i: int|
            0 <= i < self.handed_over() ==> self.written_blocks().contains(i) || #[trigger]
                self.in_flight(i)
    }

    /// No block waits to be written.
    pub open spec fn none_pending(self) -> bool {
        forall|s: int| 0 <= s < self.uses().len() ==> !((#[trigger] self.uses()[s]) is Pending)
    }

    /// Nothing but the slots has changed.
    pub open spec fn same_counts(self, other: WriteRing) -> bool {
        &&& self.handed_over() == other.handed_over()
        &&& self.written_blocks() == other.written_blocks()
        &&& self.broken() == other.broken()
        &&& self.ended() == other.ended()
    }

    /// A ring with free slots.
    pub fn new(slots: usize) -> (r: WriteRing)
        requires
            slots > 0,
        ensures
            r.wf(),
            r.uses() == Seq::new(slots as nat, |i: int| SlotUse::Free),
            r.handed_over() == 0,
            r.written_blocks() == Set::<int>::empty(),
            !r.broken(),
            !r.ended(),
    {
        let mut v: Vec<SlotUse> = Vec::new();
        let mut i: usize = 0;
        while i < slots
            invariant
                i <= slots,
                v@.len() == i,
                forall|j: int| 0 <= j < i ==> #[trigger] v@[j] == SlotUse::Free,
            decreases slots - i,
        {
            v.push(SlotUse::Free);
            i += 1;
        }
        assert(v@ =~= Seq::new(slots as nat, |i: int| SlotUse::Free));
        WriteRing {
            slots: v,
            published: 0,
            failed: false,
            closed: false,
            done: Ghost(Set::empty()),
        }
    }

    /// The slot of a block.
    fn slot(&self, i: u64) -> (r: usize)
        requires
            self.wf(),
        ensures
            r == slot_of(i as int, self.uses().len() as int),
            r < self.uses().len(),
    {
        let n: usize = self.slots.len();
        proof {
            vstd::arithmetic::div_mod::lemma_mod_bound(i as int, n as int);
        }
        (i % n as u64) as usize
    }

    /// Takes the slot of the block that comes next, if it is free.
    pub fn take_slot(&mut self) -> (r: SlotStep)
        requires
            old(self).wf(),
        ensures
            final(self).wf(),
            final(self).same_counts(*old(self)),
            ({
                let i = old(self).handed_over();
                let s = slot_of(i, old(self).uses().len() as int);
                if old(self).broken() {
                    r is Failed && final(self).uses() == old(self).uses()
                } else if old(self).uses()[s] is Free {
                    r == SlotStep::Fill(s as usize) && final(self).uses() == old(
                        self).uses().update(s, SlotUse::Filling(i as u64))
                } else {
                    r is Wait && final(self).uses() == old(self).uses()
                }
            }),
    {
        if self.failed {
            return SlotStep::Failed;
        }
        let i: u64 = self.published;
        let s: usize = self.slot(i);
        let free = match self.slots[s] {
            SlotUse::Free => true,
            _ => false,
        };
        if !free {
            return SlotStep::Wait;
        }
        self.slots[s] = SlotUse::Filling(i);
        proof {
            assert forall|t: int| 0 <= t < self.uses().len() implies #[trigger] self.slot_ok(
                t,
            ) by {
                assert(old(self).slot_ok(t));
            }
            assert forall|k: int| 0 <= k < self.handed_over() implies self.written_blocks().contains(
                k,
            ) || #[trigger] self.in_flight(k) by {
                assert(old(self).written_blocks().contains(k) || old(self).in_flight(k));
            }
        }
        SlotStep::Fill(s)
    }

    /// Hands over the block that the caller was filling.
    pub fn publish(&mut self)
        requires
            old(self).wf(),
            old(self).handed_over() < u64::MAX,
            old(self).uses()[slot_of(old(self).handed_over(), old(self).uses().len() as int)]
                == SlotUse::Filling(old(self).handed_over() as u64),
        ensures
            final(self).wf(),
            final(self).handed_over() == old(self).handed_over() + 1,
            final(self).written_blocks() == old(self).written_blocks(),
            final(self).broken() == old(self).broken(),
            final(self).ended() == old(self).ended(),
            final(self).uses() == old(self).uses().update(
                slot_of(old(self).handed_over(), old(self).uses().len() as int),
                SlotUse::Pending(old(self).handed_over() as u64),
            ),
    {
        let i: u64 = self.published;
        let s: usize = self.slot(i);
        self.slots[s] = SlotUse::Pending(i);
        self.published = i + 1;
        proof {
            assert forall|t: int| 0 <= t < self.uses().len() implies #[trigger] self.slot_ok(
                t,
            ) by {
                assert(old(self).slot_ok(t));
            }
            if !self.broken() {
                assert forall|k: int|
                    0 <= k < self.handed_over() implies self.written_blocks().contains(k)
                    || #[trigger] self.in_flight(k) by {
                    if k != i {
                        assert(old(self).written_blocks().contains(k) || old(self).in_flight(k));
                    }
                }
            }
        }
    }

    /// Gives a writer the first block that waits to be written.
    pub fn claim(&mut self) -> (r: DrainStep)
        requires
            old(self).wf(),
        ensures
            final(self).wf(),
            final(self).same_counts(*old(self)),
            match r {
                DrainStep::Write(s, i) => {
                    &&& !old(self).broken()
                    &&& s < old(self).uses().len()
                    &&& old(self).uses()[s as int] == SlotUse::Pending(i)
                    &&& forall|t: int| 0 <= t < s ==> !((#[trigger] old(self).uses()[t]) is Pending)
                    &&& final(self).uses() == old(self).uses().update(
                        s as int,
                        SlotUse::Writing(i),
                    )
                },
                DrainStep::Leave => {
                    &&& final(self).uses() == old(self).uses()
                    &&& old(self).broken() || (old(self).ended() && old(self).none_pending())
                },
                DrainStep::Wait => {
                    &&& final(self).uses() == old(self).uses()
                    &&& !old(self).broken()
                    &&& !old(self).ended()
                    &&& old(self).none_pending()
                },
            },
    {
        if self.failed {
            return DrainStep::Leave;
        }
        let mut s: usize = 0;
        while s < self.slots.len()
            invariant
                *self == *old(self),
                self.wf(),
                !self.broken(),
                s <= self.uses().len(),
                self.uses() == self.slots@,
                forall|t: int| 0 <= t < s ==> !((#[trigger] self.uses()[t]) is Pending),
            decreases self.slots.len() - s,
        {
            match self.slots[s] {
                SlotUse::Pending(i) => {
                    self.slots[s] = SlotUse::Writing(i);
                    proof {
                        assert(old(self).slot_ok(s as int));
                        assert forall|t: int|
                            0 <= t < self.uses().len() implies #[trigger] self.slot_ok(t) by {
                            assert(old(self).slot_ok(t));
                        }
                        assert forall|k: int|
                            0 <= k < self.handed_over() implies self.written_blocks().contains(k)
                            || #[trigger] self.in_flight(k) by {
                            assert(old(self).written_blocks().contains(k) || old(
                                self).in_flight(k));
                        }
                    }
                    return DrainStep::Write(s, i);
                },
                _ => {},
            }
            s += 1;
        }
        if self.closed {
            DrainStep::Leave
        } else {
            DrainStep::Wait
        }
    }

    /// Frees a slot whose block was written.
    pub fn complete(&mut self, i: u64)
        requires
            old(self).wf(),
            old(self).uses()[slot_of(i as int, old(self).uses().len() as int)]
                == SlotUse::Writing(i),
        ensures
            final(self).wf(),
            final(self).handed_over() == old(self).handed_over(),
            final(self).written_blocks() == old(self).written_blocks().insert(i as int),
            final(self).broken() == old(self).broken(),
            final(self).ended() == old(self).ended(),
            final(self).uses() == old(self).uses().update(
                slot_of(i as int, old(self).uses().len() as int),
                SlotUse::Free,
            ),
    {
        let s: usize = self.slot(i);
        self.slots[s] = SlotUse::Free;
        self.done = Ghost(self.done@.insert(i as int));
        proof {
            assert forall|t: int| 0 <= t < self.uses().len() implies #[trigger] self.slot_ok(
                t,
            ) by {
                assert(old(self).slot_ok(t));
            }
            if !self.broken() {
                assert forall|k: int|
                    0 <= k < self.handed_over() implies self.written_blocks().contains(k)
                    || #[trigger] self.in_flight(k) by {
                    assert(old(self).written_blocks().contains(k) || old(self).in_flight(k));
                }
            }
        }
    }

    /// Frees a slot whose write failed. Every writer stops, and the caller is
    /// told.
    pub fn fail(&mut self, i: u64)
        requires
            old(self).wf(),
            old(self).uses()[slot_of(i as int, old(self).uses().len() as int)]
                == SlotUse::Writing(i),
        ensures
            final(self).wf(),
            final(self).broken(),
            final(self).handed_over() == old(self).handed_over(),
            final(self).written_blocks() == old(self).written_blocks(),
            final(self).ended() == old(self).ended(),
            final(self).uses() == old(self).uses().update(
                slot_of(i as int, old(self).uses().len() as int),
                SlotUse::Free,
            ),
    {
        let s: usize = self.slot(i);
        self.slots[s] = SlotUse::Free;
        self.failed = true;
        proof {
            assert forall|t: int| 0 <= t < self.uses().len() implies #[trigger] self.slot_ok(
                t,
            ) by {
                assert(old(self).slot_ok(t));
            }
        }
    }

    /// Says that the caller has nothing more to hand over.
    pub fn close(&mut self)
        requires
            old(self).wf(),
        ensures
            final(self).wf(),
            final(self).ended(),
            final(self).uses() == old(self).uses(),
            final(self).handed_over() == old(self).handed_over(),
            final(self).written_blocks() == old(self).written_blocks(),
            final(self).broken() == old(self).broken(),
    {
        self.closed = true;
        proof {
            assert forall|t: int| 0 <= t < self.uses().len() implies #[trigger] self.slot_ok(
                t,
            ) by {
                assert(old(self).slot_ok(t));
            }
            if !self.broken() {
                assert forall|k: int|
                    0 <= k < self.handed_over() implies self.written_blocks().contains(k)
                    || #[trigger] self.in_flight(k) by {
                    assert(old(self).written_blocks().contains(k) || old(self).in_flight(k));
                }
            }
        }
    }
}

/// Once no slot holds a block and no write has failed, every block that was
/// handed over is in the file.
pub proof fn law_drained_ring_has_written_all(ring: WriteRing, i: int)
    requires
        ring.wf(),
        !ring.broken(),
        forall|s: int|
            0 <= s < ring.uses().len() ==> !((#[trigger] ring.uses()[s]) is Pending)
                && !(ring.uses()[s] is Writing),
        0 <= i < ring.handed_over(),
    ensures
        ring.written_blocks().contains(i),
{
    vstd::arithmetic::div_mod::lemma_mod_bound(i, ring.uses().len() as int);
    assert(ring.written_blocks().contains(i) || ring.in_flight(i));
}

/// No two slots of a ring are busy with one block.
pub proof fn law_slots_hold_different_blocks(ring: WriteRing, s: int, t: int)
    requires
        ring.wf(),
        0 <= s < ring.uses().len(),
        0 <= t < ring.uses().len(),
        s != t,
        !(ring.uses()[s] is Free),
    ensures
        ring.uses()[s].block() != ring.uses()[t].block(),
{
    assert(ring.slot_ok(s));
    assert(ring.slot_ok(t));
}

/// A shape is refused for a reason: there are no threads or no bytes in a block,
/// there are fewer than two slots or fewer than threads, or the blocks are not
/// whole sectors. The first of these is reported.
pub proof fn law_writer_shape_is_refused_for_a_reason(shape: SeqWriterConfig)
    ensures
        ({
            let zero = shape.threads == 0 || shape.block == 0;
            let single = shape.slots == 0 || shape.slots == 1;
            let few = shape.slots < shape.threads;
            let odd = shape.block % 4096 != 0;
            &&& shape.fault() is None <==> !zero && !single && !few && !odd
            &&& shape.fault() is Some && shape.fault()->Some_0 is Zero <==> zero
            &&& shape.fault() is Some && shape.fault()->Some_0 is TooFewSlots <==> !zero && single
            &&& !zero && !single && few <==> shape.fault() == Some(
                ConfigError::SlotsBelowThreads { slots: shape.slots, threads: shape.threads },
            )
            &&& !zero && !single && !few && odd <==> shape.fault() == Some(
                ConfigError::UnalignedBlock { block: shape.block },
            )
        }),
{
}

} // verus!
