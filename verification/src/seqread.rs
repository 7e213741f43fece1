//! Sequential reading with blocks in flight.
//!
//! A file is read in blocks by several readers at once, ahead of the caller. The
//! blocks go into a ring of slots: block `i` into slot `i % slots`. The caller
//! walks the ring in order, and a slot is free for a later block as soon as the
//! caller is done with it. [`ReadRing`] decides who may do what with which slot.
//!
//! Reads must start and end on sector boundaries. [`ReadPlan`] works out which
//! blocks cover the part of a file that is wanted, and how much of the first one
//! lies before it. [`SeqReader`] drops that much and hands out the rest.

use vstd::prelude::*;

use crate::text::{number_string, number_text};
use crate::source::{at_most, beyond, SeekSource};

verus! {

/// What unbuffered reads and writes must be aligned to: address, offset and
/// length. This is enough for every kind of sector in use.
pub const SECTOR: usize = 4096;

/// Why a reader cannot have some shape.
#[derive(Clone, Copy, Debug, PartialEq, Eq, Structural)]
pub enum ConfigError {
    /// A number that must not be zero is.
    Zero,
    /// There are fewer slots than threads, so some would always wait.
    SlotsBelowThreads {
        /// The slots.
        slots: usize,
        /// The threads.
        threads: usize,
    },
    /// The block size is no multiple of a sector.
    UnalignedBlock {
        /// The block size.
        block: usize,
    },
}

impl ConfigError {
    /// The error in words.
    pub open spec fn wording(self) -> Seq<char> {
        match self {
            ConfigError::Zero =>
                "SeqReaderConfig: threads, slots and block must all be non-zero"@,
            ConfigError::SlotsBelowThreads { slots, threads } => slots_below_threads(
                "SeqReaderConfig"@,
                slots,
                threads,
            ) + ", or readers stall waiting for slots the caller has not reached"@,
            ConfigError::UnalignedBlock { block } => unaligned_block("SeqReaderConfig"@, block)
                + "; unbuffered reads are rejected outright when the length is not "@
                + "sector-aligned"@,
        }
    }

    /// The error in words.
    pub fn message(self) -> (r: String)
        ensures
            r@ == self.wording(),
    {
        match self {
            ConfigError::Zero => {
                "SeqReaderConfig: threads, slots and block must all be non-zero".to_owned()
            },
            ConfigError::SlotsBelowThreads { slots, threads } => {
                let mut r = say_slots_below_threads("SeqReaderConfig", slots, threads);
                r.append(", or readers stall waiting for slots the caller has not reached");
                r
            },
            ConfigError::UnalignedBlock { block } => {
                let mut r = say_unaligned_block("SeqReaderConfig", block);
                r.append("; unbuffered reads are rejected outright when the length is not ");
                r.append("sector-aligned");
                r
            },
        }
    }
}

/// That a shape has too few slots for its threads, in words.
pub open spec fn slots_below_threads(shape: Seq<char>, slots: usize, threads: usize) -> Seq<char> {
    shape + ": slots ("@ + number_text(slots as nat) + ") must be >= threads ("@ + number_text(
        threads as nat,
    ) + ")"@
}

/// That the blocks of a shape are not aligned, in words.
pub open spec fn unaligned_block(shape: Seq<char>, block: usize) -> Seq<char> {
    shape + ": block ("@ + number_text(block as nat) + ") must be a multiple of "@ + number_text(
        4096,
    )
}

pub(crate) fn say_slots_below_threads(shape: &str, slots: usize, threads: usize) -> (r: String)
    ensures
        r@ == slots_below_threads(shape@, slots, threads),
{
    let mut r = shape.to_owned();
    r.append(": slots (");
    r.append(number_string(slots as u64).as_str());
    r.append(") must be >= threads (");
    r.append(number_string(threads as u64).as_str());
    r.append(")");
    r
}

pub(crate) fn say_unaligned_block(shape: &str, block: usize) -> (r: String)
    ensures
        r@ == unaligned_block(shape@, block),
{
    let mut r = shape.to_owned();
    r.append(": block (");
    r.append(number_string(block as u64).as_str());
    r.append(") must be a multiple of ");
    r.append(number_string(SECTOR as u64).as_str());
    r
}

/// The shape of a reader.
#[derive(Clone, Copy, Debug, PartialEq, Eq, Structural)]
pub struct SeqReaderConfig {
    /// Reader threads: how many reads the device sees at once.
    pub threads: usize,
    /// Slots of the ring: how far reading may run ahead.
    pub slots: usize,
    /// Bytes per read.
    pub block: usize,
}

impl Default for SeqReaderConfig {
    /// Eight threads, eight slots, blocks of one mebibyte.
    fn default() -> (r: SeqReaderConfig)
        ensures
            r.threads == 8,
            r.slots == 8,
            r.block == 0x10_0000,
    {
        SeqReaderConfig { threads: 8, slots: 8, block: 0x10_0000 }
    }
}

impl SeqReaderConfig {
    /// Why a reader cannot have this shape, if it cannot.
    pub open spec fn fault(self) -> Option<ConfigError> {
        if self.threads == 0 || self.slots == 0 || self.block == 0 {
            Some(ConfigError::Zero)
        } else if self.slots < self.threads {
            Some(ConfigError::SlotsBelowThreads { slots: self.slots, threads: self.threads })
        } else if self.block % 4096 != 0 {
            Some(ConfigError::UnalignedBlock { block: self.block })
        } else {
            None
        }
    }

    /// Whether a reader can have this shape.
    pub fn validate(&self) -> (r: Result<(), ConfigError>)
        ensures
            r == (match self.fault() {
                Some(e) => Err::<(), ConfigError>(e),
                None => Ok(()),
            }),
    {
        if self.threads == 0 || self.slots == 0 || self.block == 0 {
            Err(ConfigError::Zero)
        } else if self.slots < self.threads {
            Err(ConfigError::SlotsBelowThreads { slots: self.slots, threads: self.threads })
        } else if self.block % SECTOR != 0 {
            Err(ConfigError::UnalignedBlock { block: self.block })
        } else {
            Ok(())
        }
    }
}

/// Which blocks of a file to read.
#[derive(Clone, Copy, Debug, PartialEq, Eq, Structural)]
pub struct ReadPlan {
    /// Size of the file when it was opened. What is appended later is not read.
    pub file_size: u64,
    /// Where the first block starts.
    pub base: u64,
    /// How many bytes of the first block lie before what is wanted.
    pub skip: u64,
    /// How many bytes there are from the first block's start on.
    pub want: u64,
    /// How many blocks that makes.
    pub blocks: u64,
    /// Bytes per block.
    pub block: u64,
}

impl ReadPlan {
    /// The plan reads a file of `file_size` bytes from `offset` on.
    pub open spec fn covers(self, file_size: u64, offset: u64, block: u64) -> bool {
        let start = if offset <= file_size {
            offset
        } else {
            file_size
        };
        &&& self.file_size == file_size
        &&& self.block == block
        &&& self.base == start - start % 4096
        &&& self.skip == start % 4096
        &&& self.want == file_size - self.base
        &&& self.sane()
    }

    /// The blocks are just enough for the bytes.
    pub open spec fn sane(self) -> bool {
        &&& self.block > 0
        &&& self.base + self.want == self.file_size
        &&& self.skip <= self.want
        &&& self.base % 4096 == 0
        &&& (self.blocks - 1) * self.block < self.want || self.blocks == 0
        &&& self.want <= self.blocks * self.block
    }

    /// Where block `i` starts in the file.
    pub open spec fn block_start(self, i: int) -> int {
        self.base + i * self.block
    }

    /// How many bytes of block `i` there are.
    pub open spec fn block_len(self, i: int) -> int {
        if self.want - i * self.block < self.block {
            self.want - i * self.block
        } else {
            self.block as int
        }
    }

    /// Plans to read a file of `file_size` bytes from `offset` on, in blocks of
    /// `block` bytes. The offset need not be aligned; one behind the end reads
    /// nothing.
    pub fn new(file_size: u64, offset: u64, block: u64) -> (r: ReadPlan)
        requires
            block > 0,
        ensures
            r.covers(file_size, offset, block),
    {
        let start: u64 = if offset <= file_size {
            offset
        } else {
            file_size
        };
        let skip: u64 = start % 4096;
        let base: u64 = start - skip;
        let want: u64 = file_size - base;
        let full: u64 = want / block;
        let left: u64 = want % block;
        proof {
            vstd::arithmetic::div_mod::lemma_fundamental_div_mod(want as int, block as int);
            assert(block * full == full * block) by (nonlinear_arith);
            assert((full + 1) * block == full * block + block) by (nonlinear_arith);
            assert((full - 1) * block == full * block - block) by (nonlinear_arith);
            if left > 0 && full == u64::MAX {
                assert(full * block >= full) by (nonlinear_arith)
                    requires
                        block >= 1,
                        full >= 0,
                ;
            }
        }
        let blocks: u64 = if left > 0 {
            full + 1
        } else {
            full
        };
        ReadPlan { file_size, base, skip, want, blocks, block }
    }

    /// Where block `i` starts in the file, and how many bytes of it there are.
    pub fn span(&self, i: u64) -> (r: (u64, u64))
        requires
            self.sane(),
            i < self.blocks,
        ensures
            r.0 == self.block_start(i as int),
            r.1 == self.block_len(i as int),
            0 < r.1 <= self.block,
            r.0 + r.1 <= self.file_size,
    {
        proof {
            let n = (self.blocks - 1) as int;
            assert(i * self.block <= n * self.block) by (nonlinear_arith)
                requires
                    i <= n,
                    self.block > 0,
            ;
            assert(i * self.block >= 0) by (nonlinear_arith)
                requires
                    i >= 0,
                    self.block > 0,
            ;
        }
        let from: u64 = i * self.block;
        let left: u64 = self.want - from;
        let take: u64 = if left < self.block {
            left
        } else {
            self.block
        };
        (self.base + from, take)
    }
}

/// The blocks of a plan follow one another without gaps from its base to the end
/// of the file.
pub proof fn law_blocks_tile_the_file(plan: ReadPlan, i: int)
    requires
        plan.sane(),
        0 <= i < plan.blocks,
    ensures
        plan.block_start(0) == plan.base,
        i + 1 < plan.blocks ==> plan.block_start(i) + plan.block_len(i) == plan.block_start(i + 1),
        i + 1 == plan.blocks ==> plan.block_start(i) + plan.block_len(i) == plan.file_size,
        0 < plan.block_len(i) <= plan.block,
        plan.block % 4096 == 0 ==> plan.block_start(i) % 4096 == 0,
{
    let b = plan.block as int;
    let n = plan.blocks as int;
    assert((i + 1) * b == i * b + b) by (nonlinear_arith);
    assert((i + 1) * b <= n * b) by (nonlinear_arith)
        requires
            i + 1 <= n,
            b > 0,
    ;
    assert(i * b <= (n - 1) * b) by (nonlinear_arith)
        requires
            i <= n - 1,
            b > 0,
    ;
    assert(0 * b == 0) by (nonlinear_arith);
    assert(n * b == (n - 1) * b + b) by (nonlinear_arith);
    if i + 1 < n {
        assert((i + 1) * b <= (n - 1) * b) by (nonlinear_arith)
            requires
                i + 1 <= n - 1,
                b > 0,
        ;
    }
    if b % 4096 == 0 {
        let k = b / 4096;
        assert(i * b == (i * k) * 4096) by (nonlinear_arith)
            requires
                b == k * 4096,
        ;
        vstd::arithmetic::div_mod::lemma_mod_multiples_basic(i * k, 4096);
    }
}

/// The part that is dropped is just what lies before the wanted offset, and it
/// is less than a sector.
pub proof fn law_skip_is_the_unwanted_prefix(plan: ReadPlan, file_size: u64, offset: u64, block: u64)
    requires
        plan.covers(file_size, offset, block),
        offset <= file_size,
    ensures
        plan.base + plan.skip == offset,
        plan.skip < 4096,
        plan.want - plan.skip == file_size - offset,
{
}

/// A plan from an offset at or behind the end of the file has nothing to read but
/// what lies before the offset, and drops that.
pub proof fn law_plan_behind_the_end_reads_nothing(
    plan: ReadPlan,
    file_size: u64,
    offset: u64,
    block: u64,
)
    requires
        plan.covers(file_size, offset, block),
        offset >= file_size,
    ensures
        plan.want == plan.skip,
        plan.base + plan.skip == file_size,
{
}

/// What a slot of the ring is doing.
#[derive(Clone, Copy, Debug, PartialEq, Eq, Structural)]
pub enum SlotState {
    /// Nothing.
    Free,
    /// A reader is filling it with this block.
    Filling(u64),
    /// It holds this block.
    Ready(u64),
    /// The caller has this block.
    Out(u64),
}

impl SlotState {
    /// The block that the slot is busy with.
    pub open spec fn block(self) -> Option<u64> {
        match self {
            SlotState::Free => None,
            SlotState::Filling(i) => Some(i),
            SlotState::Ready(i) => Some(i),
            SlotState::Out(i) => Some(i),
        }
    }
}

/// What a reader is to do about the block that it has claimed.
#[derive(Clone, Copy, Debug, PartialEq, Eq, Structural)]
pub enum FillStep {
    /// Stop: the caller is gone, or a read has failed.
    Leave,
    /// Wait for the slot.
    Wait,
    /// Fill this slot.
    Fill(usize),
}

/// What the caller is to do to get the next block.
#[derive(Clone, Copy, Debug, PartialEq, Eq, Structural)]
pub enum TakeStep {
    /// There are no more blocks.
    End,
    /// Report that a read has failed.
    Failed,
    /// Wait for the slot.
    Wait,
    /// Take the block out of this slot.
    Take(usize),
}

/// The ring of a reader: which slot does what, and which blocks come next.
pub struct ReadRing {
    slots: Vec<SlotState>,
    head: u64,
    next: u64,
    blocks: u64,
    failed: bool,
    stopped: bool,
}

/// The slot of block `i`.
pub open spec fn slot_of(i: int, slots: int) -> int {
    i % slots
}

impl ReadRing {
    /// What the slots are doing.
    pub closed spec fn states(self) -> Seq<SlotState> {
        self.slots@
    }

    /// The block that the caller gets next.
    pub closed spec fn front(self) -> int {
        self.head as int
    }

    /// The block that a reader claims next.
    pub closed spec fn unclaimed(self) -> int {
        self.next as int
    }

    /// The number of blocks.
    pub closed spec fn total(self) -> int {
        self.blocks as int
    }

    /// A read has failed.
    pub closed spec fn broken(self) -> bool {
        self.failed
    }

    /// The caller is gone.
    pub closed spec fn halted(self) -> bool {
        self.stopped
    }

    /// Slot `s` is busy with a block of its own that is neither past nor too far
    /// ahead: the caller holds the block before the front at most, and whatever
    /// else there is lies less than a round ahead of it.
    pub open spec fn slot_ok(self, s: int) -> bool {
        match self.states()[s] {
            SlotState::Free => true,
            SlotState::Filling(i) => slot_of(i as int, self.states().len() as int) == s
                && self.front() <= i < self.front() + self.states().len() && i < self.unclaimed(),
            SlotState::Ready(i) => slot_of(i as int, self.states().len() as int) == s
                && self.front() <= i < self.front() + self.states().len() && i < self.unclaimed(),
            SlotState::Out(i) => slot_of(i as int, self.states().len() as int) == s && i + 1
                == self.front(),
        }
    }

    /// What holds of the ring at all times.
    pub open spec fn wf(self) -> bool {
        &&& self.states().len() > 0
        &&& 0 <= self.front() <= self.unclaimed() <= self.total()
        &&& forall|s: int| 0 <= s < self.states().len() ==> #[trigger] self.slot_ok(s)
    }

    /// Nothing but the slots has changed.
    pub open spec fn same_counts(self, other: ReadRing) -> bool {
        &&& self.front() == other.front()
        &&& self.unclaimed() == other.unclaimed()
        &&& self.total() == other.total()
        &&& self.broken() == other.broken()
        &&& self.halted() == other.halted()
        &&& self.states().len() == other.states().len()
    }

    /// A ring with free slots.
    pub fn new(slots: usize, blocks: u64) -> (r: ReadRing)
        requires
            slots > 0,
        ensures
            r.wf(),
            r.states() == Seq::new(slots as nat, |i: int| SlotState::Free),
            r.front() == 0,
            r.unclaimed() == 0,
            r.total() == blocks,
            !r.broken(),
            !r.halted(),
    {
        let mut v: Vec<SlotState> = Vec::new();
        let mut i: usize = 0;
        while i < slots
            invariant
                i <= slots,
                v@.len() == i,
                forall|j: int| 0 <= j < i ==> #[trigger] v@[j] == SlotState::Free,
            decreases slots - i,
        {
            v.push(SlotState::Free);
            i += 1;
        }
        assert(v@ =~= Seq::new(slots as nat, |i: int| SlotState::Free));
        ReadRing { slots: v, head: 0, next: 0, blocks, failed: false, stopped: false }
    }

    /// The slot of a block.
    pub fn slot(&self, i: u64) -> (r: usize)
        requires
            self.wf(),
        ensures
            r == slot_of(i as int, self.states().len() as int),
            r < self.states().len(),
    {
        let n: usize = self.slots.len();
        proof {
            vstd::arithmetic::div_mod::lemma_mod_bound(i as int, n as int);
        }
        (i % n as u64) as usize
    }

    /// Claims the next block for a reader. It is `None` when there is none left
    /// or no use in reading one.
    pub fn claim(&mut self) -> (r: Option<u64>)
        requires
            old(self).wf(),
        ensures
            final(self).wf(),
            final(self).states() == old(self).states(),
            final(self).front() == old(self).front(),
            final(self).total() == old(self).total(),
            final(self).broken() == old(self).broken(),
            final(self).halted() == old(self).halted(),
            if old(self).halted() || old(self).broken() || old(self).unclaimed() >= old(self).total() {
                r is None && final(self).unclaimed() == old(self).unclaimed()
            } else {
                &&& r == Some(old(self).unclaimed() as u64)
                &&& final(self).unclaimed() == old(self).unclaimed() + 1
            },
    {
        if self.stopped || self.failed || self.next >= self.blocks {
            return None;
        }
        let i: u64 = self.next;
        self.next = i + 1;
        proof {
            assert forall|s: int| 0 <= s < self.states().len() implies #[trigger] self.slot_ok(
                s,
            ) by {
                assert(old(self).slot_ok(s));
            }
        }
        Some(i)
    }

    /// Begins to fill the slot of a block that was claimed, if the slot is free
    /// and it is the block's turn.
    pub fn begin_fill(&mut self, i: u64) -> (r: FillStep)
        requires
            old(self).wf(),
            i < old(self).unclaimed(),
        ensures
            final(self).wf(),
            final(self).same_counts(*old(self)),
            ({
                let n = old(self).states().len() as int;
                let s = slot_of(i as int, n);
                if old(self).halted() || old(self).broken() {
                    r is Leave && final(self).states() == old(self).states()
                } else if old(self).states()[s] is Free && old(self).front() <= i < old(self).front()
                    + n {
                    &&& r == FillStep::Fill(s as usize)
                    &&& final(self).states() == old(self).states().update(s, SlotState::Filling(i))
                } else {
                    r is Wait && final(self).states() == old(self).states()
                }
            }),
    {
        if self.stopped || self.failed {
            return FillStep::Leave;
        }
        let s: usize = self.slot(i);
        let n: usize = self.slots.len();
        let free = match self.slots[s] {
            SlotState::Free => true,
            _ => false,
        };
        if !free || i < self.head || i - self.head >= n as u64 {
            return FillStep::Wait;
        }
        self.slots[s] = SlotState::Filling(i);
        proof {
            assert forall|t: int| 0 <= t < self.states().len() implies #[trigger] self.slot_ok(
                t,
            ) by {
                assert(old(self).slot_ok(t));
            }
        }
        FillStep::Fill(s)
    }

    /// Publishes a block that was filled.
    pub fn publish(&mut self, i: u64)
        requires
            old(self).wf(),
            old(self).states()[slot_of(i as int, old(self).states().len() as int)]
                == SlotState::Filling(i),
        ensures
            final(self).wf(),
            final(self).same_counts(*old(self)),
            final(self).states() == old(self).states().update(
                slot_of(i as int, old(self).states().len() as int),
                SlotState::Ready(i),
            ),
    {
        let s: usize = self.slot(i);
        self.slots[s] = SlotState::Ready(i);
        proof {
            assert forall|t: int| 0 <= t < self.states().len() implies #[trigger] self.slot_ok(
                t,
            ) by {
                assert(old(self).slot_ok(t));
            }
        }
    }

    /// Gives a slot up whose read failed. Every reader stops, and the caller is
    /// told.
    pub fn fail(&mut self, i: u64)
        requires
            old(self).wf(),
            old(self).states()[slot_of(i as int, old(self).states().len() as int)]
                == SlotState::Filling(i),
        ensures
            final(self).wf(),
            final(self).broken(),
            final(self).front() == old(self).front(),
            final(self).unclaimed() == old(self).unclaimed(),
            final(self).total() == old(self).total(),
            final(self).halted() == old(self).halted(),
            final(self).states() == old(self).states().update(
                slot_of(i as int, old(self).states().len() as int),
                SlotState::Free,
            ),
    {
        let s: usize = self.slot(i);
        self.slots[s] = SlotState::Free;
        self.failed = true;
        proof {
            assert forall|t: int| 0 <= t < self.states().len() implies #[trigger] self.slot_ok(
                t,
            ) by {
                assert(old(self).slot_ok(t));
            }
        }
    }

    /// Takes the next block for the caller, if it is there.
    pub fn take(&mut self) -> (r: TakeStep)
        requires
            old(self).wf(),
            forall|s: int|
                0 <= s < old(self).states().len() ==> !((#[trigger] old(self).states()[s]) is Out),
        ensures
            final(self).wf(),
            final(self).total() == old(self).total(),
            final(self).unclaimed() == old(self).unclaimed(),
            final(self).broken() == old(self).broken(),
            final(self).halted() == old(self).halted(),
            ({
                let n = old(self).states().len() as int;
                let i = old(self).front();
                let s = slot_of(i, n);
                if i >= old(self).total() {
                    &&& r is End
                    &&& final(self).same_counts(*old(self))
                    &&& final(self).states() == old(self).states()
                } else if old(self).broken() {
                    r is Failed && final(self).same_counts(*old(self)) && final(self).states()
                        == old(self).states()
                } else if old(self).states()[s] == SlotState::Ready(i as u64) {
                    &&& r == TakeStep::Take(s as usize)
                    &&& final(self).front() == i + 1
                    &&& final(self).states() == old(self).states().update(
                        s,
                        SlotState::Out(i as u64),
                    )
                } else {
                    &&& r is Wait
                    &&& final(self).same_counts(*old(self))
                    &&& final(self).states() == old(self).states()
                }
            }),
    {
        if self.head >= self.blocks {
            return TakeStep::End;
        }
        if self.failed {
            return TakeStep::Failed;
        }
        let i: u64 = self.head;
        let s: usize = self.slot(i);
        let ready = match self.slots[s] {
            SlotState::Ready(k) => k == i,
            _ => false,
        };
        if !ready {
            return TakeStep::Wait;
        }
        assert(self.slot_ok(s as int));
        self.slots[s] = SlotState::Out(i);
        self.head = i + 1;
        proof {
            let n = self.states().len() as int;
            assert forall|t: int| 0 <= t < self.states().len() implies #[trigger] self.slot_ok(
                t,
            ) by {
                assert(old(self).slot_ok(t));
                if t != s {
                    match old(self).states()[t] {
                        SlotState::Filling(k) => {
                            assert(k != i);
                        },
                        SlotState::Ready(k) => {
                            assert(k != i);
                        },
                        _ => {},
                    }
                }
            }
        }
        TakeStep::Take(s)
    }

    /// Frees the slot of a block that the caller is done with.
    pub fn release(&mut self, i: u64)
        requires
            old(self).wf(),
            old(self).states()[slot_of(i as int, old(self).states().len() as int)]
                == SlotState::Out(i),
        ensures
            final(self).wf(),
            final(self).same_counts(*old(self)),
            final(self).states() == old(self).states().update(
                slot_of(i as int, old(self).states().len() as int),
                SlotState::Free,
            ),
    {
        let s: usize = self.slot(i);
        self.slots[s] = SlotState::Free;
        proof {
            assert forall|t: int| 0 <= t < self.states().len() implies #[trigger] self.slot_ok(
                t,
            ) by {
                assert(old(self).slot_ok(t));
            }
        }
    }

    /// Tells the readers that the caller is gone.
    pub fn stop(&mut self)
        requires
            old(self).wf(),
        ensures
            final(self).wf(),
            final(self).halted(),
            final(self).states() == old(self).states(),
            final(self).front() == old(self).front(),
            final(self).unclaimed() == old(self).unclaimed(),
            final(self).total() == old(self).total(),
            final(self).broken() == old(self).broken(),
    {
        self.stopped = true;
        proof {
            assert forall|t: int| 0 <= t < self.states().len() implies #[trigger] self.slot_ok(
                t,
            ) by {
                assert(old(self).slot_ok(t));
            }
        }
    }
}

/// Two blocks less than a round apart that share a slot are one block.
proof fn lemma_one_block_per_slot(i: int, k: int, n: int)
    requires
        n > 0,
        0 <= i <= k < i + n,
        i % n == k % n,
    ensures
        i == k,
{
    vstd::arithmetic::div_mod::lemma_fundamental_div_mod(i, n);
    vstd::arithmetic::div_mod::lemma_fundamental_div_mod(k, n);
    let a = i / n;
    let b = k / n;
    assert(k - i == n * (b - a)) by (nonlinear_arith)
        requires
            i == n * a + i % n,
            k == n * b + k % n,
            i % n == k % n,
    ;
    if b - a >= 1 {
        assert(n * (b - a) >= n) by (nonlinear_arith)
            requires
                b - a >= 1,
                n > 0,
        ;
    }
    if b - a <= -1 {
        assert(n * (b - a) <= -n) by (nonlinear_arith)
            requires
                b - a <= -1,
                n > 0,
        ;
    }
}

/// The caller never waits for a slot that is busy with another block. Once it
/// has released the block before, the slot of the next one is free, or is being
/// filled with it, or holds it.
pub proof fn law_ring_never_blocks_the_caller(ring: ReadRing)
    requires
        ring.wf(),
        forall|s: int| 0 <= s < ring.states().len() ==> !((#[trigger] ring.states()[s]) is Out),
    ensures
        ({
            let state = ring.states()[slot_of(ring.front(), ring.states().len() as int)];
            state is Free || state == SlotState::Filling(ring.front() as u64) || state
                == SlotState::Ready(ring.front() as u64)
        }),
{
    let n = ring.states().len() as int;
    let i = ring.front();
    let s = slot_of(i, n);
    vstd::arithmetic::div_mod::lemma_mod_bound(i, n);
    assert(ring.slot_ok(s));
    match ring.states()[s] {
        SlotState::Filling(k) => {
            lemma_one_block_per_slot(i, k as int, n);
        },
        SlotState::Ready(k) => {
            lemma_one_block_per_slot(i, k as int, n);
        },
        _ => {},
    }
}

/// No two slots of a ring are busy with one block.
pub proof fn law_ring_reads_each_block_once(ring: ReadRing, s: int, t: int)
    requires
        ring.wf(),
        0 <= s < ring.states().len(),
        0 <= t < ring.states().len(),
        s != t,
        !(ring.states()[s] is Free),
    ensures
        ring.states()[s].block() != ring.states()[t].block(),
{
    assert(ring.slot_ok(s));
    assert(ring.slot_ok(t));
}

/// Blocks of a file, one after the other.
///
/// What they hold is for proofs. An implementation that nothing is proved of
/// need not say.
pub trait BlockSource: Sized {
    /// What a read can fail with.
    type Error;

    /// The bytes that have not been handed out yet.
    open spec fn rest(&self) -> Seq<u8> {
        Seq::empty()
    }

    /// Reads never fail.
    open spec fn steady(&self) -> bool {
        false
    }

    /// What the source needs of itself to go on.
    open spec fn ok(&self) -> bool {
        true
    }

    /// The next block. It is empty only if there are no more bytes.
    fn next_block(&mut self) -> (r: Result<Vec<u8>, Self::Error>)
        requires
            old(self).ok(),
        ensures
            r is Ok ==> final(self).ok(),
            r is Ok ==> old(self).rest() == r->Ok_0@ + final(self).rest(),
            r is Ok && r->Ok_0@.len() == 0 ==> old(self).rest().len() == 0,
            final(self).steady() == old(self).steady(),
            old(self).steady() ==> r is Ok,
    ;
}

/// Blocks of a file that are read one by one, by the caller itself.
pub struct FileBlocks<R: SeekSource> {
    inner: R,
    plan: ReadPlan,
    index: u64,
}

impl<R: SeekSource> FileBlocks<R> {
    /// The blocks of a plan, which was made for a file of this size.
    pub fn new(inner: R, plan: ReadPlan) -> (r: FileBlocks<R>)
        requires
            plan.sane(),
            plan.block <= usize::MAX,
            inner.whole().len() >= plan.file_size,
        ensures
            r.ok(),
            r.rest() == inner.whole().subrange(plan.base as int, plan.file_size as int),
            r.steady() == inner.steady(),
    {
        let r = FileBlocks { inner, plan, index: 0 };
        proof {
            assert(0 * plan.block == 0) by (nonlinear_arith);
            if plan.blocks == 0 {
                assert(plan.want == 0);
                assert(inner.whole().subrange(plan.base as int, plan.file_size as int)
                    =~= Seq::empty());
            }
        }
        r
    }
}

impl<R: SeekSource> BlockSource for FileBlocks<R> {
    type Error = R::Error;

    closed spec fn rest(&self) -> Seq<u8> {
        if self.index < self.plan.blocks {
            self.inner.whole().subrange(
                self.plan.block_start(self.index as int),
                self.plan.file_size as int,
            )
        } else {
            Seq::empty()
        }
    }

    closed spec fn steady(&self) -> bool {
        self.inner.steady()
    }

    closed spec fn ok(&self) -> bool {
        &&& self.plan.sane()
        &&& self.plan.block <= usize::MAX
        &&& self.inner.whole().len() >= self.plan.file_size
        &&& self.index <= self.plan.blocks
    }

    fn next_block(&mut self) -> (r: Result<Vec<u8>, R::Error>) {
        if self.index >= self.plan.blocks {
            assert(Seq::<u8>::empty() + self.rest() =~= self.rest());
            return Ok(Vec::new());
        }
        let (start, take) = self.plan.span(self.index);
        let ghost whole = self.inner.whole();
        proof {
            law_blocks_tile_the_file(self.plan, self.index as int);
        }
        match self.inner.seek(start) {
            Ok(_) => {},
            Err(e) => {
                return Err(e);
            },
        }
        match self.inner.read(take as usize) {
            Ok(block) => {
                self.index = self.index + 1;
                proof {
                    let all = whole.subrange(start as int, self.plan.file_size as int);
                    assert(block@ =~= whole.subrange(start as int, start + take));
                    assert(all =~= block@ + self.rest());
                }
                Ok(block)
            },
            Err(e) => Err(e),
        }
    }
}

/// Reads a file from any offset on, block by block.
///
/// The size of the file is the one that it had when it was opened.
pub struct SeqReader<B: BlockSource> {
    blocks: B,
    cur: Vec<u8>,
    pos: usize,
    skip: u64,
    done: bool,
    file_size: u64,
}

impl<B: BlockSource> SeqReader<B> {
    /// The bytes that are still to come.
    pub open spec fn coming(self) -> Seq<u8> {
        if self.over() {
            self.held()
        } else {
            self.held() + beyond(self.undelivered(), self.to_skip())
        }
    }

    /// No more blocks are read, because there are none or because one could not
    /// be read.
    pub closed spec fn over(self) -> bool {
        self.done
    }

    /// The bytes of the current block that were not handed out.
    pub closed spec fn held(self) -> Seq<u8> {
        self.cur@.skip(self.pos as int)
    }

    /// The bytes that the blocks have not handed out.
    pub closed spec fn undelivered(self) -> Seq<u8> {
        self.blocks.rest()
    }

    /// How many of those come before the wanted offset.
    pub closed spec fn to_skip(self) -> int {
        self.skip as int
    }

    /// Reads of the blocks never fail.
    pub closed spec fn steady(self) -> bool {
        self.blocks.steady()
    }

    /// Size of the file when it was opened.
    pub closed spec fn size(self) -> u64 {
        self.file_size
    }

    /// What the reader's own fields obey.
    pub closed spec fn wf(self) -> bool {
        &&& self.pos <= self.cur@.len()
        &&& self.skip > 0 ==> self.pos == self.cur@.len()
        &&& self.done || self.blocks.ok()
    }

    /// A reader of the blocks of `plan`.
    pub fn new(blocks: B, plan: &ReadPlan) -> (r: SeqReader<B>)
        requires
            blocks.ok(),
            blocks.rest().len() == plan.want,
        ensures
            r.wf(),
            r.coming() == beyond(blocks.rest(), plan.skip as int),
            r.steady() == blocks.steady(),
            r.size() == plan.file_size,
    {
        let r = SeqReader {
            blocks,
            cur: Vec::new(),
            pos: 0,
            skip: plan.skip,
            done: plan.want == 0,
            file_size: plan.file_size,
        };
        assert(r.held() =~= Seq::<u8>::empty());
        assert(r.coming() =~= beyond(blocks.rest(), plan.skip as int));
        r
    }

    /// Size of the file when it was opened, not now.
    pub fn file_size(&self) -> (r: u64)
        ensures
            r == self.size(),
    {
        self.file_size
    }

    /// Reads up to `want` bytes. It gives none only at the end of the file, or
    /// when none are wanted. After an error nothing more comes.
    pub fn read(&mut self, want: usize) -> (r: Result<Vec<u8>, B::Error>)
        requires
            old(self).wf(),
        ensures
            final(self).steady() == old(self).steady(),
            final(self).size() == old(self).size(),
            final(self).wf(),
            old(self).steady() ==> r is Ok,
            r is Err ==> final(self).coming().len() == 0,
            r is Ok ==> {
                &&& old(self).coming() == r->Ok_0@ + final(self).coming()
                &&& r->Ok_0@.len() <= want
                &&& r->Ok_0@.len() == 0 ==> want == 0 || old(self).coming().len() == 0
                &&& r->Ok_0@.len() == want || final(self).held().len() == 0
                &&& old(self).held().len() > 0 ==> {
                    &&& r->Ok_0@ == at_most(old(self).held(), want as int)
                    &&& final(self).held() == beyond(old(self).held(), want as int)
                }
            },
    {
        while self.pos >= self.cur.len()
            invariant
                self.wf(),
                self.coming() == old(self).coming(),
                self.steady() == old(self).steady(),
                self.size() == old(self).size(),
                old(self).held().len() > 0 ==> *self == *old(self),
            decreases
                    self.undelivered().len(),
                    if self.done {
                        0int
                    } else {
                        1
                    },
        {
            if self.done {
                assert(self.held() =~= Seq::<u8>::empty());
                assert(self.coming() =~= Seq::<u8>::empty());
                assert(Seq::<u8>::empty() + self.coming() =~= self.coming());
                return Ok(Vec::new());
            }
            let ghost before = *self;
            let block = match self.blocks.next_block() {
                Ok(block) => block,
                Err(e) => {
                    self.done = true;
                    return Err(e);
                },
            };
            let len: usize = block.len();
            let drop_now: usize = if self.skip < len as u64 {
                self.skip as usize
            } else {
                len
            };
            self.skip = self.skip - drop_now as u64;
            self.cur = block;
            self.pos = drop_now;
            if len == 0 {
                self.done = true;
            }
            proof {
                assert(before.held() =~= Seq::<u8>::empty());
                let k = before.to_skip();
                let rest = before.undelivered();
                assert(rest == block@ + self.undelivered());
                assert(self.coming() =~= beyond(rest, k));
                assert(before.coming() =~= beyond(rest, k));
            }
        }
        let have: usize = self.cur.len() - self.pos;
        let n: usize = if want < have {
            want
        } else {
            have
        };
        let from: usize = self.pos;
        let ghost before = *self;
        let part = vstd::slice::slice_to_vec(
            vstd::slice::slice_subrange(self.cur.as_slice(), from, from + n),
        );
        self.pos = from + n;
        proof {
            assert(before.held() =~= part@ + self.held());
            assert(part@ =~= at_most(before.held(), want as int));
            assert(self.held() =~= beyond(before.held(), want as int));
            assert(before.coming() =~= part@ + self.coming());
        }
        Ok(part)
    }
}

/// Reads a source of `file_size` bytes from `offset` on, with a reader of the
/// shape `config`. The offset needs no alignment, and one at or behind the end
/// reads nothing.
pub fn open_at<R: SeekSource>(
    source: R,
    file_size: u64,
    offset: u64,
    config: SeqReaderConfig,
) -> (r: Result<SeqReader<FileBlocks<R>>, ConfigError>)
    requires
        source.whole().len() >= file_size,
    ensures
        match config.fault() {
            Some(e) => r is Err && r->Err_0 == e,
            None => {
                &&& r is Ok
                &&& r->Ok_0.wf()
                &&& r->Ok_0.steady() == source.steady()
                &&& r->Ok_0.size() == file_size
                &&& r->Ok_0.coming() == beyond(source.whole().take(file_size as int), offset as int)
            },
        },
{
    match config.validate() {
        Ok(_) => {},
        Err(e) => {
            return Err(e);
        },
    }
    let plan = ReadPlan::new(file_size, offset, config.block as u64);
    let blocks = FileBlocks::new(source, plan);
    let r = SeqReader::new(blocks, &plan);
    proof {
        assert(r.coming() =~= beyond(source.whole().take(file_size as int), offset as int));
    }
    Ok(r)
}

/// A shape is refused for a reason: a number of it is zero, there are fewer slots
/// than threads, or the blocks are not whole sectors. The first of these is
/// reported.
pub proof fn law_shape_is_refused_for_a_reason(shape: SeqReaderConfig)
    ensures
        ({
            let zero = shape.threads == 0 || shape.slots == 0 || shape.block == 0;
            let few = shape.slots < shape.threads;
            let odd = shape.block % 4096 != 0;
            &&& shape.fault() is None <==> !zero && !few && !odd
            &&& shape.fault() is Some && shape.fault()->Some_0 is Zero <==> zero
            &&& !zero && few <==> shape.fault() == Some(
                ConfigError::SlotsBelowThreads { slots: shape.slots, threads: shape.threads },
            )
            &&& !zero && !few && odd <==> shape.fault() == Some(
                ConfigError::UnalignedBlock { block: shape.block },
            )
        }),
{
}

/// A plan has as many blocks as it takes: one block fewer would leave bytes out,
/// and a plan has no blocks just if it has no bytes.
pub proof fn law_plan_has_just_enough_blocks(
    plan: ReadPlan,
    file_size: u64,
    offset: u64,
    block: u64,
)
    requires
        plan.covers(file_size, offset, block),
    ensures
        plan.file_size == file_size,
        plan.block == block,
        plan.blocks * block >= plan.want,
        plan.blocks > 0 ==> (plan.blocks - 1) * block < plan.want,
        plan.base % 4096 == 0,
        plan.base <= offset,
        offset <= file_size ==> offset < plan.base + 4096,
        plan.base + plan.want == file_size,
{
}

} // verus!
