//! What a disk holds after a crash.
//!
//! A journal of file system operations is replayed up to the crash. Each file
//! has contents that are safely on the disk and changes that are still in
//! flight, and so do the names in the directories. The crash policy says which
//! of the changes in flight made it.

use vstd::prelude::*;

use super::{CrashPolicy, Op, OpView};
use crate::bytes::{push_zeros, zeros};
use crate::path::{
    dir_of, distinct_paths, is_path_before, law_path_order_is_total, parent_of, parent_or_dot,
    path_before, same_dir, DirView, FilePath, PathMap, PathView,
};

verus! {

/// A change of a file's contents that is in flight.
pub enum PendingView {
    /// Bytes written at an offset.
    Write {
        /// Where the bytes go.
        offset: int,
        /// The bytes.
        data: Seq<u8>,
    },
    /// A new length.
    Truncate(int),
}

/// A change of a directory's names that is in flight.
pub enum EntryView {
    /// A name for a file.
    Link(PathView, int),
    /// A new name for the file of an old one.
    Rename(PathView, PathView),
    /// A name removed.
    Unlink(PathView),
}

/// A file on the disk.
pub struct InodeView {
    /// The contents that are safe.
    pub durable: Seq<u8>,
    /// The changes in flight, in order.
    pub pending: Seq<PendingView>,
}

/// A disk.
pub struct DiskView {
    /// Every file there ever was.
    pub inodes: Seq<InodeView>,
    /// The names as the running process sees them.
    pub live: Map<PathView, int>,
    /// The names that are safe.
    pub durable_names: Map<PathView, int>,
    /// The changes of names in flight, in order.
    pub pending_names: Seq<EntryView>,
}

/// `s` cut or filled up with zeros to length `n`.
pub open spec fn resized(s: Seq<u8>, n: int) -> Seq<u8> {
    if n <= s.len() {
        s.take(n)
    } else {
        s + zeros((n - s.len()) as nat)
    }
}

/// `s` filled up with zeros to length `n`, if it is shorter.
pub open spec fn extended(s: Seq<u8>, n: int) -> Seq<u8> {
    if s.len() < n {
        resized(s, n)
    } else {
        s
    }
}

/// `s` with `data` written at `offset`. A gap before it is filled with zeros.
pub open spec fn written(s: Seq<u8>, offset: int, data: Seq<u8>) -> Seq<u8> {
    let t = extended(s, offset + data.len());
    t.take(offset) + data + t.skip(offset + data.len())
}

/// The contents after a change.
pub open spec fn changed(s: Seq<u8>, change: PendingView) -> Seq<u8> {
    match change {
        PendingView::Truncate(n) => resized(s, n),
        PendingView::Write { offset, data } => written(s, offset, data),
    }
}

/// The contents after some changes.
pub open spec fn changed_all(s: Seq<u8>, changes: Seq<PendingView>) -> Seq<u8>
    decreases changes.len(),
{
    if changes.len() == 0 {
        s
    } else {
        changed(changed_all(s, changes.drop_last()), changes.last())
    }
}

/// How much of a torn write of `n` bytes made it: about half, in whole sectors.
pub open spec fn torn_len(n: int) -> int {
    n / 2 / 512 * 512
}

/// The contents after a change that was torn.
pub open spec fn changed_torn(s: Seq<u8>, change: PendingView) -> Seq<u8> {
    match change {
        PendingView::Truncate(n) => resized(s, n),
        PendingView::Write { offset, data } => written(
            s,
            offset,
            data.take(torn_len(data.len() as int)),
        ),
    }
}

/// The contents after a change of which every other sector was lost. The file
/// has its full length, and what was lost is zero.
pub open spec fn changed_holey(s: Seq<u8>, change: PendingView) -> Seq<u8> {
    match change {
        PendingView::Truncate(n) => resized(s, n),
        PendingView::Write { offset, data } => written(s, offset, holed(data)),
    }
}

/// Bytes of which every other sector is zero.
pub open spec fn holed(data: Seq<u8>) -> Seq<u8> {
    Seq::new(
        data.len(),
        |i: int|
            if i / 512 % 2 == 0 {
                data[i]
            } else {
                0u8
            },
    )
}

/// Where the last write among some changes stands; -1 if there is none.
pub open spec fn last_write(changes: Seq<PendingView>) -> int
    decreases changes.len(),
{
    if changes.len() == 0 {
        -1
    } else if changes.last() is Write {
        changes.len() - 1
    } else {
        last_write(changes.drop_last())
    }
}

/// What a change that was in flight makes of a file's contents in a crash. Cuts
/// and extensions always land. What happens to a write depends on whether it was
/// the last one of the file.
pub open spec fn fared(
    s: Seq<u8>,
    change: PendingView,
    is_last: bool,
    policy: CrashPolicy,
) -> Seq<u8> {
    match policy {
        CrashPolicy::Nothing => s,
        CrashPolicy::Everything | CrashPolicy::NoDirOps => changed(s, change),
        CrashPolicy::TornTail => if is_last {
            changed_torn(s, change)
        } else {
            changed(s, change)
        },
        CrashPolicy::HoleyTail => if is_last {
            changed_holey(s, change)
        } else {
            changed(s, change)
        },
        CrashPolicy::ReorderedTail => if is_last || change is Truncate {
            changed(s, change)
        } else {
            s
        },
    }
}

/// What changes that were in flight make of a file's contents in a crash. The
/// last write is the one at `last`.
pub open spec fn fared_all(
    s: Seq<u8>,
    changes: Seq<PendingView>,
    last: int,
    policy: CrashPolicy,
) -> Seq<u8>
    decreases changes.len(),
{
    if changes.len() == 0 {
        s
    } else {
        fared(
            fared_all(s, changes.drop_last(), last, policy),
            changes.last(),
            changes.len() - 1 == last,
            policy,
        )
    }
}

/// The contents of a file after a crash.
pub open spec fn contents_of(inode: InodeView, policy: CrashPolicy) -> Seq<u8> {
    fared_all(inode.durable, inode.pending, last_write(inode.pending), policy)
}

/// The directory that a change of names is in. For a rename it is that of the
/// new name.
pub open spec fn entry_dir(entry: EntryView) -> DirView {
    match entry {
        EntryView::Link(path, _) => parent_of(path),
        EntryView::Unlink(path) => parent_of(path),
        EntryView::Rename(_, to) => parent_of(to),
    }
}

/// The names after a file got a new one.
pub open spec fn moved(
    names: Map<PathView, int>,
    from: PathView,
    to: PathView,
) -> Map<PathView, int> {
    if names.contains_key(from) {
        names.remove(from).insert(to, names[from])
    } else {
        names
    }
}

/// The names after a change.
pub open spec fn renamed(names: Map<PathView, int>, entry: EntryView) -> Map<PathView, int> {
    match entry {
        EntryView::Link(path, id) => names.insert(path, id),
        EntryView::Rename(from, to) => moved(names, from, to),
        EntryView::Unlink(path) => names.remove(path),
    }
}

/// The names after some changes.
pub open spec fn renamed_all(names: Map<PathView, int>, entries: Seq<EntryView>) -> Map<
    PathView,
    int,
>
    decreases entries.len(),
{
    if entries.len() == 0 {
        names
    } else {
        renamed(renamed_all(names, entries.drop_last()), entries.last())
    }
}

/// An empty disk.
pub open spec fn blank_disk() -> DiskView {
    DiskView {
        inodes: Seq::empty(),
        live: Map::empty(),
        durable_names: Map::empty(),
        pending_names: Seq::empty(),
    }
}

/// The disk with one more change of the file `path` in flight.
pub open spec fn in_flight(d: DiskView, path: PathView, change: PendingView) -> DiskView {
    if d.live.contains_key(path) {
        let id = d.live[path];
        let inode = d.inodes[id];
        DiskView {
            inodes: d.inodes.update(
                id,
                InodeView { pending: inode.pending.push(change), ..inode },
            ),
            ..d
        }
    } else {
        d
    }
}

/// The disk with all changes of the file `path` made safe.
pub open spec fn synced(d: DiskView, path: PathView) -> DiskView {
    if d.live.contains_key(path) {
        let id = d.live[path];
        let inode = d.inodes[id];
        DiskView {
            inodes: d.inodes.update(
                id,
                InodeView {
                    durable: changed_all(inode.durable, inode.pending),
                    pending: Seq::empty(),
                },
            ),
            ..d
        }
    } else {
        d
    }
}

/// The disk after an operation.
pub open spec fn disk_step(d: DiskView, op: OpView) -> DiskView {
    match op {
        OpView::Create { path } => {
            let id = d.inodes.len() as int;
            DiskView {
                inodes: d.inodes.push(
                    InodeView { durable: Seq::empty(), pending: Seq::empty() },
                ),
                live: d.live.insert(path, id),
                durable_names: d.durable_names,
                pending_names: d.pending_names.push(EntryView::Link(path, id)),
            }
        },
        OpView::Truncate { path, len } => in_flight(d, path, PendingView::Truncate(len as int)),
        OpView::Write { path, offset, data } => in_flight(
            d,
            path,
            PendingView::Write { offset: offset as int, data },
        ),
        OpView::SyncData { path } => synced(d, path),
        OpView::SyncFile { path } => synced(d, path),
        OpView::Rename { from, to } => DiskView {
            live: moved(d.live, from, to),
            pending_names: d.pending_names.push(EntryView::Rename(from, to)),
            ..d
        },
        OpView::Remove { path } => DiskView {
            live: d.live.remove(path),
            pending_names: d.pending_names.push(EntryView::Unlink(path)),
            ..d
        },
        OpView::SyncDir { dir } => DiskView {
            durable_names: renamed_all(
                d.durable_names,
                d.pending_names.filter(|e: EntryView| entry_dir(e) == dir),
            ),
            pending_names: d.pending_names.filter(|e: EntryView| entry_dir(e) != dir),
            ..d
        },
        OpView::Ack { label } => d,
    }
}

/// The disk after some operations.
pub open spec fn disk_after(ops: Seq<OpView>) -> DiskView
    decreases ops.len(),
{
    if ops.len() == 0 {
        blank_disk()
    } else {
        disk_step(disk_after(ops.drop_last()), ops.last())
    }
}

/// The names that a crash leaves.
pub open spec fn surviving_names(d: DiskView, policy: CrashPolicy) -> Map<PathView, int> {
    if policy.keeps_dir_ops_spec() {
        renamed_all(d.durable_names, d.pending_names)
    } else {
        d.durable_names
    }
}

/// The files that a crash leaves, and their contents.
pub open spec fn surviving_files(d: DiskView, policy: CrashPolicy) -> Map<PathView, Seq<u8>> {
    surviving_names(d, policy).map_values(|id: int| contents_of(d.inodes[id], policy))
}

/// The files that a crash after `ops` leaves, and their contents.
pub open spec fn crash_image(ops: Seq<OpView>, policy: CrashPolicy) -> Map<PathView, Seq<u8>> {
    surviving_files(disk_after(ops), policy)
}

/// The contents of a file as the running process sees them.
pub open spec fn live_contents(inode: InodeView) -> Seq<u8> {
    changed_all(inode.durable, inode.pending)
}

/// The operation's lengths and offsets can be addressed in memory.
pub open spec fn op_fits(op: OpView) -> bool {
    match op {
        OpView::Truncate { path, len } => len <= usize::MAX,
        OpView::Write { path, offset, data } => offset + data.len() <= usize::MAX,
        _ => true,
    }
}

/// The change's lengths and offsets can be addressed in memory.
pub open spec fn change_fits(change: PendingView) -> bool {
    match change {
        PendingView::Truncate(len) => 0 <= len <= usize::MAX,
        PendingView::Write { offset, data } => 0 <= offset && offset + data.len() <= usize::MAX,
    }
}

/// Every file that a name or a change of names refers to exists.
pub open spec fn names_ok(d: DiskView) -> bool {
    &&& forall|p: PathView| #[trigger]
        d.live.contains_key(p) ==> 0 <= d.live[p] < d.inodes.len()
    &&& forall|p: PathView| #[trigger]
        d.durable_names.contains_key(p) ==> 0 <= d.durable_names[p] < d.inodes.len()
    &&& forall|i: int|
        0 <= i < d.pending_names.len() ==> match #[trigger] d.pending_names[i] {
            EntryView::Link(_, id) => 0 <= id < d.inodes.len(),
            _ => true,
        }
}

/// Names refer to files, and the lengths and offsets of the changes in flight
/// can be addressed in memory.
pub open spec fn disk_ok(d: DiskView) -> bool {
    &&& names_ok(d)
    &&& forall|i: int, j: int|
        0 <= i < d.inodes.len() && 0 <= j < (#[trigger] d.inodes[i]).pending.len() ==> change_fits(
            #[trigger] d.inodes[i].pending[j],
        )
}

/// A change of a file's contents that is in flight.
enum Pending {
    Write { offset: usize, data: Vec<u8> },
    Truncate(usize),
}

impl View for Pending {
    type V = PendingView;

    closed spec fn view(&self) -> PendingView {
        match self {
            Pending::Write { offset, data } => PendingView::Write {
                offset: *offset as int,
                data: data@,
            },
            Pending::Truncate(n) => PendingView::Truncate(*n as int),
        }
    }
}

/// A change of a directory's names that is in flight.
enum EntryOp {
    Link(FilePath, usize),
    Rename(FilePath, FilePath),
    Unlink(FilePath),
}

impl View for EntryOp {
    type V = EntryView;

    closed spec fn view(&self) -> EntryView {
        match self {
            EntryOp::Link(path, id) => EntryView::Link(path@, *id as int),
            EntryOp::Rename(from, to) => EntryView::Rename(from@, to@),
            EntryOp::Unlink(path) => EntryView::Unlink(path@),
        }
    }
}

/// Cuts or fills up `bytes` to length `n`.
pub(crate) fn resize(bytes: &mut Vec<u8>, n: usize)
    ensures
        final(bytes)@ == resized(old(bytes)@, n as int),
{
    let len: usize = bytes.len();
    if n <= len {
        bytes.truncate(n);
        assert(bytes@ =~= old(bytes)@.take(n as int));
    } else {
        push_zeros(bytes, n - len);
    }
}

/// Writes `data` at `offset`, filling a gap before it with zeros.
pub(crate) fn write_at(bytes: &mut Vec<u8>, offset: usize, data: &[u8])
    requires
        offset + data@.len() <= usize::MAX,
    ensures
        final(bytes)@ == written(old(bytes)@, offset as int, data@),
{
    let end: usize = offset + data.len();
    if bytes.len() < end {
        resize(bytes, end);
    }
    let ghost t = extended(old(bytes)@, end as int);
    let mut i: usize = 0;
    while i < data.len()
        invariant
            i <= data@.len(),
            end == offset + data@.len(),
            bytes@.len() == t.len(),
            end <= t.len(),
            forall|j: int|
                0 <= j < t.len() ==> #[trigger] bytes@[j] == (if offset <= j < offset + i {
                    data@[j - offset]
                } else {
                    t[j]
                }),
        decreases data@.len() - i,
    {
        bytes[offset + i] = data[i];
        i += 1;
    }
    assert(bytes@ =~= written(old(bytes)@, offset as int, data@));
}

fn apply(bytes: &mut Vec<u8>, change: &Pending)
    requires
        change_fits(change@),
    ensures
        final(bytes)@ == changed(old(bytes)@, change@),
{
    match change {
        Pending::Truncate(n) => resize(bytes, *n),
        Pending::Write { offset, data } => write_at(bytes, *offset, data.as_slice()),
    }
}

fn apply_torn(bytes: &mut Vec<u8>, change: &Pending)
    requires
        change_fits(change@),
    ensures
        final(bytes)@ == changed_torn(old(bytes)@, change@),
{
    match change {
        Pending::Truncate(n) => resize(bytes, *n),
        Pending::Write { offset, data } => {
            let cut: usize = data.len() / 2 / 512 * 512;
            let part = vstd::slice::slice_subrange(data.as_slice(), 0, cut);
            assert(part@ =~= data@.take(torn_len(data@.len() as int)));
            write_at(bytes, *offset, part)
        },
    }
}

fn apply_holey(bytes: &mut Vec<u8>, change: &Pending)
    requires
        change_fits(change@),
    ensures
        final(bytes)@ == changed_holey(old(bytes)@, change@),
{
    match change {
        Pending::Truncate(n) => resize(bytes, *n),
        Pending::Write { offset, data } => {
            let mut part: Vec<u8> = Vec::new();
            let mut i: usize = 0;
            while i < data.len()
                invariant
                    i <= data@.len(),
                    part@ == holed(data@).take(i as int),
                decreases data@.len() - i,
            {
                if i / 512 % 2 == 0 {
                    part.push(data[i]);
                } else {
                    part.push(0);
                }
                i += 1;
                assert(part@ =~= holed(data@).take(i as int));
            }
            assert(part@ =~= holed(data@));
            write_at(bytes, *offset, part.as_slice())
        },
    }
}

/// A file on the disk.
struct Inode {
    durable: Vec<u8>,
    pending: Vec<Pending>,
}

spec fn pending_views(pending: Seq<Pending>) -> Seq<PendingView> {
    pending.map_values(|p: Pending| p@)
}

impl View for Inode {
    type V = InodeView;

    closed spec fn view(&self) -> InodeView {
        InodeView { durable: self.durable@, pending: pending_views(self.pending@) }
    }
}

impl Inode {
    /// Where the last write in flight stands; the number of changes in flight if
    /// there is none.
    fn last_write(&self) -> (r: usize)
        ensures
            r <= self@.pending.len(),
            r == (if last_write(self@.pending) >= 0 {
                last_write(self@.pending)
            } else {
                self@.pending.len() as int
            }),
    {
        let n: usize = self.pending.len();
        let ghost all = self@.pending;
        let mut i: usize = n;
        assert(all.take(n as int) =~= all);
        while i > 0
            invariant
                i <= n,
                n == self.pending@.len(),
                all == self@.pending,
                last_write(all) == last_write(all.take(i as int)),
            decreases i,
        {
            let ghost now = all.take(i as int);
            proof {
                assert(now.last() == self.pending@[i - 1]@);
                assert(now.drop_last() =~= all.take(i - 1));
            }
            match &self.pending[i - 1] {
                Pending::Write { .. } => {
                    return i - 1;
                },
                Pending::Truncate(_) => {},
            }
            i -= 1;
        }
        n
    }

    /// The contents after a crash.
    fn contents(&self, policy: CrashPolicy) -> (r: Vec<u8>)
        requires
            forall|j: int| 0 <= j < self@.pending.len() ==> change_fits(#[trigger] self@.pending[j]),
        ensures
            r@ == contents_of(self@, policy),
    {
        let mut bytes = vstd::slice::slice_to_vec(self.durable.as_slice());
        let n: usize = self.pending.len();
        let last: usize = self.last_write();
        let ghost all = self@.pending;
        let mut i: usize = 0;
        assert(all.take(0) =~= Seq::empty());
        while i < n
            invariant
                n == self.pending@.len(),
                i <= n,
                all == self@.pending,
                last == (if last_write(all) >= 0 {
                    last_write(all)
                } else {
                    n as int
                }),
                forall|j: int|
                    0 <= j < self@.pending.len() ==> change_fits(#[trigger] self@.pending[j]),
                bytes@ == fared_all(self.durable@, all.take(i as int), last_write(all), policy),
            decreases n - i,
        {
            proof {
                let next = all.take(i + 1);
                assert(next.drop_last() =~= all.take(i as int));
                assert(next.last() == self.pending@[i as int]@);
                assert(change_fits(self@.pending[i as int]));
            }
            let change = &self.pending[i];
            let is_last = i == last;
            match policy {
                CrashPolicy::Nothing => {},
                CrashPolicy::Everything | CrashPolicy::NoDirOps => {
                    apply(&mut bytes, change);
                },
                CrashPolicy::TornTail => {
                    if is_last {
                        apply_torn(&mut bytes, change);
                    } else {
                        apply(&mut bytes, change);
                    }
                },
                CrashPolicy::HoleyTail => {
                    if is_last {
                        apply_holey(&mut bytes, change);
                    } else {
                        apply(&mut bytes, change);
                    }
                },
                CrashPolicy::ReorderedTail => {
                    let cuts = match change {
                        Pending::Truncate(_) => true,
                        Pending::Write { .. } => false,
                    };
                    if is_last || cuts {
                        apply(&mut bytes, change);
                    }
                },
            }
            i += 1;
        }
        assert(all.take(n as int) =~= all);
        bytes
    }

    /// Makes all changes in flight safe.
    fn settle(&mut self)
        requires
            forall|j: int|
                0 <= j < old(self)@.pending.len() ==> change_fits(#[trigger] old(self)@.pending[j]),
        ensures
            final(self)@ == (InodeView {
                durable: live_contents(old(self)@),
                pending: Seq::empty(),
            }),
    {
        let mut bytes = vstd::slice::slice_to_vec(self.durable.as_slice());
        let mut i: usize = 0;
        assert(self@.pending.take(0) =~= Seq::empty());
        while i < self.pending.len()
            invariant
                i <= self.pending@.len(),
                *self == *old(self),
                forall|j: int|
                    0 <= j < self@.pending.len() ==> change_fits(#[trigger] self@.pending[j]),
                bytes@ == changed_all(self.durable@, self@.pending.take(i as int)),
            decreases self.pending@.len() - i,
        {
            proof {
                let next = self@.pending.take(i + 1);
                assert(next.drop_last() =~= self@.pending.take(i as int));
                assert(next.last() == self.pending@[i as int]@);
                assert(change_fits(self@.pending[i as int]));
            }
            apply(&mut bytes, &self.pending[i]);
            i += 1;
        }
        assert(self@.pending.take(i as int) =~= self@.pending);
        self.durable = bytes;
        self.pending = Vec::new();
        assert(self@.pending =~= Seq::empty());
    }
}

spec fn id_map(names: Map<PathView, usize>) -> Map<PathView, int> {
    names.map_values(|id: usize| id as int)
}

spec fn inode_views(inodes: Seq<Inode>) -> Seq<InodeView> {
    inodes.map_values(|n: Inode| n@)
}

spec fn entry_views(entries: Seq<EntryOp>) -> Seq<EntryView> {
    entries.map_values(|e: EntryOp| e@)
}

/// Whether a change of names is in the directory `dir`.
fn in_dir(entry: &EntryOp, dir: &String) -> (r: bool)
    ensures
        r == (entry_dir(entry@) == dir_of(dir@)),
{
    let parent = match entry {
        EntryOp::Link(path, _) => parent_or_dot(path),
        EntryOp::Unlink(path) => parent_or_dot(path),
        EntryOp::Rename(_, to) => parent_or_dot(to),
    };
    same_dir(&parent, dir)
}

fn apply_entry(names: &mut PathMap<usize>, entry: &EntryOp)
    ensures
        id_map(final(names)@) == renamed(id_map(old(names)@), entry@),
{
    match entry {
        EntryOp::Link(path, id) => {
            names.insert(path, *id);
        },
        EntryOp::Rename(from, to) => {
            move_name(names, from, to);
        },
        EntryOp::Unlink(path) => {
            let _ = names.remove(path);
        },
    }
    assert(id_map(names@) =~= renamed(id_map(old(names)@), entry@));
}

fn move_name(names: &mut PathMap<usize>, from: &FilePath, to: &FilePath)
    ensures
        id_map(final(names)@) == moved(id_map(old(names)@), from@, to@),
{
    match names.remove(from) {
        Some(id) => {
            names.insert(to, id);
        },
        None => {},
    }
    assert(id_map(names@) =~= moved(id_map(old(names)@), from@, to@));
}

/// A disk, as the replay builds it up.
struct Disk {
    inodes: Vec<Inode>,
    live: PathMap<usize>,
    durable_names: PathMap<usize>,
    pending_names: Vec<EntryOp>,
}

impl View for Disk {
    type V = DiskView;

    closed spec fn view(&self) -> DiskView {
        DiskView {
            inodes: inode_views(self.inodes@),
            live: id_map(self.live@),
            durable_names: id_map(self.durable_names@),
            pending_names: entry_views(self.pending_names@),
        }
    }
}

impl Disk {
    fn new() -> (r: Disk)
        ensures
            r@ == blank_disk(),
            disk_ok(r@),
    {
        let r = Disk {
            inodes: Vec::new(),
            live: PathMap::new(),
            durable_names: PathMap::new(),
            pending_names: Vec::new(),
        };
        assert(r@.inodes =~= Seq::empty());
        assert(r@.live =~= Map::empty());
        assert(r@.durable_names =~= Map::empty());
        assert(r@.pending_names =~= Seq::empty());
        r
    }

    fn change(&mut self, path: &FilePath, change: Pending)
        requires
            disk_ok(old(self)@),
            change_fits(change@),
        ensures
            final(self)@ == in_flight(old(self)@, path@, change@),
    {
        let id: usize = match self.live.get(path) {
            Some(id) => *id,
            None => {
                return;
            },
        };
        assert(self@.live.contains_key(path@));
        let ghost before = self.inodes@[id as int]@;
        self.inodes[id].pending.push(change);
        proof {
            assert(self.inodes@[id as int]@.pending =~= before.pending.push(change@));
            assert(self@.inodes =~= in_flight(old(self)@, path@, change@).inodes);
        }
    }

    fn sync(&mut self, path: &FilePath)
        requires
            disk_ok(old(self)@),
        ensures
            final(self)@ == synced(old(self)@, path@),
    {
        let id: usize = match self.live.get(path) {
            Some(id) => *id,
            None => {
                return;
            },
        };
        assert(self@.live.contains_key(path@));
        proof {
            let inode = self.inodes@[id as int]@;
            assert(self@.inodes[id as int] == inode);
            assert forall|j: int| 0 <= j < inode.pending.len() implies change_fits(
                #[trigger] inode.pending[j],
            ) by {
                assert(change_fits(self@.inodes[id as int].pending[j]));
            }
        }
        self.inodes[id].settle();
        assert(self@.inodes =~= synced(old(self)@, path@).inodes);
    }

    fn sync_names(&mut self, dir: &String)
        ensures
            final(self)@ == disk_step(old(self)@, OpView::SyncDir { dir: dir_of(dir@) }),
    {
        let ghost all = self@.pending_names;
        let ghost here = |e: EntryView| entry_dir(e) == dir_of(dir@);
        let ghost elsewhere = |e: EntryView| entry_dir(e) != dir_of(dir@);
        let mut pending: Vec<EntryOp> = Vec::new();
        std::mem::swap(&mut self.pending_names, &mut pending);
        let mut kept: Vec<EntryOp> = Vec::new();
        let ghost total = pending@;
        proof {
            reveal(Seq::filter);
            assert(entry_views(total) == all);
            assert(all.skip(0) =~= all);
            assert(all.take(0) =~= Seq::empty());
            assert(entry_views(kept@) =~= Seq::empty());
        }
        let ghost mut done: int = 0;
        while pending.len() > 0
            invariant
                0 <= done <= all.len(),
                pending@ == total.skip(done),
                entry_views(total) == all,
                all == old(self)@.pending_names,
                here == (|e: EntryView| entry_dir(e) == dir_of(dir@)),
                elsewhere == (|e: EntryView| entry_dir(e) != dir_of(dir@)),
                self.inodes == old(self).inodes,
                self.live == old(self).live,
                id_map(self.durable_names@) == renamed_all(
                    old(self)@.durable_names,
                    all.take(done).filter(here),
                ),
                entry_views(kept@) == all.take(done).filter(elsewhere),
            decreases pending@.len(),
        {
            let entry = pending.remove(0);
            proof {
                assert(entry == total[done]);
                assert(all[done] == entry@);
                assert(pending@ =~= total.skip(done + 1));
                let next = all.take(done + 1);
                assert(next.drop_last() =~= all.take(done));
                reveal(Seq::filter);
                let f = all.take(done).filter(here);
                assert(f.push(entry@).drop_last() =~= f);
            }
            if in_dir(&entry, dir) {
                apply_entry(&mut self.durable_names, &entry);
            } else {
                let ghost before = entry_views(kept@);
                kept.push(entry);
                assert(entry_views(kept@) =~= before.push(entry@));
            }
            proof {
                done = done + 1;
            }
        }
        assert(all.take(done) =~= all);
        self.pending_names = kept;
    }

    /// Performs an operation.
    fn perform(&mut self, op: &Op)
        requires
            disk_ok(old(self)@),
            op_fits(op@),
        ensures
            final(self)@ == disk_step(old(self)@, op@),
    {
        match op {
            Op::Create { path } => {
                let id: usize = self.inodes.len();
                let inode = Inode { durable: Vec::new(), pending: Vec::new() };
                assert(inode@.pending =~= Seq::empty());
                self.inodes.push(inode);
                self.live.insert(path, id);
                self.pending_names.push(EntryOp::Link(path.clone(), id));
                proof {
                    let next = disk_step(old(self)@, op@);
                    assert(self@.inodes =~= next.inodes);
                    assert(self@.live =~= next.live);
                    assert(self@.pending_names =~= next.pending_names);
                }
            },
            Op::Truncate { path, len } => {
                self.change(path, Pending::Truncate(*len as usize));
            },
            Op::Write { path, offset, data } => {
                self.change(
                    path,
                    Pending::Write {
                        offset: *offset as usize,
                        data: vstd::slice::slice_to_vec(data.as_slice()),
                    },
                );
            },
            Op::SyncData { path } => {
                self.sync(path);
            },
            Op::SyncFile { path } => {
                self.sync(path);
            },
            Op::Rename { from, to } => {
                move_name(&mut self.live, from, to);
                self.pending_names.push(EntryOp::Rename(from.clone(), to.clone()));
                assert(self@.pending_names =~= disk_step(old(self)@, op@).pending_names);
            },
            Op::Remove { path } => {
                let _ = self.live.remove(path);
                self.pending_names.push(EntryOp::Unlink(path.clone()));
                assert(self@.live =~= disk_step(old(self)@, op@).live);
                assert(self@.pending_names =~= disk_step(old(self)@, op@).pending_names);
            },
            Op::SyncDir { dir } => {
                self.sync_names(dir);
            },
            Op::Ack { label } => {},
        }
    }

    /// The names that a crash leaves.
    fn survivors(self, policy: CrashPolicy) -> (r: (PathMap<usize>, Vec<Inode>))
        ensures
            id_map(r.0@) == surviving_names(self@, policy),
            r.1@ == self.inodes@,
    {
        let mut names = self.durable_names;
        if policy.keeps_dir_ops() {
            let mut i: usize = 0;
            assert(entry_views(self.pending_names@).take(0) =~= Seq::empty());
            while i < self.pending_names.len()
                invariant
                    i <= self.pending_names@.len(),
                    id_map(names@) == renamed_all(
                        self@.durable_names,
                        self@.pending_names.take(i as int),
                    ),
                decreases self.pending_names@.len() - i,
            {
                proof {
                    let next = self@.pending_names.take(i + 1);
                    assert(next.drop_last() =~= self@.pending_names.take(i as int));
                    assert(next.last() == self.pending_names@[i as int]@);
                }
                apply_entry(&mut names, &self.pending_names[i]);
                i += 1;
            }
            assert(self@.pending_names.take(i as int) =~= self@.pending_names);
        }
        (names, self.inodes)
    }
}

/// The ids that names refer to stay those of files.
pub(super) proof fn lemma_renamed_all_ok(names: Map<PathView, int>, entries: Seq<EntryView>, n: int)
    requires
        forall|p: PathView| #[trigger] names.contains_key(p) ==> 0 <= names[p] < n,
        forall|i: int|
            0 <= i < entries.len() ==> match #[trigger] entries[i] {
                EntryView::Link(_, id) => 0 <= id < n,
                _ => true,
            },
    ensures
        forall|p: PathView| #[trigger]
            renamed_all(names, entries).contains_key(p) ==> 0 <= renamed_all(names, entries)[p] < n,
    decreases entries.len(),
{
    if entries.len() > 0 {
        let front = entries.drop_last();
        assert forall|i: int| 0 <= i < front.len() implies match #[trigger] front[i] {
            EntryView::Link(_, id) => 0 <= id < n,
            _ => true,
        } by {
            assert(front[i] == entries[i]);
        }
        lemma_renamed_all_ok(names, front, n);
        let m = renamed_all(names, front);
        assert(entries[entries.len() - 1] == entries.last());
        assert forall|p: PathView| #[trigger]
            renamed_all(names, entries).contains_key(p) implies 0 <= renamed_all(names, entries)[p]
            < n by {
            match entries.last() {
                EntryView::Link(path, id) => {
                    if p != path {
                        assert(m.contains_key(p));
                    }
                },
                EntryView::Rename(from, to) => {
                    if m.contains_key(from) && p != to {
                        assert(m.contains_key(p));
                    }
                },
                EntryView::Unlink(path) => {
                    assert(m.contains_key(p));
                },
            }
        }
    }
}

/// What the filter keeps was there before.
pub(crate) proof fn lemma_filter_from<A>(s: Seq<A>, pred: spec_fn(A) -> bool)
    ensures
        forall|i: int|
            0 <= i < s.filter(pred).len() ==> pred(#[trigger] s.filter(pred)[i]) && s.contains(
                s.filter(pred)[i],
            ),
    decreases s.len(),
{
    reveal(Seq::filter);
    if s.len() > 0 {
        lemma_filter_from(s.drop_last(), pred);
        let f = s.drop_last().filter(pred);
        assert forall|i: int| 0 <= i < s.filter(pred).len() implies pred(
            #[trigger] s.filter(pred)[i],
        ) && s.contains(s.filter(pred)[i]) by {
            if i < f.len() {
                assert(s.filter(pred)[i] == f[i]);
                assert(s.drop_last().contains(f[i]));
                let j = choose|j: int| 0 <= j < s.drop_last().len() && s.drop_last()[j] == f[i];
                assert(s[j] == f[i]);
            } else {
                assert(s[s.len() - 1] == s.last());
            }
        }
    }
}

/// Every operation leaves a disk on which names refer to files.
pub proof fn law_names_stay_ok(d: DiskView, op: OpView)
    requires
        names_ok(d),
    ensures
        names_ok(disk_step(d, op)),
{
    let e = disk_step(d, op);
    match op {
        OpView::Create { path } => {
            assert forall|p: PathView| #[trigger] e.live.contains_key(p) implies 0 <= e.live[p]
                < e.inodes.len() by {
                if p != path {
                    assert(d.live.contains_key(p));
                }
            }
            assert forall|p: PathView| #[trigger]
                e.durable_names.contains_key(p) implies 0 <= e.durable_names[p]
                < e.inodes.len() by {
                assert(d.durable_names.contains_key(p));
            }
            assert forall|i: int| 0 <= i < e.pending_names.len() implies match
            #[trigger] e.pending_names[i] {
                EntryView::Link(_, id) => 0 <= id < e.inodes.len(),
                _ => true,
            } by {
                if i < d.pending_names.len() {
                    assert(e.pending_names[i] == d.pending_names[i]);
                }
            }
        },
        OpView::Rename { from, to } => {
            assert forall|p: PathView| #[trigger] e.live.contains_key(p) implies 0 <= e.live[p]
                < e.inodes.len() by {
                if d.live.contains_key(from) && p != to {
                    assert(d.live.contains_key(p));
                }
            }
            assert forall|i: int| 0 <= i < e.pending_names.len() implies match
            #[trigger] e.pending_names[i] {
                EntryView::Link(_, id) => 0 <= id < e.inodes.len(),
                _ => true,
            } by {
                if i < d.pending_names.len() {
                    assert(e.pending_names[i] == d.pending_names[i]);
                }
            }
        },
        OpView::Remove { path } => {
            assert forall|p: PathView| #[trigger] e.live.contains_key(p) implies 0 <= e.live[p]
                < e.inodes.len() by {
                assert(d.live.contains_key(p));
            }
            assert forall|i: int| 0 <= i < e.pending_names.len() implies match
            #[trigger] e.pending_names[i] {
                EntryView::Link(_, id) => 0 <= id < e.inodes.len(),
                _ => true,
            } by {
                if i < d.pending_names.len() {
                    assert(e.pending_names[i] == d.pending_names[i]);
                }
            }
        },
        OpView::SyncDir { dir } => {
            let n = d.inodes.len() as int;
            let here = |e: EntryView| entry_dir(e) == dir;
            let elsewhere = |e: EntryView| entry_dir(e) != dir;
            lemma_filter_from(d.pending_names, here);
            lemma_filter_from(d.pending_names, elsewhere);
            let f = d.pending_names.filter(here);
            let g = d.pending_names.filter(elsewhere);
            assert forall|i: int| 0 <= i < f.len() implies match #[trigger] f[i] {
                EntryView::Link(_, id) => 0 <= id < n,
                _ => true,
            } by {
                assert(d.pending_names.contains(f[i]));
            }
            assert forall|i: int| 0 <= i < g.len() implies match #[trigger] g[i] {
                EntryView::Link(_, id) => 0 <= id < n,
                _ => true,
            } by {
                assert(d.pending_names.contains(g[i]));
            }
            lemma_renamed_all_ok(d.durable_names, f, n);
        },
        _ => {},
    }
}

/// Every operation that fits leaves a disk whose changes in flight fit too.
pub proof fn law_disk_stays_ok(d: DiskView, op: OpView)
    requires
        disk_ok(d),
        op_fits(op),
    ensures
        disk_ok(disk_step(d, op)),
{
    law_names_stay_ok(d, op);
    let e = disk_step(d, op);
    match op {
        OpView::Create { path } => {
            assert forall|i: int, j: int|
                0 <= i < e.inodes.len() && 0 <= j < (
                #[trigger] e.inodes[i]).pending.len() implies change_fits(
                #[trigger] e.inodes[i].pending[j],
            ) by {
                if i < d.inodes.len() {
                    assert(e.inodes[i] == d.inodes[i]);
                    assert(change_fits(d.inodes[i].pending[j]));
                }
            }
        },
        OpView::Truncate { path, len } => {
            lemma_change_ok(d, path, PendingView::Truncate(len as int));
        },
        OpView::Write { path, offset, data } => {
            lemma_change_ok(d, path, PendingView::Write { offset: offset as int, data });
        },
        OpView::SyncData { path } => {
            lemma_sync_ok(d, path);
        },
        OpView::SyncFile { path } => {
            lemma_sync_ok(d, path);
        },
        _ => {},
    }
}

proof fn lemma_change_ok(d: DiskView, path: PathView, change: PendingView)
    requires
        disk_ok(d),
        change_fits(change),
    ensures
        disk_ok(in_flight(d, path, change)),
{
    let e = in_flight(d, path, change);
    assert forall|i: int, j: int|
        0 <= i < e.inodes.len() && 0 <= j < (#[trigger] e.inodes[i]).pending.len() implies
    change_fits(#[trigger] e.inodes[i].pending[j]) by {
        if j < d.inodes[i].pending.len() {
            assert(change_fits(d.inodes[i].pending[j]));
        }
    }
}

proof fn lemma_sync_ok(d: DiskView, path: PathView)
    requires
        disk_ok(d),
    ensures
        disk_ok(synced(d, path)),
{
    let e = synced(d, path);
    assert forall|i: int, j: int|
        0 <= i < e.inodes.len() && 0 <= j < (#[trigger] e.inodes[i]).pending.len() implies
    change_fits(#[trigger] e.inodes[i].pending[j]) by {
        assert(change_fits(d.inodes[i].pending[j]));
    }
}

/// The operations' lengths and offsets can be addressed in memory.
pub open spec fn ops_fit(ops: Seq<OpView>) -> bool {
    forall|i: int| 0 <= i < ops.len() ==> op_fits(#[trigger] ops[i])
}

/// The operations as plain values.
pub open spec fn op_views(ops: Seq<Op>) -> Seq<OpView> {
    ops.map_values(|op: Op| op@)
}

/// Puts a file into a list that is ordered by path, and says where.
fn insert_sorted(out: &mut Vec<(FilePath, Vec<u8>)>, path: FilePath, bytes: Vec<u8>) -> (r: usize)
    requires
        forall|a: int, b: int|
            0 <= a < b < old(out)@.len() ==> path_before(
                (#[trigger] old(out)@[a]).0@,
                (#[trigger] old(out)@[b]).0@,
            ),
        forall|b: int| 0 <= b < old(out)@.len() ==> (#[trigger] old(out)@[b]).0@ != path@,
    ensures
        r <= old(out)@.len(),
        final(out)@ == old(out)@.insert(r as int, (path, bytes)),
        forall|a: int, b: int|
            0 <= a < b < final(out)@.len() ==> path_before(
                (#[trigger] final(out)@[a]).0@,
                (#[trigger] final(out)@[b]).0@,
            ),
{
    let mut at: usize = 0;
    while at < out.len() && is_path_before(&out[at].0, &path)
        invariant
            at <= out@.len(),
            forall|a: int| 0 <= a < at ==> path_before((#[trigger] out@[a]).0@, path@),
        decreases out@.len() - at,
    {
        at += 1;
    }
    let ghost before = out@;
    proof {
        assert forall|b: int| at <= b < before.len() implies path_before(
            path@,
            (#[trigger] before[b]).0@,
        ) by {
            law_path_order_is_total(path@, before[at as int].0@, before[b].0@);
            law_path_order_is_total(before[at as int].0@, path@, path@);
        }
    }
    out.insert(at, (path, bytes));
    proof {
        assert forall|a: int, b: int| 0 <= a < b < out@.len() implies path_before(
            (#[trigger] out@[a]).0@,
            (#[trigger] out@[b]).0@,
        ) by {
            let c = if a < at {
                a
            } else {
                a - 1
            };
            let d = if b < at {
                b
            } else {
                b - 1
            };
            if a != at {
                assert(out@[a] == before[c]);
            }
            if b != at {
                assert(out@[b] == before[d]);
            }
        }
    }
    at
}

/// The files that a crash after `ops` leaves, and their contents, in the order
/// of their paths.
pub fn replay(ops: &[Op], policy: CrashPolicy) -> (r: Vec<(FilePath, Vec<u8>)>)
    requires
        ops_fit(op_views(ops@)),
    ensures
        lists_image(r@, crash_image(op_views(ops@), policy)),
{
    let mut disk = Disk::new();
    let ghost views = op_views(ops@);
    let mut i: usize = 0;
    assert(views.take(0) =~= Seq::empty());
    while i < ops.len()
        invariant
            i <= ops@.len(),
            views == op_views(ops@),
            ops_fit(views),
            disk_ok(disk@),
            disk@ == disk_after(views.take(i as int)),
        decreases ops@.len() - i,
    {
        proof {
            let next = views.take(i + 1);
            assert(next.drop_last() =~= views.take(i as int));
            assert(next.last() == ops@[i as int]@);
            assert(op_fits(views[i as int]));
            law_disk_stays_ok(disk@, ops@[i as int]@);
        }
        disk.perform(&ops[i]);
        i += 1;
    }
    assert(views.take(i as int) =~= views);
    let ghost d = disk@;
    let (names, inodes) = disk.survivors(policy);
    proof {
        lemma_renamed_all_ok(d.durable_names, d.pending_names, d.inodes.len() as int);
    }
    let out = list_files(&names, &inodes, policy, Ghost(d));
    out
}

/// `p` is in the list.
pub open spec fn lists(files: Seq<(FilePath, Vec<u8>)>, p: PathView) -> bool {
    exists|i: int| 0 <= i < files.len() && (#[trigger] files[i]).0@ == p
}

/// The list holds the files of `image` and nothing else, in the order of their
/// paths.
pub open spec fn lists_image(
    files: Seq<(FilePath, Vec<u8>)>,
    image: Map<PathView, Seq<u8>>,
) -> bool {
    &&& forall|i: int|
        0 <= i < files.len() ==> image.contains_key((#[trigger] files[i]).0@)
            && image[files[i].0@] == files[i].1@
    &&& forall|p: PathView| #[trigger] image.contains_key(p) ==> lists(files, p)
    &&& forall|i: int, j: int|
        0 <= i < j < files.len() ==> path_before(
            (#[trigger] files[i]).0@,
            (#[trigger] files[j]).0@,
        )
}

proof fn lemma_lists_insert(
    files: Seq<(FilePath, Vec<u8>)>,
    at: int,
    file: (FilePath, Vec<u8>),
    p: PathView,
)
    requires
        0 <= at <= files.len(),
        p == file.0@ || lists(files, p),
    ensures
        lists(files.insert(at, file), p),
{
    let next = files.insert(at, file);
    if p == file.0@ {
        assert(next[at].0@ == p);
    } else {
        let i = choose|i: int| 0 <= i < files.len() && (#[trigger] files[i]).0@ == p;
        let j = if i < at {
            i
        } else {
            i + 1
        };
        assert(next[j] == files[i]);
    }
}

/// The files that `names` refers to, with the contents that a crash leaves.
fn list_files(
    names: &PathMap<usize>,
    inodes: &Vec<Inode>,
    policy: CrashPolicy,
    Ghost(d): Ghost<DiskView>,
) -> (r: Vec<(FilePath, Vec<u8>)>)
    requires
        disk_ok(d),
        inode_views(inodes@) == d.inodes,
        id_map(names@) == surviving_names(d, policy),
        forall|p: PathView| #[trigger]
            surviving_names(d, policy).contains_key(p) ==> 0 <= surviving_names(d, policy)[p]
                < d.inodes.len(),
    ensures
        lists_image(r@, surviving_files(d, policy)),
{
    let mut out: Vec<(FilePath, Vec<u8>)> = Vec::new();
    let ghost image = surviving_files(d, policy);
    let ghost list = names.list();
    let ghost mut seen: Set<PathView> = Set::empty();
    proof {
        use_type_invariant(names);
    }
    let mut k: usize = 0;
    while k < names.len()
        invariant
            k <= list.len(),
            list == names.list(),
            distinct_paths(list),
            disk_ok(d),
            inode_views(inodes@) == d.inodes,
            id_map(names@) == surviving_names(d, policy),
            forall|p: PathView| #[trigger]
                surviving_names(d, policy).contains_key(p) ==> 0 <= surviving_names(d, policy)[p]
                    < d.inodes.len(),
            image == surviving_files(d, policy),
            forall|a: int|
                0 <= a < out@.len() ==> image.contains_key((#[trigger] out@[a]).0@)
                    && image[out@[a].0@] == out@[a].1@,
            forall|a: int| 0 <= a < out@.len() ==> seen.contains((#[trigger] out@[a]).0@),
            forall|a: int| k <= a < list.len() ==> !seen.contains((#[trigger] list[a]).0@),
            forall|a: int| 0 <= a < k ==> lists(out@, (#[trigger] list[a]).0@),
            forall|a: int, b: int|
                0 <= a < b < out@.len() ==> path_before(
                    (#[trigger] out@[a]).0@,
                    (#[trigger] out@[b]).0@,
                ),
        decreases list.len() - k,
    {
        let entry = names.entry(k);
        let id: usize = entry.1;
        assert(list[k as int].0@ == entry.0@);
        proof {
            assert(surviving_names(d, policy).contains_key(entry.0@));
            assert(d.inodes[id as int] == inodes@[id as int]@);
            let inode = inodes@[id as int]@;
            assert forall|j: int| 0 <= j < inode.pending.len() implies change_fits(
                #[trigger] inode.pending[j],
            ) by {
                assert(change_fits(d.inodes[id as int].pending[j]));
            }
        }
        let bytes = inodes[id].contents(policy);
        assert(image[entry.0@] == bytes@);
        let ghost before = out@;
        let path = entry.0.clone();
        let at = insert_sorted(&mut out, path, bytes);
        proof {
            let file = (path, bytes);
            assert forall|a: int| 0 <= a < k + 1 implies lists(
                out@,
                (#[trigger] list[a]).0@,
            ) by {
                lemma_lists_insert(before, at as int, file, list[a].0@);
            }
            let ghost old_seen = seen;
            seen = seen.insert(path@);
            assert forall|a: int| 0 <= a < out@.len() implies image.contains_key(
                (#[trigger] out@[a]).0@,
            ) && image[out@[a].0@] == out@[a].1@ && seen.contains(out@[a].0@) by {
                if a != at {
                    let c = if a < at {
                        a
                    } else {
                        a - 1
                    };
                    assert(out@[a] == before[c]);
                }
            }
            assert forall|a: int| k + 1 <= a < list.len() implies !seen.contains(
                (#[trigger] list[a]).0@,
            ) by {
                assert(list[a].0@ != list[k as int].0@);
            }
        }
        k += 1;
    }
    proof {
        names.lemma_list();
        assert forall|p: PathView| #[trigger] image.contains_key(p) implies lists(out@, p) by {
            assert(names@.contains_key(p));
            let a = choose|a: int|
                0 <= a < names.list().len() && (#[trigger] names.list()[a]).0@ == p;
            assert(lists(out@, list[a].0@));
        }
    }
    out
}

/// No two names refer to one file.
pub open spec fn live_distinct(d: DiskView) -> bool {
    forall|p: PathView, q: PathView|
        d.live.contains_key(p) && d.live.contains_key(q) && #[trigger] d.live[p]
            == #[trigger] d.live[q] ==> p == q
}

/// The files as the running process sees them.
pub open spec fn live_files(d: DiskView) -> Map<PathView, Seq<u8>> {
    d.live.map_values(|id: int| live_contents(d.inodes[id]))
}

/// What an operation does to the files as the running process sees them.
pub open spec fn live_step(files: Map<PathView, Seq<u8>>, op: OpView) -> Map<PathView, Seq<u8>> {
    match op {
        OpView::Create { path } => files.insert(path, Seq::empty()),
        OpView::Truncate { path, len } => if files.contains_key(path) {
            files.insert(path, resized(files[path], len as int))
        } else {
            files
        },
        OpView::Write { path, offset, data } => if files.contains_key(path) {
            files.insert(path, written(files[path], offset as int, data))
        } else {
            files
        },
        OpView::Rename { from, to } => if files.contains_key(from) {
            files.remove(from).insert(to, files[from])
        } else {
            files
        },
        OpView::Remove { path } => files.remove(path),
        _ => files,
    }
}

proof fn lemma_live_change(d: DiskView, path: PathView, change: PendingView)
    requires
        names_ok(d),
        live_distinct(d),
        d.live.contains_key(path),
    ensures
        live_files(in_flight(d, path, change)) == live_files(d).insert(
            path,
            changed(live_files(d)[path], change),
        ),
        live_distinct(in_flight(d, path, change)),
{
    let e = in_flight(d, path, change);
    let id = d.live[path];
    assert(e.inodes[id].pending.drop_last() =~= d.inodes[id].pending);
    assert forall|p: PathView| d.live.contains_key(p) && p != path implies #[trigger] live_files(
        e,
    )[p] == live_files(d)[p] by {
        assert(d.live[p] != d.live[path]);
    }
    assert(live_files(e) =~= live_files(d).insert(path, changed(live_files(d)[path], change)));
}

proof fn lemma_live_sync(d: DiskView, path: PathView)
    requires
        names_ok(d),
        live_distinct(d),
    ensures
        live_files(synced(d, path)) == live_files(d),
        live_distinct(synced(d, path)),
{
    let e = synced(d, path);
    if d.live.contains_key(path) {
        assert forall|p: PathView| d.live.contains_key(p) implies #[trigger] live_files(e)[p]
            == live_files(d)[p] by {
            if p != path {
                assert(d.live[p] != d.live[path]);
            }
        }
        assert(live_files(e) =~= live_files(d));
    }
}

/// The running process sees just what its own operations did, whatever has been
/// synced.
pub proof fn law_process_sees_its_writes(d: DiskView, op: OpView)
    requires
        names_ok(d),
        live_distinct(d),
    ensures
        live_files(disk_step(d, op)) == live_step(live_files(d), op),
        live_distinct(disk_step(d, op)),
{
    let e = disk_step(d, op);
    match op {
        OpView::Create { path } => {
            assert forall|p: PathView, q: PathView|
                e.live.contains_key(p) && e.live.contains_key(q) && #[trigger] e.live[p]
                    == #[trigger] e.live[q] implies p == q by {
                if p != path {
                    assert(d.live.contains_key(p));
                }
                if q != path {
                    assert(d.live.contains_key(q));
                }
            }
            assert forall|p: PathView| d.live.contains_key(p) && p != path implies
            #[trigger] live_files(e)[p] == live_files(d)[p] by {
                assert(0 <= d.live[p] < d.inodes.len());
            }
            assert(live_files(e) =~= live_step(live_files(d), op));
        },
        OpView::Truncate { path, len } => {
            if d.live.contains_key(path) {
                lemma_live_change(d, path, PendingView::Truncate(len as int));
            }
        },
        OpView::Write { path, offset, data } => {
            if d.live.contains_key(path) {
                lemma_live_change(d, path, PendingView::Write { offset: offset as int, data });
            }
        },
        OpView::SyncData { path } => {
            lemma_live_sync(d, path);
        },
        OpView::SyncFile { path } => {
            lemma_live_sync(d, path);
        },
        OpView::Rename { from, to } => {
            assert forall|p: PathView, q: PathView|
                e.live.contains_key(p) && e.live.contains_key(q) && #[trigger] e.live[p]
                    == #[trigger] e.live[q] implies p == q by {
                if d.live.contains_key(from) {
                    let p2 = if p == to {
                        from
                    } else {
                        p
                    };
                    let q2 = if q == to {
                        from
                    } else {
                        q
                    };
                    assert(d.live[p2] == d.live[q2]);
                }
            }
            assert(live_files(e) =~= live_step(live_files(d), op));
        },
        OpView::Remove { path } => {
            assert(live_files(e) =~= live_step(live_files(d), op));
        },
        OpView::SyncDir { dir } => {},
        OpView::Ack { label } => {},
    }
}

/// Names refer to files, and no two to one, after any operations.
pub proof fn law_names_are_ok(ops: Seq<OpView>)
    ensures
        names_ok(disk_after(ops)),
        live_distinct(disk_after(ops)),
    decreases ops.len(),
{
    if ops.len() > 0 {
        let front = ops.drop_last();
        law_names_are_ok(front);
        law_names_stay_ok(disk_after(front), ops.last());
        law_process_sees_its_writes(disk_after(front), ops.last());
    }
}

} // verus!
