//! How bytes get to a disk: the one seam that every write goes through.
//!
//! Writes to a file sit in memory until the file is synced, and syncing a file
//! does not make its name safe: a new log can be fully synced and still vanish
//! in a crash, unless its directory is synced too. So there are three
//! operations and not one. [`Durability::sync_data`] is for a file's contents
//! and length, [`Durability::sync_file`] is for those and the rest of its
//! metadata, and [`Durability::sync_dir`] is for the names in a directory.
//! [`Durability::rename_durable`] puts them together to publish a file.
//!
//! What a crash exposes is the set of writes that had not reached the disk. So
//! opening and writing go through the trait too, and what the trait promises is
//! said of the history of all operations. The model of a disk in [`crate::sim`]
//! says what such a history amounts to.

use vstd::prelude::*;

pub use crate::path::{dir_of, parent_of, parent_or_dot, path_in, DirView, FilePath, PathView};
use crate::log::{flattened, law_buffers_are_written_in_a_row};
use crate::sim::{
    disk_after, law_names_are_ok, law_process_sees_its_writes, live_contents, live_files, live_step,
    resized, written, OpView,
};
use crate::source::Source;

verus! {

/// How a file is opened.
#[derive(Clone, Copy, Debug, PartialEq, Eq, Structural)]
pub enum OpenMode {
    /// For reading and writing. The file is created, or emptied if it exists.
    Create,
    /// For reading and writing. The file is created if it is missing, and never
    /// emptied.
    Append,
    /// For reading only.
    Read,
}

/// The contents of a file as the process that did `history` sees them.
pub open spec fn live_file(history: Seq<OpView>, path: PathView) -> Option<Seq<u8>> {
    let d = disk_after(history);
    if d.live.contains_key(path) {
        Some(live_contents(d.inodes[d.live[path]]))
    } else {
        None
    }
}

/// What opening `path` does.
pub open spec fn open_ops(history: Seq<OpView>, path: PathView, mode: OpenMode) -> Seq<OpView> {
    if live_file(history, path) is None {
        if mode is Read {
            Seq::empty()
        } else {
            seq![OpView::Create { path }]
        }
    } else if mode is Create {
        seq![OpView::Truncate { path, len: 0 }]
    } else {
        Seq::empty()
    }
}

/// What removing `path` does.
pub open spec fn remove_ops(history: Seq<OpView>, path: PathView) -> Seq<OpView> {
    if live_file(history, path) is Some {
        seq![OpView::Remove { path }]
    } else {
        Seq::empty()
    }
}

/// What writing `bufs` one after the other from `offset` on does. Each buffer
/// that is not empty is a write.
pub open spec fn write_ops(path: PathView, offset: int, bufs: Seq<Seq<u8>>) -> Seq<OpView>
    decreases bufs.len(),
{
    if bufs.len() == 0 {
        Seq::empty()
    } else {
        let buf = bufs[0];
        let rest = write_ops(path, offset + buf.len(), bufs.skip(1));
        if buf.len() == 0 {
            rest
        } else {
            seq![OpView::Write { path, offset: offset as u64, data: buf }] + rest
        }
    }
}

/// What publishing `from` as `to` does.
pub open spec fn publish_ops(from: PathView, to: PathView) -> Seq<OpView> {
    seq![
        OpView::SyncFile { path: from },
        OpView::Rename { from, to },
        OpView::SyncDir { dir: parent_of(to) },
    ]
}

/// `ops` was done in part: a first part of it, or all, or nothing.
pub open spec fn done_in_part(
    before: Seq<OpView>,
    after: Seq<OpView>,
    ops: Seq<OpView>,
) -> bool {
    exists|k: int| 0 <= k <= ops.len() && after == before + #[trigger] ops.take(k)
}

/// The operation writes to `path`, at `offset` or behind it.
pub open spec fn writes_beyond(op: OpView, path: PathView, offset: int) -> bool {
    op is Write && op->Write_path == path && op->Write_offset >= offset
}

/// Nothing happened but writes to `path`, at `offset` or behind it.
pub open spec fn grew_by_writes(
    before: Seq<OpView>,
    after: Seq<OpView>,
    path: PathView,
    offset: int,
) -> bool {
    &&& before.len() <= after.len()
    &&& after.take(before.len() as int) == before
    &&& forall|i: int|
        before.len() <= i < after.len() ==> writes_beyond(#[trigger] after[i], path, offset)
}

/// The buffers' bytes.
pub open spec fn buf_views(bufs: Seq<&[u8]>) -> Seq<Seq<u8>> {
    bufs.map_values(|b: &[u8]| b@)
}

/// Total length of some buffers.
pub open spec fn total_len(bufs: Seq<Seq<u8>>) -> nat
    decreases bufs.len(),
{
    if bufs.len() == 0 {
        0
    } else {
        bufs[0].len() + total_len(bufs.skip(1))
    }
}

/// A policy for how files are opened, written, synced and published.
///
/// The history is for proofs. An implementation that nothing is proved of need
/// not keep one.
pub trait Durability: Sized {
    /// An open file.
    type File;

    /// What an operation can fail with.
    type Error;

    /// A stream of a file's contents.
    type Reader: Source<Error = Self::Error>;

    /// Everything that was asked of the file system, in order.
    open spec fn history(&self) -> Seq<OpView> {
        Seq::empty()
    }

    /// What holds of the policy's own state between operations.
    open spec fn ok(&self) -> bool {
        true
    }

    /// Whatever can be done is done: an operation fails only if its file does not
    /// exist, or would become too large for memory.
    open spec fn reliable(&self) -> bool {
        false
    }

    /// The path under which a file was opened.
    open spec fn path_of(file: &Self::File) -> PathView {
        path_in(Seq::empty(), Seq::empty())
    }

    /// Opens a file.
    fn open(&mut self, path: &FilePath, mode: OpenMode) -> (r: Result<Self::File, Self::Error>)
        requires
            old(self).ok(),
        ensures
            final(self).ok(),
            final(self).reliable() == old(self).reliable(),
            r is Ok ==> {
                &&& Self::path_of(&r->Ok_0) == path@
                &&& final(self).history() == old(self).history() + open_ops(
                    old(self).history(),
                    path@,
                    mode,
                )
                &&& mode is Read ==> live_file(old(self).history(), path@) is Some
            },
            r is Err ==> done_in_part(
                old(self).history(),
                final(self).history(),
                open_ops(old(self).history(), path@, mode),
            ),
            old(self).reliable() && (mode is Read ==> live_file(old(self).history(), path@) is Some)
                ==> r is Ok,
    ;

    /// Whether a file exists.
    fn file_exists(&self, path: &FilePath) -> (r: bool)
        requires
            self.ok(),
        ensures
            r == (live_file(self.history(), path@) is Some),
    ;

    /// The names of the files in a directory, each once, in no particular order.
    fn read_dir(&self, dir: &str) -> (r: Result<Vec<String>, Self::Error>)
        requires
            self.ok(),
        ensures
            r is Ok ==> {
                &&& forall|i: int|
                    0 <= i < r->Ok_0@.len() ==> in_directory(
                        self.history(),
                        dir_of(dir@),
                        (#[trigger] r->Ok_0@[i])@,
                    )
                &&& forall|name: Seq<char>| #[trigger]
                    in_directory(self.history(), dir_of(dir@), name) ==> has_name(r->Ok_0@, name)
                &&& all_different(r->Ok_0@)
            },
            self.reliable() ==> r is Ok,
    ;

    /// Removes a file. A file that is gone already is no error.
    fn remove_file(&mut self, path: &FilePath) -> (r: Result<(), Self::Error>)
        requires
            old(self).ok(),
        ensures
            final(self).ok(),
            final(self).reliable() == old(self).reliable(),
            r is Ok ==> final(self).history() == old(self).history() + remove_ops(
                old(self).history(),
                path@,
            ),
            r is Err ==> done_in_part(
                old(self).history(),
                final(self).history(),
                remove_ops(old(self).history(), path@),
            ),
            old(self).reliable() ==> r is Ok,
    ;

    /// The contents of a file, from the start.
    fn reader(&mut self, file: &Self::File) -> (r: Result<Self::Reader, Self::Error>)
        requires
            old(self).ok(),
        ensures
            final(self).ok(),
            final(self).reliable() == old(self).reliable(),
            final(self).history() == old(self).history(),
            r is Ok ==> {
                &&& live_file(old(self).history(), Self::path_of(file)) == Some(r->Ok_0.rest())
                &&& r->Ok_0.rest().len() <= u64::MAX
                &&& old(self).reliable() ==> r->Ok_0.steady()
            },
            old(self).reliable() && live_file(old(self).history(), Self::path_of(file)) is Some
                ==> r is Ok,
    ;

    /// The length of a file.
    fn size(&self, file: &Self::File) -> (r: Result<u64, Self::Error>)
        requires
            self.ok(),
        ensures
            r is Ok ==> live_file(self.history(), Self::path_of(file)) is Some && r->Ok_0
                == live_file(self.history(), Self::path_of(file))->Some_0.len(),
            self.reliable() && live_file(self.history(), Self::path_of(file)) is Some ==> r is Ok,
    ;

    /// Cuts or extends a file.
    fn set_size(&mut self, file: &Self::File, len: u64) -> (r: Result<(), Self::Error>)
        requires
            old(self).ok(),
        ensures
            final(self).ok(),
            final(self).reliable() == old(self).reliable(),
            r is Ok ==> {
                &&& live_file(old(self).history(), Self::path_of(file)) is Some
                &&& final(self).history() == old(self).history().push(
                    OpView::Truncate { path: Self::path_of(file), len },
                )
            },
            r is Err ==> done_in_part(
                old(self).history(),
                final(self).history(),
                seq![OpView::Truncate { path: Self::path_of(file), len }],
            ),
            old(self).reliable() && live_file(old(self).history(), Self::path_of(file)) is Some
                && len <= usize::MAX ==> r is Ok,
    ;

    /// Writes buffers one after the other from `offset` on.
    fn write_at(&mut self, file: &Self::File, offset: u64, bufs: &[&[u8]]) -> (r: Result<
        (),
        Self::Error,
    >)
        requires
            old(self).ok(),
            offset + total_len(buf_views(bufs@)) <= u64::MAX,
        ensures
            final(self).ok(),
            final(self).reliable() == old(self).reliable(),
            r is Ok ==> {
                &&& live_file(old(self).history(), Self::path_of(file)) is Some
                &&& final(self).history() == old(self).history() + write_ops(
                    Self::path_of(file),
                    offset as int,
                    buf_views(bufs@),
                )
            },
            r is Err ==> grew_by_writes(
                old(self).history(),
                final(self).history(),
                Self::path_of(file),
                offset as int,
            ),
            old(self).reliable() && live_file(old(self).history(), Self::path_of(file)) is Some
                && offset + total_len(buf_views(bufs@)) <= usize::MAX ==> r is Ok,
    ;

    /// Makes a file's contents and length safe.
    fn sync_data(&mut self, file: &Self::File) -> (r: Result<(), Self::Error>)
        requires
            old(self).ok(),
        ensures
            final(self).ok(),
            final(self).reliable() == old(self).reliable(),
            r is Ok ==> final(self).history() == old(self).history().push(
                OpView::SyncData { path: Self::path_of(file) },
            ),
            r is Err ==> done_in_part(
                old(self).history(),
                final(self).history(),
                seq![OpView::SyncData { path: Self::path_of(file) }],
            ),
            old(self).reliable() ==> r is Ok,
    ;

    /// Makes a file's contents and all of its metadata safe.
    fn sync_file(&mut self, file: &Self::File) -> (r: Result<(), Self::Error>)
        requires
            old(self).ok(),
        ensures
            final(self).ok(),
            final(self).reliable() == old(self).reliable(),
            r is Ok ==> final(self).history() == old(self).history().push(
                OpView::SyncFile { path: Self::path_of(file) },
            ),
            r is Err ==> done_in_part(
                old(self).history(),
                final(self).history(),
                seq![OpView::SyncFile { path: Self::path_of(file) }],
            ),
            old(self).reliable() ==> r is Ok,
    ;

    /// Gives a file a new name. The new name is not safe yet.
    fn rename(&mut self, from: &FilePath, to: &FilePath) -> (r: Result<(), Self::Error>)
        requires
            old(self).ok(),
        ensures
            final(self).ok(),
            final(self).reliable() == old(self).reliable(),
            r is Ok ==> {
                &&& live_file(old(self).history(), from@) is Some
                &&& final(self).history() == old(self).history().push(
                    OpView::Rename { from: from@, to: to@ },
                )
            },
            r is Err ==> done_in_part(
                old(self).history(),
                final(self).history(),
                seq![OpView::Rename { from: from@, to: to@ }],
            ),
            old(self).reliable() && live_file(old(self).history(), from@) is Some ==> r is Ok,
    ;

    /// Makes the names in a directory safe.
    fn sync_dir(&mut self, dir: &str) -> (r: Result<(), Self::Error>)
        requires
            old(self).ok(),
        ensures
            final(self).ok(),
            final(self).reliable() == old(self).reliable(),
            r is Ok ==> final(self).history() == old(self).history().push(
                OpView::SyncDir { dir: dir_of(dir@) },
            ),
            r is Err ==> done_in_part(
                old(self).history(),
                final(self).history(),
                seq![OpView::SyncDir { dir: dir_of(dir@) }],
            ),
            old(self).reliable() ==> r is Ok,
    ;

    /// Publishes a file: syncs it, gives it its new name, and syncs the names.
    /// `file` must be open on `from`. A reader finds the whole old file or the
    /// whole new one afterwards, across a power failure too.
    fn rename_durable(&mut self, file: &Self::File, from: &FilePath, to: &FilePath) -> (r: Result<
        (),
        Self::Error,
    >)
        requires
            old(self).ok(),
            Self::path_of(file) == from@,
        ensures
            final(self).ok(),
            final(self).reliable() == old(self).reliable(),
            r is Ok ==> {
                &&& live_file(old(self).history(), from@) is Some
                &&& final(self).history() == old(self).history() + publish_ops(from@, to@)
            },
            r is Err ==> done_in_part(
                old(self).history(),
                final(self).history(),
                publish_ops(from@, to@),
            ),
            old(self).reliable() && live_file(old(self).history(), from@) is Some ==> r is Ok,
    {
        let ghost h = self.history();
        let ghost ops = publish_ops(from@, to@);
        match self.sync_file(file) {
            Ok(_) => {},
            Err(e) => {
                proof {
                    lemma_part_of_more(h, self.history(), ops, 0);
                }
                return Err(e);
            },
        }
        proof {
            assert(self.history() =~= h + ops.take(1));
            assert(h + ops.take(1) =~= h.push(ops[0]));
            lemma_sync_keeps_names(h, from@);
        }
        match self.rename(from, to) {
            Ok(_) => {},
            Err(e) => {
                proof {
                    lemma_part_of_more(h, self.history(), ops, 1);
                }
                return Err(e);
            },
        }
        proof {
            assert(self.history() =~= h + ops.take(2));
            lemma_sync_keeps_names(h, from@);
        }
        let parent = parent_or_dot(to);
        match self.sync_dir(parent.as_str()) {
            Ok(_) => {
                assert(self.history() =~= h + ops);
                Ok(())
            },
            Err(e) => {
                proof {
                    lemma_part_of_more(h, self.history(), ops, 2);
                }
                Err(e)
            },
        }
    }

    /// Removes a file and makes that safe.
    fn remove_durable(&mut self, path: &FilePath) -> (r: Result<(), Self::Error>)
        requires
            old(self).ok(),
        ensures
            final(self).ok(),
            final(self).reliable() == old(self).reliable(),
            r is Ok ==> final(self).history() == old(self).history() + remove_ops(
                old(self).history(),
                path@,
            ).push(OpView::SyncDir { dir: parent_of(path@) }),
            r is Err ==> done_in_part(
                old(self).history(),
                final(self).history(),
                remove_ops(old(self).history(), path@).push(
                    OpView::SyncDir { dir: parent_of(path@) },
                ),
            ),
            old(self).reliable() ==> r is Ok,
    {
        let ghost h = self.history();
        let ghost removal = remove_ops(h, path@);
        let ghost ops = removal.push(OpView::SyncDir { dir: parent_of(path@) });
        match self.remove_file(path) {
            Ok(_) => {},
            Err(e) => {
                proof {
                    let k = choose|k: int|
                        0 <= k <= removal.len() && self.history() == h + #[trigger] removal.take(k);
                    assert(ops.take(k) =~= removal.take(k));
                    assert(self.history() == h + ops.take(k));
                }
                return Err(e);
            },
        }
        let ghost mid = self.history();
        let parent = parent_or_dot(path);
        match self.sync_dir(parent.as_str()) {
            Ok(_) => {
                assert(self.history() =~= h + ops);
                Ok(())
            },
            Err(e) => {
                proof {
                    let last = seq![OpView::SyncDir { dir: parent_of(path@) }];
                    let k = choose|k: int|
                        0 <= k <= last.len() && self.history() == mid + #[trigger] last.take(k);
                    let n = removal.len() + k;
                    assert(self.history() =~= h + ops.take(n));
                }
                Err(e)
            },
        }
    }

    /// Makes the name of a file that was just created safe. This is needed once
    /// per file: later on, syncing its data is enough.
    fn sync_new_file(&mut self, path: &FilePath) -> (r: Result<(), Self::Error>)
        requires
            old(self).ok(),
        ensures
            final(self).ok(),
            final(self).reliable() == old(self).reliable(),
            r is Ok ==> final(self).history() == old(self).history().push(
                OpView::SyncDir { dir: parent_of(path@) },
            ),
            r is Err ==> done_in_part(
                old(self).history(),
                final(self).history(),
                seq![OpView::SyncDir { dir: parent_of(path@) }],
            ),
            old(self).reliable() ==> r is Ok,
    {
        let parent = parent_or_dot(path);
        self.sync_dir(parent.as_str())
    }
}

/// The list has this name.
pub open spec fn has_name(names: Seq<String>, name: Seq<char>) -> bool {
    exists|i: int| 0 <= i < names.len() && (#[trigger] names[i])@ == name
}

/// No name is in the list twice.
pub open spec fn all_different(names: Seq<String>) -> bool {
    forall|i: int, j: int|
        0 <= i < j < names.len() ==> (#[trigger] names[i])@ != (#[trigger] names[j])@
}

/// A file with this name is in the directory `dir`.
pub open spec fn in_directory(history: Seq<OpView>, dir: DirView, name: Seq<char>) -> bool {
    exists|p: PathView| #[trigger]
        disk_after(history).live.contains_key(p) && parent_of(p) == dir && p.name == name
}

/// These are the names in the directory `dir`, each once.
pub open spec fn lists_directory(
    history: Seq<OpView>,
    dir: DirView,
    names: Seq<Seq<char>>,
) -> bool {
    &&& names.no_duplicates()
    &&& forall|name: Seq<char>| #[trigger]
        names.contains(name) <==> in_directory(history, dir, name)
}

/// Doing part of the operation behind the first `n` is doing part of them all.
proof fn lemma_part_of_more(h: Seq<OpView>, now: Seq<OpView>, ops: Seq<OpView>, n: int)
    requires
        0 <= n < ops.len(),
        done_in_part(h + ops.take(n), now, seq![ops[n]]) || (n == 0 && done_in_part(
            h,
            now,
            seq![ops[0]],
        )),
    ensures
        done_in_part(h, now, ops),
{
    let one = seq![ops[n]];
    assert(h + ops.take(0) =~= h);
    let k = choose|k: int|
        0 <= k <= one.len() && now == (h + ops.take(n)) + #[trigger] one.take(k);
    assert(now =~= h + ops.take(n + k));
}

/// Syncing a file changes no names.
proof fn lemma_sync_keeps_names(h: Seq<OpView>, path: PathView)
    ensures
        live_file(h.push(OpView::SyncFile { path }), path) is Some <==> live_file(
            h,
            path,
        ) is Some,
{
    let op = OpView::SyncFile { path };
    assert(h.push(op).drop_last() =~= h);
}

/// What an operation does to the files as the running process sees them.
pub(crate) proof fn lemma_push_live(h: Seq<OpView>, op: OpView)
    ensures
        live_files(disk_after(h.push(op))) == live_step(live_files(disk_after(h)), op),
{
    assert(h.push(op).drop_last() =~= h);
    law_names_are_ok(h);
    law_process_sees_its_writes(disk_after(h), op);
}

pub(crate) proof fn lemma_opened_empty(h: Seq<OpView>, path: PathView)
    ensures
        live_file(h + open_ops(h, path, OpenMode::Create), path) == Some(Seq::<u8>::empty()),
{
    let ops = open_ops(h, path, OpenMode::Create);
    let op = ops[0];
    assert(h + ops =~= h.push(op));
    lemma_push_live(h, op);
    let files = live_files(disk_after(h.push(op)));
    if live_file(h, path) is Some {
        assert(live_files(disk_after(h)).contains_key(path));
        assert(resized(live_files(disk_after(h))[path], 0) =~= Seq::<u8>::empty());
    }
    assert(files.contains_key(path) && files[path] == Seq::<u8>::empty());
    assert(live_file(h.push(op), path) == Some(files[path]));
}

/// A file that was removed is gone.
pub(crate) proof fn lemma_removed_is_gone(h: Seq<OpView>, path: PathView)
    ensures
        live_file(h + remove_ops(h, path), path) is None,
{
    if live_file(h, path) is Some {
        let op = OpView::Remove { path };
        assert(h + remove_ops(h, path) =~= h.push(op));
        lemma_push_live(h, op);
        assert(!live_files(disk_after(h.push(op))).contains_key(path));
    } else {
        assert(h + remove_ops(h, path) =~= h);
    }
}

/// Writes one buffer to a file.
pub(crate) fn write_one<D: Durability>(
    durability: &mut D,
    file: &D::File,
    offset: u64,
    data: &[u8],
) -> (r: Result<(), D::Error>)
    requires
        old(durability).ok(),
        offset + data@.len() <= u64::MAX,
        live_file(old(durability).history(), D::path_of(file)) is Some,
        offset <= live_file(old(durability).history(), D::path_of(file))->Some_0.len(),
    ensures
        final(durability).ok(),
        final(durability).reliable() == old(durability).reliable(),
        old(durability).reliable() && offset + data@.len() <= usize::MAX ==> r is Ok,
        grew_by_writes(
            old(durability).history(),
            final(durability).history(),
            D::path_of(file),
            offset as int,
        ),
        r is Ok ==> live_file(final(durability).history(), D::path_of(file)) == Some(
            written(
                live_file(old(durability).history(), D::path_of(file))->Some_0,
                offset as int,
                data@,
            ),
        ),
{
    let mut bufs: Vec<&[u8]> = Vec::new();
    bufs.push(data);
    let ghost h = durability.history();
    let ghost path = D::path_of(file);
    proof {
        let views = buf_views(bufs@);
        assert(views =~= seq![data@]);
        assert(views.skip(1) =~= Seq::empty());
        assert(total_len(views.skip(1)) == 0);
        assert(flattened(views.skip(1)) =~= Seq::empty());
        assert(flattened(views) =~= data@);
        assert(write_ops(path, offset + data@.len(), views.skip(1)) =~= Seq::empty());
        law_buffers_are_written_in_a_row(h, path, offset as int, views);
        let ops = write_ops(path, offset as int, views);
        assert((h + ops).take(h.len() as int) =~= h);
    }
    durability.write_at(file, offset, bufs.as_slice())
}

/// A name is in a directory if and only if a file of that name is there whose
/// directory it is.
pub proof fn law_directory_holds_its_files(history: Seq<OpView>, dir: DirView, name: Seq<char>)
    ensures
        in_directory(history, dir, name) <==> exists|p: PathView| #[trigger]
            live_file(history, p) is Some && parent_of(p) == dir && p.name == name,
{
    if in_directory(history, dir, name) {
        let p = choose|p: PathView| #[trigger]
            disk_after(history).live.contains_key(p) && parent_of(p) == dir && p.name == name;
        assert(live_file(history, p) is Some);
    }
    if exists|p: PathView| #[trigger]
        live_file(history, p) is Some && parent_of(p) == dir && p.name == name {
        let p = choose|p: PathView| #[trigger]
            live_file(history, p) is Some && parent_of(p) == dir && p.name == name;
        assert(disk_after(history).live.contains_key(p));
    }
}

} // verus!
