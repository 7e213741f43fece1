//! The shadow file system itself.

use vstd::prelude::*;

use super::{
    crash_image, disk_after, disk_step, law_names_are_ok, law_process_sees_its_writes, lists_image,
    live_files, live_step, op_fits, op_views, ops_fit, replay, resized, CrashPolicy, Op, OpView,
};
use super::replay::{resize, write_at};
use crate::durability::{
    all_different, buf_views, grew_by_writes, has_name, in_directory, live_file, open_ops,
    remove_ops, total_len, write_ops, Durability, OpenMode,
};
use crate::path::{dir_of, parent_of, parent_or_dot, same_dir, FilePath, PathMap, PathView};
use crate::source::{at_most, beyond, Source};
use crate::text::{number_string, number_text};

verus! {

/// What an operation on the shadow file system can fail with.
#[derive(Clone, Copy, Debug, PartialEq, Eq, Structural)]
pub enum SimError {
    /// There is no such file, or it was removed while it was open.
    NotFound,
    /// The new position is before the start of the file, or too far behind it.
    InvalidSeek,
    /// The file would not fit into memory.
    TooLarge,
}

/// Where to go in a file.
#[derive(Clone, Copy, Debug, PartialEq, Eq, Structural)]
pub enum SeekTo {
    /// To an offset from the start.
    Start(u64),
    /// To an offset from the end.
    End(i64),
    /// To an offset from the current position.
    Current(i64),
}

/// A shadow file system that records everything it is asked to do, so that a
/// crash can be replayed at any point.
#[derive(Debug)]
pub struct SimCrash {
    live: PathMap<Vec<u8>>,
    journal: Vec<Op>,
}

impl Default for SimCrash {
    /// A shadow file system without files.
    fn default() -> (r: SimCrash)
        ensures
            r.ok(),
            r.history() == Seq::<OpView>::empty(),
    {
        SimCrash::new()
    }
}

spec fn byte_map(files: Map<PathView, Vec<u8>>) -> Map<PathView, Seq<u8>> {
    files.map_values(|v: Vec<u8>| v@)
}

/// The labels of the acknowledgements among `ops`.
pub open spec fn ack_labels(ops: Seq<OpView>) -> Seq<Seq<char>>
    decreases ops.len(),
{
    if ops.len() == 0 {
        Seq::empty()
    } else {
        match ops.last() {
            OpView::Ack { label } => ack_labels(ops.drop_last()).push(label),
            _ => ack_labels(ops.drop_last()),
        }
    }
}

/// An operation in words.
pub open spec fn op_text(op: Op) -> Seq<char> {
    match op {
        Op::Create { path } => "create "@ + path.name@,
        Op::Truncate { path, len } => "truncate "@ + path.name@ + " to "@ + number_text(
            len as nat,
        ),
        Op::Write { path, offset, data } => "write "@ + path.name@ + " @"@ + number_text(
            offset as nat,
        ) + " +"@ + number_text(data@.len()),
        Op::SyncData { path } => "fdatasync "@ + path.name@,
        Op::SyncFile { path } => "fsync "@ + path.name@,
        Op::Rename { from, to } => "rename "@ + from.name@ + " -> "@ + to.name@,
        Op::Remove { path } => "unlink "@ + path.name@,
        Op::SyncDir { dir } => "fsync dir "@ + dir@,
        Op::Ack { label } => "ACK "@ + label@,
    }
}

/// `a` with `b` behind it.
fn joined(a: &str, b: &String) -> (r: String)
    ensures
        r@ == a@ + b@,
{
    let mut r = a.to_owned();
    r.append(b.as_str());
    r
}

impl Op {
    /// The operation in words.
    pub fn describe(&self) -> (r: String)
        ensures
            r@ == op_text(*self),
    {
        match self {
            Op::Create { path } => joined("create ", &path.name),
            Op::Truncate { path, len } => {
                let mut r = joined("truncate ", &path.name);
                r.append(" to ");
                r.append(number_string(*len).as_str());
                r
            },
            Op::Write { path, offset, data } => {
                let mut r = joined("write ", &path.name);
                r.append(" @");
                r.append(number_string(*offset).as_str());
                r.append(" +");
                r.append(number_string(data.len() as u64).as_str());
                r
            },
            Op::SyncData { path } => joined("fdatasync ", &path.name),
            Op::SyncFile { path } => joined("fsync ", &path.name),
            Op::Rename { from, to } => {
                let mut r = joined("rename ", &from.name);
                r.append(" -> ");
                r.append(to.name.as_str());
                r
            },
            Op::Remove { path } => joined("unlink ", &path.name),
            Op::SyncDir { dir } => joined("fsync dir ", dir),
            Op::Ack { label } => joined("ACK ", label),
        }
    }
}

/// An operation behind some others does to the disk what it does to the disk
/// that they leave.
proof fn lemma_push_step(h: Seq<OpView>, op: OpView)
    ensures
        disk_after(h.push(op)) == disk_step(disk_after(h), op),
        live_files(disk_after(h.push(op))) == live_step(live_files(disk_after(h)), op),
{
    assert(h.push(op).drop_last() =~= h);
    law_names_are_ok(h);
    law_process_sees_its_writes(disk_after(h), op);
}

impl SimCrash {
    /// Everything that was done.
    pub closed spec fn ops(self) -> Seq<OpView> {
        op_views(self.journal@)
    }

    /// The operations as they were asked for.
    pub closed spec fn recorded(self) -> Seq<Op> {
        self.journal@
    }

    /// The files are those that the journal leaves, and everything in it can be
    /// replayed.
    pub closed spec fn consistent(self) -> bool {
        &&& ops_fit(self.ops())
        &&& byte_map(self.live@) == live_files(disk_after(self.ops()))
    }

    /// A shadow file system without files.
    pub fn new() -> (r: SimCrash)
        ensures
            r.ok(),
            r.history() == Seq::<OpView>::empty(),
    {
        let r = SimCrash { live: PathMap::new(), journal: Vec::new() };
        assert(r.ops() =~= Seq::empty());
        assert(byte_map(r.live@) =~= live_files(disk_after(r.ops())));
        r
    }

    fn record(&mut self, op: Op)
        ensures
            final(self).ops() == old(self).ops().push(op@),
            final(self).live == old(self).live,
    {
        self.journal.push(op);
        assert(self.ops() =~= old(self).ops().push(op@));
    }

    /// Marks that everything so far was acknowledged as safe.
    pub fn ack(&mut self, label: &str)
        requires
            old(self).ok(),
        ensures
            final(self).ok(),
            final(self).history() == old(self).history().push(OpView::Ack { label: label@ }),
    {
        self.record(Op::Ack { label: label.to_owned() });
        proof {
            lemma_push_step(old(self).ops(), OpView::Ack { label: label@ });
        }
    }

    /// The journal.
    pub fn journal(&self) -> (r: &[Op])
        ensures
            r@ == self.recorded(),
            op_views(r@) == self.history(),
            self.ok() ==> ops_fit(op_views(r@)),
    {
        self.journal.as_slice()
    }

    /// Number of operations. A crash can come before each of them, and after
    /// the last.
    pub fn len(&self) -> (r: usize)
        ensures
            r == self.history().len(),
    {
        self.journal.len()
    }

    /// Whether nothing was done.
    pub fn is_empty(&self) -> (r: bool)
        ensures
            r == (self.history().len() == 0),
    {
        self.journal.len() == 0
    }

    /// What had been acknowledged when the first `upto` operations were done.
    pub fn acks_before(&self, upto: usize) -> (r: Vec<String>)
        ensures
            r@.map_values(|s: String| s@) == ack_labels(
                self.history().take(
                    if upto <= self.history().len() {
                        upto as int
                    } else {
                        self.history().len() as int
                    },
                ),
            ),
    {
        let n: usize = if upto <= self.journal.len() {
            upto
        } else {
            self.journal.len()
        };
        let mut labels: Vec<String> = Vec::new();
        let mut i: usize = 0;
        assert(self.ops().take(0) =~= Seq::empty());
        assert(labels@.map_values(|s: String| s@) =~= Seq::empty());
        while i < n
            invariant
                i <= n <= self.journal@.len(),
                labels@.map_values(|s: String| s@) == ack_labels(self.ops().take(i as int)),
            decreases n - i,
        {
            proof {
                let next = self.ops().take(i + 1);
                assert(next.drop_last() =~= self.ops().take(i as int));
                assert(next.last() == self.journal@[i as int]@);
            }
            let ghost before = labels@.map_values(|s: String| s@);
            match &self.journal[i] {
                Op::Ack { label } => {
                    labels.push(label.clone());
                    assert(labels@.map_values(|s: String| s@) =~= before.push(label@));
                },
                _ => {},
            }
            i += 1;
        }
        labels
    }

    /// The crash point after `upto` operations, in words.
    pub fn describe(&self, upto: usize) -> (r: String)
        ensures
            r@ == (if 0 < upto <= self.history().len() {
                "after op "@ + number_text(upto as nat) + " ("@ + op_text(
                    self.recorded()[upto - 1],
                ) + ")"@
            } else {
                "before any operation"@
            }),
    {
        if upto == 0 || upto > self.journal.len() {
            return "before any operation".to_owned();
        }
        let mut r = "after op ".to_owned();
        r.append(number_string(upto as u64).as_str());
        r.append(" (");
        r.append(self.journal[upto - 1].describe().as_str());
        r.append(")");
        r
    }

    /// The files that a crash after the first `upto` operations leaves, in the
    /// order of their paths.
    pub fn image(&self, upto: usize, policy: CrashPolicy) -> (r: Vec<(FilePath, Vec<u8>)>)
        requires
            self.ok(),
        ensures
            lists_image(
                r@,
                crash_image(
                    self.history().take(
                        if upto <= self.history().len() {
                            upto as int
                        } else {
                            self.history().len() as int
                        },
                    ),
                    policy,
                ),
            ),
    {
        let n: usize = if upto <= self.journal.len() {
            upto
        } else {
            self.journal.len()
        };
        let part = vstd::slice::slice_subrange(self.journal.as_slice(), 0, n);
        proof {
            assert(op_views(part@) =~= self.ops().take(n as int));
            assert forall|i: int| 0 <= i < n implies op_fits(
                #[trigger] op_views(part@)[i],
            ) by {
                assert(op_fits(self.ops()[i]));
            }
        }
        replay(part, policy)
    }

    /// The contents of a file.
    fn bytes(&self, path: &FilePath) -> (r: Result<&Vec<u8>, SimError>)
        requires
            self.consistent(),
        ensures
            match live_file(self.ops(), path@) {
                Some(b) => r is Ok && r->Ok_0@ == b,
                None => r == Err::<&Vec<u8>, SimError>(SimError::NotFound),
            },
    {
        assert(byte_map(self.live@).contains_key(path@) == self.live@.contains_key(path@));
        match self.live.get(path) {
            Some(v) => {
                assert(byte_map(self.live@)[path@] == v@);
                Ok(v)
            },
            None => Err(SimError::NotFound),
        }
    }

    /// Does an operation that changes one file's contents.
    fn replace(&mut self, path: &FilePath, bytes: Vec<u8>, op: Op)
        requires
            old(self).consistent(),
            op_fits(op@),
            live_step(live_files(disk_after(old(self).ops())), op@) == live_files(
                disk_after(old(self).ops()),
            ).insert(path@, bytes@),
        ensures
            final(self).consistent(),
            final(self).ops() == old(self).ops().push(op@),
    {
        self.live.insert(path, bytes);
        self.record(op);
        proof {
            lemma_push_step(old(self).ops(), op@);
            assert(byte_map(self.live@) =~= byte_map(old(self).live@).insert(path@, bytes@));
        }
    }

    /// Does an operation that changes no file.
    fn note(&mut self, op: Op)
        requires
            old(self).consistent(),
            op_fits(op@),
            live_step(live_files(disk_after(old(self).ops())), op@) == live_files(
                disk_after(old(self).ops()),
            ),
        ensures
            final(self).consistent(),
            final(self).ops() == old(self).ops().push(op@),
    {
        self.record(op);
        proof {
            lemma_push_step(old(self).ops(), op@);
        }
    }

    /// Writes one buffer.
    fn write_one(&mut self, path: &FilePath, offset: u64, data: &[u8]) -> (r: Result<(), SimError>)
        requires
            old(self).consistent(),
        ensures
            final(self).consistent(),
            r == (if live_file(old(self).ops(), path@) is None {
                Err::<(), SimError>(SimError::NotFound)
            } else if offset + data@.len() > usize::MAX {
                Err(SimError::TooLarge)
            } else {
                Ok(())
            }),
            final(self).ops() == (if r is Ok {
                old(self).ops().push(OpView::Write { path: path@, offset, data: data@ })
            } else {
                old(self).ops()
            }),
    {
        let mut bytes = match self.bytes(path) {
            Ok(v) => vstd::slice::slice_to_vec(v.as_slice()),
            Err(e) => {
                return Err(e);
            },
        };
        if offset > (usize::MAX - data.len()) as u64 {
            return Err(SimError::TooLarge);
        }
        write_at(&mut bytes, offset as usize, data);
        self.replace(
            path,
            bytes,
            Op::Write { path: path.clone(), offset, data: vstd::slice::slice_to_vec(data) },
        );
        Ok(())
    }
}

/// A file of the shadow file system, open.
#[derive(Debug)]
pub struct SimFile {
    path: FilePath,
    pos: u64,
}

impl SimFile {
    /// The path under which the file was opened.
    pub closed spec fn path(self) -> PathView {
        self.path@
    }

    /// The position for reading and writing.
    pub closed spec fn pos(self) -> u64 {
        self.pos
    }

    /// Reads up to `want` bytes from the current position.
    pub fn read(&mut self, sim: &SimCrash, want: usize) -> (r: Result<Vec<u8>, SimError>)
        requires
            sim.ok(),
        ensures
            final(self).path() == old(self).path(),
            match live_file(sim.history(), old(self).path()) {
                Some(b) => {
                    &&& r is Ok
                    &&& r->Ok_0@ == at_most(beyond(b, old(self).pos() as int), want as int)
                    &&& final(self).pos() == old(self).pos() + r->Ok_0@.len()
                },
                None => r == Err::<Vec<u8>, SimError>(SimError::NotFound) && final(self).pos()
                    == old(self).pos(),
            },
    {
        let bytes = match sim.bytes(&self.path) {
            Ok(v) => v,
            Err(e) => {
                return Err(e);
            },
        };
        let len: usize = bytes.len();
        let start: usize = if self.pos <= len as u64 {
            self.pos as usize
        } else {
            len
        };
        let left: usize = len - start;
        let n: usize = if want <= left {
            want
        } else {
            left
        };
        let part = vstd::slice::slice_subrange(bytes.as_slice(), start, start + n);
        assert(part@ =~= at_most(beyond(bytes@, self.pos as int), want as int));
        let out = vstd::slice::slice_to_vec(part);
        self.pos = self.pos + n as u64;
        Ok(out)
    }

    /// Writes at the current position. Writing nothing does nothing.
    pub fn write(&mut self, sim: &mut SimCrash, buf: &[u8]) -> (r: Result<usize, SimError>)
        requires
            old(sim).ok(),
        ensures
            final(sim).ok(),
            final(self).path() == old(self).path(),
            r == (if buf@.len() == 0 {
                Ok::<usize, SimError>(0)
            } else if live_file(old(sim).history(), old(self).path()) is None {
                Err(SimError::NotFound)
            } else if old(self).pos() + buf@.len() > usize::MAX {
                Err(SimError::TooLarge)
            } else {
                Ok(buf@.len() as usize)
            }),
            final(sim).history() == (if r is Ok && buf@.len() > 0 {
                old(sim).history().push(
                    OpView::Write { path: old(self).path(), offset: old(self).pos(), data: buf@ },
                )
            } else {
                old(sim).history()
            }),
            final(self).pos() == (if r is Ok {
                old(self).pos() + buf@.len()
            } else {
                old(self).pos() as int
            }),
    {
        if buf.len() == 0 {
            return Ok(0);
        }
        match sim.write_one(&self.path, self.pos, buf) {
            Ok(_) => {
                self.pos = self.pos + buf.len() as u64;
                Ok(buf.len())
            },
            Err(e) => Err(e),
        }
    }

    /// Goes to another position. It may lie behind the end, but not before the
    /// start.
    pub fn seek(&mut self, sim: &SimCrash, to: SeekTo) -> (r: Result<u64, SimError>)
        requires
            sim.ok(),
        ensures
            final(self).path() == old(self).path(),
            match live_file(sim.history(), old(self).path()) {
                Some(b) => {
                    let target = match to {
                        SeekTo::Start(n) => n as int,
                        SeekTo::End(n) => b.len() + n,
                        SeekTo::Current(n) => old(self).pos() + n,
                    };
                    if 0 <= target <= i64::MAX {
                        r == Ok::<u64, SimError>(target as u64) && final(self).pos() == target
                    } else {
                        r == Err::<u64, SimError>(SimError::InvalidSeek) && final(self).pos()
                            == old(self).pos()
                    }
                },
                None => r == Err::<u64, SimError>(SimError::NotFound) && final(self).pos()
                    == old(self).pos(),
            },
    {
        let len: u64 = match sim.bytes(&self.path) {
            Ok(v) => v.len() as u64,
            Err(e) => {
                return Err(e);
            },
        };
        let target: i128 = match to {
            SeekTo::Start(n) => n as i128,
            SeekTo::End(n) => len as i128 + n as i128,
            SeekTo::Current(n) => self.pos as i128 + n as i128,
        };
        if target < 0 || target > i64::MAX as i128 {
            return Err(SimError::InvalidSeek);
        }
        self.pos = target as u64;
        Ok(self.pos)
    }
}

/// The contents of a shadow file.
pub struct SimReader {
    buf: Vec<u8>,
    pos: usize,
}

impl SimReader {
    #[verifier::type_invariant]
    closed spec fn wf(self) -> bool {
        self.pos <= self.buf@.len()
    }
}

impl Source for SimReader {
    type Error = SimError;

    closed spec fn whole(&self) -> Seq<u8> {
        self.buf@
    }

    closed spec fn rest(&self) -> Seq<u8> {
        self.buf@.skip(self.pos as int)
    }

    open spec fn steady(&self) -> bool {
        true
    }

    fn read(&mut self, want: usize) -> (r: Result<Vec<u8>, SimError>) {
        proof {
            use_type_invariant(&*self);
        }
        let start: usize = self.pos;
        let left: usize = self.buf.len() - start;
        let n: usize = if want < left {
            want
        } else {
            left
        };
        let part = vstd::slice::slice_subrange(self.buf.as_slice(), start, start + n);
        let out = vstd::slice::slice_to_vec(part);
        self.pos = start + n;
        assert(out@ =~= at_most(old(self).rest(), want as int));
        assert(self.rest() =~= beyond(old(self).rest(), want as int));
        Ok(out)
    }
}

proof fn lemma_total_len_skip(bufs: Seq<Seq<u8>>, i: int)
    requires
        0 <= i < bufs.len(),
    ensures
        total_len(bufs.skip(i)) == bufs[i].len() + total_len(bufs.skip(i + 1)),
{
    assert(bufs.skip(i).skip(1) =~= bufs.skip(i + 1));
}

/// Whether a text is in a list.
fn has_text(names: &Vec<String>, name: &String) -> (r: bool)
    ensures
        r == has_name(names@, name@),
{
    let mut i: usize = 0;
    while i < names.len()
        invariant
            i <= names@.len(),
            forall|j: int| 0 <= j < i ==> (#[trigger] names@[j])@ != name@,
        decreases names@.len() - i,
    {
        if names[i] == *name {
            assert(names@[i as int]@ == name@);
            return true;
        }
        i += 1;
    }
    false
}

impl Durability for SimCrash {
    type File = SimFile;

    type Error = SimError;

    type Reader = SimReader;

    open spec fn history(&self) -> Seq<OpView> {
        self.ops()
    }

    open spec fn ok(&self) -> bool {
        self.consistent()
    }

    open spec fn reliable(&self) -> bool {
        true
    }

    open spec fn path_of(file: &SimFile) -> PathView {
        file.path()
    }

    fn open(&mut self, path: &FilePath, mode: OpenMode) -> (r: Result<SimFile, SimError>)
        ensures
            r is Ok <==> !(mode is Read) || live_file(old(self).history(), path@) is Some,
            r is Ok ==> r->Ok_0.pos() == 0,
            r is Err ==> r->Err_0 == SimError::NotFound && final(self).history() == old(
                self,
            ).history(),
    {
        let ghost h = self.ops();
        let existed = self.bytes(path).is_ok();
        proof {
            let none = open_ops(h, path@, mode).take(0);
            assert(h + none =~= h);
        }
        match mode {
            OpenMode::Read => {
                if !existed {
                    return Err(SimError::NotFound);
                }
            },
            _ => {},
        }
        let empties = match mode {
            OpenMode::Create => true,
            _ => false,
        };
        if !existed {
            self.replace(path, Vec::new(), Op::Create { path: path.clone() });
        } else if empties {
            assert(resized(live_file(h, path@)->Some_0, 0) =~= Seq::empty());
            self.replace(path, Vec::new(), Op::Truncate { path: path.clone(), len: 0 });
        }
        assert(self.ops() =~= h + open_ops(h, path@, mode));
        Ok(SimFile { path: path.clone(), pos: 0 })
    }

    fn file_exists(&self, path: &FilePath) -> (r: bool) {
        self.bytes(path).is_ok()
    }

    #[verifier::rlimit(40)]
    fn read_dir(&self, dir: &str) -> (r: Result<Vec<String>, SimError>)
        ensures
            r is Ok,
    {
        let wanted = dir.to_owned();
        let mut names: Vec<String> = Vec::new();
        let ghost list = self.live.list();
        let ghost live = disk_after(self.ops()).live;
        let mut i: usize = 0;
        proof {
            assert forall|p: PathView| self.live@.contains_key(p) == live.contains_key(p) by {
                assert(byte_map(self.live@).contains_key(p) == live_files(
                    disk_after(self.ops()),
                ).contains_key(p));
            }
        }
        while i < self.live.len()
            invariant
                i <= list.len(),
                wanted@ == dir@,
                list == self.live.list(),
                live == disk_after(self.ops()).live,
                forall|p: PathView| self.live@.contains_key(p) == live.contains_key(p),
                all_different(names@),
                forall|j: int|
                    0 <= j < names@.len() ==> in_directory(
                        self.ops(),
                        dir_of(dir@),
                        (#[trigger] names@[j])@,
                    ),
                forall|k: int|
                    0 <= k < i && parent_of((#[trigger] list[k]).0@) == dir_of(dir@) ==> has_name(
                        names@,
                        list[k].0@.name,
                    ),
            decreases list.len() - i,
        {
            let entry = self.live.entry(i);
            let parent = parent_or_dot(&entry.0);
            let ghost before = names@;
            if same_dir(&parent, &wanted) && !has_text(&names, &entry.0.name) {
                names.push(entry.0.name.clone());
                proof {
                    assert(live.contains_key(entry.0@));
                    assert(in_directory(self.ops(), dir_of(dir@), entry.0@.name));
                }
            }
            proof {
                assert forall|k: int|
                    0 <= k < i + 1 && parent_of((#[trigger] list[k]).0@)
                        == dir_of(dir@) implies has_name(names@, list[k].0@.name) by {
                    if k < i {
                        let j = choose|j: int|
                            0 <= j < before.len() && (#[trigger] before[j])@ == list[k].0@.name;
                        assert(names@[j] == before[j]);
                    } else if names@.len() > before.len() {
                        assert(names@[before.len() as int]@ == list[k].0@.name);
                    }
                }
            }
            i += 1;
        }
        proof {
            self.live.lemma_list();
            assert forall|name: Seq<char>| #[trigger]
                in_directory(self.history(), dir_of(dir@), name) implies has_name(names@, name) by {
                let p = choose|p: PathView| #[trigger]
                    live.contains_key(p) && parent_of(p) == dir_of(dir@) && p.name == name;
                assert(self.live@.contains_key(p));
                let k = choose|k: int| 0 <= k < list.len() && (#[trigger] list[k]).0@ == p;
                assert(parent_of(list[k].0@) == dir_of(dir@));
            }
        }
        Ok(names)
    }

    fn remove_file(&mut self, path: &FilePath) -> (r: Result<(), SimError>)
        ensures
            r is Ok,
    {
        let ghost h = self.ops();
        let existed = self.bytes(path).is_ok();
        if existed {
            let _ = self.live.remove(path);
            self.record(Op::Remove { path: path.clone() });
            proof {
                lemma_push_step(h, OpView::Remove { path: path@ });
                assert(byte_map(self.live@) =~= byte_map(old(self).live@).remove(path@));
            }
        }
        assert(self.ops() =~= h + remove_ops(h, path@));
        Ok(())
    }

    fn reader(&mut self, file: &SimFile) -> (r: Result<SimReader, SimError>)
        ensures
            r is Ok <==> live_file(old(self).history(), file.path()) is Some,
            r is Ok ==> r->Ok_0.steady(),
    {
        match self.bytes(&file.path) {
            Ok(v) => {
                let buf = vstd::slice::slice_to_vec(v.as_slice());
                let len: usize = buf.len();
                assert(len <= u64::MAX);
                let reader = SimReader { buf, pos: 0 };
                assert(reader.rest() =~= buf@);
                Ok(reader)
            },
            Err(e) => Err(e),
        }
    }

    fn size(&self, file: &SimFile) -> (r: Result<u64, SimError>)
        ensures
            r is Ok <==> live_file(self.history(), file.path()) is Some,
    {
        match self.bytes(&file.path) {
            Ok(v) => Ok(v.len() as u64),
            Err(e) => Err(e),
        }
    }

    fn set_size(&mut self, file: &SimFile, len: u64) -> (r: Result<(), SimError>)
        ensures
            r == (if live_file(old(self).history(), file.path()) is None {
                Err::<(), SimError>(SimError::NotFound)
            } else if len > usize::MAX {
                Err(SimError::TooLarge)
            } else {
                Ok(())
            }),
            r is Err ==> final(self).history() == old(self).history(),
    {
        let ghost h = self.ops();
        proof {
            let none = seq![OpView::Truncate { path: file.path(), len }].take(0);
            assert(h + none =~= h);
        }
        let mut bytes = match self.bytes(&file.path) {
            Ok(v) => vstd::slice::slice_to_vec(v.as_slice()),
            Err(e) => {
                return Err(e);
            },
        };
        if len > usize::MAX as u64 {
            return Err(SimError::TooLarge);
        }
        resize(&mut bytes, len as usize);
        self.replace(&file.path, bytes, Op::Truncate { path: file.path.clone(), len });
        Ok(())
    }

    #[verifier::rlimit(40)]
    fn write_at(&mut self, file: &SimFile, offset: u64, bufs: &[&[u8]]) -> (r: Result<(), SimError>)
        ensures
            live_file(old(self).history(), file.path()) is Some && offset + total_len(
                buf_views(bufs@),
            ) <= usize::MAX ==> r is Ok,
    {
        let ghost h = self.ops();
        let ghost views = buf_views(bufs@);
        let mut at: u64 = offset;
        let mut i: usize = 0;
        assert(h.take(h.len() as int) =~= h);
        if !self.file_exists(&file.path) {
            return Err(SimError::NotFound);
        }
        proof {
            assert(views.skip(0) =~= views);
            assert(h + write_ops(file.path(), at as int, views) =~= self.ops() + write_ops(
                file.path(),
                at as int,
                views,
            ));
        }
        while i < bufs.len()
            invariant
                i <= bufs@.len(),
                views == buf_views(bufs@),
                h == old(self).ops(),
                self.consistent(),
                live_file(h, file.path()) is Some,
                live_file(self.ops(), file.path()) is Some,
                offset <= at,
                at + total_len(views.skip(i as int)) == offset + total_len(views),
                offset + total_len(views) <= u64::MAX,
                self.ops() + write_ops(file.path(), at as int, views.skip(i as int)) == h
                    + write_ops(file.path(), offset as int, views),
                grew_by_writes(h, self.ops(), file.path(), offset as int),
            decreases bufs@.len() - i,
        {
            let buf: &[u8] = bufs[i];
            let ghost before = self.ops();
            let ghost left = views.skip(i as int);
            proof {
                lemma_total_len_skip(views, i as int);
                assert(left[0] == buf@);
                assert(left.skip(1) =~= views.skip(i + 1));
            }
            if buf.len() > 0 {
                match self.write_one(&file.path, at, buf) {
                    Ok(_) => {},
                    Err(e) => {
                        return Err(e);
                    },
                }
                proof {
                    let op = OpView::Write { path: file.path(), offset: at, data: buf@ };
                    lemma_push_step(before, op);
                    let rest = write_ops(file.path(), at + buf@.len(), left.skip(1));
                    assert(before + (seq![op] + rest) =~= before.push(op) + rest);
                    assert(self.ops().take(h.len() as int) =~= before.take(h.len() as int));
                    assert(live_files(disk_after(before)).contains_key(file.path()));
                    assert(live_files(disk_after(self.ops())).contains_key(file.path()));
                }
            }
            at = at + buf.len() as u64;
            i += 1;
        }
        assert(self.ops() + write_ops(file.path(), at as int, views.skip(i as int)) =~= self.ops());
        Ok(())
    }

    fn sync_data(&mut self, file: &SimFile) -> (r: Result<(), SimError>)
        ensures
            r is Ok,
    {
        self.note(Op::SyncData { path: file.path.clone() });
        Ok(())
    }

    fn sync_file(&mut self, file: &SimFile) -> (r: Result<(), SimError>)
        ensures
            r is Ok,
    {
        self.note(Op::SyncFile { path: file.path.clone() });
        Ok(())
    }

    fn rename(&mut self, from: &FilePath, to: &FilePath) -> (r: Result<(), SimError>)
        ensures
            r is Ok <==> live_file(old(self).history(), from@) is Some,
            r is Err ==> r->Err_0 == SimError::NotFound && final(self).history() == old(
                self,
            ).history(),
    {
        let ghost h = self.ops();
        let ghost op = OpView::Rename { from: from@, to: to@ };
        proof {
            assert(h + seq![op].take(0) =~= h);
        }
        let existed = self.bytes(from).is_ok();
        if !existed {
            return Err(SimError::NotFound);
        }
        match self.live.remove(from) {
            Some(bytes) => {
                self.live.insert(to, bytes);
            },
            None => {},
        }
        self.record(Op::Rename { from: from.clone(), to: to.clone() });
        proof {
            lemma_push_step(h, op);
            assert(byte_map(old(self).live@).contains_key(from@));
            assert(byte_map(self.live@) =~= live_step(byte_map(old(self).live@), op));
        }
        Ok(())
    }

    fn sync_dir(&mut self, dir: &str) -> (r: Result<(), SimError>)
        ensures
            r is Ok,
    {
        self.note(Op::SyncDir { dir: dir.to_owned() });
        Ok(())
    }
}

/// The acknowledgements among some operations are listed in their order.
pub proof fn law_acknowledgements_are_listed_in_order(ops: Seq<OpView>, op: OpView)
    ensures
        ack_labels(Seq::empty()) == Seq::<Seq<char>>::empty(),
        ack_labels(ops.push(op)) == (match op {
            OpView::Ack { label } => ack_labels(ops).push(label),
            _ => ack_labels(ops),
        }),
{
    assert(ops.push(op).drop_last() =~= ops);
}

} // verus!
