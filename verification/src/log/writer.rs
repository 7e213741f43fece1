//! Appending to a log.

use vstd::prelude::*;

use super::image::{
    image, infos, law_batches_add_up, law_reopened_log_goes_on, law_scan_is_contiguous,
    law_written_records_scan_back, record_image, valid_records,
};
use super::index::{
    add_records, indexed, law_index_adds_up, law_index_covers_its_records, padded_total,
};
use super::scan::{info_of, lemma_step_record, scan, scan_step, scanned, ScanStep};
use super::{
    is_loggable, loggable, DecreeIndex, IndexError, IndexView, RecordInfo, ScanResult,
    MAX_SINGLE_IO_SIZE,
};
use crate::bytes::{push_zeros, zeros};
use crate::dir::{log_file_name, numbered_name, LOG_EXT};
use crate::durability::{
    buf_views, done_in_part, grew_by_writes, lemma_push_live, live_file, open_ops, parent_of,
    path_in, total_len, write_ops, writes_beyond, Durability, FilePath, OpenMode, PathView,
};
use crate::messages::{parsed_base, unmarshal_base};
use crate::sim::{
    crash_image, disk_after, flat_in, law_safe_prefix_outlives_operations,
    law_sync_dir_makes_names_safe, law_sync_makes_contents_safe, live_files, name_safe, op_spares,
    ops_spare, settled, written, CrashPolicy, OpView,
};
use crate::source::{SeekSource, Source};
use crate::text::{number_string, number_text};
use crate::{last_page, page_rounded, round_up_to_page, PAGE_SIZE};

verus! {

/// How many buffers one write may carry. A record contributes two at most, its
/// bytes and its pad.
const IOV_CHUNK: usize = 64;

/// Why a log could not be opened or appended to.
#[derive(Debug)]
pub enum LogError<E> {
    /// The file system failed.
    Io(E),
    /// The log is corrupt. This is the scan that found it out.
    Corrupt(ScanResult),
    /// A record is not as long as its own header says.
    LengthMismatch {
        /// The length in the header.
        declared: u32,
        /// The length of the record.
        actual: usize,
    },
    /// A record does not start with a message header.
    NotAMessage,
    /// A message id that is never logged.
    NotLoggable(u16),
    /// A vote out of order.
    Index(IndexError),
}

impl<E> LogError<E> {
    /// The wording of the error. `cause` is the wording of the file system's
    /// own error.
    pub open spec fn wording(self, cause: Seq<char>) -> Seq<char> {
        match self {
            LogError::Io(_) => "log I/O error: "@ + cause,
            LogError::Corrupt(scan) => "log is corrupt at offset "@ + number_text(
                scan.stop_offset as nat,
            ) + ": "@ + scan.end.wording(),
            LogError::LengthMismatch { declared, actual } => "record is "@ + number_text(
                actual as nat,
            ) + " bytes but its header declares "@ + number_text(declared as nat),
            LogError::NotAMessage => "record does not parse as a message header"@,
            LogError::NotLoggable(id) => "message id "@ + number_text(id as nat)
                + " is never written to a log"@,
            LogError::Index(e) => e.wording(),
        }
    }

    /// The error in words. `cause` is the file system's own error in words.
    pub fn message(&self, cause: &str) -> (r: String)
        requires
            self is Index ==> self->Index_0.max_decree < u64::MAX,
        ensures
            r@ == self.wording(cause@),
    {
        match self {
            LogError::Io(_) => {
                let mut r = "log I/O error: ".to_owned();
                r.append(cause);
                r
            },
            LogError::Corrupt(scan) => {
                let mut r = "log is corrupt at offset ".to_owned();
                r.append(number_string(scan.stop_offset).as_str());
                r.append(": ");
                r.append(scan.detail());
                r
            },
            LogError::LengthMismatch { declared, actual } => {
                let mut r = "record is ".to_owned();
                r.append(number_string(*actual as u64).as_str());
                r.append(" bytes but its header declares ");
                r.append(number_string(*declared as u64).as_str());
                r
            },
            LogError::NotAMessage => "record does not parse as a message header".to_owned(),
            LogError::NotLoggable(id) => {
                let mut r = "message id ".to_owned();
                r.append(number_string(*id as u64).as_str());
                r.append(" is never written to a log");
                r
            },
            LogError::Index(e) => e.message(),
        }
    }
}

/// Why a record is not appended, if it is not.
pub open spec fn record_fault<E>(record: Seq<u8>) -> Option<LogError<E>> {
    match parsed_base(record) {
        None => Some(LogError::NotAMessage),
        Some(h) => if h.un_marshal_len != record.len() {
            Some(
                LogError::LengthMismatch {
                    declared: h.un_marshal_len,
                    actual: record.len() as usize,
                },
            )
        } else if !loggable(h.msg_id) {
            Some(LogError::NotLoggable(h.msg_id))
        } else {
            None
        },
    }
}

/// Why records are not appended: the fault of the first record that has one.
pub open spec fn batch_fault<E>(records: Seq<Seq<u8>>) -> Option<LogError<E>>
    decreases records.len(),
{
    if records.len() == 0 {
        None
    } else {
        match record_fault::<E>(records[0]) {
            Some(fault) => Some(fault),
            None => batch_fault(records.skip(1)),
        }
    }
}

/// Why records are not appended to a log with this index, if they are not: a
/// record has a fault, or a vote is out of order.
pub open spec fn append_refusal<E>(index: IndexView, records: Seq<Seq<u8>>) -> Option<
    LogError<E>,
> {
    match batch_fault::<E>(records) {
        Some(fault) => Some(fault),
        None => match indexed(index, infos(records, index.data_len)) {
            Err(e) => Some(LogError::Index(e)),
            Ok(_) => None,
        },
    }
}

/// The index after these records were appended.
pub open spec fn index_after(index: IndexView, records: Seq<Seq<u8>>) -> IndexView {
    indexed(index, infos(records, index.data_len))->Ok_0
}

/// The pad of a record.
pub open spec fn pad_of(record: Seq<u8>) -> Seq<u8> {
    zeros((page_rounded(record.len() as int) - record.len()) as nat)
}

/// The buffers that records are written from: each record, and its pad if it
/// needs one.
pub open spec fn batch_bufs(records: Seq<Seq<u8>>) -> Seq<Seq<u8>>
    decreases records.len(),
{
    if records.len() == 0 {
        Seq::empty()
    } else {
        let pad = pad_of(records[0]);
        let own = if pad.len() > 0 {
            seq![records[0], pad]
        } else {
            seq![records[0]]
        };
        own + batch_bufs(records.skip(1))
    }
}

/// What appending records at `offset` does.
pub open spec fn append_ops(path: PathView, offset: int, records: Seq<Seq<u8>>) -> Seq<OpView> {
    write_ops(path, offset, batch_bufs(records))
}

/// Buffers put together.
pub open spec fn flattened(bufs: Seq<Seq<u8>>) -> Seq<u8>
    decreases bufs.len(),
{
    if bufs.len() == 0 {
        Seq::empty()
    } else {
        bufs[0] + flattened(bufs.skip(1))
    }
}

/// No record is so long that its length cannot be rounded up.
pub open spec fn records_fit(records: Seq<Seq<u8>>) -> bool {
    forall|i: int| 0 <= i < records.len() ==> (#[trigger] records[i]).len() <= last_page()
}

/// `after` continues `before` with operations that leave the name `path` and the
/// first `n` bytes of the file alone.
pub open spec fn continues_sparing(
    before: Seq<OpView>,
    after: Seq<OpView>,
    path: PathView,
    n: int,
) -> bool {
    &&& before.len() <= after.len()
    &&& after.take(before.len() as int) == before
    &&& ops_spare(after.skip(before.len() as int), path, n)
}

pub(super) proof fn lemma_write_ops_sum(
    path: PathView,
    offset: int,
    a: Seq<Seq<u8>>,
    b: Seq<Seq<u8>>,
)
    ensures
        write_ops(path, offset, a + b) == write_ops(path, offset, a) + write_ops(
            path,
            offset + total_len(a),
            b,
        ),
        total_len(a + b) == total_len(a) + total_len(b),
    decreases a.len(),
{
    if a.len() == 0 {
        assert(a + b =~= b);
        assert(write_ops(path, offset, a) + write_ops(path, offset, b) =~= write_ops(
            path,
            offset,
            b,
        ));
    } else {
        assert((a + b).skip(1) =~= a.skip(1) + b);
        lemma_write_ops_sum(path, offset + a[0].len(), a.skip(1), b);
        assert(write_ops(path, offset, a + b) =~= write_ops(path, offset, a) + write_ops(
            path,
            offset + total_len(a),
            b,
        ));
    }
}

pub(super) proof fn lemma_total_is_flattened(bufs: Seq<Seq<u8>>)
    ensures
        flattened(bufs).len() == total_len(bufs),
    decreases bufs.len(),
{
    if bufs.len() > 0 {
        lemma_total_is_flattened(bufs.skip(1));
    }
}

pub(super) proof fn lemma_batch_flattened(records: Seq<Seq<u8>>)
    ensures
        flattened(batch_bufs(records)) == image(records),
        total_len(batch_bufs(records)) == image(records).len(),
    decreases records.len(),
{
    let bufs = batch_bufs(records);
    if records.len() > 0 {
        lemma_batch_flattened(records.skip(1));
        let rest = batch_bufs(records.skip(1));
        let pad = pad_of(records[0]);
        if pad.len() > 0 {
            assert(bufs.skip(1) =~= seq![pad] + rest);
            assert((seq![pad] + rest).skip(1) =~= rest);
            assert(flattened(bufs.skip(1)) == pad + flattened(rest));
            assert(flattened(bufs) =~= image(records));
        } else {
            assert(bufs.skip(1) =~= rest);
            assert(record_image(records[0]) =~= records[0]);
            assert(flattened(bufs) =~= image(records));
        }
    }
    lemma_total_is_flattened(bufs);
}

proof fn lemma_written_twice(s: Seq<u8>, offset: int, a: Seq<u8>, b: Seq<u8>)
    requires
        0 <= offset <= s.len(),
    ensures
        written(written(s, offset, a), offset + a.len(), b) == written(s, offset, a + b),
        offset + a.len() <= written(s, offset, a).len(),
{
    assert(written(written(s, offset, a), offset + a.len(), b) =~= written(s, offset, a + b));
}

/// Writing buffers one after the other writes them put together.
pub proof fn law_buffers_are_written_in_a_row(
    h: Seq<OpView>,
    path: PathView,
    offset: int,
    bufs: Seq<Seq<u8>>,
)
    requires
        live_file(h, path) is Some,
        0 <= offset <= live_file(h, path)->Some_0.len(),
        offset + total_len(bufs) <= u64::MAX,
    ensures
        live_file(h + write_ops(path, offset, bufs), path) == Some(
            written(live_file(h, path)->Some_0, offset, flattened(bufs)),
        ),
    decreases bufs.len(),
{
    let c = live_file(h, path)->Some_0;
    let files = live_files(disk_after(h));
    assert(files.contains_key(path) && files[path] == c);
    if bufs.len() == 0 {
        assert(h + write_ops(path, offset, bufs) =~= h);
        assert(written(c, offset, flattened(bufs)) =~= c);
    } else {
        let buf = bufs[0];
        let rest = bufs.skip(1);
        let next = offset + buf.len();
        if buf.len() == 0 {
            law_buffers_are_written_in_a_row(h, path, offset, rest);
            assert(flattened(bufs) =~= flattened(rest));
        } else {
            let op = OpView::Write { path, offset: offset as u64, data: buf };
            let h2 = h.push(op);
            lemma_push_live(h, op);
            let files2 = live_files(disk_after(h2));
            assert(files2.contains_key(path) && files2[path] == written(c, offset, buf));
            assert(live_file(h2, path) == Some(written(c, offset, buf)));
            lemma_written_twice(c, offset, buf, flattened(rest));
            law_buffers_are_written_in_a_row(h2, path, next, rest);
            assert(h + write_ops(path, offset, bufs) =~= h2 + write_ops(path, next, rest));
        }
    }
}

/// Writes behind the first `n` bytes of a file leave those alone.
proof fn lemma_writes_keep_prefix(
    before: Seq<OpView>,
    after: Seq<OpView>,
    path: PathView,
    n: int,
)
    requires
        grew_by_writes(before, after, path, n),
        live_file(before, path) is Some,
        0 <= n <= live_file(before, path)->Some_0.len(),
    ensures
        live_file(after, path) is Some,
        live_file(after, path)->Some_0.len() >= n,
        live_file(after, path)->Some_0.take(n) == live_file(before, path)->Some_0.take(n),
    decreases after.len(),
{
    if after.len() == before.len() {
        assert(after =~= before);
    } else {
        let front = after.drop_last();
        assert(front.take(before.len() as int) =~= after.take(before.len() as int));
        assert forall|i: int| before.len() <= i < front.len() implies writes_beyond(
            #[trigger] front[i],
            path,
            n,
        ) by {
            assert(front[i] == after[i]);
        }
        lemma_writes_keep_prefix(before, front, path, n);
        let op = after.last();
        assert(writes_beyond(after[after.len() - 1], path, n));
        lemma_push_live(front, op);
        assert(front.push(op) =~= after);
        let c = live_file(front, path)->Some_0;
        let files = live_files(disk_after(front));
        assert(files.contains_key(path) && files[path] == c);
        let files2 = live_files(disk_after(after));
        assert(files2.contains_key(path));
        assert(live_file(after, path) == Some(files2[path]));
        let d = files2[path];
        assert(d == written(c, op->Write_offset as int, op->Write_data));
        assert(d.take(n) =~= c.take(n));
    }
}

proof fn lemma_grown_spares(before: Seq<OpView>, after: Seq<OpView>, path: PathView, n: int, m: int)
    requires
        grew_by_writes(before, after, path, n),
        m <= n,
    ensures
        continues_sparing(before, after, path, m),
{
    let more = after.skip(before.len() as int);
    assert forall|i: int| 0 <= i < more.len() implies op_spares(#[trigger] more[i], path, m) by {
        assert(writes_beyond(after[before.len() + i], path, n));
    }
}

pub(super) proof fn lemma_write_ops_grow(
    h: Seq<OpView>,
    path: PathView,
    offset: int,
    bufs: Seq<Seq<u8>>,
    n: int,
)
    requires
        n <= offset,
        0 <= offset,
        offset + total_len(bufs) <= u64::MAX,
    ensures
        grew_by_writes(h, h + write_ops(path, offset, bufs), path, n),
    decreases bufs.len(),
{
    let ops = write_ops(path, offset, bufs);
    assert((h + ops).take(h.len() as int) =~= h);
    if bufs.len() > 0 {
        lemma_write_ops_grow(h, path, offset + bufs[0].len(), bufs.skip(1), n);
        let rest = write_ops(path, offset + bufs[0].len(), bufs.skip(1));
        assert forall|i: int| h.len() <= i < (h + ops).len() implies writes_beyond(
            #[trigger] (h + ops)[i],
            path,
            n,
        ) by {
            let k = i - h.len();
            if bufs[0].len() == 0 {
                assert((h + ops)[i] == (h + rest)[i]);
            } else if k > 0 {
                assert((h + ops)[i] == (h + rest)[i - 1]);
            }
        }
    }
}

proof fn lemma_grown_further(
    a: Seq<OpView>,
    b: Seq<OpView>,
    c: Seq<OpView>,
    path: PathView,
    n: int,
    m: int,
)
    requires
        grew_by_writes(a, b, path, n),
        grew_by_writes(b, c, path, m),
        n <= m,
    ensures
        grew_by_writes(a, c, path, n),
{
    assert(c.take(a.len() as int) =~= b.take(a.len() as int)) by {
        assert forall|i: int| 0 <= i < a.len() implies c[i] == b[i] by {
            assert(c.take(b.len() as int)[i] == b[i]);
        }
    }
    assert forall|i: int| a.len() <= i < c.len() implies writes_beyond(#[trigger] c[i], path, n) by {
        if i < b.len() {
            assert(c.take(b.len() as int)[i] == b[i]);
            assert(writes_beyond(b[i], path, n));
        } else {
            assert(writes_beyond(c[i], path, m));
        }
    }
}

proof fn lemma_continue_one(
    before: Seq<OpView>,
    mid: Seq<OpView>,
    op: OpView,
    path: PathView,
    n: int,
)
    requires
        continues_sparing(before, mid, path, n),
        op_spares(op, path, n),
    ensures
        continues_sparing(before, mid.push(op), path, n),
{
    let after = mid.push(op);
    assert(after.take(before.len() as int) =~= mid.take(before.len() as int));
    let more = after.skip(before.len() as int);
    assert forall|i: int| 0 <= i < more.len() implies op_spares(#[trigger] more[i], path, n) by {
        if i < mid.skip(before.len() as int).len() {
            assert(more[i] == mid.skip(before.len() as int)[i]);
        }
    }
}

proof fn lemma_spares_less(
    before: Seq<OpView>,
    after: Seq<OpView>,
    path: PathView,
    n: int,
    m: int,
)
    requires
        continues_sparing(before, after, path, n),
        m <= n,
    ensures
        continues_sparing(before, after, path, m),
{
    let more = after.skip(before.len() as int);
    assert forall|i: int| 0 <= i < more.len() implies op_spares(#[trigger] more[i], path, m) by {
        assert(op_spares(more[i], path, n));
    }
}

/// A scan that starts at the beginning covers its records.
pub(crate) proof fn lemma_scan_total(rest: Seq<u8>, offset: int)
    ensures
        padded_total(scanned(rest, offset).records) == scanned(rest, offset).stop_offset - offset,
    decreases rest.len(),
{
    match scan_step(rest, offset) {
        ScanStep::End(end) => {},
        ScanStep::Record(info) => {
            lemma_step_record(rest, offset);
            let n = info.padded_len as int;
            lemma_scan_total(rest.skip(n), offset + n);
            let after = scanned(rest.skip(n), offset + n);
            assert((seq![info] + after.records).skip(1) =~= after.records);
        },
    }
}

proof fn lemma_infos_total(records: Seq<Seq<u8>>, offset: int)
    requires
        batch_fault::<()>(records) is None,
        records_fit(records),
    ensures
        padded_total(infos(records, offset)) == image(records).len(),
        infos(records, offset).len() == records.len(),
    decreases records.len(),
{
    if records.len() > 0 {
        let rest = records.skip(1);
        assert forall|i: int| 0 <= i < rest.len() implies (#[trigger] rest[i]).len()
            <= last_page() by {
            assert(rest[i] == records[i + 1]);
        }
        assert(records[0].len() <= last_page());
        let n = record_image(records[0]).len() as int;
        lemma_infos_total(rest, offset + n);
        let all = infos(records, offset);
        assert(all.skip(1) =~= infos(rest, offset + n));
    }
}

proof fn lemma_fault_kind<A, B>(records: Seq<Seq<u8>>)
    ensures
        batch_fault::<A>(records) is None <==> batch_fault::<B>(records) is None,
    decreases records.len(),
{
    if records.len() > 0 {
        lemma_fault_kind::<A, B>(records.skip(1));
    }
}

/// Records that were appended but not synced. A decree must not be acknowledged
/// while its record is one of them.
#[must_use]
#[derive(Clone, Copy, Debug, PartialEq, Eq)]
pub struct Unsynced {
    offset: u64,
}

impl Unsynced {
    /// The offset of the first of the records.
    pub closed spec fn start(self) -> u64 {
        self.offset
    }

    /// The offset of the first of the records.
    pub fn offset(self) -> (r: u64)
        ensures
            r == self.start(),
    {
        self.offset
    }
}

/// Appends records to one log and keeps its index.
///
/// An append is safe when it returns, except [`LogWriter::append_unsynced`],
/// which leaves that to a later [`LogWriter::sync`] or append. How far the log
/// is safe is [`LogWriter::durable_len`].
///
/// The name of a new log is made safe when it is created, so that later on
/// syncing its data is enough.
pub struct LogWriter<D: Durability> {
    file: D::File,
    path: FilePath,
    file_decree: u64,
    index: DecreeIndex,
    durable_len: u64,
    durable_max_decree: u64,
    durability: D,
}

/// The path of the log of `dir` that starts at `decree`.
pub open spec fn log_path(dir: Seq<char>, decree: u64) -> PathView {
    path_in(dir, numbered_name(decree, LOG_EXT@))
}

/// What opening a log does to an existing file with these contents, of which
/// the records take `data_len` bytes: the rest is cut off.
pub open spec fn reopen_ops(path: PathView, bytes: Seq<u8>, data_len: int) -> Seq<OpView> {
    if bytes.len() > data_len {
        seq![OpView::Truncate { path, len: data_len as u64 }]
    } else {
        Seq::empty()
    }
}

/// Nothing was done yet.
proof fn lemma_no_part(h: Seq<OpView>, ops: Seq<OpView>)
    ensures
        done_in_part(h, h, ops),
{
    assert(h + ops.take(0) =~= h);
}

impl<D: Durability> LogWriter<D> {
    /// Everything that was asked of the file system.
    pub closed spec fn history(self) -> Seq<OpView> {
        self.durability.history()
    }

    /// The log's path.
    pub closed spec fn log(self) -> PathView {
        self.path@
    }

    /// The decree in the log's name.
    pub closed spec fn decree(self) -> u64 {
        self.file_decree
    }

    /// The log's index.
    pub closed spec fn entries(self) -> IndexView {
        self.index@
    }

    /// How many bytes of the log have been synced.
    pub closed spec fn synced_len(self) -> int {
        self.durable_len as int
    }

    /// The highest decree among those bytes.
    pub closed spec fn synced_decree(self) -> int {
        self.durable_max_decree as int
    }

    /// The file system does whatever can be done.
    pub closed spec fn reliable(self) -> bool {
        self.durability.reliable()
    }

    /// The contents of the log.
    pub open spec fn contents(self) -> Seq<u8> {
        live_file(self.history(), self.log())->Some_0
    }

    /// The file is there and holds all records, and no more bytes count as
    /// synced than there are.
    pub open spec fn wf(self) -> bool {
        &&& self.sound()
        &&& live_file(self.history(), self.log()) is Some
        &&& 0 <= self.entries().data_len <= self.contents().len()
        &&& 0 <= self.synced_len() <= self.entries().data_len
    }

    /// The parts of the writer belong together.
    pub closed spec fn sound(self) -> bool {
        self.durability.ok() && D::path_of(&self.file) == self.path@
    }

    /// Opens a log for appending, and creates it if it is missing. An existing
    /// log is scanned. What the scan discards is cut off, so that a later scan
    /// finds nothing behind the records that are appended. A corrupt log is not
    /// opened, and keeps its bytes. With an error the policy is given back.
    #[verifier::rlimit(40)]
    pub fn open_with(dir: &str, decree: u64, durability: D) -> (r: Result<
        LogWriter<D>,
        (LogError<D::Error>, D),
    >)
        requires
            durability.ok(),
        ensures
            ({
                let h = durability.history();
                let path = log_path(dir@, decree);
                match live_file(h, path) {
                    None => match r {
                        Ok(w) => {
                            &&& w.wf()
                            &&& w.log() == path
                            &&& w.decree() == decree
                            &&& w.entries() == IndexView::none()
                            &&& w.synced_len() == 0
                            &&& w.synced_decree() == 0
                            &&& w.contents() == Seq::<u8>::empty()
                            &&& w.reliable() == durability.reliable()
                            &&& w.history() == h.push(OpView::Create { path }).push(
                                OpView::SyncDir { dir: parent_of(path) },
                            )
                        },
                        Err((e, after)) => {
                            &&& e is Io
                            &&& !durability.reliable()
                            &&& after.ok()
                            &&& after.reliable() == durability.reliable()
                            &&& done_in_part(
                                h,
                                after.history(),
                                seq![
                                    OpView::Create { path },
                                    OpView::SyncDir { dir: parent_of(path) },
                                ],
                            )
                        },
                    },
                    Some(bytes) => {
                        let found = scanned(bytes, 0);
                        let index = indexed(IndexView::none(), found.records);
                        match r {
                            Ok(w) => {
                                &&& !(found.end is Reject)
                                &&& index == Ok::<IndexView, IndexError>(w.entries())
                                &&& w.wf()
                                &&& w.log() == path
                                &&& w.decree() == decree
                                &&& w.entries().data_len == found.stop_offset
                                &&& w.synced_len() == found.stop_offset
                                &&& w.synced_decree() == w.entries().max_decree()
                                &&& w.contents() == bytes.take(found.stop_offset)
                                &&& w.reliable() == durability.reliable()
                                &&& w.history() == h + reopen_ops(
                                    path,
                                    bytes,
                                    found.stop_offset,
                                )
                            },
                            Err((e, after)) => {
                                &&& after.ok()
                                &&& after.reliable() == durability.reliable()
                                &&& match e {
                                    LogError::Io(_) => {
                                        &&& !durability.reliable() || bytes.len() > usize::MAX
                                        &&& done_in_part(
                                            h,
                                            after.history(),
                                            reopen_ops(path, bytes, found.stop_offset),
                                        )
                                    },
                                    LogError::Corrupt(scan) => {
                                        &&& found.end is Reject
                                        &&& scan@ == found
                                        &&& after.history() == h
                                    },
                                    LogError::Index(e) => {
                                        &&& !(found.end is Reject)
                                        &&& index == Err::<IndexView, IndexError>(e)
                                        &&& after.history() == h
                                    },
                                    _ => false,
                                }
                            },
                        }
                    },
                }
            }),
    {
        let mut durability = durability;
        let path = FilePath { dir: dir.to_owned(), name: log_file_name(decree) };
        let ghost h = durability.history();
        let ghost name_op = OpView::SyncDir { dir: parent_of(path@) };
        let ghost new_ops = seq![OpView::Create { path: path@ }, name_op];
        let existed = durability.file_exists(&path);
        proof {
            lemma_no_part(h, new_ops);
            assert(open_ops(h, path@, OpenMode::Append) =~= if existed {
                Seq::empty()
            } else {
                new_ops.take(1)
            });
        }
        let file = match durability.open(&path, OpenMode::Append) {
            Ok(file) => file,
            Err(e) => {
                proof {
                    let ops = open_ops(h, path@, OpenMode::Append);
                    let k = choose|k: int|
                        0 <= k <= ops.len() && durability.history() == h + #[trigger] ops.take(k);
                    assert(ops.take(k) =~= new_ops.take(k));
                    if existed {
                        lemma_no_part(h, reopen_ops(path@, live_file(h, path@)->Some_0,
                            scanned(live_file(h, path@)->Some_0, 0).stop_offset));
                        assert(durability.history() =~= h);
                    }
                }
                return Err((LogError::Io(e), durability));
            },
        };
        if !existed {
            proof {
                let op = OpView::Create { path: path@ };
                assert(durability.history() =~= h.push(op));
                lemma_push_live(h, op);
                lemma_push_live(h.push(op), OpView::SyncDir { dir: parent_of(path@) });
                let files = live_files(disk_after(h.push(op)));
                assert(files.contains_key(path@) && files[path@] == Seq::<u8>::empty());
                let h2 = h.push(op).push(OpView::SyncDir { dir: parent_of(path@) });
                assert(live_files(disk_after(h2)).contains_key(path@));
                assert(live_file(h2, path@) == Some(live_files(disk_after(h2))[path@]));
            }
            let ghost made = durability.history();
            match durability.sync_new_file(&path) {
                Ok(_) => {},
                Err(e) => {
                    proof {
                        let one = seq![name_op];
                        let k = choose|k: int|
                            0 <= k <= one.len() && durability.history() == made + #[trigger] one.take(
                                k,
                            );
                        assert(durability.history() =~= h + new_ops.take(k + 1));
                    }
                    return Err((LogError::Io(e), durability));
                },
            }
            let w = LogWriter {
                file,
                path,
                file_decree: decree,
                index: DecreeIndex::new(),
                durable_len: 0,
                durable_max_decree: 0,
                durability,
            };
            return Ok(w);
        }
        let ghost bytes = live_file(h, path@)->Some_0;
        proof {
            assert(durability.history() =~= h);
            lemma_no_part(h, reopen_ops(path@, bytes, scanned(bytes, 0).stop_offset));
        }
        let reader = match durability.reader(&file) {
            Ok(reader) => reader,
            Err(e) => {
                return Err((LogError::Io(e), durability));
            },
        };
        assert(reader.rest() == bytes);
        let found = match scan(reader) {
            Ok(found) => found,
            Err(e) => {
                return Err((LogError::Io(e), durability));
            },
        };
        if !found.end.recoverable() {
            return Err((LogError::Corrupt(found), durability));
        }
        proof {
            lemma_scan_total(bytes, 0);
            law_scan_is_contiguous(bytes, 0);
        }
        let index = match found.index() {
            Ok(index) => index,
            Err(e) => {
                return Err((LogError::Index(e), durability));
            },
        };
        proof {
            law_index_covers_its_records(IndexView::none(), found.records@);
        }
        let data_len: u64 = index.data_len();
        let size = match durability.size(&file) {
            Ok(size) => size,
            Err(e) => {
                return Err((LogError::Io(e), durability));
            },
        };
        if size > data_len {
            match durability.set_size(&file, data_len) {
                Ok(_) => {},
                Err(e) => {
                    return Err((LogError::Io(e), durability));
                },
            }
            proof {
                let op = OpView::Truncate { path: path@, len: data_len };
                lemma_push_live(h, op);
                assert(live_files(disk_after(h)).contains_key(path@));
                let files = live_files(disk_after(h.push(op)));
                assert(files.contains_key(path@) && files[path@] == bytes.take(data_len as int));
                assert(live_file(h.push(op), path@) == Some(files[path@]));
            }
        } else {
            assert(bytes.take(data_len as int) =~= bytes);
        }
        proof {
            assert(durability.history() =~= h + reopen_ops(path@, bytes, data_len as int));
        }
        let durable_max_decree = index.max_decree();
        Ok(
            LogWriter {
                file,
                path,
                file_decree: decree,
                index,
                durable_len: data_len,
                durable_max_decree,
                durability,
            },
        )
    }

    /// The log's path.
    pub fn path(&self) -> (r: &FilePath)
        ensures
            r@ == self.log(),
    {
        &self.path
    }

    /// The decree in the log's name.
    pub fn file_decree(&self) -> (r: u64)
        ensures
            r == self.decree(),
    {
        self.file_decree
    }

    /// Length of the records.
    pub fn data_len(&self) -> (r: u64)
        ensures
            r == self.entries().data_len,
    {
        self.index.data_len()
    }

    /// The log's index.
    pub fn index(&self) -> (r: &DecreeIndex)
        ensures
            r@ == self.entries(),
    {
        &self.index
    }

    /// How many bytes of the log are safe: all that was synced, or found when
    /// the log was opened.
    pub fn durable_len(&self) -> (r: u64)
        ensures
            r == self.synced_len(),
    {
        self.durable_len
    }

    /// The highest decree in those bytes, 0 if there is none.
    pub fn durable_max_decree(&self) -> (r: u64)
        ensures
            r == self.synced_decree(),
    {
        self.durable_max_decree
    }

    /// The policy that the log is written with.
    pub fn durability(&self) -> (r: &D)
        ensures
            r.history() == self.history(),
            r.reliable() == self.reliable(),
            self.wf() ==> r.ok(),
    {
        &self.durability
    }

    /// Closes the log and gives the policy back.
    pub fn into_durability(self) -> (r: D)
        ensures
            r.history() == self.history(),
            r.reliable() == self.reliable(),
            self.wf() ==> r.ok(),
    {
        self.durability
    }

    /// Whether the log is longer than `max_log_len`, so that the next decree
    /// should go to a new one.
    pub fn needs_rollover(&self, max_log_len: u64) -> (r: bool)
        ensures
            r == (self.entries().data_len > max_log_len),
    {
        self.index.data_len() > max_log_len
    }

    /// Appends one record and makes it safe. The result is its offset.
    pub fn append(&mut self, record: &[u8]) -> (r: Result<u64, LogError<D::Error>>)
        requires
            old(self).wf(),
            record@.len() <= last_page(),
            old(self).entries().data_len + record_image(record@).len() <= u64::MAX,
        ensures
            Self::appends(*old(self), *final(self), seq![record@], r),
    {
        let mut records: Vec<&[u8]> = Vec::new();
        records.push(record);
        proof {
            let views = buf_views(records@);
            assert(views =~= seq![record@]);
            assert(views.skip(1) =~= Seq::empty());
            assert(image(views.skip(1)) == Seq::<u8>::empty());
            assert(image(views) =~= record_image(record@));
        }
        self.append_batch(records.as_slice())
    }

    /// Appends records and makes them safe, all with one sync, and with them what
    /// was appended before. The result is the offset of the first.
    #[verifier::rlimit(40)]
    pub fn append_durable(&mut self, records: &[&[u8]]) -> (r: Result<u64, LogError<D::Error>>)
        requires
            old(self).wf(),
            records_fit(buf_views(records@)),
            old(self).entries().data_len + image(buf_views(records@)).len() <= u64::MAX,
        ensures
            Self::appends(*old(self), *final(self), buf_views(records@), r),
    {
        let ghost h = self.history();
        let ghost log = self.log();
        let ghost n = self.synced_len();
        let ghost start = self.entries().data_len;
        let token = match self.append_unsynced(records) {
            Ok(token) => token,
            Err(e) => {
                proof {
                    lemma_spares_less(h, self.history(), log, start, n);
                }
                return Err(e);
            },
        };
        let ghost mid = self.history();
        let ghost op = OpView::SyncData { path: log };
        proof {
            lemma_spares_less(h, mid, log, start, n);
            lemma_continue_one(h, mid, op, log, n);
            assert(mid + Seq::<OpView>::empty() =~= mid);
            assert(mid + seq![op] =~= mid.push(op));
        }
        match self.sync() {
            Ok(_) => Ok(token.offset()),
            Err(e) => {
                proof {
                    let ops = sync_ops(log, n, self.entries().data_len);
                    let k = choose|k: int|
                        0 <= k <= ops.len() && self.history() == mid + #[trigger] ops.take(k);
                    if k == 0 {
                        assert(self.history() =~= mid);
                    } else {
                        assert(self.history() =~= mid.push(op));
                    }
                    let c = live_file(h, log)->Some_0;
                    let all = image(buf_views(records@));
                    assert(written(c, start, all).take(start) =~= c.take(start));
                }
                Err(LogError::Io(e))
            },
        }
    }

    /// What an append that is made safe does. A batch with a fault changes
    /// nothing. A batch without one is written, synced and indexed, unless the
    /// file system fails. Whatever happens, the bytes that were safe are left
    /// alone.
    pub open spec fn appends(
        before: LogWriter<D>,
        after: LogWriter<D>,
        records: Seq<Seq<u8>>,
        r: Result<u64, LogError<D::Error>>,
    ) -> bool {
        let start = before.entries().data_len;
        &&& after.wf()
        &&& after.log() == before.log()
        &&& after.decree() == before.decree()
        &&& after.reliable() == before.reliable()
        &&& continues_sparing(
            before.history(),
            after.history(),
            before.log(),
            before.synced_len(),
        )
        &&& match append_refusal::<D::Error>(before.entries(), records) {
            Some(e) => {
                &&& r == Err::<u64, LogError<D::Error>>(e)
                &&& after.history() == before.history()
                &&& after.entries() == before.entries()
                &&& after.synced_len() == before.synced_len()
                &&& after.synced_decree() == before.synced_decree()
            },
            None => match r {
                Ok(offset) => {
                    &&& offset == start
                    &&& after.entries() == index_after(before.entries(), records)
                    &&& after.entries().data_len == start + image(records).len()
                    &&& after.synced_len() == after.entries().data_len
                    &&& after.synced_decree() == (if after.entries().data_len
                        > before.synced_len() {
                        after.entries().max_decree()
                    } else {
                        before.synced_decree()
                    })
                    &&& after.contents() == written(before.contents(), start, image(records))
                    &&& after.history() == before.history() + append_ops(
                        before.log(),
                        start,
                        records,
                    ) + sync_ops(before.log(), before.synced_len(), after.entries().data_len)
                },
                Err(e) => {
                    &&& e is Io
                    &&& !before.reliable() || start + image(records).len() > usize::MAX
                    &&& after.contents().take(start) == before.contents().take(start)
                    &&& after.synced_len() == before.synced_len()
                    &&& after.synced_decree() == before.synced_decree()
                    &&& after.entries() == before.entries() || after.entries() == index_after(
                        before.entries(),
                        records,
                    )
                },
            },
        }
    }

    /// What an append of a batch does. A batch without records changes nothing and
    /// asks for nothing.
    pub open spec fn batches(
        before: LogWriter<D>,
        after: LogWriter<D>,
        records: Seq<Seq<u8>>,
        r: Result<u64, LogError<D::Error>>,
    ) -> bool {
        if records.len() == 0 {
            r is Ok && r->Ok_0 == before.entries().data_len && after == before
        } else {
            Self::appends(before, after, records, r)
        }
    }

    /// Appends records and makes them safe, all with one sync. The result is
    /// the offset of the first. Every record is padded to a page boundary of
    /// its own. All of them are checked before anything is written.
    pub fn append_batch(&mut self, records: &[&[u8]]) -> (r: Result<u64, LogError<D::Error>>)
        requires
            old(self).wf(),
            records_fit(buf_views(records@)),
            old(self).entries().data_len + image(buf_views(records@)).len() <= u64::MAX,
        ensures
            Self::batches(*old(self), *final(self), buf_views(records@), r),
    {
        if records.len() == 0 {
            return Ok(self.index.data_len());
        }
        self.append_durable(records)
    }

    /// Appends records without syncing. They are safe only after a later sync.
    #[verifier::rlimit(40)]
    pub fn append_unsynced(&mut self, records: &[&[u8]]) -> (r: Result<
        Unsynced,
        LogError<D::Error>,
    >)
        requires
            old(self).wf(),
            records_fit(buf_views(records@)),
            old(self).entries().data_len + image(buf_views(records@)).len() <= u64::MAX,
        ensures
            final(self).wf(),
            final(self).log() == old(self).log(),
            final(self).decree() == old(self).decree(),
            final(self).synced_len() == old(self).synced_len(),
            final(self).synced_decree() == old(self).synced_decree(),
            final(self).reliable() == old(self).reliable(),
            continues_sparing(
                old(self).history(),
                final(self).history(),
                old(self).log(),
                old(self).entries().data_len,
            ),
            match append_refusal::<D::Error>(old(self).entries(), buf_views(records@)) {
                Some(e) => {
                    &&& r == Err::<Unsynced, LogError<D::Error>>(e)
                    &&& final(self).history() == old(self).history()
                    &&& final(self).entries() == old(self).entries()
                },
                None => match r {
                    Ok(token) => {
                        &&& token.start() == old(self).entries().data_len
                        &&& final(self).entries() == index_after(
                            old(self).entries(),
                            buf_views(records@),
                        )
                        &&& final(self).entries().data_len == old(self).entries().data_len + image(
                            buf_views(records@),
                        ).len()
                        &&& final(self).contents() == written(
                            old(self).contents(),
                            old(self).entries().data_len,
                            image(buf_views(records@)),
                        )
                        &&& final(self).history() == old(self).history() + append_ops(
                            old(self).log(),
                            old(self).entries().data_len,
                            buf_views(records@),
                        )
                    },
                    Err(e) => {
                        &&& e is Io
                        &&& !old(self).reliable() || old(self).entries().data_len + image(
                            buf_views(records@),
                        ).len() > usize::MAX
                        &&& final(self).entries() == old(self).entries()
                        &&& final(self).contents().take(old(self).entries().data_len) == old(
                            self,
                        ).contents().take(old(self).entries().data_len)
                    },
                },
            },
    {
        let start: u64 = self.index.data_len();
        let ghost views = buf_views(records@);
        let ghost h = self.history();
        proof {
            lemma_fault_kind::<D::Error, ()>(views);
            assert(h.take(h.len() as int) =~= h);
            assert(h.skip(h.len() as int) =~= Seq::empty());
            assert(continues_sparing(h, h, self.log(), self.entries().data_len));
        }
        let shapes = match check_records::<D::Error>(records, start) {
            Ok(shapes) => shapes,
            Err(e) => {
                return Err(e);
            },
        };
        proof {
            lemma_infos_total(views, start as int);
        }
        let mut next = self.index.clone();
        match add_records(&mut next, &shapes) {
            Ok(_) => {},
            Err(e) => {
                return Err(LogError::Index(e));
            },
        }
        proof {
            law_index_covers_its_records(self.entries(), shapes@);
            lemma_batch_flattened(views);
        }
        match self.write_records(records, start) {
            Ok(_) => {},
            Err(e) => {
                proof {
                    lemma_writes_keep_prefix(h, self.history(), self.log(), start as int);
                    lemma_grown_spares(
                        h,
                        self.history(),
                        self.log(),
                        start as int,
                        start as int,
                    );
                }
                return Err(LogError::Io(e));
            },
        }
        proof {
            let bufs = batch_bufs(views);
            law_buffers_are_written_in_a_row(h, self.log(), start as int, bufs);
            lemma_write_ops_grow(h, self.log(), start as int, bufs, start as int);
            lemma_grown_spares(h, self.history(), self.log(), start as int, start as int);
        }
        self.index = next;
        Ok(Unsynced { offset: start })
    }

    /// Writes records that were checked, in as few writes as the limits on a
    /// write's size and number of buffers allow.
    #[verifier::rlimit(40)]
    fn write_records(&mut self, records: &[&[u8]], start: u64) -> (r: Result<(), D::Error>)
        requires
            old(self).sound(),
            records_fit(buf_views(records@)),
            start + image(buf_views(records@)).len() <= u64::MAX,
            live_file(old(self).history(), old(self).log()) is Some,
            start <= old(self).contents().len(),
        ensures
            final(self).sound(),
            final(self).reliable() == old(self).reliable(),
            old(self).reliable() && start + image(buf_views(records@)).len() <= usize::MAX
                ==> r is Ok,
            final(self).log() == old(self).log(),
            final(self).decree() == old(self).decree(),
            final(self).entries() == old(self).entries(),
            final(self).synced_len() == old(self).synced_len(),
            final(self).synced_decree() == old(self).synced_decree(),
            final(self).index == old(self).index,
            r is Ok ==> final(self).history() == old(self).history() + append_ops(
                old(self).log(),
                start as int,
                buf_views(records@),
            ),
            r is Err ==> grew_by_writes(
                old(self).history(),
                final(self).history(),
                old(self).log(),
                start as int,
            ),
    {
        let ghost views = buf_views(records@);
        let ghost h = self.history();
        let ghost all = batch_bufs(views);
        let ghost path = self.log();
        let page: usize = PAGE_SIZE as usize;
        let mut zero_page: Vec<u8> = Vec::new();
        push_zeros(&mut zero_page, page);
        assert(zero_page@ =~= zeros(512));
        let mut list: Vec<&[u8]> = Vec::new();
        let mut queued: u64 = 0;
        let mut at: u64 = start;
        let mut i: usize = 0;
        proof {
            lemma_batch_flattened(views);
            assert(views.skip(0) =~= views);
            assert(buf_views(list@) =~= Seq::empty());
            assert(buf_views(list@) + all =~= all);
            assert(h.take(h.len() as int) =~= h);
        }
        while i < records.len()
            invariant
                i <= records@.len(),
                views == buf_views(records@),
                records_fit(views),
                all == batch_bufs(views),
                zero_page@ == zeros(512),
                self.sound(),
                path == old(self).log(),
                self.log() == path,
                self.decree() == old(self).decree(),
                self.reliable() == old(self).reliable(),
                live_file(h, path) is Some,
                start <= live_file(h, path)->Some_0.len(),
                total_len(all) == image(views).len(),
                self.index == old(self).index,
                self.synced_len() == old(self).synced_len(),
                self.synced_decree() == old(self).synced_decree(),
                h == old(self).history(),
                start <= at,
                start + total_len(all) <= u64::MAX,
                at + total_len(buf_views(list@) + batch_bufs(views.skip(i as int))) == start
                    + total_len(all),
                self.history() + write_ops(
                    path,
                    at as int,
                    buf_views(list@) + batch_bufs(views.skip(i as int)),
                ) == h + write_ops(path, start as int, all),
                grew_by_writes(h, self.history(), path, start as int),
                queued == total_len(buf_views(list@)),
                queued < MAX_SINGLE_IO_SIZE,
                list@.len() + 2 <= IOV_CHUNK,
            decreases records@.len() - i,
        {
            let record: &[u8] = records[i];
            let ghost left = views.skip(i as int);
            let ghost before = buf_views(list@);
            let ghost own = {
                let pad = pad_of(record@);
                if pad.len() > 0 {
                    seq![record@, pad]
                } else {
                    seq![record@]
                }
            };
            proof {
                assert(left[0] == record@);
                assert(views[i as int] == record@);
                assert(left.skip(1) =~= views.skip(i + 1));
                lemma_write_ops_sum(path, 0, before, own + batch_bufs(left.skip(1)));
                lemma_write_ops_sum(path, 0, own, batch_bufs(left.skip(1)));
            }
            let len: usize = record.len();
            let padded: u32 = round_up_to_page(len as u32);
            let pad: usize = padded as usize - len;
            list.push(record);
            assert(buf_views(list@) =~= before + seq![record@]);
            if pad > 0 {
                let zeros_part = vstd::slice::slice_subrange(zero_page.as_slice(), 0, pad);
                assert(zeros_part@ =~= pad_of(record@));
                list.push(zeros_part);
                assert(buf_views(list@) =~= before + seq![record@, pad_of(record@)]);
            }
            let ghost with = buf_views(list@);
            let ghost rest = batch_bufs(views.skip(i + 1));
            proof {
                assert(with =~= before + own);
                assert(with + rest =~= before + (own + rest));
                assert(total_len(with) == total_len(before) + total_len(own)) by {
                    lemma_write_ops_sum(path, 0, before, own);
                }
                lemma_own_len(record@);
                lemma_write_ops_sum(path, at as int, with, rest);
                lemma_write_ops_sum(path, 0, with, rest);
            }
            queued = queued + padded as u64;
            if list.len() + 2 > IOV_CHUNK || queued >= MAX_SINGLE_IO_SIZE as u64 {
                let ghost mid = self.history();
                proof {
                    lemma_writes_keep_prefix(h, mid, path, start as int);
                }
                match self.durability.write_at(&self.file, at, list.as_slice()) {
                    Ok(_) => {},
                    Err(e) => {
                        proof {
                            lemma_grown_further(
                                h,
                                mid,
                                self.history(),
                                path,
                                start as int,
                                at as int,
                            );
                        }
                        return Err(e);
                    },
                }
                proof {
                    lemma_write_ops_grow(mid, path, at as int, with, at as int);
                    lemma_grown_further(
                        h,
                        mid,
                        self.history(),
                        path,
                        start as int,
                        at as int,
                    );
                    assert(mid + (write_ops(path, at as int, with) + write_ops(
                        path,
                        at + total_len(with),
                        rest,
                    )) =~= self.history() + write_ops(path, at + total_len(with), rest));
                }
                at = at + queued;
                list = Vec::new();
                queued = 0;
                assert(buf_views(list@) =~= Seq::empty());
                assert(buf_views(list@) + rest =~= rest);
            }
            i += 1;
        }
        let ghost with = buf_views(list@);
        proof {
            assert(views.skip(i as int) =~= Seq::empty());
            assert(batch_bufs(views.skip(i as int)) == Seq::<Seq<u8>>::empty());
            assert(with + batch_bufs(views.skip(i as int)) =~= with);
        }
        if list.len() > 0 {
            let ghost mid = self.history();
            proof {
                lemma_writes_keep_prefix(h, mid, path, start as int);
            }
            match self.durability.write_at(&self.file, at, list.as_slice()) {
                Ok(_) => {},
                Err(e) => {
                    proof {
                        lemma_grown_further(
                            h,
                            mid,
                            self.history(),
                            path,
                            start as int,
                            at as int,
                        );
                    }
                    return Err(e);
                },
            }
        } else {
            assert(with =~= Seq::empty());
            assert(self.history() + write_ops(path, at as int, with) =~= self.history());
        }
        Ok(())
    }

    /// Makes everything that was appended safe. If everything is already, the
    /// disk is left in peace.
    #[verifier::rlimit(40)]
    pub fn sync(&mut self) -> (r: Result<(), D::Error>)
        requires
            old(self).wf(),
        ensures
            final(self).wf(),
            final(self).log() == old(self).log(),
            final(self).decree() == old(self).decree(),
            final(self).entries() == old(self).entries(),
            final(self).contents() == old(self).contents(),
            final(self).reliable() == old(self).reliable(),
            old(self).reliable() || old(self).synced_len() == old(self).entries().data_len
                ==> r is Ok,
            r is Ok ==> {
                &&& final(self).synced_len() == old(self).entries().data_len
                &&& final(self).synced_decree() == (if old(self).entries().data_len > old(
                    self,
                ).synced_len() {
                    old(self).entries().max_decree()
                } else {
                    old(self).synced_decree()
                })
                &&& final(self).history() == old(self).history() + sync_ops(
                    old(self).log(),
                    old(self).synced_len(),
                    old(self).entries().data_len,
                )
            },
            r is Err ==> {
                &&& final(self).synced_len() == old(self).synced_len()
                &&& final(self).synced_decree() == old(self).synced_decree()
                &&& done_in_part(
                    old(self).history(),
                    final(self).history(),
                    sync_ops(
                        old(self).log(),
                        old(self).synced_len(),
                        old(self).entries().data_len,
                    ),
                )
            },
    {
        let ghost h = self.history();
        let ghost op = OpView::SyncData { path: self.log() };
        let data_len: u64 = self.index.data_len();
        if self.durable_len == data_len {
            assert(h + Seq::<OpView>::empty() =~= h);
            return Ok(());
        }
        proof {
            lemma_push_live(h, op);
            assert(live_files(disk_after(h)).contains_key(self.log()));
            assert(live_file(h, self.log()) == Some(live_files(disk_after(h))[self.log()]));
            assert(live_file(h.push(op), self.log()) == live_file(h, self.log())) by {
                assert(live_files(disk_after(h.push(op))).contains_key(self.log()));
            }
            assert(h + seq![op] =~= h.push(op));
        }
        match self.durability.sync_data(&self.file) {
            Ok(_) => {
                self.durable_len = data_len;
                self.durable_max_decree = self.index.max_decree();
                Ok(())
            },
            Err(e) => {
                proof {
                    let k = choose|k: int|
                        0 <= k <= seq![op].len() && self.history() == h + #[trigger] seq![op].take(
                            k,
                        );
                    if k == 0 {
                        assert(self.history() =~= h);
                    } else {
                        assert(self.history() =~= h.push(op));
                    }
                }
                Err(e)
            },
        }
    }
}

/// What syncing a log does that is `data_len` long, of which `synced_len` bytes
/// are synced already.
pub open spec fn sync_ops(path: PathView, synced_len: int, data_len: int) -> Seq<OpView> {
    if synced_len == data_len {
        Seq::empty()
    } else {
        seq![OpView::SyncData { path }]
    }
}

proof fn lemma_own_len(record: Seq<u8>)
    requires
        record.len() <= last_page(),
    ensures
        ({
            let pad = pad_of(record);
            let own = if pad.len() > 0 {
                seq![record, pad]
            } else {
                seq![record]
            };
            total_len(own) == page_rounded(record.len() as int)
        }),
{
    let pad = pad_of(record);
    let one = seq![record];
    let two = seq![record, pad];
    assert(one.skip(1) =~= Seq::empty());
    assert(two.skip(1) =~= seq![pad]);
    assert(seq![pad].skip(1) =~= Seq::empty());
    assert(total_len(Seq::<Seq<u8>>::empty()) == 0);
    assert(total_len(seq![pad]) == pad.len());
}

/// Checks records one after the other, and says what is known of them.
fn check_records<E>(records: &[&[u8]], start: u64) -> (r: Result<Vec<RecordInfo>, LogError<E>>)
    requires
        records_fit(buf_views(records@)),
        start + image(buf_views(records@)).len() <= u64::MAX,
    ensures
        match batch_fault::<E>(buf_views(records@)) {
            Some(e) => r == Err::<Vec<RecordInfo>, LogError<E>>(e),
            None => r is Ok && r->Ok_0@ == infos(buf_views(records@), start as int),
        },
{
    let ghost views = buf_views(records@);
    let mut shapes: Vec<RecordInfo> = Vec::new();
    let mut at: u64 = start;
    let mut i: usize = 0;
    proof {
        assert(views.skip(0) =~= views);
        assert(shapes@ + infos(views, start as int) =~= infos(views, start as int));
    }
    while i < records.len()
        invariant
            i <= records@.len(),
            views == buf_views(records@),
            records_fit(views),
            batch_fault::<E>(views) == batch_fault::<E>(views.skip(i as int)),
            at + image(views.skip(i as int)).len() == start + image(views).len(),
            start + image(views).len() <= u64::MAX,
            shapes@ + infos(views.skip(i as int), at as int) == infos(views, start as int),
        decreases records@.len() - i,
    {
        let record: &[u8] = records[i];
        let ghost left = views.skip(i as int);
        proof {
            assert(left[0] == record@);
            assert(views[i as int] == record@);
            assert(left.skip(1) =~= views.skip(i + 1));
        }
        let header = match unmarshal_base(record) {
            Some(header) => header,
            None => {
                return Err(LogError::NotAMessage);
            },
        };
        if header.un_marshal_len as usize != record.len() {
            return Err(
                LogError::LengthMismatch {
                    declared: header.un_marshal_len,
                    actual: record.len(),
                },
            );
        }
        if !is_loggable(header.msg_id) {
            return Err(LogError::NotLoggable(header.msg_id));
        }
        let padded_len: u32 = round_up_to_page(header.un_marshal_len);
        let info = RecordInfo {
            offset: at,
            msg_id: header.msg_id,
            decree: header.decree,
            un_marshal_len: header.un_marshal_len,
            padded_len,
            checksum: header.checksum,
        };
        let ghost before = shapes@;
        shapes.push(info);
        proof {
            assert(info == info_of(parsed_base(record@)->Some_0, at as int));
            let n = record_image(record@).len();
            assert(n == padded_len);
            assert(before + (seq![info] + infos(left.skip(1), at + n)) =~= shapes@ + infos(
                left.skip(1),
                at + n,
            ));
        }
        at = at + padded_len as u64;
        i += 1;
    }
    proof {
        assert(views.skip(i as int) =~= Seq::empty());
        assert(shapes@ + Seq::<RecordInfo>::empty() =~= shapes@);
    }
    Ok(shapes)
}

/// Nothing that was acknowledged is ever lost. Once records have been appended
/// to a log whose name is safe, and synced, every scan of what any crash leaves
/// of it finds them and all records before them, however far later operations
/// had come that leave the name and the synced bytes alone.
pub proof fn law_acknowledged_records_survive(
    history: Seq<OpView>,
    path: PathView,
    records: Seq<Seq<u8>>,
    added: Seq<Seq<u8>>,
    more: Seq<OpView>,
    policy: CrashPolicy,
)
    requires
        name_safe(disk_after(history), path),
        live_file(history, path) == Some(image(records)),
        valid_records(records),
        valid_records(added),
        image(records + added).len() <= u64::MAX,
        ops_spare(more, path, image(records + added).len() as int),
    ensures
        ({
            let done = (history + append_ops(
                path,
                image(records).len() as int,
                added,
            )).push(OpView::SyncData { path });
            let left = crash_image(done + more, policy);
            let known = infos(records + added, 0);
            &&& left.contains_key(path)
            &&& scanned(left[path], 0).records.len() >= known.len()
            &&& scanned(left[path], 0).records.take(known.len() as int) == known
        }),
{
    let start = image(records).len() as int;
    let bufs = batch_bufs(added);
    let ops = append_ops(path, start, added);
    let h1 = history + ops;
    let all = records + added;
    law_batches_add_up(records, added);
    lemma_batch_flattened(added);
    law_buffers_are_written_in_a_row(history, path, start, bufs);
    assert(written(image(records), start, image(added)) =~= image(all));
    lemma_write_ops_grow(history, path, start, bufs, start);
    lemma_name_stays_safe(history, ops, path);
    law_sync_makes_contents_safe(h1, path);
    let done = h1.push(OpView::SyncData { path });
    let n = image(all).len() as int;
    law_safe_prefix_outlives_operations(done, more, path, n, policy);
    let left = crash_image(done + more, policy)[path];
    let tail = left.skip(n);
    assert(left =~= image(all) + tail) by {
        assert(left.take(n) == image(all));
        assert(left =~= left.take(n) + left.skip(n));
    }
    assert forall|i: int| 0 <= i < all.len() implies super::valid_record(#[trigger] all[i]) by {
        if i < records.len() {
            assert(all[i] == records[i]);
        } else {
            assert(all[i] == added[i - records.len()]);
        }
    }
    law_written_records_scan_back(all, tail, 0);
    let known = infos(all, 0);
    let after = scanned(tail, n);
    assert((known + after.records).take(known.len() as int) =~= known);
}

/// Writing to a file leaves its name safe.
pub(super) proof fn lemma_name_stays_safe(history: Seq<OpView>, ops: Seq<OpView>, path: PathView)
    requires
        name_safe(disk_after(history), path),
        grew_by_writes(history, history + ops, path, 0) || (exists|n: int|
            0 <= n && #[trigger] grew_by_writes(history, history + ops, path, n)),
    ensures
        name_safe(disk_after(history + ops), path),
    decreases ops.len(),
{
    let n = choose|n: int|
        #![trigger grew_by_writes(history, history + ops, path, n)]
        0 <= n && grew_by_writes(history, history + ops, path, n);
    assert(grew_by_writes(history, history + ops, path, n) || grew_by_writes(
        history,
        history + ops,
        path,
        0,
    ));
    if ops.len() == 0 {
        assert(history + ops =~= history);
    } else {
        let front = ops.drop_last();
        let all = history + ops;
        assert(all.drop_last() =~= history + front);
        assert forall|i: int|
            history.len() <= i < (history + front).len() implies writes_beyond(
            #[trigger] (history + front)[i],
            path,
            0,
        ) by {
            assert((history + front)[i] == all[i]);
        }
        assert((history + front).take(history.len() as int) =~= history);
        assert(grew_by_writes(history, history + front, path, 0));
        lemma_name_stays_safe(history, front, path);
        assert(all[all.len() - 1] == all.last());
        assert(writes_beyond(all[all.len() - 1], path, 0));
    }
}

/// A scan rebuilds the index that the writer kept: reopening a log, appending to
/// it and scanning it again gives the index that the appends gave.
pub proof fn law_scan_rebuilds_the_index(log: Seq<u8>, index: IndexView, added: Seq<Seq<u8>>)
    requires
        log.len() <= u64::MAX,
        indexed(IndexView::none(), scanned(log, 0).records) == Ok::<IndexView, IndexError>(index),
        valid_records(added),
        append_refusal::<()>(index, added) is None,
    ensures
        ({
            let kept = log.take(scanned(log, 0).stop_offset);
            indexed(IndexView::none(), scanned(kept + image(added), 0).records) == Ok::<
                IndexView,
                IndexError,
            >(index_after(index, added))
        }),
{
    let found = scanned(log, 0);
    law_reopened_log_goes_on(log, added);
    law_index_covers_its_records(IndexView::none(), found.records);
    lemma_scan_total(log, 0);
    law_index_adds_up(IndexView::none(), found.records, infos(added, found.stop_offset));
}

/// Nothing of a log is in flight once it has been opened as a new one, and its
/// name is safe.
pub proof fn law_new_log_name_is_safe(history: Seq<OpView>, path: PathView)
    requires
        flat_in(history, parent_of(path)),
    ensures
        settled(
            disk_after(
                history.push(OpView::Create { path }).push(
                    OpView::SyncDir { dir: parent_of(path) },
                ),
            ),
            path,
        ),
{
    let op = OpView::Create { path };
    let h = history.push(op);
    assert(h.drop_last() =~= history);
    assert forall|i: int| 0 <= i < h.len() implies match #[trigger] h[i] {
        OpView::Rename { from, to } => (parent_of(from) == parent_of(path)) == (parent_of(to)
            == parent_of(path)),
        _ => true,
    } by {
        if i < history.len() {
            assert(h[i] == history[i]);
        }
    }
    law_sync_dir_makes_names_safe(h, path);
    let sync = OpView::SyncDir { dir: parent_of(path) };
    assert(h.push(sync).drop_last() =~= h);
    let d = disk_after(h);
    let e = disk_after(h.push(sync));
    assert(d.live[path] == disk_after(history).inodes.len());
    assert(d.inodes[d.live[path]].pending.len() == 0);
    assert(e.inodes == d.inodes && e.live == d.live);
}

proof fn lemma_infos_sum(a: Seq<Seq<u8>>, b: Seq<Seq<u8>>, offset: int)
    ensures
        infos(a + b, offset) == infos(a, offset) + infos(b, offset + image(a).len()),
    decreases a.len(),
{
    if a.len() == 0 {
        assert(a + b =~= b);
        assert(infos(a, offset) + infos(b, offset) =~= infos(b, offset));
    } else {
        let n = record_image(a[0]).len() as int;
        assert((a + b).skip(1) =~= a.skip(1) + b);
        lemma_infos_sum(a.skip(1), b, offset + n);
        assert(infos(a + b, offset) =~= infos(a, offset) + infos(b, offset + image(a).len()));
    }
}

proof fn lemma_faults_sum<E>(a: Seq<Seq<u8>>, b: Seq<Seq<u8>>)
    ensures
        batch_fault::<E>(a + b) == (match batch_fault::<E>(a) {
            Some(fault) => Some(fault),
            None => batch_fault::<E>(b),
        }),
    decreases a.len(),
{
    if a.len() == 0 {
        assert(a + b =~= b);
    } else {
        assert((a + b).skip(1) =~= a.skip(1) + b);
        lemma_faults_sum::<E>(a.skip(1), b);
    }
}

/// Records are accepted in one batch if and only if they are accepted in two, one
/// after the other, and the index is the same.
pub proof fn law_accepted_batches_add_up<E>(index: IndexView, a: Seq<Seq<u8>>, b: Seq<Seq<u8>>)
    requires
        records_fit(a),
    ensures
        append_refusal::<E>(index, a + b) is None <==> append_refusal::<E>(index, a) is None
            && append_refusal::<E>(index_after(index, a), b) is None,
        append_refusal::<E>(index, a + b) is None ==> index_after(index, a + b) == index_after(
            index_after(index, a),
            b,
        ),
{
    let n = index.data_len;
    lemma_faults_sum::<E>(a, b);
    lemma_infos_sum(a, b, n);
    if append_refusal::<E>(index, a) is None {
        lemma_fault_kind::<E, ()>(a);
        lemma_infos_total(a, n);
        law_index_covers_its_records(index, infos(a, n));
    }
    law_index_adds_up(index, infos(a, n), infos(b, n + image(a).len()));
}

/// One of the results of appending `record` to `before` is `after`, without an
/// error.
pub open spec fn appended<D: Durability>(
    before: LogWriter<D>,
    after: LogWriter<D>,
    record: Seq<u8>,
) -> bool {
    exists|r: Result<u64, LogError<D::Error>>|
        r is Ok && #[trigger] LogWriter::appends(before, after, seq![record], r)
}

proof fn lemma_run_of_appends<D: Durability>(
    states: Seq<LogWriter<D>>,
    records: Seq<Seq<u8>>,
    k: int,
)
    requires
        states.len() == records.len() + 1,
        states[0].wf(),
        records_fit(records),
        forall|i: int|
            0 <= i < records.len() ==> #[trigger] appended(states[i], states[i + 1], records[i]),
        0 <= k <= records.len(),
    ensures
        states[k].wf(),
        append_refusal::<D::Error>(states[0].entries(), records.take(k)) is None,
        states[k].entries() == index_after(states[0].entries(), records.take(k)),
        states[k].entries().data_len == states[0].entries().data_len + image(
            records.take(k),
        ).len(),
        states[k].contents() == written(
            states[0].contents(),
            states[0].entries().data_len,
            image(records.take(k)),
        ),
    decreases k,
{
    let first = states[0];
    let start = first.entries().data_len;
    let c = first.contents();
    let a = records.take(k);
    if k == 0 {
        assert(a =~= Seq::empty());
        assert(infos(a, start) =~= Seq::empty());
        assert(written(c, start, image(a)) =~= c);
    } else {
        let front = records.take(k - 1);
        let one = seq![records[k - 1]];
        lemma_run_of_appends(states, records, k - 1);
        assert(appended(states[k - 1], states[k - 1 + 1], records[k - 1]));
        assert(a =~= front + one);
        law_accepted_batches_add_up::<D::Error>(first.entries(), front, one);
        law_batches_add_up(front, one);
        let x = image(front);
        let y = image(one);
        assert(written(written(c, start, x), start + x.len(), y) =~= written(c, start, x + y));
    }
}

/// A batch leaves the file, the index and the length that the same records leave
/// when they are appended one by one.
pub proof fn law_batch_is_like_single_appends<D: Durability>(
    states: Seq<LogWriter<D>>,
    batch: LogWriter<D>,
    records: Seq<Seq<u8>>,
    r: Result<u64, LogError<D::Error>>,
)
    requires
        states.len() == records.len() + 1,
        states[0].wf(),
        records_fit(records),
        forall|i: int|
            0 <= i < records.len() ==> #[trigger] appended(states[i], states[i + 1], records[i]),
        LogWriter::batches(states[0], batch, records, r),
        r is Ok,
    ensures
        r->Ok_0 == states[0].entries().data_len,
        batch.contents() == states.last().contents(),
        batch.entries() == states.last().entries(),
        batch.entries().data_len == states[0].entries().data_len + image(records).len(),
{
    lemma_run_of_appends(states, records, records.len() as int);
    assert(records.take(records.len() as int) =~= records);
    if records.len() == 0 {
        assert(states.last() == states[0]);
    }
}

} // verus!
