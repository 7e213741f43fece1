//! What of a log is safe.

use vstd::prelude::*;

use super::image::image;
use super::writer::{
    append_ops, batch_bufs, lemma_batch_flattened, lemma_write_ops_grow, reopen_ops, sync_ops,
    LogError, LogWriter,
};

use crate::durability::{live_file, Durability, PathView};
use crate::sim::{
    crash_image, disk_after, law_process_sees_each_operation, law_safe_prefix_survives,
    law_sync_makes_contents_safe, prefix_safe, safe_bytes, CrashPolicy, OpView,
};

verus! {

/// After a sync all bytes of a log are safe, those that were synced before and
/// those that were appended since.
pub proof fn law_sync_makes_the_log_safe(
    history: Seq<OpView>,
    path: PathView,
    synced_len: int,
    data_len: int,
    policy: CrashPolicy,
)
    requires
        prefix_safe(disk_after(history), path, synced_len),
        0 <= synced_len <= data_len,
        live_file(history, path) is Some,
        data_len <= live_file(history, path)->Some_0.len(),
    ensures
        ({
            let after = history + sync_ops(path, synced_len, data_len);
            let bytes = live_file(history, path)->Some_0;
            &&& live_file(after, path) == Some(bytes)
            &&& prefix_safe(disk_after(after), path, data_len)
            &&& crash_image(after, policy).contains_key(path)
            &&& crash_image(after, policy)[path].len() >= data_len
            &&& crash_image(after, policy)[path].take(data_len) == bytes.take(data_len)
        }),
{
    let sync = OpView::SyncData { path };
    let bytes = live_file(history, path)->Some_0;
    if synced_len == data_len {
        assert(history + sync_ops(path, synced_len, data_len) =~= history);
        law_safe_prefix_survives(disk_after(history), path, data_len, policy);
        law_safe_prefix_survives(disk_after(history), path, data_len, CrashPolicy::Everything);
        lemma_live_front(history, path, data_len);
    } else {
        let after = history.push(sync);
        assert(history + sync_ops(path, synced_len, data_len) =~= after);
        law_sync_makes_contents_safe(history, path);
        law_process_sees_each_operation(history, sync, path);
        law_safe_prefix_survives(disk_after(after), path, data_len, policy);
        lemma_live_front(after, path, data_len);
    }
}

/// The safe bytes of a file are the first that the process sees.
proof fn lemma_live_front(history: Seq<OpView>, path: PathView, n: int)
    requires
        prefix_safe(disk_after(history), path, n),
    ensures
        live_file(history, path) is Some,
        live_file(history, path)->Some_0.len() >= n,
        live_file(history, path)->Some_0.take(n) == safe_bytes(disk_after(history), path, n),
{
    let d = disk_after(history);
    let inode = d.inodes[d.live[path]];
    crate::sim::lemma_changed_all_spares(inode.durable, inode.pending, n);
}

/// Records are safe once an append has returned: then every crash leaves all
/// records of the log, those before and those that were appended. It is enough
/// that the bytes that the writer takes to be safe were so before.
pub proof fn law_returned_append_is_safe<D: Durability>(
    before: LogWriter<D>,
    after: LogWriter<D>,
    records: Seq<Seq<u8>>,
    r: Result<u64, LogError<D::Error>>,
    policy: CrashPolicy,
)
    requires
        before.wf(),
        LogWriter::appends(before, after, records, r),
        r is Ok,
        prefix_safe(disk_after(before.history()), before.log(), before.synced_len()),
        before.entries().data_len + image(records).len() <= u64::MAX,
        super::writer::records_fit(records),
    ensures
        ({
            let n = before.entries().data_len + image(records).len();
            let left = crash_image(after.history(), policy);
            &&& after.entries().data_len == n
            &&& prefix_safe(disk_after(after.history()), after.log(), n)
            &&& left.contains_key(after.log())
            &&& left[after.log()].len() >= n
            &&& left[after.log()].take(n) == before.contents().take(
                before.entries().data_len,
            ) + image(records)
        }),
{
    let h = before.history();
    let log = before.log();
    let start = before.entries().data_len;
    let bufs = batch_bufs(records);
    let ops = append_ops(log, start, records);
    let mid = h + ops;
    let n = start + image(records).len();
    lemma_batch_flattened(records);
    lemma_write_ops_grow(h, log, start, bufs, start);
    crate::log::law_buffers_are_written_in_a_row(h, log, start, bufs);
    lemma_writes_spare(h, ops, log, before.synced_len(), start);
    crate::sim::law_safe_prefix_outlives_operations(h, ops, log, before.synced_len(), policy);
    let c = before.contents();
    let all = crate::sim::written(c, start, image(records));
    assert(all.take(n) =~= c.take(start) + image(records));
    law_sync_makes_the_log_safe(mid, log, before.synced_len(), n, policy);
    assert(after.history() =~= mid + sync_ops(log, before.synced_len(), n));
}

proof fn lemma_writes_spare(
    h: Seq<OpView>,
    ops: Seq<OpView>,
    log: PathView,
    n: int,
    start: int,
)
    requires
        crate::durability::grew_by_writes(h, h + ops, log, start),
        n <= start,
        prefix_safe(disk_after(h), log, n),
    ensures
        crate::sim::ops_spare(ops, log, n),
        prefix_safe(disk_after(h + ops), log, n),
    decreases ops.len(),
{
    assert forall|i: int| 0 <= i < ops.len() implies crate::sim::op_spares(
        #[trigger] ops[i],
        log,
        n,
    ) by {
        assert((h + ops)[h.len() + i] == ops[i]);
        assert(crate::durability::writes_beyond((h + ops)[h.len() + i], log, start));
    }
    if ops.len() == 0 {
        assert(h + ops =~= h);
    } else {
        let front = ops.drop_last();
        assert(crate::durability::grew_by_writes(h, h + front, log, start)) by {
            assert((h + front).take(h.len() as int) =~= h);
            assert forall|i: int| h.len() <= i < (h + front).len() implies
            crate::durability::writes_beyond(#[trigger] (h + front)[i], log, start) by {
                assert((h + front)[i] == (h + ops)[i]);
            }
        }
        lemma_writes_spare(h, front, log, n, start);
        let op = ops.last();
        assert(h + ops =~= (h + front).push(op));
        assert((h + front).push(op).drop_last() =~= h + front);
        crate::sim::law_names_are_ok(h + front);
        assert(ops[ops.len() - 1] == op);
        crate::sim::law_step_keeps_prefix_safe(disk_after(h + front), op, log, n);
    }
}

/// Opening a log leaves its records and cuts off the rest.
pub proof fn law_reopening_cuts_the_tail_off(
    history: Seq<OpView>,
    path: PathView,
    bytes: Seq<u8>,
    data_len: int,
    q: PathView,
)
    requires
        live_file(history, path) == Some(bytes),
        0 <= data_len <= bytes.len() <= u64::MAX,
    ensures
        live_file(history + reopen_ops(path, bytes, data_len), path) == Some(bytes.take(data_len)),
        q != path ==> live_file(history + reopen_ops(path, bytes, data_len), q) == live_file(
            history,
            q,
        ),
        data_len == bytes.len() ==> reopen_ops(path, bytes, data_len).len() == 0,
{
    let cut = OpView::Truncate { path, len: data_len as u64 };
    law_process_sees_each_operation(history, cut, path);
    law_process_sees_each_operation(history, cut, q);
    assert(history + seq![cut] =~= history.push(cut));
    assert(history + Seq::<OpView>::empty() =~= history);
    if data_len == bytes.len() {
        assert(bytes.take(data_len) =~= bytes);
    }
}

} // verus!
