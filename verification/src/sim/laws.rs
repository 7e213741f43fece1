//! What survives a crash, whatever the policy.

use vstd::prelude::*;

use super::replay::{lemma_filter_from, lemma_renamed_all_ok};
use super::{
    changed, changed_all, changed_holey, changed_torn, contents_of, crash_image, disk_after,
    disk_step, entry_dir, fared_all, in_flight, last_write, law_names_are_ok,
    law_process_sees_its_writes, live_contents, live_distinct, live_files, live_step, names_ok,
    renamed, renamed_all, resized, surviving_files, surviving_names, synced, written, CrashPolicy,
    DiskView, EntryView, InodeView, OpView, PendingView,
};
use crate::durability::{live_file, publish_ops};
use crate::path::{parent_of, DirView, PathView};

verus! {

/// The change of names concerns the name `p`.
pub open spec fn touches(entry: EntryView, p: PathView) -> bool {
    match entry {
        EntryView::Link(path, _) => path == p,
        EntryView::Rename(from, to) => from == p || to == p,
        EntryView::Unlink(path) => path == p,
    }
}

/// The name `p` is safe: it is on the disk, and no change of it is in flight.
pub open spec fn name_safe(d: DiskView, p: PathView) -> bool {
    &&& d.durable_names.contains_key(p)
    &&& d.live.contains_key(p)
    &&& d.live[p] == d.durable_names[p]
    &&& forall|i: int|
        0 <= i < d.pending_names.len() ==> !touches(#[trigger] d.pending_names[i], p)
}

/// Nothing of the file `p` is in flight, neither its name nor its contents.
pub open spec fn settled(d: DiskView, p: PathView) -> bool {
    name_safe(d, p) && d.inodes[d.live[p]].pending.len() == 0
}

/// The change leaves the first `n` bytes alone.
pub open spec fn spares(change: PendingView, n: int) -> bool {
    match change {
        PendingView::Write { offset, data } => offset >= n,
        PendingView::Truncate(len) => len >= n,
    }
}

/// All of these changes leave the first `n` bytes alone.
pub open spec fn all_spare(changes: Seq<PendingView>, n: int) -> bool {
    forall|j: int| 0 <= j < changes.len() ==> spares(#[trigger] changes[j], n)
}

/// The first `n` bytes of the file `p` are safe: its name is, they are on the
/// disk, and no change of them is in flight.
pub open spec fn prefix_safe(d: DiskView, p: PathView, n: int) -> bool {
    &&& name_safe(d, p)
    &&& 0 <= n <= d.inodes[d.live[p]].durable.len()
    &&& all_spare(d.inodes[d.live[p]].pending, n)
}

/// The first `n` bytes of the file `p` that are on the disk.
pub open spec fn safe_bytes(d: DiskView, p: PathView, n: int) -> Seq<u8> {
    d.inodes[d.live[p]].durable.take(n)
}

/// The operation leaves the name `p` and the first `n` bytes of the file alone.
pub open spec fn op_spares(op: OpView, p: PathView, n: int) -> bool {
    match op {
        OpView::Create { path } => path != p,
        OpView::Truncate { path, len } => path != p || len >= n,
        OpView::Write { path, offset, data } => path != p || offset >= n,
        OpView::Rename { from, to } => from != p && to != p,
        OpView::Remove { path } => path != p,
        _ => true,
    }
}

/// All of these operations leave the name `p` and the first `n` bytes of the
/// file alone.
pub open spec fn ops_spare(ops: Seq<OpView>, p: PathView, n: int) -> bool {
    forall|i: int| 0 <= i < ops.len() ==> op_spares(#[trigger] ops[i], p, n)
}

/// Files are given new names inside their directories only.
pub open spec fn flat(ops: Seq<OpView>) -> bool {
    forall|i: int|
        0 <= i < ops.len() ==> match #[trigger] ops[i] {
            OpView::Rename { from, to } => parent_of(from) == parent_of(to),
            _ => true,
        }
}

/// Changes of names in flight are inside directories only.
pub open spec fn entries_flat(entries: Seq<EntryView>) -> bool {
    forall|i: int|
        0 <= i < entries.len() ==> match #[trigger] entries[i] {
            EntryView::Rename(from, to) => parent_of(from) == parent_of(to),
            _ => true,
        }
}

proof fn lemma_changed_spares(s: Seq<u8>, change: PendingView, n: int)
    requires
        0 <= n <= s.len(),
        spares(change, n),
    ensures
        changed(s, change).len() >= n,
        changed(s, change).take(n) == s.take(n),
        changed_torn(s, change).len() >= n,
        changed_torn(s, change).take(n) == s.take(n),
        changed_holey(s, change).len() >= n,
        changed_holey(s, change).take(n) == s.take(n),
{
    assert(changed(s, change).take(n) =~= s.take(n));
    assert(changed_torn(s, change).take(n) =~= s.take(n));
    assert(changed_holey(s, change).take(n) =~= s.take(n));
}

pub(crate) proof fn lemma_changed_all_spares(s: Seq<u8>, changes: Seq<PendingView>, n: int)
    requires
        0 <= n <= s.len(),
        all_spare(changes, n),
    ensures
        changed_all(s, changes).len() >= n,
        changed_all(s, changes).take(n) == s.take(n),
    decreases changes.len(),
{
    if changes.len() > 0 {
        let front = changes.drop_last();
        assert forall|j: int| 0 <= j < front.len() implies spares(#[trigger] front[j], n) by {
            assert(front[j] == changes[j]);
        }
        lemma_changed_all_spares(s, front, n);
        assert(spares(changes[changes.len() - 1], n));
        lemma_changed_spares(changed_all(s, front), changes.last(), n);
    }
}

proof fn lemma_fared_spare(
    s: Seq<u8>,
    changes: Seq<PendingView>,
    last: int,
    policy: CrashPolicy,
    n: int,
)
    requires
        0 <= n <= s.len(),
        all_spare(changes, n),
    ensures
        fared_all(s, changes, last, policy).len() >= n,
        fared_all(s, changes, last, policy).take(n) == s.take(n),
    decreases changes.len(),
{
    if changes.len() > 0 {
        let front = changes.drop_last();
        assert forall|j: int| 0 <= j < front.len() implies spares(#[trigger] front[j], n) by {
            assert(front[j] == changes[j]);
        }
        lemma_fared_spare(s, front, last, policy, n);
        assert(spares(changes[changes.len() - 1], n));
        lemma_changed_spares(fared_all(s, front, last, policy), changes.last(), n);
    }
}

proof fn lemma_contents_spare(inode: InodeView, policy: CrashPolicy, n: int)
    requires
        0 <= n <= inode.durable.len(),
        all_spare(inode.pending, n),
    ensures
        contents_of(inode, policy).len() >= n,
        contents_of(inode, policy).take(n) == inode.durable.take(n),
{
    lemma_fared_spare(inode.durable, inode.pending, last_write(inode.pending), policy, n);
}

/// In the luckiest crash every change lands.
proof fn lemma_all_land(s: Seq<u8>, changes: Seq<PendingView>, last: int)
    ensures
        fared_all(s, changes, last, CrashPolicy::Everything) == changed_all(s, changes),
    decreases changes.len(),
{
    if changes.len() > 0 {
        lemma_all_land(s, changes.drop_last(), last);
    }
}

proof fn lemma_names_untouched(names: Map<PathView, int>, entries: Seq<EntryView>, p: PathView)
    requires
        forall|i: int| 0 <= i < entries.len() ==> !touches(#[trigger] entries[i], p),
    ensures
        renamed_all(names, entries).contains_key(p) == names.contains_key(p),
        names.contains_key(p) ==> renamed_all(names, entries)[p] == names[p],
    decreases entries.len(),
{
    if entries.len() > 0 {
        let front = entries.drop_last();
        assert forall|i: int| 0 <= i < front.len() implies !touches(#[trigger] front[i], p) by {
            assert(front[i] == entries[i]);
        }
        lemma_names_untouched(names, front, p);
        assert(!touches(entries[entries.len() - 1], p));
    }
}

/// Safe bytes survive every crash: the file is there, and it starts with them.
pub proof fn law_safe_prefix_survives(d: DiskView, p: PathView, n: int, policy: CrashPolicy)
    requires
        prefix_safe(d, p, n),
    ensures
        surviving_files(d, policy).contains_key(p),
        surviving_files(d, policy)[p].len() >= n,
        surviving_files(d, policy)[p].take(n) == safe_bytes(d, p, n),
{
    lemma_names_untouched(d.durable_names, d.pending_names, p);
    lemma_contents_spare(d.inodes[d.live[p]], policy, n);
}

/// A file whose name is safe is there after any crash.
pub proof fn law_safe_name_survives(d: DiskView, p: PathView, policy: CrashPolicy)
    requires
        name_safe(d, p),
    ensures
        surviving_files(d, policy).contains_key(p),
        surviving_files(d, policy)[p] == contents_of(d.inodes[d.live[p]], policy),
{
    lemma_names_untouched(d.durable_names, d.pending_names, p);
}

proof fn lemma_filtered_untouched(
    entries: Seq<EntryView>,
    pred: spec_fn(EntryView) -> bool,
    p: PathView,
)
    requires
        forall|i: int| 0 <= i < entries.len() ==> !touches(#[trigger] entries[i], p),
    ensures
        forall|i: int|
            0 <= i < entries.filter(pred).len() ==> !touches(
                #[trigger] entries.filter(pred)[i],
                p,
            ),
{
    lemma_filter_from(entries, pred);
    let kept = entries.filter(pred);
    assert forall|i: int| 0 <= i < kept.len() implies !touches(#[trigger] kept[i], p) by {
        assert(entries.contains(kept[i]));
    }
}

/// An operation that leaves safe bytes alone leaves them safe.
pub proof fn law_step_keeps_prefix_safe(d: DiskView, op: OpView, p: PathView, n: int)
    requires
        names_ok(d),
        live_distinct(d),
        prefix_safe(d, p, n),
        op_spares(op, p, n),
    ensures
        prefix_safe(disk_step(d, op), p, n),
        safe_bytes(disk_step(d, op), p, n) == safe_bytes(d, p, n),
{
    let e = disk_step(d, op);
    let id = d.live[p];
    match op {
        OpView::Create { path } => {
            lemma_untouched_push(d.pending_names, EntryView::Link(path, d.inodes.len() as int), p);
        },
        OpView::Truncate { path, len } => {
            lemma_change_keeps_prefix_safe(d, path, PendingView::Truncate(len as int), p, n);
        },
        OpView::Write { path, offset, data } => {
            lemma_change_keeps_prefix_safe(
                d,
                path,
                PendingView::Write { offset: offset as int, data },
                p,
                n,
            );
        },
        OpView::SyncData { path } => {
            lemma_sync_keeps_prefix_safe(d, path, p, n);
        },
        OpView::SyncFile { path } => {
            lemma_sync_keeps_prefix_safe(d, path, p, n);
        },
        OpView::Rename { from, to } => {
            lemma_untouched_push(d.pending_names, EntryView::Rename(from, to), p);
        },
        OpView::Remove { path } => {
            lemma_untouched_push(d.pending_names, EntryView::Unlink(path), p);
        },
        OpView::SyncDir { dir } => {
            let here = |e: EntryView| entry_dir(e) == dir;
            let elsewhere = |e: EntryView| entry_dir(e) != dir;
            lemma_filtered_untouched(d.pending_names, here, p);
            lemma_filtered_untouched(d.pending_names, elsewhere, p);
            lemma_names_untouched(d.durable_names, d.pending_names.filter(here), p);
        },
        OpView::Ack { label } => {},
    }
}

proof fn lemma_untouched_push(entries: Seq<EntryView>, entry: EntryView, p: PathView)
    requires
        forall|i: int| 0 <= i < entries.len() ==> !touches(#[trigger] entries[i], p),
        !touches(entry, p),
    ensures
        forall|i: int|
            0 <= i < entries.push(entry).len() ==> !touches(#[trigger] entries.push(entry)[i], p),
{
}

proof fn lemma_change_keeps_prefix_safe(
    d: DiskView,
    path: PathView,
    change: PendingView,
    p: PathView,
    n: int,
)
    requires
        names_ok(d),
        live_distinct(d),
        prefix_safe(d, p, n),
        path != p || spares(change, n),
    ensures
        prefix_safe(in_flight(d, path, change), p, n),
        safe_bytes(in_flight(d, path, change), p, n) == safe_bytes(d, p, n),
{
    let e = in_flight(d, path, change);
    let id = d.live[p];
    if d.live.contains_key(path) {
        if path != p {
            assert(d.live[path] != d.live[p]);
            assert(e.inodes[id] == d.inodes[id]);
        } else {
            let pending = d.inodes[id].pending.push(change);
            assert forall|j: int| 0 <= j < pending.len() implies spares(
                #[trigger] pending[j],
                n,
            ) by {
                if j < d.inodes[id].pending.len() {
                    assert(pending[j] == d.inodes[id].pending[j]);
                }
            }
        }
    }
}

proof fn lemma_sync_keeps_prefix_safe(d: DiskView, path: PathView, p: PathView, n: int)
    requires
        names_ok(d),
        live_distinct(d),
        prefix_safe(d, p, n),
    ensures
        prefix_safe(synced(d, path), p, n),
        safe_bytes(synced(d, path), p, n) == safe_bytes(d, p, n),
{
    let id = d.live[p];
    if d.live.contains_key(path) && path != p {
        assert(d.live[path] != d.live[p]);
    }
    if path == p {
        lemma_changed_all_spares(d.inodes[id].durable, d.inodes[id].pending, n);
    }
}

/// Safe bytes stay safe through any operations that leave them alone, so they
/// survive a crash at every point of the way.
pub proof fn law_safe_prefix_outlives_operations(
    history: Seq<OpView>,
    more: Seq<OpView>,
    p: PathView,
    n: int,
    policy: CrashPolicy,
)
    requires
        prefix_safe(disk_after(history), p, n),
        ops_spare(more, p, n),
    ensures
        prefix_safe(disk_after(history + more), p, n),
        safe_bytes(disk_after(history + more), p, n) == safe_bytes(disk_after(history), p, n),
        crash_image(history + more, policy).contains_key(p),
        crash_image(history + more, policy)[p].len() >= n,
        crash_image(history + more, policy)[p].take(n) == safe_bytes(disk_after(history), p, n),
    decreases more.len(),
{
    if more.len() == 0 {
        assert(history + more =~= history);
    } else {
        let front = more.drop_last();
        assert forall|i: int| 0 <= i < front.len() implies op_spares(#[trigger] front[i], p, n) by {
            assert(front[i] == more[i]);
        }
        law_safe_prefix_outlives_operations(history, front, p, n, policy);
        assert((history + more).drop_last() =~= history + front);
        assert((history + more).last() == more.last());
        assert(op_spares(more[more.len() - 1], p, n));
        law_names_are_ok(history + front);
        law_step_keeps_prefix_safe(disk_after(history + front), more.last(), p, n);
    }
    law_safe_prefix_survives(disk_after(history + more), p, n, policy);
}

/// Once a file whose name is safe has been synced, all that the process wrote
/// to it is safe.
pub proof fn law_sync_makes_contents_safe(history: Seq<OpView>, p: PathView)
    requires
        name_safe(disk_after(history), p),
    ensures
        ({
            let bytes = live_file(history, p)->Some_0;
            let n = bytes.len() as int;
            let data = disk_after(history.push(OpView::SyncData { path: p }));
            let all = disk_after(history.push(OpView::SyncFile { path: p }));
            &&& prefix_safe(data, p, n)
            &&& safe_bytes(data, p, n) == bytes
            &&& data.inodes[data.live[p]].durable == bytes
            &&& settled(data, p)
            &&& settled(all, p)
            &&& prefix_safe(all, p, n)
            &&& safe_bytes(all, p, n) == bytes
            &&& all.inodes[all.live[p]].durable == bytes
        }),
{
    law_names_are_ok(history);
    let op1 = OpView::SyncData { path: p };
    let op2 = OpView::SyncFile { path: p };
    assert(history.push(op1).drop_last() =~= history);
    assert(history.push(op2).drop_last() =~= history);
    let bytes = live_file(history, p)->Some_0;
    assert(bytes.take(bytes.len() as int) =~= bytes);
}

proof fn lemma_commute(names: Map<PathView, int>, a: EntryView, b: EntryView)
    requires
        entry_dir(a) != entry_dir(b),
        entries_flat(seq![a, b]),
    ensures
        renamed(renamed(names, a), b) == renamed(renamed(names, b), a),
{
    assert(entries_flat(seq![a, b]));
    let s = seq![a, b];
    assert(s[0] == a && s[1] == b);
    assert(renamed(renamed(names, a), b) =~= renamed(renamed(names, b), a));
}

proof fn lemma_commute_past(names: Map<PathView, int>, entries: Seq<EntryView>, e: EntryView)
    requires
        entries_flat(entries.push(e)),
        forall|i: int|
            0 <= i < entries.len() ==> entry_dir(#[trigger] entries[i]) != entry_dir(e),
    ensures
        renamed_all(renamed(names, e), entries) == renamed(renamed_all(names, entries), e),
    decreases entries.len(),
{
    if entries.len() > 0 {
        let front = entries.drop_last();
        let last = entries.last();
        let all = entries.push(e);
        assert forall|i: int| 0 <= i < front.push(e).len() implies match
        #[trigger] front.push(e)[i] {
            EntryView::Rename(from, to) => parent_of(from) == parent_of(to),
            _ => true,
        } by {
            if i < front.len() {
                assert(front.push(e)[i] == all[i]);
            } else {
                assert(front.push(e)[i] == all[all.len() - 1]);
            }
        }
        assert forall|i: int| 0 <= i < front.len() implies entry_dir(#[trigger] front[i])
            != entry_dir(e) by {
            assert(front[i] == entries[i]);
        }
        lemma_commute_past(names, front, e);
        assert(entry_dir(entries[entries.len() - 1]) != entry_dir(e));
        let pair = seq![e, last];
        assert(all[all.len() - 1] == e && all[all.len() - 2] == last);
        assert forall|i: int| 0 <= i < pair.len() implies match #[trigger] pair[i] {
            EntryView::Rename(from, to) => parent_of(from) == parent_of(to),
            _ => true,
        } by {
            if i == 0 {
                assert(pair[i] == all[all.len() - 1]);
            } else {
                assert(pair[i] == all[all.len() - 2]);
            }
        }
        lemma_commute(renamed_all(names, front), e, last);
    }
}

/// Making the names of one directory safe first changes nothing in the end.
proof fn lemma_split_names(names: Map<PathView, int>, entries: Seq<EntryView>, dir: DirView)
    requires
        entries_flat(entries),
    ensures
        renamed_all(
            renamed_all(names, entries.filter(|e: EntryView| entry_dir(e) == dir)),
            entries.filter(|e: EntryView| entry_dir(e) != dir),
        ) == renamed_all(names, entries),
    decreases entries.len(),
{
    reveal(Seq::filter);
    let here = |e: EntryView| entry_dir(e) == dir;
    let elsewhere = |e: EntryView| entry_dir(e) != dir;
    if entries.len() > 0 {
        let front = entries.drop_last();
        let last = entries.last();
        assert forall|i: int| 0 <= i < front.len() implies match #[trigger] front[i] {
            EntryView::Rename(from, to) => parent_of(from) == parent_of(to),
            _ => true,
        } by {
            assert(front[i] == entries[i]);
        }
        lemma_split_names(names, front, dir);
        let f = front.filter(here);
        let g = front.filter(elsewhere);
        assert(entries[entries.len() - 1] == last);
        if here(last) {
            assert(f.push(last).drop_last() =~= f);
            lemma_filter_from(front, elsewhere);
            assert forall|i: int| 0 <= i < g.push(last).len() implies match
            #[trigger] g.push(last)[i] {
                EntryView::Rename(from, to) => parent_of(from) == parent_of(to),
                _ => true,
            } by {
                if i < g.len() {
                    assert(g.push(last)[i] == g[i]);
                    assert(front.contains(g[i]));
                }
            }
            lemma_commute_past(renamed_all(names, f), g, last);
        } else {
            assert(g.push(last).drop_last() =~= g);
        }
    }
}

proof fn lemma_flat_front(ops: Seq<OpView>)
    requires
        flat(ops),
        ops.len() > 0,
    ensures
        flat(ops.drop_last()),
        ops.last() is Rename ==> parent_of(ops.last()->from) == parent_of(ops.last()->to),
{
    let front = ops.drop_last();
    assert forall|i: int| 0 <= i < front.len() implies match #[trigger] front[i] {
        OpView::Rename { from, to } => parent_of(from) == parent_of(to),
        _ => true,
    } by {
        assert(front[i] == ops[i]);
    }
    assert(ops[ops.len() - 1] == ops.last());
}

/// The names on the disk with all changes in flight applied are the names that
/// the process sees. So the luckiest crash loses nothing.
pub proof fn law_lucky_crash_loses_nothing(ops: Seq<OpView>)
    requires
        flat(ops),
    ensures
        renamed_all(disk_after(ops).durable_names, disk_after(ops).pending_names) == disk_after(
            ops,
        ).live,
        entries_flat(disk_after(ops).pending_names),
        crash_image(ops, CrashPolicy::Everything) == live_files(disk_after(ops)),
    decreases ops.len(),
{
    if ops.len() > 0 {
        let front = ops.drop_last();
        let op = ops.last();
        lemma_flat_front(ops);
        law_lucky_crash_loses_nothing(front);
        let d = disk_after(front);
        let e = disk_after(ops);
        match op {
            OpView::Create { path } => {
                lemma_flat_push(
                    d.pending_names,
                    EntryView::Link(path, d.inodes.len() as int),
                    d.durable_names,
                );
            },
            OpView::Rename { from, to } => {
                lemma_flat_push(d.pending_names, EntryView::Rename(from, to), d.durable_names);
            },
            OpView::Remove { path } => {
                lemma_flat_push(d.pending_names, EntryView::Unlink(path), d.durable_names);
            },
            OpView::SyncDir { dir } => {
                lemma_split_names(d.durable_names, d.pending_names, dir);
                let elsewhere = |e: EntryView| entry_dir(e) != dir;
                lemma_filter_from(d.pending_names, elsewhere);
                let g = d.pending_names.filter(elsewhere);
                assert forall|i: int| 0 <= i < g.len() implies match #[trigger] g[i] {
                    EntryView::Rename(from, to) => parent_of(from) == parent_of(to),
                    _ => true,
                } by {
                    assert(d.pending_names.contains(g[i]));
                }
            },
            _ => {},
        }
    }
    let d = disk_after(ops);
    assert(crash_image(ops, CrashPolicy::Everything) =~= live_files(d)) by {
        assert forall|p: PathView| #[trigger]
            d.live.contains_key(p) implies contents_of(
            d.inodes[d.live[p]],
            CrashPolicy::Everything,
        ) == live_contents(d.inodes[d.live[p]]) by {
            let inode = d.inodes[d.live[p]];
            lemma_all_land(inode.durable, inode.pending, last_write(inode.pending));
        }
    }
}

proof fn lemma_flat_push(entries: Seq<EntryView>, entry: EntryView, names: Map<PathView, int>)
    requires
        entries_flat(entries),
        entry is Rename ==> parent_of(entry->Rename_0) == parent_of(entry->Rename_1),
    ensures
        entries_flat(entries.push(entry)),
        renamed_all(names, entries.push(entry)) == renamed(renamed_all(names, entries), entry),
{
    assert(entries.push(entry).drop_last() =~= entries);
    assert forall|i: int| 0 <= i < entries.push(entry).len() implies match
    #[trigger] entries.push(entry)[i] {
        EntryView::Rename(from, to) => parent_of(from) == parent_of(to),
        _ => true,
    } by {
        if i < entries.len() {
            assert(entries.push(entry)[i] == entries[i]);
        }
    }
}

/// No file is moved into or out of the directory `dir`.
pub open spec fn flat_in(ops: Seq<OpView>, dir: DirView) -> bool {
    forall|i: int|
        0 <= i < ops.len() ==> match #[trigger] ops[i] {
            OpView::Rename { from, to } => (parent_of(from) == dir) == (parent_of(to) == dir),
            _ => true,
        }
}

/// The change of names moves no file into or out of the directory `dir`.
spec fn entry_flat_in(entry: EntryView, dir: DirView) -> bool {
    match entry {
        EntryView::Rename(from, to) => (parent_of(from) == dir) == (parent_of(to) == dir),
        _ => true,
    }
}

/// The two give the names of the directory `dir` to the same files.
spec fn agree_in(a: Map<PathView, int>, b: Map<PathView, int>, dir: DirView) -> bool {
    forall|q: PathView|
        parent_of(q) == dir ==> (#[trigger] a.contains_key(q)) == b.contains_key(q) && (
        a.contains_key(q) ==> a[q] == b[q])
}

proof fn lemma_agree_step(
    a: Map<PathView, int>,
    b: Map<PathView, int>,
    entry: EntryView,
    dir: DirView,
)
    requires
        entry_flat_in(entry, dir),
        agree_in(a, b, dir),
    ensures
        entry_dir(entry) == dir ==> agree_in(renamed(a, entry), renamed(b, entry), dir),
        entry_dir(entry) != dir ==> agree_in(renamed(a, entry), b, dir),
        entry_dir(entry) != dir ==> agree_in(a, renamed(b, entry), dir),
{
    match entry {
        EntryView::Rename(from, to) => {
            assert(a.contains_key(from) == b.contains_key(from) || parent_of(from) != dir);
        },
        _ => {},
    }
}

proof fn lemma_agree_inside(
    a: Map<PathView, int>,
    b: Map<PathView, int>,
    entries: Seq<EntryView>,
    dir: DirView,
)
    requires
        forall|i: int| 0 <= i < entries.len() ==> entry_flat_in(#[trigger] entries[i], dir),
        forall|i: int| 0 <= i < entries.len() ==> entry_dir(#[trigger] entries[i]) == dir,
        agree_in(a, b, dir),
    ensures
        agree_in(renamed_all(a, entries), renamed_all(b, entries), dir),
    decreases entries.len(),
{
    if entries.len() > 0 {
        let front = entries.drop_last();
        assert forall|i: int| 0 <= i < front.len() implies entry_flat_in(#[trigger] front[i], dir)
            && entry_dir(front[i]) == dir by {
            assert(front[i] == entries[i]);
        }
        lemma_agree_inside(a, b, front, dir);
        assert(entries[entries.len() - 1] == entries.last());
        lemma_agree_step(renamed_all(a, front), renamed_all(b, front), entries.last(), dir);
    }
}

proof fn lemma_agree_elsewhere(a: Map<PathView, int>, entries: Seq<EntryView>, dir: DirView)
    requires
        forall|i: int| 0 <= i < entries.len() ==> entry_flat_in(#[trigger] entries[i], dir),
        forall|i: int| 0 <= i < entries.len() ==> entry_dir(#[trigger] entries[i]) != dir,
    ensures
        agree_in(renamed_all(a, entries), a, dir),
    decreases entries.len(),
{
    if entries.len() > 0 {
        let front = entries.drop_last();
        assert forall|i: int| 0 <= i < front.len() implies entry_flat_in(#[trigger] front[i], dir)
            && entry_dir(front[i]) != dir by {
            assert(front[i] == entries[i]);
        }
        lemma_agree_elsewhere(a, front, dir);
        assert(entries[entries.len() - 1] == entries.last());
        lemma_agree_step(renamed_all(a, front), a, entries.last(), dir);
    }
}

/// What is in one directory is not in another.
proof fn lemma_filter_twice(entries: Seq<EntryView>, dir: DirView, other: DirView)
    ensures
        other != dir ==> entries.filter(|e: EntryView| entry_dir(e) != other).filter(
            |e: EntryView| entry_dir(e) == dir,
        ) == entries.filter(|e: EntryView| entry_dir(e) == dir),
        other == dir ==> entries.filter(|e: EntryView| entry_dir(e) != other).filter(
            |e: EntryView| entry_dir(e) == dir,
        ) == Seq::<EntryView>::empty(),
    decreases entries.len(),
{
    reveal(Seq::filter);
    let elsewhere = |e: EntryView| entry_dir(e) != other;
    let inside = |e: EntryView| entry_dir(e) == dir;
    if entries.len() > 0 {
        let front = entries.drop_last();
        let last = entries.last();
        lemma_filter_twice(front, dir, other);
        let kept = front.filter(elsewhere);
        assert(kept.push(last).drop_last() =~= kept);
    }
}

proof fn lemma_filter_push(entries: Seq<EntryView>, entry: EntryView, dir: DirView)
    ensures
        entries.push(entry).filter(|e: EntryView| entry_dir(e) == dir) == (if entry_dir(entry)
            == dir {
            entries.filter(|e: EntryView| entry_dir(e) == dir).push(entry)
        } else {
            entries.filter(|e: EntryView| entry_dir(e) == dir)
        }),
{
    reveal(Seq::filter);
    assert(entries.push(entry).drop_last() =~= entries);
}

/// One more change of names is in flight, and the process sees it.
proof fn lemma_directory_push(
    durable: Map<PathView, int>,
    pending: Seq<EntryView>,
    live: Map<PathView, int>,
    entry: EntryView,
    dir: DirView,
)
    requires
        entry_flat_in(entry, dir),
        agree_in(
            renamed_all(durable, pending.filter(|e: EntryView| entry_dir(e) == dir)),
            live,
            dir,
        ),
    ensures
        agree_in(
            renamed_all(durable, pending.push(entry).filter(|e: EntryView| entry_dir(e) == dir)),
            renamed(live, entry),
            dir,
        ),
{
    let own = pending.filter(|e: EntryView| entry_dir(e) == dir);
    lemma_filter_push(pending, entry, dir);
    assert(own.push(entry).drop_last() =~= own);
    lemma_agree_step(renamed_all(durable, own), live, entry, dir);
}

/// The names of a directory that are on the disk, with those changes in flight
/// that are in it, are the names that the process sees.
proof fn lemma_directory_names(ops: Seq<OpView>, dir: DirView)
    requires
        flat_in(ops, dir),
    ensures
        ({
            let d = disk_after(ops);
            &&& forall|i: int|
                0 <= i < d.pending_names.len() ==> entry_flat_in(#[trigger] d.pending_names[i], dir)
            &&& agree_in(
                renamed_all(
                    d.durable_names,
                    d.pending_names.filter(|e: EntryView| entry_dir(e) == dir),
                ),
                d.live,
                dir,
            )
        }),
    decreases ops.len(),
{
    if ops.len() == 0 {
        reveal(Seq::filter);
    } else {
        let front = ops.drop_last();
        let op = ops.last();
        assert forall|i: int| 0 <= i < front.len() implies match #[trigger] front[i] {
            OpView::Rename { from, to } => (parent_of(from) == dir) == (parent_of(to) == dir),
            _ => true,
        } by {
            assert(front[i] == ops[i]);
        }
        assert(ops[ops.len() - 1] == op);
        lemma_directory_names(front, dir);
        let d = disk_after(front);
        let e = disk_after(ops);
        match op {
            OpView::Create { path } => {
                let entry = EntryView::Link(path, d.inodes.len() as int);
                lemma_directory_push(d.durable_names, d.pending_names, d.live, entry, dir);
            },
            OpView::Rename { from, to } => {
                let entry = EntryView::Rename(from, to);
                lemma_directory_push(d.durable_names, d.pending_names, d.live, entry, dir);
            },
            OpView::Remove { path } => {
                let entry = EntryView::Unlink(path);
                lemma_directory_push(d.durable_names, d.pending_names, d.live, entry, dir);
            },
            OpView::SyncDir { dir: other } => {
                let here = |e: EntryView| entry_dir(e) == other;
                let elsewhere = |e: EntryView| entry_dir(e) != other;
                let inside = |e: EntryView| entry_dir(e) == dir;
                let own = d.pending_names.filter(inside);
                lemma_filter_from(d.pending_names, elsewhere);
                lemma_filter_from(d.pending_names, here);
                lemma_filter_from(d.pending_names, inside);
                lemma_filter_twice(d.pending_names, dir, other);
                assert forall|i: int| 0 <= i < e.pending_names.len() implies entry_flat_in(
                    #[trigger] e.pending_names[i],
                    dir,
                ) by {
                    assert(d.pending_names.contains(e.pending_names[i]));
                }
                if other != dir {
                    let done = d.pending_names.filter(here);
                    assert forall|i: int| 0 <= i < done.len() implies entry_flat_in(
                        #[trigger] done[i],
                        dir,
                    ) && entry_dir(done[i]) != dir by {
                        assert(here(done[i]));
                        assert(d.pending_names.contains(done[i]));
                    }
                    assert forall|i: int| 0 <= i < own.len() implies entry_flat_in(
                        #[trigger] own[i],
                        dir,
                    ) && entry_dir(own[i]) == dir by {
                        assert(inside(own[i]));
                        assert(d.pending_names.contains(own[i]));
                    }
                    lemma_agree_elsewhere(d.durable_names, done, dir);
                    lemma_agree_inside(e.durable_names, d.durable_names, own, dir);
                }
            },
            _ => {},
        }
    }
}

/// Once its directory has been synced, the name of a file is safe. Files may be
/// moved in other directories, and between them, but not into or out of this one.
pub proof fn law_sync_dir_makes_names_safe(history: Seq<OpView>, p: PathView)
    requires
        flat_in(history, parent_of(p)),
        disk_after(history).live.contains_key(p),
    ensures
        name_safe(disk_after(history.push(OpView::SyncDir { dir: parent_of(p) })), p),
{
    let dir = parent_of(p);
    let op = OpView::SyncDir { dir };
    let next = history.push(op);
    assert(next.drop_last() =~= history);
    let d = disk_after(history);
    let e = disk_after(next);
    lemma_directory_names(history, dir);
    assert(renamed_all(
        d.durable_names,
        d.pending_names.filter(|e: EntryView| entry_dir(e) == dir),
    ).contains_key(p));
    let elsewhere = |e: EntryView| entry_dir(e) != dir;
    lemma_filter_from(d.pending_names, elsewhere);
    assert forall|i: int| 0 <= i < e.pending_names.len() implies !touches(
        #[trigger] e.pending_names[i],
        p,
    ) by {
        assert(elsewhere(e.pending_names[i]));
        assert(d.pending_names.contains(e.pending_names[i]));
        let j = choose|j: int|
            0 <= j < d.pending_names.len() && d.pending_names[j] == e.pending_names[i];
        assert(entry_flat_in(d.pending_names[j], dir));
    }
}

/// A file of which nothing is in flight is left as the process sees it by every
/// crash, whatever was done before.
pub proof fn law_settled_file_is_left_alone(history: Seq<OpView>, p: PathView, policy: CrashPolicy)
    requires
        settled(disk_after(history), p),
    ensures
        live_file(history, p) is Some,
        crash_image(history, policy).contains_key(p),
        crash_image(history, policy)[p] == live_file(history, p)->Some_0,
{
    let d = disk_after(history);
    law_safe_name_survives(d, p, policy);
    assert(d.inodes[d.live[p]].pending =~= Seq::empty());
}

/// Once a file and its directory have been synced, in either order, every crash
/// leaves just what the process wrote. Files may be moved in other directories,
/// and between them, but not into or out of this one.
pub proof fn law_synced_file_is_exact(history: Seq<OpView>, p: PathView, policy: CrashPolicy)
    requires
        flat_in(history, parent_of(p)),
        live_file(history, p) is Some,
    ensures
        ({
            let bytes = live_file(history, p)->Some_0;
            let data = OpView::SyncData { path: p };
            let name = OpView::SyncDir { dir: parent_of(p) };
            let one = crash_image(history.push(data).push(name), policy);
            let two = crash_image(history.push(name).push(data), policy);
            &&& one.contains_key(p) && one[p] == bytes
            &&& two.contains_key(p) && two[p] == bytes
        }),
{
    let data = OpView::SyncData { path: p };
    let name = OpView::SyncDir { dir: parent_of(p) };
    let h1 = history.push(data);
    let h2 = history.push(name);
    assert(h1.drop_last() =~= history && h1.push(name).drop_last() =~= h1);
    assert(h2.drop_last() =~= history && h2.push(data).drop_last() =~= h2);
    law_names_are_ok(history);
    assert forall|i: int| 0 <= i < h1.len() implies match #[trigger] h1[i] {
        OpView::Rename { from, to } => (parent_of(from) == parent_of(p)) == (parent_of(to)
            == parent_of(p)),
        _ => true,
    } by {
        if i < history.len() {
            assert(h1[i] == history[i]);
        }
    }
    law_sync_dir_makes_names_safe(h1, p);
    law_sync_dir_makes_names_safe(history, p);
    law_sync_makes_contents_safe(h2, p);
    let id = disk_after(history).live[p];
    assert(disk_after(h1).inodes[id].pending.len() == 0);
    assert(changed_all(live_file(history, p)->Some_0, Seq::empty()) == live_file(
        history,
        p,
    )->Some_0);
    law_settled_file_is_left_alone(h1.push(name), p, policy);
    law_settled_file_is_left_alone(h2.push(data), p, policy);
}

/// The operation is about the name `p`: it makes it, moves it, puts something in
/// its place or removes it.
pub open spec fn names(op: OpView, p: PathView) -> bool {
    match op {
        OpView::Create { path } => path == p,
        OpView::Rename { from, to } => from == p || to == p,
        OpView::Remove { path } => path == p,
        _ => false,
    }
}

/// The operation changes the contents of the file `p`.
pub open spec fn changes(op: OpView, p: PathView) -> bool {
    match op {
        OpView::Truncate { path, len } => path == p,
        OpView::Write { path, offset, data } => path == p,
        _ => false,
    }
}

/// The operation makes the contents of the file `p` safe.
pub open spec fn syncs(op: OpView, p: PathView) -> bool {
    op == (OpView::SyncData { path: p }) || op == (OpView::SyncFile { path: p })
}

/// What a file of this name holds when its writes and truncations since its
/// creation are made in order.
pub open spec fn bytes_made(ops: Seq<OpView>, p: PathView) -> Seq<u8>
    decreases ops.len(),
{
    if ops.len() == 0 {
        Seq::empty()
    } else {
        let before = bytes_made(ops.drop_last(), p);
        match ops.last() {
            OpView::Create { path } => if path == p {
                Seq::empty()
            } else {
                before
            },
            OpView::Truncate { path, len } => if path == p {
                resized(before, len as int)
            } else {
                before
            },
            OpView::Write { path, offset, data } => if path == p {
                written(before, offset as int, data)
            } else {
                before
            },
            _ => before,
        }
    }
}

/// The file `p` is created by operation `c` and by no other, no other operation
/// is about its name, operation `d` behind `c` syncs its directory, and operation
/// `s` makes its contents safe behind every change of them. Where they are not
/// changed at all, `s` may be -1.
pub open spec fn synced_at(ops: Seq<OpView>, p: PathView, c: int, d: int, s: int) -> bool {
    &&& 0 <= c < d < ops.len()
    &&& -1 <= s < ops.len()
    &&& ops[c] == (OpView::Create { path: p })
    &&& ops[d] == (OpView::SyncDir { dir: parent_of(p) })
    &&& s >= 0 ==> syncs(ops[s], p)
    &&& forall|i: int| 0 <= i < ops.len() && i != c ==> !names(#[trigger] ops[i], p)
    &&& forall|i: int| s < i < ops.len() ==> !changes(#[trigger] ops[i], p)
}

/// The changes of names in flight that are about `p` link it to the file `id`.
pub(super) open spec fn only_linked(entries: Seq<EntryView>, p: PathView, id: int) -> bool {
    forall|i: int|
        0 <= i < entries.len() && touches(#[trigger] entries[i], p) ==> entries[i]
            == EntryView::Link(p, id)
}

/// A change of names in flight is about `p`.
pub(super) open spec fn some_touch(entries: Seq<EntryView>, p: PathView) -> bool {
    exists|i: int| 0 <= i < entries.len() && touches(#[trigger] entries[i], p)
}

pub(super) proof fn lemma_linked(names: Map<PathView, int>, entries: Seq<EntryView>, p: PathView, id: int)
    requires
        only_linked(entries, p, id),
        some_touch(entries, p) || (names.contains_key(p) && names[p] == id),
    ensures
        renamed_all(names, entries).contains_key(p),
        renamed_all(names, entries)[p] == id,
    decreases entries.len(),
{
    if entries.len() > 0 {
        let front = entries.drop_last();
        assert forall|i: int| 0 <= i < front.len() && touches(#[trigger] front[i], p) implies
        front[i] == EntryView::Link(p, id) by {
            assert(front[i] == entries[i]);
        }
        if !touches(entries.last(), p) {
            if some_touch(entries, p) {
                let i = choose|i: int| 0 <= i < entries.len() && touches(#[trigger] entries[i], p);
                assert(front[i] == entries[i]);
            }
            lemma_linked(names, front, p, id);
        }
    }
}

/// The name `p` is that of the live file, on the disk or in flight.
pub(super) open spec fn name_made(d: DiskView, p: PathView) -> bool {
    &&& d.live.contains_key(p)
    &&& only_linked(d.pending_names, p, d.live[p])
    &&& some_touch(d.pending_names, p) || (d.durable_names.contains_key(p) && d.durable_names[p]
        == d.live[p])
}

pub(super) proof fn lemma_name_made_step(d: DiskView, op: OpView, p: PathView)
    requires
        names_ok(d),
        name_made(d, p),
        !names(op, p),
    ensures
        name_made(disk_step(d, op), p),
        name_safe(d, p) ==> name_safe(disk_step(d, op), p),
        op == (OpView::SyncDir { dir: parent_of(p) }) ==> name_safe(disk_step(d, op), p),
{
    let e = disk_step(d, op);
    let id = d.live[p];
    let old_names = d.pending_names;
    match op {
        OpView::SyncDir { dir } => {
            let here = |e: EntryView| entry_dir(e) == dir;
            let elsewhere = |e: EntryView| entry_dir(e) != dir;
            let a = old_names.filter(here);
            let b = old_names.filter(elsewhere);
            lemma_filter_from(old_names, here);
            lemma_filter_from(old_names, elsewhere);
            assert forall|i: int| 0 <= i < a.len() && touches(#[trigger] a[i], p) implies a[i]
                == EntryView::Link(p, id) by {
                assert(old_names.contains(a[i]));
            }
            assert forall|i: int| 0 <= i < b.len() && touches(#[trigger] b[i], p) implies b[i]
                == EntryView::Link(p, id) by {
                assert(old_names.contains(b[i]));
            }
            if some_touch(old_names, p) {
                let i = choose|i: int|
                    0 <= i < old_names.len() && touches(#[trigger] old_names[i], p);
                if dir == parent_of(p) {
                    old_names.lemma_filter_contains(here, i);
                    let j = choose|j: int| 0 <= j < a.len() && a[j] == old_names[i];
                    assert(touches(a[j], p));
                } else {
                    old_names.lemma_filter_contains(elsewhere, i);
                    let j = choose|j: int| 0 <= j < b.len() && b[j] == old_names[i];
                    assert(touches(b[j], p));
                }
            }
            if dir == parent_of(p) {
                lemma_linked(d.durable_names, a, p, id);
                assert forall|i: int| 0 <= i < b.len() implies !touches(#[trigger] b[i], p) by {
                    if touches(b[i], p) {
                        old_names.lemma_filter_pred(elsewhere, i);
                    }
                }
            } else {
                assert forall|i: int| 0 <= i < a.len() implies !touches(#[trigger] a[i], p) by {
                    if touches(a[i], p) {
                        old_names.lemma_filter_pred(here, i);
                    }
                }
                lemma_names_untouched(d.durable_names, a, p);
                if name_safe(d, p) {
                    lemma_filtered_untouched(old_names, elsewhere, p);
                }
            }
        },
        _ => {
            if some_touch(old_names, p) {
                let i = choose|i: int|
                    0 <= i < old_names.len() && touches(#[trigger] old_names[i], p);
                assert(e.pending_names[i] == old_names[i]);
            }
        },
    }
}

proof fn lemma_pending_step(d: DiskView, op: OpView, p: PathView)
    requires
        names_ok(d),
        live_distinct(d),
        d.live.contains_key(p),
        !names(op, p),
        syncs(op, p) || (d.inodes[d.live[p]].pending.len() == 0 && !changes(op, p)),
    ensures
        disk_step(d, op).live.contains_key(p),
        disk_step(d, op).inodes[disk_step(d, op).live[p]].pending.len() == 0,
{
    let e = disk_step(d, op);
    assert(e.live[p] == d.live[p]);
}

/// The part of [`lemma_synced_so_far`] that needs no sync of the contents.
pub(super) proof fn lemma_synced_names(ops: Seq<OpView>, p: PathView, c: int, d: int, k: int)
    requires
        0 <= c < d < ops.len(),
        ops[c] == (OpView::Create { path: p }),
        ops[d] == (OpView::SyncDir { dir: parent_of(p) }),
        forall|i: int| 0 <= i < ops.len() && i != c ==> !names(#[trigger] ops[i], p),
        0 <= k <= ops.len(),
    ensures
        ({
            let disk = disk_after(ops.take(k));
            &&& k <= c ==> !some_touch(disk.pending_names, p)
            &&& k > c ==> {
                &&& name_made(disk, p)
                &&& live_file(ops.take(k), p) == Some(bytes_made(ops.take(k), p))
            }
            &&& k > d ==> name_safe(disk, p)
        }),
    decreases k,
{
    let now = ops.take(k);
    if k == 0 {
        assert(now =~= Seq::empty());
    } else {
        let before = ops.take(k - 1);
        let op = ops[k - 1];
        let old_disk = disk_after(before);
        let disk = disk_after(now);
        assert(now.drop_last() =~= before);
        assert(now.last() == op);
        lemma_synced_names(ops, p, c, d, k - 1);
        law_names_are_ok(before);
        law_process_sees_its_writes(old_disk, op);
        assert(live_files(disk) == live_step(live_files(old_disk), op));
        if k - 1 <= c {
            lemma_creation_step(ops, p, c, k);
        } else {
            assert(!names(ops[k - 1], p));
            lemma_name_made_step(old_disk, op, p);
            assert(live_files(old_disk).contains_key(p));
            assert(live_files(disk).contains_key(p));
            assert(live_files(disk)[p] == live_contents(disk.inodes[disk.live[p]]));
            assert(live_files(old_disk)[p] == live_contents(old_disk.inodes[old_disk.live[p]]));
        }
    }
}

/// Up to its creation no change of names in flight is about `p`, and then one is.
pub(super) proof fn lemma_creation_step(ops: Seq<OpView>, p: PathView, c: int, k: int)
    requires
        0 < k <= c + 1 <= ops.len(),
        ops[c] == (OpView::Create { path: p }),
        forall|i: int| 0 <= i < ops.len() && i != c ==> !names(#[trigger] ops[i], p),
        !some_touch(disk_after(ops.take(k - 1)).pending_names, p),
    ensures
        ({
            let disk = disk_after(ops.take(k));
            &&& k <= c ==> !some_touch(disk.pending_names, p)
            &&& k > c ==> {
                &&& name_made(disk, p)
                &&& some_touch(disk.pending_names, p)
                &&& live_file(ops.take(k), p) == Some(bytes_made(ops.take(k), p))
            }
        }),
{
    let now = ops.take(k);
    let before = ops.take(k - 1);
    let op = ops[k - 1];
    let old_disk = disk_after(before);
    let disk = disk_after(now);
    assert(now.drop_last() =~= before);
    assert(now.last() == op);
    if k - 1 == c {
        let link = EntryView::Link(p, old_disk.inodes.len() as int);
        let last = old_disk.pending_names.len() as int;
        assert(disk.pending_names[last] == link);
        assert(touches(disk.pending_names[last], p));
        assert forall|i: int|
            0 <= i < disk.pending_names.len() && touches(
                #[trigger] disk.pending_names[i],
                p,
            ) implies disk.pending_names[i] == link by {
            if i < last {
                assert(disk.pending_names[i] == old_disk.pending_names[i]);
            }
        }
        assert(live_contents(disk.inodes[disk.live[p]]) =~= Seq::<u8>::empty());
    } else {
        assert(!names(ops[k - 1], p));
        if some_touch(disk.pending_names, p) {
            let i = choose|i: int|
                0 <= i < disk.pending_names.len() && touches(
                    #[trigger] disk.pending_names[i],
                    p,
                );
            match op {
                OpView::SyncDir { dir } => {
                    lemma_filter_from(old_disk.pending_names, |e: EntryView| entry_dir(e) != dir);
                    assert(old_disk.pending_names.contains(disk.pending_names[i]));
                },
                _ => {
                    if i < old_disk.pending_names.len() {
                        assert(disk.pending_names[i] == old_disk.pending_names[i]);
                    }
                },
            }
        }
    }
}

/// What is known of the file `p` after the first `k` operations.
proof fn lemma_synced_so_far(ops: Seq<OpView>, p: PathView, c: int, d: int, s: int, k: int)
    requires
        synced_at(ops, p, c, d, s),
        0 <= k <= ops.len(),
    ensures
        ({
            let disk = disk_after(ops.take(k));
            &&& k <= c ==> !some_touch(disk.pending_names, p)
            &&& k > c ==> {
                &&& name_made(disk, p)
                &&& live_file(ops.take(k), p) == Some(bytes_made(ops.take(k), p))
            }
            &&& k > d ==> name_safe(disk, p)
            &&& k > c && k > s ==> disk.inodes[disk.live[p]].pending.len() == 0
        }),
    decreases k,
{
    lemma_synced_names(ops, p, c, d, k);
    if k > 0 {
        let now = ops.take(k);
        let before = ops.take(k - 1);
        let op = ops[k - 1];
        assert(now.drop_last() =~= before);
        assert(now.last() == op);
        lemma_synced_so_far(ops, p, c, d, s, k - 1);
        law_names_are_ok(before);
        if k - 1 > c && k > s {
            assert(!names(ops[k - 1], p));
            lemma_pending_step(disk_after(before), op, p);
        }
    }
}

/// What is synced, name and contents, survives every crash. A file is created
/// once, its name is left alone from then on, its directory is synced some time
/// later, and its contents are synced some time behind their last change. Then,
/// whatever else is done in between and with other files, every crash leaves all
/// its writes and truncations, made in order.
pub proof fn law_what_is_synced_survives(
    ops: Seq<OpView>,
    p: PathView,
    c: int,
    d: int,
    s: int,
    policy: CrashPolicy,
)
    requires
        synced_at(ops, p, c, d, s),
    ensures
        live_file(ops, p) == Some(bytes_made(ops, p)),
        crash_image(ops, policy).contains_key(p),
        crash_image(ops, policy)[p] == bytes_made(ops, p),
{
    let n = ops.len() as int;
    assert(ops.take(n) =~= ops);
    lemma_synced_so_far(ops, p, c, d, s, n);
    law_settled_file_is_left_alone(ops, p, policy);
}

/// A file is published all at once. At every point of the publication, and
/// under every policy, a crash leaves under the new name what it would have
/// left before, or the whole new file. After the publication it leaves the
/// whole new file.
pub proof fn law_publication_is_all_or_nothing(
    history: Seq<OpView>,
    from: PathView,
    to: PathView,
    k: int,
    policy: CrashPolicy,
)
    requires
        flat_in(history, parent_of(to)),
        from != to,
        parent_of(from) == parent_of(to),
        live_file(history, from) is Some,
        0 <= k <= 3,
    ensures
        ({
            let bytes = live_file(history, from)->Some_0;
            let before = crash_image(history, policy);
            let after = crash_image(history + publish_ops(from, to).take(k), policy);
            &&& after.contains_key(to) ==> after[to] == bytes || (before.contains_key(to)
                && after[to] == before[to])
            &&& before.contains_key(to) ==> after.contains_key(to)
            &&& k == 3 ==> after.contains_key(to) && after[to] == bytes
        }),
{
    let ops = publish_ops(from, to);
    let dir = parent_of(to);
    let bytes = live_file(history, from)->Some_0;
    let d0 = disk_after(history);
    let h1 = history.push(ops[0]);
    let h2 = h1.push(ops[1]);
    let h3 = h2.push(ops[2]);
    assert(h1.drop_last() =~= history && h2.drop_last() =~= h1 && h3.drop_last() =~= h2);
    assert(history + ops.take(0) =~= history);
    assert(history + ops.take(1) =~= h1);
    assert(history + ops.take(2) =~= h2);
    assert(history + ops.take(3) =~= h3);
    law_names_are_ok(history);
    assert forall|i: int| 0 <= i < h2.len() implies match #[trigger] h2[i] {
        OpView::Rename { from, to } => (parent_of(from) == dir) == (parent_of(to) == dir),
        _ => true,
    } by {
        if i < history.len() {
            assert(h2[i] == history[i]);
        }
    }
    let d1 = disk_after(h1);
    let d2 = disk_after(h2);
    let d3 = disk_after(h3);
    let id = d0.live[from];
    assert(d1.inodes[id] == (InodeView { durable: bytes, pending: Seq::empty() }));
    law_names_are_ok(h1);
    assert(d2.inodes == d1.inodes);
    lemma_renamed_all_ok(d0.durable_names, d0.pending_names, d0.inodes.len() as int);
    let names0 = surviving_names(d0, policy);
    let names1 = surviving_names(d1, policy);
    assert(names0 == names1);
    assert(d1.live == d0.live);
    assert(d2.live.contains_key(to) && d2.live[to] == id);
    law_sync_dir_makes_names_safe(h2, to);
    assert(d3.inodes == d1.inodes);
    lemma_names_untouched(d3.durable_names, d3.pending_names, to);
    if k == 3 {
        assert(surviving_names(d3, policy)[to] == id);
    }
    if k == 2 {
        let names2 = surviving_names(d2, policy);
        if policy.keeps_dir_ops_spec() {
            lemma_directory_names(h2, dir);
            lemma_others_do_not_matter(d2.durable_names, d2.pending_names, dir);
            assert(renamed_all(
                d2.durable_names,
                d2.pending_names.filter(|e: EntryView| entry_dir(e) == dir),
            ).contains_key(to));
            assert(names2.contains_key(to) && names2[to] == id);
        } else {
            assert(names2 == names0);
        }
    }
}

/// Changes of names in other directories leave those of this one alone.
proof fn lemma_others_do_not_matter(
    names: Map<PathView, int>,
    entries: Seq<EntryView>,
    dir: DirView,
)
    requires
        forall|i: int| 0 <= i < entries.len() ==> entry_flat_in(#[trigger] entries[i], dir),
    ensures
        agree_in(
            renamed_all(names, entries),
            renamed_all(names, entries.filter(|e: EntryView| entry_dir(e) == dir)),
            dir,
        ),
    decreases entries.len(),
{
    if entries.len() == 0 {
        reveal(Seq::filter);
    } else {
        let front = entries.drop_last();
        let last = entries.last();
        let own = front.filter(|e: EntryView| entry_dir(e) == dir);
        assert forall|i: int| 0 <= i < front.len() implies entry_flat_in(#[trigger] front[i], dir) by {
            assert(front[i] == entries[i]);
        }
        assert(entries[entries.len() - 1] == last);
        lemma_others_do_not_matter(names, front, dir);
        assert(front.push(last) =~= entries);
        lemma_filter_push(front, last, dir);
        assert(own.push(last).drop_last() =~= own);
        lemma_agree_step(renamed_all(names, front), renamed_all(names, own), last, dir);
    }
}

} // verus!
