//! What each kind of crash leaves of a file, byte by byte, and what the running
//! process sees.

use vstd::prelude::*;

use super::laws::{
    bytes_made, changes, law_lucky_crash_loses_nothing, lemma_synced_names, names, syncs, touches,
};
use super::replay::lemma_filter_from;
use super::{
    changed_all, contents_of, crash_image, disk_after, disk_step, entry_dir, fared_all, last_write,
    law_names_are_ok, law_process_sees_its_writes, live_contents, live_distinct, live_files,
    live_step, names_ok, renamed_all, resized, written, CrashPolicy, DiskView, EntryView, InodeView,
    OpView, PendingView,
};
use crate::durability::live_file;
use crate::path::{parent_of, PathView};

verus! {

/// Writing puts the bytes where they go, leaves the others, and fills a gap with
/// zeros. The file becomes as long as the write reaches, and never shorter.
pub proof fn law_write_replaces_bytes(s: Seq<u8>, offset: int, data: Seq<u8>, i: int)
    requires
        0 <= offset,
    ensures
        ({
            let t = written(s, offset, data);
            &&& t.len() == (if s.len() < offset + data.len() {
                (offset + data.len()) as nat
            } else {
                s.len()
            })
            &&& offset <= i < offset + data.len() ==> t[i] == data[i - offset]
            &&& 0 <= i < s.len() && !(offset <= i < offset + data.len()) ==> t[i] == s[i]
            &&& s.len() <= i < offset ==> t[i] == 0
        }),
{
}

/// A new length cuts a file or fills it up with zeros.
pub proof fn law_resize_keeps_the_front(s: Seq<u8>, n: int, i: int)
    requires
        0 <= n,
    ensures
        resized(s, n).len() == n,
        0 <= i < n && i < s.len() ==> resized(s, n)[i] == s[i],
        s.len() <= i < n ==> resized(s, n)[i] == 0,
{
}

proof fn lemma_nothing(s: Seq<u8>, pending: Seq<PendingView>, last: int)
    ensures
        fared_all(s, pending, last, CrashPolicy::Nothing) == s,
    decreases pending.len(),
{
    if pending.len() > 0 {
        lemma_nothing(s, pending.drop_last(), last);
    }
}

proof fn lemma_everything(s: Seq<u8>, pending: Seq<PendingView>, last: int, policy: CrashPolicy)
    requires
        policy is Everything || policy is NoDirOps,
    ensures
        fared_all(s, pending, last, policy) == changed_all(s, pending),
    decreases pending.len(),
{
    if pending.len() > 0 {
        lemma_everything(s, pending.drop_last(), last, policy);
    }
}

/// If nothing in flight survives, a crash leaves of a file just what was safe,
/// whatever was in flight. If everything had landed, or all but changes of names,
/// it leaves all changes, made in order.
pub proof fn law_all_or_none_of_the_changes(inode: InodeView)
    ensures
        contents_of(inode, CrashPolicy::Nothing) == inode.durable,
        contents_of(inode, CrashPolicy::Everything) == changed_all(inode.durable, inode.pending),
        contents_of(inode, CrashPolicy::NoDirOps) == changed_all(inode.durable, inode.pending),
{
    let last = last_write(inode.pending);
    lemma_nothing(inode.durable, inode.pending, last);
    lemma_everything(inode.durable, inode.pending, last, CrashPolicy::Everything);
    lemma_everything(inode.durable, inode.pending, last, CrashPolicy::NoDirOps);
}

/// These are new lengths, and no writes.
pub open spec fn only_lengths(pending: Seq<PendingView>) -> bool {
    forall|i: int| 0 <= i < pending.len() ==> (#[trigger] pending[i]) is Truncate
}

proof fn lemma_last_write(a: Seq<PendingView>, w: PendingView, b: Seq<PendingView>)
    requires
        w is Write,
        only_lengths(b),
    ensures
        last_write(a.push(w) + b) == a.len(),
    decreases b.len(),
{
    let all = a.push(w) + b;
    if b.len() == 0 {
        assert(all =~= a.push(w));
    } else {
        let front = b.drop_last();
        assert(all.drop_last() =~= a.push(w) + front);
        assert(all.last() == b[b.len() - 1]);
        assert forall|i: int| 0 <= i < front.len() implies (#[trigger] front[i]) is Truncate by {
            assert(front[i] == b[i]);
        }
        lemma_last_write(a, w, front);
    }
}

proof fn lemma_no_write(b: Seq<PendingView>)
    requires
        only_lengths(b),
    ensures
        last_write(b) == -1,
    decreases b.len(),
{
    if b.len() > 0 {
        let front = b.drop_last();
        assert(b[b.len() - 1] is Truncate);
        assert forall|i: int| 0 <= i < front.len() implies (#[trigger] front[i]) is Truncate by {
            assert(front[i] == b[i]);
        }
        lemma_no_write(front);
    }
}

proof fn lemma_lengths_behind(
    s: Seq<u8>,
    x: Seq<PendingView>,
    b: Seq<PendingView>,
    last: int,
    policy: CrashPolicy,
)
    requires
        only_lengths(b),
        last < x.len(),
        !(policy is Nothing),
    ensures
        fared_all(s, x + b, last, policy) == changed_all(fared_all(s, x, last, policy), b),
    decreases b.len(),
{
    let all = x + b;
    if b.len() == 0 {
        assert(all =~= x);
    } else {
        let front = b.drop_last();
        assert(all.drop_last() =~= x + front);
        assert(all.last() == b[b.len() - 1]);
        assert forall|i: int| 0 <= i < front.len() implies (#[trigger] front[i]) is Truncate by {
            assert(front[i] == b[i]);
        }
        lemma_lengths_behind(s, x, front, last, policy);
    }
}

proof fn lemma_before_the_last(
    s: Seq<u8>,
    a: Seq<PendingView>,
    last: int,
    policy: CrashPolicy,
)
    requires
        last >= a.len(),
    ensures
        policy is TornTail || policy is HoleyTail ==> fared_all(s, a, last, policy) == changed_all(
            s,
            a,
        ),
        policy is ReorderedTail ==> fared_all(s, a, last, policy) == changed_all(
            s,
            a.filter(|c: PendingView| c is Truncate),
        ),
    decreases a.len(),
{
    reveal(Seq::filter);
    if a.len() > 0 {
        let front = a.drop_last();
        lemma_before_the_last(s, front, last, policy);
        let cuts = |c: PendingView| c is Truncate;
        let kept = front.filter(cuts);
        if a.last() is Truncate {
            assert(a.filter(cuts) =~= kept.push(a.last()));
            assert(kept.push(a.last()).drop_last() =~= kept);
        }
    }
}

/// The last write of a file is the one that a crash may have torn, holed or let
/// past the others; new lengths behind it land. `a` are the changes before it,
/// and `b` the new lengths behind it.
///
/// A torn write lands in part: whole sectors from its start, about half of it. A
/// holed write lands with zeros in every other sector. If writes land out of
/// order, the earlier ones are lost and their lengths are not.
pub proof fn law_last_write_is_at_risk(
    durable: Seq<u8>,
    a: Seq<PendingView>,
    offset: int,
    data: Seq<u8>,
    b: Seq<PendingView>,
    landed: int,
    holed: Seq<u8>,
)
    requires
        only_lengths(b),
        landed % 512 == 0,
        0 <= landed <= data.len() / 2 < landed + 512,
        holed.len() == data.len(),
        forall|i: int|
            0 <= i < data.len() ==> #[trigger] holed[i] == (if i / 512 % 2 == 0 {
                data[i]
            } else {
                0
            }),
    ensures
        ({
            let w = PendingView::Write { offset, data };
            let inode = InodeView { durable, pending: a.push(w) + b };
            let lengths = a.filter(|c: PendingView| c is Truncate);
            &&& contents_of(inode, CrashPolicy::TornTail) == changed_all(
                written(changed_all(durable, a), offset, data.take(landed)),
                b,
            )
            &&& contents_of(inode, CrashPolicy::HoleyTail) == changed_all(
                written(changed_all(durable, a), offset, holed),
                b,
            )
            &&& contents_of(inode, CrashPolicy::ReorderedTail) == changed_all(
                written(changed_all(durable, lengths), offset, data),
                b,
            )
        }),
{
    let w = PendingView::Write { offset, data };
    let x = a.push(w);
    let last = a.len() as int;
    lemma_last_write(a, w, b);
    assert(x.drop_last() =~= a);
    lemma_lengths_behind(durable, x, b, last, CrashPolicy::TornTail);
    lemma_lengths_behind(durable, x, b, last, CrashPolicy::HoleyTail);
    lemma_lengths_behind(durable, x, b, last, CrashPolicy::ReorderedTail);
    lemma_before_the_last(durable, a, last, CrashPolicy::TornTail);
    lemma_before_the_last(durable, a, last, CrashPolicy::HoleyTail);
    lemma_before_the_last(durable, a, last, CrashPolicy::ReorderedTail);
    assert(super::torn_len(data.len() as int) == landed);
    assert(super::holed(data) =~= holed);
}

/// New lengths that are in flight alone land in every crash but one in which
/// nothing does.
pub proof fn law_lengths_land(durable: Seq<u8>, b: Seq<PendingView>, policy: CrashPolicy)
    requires
        only_lengths(b),
        !(policy is Nothing),
    ensures
        contents_of(InodeView { durable, pending: b }, policy) == changed_all(durable, b),
{
    lemma_no_write(b);
    let none = Seq::<PendingView>::empty();
    lemma_lengths_behind(durable, none, b, -1, policy);
    assert(none + b =~= b);
}

/// Changes are made one after the other.
pub proof fn law_changes_are_made_in_order(s: Seq<u8>, a: Seq<PendingView>, c: PendingView)
    ensures
        changed_all(s, Seq::empty()) == s,
        changed_all(s, a.push(c)) == (match c {
            PendingView::Write { offset, data } => written(changed_all(s, a), offset, data),
            PendingView::Truncate(n) => resized(changed_all(s, a), n),
        }),
{
    assert(a.push(c).drop_last() =~= a);
}

/// What the running process sees after an operation. A new file is empty; a write
/// and a new length change a file that exists; a new name takes the file along, and
/// what had that name before is gone; a removed name is gone; and no operation
/// does anything to other names.
pub proof fn law_process_sees_each_operation(history: Seq<OpView>, op: OpView, q: PathView)
    ensures
        ({
            let before = live_file(history, q);
            let after = live_file(history.push(op), q);
            match op {
                OpView::Create { path } => after == (if q == path {
                    Some(Seq::empty())
                } else {
                    before
                }),
                OpView::Write { path, offset, data } => after == (if q == path && before is Some {
                    Some(written(before->Some_0, offset as int, data))
                } else {
                    before
                }),
                OpView::Truncate { path, len } => after == (if q == path && before is Some {
                    Some(resized(before->Some_0, len as int))
                } else {
                    before
                }),
                OpView::Rename { from, to } => after == (if live_file(history, from) is None {
                    before
                } else if q == to {
                    live_file(history, from)
                } else if q == from {
                    None
                } else {
                    before
                }),
                OpView::Remove { path } => after == (if q == path {
                    None
                } else {
                    before
                }),
                _ => after == before,
            }
        }),
{
    let d = disk_after(history);
    let now = history.push(op);
    assert(now.drop_last() =~= history);
    law_names_are_ok(history);
    law_process_sees_its_writes(d, op);
    let e = disk_after(now);
    assert(e == disk_step(d, op));
    let old_files = live_files(d);
    let files = live_files(e);
    assert(files == live_step(old_files, op));
    assert(files.contains_key(q) == e.live.contains_key(q));
    assert(old_files.contains_key(q) == d.live.contains_key(q));
    match op {
        OpView::Rename { from, to } => {
            assert(old_files.contains_key(from) == d.live.contains_key(from));
            if d.live.contains_key(from) {
                assert(old_files[from] == live_contents(d.inodes[d.live[from]]));
            }
            if e.live.contains_key(q) {
                assert(files[q] == live_contents(e.inodes[e.live[q]]));
            }
            if d.live.contains_key(q) {
                assert(old_files[q] == live_contents(d.inodes[d.live[q]]));
            }
        },
        _ => {},
    }
}

/// Nobody has done anything to begin with.
pub proof fn law_new_disk_is_empty(q: PathView, policy: CrashPolicy)
    ensures
        live_file(Seq::empty(), q) is None,
        !crash_image(Seq::empty(), policy).contains_key(q),
{
    assert(disk_after(Seq::empty()).pending_names =~= Seq::empty());
    assert(renamed_all(Map::empty(), Seq::empty()) == Map::<PathView, int>::empty());
}

/// What a crash leaves of a file whose name is safe and of which changes are in
/// flight. Operation `c` creates it and no other is about its name; operation `d`
/// behind it syncs its directory; operation `s` behind `c` is the last that syncs
/// its contents. Then a crash in which nothing in flight survives leaves the file
/// as it was when it was synced, and one in which everything had landed leaves it
/// as it is.
pub proof fn law_unsynced_changes_are_lost(
    ops: Seq<OpView>,
    p: PathView,
    c: int,
    d: int,
    s: int,
)
    requires
        0 <= c < d < ops.len(),
        c < s < ops.len(),
        ops[c] == (OpView::Create { path: p }),
        ops[d] == (OpView::SyncDir { dir: parent_of(p) }),
        syncs(ops[s], p),
        forall|i: int| 0 <= i < ops.len() && i != c ==> !names(#[trigger] ops[i], p),
        forall|i: int| s < i < ops.len() ==> !syncs(#[trigger] ops[i], p),
    ensures
        crash_image(ops, CrashPolicy::Nothing).contains_key(p),
        crash_image(ops, CrashPolicy::Nothing)[p] == bytes_made(ops.take(s + 1), p),
        crash_image(ops, CrashPolicy::Everything).contains_key(p),
        crash_image(ops, CrashPolicy::Everything)[p] == bytes_made(ops, p),
        crash_image(ops, CrashPolicy::NoDirOps).contains_key(p),
        crash_image(ops, CrashPolicy::NoDirOps)[p] == bytes_made(ops, p),
{
    let n = ops.len() as int;
    assert(ops.take(n) =~= ops);
    lemma_synced_names(ops, p, c, d, n);
    lemma_safe_since(ops, p, c, d, s, n);
    let disk = disk_after(ops);
    super::laws::law_safe_name_survives(disk, p, CrashPolicy::Nothing);
    super::laws::law_safe_name_survives(disk, p, CrashPolicy::Everything);
    super::laws::law_safe_name_survives(disk, p, CrashPolicy::NoDirOps);
    law_all_or_none_of_the_changes(disk.inodes[disk.live[p]]);
}

proof fn lemma_durable_kept(d: DiskView, op: OpView, p: PathView)
    requires
        names_ok(d),
        live_distinct(d),
        d.live.contains_key(p),
        !names(op, p),
    ensures
        ({
            let e = disk_step(d, op);
            &&& e.live.contains_key(p)
            &&& !syncs(op, p) ==> e.inodes[e.live[p]].durable == d.inodes[d.live[p]].durable
            &&& syncs(op, p) ==> e.inodes[e.live[p]].durable == live_contents(
                d.inodes[d.live[p]],
            )
        }),
{
    let e = disk_step(d, op);
    assert(e.live[p] == d.live[p]);
}

/// After the first `k` operations, what is safe of the file is what it held at
/// its last sync.
proof fn lemma_safe_since(ops: Seq<OpView>, p: PathView, c: int, d: int, s: int, k: int)
    requires
        0 <= c < d < ops.len(),
        c < s < k <= ops.len(),
        ops[c] == (OpView::Create { path: p }),
        ops[d] == (OpView::SyncDir { dir: parent_of(p) }),
        syncs(ops[s], p),
        forall|i: int| 0 <= i < ops.len() && i != c ==> !names(#[trigger] ops[i], p),
        forall|i: int| s < i < ops.len() ==> !syncs(#[trigger] ops[i], p),
    ensures
        disk_after(ops.take(k)).live.contains_key(p),
        disk_after(ops.take(k)).inodes[disk_after(ops.take(k)).live[p]].durable == bytes_made(
            ops.take(s + 1),
            p,
        ),
    decreases k,
{
    let before = ops.take(k - 1);
    let now = ops.take(k);
    let op = ops[k - 1];
    assert(now.drop_last() =~= before);
    assert(now.last() == op);
    law_names_are_ok(before);
    lemma_synced_names(ops, p, c, d, k - 1);
    assert(!names(ops[k - 1], p));
    lemma_durable_kept(disk_after(before), op, p);
    if k - 1 > s {
        lemma_safe_since(ops, p, c, d, s, k - 1);
        assert(!syncs(ops[k - 1], p));
    } else {
        assert(bytes_made(now, p) == bytes_made(before, p));
    }
}

/// The name of a file whose directory was not synced since its creation is lost in
/// a crash in which no changes of names survive, and there after any other.
/// Operation `c` creates the file, and no other is about its name.
pub proof fn law_unsynced_name_is_lost(ops: Seq<OpView>, p: PathView, c: int)
    requires
        0 <= c < ops.len(),
        ops[c] == (OpView::Create { path: p }),
        forall|i: int| 0 <= i < ops.len() && i != c ==> !names(#[trigger] ops[i], p),
        forall|i: int|
            c < i < ops.len() ==> #[trigger] ops[i] != (OpView::SyncDir { dir: parent_of(p) }),
    ensures
        !crash_image(ops, CrashPolicy::Nothing).contains_key(p),
        !crash_image(ops, CrashPolicy::NoDirOps).contains_key(p),
        crash_image(ops, CrashPolicy::Everything).contains_key(p),
        crash_image(ops, CrashPolicy::TornTail).contains_key(p),
        crash_image(ops, CrashPolicy::HoleyTail).contains_key(p),
        crash_image(ops, CrashPolicy::ReorderedTail).contains_key(p),
{
    let n = ops.len() as int;
    assert(ops.take(n) =~= ops);
    lemma_name_in_flight(ops, p, c, n);
    let d = disk_after(ops);
    super::laws::lemma_linked(d.durable_names, d.pending_names, p, d.live[p]);
}

proof fn lemma_untouched(map: Map<PathView, int>, entries: Seq<EntryView>, p: PathView)
    requires
        forall|i: int| 0 <= i < entries.len() ==> !touches(#[trigger] entries[i], p),
        !map.contains_key(p),
    ensures
        !renamed_all(map, entries).contains_key(p),
    decreases entries.len(),
{
    if entries.len() > 0 {
        let front = entries.drop_last();
        assert forall|i: int| 0 <= i < front.len() implies !touches(#[trigger] front[i], p) by {
            assert(front[i] == entries[i]);
        }
        lemma_untouched(map, front, p);
        assert(!touches(entries[entries.len() - 1], p));
    }
}

proof fn lemma_name_in_flight(ops: Seq<OpView>, p: PathView, c: int, k: int)
    requires
        0 <= c < ops.len(),
        ops[c] == (OpView::Create { path: p }),
        forall|i: int| 0 <= i < ops.len() && i != c ==> !names(#[trigger] ops[i], p),
        forall|i: int|
            c < i < ops.len() ==> #[trigger] ops[i] != (OpView::SyncDir { dir: parent_of(p) }),
        0 <= k <= ops.len(),
    ensures
        ({
            let d = disk_after(ops.take(k));
            &&& !d.durable_names.contains_key(p)
            &&& k <= c ==> !super::laws::some_touch(d.pending_names, p)
            &&& k > c ==> super::laws::name_made(d, p) && super::laws::some_touch(
                d.pending_names,
                p,
            )
        }),
    decreases k,
{
    let now = ops.take(k);
    if k == 0 {
        assert(now =~= Seq::empty());
    } else {
        let before = ops.take(k - 1);
        let op = ops[k - 1];
        let old_disk = disk_after(before);
        let disk = disk_after(now);
        assert(now.drop_last() =~= before);
        assert(now.last() == op);
        lemma_name_in_flight(ops, p, c, k - 1);
        law_names_are_ok(before);
        match op {
            OpView::SyncDir { dir } => {
                let here = |e: EntryView| entry_dir(e) == dir;
                let a = old_disk.pending_names.filter(here);
                lemma_filter_from(old_disk.pending_names, here);
                assert forall|i: int| 0 <= i < a.len() implies !touches(#[trigger] a[i], p) by {
                    assert(old_disk.pending_names.contains(a[i]));
                    if touches(a[i], p) {
                        assert(k - 1 > c);
                        old_disk.pending_names.lemma_filter_pred(here, i);
                        assert(ops[k - 1] != (OpView::SyncDir { dir: parent_of(p) }));
                    }
                }
                lemma_untouched(old_disk.durable_names, a, p);
            },
            _ => {},
        }
        if k - 1 > c {
            assert(!names(ops[k - 1], p));
            super::laws::lemma_name_made_step(old_disk, op, p);
        } else {
            super::laws::lemma_creation_step(ops, p, c, k);
        }
    }
}

/// The operation puts a file under the name `p`.
pub open spec fn brings(op: OpView, p: PathView) -> bool {
    match op {
        OpView::Create { path } => path == p,
        OpView::Rename { from, to } => to == p,
        _ => false,
    }
}

/// The change of names puts a file under the name `p`.
spec fn adds(entry: EntryView, p: PathView) -> bool {
    match entry {
        EntryView::Link(path, _) => path == p,
        EntryView::Rename(_, to) => to == p,
        EntryView::Unlink(_) => false,
    }
}

spec fn none_adds(entries: Seq<EntryView>, p: PathView) -> bool {
    forall|i: int| 0 <= i < entries.len() ==> !adds(#[trigger] entries[i], p)
}

/// The last change that is about `p` for good removes it.
spec fn clears(entries: Seq<EntryView>, p: PathView) -> bool
    decreases entries.len(),
{
    entries.len() > 0 && (entries.last() == EntryView::Unlink(p) || (!adds(entries.last(), p)
        && clears(entries.drop_last(), p)))
}

proof fn lemma_none_adds(map: Map<PathView, int>, entries: Seq<EntryView>, p: PathView)
    requires
        none_adds(entries, p),
        !map.contains_key(p),
    ensures
        !renamed_all(map, entries).contains_key(p),
    decreases entries.len(),
{
    if entries.len() > 0 {
        let front = entries.drop_last();
        assert(none_adds(front, p)) by {
            assert forall|i: int| 0 <= i < front.len() implies !adds(#[trigger] front[i], p) by {
                assert(front[i] == entries[i]);
            }
        }
        lemma_none_adds(map, front, p);
        assert(!adds(entries[entries.len() - 1], p));
    }
}

proof fn lemma_clears(map: Map<PathView, int>, entries: Seq<EntryView>, p: PathView)
    requires
        clears(entries, p),
    ensures
        !renamed_all(map, entries).contains_key(p),
    decreases entries.len(),
{
    if entries.last() != EntryView::Unlink(p) {
        lemma_clears(map, entries.drop_last(), p);
    }
}

proof fn lemma_filter_clears(
    entries: Seq<EntryView>,
    pred: spec_fn(EntryView) -> bool,
    p: PathView,
)
    requires
        clears(entries, p),
        pred(EntryView::Unlink(p)),
    ensures
        clears(entries.filter(pred), p),
    decreases entries.len(),
{
    reveal(Seq::filter);
    let front = entries.drop_last();
    if entries.last() == EntryView::Unlink(p) {
        assert(entries.filter(pred).last() == EntryView::Unlink(p));
    } else {
        lemma_filter_clears(front, pred, p);
        if pred(entries.last()) {
            assert(entries.filter(pred).drop_last() =~= front.filter(pred));
        }
    }
}

proof fn lemma_filter_none_adds(
    entries: Seq<EntryView>,
    pred: spec_fn(EntryView) -> bool,
    p: PathView,
)
    requires
        none_adds(entries, p),
    ensures
        none_adds(entries.filter(pred), p),
{
    lemma_filter_from(entries, pred);
    let kept = entries.filter(pred);
    assert forall|i: int| 0 <= i < kept.len() implies !adds(#[trigger] kept[i], p) by {
        assert(entries.contains(kept[i]));
    }
}

proof fn lemma_gone(ops: Seq<OpView>, p: PathView, r: int, d: int, k: int)
    requires
        0 <= r < d < ops.len(),
        ops[r] == (OpView::Remove { path: p }),
        ops[d] == (OpView::SyncDir { dir: parent_of(p) }),
        forall|i: int| r < i < ops.len() ==> !brings(#[trigger] ops[i], p),
        r < k <= ops.len(),
    ensures
        ({
            let disk = disk_after(ops.take(k));
            &&& !disk.live.contains_key(p)
            &&& k <= d ==> clears(disk.pending_names, p) || (none_adds(disk.pending_names, p)
                && !disk.durable_names.contains_key(p))
            &&& k > d ==> none_adds(disk.pending_names, p) && !disk.durable_names.contains_key(p)
        }),
    decreases k,
{
    let before = ops.take(k - 1);
    let now = ops.take(k);
    let op = ops[k - 1];
    let old_disk = disk_after(before);
    let disk = disk_after(now);
    assert(now.drop_last() =~= before);
    assert(now.last() == op);
    if k - 1 == r {
        assert(disk.pending_names.last() == EntryView::Unlink(p));
    } else {
        lemma_gone(ops, p, r, d, k - 1);
        assert(!brings(ops[k - 1], p));
        let old_names = old_disk.pending_names;
        match op {
            OpView::SyncDir { dir } => {
                let here = |e: EntryView| entry_dir(e) == dir;
                let elsewhere = |e: EntryView| entry_dir(e) != dir;
                let a = old_names.filter(here);
                let b = old_names.filter(elsewhere);
                if none_adds(old_names, p) && !old_disk.durable_names.contains_key(p) {
                    lemma_filter_none_adds(old_names, here, p);
                    lemma_filter_none_adds(old_names, elsewhere, p);
                    lemma_none_adds(old_disk.durable_names, a, p);
                } else if dir == parent_of(p) {
                    lemma_filter_clears(old_names, here, p);
                    lemma_clears(old_disk.durable_names, a, p);
                    assert forall|i: int| 0 <= i < b.len() implies !adds(#[trigger] b[i], p) by {
                        old_names.lemma_filter_pred(elsewhere, i);
                    }
                } else {
                    lemma_filter_clears(old_names, elsewhere, p);
                }
            },
            _ => {
                let names_now = disk.pending_names;
                if names_now.len() > old_names.len() {
                    assert(names_now.drop_last() =~= old_names);
                    assert(!adds(names_now.last(), p));
                    if none_adds(old_names, p) {
                        assert forall|i: int| 0 <= i < names_now.len() implies !adds(
                            #[trigger] names_now[i],
                            p,
                        ) by {
                            if i < old_names.len() {
                                assert(names_now[i] == old_names[i]);
                            }
                        }
                    }
                }
            },
        }
    }
}

/// A file that is removed stays away once its directory was synced, whatever was
/// done before. Operation `r` removes it, operation `d` behind it syncs its
/// directory, and no operation behind `r` brings a file of that name.
pub proof fn law_removed_file_stays_away(
    ops: Seq<OpView>,
    p: PathView,
    r: int,
    d: int,
    policy: CrashPolicy,
)
    requires
        0 <= r < d < ops.len(),
        ops[r] == (OpView::Remove { path: p }),
        ops[d] == (OpView::SyncDir { dir: parent_of(p) }),
        forall|i: int| r < i < ops.len() ==> !brings(#[trigger] ops[i], p),
    ensures
        live_file(ops, p) is None,
        !crash_image(ops, policy).contains_key(p),
{
    let n = ops.len() as int;
    assert(ops.take(n) =~= ops);
    lemma_gone(ops, p, r, d, n);
    let disk = disk_after(ops);
    lemma_none_adds(disk.durable_names, disk.pending_names, p);
}

/// The crashes that keep changes of names keep all of them: the files that are left
/// are those that the process saw. The other two leave the same files as each
/// other.
pub proof fn law_names_in_flight_share_one_fate(
    history: Seq<OpView>,
    path: PathView,
    policy: CrashPolicy,
)
    requires
        forall|i: int|
            0 <= i < history.len() ==> match #[trigger] history[i] {
                OpView::Rename { from, to } => parent_of(from) == parent_of(to),
                _ => true,
            },
    ensures
        !(policy is Nothing) && !(policy is NoDirOps) ==> (
        crash_image(history, policy).contains_key(path) <==> live_file(history, path) is Some),
        crash_image(history, CrashPolicy::Nothing).contains_key(path) <==> crash_image(
            history,
            CrashPolicy::NoDirOps,
        ).contains_key(path),
{
    law_lucky_crash_loses_nothing(history);
}

} // verus!
