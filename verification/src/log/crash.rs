//! What a crash leaves of records that were being appended.

use vstd::prelude::*;

use super::image::{
    image, infos, law_batches_add_up, law_cut_log_is_decided, law_written_records_scan_back,
    lemma_record_image_len, lemma_valid_len, record_image, valid_record, valid_records,
};
use super::scan::{scan_step, scanned};
use super::writer::{
    append_ops, batch_bufs, flattened, lemma_batch_flattened, lemma_name_stays_safe,
    lemma_total_is_flattened, lemma_write_ops_grow, lemma_write_ops_sum, pad_of,
};
use super::RecordInfo;
use crate::bytes::{u16_at, zeros};
use crate::durability::{live_file, path_in, total_len, write_ops, PathView};
use crate::messages::{
    checksum_ok, header_at, law_header_is_local, law_read_header_is_canonical, parsed_base,
};
use crate::sim::{
    changed_all, changed_holey, contents_of, crash_image, disk_after, fared_all, holed, last_write,
    law_names_are_ok, law_safe_name_survives, settled, torn_len, written, CrashPolicy, InodeView,
    OpView, PendingView,
};
use crate::page_rounded;

verus! {

/// The scan of `log` finds the first of `records`, as many as there are, and
/// nothing else.
pub open spec fn finds_first_of(log: Seq<u8>, records: Seq<Seq<u8>>) -> bool {
    exists|k: int|
        0 <= k <= records.len() && scanned(log, 0).records == infos(#[trigger] records.take(k), 0)
}

/// Holes in a record show: its fingerprint does not fit what is left of it.
pub open spec fn holes_show(record: Seq<u8>) -> bool {
    holed(record) == record || !checksum_ok(holed(record))
}

/// The change that writing the last of `bufs` makes, if the first goes to
/// `offset`.
spec fn write_of(offset: int, bufs: Seq<Seq<u8>>, i: int) -> PendingView {
    PendingView::Write { offset: offset + total_len(bufs.take(i)), data: bufs[i] }
}

/// The changes that writing `bufs` makes.
spec fn writes_of(offset: int, bufs: Seq<Seq<u8>>) -> Seq<PendingView> {
    Seq::new(bufs.len(), |i: int| write_of(offset, bufs, i))
}

/// None of the buffers is empty.
spec fn none_empty(bufs: Seq<Seq<u8>>) -> bool {
    forall|i: int| 0 <= i < bufs.len() ==> (#[trigger] bufs[i]).len() > 0
}

proof fn lemma_single(path: PathView, offset: int, buf: Seq<u8>)
    requires
        buf.len() > 0,
    ensures
        write_ops(path, offset, seq![buf]) == seq![
            OpView::Write { path, offset: offset as u64, data: buf },
        ],
        total_len(seq![buf]) == buf.len(),
        flattened(seq![buf]) == buf,
{
    let one = seq![buf];
    let none = Seq::<Seq<u8>>::empty();
    assert(one.skip(1) =~= none);
    assert(write_ops(path, offset + buf.len(), none) == Seq::<OpView>::empty());
    assert(total_len(none) == 0);
    assert(flattened(none) == Seq::<u8>::empty());
    assert(write_ops(path, offset, one) =~= seq![
        OpView::Write { path, offset: offset as u64, data: buf },
    ]);
    assert(flattened(one) =~= buf);
}

/// Each buffer is one write.
proof fn lemma_writes_taken(path: PathView, offset: int, bufs: Seq<Seq<u8>>, k: int)
    requires
        none_empty(bufs),
        0 <= k <= bufs.len(),
    ensures
        write_ops(path, offset, bufs).len() == bufs.len(),
        write_ops(path, offset, bufs).take(k) == write_ops(path, offset, bufs.take(k)),
    decreases bufs.len(),
{
    if bufs.len() == 0 {
        assert(bufs.take(k) =~= bufs);
        assert(write_ops(path, offset, bufs).take(k) =~= write_ops(path, offset, bufs));
    } else {
        let buf = bufs[0];
        let rest = bufs.skip(1);
        assert forall|i: int| 0 <= i < rest.len() implies (#[trigger] rest[i]).len() > 0 by {
            assert(rest[i] == bufs[i + 1]);
        }
        if k == 0 {
            lemma_writes_taken(path, offset + buf.len(), rest, 0);
            assert(write_ops(path, offset, bufs).take(0) =~= Seq::empty());
            assert(bufs.take(0) =~= Seq::empty());
        } else {
            lemma_writes_taken(path, offset + buf.len(), rest, k - 1);
            assert(bufs.take(k).skip(1) =~= rest.take(k - 1));
            assert(write_ops(path, offset, bufs).take(k) =~= write_ops(
                path,
                offset,
                bufs.take(k),
            ));
        }
    }
}

proof fn lemma_flattened_sum(a: Seq<Seq<u8>>, b: Seq<Seq<u8>>)
    ensures
        flattened(a + b) == flattened(a) + flattened(b),
    decreases a.len(),
{
    if a.len() == 0 {
        assert(a + b =~= b);
        assert(flattened(a) + flattened(b) =~= flattened(b));
    } else {
        assert((a + b).skip(1) =~= a.skip(1) + b);
        lemma_flattened_sum(a.skip(1), b);
        assert(flattened(a + b) =~= flattened(a) + flattened(b));
    }
}

/// What is in flight after some buffers were written.
proof fn lemma_in_flight(h: Seq<OpView>, path: PathView, offset: int, bufs: Seq<Seq<u8>>)
    requires
        settled(disk_after(h), path),
        none_empty(bufs),
        0 <= offset,
        offset + total_len(bufs) <= u64::MAX,
    ensures
        ({
            let d = disk_after(h);
            let e = disk_after(h + write_ops(path, offset, bufs));
            &&& e.live == d.live
            &&& e.inodes[e.live[path]] == (InodeView {
                durable: d.inodes[d.live[path]].durable,
                pending: writes_of(offset, bufs),
            })
        }),
    decreases bufs.len(),
{
    let d = disk_after(h);
    law_names_are_ok(h);
    if bufs.len() == 0 {
        assert(h + write_ops(path, offset, bufs) =~= h);
        assert(d.inodes[d.live[path]].pending =~= writes_of(offset, bufs));
    } else {
        let n = bufs.len() - 1;
        let front = bufs.drop_last();
        let last = bufs.last();
        let one = seq![last];
        assert(last == bufs[n]);
        assert forall|i: int| 0 <= i < front.len() implies (#[trigger] front[i]).len() > 0 by {
            assert(front[i] == bufs[i]);
        }
        assert(bufs =~= front + one);
        lemma_write_ops_sum(path, offset, front, one);
        lemma_single(path, offset + total_len(front), last);
        lemma_in_flight(h, path, offset, front);
        let mid = h + write_ops(path, offset, front);
        let at = offset + total_len(front);
        let op = OpView::Write { path, offset: at as u64, data: last };
        let all = h + write_ops(path, offset, bufs);
        assert(all =~= mid.push(op));
        assert(all.drop_last() =~= mid);
        law_names_are_ok(mid);
        assert(writes_of(offset, bufs) =~= writes_of(offset, front).push(
            PendingView::Write { offset: at, data: last },
        )) by {
            assert(bufs.take(n) =~= front);
            assert forall|i: int| 0 <= i < n implies write_of(offset, bufs, i) == #[trigger]
                write_of(offset, front, i) by {
                assert(bufs.take(i) =~= front.take(i));
            }
        }
    }
}

/// What buffers that were written behind the end of a file make of it.
proof fn lemma_landed(s: Seq<u8>, bufs: Seq<Seq<u8>>)
    ensures
        changed_all(s, writes_of(s.len() as int, bufs)) == s + flattened(bufs),
        total_len(bufs) == flattened(bufs).len(),
    decreases bufs.len(),
{
    let offset = s.len() as int;
    lemma_total_is_flattened(bufs);
    if bufs.len() == 0 {
        assert(s + flattened(bufs) =~= s);
    } else {
        let n = bufs.len() - 1;
        let front = bufs.drop_last();
        let last = bufs.last();
        assert(bufs =~= front + seq![last]);
        lemma_landed(s, front);
        lemma_flattened_sum(front, seq![last]);
        assert(seq![last].skip(1) =~= Seq::empty());
        assert(flattened(seq![last]) =~= last) by {
            assert(flattened(Seq::<Seq<u8>>::empty()) == Seq::<u8>::empty());
        }
        let all = writes_of(offset, bufs);
        assert(bufs.take(n) =~= front);
        assert(all.drop_last() =~= writes_of(offset, front)) by {
            assert forall|i: int| 0 <= i < n implies write_of(offset, bufs, i) == #[trigger]
                write_of(offset, front, i) by {
                assert(bufs.take(i) =~= front.take(i));
            }
        }
        assert(all.last() == write_of(offset, bufs, n));
        assert(written(s + flattened(front), offset + total_len(front), last) =~= s + flattened(
            bufs,
        ));
    }
}

/// Buffer `m` of a batch is record `j`, and whole records come before it.
spec fn is_record(records: Seq<Seq<u8>>, bufs: Seq<Seq<u8>>, m: int, j: int) -> bool {
    &&& 0 <= j < records.len()
    &&& bufs[m] == records[j]
    &&& total_len(bufs.take(m)) == image(records.take(j)).len()
}

/// Buffer `m` of a batch is the pad of record `j`.
spec fn is_pad(records: Seq<Seq<u8>>, bufs: Seq<Seq<u8>>, m: int, j: int) -> bool {
    &&& 0 <= j < records.len()
    &&& bufs[m] == pad_of(records[j])
    &&& total_len(bufs.take(m)) == image(records.take(j)).len() + records[j].len()
}

/// Buffer `m` of a batch comes from record `j`.
spec fn comes_from(records: Seq<Seq<u8>>, bufs: Seq<Seq<u8>>, m: int, j: int) -> bool {
    is_record(records, bufs, m, j) || is_pad(records, bufs, m, j)
}

/// The buffers of one record.
spec fn own_bufs(record: Seq<u8>) -> Seq<Seq<u8>> {
    if pad_of(record).len() > 0 {
        seq![record, pad_of(record)]
    } else {
        seq![record]
    }
}

proof fn lemma_own_bufs(record: Seq<u8>, more: Seq<Seq<u8>>, m: int)
    requires
        valid_record(record),
        own_bufs(record).len() <= m <= own_bufs(record).len() + more.len(),
    ensures
        total_len((own_bufs(record) + more).take(m)) == record_image(record).len() + total_len(
            more.take(m - own_bufs(record).len()),
        ),
        total_len((own_bufs(record) + more).take(1)) == record.len(),
{
    let own = own_bufs(record);
    let bufs = own + more;
    let pad = pad_of(record);
    let none = Seq::<Seq<u8>>::empty();
    let nowhere = path_in(Seq::empty(), Seq::empty());
    lemma_valid_len(record);
    lemma_record_image_len(record);
    assert(total_len(none) == 0);
    assert(bufs.take(1) =~= seq![record]);
    assert(seq![record].skip(1) =~= none);
    assert(bufs.take(m) =~= own + more.take(m - own.len()));
    lemma_write_ops_sum(nowhere, 0, own, more.take(m - own.len()));
    if pad.len() > 0 {
        assert(own.skip(1) =~= seq![pad]);
        assert(seq![pad].skip(1) =~= none);
        assert(total_len(seq![pad]) == pad.len());
    } else {
        assert(own.skip(1) =~= none);
    }
}

proof fn lemma_origin(records: Seq<Seq<u8>>, m: int)
    requires
        valid_records(records),
        0 <= m < batch_bufs(records).len(),
    ensures
        exists|j: int| #[trigger] comes_from(records, batch_bufs(records), m, j),
    decreases records.len(),
{
    let bufs = batch_bufs(records);
    let record = records[0];
    let rest = records.skip(1);
    let after = batch_bufs(rest);
    let own = own_bufs(record);
    let q = own.len() as int;
    assert(bufs =~= own + after);
    assert(valid_record(records[0]));
    assert(records.take(0) =~= Seq::empty());
    assert(image(records.take(0)).len() == 0);
    lemma_own_bufs(record, after, q);
    if m == 0 {
        assert(bufs.take(0) =~= Seq::empty());
        assert(comes_from(records, bufs, m, 0));
    } else if m < q {
        assert(comes_from(records, bufs, m, 0));
    } else {
        assert forall|i: int| 0 <= i < rest.len() implies valid_record(#[trigger] rest[i]) by {
            assert(rest[i] == records[i + 1]);
        }
        lemma_origin(rest, m - q);
        let j = choose|j: int| #[trigger] comes_from(rest, after, m - q, j);
        lemma_own_bufs(record, after, m);
        assert(rest[j] == records[j + 1]);
        assert(records.take(j + 1).skip(1) =~= rest.take(j));
        assert(records.take(j + 1)[0] == record);
        assert(image(records.take(j + 1)) == record_image(record) + image(rest.take(j)));
        assert(comes_from(records, bufs, m, j + 1));
    }
}

proof fn lemma_bufs_not_empty(records: Seq<Seq<u8>>)
    requires
        valid_records(records),
    ensures
        none_empty(batch_bufs(records)),
    decreases records.len(),
{
    if records.len() > 0 {
        let rest = records.skip(1);
        assert(valid_record(records[0]));
        lemma_valid_len(records[0]);
        assert forall|i: int| 0 <= i < rest.len() implies valid_record(#[trigger] rest[i]) by {
            assert(rest[i] == records[i + 1]);
        }
        lemma_bufs_not_empty(rest);
        let bufs = batch_bufs(records);
        let after = batch_bufs(rest);
        let pad = pad_of(records[0]);
        let q: int = if pad.len() > 0 {
            2
        } else {
            1
        };
        assert forall|i: int| 0 <= i < bufs.len() implies (#[trigger] bufs[i]).len() > 0 by {
            if i >= q {
                assert(bufs[i] == after[i - q]);
            }
        }
    }
}

/// A log that was cut off anywhere still starts with whole records.
proof fn lemma_cut_finds_first(records: Seq<Seq<u8>>, cut: int)
    requires
        valid_records(records),
        0 <= cut <= image(records).len(),
    ensures
        finds_first_of(image(records).take(cut), records),
{
    law_cut_log_is_decided(records, cut, 0);
}

/// A log that goes on with something that is no record holds what comes before.
proof fn lemma_junk_finds_first(records: Seq<Seq<u8>>, n: int, junk: Seq<u8>)
    requires
        valid_records(records),
        0 <= n <= records.len(),
        scan_step(junk, image(records.take(n)).len() as int) is End,
    ensures
        finds_first_of(image(records.take(n)) + junk, records),
{
    let front = records.take(n);
    assert forall|i: int| 0 <= i < front.len() implies valid_record(#[trigger] front[i]) by {
        assert(front[i] == records[i]);
    }
    law_written_records_scan_back(front, junk, 0);
    assert(scanned(junk, image(front).len() as int).records == Seq::<RecordInfo>::empty());
    assert(infos(front, 0) + Seq::<RecordInfo>::empty() =~= infos(front, 0));
    assert(scanned(image(front) + junk, 0).records == infos(records.take(n), 0));
}

/// Zeros at the start of a page are no record.
proof fn lemma_zero_page_ends(rest: Seq<u8>, offset: int)
    requires
        rest.len() >= 512,
        forall|i: int| 0 <= i < 512 ==> #[trigger] rest[i] == 0,
    ensures
        scan_step(rest, offset) is End,
{
    reveal(scan_step);
    let page = rest.take(512);
    assert(parsed_base(page) is None) by {
        if header_at(page, 0) is Some {
            law_read_header_is_canonical(page, 0);
            reveal(u16_at);
            assert(page[0] == 0 && page[1] == 0);
            assert(u16_at(page, 0) == 0) by {
                assert(0u8 as u16 | (0u8 as u16) << 8 == 0) by (bit_vector);
            }
        }
    }
}

/// A record with holes in it that show is no record.
proof fn lemma_holed_ends(record: Seq<u8>, offset: int)
    requires
        valid_record(record),
        holed(record) != record,
        holes_show(record),
    ensures
        scan_step(holed(record), offset) is End,
{
    let q = holed(record);
    reveal(scan_step);
    lemma_valid_len(record);
    lemma_record_image_len(record);
    if record.len() <= 512 {
        assert(q =~= record);
    }
    law_read_header_is_canonical(record, 0);
    let (h, end) = header_at(record, 0)->Some_0;
    let page = q.take(512);
    assert(record.take(end) =~= page.take(end));
    law_header_is_local(record, page);
    assert(h.un_marshal_len == record.len());
    let padded = page_rounded(record.len() as int);
    if q.len() >= padded {
        assert(q.take(padded) =~= q);
    }
}

/// At most the unsynced tail is lost. If power fails while records are appended
/// to a log of which all is safe, at any of the writes, the scan of what is left
/// finds the first of all records and nothing else: there is never a hole, and
/// never a record that was not written.
///
/// Where a crash loses sectors inside a record, that is so unless the record's
/// fingerprint happens to fit what is left of it.
pub proof fn law_crash_loses_the_tail_only(
    history: Seq<OpView>,
    path: PathView,
    records: Seq<Seq<u8>>,
    added: Seq<Seq<u8>>,
    k: int,
    policy: CrashPolicy,
)
    requires
        settled(disk_after(history), path),
        live_file(history, path) == Some(image(records)),
        valid_records(records),
        valid_records(added),
        image(records + added).len() <= u64::MAX,
        0 <= k <= append_ops(path, image(records).len() as int, added).len(),
        policy is HoleyTail ==> forall|i: int|
            0 <= i < added.len() ==> holes_show(#[trigger] added[i]),
    ensures
        ({
            let ops = append_ops(path, image(records).len() as int, added).take(k);
            let left = crash_image(history + ops, policy);
            left.contains_key(path) && finds_first_of(left[path], records + added)
        }),
{
    let base = image(records);
    let offset = base.len() as int;
    let full = batch_bufs(added);
    law_batches_add_up(records, added);
    lemma_batch_flattened(added);
    lemma_bufs_not_empty(added);
    lemma_writes_taken(path, offset, full, 0);
    lemma_writes_taken(path, offset, full, k);
    let bufs = full.take(k);
    assert(full =~= bufs + full.skip(k));
    lemma_write_ops_sum(path, offset, bufs, full.skip(k));
    assert forall|i: int| 0 <= i < bufs.len() implies (#[trigger] bufs[i]).len() > 0 by {
        assert(bufs[i] == full[i]);
    }
    let ops = write_ops(path, offset, bufs);
    lemma_in_flight(history, path, offset, bufs);
    lemma_write_ops_grow(history, path, offset, bufs, offset);
    lemma_name_stays_safe(history, ops, path);
    law_safe_name_survives(disk_after(history + ops), path, policy);
    let d = disk_after(history);
    assert(d.inodes[d.live[path]].durable == base);
    lemma_contents_find_first(records, added, k, policy);
}

/// The same of a file's contents alone: of the buffers of `added`, the first `k`
/// were in flight.
proof fn lemma_contents_find_first(
    records: Seq<Seq<u8>>,
    added: Seq<Seq<u8>>,
    k: int,
    policy: CrashPolicy,
)
    requires
        valid_records(records),
        valid_records(added),
        0 <= k <= batch_bufs(added).len(),
        policy is HoleyTail ==> forall|i: int|
            0 <= i < added.len() ==> holes_show(#[trigger] added[i]),
    ensures
        finds_first_of(
            contents_of(
                InodeView {
                    durable: image(records),
                    pending: writes_of(
                        image(records).len() as int,
                        batch_bufs(added).take(k),
                    ),
                },
                policy,
            ),
            records + added,
        ),
{
    let all = records + added;
    let base = image(records);
    let offset = base.len() as int;
    let full = batch_bufs(added);
    let bufs = full.take(k);
    let pending = writes_of(offset, bufs);
    let left = contents_of(InodeView { durable: base, pending }, policy);
    law_batches_add_up(records, added);
    lemma_batch_flattened(added);
    lemma_bufs_not_empty(added);
    assert(full =~= bufs + full.skip(k));
    lemma_flattened_sum(bufs, full.skip(k));
    lemma_landed(base, bufs);
    assert forall|i: int| 0 <= i < all.len() implies valid_record(#[trigger] all[i]) by {
        if i < records.len() {
            assert(all[i] == records[i]);
        } else {
            assert(all[i] == added[i - records.len()]);
        }
    }
    assert(image(all).take(offset) =~= base);
    lemma_cut_finds_first(all, offset);
    if k == 0 {
        assert(pending =~= Seq::empty());
    } else {
        let n = k - 1;
        let front = full.take(n);
        let last = full[n];
        let at = offset + total_len(front);
        assert(bufs =~= front + seq![last]);
        lemma_single(path_in(Seq::empty(), Seq::empty()), at, last);
        lemma_flattened_sum(front, seq![last]);
        lemma_landed(base, front);
        assert(bufs.take(n) =~= front);
        assert(pending.last() == write_of(offset, bufs, n));
        assert(pending.drop_last() =~= writes_of(offset, front)) by {
            assert forall|i: int| 0 <= i < n implies write_of(offset, bufs, i) == #[trigger]
                write_of(offset, front, i) by {
                assert(bufs.take(i) =~= front.take(i));
            }
        }
        let earlier = writes_of(offset, front);
        assert forall|i: int| 0 <= i < earlier.len() implies (#[trigger] earlier[i]) is Write by {
            assert(earlier[i] == write_of(offset, front, i));
        }
        assert(last_write(pending) == n);
        lemma_earlier_fare(base, earlier, n, policy);
        let before = base + flattened(front);
        assert(before.len() == at);
        assert(before + last =~= image(all).take(at + last.len()));
        match policy {
            CrashPolicy::Nothing => {
                assert(left == base);
            },
            CrashPolicy::Everything | CrashPolicy::NoDirOps => {
                assert(left =~= image(all).take(at + last.len()));
                lemma_cut_finds_first(all, at + last.len());
            },
            CrashPolicy::TornTail => {
                let m = torn_len(last.len() as int);
                assert(0 <= m <= last.len());
                assert(before == changed_all(base, earlier));
                assert(left == written(before, at, last.take(m)));
                assert(left =~= image(all).take(at + m));
                lemma_cut_finds_first(all, at + m);
            },
            CrashPolicy::HoleyTail => {
                lemma_holey_finds_first(records, added, n, before, last, left);
            },
            CrashPolicy::ReorderedTail => {
                assert(left == written(base, at, last));
                lemma_reordered_finds_first(records, added, n, last, left);
            },
        }
    }
}

/// How writes fare that were not the last one in flight.
proof fn lemma_earlier_fare(s: Seq<u8>, changes: Seq<PendingView>, last: int, policy: CrashPolicy)
    requires
        changes.len() <= last,
        forall|i: int| 0 <= i < changes.len() ==> (#[trigger] changes[i]) is Write,
    ensures
        fared_all(s, changes, last, policy) == (match policy {
            CrashPolicy::Nothing | CrashPolicy::ReorderedTail => s,
            _ => changed_all(s, changes),
        }),
    decreases changes.len(),
{
    if changes.len() > 0 {
        let front = changes.drop_last();
        assert(changes[changes.len() - 1] is Write);
        assert forall|i: int| 0 <= i < front.len() implies (#[trigger] front[i]) is Write by {
            assert(front[i] == changes[i]);
        }
        lemma_earlier_fare(s, front, last, policy);
    }
}

proof fn lemma_holey_finds_first(
    records: Seq<Seq<u8>>,
    added: Seq<Seq<u8>>,
    n: int,
    before: Seq<u8>,
    last: Seq<u8>,
    left: Seq<u8>,
)
    requires
        valid_records(records),
        valid_records(added),
        valid_records(records + added),
        0 <= n < batch_bufs(added).len(),
        last == batch_bufs(added)[n],
        before == image(records) + flattened(batch_bufs(added).take(n)),
        before.len() == image(records).len() + total_len(batch_bufs(added).take(n)),
        before + last == image(records + added).take((before.len() + last.len()) as int),
        before.len() + last.len() <= image(records + added).len(),
        left == changed_holey(
            before,
            PendingView::Write { offset: before.len() as int, data: last },
        ),
        forall|i: int| 0 <= i < added.len() ==> holes_show(#[trigger] added[i]),
    ensures
        finds_first_of(left, records + added),
{
    let all = records + added;
    let bufs = batch_bufs(added);
    let at = before.len() as int;
    assert(left =~= before + holed(last));
    lemma_origin(added, n);
    let j = choose|j: int| #[trigger] comes_from(added, bufs, n, j);
    if holed(last) == last {
        lemma_cut_finds_first(all, at + last.len());
    } else if is_record(added, bufs, n, j) {
        let m = records.len() + j;
        assert(all.take(m) =~= records + added.take(j));
        law_batches_add_up(records, added.take(j));
        law_batches_add_up(all.take(m), all.skip(m));
        assert(all =~= all.take(m) + all.skip(m));
        assert(before =~= image(all.take(m))) by {
            assert((before + last).take(at) =~= before);
            assert(image(all).take(at + last.len()).take(at) =~= image(all).take(at));
            assert(image(all).take(at) =~= image(all.take(m)));
        }
        assert(valid_record(added[j]));
        assert(holes_show(added[j]));
        lemma_holed_ends(last, at);
        lemma_junk_finds_first(all, m, holed(last));
    } else {
        assert(holed(last) =~= last);
    }
}

proof fn lemma_reordered_finds_first(
    records: Seq<Seq<u8>>,
    added: Seq<Seq<u8>>,
    n: int,
    last: Seq<u8>,
    left: Seq<u8>,
)
    requires
        valid_records(records),
        valid_records(added),
        valid_records(records + added),
        0 <= n < batch_bufs(added).len(),
        last == batch_bufs(added)[n],
        last.len() > 0,
        left == written(
            image(records),
            (image(records).len() + total_len(batch_bufs(added).take(n))) as int,
            last,
        ),
        image(records + added) == image(records) + image(added),
        flattened(batch_bufs(added)) == image(added),
    ensures
        finds_first_of(left, records + added),
{
    let all = records + added;
    let base = image(records);
    let bufs = batch_bufs(added);
    let gap = total_len(bufs.take(n));
    let junk = zeros(gap) + last;
    assert(left =~= base + junk);
    assert(all.take(records.len() as int) =~= records);
    lemma_origin(added, n);
    let j = choose|j: int| #[trigger] comes_from(added, bufs, n, j);
    if n == 0 {
        let rest = added.skip(1);
        assert(bufs.take(0) =~= Seq::empty());
        assert(total_len(bufs.take(0)) == 0);
        assert(bufs =~= seq![last] + bufs.skip(1));
        assert(flattened(bufs) == last + flattened(bufs.skip(1)));
        assert(left =~= image(all).take((base.len() + last.len()) as int));
        lemma_cut_finds_first(all, (base.len() + last.len()) as int);
    } else {
        lemma_gap(added, n, j);
        assert forall|i: int| 0 <= i < 512 implies #[trigger] junk[i] == 0 by {
            if i >= gap {
                assert(is_pad(added, bufs, n, j));
            }
        }
        lemma_zero_page_ends(junk, base.len() as int);
        lemma_junk_finds_first(all, records.len() as int, junk);
    }
}

/// What lies before a buffer that is not the first is a page at least, or is
/// filled up to one by the buffer's zeros.
proof fn lemma_gap(records: Seq<Seq<u8>>, n: int, j: int)
    requires
        valid_records(records),
        0 < n < batch_bufs(records).len(),
        comes_from(records, batch_bufs(records), n, j),
    ensures
        ({
            let bufs = batch_bufs(records);
            let gap = total_len(bufs.take(n));
            &&& gap >= 512 || is_pad(records, bufs, n, j)
            &&& gap + bufs[n].len() >= 512
        }),
{
    let bufs = batch_bufs(records);
    let gap = total_len(bufs.take(n));
    assert(valid_record(records[j]));
    lemma_valid_len(records[j]);
    lemma_record_image_len(records[j]);
    if is_record(records, bufs, n, j) {
        if j == 0 {
            assert(records.take(0) =~= Seq::empty());
            assert(image(records.take(0)).len() == 0);
            let first = bufs[0];
            assert(bufs.take(n)[0] == first);
            assert(first == records[0]);
            lemma_valid_len(records[0]);
            assert(total_len(bufs.take(n)) >= first.len());
            assert(false);
        } else {
            let front = records.take(j);
            assert(front[0] == records[0]);
            assert(valid_record(records[0]));
            lemma_valid_len(records[0]);
            lemma_record_image_len(records[0]);
            assert(image(front) == record_image(records[0]) + image(front.skip(1)));
        }
    }
}

} // verus!
