//! What a log looks like, and what a scan makes of it.

use vstd::prelude::*;

use super::scan::{info_of, lemma_step_record};
use super::{
    loggable, logged_kind, scan_step, scanned, RecordInfo, RejectReason, ScanEnd, ScanStep,
    ScanView, StopReason,
};
use crate::bytes::{all_zero, u16_at, u32_at, zeros};
use crate::messages::{
    checksum_ok, header_at, law_flipped_byte_is_caught, law_header_is_local,
    law_read_header_is_canonical, parsed_base, parsed_message,
};
use crate::source::at_most;
use crate::{last_page, page_rounded};

verus! {

/// A record's bytes in the log: the message, filled up with zeros to a page
/// boundary.
pub open spec fn record_image(record: Seq<u8>) -> Seq<u8> {
    record + zeros((page_rounded(record.len() as int) - record.len()) as nat)
}

/// The log that holds these records.
pub open spec fn image(records: Seq<Seq<u8>>) -> Seq<u8>
    decreases records.len(),
{
    if records.len() == 0 {
        Seq::empty()
    } else {
        record_image(records[0]) + image(records.skip(1))
    }
}

/// A message that a scan takes for a record: it may be logged, it is as long as
/// it says, it verifies and it parses.
pub open spec fn valid_record(record: Seq<u8>) -> bool {
    &&& record.len() <= last_page()
    &&& checksum_ok(record)
    &&& parsed_base(record) is Some
    &&& loggable(parsed_base(record)->Some_0.msg_id)
    &&& parsed_message(
        logged_kind(parsed_base(record)->Some_0.msg_id)->Some_0,
        record,
    ) is Some
}

/// All of these are valid records.
pub open spec fn valid_records(records: Seq<Seq<u8>>) -> bool {
    forall|i: int| 0 <= i < records.len() ==> valid_record(#[trigger] records[i])
}

/// What is known of these records, the first of which is at `offset`.
pub open spec fn infos(records: Seq<Seq<u8>>, offset: int) -> Seq<RecordInfo>
    decreases records.len(),
{
    if records.len() == 0 {
        Seq::empty()
    } else {
        seq![info_of(parsed_base(records[0])->Some_0, offset)] + infos(
            records.skip(1),
            offset + record_image(records[0]).len(),
        )
    }
}

/// A record's image takes whole pages.
pub proof fn lemma_record_image_len(record: Seq<u8>)
    requires
        0 < record.len() <= last_page(),
    ensures
        record_image(record).len() == page_rounded(record.len() as int),
        record_image(record).len() % 512 == 0,
        record.len() <= record_image(record).len() < record.len() + 512,
        record_image(record).take(record.len() as int) == record,
{
    assert(record_image(record).take(record.len() as int) =~= record);
}

/// A header that a valid record starts with is the one on its first page, and
/// it is as long as its record says.
proof fn lemma_valid_header(record: Seq<u8>, rest: Seq<u8>)
    requires
        valid_record(record),
        record_image(record).len() <= rest.len(),
        rest.take(record.len() as int) == record,
    ensures
        parsed_base(rest.take(512)) == parsed_base(record),
        parsed_base(record)->Some_0.un_marshal_len == record.len(),
        record.len() >= 14,
{
    law_read_header_is_canonical(record, 0);
    lemma_record_image_len(record);
    let (h, end) = header_at(record, 0)->Some_0;
    let page = rest.take(512);
    assert(record.take(end) =~= page.take(end)) by {
        assert forall|i: int| 0 <= i < end implies record[i] == page[i] by {
            assert(rest.take(record.len() as int)[i] == record[i]);
        }
    }
    law_header_is_local(record, page);
}

/// A scan finds a valid record that the rest of the log starts with, whatever
/// its pad holds.
pub proof fn law_valid_record_is_found(record: Seq<u8>, rest: Seq<u8>, offset: int)
    requires
        valid_record(record),
        record_image(record).len() <= rest.len(),
        rest.take(record.len() as int) == record,
    ensures
        scan_step(rest, offset) == ScanStep::Record(
            info_of(parsed_base(record)->Some_0, offset),
        ),
        info_of(parsed_base(record)->Some_0, offset).padded_len == record_image(record).len(),
{
    lemma_valid_header(record, rest);
    lemma_record_image_len(record);
    reveal(scan_step);
    let padded = page_rounded(record.len() as int);
    assert(at_most(rest.take(padded), record.len() as int) =~= rest.take(record.len() as int));
}

/// A scan of a log that starts with valid records finds them, and then goes on
/// with what follows.
pub proof fn law_written_records_scan_back(
    records: Seq<Seq<u8>>,
    tail: Seq<u8>,
    offset: int,
)
    requires
        valid_records(records),
    ensures
        ({
            let after = scanned(tail, offset + image(records).len());
            scanned(image(records) + tail, offset) == (ScanView {
                records: infos(records, offset) + after.records,
                ..after
            })
        }),
    decreases records.len(),
{
    let rest = image(records) + tail;
    if records.len() == 0 {
        assert(rest =~= tail);
        let after = scanned(tail, offset);
        assert(infos(records, offset) + after.records =~= after.records);
    } else {
        let record = records[0];
        let others = records.skip(1);
        assert(valid_record(records[0]));
        lemma_valid_len(record);
        lemma_record_image_len(record);
        assert(rest =~= record_image(record) + (image(others) + tail));
        assert(rest.take(record.len() as int) =~= record);
        law_valid_record_is_found(record, rest, offset);
        let info = info_of(parsed_base(record)->Some_0, offset);
        let n = info.padded_len as int;
        assert(rest.skip(n) =~= image(others) + tail);
        assert forall|i: int| 0 <= i < others.len() implies valid_record(#[trigger] others[i]) by {
            assert(others[i] == records[i + 1]);
        }
        law_written_records_scan_back(others, tail, offset + n);
        let after = scanned(tail, offset + image(records).len());
        assert(image(records).len() == n + image(others).len());
        assert(seq![info] + (infos(others, offset + n) + after.records) =~= infos(records, offset)
            + after.records);
    }
}

pub(super) proof fn lemma_valid_len(record: Seq<u8>)
    requires
        valid_record(record),
    ensures
        14 <= record.len(),
{
}

/// A log of valid records is accepted, and the scan finds just those records.
pub proof fn law_written_log_is_accepted(records: Seq<Seq<u8>>)
    requires
        valid_records(records),
    ensures
        scanned(image(records), 0) == (ScanView {
            end: ScanEnd::Eof,
            stop_offset: image(records).len() as int,
            records: infos(records, 0),
        }),
{
    let none = Seq::<u8>::empty();
    law_written_records_scan_back(records, none, 0);
    assert(image(records) + none =~= image(records));
    reveal(scan_step);
    assert(infos(records, 0) + Seq::<RecordInfo>::empty() =~= infos(records, 0));
}

/// One log after another is the log of all their records, so it does not matter
/// in how many batches records are appended.
pub proof fn law_batches_add_up(a: Seq<Seq<u8>>, b: Seq<Seq<u8>>)
    ensures
        image(a + b) == image(a) + image(b),
    decreases a.len(),
{
    if a.len() == 0 {
        assert(a + b =~= b);
        assert(image(a) + image(b) =~= image(b));
    } else {
        law_batches_add_up(a.skip(1), b);
        assert((a + b).skip(1) =~= a.skip(1) + b);
        assert(record_image(a[0]) + (image(a.skip(1)) + image(b)) =~= (record_image(a[0]) + image(
            a.skip(1),
        )) + image(b));
    }
}

/// The records that a scan finds follow one another from its start to its end,
/// each takes whole pages, and the end is inside the log.
pub proof fn law_scan_is_contiguous(rest: Seq<u8>, offset: int)
    requires
        0 <= offset,
        offset + rest.len() <= u64::MAX,
    ensures
        ({
            let found = scanned(rest, offset);
            &&& offset <= found.stop_offset <= offset + rest.len()
            &&& found.end is Eof ==> found.stop_offset == offset + rest.len()
            &&& found.records.len() == 0 ==> found.stop_offset == offset
            &&& found.records.len() > 0 ==> {
                &&& found.records[0].offset == offset
                &&& found.records.last().offset + found.records.last().padded_len
                    == found.stop_offset
            }
            &&& forall|i: int|
                0 <= i < found.records.len() - 1 ==> (#[trigger] found.records[i]).offset
                    + found.records[i].padded_len == found.records[i + 1].offset
            &&& forall|i: int|
                0 <= i < found.records.len() ==> {
                    &&& (#[trigger] found.records[i]).padded_len % 512 == 0
                    &&& 0 < found.records[i].un_marshal_len <= found.records[i].padded_len
                    &&& offset <= found.records[i].offset
                    &&& found.records[i].offset + found.records[i].padded_len
                        <= found.stop_offset
                    &&& loggable(found.records[i].msg_id)
                }
        }),
    decreases rest.len(),
{
    let found = scanned(rest, offset);
    match scan_step(rest, offset) {
        ScanStep::End(end) => {
            reveal(scan_step);
        },
        ScanStep::Record(info) => {
            lemma_step_record(rest, offset);
            let n = info.padded_len as int;
            law_scan_is_contiguous(rest.skip(n), offset + n);
            let after = scanned(rest.skip(n), offset + n);
            assert(found.records =~= seq![info] + after.records);
            assert forall|i: int| 0 <= i < found.records.len() - 1 implies (
            #[trigger] found.records[i]).offset + found.records[i].padded_len
                == found.records[i + 1].offset by {
                if i > 0 {
                    assert(found.records[i] == after.records[i - 1]);
                    assert(found.records[i + 1] == after.records[i]);
                } else {
                    assert(found.records[1] == after.records[0]);
                }
            }
            assert forall|i: int| 0 <= i < found.records.len() implies {
                &&& (#[trigger] found.records[i]).padded_len % 512 == 0
                &&& 0 < found.records[i].un_marshal_len <= found.records[i].padded_len
                &&& offset <= found.records[i].offset
                &&& found.records[i].offset + found.records[i].padded_len <= found.stop_offset
                &&& loggable(found.records[i].msg_id)
            } by {
                if i > 0 {
                    assert(found.records[i] == after.records[i - 1]);
                }
            }
            if after.records.len() > 0 {
                assert(found.records.last() == after.records.last());
            }
        },
    }
}

/// The byte at `i` is in the pad of one of these records.
pub open spec fn in_pad(records: Seq<RecordInfo>, i: int) -> bool {
    exists|k: int|
        0 <= k < records.len() && (#[trigger] records[k]).offset + records[k].un_marshal_len <= i
            < records[k].offset + records[k].padded_len
}

/// Two logs that differ in the pads of the records only are scanned alike.
pub proof fn law_pad_bytes_do_not_matter(a: Seq<u8>, b: Seq<u8>, offset: int)
    requires
        0 <= offset,
        offset + a.len() <= u64::MAX,
        a.len() == b.len(),
        forall|i: int|
            0 <= i < a.len() && a[i] != b[i] ==> in_pad(scanned(a, offset).records, offset + i),
    ensures
        scanned(b, offset) == scanned(a, offset),
    decreases a.len(),
{
    let found = scanned(a, offset);
    law_scan_is_contiguous(a, offset);
    match scan_step(a, offset) {
        ScanStep::End(end) => {
            assert forall|i: int| 0 <= i < a.len() implies a[i] == b[i] by {}
            assert(a =~= b);
        },
        ScanStep::Record(info) => {
            lemma_step_record(a, offset);
            let n = info.padded_len as int;
            let len = info.un_marshal_len as int;
            let after = scanned(a.skip(n), offset + n);
            law_scan_is_contiguous(a.skip(n), offset + n);
            assert(found.records =~= seq![info] + after.records);
            assert forall|i: int| 0 <= i < len implies a[i] == b[i] by {
                if a[i] != b[i] {
                    let k = choose|k: int|
                        0 <= k < found.records.len() && (#[trigger] found.records[k]).offset
                            + found.records[k].un_marshal_len <= offset + i
                            < found.records[k].offset + found.records[k].padded_len;
                    if k > 0 {
                        assert(found.records[k] == after.records[k - 1]);
                    }
                }
            }
            assert(a.take(len) =~= b.take(len));
            lemma_same_record(a, b, offset);
            assert forall|i: int| 0 <= i < a.skip(n).len() && a.skip(n)[i] != b.skip(
                n,
            )[i] implies in_pad(after.records, offset + n + i) by {
                assert(a[n + i] != b[n + i]);
                let k = choose|k: int|
                    0 <= k < found.records.len() && (#[trigger] found.records[k]).offset
                        + found.records[k].un_marshal_len <= offset + n + i
                        < found.records[k].offset + found.records[k].padded_len;
                if k > 0 {
                    assert(found.records[k] == after.records[k - 1]);
                }
            }
            law_pad_bytes_do_not_matter(a.skip(n), b.skip(n), offset + n);
        },
    }
}

/// The record that a log starts with is found by its message alone.
proof fn lemma_same_record(a: Seq<u8>, b: Seq<u8>, offset: int)
    requires
        scan_step(a, offset) is Record,
        scan_step(a, offset)->Record_0.padded_len <= b.len(),
        a.take(scan_step(a, offset)->Record_0.un_marshal_len as int) == b.take(
            scan_step(a, offset)->Record_0.un_marshal_len as int,
        ),
    ensures
        scan_step(b, offset) == scan_step(a, offset),
{
    lemma_step_record(a, offset);
    let info = scan_step(a, offset)->Record_0;
    let len = info.un_marshal_len as int;
    let padded = info.padded_len as int;
    reveal(scan_step);
    let page = a.take(512);
    let h = parsed_base(page)->Some_0;
    law_read_header_is_canonical(page, 0);
    let (_, end) = header_at(page, 0)->Some_0;
    assert(page.take(end) =~= b.take(512).take(end)) by {
        assert forall|i: int| 0 <= i < end implies a[i] == b[i] by {
            assert(a.take(len)[i] == b.take(len)[i]);
        }
    }
    law_header_is_local(page, b.take(512));
    assert(at_most(a.take(padded), len) =~= a.take(len));
    assert(at_most(b.take(padded), len) =~= b.take(len));
}

/// A byte changed in a record's message, behind the message id, ends the scan
/// at that record. The log is rejected, unless only the checksum shows the
/// change and nothing but zeros follows the record.
pub proof fn law_changed_message_is_not_found(rest: Seq<u8>, offset: int, i: int, byte: u8)
    requires
        scan_step(rest, offset) is Record,
        20 <= i < scan_step(rest, offset)->Record_0.un_marshal_len,
        byte != rest[i],
    ensures
        ({
            let info = scan_step(rest, offset)->Record_0;
            let bad = rest.update(i, byte);
            let behind = rest.skip(info.padded_len as int);
            &&& scan_step(bad, offset) is End
            &&& scan_step(bad, offset)->End_0 == ScanEnd::Stop(
                StopReason::TrailingChecksumMismatch,
            ) ==> all_zero(behind)
            &&& !(scan_step(bad, offset)->End_0 is Reject) ==> scan_step(bad, offset)->End_0
                == ScanEnd::Stop(StopReason::TrailingChecksumMismatch)
            &&& parsed_base(bad.take(512)) is Some ==> scan_step(bad, offset)->End_0 == (
            if all_zero(behind) {
                ScanEnd::Stop(StopReason::TrailingChecksumMismatch)
            } else {
                ScanEnd::Reject(RejectReason::ChecksumMismatch)
            })
        }),
{
    lemma_step_record(rest, offset);
    let info = scan_step(rest, offset)->Record_0;
    let len = info.un_marshal_len as int;
    let padded = info.padded_len as int;
    let bad = rest.update(i, byte);
    let page = rest.take(512);
    let bad_page = bad.take(512);
    reveal(scan_step);
    law_read_header_is_canonical(page, 0);
    reveal(u16_at);
    reveal(u32_at);
    lemma_header_front(page);
    if parsed_base(bad_page) is Some {
        law_read_header_is_canonical(bad_page, 0);
        lemma_header_front(bad_page);
        assert(at_most(bad.take(padded), len) =~= rest.take(len).update(i, byte));
        law_flipped_byte_is_caught(rest.take(len), i, byte);
        assert(bad.skip(padded) =~= rest.skip(padded));
    } else {
        assert(u32_at(page, 14) == crate::messages::MAGIC);
        if all_zero(bad) {
            assert(bad[14] == 0 && bad[15] == 0 && bad[16] == 0 && bad[17] == 0);
            assert(rest[14] == 0 && rest[15] == 0 && rest[16] == 0 && rest[17] == 0);
            assert(0u32 | (0u32 << 8) | (0u32 << 16) | (0u32 << 24) == 0u32) by (bit_vector);
        }
    }
}

/// Where the header has its magic and its message id.
pub(super) proof fn lemma_header_front(s: Seq<u8>)
    requires
        header_at(s, 0) is Some,
    ensures
        header_at(s, 0)->Some_0.0.msg_id == u16_at(s, 18),
        u32_at(s, 14) == crate::messages::MAGIC,
{
    reveal(header_at);
}

/// How a log of valid records that was cut off is scanned: the records that are
/// left whole are found. The scan accepts a cut between two records, takes a cut
/// behind the first page of a record for a torn one, and rejects any other.
pub proof fn law_cut_log_is_decided(records: Seq<Seq<u8>>, cut: int, offset: int)
    requires
        valid_records(records),
        0 <= cut <= image(records).len(),
    ensures
        ({
            let found = scanned(image(records).take(cut), offset);
            exists|k: int|
                {
                    &&& 0 <= k <= records.len()
                    &&& found.records == infos(#[trigger] records.take(k), offset)
                    &&& found.stop_offset == offset + image(records.take(k)).len()
                    &&& found.stop_offset <= offset + cut
                    &&& found.end == (if found.stop_offset == offset + cut {
                        ScanEnd::Eof
                    } else if offset + cut - found.stop_offset < 512 {
                        ScanEnd::Reject(RejectReason::PartialHeaderPage)
                    } else {
                        ScanEnd::Stop(StopReason::TornTail)
                    })
                }
        }),
    decreases records.len(),
{
    let log = image(records).take(cut);
    let none = records.take(0);
    assert(none =~= Seq::empty());
    if cut == 0 {
        reveal(scan_step);
        assert(log =~= Seq::empty());
        assert(infos(records.take(0), offset) == Seq::<RecordInfo>::empty());
        assert(image(records.take(0)).len() == 0);
    } else {
        let record = records[0];
        let others = records.skip(1);
        assert(valid_record(records[0]));
        lemma_valid_len(record);
        lemma_record_image_len(record);
        let n = record_image(record).len() as int;
        if cut < n {
            reveal(scan_step);
            assert(infos(records.take(0), offset) == Seq::<RecordInfo>::empty());
            assert(image(records.take(0)).len() == 0);
            if cut >= 512 {
                law_read_header_is_canonical(record, 0);
                let (h, end) = header_at(record, 0)->Some_0;
                let page = log.take(512);
                assert(record.take(end) =~= page.take(end));
                law_header_is_local(record, page);
            }
        } else {
            assert(log.take(record.len() as int) =~= record);
            law_valid_record_is_found(record, log, offset);
            let info = info_of(parsed_base(record)->Some_0, offset);
            assert(log.skip(n) =~= image(others).take(cut - n));
            assert forall|i: int| 0 <= i < others.len() implies valid_record(
                #[trigger] others[i],
            ) by {
                assert(others[i] == records[i + 1]);
            }
            law_cut_log_is_decided(others, cut - n, offset + n);
            let found = scanned(image(others).take(cut - n), offset + n);
            let k = choose|k: int|
                {
                    &&& 0 <= k <= others.len()
                    &&& found.records == infos(#[trigger] others.take(k), offset + n)
                    &&& found.stop_offset == offset + n + image(others.take(k)).len()
                    &&& found.stop_offset <= offset + cut
                    &&& found.end == (if found.stop_offset == offset + cut {
                        ScanEnd::Eof
                    } else if offset + cut - found.stop_offset < 512 {
                        ScanEnd::Reject(RejectReason::PartialHeaderPage)
                    } else {
                        ScanEnd::Stop(StopReason::TornTail)
                    })
                };
            let kept = records.take(k + 1);
            assert(kept.skip(1) =~= others.take(k));
            assert(kept[0] == record);
            assert(scanned(log, offset).records == infos(kept, offset));
        }
    }
}

/// A scan that comes to the end of a log without a fault goes on with whatever
/// is put behind it.
pub proof fn law_scan_goes_on(a: Seq<u8>, b: Seq<u8>, offset: int)
    requires
        scanned(a, offset).end is Eof,
    ensures
        ({
            let after = scanned(b, offset + a.len());
            scanned(a + b, offset) == (ScanView {
                records: scanned(a, offset).records + after.records,
                ..after
            })
        }),
    decreases a.len(),
{
    let after = scanned(b, offset + a.len());
    match scan_step(a, offset) {
        ScanStep::End(end) => {
            reveal(scan_step);
            assert(a =~= Seq::empty());
            assert(a + b =~= b);
            assert(Seq::<RecordInfo>::empty() + after.records =~= after.records);
        },
        ScanStep::Record(info) => {
            lemma_step_record(a, offset);
            let n = info.padded_len as int;
            let len = info.un_marshal_len as int;
            assert((a + b).take(len) =~= a.take(len));
            lemma_same_record(a, a + b, offset);
            assert((a + b).skip(n) =~= a.skip(n) + b);
            law_scan_goes_on(a.skip(n), b, offset + n);
            let mid = scanned(a.skip(n), offset + n).records;
            assert(seq![info] + (mid + after.records) =~= (seq![info] + mid) + after.records);
        },
    }
}

/// What a scan keeps of a log is accepted as it is: cutting off the discarded
/// tail leaves the same records and nothing else.
pub proof fn law_kept_part_is_accepted(log: Seq<u8>, offset: int)
    requires
        0 <= offset,
        offset + log.len() <= u64::MAX,
    ensures
        ({
            let found = scanned(log, offset);
            scanned(log.take(found.stop_offset - offset), offset) == (ScanView {
                end: ScanEnd::Eof,
                ..found
            })
        }),
    decreases log.len(),
{
    let found = scanned(log, offset);
    law_scan_is_contiguous(log, offset);
    let kept = log.take(found.stop_offset - offset);
    match scan_step(log, offset) {
        ScanStep::End(end) => {
            reveal(scan_step);
            assert(kept =~= Seq::empty());
        },
        ScanStep::Record(info) => {
            lemma_step_record(log, offset);
            let n = info.padded_len as int;
            let len = info.un_marshal_len as int;
            law_scan_is_contiguous(log.skip(n), offset + n);
            let after = scanned(log.skip(n), offset + n);
            assert(kept.take(len) =~= log.take(len));
            lemma_same_record(log, kept, offset);
            assert(kept.skip(n) =~= log.skip(n).take(after.stop_offset - offset - n));
            law_kept_part_is_accepted(log.skip(n), offset + n);
        },
    }
}

/// Reopening a log, appending to it and scanning it again finds what the first
/// scan kept and what was appended, and accepts the log.
pub proof fn law_reopened_log_goes_on(log: Seq<u8>, added: Seq<Seq<u8>>)
    requires
        log.len() <= u64::MAX,
        valid_records(added),
    ensures
        ({
            let found = scanned(log, 0);
            let kept = log.take(found.stop_offset);
            scanned(kept + image(added), 0) == (ScanView {
                end: ScanEnd::Eof,
                stop_offset: found.stop_offset + image(added).len(),
                records: found.records + infos(added, found.stop_offset),
            })
        }),
{
    let found = scanned(log, 0);
    law_scan_is_contiguous(log, 0);
    let kept = log.take(found.stop_offset);
    let none = Seq::<u8>::empty();
    law_kept_part_is_accepted(log, 0);
    law_scan_goes_on(kept, image(added), 0);
    law_written_records_scan_back(added, none, found.stop_offset);
    assert(image(added) + none =~= image(added));
    reveal(scan_step);
    assert(infos(added, found.stop_offset) + Seq::<RecordInfo>::empty() =~= infos(
        added,
        found.stop_offset,
    ));
}

} // verus!
