//! What a scan makes of the different tails of a log, and what its ending says of
//! the tail.

use vstd::prelude::*;

use super::image::{
    image, infos, law_scan_is_contiguous, law_valid_record_is_found, law_written_records_scan_back,
    lemma_header_front, lemma_record_image_len, lemma_valid_len, record_image, valid_record,
    valid_records,
};
use super::scan::lemma_step_record;
use super::writer::{batch_fault, record_fault};
use super::{
    logged_kind, scan_step, scanned, LogError, RecordInfo, RejectReason, ScanEnd, ScanStep,
    ScanView, StopReason,
};
use crate::bytes::{all_zero, u32_at};
use crate::laws::{
    law_message_fields_have_their_places, law_plain_message_comes_back, plain_message,
};
use crate::messages::{
    checksum_ok, header_at, law_header_is_local, law_message_round_trips,
    law_read_header_is_canonical, parsed_base, parsed_message, parsed_prepare, parsed_vote,
    HeaderView, MsgView, MAGIC, MSG_PREPARE, MSG_RECONFIGURATION_DECISION, MSG_VOTE,
};
use crate::source::at_most;

verus! {

/// What a scan of some records and a tail in which it finds nothing gives.
pub open spec fn ended_behind(records: Seq<Seq<u8>>, offset: int, end: ScanEnd) -> ScanView {
    ScanView {
        end,
        stop_offset: offset + image(records).len(),
        records: infos(records, offset),
    }
}

proof fn lemma_tail(records: Seq<Seq<u8>>, tail: Seq<u8>, offset: int, end: ScanEnd)
    requires
        valid_records(records),
        scan_step(tail, offset + image(records).len()) == ScanStep::End(end),
    ensures
        scanned(image(records) + tail, offset) == ended_behind(records, offset, end),
{
    law_written_records_scan_back(records, tail, offset);
    assert(infos(records, offset) + Seq::<RecordInfo>::empty() =~= infos(records, offset));
}

proof fn lemma_zeros_hold_no_header(s: Seq<u8>)
    requires
        s.len() >= 512,
        forall|i: int| 14 <= i < 18 ==> s[i] == 0,
    ensures
        parsed_base(s.take(512)) is None,
{
    let page = s.take(512);
    if parsed_base(page) is Some {
        lemma_header_front(page);
        reveal(u32_at);
        assert(page[14] == 0 && page[15] == 0 && page[16] == 0 && page[17] == 0);
        assert(0u32 | (0u32 << 8) | (0u32 << 16) | (0u32 << 24) == 0u32) by (bit_vector);
    }
}

/// A log whose tail was never written can be recovered, however long the tail is:
/// the scan finds the records before it and stops there.
pub proof fn law_zero_tail_is_discarded(records: Seq<Seq<u8>>, tail: Seq<u8>, offset: int)
    requires
        valid_records(records),
        tail.len() >= 512,
        forall|i: int| 0 <= i < tail.len() ==> tail[i] == 0,
    ensures
        scanned(image(records) + tail, offset) == ended_behind(
            records,
            offset,
            ScanEnd::Stop(StopReason::ZeroRegion),
        ),
{
    reveal(scan_step);
    lemma_zeros_hold_no_header(tail);
    lemma_tail(records, tail, offset, ScanEnd::Stop(StopReason::ZeroRegion));
}

/// A tail that is too short for a header is rejected, whatever it holds.
pub proof fn law_short_tail_is_rejected(records: Seq<Seq<u8>>, tail: Seq<u8>, offset: int)
    requires
        valid_records(records),
        0 < tail.len() < 512,
    ensures
        scanned(image(records) + tail, offset) == ended_behind(
            records,
            offset,
            ScanEnd::Reject(RejectReason::PartialHeaderPage),
        ),
{
    reveal(scan_step);
    lemma_tail(records, tail, offset, ScanEnd::Reject(RejectReason::PartialHeaderPage));
}

/// A record of which only the first pages were written is discarded: the scan
/// finds the records before it and stops there.
pub proof fn law_torn_record_is_discarded(
    records: Seq<Seq<u8>>,
    record: Seq<u8>,
    cut: int,
    offset: int,
)
    requires
        valid_records(records),
        valid_record(record),
        512 <= cut < record_image(record).len(),
    ensures
        scanned(image(records) + record_image(record).take(cut), offset) == ended_behind(
            records,
            offset,
            ScanEnd::Stop(StopReason::TornTail),
        ),
{
    let tail = record_image(record).take(cut);
    lemma_valid_len(record);
    lemma_record_image_len(record);
    reveal(scan_step);
    law_read_header_is_canonical(record, 0);
    let (h, end) = header_at(record, 0)->Some_0;
    let page = tail.take(512);
    assert(record.take(end) =~= page.take(end));
    law_header_is_local(record, page);
    lemma_tail(records, tail, offset, ScanEnd::Stop(StopReason::TornTail));
}

/// A tail without the mark of a header at its start, and with a byte anywhere in
/// it that is not zero, is rejected.
pub proof fn law_garbage_is_rejected(records: Seq<Seq<u8>>, tail: Seq<u8>, k: int, offset: int)
    requires
        valid_records(records),
        tail.len() >= 512,
        u32_at(tail, 14) != MAGIC,
        0 <= k < tail.len(),
        tail[k] != 0,
    ensures
        scanned(image(records) + tail, offset) == ended_behind(
            records,
            offset,
            ScanEnd::Reject(RejectReason::HeaderUnmarshal),
        ),
{
    let page = tail.take(512);
    if parsed_base(page) is Some {
        lemma_header_front(page);
        reveal(u32_at);
    }
    reveal(scan_step);
    lemma_tail(records, tail, offset, ScanEnd::Reject(RejectReason::HeaderUnmarshal));
}

/// A message that is never logged is rejected, whatever follows its header.
pub proof fn law_unlogged_message_is_rejected(
    records: Seq<Seq<u8>>,
    tail: Seq<u8>,
    h: HeaderView,
    offset: int,
)
    requires
        valid_records(records),
        tail.len() >= 512,
        parsed_base(tail.take(512)) == Some(h),
        h.msg_id != MSG_VOTE,
        h.msg_id != MSG_PREPARE,
        h.msg_id != MSG_RECONFIGURATION_DECISION,
    ensures
        scanned(image(records) + tail, offset) == ended_behind(
            records,
            offset,
            ScanEnd::Reject(RejectReason::UnknownMessageId),
        ),
{
    reveal(scan_step);
    lemma_tail(records, tail, offset, ScanEnd::Reject(RejectReason::UnknownMessageId));
}

/// A message that is logged: a vote, a prepare or a reconfiguration decision.
pub open spec fn is_logged(msg_id: u16) -> bool {
    msg_id == MSG_VOTE || msg_id == MSG_PREPARE || msg_id == MSG_RECONFIGURATION_DECISION
}

proof fn lemma_whole_message(message: Seq<u8>, pad: Seq<u8>, rest: Seq<u8>, h: HeaderView)
    requires
        parsed_base(message) == Some(h),
        h.un_marshal_len == message.len(),
        message.len() <= 0xffff_fe00,
        (message + pad).len() % 512 == 0,
        pad.len() < 512,
    ensures
        ({
            let tail = message + pad + rest;
            let n = (message + pad).len() as int;
            &&& 512 <= n
            &&& parsed_base(tail.take(512)) == Some(h)
            &&& crate::page_rounded(message.len() as int) == n
            &&& at_most(tail.take(n), message.len() as int) == message
            &&& tail.skip(n) == rest
        }),
{
    let tail = message + pad + rest;
    let n = (message + pad).len() as int;
    law_read_header_is_canonical(message, 0);
    let (_, end) = header_at(message, 0)->Some_0;
    assert(message.take(end) =~= tail.take(512).take(end));
    law_header_is_local(message, tail.take(512));
    assert(at_most(tail.take(n), message.len() as int) =~= message);
    assert(tail.skip(n) =~= rest);
}

/// A logged message that does not verify is discarded if nothing but zeros
/// follows it, however many, and rejected if anything else does.
pub proof fn law_unverified_record_is_decided_by_what_follows(
    records: Seq<Seq<u8>>,
    message: Seq<u8>,
    pad: Seq<u8>,
    rest: Seq<u8>,
    h: HeaderView,
    offset: int,
)
    requires
        valid_records(records),
        parsed_base(message) == Some(h),
        h.un_marshal_len == message.len(),
        message.len() <= 0xffff_fe00,
        (message + pad).len() % 512 == 0,
        pad.len() < 512,
        is_logged(h.msg_id),
        !checksum_ok(message),
    ensures
        (forall|i: int| 0 <= i < rest.len() ==> rest[i] == 0) ==> scanned(
            image(records) + (message + pad + rest),
            offset,
        ) == ended_behind(records, offset, ScanEnd::Stop(StopReason::TrailingChecksumMismatch)),
        (exists|i: int| 0 <= i < rest.len() && rest[i] != 0) ==> scanned(
            image(records) + (message + pad + rest),
            offset,
        ) == ended_behind(records, offset, ScanEnd::Reject(RejectReason::ChecksumMismatch)),
{
    let tail = message + pad + rest;
    lemma_whole_message(message, pad, rest, h);
    reveal(scan_step);
    if forall|i: int| 0 <= i < rest.len() ==> rest[i] == 0 {
        assert(all_zero(rest));
        lemma_tail(records, tail, offset, ScanEnd::Stop(StopReason::TrailingChecksumMismatch));
    } else {
        assert(!all_zero(rest));
        lemma_tail(records, tail, offset, ScanEnd::Reject(RejectReason::ChecksumMismatch));
    }
}

/// A logged message that verifies and cannot be parsed is rejected, whatever
/// follows it.
pub proof fn law_unparsable_record_is_rejected(
    records: Seq<Seq<u8>>,
    message: Seq<u8>,
    pad: Seq<u8>,
    rest: Seq<u8>,
    h: HeaderView,
    offset: int,
)
    requires
        valid_records(records),
        parsed_base(message) == Some(h),
        h.un_marshal_len == message.len(),
        message.len() <= 0xffff_fe00,
        (message + pad).len() % 512 == 0,
        pad.len() < 512,
        is_logged(h.msg_id),
        checksum_ok(message),
        parsed_message(logged_kind(h.msg_id)->Some_0, message) is None,
    ensures
        scanned(image(records) + (message + pad + rest), offset) == ended_behind(
            records,
            offset,
            ScanEnd::Reject(RejectReason::RecordUnmarshal),
        ),
{
    lemma_whole_message(message, pad, rest, h);
    reveal(scan_step);
    lemma_tail(
        records,
        message + pad + rest,
        offset,
        ScanEnd::Reject(RejectReason::RecordUnmarshal),
    );
}

/// Every vote, prepare and reconfiguration decision that can be sent is a valid
/// record, so a log of them is read back.
pub proof fn law_sent_messages_are_valid_records(m: MsgView)
    requires
        m.sendable(),
        m.len() <= 0xffff_fe00,
        m is Vote || m is Prepare || (m is Base && m.header().msg_id
            == MSG_RECONFIGURATION_DECISION),
    ensures
        valid_record(m.bytes()),
{
    law_message_round_trips(m);
    let buf = m.bytes();
    match m {
        MsgView::Vote(x) => {
            assert(parsed_vote(buf) is Some);
        },
        MsgView::Prepare(x) => {
            assert(parsed_prepare(buf) == Some(x.canon()));
        },
        MsgView::Base(x) => {
            assert(parsed_base(buf) is Some);
        },
        _ => {},
    }
}

/// What the ending of a scan says of the bytes behind the last record, `left`, of
/// which `h` is the header.
pub open spec fn ending_fits(end: ScanEnd, left: Seq<u8>, h: Option<HeaderView>) -> bool {
    // How many of the bytes are whole pages.
    let whole = left.len() - left.len() % 512;
    let len = h->Some_0.un_marshal_len as int;
    let padded = if len <= 0xffff_fe00 {
        (len + 511) / 512 * 512
    } else {
        0xffff_fe00
    };
    match end {
        ScanEnd::Eof => left.len() == 0,
        ScanEnd::Reject(RejectReason::PartialHeaderPage) => 0 < left.len() < 512,
        ScanEnd::Stop(StopReason::ZeroRegion) => left.len() >= 512 && forall|i: int|
            0 <= i < left.len() ==> left[i] == 0,
        ScanEnd::Reject(RejectReason::HeaderUnmarshal) => left.len() >= 512 && h is None && exists|
            i: int,
        |
            0 <= i < left.len() && left[i] != 0,
        ScanEnd::Reject(RejectReason::UnknownMessageId) => left.len() >= 512 && h is Some
            && !is_logged(h->Some_0.msg_id),
        ScanEnd::Stop(StopReason::TornTail) => left.len() >= 512 && h is Some && is_logged(
            h->Some_0.msg_id,
        ) && len > whole && left.len() < 0xffff_fe00,
        ScanEnd::Stop(StopReason::TrailingChecksumMismatch) => {
            &&& h is Some && is_logged(h->Some_0.msg_id)
            &&& 512 <= padded <= left.len()
            &&& !checksum_ok(at_most(left.take(padded), len))
            &&& forall|i: int| padded <= i < left.len() ==> left[i] == 0
        },
        ScanEnd::Reject(RejectReason::ChecksumMismatch) => {
            &&& h is Some && is_logged(h->Some_0.msg_id)
            &&& 512 <= padded <= left.len()
            &&& !checksum_ok(at_most(left.take(padded), len))
            &&& exists|i: int| padded <= i < left.len() && left[i] != 0
        },
        ScanEnd::Reject(RejectReason::RecordUnmarshal) => {
            &&& h is Some && is_logged(h->Some_0.msg_id)
            &&& 512 <= padded <= left.len()
            &&& len <= padded
            &&& checksum_ok(left.take(len))
            &&& parsed_message(logged_kind(h->Some_0.msg_id)->Some_0, left.take(len)) is None
        },
    }
}

proof fn lemma_end_fits(left: Seq<u8>, offset: int)
    requires
        scan_step(left, offset) is End,
    ensures
        ending_fits(scan_step(left, offset)->End_0, left, parsed_base(left.take(512))),
{
    reveal(scan_step);
    if left.len() >= 512 {
        let page = left.take(512);
        match parsed_base(page) {
            None => {
                if !all_zero(left) {
                    let i = choose|i: int| 0 <= i < left.len() && left[i] != 0;
                    assert(left[i] != 0);
                }
            },
            Some(h) => {
                law_read_header_is_canonical(page, 0);
                lemma_header_front(page);
                let len = h.un_marshal_len as int;
                let padded = crate::page_rounded(len);
                if is_logged(h.msg_id) && left.len() >= padded {
                    let behind = left.skip(padded);
                    let message = at_most(left.take(padded), len);
                    if !checksum_ok(message) {
                        if all_zero(behind) {
                            assert forall|i: int| padded <= i < left.len() implies left[i] == 0 by {
                                assert(behind[i - padded] == left[i]);
                            }
                        } else {
                            let i = choose|i: int| 0 <= i < behind.len() && behind[i] != 0;
                            assert(left[padded + i] != 0);
                        }
                    } else {
                        reveal(u32_at);
                        if len > padded {
                            assert(u32_at(message, 2) == u32_at(page, 2));
                        } else {
                            assert(message =~= left.take(len));
                        }
                    }
                }
            },
        }
    }
}

proof fn lemma_endings_differ(a: ScanEnd, b: ScanEnd, left: Seq<u8>)
    requires
        ending_fits(a, left, parsed_base(left.take(512))),
        ending_fits(b, left, parsed_base(left.take(512))),
    ensures
        a == b,
{
    let h = parsed_base(left.take(512));
    if left.len() >= 512 {
        if forall|i: int| 0 <= i < left.len() ==> left[i] == 0 {
            lemma_zeros_hold_no_header(left);
        }
        if h is Some {
            law_read_header_is_canonical(left.take(512), 0);
            let len = h->Some_0.un_marshal_len as int;
            let padded = if len <= 0xffff_fe00 {
                (len + 511) / 512 * 512
            } else {
                0xffff_fe00
            };
            assert(padded % 512 == 0);
            if len <= padded <= left.len() {
                assert(at_most(left.take(padded), len) =~= left.take(len));
            }
        }
    }
}

/// The ending of a scan says just what is left of the log behind the last record,
/// and nothing else fits: the end of the log, a tail of zeros of a page or more, a
/// record that is not all there, one that does not verify with nothing or
/// something behind it, and so on.
pub proof fn law_ending_says_what_is_left(log: Seq<u8>, offset: int, end: ScanEnd)
    requires
        0 <= offset,
        offset + log.len() <= u64::MAX,
    ensures
        ({
            let found = scanned(log, offset);
            let left = log.skip(found.stop_offset - offset);
            let h = parsed_base(left.take(512));
            &&& offset <= found.stop_offset <= offset + log.len()
            &&& found.end == end <==> ending_fits(end, left, h)
        }),
    decreases log.len(),
{
    let found = scanned(log, offset);
    law_scan_is_contiguous(log, offset);
    match scan_step(log, offset) {
        ScanStep::End(e) => {
            assert(log.skip(0) =~= log);
            lemma_end_fits(log, offset);
            if ending_fits(end, log, parsed_base(log.take(512))) {
                lemma_endings_differ(e, end, log);
            }
        },
        ScanStep::Record(info) => {
            lemma_step_record(log, offset);
            let n = info.padded_len as int;
            law_scan_is_contiguous(log.skip(n), offset + n);
            law_ending_says_what_is_left(log.skip(n), offset + n, end);
            assert(log.skip(n).skip(found.stop_offset - offset - n) =~= log.skip(
                found.stop_offset - offset,
            ));
        },
    }
}

proof fn lemma_first_record(log: Seq<u8>, offset: int)
    requires
        scan_step(log, offset) is Record,
    ensures
        ({
            let info = scan_step(log, offset)->Record_0;
            let message = log.take(info.un_marshal_len as int);
            let h = parsed_base(message)->Some_0;
            &&& valid_record(message)
            &&& info.msg_id == h.msg_id
            &&& info.decree == h.decree
            &&& info.checksum == h.checksum
            &&& info.un_marshal_len == h.un_marshal_len
            &&& info.un_marshal_len <= info.padded_len < info.un_marshal_len + 512
            &&& info.padded_len % 512 == 0
        }),
{
    lemma_step_record(log, offset);
    let info = scan_step(log, offset)->Record_0;
    let len = info.un_marshal_len as int;
    let message = log.take(len);
    let page = log.take(512);
    assert(parsed_base(page) is Some && info == super::info_of(
        parsed_base(page)->Some_0,
        offset,
    )) by {
        reveal(scan_step);
    }
    law_read_header_is_canonical(page, 0);
    let (h, end) = header_at(page, 0)->Some_0;
    assert(page.take(end) =~= message.take(end));
    law_header_is_local(page, message);
}

/// Every record that a scan reports is a valid message in the log, at the offset
/// that is reported, and what is reported of it is what its header says. Its
/// length is that of the message, filled up to a page.
pub proof fn law_reported_records_are_in_the_log(log: Seq<u8>, offset: int, i: int)
    requires
        0 <= offset,
        offset + log.len() <= u64::MAX,
        0 <= i < scanned(log, offset).records.len(),
    ensures
        ({
            let info = scanned(log, offset).records[i];
            let at = info.offset - offset;
            let message = log.subrange(at, at + info.un_marshal_len);
            let h = parsed_base(message)->Some_0;
            &&& 0 <= at
            &&& at + info.padded_len <= log.len()
            &&& valid_record(message)
            &&& info.msg_id == h.msg_id
            &&& info.decree == h.decree
            &&& info.checksum == h.checksum
            &&& info.un_marshal_len == h.un_marshal_len
            &&& info.un_marshal_len <= info.padded_len < info.un_marshal_len + 512
            &&& info.padded_len % 512 == 0
        }),
    decreases log.len(),
{
    let found = scanned(log, offset);
    law_scan_is_contiguous(log, offset);
    let info = scan_step(log, offset)->Record_0;
    lemma_step_record(log, offset);
    let n = info.padded_len as int;
    let after = scanned(log.skip(n), offset + n);
    assert(found.records =~= seq![info] + after.records);
    if i == 0 {
        let len = info.un_marshal_len as int;
        assert(log.subrange(0, len) =~= log.take(len));
        lemma_first_record(log, offset);
    } else {
        law_reported_records_are_in_the_log(log.skip(n), offset + n, i - 1);
        let it = after.records[i - 1];
        let at = it.offset - offset - n;
        assert(log.skip(n).subrange(at, at + it.un_marshal_len) =~= log.subrange(
            at + n,
            at + n + it.un_marshal_len,
        ));
    }
}

/// No record is missed: where a scan ends, no valid record with its pad starts.
pub proof fn law_no_record_is_missed(log: Seq<u8>, offset: int, len: int)
    requires
        0 <= offset,
        offset + log.len() <= u64::MAX,
        0 <= len,
        scanned(log, offset).stop_offset - offset + len <= log.len(),
    ensures
        ({
            let at = scanned(log, offset).stop_offset - offset;
            let message = log.subrange(at, at + len);
            valid_record(message) ==> at + record_image(message).len() > log.len()
        }),
    decreases log.len(),
{
    let found = scanned(log, offset);
    law_scan_is_contiguous(log, offset);
    match scan_step(log, offset) {
        ScanStep::End(e) => {
            let message = log.subrange(0, len);
            if valid_record(message) && record_image(message).len() <= log.len() {
                assert(log.take(len) =~= message);
                law_valid_record_is_found(message, log, offset);
            }
        },
        ScanStep::Record(info) => {
            lemma_step_record(log, offset);
            let n = info.padded_len as int;
            law_scan_is_contiguous(log.skip(n), offset + n);
            let at = found.stop_offset - offset;
            law_no_record_is_missed(log.skip(n), offset + n, len);
            assert(log.skip(n).subrange(at - n, at - n + len) =~= log.subrange(at, at + len));
        },
    }
}

/// A record in the log is its message and then zeros, up to the next multiple of
/// a page, and a log is its records one after the other.
pub proof fn law_log_is_padded_records(records: Seq<Seq<u8>>, record: Seq<u8>, i: int)
    requires
        0 < record.len() <= 0xffff_fe00,
        0 <= i < record_image(record).len(),
    ensures
        record_image(record).len() % 512 == 0,
        record.len() <= record_image(record).len() < record.len() + 512,
        record_image(record)[i] == (if i < record.len() {
            record[i]
        } else {
            0
        }),
        image(Seq::<Seq<u8>>::empty()).len() == 0,
        image(records.push(record)) == image(records) + record_image(record),
{
    lemma_record_image_len(record);
    let one = seq![record];
    assert(image(Seq::<Seq<u8>>::empty()) == Seq::<u8>::empty());
    assert(records + one =~= records.push(record));
    super::image::law_batches_add_up(records, one);
    assert(one.skip(1) =~= Seq::<Seq<u8>>::empty());
    assert(image(one) =~= record_image(record));
}

/// A plain vote, prepare or reconfiguration decision that fits a record.
pub open spec fn plain_record(m: MsgView) -> bool {
    &&& plain_message(m)
    &&& m.len() <= 0xffff_fe00
    &&& m is Vote || m is Prepare || (m is Base && m.header().msg_id
        == MSG_RECONFIGURATION_DECISION)
}

/// The bytes of some messages.
pub open spec fn written_records(messages: Seq<MsgView>) -> Seq<Seq<u8>> {
    Seq::new(messages.len(), |i: int| messages[i].bytes())
}

proof fn lemma_plain_records(messages: Seq<MsgView>)
    requires
        forall|i: int| 0 <= i < messages.len() ==> plain_record(#[trigger] messages[i]),
    ensures
        valid_records(written_records(messages)),
{
    let records = written_records(messages);
    assert forall|i: int| 0 <= i < records.len() implies valid_record(#[trigger] records[i]) by {
        assert(plain_record(messages[i]));
        law_plain_message_comes_back(messages[i]);
        law_sent_messages_are_valid_records(messages[i]);
    }
}

proof fn lemma_infos_len(records: Seq<Seq<u8>>, offset: int, i: int)
    requires
        0 <= i < records.len(),
        valid_records(records),
    ensures
        infos(records, offset).len() == records.len(),
        infos(records, offset)[i].decree == parsed_base(records[i])->Some_0.decree,
        infos(records, offset)[i].msg_id == parsed_base(records[i])->Some_0.msg_id,
        infos(records, offset)[i].un_marshal_len == parsed_base(records[i])->Some_0.un_marshal_len,
        infos(records, offset)[i].offset == (offset + image(records.take(i)).len()) as u64,
    decreases records.len(),
{
    let rest = records.skip(1);
    let n = record_image(records[0]).len() as int;
    assert forall|k: int| 0 <= k < rest.len() implies valid_record(#[trigger] rest[k]) by {
        assert(rest[k] == records[k + 1]);
    }
    if i == 0 {
        assert(records.take(0) =~= Seq::empty());
        if rest.len() > 0 {
            lemma_infos_len(rest, offset + n, 0);
        } else {
            assert(infos(rest, offset + n) =~= Seq::empty());
        }
    } else {
        lemma_infos_len(rest, offset + n, i - 1);
        assert(records.take(i).skip(1) =~= rest.take(i - 1));
        assert(records.take(i)[0] == records[0]);
    }
}

/// A log of plain votes, prepares and reconfiguration decisions is read back to
/// its very end, followed by nothing or by zeros. The scan reports all of them, in
/// order, each at the offset behind the ones before it, with its id, its decree and
/// its length.
#[verifier::rlimit(40)]
pub proof fn law_plain_log_is_read_back(messages: Seq<MsgView>, zeros: Seq<u8>, i: int)
    requires
        forall|k: int| 0 <= k < messages.len() ==> plain_record(#[trigger] messages[k]),
        zeros.len() == 0 || zeros.len() >= 512,
        forall|k: int| 0 <= k < zeros.len() ==> zeros[k] == 0,
        image(written_records(messages)).len() + zeros.len() <= u64::MAX,
    ensures
        ({
            let log = image(written_records(messages));
            let found = scanned(log + zeros, 0);
            &&& found.end == (if zeros.len() == 0 {
                ScanEnd::Eof
            } else {
                ScanEnd::Stop(StopReason::ZeroRegion)
            })
            &&& found.stop_offset == log.len()
            &&& found.records.len() == messages.len()
            &&& 0 <= i < messages.len() ==> {
                &&& found.records[i].msg_id == messages[i].header().msg_id
                &&& found.records[i].decree == messages[i].header().decree
                &&& found.records[i].un_marshal_len == messages[i].bytes().len()
                &&& found.records[i].offset == image(
                    written_records(messages.take(i)),
                ).len()
            }
        }),
{
    let records = written_records(messages);
    lemma_plain_records(messages);
    if zeros.len() == 0 {
        assert(image(records) + zeros =~= image(records));
        super::image::law_written_log_is_accepted(records);
    } else {
        law_zero_tail_is_discarded(records, zeros, 0);
    }
    if messages.len() == 0 {
        assert(infos(records, 0) =~= Seq::empty());
    } else {
        lemma_infos_len(records, 0, 0);
    }
    if 0 <= i < messages.len() {
        lemma_infos_len(records, 0, i);
        assert(written_records(messages.take(i)) =~= records.take(i));
        assert(plain_record(messages[i]));
        law_message_fields_have_their_places(messages[i]);
        law_plain_message_comes_back(messages[i]);
        let s = messages[i].bytes();
        assert(valid_record(records[i]));
        law_read_header_is_canonical(s, 0);
        lemma_header_front(s);
        lemma_plain_base(messages[i]);
        super::image::law_batches_add_up(records.take(i), records.skip(i));
        assert(records.take(i) + records.skip(i) =~= records);
    }
}

/// The header of a message is read as that of its bytes.
proof fn lemma_plain_base(m: MsgView)
    requires
        plain_record(m),
    ensures
        parsed_base(m.bytes()) is Some,
        parsed_base(m.bytes())->Some_0.decree == m.header().decree,
        parsed_base(m.bytes())->Some_0.msg_id == m.header().msg_id,
        parsed_base(m.bytes())->Some_0.un_marshal_len == m.bytes().len(),
{
    law_plain_message_comes_back(m);
    let s = m.bytes();
    match m {
        MsgView::Vote(x) => {
            assert(parsed_vote(s) is Some);
        },
        MsgView::Prepare(x) => {
            assert(parsed_prepare(s) is Some);
        },
        _ => {},
    }
}

/// A record is refused for what is wrong with it: it has no header, it is not as
/// long as its header says, or its message is never logged. In a batch the first
/// record with a fault decides.
pub proof fn law_faulty_records_are_refused<E>(records: Seq<Seq<u8>>, i: int)
    requires
        0 <= i < records.len(),
        forall|k: int| 0 <= k < i ==> record_fault::<E>(#[trigger] records[k]) is None,
    ensures
        ({
            let r = records[i];
            let h = parsed_base(r);
            let fault = batch_fault::<E>(records);
            &&& h is None ==> fault == Some(LogError::<E>::NotAMessage)
            &&& h is Some && h->Some_0.un_marshal_len != r.len() ==> fault is Some && fault->Some_0
                == (LogError::<E>::LengthMismatch {
                declared: h->Some_0.un_marshal_len,
                actual: r.len() as usize,
            })
            &&& h is Some && h->Some_0.un_marshal_len == r.len() && !is_logged(h->Some_0.msg_id)
                ==> fault == Some(LogError::<E>::NotLoggable(h->Some_0.msg_id))
            &&& h is Some && h->Some_0.un_marshal_len == r.len() && is_logged(h->Some_0.msg_id)
                ==> record_fault::<E>(r) is None
            &&& record_fault::<E>(r) is None && i == records.len() - 1 ==> fault is None
        }),
    decreases records.len(),
{
    if i > 0 {
        let rest = records.skip(1);
        assert(record_fault::<E>(records[0]) is None);
        assert forall|k: int| 0 <= k < i - 1 implies record_fault::<E>(
            #[trigger] rest[k],
        ) is None by {
            assert(rest[k] == records[k + 1]);
        }
        law_faulty_records_are_refused::<E>(rest, i - 1);
    } else if records.len() == 1 {
        assert(records.skip(1) =~= Seq::empty());
        assert(batch_fault::<E>(records.skip(1)) is None);
    }
}

} // verus!
