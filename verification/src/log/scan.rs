//! The recovery scan.

use vstd::prelude::*;

use super::{
    is_loggable, kind_of, loggable, logged_kind, Record, RecordInfo, RejectReason, ScanEnd,
    ScanResult, StopReason,
};
use crate::bytes::{all_zero, is_all_zero, u32_at};
use crate::messages::{
    checksum_ok, law_read_header_is_canonical, parsed_base, parsed_message, unmarshal_base,
    verify_checksum, Header, HeaderView, Msg,
};
use crate::source::{at_most, SliceSource, Source};
use crate::{page_rounded, round_up_to_page, PAGE_SIZE};

verus! {

/// How much of a record body is read at a time. A corrupt header can declare a
/// length near four gigabytes, and memory is taken only for bytes that arrive.
const BODY_READ_CHUNK: usize = 64 * 1024;

/// What a scan finds where a record may start.
pub enum ScanStep {
    /// A valid record.
    Record(RecordInfo),
    /// The end of the scan.
    End(ScanEnd),
}

/// What is known of the record with header `h` at `offset`.
pub open spec fn info_of(h: HeaderView, offset: int) -> RecordInfo {
    RecordInfo {
        offset: offset as u64,
        msg_id: h.msg_id,
        decree: h.decree,
        un_marshal_len: h.un_marshal_len,
        padded_len: page_rounded(h.un_marshal_len as int) as u32,
        checksum: h.checksum,
    }
}

/// What a scan finds in `rest`, the part of a log from `offset` on.
#[verifier::opaque]
pub open spec fn scan_step(rest: Seq<u8>, offset: int) -> ScanStep {
    if rest.len() == 0 {
        ScanStep::End(ScanEnd::Eof)
    } else if rest.len() < 512 {
        ScanStep::End(ScanEnd::Reject(RejectReason::PartialHeaderPage))
    } else {
        match parsed_base(rest.take(512)) {
            None => if all_zero(rest) {
                ScanStep::End(ScanEnd::Stop(StopReason::ZeroRegion))
            } else {
                ScanStep::End(ScanEnd::Reject(RejectReason::HeaderUnmarshal))
            },
            Some(h) => {
                let padded = page_rounded(h.un_marshal_len as int);
                if !loggable(h.msg_id) {
                    ScanStep::End(ScanEnd::Reject(RejectReason::UnknownMessageId))
                } else if rest.len() < padded {
                    ScanStep::End(ScanEnd::Stop(StopReason::TornTail))
                } else {
                    let message = at_most(rest.take(padded), h.un_marshal_len as int);
                    if !checksum_ok(message) {
                        if all_zero(rest.skip(padded)) {
                            ScanStep::End(ScanEnd::Stop(StopReason::TrailingChecksumMismatch))
                        } else {
                            ScanStep::End(ScanEnd::Reject(RejectReason::ChecksumMismatch))
                        }
                    } else if parsed_message(logged_kind(h.msg_id)->Some_0, message) is None {
                        ScanStep::End(ScanEnd::Reject(RejectReason::RecordUnmarshal))
                    } else {
                        ScanStep::Record(info_of(h, offset))
                    }
                }
            },
        }
    }
}

/// What a scan found, as plain values.
pub struct ScanView {
    /// How the scan ended.
    pub end: ScanEnd,
    /// Where it ended.
    pub stop_offset: int,
    /// The valid records before that.
    pub records: Seq<RecordInfo>,
}

/// What a scan of `rest`, the part of a log from `offset` on, finds.
pub open spec fn scanned(rest: Seq<u8>, offset: int) -> ScanView
    decreases rest.len(),
{
    match scan_step(rest, offset) {
        ScanStep::End(end) => ScanView { end, stop_offset: offset, records: Seq::empty() },
        ScanStep::Record(info) => if 0 < info.padded_len <= rest.len() {
            let after = scanned(rest.skip(info.padded_len as int), offset + info.padded_len);
            ScanView { records: seq![info] + after.records, ..after }
        } else {
            // A record is never empty and never longer than the rest.
            ScanView { end: ScanEnd::Eof, stop_offset: offset, records: Seq::empty() }
        },
    }
}

/// A record that a scan finds takes whole pages of the rest, and its message
/// fits it.
pub proof fn lemma_step_record(rest: Seq<u8>, offset: int)
    requires
        scan_step(rest, offset) is Record,
    ensures
        ({
            let info = scan_step(rest, offset)->Record_0;
            &&& 512 <= info.padded_len <= rest.len()
            &&& info.padded_len == page_rounded(info.un_marshal_len as int)
            &&& info.un_marshal_len <= info.padded_len
            &&& info.offset == offset as u64
            &&& loggable(info.msg_id)
            &&& checksum_ok(rest.take(info.un_marshal_len as int))
            &&& parsed_message(
                logged_kind(info.msg_id)->Some_0,
                rest.take(info.un_marshal_len as int),
            ) is Some
        }),
{
    reveal(scan_step);
    let h = parsed_base(rest.take(512))->Some_0;
    law_read_header_is_canonical(rest.take(512), 0);
    let padded = page_rounded(h.un_marshal_len as int);
    let message = at_most(rest.take(padded), h.un_marshal_len as int);
    reveal(u32_at);
    if h.un_marshal_len > padded {
        assert(u32_at(message, 2) == u32_at(rest.take(512), 2));
    } else {
        assert(message =~= rest.take(h.un_marshal_len as int));
    }
}

/// A scan that hands out one record at a time, and holds no more than one in
/// memory.
///
/// The scan is over when [`LogScanner::next_record`] returns `None`.
/// [`LogScanner::end`] then says how it ended.
pub struct LogScanner<R: Source> {
    inner: R,
    offset: u64,
    end: Option<ScanEnd>,
}

impl<R: Source> LogScanner<R> {
    /// The offset counts no further than a `u64` can.
    pub open spec fn wf(self) -> bool {
        self.ended() is None ==> self.at() + self.rest().len() <= u64::MAX
    }

    /// The part of the log that has not been scanned.
    pub closed spec fn rest(self) -> Seq<u8> {
        self.inner.rest()
    }

    /// Where that part starts.
    pub closed spec fn at(self) -> int {
        self.offset as int
    }

    /// How the scan ended, if it has.
    pub closed spec fn ended(self) -> Option<ScanEnd> {
        self.end
    }

    /// Reads of the source never fail.
    pub closed spec fn steady(self) -> bool {
        self.inner.steady()
    }

    /// A scan of `inner`, which must start where a record does.
    pub fn new(inner: R) -> (r: LogScanner<R>)
        requires
            inner.rest().len() <= u64::MAX,
        ensures
            r.wf(),
            r.rest() == inner.rest(),
            r.at() == 0,
            r.ended() is None,
            r.steady() == inner.steady(),
    {
        LogScanner { inner, offset: 0, end: None }
    }

    /// The scan with offsets counted from `offset`. A caller that starts in the
    /// middle of a log gets offsets in the whole log this way.
    pub fn at_offset(self, offset: u64) -> (r: LogScanner<R>)
        requires
            offset + self.rest().len() <= u64::MAX,
        ensures
            r.wf(),
            r.rest() == self.rest(),
            r.at() == offset,
            r.ended() == self.ended(),
            r.steady() == self.steady(),
    {
        LogScanner { inner: self.inner, offset, end: self.end }
    }

    /// How the scan ended, `None` while it goes on.
    pub fn end(&self) -> (r: Option<ScanEnd>)
        ensures
            r == self.ended(),
    {
        self.end
    }

    /// The offset behind the last record. When the scan is over, this is where
    /// it ended.
    pub fn offset(&self) -> (r: u64)
        ensures
            r == self.at(),
    {
        self.offset
    }

    /// The next record, or `None` once the scan is over. An error is one of the
    /// source; a malformed log is not an error.
    pub fn next_record(&mut self) -> (r: Result<Option<Record>, R::Error>)
        requires
            old(self).wf(),
        ensures
            r is Ok ==> final(self).wf(),
            old(self).steady() ==> r is Ok,
            final(self).steady() == old(self).steady(),
            r is Err ==> final(self).at() == old(self).at() && final(self).ended() is None,
            old(self).ended() is Some ==> r is Ok && r->Ok_0 is None && *final(self) == *old(self),
            old(self).ended() is None && r is Ok ==> match scan_step(
                old(self).rest(),
                old(self).at(),
            ) {
                ScanStep::Record(info) => {
                    &&& r->Ok_0 is Some
                    &&& r->Ok_0->Some_0.info == info
                    &&& r->Ok_0->Some_0.padded@ == old(self).rest().take(info.padded_len as int)
                    &&& final(self).rest() == old(self).rest().skip(info.padded_len as int)
                    &&& final(self).at() == old(self).at() + info.padded_len
                    &&& final(self).ended() is None
                },
                ScanStep::End(end) => {
                    &&& r->Ok_0 is None
                    &&& final(self).ended() == Some(end)
                    &&& final(self).at() == old(self).at()
                },
            },
    {
        if self.end.is_some() {
            return Ok(None);
        }
        self.read_one()
    }

    /// Reads and checks the record at the current offset.
    #[verifier::rlimit(40)]
    fn read_one(&mut self) -> (r: Result<Option<Record>, R::Error>)
        requires
            old(self).wf(),
            old(self).ended() is None,
        ensures
            r is Ok ==> final(self).wf(),
            old(self).steady() ==> r is Ok,
            final(self).steady() == old(self).steady(),
            r is Err ==> final(self).at() == old(self).at() && final(self).ended() is None,
            r is Ok ==> match scan_step(old(self).rest(), old(self).at()) {
                ScanStep::Record(info) => {
                    &&& r->Ok_0 is Some
                    &&& r->Ok_0->Some_0.info == info
                    &&& r->Ok_0->Some_0.padded@ == old(self).rest().take(info.padded_len as int)
                    &&& final(self).rest() == old(self).rest().skip(info.padded_len as int)
                    &&& final(self).at() == old(self).at() + info.padded_len
                    &&& final(self).ended() is None
                },
                ScanStep::End(end) => {
                    &&& r->Ok_0 is None
                    &&& final(self).ended() == Some(end)
                    &&& final(self).at() == old(self).at()
                },
            },
    {
        proof {
            reveal(scan_step);
        }
        let ghost rest = self.rest();
        let page: usize = PAGE_SIZE as usize;
        let mut buf: Vec<u8> = match self.inner.read(page) {
            Ok(v) => v,
            Err(e) => {
                return Err(e);
            },
        };
        if buf.len() == 0 {
            self.end = Some(ScanEnd::Eof);
            return Ok(None);
        }
        if buf.len() < page {
            self.end = Some(ScanEnd::Reject(RejectReason::PartialHeaderPage));
            return Ok(None);
        }
        let header = match unmarshal_base(buf.as_slice()) {
            Some(h) => h,
            None => {
                let zero = is_all_zero(buf.as_slice());
                let mut rest_zero = false;
                if zero {
                    match self.rest_is_zero() {
                        Ok(z) => {
                            rest_zero = z;
                        },
                        Err(e) => {
                            return Err(e);
                        },
                    }
                }
                proof {
                    assert(rest =~= rest.take(512) + rest.skip(512));
                    lemma_all_zero_sum(rest.take(512), rest.skip(512));
                }
                if zero && rest_zero {
                    self.end = Some(ScanEnd::Stop(StopReason::ZeroRegion));
                } else {
                    self.end = Some(ScanEnd::Reject(RejectReason::HeaderUnmarshal));
                }
                return Ok(None);
            },
        };
        if !is_loggable(header.msg_id) {
            self.end = Some(ScanEnd::Reject(RejectReason::UnknownMessageId));
            return Ok(None);
        }
        let padded_len: u32 = round_up_to_page(header.un_marshal_len);
        proof {
            law_read_header_is_canonical(rest.take(512), 0);
        }
        let whole = match self.read_body(&mut buf, padded_len as usize) {
            Ok(whole) => whole,
            Err(e) => {
                return Err(e);
            },
        };
        if !whole {
            self.end = Some(ScanEnd::Stop(StopReason::TornTail));
            return Ok(None);
        }
        proof {
            let n = padded_len - 512;
            assert(rest.take(padded_len as int) =~= rest.take(512) + rest.skip(512).take(n));
            assert(rest.skip(padded_len as int) =~= rest.skip(512).skip(n));
        }
        let un_marshal_len: usize = header.un_marshal_len as usize;
        let message_len: usize = if un_marshal_len < buf.len() {
            un_marshal_len
        } else {
            buf.len()
        };
        let message = vstd::slice::slice_subrange(buf.as_slice(), 0, message_len);
        assert(message@ =~= at_most(rest.take(padded_len as int), header.un_marshal_len as int));
        if !verify_checksum(message) {
            match self.rest_is_zero() {
                Ok(zero) => {
                    if zero {
                        self.end = Some(ScanEnd::Stop(StopReason::TrailingChecksumMismatch));
                    } else {
                        self.end = Some(ScanEnd::Reject(RejectReason::ChecksumMismatch));
                    }
                    return Ok(None);
                },
                Err(e) => {
                    return Err(e);
                },
            }
        }
        let kind = match kind_of(header.msg_id) {
            Some(kind) => kind,
            None => {
                return Ok(None);
            },
        };
        if Msg::unmarshal(kind, message).is_none() {
            self.end = Some(ScanEnd::Reject(RejectReason::RecordUnmarshal));
            return Ok(None);
        }
        let info = record_info(&header, self.offset, padded_len);
        self.offset = self.offset + padded_len as u64;
        Ok(Some(Record { info, padded: buf }))
    }

    /// Reads the rest of a record of `padded_len` bytes behind its first page,
    /// in bounded steps. False means that the log ended first.
    fn read_body(&mut self, buf: &mut Vec<u8>, padded_len: usize) -> (r: Result<bool, R::Error>)
        requires
            old(self).ended() is None,
            old(buf)@.len() == 512,
            512 <= padded_len,
        ensures
            old(self).steady() ==> r is Ok,
            final(self).steady() == old(self).steady(),
            final(self).at() == old(self).at(),
            final(self).ended() is None,
            r is Ok ==> r->Ok_0 == (padded_len <= 512 + old(self).rest().len()),
            r is Ok && r->Ok_0 ==> {
                let n = padded_len - 512;
                &&& final(buf)@ == old(buf)@ + old(self).rest().take(n)
                &&& final(self).rest() == old(self).rest().skip(n)
            },
    {
        let ghost rest = self.rest();
        let ghost start = buf@;
        let ghost mut done: int = 0;
        proof {
            assert(rest.take(0) =~= Seq::empty());
            assert(start + rest.take(0) =~= start);
            assert(rest.skip(0) =~= rest);
        }
        while buf.len() < padded_len
            invariant
                0 <= done <= rest.len(),
                start.len() == 512,
                buf@ == start + rest.take(done),
                self.rest() == rest.skip(done),
                rest == old(self).rest(),
                start == old(buf)@,
                buf@.len() <= padded_len,
                self.ended() is None,
                self.at() == old(self).at(),
                self.steady() == old(self).steady(),
            decreases padded_len - buf@.len(),
        {
            let left: usize = padded_len - buf.len();
            let want: usize = if left < BODY_READ_CHUNK {
                left
            } else {
                BODY_READ_CHUNK
            };
            let mut part = match self.inner.read(want) {
                Ok(part) => part,
                Err(e) => {
                    return Err(e);
                },
            };
            let got: usize = part.len();
            if got < want {
                return Ok(false);
            }
            buf.append(&mut part);
            proof {
                assert(rest.take(done + want) =~= rest.take(done) + rest.skip(done).take(
                    want as int,
                ));
                assert(buf@ =~= start + rest.take(done + want));
                assert(rest.skip(done).skip(want as int) =~= rest.skip(done + want));
                done = done + want;
            }
        }
        Ok(true)
    }

    /// Whether nothing but zeros is left. It looks no further than the first
    /// byte that is not zero.
    fn rest_is_zero(&mut self) -> (r: Result<bool, R::Error>)
        requires
            old(self).ended() is None,
        ensures
            old(self).steady() ==> r is Ok,
            final(self).steady() == old(self).steady(),
            final(self).at() == old(self).at(),
            final(self).ended() is None,
            r is Ok ==> r->Ok_0 == all_zero(old(self).rest()),
    {
        let ghost rest = self.rest();
        loop
            invariant
                self.ended() is None,
                self.at() == old(self).at(),
                self.steady() == old(self).steady(),
                self.rest().len() <= rest.len(),
                all_zero(self.rest()) == all_zero(rest),
                rest == old(self).rest(),
            decreases self.rest().len(),
        {
            let ghost before = self.rest();
            let chunk = match self.inner.read(8192) {
                Ok(chunk) => chunk,
                Err(e) => {
                    return Err(e);
                },
            };
            if chunk.len() == 0 {
                return Ok(true);
            }
            proof {
                assert(before =~= chunk@ + self.rest());
                lemma_all_zero_sum(chunk@, self.rest());
            }
            if !is_all_zero(chunk.as_slice()) {
                return Ok(false);
            }
        }
    }
}

proof fn lemma_all_zero_sum(a: Seq<u8>, b: Seq<u8>)
    ensures
        all_zero(a + b) == (all_zero(a) && all_zero(b)),
{
    if all_zero(a + b) {
        assert forall|i: int| 0 <= i < a.len() implies a[i] == 0 by {
            assert((a + b)[i] == a[i]);
        }
        assert forall|i: int| 0 <= i < b.len() implies b[i] == 0 by {
            assert((a + b)[a.len() + i] == b[i]);
        }
    }
}

/// What is known of the record with this header.
fn record_info(header: &Header, offset: u64, padded_len: u32) -> (r: RecordInfo)
    requires
        padded_len == page_rounded(header@.un_marshal_len as int),
    ensures
        r == info_of(header@, offset as int),
{
    RecordInfo {
        offset,
        msg_id: header.msg_id,
        decree: header.decree,
        un_marshal_len: header.un_marshal_len,
        padded_len,
        checksum: header.checksum,
    }
}

/// Scans a whole log.
pub fn scan<R: Source>(inner: R) -> (r: Result<ScanResult, R::Error>)
    requires
        inner.rest().len() <= u64::MAX,
    ensures
        inner.steady() ==> r is Ok,
        r is Ok ==> r->Ok_0@ == scanned(inner.rest(), 0),
{
    let ghost all = inner.rest();
    let mut scanner = LogScanner::new(inner);
    let mut records: Vec<RecordInfo> = Vec::new();
    assert(records@ + scanned(all, 0).records =~= scanned(all, 0).records);
    loop
        invariant
            all == inner.rest(),
            scanner.wf(),
            scanner.ended() is None,
            scanner.steady() == inner.steady(),
            ({
                let after = scanned(scanner.rest(), scanner.at());
                scanned(all, 0) == (ScanView { records: records@ + after.records, ..after })
            }),
        decreases scanner.rest().len(),
    {
        let ghost rest = scanner.rest();
        let ghost at = scanner.at();
        proof {
            if scan_step(rest, at) is Record {
                lemma_step_record(rest, at);
            }
        }
        match scanner.next_record() {
            Ok(Some(record)) => {
                let ghost before = records@;
                records.push(record.info);
                proof {
                    let after = scanned(scanner.rest(), scanner.at());
                    assert(before + (seq![record.info] + after.records) =~= records@
                        + after.records);
                }
            },
            Ok(None) => {
                assert(scanned(rest, at).records == Seq::<RecordInfo>::empty());
                let end = match scanner.end() {
                    Some(end) => end,
                    None => ScanEnd::Eof,
                };
                assert(records@ + Seq::<RecordInfo>::empty() =~= records@);
                return Ok(ScanResult { end, stop_offset: scanner.offset(), records });
            },
            Err(e) => {
                return Err(e);
            },
        }
    }
}

/// Scans a log in memory. This cannot fail.
pub fn scan_bytes(buf: &[u8]) -> (r: ScanResult)
    ensures
        r@ == scanned(buf@, 0),
{
    let len: usize = buf.len();
    assert(len <= u64::MAX);
    match scan(SliceSource::new(buf)) {
        Ok(r) => r,
        Err(_) => ScanResult { end: ScanEnd::Eof, stop_offset: 0, records: Vec::new() },
    }
}

} // verus!
