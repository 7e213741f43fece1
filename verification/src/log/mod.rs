//! Log files: appended messages, the index of their decrees, and the scan that
//! recovers a log at startup.
//!
//! A log is a bare sequence of records, with nothing before or after it. Each
//! record is one marshaled message, padded to a page boundary. The message's
//! header carries its length and checksum; the checksum does not cover the pad,
//! so a reader takes any pad bytes while the writer always writes zeros.
//!
//! Three message ids are ever logged: votes, prepares and reconfiguration
//! decisions. Any other id in a log is corruption.
//!
//! The recovery scan walks the records from the start and ends in one of three
//! ways. It accepts the log if the records go on to its very end. It stops if
//! they are followed by a tail that a crash may leave: zeros, a torn record, or
//! a record that does not verify with nothing but zeros behind it. It rejects
//! anything else, and the replica must not start.

mod crash;
mod endings;
mod image;
mod index;
mod lookups;
mod reader;
mod safety;
mod scan;
mod writer;

pub use crash::{finds_first_of, holes_show, law_crash_loses_the_tail_only};
pub use endings::{
    ended_behind, ending_fits, is_logged, law_ending_says_what_is_left,
    law_faulty_records_are_refused, law_garbage_is_rejected, law_log_is_padded_records,
    law_no_record_is_missed, law_plain_log_is_read_back, law_reported_records_are_in_the_log,
    law_sent_messages_are_valid_records, law_short_tail_is_rejected, law_torn_record_is_discarded,
    law_unlogged_message_is_rejected, law_unparsable_record_is_rejected,
    law_unverified_record_is_decided_by_what_follows, law_zero_tail_is_discarded, plain_record,
    written_records,
};
pub use image::{
    image, in_pad, infos, law_batches_add_up, law_changed_message_is_not_found,
    law_cut_log_is_decided, law_kept_part_is_accepted, law_pad_bytes_do_not_matter,
    law_reopened_log_goes_on, law_scan_goes_on, law_scan_is_contiguous, law_valid_record_is_found,
    law_written_log_is_accepted, law_written_records_scan_back, record_image, valid_record,
    valid_records,
};
pub use index::{
    indexed, law_index_adds_up, law_index_covers_its_records, law_index_finds_the_last_vote,
    padded_total, DecreeIndex, IndexError, IndexView,
};
pub use lookups::{
    in_a_row, last_on_decree, law_index_finds_the_votes, law_vote_out_of_order_is_refused,
    law_votes_are_indexed_in_order, vote_at, votes_in_a_row, votes_in_order,
};
pub use reader::LogReader;
pub use safety::{
    law_reopening_cuts_the_tail_off, law_returned_append_is_safe, law_sync_makes_the_log_safe,
};
pub use scan::{info_of, scan, scan_bytes, scan_step, scanned, LogScanner, ScanStep, ScanView};

pub use writer::{
    append_ops, append_refusal, appended, batch_bufs, batch_fault, continues_sparing, flattened,
    index_after, law_accepted_batches_add_up, law_acknowledged_records_survive,
    law_batch_is_like_single_appends, law_buffers_are_written_in_a_row, law_new_log_name_is_safe,
    law_scan_rebuilds_the_index, log_path, pad_of, record_fault, records_fit, reopen_ops, sync_ops,
    LogError, LogWriter, Unsynced,
};

use vstd::prelude::*;

use crate::marshal::view_opt;
use crate::messages::{
    parsed_message, Msg, MsgKind, MSG_PREPARE, MSG_RECONFIGURATION_DECISION, MSG_VOTE,
};

verus! {

/// The largest single write that an append issues.
pub const MAX_SINGLE_IO_SIZE: usize = 32 * 1024 * 1024;

/// The message ids that are ever logged.
pub open spec fn loggable(msg_id: u16) -> bool {
    msg_id == MSG_VOTE || msg_id == MSG_PREPARE || msg_id == MSG_RECONFIGURATION_DECISION
}

/// The parser that a logged message id selects.
pub open spec fn logged_kind(msg_id: u16) -> Option<MsgKind> {
    if msg_id == MSG_VOTE {
        Some(MsgKind::Vote)
    } else if msg_id == MSG_PREPARE {
        Some(MsgKind::Prepare)
    } else if msg_id == MSG_RECONFIGURATION_DECISION {
        Some(MsgKind::Base)
    } else {
        None
    }
}

/// Whether messages with this id are ever logged.
pub fn is_loggable(msg_id: u16) -> (r: bool)
    ensures
        r == loggable(msg_id),
{
    msg_id == MSG_VOTE || msg_id == MSG_PREPARE || msg_id == MSG_RECONFIGURATION_DECISION
}

/// The parser that a logged message id selects.
pub(crate) fn kind_of(msg_id: u16) -> (r: Option<MsgKind>)
    ensures
        r == logged_kind(msg_id),
{
    if msg_id == MSG_VOTE {
        Some(MsgKind::Vote)
    } else if msg_id == MSG_PREPARE {
        Some(MsgKind::Prepare)
    } else if msg_id == MSG_RECONFIGURATION_DECISION {
        Some(MsgKind::Base)
    } else {
        None
    }
}

/// The three ways a scan can end.
#[derive(Clone, Copy, Debug, PartialEq, Eq, Structural)]
pub enum Outcome {
    /// The records go on to the end of the log.
    Accept,
    /// The records are followed by a tail that a crash may leave. It is
    /// discarded.
    Stop,
    /// The log is corrupt.
    Reject,
}

impl Outcome {
    /// The outcome in a word.
    pub fn name(self) -> (r: &'static str)
        ensures
            r@ == (match self {
                Outcome::Accept => "accept"@,
                Outcome::Stop => "stop-at-offset"@,
                Outcome::Reject => "reject"@,
            }),
    {
        match self {
            Outcome::Accept => "accept",
            Outcome::Stop => "stop-at-offset",
            Outcome::Reject => "reject",
        }
    }
}

/// Why a scan stopped and kept what it had read.
#[derive(Clone, Copy, Debug, PartialEq, Eq, Structural)]
pub enum StopReason {
    /// Nothing but zeros: the clean end of a log whose tail was never written.
    ZeroRegion,
    /// A record header with fewer bytes behind it than it declares: the last
    /// append was torn.
    TornTail,
    /// A record that does not verify, with nothing but zeros behind it: the
    /// last record was written in part.
    TrailingChecksumMismatch,
}

/// Why a scan rejected the log.
#[derive(Clone, Copy, Debug, PartialEq, Eq, Structural)]
pub enum RejectReason {
    /// Less than a page is left, too little for a record header.
    PartialHeaderPage,
    /// A page that holds no header and is not the start of a zero tail.
    HeaderUnmarshal,
    /// A message id that is never logged.
    UnknownMessageId,
    /// A record that does not verify, with data behind it.
    ChecksumMismatch,
    /// A message that does not parse though its checksum verified.
    RecordUnmarshal,
}

/// How a scan ended, and why.
#[derive(Clone, Copy, Debug, PartialEq, Eq, Structural)]
pub enum ScanEnd {
    /// At the end of the log, with every record valid.
    Eof,
    /// Before a tail that is discarded.
    Stop(StopReason),
    /// At a corruption.
    Reject(RejectReason),
}

impl ScanEnd {
    /// The outcome that this ending amounts to.
    pub open spec fn outcome_of(self) -> Outcome {
        match self {
            ScanEnd::Eof => Outcome::Accept,
            ScanEnd::Stop(_) => Outcome::Stop,
            ScanEnd::Reject(_) => Outcome::Reject,
        }
    }

    /// The outcome that this ending amounts to.
    pub fn outcome(self) -> (r: Outcome)
        ensures
            r == self.outcome_of(),
    {
        match self {
            ScanEnd::Eof => Outcome::Accept,
            ScanEnd::Stop(_) => Outcome::Stop,
            ScanEnd::Reject(_) => Outcome::Reject,
        }
    }

    /// The wording of this ending.
    pub open spec fn wording(self) -> Seq<char> {
        match self {
            ScanEnd::Eof => "all records valid to EOF"@,
            ScanEnd::Stop(StopReason::ZeroRegion) => "zero region (clean EOF)"@,
            ScanEnd::Stop(StopReason::TornTail) => "incomplete trailing message (torn tail)"@,
            ScanEnd::Stop(StopReason::TrailingChecksumMismatch) =>
                "trailing checksum mismatch over zero tail (discarded)"@,
            ScanEnd::Reject(RejectReason::PartialHeaderPage) =>
                "partial header page (< s_PageSize) at tail"@,
            ScanEnd::Reject(RejectReason::HeaderUnmarshal) =>
                "unmarshal failed on non-zero page (corrupt stream)"@,
            ScanEnd::Reject(RejectReason::UnknownMessageId) => "unknown message id in log"@,
            ScanEnd::Reject(RejectReason::ChecksumMismatch) =>
                "checksum mismatch with non-zero data following (corrupt)"@,
            ScanEnd::Reject(RejectReason::RecordUnmarshal) =>
                "failed to unmarshal message body (corrupt stream)"@,
        }
    }

    /// The ending in words. Tools compare these, so they do not change.
    pub fn detail(self) -> (r: &'static str)
        ensures
            r@ == self.wording(),
    {
        match self {
            ScanEnd::Eof => "all records valid to EOF",
            ScanEnd::Stop(StopReason::ZeroRegion) => "zero region (clean EOF)",
            ScanEnd::Stop(StopReason::TornTail) => "incomplete trailing message (torn tail)",
            ScanEnd::Stop(StopReason::TrailingChecksumMismatch) =>
                "trailing checksum mismatch over zero tail (discarded)",
            ScanEnd::Reject(RejectReason::PartialHeaderPage) =>
                "partial header page (< s_PageSize) at tail",
            ScanEnd::Reject(RejectReason::HeaderUnmarshal) =>
                "unmarshal failed on non-zero page (corrupt stream)",
            ScanEnd::Reject(RejectReason::UnknownMessageId) => "unknown message id in log",
            ScanEnd::Reject(RejectReason::ChecksumMismatch) =>
                "checksum mismatch with non-zero data following (corrupt)",
            ScanEnd::Reject(RejectReason::RecordUnmarshal) =>
                "failed to unmarshal message body (corrupt stream)",
        }
    }

    /// Whether recovery may go on with the records read so far.
    pub fn recoverable(self) -> (r: bool)
        ensures
            r == !(self is Reject),
    {
        match self {
            ScanEnd::Reject(_) => false,
            _ => true,
        }
    }
}

/// What is known of a record.
#[derive(Clone, Copy, Debug, PartialEq, Eq, Structural)]
pub struct RecordInfo {
    /// Offset of the record in the log.
    pub offset: u64,
    /// The message id.
    pub msg_id: u16,
    /// The decree that the message is about.
    pub decree: u64,
    /// Length of the message.
    pub un_marshal_len: u32,
    /// Length of the record: the message's, rounded up to a page.
    pub padded_len: u32,
    /// The checksum in the message's header.
    pub checksum: u64,
}

/// A record and its bytes.
#[derive(Debug)]
pub struct Record {
    /// What is known of the record.
    pub info: RecordInfo,
    /// The bytes of the record, pad included.
    pub padded: Vec<u8>,
}

impl Record {
    /// The message without its pad.
    pub fn message_bytes(&self) -> (r: &[u8])
        requires
            self.info.un_marshal_len <= self.padded@.len(),
        ensures
            r@ == self.padded@.take(self.info.un_marshal_len as int),
    {
        let r = vstd::slice::slice_subrange(
            self.padded.as_slice(),
            0,
            self.info.un_marshal_len as usize,
        );
        assert(r@ =~= self.padded@.take(self.info.un_marshal_len as int));
        r
    }

    /// The message, parsed. A record that a scan yields always parses.
    pub fn parse(&self) -> (r: Option<Msg>)
        requires
            self.info.un_marshal_len <= self.padded@.len(),
        ensures
            view_opt(r) == (match logged_kind(self.info.msg_id) {
                Some(kind) => parsed_message(
                    kind,
                    self.padded@.take(self.info.un_marshal_len as int),
                ),
                None => None,
            }),
    {
        let kind = kind_of(self.info.msg_id)?;
        Msg::unmarshal(kind, self.message_bytes())
    }
}

/// What a scan found.
#[derive(Debug, PartialEq, Eq)]
pub struct ScanResult {
    /// How the scan ended.
    pub end: ScanEnd,
    /// Where it ended. The next append starts here; for a rejected log this is
    /// where the corruption begins.
    pub stop_offset: u64,
    /// The valid records before that, in order.
    pub records: Vec<RecordInfo>,
}

impl View for ScanResult {
    type V = ScanView;

    open spec fn view(&self) -> ScanView {
        ScanView {
            end: self.end,
            stop_offset: self.stop_offset as int,
            records: self.records@,
        }
    }
}

impl Clone for ScanResult {
    fn clone(&self) -> (r: ScanResult)
        ensures
            r@ == self@,
    {
        ScanResult {
            end: self.end,
            stop_offset: self.stop_offset,
            records: vstd::slice::slice_to_vec(self.records.as_slice()),
        }
    }
}

impl ScanResult {
    /// The outcome in a word.
    pub fn outcome(&self) -> (r: &'static str)
        ensures
            r@ == (match self.end {
                ScanEnd::Eof => "accept"@,
                ScanEnd::Stop(_) => "stop-at-offset"@,
                ScanEnd::Reject(_) => "reject"@,
            }),
    {
        self.end.outcome().name()
    }

    /// The ending in words.
    pub fn detail(&self) -> (r: &'static str)
        ensures
            r@ == self.end.wording(),
    {
        self.end.detail()
    }

    /// The index of the records, or the first vote that is out of order.
    pub fn index(&self) -> (r: Result<DecreeIndex, IndexError>)
        requires
            padded_total(self.records@) <= u64::MAX,
        ensures
            match indexed(IndexView::none(), self.records@) {
                Ok(index) => r is Ok && r->Ok_0@ == index,
                Err(e) => r == Err::<DecreeIndex, IndexError>(e),
            },
    {
        let mut index = DecreeIndex::new();
        match index::add_records(&mut index, &self.records) {
            Ok(_) => Ok(index),
            Err(e) => Err(e),
        }
    }
}

} // verus!
