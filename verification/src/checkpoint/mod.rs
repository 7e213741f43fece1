//! Checkpoint files: a header, and the user state in checksummed blocks.

mod accepted;
mod blocks;
mod header;
mod laws;
mod plain;
mod reader;
mod sizes;
mod writer;

pub use accepted::{
    law_accepted_checkpoint_reads_back, law_accepted_header_ends_with_its_vote,
    law_accepted_header_is_rewritten_alike, law_accepted_header_is_storable,
    law_accepted_header_keeps_its_fields, law_canonical_header_comes_back,
    law_changed_checkpoint_is_rejected, law_changed_file_is_rejected, law_changed_state_is_rejected,
    law_clean_header_is_rewritten_alike, law_framed_checkpoint_is_found,
    law_read_header_ends_with_its_vote,
};
pub use blocks::{
    block_of, block_step, blocked, law_block_count_gives_the_state_size, law_blocks_read_back,
    law_changed_block_is_rejected, law_plain_state_reads_back, law_rejected_block_rejects_the_state,
    law_state_reads_back, state_in, stored_state, user_size,
};
pub use reader::{
    block_size_of, body_fault, body_of, declared_len, header_of, header_span, header_there,
    read_header, said_len, user_data_size, verified, verify_file, CheckpointReader, Verification,
};
pub use header::{
    bare_header, checked_vote_at, decree_before, fields_at, fields_end,
    law_changed_checkpoint_header_is_refused, law_checkpoint_header_round_trips,
    law_cut_checkpoint_header_is_refused, law_header_takes_whole_pages,
    law_read_checkpoint_header_fits, not_below, old_fields_at, parsed_checkpoint, CheckpointHeader,
    CheckpointView,
};

pub use plain::{
    law_bare_header_is_read_from_its_vote, law_checkpoint_header_is_read_from_its_places,
    law_low_ballot_is_refused, law_plain_checkpoint_header_comes_back,
    law_plain_checkpoint_reads_back, plain_header_fields,
};
pub use sizes::{
    block_verifies, blocks_in, law_accepted_file_has_its_size, law_body_is_refused_for_a_reason,
    law_broken_headers_are_told_apart, law_checkpoint_fields_have_their_places,
    law_checkpoint_is_refused_for_a_reason, law_file_of_another_length_is_rejected,
    law_first_bad_block_decides, law_header_is_fields_vote_and_zeros,
    law_header_is_refused_for_a_reason, law_header_length, law_header_needs_its_pages,
    law_plain_file_is_all_state, law_plain_state_comes_in_pieces,
    law_read_state_is_what_the_blocks_hold, law_state_reads_if_every_block_verifies,
    law_state_stands_in_its_blocks, law_state_starts_behind_the_header,
    law_user_bytes_are_counted_by_blocks, law_verification_reports_the_header, lesser,
};
pub use writer::{
    checkpoint_file, create_refusal, finished_header, given_up, law_checkpoint_is_old_or_new,
    law_checkpoint_reads_back, law_unfinished_checkpoint_is_not_listed, pending_token,
    published_in_part, tmp_path, tmp_path_for, CheckpointWriter,
};

use vstd::prelude::*;

use crate::messages::MarshalError;
use crate::text::{number_string, number_text};

verus! {

/// Why a checkpoint file is rejected.
#[derive(Clone, Copy, Debug, PartialEq, Eq, Structural)]
pub enum RejectReason {
    /// The file is smaller than a page, too small for a header.
    ShortFile,
    /// The version is none of those that exist.
    InvalidVersion,
    /// The file is shorter than its header says the header is.
    TruncatedHeader,
    /// The header, or the vote in it, does not parse or verify.
    HeaderUnmarshal,
    /// The file's size is not the one in its header.
    SizeMismatch,
    /// A last block too small for its checksum.
    BlockTooShort,
    /// A block's checksum does not match its data.
    BlockChecksum,
}

impl RejectReason {
    /// The wording of the reason.
    pub open spec fn wording(self) -> Seq<char> {
        match self {
            RejectReason::ShortFile => "file shorter than one page"@,
            RejectReason::InvalidVersion => "invalid checkpoint version"@,
            RejectReason::TruncatedHeader => "file shorter than header length (truncated)"@,
            RejectReason::HeaderUnmarshal => "checkpoint header unmarshal failed"@,
            RejectReason::SizeMismatch => "file size differs from header m_size"@,
            RejectReason::BlockTooShort => "trailing block smaller than a checksum token"@,
            RejectReason::BlockChecksum => "block checksum mismatch"@,
        }
    }

    /// The reason in words. Tools compare these, so they do not change.
    pub fn detail(self) -> (r: &'static str)
        ensures
            r@ == self.wording(),
    {
        match self {
            RejectReason::ShortFile => "file shorter than one page",
            RejectReason::InvalidVersion => "invalid checkpoint version",
            RejectReason::TruncatedHeader => "file shorter than header length (truncated)",
            RejectReason::HeaderUnmarshal => "checkpoint header unmarshal failed",
            RejectReason::SizeMismatch => "file size differs from header m_size",
            RejectReason::BlockTooShort => "trailing block smaller than a checksum token",
            RejectReason::BlockChecksum => "block checksum mismatch",
        }
    }
}

/// Why a checkpoint is not written.
#[derive(Clone, Copy, Debug, PartialEq, Eq, Structural)]
pub enum WriteError {
    /// The version needs a configuration, and there is none.
    MissingConfiguration,
    /// The block size is no multiple of a page.
    BlockSizeNotPageMultiple(u32),
    /// The block size leaves no room for data.
    BlockSizeTooSmall(u32),
    /// The header's length does not fit its field.
    HeaderTooLarge,
    /// The vote cannot be written.
    Vote(MarshalError),
}

impl WriteError {
    /// The wording of the error.
    pub open spec fn wording(self) -> Seq<char> {
        match self {
            WriteError::MissingConfiguration =>
                "checkpoint header at version >= 3 without a configuration"@,
            WriteError::BlockSizeNotPageMultiple(n) => "checksum block size "@ + number_text(
                n as nat,
            ) + " is not a multiple of 512"@,
            WriteError::BlockSizeTooSmall(n) => "checksum block size "@ + number_text(n as nat)
                + " leaves no room for data"@,
            WriteError::HeaderTooLarge => "marshaled checkpoint header exceeds 4 GiB"@,
            WriteError::Vote(e) => "next vote cannot be marshaled: "@ + e.wording(),
        }
    }

    /// The error in words.
    pub fn message(self) -> (r: String)
        ensures
            r@ == self.wording(),
    {
        match self {
            WriteError::MissingConfiguration => {
                "checkpoint header at version >= 3 without a configuration".to_owned()
            },
            WriteError::BlockSizeNotPageMultiple(n) => {
                let mut r = "checksum block size ".to_owned();
                r.append(number_string(n as u64).as_str());
                r.append(" is not a multiple of 512");
                r
            },
            WriteError::BlockSizeTooSmall(n) => {
                let mut r = "checksum block size ".to_owned();
                r.append(number_string(n as u64).as_str());
                r.append(" leaves no room for data");
                r
            },
            WriteError::HeaderTooLarge => "marshaled checkpoint header exceeds 4 GiB".to_owned(),
            WriteError::Vote(e) => {
                let mut r = "next vote cannot be marshaled: ".to_owned();
                r.append(e.message());
                r
            },
        }
    }
}

/// Anything that can go wrong with a checkpoint.
#[derive(Debug, PartialEq, Eq)]
pub enum CheckpointError<E> {
    /// The file is malformed or corrupt.
    Reject(RejectReason),
    /// The checkpoint cannot be written.
    Write(WriteError),
    /// The file system failed.
    Io(E),
    /// The file ended before its size was reached.
    UnexpectedEnd,
}

impl<E> CheckpointError<E> {
    /// The error in words. `cause` is the file system's own error in words.
    pub fn message(&self, cause: &str) -> (r: String)
        ensures
            r@ == (match *self {
                CheckpointError::Reject(e) => "checkpoint rejected: "@ + e.wording(),
                CheckpointError::Write(e) => e.wording(),
                CheckpointError::Io(_) => cause@,
                CheckpointError::UnexpectedEnd => "failed to fill whole buffer"@,
            }),
    {
        match self {
            CheckpointError::Reject(e) => {
                let mut r = "checkpoint rejected: ".to_owned();
                r.append(e.detail());
                r
            },
            CheckpointError::Write(e) => e.message(),
            CheckpointError::Io(_) => cause.to_owned(),
            CheckpointError::UnexpectedEnd => "failed to fill whole buffer".to_owned(),
        }
    }
}

} // verus!
