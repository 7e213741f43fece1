//! Wire and on-disk formats of a replicated state machine log.
//!
//! A replica exchanges Paxos messages, appends the ones that matter to a log
//! file, and now and then saves its state as a checkpoint. This crate holds the
//! byte-level rules of all three, and the policies around them: which files of
//! a data directory are still needed, what a crash may leave behind, how a ring
//! of block buffers is kept busy.

use vstd::prelude::*;

pub mod bytes;
pub mod checkpoint;
pub mod dir;
pub mod durability;
pub mod fprint;
pub mod gc;
pub mod laws;
pub mod log;
pub mod marshal;
pub mod messages;
pub mod path;
pub mod seqio_bench;
pub mod seqread;
pub mod seqwrite;
pub mod sim;
pub mod source;
pub mod text;
pub mod types;
pub mod version;

pub use fprint::{fingerprint, fingerprint_with};
pub use messages::{
    marshal_base, unmarshal_base, verify_checksum, BootstrapMsg, Header, JoinMessage, MarshalError,
    Msg, MsgKind, PrepareAccepted, PrepareMsg, StatusResponse, Vote, MAGIC,
};
pub use types::{BallotNumber, ConfigurationInfo, MemberId, MemberSet, RslNode};
pub use version::ProtocolVersion;

verus! {

/// Every on-disk record is padded to a multiple of this many bytes.
pub const PAGE_SIZE: u32 = 512;

/// Checkpoint user state is written in blocks of this size unless a header says
/// otherwise. Each block ends in an eight byte fingerprint of its data.
pub const CHECKSUM_BLOCK_SIZE: u32 = 4 * 1024 * 1024;

/// Size of the fingerprint that ends a block.
pub const CHECKSUM_SIZE: u32 = 8;

/// The largest page multiple that fits a `u32`.
pub open spec fn last_page() -> int {
    0xffff_fe00
}

/// `x` rounded up to a page multiple, over the unbounded integers.
pub open spec fn page_up(x: int) -> int {
    (x + 511) / 512 * 512
}

/// `x` rounded up to a page multiple, and kept inside the page multiples that a
/// `u32` can hold.
pub open spec fn page_rounded(x: int) -> int {
    if page_up(x) <= last_page() {
        page_up(x)
    } else {
        last_page()
    }
}

/// Rounds `x` up to a page multiple. Lengths above the last page multiple that
/// fits a `u32` saturate there.
pub fn round_up_to_page(x: u32) -> (r: u32)
    ensures
        r == page_rounded(x as int),
{
    let page: u32 = PAGE_SIZE;
    match x.checked_add(page - 1) {
        Some(v) => {
            assert(v & !511u32 == (v / 512) * 512) by (bit_vector);
            v & !(page - 1)
        },
        None => {
            assert(!511u32 == 0xffff_fe00u32) by (bit_vector);
            !(page - 1)
        },
    }
}

/// Rounding gives the least page multiple that is no smaller than the length,
/// wherever a `u32` can hold it.
pub proof fn law_page_rounding_is_least(x: int, m: int)
    requires
        0 <= x <= last_page(),
        m % 512 == 0,
        x <= m,
    ensures
        page_rounded(x) % 512 == 0,
        x <= page_rounded(x) <= m,
        page_rounded(x) < x + 512,
{
}

/// A length that has no page multiple in a `u32` above it rounds to the largest one.
pub proof fn law_page_rounding_stays_in_the_word(x: int)
    requires
        0 <= x,
    ensures
        x <= 0xffff_fe00 ==> page_rounded(x) % 512 == 0 && x <= page_rounded(x) < x + 512,
        x > 0xffff_fe00 ==> page_rounded(x) == 0xffff_fe00,
        page_up(x) % 512 == 0,
        x <= page_up(x) < x + 512,
{
}

/// Rounding twice changes nothing more.
pub proof fn law_page_rounding_is_idempotent(x: int)
    requires
        0 <= x,
    ensures
        page_rounded(page_rounded(x)) == page_rounded(x),
{
}

} // verus!
