//! A shadow file system that can be crashed at every instant.
//!
//! [`SimCrash`] keeps its files in memory and appends every operation to a
//! journal. The journal can be replayed to any prefix, which gives the state in
//! which the disk would be had power failed at that point.
//!
//! In this model a write is safe only once the file has been synced. A name is
//! safe only once its directory has been synced, whatever became of the file's
//! contents. What is in flight can be lost, but it can also land in part, or
//! out of order; see [`CrashPolicy`].

mod crash;
mod laws;
mod policies;
mod replay;

pub use crash::{ack_labels, op_text, SeekTo, SimCrash, SimError, SimFile, SimReader};
pub use laws::{
    all_spare, bytes_made, changes, entries_flat, flat, flat_in, law_lucky_crash_loses_nothing,
    law_publication_is_all_or_nothing, law_safe_name_survives, law_safe_prefix_outlives_operations,
    law_safe_prefix_survives, law_settled_file_is_left_alone, law_step_keeps_prefix_safe,
    law_sync_dir_makes_names_safe, law_sync_makes_contents_safe, law_synced_file_is_exact,
    law_what_is_synced_survives, name_safe, names, op_spares, ops_spare, prefix_safe, safe_bytes,
    settled, spares, synced_at, syncs, touches,
};
pub(crate) use laws::lemma_changed_all_spares;
pub use policies::{
    brings, law_all_or_none_of_the_changes, law_changes_are_made_in_order,
    law_last_write_is_at_risk, law_lengths_land, law_names_in_flight_share_one_fate,
    law_new_disk_is_empty, law_process_sees_each_operation, law_removed_file_stays_away,
    law_resize_keeps_the_front, law_unsynced_changes_are_lost, law_unsynced_name_is_lost,
    law_write_replaces_bytes, only_lengths,
};
pub use replay::{
    blank_disk, change_fits, changed, changed_all, changed_holey, changed_torn, contents_of,
    crash_image, disk_after, disk_ok, disk_step, entry_dir, extended, fared, fared_all, holed,
    in_flight, last_write, law_disk_stays_ok, law_names_are_ok, law_names_stay_ok,
    law_process_sees_its_writes, lists, lists_image, live_contents, live_distinct, live_files,
    live_step, moved, names_ok, op_fits, op_views, ops_fit, renamed, renamed_all, replay, resized,
    surviving_files, surviving_names, synced, torn_len, written, DiskView, EntryView, InodeView,
    PendingView,
};

use vstd::prelude::*;

use crate::bytes::same_bytes;
use crate::path::{dir_of, same_dir, same_text, DirView, FilePath, PathView};

verus! {

/// A file system operation as plain values.
pub enum OpView {
    /// A file came into existence.
    Create {
        /// Its name.
        path: PathView,
    },
    /// A file was cut or extended.
    Truncate {
        /// The file.
        path: PathView,
        /// Its new length.
        len: u64,
    },
    /// Bytes were written.
    Write {
        /// The file.
        path: PathView,
        /// Where the bytes go.
        offset: u64,
        /// The bytes.
        data: Seq<u8>,
    },
    /// A file's contents and length were synced.
    SyncData {
        /// The file.
        path: PathView,
    },
    /// A file's contents and metadata were synced.
    SyncFile {
        /// The file.
        path: PathView,
    },
    /// A file got a new name.
    Rename {
        /// The old name.
        from: PathView,
        /// The new name.
        to: PathView,
    },
    /// A name was removed.
    Remove {
        /// The name.
        path: PathView,
    },
    /// A directory's names were synced.
    SyncDir {
        /// The directory.
        dir: DirView,
    },
    /// All that came before was acknowledged as safe. This is a mark and does
    /// nothing to the disk.
    Ack {
        /// What was acknowledged.
        label: Seq<char>,
    },
}

/// A file system operation.
#[derive(Debug)]
pub enum Op {
    /// A file came into existence.
    Create {
        /// Its name.
        path: FilePath,
    },
    /// A file was cut or extended.
    Truncate {
        /// The file.
        path: FilePath,
        /// Its new length.
        len: u64,
    },
    /// Bytes were written.
    Write {
        /// The file.
        path: FilePath,
        /// Where the bytes go.
        offset: u64,
        /// The bytes.
        data: Vec<u8>,
    },
    /// A file's contents and length were synced.
    SyncData {
        /// The file.
        path: FilePath,
    },
    /// A file's contents and metadata were synced.
    SyncFile {
        /// The file.
        path: FilePath,
    },
    /// A file got a new name.
    Rename {
        /// The old name.
        from: FilePath,
        /// The new name.
        to: FilePath,
    },
    /// A name was removed.
    Remove {
        /// The name.
        path: FilePath,
    },
    /// A directory's names were synced.
    SyncDir {
        /// The directory.
        dir: String,
    },
    /// All that came before was acknowledged as safe. This is a mark and does
    /// nothing to the disk.
    Ack {
        /// What was acknowledged.
        label: String,
    },
}

impl View for Op {
    type V = OpView;

    open spec fn view(&self) -> OpView {
        match self {
            Op::Create { path } => OpView::Create { path: path@ },
            Op::Truncate { path, len } => OpView::Truncate { path: path@, len: *len },
            Op::Write { path, offset, data } => OpView::Write {
                path: path@,
                offset: *offset,
                data: data@,
            },
            Op::SyncData { path } => OpView::SyncData { path: path@ },
            Op::SyncFile { path } => OpView::SyncFile { path: path@ },
            Op::Rename { from, to } => OpView::Rename { from: from@, to: to@ },
            Op::Remove { path } => OpView::Remove { path: path@ },
            Op::SyncDir { dir } => OpView::SyncDir { dir: dir_of(dir@) },
            Op::Ack { label } => OpView::Ack { label: label@ },
        }
    }
}

impl Clone for Op {
    fn clone(&self) -> (r: Op)
        ensures
            r@ == self@,
    {
        match self {
            Op::Create { path } => Op::Create { path: path.clone() },
            Op::Truncate { path, len } => Op::Truncate { path: path.clone(), len: *len },
            Op::Write { path, offset, data } => Op::Write {
                path: path.clone(),
                offset: *offset,
                data: vstd::slice::slice_to_vec(data.as_slice()),
            },
            Op::SyncData { path } => Op::SyncData { path: path.clone() },
            Op::SyncFile { path } => Op::SyncFile { path: path.clone() },
            Op::Rename { from, to } => Op::Rename { from: from.clone(), to: to.clone() },
            Op::Remove { path } => Op::Remove { path: path.clone() },
            Op::SyncDir { dir } => Op::SyncDir { dir: dir.clone() },
            Op::Ack { label } => Op::Ack { label: label.clone() },
        }
    }
}

impl PartialEq for Op {
    fn eq(&self, other: &Op) -> (r: bool) {
        match (self, other) {
            (Op::Create { path: a }, Op::Create { path: b }) => a.same_as(b),
            (Op::Truncate { path: a, len: m }, Op::Truncate { path: b, len: n }) => a.same_as(b)
                && *m == *n,
            (
                Op::Write { path: a, offset: m, data: x },
                Op::Write { path: b, offset: n, data: y },
            ) => a.same_as(b) && *m == *n && same_bytes(x.as_slice(), y.as_slice()),
            (Op::SyncData { path: a }, Op::SyncData { path: b }) => a.same_as(b),
            (Op::SyncFile { path: a }, Op::SyncFile { path: b }) => a.same_as(b),
            (Op::Rename { from: a, to: c }, Op::Rename { from: b, to: d }) => a.same_as(b)
                && c.same_as(d),
            (Op::Remove { path: a }, Op::Remove { path: b }) => a.same_as(b),
            (Op::SyncDir { dir: a }, Op::SyncDir { dir: b }) => same_dir(a, b),
            (Op::Ack { label: a }, Op::Ack { label: b }) => same_text(a, b),
            _ => false,
        }
    }
}

impl vstd::std_specs::cmp::PartialEqSpecImpl for Op {
    open spec fn obeys_eq_spec() -> bool {
        true
    }

    open spec fn eq_spec(&self, other: &Op) -> bool {
        self@ == other@
    }
}

impl Eq for Op {

}

/// What becomes of the changes in flight when power fails. What has been synced
/// is not affected by any of these.
#[derive(Clone, Copy, Debug, PartialEq, Eq, Structural)]
pub enum CrashPolicy {
    /// Nothing in flight survives.
    Nothing,
    /// Everything in flight had landed already.
    Everything,
    /// Writes landed, changes of names did not.
    NoDirOps,
    /// Everything landed but the last write of each file, which was cut short
    /// at a sector boundary.
    TornTail,
    /// Everything landed but every other sector of the last write of each file.
    HoleyTail,
    /// Only the last write of each file landed, and changes of its length.
    ReorderedTail,
}

impl CrashPolicy {
    /// Changes of names in flight survive.
    pub open spec fn keeps_dir_ops_spec(self) -> bool {
        !(self is Nothing) && !(self is NoDirOps)
    }

    /// Whether changes of names in flight survive.
    pub fn keeps_dir_ops(self) -> (r: bool)
        ensures
            r == self.keeps_dir_ops_spec(),
    {
        match self {
            CrashPolicy::Nothing => false,
            CrashPolicy::NoDirOps => false,
            _ => true,
        }
    }

    /// The policy in a word.
    pub fn name(self) -> (r: &'static str)
        ensures
            r@ == (match self {
                CrashPolicy::Nothing => "nothing-in-flight"@,
                CrashPolicy::Everything => "everything-in-flight"@,
                CrashPolicy::NoDirOps => "no-dir-ops"@,
                CrashPolicy::TornTail => "torn-tail"@,
                CrashPolicy::HoleyTail => "holey-tail"@,
                CrashPolicy::ReorderedTail => "reordered-tail"@,
            }),
    {
        match self {
            CrashPolicy::Nothing => "nothing-in-flight",
            CrashPolicy::Everything => "everything-in-flight",
            CrashPolicy::NoDirOps => "no-dir-ops",
            CrashPolicy::TornTail => "torn-tail",
            CrashPolicy::HoleyTail => "holey-tail",
            CrashPolicy::ReorderedTail => "reordered-tail",
        }
    }
}

/// Every crash policy.
pub const POLICIES: [CrashPolicy; 6] = [
    CrashPolicy::Nothing,
    CrashPolicy::Everything,
    CrashPolicy::NoDirOps,
    CrashPolicy::TornTail,
    CrashPolicy::HoleyTail,
    CrashPolicy::ReorderedTail,
];

} // verus!
