//! Retention: which logs and checkpoints may be deleted.
//!
//! The newest checkpoints are kept, as many as the policy says. Logs are deleted
//! from the oldest on, as long as more than the policy's number are left and the
//! next log starts at or before the decree behind the oldest checkpoint, so that
//! everything in the deleted one is covered by a checkpoint. The oldest
//! checkpoint of the directory counts here, even if it is deleted in the same
//! pass: that can only keep more logs. Without any checkpoint every log is
//! needed.

use vstd::prelude::*;

use crate::dir::{
    ascending, checkpoint_file_name, holding, is_stray, law_holding_log_is_the_closest,
    log_file_name, numbered_name, DataDir, DirError, CHECKPOINT_EXT, LOG_EXT,
};
use crate::durability::{
    dir_of, done_in_part, in_directory, lemma_push_live, lemma_removed_is_gone, live_file,
    parent_of, path_in, remove_ops, DirView, Durability, FilePath, PathView,
};
use crate::sim::{
    crash_image, disk_after, law_safe_prefix_outlives_operations, live_files, op_spares, ops_spare,
    prefix_safe, safe_bytes, CrashPolicy, OpView,
};

verus! {

/// How many files of each kind to keep.
#[derive(Clone, Copy, Debug, PartialEq, Eq, Structural)]
pub struct Retention {
    /// Newest checkpoints to keep. With zero, none is deleted.
    pub max_checkpoints: u32,
    /// Logs to keep. With zero, none is deleted.
    pub max_logs: u32,
}

impl Default for Retention {
    /// Two checkpoints and ten logs.
    fn default() -> (r: Retention)
        ensures
            r.max_checkpoints == 2,
            r.max_logs == 10,
    {
        Retention { max_checkpoints: 2, max_logs: 10 }
    }
}

/// The files that a cleanup deletes, by decree.
#[derive(Debug, PartialEq, Eq)]
pub struct CleanupPlan {
    /// Checkpoints to delete, ascending.
    pub checkpoints: Vec<u64>,
    /// Logs to delete, ascending.
    pub logs: Vec<u64>,
}

impl Clone for CleanupPlan {
    fn clone(&self) -> (r: CleanupPlan)
        ensures
            r.checkpoints@ == self.checkpoints@,
            r.logs@ == self.logs@,
    {
        CleanupPlan {
            checkpoints: vstd::slice::slice_to_vec(self.checkpoints.as_slice()),
            logs: vstd::slice::slice_to_vec(self.logs.as_slice()),
        }
    }
}

impl Default for CleanupPlan {
    fn default() -> (r: CleanupPlan)
        ensures
            r.checkpoints@ == Seq::<u64>::empty(),
            r.logs@ == Seq::<u64>::empty(),
    {
        CleanupPlan { checkpoints: Vec::new(), logs: Vec::new() }
    }
}

/// The paths of files with these decrees and this extension.
pub open spec fn numbered_paths(dir: Seq<char>, decrees: Seq<u64>, ext: Seq<char>) -> Seq<
    PathView,
> {
    decrees.map_values(|d: u64| path_in(dir, numbered_name(d, ext)))
}

impl CleanupPlan {
    /// Whether there is nothing to delete.
    pub fn is_empty(&self) -> (r: bool)
        ensures
            r == (self.checkpoints@.len() == 0 && self.logs@.len() == 0),
    {
        self.checkpoints.len() == 0 && self.logs.len() == 0
    }

    /// The paths to delete, in order.
    pub open spec fn path_views(self, dir: Seq<char>) -> Seq<PathView> {
        numbered_paths(dir, self.checkpoints@, CHECKPOINT_EXT@) + numbered_paths(
            dir,
            self.logs@,
            LOG_EXT@,
        )
    }

    /// The paths to delete, in order: first the checkpoints, then the logs, both
    /// from the oldest on.
    pub fn paths(&self, dir: &str) -> (r: Vec<FilePath>)
        ensures
            r@.map_values(|p: FilePath| p@) == self.path_views(dir@),
    {
        let mut out: Vec<FilePath> = Vec::new();
        let ghost all = self.path_views(dir@);
        let mut i: usize = 0;
        while i < self.checkpoints.len()
            invariant
                i <= self.checkpoints@.len(),
                all == self.path_views(dir@),
                out@.len() == i,
                forall|j: int| 0 <= j < i ==> (#[trigger] out@[j])@ == all[j],
            decreases self.checkpoints@.len() - i,
        {
            out.push(
                FilePath {
                    dir: dir.to_owned(),
                    name: checkpoint_file_name(self.checkpoints[i]),
                },
            );
            i += 1;
        }
        let mut k: usize = 0;
        while k < self.logs.len()
            invariant
                k <= self.logs@.len(),
                all == self.path_views(dir@),
                out@.len() == self.checkpoints@.len() + k,
                forall|j: int| 0 <= j < out@.len() ==> (#[trigger] out@[j])@ == all[j],
            decreases self.logs@.len() - k,
        {
            out.push(FilePath { dir: dir.to_owned(), name: log_file_name(self.logs[k]) });
            k += 1;
        }
        assert(out@.map_values(|p: FilePath| p@) =~= all);
        out
    }
}

/// Number of checkpoints beyond the newest that are kept.
pub open spec fn excess_checkpoints(len: int, retention: Retention) -> int {
    if retention.max_checkpoints == 0 || len <= retention.max_checkpoints {
        0
    } else {
        len - retention.max_checkpoints
    }
}

/// Log number `i` may go: more logs than the policy keeps are left with it, and
/// the next log starts at or before the decree behind the oldest checkpoint.
pub open spec fn log_may_go(
    logs: Seq<u64>,
    oldest_checkpoint: u64,
    retention: Retention,
    i: int,
) -> bool {
    &&& logs.len() - i > retention.max_logs
    &&& i + 1 < logs.len()
    &&& logs[i + 1] <= oldest_checkpoint + 1
}

/// Number of logs that go, counted from number `i` on: as many as may go in one
/// run.
pub open spec fn excess_logs(
    logs: Seq<u64>,
    oldest_checkpoint: u64,
    retention: Retention,
    i: int,
) -> int
    decreases logs.len() - i,
{
    if 0 <= i < logs.len() && log_may_go(logs, oldest_checkpoint, retention, i) {
        1 + excess_logs(logs, oldest_checkpoint, retention, i + 1)
    } else {
        0
    }
}

/// The logs that a cleanup deletes.
pub open spec fn doomed_logs(dir: DataDir, retention: Retention) -> Seq<u64> {
    if retention.max_logs == 0 || dir.checkpoints@.len() == 0 {
        Seq::empty()
    } else {
        dir.logs@.take(excess_logs(dir.logs@, dir.checkpoints@[0], retention, 0))
    }
}

/// The checkpoints that a cleanup deletes.
pub open spec fn doomed_checkpoints(dir: DataDir, retention: Retention) -> Seq<u64> {
    dir.checkpoints@.take(excess_checkpoints(dir.checkpoints@.len() as int, retention))
}

proof fn lemma_excess_logs(
    logs: Seq<u64>,
    oldest_checkpoint: u64,
    retention: Retention,
    i: int,
)
    requires
        0 <= i <= logs.len(),
    ensures
        0 <= excess_logs(logs, oldest_checkpoint, retention, i) <= logs.len() - i,
        logs.len() > i ==> excess_logs(logs, oldest_checkpoint, retention, i) < logs.len() - i,
        forall|j: int|
            i <= j < i + excess_logs(logs, oldest_checkpoint, retention, i) ==> #[trigger]
            log_may_go(logs, oldest_checkpoint, retention, j),
        !log_may_go(
            logs,
            oldest_checkpoint,
            retention,
            i + excess_logs(logs, oldest_checkpoint, retention, i),
        ),
    decreases logs.len() - i,
{
    if 0 <= i < logs.len() && log_may_go(logs, oldest_checkpoint, retention, i) {
        lemma_excess_logs(logs, oldest_checkpoint, retention, i + 1);
    }
}

/// Decides what to delete, from the decrees alone.
pub fn plan(dir: &DataDir, retention: Retention) -> (r: CleanupPlan)
    ensures
        r.checkpoints@ == doomed_checkpoints(*dir, retention),
        r.logs@ == doomed_logs(*dir, retention),
{
    let mut checkpoints: Vec<u64> = Vec::new();
    let n: usize = dir.checkpoints.len();
    let keep: usize = retention.max_checkpoints as usize;
    if retention.max_checkpoints > 0 && n > keep {
        checkpoints = vstd::slice::slice_to_vec(
            vstd::slice::slice_subrange(dir.checkpoints.as_slice(), 0, n - keep),
        );
    }
    assert(checkpoints@ =~= doomed_checkpoints(*dir, retention));
    let mut logs: Vec<u64> = Vec::new();
    if retention.max_logs > 0 && n > 0 {
        let oldest_checkpoint: u64 = dir.checkpoints[0];
        let max_logs: usize = retention.max_logs as usize;
        let total: usize = dir.logs.len();
        let ghost count = excess_logs(dir.logs@, oldest_checkpoint, retention, 0);
        let mut i: usize = 0;
        proof {
            lemma_excess_logs(dir.logs@, oldest_checkpoint, retention, 0);
        }
        while i < total && total - i > max_logs && i + 1 < total && (dir.logs[i + 1]
            <= oldest_checkpoint || dir.logs[i + 1] - 1 == oldest_checkpoint)
            invariant
                i <= total,
                total == dir.logs@.len(),
                max_logs == retention.max_logs,
                logs@ == dir.logs@.take(i as int),
                count == i + excess_logs(dir.logs@, oldest_checkpoint, retention, i as int),
            decreases total - i,
        {
            logs.push(dir.logs[i]);
            i += 1;
            assert(logs@ =~= dir.logs@.take(i as int));
        }
        assert(!log_may_go(dir.logs@, oldest_checkpoint, retention, i as int));
    }
    assert(logs@ =~= doomed_logs(*dir, retention));
    CleanupPlan { checkpoints, logs }
}

/// A cleanup keeps the newest checkpoints, and never deletes the newest one.
pub proof fn law_newest_checkpoints_are_kept(dir: DataDir, retention: Retention)
    ensures
        ({
            let all = dir.checkpoints@.len() as int;
            let gone = doomed_checkpoints(dir, retention).len() as int;
            &&& 0 <= gone <= all
            &&& gone > 0 ==> all - gone == retention.max_checkpoints
            &&& all > 0 ==> gone < all
            &&& retention.max_checkpoints == 0 ==> gone == 0
        }),
{
}

/// The checkpoints that go are the first of the ascending list, so none of them
/// is newer than one that is kept. As many are kept as the policy says, or all if
/// there are no more or the policy says none; the newest is always among them.
pub proof fn law_deleted_checkpoints_are_the_oldest(
    dir: DataDir,
    retention: Retention,
    i: int,
    j: int,
)
    requires
        forall|m: int, n: int|
            0 <= m <= n < dir.checkpoints@.len() ==> dir.checkpoints@[m] <= dir.checkpoints@[n],
    ensures
        ({
            let all = dir.checkpoints@;
            let gone = doomed_checkpoints(dir, retention);
            &&& gone.len() <= all.len()
            &&& 0 <= i < gone.len() ==> gone[i] == all[i]
            &&& 0 <= i < gone.len() <= j < all.len() ==> gone[i] <= all[j]
            &&& all.len() > 0 ==> gone.len() < all.len()
            &&& retention.max_checkpoints == 0 || all.len() <= retention.max_checkpoints
                ==> gone.len() == 0
            &&& 0 < retention.max_checkpoints < all.len() ==> all.len() - gone.len()
                == retention.max_checkpoints
        }),
{
}

/// The logs that go are the first of the list. Each of them leaves more logs than
/// the policy keeps before it goes, and the log behind it starts no later than
/// right behind the oldest checkpoint. The first log that stays would break one of
/// these rules.
pub proof fn law_deleted_logs_are_not_needed(dir: DataDir, retention: Retention, i: int)
    requires
        dir.checkpoints@.len() > 0,
        retention.max_logs > 0,
    ensures
        ({
            let logs = dir.logs@;
            let oldest = dir.checkpoints@[0];
            let gone = doomed_logs(dir, retention);
            let n = gone.len() as int;
            &&& n <= logs.len()
            &&& 0 <= i < n ==> gone[i] == logs[i]
            &&& 0 <= i < n ==> logs.len() - i > retention.max_logs
            &&& 0 <= i < n ==> i + 1 < logs.len() && logs[i + 1] <= oldest + 1
            &&& logs.len() - n <= retention.max_logs || n + 1 >= logs.len() || logs[n + 1] > oldest
                + 1
        }),
{
    let oldest = dir.checkpoints@[0];
    lemma_excess_logs(dir.logs@, oldest, retention, 0);
    let n = excess_logs(dir.logs@, oldest, retention, 0);
    if 0 <= i < n {
        assert(log_may_go(dir.logs@, oldest, retention, i));
    }
}

/// Nothing goes that the policy keeps without limit, and no log goes without a
/// checkpoint.
pub proof fn law_unlimited_retention_deletes_nothing(dir: DataDir, retention: Retention)
    ensures
        retention.max_checkpoints == 0 ==> doomed_checkpoints(dir, retention).len() == 0,
        retention.max_logs == 0 ==> doomed_logs(dir, retention).len() == 0,
        dir.checkpoints@.len() == 0 ==> doomed_logs(dir, retention).len() == 0,
{
}

/// What is deleted are the files of the plan, and no others: first its
/// checkpoints, then its logs, each under the name of its decree.
pub proof fn law_plan_names_its_files(plan: CleanupPlan, dir: Seq<char>, i: int)
    requires
        0 <= i < plan.checkpoints@.len() + plan.logs@.len(),
    ensures
        ({
            let paths = plan.path_views(dir);
            let n = plan.checkpoints@.len() as int;
            &&& paths.len() == n + plan.logs@.len()
            &&& i < n ==> paths[i] == path_in(
                dir,
                numbered_name(plan.checkpoints@[i], CHECKPOINT_EXT@),
            )
            &&& i >= n ==> paths[i] == path_in(dir, numbered_name(plan.logs@[i - n], LOG_EXT@))
        }),
{
}

/// A cleanup keeps the number of logs that the policy says, and never deletes
/// the newest log. Without a checkpoint it deletes no log at all.
pub proof fn law_enough_logs_are_kept(dir: DataDir, retention: Retention)
    ensures
        ({
            let all = dir.logs@.len() as int;
            let gone = doomed_logs(dir, retention).len() as int;
            &&& 0 <= gone <= all
            &&& gone > 0 ==> all - gone >= retention.max_logs
            &&& all > 0 ==> gone < all
            &&& dir.checkpoints@.len() == 0 ==> gone == 0
            &&& retention.max_logs == 0 ==> gone == 0
        }),
{
    if retention.max_logs > 0 && dir.checkpoints@.len() > 0 {
        let oldest = dir.checkpoints@[0];
        lemma_excess_logs(dir.logs@, oldest, retention, 0);
        let n = excess_logs(dir.logs@, oldest, retention, 0);
        if n > 0 {
            assert(log_may_go(dir.logs@, oldest, retention, n - 1));
        }
    }
}

/// The log that holds a decree behind the oldest checkpoint is never deleted.
/// Every checkpoint can be rolled forward from the logs that are left, whichever
/// of the deletions have happened.
pub proof fn law_needed_logs_are_kept(dir: DataDir, retention: Retention, decree: u64, i: int)
    requires
        ascending(dir.logs@),
        dir.checkpoints@.len() > 0,
        decree > dir.checkpoints@[0],
        0 <= i < dir.logs@.len(),
        holding(dir.logs@, decree) == Some(dir.logs@[i]),
        i + 1 < dir.logs@.len() ==> dir.logs@[i + 1] > dir.logs@[i],
    ensures
        i >= doomed_logs(dir, retention).len(),
{
    if retention.max_logs > 0 {
        let oldest = dir.checkpoints@[0];
        lemma_excess_logs(dir.logs@, oldest, retention, 0);
        let n = excess_logs(dir.logs@, oldest, retention, 0);
        law_holding_log_is_the_closest(dir.logs@, decree);
        if i < n {
            assert(log_may_go(dir.logs@, oldest, retention, i));
            assert(dir.logs@[i + 1] <= decree);
        }
    }
}

/// A file that could not be deleted, and why.
#[derive(Debug)]
pub struct DeleteFailure<E> {
    /// The file, or the directory if it could not be synced.
    pub path: FilePath,
    /// The error.
    pub error: E,
}

/// The operation deletes one of these files, or syncs the directory.
pub open spec fn is_cleanup_op(op: OpView, paths: Seq<PathView>, dir: DirView) -> bool {
    match op {
        OpView::Remove { path } => paths.contains(path),
        OpView::SyncDir { dir: d } => d == dir,
        _ => false,
    }
}

/// What deleting these files does when nothing fails.
pub open spec fn delete_ops(history: Seq<OpView>, paths: Seq<PathView>) -> Seq<OpView>
    decreases paths.len(),
{
    if paths.len() == 0 {
        Seq::empty()
    } else {
        let front = delete_ops(history, paths.drop_last());
        front + remove_ops(history + front, paths.last())
    }
}

/// One of these failures is about `path`.
pub open spec fn blamed<E>(failures: Seq<DeleteFailure<E>>, path: PathView) -> bool {
    exists|i: int| 0 <= i < failures.len() && (#[trigger] failures[i]).path@ == path
}

/// Files that are gone stay so while a cleanup goes on.
proof fn lemma_gone_stays_gone(
    h: Seq<OpView>,
    ops: Seq<OpView>,
    paths: Seq<PathView>,
    dir: DirView,
    path: PathView,
)
    requires
        live_file(h, path) is None,
        forall|k: int| 0 <= k < ops.len() ==> is_cleanup_op(#[trigger] ops[k], paths, dir),
    ensures
        live_file(h + ops, path) is None,
    decreases ops.len(),
{
    if ops.len() == 0 {
        assert(h + ops =~= h);
    } else {
        let front = ops.drop_last();
        lemma_gone_stays_gone(h, front, paths, dir, path);
        let op = ops.last();
        assert(is_cleanup_op(op, paths, dir));
        assert(h + ops =~= (h + front).push(op));
        lemma_push_live(h + front, op);
        assert(!live_files(disk_after(h + front)).contains_key(path));
        assert(!live_files(disk_after(h + ops)).contains_key(path));
    }
}

/// A cleanup that stops anywhere leaves every file alone that it was not to
/// delete: what was safe of such a file is there after any crash.
pub proof fn law_cleanup_spares_other_files(
    history: Seq<OpView>,
    ops: Seq<OpView>,
    paths: Seq<PathView>,
    dir: DirView,
    kept: PathView,
    n: int,
    policy: CrashPolicy,
)
    requires
        forall|k: int| 0 <= k < ops.len() ==> is_cleanup_op(#[trigger] ops[k], paths, dir),
        !paths.contains(kept),
        prefix_safe(disk_after(history), kept, n),
    ensures
        crash_image(history + ops, policy).contains_key(kept),
        crash_image(history + ops, policy)[kept].len() >= n,
        crash_image(history + ops, policy)[kept].take(n) == safe_bytes(
            disk_after(history),
            kept,
            n,
        ),
{
    assert(ops_spare(ops, kept, n)) by {
        assert forall|i: int| 0 <= i < ops.len() implies op_spares(#[trigger] ops[i], kept, n) by {
            assert(is_cleanup_op(ops[i], paths, dir));
        }
    }
    law_safe_prefix_outlives_operations(history, ops, kept, n, policy);
}

/// One call was made that does `ops` when it succeeds. If it failed, `failed` was
/// `before` with `path` added, and part of `ops` may have been done.
pub open spec fn called(
    before: Seq<OpView>,
    after: Seq<OpView>,
    ops: Seq<OpView>,
    path: PathView,
    failed_before: Seq<PathView>,
    failed: Seq<PathView>,
) -> bool {
    ||| after == before + ops && failed == failed_before
    ||| done_in_part(before, after, ops) && failed == failed_before.push(path)
}

/// Each of `paths` was asked to be removed once, in that order, whichever failed.
/// Those that failed are `failed`, in order.
pub open spec fn asked_to_remove(
    before: Seq<OpView>,
    after: Seq<OpView>,
    paths: Seq<PathView>,
    failed: Seq<PathView>,
) -> bool
    decreases paths.len(),
{
    if paths.len() == 0 {
        after == before && failed.len() == 0
    } else {
        exists|mid: Seq<OpView>, first: Seq<PathView>|
            {
                &&& asked_to_remove(before, mid, paths.drop_last(), first)
                &&& #[trigger] called(
                    mid,
                    after,
                    remove_ops(mid, paths.last()),
                    paths.last(),
                    first,
                    failed,
                )
            }
    }
}

/// A cleanup asked for each of `paths` to be removed, and then, if there were
/// any, for the directory to be synced. What failed of that is `failed`, in
/// order; the directory stands for its sync.
pub open spec fn cleaned_up(
    before: Seq<OpView>,
    after: Seq<OpView>,
    paths: Seq<PathView>,
    dir: Seq<char>,
    failed: Seq<PathView>,
) -> bool {
    let here = path_in(dir, Seq::empty());
    if paths.len() == 0 {
        after == before && failed.len() == 0
    } else {
        exists|mid: Seq<OpView>, first: Seq<PathView>|
            {
                &&& #[trigger] asked_to_remove(before, mid, paths, first)
                &&& called(
                    mid,
                    after,
                    seq![OpView::SyncDir { dir: parent_of(here) }],
                    here,
                    first,
                    failed,
                )
            }
    }
}

/// What some failures are about.
pub open spec fn failed_paths<E>(failures: Seq<DeleteFailure<E>>) -> Seq<PathView> {
    failures.map_values(|f: DeleteFailure<E>| f.path@)
}

/// Deletes the files of a plan, every one of them even if some cannot be, and
/// makes the deletions safe by syncing the directory once at the end. The
/// result is the list of failures. A file that is gone already is none.
#[verifier::rlimit(40)]
pub fn apply_with<D: Durability>(dir: &str, plan: &CleanupPlan, durability: &mut D) -> (r: Vec<
    DeleteFailure<D::Error>,
>)
    requires
        old(durability).ok(),
    ensures
        final(durability).ok(),
        final(durability).reliable() == old(durability).reliable(),
        old(durability).reliable() ==> r@.len() == 0,
        ({
            let paths = plan.path_views(dir@);
            let handle = parent_of(path_in(dir@, Seq::empty()));
            let before = old(durability).history();
            let after = final(durability).history();
            &&& cleaned_up(before, after, paths, dir@, failed_paths(r@))
            &&& before.len() <= after.len()
            &&& after.take(before.len() as int) == before
            &&& forall|i: int|
                before.len() <= i < after.len() ==> is_cleanup_op(
                    #[trigger] after[i],
                    paths,
                    handle,
                )
            &&& r@.len() == 0 ==> after == before + delete_ops(before, paths) + (
            if paths.len() == 0 {
                Seq::empty()
            } else {
                seq![OpView::SyncDir { dir: handle }]
            })
            &&& forall|i: int|
                0 <= i < r@.len() ==> paths.contains((#[trigger] r@[i]).path@) || r@[i].path@ == (
                path_in(dir@, Seq::empty()))
            &&& forall|i: int|
                0 <= i < paths.len() && !blamed(r@, #[trigger] paths[i]) ==> live_file(
                    after,
                    paths[i],
                ) is None
        }),
{
    let mut failures: Vec<DeleteFailure<D::Error>> = Vec::new();
    let paths = plan.paths(dir);
    let ghost views = plan.path_views(dir@);
    let ghost h = durability.history();
    let ghost handle_view = parent_of(path_in(dir@, Seq::empty()));
    let mut i: usize = 0;
    proof {
        assert(h.take(h.len() as int) =~= h);
        assert(h + delete_ops(h, views.take(0)) =~= h);
        assert(asked_to_remove(h, h, views.take(0), failed_paths(failures@)));
    }
    while i < paths.len()
        invariant
            i <= paths@.len(),
            paths@.map_values(|p: FilePath| p@) == views,
            durability.ok(),
            durability.reliable() == old(durability).reliable(),
            durability.reliable() ==> failures@.len() == 0,
            asked_to_remove(
                h,
                durability.history(),
                views.take(i as int),
                failed_paths(failures@),
            ),
            h.len() <= durability.history().len(),
            durability.history().take(h.len() as int) == h,
            forall|k: int|
                h.len() <= k < durability.history().len() ==> is_cleanup_op(
                    #[trigger] durability.history()[k],
                    views,
                    handle_view,
                ),
            failures@.len() == 0 ==> durability.history() == h + delete_ops(
                h,
                views.take(i as int),
            ),
            forall|k: int|
                0 <= k < failures@.len() ==> views.contains((#[trigger] failures@[k]).path@),
            forall|k: int|
                0 <= k < i && !blamed(failures@, #[trigger] views[k]) ==> live_file(
                    durability.history(),
                    views[k],
                ) is None,
        decreases paths@.len() - i,
    {
        let path = &paths[i];
        let ghost before = durability.history();
        let ghost faults = failures@;
        proof {
            assert(views[i as int] == path@);
            assert(views.take(i + 1).drop_last() =~= views.take(i as int));
            assert(views.take(i + 1).last() == path@);
        }
        let ghost mut rest: Seq<OpView> = Seq::empty();
        let ghost asked = remove_ops(before, path@);
        match durability.remove_file(path) {
            Ok(_) => {
                proof {
                    let now = durability.history();
                    lemma_grown(h, before, now, remove_ops(before, path@), views, handle_view);
                    if failures@.len() == 0 {
                        assert(now =~= h + delete_ops(h, views.take(i + 1)));
                    }
                    lemma_removed_is_gone(before, path@);
                    lemma_still_gone(
                        before,
                        now,
                        remove_ops(before, path@),
                        views,
                        handle_view,
                        faults,
                        failures@,
                        i as int,
                    );
                }
            },
            Err(error) => {
                proof {
                    let now = durability.history();
                    let ops = remove_ops(before, path@);
                    let k = choose|k: int|
                        0 <= k <= ops.len() && now == before + #[trigger] ops.take(k);
                    lemma_grown(h, before, now, ops.take(k), views, handle_view);
                    rest = ops.take(k);
                }
                failures.push(DeleteFailure { path: path.clone(), error });
                proof {
                    assert(failures@.last().path@ == path@);
                    lemma_still_gone(
                        before,
                        durability.history(),
                        rest,
                        views,
                        handle_view,
                        faults,
                        failures@,
                        i as int,
                    );
                    assert(blamed(failures@, views[i as int]));
                }
            },
        }
        proof {
            let now = durability.history();
            if failures@.len() == faults.len() {
                assert(failed_paths(failures@) =~= failed_paths(faults));
            } else {
                assert(failed_paths(failures@) =~= failed_paths(faults).push(path@));
            }
            assert(called(
                before,
                now,
                asked,
                path@,
                failed_paths(faults),
                failed_paths(failures@),
            ));
            lemma_asked_once_more(
                h,
                before,
                now,
                views.take(i + 1),
                failed_paths(faults),
                failed_paths(failures@),
            );
        }
        i += 1;
    }
    assert(views.take(i as int) =~= views);
    let ghost deleted = durability.history();
    let ghost undeleted = failed_paths(failures@);
    if !plan.is_empty() {
        let here = FilePath { dir: dir.to_owned(), name: String::new() };
        let handle = crate::durability::parent_or_dot(&here);
        let ghost before = durability.history();
        let ghost op = OpView::SyncDir { dir: handle_view };
        match durability.sync_dir(handle.as_str()) {
            Ok(_) => {
                proof {
                    lemma_grown(
                        h,
                        before,
                        durability.history(),
                        seq![op],
                        views,
                        handle_view,
                    );
                    assert(durability.history() =~= before + seq![op]);
                    assert(called(
                        deleted,
                        durability.history(),
                        seq![op],
                        path_in(dir@, Seq::empty()),
                        undeleted,
                        failed_paths(failures@),
                    ));
                    lemma_still_gone(
                        before,
                        durability.history(),
                        seq![op],
                        views,
                        handle_view,
                        failures@,
                        failures@,
                        views.len() as int,
                    );
                }
            },
            Err(error) => {
                let ghost faults = failures@;
                let ghost mut rest: Seq<OpView> = Seq::empty();
                proof {
                    let now = durability.history();
                    let ops = seq![op];
                    let k = choose|k: int|
                        0 <= k <= ops.len() && now == before + #[trigger] ops.take(k);
                    lemma_grown(h, before, now, ops.take(k), views, handle_view);
                    rest = ops.take(k);
                }
                failures.push(DeleteFailure { path: here, error });
                proof {
                    let at = path_in(dir@, Seq::empty());
                    assert(here@ == at) by {
                        assert(here.name@ =~= Seq::<char>::empty());
                    }
                    assert(failed_paths(failures@) =~= undeleted.push(at));
                    assert(called(
                        deleted,
                        durability.history(),
                        seq![op],
                        at,
                        undeleted,
                        failed_paths(failures@),
                    ));
                    lemma_still_gone(
                        before,
                        durability.history(),
                        rest,
                        views,
                        handle_view,
                        faults,
                        failures@,
                        views.len() as int,
                    );
                }
            },
        }
    } else {
        assert(durability.history() + Seq::<OpView>::empty() =~= durability.history());
    }
    failures
}

proof fn lemma_asked_once_more(
    before: Seq<OpView>,
    mid: Seq<OpView>,
    after: Seq<OpView>,
    paths: Seq<PathView>,
    first: Seq<PathView>,
    failed: Seq<PathView>,
)
    requires
        paths.len() > 0,
        asked_to_remove(before, mid, paths.drop_last(), first),
        called(mid, after, remove_ops(mid, paths.last()), paths.last(), first, failed),
    ensures
        asked_to_remove(before, after, paths, failed),
{
}

proof fn lemma_still_gone<E>(
    before: Seq<OpView>,
    now: Seq<OpView>,
    ops: Seq<OpView>,
    paths: Seq<PathView>,
    dir: DirView,
    old_failures: Seq<DeleteFailure<E>>,
    failures: Seq<DeleteFailure<E>>,
    n: int,
)
    requires
        0 <= n <= paths.len(),
        now == before + ops,
        forall|k: int| 0 <= k < ops.len() ==> is_cleanup_op(#[trigger] ops[k], paths, dir),
        old_failures.len() <= failures.len(),
        failures.take(old_failures.len() as int) =~= old_failures,
        forall|k: int|
            0 <= k < n && !blamed(old_failures, #[trigger] paths[k]) ==> live_file(
                before,
                paths[k],
            ) is None,
    ensures
        forall|k: int|
            0 <= k < n && !blamed(failures, #[trigger] paths[k]) ==> live_file(
                now,
                paths[k],
            ) is None,
{
    assert forall|k: int|
        0 <= k < n && !blamed(failures, #[trigger] paths[k]) implies live_file(
        now,
        paths[k],
    ) is None by {
        if blamed(old_failures, paths[k]) {
            let i = choose|i: int|
                0 <= i < old_failures.len() && (#[trigger] old_failures[i]).path@ == paths[k];
            assert(failures[i] == failures.take(old_failures.len() as int)[i]);
        }
        lemma_gone_stays_gone(before, ops, paths, dir, paths[k]);
    }
}

proof fn lemma_grown(
    h: Seq<OpView>,
    before: Seq<OpView>,
    now: Seq<OpView>,
    ops: Seq<OpView>,
    paths: Seq<PathView>,
    dir: DirView,
)
    requires
        h.len() <= before.len(),
        before.take(h.len() as int) == h,
        forall|k: int|
            h.len() <= k < before.len() ==> is_cleanup_op(#[trigger] before[k], paths, dir),
        now =~= before + ops,
        forall|k: int| 0 <= k < ops.len() ==> is_cleanup_op(#[trigger] ops[k], paths, dir),
    ensures
        h.len() <= now.len(),
        now.take(h.len() as int) == h,
        forall|k: int| h.len() <= k < now.len() ==> is_cleanup_op(#[trigger] now[k], paths, dir),
{
    assert(now.take(h.len() as int) =~= before.take(h.len() as int));
    assert forall|k: int| h.len() <= k < now.len() implies is_cleanup_op(
        #[trigger] now[k],
        paths,
        dir,
    ) by {
        if k < before.len() {
            assert(now[k] == before[k]);
        } else {
            assert(now[k] == ops[k - before.len()]);
        }
    }
}

/// Reads a directory, decides what to delete, and deletes it.
pub fn cleanup_with<D: Durability>(dir: &str, retention: Retention, durability: &mut D) -> (r:
    Result<Vec<DeleteFailure<D::Error>>, DirError<D::Error>>)
    requires
        old(durability).ok(),
    ensures
        final(durability).ok(),
        final(durability).reliable() == old(durability).reliable(),
        r is Err ==> final(durability).history() == old(durability).history(),
        old(durability).reliable() ==> match r {
            Ok(failures) => failures@.len() == 0,
            Err(e) => e is UnparsableName,
        },
        r is Err && r->Err_0 is UnparsableName ==> is_stray(r->Err_0->UnparsableName_0@)
            && in_directory(
            old(durability).history(),
            dir_of(dir@),
            r->Err_0->UnparsableName_0@,
        ),
        r is Ok ==> forall|name: Seq<char>| #[trigger]
            in_directory(old(durability).history(), dir_of(dir@), name) ==> !is_stray(name),
        r is Ok ==> exists|listing: DataDir, doomed: CleanupPlan|
            {
                let paths = #[trigger] doomed.path_views(dir@);
                let handle = parent_of(path_in(dir@, Seq::empty()));
                let before = old(durability).history();
                let after = final(durability).history();
                &&& #[trigger] listing.describes(old(durability).history())
                &&& listing.path@ == dir@
                &&& doomed.checkpoints@ == doomed_checkpoints(listing, retention)
                &&& doomed.logs@ == doomed_logs(listing, retention)
                &&& cleaned_up(before, after, paths, dir@, failed_paths(r->Ok_0@))
                &&& after.take(before.len() as int) == before
                &&& forall|i: int|
                    before.len() <= i < after.len() ==> is_cleanup_op(
                        #[trigger] after[i],
                        paths,
                        handle,
                    )
                &&& r->Ok_0@.len() == 0 ==> after == before + delete_ops(before, paths) + (
                if paths.len() == 0 {
                    Seq::empty()
                } else {
                    seq![OpView::SyncDir { dir: handle }]
                })
                &&& forall|i: int|
                    0 <= i < paths.len() && !blamed(r->Ok_0@, #[trigger] paths[i]) ==> live_file(
                        after,
                        paths[i],
                    ) is None
            },
{
    let listing = match DataDir::scan_with(dir, durability) {
        Ok(listing) => listing,
        Err(e) => {
            return Err(e);
        },
    };
    let doomed = plan(&listing, retention);
    let failures = apply_with(dir, &doomed, durability);
    proof {
        let paths = doomed.path_views(dir@);
        assert(listing.describes(old(durability).history()));
    }
    Ok(failures)
}

/// A cleanup of some files ends with a sync of their directory, whichever of the
/// files could not be removed, unless the sync itself is reported as failed.
pub proof fn law_cleanup_ends_with_a_sync(
    before: Seq<OpView>,
    after: Seq<OpView>,
    paths: Seq<PathView>,
    dir: Seq<char>,
    failed: Seq<PathView>,
)
    requires
        cleaned_up(before, after, paths, dir, failed),
        paths.len() > 0,
        failed.len() == 0 || failed.last() != path_in(dir, Seq::empty()),
    ensures
        after.len() > 0,
        after.last() == (OpView::SyncDir { dir: parent_of(path_in(dir, Seq::empty())) }),
{
}

/// Files that were asked to be removed are there no longer unless their removal is
/// reported as failed, and no more failures are reported than there were files.
pub proof fn law_each_removal_is_asked_for(
    before: Seq<OpView>,
    after: Seq<OpView>,
    paths: Seq<PathView>,
    failed: Seq<PathView>,
)
    requires
        asked_to_remove(before, after, paths, failed),
    ensures
        failed.len() <= paths.len(),
        forall|i: int| 0 <= i < failed.len() ==> paths.contains(#[trigger] failed[i]),
        paths.len() > 0 && (failed.len() == 0 || failed.last() != paths.last()) ==> live_file(
            after,
            paths.last(),
        ) is None,
    decreases paths.len(),
{
    if paths.len() > 0 {
        let (mid, first) = choose|mid: Seq<OpView>, first: Seq<PathView>|
            {
                &&& asked_to_remove(before, mid, paths.drop_last(), first)
                &&& #[trigger] called(
                    mid,
                    after,
                    remove_ops(mid, paths.last()),
                    paths.last(),
                    first,
                    failed,
                )
            };
        law_each_removal_is_asked_for(before, mid, paths.drop_last(), first);
        lemma_removed_is_gone(mid, paths.last());
        assert(paths[paths.len() - 1] == paths.last());
        assert forall|i: int| 0 <= i < failed.len() implies paths.contains(
            #[trigger] failed[i],
        ) by {
            if i < first.len() {
                assert(failed[i] == first[i]);
                assert(paths.drop_last().contains(first[i]));
                let k = choose|k: int| 0 <= k < paths.len() - 1 && paths.drop_last()[k] == first[i];
                assert(paths[k] == failed[i]);
            }
        }
    }
}

} // verus!
