//! Clean planning and execution: filtering a scan result down to a selected
//! plan, and the bookkeeping of executing (or simulating) that plan while
//! skipping paths already covered by a deleted ancestor and collecting
//! per-path failures without aborting the batch.
//!
//! The filesystem work itself (probing and recursive removal) is performed
//! by the caller between `CleanRun::next_action` and
//! `CleanRun::record_outcome`; every decision and every piece of bookkeeping
//! is made here.

use vstd::prelude::*;
use crate::strutil::covered_by_any;
use crate::strutil::path_covered_by;
use crate::strutil::str_eq;
use crate::strutil::under_any;
use crate::strutil::views_of;
use crate::types::sat_add64;
use crate::types::CleanPlan;
use crate::types::CleanResult;
use crate::types::ScanItem;
use crate::types::ScanResult;

verus! {

/// Whether the selection holds the path.
pub open spec fn spec_selected(p: Seq<char>, selection: Seq<Seq<char>>) -> bool {
    exists|i: int| 0 <= i < selection.len() && #[trigger] selection[i] == p
}

/// The scan result's paths kept by the selection, in scan-result order.
pub open spec fn spec_plan_paths(items: Seq<ScanItem>, selection: Seq<Seq<char>>) -> Seq<
    Seq<char>,
>
    decreases items.len(),
{
    if items.len() == 0 {
        seq![]
    } else {
        let prev = spec_plan_paths(items.drop_last(), selection);
        if spec_selected(items.last().path@, selection) {
            prev.push(items.last().path@)
        } else {
            prev
        }
    }
}

/// Whether some string of `haystack` equals `p`.
pub fn contains_string(haystack: &Vec<String>, p: &str) -> (r: bool)
    ensures
        r == spec_selected(p@, views_of(haystack@)),
{
    let mut i: usize = 0;
    while i < haystack.len()
        invariant
            i <= haystack@.len(),
            forall|j: int| 0 <= j < i ==> views_of(haystack@)[j] != p@,
        decreases haystack@.len() - i,
    {
        if str_eq(haystack[i].as_str(), p) {
            assert(views_of(haystack@)[i as int] == p@);
            return true;
        }
        i += 1;
    }
    false
}

/// Builds a clean plan: the scan result's paths intersected with the
/// selection, preserving scan-result order. Selected paths the scan did not
/// produce are silently ignored, so a plan can never target an unscanned
/// path.
pub fn build_clean_plan(result: &ScanResult, selection: &Vec<String>, dry_run: bool) -> (r:
    CleanPlan)
    ensures
        views_of(r.paths@) == spec_plan_paths(result.items@, views_of(selection@)),
        r.dry_run == dry_run,
{
    let mut paths: Vec<String> = Vec::new();
    let mut i: usize = 0;
    proof {
        assert(result.items@.take(0) =~= Seq::<ScanItem>::empty());
        assert(views_of(paths@) =~= spec_plan_paths(result.items@.take(0), views_of(selection@)));
    }
    while i < result.items.len()
        invariant
            i <= result.items@.len(),
            views_of(paths@) == spec_plan_paths(
                result.items@.take(i as int),
                views_of(selection@),
            ),
        decreases result.items@.len() - i,
    {
        proof {
            assert(result.items@.take(i as int + 1).drop_last() =~= result.items@.take(i as int));
            assert(result.items@.take(i as int + 1).last() == result.items@[i as int]);
        }
        if contains_string(selection, result.items[i].path.as_str()) {
            let ghost prev = paths@;
            paths.push(result.items[i].path.clone());
            proof {
                assert(views_of(paths@) =~= views_of(prev).push(result.items@[i as int].path@));
            }
        }
        i += 1;
    }
    proof {
        assert(result.items@.take(i as int) =~= result.items@);
    }
    CleanPlan { paths, dry_run }
}

/// What acting on one plan path produced.
#[derive(Debug)]
pub enum DeleteOutcome {
    /// The path no longer existed; the desired end state already held.
    Missing,
    /// The path was deleted — or, in a dry run, would have been — freeing
    /// this many aggregate bytes.
    Removed(u64),
    /// Deletion failed with this message.
    Failed(String),
}

/// The bookkeeping state of a clean execution: what was deleted, what
/// failed, and the bytes freed.
pub ghost struct CleanModel {
    /// Paths recorded as deleted, in plan order.
    pub deleted: Seq<Seq<char>>,
    /// Failed paths with their error messages, in plan order.
    pub failed: Seq<(Seq<char>, Seq<char>)>,
    /// Saturating total of bytes freed.
    pub bytes: u64,
}

/// The state before any path is acted on.
pub open spec fn clean_model_empty() -> CleanModel {
    CleanModel { deleted: seq![], failed: seq![], bytes: 0u64 }
}

/// How one outcome changes the bookkeeping: a missing path changes nothing,
/// a removal records the path and its bytes, a failure records the path and
/// its message.
pub open spec fn apply_outcome(m: CleanModel, p: Seq<char>, oc: DeleteOutcome) -> CleanModel {
    match oc {
        DeleteOutcome::Missing => m,
        DeleteOutcome::Removed(n) => CleanModel {
            deleted: m.deleted.push(p),
            bytes: sat_add64(m.bytes, n),
            ..m
        },
        DeleteOutcome::Failed(e) => CleanModel { failed: m.failed.push((p, e@)), ..m },
    }
}

/// The bookkeeping after executing a plan against a sequence of outcomes:
/// paths covered by an already recorded deletion are skipped and consume no
/// outcome; each remaining path consumes the next outcome in order; if the
/// outcomes run out, execution stops.
pub open spec fn clean_fold(
    paths: Seq<Seq<char>>,
    outcomes: Seq<DeleteOutcome>,
    m: CleanModel,
) -> CleanModel
    decreases paths.len(),
{
    if paths.len() == 0 {
        m
    } else if covered_by_any(paths[0], m.deleted) {
        clean_fold(paths.drop_first(), outcomes, m)
    } else if outcomes.len() == 0 {
        m
    } else {
        clean_fold(
            paths.drop_first(),
            outcomes.drop_first(),
            apply_outcome(m, paths[0], outcomes[0]),
        )
    }
}

/// The model of the views of a failure list.
pub open spec fn failed_views(s: Seq<(String, String)>) -> Seq<(Seq<char>, Seq<char>)> {
    s.map_values(|pr: (String, String)| (pr.0@, pr.1@))
}

/// The bookkeeping a clean result carries.
pub open spec fn clean_result_model(r: CleanResult) -> CleanModel {
    CleanModel {
        deleted: views_of(r.deleted@),
        failed: failed_views(r.failed@),
        bytes: r.bytes_freed,
    }
}

/// The next filesystem action of a clean run. A dry run only ever probes.
#[derive(Debug)]
pub enum CleanAction {
    /// Report whether the path still exists and, when it does, its aggregate
    /// size, without touching the filesystem: answer with `Missing` or
    /// `Removed(size)`.
    Probe(String),
    /// Delete the directory tree if it still exists: answer with `Missing`,
    /// `Removed(size)` or `Failed(message)`.
    Remove(String),
}

/// The state of one clean execution. The caller alternates
/// [`CleanRun::next_action`], the filesystem work, and
/// [`CleanRun::record_outcome`] until `next_action` returns nothing, then
/// takes the result with [`CleanRun::into_result`].
pub struct CleanRun {
    /// The plan's paths, in order.
    pub paths: Vec<String>,
    /// Whether this run only simulates deletion.
    pub dry_run: bool,
    /// Index of the next path to consider.
    pub idx: usize,
    /// Whether an action has been handed out and awaits its outcome.
    pub awaiting: bool,
    /// Paths recorded as deleted so far.
    pub deleted: Vec<String>,
    /// Failures so far, each path with its message.
    pub failed: Vec<(String, String)>,
    /// Saturating total of bytes freed so far.
    pub bytes_freed: u64,
}

/// The bookkeeping a run carries.
pub open spec fn run_model(r: CleanRun) -> CleanModel {
    CleanModel {
        deleted: views_of(r.deleted@),
        failed: failed_views(r.failed@),
        bytes: r.bytes_freed,
    }
}

impl CleanRun {
    /// A fresh run over the plan's paths.
    pub fn new(plan: &CleanPlan) -> (r: Self)
        ensures
            views_of(r.paths@) == views_of(plan.paths@),
            r.dry_run == plan.dry_run,
            r.idx == 0,
            !r.awaiting,
            run_model(r) == clean_model_empty(),
    {
        let mut paths: Vec<String> = Vec::new();
        let mut i: usize = 0;
        while i < plan.paths.len()
            invariant
                i <= plan.paths@.len(),
                views_of(paths@) == views_of(plan.paths@).take(i as int),
            decreases plan.paths@.len() - i,
        {
            let ghost prev = paths@;
            paths.push(plan.paths[i].clone());
            proof {
                assert(views_of(paths@) =~= views_of(prev).push(plan.paths@[i as int]@));
                assert(views_of(plan.paths@).take(i as int + 1) =~= views_of(plan.paths@).take(
                    i as int,
                ).push(plan.paths@[i as int]@));
            }
            i += 1;
        }
        let r = CleanRun {
            paths,
            dry_run: plan.dry_run,
            idx: 0,
            awaiting: false,
            deleted: Vec::new(),
            failed: Vec::new(),
            bytes_freed: 0,
        };
        proof {
            assert(views_of(r.paths@) =~= views_of(plan.paths@));
            assert(views_of(r.deleted@) =~= clean_model_empty().deleted);
            assert(failed_views(r.failed@) =~= clean_model_empty().failed);
        }
        r
    }

    /// Advances over paths already covered by a recorded deletion and hands
    /// out the next action, or nothing when every path has been considered.
    /// A dry run is only ever asked to probe, never to remove.
    pub fn next_action(&mut self) -> (r: Option<CleanAction>)
        requires
            !old(self).awaiting,
            old(self).idx <= old(self).paths@.len(),
        ensures
            final(self).paths == old(self).paths,
            final(self).dry_run == old(self).dry_run,
            final(self).deleted == old(self).deleted,
            final(self).failed == old(self).failed,
            final(self).bytes_freed == old(self).bytes_freed,
            old(self).idx <= final(self).idx <= final(self).paths@.len(),
            forall|j: int|
                old(self).idx <= j < final(self).idx ==> covered_by_any(
                    #[trigger] views_of(final(self).paths@)[j],
                    views_of(final(self).deleted@),
                ),
            match r {
                Option::None => final(self).idx == final(self).paths@.len()
                    && !final(self).awaiting,
                Option::Some(act) => {
                    &&& final(self).awaiting
                    &&& final(self).idx < final(self).paths@.len()
                    &&& !covered_by_any(
                        views_of(final(self).paths@)[final(self).idx as int],
                        views_of(final(self).deleted@),
                    )
                    &&& match act {
                        CleanAction::Probe(p) => final(self).dry_run
                            && p@ == final(self).paths@[final(self).idx as int]@,
                        CleanAction::Remove(p) => !final(self).dry_run
                            && p@ == final(self).paths@[final(self).idx as int]@,
                    }
                },
            },
    {
        while self.idx < self.paths.len()
            invariant
                self.paths == old(self).paths,
                self.dry_run == old(self).dry_run,
                self.deleted == old(self).deleted,
                self.failed == old(self).failed,
                self.bytes_freed == old(self).bytes_freed,
                self.awaiting == old(self).awaiting,
                !self.awaiting,
                old(self).idx <= self.idx <= self.paths@.len(),
                forall|j: int|
                    old(self).idx <= j < self.idx ==> covered_by_any(
                        #[trigger] views_of(self.paths@)[j],
                        views_of(self.deleted@),
                    ),
            decreases self.paths@.len() - self.idx,
        {
            if !under_any(self.paths[self.idx].as_str(), &self.deleted) {
                self.awaiting = true;
                let p = self.paths[self.idx].clone();
                if self.dry_run {
                    return Some(CleanAction::Probe(p));
                } else {
                    return Some(CleanAction::Remove(p));
                }
            }
            self.idx = self.idx + 1;
        }
        None
    }

    /// Records the outcome of the handed-out action: a missing path changes
    /// nothing, a removal is recorded with its bytes, a failure is recorded
    /// with its message. The run moves to the next path.
    pub fn record_outcome(&mut self, oc: &DeleteOutcome)
        requires
            old(self).awaiting,
            old(self).idx < old(self).paths@.len(),
        ensures
            final(self).paths == old(self).paths,
            final(self).dry_run == old(self).dry_run,
            final(self).idx == old(self).idx + 1,
            !final(self).awaiting,
            run_model(*final(self)) == apply_outcome(
                run_model(*old(self)),
                old(self).paths@[old(self).idx as int]@,
                *oc,
            ),
    {
        let count = self.paths.len();
        proof {
            // the index is in bounds, so stepping it past the current path
            // cannot overflow
            assert(self.idx < count);
        }
        match oc {
            DeleteOutcome::Missing => {},
            DeleteOutcome::Removed(bytes) => {
                let ghost prev = self.deleted@;
                let p = self.paths[self.idx].clone();
                self.deleted.push(p);
                self.bytes_freed = self.bytes_freed.saturating_add(*bytes);
                proof {
                    assert(views_of(self.deleted@) =~= views_of(prev).push(
                        self.paths@[self.idx as int]@,
                    ));
                }
            },
            DeleteOutcome::Failed(e) => {
                let ghost prev = self.failed@;
                let p = self.paths[self.idx].clone();
                self.failed.push((p, e.clone()));
                proof {
                    assert(failed_views(self.failed@) =~= failed_views(prev).push(
                        (self.paths@[self.idx as int]@, e@),
                    ));
                }
            },
        }
        self.awaiting = false;
        self.idx = self.idx + 1;
    }

    /// Packs the bookkeeping into a clean result.
    pub fn into_result(self) -> (r: CleanResult)
        ensures
            clean_result_model(r) == run_model(self),
            r.was_dry_run == self.dry_run,
    {
        CleanResult {
            deleted: self.deleted,
            failed: self.failed,
            bytes_freed: self.bytes_freed,
            was_dry_run: self.dry_run,
        }
    }
}

/// A fold over paths all covered by recorded deletions changes nothing.
proof fn lemma_fold_covered_prefix(
    paths: Seq<Seq<char>>,
    outcomes: Seq<DeleteOutcome>,
    m: CleanModel,
    i: int,
    k: int,
)
    requires
        0 <= i <= k <= paths.len(),
        forall|j: int| i <= j < k ==> covered_by_any(#[trigger] paths[j], m.deleted),
    ensures
        clean_fold(paths.skip(i), outcomes, m) == clean_fold(paths.skip(k), outcomes, m),
    decreases k - i,
{
    if i < k {
        assert(paths.skip(i)[0] == paths[i]);
        assert(paths.skip(i).drop_first() =~= paths.skip(i + 1));
        lemma_fold_covered_prefix(paths, outcomes, m, i + 1, k);
    }
}

/// A fold with no outcomes left changes nothing.
proof fn lemma_fold_no_outcomes(paths: Seq<Seq<char>>, outcomes: Seq<DeleteOutcome>, m: CleanModel)
    requires
        outcomes.len() == 0,
    ensures
        clean_fold(paths, outcomes, m) == m,
    decreases paths.len(),
{
    if paths.len() > 0 {
        lemma_fold_no_outcomes(paths.drop_first(), outcomes, m);
    }
}

/// Replays a clean plan against a given sequence of outcomes: the k-th
/// outcome answers the k-th path acted on (paths covered by a recorded
/// deletion are skipped and consume no outcome; if the outcomes run out,
/// execution stops). The result is exactly the fold of the outcomes over
/// the plan's paths.
pub fn execute_clean_decided(plan: &CleanPlan, outcomes: &Vec<DeleteOutcome>) -> (r: CleanResult)
    ensures
        clean_result_model(r) == clean_fold(
            views_of(plan.paths@),
            outcomes@,
            clean_model_empty(),
        ),
        r.was_dry_run == plan.dry_run,
{
    let ghost all_paths = views_of(plan.paths@);
    let mut run = CleanRun::new(plan);
    let mut j: usize = 0;
    let mut done = false;
    proof {
        assert(all_paths.skip(0) =~= all_paths);
        assert(outcomes@.skip(0) =~= outcomes@);
    }
    while !done && j < outcomes.len()
        invariant
            views_of(run.paths@) == all_paths,
            run.dry_run == plan.dry_run,
            !run.awaiting,
            j <= outcomes@.len(),
            run.idx <= run.paths@.len(),
            clean_fold(all_paths, outcomes@, clean_model_empty()) == clean_fold(
                all_paths.skip(run.idx as int),
                outcomes@.skip(j as int),
                run_model(run),
            ),
            done ==> run.idx == run.paths@.len(),
        decreases run.paths@.len() - run.idx + (if done {
            0int
        } else {
            1int
        }),
    {
        let ghost pre_idx = run.idx;
        let ghost pre_model = run_model(run);
        let act = run.next_action();
        proof {
            lemma_fold_covered_prefix(
                all_paths,
                outcomes@.skip(j as int),
                pre_model,
                pre_idx as int,
                run.idx as int,
            );
        }
        match act {
            Option::None => {
                done = true;
                proof {
                    assert(all_paths.skip(run.idx as int).len() == 0);
                }
            },
            Option::Some(_pending) => {
                let ghost mid_idx = run.idx;
                run.record_outcome(&outcomes[j]);
                proof {
                    assert(all_paths.skip(mid_idx as int)[0] == all_paths[mid_idx as int]);
                    assert(all_paths.skip(mid_idx as int).drop_first() =~= all_paths.skip(
                        mid_idx as int + 1,
                    ));
                    assert(outcomes@.skip(j as int)[0] == outcomes@[j as int]);
                    assert(outcomes@.skip(j as int).drop_first() =~= outcomes@.skip(j as int + 1));
                }
                j += 1;
            },
        }
    }
    proof {
        if !done {
            assert(outcomes@.skip(j as int).len() == 0);
            lemma_fold_no_outcomes(
                all_paths.skip(run.idx as int),
                outcomes@.skip(j as int),
                run_model(run),
            );
        } else {
            assert(all_paths.skip(run.idx as int).len() == 0);
        }
    }
    run.into_result()
}


/// A path that vanished between scan and execution (outcome `Missing`) is
/// recorded as neither deleted nor failed and leaves the bytes freed
/// untouched, whatever the state of the run.
pub proof fn lemma_missing_outcome_changes_nothing(m: CleanModel, p: Seq<char>)
    ensures
        apply_outcome(m, p, DeleteOutcome::Missing) == m,
{
}

/// A plan holding a parent directory and, after it, one of its descendants:
/// once the parent's removal is recorded, the descendant is skipped — it is
/// neither deleted a second time nor reported as a failure, and only the
/// parent counts as deleted, whatever outcomes would have followed.
pub proof fn lemma_parent_covers_child(
    parent: Seq<char>,
    child: Seq<char>,
    size: u64,
    rest: Seq<DeleteOutcome>,
)
    requires
        path_covered_by(child, parent),
    ensures
        clean_fold(
            seq![parent, child],
            seq![DeleteOutcome::Removed(size)] + rest,
            clean_model_empty(),
        ).deleted == seq![parent],
        clean_fold(
            seq![parent, child],
            seq![DeleteOutcome::Removed(size)] + rest,
            clean_model_empty(),
        ).failed.len() == 0,
{
    let paths = seq![parent, child];
    let ocs = seq![DeleteOutcome::Removed(size)] + rest;
    assert(ocs[0] == DeleteOutcome::Removed(size));
    assert(!covered_by_any(parent, clean_model_empty().deleted));
    let m1 = apply_outcome(clean_model_empty(), parent, ocs[0]);
    assert(m1.deleted =~= seq![parent]);
    assert(paths.drop_first() =~= seq![child]);
    assert(ocs.drop_first() =~= rest);
    assert(path_covered_by(child, m1.deleted[0]));
    assert(covered_by_any(child, m1.deleted));
    assert(seq![child].drop_first() =~= Seq::<Seq<char>>::empty());
    assert(clean_fold(paths, ocs, clean_model_empty()) == clean_fold(seq![child], rest, m1));
    assert(clean_fold(seq![child], rest, m1) == clean_fold(
        Seq::<Seq<char>>::empty(),
        rest,
        m1,
    ));
    assert(clean_fold(Seq::<Seq<char>>::empty(), rest, m1) == m1);
}

/// No path of the sequence covers another.
pub open spec fn pairwise_non_nested(paths: Seq<Seq<char>>) -> bool {
    forall|i: int, j: int|
        0 <= i < paths.len() && 0 <= j < paths.len() && i != j ==> !path_covered_by(
            #[trigger] paths[i],
            #[trigger] paths[j],
        )
}

/// With pairwise non-nested paths, none covered by an already recorded
/// deletion, and a successful removal answering every path, every path is
/// recorded deleted and nothing fails.
pub proof fn lemma_all_removed(paths: Seq<Seq<char>>, ocs: Seq<DeleteOutcome>, m: CleanModel)
    requires
        paths.len() == ocs.len(),
        pairwise_non_nested(paths),
        forall|i: int| 0 <= i < paths.len() ==> !covered_by_any(#[trigger] paths[i], m.deleted),
        forall|k: int| 0 <= k < ocs.len() ==> #[trigger] ocs[k] is Removed,
    ensures
        clean_fold(paths, ocs, m).deleted.len() == m.deleted.len() + paths.len(),
        clean_fold(paths, ocs, m).failed == m.failed,
    decreases paths.len(),
{
    if paths.len() > 0 {
        let p0 = paths[0];
        assert(ocs[0] is Removed);
        let m1 = apply_outcome(m, p0, ocs[0]);
        assert(m1.deleted == m.deleted.push(p0));
        let dp = paths.drop_first();
        let docs = ocs.drop_first();
        assert forall|i: int| 0 <= i < dp.len() implies !covered_by_any(
            #[trigger] dp[i],
            m1.deleted,
        ) by {
            assert(dp[i] == paths[i + 1]);
            if covered_by_any(dp[i], m1.deleted) {
                let j = choose|j: int|
                    0 <= j < m1.deleted.len() && path_covered_by(dp[i], m1.deleted[j]);
                if j < m.deleted.len() {
                    assert(m1.deleted[j] == m.deleted[j]);
                    assert(covered_by_any(paths[i + 1], m.deleted));
                } else {
                    assert(m1.deleted[j] == p0);
                    assert(path_covered_by(paths[i + 1], paths[0]));
                }
            }
        }
        assert(pairwise_non_nested(dp)) by {
            assert forall|i: int, j: int|
                0 <= i < dp.len() && 0 <= j < dp.len() && i != j implies !path_covered_by(
                #[trigger] dp[i],
                #[trigger] dp[j],
            ) by {
                assert(dp[i] == paths[i + 1]);
                assert(dp[j] == paths[j + 1]);
            }
        }
        lemma_all_removed(dp, docs, m1);
    }
}

/// One failing deletion among pairwise non-nested paths, with every other
/// path answered by a successful removal, still deletes all the other paths
/// and records exactly one failure; execution completes over the whole plan.
pub proof fn lemma_one_failure_still_cleans(
    paths: Seq<Seq<char>>,
    ocs: Seq<DeleteOutcome>,
    m: CleanModel,
    f: int,
)
    requires
        paths.len() == ocs.len(),
        pairwise_non_nested(paths),
        forall|i: int| 0 <= i < paths.len() ==> !covered_by_any(#[trigger] paths[i], m.deleted),
        0 <= f < ocs.len(),
        ocs[f] is Failed,
        forall|k: int| 0 <= k < ocs.len() && k != f ==> #[trigger] ocs[k] is Removed,
    ensures
        clean_fold(paths, ocs, m).deleted.len() == m.deleted.len() + paths.len() - 1,
        clean_fold(paths, ocs, m).failed.len() == m.failed.len() + 1,
    decreases paths.len(),
{
    let p0 = paths[0];
    let m1 = apply_outcome(m, p0, ocs[0]);
    let dp = paths.drop_first();
    let docs = ocs.drop_first();
    assert(pairwise_non_nested(dp)) by {
        assert forall|i: int, j: int|
            0 <= i < dp.len() && 0 <= j < dp.len() && i != j implies !path_covered_by(
            #[trigger] dp[i],
            #[trigger] dp[j],
        ) by {
            assert(dp[i] == paths[i + 1]);
            assert(dp[j] == paths[j + 1]);
        }
    }
    if f == 0 {
        assert(m1.deleted == m.deleted);
        assert(m1.failed == m.failed.push((p0, ocs[0]->Failed_0@)));
        assert forall|i: int| 0 <= i < dp.len() implies !covered_by_any(
            #[trigger] dp[i],
            m1.deleted,
        ) by {
            assert(dp[i] == paths[i + 1]);
        }
        assert forall|k: int| 0 <= k < docs.len() implies #[trigger] docs[k] is Removed by {
            assert(docs[k] == ocs[k + 1]);
        }
        lemma_all_removed(dp, docs, m1);
    } else {
        assert(ocs[0] is Removed);
        assert(m1.deleted == m.deleted.push(p0));
        assert(m1.failed == m.failed);
        assert forall|i: int| 0 <= i < dp.len() implies !covered_by_any(
            #[trigger] dp[i],
            m1.deleted,
        ) by {
            assert(dp[i] == paths[i + 1]);
            if covered_by_any(dp[i], m1.deleted) {
                let j = choose|j: int|
                    0 <= j < m1.deleted.len() && path_covered_by(dp[i], m1.deleted[j]);
                if j < m.deleted.len() {
                    assert(m1.deleted[j] == m.deleted[j]);
                    assert(covered_by_any(paths[i + 1], m.deleted));
                } else {
                    assert(m1.deleted[j] == p0);
                    assert(path_covered_by(paths[i + 1], paths[0]));
                }
            }
        }
        assert(docs[f - 1] == ocs[f]);
        assert forall|k: int| 0 <= k < docs.len() && k != f - 1 implies #[trigger] docs[k]
            is Removed by {
            assert(docs[k] == ocs[k + 1]);
        }
        lemma_one_failure_still_cleans(dp, docs, m1, f - 1);
    }
}


/// Whether the failure list records the path.
pub open spec fn failed_has(failed: Seq<(Seq<char>, Seq<char>)>, p: Seq<char>) -> bool {
    exists|i: int| 0 <= i < failed.len() && (#[trigger] failed[i]).0 == p
}

/// The bookkeeping invariant of a clean execution: over distinct plan paths
/// (and a state that does not yet mention them), no path is ever recorded
/// both deleted and failed.
pub proof fn lemma_deleted_failed_disjoint(
    paths: Seq<Seq<char>>,
    ocs: Seq<DeleteOutcome>,
    m: CleanModel,
)
    requires
        forall|i: int, j: int|
            0 <= i < j < paths.len() ==> (#[trigger] paths[i]) != (#[trigger] paths[j]),
        forall|i: int|
            0 <= i < paths.len() ==> !m.deleted.contains(#[trigger] paths[i]) && !failed_has(
                m.failed,
                paths[i],
            ),
        forall|p: Seq<char>| #[trigger] m.deleted.contains(p) ==> !failed_has(m.failed, p),
    ensures
        forall|p: Seq<char>| #[trigger]
            clean_fold(paths, ocs, m).deleted.contains(p) ==> !failed_has(
                clean_fold(paths, ocs, m).failed,
                p,
            ),
    decreases paths.len(),
{
    if paths.len() == 0 {
    } else {
        let p0 = paths[0];
        let dp = paths.drop_first();
        if covered_by_any(p0, m.deleted) {
            assert forall|i: int|
                0 <= i < dp.len() implies !m.deleted.contains(#[trigger] dp[i]) && !failed_has(
                m.failed,
                dp[i],
            ) by {
                assert(dp[i] == paths[i + 1]);
            }
            lemma_deleted_failed_disjoint(dp, ocs, m);
            assert(clean_fold(paths, ocs, m) == clean_fold(dp, ocs, m));
            assert forall|p: Seq<char>| #[trigger]
                clean_fold(paths, ocs, m).deleted.contains(p) implies !failed_has(
                clean_fold(paths, ocs, m).failed,
                p,
            ) by {
                assert(clean_fold(dp, ocs, m).deleted.contains(p));
            }
        } else if ocs.len() == 0 {
        } else {
            let m1 = apply_outcome(m, p0, ocs[0]);
            let docs = ocs.drop_first();
            match ocs[0] {
                DeleteOutcome::Missing => {
                    assert forall|i: int|
                        0 <= i < dp.len() implies !m1.deleted.contains(#[trigger] dp[i])
                        && !failed_has(m1.failed, dp[i]) by {
                        assert(dp[i] == paths[i + 1]);
                    }
                },
                DeleteOutcome::Removed(_) => {
                    assert(m1.deleted == m.deleted.push(p0));
                    assert forall|i: int|
                        0 <= i < dp.len() implies !m1.deleted.contains(#[trigger] dp[i])
                        && !failed_has(m1.failed, dp[i]) by {
                        assert(dp[i] == paths[i + 1]);
                        if m1.deleted.contains(dp[i]) {
                            let q = choose|q: int|
                                0 <= q < m1.deleted.len() && m1.deleted[q] == dp[i];
                            if q < m.deleted.len() {
                                assert(m.deleted.contains(dp[i]));
                            } else {
                                assert(dp[i] == p0);
                            }
                        }
                    }
                    assert forall|p: Seq<char>| #[trigger]
                        m1.deleted.contains(p) implies !failed_has(m1.failed, p) by {
                        let q = choose|q: int| 0 <= q < m1.deleted.len() && m1.deleted[q] == p;
                        if q < m.deleted.len() {
                            assert(m.deleted.contains(p));
                        } else {
                            assert(p == p0);
                            assert(!failed_has(m.failed, paths[0]));
                        }
                    }
                },
                DeleteOutcome::Failed(_) => {
                    assert(m1.deleted == m.deleted);
                    assert forall|i: int|
                        0 <= i < dp.len() implies !m1.deleted.contains(#[trigger] dp[i])
                        && !failed_has(m1.failed, dp[i]) by {
                        assert(dp[i] == paths[i + 1]);
                        if failed_has(m1.failed, dp[i]) {
                            let q = choose|q: int|
                                0 <= q < m1.failed.len() && (#[trigger] m1.failed[q]).0 == dp[i];
                            if q < m.failed.len() {
                                assert(failed_has(m.failed, dp[i]));
                            } else {
                                assert(dp[i] == p0);
                            }
                        }
                    }
                    assert forall|p: Seq<char>| #[trigger]
                        m1.deleted.contains(p) implies !failed_has(m1.failed, p) by {
                        assert(m.deleted.contains(p));
                        assert(!m.deleted.contains(paths[0]));
                        assert(p != p0);
                        if failed_has(m1.failed, p) {
                            let q = choose|q: int|
                                0 <= q < m1.failed.len() && (#[trigger] m1.failed[q]).0 == p;
                            if q < m.failed.len() {
                                assert(failed_has(m.failed, p));
                            }
                        }
                    }
                },
            }
            assert forall|i: int, j: int|
                0 <= i < j < dp.len() implies (#[trigger] dp[i]) != (#[trigger] dp[j]) by {
                assert(dp[i] == paths[i + 1]);
                assert(dp[j] == paths[j + 1]);
            }
            lemma_deleted_failed_disjoint(dp, docs, m1);
            assert(clean_fold(paths, ocs, m) == clean_fold(dp, docs, m1));
            assert forall|p: Seq<char>| #[trigger]
                clean_fold(paths, ocs, m).deleted.contains(p) implies !failed_has(
                clean_fold(paths, ocs, m).failed,
                p,
            ) by {
                assert(clean_fold(dp, docs, m1).deleted.contains(p));
            }
        }
    }
}

} // verus!
