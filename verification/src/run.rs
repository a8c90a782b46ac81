//! The decisions of the controller's two polling loops.
//!
//! The executor loop counts the tasks waiting in the database and launches
//! an executor job when there are some and their count has changed since the
//! last look. The workspace loop sets up its workspace manager until that
//! succeeds, and from then on keeps the workspaces in step with the jobs.

use vstd::prelude::*;
use crate::text::{
    all_digits, decimal_digits, decimal_value, lemma_decimal_digits_injective,
    lemma_decimal_digits_read_back, push_decimal,
};

verus! {

/// The controller: it runs the executor loop, the workspace loop and the
/// upload server until it is told to stop.
#[derive(Debug, Clone, PartialEq, Eq)]
pub struct Run;

/// What the executor loop does after a look at the task count.
#[derive(Debug, Clone, PartialEq, Eq)]
pub enum ExecutorAction {
    /// Create one more executor job.
    LaunchExecutor,
    /// Pause before the next look.
    Wait,
}

/// The outcome of one look at the task count: the count to remember for the
/// next look, and what to do now.
#[derive(Debug, Clone, PartialEq, Eq)]
pub struct ExecutorStep {
    pub tasks_count: i64,
    pub action: ExecutorAction,
}

/// An executor is launched when tasks wait and their count differs from the
/// one remembered.
pub open spec fn should_launch(last_tasks_count: int, tasks_count: int) -> bool {
    tasks_count > 0 && tasks_count != last_tasks_count
}

/// The count remembered after a look, and whether an executor is launched;
/// `observed` is `None` when the database could not be reached.
pub open spec fn executor_outcome(last_tasks_count: int, observed: Option<int>) -> (int, bool) {
    match observed {
        None => (-1, false),
        Some(c) => if should_launch(last_tasks_count, c) {
            (c, true)
        } else {
            (0, false)
        },
    }
}

/// The value of an observed count in the model.
pub open spec fn observed_view(observed: Option<i64>) -> Option<int> {
    match observed {
        Some(c) => Some(c as int),
        None => None,
    }
}

/// One look of the executor loop, given the count remembered from the last
/// look and the count of waiting tasks (`None` when the database could not
/// be reached).
pub fn executor_step(last_tasks_count: i64, observed: Option<i64>) -> (r: ExecutorStep)
    ensures
        r.tasks_count as int == executor_outcome(last_tasks_count as int, observed_view(observed)).0,
        (r.action is LaunchExecutor) == executor_outcome(last_tasks_count as int, observed_view(observed)).1,
{
    match observed {
        None => ExecutorStep { tasks_count: -1, action: ExecutorAction::Wait },
        Some(c) => {
            if c > 0 && c != last_tasks_count {
                ExecutorStep { tasks_count: c, action: ExecutorAction::LaunchExecutor }
            } else {
                ExecutorStep { tasks_count: 0, action: ExecutorAction::Wait }
            }
        },
    }
}

/// The name of a new executor job: the name in the job manifest, `-`, and
/// one more than the number of executor jobs that exist.
pub open spec fn executor_job_name_of(base: Seq<char>, existing_jobs: nat) -> Seq<char> {
    base + seq!['-'] + decimal_digits(existing_jobs + 1)
}

/// The name of a new executor job (`format!("{}-{}", base, existing + 1)`).
pub fn executor_job_name(base: &str, existing_jobs: usize) -> (r: String)
    requires
        existing_jobs < usize::MAX,
    ensures
        r@ == executor_job_name_of(base@, existing_jobs as nat),
{
    let mut r = base.to_owned().concat("-");
    proof {
        reveal_strlit("-");
    }
    push_decimal(&mut r, (existing_jobs + 1) as u64);
    r
}

/// Where the workspace loop stands.
#[derive(Debug, Clone, PartialEq, Eq)]
pub enum WorkspacePhase {
    /// No workspace manager is set up yet.
    NoManager,
    /// The workspace manager is set up.
    Managing,
}

/// What the workspace loop does at a tick.
#[derive(Debug, Clone, PartialEq, Eq)]
pub enum WorkspaceAction {
    /// Try to set up the workspace manager.
    SetUpManager,
    /// Create the workspaces of new jobs and remove those of gone jobs.
    SyncWorkspaces,
}

/// What the workspace loop does at a tick in `phase`.
pub open spec fn workspace_action_of(phase: WorkspacePhase) -> WorkspaceAction {
    match phase {
        WorkspacePhase::NoManager => WorkspaceAction::SetUpManager,
        WorkspacePhase::Managing => WorkspaceAction::SyncWorkspaces,
    }
}

/// Where the workspace loop stands after a tick in `phase`; `set_up_ok`
/// tells whether setting up the manager succeeded, when that was tried.
pub open spec fn workspace_next_of(phase: WorkspacePhase, set_up_ok: bool) -> WorkspacePhase {
    match phase {
        WorkspacePhase::NoManager => if set_up_ok {
            WorkspacePhase::Managing
        } else {
            WorkspacePhase::NoManager
        },
        WorkspacePhase::Managing => WorkspacePhase::Managing,
    }
}

/// What the workspace loop does at a tick.
pub fn workspace_action(phase: &WorkspacePhase) -> (a: WorkspaceAction)
    ensures
        a == workspace_action_of(*phase),
{
    match phase {
        WorkspacePhase::NoManager => WorkspaceAction::SetUpManager,
        WorkspacePhase::Managing => WorkspaceAction::SyncWorkspaces,
    }
}

/// Where the workspace loop stands after a tick.
pub fn workspace_next(phase: &WorkspacePhase, set_up_ok: bool) -> (p: WorkspacePhase)
    ensures
        p == workspace_next_of(*phase, set_up_ok),
{
    match phase {
        WorkspacePhase::NoManager => if set_up_ok {
            WorkspacePhase::Managing
        } else {
            WorkspacePhase::NoManager
        },
        WorkspacePhase::Managing => WorkspacePhase::Managing,
    }
}

/// An executor is launched only when tasks wait.
pub proof fn lemma_launch_needs_tasks(last_tasks_count: int, observed: Option<int>)
    ensures
        executor_outcome(last_tasks_count, observed).1 ==> (observed matches Some(c) && c > 0),
{
}

/// One executor per count: after a look that launches an executor, a look
/// that sees the same count launches none.
pub proof fn lemma_launch_once_per_count(last_tasks_count: int, tasks_count: int)
    ensures
        executor_outcome(last_tasks_count, Some(tasks_count)).1 ==> !executor_outcome(
            executor_outcome(last_tasks_count, Some(tasks_count)).0,
            Some(tasks_count),
        ).1,
{
}

/// After a look that launches nothing (tasks absent, unchanged, or the
/// database out of reach), the next look that sees waiting tasks launches an
/// executor.
pub proof fn lemma_launch_after_pause(last_tasks_count: int, observed: Option<int>, tasks_count: int)
    requires
        !executor_outcome(last_tasks_count, observed).1,
        tasks_count > 0,
    ensures
        executor_outcome(executor_outcome(last_tasks_count, observed).0, Some(tasks_count)).1,
{
}

/// Where the workspace loop stands after ticks from the start, where
/// `set_up_results` holds, for each tick, whether setting up the manager
/// would succeed.
pub open spec fn workspace_phase_after(set_up_results: Seq<bool>) -> WorkspacePhase
    decreases set_up_results.len(),
{
    if set_up_results.len() == 0 {
        WorkspacePhase::NoManager
    } else {
        workspace_next_of(workspace_phase_after(set_up_results.drop_last()), set_up_results.last())
    }
}

/// The workspace loop manages its workspaces from the first tick whose set-up
/// succeeds on, and not before.
pub proof fn lemma_workspace_manager_kept(set_up_results: Seq<bool>)
    ensures
        (workspace_phase_after(set_up_results) == WorkspacePhase::Managing) <==> (exists|k: int|
            0 <= k < set_up_results.len() && #[trigger] set_up_results[k]),
    decreases set_up_results.len(),
{
    if set_up_results.len() > 0 {
        let init = set_up_results.drop_last();
        lemma_workspace_manager_kept(init);
        if exists|k: int| 0 <= k < init.len() && #[trigger] init[k] {
            let k = choose|k: int| 0 <= k < init.len() && #[trigger] init[k];
            assert(set_up_results[k]);
        }
        if set_up_results.last() {
            assert(set_up_results[set_up_results.len() - 1]);
        }
        if exists|k: int| 0 <= k < set_up_results.len() && #[trigger] set_up_results[k] {
            let k = choose|k: int| 0 <= k < set_up_results.len() && #[trigger] set_up_results[k];
            if k < init.len() {
                assert(init[k]);
            }
        }
    }
}

/// Executor jobs made when different numbers of them exist get different
/// names.
pub proof fn lemma_executor_job_names_distinct(base: Seq<char>, existing1: nat, existing2: nat)
    requires
        existing1 != existing2,
    ensures
        executor_job_name_of(base, existing1) != executor_job_name_of(base, existing2),
{
    let p = base + seq!['-'];
    let a = executor_job_name_of(base, existing1);
    let b = executor_job_name_of(base, existing2);
    if a == b {
        assert(a.subrange(p.len() as int, a.len() as int) =~= decimal_digits(existing1 + 1));
        assert(b.subrange(p.len() as int, b.len() as int) =~= decimal_digits(existing2 + 1));
        lemma_decimal_digits_injective(existing1 + 1, existing2 + 1);
    }
}

/// The outcomes of successive looks of the executor loop that see the task
/// counts `counts`, starting from a remembered count of 0.
pub open spec fn executor_run(counts: Seq<int>) -> Seq<(int, bool)>
    decreases counts.len(),
{
    if counts.len() == 0 {
        Seq::empty()
    } else {
        let prev = executor_run(counts.drop_last());
        let remembered = if prev.len() == 0 {
            0
        } else {
            prev.last().0
        };
        prev.push(executor_outcome(remembered, Some(counts.last())))
    }
}

/// The count remembered before look `k` of a run: 0 before the first look.
pub open spec fn remembered_before(counts: Seq<int>, k: int) -> int {
    if k == 0 {
        0
    } else {
        executor_run(counts)[k - 1].0
    }
}

/// The names of the executor jobs that a run creates: at look `k`, when it
/// launches, the manifest's name `base`, `-`, and one more than the
/// `listed[k]` executor jobs that exist then.
pub open spec fn executor_run_jobs(base: Seq<char>, counts: Seq<int>, listed: Seq<nat>) -> Seq<
    Option<Seq<char>>,
> {
    Seq::new(
        counts.len(),
        |k: int|
            if executor_run(counts)[k].1 {
                Some(executor_job_name_of(base, listed[k]))
            } else {
                None
            },
    )
}

proof fn lemma_executor_run_prefix(counts: Seq<int>)
    ensures
        executor_run(counts).len() == counts.len(),
        counts.len() > 0 ==> executor_run(counts).drop_last() == executor_run(counts.drop_last()),
    decreases counts.len(),
{
    if counts.len() > 0 {
        lemma_executor_run_prefix(counts.drop_last());
        assert(executor_run(counts).drop_last() =~= executor_run(counts.drop_last()));
    }
}

/// The executor loop over a run of looks: starting from a remembered count
/// of 0, look `k` that sees `counts[k]` waiting tasks creates exactly one
/// executor job, named after the manifest and the number of listed executor
/// jobs, exactly when `counts[k]` is positive and differs from the count
/// remembered before it; it then remembers `counts[k]`, and otherwise 0.
pub proof fn lemma_executor_run(base: Seq<char>, counts: Seq<int>, listed: Seq<nat>, k: int)
    requires
        0 <= k < counts.len(),
        listed.len() == counts.len(),
    ensures
        executor_run(counts).len() == counts.len(),
        executor_run(counts)[k].1 <==> (counts[k] > 0 && counts[k] != remembered_before(counts, k)),
        executor_run(counts)[k].0 == if executor_run(counts)[k].1 {
            counts[k]
        } else {
            0
        },
        executor_run_jobs(base, counts, listed)[k] == if counts[k] > 0 && counts[k] != remembered_before(
            counts,
            k,
        ) {
            Some(executor_job_name_of(base, listed[k]))
        } else {
            None::<Seq<char>>
        },
    decreases counts.len(),
{
    lemma_executor_run_prefix(counts);
    if k < counts.len() - 1 {
        let init = counts.drop_last();
        lemma_executor_run(base, init, listed.drop_last(), k);
        lemma_executor_run_prefix(init);
        assert(executor_run(counts)[k] == executor_run(init)[k]);
        assert(init[k] == counts[k]);
        if k > 0 {
            assert(executor_run(counts)[k - 1] == executor_run(init)[k - 1]);
        }
        assert(remembered_before(counts, k) == remembered_before(init, k));
    } else {
        let init = counts.drop_last();
        lemma_executor_run_prefix(init);
        if k > 0 {
            assert(executor_run(counts)[k - 1] == executor_run(init)[k - 1]);
            assert(executor_run(init).last() == executor_run(init)[k - 1]);
        }
    }
}

/// The name of a new executor job is the manifest's name unchanged, then
/// `-`, then a run of digits without a leading zero that reads back as one
/// more than the number of executor jobs listed.
pub proof fn lemma_executor_job_name_parts(base: Seq<char>, existing_jobs: nat)
    ensures
        executor_job_name_of(base, existing_jobs).len() > base.len() + 1,
        executor_job_name_of(base, existing_jobs).take(base.len() as int) == base,
        executor_job_name_of(base, existing_jobs)[base.len() as int] == '-',
        all_digits(executor_job_name_of(base, existing_jobs).skip(base.len() as int + 1)),
        decimal_value(executor_job_name_of(base, existing_jobs).skip(base.len() as int + 1)) == existing_jobs
            + 1,
        executor_job_name_of(base, existing_jobs).skip(base.len() as int + 1)[0] != '0',
{
    let name = executor_job_name_of(base, existing_jobs);
    let d = decimal_digits(existing_jobs + 1);
    lemma_decimal_digits_read_back(existing_jobs + 1);
    assert(name.take(base.len() as int) =~= base);
    assert(name.skip(base.len() as int + 1) =~= d);
}

/// The workspace loop in full: without a manager it tries to set one up, and
/// has one afterwards exactly when that succeeded; with a manager it syncs the
/// workspaces and keeps the manager, whatever happens.
pub proof fn lemma_workspace_transitions(set_up_ok: bool)
    ensures
        workspace_action_of(WorkspacePhase::NoManager) == WorkspaceAction::SetUpManager,
        workspace_action_of(WorkspacePhase::Managing) == WorkspaceAction::SyncWorkspaces,
        (workspace_next_of(WorkspacePhase::NoManager, set_up_ok) == WorkspacePhase::Managing) == set_up_ok,
        workspace_next_of(WorkspacePhase::Managing, set_up_ok) == WorkspacePhase::Managing,
{
}

} // verus!
