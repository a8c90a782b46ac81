use betterjenkins::run::{
    executor_job_name, executor_step, workspace_action, workspace_next, ExecutorAction, ExecutorStep,
    WorkspaceAction, WorkspacePhase,
};

fn launch(c: i64) -> ExecutorStep {
    ExecutorStep { tasks_count: c, action: ExecutorAction::LaunchExecutor }
}

fn wait(c: i64) -> ExecutorStep {
    ExecutorStep { tasks_count: c, action: ExecutorAction::Wait }
}

#[test]
fn new_tasks_launch_an_executor() {
    assert_eq!(executor_step(0, Some(3)), launch(3));
    assert_eq!(executor_step(2, Some(3)), launch(3));
    assert_eq!(executor_step(-1, Some(1)), launch(1));
}

#[test]
fn unchanged_or_missing_tasks_wait() {
    assert_eq!(executor_step(3, Some(3)), wait(0));
    assert_eq!(executor_step(5, Some(0)), wait(0));
    assert_eq!(executor_step(0, Some(-2)), wait(0));
}

#[test]
fn unreachable_database_waits_with_minus_one() {
    assert_eq!(executor_step(4, None), wait(-1));
}

#[test]
fn launch_once_per_count_on_an_example() {
    let first = executor_step(0, Some(6));
    assert_eq!(first.action, ExecutorAction::LaunchExecutor);
    let second = executor_step(first.tasks_count, Some(6));
    assert_eq!(second.action, ExecutorAction::Wait);
    // after the pause the same count launches again
    let third = executor_step(second.tasks_count, Some(6));
    assert_eq!(third.action, ExecutorAction::LaunchExecutor);
}

#[test]
fn executor_job_name_counts_existing_jobs() {
    assert_eq!(executor_job_name("betterjenkins-executor", 0), "betterjenkins-executor-1");
    assert_eq!(executor_job_name("betterjenkins-executor", 9), "betterjenkins-executor-10");
    assert_eq!(executor_job_name("", 41), "-42");
}

#[test]
fn workspace_loop_sets_up_then_syncs() {
    assert_eq!(workspace_action(&WorkspacePhase::NoManager), WorkspaceAction::SetUpManager);
    assert_eq!(workspace_action(&WorkspacePhase::Managing), WorkspaceAction::SyncWorkspaces);
    assert_eq!(workspace_next(&WorkspacePhase::NoManager, false), WorkspacePhase::NoManager);
    assert_eq!(workspace_next(&WorkspacePhase::NoManager, true), WorkspacePhase::Managing);
    assert_eq!(workspace_next(&WorkspacePhase::Managing, false), WorkspacePhase::Managing);
}

#[test]
fn workspace_manager_kept_on_an_example() {
    let mut phase = WorkspacePhase::NoManager;
    for ok in [false, false, true, false, false] {
        phase = workspace_next(&phase, ok);
    }
    assert_eq!(phase, WorkspacePhase::Managing);
    let mut never = WorkspacePhase::NoManager;
    for ok in [false, false, false] {
        never = workspace_next(&never, ok);
    }
    assert_eq!(never, WorkspacePhase::NoManager);
}

#[test]
fn executor_job_names_distinct_on_examples() {
    assert_ne!(executor_job_name("exec", 0), executor_job_name("exec", 10));
    assert_ne!(executor_job_name("exec", 1), executor_job_name("exec", 11));
}

#[test]
fn executor_run_law_on_an_example() {
    let counts = [3i64, 3, 0, 2, 2, -1, 5];
    let expected = [true, false, false, true, false, false, true];
    let mut remembered = 0i64;
    for (k, c) in counts.iter().enumerate() {
        let step = executor_step(remembered, Some(*c));
        let launch = *c > 0 && *c != remembered;
        assert_eq!(step.action == ExecutorAction::LaunchExecutor, launch);
        assert_eq!(launch, expected[k]);
        assert_eq!(step.tasks_count, if launch { *c } else { 0 });
        remembered = step.tasks_count;
    }
}
