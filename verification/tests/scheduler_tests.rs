use workflow_core::executor::{JobHandle, JobStatus};
use workflow_core::pipeline::Pipeline;
use workflow_core::scheduler::{can_submit, Scheduler, TaskRecord, TaskState};
use workflow_core::schema::{ConcreteTask, ExecutorDef};

fn task(id: &str, deps: Vec<&str>, parallelism: usize) -> ConcreteTask {
    ConcreteTask {
        id: id.into(),
        code: "test".into(),
        executor: "local".into(),
        workdir: "/tmp".into(),
        depends_on: deps.into_iter().map(String::from).collect(),
        inputs: vec![],
        executor_def: ExecutorDef::Local { parallelism },
        wall_time_secs: None,
        bindings: vec![],
        dep_workdirs: vec![],
    }
}

fn scheduler(tasks: Vec<ConcreteTask>) -> Scheduler {
    let mut s = Scheduler::new(Pipeline::from_tasks(tasks).unwrap());
    s.load(vec![]);
    s
}

fn handle(raw: &str) -> JobHandle {
    JobHandle { raw: raw.into() }
}

#[test]
fn promotion_follows_dependencies() {
    let mut s = scheduler(vec![task("a", vec![], 1), task("b", vec!["a"], 1)]);
    assert_eq!(s.state_of("a"), Some(TaskState::Pending));
    s.promote_ready();
    assert_eq!(s.state_of("a"), Some(TaskState::Ready));
    assert_eq!(s.state_of("b"), Some(TaskState::Pending));
    s.record_submitted("a", handle("1"), 100);
    s.apply_poll("a", JobStatus::Completed);
    s.promote_ready();
    assert_eq!(s.state_of("b"), Some(TaskState::Ready));
    assert!(!s.all_terminal());
    s.record_submitted("b", handle("2"), 101);
    s.apply_poll("b", JobStatus::Running);
    assert_eq!(s.state_of("b"), Some(TaskState::Running));
    s.apply_poll("b", JobStatus::Completed);
    assert!(s.all_terminal());
}

#[test]
fn parallelism_cap_counts_active_tasks() {
    let mut s = scheduler(vec![task("a", vec![], 2), task("b", vec![], 2), task("c", vec![], 2)]);
    s.promote_ready();
    let mut load = s.executor_load();
    assert_eq!(load.count("local"), 0);
    let tasks: Vec<ConcreteTask> = (0..3).map(|i| s.pipeline().task(i).clone()).collect();
    assert!(can_submit(&tasks[0], &load));
    load.add("local");
    assert!(can_submit(&tasks[1], &load));
    load.add("local");
    assert!(!can_submit(&tasks[2], &load));
    s.record_submitted("a", handle("1"), 5);
    s.record_submitted("b", handle("2"), 5);
    assert_eq!(s.executor_load().count("local"), 2);
    assert_eq!(s.executor_load().count("other"), 0);
    let mut slurm = task("d", vec![], 0);
    slurm.executor_def = ExecutorDef::Slurm { partition: "p".into(), ntasks: 1, walltime: "1".into() };
    assert!(can_submit(&slurm, &load));
}

#[test]
fn failed_dependency_skips_waiting_dependents() {
    let mut s = scheduler(vec![task("a", vec![], 1), task("b", vec!["a"], 1), task("c", vec!["b"], 1)]);
    s.promote_ready();
    s.record_submitted("a", handle("9"), 0);
    s.apply_poll("a", JobStatus::Failed(3));
    s.skip_failed_dependents();
    assert_eq!(s.state_of("a"), Some(TaskState::Failed(3)));
    assert_eq!(s.state_of("b"), Some(TaskState::Skipped));
    // only a failed dependency skips: c waits on a skipped task, which counts as done
    assert_eq!(s.state_of("c"), Some(TaskState::Pending));
    s.promote_ready();
    assert_eq!(s.state_of("c"), Some(TaskState::Ready));
}

#[test]
fn submit_failure_and_cancellation() {
    let mut s = scheduler(vec![task("a", vec![], 1), task("b", vec![], 1)]);
    s.record_submit_failed("a");
    assert_eq!(s.state_of("a"), Some(TaskState::Failed(-1)));
    s.record_submitted("b", handle("42"), 7);
    assert_eq!(s.handle_of("b").map(|h| h.raw), Some("42".to_string()));
    let jobs = s.active_jobs();
    assert_eq!(jobs.len(), 1);
    assert_eq!(jobs[0].0, "b");
    assert_eq!(jobs[0].1.raw, "42");
    s.mark_cancelled("b");
    assert_eq!(s.state_of("b"), Some(TaskState::Failed(-1)));
    assert!(s.active_jobs().is_empty());
    assert!(s.all_terminal());
    s.mark_cancelled("zzz");
    assert_eq!(s.state_of("zzz"), None);
}

#[test]
fn wall_time_limits() {
    let mut t = task("a", vec![], 1);
    t.wall_time_secs = Some(10);
    let mut s = scheduler(vec![t, task("b", vec![], 1)]);
    s.record_submitted("a", handle("1"), 100);
    s.record_submitted("b", handle("2"), 100);
    assert!(s.timed_out(109).is_empty());
    assert_eq!(s.timed_out(110), vec!["a"]);
    assert!(s.timed_out(50).is_empty());
    s.mark_timed_out("a");
    assert_eq!(s.state_of("a"), Some(TaskState::TimedOut));
    assert!(s.timed_out(1000).is_empty());
}

#[test]
fn loaded_records_are_kept_and_missing_ones_pending() {
    let mut s = Scheduler::new(Pipeline::from_tasks(vec![task("a", vec![], 1), task("b", vec![], 1)]).unwrap());
    s.load(vec![
        TaskRecord { id: "a".into(), state: TaskState::Running, handle: Some(handle("5")), submitted_at: Some(1) },
        TaskRecord { id: "old".into(), state: TaskState::Completed, handle: None, submitted_at: None },
        TaskRecord { id: "a".into(), state: TaskState::Submitted, handle: Some(handle("6")), submitted_at: Some(2) },
    ]);
    assert_eq!(s.state_of("a"), Some(TaskState::Submitted));
    assert_eq!(s.handle_of("a").map(|h| h.raw), Some("6".to_string()));
    assert_eq!(s.state_of("b"), Some(TaskState::Pending));
    assert_eq!(s.state_of("old"), Some(TaskState::Completed));
    assert_eq!(s.records().len(), 3);
    assert_eq!(s.resumable_tasks(), vec![0]);
}

#[test]
fn child_of_timed_out_parent_is_promoted() {
    let mut parent = task("p", vec![], 1);
    parent.wall_time_secs = Some(0);
    let mut s = scheduler(vec![parent, task("c", vec!["p"], 1)]);
    s.promote_ready();
    s.record_submitted("p", handle("1"), 10);
    assert_eq!(s.timed_out(10), vec!["p"]);
    s.mark_timed_out("p");
    s.skip_failed_dependents();
    s.promote_ready();
    assert_eq!(s.state_of("c"), Some(TaskState::Ready));
}
