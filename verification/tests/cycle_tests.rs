use workflow_core::cycle::{Round, SchedAction, SchedEvent, SubmitOutcome};
use workflow_core::executor::{JobHandle, JobStatus};
use workflow_core::pipeline::Pipeline;
use workflow_core::scheduler::{Scheduler, TaskState};
use workflow_core::schema::{ConcreteTask, ExecutorDef};

fn task(id: &str, deps: Vec<&str>, parallelism: usize) -> ConcreteTask {
    ConcreteTask {
        id: id.into(),
        code: "test".into(),
        executor: "local".into(),
        workdir: "/tmp".into(),
        depends_on: deps.into_iter().map(String::from).collect(),
        inputs: vec![],
        executor_def: ExecutorDef::Local { parallelism },
        wall_time_secs: None,
        bindings: vec![],
        dep_workdirs: vec![],
    }
}

fn scheduler(tasks: Vec<ConcreteTask>) -> Scheduler {
    let mut s = Scheduler::new(Pipeline::from_tasks(tasks).unwrap());
    s.load(vec![]);
    s
}

fn accepted(raw: &str) -> SchedEvent {
    SchedEvent::Submitted(SubmitOutcome::Accepted(JobHandle { raw: raw.into() }))
}

fn submit_index(actions: &[SchedAction]) -> Option<usize> {
    match actions {
        [SchedAction::Submit(i)] => Some(*i),
        _ => None,
    }
}

fn polled_ids(actions: &[SchedAction]) -> Option<Vec<String>> {
    match actions {
        [SchedAction::Poll(jobs)] => Some(jobs.iter().map(|(id, _)| id.clone()).collect()),
        _ => None,
    }
}

#[test]
fn cycle_submits_up_to_the_executor_cap() {
    let mut s = scheduler(vec![task("a", vec![], 2), task("b", vec![], 2), task("c", vec![], 2)]);
    let mut round = Round::new();
    let a = s.step(&mut round, SchedEvent::Cycle { cancelled: false }, 100);
    assert_eq!(submit_index(&a), Some(0));
    let a = s.step(&mut round, accepted("1"), 100);
    assert_eq!(submit_index(&a), Some(1));
    let a = s.step(&mut round, accepted("2"), 100);
    assert_eq!(polled_ids(&a), Some(vec!["a".to_string(), "b".to_string()]));
    assert_eq!(s.state_of("a"), Some(TaskState::Submitted));
    assert_eq!(s.state_of("c"), Some(TaskState::Ready));

    let a = s.step(&mut round, SchedEvent::Polled(vec![("a".into(), JobStatus::Completed)]), 101);
    assert!(matches!(a.as_slice(), [SchedAction::Persist, SchedAction::Sleep]));
    // The cap counts the job still running from the earlier cycle.
    let a = s.step(&mut round, SchedEvent::Cycle { cancelled: false }, 102);
    assert_eq!(submit_index(&a), Some(2));
    let a = s.step(&mut round, accepted("3"), 102);
    assert_eq!(polled_ids(&a), Some(vec!["b".to_string(), "c".to_string()]));
    let a = s.step(
        &mut round,
        SchedEvent::Polled(vec![("b".into(), JobStatus::Completed), ("c".into(), JobStatus::Completed)]),
        103,
    );
    assert!(matches!(a.as_slice(), [SchedAction::Persist, SchedAction::Finish]));
}

#[test]
fn cycle_refused_submission_fails_task_and_skips_dependent() {
    let mut s = scheduler(vec![task("a", vec![], 1), task("b", vec!["a"], 1)]);
    let mut round = Round::new();
    let a = s.step(&mut round, SchedEvent::Cycle { cancelled: false }, 100);
    assert_eq!(submit_index(&a), Some(0));
    let a = s.step(&mut round, SchedEvent::Submitted(SubmitOutcome::Refused), 100);
    assert_eq!(polled_ids(&a), Some(vec![]));
    assert_eq!(s.state_of("a"), Some(TaskState::Failed(-1)));
    let a = s.step(&mut round, SchedEvent::Polled(vec![]), 100);
    assert!(matches!(a.as_slice(), [SchedAction::Persist, SchedAction::Finish]));
    assert_eq!(s.state_of("b"), Some(TaskState::Skipped));
}

#[test]
fn cycle_times_out_late_job() {
    let mut late = task("a", vec![], 1);
    late.wall_time_secs = Some(10);
    let mut s = scheduler(vec![late]);
    let mut round = Round::new();
    s.step(&mut round, SchedEvent::Cycle { cancelled: false }, 100);
    s.step(&mut round, accepted("7"), 100);
    let a = s.step(&mut round, SchedEvent::Polled(vec![("a".into(), JobStatus::Running)]), 110);
    match a.as_slice() {
        [SchedAction::Cancel { id, handle: Some(h) }, SchedAction::Persist, SchedAction::Finish] => {
            assert_eq!(id, "a");
            assert_eq!(h.raw, "7");
        }
        _ => panic!("expected a cancel, then the end of the run"),
    }
    assert_eq!(s.state_of("a"), Some(TaskState::TimedOut));
}

#[test]
fn cycle_stop_cancels_active_jobs() {
    let mut s = scheduler(vec![task("a", vec![], 1), task("b", vec!["a"], 1)]);
    let mut round = Round::new();
    s.step(&mut round, SchedEvent::Cycle { cancelled: false }, 100);
    s.step(&mut round, accepted("9"), 100);
    s.step(&mut round, SchedEvent::Polled(vec![("a".into(), JobStatus::Running)]), 101);
    let a = s.step(&mut round, SchedEvent::Cycle { cancelled: true }, 102);
    match a.as_slice() {
        [SchedAction::Cancel { id, handle: Some(h) }, SchedAction::Persist, SchedAction::Finish] => {
            assert_eq!(id, "a");
            assert_eq!(h.raw, "9");
        }
        _ => panic!("expected a cancel, then the end of the run"),
    }
    assert_eq!(s.state_of("a"), Some(TaskState::Failed(-1)));
    assert_eq!(s.state_of("b"), Some(TaskState::Pending));
}
