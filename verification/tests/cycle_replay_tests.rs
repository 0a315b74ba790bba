//! Whole scheduler runs, replayed by feeding `Scheduler::step` what
//! simulated executors answer: code "test" and "fast" jobs complete when
//! first polled, "slow" jobs keep running, "latch" jobs run until released.
use std::collections::HashMap;
use workflow_core::cycle::{Round, SchedAction, SchedEvent, SubmitOutcome};
use workflow_core::executor::{JobHandle, JobStatus};
use workflow_core::pipeline::Pipeline;
use workflow_core::scheduler::{Scheduler, TaskRecord, TaskState};
use workflow_core::schema::{ConcreteTask, ExecutorDef};

fn make_task(id: &str, deps: Vec<&str>, parallelism: usize) -> ConcreteTask {
    ConcreteTask {
        id: id.into(),
        code: "test".into(),
        executor: "local".into(),
        workdir: "/tmp".into(),
        depends_on: deps.into_iter().map(String::from).collect(),
        inputs: vec![],
        executor_def: ExecutorDef::Local { parallelism },
        wall_time_secs: None,
        bindings: vec![],
        dep_workdirs: vec![],
    }
}

/// What a replayed run did.
#[derive(Default)]
struct Trace {
    cancelled: Vec<String>,
    peak_running: usize,
}

/// Drives the scheduler as the application does; the run is stopped at the
/// start of cycle `stop_at` when given, and "latch" jobs are released from
/// cycle `release_at` on. Each cycle takes a second.
fn drive(s: &mut Scheduler, stop_at: Option<usize>, release_at: usize) -> Trace {
    let mut trace = Trace::default();
    let mut round = Round::new();
    let mut now: u64 = 1_000;
    let mut cycle: usize = 0;
    let mut running: HashMap<String, String> = HashMap::new();
    let mut event = SchedEvent::Cycle { cancelled: stop_at == Some(0) };
    for _ in 0..10_000 {
        let actions = s.step(&mut round, event, now);
        let mut next: Option<SchedEvent> = None;
        for action in actions {
            match action {
                SchedAction::Submit(i) => {
                    let task = s.pipeline().task(i).clone();
                    running.insert(task.id.clone(), task.code.clone());
                    trace.peak_running = trace.peak_running.max(running.len());
                    next = Some(SchedEvent::Submitted(SubmitOutcome::Accepted(JobHandle { raw: task.id.clone() })));
                }
                SchedAction::Poll(jobs) => {
                    let mut polled = Vec::new();
                    for (id, _) in jobs {
                        let code = running.get(&id).cloned().unwrap_or_else(|| "test".into());
                        let status = match code.as_str() {
                            "slow" => JobStatus::Running,
                            "latch" if cycle < release_at => JobStatus::Running,
                            _ => JobStatus::Completed,
                        };
                        if status == JobStatus::Completed {
                            running.remove(&id);
                        }
                        polled.push((id, status));
                    }
                    next = Some(SchedEvent::Polled(polled));
                }
                SchedAction::Cancel { id, handle } => {
                    running.remove(&id);
                    if handle.is_some() {
                        trace.cancelled.push(id);
                    }
                }
                SchedAction::Persist => {}
                SchedAction::Sleep => {
                    cycle += 1;
                    now += 1;
                    next = Some(SchedEvent::Cycle { cancelled: stop_at == Some(cycle) });
                }
                SchedAction::Finish => return trace,
            }
        }
        event = next.expect("the scheduler left nothing to do");
    }
    panic!("the run did not end");
}

fn scheduler(tasks: Vec<ConcreteTask>, loaded: Vec<TaskRecord>) -> Scheduler {
    let mut s = Scheduler::new(Pipeline::from_tasks(tasks).unwrap());
    s.load(loaded);
    s
}

#[test]
fn three_task_chain_completes() {
    let mut s = scheduler(vec![make_task("a", vec![], 4), make_task("b", vec!["a"], 4), make_task("c", vec!["b"], 4)], vec![]);
    drive(&mut s, None, 0);
    assert!(s.records().iter().all(|r| r.state == TaskState::Completed));
}

#[test]
fn cancellation_marks_running_tasks_failed() {
    let mut a = make_task("a", vec![], 4);
    a.code = "slow".into();
    let mut s = scheduler(vec![a], vec![]);
    let trace = drive(&mut s, Some(2), 0);
    assert_eq!(trace.cancelled, vec!["a".to_string()]);
    assert_eq!(s.state_of("a"), Some(TaskState::Failed(-1)));
}

#[test]
fn parallelism_cap_is_respected() {
    let tasks: Vec<ConcreteTask> = (0..4)
        .map(|i| {
            let mut t = make_task(&format!("t{i}"), vec![], 2);
            t.code = "latch".into();
            t
        })
        .collect();
    let mut s = scheduler(tasks, vec![]);
    let trace = drive(&mut s, None, 3);
    assert!(trace.peak_running <= 2, "peak concurrent was {}, expected at most 2", trace.peak_running);
    assert!(s.records().iter().all(|r| r.state == TaskState::Completed));
}

#[test]
fn resume_rehydrates_submitted_tasks() {
    let loaded = vec![TaskRecord {
        id: "a".into(),
        state: TaskState::Submitted,
        handle: Some(JobHandle { raw: "mock".into() }),
        submitted_at: None,
    }];
    let mut s = scheduler(vec![make_task("a", vec![], 4)], loaded);
    drive(&mut s, None, 0);
    assert_eq!(s.state_of("a"), Some(TaskState::Completed));
}

#[test]
fn task_with_zero_wall_time_times_out() {
    let mut a = make_task("a", vec![], 4);
    a.code = "slow".into();
    a.wall_time_secs = Some(0);
    let mut s = scheduler(vec![a], vec![]);
    drive(&mut s, None, 0);
    assert_eq!(s.state_of("a"), Some(TaskState::TimedOut));
}

#[test]
fn child_of_timed_out_parent_still_runs() {
    let mut parent = make_task("parent", vec![], 4);
    parent.code = "slow".into();
    parent.wall_time_secs = Some(0);
    let mut child = make_task("child", vec!["parent"], 4);
    child.code = "fast".into();
    let mut s = scheduler(vec![parent, child], vec![]);
    drive(&mut s, None, 0);
    assert_eq!(s.state_of("parent"), Some(TaskState::TimedOut));
    assert_eq!(s.state_of("child"), Some(TaskState::Completed));
}

#[test]
fn task_within_wall_time_limit_completes() {
    let mut a = make_task("a", vec![], 4);
    a.code = "fast".into();
    a.wall_time_secs = Some(3600);
    let mut s = scheduler(vec![a], vec![]);
    drive(&mut s, None, 0);
    assert_eq!(s.state_of("a"), Some(TaskState::Completed));
}
