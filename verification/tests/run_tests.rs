use std::collections::HashMap;
use std::path::{Path, PathBuf};
use std::time::Duration;
use workflow_core::run::{RunAction, RunEvent, RunState};
use workflow_core::state::{JsonStateStore, StateStore, TaskStatus};
use workflow_core::task::{ExecutionMode, Task, TaskClosure};
use workflow_core::workflow::{initialize_statuses, Workflow};
use workflow_core::WorkflowError;

fn direct(timeout: Option<Duration>) -> ExecutionMode {
    ExecutionMode::Direct { command: "true".into(), args: vec![], env: HashMap::new(), timeout }
}

struct FailingSetup;

impl TaskClosure for FailingSetup {
    fn call(&self, _workdir: &Path) -> Result<(), String> {
        Err("no input".into())
    }
}

fn names(actions: &[RunAction]) -> Vec<String> {
    actions
        .iter()
        .map(|a| match a {
            RunAction::Terminate(id) => format!("terminate {}", id),
            RunAction::Check(id) => format!("check {}", id),
            RunAction::Wait(id) => format!("wait {}", id),
            RunAction::Collect { id, .. } => format!("collect {}", id),
            RunAction::FireHooks { context, .. } => format!("hooks {}", context.task_id),
            RunAction::Setup { id, .. } => format!("setup {}", id),
            RunAction::Spawn { id, .. } => format!("spawn {}", id),
            RunAction::Submit { id, .. } => format!("submit {}", id),
            RunAction::Save => "save".to_string(),
            RunAction::Sleep => "sleep".to_string(),
            RunAction::Finish(Ok(_)) => "finish ok".to_string(),
            RunAction::Finish(Err(e)) => format!("finish err {}", e.message()),
        })
        .collect()
}

fn setup(wf: &mut Workflow) -> (workflow_core::dag::Dag, JsonStateStore) {
    let dag = wf.build_dag().unwrap();
    let mut state = JsonStateStore::new("wf", PathBuf::from("/tmp/run_tests.json"));
    initialize_statuses(&dag, &mut state);
    (dag, state)
}

#[test]
fn run_starts_dependency_after_it_completes_then_finishes() {
    let mut wf = Workflow::new("wf", None);
    wf.add_task(Task::new("a", direct(None))).unwrap();
    wf.add_task(Task::new("b", direct(None)).depends_on("a")).unwrap();
    let (dag, mut state) = setup(&mut wf);
    let mut rs = RunState::new();
    let t = Duration::from_secs(1);

    let a = rs.step(&mut wf, &dag, &mut state, RunEvent::Round { interrupted: false }, t);
    assert!(a.is_empty());
    let a = rs.step(&mut wf, &dag, &mut state, RunEvent::Dispatch, t);
    assert_eq!(names(&a), vec!["save", "spawn a"]);
    assert_eq!(state.get_status("a"), Some(TaskStatus::Running));
    let a = rs.step(&mut wf, &dag, &mut state, RunEvent::Spawned, t);
    assert_eq!(names(&a), vec!["sleep"]);

    let a = rs.step(&mut wf, &dag, &mut state, RunEvent::Round { interrupted: false }, t);
    assert_eq!(names(&a), vec!["check a"]);
    let a = rs.step(&mut wf, &dag, &mut state, RunEvent::Checked { id: "a".into(), elapsed: t, alive: false }, t);
    assert_eq!(names(&a), vec!["wait a"]);
    let a = rs.step(&mut wf, &dag, &mut state, RunEvent::Waited { id: "a".into(), waited: Some(Some(0)) }, t);
    assert_eq!(names(&a), vec!["save"]);
    assert_eq!(state.get_status("a"), Some(TaskStatus::Completed));
    let a = rs.step(&mut wf, &dag, &mut state, RunEvent::Dispatch, t);
    assert_eq!(names(&a), vec!["save", "spawn b"]);
    let a = rs.step(&mut wf, &dag, &mut state, RunEvent::Spawned, t);
    assert_eq!(names(&a), vec!["sleep"]);

    rs.step(&mut wf, &dag, &mut state, RunEvent::Round { interrupted: false }, t);
    rs.step(&mut wf, &dag, &mut state, RunEvent::Checked { id: "b".into(), elapsed: t, alive: false }, t);
    rs.step(&mut wf, &dag, &mut state, RunEvent::Waited { id: "b".into(), waited: Some(Some(0)) }, t);
    let a = rs.step(&mut wf, &dag, &mut state, RunEvent::Dispatch, Duration::from_secs(7));
    assert_eq!(names(&a), vec!["save", "finish ok"]);
    match &a[1] {
        RunAction::Finish(Ok(s)) => {
            assert_eq!(s.succeeded.len(), 2);
            assert_eq!(s.duration, Duration::from_secs(7));
        }
        _ => panic!("expected a summary"),
    }
}

#[test]
fn run_respects_parallel_limit() {
    let mut wf = Workflow::new("wf", None).with_max_parallel(1).unwrap();
    wf.add_task(Task::new("a", direct(None))).unwrap();
    wf.add_task(Task::new("b", direct(None))).unwrap();
    let (dag, mut state) = setup(&mut wf);
    let mut rs = RunState::new();
    let t = Duration::from_secs(1);
    rs.step(&mut wf, &dag, &mut state, RunEvent::Round { interrupted: false }, t);
    let a = rs.step(&mut wf, &dag, &mut state, RunEvent::Dispatch, t);
    assert_eq!(names(&a), vec!["save", "spawn a"]);
    let a = rs.step(&mut wf, &dag, &mut state, RunEvent::Spawned, t);
    assert_eq!(names(&a), vec!["sleep"]);
    assert_eq!(state.get_status("b"), Some(TaskStatus::Pending));
}

#[test]
fn run_interrupt_returns_running_tasks_to_pending() {
    let mut wf = Workflow::new("wf", None);
    wf.add_task(Task::new("a", direct(None))).unwrap();
    let (dag, mut state) = setup(&mut wf);
    let mut rs = RunState::new();
    let t = Duration::from_secs(1);
    rs.step(&mut wf, &dag, &mut state, RunEvent::Round { interrupted: false }, t);
    rs.step(&mut wf, &dag, &mut state, RunEvent::Dispatch, t);
    rs.step(&mut wf, &dag, &mut state, RunEvent::Spawned, t);
    let a = rs.step(&mut wf, &dag, &mut state, RunEvent::Round { interrupted: true }, t);
    assert_eq!(names(&a), vec!["terminate a", "save", "finish err workflow interrupted by signal"]);
    assert_eq!(state.get_status("a"), Some(TaskStatus::Pending));
}

#[test]
fn run_timeout_fails_task() {
    let mut wf = Workflow::new("wf", None);
    wf.add_task(Task::new("a", direct(Some(Duration::from_secs(5))))).unwrap();
    let (dag, mut state) = setup(&mut wf);
    let mut rs = RunState::new();
    let t = Duration::from_secs(1);
    rs.step(&mut wf, &dag, &mut state, RunEvent::Round { interrupted: false }, t);
    rs.step(&mut wf, &dag, &mut state, RunEvent::Dispatch, t);
    rs.step(&mut wf, &dag, &mut state, RunEvent::Spawned, t);
    rs.step(&mut wf, &dag, &mut state, RunEvent::Round { interrupted: false }, t);
    let a = rs.step(&mut wf, &dag, &mut state, RunEvent::Checked { id: "a".into(), elapsed: Duration::from_secs(4), alive: true }, t);
    assert!(a.is_empty());
    let a = rs.step(&mut wf, &dag, &mut state, RunEvent::Checked { id: "a".into(), elapsed: Duration::from_secs(5), alive: true }, t);
    assert_eq!(names(&a), vec!["terminate a", "save"]);
    assert_eq!(state.get_status("a"), Some(TaskStatus::Failed { error: "task 'a' timed out".into() }));
}

#[test]
fn run_failed_setup_fails_task_and_skips_dependent() {
    let mut wf = Workflow::new("wf", None);
    wf.add_task(Task::new("a", direct(None)).setup(Box::new(FailingSetup))).unwrap();
    wf.add_task(Task::new("b", direct(None)).depends_on("a")).unwrap();
    let (dag, mut state) = setup(&mut wf);
    let mut rs = RunState::new();
    let t = Duration::from_secs(1);
    rs.step(&mut wf, &dag, &mut state, RunEvent::Round { interrupted: false }, t);
    let a = rs.step(&mut wf, &dag, &mut state, RunEvent::Dispatch, t);
    assert_eq!(names(&a), vec!["save", "setup a"]);
    let a = rs.step(&mut wf, &dag, &mut state, RunEvent::SetupDone(Err("no input".into())), t);
    assert_eq!(names(&a), vec!["save", "sleep"]);
    assert_eq!(state.get_status("a"), Some(TaskStatus::Failed { error: "no input".into() }));
    rs.step(&mut wf, &dag, &mut state, RunEvent::Round { interrupted: false }, t);
    let a = rs.step(&mut wf, &dag, &mut state, RunEvent::Dispatch, t);
    assert_eq!(names(&a), vec!["save", "finish ok"]);
    assert_eq!(state.get_status("b"), Some(TaskStatus::SkippedDueToDependencyFailure));
}

#[test]
fn run_queued_task_is_refused() {
    let mut wf = Workflow::new("wf", None);
    wf.add_task(Task::new("q", ExecutionMode::Queued)).unwrap();
    let (dag, mut state) = setup(&mut wf);
    let mut rs = RunState::new();
    let t = Duration::from_secs(1);
    rs.step(&mut wf, &dag, &mut state, RunEvent::Round { interrupted: false }, t);
    let a = rs.step(&mut wf, &dag, &mut state, RunEvent::Dispatch, t);
    assert_eq!(names(&a), vec!["save", "finish err invalid configuration: Queued execution mode is not yet implemented"]);
    match &a[1] {
        RunAction::Finish(Err(WorkflowError::InvalidConfig(_))) => {}
        _ => panic!("expected InvalidConfig"),
    }
}

#[test]
fn run_submits_queued_task_when_a_queue_is_set() {
    let mut wf = Workflow::new("wf", None).with_log_dir(PathBuf::from("logs"));
    assert_eq!(wf.log_dir(), Some(&PathBuf::from("logs")));
    wf.add_task(Task::new("q", ExecutionMode::Queued)).unwrap();
    let (dag, mut state) = setup(&mut wf);
    let mut rs = RunState::with_queue(PathBuf::from("logs"));
    let t = Duration::from_secs(1);
    rs.step(&mut wf, &dag, &mut state, RunEvent::Round { interrupted: false }, t);
    let a = rs.step(&mut wf, &dag, &mut state, RunEvent::Dispatch, t);
    match a.as_slice() {
        [RunAction::Save, RunAction::Submit { id, log_dir, .. }] => {
            assert_eq!(id, "q");
            assert_eq!(log_dir, &PathBuf::from("logs"));
        }
        _ => panic!("expected the job to be submitted"),
    }
    rs.step(&mut wf, &dag, &mut state, RunEvent::Spawned, t);
    rs.step(&mut wf, &dag, &mut state, RunEvent::Round { interrupted: false }, t);
    rs.step(&mut wf, &dag, &mut state, RunEvent::Checked { id: "q".into(), elapsed: t, alive: false }, t);
    rs.step(&mut wf, &dag, &mut state, RunEvent::Waited { id: "q".into(), waited: Some(Some(0)) }, t);
    let a = rs.step(&mut wf, &dag, &mut state, RunEvent::Dispatch, t);
    assert_eq!(names(&a), vec!["save", "finish ok"]);
    assert_eq!(state.get_status("q"), Some(TaskStatus::Completed));
}
