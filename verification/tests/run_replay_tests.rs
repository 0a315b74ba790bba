//! Whole runs, replayed by feeding `RunState::step` what simulated processes
//! do: `true` exits 0 at once, `false` exits 1 at once, `sleep` runs until
//! stopped; each round takes 50 ms.
use std::collections::HashMap;
use std::path::{Path, PathBuf};
use std::sync::atomic::{AtomicBool, AtomicUsize, Ordering};
use std::sync::Arc;
use std::time::Duration;
use workflow_core::monitoring::{HookTrigger, MonitoringHook};
use workflow_core::run::{RunAction, RunEvent, RunState};
use workflow_core::state::{JsonStateStore, StateStore, StateStoreExt, TaskStatus};
use workflow_core::task::{ExecutionMode, Task, TaskClosure};
use workflow_core::workflow::{initialize_statuses, Workflow, WorkflowSummary};
use workflow_core::WorkflowError;

fn direct(command: &str) -> ExecutionMode {
    ExecutionMode::direct(command, &[])
}

fn sleeper(timeout_ms: u64) -> ExecutionMode {
    ExecutionMode::Direct {
        command: "sleep".into(),
        args: vec!["10".into()],
        env: HashMap::new(),
        timeout: Some(Duration::from_millis(timeout_ms)),
    }
}

struct CountingSetup(Arc<AtomicUsize>);

impl TaskClosure for CountingSetup {
    fn call(&self, _workdir: &Path) -> Result<(), String> {
        self.0.fetch_add(1, Ordering::SeqCst);
        Ok(())
    }
}

struct FlagSetup(Arc<AtomicBool>);

impl TaskClosure for FlagSetup {
    fn call(&self, _workdir: &Path) -> Result<(), String> {
        self.0.store(true, Ordering::SeqCst);
        Ok(())
    }
}

struct LogSetup(Arc<std::sync::Mutex<Vec<String>>>, &'static str);

impl TaskClosure for LogSetup {
    fn call(&self, _workdir: &Path) -> Result<(), String> {
        self.0.lock().unwrap().push(self.1.to_string());
        Ok(())
    }
}

struct FailingSetup;

impl TaskClosure for FailingSetup {
    fn call(&self, _workdir: &Path) -> Result<(), String> {
        Err("setup failed".into())
    }
}

/// What a replayed run did besides its result.
#[derive(Default)]
struct Trace {
    spawned: Vec<String>,
    terminated: Vec<String>,
    hooks: Vec<(String, String)>,
}

/// Runs the workflow as the application does, against simulated processes.
fn drive(
    wf: &mut Workflow,
    state: &mut JsonStateStore,
    interrupt: Arc<AtomicBool>,
) -> (Result<WorkflowSummary, WorkflowError>, Trace) {
    let dag = wf.build_dag().unwrap();
    initialize_statuses(&dag, state);
    let mut machine = RunState::new();
    let mut trace = Trace::default();
    let mut procs: HashMap<String, (String, u64)> = HashMap::new();
    let mut clock_ms: u64 = 0;
    for _ in 0..1000 {
        let mut pending: std::collections::VecDeque<RunEvent> = std::collections::VecDeque::new();
        pending.push_back(RunEvent::Round { interrupted: interrupt.load(Ordering::SeqCst) });
        let mut dispatched = false;
        loop {
            let event = match pending.pop_front() {
                Some(e) => e,
                None if !dispatched => {
                    dispatched = true;
                    RunEvent::Dispatch
                }
                None => break,
            };
            let elapsed = Duration::from_millis(clock_ms);
            for action in machine.step(wf, &dag, state, event, elapsed) {
                match action {
                    RunAction::Terminate(id) => {
                        procs.remove(&id);
                        trace.terminated.push(id);
                    }
                    RunAction::Check(id) => {
                        let (cmd, start) = procs[&id].clone();
                        pending.push_back(RunEvent::Checked {
                            id,
                            elapsed: Duration::from_millis(clock_ms - start),
                            alive: cmd == "sleep",
                        });
                    }
                    RunAction::Wait(id) => {
                        let (cmd, _) = procs.remove(&id).unwrap();
                        let code = if cmd == "false" { 1 } else { 0 };
                        pending.push_front(RunEvent::Waited { id, waited: Some(Some(code)) });
                    }
                    RunAction::Collect { collect, workdir, .. } => {
                        let _ = collect.call(&workdir);
                    }
                    RunAction::FireHooks { hooks, context } => {
                        for h in hooks {
                            trace.hooks.push((h.name.clone(), context.task_id.clone()));
                        }
                    }
                    RunAction::Setup { setup, workdir, .. } => {
                        pending.push_front(RunEvent::SetupDone(setup.call(&workdir)));
                    }
                    RunAction::Spawn { id, command, .. } => {
                        trace.spawned.push(id.clone());
                        procs.insert(id, (command, clock_ms));
                        pending.push_front(RunEvent::Spawned);
                    }
                    RunAction::Submit { id, .. } => {
                        trace.spawned.push(id.clone());
                        procs.insert(id, ("true".into(), clock_ms));
                        pending.push_front(RunEvent::Spawned);
                    }
                    RunAction::Save => {}
                    RunAction::Sleep => clock_ms += 50,
                    RunAction::Finish(result) => return (result, trace),
                }
            }
        }
    }
    panic!("the run did not end");
}

fn fresh(name: &str) -> JsonStateStore {
    JsonStateStore::new(name, PathBuf::from(format!("/tmp/.{}.workflow.json", name)))
}

fn no_interrupt() -> Arc<AtomicBool> {
    Arc::new(AtomicBool::new(false))
}

/// The store as loading it back for a resumed run gives it.
fn reload(state: &JsonStateStore, name: &str) -> JsonStateStore {
    let mut s = JsonStateStore::from_parts(
        name.into(),
        "t".into(),
        "t".into(),
        state.all_tasks(),
        PathBuf::from(format!("/tmp/.{}.workflow.json", name)),
        None,
    );
    s.reset_for_resume();
    s
}

#[test]
fn single_task_completes() {
    let mut wf = Workflow::new("wf_single", None).with_max_parallel(4).unwrap();
    wf.add_task(Task::new("a", direct("true"))).unwrap();
    let mut state = fresh("wf_single");
    let (result, _) = drive(&mut wf, &mut state, no_interrupt());
    let summary = result.unwrap();
    assert_eq!(summary.succeeded.len(), 1);
    assert!(summary.failed.is_empty());
}

#[test]
fn chain_respects_order() {
    let log = Arc::new(std::sync::Mutex::new(Vec::new()));
    let mut wf = Workflow::new("wf_chain", None).with_max_parallel(4).unwrap();
    wf.add_task(Task::new("a", direct("true")).setup(Box::new(LogSetup(Arc::clone(&log), "a")))).unwrap();
    wf.add_task(Task::new("b", direct("true")).depends_on("a").setup(Box::new(LogSetup(Arc::clone(&log), "b"))))
        .unwrap();
    let mut state = fresh("wf_chain");
    let (result, _) = drive(&mut wf, &mut state, no_interrupt());
    assert!(result.is_ok());
    assert_eq!(*log.lock().unwrap(), vec!["a".to_string(), "b".to_string()]);
}

#[test]
fn failed_task_skips_dependent() {
    let mut wf = Workflow::new("wf_skip", None).with_max_parallel(4).unwrap();
    wf.add_task(Task::new("a", direct("false"))).unwrap();
    wf.add_task(Task::new("b", direct("true")).depends_on("a")).unwrap();
    let mut state = fresh("wf_skip");
    let (result, trace) = drive(&mut wf, &mut state, no_interrupt());
    assert!(result.is_ok());
    assert!(matches!(state.get_status("b"), Some(TaskStatus::SkippedDueToDependencyFailure)));
    assert_eq!(trace.spawned, vec!["a".to_string()]);
    let loaded = reload(&state, "wf_skip");
    assert!(matches!(loaded.get_status("b"), Some(TaskStatus::Pending)));
}

#[test]
fn failure_skips_the_chain_below() {
    let mut wf = Workflow::new("w", None).with_max_parallel(4).unwrap();
    wf.add_task(Task::new("a", direct("false"))).unwrap();
    wf.add_task(Task::new("b", direct("true")).depends_on("a")).unwrap();
    wf.add_task(Task::new("c", direct("true")).depends_on("b")).unwrap();
    let mut state = fresh("w_chain_skip");
    let (result, trace) = drive(&mut wf, &mut state, no_interrupt());
    let s = result.unwrap();
    assert_eq!(state.get_status("a"), Some(TaskStatus::Failed { error: "exit code 1".into() }));
    assert_eq!(state.get_status("b"), Some(TaskStatus::SkippedDueToDependencyFailure));
    assert_eq!(state.get_status("c"), Some(TaskStatus::SkippedDueToDependencyFailure));
    assert_eq!(trace.spawned, vec!["a".to_string()]);
    assert!(s.succeeded.is_empty());
    assert_eq!(s.failed, vec![("a".to_string(), "exit code 1".to_string())]);
    let mut skipped = s.skipped.clone();
    skipped.sort();
    assert_eq!(skipped, vec!["b".to_string(), "c".to_string()]);
}

#[test]
fn interrupt_before_run_dispatches_nothing() {
    let mut wf = Workflow::new("wf_interrupt", None).with_max_parallel(4).unwrap();
    wf.add_task(Task::new("a", direct("true"))).unwrap();
    let mut state = fresh("wf_interrupt");
    let (result, trace) = drive(&mut wf, &mut state, Arc::new(AtomicBool::new(true)));
    assert!(matches!(result, Err(WorkflowError::Interrupted)));
    assert!(!matches!(state.get_status("a"), Some(TaskStatus::Completed)));
    assert!(trace.spawned.is_empty());
}

#[test]
fn interrupt_mid_run_stops_dispatch() {
    let flag = Arc::new(AtomicBool::new(false));
    let mut wf = Workflow::new("wf_interrupt2", None).with_max_parallel(4).unwrap();
    wf.add_task(Task::new("a", direct("true")).setup(Box::new(FlagSetup(Arc::clone(&flag))))).unwrap();
    wf.add_task(Task::new("b", direct("true")).depends_on("a")).unwrap();
    let mut state = fresh("wf_interrupt2");
    let (result, trace) = drive(&mut wf, &mut state, Arc::clone(&flag));
    assert!(matches!(result, Err(WorkflowError::Interrupted)));
    assert!(!trace.spawned.contains(&"b".to_string()));
}

#[test]
fn resume_loads_existing_state() {
    let mut wf1 = Workflow::new("wf_resume", None);
    wf1.add_task(Task::new("a", direct("true"))).unwrap();
    let mut state1 = fresh("wf_resume");
    assert!(drive(&mut wf1, &mut state1, no_interrupt()).0.is_ok());

    let mut state2 = reload(&state1, "wf_resume");
    let mut wf2 = Workflow::new("wf_resume", None);
    wf2.add_task(Task::new("a", direct("false"))).unwrap();
    let (result, trace) = drive(&mut wf2, &mut state2, no_interrupt());
    assert!(result.is_ok());
    assert!(state2.is_completed("a"));
    assert!(trace.spawned.is_empty());
}

#[test]
fn resume_skips_completed_reruns_failed() {
    let a_runs = Arc::new(AtomicUsize::new(0));
    let mut wf1 = Workflow::new("integration", None).with_max_parallel(4).unwrap();
    wf1.add_task(Task::new("a", direct("true")).setup(Box::new(CountingSetup(Arc::clone(&a_runs))))).unwrap();
    wf1.add_task(Task::new("b", direct("false")).depends_on("a")).unwrap();
    wf1.add_task(Task::new("c", direct("true")).depends_on("b")).unwrap();
    let mut state1 = fresh("integration");
    let summary1 = drive(&mut wf1, &mut state1, no_interrupt()).0.unwrap();
    assert!(summary1.failed.iter().any(|f| f.0 == "b"));
    assert!(summary1.skipped.contains(&"c".to_string()));
    assert!(matches!(state1.get_status("b"), Some(TaskStatus::Failed { .. })));
    assert!(matches!(state1.get_status("c"), Some(TaskStatus::SkippedDueToDependencyFailure)));

    let mut state2 = reload(&state1, "integration");
    assert!(matches!(state2.get_status("b"), Some(TaskStatus::Pending)));
    assert!(matches!(state2.get_status("c"), Some(TaskStatus::Pending)));
    let mut wf2 = Workflow::new("integration", None).with_max_parallel(4).unwrap();
    wf2.add_task(Task::new("a", direct("false"))).unwrap();
    wf2.add_task(Task::new("b", direct("true")).depends_on("a")).unwrap();
    wf2.add_task(Task::new("c", direct("true")).depends_on("b")).unwrap();
    let summary2 = drive(&mut wf2, &mut state2, no_interrupt()).0.unwrap();
    assert!(summary2.succeeded.contains(&"b".to_string()));
    assert!(summary2.succeeded.contains(&"c".to_string()));
    assert_eq!(a_runs.load(Ordering::SeqCst), 1);
}

#[test]
fn setup_failure_skips_dependent() {
    let mut wf = Workflow::new("setup_failure_test", None).with_max_parallel(4).unwrap();
    wf.add_task(Task::new("a", direct("true")).setup(Box::new(FailingSetup))).unwrap();
    wf.add_task(Task::new("b", direct("true")).depends_on("a")).unwrap();
    let mut state = fresh("setup_failure");
    let (result, trace) = drive(&mut wf, &mut state, no_interrupt());
    let summary = result.unwrap();
    assert!(trace.spawned.is_empty());
    assert!(summary.failed.iter().any(|f| f.0 == "a"));
    assert!(summary.skipped.contains(&"b".to_string()));
    assert_eq!(state.get_status("a"), Some(TaskStatus::Failed { error: "setup failed".into() }));
    assert!(matches!(state.get_status("b"), Some(TaskStatus::SkippedDueToDependencyFailure)));
    let loaded = reload(&state, "setup_failure");
    assert!(matches!(loaded.get_status("a"), Some(TaskStatus::Pending)));
    assert!(matches!(loaded.get_status("b"), Some(TaskStatus::Pending)));
}

#[test]
fn hooks_fire_on_start_complete_failure() {
    let start_hook = MonitoringHook::new("onstart", "echo start", HookTrigger::OnStart);
    let complete_hook = MonitoringHook::new("oncomplete", "echo complete", HookTrigger::OnComplete);
    let failure_hook = MonitoringHook::new("onfailure", "echo failure", HookTrigger::OnFailure);
    let mut wf = Workflow::new("hooks_test", None).with_max_parallel(4).unwrap();
    wf.add_task(Task::new("success", direct("true")).monitors(vec![start_hook.clone(), complete_hook])).unwrap();
    wf.add_task(Task::new("failure", direct("false")).monitors(vec![start_hook, failure_hook])).unwrap();
    let mut state = fresh("hooks_fire");
    let (result, trace) = drive(&mut wf, &mut state, no_interrupt());
    let summary = result.unwrap();
    assert_eq!(trace.hooks.len(), 4);
    let success: Vec<&String> = trace.hooks.iter().filter(|(_, id)| id == "success").map(|(n, _)| n).collect();
    assert_eq!(success, vec!["onstart", "oncomplete"]);
    let failure: Vec<&String> = trace.hooks.iter().filter(|(_, id)| id == "failure").map(|(n, _)| n).collect();
    assert_eq!(failure, vec!["onstart", "onfailure"]);
    assert!(summary.succeeded.contains(&"success".to_string()));
    assert!(summary.failed.iter().any(|f| f.0 == "failure"));
}

#[test]
fn task_timeout_marks_failed() {
    let mut wf = Workflow::new("wf_timeout_single", None).with_max_parallel(4).unwrap();
    wf.add_task(Task::new("timeout_task", sleeper(100))).unwrap();
    let mut state = fresh("wf_timeout_single");
    let (result, trace) = drive(&mut wf, &mut state, no_interrupt());
    let summary = result.unwrap();
    let failed = summary.failed.iter().find(|f| f.0 == "timeout_task").expect("task should fail");
    assert!(failed.1.contains("timed out"));
    assert!(summary.duration < Duration::from_secs(1));
    assert_eq!(trace.terminated, vec!["timeout_task".to_string()]);
}

#[test]
fn timeout_task_fails_and_dependent_skips() {
    let mut wf = Workflow::new("wf_timeout", None).with_max_parallel(4).unwrap();
    wf.add_task(Task::new("sleeper", sleeper(100))).unwrap();
    wf.add_task(Task::new("dependent", direct("true")).depends_on("sleeper")).unwrap();
    let mut state = fresh("wf_timeout");
    let (result, _) = drive(&mut wf, &mut state, no_interrupt());
    let summary = result.unwrap();
    assert!(summary.duration < Duration::from_secs(1));
    let f = summary.failed.iter().find(|f| f.0 == "sleeper").expect("sleeper should fail");
    assert_eq!(f.1, "task 'sleeper' timed out");
    assert!(summary.skipped.contains(&"dependent".to_string()));
}

#[test]
fn queued_task_completes_through_the_run() {
    let mut wf = Workflow::new("queued_test", None).with_max_parallel(4).unwrap().with_log_dir(PathBuf::from("logs"));
    wf.add_task(Task::new("queued_a", ExecutionMode::Queued)).unwrap();
    let dag = wf.build_dag().unwrap();
    let mut state = fresh("queued_test");
    initialize_statuses(&dag, &mut state);
    let mut rs = RunState::with_queue(PathBuf::from("logs"));
    let t = Duration::from_millis(0);
    rs.step(&mut wf, &dag, &mut state, RunEvent::Round { interrupted: false }, t);
    let a = rs.step(&mut wf, &dag, &mut state, RunEvent::Dispatch, t);
    assert!(matches!(a.as_slice(), [RunAction::Save, RunAction::Submit { .. }]));
    rs.step(&mut wf, &dag, &mut state, RunEvent::Spawned, t);
    rs.step(&mut wf, &dag, &mut state, RunEvent::Round { interrupted: false }, t);
    rs.step(&mut wf, &dag, &mut state, RunEvent::Checked { id: "queued_a".into(), elapsed: t, alive: true }, t);
    rs.step(&mut wf, &dag, &mut state, RunEvent::Dispatch, t);
    rs.step(&mut wf, &dag, &mut state, RunEvent::Round { interrupted: false }, t);
    rs.step(&mut wf, &dag, &mut state, RunEvent::Checked { id: "queued_a".into(), elapsed: t, alive: false }, t);
    rs.step(&mut wf, &dag, &mut state, RunEvent::Waited { id: "queued_a".into(), waited: Some(Some(0)) }, t);
    let a = rs.step(&mut wf, &dag, &mut state, RunEvent::Dispatch, t);
    match a.last() {
        Some(RunAction::Finish(Ok(summary))) => {
            assert_eq!(summary.succeeded, vec!["queued_a".to_string()]);
            assert!(summary.failed.is_empty());
            assert!(summary.skipped.is_empty());
        }
        _ => panic!("expected the run to finish"),
    }
    assert!(matches!(state.get_status("queued_a"), Some(TaskStatus::Completed)));
}
