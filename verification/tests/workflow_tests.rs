use std::collections::HashMap;
use std::path::PathBuf;
use std::time::Duration;
use workflow_core::dag::Dag;
use workflow_core::state::{JsonStateStore, StateStore, StateStoreExt, TaskStatus};
use workflow_core::task::{ExecutionMode, Task};
use workflow_core::workflow::{
    all_done, awaits_result, dispatch_candidates, dispatch_decision, finish_context, finish_status,
    initialize_statuses, record_finish, record_timeout, return_to_pending, settled_tasks, start_context,
    timeout_message, DispatchDecision, Workflow, WorkflowSummary,
};
use workflow_core::WorkflowError;

fn direct() -> ExecutionMode {
    ExecutionMode::Direct { command: "true".into(), args: vec![], env: HashMap::new(), timeout: None }
}

#[test]
fn dry_run_returns_topo_order() -> Result<(), Box<dyn std::error::Error>> {
    let mut wf = Workflow::new("wf_dry", None);
    wf.add_task(Task::new("a", direct())).unwrap();
    wf.add_task(Task::new("b", direct()).depends_on("a")).unwrap();
    let order = wf.dry_run().map_err(|e| e.message())?;
    let pa = order.iter().position(|x| x == "a").unwrap();
    let pb = order.iter().position(|x| x == "b").unwrap();
    assert!(pa < pb);
    Ok(())
}

#[test]
fn duplicate_task_id_errors() -> Result<(), Box<dyn std::error::Error>> {
    let mut wf = Workflow::new("wf_dup", None);
    wf.add_task(Task::new("a", direct())).unwrap();
    assert!(matches!(wf.add_task(Task::new("a", direct())), Err(WorkflowError::DuplicateTaskId(_))));
    Ok(())
}

#[test]
fn valid_dependency_add() -> Result<(), Box<dyn std::error::Error>> {
    let mut wf = Workflow::new("wf_dep", None);
    wf.add_task(Task::new("a", direct())).unwrap();
    assert!(wf.add_task(Task::new("b", direct()).depends_on("a")).is_ok());
    Ok(())
}

#[test]
fn builder_with_custom_max_parallel() {
    let wf = Workflow::new("test", None).with_max_parallel(4).unwrap();
    assert_eq!(wf.max_parallel(), 4);
}

#[test]
fn builder_validation_zero_parallelism() {
    let result = Workflow::new("test", None).with_max_parallel(0);
    assert!(result.is_err());
    match result {
        Err(e) => assert_eq!(e.message(), "invalid configuration: max_parallel must be at least 1"),
        Ok(_) => panic!("expected an error"),
    }
}

#[test]
fn default_parallelism_is_host_or_four() {
    assert_eq!(Workflow::new("w", None).max_parallel(), 4);
    assert_eq!(Workflow::new("w", Some(12)).max_parallel(), 12);
}

#[test]
fn dry_run_reports_unknown_dependency_and_cycle() {
    let mut wf = Workflow::new("w", None);
    wf.add_task(Task::new("a", direct()).depends_on("ghost")).unwrap();
    match wf.dry_run() {
        Err(WorkflowError::UnknownDependency { task, dependency }) => {
            assert_eq!(task, "ghost");
            assert_eq!(dependency, "a");
        }
        _ => panic!("expected UnknownDependency"),
    }
    let mut wf = Workflow::new("w", None);
    wf.add_task(Task::new("a", direct()).depends_on("b")).unwrap();
    wf.add_task(Task::new("b", direct()).depends_on("a")).unwrap();
    assert!(matches!(wf.dry_run(), Err(WorkflowError::CycleDetected)));
}

#[test]
fn take_task_consumes() {
    let mut wf = Workflow::new("w", None);
    wf.add_task(Task::new("a", direct())).unwrap();
    wf.add_task(Task::new("b", direct())).unwrap();
    assert!(wf.has_task("a"));
    let t = wf.take_task("a").unwrap();
    assert_eq!(t.id, "a");
    assert!(!wf.has_task("a"));
    assert!(wf.take_task("a").is_none());
    assert!(wf.has_task("b"));
}

fn chain_workflow() -> Workflow {
    let mut wf = Workflow::new("w", None);
    wf.add_task(Task::new("a", direct())).unwrap();
    wf.add_task(Task::new("b", direct()).depends_on("a")).unwrap();
    wf.add_task(Task::new("c", direct()).depends_on("b")).unwrap();
    wf.add_task(Task::new("d", direct())).unwrap();
    wf
}

#[test]
fn failure_skips_the_whole_chain_below() {
    let wf = chain_workflow();
    let dag: Dag = wf.build_dag().unwrap();
    let mut state = JsonStateStore::new("w", PathBuf::from("/tmp/w.json"));
    initialize_statuses(&dag, &mut state);
    assert_eq!(state.all_tasks().len(), 4);
    state.mark_failed("a", "exit code 1".into());
    wf.propagate_skips(&mut state);
    assert_eq!(state.get_status("b"), Some(TaskStatus::SkippedDueToDependencyFailure));
    assert_eq!(state.get_status("c"), Some(TaskStatus::SkippedDueToDependencyFailure));
    assert_eq!(state.get_status("d"), Some(TaskStatus::Pending));
    assert_eq!(state.get_status("a"), Some(TaskStatus::Failed { error: "exit code 1".into() }));
}

#[test]
fn dispatch_follows_dependencies() {
    let wf = chain_workflow();
    let dag = wf.build_dag().unwrap();
    let mut state = JsonStateStore::new("w", PathBuf::from("/tmp/w.json"));
    initialize_statuses(&dag, &mut state);
    assert_eq!(dispatch_candidates(&dag, &state), vec!["a", "d"]);
    state.mark_completed("a");
    assert_eq!(dispatch_candidates(&dag, &state), vec!["b", "d"]);
    assert!(!all_done(&dag, &state));
    state.mark_completed("b");
    state.mark_skipped("c");
    state.mark_failed("d", "x".into());
    assert!(all_done(&dag, &state));
    let settled = settled_tasks(&state);
    assert_eq!(settled.len(), 3);
    assert!(settled.contains("c"));
    assert!(!settled.contains("d"));
}

#[test]
fn initialize_keeps_existing_statuses() {
    let wf = chain_workflow();
    let dag = wf.build_dag().unwrap();
    let mut state = JsonStateStore::new("w", PathBuf::from("/tmp/w.json"));
    state.mark_completed("a");
    initialize_statuses(&dag, &mut state);
    assert_eq!(state.get_status("a"), Some(TaskStatus::Completed));
    assert_eq!(state.get_status("b"), Some(TaskStatus::Pending));
}

#[test]
fn finish_status_from_exit() {
    assert_eq!(finish_status(Some(Some(0))), TaskStatus::Completed);
    assert_eq!(finish_status(Some(Some(3))), TaskStatus::Failed { error: "exit code 3".into() });
    assert_eq!(finish_status(Some(None)), TaskStatus::Failed { error: "exit code -1".into() });
    assert_eq!(finish_status(None), TaskStatus::Failed { error: "process terminated".into() });
    assert_eq!(timeout_message("t1"), "task 't1' timed out");
}

#[test]
fn summary_groups_tasks() {
    let mut state = JsonStateStore::new("w", PathBuf::from("/tmp/w.json"));
    state.mark_completed("a");
    state.mark_failed("b", "boom".into());
    state.mark_skipped("c");
    state.mark_skipped_due_to_dep_failure("d");
    state.mark_pending("e");
    let s = WorkflowSummary::from_state(&state, Duration::from_secs(2));
    assert_eq!(s.succeeded, vec!["a"]);
    assert_eq!(s.failed, vec![("b".to_string(), "boom".to_string())]);
    let mut skipped = s.skipped.clone();
    skipped.sort();
    assert_eq!(skipped, vec!["c", "d"]);
    assert_eq!(s.duration, Duration::from_secs(2));
}

#[test]
fn run_step_decisions() {
    assert_eq!(dispatch_decision(4, 4, &Some(TaskStatus::Pending)), DispatchDecision::Stop);
    assert_eq!(dispatch_decision(1, 4, &Some(TaskStatus::Pending)), DispatchDecision::Start);
    assert_eq!(dispatch_decision(1, 4, &Some(TaskStatus::Running)), DispatchDecision::Pass);
    assert_eq!(dispatch_decision(0, 1, &None), DispatchDecision::Pass);

    let mut state = JsonStateStore::new("w", PathBuf::from("/tmp/w.json"));
    state.mark_running("a");
    state.mark_running("b");
    record_timeout(&mut state, "a");
    assert_eq!(state.get_status("a"), Some(TaskStatus::Failed { error: "task 'a' timed out".into() }));
    assert!(!awaits_result(&state, "a"));
    assert!(awaits_result(&state, "b"));
    assert!(record_finish(&mut state, "b", Some(Some(0))));
    assert_eq!(state.get_status("b"), Some(TaskStatus::Completed));
    assert!(!record_finish(&mut state, "c", None));
    assert_eq!(state.get_status("c"), Some(TaskStatus::Failed { error: "process terminated".into() }));

    state.mark_running("d");
    return_to_pending(&mut state, &vec!["d".to_string(), "e".to_string()]);
    assert_eq!(state.get_status("d"), Some(TaskStatus::Pending));
    assert_eq!(state.get_status("e"), Some(TaskStatus::Pending));
    assert_eq!(state.get_status("b"), Some(TaskStatus::Completed));

    let ctx = finish_context("b", PathBuf::from("/w"), true, Some(0));
    assert_eq!(ctx.state, "completed");
    assert_eq!(ctx.exit_code, Some(0));
    assert_eq!(finish_context("c", PathBuf::from("/w"), false, None).state, "failed");
    let s = start_context("d", PathBuf::from("/w"));
    assert_eq!((s.task_id.as_str(), s.state.as_str(), s.exit_code), ("d", "running", None));
}

#[test]
fn start_task_marks_running_and_consumes() {
    let mut wf = chain_workflow();
    let mut state = JsonStateStore::new("w", PathBuf::from("/tmp/w.json"));
    let t = wf.start_task(&mut state, "a").unwrap();
    assert_eq!(t.id, "a");
    assert_eq!(state.get_status("a"), Some(TaskStatus::Running));
    assert!(wf.start_task(&mut state, "a").is_none());
    assert_eq!(state.all_tasks().len(), 1);
}

#[test]
fn test_diamond_ancestry() {
    let mut wf = Workflow::new("diamond_test", None);
    wf.add_task(Task::new("a", direct())).unwrap();
    wf.add_task(Task::new("b", direct()).depends_on("a")).unwrap();
    wf.add_task(Task::new("c", direct()).depends_on("a")).unwrap();
    wf.add_task(Task::new("d", direct()).depends_on("b").depends_on("c")).unwrap();
    let order = wf.dry_run().unwrap();
    assert_eq!(order.len(), 4, "expected 4 tasks in topological order");
    let pa = order.iter().position(|x| x == "a").unwrap();
    let pb = order.iter().position(|x| x == "b").unwrap();
    let pc = order.iter().position(|x| x == "c").unwrap();
    let pd = order.iter().position(|x| x == "d").unwrap();
    assert!(pa < pb, "a must precede b");
    assert!(pa < pc, "a must precede c");
    assert!(pb < pd, "b must precede d");
    assert!(pc < pd, "c must precede d");
}
