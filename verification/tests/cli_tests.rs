use std::collections::HashMap;
use std::path::PathBuf;
use workflow_core::cli::{cmd_inspect, cmd_retry, cmd_status, downstream_tasks};
use workflow_core::state::{JsonStateStore, StateStore, StateStoreExt, TaskStatus, TaskSuccessors};

fn make_state() -> JsonStateStore {
    let mut s = JsonStateStore::new("test_wf", PathBuf::from("/tmp/cli_state.json"));
    s.mark_completed("task_a");
    s.mark_failed("task_b", "exit code 1".into());
    s.mark_skipped_due_to_dep_failure("task_c");
    s
}

#[test]
fn retry_resets_failed_and_skipped_dep() {
    let mut s = make_state();
    let report = cmd_retry(&mut s, &["task_b".to_string()]);
    assert!(matches!(s.get_status("task_b"), Some(TaskStatus::Pending)));
    assert!(matches!(s.get_status("task_c"), Some(TaskStatus::Pending)));
    assert!(matches!(s.get_status("task_a"), Some(TaskStatus::Completed)));
    assert!(report.unknown.is_empty());
    assert!(report.used_fallback);
}

#[test]
fn status_output_format() {
    let s = make_state();
    let out = cmd_status(&s);
    assert!(out.contains("task_a: Completed"));
    assert!(out.contains("task_b: Failed (exit code 1)"));
    assert!(out.contains("Summary: 1 completed, 1 failed, 1 skipped, 0 pending"));
}

#[test]
fn status_shows_failed_after_load_raw() {
    // A store as `load_raw` gives it back: the saved entries, unchanged.
    let entries = make_state().all_tasks();
    let loaded = JsonStateStore::from_parts(
        "test_wf".into(),
        "t".into(),
        "t".into(),
        entries,
        PathBuf::from("/tmp/cli_state.json"),
        None,
    );
    let out = cmd_status(&loaded);
    assert!(out.contains("task_b: Failed (exit code 1)"));
}

#[test]
fn inspect_single_task() {
    let s = make_state();
    let out = cmd_inspect(&s, Some("task_b")).unwrap();
    assert_eq!(out, "task: task_b\nstatus: Failed\nerror: exit code 1");
}

#[test]
fn inspect_unknown_task_errors() {
    let s = make_state();
    assert!(cmd_inspect(&s, Some("nonexistent")).is_err());
}

#[test]
fn downstream_linear_chain() {
    let mut map = HashMap::new();
    map.insert("a".into(), vec!["b".into()]);
    map.insert("b".into(), vec!["c".into()]);
    map.insert("c".into(), vec![]);
    let succ = TaskSuccessors::new(map);
    let result = downstream_tasks(&["a".into()], &succ);
    assert_eq!(result.len(), 2);
    assert!(result.contains("b"));
    assert!(result.contains("c"));
}

#[test]
fn downstream_diamond() {
    let mut map = HashMap::new();
    map.insert("a".into(), vec!["b".into(), "c".into()]);
    map.insert("b".into(), vec!["d".into()]);
    map.insert("c".into(), vec!["d".into()]);
    map.insert("d".into(), vec![]);
    let succ = TaskSuccessors::new(map);
    let result = downstream_tasks(&["a".into()], &succ);
    assert_eq!(result.len(), 3);
    assert!(result.contains("b"));
    assert!(result.contains("c"));
    assert!(result.contains("d"));
}

#[test]
fn downstream_start_not_in_map() {
    let succ = TaskSuccessors::new(HashMap::new());
    let result = downstream_tasks(&["x".into()], &succ);
    assert!(result.is_empty());
}

#[test]
fn downstream_empty_start() {
    let mut map = HashMap::new();
    map.insert("a".into(), vec!["b".into()]);
    let succ = TaskSuccessors::new(map);
    let result = downstream_tasks(&[], &succ);
    assert!(result.is_empty());
}

#[test]
fn downstream_multiple_starts() {
    let mut map = HashMap::new();
    map.insert("a".into(), vec!["c".into()]);
    map.insert("b".into(), vec!["c".into()]);
    map.insert("c".into(), vec![]);
    let succ = TaskSuccessors::new(map);
    let result = downstream_tasks(&["a".into(), "b".into()], &succ);
    assert_eq!(result.len(), 1);
    assert!(result.contains("c"));
}

#[test]
fn downstream_cycle_terminates() {
    let mut map = HashMap::new();
    map.insert("a".into(), vec!["b".into()]);
    map.insert("b".into(), vec!["a".into()]);
    let succ = TaskSuccessors::new(map);
    let result = downstream_tasks(&["a".into()], &succ);
    assert!(result.contains("b"));
    assert!(result.contains("a"));
}

#[test]
fn status_listing_is_sorted_and_complete() {
    let mut s = JsonStateStore::new("w", PathBuf::from("/tmp/x.json"));
    s.mark_pending("zeta");
    s.mark_running("alpha");
    s.mark_skipped("mid");
    let out = cmd_status(&s);
    assert_eq!(
        out,
        "alpha: Running\nmid: Skipped\nzeta: Pending\nSummary: 0 completed, 0 failed, 1 skipped, 1 pending"
    );
}

#[test]
fn inspect_listing_and_messages() {
    let s = make_state();
    assert_eq!(
        cmd_inspect(&s, None).unwrap(),
        "task_a: Completed\ntask_b: Failed { error: \"exit code 1\" }\ntask_c: SkippedDueToDependencyFailure"
    );
    assert_eq!(cmd_inspect(&s, Some("task_a")).unwrap(), "task: task_a\nstatus: Completed");
    assert_eq!(cmd_inspect(&s, Some("nope")).unwrap_err(), "task 'nope' not found");
    let empty = JsonStateStore::new("w", PathBuf::from("/tmp/x.json"));
    assert_eq!(cmd_inspect(&empty, None).unwrap(), "");
}

#[test]
fn retry_with_dependency_info_resets_only_downstream() {
    let mut s = JsonStateStore::new("w", PathBuf::from("/tmp/x.json"));
    s.mark_failed("a", "boom".into());
    s.mark_skipped_due_to_dep_failure("b");
    s.mark_failed("x", "other".into());
    s.mark_skipped_due_to_dep_failure("y");
    s.mark_completed("c");
    let mut map = HashMap::new();
    map.insert("a".to_string(), vec!["b".to_string()]);
    map.insert("x".to_string(), vec!["y".to_string()]);
    s.set_task_successors(TaskSuccessors::new(map));
    let report = cmd_retry(&mut s, &["a".to_string(), "ghost".to_string()]);
    assert_eq!(report.unknown, vec!["ghost"]);
    assert!(!report.used_fallback);
    assert_eq!(s.get_status("a"), Some(TaskStatus::Pending));
    assert_eq!(s.get_status("b"), Some(TaskStatus::Pending));
    assert_eq!(s.get_status("x"), Some(TaskStatus::Failed { error: "other".into() }));
    assert_eq!(s.get_status("y"), Some(TaskStatus::SkippedDueToDependencyFailure));
    assert_eq!(s.get_status("c"), Some(TaskStatus::Completed));
    assert_eq!(s.get_status("ghost"), None);
}

#[test]
fn successors_table_lookup() {
    let mut map = HashMap::new();
    map.insert("a".to_string(), vec!["b".to_string(), "c".to_string()]);
    let succ = TaskSuccessors::new(map);
    assert_eq!(succ.get("a"), Some(&vec!["b".to_string(), "c".to_string()]));
    assert_eq!(succ.get("b"), None);
}
