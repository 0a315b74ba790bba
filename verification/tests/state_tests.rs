use std::path::PathBuf;
use workflow_core::state::{JsonStateStore, StateStore, StateStoreExt, TaskStatus};

#[test]
fn status_transitions() {
    let mut s = JsonStateStore::new("w", PathBuf::from("/tmp"));
    s.mark_running("a");
    assert!(matches!(s.get_status("a"), Some(TaskStatus::Running)));
    s.mark_completed("a");
    assert!(matches!(s.get_status("a"), Some(TaskStatus::Completed)));
}

#[test]
fn load_resets_running_to_pending() {
    // What `load` does after reading the file: the resume reset.
    let mut s = JsonStateStore::new("test", PathBuf::from("/tmp/state.json"));
    s.mark_running("task1");
    s.mark_completed("task2");
    s.mark_failed("task3", "boom".into());
    s.mark_skipped_due_to_dep_failure("task4");
    s.mark_skipped("task5"); // must NOT reset
    s.reset_for_resume();
    assert!(matches!(s.get_status("task1"), Some(TaskStatus::Pending)));
    assert!(matches!(s.get_status("task2"), Some(TaskStatus::Completed)));
    assert!(matches!(s.get_status("task3"), Some(TaskStatus::Pending)));
    assert!(matches!(s.get_status("task4"), Some(TaskStatus::Pending)));
    assert!(matches!(s.get_status("task5"), Some(TaskStatus::Skipped)));
}

#[test]
fn summary_counts() {
    let mut s = JsonStateStore::new("test", PathBuf::from("/tmp"));
    s.mark_pending("a");
    s.mark_running("b");
    s.mark_completed("c");
    s.mark_failed("d", "error".to_string());
    s.mark_skipped("e");

    let summary = s.summary();
    assert_eq!(summary.pending, 1);
    assert_eq!(summary.running, 1);
    assert_eq!(summary.completed, 1);
    assert_eq!(summary.failed, 1);
    assert_eq!(summary.skipped, 1);
}

#[test]
fn all_tasks() {
    let mut s = JsonStateStore::new("test", PathBuf::from("/tmp"));
    s.mark_completed("a");
    s.mark_running("b");
    assert_eq!(s.all_tasks().len(), 2);
}

#[test]
fn workflow_name_preserved() {
    let s = JsonStateStore::new("my_workflow", PathBuf::from("/tmp/name.json"));
    assert_eq!(s.workflow_name(), "my_workflow");
    assert_eq!(s.path(), &PathBuf::from("/tmp/name.json"));
}

#[test]
fn read_after_write_and_others_untouched() {
    let mut s = JsonStateStore::new("w", PathBuf::from("/tmp"));
    s.mark_completed("a");
    s.mark_failed("b", "bad".to_string());
    s.mark_pending("a");
    assert_eq!(s.get_status("a"), Some(TaskStatus::Pending));
    assert_eq!(s.get_status("b"), Some(TaskStatus::Failed { error: "bad".to_string() }));
    assert_eq!(s.get_status("c"), None);
    assert_eq!(s.all_tasks().len(), 2);
    assert!(!s.is_completed("a"));
    s.mark_completed("a");
    assert!(s.is_completed("a"));
}

#[test]
fn summary_counts_add_up() {
    let mut s = JsonStateStore::new("w", PathBuf::from("/tmp"));
    for (i, id) in ["a", "b", "c", "d", "e", "f"].iter().enumerate() {
        match i % 3 {
            0 => s.mark_skipped_due_to_dep_failure(id),
            1 => s.mark_completed(id),
            _ => s.mark_running(id),
        }
    }
    let sum = s.summary();
    assert_eq!(sum.pending + sum.running + sum.completed + sum.failed + sum.skipped, 6);
    assert_eq!(sum.skipped, 2);
    assert_eq!(sum.running, 2);
}

#[test]
fn from_parts_later_entry_wins() {
    let entries = vec![
        ("a".to_string(), TaskStatus::Running),
        ("b".to_string(), TaskStatus::Completed),
        ("a".to_string(), TaskStatus::Completed),
    ];
    let s = JsonStateStore::from_parts(
        "w".to_string(),
        "t0".to_string(),
        "t1".to_string(),
        entries,
        PathBuf::from("/tmp/x.json"),
        None,
    );
    assert_eq!(s.get_status("a"), Some(TaskStatus::Completed));
    assert_eq!(s.all_tasks().len(), 2);
    assert_eq!(s.created_at(), "t0");
    assert_eq!(s.last_updated(), "t1");
    assert!(s.task_successors().is_none());
}

#[test]
fn resume_twice_is_resume_once() {
    let mut s = JsonStateStore::new("w", PathBuf::from("/tmp"));
    s.mark_running("a");
    s.mark_skipped("b");
    s.mark_failed("c", "x".into());
    s.reset_for_resume();
    let once = s.all_tasks();
    s.reset_for_resume();
    assert_eq!(s.all_tasks(), once);
}

#[test]
fn new_store_timestamps_are_rfc3339() {
    let s = JsonStateStore::new("w", PathBuf::from("/tmp"));
    let t = s.created_at();
    assert!(t.len() >= 20);
    assert_eq!(&t[4..5], "-");
    assert_eq!(&t[10..11], "T");
    assert_eq!(s.created_at(), s.last_updated());
}
