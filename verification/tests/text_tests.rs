use workflow_core::text::{
    i64_to_string, parse_i32, replace_text, split_lines, split_whitespace, starts_with, str_lt, trim, u64_to_string,
    TaskIdSet,
};
use workflow_core::WorkflowError;

#[test]
fn words_lines_and_trim() {
    assert_eq!(split_whitespace("  a\tbb \n c "), vec!["a", "bb", "c"]);
    assert!(split_whitespace(" \u{3000} ").is_empty());
    assert_eq!(split_lines("a\r\nb\n\nc"), vec!["a", "b", "", "c"]);
    assert_eq!(split_lines("x\n"), vec!["x"]);
    assert_eq!(split_lines("x\r"), vec!["x\r"]);
    assert!(split_lines("").is_empty());
    assert_eq!(trim("\u{a0} a b \n"), "a b");
    assert!(starts_with("Submitted batch", "Sub"));
    assert!(!starts_with("Su", "Sub"));
}

#[test]
fn numbers_both_ways() {
    assert_eq!(u64_to_string(0), "0");
    assert_eq!(u64_to_string(18446744073709551615), "18446744073709551615");
    assert_eq!(i64_to_string(-9223372036854775808), "-9223372036854775808");
    assert_eq!(parse_i32("-0"), Some(0));
    assert_eq!(parse_i32("0042"), Some(42));
    assert_eq!(parse_i32(""), None);
    assert_eq!(parse_i32("+"), None);
    assert_eq!(parse_i32("4 2"), None);
    assert_eq!(parse_i32("-2147483649"), None);
    for s in ["17", "-5", "+9", "007", "2147483647", "x1", "99999999999"] {
        assert_eq!(parse_i32(s), s.parse::<i32>().ok());
    }
}

#[test]
fn replace_and_order() {
    assert_eq!(replace_text("qdel {job_id} {job_id}", "{job_id}", "9"), "qdel 9 9");
    assert_eq!(replace_text("aaa", "aa", "b"), "ba");
    assert_eq!(replace_text("none", "{job_id}", "9"), "none");
    assert!(str_lt("a", "b"));
    assert!(str_lt("task", "task_a"));
    assert!(!str_lt("b", "a"));
    assert!(!str_lt("a", "a"));
}

#[test]
fn id_set_keeps_each_once() {
    let mut s = TaskIdSet::new();
    assert!(s.is_empty());
    assert!(s.insert("a".into()));
    assert!(!s.insert("a".into()));
    assert!(s.insert("b".into()));
    assert_eq!(s.len(), 2);
    assert_eq!(s.to_vec(), vec!["a", "b"]);
}

#[test]
fn error_messages() {
    assert_eq!(WorkflowError::DuplicateTaskId("x".into()).message(), "duplicate task id: x");
    assert_eq!(WorkflowError::CycleDetected.message(), "dependency cycle detected");
    assert_eq!(
        WorkflowError::UnknownDependency { task: "t".into(), dependency: "d".into() }.message(),
        "unknown dependency 'd' in task 't'"
    );
    assert_eq!(WorkflowError::StateCorrupted("bad".into()).message(), "state file corrupted: bad");
    assert_eq!(WorkflowError::TaskTimeout("t".into()).message(), "task 't' timed out");
    assert_eq!(WorkflowError::Interrupted.message(), "workflow interrupted by signal");
    assert_eq!(WorkflowError::QueueSubmitFailed("q".into()).message(), "failed to submit job to queue: q");
    let io = WorkflowError::IoWithPath { path: "/x/y".into(), source: std::io::Error::other("denied") };
    assert_eq!(io.message(), "I/O error on '/x/y': denied");
    let from_io: WorkflowError = std::io::Error::other("e").into();
    assert!(matches!(from_io, WorkflowError::Io(_)));
    let json_err = serde_json::from_str::<serde_json::Value>("not json").unwrap_err();
    let from_json: WorkflowError = json_err.into();
    assert!(matches!(from_json, WorkflowError::StateCorrupted(_)));
}
