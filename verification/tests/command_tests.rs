use std::path::PathBuf;
use std::time::Duration;
use workflow_core::command::{ExecutionResult, TaskExecutor};

#[test]
fn builder_accumulates() {
    let e = TaskExecutor::new(PathBuf::from("/work"))
        .command("mpirun")
        .arg("-n")
        .args(vec!["4".into(), "castep".into()])
        .env("OMP_NUM_THREADS", "1")
        .env("A", "x")
        .env("OMP_NUM_THREADS", "2");
    assert_eq!(e.program_name(), "mpirun");
    assert_eq!(e.arguments(), &vec!["-n".to_string(), "4".to_string(), "castep".to_string()]);
    assert_eq!(e.workdir(), &PathBuf::from("/work"));
    assert_eq!(
        e.env_pairs(),
        &vec![("OMP_NUM_THREADS".to_string(), "2".to_string()), ("A".to_string(), "x".to_string())]
    );
}

#[test]
fn fresh_executor_is_empty() {
    let e = TaskExecutor::new(PathBuf::from("."));
    assert_eq!(e.program_name(), "");
    assert!(e.arguments().is_empty());
    assert!(e.env_pairs().is_empty());
}

#[test]
fn success_means_exit_zero() {
    let mk = |c: Option<i32>| ExecutionResult { exit_code: c, stdout: String::new(), stderr: String::new(), duration: Duration::ZERO };
    assert!(mk(Some(0)).success());
    assert!(!mk(Some(1)).success());
    assert!(!mk(None).success());
}
