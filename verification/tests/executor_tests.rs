use std::path::PathBuf;
use workflow_core::executor::{
    local_poll_status, parse_pid, parse_sbatch_output, parse_squeue_output, sentinel_name, sentinel_status,
    status_of_exit, JobHandle, JobStatus, Liveness, LocalExecutor,
};

#[test]
fn submit_parses_job_id() {
    let handle = parse_sbatch_output("Submitted batch job 42\n").unwrap();
    assert_eq!(handle.raw, "42");
}

#[test]
fn poll_maps_slurm_states() {
    assert_eq!(parse_squeue_output("RUNNING\n"), JobStatus::Running);
    assert_eq!(parse_squeue_output(""), JobStatus::Completed);
    assert_eq!(parse_squeue_output("FAILED\n"), JobStatus::Failed(-1));
}

#[test]
fn squeue_states_in_full() {
    assert_eq!(parse_squeue_output("  PENDING "), JobStatus::Running);
    assert_eq!(parse_squeue_output("COMPLETED"), JobStatus::Completed);
    assert_eq!(parse_squeue_output("CANCELLED\n"), JobStatus::Failed(-1));
    assert_eq!(parse_squeue_output("TIMEOUT"), JobStatus::Failed(-1));
    assert_eq!(parse_squeue_output("NODE_FAIL"), JobStatus::Failed(-1));
    assert_eq!(parse_squeue_output("CONFIGURING"), JobStatus::Running);
    assert_eq!(parse_squeue_output("running"), JobStatus::Running);
}

#[test]
fn sbatch_output_variants() {
    let h = parse_sbatch_output("sbatch: warning: something\r\nSubmitted batch job  77 \r\nmore\n").unwrap();
    assert_eq!(h.raw, "77");
    assert_eq!(
        parse_sbatch_output("no job here\n").unwrap_err(),
        "failed to parse job ID from sbatch output"
    );
    assert!(parse_sbatch_output("").is_err());
    assert!(parse_sbatch_output(" Submitted batch job 5").is_err());
}

#[test]
fn pids_and_sentinels() {
    assert_eq!(parse_pid(&JobHandle { raw: "1234".into() }), Ok(1234));
    assert_eq!(parse_pid(&JobHandle { raw: "-7".into() }), Ok(-7));
    assert_eq!(parse_pid(&JobHandle { raw: "+7".into() }), Ok(7));
    assert_eq!(parse_pid(&JobHandle { raw: "2147483647".into() }), Ok(2147483647));
    assert_eq!(parse_pid(&JobHandle { raw: "-2147483648".into() }), Ok(-2147483648));
    assert!(parse_pid(&JobHandle { raw: "2147483648".into() }).is_err());
    assert!(parse_pid(&JobHandle { raw: " 12".into() }).is_err());
    assert!(parse_pid(&JobHandle { raw: "-".into() }).is_err());
    assert_eq!(
        parse_pid(&JobHandle { raw: "abc".into() }).unwrap_err(),
        "invalid PID in handle: \"abc\""
    );
    assert_eq!(sentinel_name(4321), ".exit.4321");
    assert_eq!(sentinel_status("0\n"), Some(JobStatus::Completed));
    assert_eq!(sentinel_status(" 42 "), Some(JobStatus::Failed(42)));
    assert_eq!(sentinel_status("x"), None);
    assert_eq!(status_of_exit(0), JobStatus::Completed);
    assert_eq!(status_of_exit(-1), JobStatus::Failed(-1));
}

#[test]
fn local_poll_decisions() {
    assert_eq!(local_poll_status(Some(JobStatus::Failed(42)), Liveness::Alive), Ok(JobStatus::Failed(42)));
    assert_eq!(local_poll_status(None, Liveness::Alive), Ok(JobStatus::Running));
    assert_eq!(local_poll_status(None, Liveness::Gone), Ok(JobStatus::Running));
    assert_eq!(
        local_poll_status(None, Liveness::CheckFailed("EPERM".into())),
        Err("kill(0) failed: EPERM".to_string())
    );
}

#[test]
fn local_executor_fields() {
    let e = LocalExecutor::new("echo", vec!["ok".into()], PathBuf::from("/tmp"));
    assert_eq!(e.program(), "echo");
    assert_eq!(e.args(), &vec!["ok".to_string()]);
    assert_eq!(e.workdir(), &PathBuf::from("/tmp"));
}

#[test]
fn sentinel_reads_back_what_was_written() {
    for code in [0, 1, 42, -1, 255, i32::MAX, i32::MIN] {
        assert_eq!(sentinel_status(&code.to_string()), Some(status_of_exit(code)));
    }
}

#[test]
fn sbatch_line_reads_back_the_job_id() {
    for id in ["7", "123456", "a-b.c"] {
        let out = format!("Submitted batch job {}\n", id);
        assert_eq!(parse_sbatch_output(&out).unwrap().raw, id);
    }
}

#[test]
fn poll_after_exit_reads_sentinel_whatever_liveness() {
    for code in [0, 42, -3] {
        let text = code.to_string();
        let expected = if code == 0 { JobStatus::Completed } else { JobStatus::Failed(code) };
        assert_eq!(local_poll_status(sentinel_status(&text), Liveness::Gone), Ok(expected));
        assert_eq!(local_poll_status(sentinel_status(&text), Liveness::CheckFailed("EPERM".into())), Ok(expected));
    }
}
