use std::path::PathBuf;
use std::time::Duration;
use workflow_core::process::OutputLocation;
use workflow_core::queued::{PollOutcome, PollStep, QueuedRunner, QueuedSubmitter, SchedulerKind, SubmitReport};
use workflow_core::WorkflowError;

#[test]
fn parse_slurm_job_id_from_submit_output() {
    let runner = QueuedRunner::new(SchedulerKind::Slurm);
    let id = runner.parse_job_id("Submitted batch job 12345").unwrap();
    assert_eq!(id, "12345");
}

#[test]
fn parse_slurm_job_id_single_word() {
    let runner = QueuedRunner::new(SchedulerKind::Slurm);
    let id = runner.parse_job_id("99999").unwrap();
    assert_eq!(id, "99999");
}

#[test]
fn parse_slurm_job_id_empty_fails() {
    let runner = QueuedRunner::new(SchedulerKind::Slurm);
    assert!(runner.parse_job_id("").is_err());
}

#[test]
fn parse_pbs_job_id_typical() {
    let runner = QueuedRunner::new(SchedulerKind::Pbs);
    let id = runner.parse_job_id("1234.pbs-server\n").unwrap();
    assert_eq!(id, "1234.pbs-server");
}

#[test]
fn parse_pbs_job_id_empty_fails() {
    let runner = QueuedRunner::new(SchedulerKind::Pbs);
    assert!(runner.parse_job_id("").is_err());
}

#[test]
fn parse_pbs_job_id_whitespace_only_fails() {
    let runner = QueuedRunner::new(SchedulerKind::Pbs);
    assert!(runner.parse_job_id("   \n  ").is_err());
}

#[test]
fn queued_runner_implements_queued_submitter_slurm() {
    let runner = QueuedRunner::new(SchedulerKind::Slurm);
    let _: &dyn QueuedSubmitter = &runner;
}

#[test]
fn queued_runner_implements_queued_submitter_pbs() {
    let runner = QueuedRunner::new(SchedulerKind::Pbs);
    let _: &dyn QueuedSubmitter = &runner;
}

#[test]
fn parse_errors_carry_their_messages() {
    let slurm = QueuedRunner::new(SchedulerKind::Slurm);
    match slurm.parse_job_id("  \n") {
        Err(WorkflowError::QueueSubmitFailed(m)) => assert_eq!(m, "failed to parse SLURM job ID from:   \n"),
        _ => panic!("expected QueueSubmitFailed"),
    }
    let pbs = QueuedRunner::new(SchedulerKind::Pbs);
    match pbs.parse_job_id("") {
        Err(WorkflowError::QueueSubmitFailed(m)) => assert_eq!(m, "empty PBS job ID"),
        _ => panic!("expected QueueSubmitFailed"),
    }
}

#[test]
fn commands_per_scheduler() {
    let slurm = QueuedRunner::new(SchedulerKind::Slurm);
    assert_eq!(slurm.scheduler(), SchedulerKind::Slurm);
    assert_eq!(slurm.build_poll_cmd(), "squeue -j {job_id} -h");
    assert_eq!(slurm.build_cancel_cmd(), "scancel {job_id}");
    let pbs = QueuedRunner::new(SchedulerKind::Pbs);
    assert_eq!(pbs.build_poll_cmd(), "qstat {job_id}");
    assert_eq!(pbs.build_cancel_cmd(), "qdel {job_id}");
    let cmd = pbs.submit_command("relax");
    assert_eq!(cmd.program, "qsub");
    assert_eq!(cmd.stdout_file, "relax.stdout");
    assert_eq!(cmd.stderr_file, "relax.stderr");
    assert_eq!(cmd.script, "job.sh");
    assert_eq!(slurm.submit_command("x").program, "sbatch");
}

#[test]
fn submission_accepted_then_polled_to_completion() {
    let runner = QueuedRunner::new(SchedulerKind::Slurm);
    let report = SubmitReport { success: true, stdout: "Submitted batch job 777\n".into(), stderr: String::new() };
    let mut h = runner
        .accept_submission(&Ok(report), PathBuf::from("/logs/t.stdout"), PathBuf::from("/logs/t.stderr"))
        .unwrap();
    assert_eq!(h.job_id(), "777");
    assert!(h.cached_running());
    assert_eq!(h.poll_command(), "squeue -j 777 -h");
    assert_eq!(h.cancel_command(), "scancel 777");
    assert!(!h.poll_due(14_999_999_999));
    assert!(h.poll_due(15_000_000_000));
    assert!(h.record_poll(PollOutcome::Ran { success: true, stdout_empty: false }));
    assert!(!h.record_poll(PollOutcome::Ran { success: true, stdout_empty: true }));
    let r = h.result(Duration::from_secs(30));
    assert_eq!(r.exit_code, Some(0));
    assert_eq!(r.duration, Duration::from_secs(30));
    match r.output {
        OutputLocation::OnDisk { stdout_path, stderr_path } => {
            assert_eq!(stdout_path, PathBuf::from("/logs/t.stdout"));
            assert_eq!(stderr_path, PathBuf::from("/logs/t.stderr"));
        }
        _ => panic!("expected OnDisk output"),
    }
}

#[test]
fn failed_poll_records_minus_one() {
    let runner = QueuedRunner::new(SchedulerKind::Pbs);
    let report = SubmitReport { success: true, stdout: "42.server".into(), stderr: String::new() };
    let mut h = runner.accept_submission(&Ok(report), PathBuf::from("o"), PathBuf::from("e")).unwrap();
    assert_eq!(h.poll_command(), "qstat 42.server");
    assert!(!h.record_poll(PollOutcome::Failed));
    assert_eq!(h.result(Duration::from_secs(1)).exit_code, Some(-1));
    assert!(!h.record_poll(PollOutcome::Ran { success: false, stdout_empty: false }));
    assert_eq!(h.result(Duration::from_secs(1)).exit_code, Some(0));
}

#[test]
fn refused_submission_reports_stderr() {
    let runner = QueuedRunner::new(SchedulerKind::Slurm);
    let report = SubmitReport { success: false, stdout: String::new(), stderr: "sbatch: error: invalid partition".into() };
    match runner.accept_submission(&Ok(report), PathBuf::from("o"), PathBuf::from("e")) {
        Err(WorkflowError::QueueSubmitFailed(m)) => assert_eq!(m, "sbatch: error: invalid partition"),
        _ => panic!("expected QueueSubmitFailed"),
    }
    let silent = SubmitReport { success: true, stdout: "   ".into(), stderr: String::new() };
    match runner.accept_submission(&Ok(silent), PathBuf::from("o"), PathBuf::from("e")) {
        Err(WorkflowError::QueueSubmitFailed(m)) => assert_eq!(m, "failed to parse SLURM job ID from:    "),
        _ => panic!("expected QueueSubmitFailed"),
    }
}

#[test]
fn submit_program_that_cannot_start_is_a_refused_submission() {
    let runner = QueuedRunner::new(SchedulerKind::Slurm);
    let outcome: Result<SubmitReport, String> = Err("No such file or directory (os error 2)".into());
    match runner.accept_submission(&outcome, PathBuf::from("o"), PathBuf::from("e")) {
        Err(WorkflowError::QueueSubmitFailed(m)) => assert_eq!(m, "No such file or directory (os error 2)"),
        _ => panic!("expected QueueSubmitFailed"),
    }
}

#[test]
fn submit_output_reads_back_the_job_id() {
    let slurm = QueuedRunner::new(SchedulerKind::Slurm);
    for id in ["1", "12345", "job_9"] {
        let out = format!("Submitted batch job {}\n", id);
        assert_eq!(slurm.parse_job_id(&out).unwrap(), id);
    }
    let pbs = QueuedRunner::new(SchedulerKind::Pbs);
    assert_eq!(pbs.parse_job_id("77.head \t\n").unwrap(), "77.head");
}

#[test]
fn liveness_check_uses_cache_within_interval() {
    let runner = QueuedRunner::new(SchedulerKind::Slurm);
    let report = SubmitReport { success: true, stdout: "Submitted batch job 5\n".into(), stderr: String::new() };
    let mut h = runner.accept_submission(&Ok(report), PathBuf::from("o"), PathBuf::from("e")).unwrap();
    assert!(matches!(h.poll_step(14_000_000_000), PollStep::Cached(true)));
    match h.poll_step(15_000_000_000) {
        PollStep::Poll(cmd) => assert_eq!(cmd, "squeue -j 5 -h"),
        PollStep::Cached(_) => panic!("expected a poll"),
    }
    assert!(!h.record_poll(PollOutcome::Ran { success: true, stdout_empty: true }));
    assert!(matches!(h.poll_step(1), PollStep::Cached(false)));
    assert_eq!(h.result(Duration::from_secs(2)).exit_code, Some(0));
}
