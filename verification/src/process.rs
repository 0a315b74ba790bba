//! What a process run gives back, and the interfaces through which the
//! engine starts and watches processes.
use crate::error::WorkflowError;
use vstd::prelude::*;

verus! {

/// Where the output of a finished process can be found.
#[derive(Debug, Clone)]
pub enum OutputLocation {
    /// Output held in memory.
    Captured { stdout: String, stderr: String },
    /// Output written to files, as batch schedulers do.
    OnDisk { stdout_path: std::path::PathBuf, stderr_path: std::path::PathBuf },
}

/// The outcome of a finished process.
pub struct ProcessResult {
    /// The exit code, when the process exited normally.
    pub exit_code: Option<i32>,
    /// Where its output is.
    pub output: OutputLocation,
    /// How long it ran.
    pub duration: std::time::Duration,
}

/// Starts processes for the tasks of a workflow.
pub trait ProcessRunner: Send + Sync {
    /// Starts `command` with `args` in `workdir`, with `env` added to the environment.
    fn spawn(
        &self,
        workdir: &std::path::Path,
        command: &str,
        args: &[String],
        env: &std::collections::HashMap<String, String>,
    ) -> Result<Box<dyn ProcessHandle>, WorkflowError>;
}

/// A handle to a running (or finished) process, used to poll, wait, or
/// terminate it.
pub trait ProcessHandle: Send {
    /// Returns `true` if the process is still running; implementations may
    /// cache the result and only re-poll periodically.
    fn is_running(&mut self) -> bool;

    /// Requests termination of the process; best-effort, as the process may
    /// already have exited.
    fn terminate(&mut self) -> Result<(), WorkflowError>;

    /// Returns the process result once the process has finished.
    fn wait(&mut self) -> Result<ProcessResult, WorkflowError>;
}

} // verus!
