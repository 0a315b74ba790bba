//! Submitting jobs to an HPC batch scheduler (SLURM or PBS) and following
//! them: the commands used, how a job id is read from the submit output,
//! and how poll results turn into the job's state.
use crate::error::WorkflowError;
use crate::process::{OutputLocation, ProcessResult};
use crate::text::{replace_all, replace_text, split_whitespace, trim, trimmed, words};
use vstd::prelude::*;
use vstd::string::*;

verus! {

/// The type of HPC job scheduler to target.
#[derive(Debug, Clone, Copy, PartialEq, Eq, Structural)]
pub enum SchedulerKind {
    /// SLURM Workload Manager (`sbatch` / `squeue` / `scancel`).
    Slurm,
    /// Portable Batch System (`qsub` / `qstat` / `qdel`).
    Pbs,
}

/// The program that submits a job script.
pub open spec fn submit_program(k: SchedulerKind) -> Seq<char> {
    match k {
        SchedulerKind::Slurm => "sbatch"@,
        SchedulerKind::Pbs => "qsub"@,
    }
}

/// The shell command that asks whether job `{job_id}` is still queued or running.
pub open spec fn poll_template(k: SchedulerKind) -> Seq<char> {
    match k {
        SchedulerKind::Slurm => "squeue -j {job_id} -h"@,
        SchedulerKind::Pbs => "qstat {job_id}"@,
    }
}

/// The shell command that cancels job `{job_id}`.
pub open spec fn cancel_template(k: SchedulerKind) -> Seq<char> {
    match k {
        SchedulerKind::Slurm => "scancel {job_id}"@,
        SchedulerKind::Pbs => "qdel {job_id}"@,
    }
}

/// The job id in the submit output: for SLURM the last word ("Submitted
/// batch job 12345"), for PBS the whole output trimmed. `None` when there is
/// no such id.
pub open spec fn job_id_in(k: SchedulerKind, stdout: Seq<char>) -> Option<Seq<char>> {
    match k {
        SchedulerKind::Slurm => if words(stdout).len() > 0 { Some(words(stdout).last()) } else { None },
        SchedulerKind::Pbs => if trimmed(stdout).len() > 0 { Some(trimmed(stdout)) } else { None },
    }
}

/// The message of the error raised when the submit output holds no job id.
pub open spec fn no_job_id_message(k: SchedulerKind, stdout: Seq<char>) -> Seq<char> {
    match k {
        SchedulerKind::Slurm => "failed to parse SLURM job ID from: "@ + stdout,
        SchedulerKind::Pbs => "empty PBS job ID"@,
    }
}

/// The placeholder for the job id in the poll and cancel commands.
pub open spec fn job_id_placeholder() -> Seq<char> {
    "{job_id}"@
}

/// The name of the job script that is submitted, in the task's work directory.
pub open spec fn job_script_name() -> Seq<char> {
    "job.sh"@
}

/// How a job is submitted: `program -o <log>/<stdout_file> -e
/// <log>/<stderr_file> <workdir>/<script>`, run in the work directory.
pub struct SubmitCommand {
    /// The submitting program.
    pub program: String,
    /// File name for the job's standard output, in the log directory.
    pub stdout_file: String,
    /// File name for the job's standard error, in the log directory.
    pub stderr_file: String,
    /// The job script, in the work directory.
    pub script: String,
}

/// What the submit command reported.
pub struct SubmitReport {
    /// Whether it exited successfully.
    pub success: bool,
    /// Its standard output.
    pub stdout: String,
    /// Its standard error.
    pub stderr: String,
}

/// The decisions of submitting a task's job to a batch scheduler; the
/// caller runs the command and reports back.
pub trait QueuedSubmitter: Send + Sync {
    /// The command that submits the job script of task `task_id`.
    fn submit_command(&self, task_id: &str) -> SubmitCommand;

    /// The handle of the submitted job, or why the submission failed, from
    /// what the submit command reported (`Err` with the reason when it could
    /// not be started); the job writes its output to `stdout_path` and
    /// `stderr_path`.
    fn accept_submission(
        &self,
        outcome: &Result<SubmitReport, String>,
        stdout_path: std::path::PathBuf,
        stderr_path: std::path::PathBuf,
    ) -> Result<QueuedProcessHandle, WorkflowError>;
}

/// Submits and manages jobs via an HPC batch scheduler.
pub struct QueuedRunner {
    /// Which scheduler dialect to use for command construction.
    scheduler: SchedulerKind,
}

/// Seconds between two polls of the scheduler.
pub open spec fn poll_interval_secs() -> u64 {
    15
}

impl QueuedRunner {
    /// The scheduler this runner targets.
    pub closed spec fn kind(&self) -> SchedulerKind {
        self.scheduler
    }

    /// A runner for the given scheduler.
    pub fn new(scheduler: SchedulerKind) -> (r: QueuedRunner)
        ensures
            r.kind() == scheduler,
    {
        QueuedRunner { scheduler }
    }

    /// Returns the scheduler kind this runner targets.
    pub fn scheduler(&self) -> (r: SchedulerKind)
        ensures
            r == self.kind(),
    {
        self.scheduler
    }

    /// The poll command, with `{job_id}` where the job id goes.
    pub fn build_poll_cmd(&self) -> (r: String)
        ensures
            r@ == poll_template(self.kind()),
    {
        proof {
            reveal_strlit("squeue -j {job_id} -h");
            reveal_strlit("qstat {job_id}");
        }
        match self.scheduler {
            SchedulerKind::Slurm => "squeue -j {job_id} -h".to_owned(),
            SchedulerKind::Pbs => "qstat {job_id}".to_owned(),
        }
    }

    /// The cancel command, with `{job_id}` where the job id goes.
    pub fn build_cancel_cmd(&self) -> (r: String)
        ensures
            r@ == cancel_template(self.kind()),
    {
        proof {
            reveal_strlit("scancel {job_id}");
            reveal_strlit("qdel {job_id}");
        }
        match self.scheduler {
            SchedulerKind::Slurm => "scancel {job_id}".to_owned(),
            SchedulerKind::Pbs => "qdel {job_id}".to_owned(),
        }
    }

    /// Reads the job id from the output of the submit command; without one
    /// the submission failed.
    pub fn parse_job_id(&self, stdout: &str) -> (r: Result<String, WorkflowError>)
        ensures
            match job_id_in(self.kind(), stdout@) {
                Some(id) => r matches Ok(s) && s@ == id,
                None => r matches Err(WorkflowError::QueueSubmitFailed(msg)) && msg@ == no_job_id_message(self.kind(), stdout@),
            },
    {
        proof {
            reveal_strlit("failed to parse SLURM job ID from: ");
            reveal_strlit("empty PBS job ID");
        }
        match self.scheduler {
            SchedulerKind::Slurm => {
                let mut parts = split_whitespace(stdout);
                match parts.pop() {
                    Some(last) => Ok(last),
                    None => Err(WorkflowError::QueueSubmitFailed("failed to parse SLURM job ID from: ".to_owned().concat(stdout))),
                }
            },
            SchedulerKind::Pbs => {
                let t = trim(stdout);
                if t.unicode_len() == 0 {
                    Err(WorkflowError::QueueSubmitFailed("empty PBS job ID".to_owned()))
                } else {
                    Ok(t)
                }
            },
        }
    }
}

impl QueuedSubmitter for QueuedRunner {
    fn submit_command(&self, task_id: &str) -> (r: SubmitCommand)
        ensures
            r.program@ == submit_program(self.kind()),
            r.stdout_file@ == task_id@ + ".stdout"@,
            r.stderr_file@ == task_id@ + ".stderr"@,
            r.script@ == job_script_name(),
    {
        proof {
            reveal_strlit("sbatch");
            reveal_strlit("qsub");
            reveal_strlit(".stdout");
            reveal_strlit(".stderr");
            reveal_strlit("job.sh");
        }
        let program = match self.scheduler {
            SchedulerKind::Slurm => "sbatch".to_owned(),
            SchedulerKind::Pbs => "qsub".to_owned(),
        };
        SubmitCommand {
            program,
            stdout_file: task_id.to_owned().concat(".stdout"),
            stderr_file: task_id.to_owned().concat(".stderr"),
            script: "job.sh".to_owned(),
        }
    }

    fn accept_submission(
        &self,
        outcome: &Result<SubmitReport, String>,
        stdout_path: std::path::PathBuf,
        stderr_path: std::path::PathBuf,
    ) -> (r: Result<QueuedProcessHandle, WorkflowError>)
        ensures
            match outcome {
                Err(reason) => r matches Err(WorkflowError::QueueSubmitFailed(msg)) && msg@ == reason@,
                Ok(report) => if !report.success {
                    r matches Err(WorkflowError::QueueSubmitFailed(msg)) && msg@ == report.stderr@
                } else {
                    match job_id_in(self.kind(), report.stdout@) {
                        None => r matches Err(WorkflowError::QueueSubmitFailed(msg)) && msg@ == no_job_id_message(self.kind(), report.stdout@),
                        Some(id) => r matches Ok(h) && {
                            &&& h.job() == id
                            &&& h.poll_template() == poll_template(self.kind())
                            &&& h.cancel_template() == cancel_template(self.kind())
                            &&& h.stdout_file() == stdout_path
                            &&& h.stderr_file() == stderr_path
                            &&& h.interval_secs() == poll_interval_secs()
                            &&& h.running()
                            &&& h.exit_code() is None
                        },
                    }
                },
            },
    {
        let report = match outcome {
            Ok(report) => report,
            Err(reason) => return Err(WorkflowError::QueueSubmitFailed(reason.clone())),
        };
        if !report.success {
            return Err(WorkflowError::QueueSubmitFailed(report.stderr.clone()));
        }
        let job_id = self.parse_job_id(report.stdout.as_str())?;
        Ok(QueuedProcessHandle {
            job_id,
            poll_cmd: self.build_poll_cmd(),
            cancel_cmd: self.build_cancel_cmd(),
            stdout_path,
            stderr_path,
            poll_interval_secs: 15,
            cached_running: true,
            finished_exit_code: None,
        })
    }
}

/// What running the poll command gave.
pub enum PollOutcome {
    /// The command ran: whether it exited successfully and whether it
    /// printed nothing.
    Ran { success: bool, stdout_empty: bool },
    /// The command could not be run.
    Failed,
}

/// What a liveness check of a queued job does.
pub enum PollStep {
    /// Too soon since the last poll: the answer last seen stands.
    Cached(bool),
    /// Run this shell command, record its outcome (`record_poll`) and
    /// restart the poll clock.
    Poll(String),
}

/// What `record_poll` makes of a job, from its state `before` and the poll
/// command's outcome: the new state `after` and the answer `running`.
pub open spec fn recorded(before: QueuedProcessHandle, outcome: PollOutcome, after: QueuedProcessHandle, running: bool) -> bool {
    &&& running == after.running()
    &&& after.running() == (outcome matches PollOutcome::Ran { success, stdout_empty } && success && !stdout_empty)
    &&& after.exit_code() == (match outcome {
        PollOutcome::Ran { success, stdout_empty } => if success && !stdout_empty { before.exit_code() } else { Some(0i32) },
        PollOutcome::Failed => Some(-1i32),
    })
    &&& after.job() == before.job()
    &&& after.poll_template() == before.poll_template()
    &&& after.cancel_template() == before.cancel_template()
    &&& after.stdout_file() == before.stdout_file()
    &&& after.stderr_file() == before.stderr_file()
    &&& after.interval_secs() == before.interval_secs()
}

/// What a liveness check of job `h`, `elapsed_nanos` after its last poll,
/// does: within the interval the cached answer, after it the job's poll
/// command.
pub open spec fn poll_step_of(h: QueuedProcessHandle, elapsed_nanos: u128, step: PollStep) -> bool {
    if elapsed_nanos < h.interval_secs() * 1_000_000_000 {
        step == PollStep::Cached(h.running())
    } else {
        step matches PollStep::Poll(cmd) && cmd@ == replace_all(h.poll_template(), job_id_placeholder(), h.job())
    }
}

/// The cached liveness check of a queued job, whole: within the poll
/// interval after the last poll the answer last seen stands and no command
/// runs; after it the job's poll command runs, and recording its outcome
/// answers that the job runs exactly when the command succeeded and printed
/// something. Once the answer is that it does not, the job's result has
/// exit code 0, or -1 when the command could not be run; a later poll that
/// does not find it running keeps an exit code.
pub proof fn lemma_liveness_check(h: QueuedProcessHandle, elapsed_nanos: u128, step: PollStep, outcome: PollOutcome, after: QueuedProcessHandle, running: bool)
    requires
        poll_step_of(h, elapsed_nanos, step),
        step is Poll ==> recorded(h, outcome, after, running),
    ensures
        elapsed_nanos < h.interval_secs() * 1_000_000_000 ==> step == PollStep::Cached(h.running()),
        elapsed_nanos >= h.interval_secs() * 1_000_000_000 ==> {
            &&& step matches PollStep::Poll(cmd) && cmd@ == replace_all(h.poll_template(), job_id_placeholder(), h.job())
            &&& running == (outcome matches PollOutcome::Ran { success, stdout_empty } && success && !stdout_empty)
            &&& !running ==> after.exit_code() == (if outcome is Failed { Some(-1i32) } else { Some(0i32) })
            &&& after.job() == h.job()
        },
{
}

/// A job submitted to a batch scheduler, as the engine follows it.
pub struct QueuedProcessHandle {
    job_id: String,
    poll_cmd: String,
    cancel_cmd: String,
    stdout_path: std::path::PathBuf,
    stderr_path: std::path::PathBuf,
    poll_interval_secs: u64,
    cached_running: bool,
    finished_exit_code: Option<i32>,
}

impl QueuedProcessHandle {
    /// The scheduler's id of the job.
    pub closed spec fn job(&self) -> Seq<char> {
        self.job_id@
    }

    /// The poll command, before the job id is put in.
    pub closed spec fn poll_template(&self) -> Seq<char> {
        self.poll_cmd@
    }

    /// The cancel command, before the job id is put in.
    pub closed spec fn cancel_template(&self) -> Seq<char> {
        self.cancel_cmd@
    }

    /// Where the job writes its standard output.
    pub closed spec fn stdout_file(&self) -> std::path::PathBuf {
        self.stdout_path
    }

    /// Where the job writes its standard error.
    pub closed spec fn stderr_file(&self) -> std::path::PathBuf {
        self.stderr_path
    }

    /// Seconds between polls.
    pub closed spec fn interval_secs(&self) -> u64 {
        self.poll_interval_secs
    }

    /// Whether the job was running when last polled.
    pub closed spec fn running(&self) -> bool {
        self.cached_running
    }

    /// The exit code recorded once the job was seen gone.
    pub closed spec fn exit_code(&self) -> Option<i32> {
        self.finished_exit_code
    }

    /// The scheduler's id of the job.
    pub fn job_id(&self) -> (r: &str)
        ensures
            r@ == self.job(),
    {
        self.job_id.as_str()
    }

    /// Whether the job was running when last polled.
    pub fn cached_running(&self) -> (r: bool)
        ensures
            r == self.running(),
    {
        self.cached_running
    }

    /// Whether it is time to poll again, `elapsed_nanos` after the last
    /// poll: once a full interval has passed.
    pub fn poll_due(&self, elapsed_nanos: u128) -> (r: bool)
        ensures
            r == (elapsed_nanos >= self.interval_secs() * 1_000_000_000),
    {
        let interval: u128 = self.poll_interval_secs as u128 * 1_000_000_000u128;
        elapsed_nanos >= interval
    }

    /// What a liveness check does `elapsed_nanos` after the last poll:
    /// within the poll interval the cached answer, after it the poll command.
    pub fn poll_step(&self, elapsed_nanos: u128) -> (r: PollStep)
        ensures
            poll_step_of(*self, elapsed_nanos, r),
    {
        if self.poll_due(elapsed_nanos) {
            PollStep::Poll(self.poll_command())
        } else {
            PollStep::Cached(self.cached_running)
        }
    }

    /// The shell command that polls this job.
    pub fn poll_command(&self) -> (r: String)
        ensures
            r@ == replace_all(self.poll_template(), job_id_placeholder(), self.job()),
    {
        proof {
            reveal_strlit("{job_id}");
        }
        replace_text(self.poll_cmd.as_str(), "{job_id}", self.job_id.as_str())
    }

    /// The shell command that cancels this job.
    pub fn cancel_command(&self) -> (r: String)
        ensures
            r@ == replace_all(self.cancel_template(), job_id_placeholder(), self.job()),
    {
        proof {
            reveal_strlit("{job_id}");
        }
        replace_text(self.cancel_cmd.as_str(), "{job_id}", self.job_id.as_str())
    }

    /// Records a poll: the job is running while the poll command succeeds
    /// and prints something; once it is gone its exit code is taken as 0
    /// (-1 when the poll command could not be run). Returns whether the job
    /// is running.
    pub fn record_poll(&mut self, outcome: PollOutcome) -> (r: bool)
        ensures
            recorded(*old(self), outcome, *final(self), r),
            r == final(self).running(),
            final(self).running() == (outcome matches PollOutcome::Ran { success, stdout_empty } && success && !stdout_empty),
            final(self).exit_code() == (match outcome {
                PollOutcome::Ran { success, stdout_empty } => if success && !stdout_empty { old(self).exit_code() } else { Some(0i32) },
                PollOutcome::Failed => Some(-1i32),
            }),
            final(self).job() == old(self).job(),
            final(self).poll_template() == old(self).poll_template(),
            final(self).cancel_template() == old(self).cancel_template(),
            final(self).stdout_file() == old(self).stdout_file(),
            final(self).stderr_file() == old(self).stderr_file(),
            final(self).interval_secs() == old(self).interval_secs(),
    {
        match outcome {
            PollOutcome::Ran { success, stdout_empty } => {
                let running = success && !stdout_empty;
                self.cached_running = running;
                if !running {
                    self.finished_exit_code = Some(0);
                }
            },
            PollOutcome::Failed => {
                self.cached_running = false;
                self.finished_exit_code = Some(-1);
            },
        }
        self.cached_running
    }

    /// The result of the job: the recorded exit code and the files holding
    /// its output, with the time since submission.
    pub fn result(&self, duration: std::time::Duration) -> (r: ProcessResult)
        ensures
            r.exit_code == self.exit_code(),
            r.output == (OutputLocation::OnDisk { stdout_path: self.stdout_file(), stderr_path: self.stderr_file() }),
            r.duration == duration,
    {
        ProcessResult {
            exit_code: self.finished_exit_code,
            output: OutputLocation::OnDisk { stdout_path: self.stdout_path.clone(), stderr_path: self.stderr_path.clone() },
            duration,
        }
    }
}

/// Putting `rep` in place of every `{job_id}` of a text that has none
/// leaves the text as it is; a text that begins with something other than
/// the placeholder keeps its first character.
proof fn lemma_replace_step(s: Seq<char>, rep: Seq<char>)
    requires
        s.len() > 0,
        s.len() < 8 || s.take(8) != job_id_placeholder(),
    ensures
        replace_all(s, job_id_placeholder(), rep) == seq![s[0]] + replace_all(s.drop_first(), job_id_placeholder(), rep),
{
    reveal_strlit("{job_id}");
    if s.len() < 8 {
        assert(replace_all(s.drop_first(), job_id_placeholder(), rep) == s.drop_first());
        assert(seq![s[0]] + s.drop_first() =~= s);
    }
}

/// The poll and cancel commands of a job are the scheduler's commands with
/// the job id in place of the placeholder.
pub proof fn lemma_commands_name_job(job: Seq<char>)
    ensures
        replace_all(poll_template(SchedulerKind::Slurm), job_id_placeholder(), job) == "squeue -j "@ + job + " -h"@,
        replace_all(poll_template(SchedulerKind::Pbs), job_id_placeholder(), job) == "qstat "@ + job,
        replace_all(cancel_template(SchedulerKind::Slurm), job_id_placeholder(), job) == "scancel "@ + job,
        replace_all(cancel_template(SchedulerKind::Pbs), job_id_placeholder(), job) == "qdel "@ + job,
{
    reveal_strlit("{job_id}");
    reveal_strlit("squeue -j {job_id} -h");
    reveal_strlit("squeue -j ");
    reveal_strlit(" -h");
    reveal_strlit("qstat {job_id}");
    reveal_strlit("qstat ");
    reveal_strlit("scancel {job_id}");
    reveal_strlit("scancel ");
    reveal_strlit("qdel {job_id}");
    reveal_strlit("qdel ");
    lemma_prefix_then_placeholder("squeue -j "@, " -h"@, job);
    lemma_prefix_then_placeholder("qstat "@, Seq::empty(), job);
    lemma_prefix_then_placeholder("scancel "@, Seq::empty(), job);
    lemma_prefix_then_placeholder("qdel "@, Seq::empty(), job);
    assert("squeue -j {job_id} -h"@ =~= "squeue -j "@ + job_id_placeholder() + " -h"@);
    assert("qstat {job_id}"@ =~= "qstat "@ + job_id_placeholder() + Seq::<char>::empty());
    assert("scancel {job_id}"@ =~= "scancel "@ + job_id_placeholder() + Seq::<char>::empty());
    assert("qdel {job_id}"@ =~= "qdel "@ + job_id_placeholder() + Seq::<char>::empty());
    assert("qstat "@ + job + Seq::<char>::empty() =~= "qstat "@ + job);
    assert("scancel "@ + job + Seq::<char>::empty() =~= "scancel "@ + job);
    assert("qdel "@ + job + Seq::<char>::empty() =~= "qdel "@ + job);
}

/// A text without `{` before the placeholder, and a tail shorter than the
/// placeholder, gets the job id put in once.
proof fn lemma_prefix_then_placeholder(a: Seq<char>, b: Seq<char>, job: Seq<char>)
    requires
        forall|i: int| 0 <= i < a.len() ==> a[i] != '{',
        b.len() < 8,
    ensures
        replace_all(a + job_id_placeholder() + b, job_id_placeholder(), job) == a + job + b,
    decreases a.len(),
{
    reveal_strlit("{job_id}");
    let p = job_id_placeholder();
    let s = a + p + b;
    if a.len() == 0 {
        assert(s =~= p + b);
        assert(s.take(8) =~= p);
        assert(s.skip(8) =~= b);
        assert(replace_all(b, p, job) == b);
        assert(a + job + b =~= job + b);
    } else {
        assert(s[0] == a[0]);
        assert(p[0] == '{');
        if s.take(8) == p {
            assert(s.take(8)[0] == s[0]);
        }
        lemma_replace_step(s, job);
        let a2 = a.drop_first();
        assert(s.drop_first() =~= a2 + p + b);
        lemma_prefix_then_placeholder(a2, b, job);
        assert(seq![a[0]] + (a2 + job + b) =~= a + job + b);
    }
}

/// What the schedulers print on submission is read back as the job id:
/// `sbatch`'s "Submitted batch job <id>" and `qsub`'s "<id>", each with
/// trailing white space such as the final newline.
pub proof fn lemma_job_id_read_back(id: Seq<char>, tail: Seq<char>)
    requires
        id.len() > 0,
        forall|i: int| 0 <= i < id.len() ==> !crate::text::is_ws(#[trigger] id[i]),
        forall|i: int| 0 <= i < tail.len() ==> crate::text::is_ws(#[trigger] tail[i]),
    ensures
        job_id_in(SchedulerKind::Slurm, "Submitted batch job "@ + id + tail) == Some(id),
        job_id_in(SchedulerKind::Pbs, id + tail) == Some(id),
{
    reveal_strlit("Submitted batch job ");
    let p = "Submitted batch job "@;
    assert(p.last() == ' ');
    crate::text::lemma_last_word(p, id, tail);
    assert(id[id.len() - 1] == id.last());
    crate::text::lemma_trimmed_drops_tail(id, tail);
}

} // verus!
