//! Jobs submitted to a backend (a local process or a SLURM job): their
//! handles and statuses, and how the backends' answers are read.
use crate::text::{debug_string, debug_text, decimal, has_prefix, i64_to_string, lines, parse_i32, parsed_i32, split_lines, starts_with, str_eq, trim, trimmed};
use vstd::prelude::*;
use vstd::string::*;

verus! {

/// An opaque handle to a submitted job: a SLURM job id, a local process id.
#[derive(Debug, Clone)]
pub struct JobHandle {
    /// Raw string representation (e.g. `"12345"` for a SLURM job ID).
    pub raw: String,
}

/// The observed status of a submitted job.
#[derive(Debug, Clone, Copy, PartialEq, Eq, Structural)]
pub enum JobStatus {
    /// Job is still executing.
    Running,
    /// Job finished successfully (exit code 0).
    Completed,
    /// Job finished with a non-zero exit code.
    Failed(i32),
}

/// The status of a job that exited with `code`.
pub open spec fn exit_status(code: int) -> JobStatus {
    if code == 0 { JobStatus::Completed } else { JobStatus::Failed(code as i32) }
}

/// The status of a job that exited with `code`.
pub fn status_of_exit(code: i32) -> (r: JobStatus)
    ensures
        r == exit_status(code as int),
{
    if code == 0 { JobStatus::Completed } else { JobStatus::Failed(code) }
}

/// Runs a program locally, in a work directory, with its output discarded.
pub struct LocalExecutor {
    program: String,
    args: Vec<String>,
    workdir: std::path::PathBuf,
}

impl LocalExecutor {
    /// The program that is run.
    pub closed spec fn program_text(&self) -> Seq<char> {
        self.program@
    }

    /// Its arguments.
    pub closed spec fn arg_list(&self) -> Seq<String> {
        self.args@
    }

    /// The directory it runs in.
    pub closed spec fn dir(&self) -> std::path::PathBuf {
        self.workdir
    }

    /// An executor that runs `program` with `args` in `workdir`.
    pub fn new(program: &str, args: Vec<String>, workdir: std::path::PathBuf) -> (r: LocalExecutor)
        ensures
            r.program_text() == program@,
            r.arg_list() == args@,
            r.dir() == workdir,
    {
        LocalExecutor { program: program.to_owned(), args, workdir }
    }

    /// The program that is run.
    pub fn program(&self) -> (r: &str)
        ensures
            r@ == self.program_text(),
    {
        self.program.as_str()
    }

    /// Its arguments.
    pub fn args(&self) -> (r: &Vec<String>)
        ensures
            r@ == self.arg_list(),
    {
        &self.args
    }

    /// The directory it runs in.
    pub fn workdir(&self) -> (r: &std::path::PathBuf)
        ensures
            *r == self.dir(),
    {
        &self.workdir
    }
}

/// The process id held by a local job's handle, or why there is none.
pub fn parse_pid(handle: &JobHandle) -> (r: Result<i32, String>)
    ensures
        match parsed_i32(handle.raw@) {
            Some(v) => r == Ok::<i32, String>(v as i32),
            None => r matches Err(msg) && msg@ == "invalid PID in handle: "@ + debug_text(handle.raw@),
        },
{
    match parse_i32(handle.raw.as_str()) {
        Some(v) => Ok(v),
        None => {
            proof {
                reveal_strlit("invalid PID in handle: ");
            }
            Err("invalid PID in handle: ".to_owned().concat(debug_string(handle.raw.as_str()).as_str()))
        },
    }
}

/// The name of the file, in the job's work directory, where the exit code
/// of process `pid` is kept once it is reaped.
pub fn sentinel_name(pid: i32) -> (r: String)
    ensures
        r@ == ".exit."@ + decimal(pid as int),
{
    proof {
        reveal_strlit(".exit.");
    }
    ".exit.".to_owned().concat(i64_to_string(pid as i64).as_str())
}

/// The status that a sentinel file's text records: the exit code, trimmed;
/// `None` when the text holds no exit code.
pub open spec fn sentinel_reading(text: Seq<char>) -> Option<JobStatus> {
    match parsed_i32(trimmed(text)) {
        Some(code) => Some(exit_status(code)),
        None => None,
    }
}

/// Reads the status recorded in a sentinel file.
pub fn sentinel_status(text: &str) -> (r: Option<JobStatus>)
    ensures
        r == sentinel_reading(text@),
{
    let t = trim(text);
    match parse_i32(t.as_str()) {
        Some(code) => Some(status_of_exit(code)),
        None => None,
    }
}

/// Whether a local process still exists, as a signal-0 check tells.
pub enum Liveness {
    /// The check succeeded: the process exists.
    Alive,
    /// No such process.
    Gone,
    /// The check failed otherwise, with the error's text.
    CheckFailed(String),
}

/// What polling a local job gives, from what its sentinel records (if one
/// was read) and, without one, from a liveness check.
pub open spec fn local_poll_outcome(sentinel: Option<JobStatus>, liveness: Liveness) -> Result<JobStatus, Seq<char>> {
    match sentinel {
        Some(st) => Ok(st),
        None => match liveness {
            Liveness::Alive => Ok(JobStatus::Running),
            Liveness::Gone => Ok(JobStatus::Running),
            Liveness::CheckFailed(e) => Err("kill(0) failed: "@ + e@),
        },
    }
}

/// The status of a local job from its sentinel, when one was read, and
/// else from a liveness check. A process that is gone but left no sentinel
/// yet counts as running: the next poll finds the sentinel.
pub fn local_poll_status(sentinel: Option<JobStatus>, liveness: Liveness) -> (r: Result<JobStatus, String>)
    ensures
        match r {
            Ok(st) => local_poll_outcome(sentinel, liveness) == Ok::<JobStatus, Seq<char>>(st),
            Err(msg) => local_poll_outcome(sentinel, liveness) == Err::<JobStatus, Seq<char>>(msg@),
        },
        sentinel matches Some(st) ==> r == Ok::<JobStatus, String>(st),
        sentinel is None ==> match liveness {
            Liveness::Alive => r == Ok::<JobStatus, String>(JobStatus::Running),
            Liveness::Gone => r == Ok::<JobStatus, String>(JobStatus::Running),
            Liveness::CheckFailed(e) => r matches Err(msg) && msg@ == "kill(0) failed: "@ + e@,
        },
{
    match sentinel {
        Some(st) => Ok(st),
        None => match liveness {
            Liveness::Alive => Ok(JobStatus::Running),
            Liveness::Gone => Ok(JobStatus::Running),
            Liveness::CheckFailed(e) => {
                proof {
                    reveal_strlit("kill(0) failed: ");
                }
                Err("kill(0) failed: ".to_owned().concat(e.as_str()))
            },
        },
    }
}

/// The first of `ls` that begins with `p`, without `p`.
pub open spec fn first_after_prefix(ls: Seq<Seq<char>>, p: Seq<char>) -> Option<Seq<char>>
    decreases ls.len(),
{
    if ls.len() == 0 {
        None
    } else if has_prefix(ls[0], p) {
        Some(ls[0].skip(p.len() as int))
    } else {
        first_after_prefix(ls.drop_first(), p)
    }
}

/// What `sbatch` prints before the job id.
pub open spec fn sbatch_prefix() -> Seq<char> {
    "Submitted batch job "@
}

/// The job id in `sbatch` output: the rest of the first line that begins
/// with "Submitted batch job ", trimmed.
pub open spec fn sbatch_job_id(output: Seq<char>) -> Option<Seq<char>> {
    match first_after_prefix(lines(output), sbatch_prefix()) {
        Some(rest) => Some(trimmed(rest)),
        None => None,
    }
}

/// Reads the job handle from `sbatch` output.
pub fn parse_sbatch_output(output: &str) -> (r: Result<JobHandle, String>)
    ensures
        match sbatch_job_id(output@) {
            Some(id) => r matches Ok(h) && h.raw@ == id,
            None => r matches Err(msg) && msg@ == "failed to parse job ID from sbatch output"@,
        },
{
    proof {
        reveal_strlit("Submitted batch job ");
        reveal_strlit("failed to parse job ID from sbatch output");
    }
    let ls = split_lines(output);
    let prefix = "Submitted batch job ";
    let plen = prefix.unicode_len();
    let mut i: usize = 0;
    proof {
        assert(crate::text::views(ls@).skip(0) =~= lines(output@));
    }
    while i < ls.len()
        invariant
            i <= ls.len(),
            prefix@ == sbatch_prefix(),
            plen == prefix@.len(),
            crate::text::views(ls@) == lines(output@),
            first_after_prefix(crate::text::views(ls@).skip(i as int), sbatch_prefix()) == first_after_prefix(lines(output@), sbatch_prefix()),
        decreases ls.len() - i,
    {
        let ghost rest = crate::text::views(ls@).skip(i as int);
        proof {
            assert(rest[0] == ls@[i as int]@);
            assert(rest.drop_first() =~= crate::text::views(ls@).skip(i as int + 1));
        }
        if starts_with(ls[i].as_str(), prefix) {
            let n = ls[i].unicode_len();
            let tail = ls[i].as_str().substring_char(plen, n);
            proof {
                assert(tail@ =~= ls@[i as int]@.skip(plen as int));
            }
            return Ok(JobHandle { raw: trim(tail) });
        }
        i = i + 1;
    }
    proof {
        assert(crate::text::views(ls@).skip(ls@.len() as int) =~= Seq::<Seq<char>>::empty());
    }
    Err("failed to parse job ID from sbatch output".to_owned())
}

/// The status that a `squeue --format=%T` answer gives: no answer means
/// the job has left the queue, which counts as completed; states that are
/// not known count as running.
pub open spec fn squeue_status(output: Seq<char>) -> JobStatus {
    let s = trimmed(output);
    if s.len() == 0 {
        JobStatus::Completed
    } else if s == "RUNNING"@ || s == "PENDING"@ {
        JobStatus::Running
    } else if s == "COMPLETED"@ {
        JobStatus::Completed
    } else if s == "FAILED"@ || s == "CANCELLED"@ || s == "TIMEOUT"@ || s == "NODE_FAIL"@ {
        JobStatus::Failed(-1i32)
    } else {
        JobStatus::Running
    }
}

/// Reads a job's status from the `squeue` answer.
pub fn parse_squeue_output(output: &str) -> (r: JobStatus)
    ensures
        r == squeue_status(output@),
{
    proof {
        reveal_strlit("RUNNING");
        reveal_strlit("PENDING");
        reveal_strlit("COMPLETED");
        reveal_strlit("FAILED");
        reveal_strlit("CANCELLED");
        reveal_strlit("TIMEOUT");
        reveal_strlit("NODE_FAIL");
    }
    let t = trim(output);
    let s = t.as_str();
    if s.unicode_len() == 0 {
        JobStatus::Completed
    } else if str_eq(s, "RUNNING") || str_eq(s, "PENDING") {
        JobStatus::Running
    } else if str_eq(s, "COMPLETED") {
        JobStatus::Completed
    } else if str_eq(s, "FAILED") || str_eq(s, "CANCELLED") || str_eq(s, "TIMEOUT") || str_eq(s, "NODE_FAIL") {
        JobStatus::Failed(-1)
    } else {
        JobStatus::Running
    }
}

/// What a reaped process's sentinel records is read back as written: the
/// file holds the exit code's decimal text, and reading it gives the
/// status of that exit code.
pub proof fn lemma_sentinel_round_trip(code: i32)
    ensures
        sentinel_reading(decimal(code as int)) == Some(exit_status(code as int)),
{
    crate::text::lemma_decimal_round_trip(code);
}

/// Once a local job's sentinel file holds the decimal text of its exit code
/// `code`, polling it gives Completed when the code is 0 and Failed with the
/// code otherwise, whatever the liveness check finds.
pub proof fn lemma_local_poll_after_exit(code: i32, liveness: Liveness)
    ensures
        local_poll_outcome(sentinel_reading(decimal(code as int)), liveness)
            == Ok::<JobStatus, Seq<char>>(if code == 0 { JobStatus::Completed } else { JobStatus::Failed(code) }),
{
    lemma_sentinel_round_trip(code);
}

/// The job id that `sbatch` reports is read back from its output line.
pub proof fn lemma_sbatch_read_back(id: Seq<char>)
    requires
        id.len() > 0,
        forall|i: int| 0 <= i < id.len() ==> !crate::text::is_ws(#[trigger] id[i]),
    ensures
        sbatch_job_id(("Submitted batch job "@ + id).push('\n')) == Some(id),
{
    reveal_strlit("Submitted batch job ");
    let p = "Submitted batch job "@;
    let line = p + id;
    assert forall|i: int| 0 <= i < line.len() implies #[trigger] line[i] != '\n' by {
        if i >= p.len() {
            assert(line[i] == id[i - p.len()]);
            assert(!crate::text::is_ws(id[i - p.len()]));
        }
    }
    assert(line.last() == id[id.len() - 1]);
    crate::text::lemma_single_line(line);
    assert(line.take(p.len() as int) =~= p);
    assert(line.skip(p.len() as int) =~= id);
    assert(lines(line.push('\n')).drop_first() =~= Seq::<Seq<char>>::empty());
    crate::text::lemma_trimmed_drops_tail(id, Seq::empty());
    assert(id + Seq::<char>::empty() =~= id);
}

} // verus!
