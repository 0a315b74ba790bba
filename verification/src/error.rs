//! The error type shared by the whole library.
use vstd::prelude::*;
use vstd::string::*;

verus! {

#[verifier::external_type_specification]
#[verifier::external_body]
pub struct ExIoError(std::io::Error);

#[verifier::external_type_specification]
#[verifier::external_body]
pub struct ExPathBuf(std::path::PathBuf);

#[verifier::external_type_specification]
#[verifier::external_body]
pub struct ExPath(std::path::Path);

/// `PathBuf::clone` gives a copy of the path.
pub assume_specification[ <std::path::PathBuf as Clone>::clone ](p: &std::path::PathBuf) -> (r: std::path::PathBuf)
    ensures
        r == *p,
;

/// Errors raised while building, running or persisting a workflow.
#[derive(Debug)]
#[non_exhaustive]
pub enum WorkflowError {
    DuplicateTaskId(String),
    CycleDetected,
    UnknownDependency { task: String, dependency: String },
    StateCorrupted(String),
    TaskTimeout(String),
    InvalidConfig(String),
    IoWithPath { path: std::path::PathBuf, source: std::io::Error },
    Io(std::io::Error),
    Interrupted,
    QueueSubmitFailed(String),
}

/// `Duration::clone` gives the same duration.
pub assume_specification[ <std::time::Duration as Clone>::clone ](d: &std::time::Duration) -> (r: std::time::Duration)
    ensures
        r == *d,
;

#[verifier::external_type_specification]
#[verifier::external_body]
pub struct ExJsonError(serde_json::Error);

/// Text of a path as `Path::display` writes it; a function of the path alone.
pub uninterp spec fn path_display_text(p: std::path::PathBuf) -> Seq<char>;

/// Calls `Path::display` and renders it to a string.
#[verifier::external_body]
fn path_display(p: &std::path::PathBuf) -> (r: String)
    ensures
        r@ == path_display_text(*p),
{
    p.display().to_string()
}

/// Calls `Display::to_string` on an I/O error; the text is left unstated.
#[verifier::external_body]
fn io_error_text(e: &std::io::Error) -> String {
    e.to_string()
}

/// Calls `Display::to_string` on a JSON error; the text is left unstated.
#[verifier::external_body]
fn json_error_text(e: &serde_json::Error) -> String {
    e.to_string()
}

/// The message of an error, except for the part an I/O error contributes.
pub open spec fn error_text(e: WorkflowError) -> Seq<char> {
    match e {
        WorkflowError::DuplicateTaskId(s) => "duplicate task id: "@ + s@,
        WorkflowError::CycleDetected => "dependency cycle detected"@,
        WorkflowError::UnknownDependency { task, dependency } => "unknown dependency '"@ + dependency@ + "' in task '"@ + task@ + "'"@,
        WorkflowError::StateCorrupted(s) => "state file corrupted: "@ + s@,
        WorkflowError::TaskTimeout(s) => "task '"@ + s@ + "' timed out"@,
        WorkflowError::InvalidConfig(s) => "invalid configuration: "@ + s@,
        WorkflowError::IoWithPath { path, .. } => "I/O error on '"@ + path_display_text(path) + "': "@,
        WorkflowError::Io(_) => Seq::empty(),
        WorkflowError::Interrupted => "workflow interrupted by signal"@,
        WorkflowError::QueueSubmitFailed(s) => "failed to submit job to queue: "@ + s@,
    }
}

impl WorkflowError {
    /// The human-readable message of the error. For the I/O variants the
    /// text of the underlying I/O error follows what `error_text` gives.
    pub fn message(&self) -> (r: String)
        ensures
            !(self is Io) && !(self is IoWithPath) ==> r@ == error_text(*self),
            self is IoWithPath ==> r@.len() >= error_text(*self).len() && r@.subrange(0, error_text(*self).len() as int) == error_text(*self),
    {
        proof {
            reveal_strlit("duplicate task id: ");
            reveal_strlit("dependency cycle detected");
            reveal_strlit("unknown dependency '");
            reveal_strlit("' in task '");
            reveal_strlit("'");
            reveal_strlit("state file corrupted: ");
            reveal_strlit("task '");
            reveal_strlit("' timed out");
            reveal_strlit("invalid configuration: ");
            reveal_strlit("I/O error on '");
            reveal_strlit("': ");
            reveal_strlit("workflow interrupted by signal");
            reveal_strlit("failed to submit job to queue: ");
        }
        match self {
            WorkflowError::DuplicateTaskId(s) => "duplicate task id: ".to_owned().concat(s.as_str()),
            WorkflowError::CycleDetected => "dependency cycle detected".to_owned(),
            WorkflowError::UnknownDependency { task, dependency } => {
                "unknown dependency '".to_owned().concat(dependency.as_str()).concat("' in task '").concat(task.as_str()).concat("'")
            },
            WorkflowError::StateCorrupted(s) => "state file corrupted: ".to_owned().concat(s.as_str()),
            WorkflowError::TaskTimeout(s) => "task '".to_owned().concat(s.as_str()).concat("' timed out"),
            WorkflowError::InvalidConfig(s) => "invalid configuration: ".to_owned().concat(s.as_str()),
            WorkflowError::IoWithPath { path, source } => {
                let head = "I/O error on '".to_owned().concat(path_display(path).as_str()).concat("': ");
                let r = head.concat(io_error_text(source).as_str());
                proof {
                    assert(r@.subrange(0, head@.len() as int) =~= head@);
                }
                r
            },
            WorkflowError::Io(e) => io_error_text(e),
            WorkflowError::Interrupted => "workflow interrupted by signal".to_owned(),
            WorkflowError::QueueSubmitFailed(s) => "failed to submit job to queue: ".to_owned().concat(s.as_str()),
        }
    }
}

impl From<std::io::Error> for WorkflowError {
    fn from(err: std::io::Error) -> (r: WorkflowError) {
        WorkflowError::Io(err)
    }
}

impl vstd::std_specs::convert::FromSpecImpl<std::io::Error> for WorkflowError {
    open spec fn obeys_from_spec() -> bool {
        true
    }

    open spec fn from_spec(v: std::io::Error) -> WorkflowError {
        WorkflowError::Io(v)
    }
}

impl From<serde_json::Error> for WorkflowError {
    /// A JSON error means the state file is corrupted; its message is kept.
    fn from(err: serde_json::Error) -> (r: WorkflowError)
        ensures
            r is StateCorrupted,
    {
        WorkflowError::StateCorrupted(json_error_text(&err))
    }
}

impl vstd::std_specs::convert::FromSpecImpl<serde_json::Error> for WorkflowError {
    open spec fn obeys_from_spec() -> bool {
        false
    }

    open spec fn from_spec(v: serde_json::Error) -> WorkflowError {
        arbitrary()
    }
}

} // verus!
