//! Monitoring hooks: commands attached to a task that run when it starts,
//! finishes, fails, or periodically.
use crate::error::WorkflowError;
use crate::text::{decimal, i64_to_string, split_whitespace, views, words};
use vstd::prelude::*;

verus! {

/// Runs monitoring hooks; implementations decide how (a shell command,
/// an in-process action, a recording for tests).
pub trait HookExecutor: Send + Sync {
    /// Executes a monitoring hook with the given context.
    fn execute_hook(&self, hook: &MonitoringHook, ctx: &HookContext) -> Result<HookResult, WorkflowError>;
}

/// The event that triggers a monitoring hook.
#[derive(Debug, Clone, Copy, PartialEq, Eq, Structural)]
pub enum HookTrigger {
    /// Triggered when a task starts.
    OnStart,
    /// Triggered when a task completes successfully.
    OnComplete,
    /// Triggered when a task fails.
    OnFailure,
    /// Triggered periodically at specified intervals.
    Periodic { interval_secs: u64 },
}

/// A monitoring hook that can be triggered by a task event.
#[derive(Debug, Clone)]
pub struct MonitoringHook {
    /// Human-readable name of the hook.
    pub name: String,
    /// Command to execute when the hook is triggered.
    pub command: String,
    /// The trigger event that activates this hook.
    pub trigger: HookTrigger,
}

/// Context available to monitoring hooks during execution.
#[derive(Debug, Clone)]
pub struct HookContext {
    /// ID of the task this hook is associated with.
    pub task_id: String,
    /// Working directory for the task.
    pub workdir: std::path::PathBuf,
    /// Current state of the task (running, completed, failed, etc.).
    pub state: String,
    /// Exit code of the task (if available).
    pub exit_code: Option<i32>,
}

/// Result of executing a monitoring hook.
#[derive(Debug, Clone)]
pub struct HookResult {
    /// Whether the hook execution was successful.
    pub success: bool,
    /// Output from the hook command.
    pub output: String,
}

/// What running a hook means: the program, its arguments, the environment
/// added for it and the directory it runs in.
pub struct HookInvocation {
    pub program: String,
    pub args: Vec<String>,
    pub env: Vec<(String, String)>,
    pub workdir: std::path::PathBuf,
}

/// The text of a path, with any invalid UTF-8 replaced; a function of the path alone.
pub uninterp spec fn path_text(p: std::path::PathBuf) -> Seq<char>;

/// Calls `Path::to_string_lossy` and takes the text.
#[verifier::external_body]
fn path_to_text(p: &std::path::PathBuf) -> (r: String)
    ensures
        r@ == path_text(*p),
{
    p.to_string_lossy().into_owned()
}

/// A hook fires when its task finishes if it watches completion and the
/// task completed, or watches failure and the task failed.
pub open spec fn fires_on_finish(trigger: HookTrigger, completed: bool) -> bool {
    (trigger is OnComplete && completed) || (trigger is OnFailure && !completed)
}

/// The environment that a hook sees, in order: task id, task state, work
/// directory and exit code (empty when there is none).
pub open spec fn hook_env(ctx: HookContext) -> Seq<(Seq<char>, Seq<char>)> {
    seq![
        ("TASK_ID"@, ctx.task_id@),
        ("TASK_STATE"@, ctx.state@),
        ("WORKDIR"@, path_text(ctx.workdir)),
        ("EXIT_CODE"@, match ctx.exit_code { Some(c) => decimal(c as int), None => Seq::<char>::empty() }),
    ]
}

impl MonitoringHook {
    /// Creates a new monitoring hook with the specified configuration.
    pub fn new(name: &str, command: &str, trigger: HookTrigger) -> (r: MonitoringHook)
        ensures
            r.name@ == name@,
            r.command@ == command@,
            r.trigger == trigger,
    {
        MonitoringHook { name: name.to_owned(), command: command.to_owned(), trigger }
    }

    /// Whether the hook runs when its task starts.
    pub fn fires_on_start(&self) -> (r: bool)
        ensures
            r == (self.trigger is OnStart),
    {
        match self.trigger {
            HookTrigger::OnStart => true,
            _ => false,
        }
    }

    /// Whether the hook runs when its task finishes, given whether it completed.
    pub fn fires_on_finish(&self, completed: bool) -> (r: bool)
        ensures
            r == fires_on_finish(self.trigger, completed),
    {
        match self.trigger {
            HookTrigger::OnComplete => completed,
            HookTrigger::OnFailure => !completed,
            _ => false,
        }
    }

    /// How to run this hook for `ctx`: the command split at white space, the
    /// first word as program (empty if there is none) and the rest as
    /// arguments, in the task's work directory, with the task's details in
    /// the environment.
    pub fn invocation(&self, ctx: &HookContext) -> (r: HookInvocation)
        ensures
            words(self.command@).len() > 0 ==> r.program@ == words(self.command@)[0] && views(r.args@) == words(self.command@).drop_first(),
            words(self.command@).len() == 0 ==> r.program@ == Seq::<char>::empty() && r.args@.len() == 0,
            r.env@.map_values(|e: (String, String)| (e.0@, e.1@)) == hook_env(*ctx),
            r.workdir == ctx.workdir,
    {
        let mut parts = split_whitespace(self.command.as_str());
        let program = if parts.len() > 0 {
            let p = parts.remove(0);
            p
        } else {
            String::new()
        };
        proof {
            if words(self.command@).len() > 0 {
                assert(views(parts@) =~= words(self.command@).drop_first());
            }
        }
        let exit = match ctx.exit_code {
            Some(c) => i64_to_string(c as i64),
            None => String::new(),
        };
        let mut env: Vec<(String, String)> = Vec::new();
        env.push(("TASK_ID".to_owned(), ctx.task_id.clone()));
        env.push(("TASK_STATE".to_owned(), ctx.state.clone()));
        env.push(("WORKDIR".to_owned(), path_to_text(&ctx.workdir)));
        env.push(("EXIT_CODE".to_owned(), exit));
        proof {
            reveal_strlit("TASK_ID");
            reveal_strlit("TASK_STATE");
            reveal_strlit("WORKDIR");
            reveal_strlit("EXIT_CODE");
            assert(env@.map_values(|e: (String, String)| (e.0@, e.1@)) =~= hook_env(*ctx));
        }
        HookInvocation { program, args: parts, env, workdir: ctx.workdir.clone() }
    }
}

} // verus!
