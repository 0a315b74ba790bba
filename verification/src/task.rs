//! Task definitions: what to run, where, after which tasks, and with which hooks.
use crate::monitoring::MonitoringHook;
use crate::text::views;
use vstd::prelude::*;

verus! {

/// How a task is executed.
#[derive(Debug, Clone)]
pub enum ExecutionMode {
    /// Run a command directly, with arguments, extra environment and an optional time limit.
    Direct {
        command: String,
        args: Vec<String>,
        env: std::collections::HashMap<String, String>,
        timeout: Option<std::time::Duration>,
    },
    /// Queued execution via an HPC scheduler (SLURM/PBS).
    Queued,
}

impl ExecutionMode {
    /// `Direct` mode with no extra environment and no time limit.
    pub fn direct(command: &str, args: &[&str]) -> (r: ExecutionMode)
        ensures
            r matches ExecutionMode::Direct { command: c, args: a, env, timeout } && c@ == command@ && views(a@) == args@.map_values(|s: &str| s@) && env@ == Map::<String, String>::empty() && timeout is None,
    {
        let mut v: Vec<String> = Vec::new();
        let mut i: usize = 0;
        while i < args.len()
            invariant
                i <= args.len(),
                views(v@) == args@.take(i as int).map_values(|s: &str| s@),
            decreases args.len() - i,
        {
            let ghost before = v@;
            v.push(args[i].to_owned());
            proof {
                assert(args@.take(i as int + 1) =~= args@.take(i as int).push(args@[i as int]));
                assert(views(v@) =~= views(before).push(args@[i as int]@));
                assert(views(v@) =~= args@.take(i as int + 1).map_values(|s: &str| s@));
            }
            i = i + 1;
        }
        proof {
            assert(args@.take(args@.len() as int) =~= args@);
        }
        ExecutionMode::Direct { command: command.to_owned(), args: v, env: std::collections::HashMap::new(), timeout: None }
    }
}

/// The path that `PathBuf::from` makes of a text; a function of the text alone.
pub uninterp spec fn path_from_text(s: Seq<char>) -> std::path::PathBuf;

/// Calls `PathBuf::from` on a string slice.
#[verifier::external_body]
pub(crate) fn path_from(s: &str) -> (r: std::path::PathBuf)
    ensures
        r == path_from_text(s@),
{
    std::path::PathBuf::from(s)
}

/// Work done in a task's directory before its command starts (setup) or
/// after it completes (collection); an error is given as its message.
pub trait TaskClosure: Send + Sync {
    /// Runs the action in `workdir`.
    fn call(&self, workdir: &std::path::Path) -> Result<(), String>;
}

/// One unit of work in a workflow.
pub struct Task {
    pub id: String,
    pub dependencies: Vec<String>,
    pub workdir: std::path::PathBuf,
    pub mode: ExecutionMode,
    pub setup: Option<Box<dyn TaskClosure>>,
    pub collect: Option<Box<dyn TaskClosure>>,
    pub monitors: Vec<MonitoringHook>,
}

impl Task {
    /// A task with no dependencies, actions or hooks, run in the current directory.
    pub fn new(id: &str, mode: ExecutionMode) -> (t: Task)
        ensures
            t.id@ == id@,
            t.dependencies@.len() == 0,
            t.workdir == path_from_text("."@),
            t.mode == mode,
            t.setup is None,
            t.collect is None,
            t.monitors@.len() == 0,
    {
        Task { id: id.to_owned(), dependencies: Vec::new(), workdir: path_from("."), mode, setup: None, collect: None, monitors: Vec::new() }
    }

    /// Sets the action run before the task's command.
    pub fn setup(self, f: Box<dyn TaskClosure>) -> (t: Task)
        ensures
            t.setup == Some(f),
            t.id == self.id,
            t.dependencies == self.dependencies,
            t.workdir == self.workdir,
            t.mode == self.mode,
            t.collect == self.collect,
            t.monitors == self.monitors,
    {
        let setup = Some(f);
        Task {
            id: self.id,
            dependencies: self.dependencies,
            workdir: self.workdir,
            mode: self.mode,
            setup,
            collect: self.collect,
            monitors: self.monitors,
        }
    }

    /// Sets the action run after the task's command completes.
    pub fn collect(self, f: Box<dyn TaskClosure>) -> (t: Task)
        ensures
            t.collect == Some(f),
            t.id == self.id,
            t.dependencies == self.dependencies,
            t.workdir == self.workdir,
            t.mode == self.mode,
            t.setup == self.setup,
            t.monitors == self.monitors,
    {
        let collect = Some(f);
        Task {
            id: self.id,
            dependencies: self.dependencies,
            workdir: self.workdir,
            mode: self.mode,
            setup: self.setup,
            collect,
            monitors: self.monitors,
        }
    }

    /// Adds a dependency on the task `id`.
    pub fn depends_on(self, id: &str) -> (t: Task)
        ensures
            views(t.dependencies@) == views(self.dependencies@).push(id@),
            t.id == self.id,
            t.workdir == self.workdir,
            t.mode == self.mode,
            t.setup == self.setup,
            t.collect == self.collect,
            t.monitors == self.monitors,
    {
        let mut t = self;
        let ghost before = t.dependencies@;
        t.dependencies.push(id.to_owned());
        proof {
            assert(views(t.dependencies@) =~= views(before).push(id@));
        }
        t
    }

    /// Sets the working directory.
    pub fn workdir(self, path: std::path::PathBuf) -> (t: Task)
        ensures
            t.workdir == path,
            t.id == self.id,
            t.dependencies == self.dependencies,
            t.mode == self.mode,
            t.setup == self.setup,
            t.collect == self.collect,
            t.monitors == self.monitors,
    {
        let mut t = self;
        t.workdir = path;
        t
    }

    /// Replaces the monitoring hooks.
    pub fn monitors(self, hooks: Vec<MonitoringHook>) -> (t: Task)
        ensures
            t.monitors == hooks,
            t.id == self.id,
            t.dependencies == self.dependencies,
            t.workdir == self.workdir,
            t.mode == self.mode,
            t.setup == self.setup,
            t.collect == self.collect,
    {
        let mut t = self;
        t.monitors = hooks;
        t
    }

    /// Adds one monitoring hook.
    pub fn add_monitor(self, hook: MonitoringHook) -> (t: Task)
        ensures
            t.monitors@ == self.monitors@.push(hook),
            t.id == self.id,
            t.dependencies == self.dependencies,
            t.workdir == self.workdir,
            t.mode == self.mode,
            t.setup == self.setup,
            t.collect == self.collect,
    {
        let mut t = self;
        t.monitors.push(hook);
        t
    }
}

} // verus!
