//! The decisions of a workflow run, as a state machine: the caller reports
//! what happened (a new round, how a process is doing, what setup or a
//! spawn gave) and carries out the actions it gets back.
use crate::dag::Dag;
use crate::error::WorkflowError;
use crate::monitoring::{HookContext, MonitoringHook};
use crate::state::{lookup, StateStore, StateStoreExt, TaskStatus};
use crate::task::{ExecutionMode, Task, TaskClosure};
use crate::text::{str_eq, views};
use crate::workflow::{
    all_done, dep_edge, dispatch_candidates, finish_context, graph_of, is_finish_status, is_terminal, record_finish,
    record_timeout, return_to_pending, settled_ids, settles, start_context, summarizes, timeout_text,
    Workflow, WorkflowSummary,
};
use vstd::prelude::*;

verus! {

/// The length of a duration in nanoseconds; a function of the duration alone.
pub uninterp spec fn duration_nanos(d: std::time::Duration) -> nat;

/// Calls `Duration::as_nanos`, which gives the whole length of the duration
/// in nanoseconds; the contract names that number `duration_nanos`.
#[verifier::external_body]
fn nanos(d: &std::time::Duration) -> (r: u128)
    ensures
        r == duration_nanos(*d),
{
    d.as_nanos()
}

/// A started task that the run watches until it ends.
pub struct Watched {
    pub id: String,
    /// How long it may run.
    pub timeout: Option<std::time::Duration>,
    pub monitors: Vec<MonitoringHook>,
    pub collect: Option<Box<dyn TaskClosure>>,
    pub workdir: std::path::PathBuf,
}

/// A task taken for starting whose setup action runs.
pub struct Launch {
    pub id: String,
    pub mode: ExecutionMode,
    pub monitors: Vec<MonitoringHook>,
    pub collect: Option<Box<dyn TaskClosure>>,
    pub workdir: std::path::PathBuf,
}

/// What happened since the last step.
pub enum RunEvent {
    /// A round begins; `interrupted` tells whether SIGINT or SIGTERM came.
    Round { interrupted: bool },
    /// A watched task has been running for `elapsed`; `alive` tells whether
    /// its process is still running.
    Checked { id: String, elapsed: std::time::Duration, alive: bool },
    /// Waiting for the finished task gave its exit code (`None` when the
    /// wait failed).
    Waited { id: String, waited: Option<Option<i32>> },
    /// The finished tasks are handled: start what may start.
    Dispatch,
    /// The setup action of the task being started ran.
    SetupDone(Result<(), String>),
    /// The process of the task being started was spawned.
    Spawned,
}

/// What the caller does next, in order.
pub enum RunAction {
    /// Stop the process of the task and forget it.
    Terminate(String),
    /// Report how the task's process is doing (`RunEvent::Checked`).
    Check(String),
    /// Wait for the task's process, forget it and report (`RunEvent::Waited`).
    Wait(String),
    /// Run the collect action of a completed task.
    Collect { id: String, collect: Box<dyn TaskClosure>, workdir: std::path::PathBuf },
    /// Run these hooks with this context.
    FireHooks { hooks: Vec<MonitoringHook>, context: HookContext },
    /// Run the setup action of the task and report (`RunEvent::SetupDone`).
    Setup { id: String, setup: Box<dyn TaskClosure>, workdir: std::path::PathBuf },
    /// Spawn the task's process and report (`RunEvent::Spawned`).
    Spawn {
        id: String,
        workdir: std::path::PathBuf,
        command: String,
        args: Vec<String>,
        env: std::collections::HashMap<String, String>,
    },
    /// Submit the queued task's job, its output going to `log_dir`, and
    /// report (`RunEvent::Spawned`).
    Submit { id: String, workdir: std::path::PathBuf, log_dir: std::path::PathBuf },
    /// Save the state store.
    Save,
    /// Sleep a little, then begin the next round.
    Sleep,
    /// The run is over, with this result.
    Finish(Result<WorkflowSummary, WorkflowError>),
}

/// The hooks among `hooks` that `p` selects, in order.
pub open spec fn hooks_where(hooks: Seq<MonitoringHook>, p: spec_fn(MonitoringHook) -> bool) -> Seq<MonitoringHook>
    decreases hooks.len(),
{
    if hooks.len() == 0 {
        Seq::empty()
    } else if p(hooks.last()) {
        hooks_where(hooks.drop_last(), p).push(hooks.last())
    } else {
        hooks_where(hooks.drop_last(), p)
    }
}

/// The task `x` of the graph has each of its dependencies completed or skipped.
pub open spec fn ready_in(dag: Dag, m: Map<Seq<char>, TaskStatus>, x: Seq<char>) -> bool {
    exists|i: int| 0 <= i < dag.ids().len() && dag.ids()[i] == x
        && forall|k: int| 0 <= k < dag.edges().len() && #[trigger] dag.edges()[k].1 == i ==> {
            let d = dag.ids()[dag.edges()[k].0];
            m.contains_key(d) && settles(m[d]) && !(m[d] is Failed)
        }
}

/// The message of the error a queued task gets when a run starts it.
pub open spec fn queued_unsupported() -> Seq<char> {
    "Queued execution mode is not yet implemented"@
}

/// The tasks under way in a run, and where the current round stands.
pub struct RunState {
    watched: Vec<Watched>,
    in_setup: Option<Launch>,
    spawning: Option<Watched>,
    next: usize,
    queue_logs: Option<std::path::PathBuf>,
}

impl RunState {
    /// The ids of the watched tasks, in the order they started.
    pub closed spec fn running_ids(&self) -> Seq<Seq<char>> {
        self.watched@.map_values(|w: Watched| w.id@)
    }

    /// The time limit of the watched task at position `i`.
    pub closed spec fn timeout_at(&self, i: int) -> Option<std::time::Duration> {
        self.watched@[i].timeout
    }

    /// The task being started, if any: its setup runs or its process is spawned.
    pub closed spec fn launching(&self) -> Option<Seq<char>> {
        match self.in_setup {
            Some(l) => Some(l.id@),
            None => match self.spawning {
                Some(w) => Some(w.id@),
                None => None,
            },
        }
    }

    /// The task whose setup action runs, if any.
    pub closed spec fn in_setup_id(&self) -> Option<Seq<char>> {
        match self.in_setup {
            Some(l) => Some(l.id@),
            None => None,
        }
    }

    /// The task whose process is being spawned, if any.
    pub closed spec fn spawning_id(&self) -> Option<Seq<char>> {
        match self.spawning {
            Some(w) => Some(w.id@),
            None => None,
        }
    }

    /// Number of tasks started and not yet ended.
    pub open spec fn under_way(&self) -> nat {
        self.running_ids().len() + if self.launching() is Some { 1nat } else { 0nat }
    }

    /// At most `limit` tasks are under way, and not two at once are being started.
    pub closed spec fn within(&self, limit: nat) -> bool {
        &&& self.under_way() <= limit
        &&& !(self.in_setup is Some && self.spawning is Some)
    }

    /// Whether the task whose process is being spawned has a collect action.
    pub closed spec fn spawning_collects(&self) -> bool {
        self.spawning matches Some(w) && w.collect is Some
    }

    /// The work directory of the task whose process is being spawned.
    pub closed spec fn spawning_workdir(&self) -> Option<std::path::PathBuf> {
        match self.spawning {
            Some(w) => Some(w.workdir),
            None => None,
        }
    }

    /// Whether the watched task at position `i` has a collect action.
    pub closed spec fn collects_at(&self, i: int) -> bool {
        self.watched@[i].collect is Some
    }

    /// The work directory of the watched task at position `i`.
    pub closed spec fn workdir_at(&self, i: int) -> std::path::PathBuf {
        self.watched@[i].workdir
    }

    /// The task whose setup action runs, if any: its id, how it runs and its
    /// work directory.
    pub closed spec fn setup_launch(&self) -> Option<(Seq<char>, ExecutionMode, std::path::PathBuf)> {
        match self.in_setup {
            Some(l) => Some((l.id@, l.mode, l.workdir)),
            None => None,
        }
    }

    /// How many of the round's candidates have been offered.
    pub closed spec fn offered(&self) -> nat {
        self.next as nat
    }

    /// Where the jobs of queued tasks write their output, when queued
    /// tasks can be submitted.
    pub closed spec fn queue(&self) -> Option<std::path::PathBuf> {
        self.queue_logs
    }

    /// A run before its first round, with nothing under way, that cannot
    /// submit queued tasks.
    pub fn new() -> (r: RunState)
        ensures
            r.running_ids().len() == 0,
            r.launching() is None,
            r.queue() is None,
            forall|limit: nat| r.within(limit),
    {
        RunState { watched: Vec::new(), in_setup: None, spawning: None, next: 0, queue_logs: None }
    }

    /// A run before its first round, with nothing under way, that submits
    /// queued tasks with their output going to `log_dir`.
    pub fn with_queue(log_dir: std::path::PathBuf) -> (r: RunState)
        ensures
            r.running_ids().len() == 0,
            r.launching() is None,
            r.queue() == Some(log_dir),
            forall|limit: nat| r.within(limit),
    {
        RunState { watched: Vec::new(), in_setup: None, spawning: None, next: 0, queue_logs: Some(log_dir) }
    }

    /// Position of the watched task `id`.
    fn find(&self, id: &str) -> (r: Option<usize>)
        ensures
            match r {
                Some(i) => first_at(self.running_ids(), id@, i as int) && i < self.watched@.len(),
                None => !self.running_ids().contains(id@),
            },
    {
        let mut i: usize = 0;
        while i < self.watched.len()
            invariant
                i <= self.watched@.len(),
                forall|j: int| 0 <= j < i ==> self.running_ids()[j] != id@,
            decreases self.watched@.len() - i,
        {
            if str_eq(self.watched[i].id.as_str(), id) {
                return Some(i);
            }
            i = i + 1;
        }
        None
    }
}

/// No pending task among `ts` has a dependency that was skipped, as the
/// spreading of skips leaves the statuses.
pub open spec fn skip_free(ts: Seq<Task>, m: Map<Seq<char>, TaskStatus>) -> bool {
    forall|i: int, j: int|
        0 <= i < ts.len() && lookup(m, ts[i].id@) == Some(TaskStatus::Pending) && 0 <= j < ts[i].dependencies@.len()
            && m.contains_key(#[trigger] ts[i].dependencies@[j]@)
            ==> !(m[ts[i].dependencies@[j]@] is Skipped) && !(m[ts[i].dependencies@[j]@] is SkippedDueToDependencyFailure)
}

/// Every dependency of the task `x` among `ts` is completed.
pub open spec fn deps_completed(ts: Seq<Task>, m: Map<Seq<char>, TaskStatus>, x: Seq<char>) -> bool {
    forall|i: int, j: int| 0 <= i < ts.len() && ts[i].id@ == x && 0 <= j < ts[i].dependencies@.len()
        ==> lookup(m, #[trigger] ts[i].dependencies@[j]@) == Some(TaskStatus::Completed)
}

/// No candidate of the round from position `from` on, in the graph's
/// readiness list under the statuses `m`, is a pending task still held in `ts`.
pub open spec fn none_startable(dag: Dag, ts: Seq<Task>, m: Map<Seq<char>, TaskStatus>, from: int) -> bool {
    let rp = crate::dag::ready_prefix(dag.ids(), dag.edges(), settled_ids(m), dag.ids().len() as int);
    forall|q: int| from <= q < rp.len() ==> !(lookup(m, #[trigger] rp[q]) == Some(TaskStatus::Pending) && crate::workflow::task_ids(ts).contains(rp[q]))
}

/// `after` is what spreading skips from `before` gives over the tasks `ts`:
/// only pending tasks became skipped, each because of a blocked dependency,
/// and no pending task is left with a failed or skipped dependency.
pub open spec fn skips_spread(ts: Seq<Task>, before: Map<Seq<char>, TaskStatus>, after: Map<Seq<char>, TaskStatus>) -> bool {
    &&& crate::workflow::only_skips_added(before, after)
    &&& forall|i: int| 0 <= i < ts.len() && lookup(after, #[trigger] ts[i].id@) == Some(TaskStatus::Pending) ==> !crate::workflow::has_blocked_dep(after, views(ts[i].dependencies@))
    &&& forall|k: Seq<char>| #[trigger] before.contains_key(k) && after[k] != before[k] ==> exists|i: int| 0 <= i < ts.len() && ts[i].id@ == k && crate::workflow::has_blocked_dep(after, #[trigger] views(ts[i].dependencies@))
}

/// After skips spread, no pending task has a skipped dependency.
proof fn lemma_spread_skip_free(ts: Seq<Task>, before: Map<Seq<char>, TaskStatus>, after: Map<Seq<char>, TaskStatus>)
    requires
        skips_spread(ts, before, after),
    ensures
        skip_free(ts, after),
{
    assert forall|i: int, j: int|
        0 <= i < ts.len() && lookup(after, ts[i].id@) == Some(TaskStatus::Pending) && 0 <= j < ts[i].dependencies@.len()
            && after.contains_key(#[trigger] ts[i].dependencies@[j]@)
        implies !(after[ts[i].dependencies@[j]@] is Skipped) && !(after[ts[i].dependencies@[j]@] is SkippedDueToDependencyFailure) by {
        assert(!crate::workflow::has_blocked_dep(after, views(ts[i].dependencies@)));
        assert(views(ts[i].dependencies@)[j] == ts[i].dependencies@[j]@);
    }
}

/// Every task of the graph has a final status.
pub open spec fn all_final(dag: Dag, m: Map<Seq<char>, TaskStatus>) -> bool {
    forall|j: int| 0 <= j < dag.ids().len() ==> m.contains_key(#[trigger] dag.ids()[j]) && is_terminal(m[dag.ids()[j]])
}

/// Giving a task a status that is neither pending nor skipped keeps the
/// pending tasks free of skipped dependencies.
proof fn lemma_skip_free_insert(ts: Seq<Task>, m: Map<Seq<char>, TaskStatus>, k: Seq<char>, st: TaskStatus)
    requires
        skip_free(ts, m),
        !(st is Pending),
        !(st is Skipped),
        !(st is SkippedDueToDependencyFailure),
    ensures
        skip_free(ts, m.insert(k, st)),
{
    let m1 = m.insert(k, st);
    assert forall|i: int, j: int|
        0 <= i < ts.len() && lookup(m1, ts[i].id@) == Some(TaskStatus::Pending) && 0 <= j < ts[i].dependencies@.len()
            && m1.contains_key(#[trigger] ts[i].dependencies@[j]@)
        implies !(m1[ts[i].dependencies@[j]@] is Skipped) && !(m1[ts[i].dependencies@[j]@] is SkippedDueToDependencyFailure) by {
        assert(ts[i].id@ != k);
        assert(lookup(m, ts[i].id@) == Some(TaskStatus::Pending));
    }
}

/// Dropping a task keeps the others free of skipped dependencies.
proof fn lemma_skip_free_remove(ts: Seq<Task>, m: Map<Seq<char>, TaskStatus>, r: int)
    requires
        skip_free(ts, m),
        0 <= r < ts.len(),
    ensures
        skip_free(ts.remove(r), m),
{
    let t = ts.remove(r);
    assert forall|i: int, j: int|
        0 <= i < t.len() && lookup(m, t[i].id@) == Some(TaskStatus::Pending) && 0 <= j < t[i].dependencies@.len()
            && m.contains_key(#[trigger] t[i].dependencies@[j]@)
        implies !(m[t[i].dependencies@[j]@] is Skipped) && !(m[t[i].dependencies@[j]@] is SkippedDueToDependencyFailure) by {
        let o = if i < r { i } else { i + 1 };
        assert(t[i] == ts[o]);
        assert(ts[o].dependencies@[j]@ == t[i].dependencies@[j]@);
    }
}

/// A pending task that the graph shows ready, whose dependencies are none
/// of them skipped, has each dependency completed, also once it runs.
proof fn lemma_started_deps_completed(dag: Dag, ts: Seq<Task>, m0: Map<Seq<char>, TaskStatus>, x: Seq<char>, jx: int)
    requires
        dag.wf(),
        graph_of(dag, ts),
        skip_free(ts, m0),
        lookup(m0, x) == Some(TaskStatus::Pending),
        0 <= jx < dag.ids().len(),
        dag.ids()[jx] == x,
        forall|k: int| 0 <= k < dag.edges().len() && #[trigger] dag.edges()[k].1 == jx ==> {
            let d = dag.ids()[dag.edges()[k].0];
            m0.contains_key(d) && settles(m0[d]) && !(m0[d] is Failed)
        },
    ensures
        deps_completed(ts, m0.insert(x, TaskStatus::Running), x),
{
    dag.lemma_acyclic();
    let m1 = m0.insert(x, TaskStatus::Running);
    assert forall|i: int, j: int| 0 <= i < ts.len() && ts[i].id@ == x && 0 <= j < ts[i].dependencies@.len()
        implies lookup(m1, #[trigger] ts[i].dependencies@[j]@) == Some(TaskStatus::Completed) by {
        let d = ts[i].dependencies@[j]@;
        assert(views(ts[i].dependencies@)[j] == d);
        assert(views(ts[i].dependencies@).contains(d));
        assert(dag.ids().contains(ts[i].id@));
        assert(dep_edge(dag, d, x));
        let k = choose|k: int| #![trigger dag.edges()[k]] 0 <= k < dag.edges().len() && dag.ids()[dag.edges()[k].0] == d && dag.ids()[dag.edges()[k].1] == x;
        assert(dag.edges()[k].1 == jx);
        assert(m0.contains_key(d) && settles(m0[d]) && !(m0[d] is Failed));
        assert(d != x);
    }
}

/// Whether the hook runs at that moment of its task: when it starts
/// (`on_start`), or when it ends, having completed or not.
pub open spec fn hook_fires(h: MonitoringHook, on_start: bool, completed: bool) -> bool {
    if on_start {
        h.trigger is OnStart
    } else {
        crate::monitoring::fires_on_finish(h.trigger, completed)
    }
}

/// A copy of the hook.
fn copy_hook(h: &MonitoringHook) -> (r: MonitoringHook)
    ensures
        r == *h,
{
    MonitoringHook { name: h.name.clone(), command: h.command.clone(), trigger: h.trigger }
}

/// The hooks of `hooks` that run at that moment, in order.
fn select_hooks(hooks: &Vec<MonitoringHook>, on_start: bool, completed: bool) -> (r: Vec<MonitoringHook>)
    ensures
        r@ == hooks_where(hooks@, |h: MonitoringHook| hook_fires(h, on_start, completed)),
{
    let ghost p = |h: MonitoringHook| hook_fires(h, on_start, completed);
    let mut r: Vec<MonitoringHook> = Vec::new();
    let mut i: usize = 0;
    while i < hooks.len()
        invariant
            i <= hooks@.len(),
            p == (|h: MonitoringHook| hook_fires(h, on_start, completed)),
            r@ == hooks_where(hooks@.take(i as int), p),
        decreases hooks@.len() - i,
    {
        proof {
            assert(hooks@.take(i as int + 1).drop_last() =~= hooks@.take(i as int));
            assert(hooks@.take(i as int + 1).last() == hooks@[i as int]);
        }
        let fires = if on_start { hooks[i].fires_on_start() } else { hooks[i].fires_on_finish(completed) };
        if fires {
            r.push(copy_hook(&hooks[i]));
        }
        i = i + 1;
    }
    proof {
        assert(hooks@.take(hooks@.len() as int) =~= hooks@);
    }
    r
}

/// Appends `a` to the actions.
fn push_action(actions: &mut Vec<RunAction>, a: RunAction)
    ensures
        final(actions)@ == old(actions)@.push(a),
        final(actions)@.len() == old(actions)@.len() + 1,
        final(actions)@.take(old(actions)@.len() as int) == old(actions)@,
        final(actions)@.last() == a,
        forall|i: int| 0 <= i < old(actions)@.len() ==> #[trigger] final(actions)@[i] == old(actions)@[i],
{
    actions.push(a);
    proof {
        assert(actions@.take(old(actions)@.len() as int) =~= old(actions)@);
    }
}

/// `mode` runs `command` with `args` and `env` directly, and `dir` is `workdir`.
pub open spec fn runs_directly(mode: ExecutionMode, dir: std::path::PathBuf, workdir: std::path::PathBuf, command: String, args: Vec<String>, env: std::collections::HashMap<String, String>) -> bool {
    &&& mode matches ExecutionMode::Direct { command: c, args: a, env: e, .. } && c == command && a == args && e == env
    &&& dir == workdir
}

/// The action `a`, when it spawns a process, spawns the task `t` as it was
/// given.
pub open spec fn spawns_task(a: RunAction, t: Task) -> bool {
    match a {
        RunAction::Spawn { id, workdir, command, args, env } => id@ == t.id@ && runs_directly(t.mode, t.workdir, workdir, command, args, env),
        _ => true,
    }
}

/// Spawning a task that was held at position `r` spawns one of the held
/// tasks as it was given.
proof fn lemma_spawn_from_held(ts: Seq<Task>, r: int, t: Task, a: RunAction)
    requires
        0 <= r < ts.len(),
        ts[r] == t,
        spawns_task(a, t),
    ensures
        spawned_as_given(a, ts, None),
{
    match a {
        RunAction::Spawn { id, workdir, command, args, env } => {
            assert(ts[r].id@ == id@ && runs_directly(ts[r].mode, ts[r].workdir, workdir, command, args, env));
        },
        _ => {},
    }
}

/// A task held at position `r` whose setup runs is one of the held tasks.
proof fn lemma_setup_from_held(ts: Seq<Task>, r: int, t: Task, l: Option<(Seq<char>, ExecutionMode, std::path::PathBuf)>)
    requires
        0 <= r < ts.len(),
        ts[r] == t,
        l == Some((t.id@, t.mode, t.workdir)),
    ensures
        l matches Some(p) ==> exists|q: int| 0 <= q < ts.len() && #[trigger] ts[q].id@ == p.0 && ts[q].mode == p.1 && ts[q].workdir == p.2,
{
    assert(ts[r].id@ == t.id@);
}

/// The action `a`, when it spawns a process, spawns a task as it was given:
/// one of `ts`, or the task `pending` whose setup ran, with its command,
/// arguments, environment and work directory unchanged.
pub open spec fn spawned_as_given(a: RunAction, ts: Seq<Task>, pending: Option<(Seq<char>, ExecutionMode, std::path::PathBuf)>) -> bool {
    match a {
        RunAction::Spawn { id, workdir, command, args, env } => {
            ||| exists|j: int| 0 <= j < ts.len() && #[trigger] ts[j].id@ == id@ && runs_directly(ts[j].mode, ts[j].workdir, workdir, command, args, env)
            ||| (pending matches Some(l) && l.0 == id@ && runs_directly(l.1, l.2, workdir, command, args, env))
        },
        _ => true,
    }
}

/// Whether a task with time limit `limit` that has run for `elapsed` ran past it.
pub open spec fn expired(limit: Option<std::time::Duration>, elapsed: std::time::Duration) -> bool {
    match limit {
        Some(t) => duration_nanos(elapsed) >= duration_nanos(t),
        None => false,
    }
}

/// `i` is the first position of `x` in `s`.
pub open spec fn first_at(s: Seq<Seq<char>>, x: Seq<char>, i: int) -> bool {
    &&& 0 <= i < s.len()
    &&& s[i] == x
    &&& forall|j: int| 0 <= j < i ==> s[j] != x
}

/// No action of `r` starts a task or ends the run.
pub open spec fn bookkeeping_only(r: Seq<RunAction>) -> bool {
    forall|i: int| 0 <= i < r.len() ==> !(#[trigger] r[i] is Spawn) && !(r[i] is Setup) && !(r[i] is Submit) && !(r[i] is Finish)
}

/// No action of `r` starts a task, waits for the next round or ends the run
/// with a summary.
pub open spec fn quiet(r: Seq<RunAction>) -> bool {
    forall|i: int| 0 <= i < r.len() ==> !(#[trigger] r[i] is Spawn) && !(r[i] is Setup) && !(r[i] is Submit) && !(r[i] is Sleep) && !(r[i] matches RunAction::Finish(Ok(_)))
}

/// Appending an action that starts nothing and reports no summary keeps a
/// sequence of actions quiet.
proof fn lemma_quiet_push(r: Seq<RunAction>, a: RunAction)
    requires
        quiet(r),
        !(a is Spawn),
        !(a is Setup),
        !(a is Submit),
        !(a is Sleep),
        !(a matches RunAction::Finish(Ok(_))),
    ensures
        quiet(r.push(a)),
{
    assert forall|i: int| 0 <= i < r.push(a).len() implies !(#[trigger] r.push(a)[i] is Spawn) && !(r.push(a)[i] is Setup) && !(r.push(a)[i] is Submit) && !(r.push(a)[i] is Sleep) && !(r.push(a)[i] matches RunAction::Finish(Ok(_))) by {
        if i < r.len() {
            assert(r.push(a)[i] == r[i]);
        }
    }
}

/// Every action of `r` that starts a task starts `x`.
pub open spec fn starts_only(r: Seq<RunAction>, x: Option<Seq<char>>) -> bool {
    forall|i: int| 0 <= i < r.len() ==> {
        &&& (#[trigger] r[i] matches RunAction::Spawn { id, .. } ==> x == Some(id@))
        &&& (r[i] matches RunAction::Setup { id, .. } ==> x == Some(id@))
        &&& (r[i] matches RunAction::Submit { id, .. } ==> x == Some(id@))
    }
}

/// A `Finish` with a summary in `r` comes only once every task of the graph
/// has a final status and none is under way, and sums up the statuses.
pub open spec fn finishes_when_done(r: Seq<RunAction>, dag: Dag, m: Map<Seq<char>, TaskStatus>, elapsed: std::time::Duration, under_way: nat) -> bool {
    forall|i: int| 0 <= i < r.len() ==> (#[trigger] r[i] matches RunAction::Finish(Ok(s)) ==> {
        &&& forall|j: int| 0 <= j < dag.ids().len() ==> m.contains_key(#[trigger] dag.ids()[j]) && is_terminal(m[dag.ids()[j]])
        &&& under_way == 0
        &&& summarizes(s, m, elapsed)
    })
}

impl RunState {
    /// Starts the launch `l`: its process is to be spawned, or, for a queued
    /// task, its job submitted; when queued tasks cannot be submitted, the
    /// run ends with an error.
    fn launch(&mut self, l: Launch, actions: &mut Vec<RunAction>)
        requires
            old(self).in_setup is None,
            old(self).spawning is None,
        ensures
            final(self).watched == old(self).watched,
            final(self).in_setup is None,
            final(self).next == old(self).next,
            final(self).queue() == old(self).queue(),
            l.mode is Direct || old(self).queue() is Some ==> final(self).launching() == Some(l.id@),
            l.mode is Queued && old(self).queue() is None ==> final(self).launching() is None,
            final(actions)@.len() == old(actions)@.len() + 1,
            final(actions)@.take(old(actions)@.len() as int) == old(actions)@,
            forall|i: int| 0 <= i < old(actions)@.len() ==> #[trigger] final(actions)@[i] == old(actions)@[i],
            !(final(actions)@.last() is Sleep),
            l.mode is Direct ==> (final(actions)@.last() matches RunAction::Spawn { id, workdir, command, args, env } && id@ == l.id@ && runs_directly(l.mode, l.workdir, workdir, command, args, env)),
            l.mode is Direct ==> final(self).spawning_id() == Some(l.id@) && final(self).spawning_collects() == (l.collect is Some) && final(self).spawning_workdir() == Some(l.workdir),
            l.mode is Queued && old(self).queue() is Some ==> (final(actions)@.last() matches RunAction::Submit { id, log_dir, .. } && id@ == l.id@ && Some(log_dir) == old(self).queue()),
            l.mode is Queued && old(self).queue() is None ==> (final(actions)@.last() matches RunAction::Finish(Err(WorkflowError::InvalidConfig(m))) && m@ == queued_unsupported()),
    {
        let Launch { id, mode, monitors, collect, workdir } = l;
        match mode {
            ExecutionMode::Direct { command, args, env, timeout } => {
                let spawn_id = id.clone();
                let spawn_dir = workdir.clone();
                self.spawning = Some(Watched { id, timeout, monitors, collect, workdir });
                push_action(actions, RunAction::Spawn { id: spawn_id, workdir: spawn_dir, command, args, env });
            },
            ExecutionMode::Queued => {
                match &self.queue_logs {
                    Some(d) => {
                        let log_dir = d.clone();
                        let submit_id = id.clone();
                        let submit_dir = workdir.clone();
                        self.spawning = Some(Watched { id, timeout: None, monitors, collect, workdir });
                        push_action(actions, RunAction::Submit { id: submit_id, workdir: submit_dir, log_dir });
                    },
                    None => {
                        proof {
                            reveal_strlit("Queued execution mode is not yet implemented");
                        }
                        let m = "Queued execution mode is not yet implemented".to_owned();
                        push_action(actions, RunAction::Finish(Err(WorkflowError::InvalidConfig(m))));
                    },
                }
            },
        }
    }
}

impl RunState {
    /// Takes the task apart: its setup action is to run first, or, without
    /// one, it is launched at once.
    fn start(&mut self, task: Task, actions: &mut Vec<RunAction>)
        requires
            old(self).in_setup is None,
            old(self).spawning is None,
        ensures
            final(self).watched == old(self).watched,
            final(self).next == old(self).next,
            !(final(self).in_setup is Some && final(self).spawning is Some),
            final(self).queue() == old(self).queue(),
            task.mode is Direct || task.setup is Some || old(self).queue() is Some ==> final(self).launching() == Some(task.id@),
            !(task.mode is Direct || task.setup is Some || old(self).queue() is Some) ==> final(self).launching() is None,
            final(actions)@.len() == old(actions)@.len() + 1,
            final(actions)@.take(old(actions)@.len() as int) == old(actions)@,
            forall|i: int| 0 <= i < old(actions)@.len() ==> #[trigger] final(actions)@[i] == old(actions)@[i],
            starts_only(seq![final(actions)@.last()], final(self).launching()),
            final(actions)@.last() matches RunAction::Finish(r) ==> r is Err,
            !(final(actions)@.last() is Sleep),
            task.setup is None ==> spawns_task(final(actions)@.last(), task),
            task.setup is Some ==> final(self).setup_launch() == Some((task.id@, task.mode, task.workdir)) && final(actions)@.last() is Setup,
            task.setup is None ==> final(self).setup_launch() is None,
    {
        let Task { id, dependencies: _, workdir, mode, setup, collect, monitors } = task;
        match setup {
            Some(f) => {
                let setup_id = id.clone();
                let setup_dir = workdir.clone();
                self.in_setup = Some(Launch { id, mode, monitors, collect, workdir });
                push_action(actions, RunAction::Setup { id: setup_id, setup: f, workdir: setup_dir });
            },
            None => {
                self.launch(Launch { id, mode, monitors, collect, workdir }, actions);

            },
        }
    }

    /// Offers the round's remaining candidates, from position `next`: starts
    /// the first pending one while fewer tasks than the limit run, or ends
    /// the round, finishing the run when every task of the graph has a final
    /// status and none is under way.
    fn advance<S: StateStore>(&mut self, wf: &mut Workflow, dag: &Dag, state: &mut S, elapsed: std::time::Duration, actions: &mut Vec<RunAction>)
        requires
            old(wf).wf(),
            dag.wf(),
            old(self).in_setup is None,
            old(self).spawning is None,
            old(self).running_ids().len() <= old(wf).parallel_limit(),
            bookkeeping_only(old(actions)@),
            graph_of(*dag, old(wf).tasks()),
        ensures
            final(actions)@.len() == old(actions)@.len() + 1,
            spawned_as_given(final(actions)@.last(), old(wf).tasks(), None),
            final(self).setup_launch() matches Some(l) ==> exists|q: int| 0 <= q < old(wf).tasks().len() && #[trigger] old(wf).tasks()[q].id@ == l.0 && old(wf).tasks()[q].mode == l.1 && old(wf).tasks()[q].workdir == l.2,
            final(self).queue() == old(self).queue(),
            graph_of(*dag, final(wf).tasks()),
            skip_free(old(wf).tasks(), old(state).status_map()) ==> skip_free(final(wf).tasks(), final(state).status_map()),
            forall|x: Seq<char>| final(self).launching() == Some(x) ==> {
                &&& lookup(old(state).status_map(), x) == Some(TaskStatus::Pending)
                &&& final(state).status_map() == old(state).status_map().insert(x, TaskStatus::Running)
                &&& skip_free(old(wf).tasks(), old(state).status_map()) ==> deps_completed(old(wf).tasks(), final(state).status_map(), x)
            },
            final(actions)@.last() is Sleep ==> {
                &&& final(state).status_map() == old(state).status_map()
                &&& final(wf).tasks() == old(wf).tasks()
                &&& (final(self).running_ids().len() >= final(wf).parallel_limit() || none_startable(*dag, final(wf).tasks(), final(state).status_map(), old(self).offered() as int))
            },
            (final(actions)@.last() matches RunAction::Finish(Ok(_))) <==> (all_final(*dag, final(state).status_map()) && final(self).under_way() == 0),
            final(wf).wf(),
            final(wf).parallel_limit() == old(wf).parallel_limit(),
            final(self).within(final(wf).parallel_limit()),
            final(self).watched == old(self).watched,
            final(self).launching() matches Some(x) ==> ready_in(*dag, final(state).status_map(), x) && final(state).status_map()[x] == TaskStatus::Running,
            final(state).status_map() == old(state).status_map() || exists|x: Seq<char>| lookup(old(state).status_map(), x) == Some(TaskStatus::Pending) && final(state).status_map() == old(state).status_map().insert(x, TaskStatus::Running),
            starts_only(final(actions)@, final(self).launching()),
            finishes_when_done(final(actions)@, *dag, final(state).status_map(), elapsed, final(self).under_way()),
            final(actions)@.len() > old(actions)@.len(),
            forall|i: int| 0 <= i < old(actions)@.len() ==> #[trigger] final(actions)@[i] == old(actions)@[i],
    {
        let cands = dispatch_candidates(dag, state);
        let ghost m0 = state.status_map();
        while self.next < cands.len()
            invariant
                wf.wf(),
                wf.parallel_limit() == old(wf).parallel_limit(),
                dag.wf(),
                state.status_map() == m0,
                m0 == old(state).status_map(),
                views(cands@) == crate::dag::ready_prefix(dag.ids(), dag.edges(), settled_ids(m0), dag.ids().len() as int),
                self.in_setup is None,
                self.spawning is None,
                self.watched == old(self).watched,
                self.queue() == old(self).queue(),
                self.running_ids().len() <= wf.parallel_limit(),
                actions@ == old(actions)@,
                bookkeeping_only(old(actions)@),
                graph_of(*dag, wf.tasks()),
                wf.tasks() == old(wf).tasks(),
                old(self).next <= self.next,
                self.running_ids().len() >= wf.parallel_limit() || forall|q: int| old(self).next <= q < self.next ==> !(lookup(m0, #[trigger] views(cands@)[q]) == Some(TaskStatus::Pending) && crate::workflow::task_ids(wf.tasks()).contains(views(cands@)[q])),
            decreases cands@.len() - self.next,
        {
            let i = self.next;
            self.next = self.next + 1;
            let status = state.get_status(cands[i].as_str());
            match crate::workflow::dispatch_decision(self.watched.len(), wf.max_parallel(), &status) {
                crate::workflow::DispatchDecision::Stop => {
                    self.next = cands.len();
                },
                crate::workflow::DispatchDecision::Pass => {
                    proof {
                        assert(views(cands@)[i as int] == cands@[i as int]@);
                    }
                },
                crate::workflow::DispatchDecision::Start => {
                    let ghost x = cands@[i as int]@;
                    proof {
                        assert(views(cands@)[i as int] == x);
                        assert(views(cands@).contains(x));
                        crate::workflow::lemma_dispatch_respects_dependencies(*dag, m0, x);
                    }
                    let ghost ts0 = wf.tasks();
                    match wf.start_task(state, cands[i].as_str()) {
                        None => {},
                        Some(task) => {
                            proof {
                                let m1 = state.status_map();
                                assert(m1 == m0.insert(x, TaskStatus::Running));
                                let r = crate::workflow::task_ids(ts0).index_of(x);
                                crate::workflow::lemma_graph_of_remove(*dag, ts0, r);
                                if skip_free(ts0, m0) {
                                    lemma_skip_free_remove(ts0, m0, r);
                                    lemma_skip_free_insert(ts0.remove(r), m0, x, TaskStatus::Running);
                                }
                                let j = choose|j: int| 0 <= j < dag.ids().len() && dag.ids()[j] == x && !settled_ids(m0).contains(x)
                                    && forall|k: int| 0 <= k < dag.edges().len() && #[trigger] dag.edges()[k].1 == j ==> {
                                        let d = dag.ids()[dag.edges()[k].0];
                                        m0.contains_key(d) && settles(m0[d]) && !(m0[d] is Failed)
                                    };
                                assert forall|k: int| 0 <= k < dag.edges().len() && #[trigger] dag.edges()[k].1 == j implies {
                                    let d = dag.ids()[dag.edges()[k].0];
                                    m1.contains_key(d) && settles(m1[d]) && !(m1[d] is Failed)
                                } by {
                                    let d = dag.ids()[dag.edges()[k].0];
                                    if d == x {
                                        assert(settled_ids(m0).contains(x));
                                    }
                                }
                                assert(ready_in(*dag, m1, x));
                                if skip_free(ts0, m0) {
                                    lemma_started_deps_completed(*dag, ts0, m0, x, j);
                                }
                                assert(!(m1[dag.ids()[j]] is Completed));
                                assert(!all_final(*dag, m1));
                            }
                            let ghost tk = task;
                            let ghost r = crate::workflow::task_ids(ts0).index_of(x);
                            proof {
                                assert(tk == ts0[r]);
                            }
                            self.start(task, actions);
                            proof {
                                assert(old(wf).tasks() == ts0);
                                if tk.setup is None {
                                    lemma_spawn_from_held(ts0, r, tk, actions@.last());
                                } else {
                                    lemma_setup_from_held(ts0, r, tk, self.setup_launch());
                                }
                                assert forall|a: int| 0 <= a < actions@.len() implies {
                                    &&& (#[trigger] actions@[a] matches RunAction::Spawn { id, .. } ==> self.launching() == Some(id@))
                                    &&& (actions@[a] matches RunAction::Setup { id, .. } ==> self.launching() == Some(id@))
                                } by {
                                    if a < old(actions)@.len() {
                                        assert(actions@[a] == old(actions)@[a]);
                                    } else {
                                        assert(seq![actions@.last()][0] == actions@.last());
                                        assert(actions@[a] == actions@.last());
                                    }
                                }
                                assert forall|a: int| 0 <= a < actions@.len() implies !(#[trigger] actions@[a] matches RunAction::Finish(Ok(_))) by {
                                    if a < old(actions)@.len() {
                                        assert(actions@[a] == old(actions)@[a]);
                                    } else {
                                        assert(actions@[a] == actions@.last());
                                    }
                                }
                            }
                            return;
                        },
                    }
                },
            }
        }
        proof {
            assert(views(cands@) == crate::dag::ready_prefix(dag.ids(), dag.edges(), settled_ids(m0), dag.ids().len() as int));
        }
        if all_done(dag, state) && self.watched.len() == 0 {
            let summary = WorkflowSummary::from_state(state, elapsed);
            actions.push(RunAction::Finish(Ok(summary)));
        } else {
            actions.push(RunAction::Sleep);
            proof {
                if self.running_ids().len() < wf.parallel_limit() {
                    let rp = crate::dag::ready_prefix(dag.ids(), dag.edges(), settled_ids(m0), dag.ids().len() as int);
                    assert forall|q: int| old(self).next <= q < rp.len() implies !(lookup(m0, #[trigger] rp[q]) == Some(TaskStatus::Pending) && crate::workflow::task_ids(wf.tasks()).contains(rp[q])) by {
                        assert(rp[q] == views(cands@)[q]);
                    }
                }
            }
        }
        proof {
            assert forall|a: int| 0 <= a < actions@.len() - 1 implies actions@[a] == old(actions)@[a] by {}
        }
    }
}

impl RunState {
    /// The ids of the watched tasks.
    fn running_id_list(&self) -> (r: Vec<String>)
        ensures
            views(r@) == self.running_ids(),
    {
        let mut r: Vec<String> = Vec::new();
        let mut i: usize = 0;
        while i < self.watched.len()
            invariant
                i <= self.watched@.len(),
                views(r@) == self.running_ids().take(i as int),
            decreases self.watched@.len() - i,
        {
            let ghost before = r@;
            r.push(self.watched[i].id.clone());
            proof {
                assert(self.running_ids()[i as int] == self.watched@[i as int].id@);
                assert(views(r@) =~= views(before).push(self.watched@[i as int].id@));
                assert(views(r@) =~= self.running_ids().take(i as int + 1));
            }
            i = i + 1;
        }
        proof {
            assert(self.running_ids().take(self.watched@.len() as int) =~= self.running_ids());
        }
        r
    }

    /// Removes the watched task at position `i`.
    fn forget(&mut self, i: usize) -> (w: Watched)
        requires
            i < old(self).watched@.len(),
        ensures
            final(self).queue() == old(self).queue(),
            final(self).running_ids() == old(self).running_ids().remove(i as int),
            final(self).in_setup == old(self).in_setup,
            final(self).spawning == old(self).spawning,
            final(self).next == old(self).next,
            w == old(self).watched@[i as int],
    {
        let w = self.watched.remove(i);
        proof {
            assert(self.running_ids() =~= old(self).running_ids().remove(i as int));
        }
        w
    }

    /// A new round: on an interrupt, the watched tasks go back to pending
    /// and are stopped, the state is saved and the run ends; otherwise each
    /// watched task is to be checked.
    fn on_round<S: StateStore>(&mut self, state: &mut S, interrupted: bool) -> (actions: Vec<RunAction>)
        ensures
            !interrupted ==> forall|ts: Seq<Task>| skip_free(ts, old(state).status_map()) ==> skip_free(ts, final(state).status_map()),
            final(self).queue() == old(self).queue(),
            quiet(actions@),
            final(self).in_setup == old(self).in_setup,
            final(self).spawning == old(self).spawning,
            interrupted ==> {
                &&& final(self).running_ids().len() == 0
                &&& actions@.len() == old(self).running_ids().len() + 2
                &&& forall|i: int| 0 <= i < old(self).running_ids().len() ==> (#[trigger] actions@[i] matches RunAction::Terminate(x) && x@ == old(self).running_ids()[i])
                &&& actions@[actions@.len() - 2] is Save
                &&& actions@[actions@.len() - 1] matches RunAction::Finish(Err(WorkflowError::Interrupted))
                &&& final(state).status_map().dom() == old(state).status_map().dom().union(old(self).running_ids().to_set())
                &&& forall|k: Seq<char>| #[trigger] final(state).status_map().contains_key(k) ==> final(state).status_map()[k] == (if old(self).running_ids().contains(k) { TaskStatus::Pending } else { old(state).status_map()[k] })
            },
            !interrupted ==> {
                &&& final(state).status_map() == old(state).status_map()
                &&& final(self).running_ids() == old(self).running_ids()
                &&& actions@.len() == old(self).running_ids().len()
                &&& forall|i: int| 0 <= i < actions@.len() ==> (#[trigger] actions@[i] matches RunAction::Check(x) && x@ == old(self).running_ids()[i])
            },
    {
        let ids = self.running_id_list();
        let mut actions: Vec<RunAction> = Vec::new();
        if interrupted {
            return_to_pending(state, &ids);
        }
        let mut i: usize = 0;
        while i < ids.len()
            invariant
                i <= ids@.len(),
                views(ids@) == old(self).running_ids(),
                actions@.len() == i,
                forall|j: int| 0 <= j < i ==> (#[trigger] actions@[j] matches RunAction::Terminate(x) && x@ == views(ids@)[j]) || !interrupted,
                forall|j: int| 0 <= j < i ==> (#[trigger] actions@[j] matches RunAction::Check(x) && x@ == views(ids@)[j]) || interrupted,
                quiet(actions@),
            decreases ids@.len() - i,
        {
            let x = ids[i].clone();
            if interrupted {
                proof { lemma_quiet_push(actions@, RunAction::Terminate(x)); }
                push_action(&mut actions, RunAction::Terminate(x));
            } else {
                proof { lemma_quiet_push(actions@, RunAction::Check(x)); }
                push_action(&mut actions, RunAction::Check(x));
            }
            i = i + 1;
        }
        if interrupted {
            self.watched = Vec::new();
            proof { lemma_quiet_push(actions@, RunAction::Save); }
            push_action(&mut actions, RunAction::Save);
            proof { lemma_quiet_push(actions@, RunAction::Finish(Err(WorkflowError::Interrupted))); }
            push_action(&mut actions, RunAction::Finish(Err(WorkflowError::Interrupted)));
            proof {
                assert(self.running_ids() =~= Seq::<Seq<char>>::empty());
            }
        }
        actions
    }

    /// A watched task was checked: past its time limit it is stopped and
    /// fails; a process that ended is to be waited for.
    fn on_checked<S: StateStore>(&mut self, state: &mut S, id: &String, elapsed: std::time::Duration, alive: bool) -> (actions: Vec<RunAction>)
        ensures
            forall|ts: Seq<Task>| skip_free(ts, old(state).status_map()) ==> skip_free(ts, final(state).status_map()),
            final(self).queue() == old(self).queue(),
            quiet(actions@),
            final(self).in_setup == old(self).in_setup,
            final(self).spawning == old(self).spawning,
            final(self).running_ids().len() <= old(self).running_ids().len(),
            !old(self).running_ids().contains(id@) ==> actions@.len() == 0 && final(state).status_map() == old(state).status_map() && final(self).running_ids() == old(self).running_ids(),
            forall|i: int| #[trigger] first_at(old(self).running_ids(), id@, i) ==> if expired(old(self).timeout_at(i), elapsed) {
                &&& final(self).running_ids() == old(self).running_ids().remove(i)
                &&& exists|msg: String| msg@ == timeout_text(id@) && final(state).status_map() == old(state).status_map().insert(id@, TaskStatus::Failed { error: msg })
                &&& actions@.len() == 2
                &&& actions@[0] matches RunAction::Terminate(x) && x@ == id@
                &&& actions@[1] is Save
            } else if !alive {
                &&& actions@.len() == 1
                &&& actions@[0] matches RunAction::Wait(x) && x@ == id@
                &&& final(state).status_map() == old(state).status_map()
                &&& final(self).running_ids() == old(self).running_ids()
            } else {
                &&& actions@.len() == 0
                &&& final(state).status_map() == old(state).status_map()
                &&& final(self).running_ids() == old(self).running_ids()
            },
    {
        let mut actions: Vec<RunAction> = Vec::new();
        match self.find(id.as_str()) {
            None => {},
            Some(i) => {
                let over = match &self.watched[i].timeout {
                    Some(t) => nanos(&elapsed) >= nanos(t),
                    None => false,
                };
                if over {
                    let _w = self.forget(i);
                    let ghost mb = state.status_map();
                    record_timeout(state, id.as_str());
                    proof {
                        let e = choose|e: String| e@ == timeout_text(id@) && state.status_map() == mb.insert(id@, TaskStatus::Failed { error: e });
                        assert forall|ts: Seq<Task>| skip_free(ts, mb) implies skip_free(ts, state.status_map()) by {
                            lemma_skip_free_insert(ts, mb, id@, TaskStatus::Failed { error: e });
                        }
                    }
                    let t = RunAction::Terminate(id.clone());
                    proof { lemma_quiet_push(actions@, t); }
                    push_action(&mut actions, t);
                    proof { lemma_quiet_push(actions@, RunAction::Save); }
                    push_action(&mut actions, RunAction::Save);
                } else if !alive {
                    let w = RunAction::Wait(id.clone());
                    proof { lemma_quiet_push(actions@, w); }
                    push_action(&mut actions, w);
                }
                proof {
                    assert forall|j: int| #[trigger] first_at(old(self).running_ids(), id@, j) implies j == i by {
                        assert(first_at(old(self).running_ids(), id@, i as int));
                    }
                }
            },
        }
        actions
    }

    /// A finished task was waited for: its status is recorded, then its
    /// collect action (when it completed) and the hooks that fire on how it
    /// ended run, and the state is saved.
    fn on_waited<S: StateStore>(&mut self, state: &mut S, id: &String, waited: Option<Option<i32>>) -> (actions: Vec<RunAction>)
        ensures
            forall|ts: Seq<Task>| skip_free(ts, old(state).status_map()) ==> skip_free(ts, final(state).status_map()),
            final(self).queue() == old(self).queue(),
            quiet(actions@),
            final(self).in_setup == old(self).in_setup,
            final(self).spawning == old(self).spawning,
            final(self).running_ids().len() <= old(self).running_ids().len(),
            !old(self).running_ids().contains(id@) ==> actions@.len() == 0 && final(state).status_map() == old(state).status_map() && final(self).running_ids() == old(self).running_ids(),
            forall|i: int| #[trigger] first_at(old(self).running_ids(), id@, i) ==> {
                &&& final(self).running_ids() == old(self).running_ids().remove(i)
                &&& exists|st: TaskStatus| is_finish_status(st, waited) && final(state).status_map() == old(state).status_map().insert(id@, st)
                &&& actions@.len() >= 1
                &&& actions@.last() is Save
                &&& waited == Some(Some(0i32)) && old(self).collects_at(i) ==> (actions@[0] matches RunAction::Collect { id: x, workdir: w, .. } && x@ == id@ && w == old(self).workdir_at(i))
                &&& forall|j: int| 0 <= j < actions@.len() && (#[trigger] actions@[j] is Collect) ==> waited == Some(Some(0i32)) && old(self).collects_at(i)
            },
    {
        let mut actions: Vec<RunAction> = Vec::new();
        match self.find(id.as_str()) {
            None => {},
            Some(i) => {
                let w = self.forget(i);
                let Watched { id: _, timeout: _, monitors, collect, workdir } = w;
                let ghost mb = state.status_map();
                let completed = record_finish(state, id.as_str(), waited);
                proof {
                    let st = choose|st: TaskStatus| is_finish_status(st, waited) && state.status_map() == mb.insert(id@, st) && completed == (st is Completed);
                    assert forall|ts: Seq<Task>| skip_free(ts, mb) implies skip_free(ts, state.status_map()) by {
                        lemma_skip_free_insert(ts, mb, id@, st);
                    }
                }
                let exit_code = match waited {
                    Some(c) => c,
                    None => None,
                };
                if completed {
                    match collect {
                        Some(c) => {
                            let a = RunAction::Collect { id: id.clone(), collect: c, workdir: workdir.clone() };
                            proof { lemma_quiet_push(actions@, a); }
                            push_action(&mut actions, a);
                        },
                        None => {},
                    }
                }
                let hooks = select_hooks(&monitors, false, completed);
                if hooks.len() > 0 {
                    let context = finish_context(id.as_str(), workdir, completed, exit_code);
                    let a = RunAction::FireHooks { hooks, context };
                    proof { lemma_quiet_push(actions@, a); }
                    push_action(&mut actions, a);
                }
                proof { lemma_quiet_push(actions@, RunAction::Save); }
                push_action(&mut actions, RunAction::Save);
                proof {
                    assert forall|j: int| #[trigger] first_at(old(self).running_ids(), id@, j) implies j == i by {
                        assert(first_at(old(self).running_ids(), id@, i as int));
                    }
                }
            },
        }
        actions
    }
}

impl RunState {
    /// The finished tasks are handled: dependency skips spread, the state
    /// is saved and the round's candidates are offered from the first.
    fn on_dispatch<S: StateStore>(&mut self, wf: &mut Workflow, dag: &Dag, state: &mut S, elapsed: std::time::Duration) -> (actions: Vec<RunAction>)
        requires
            old(wf).wf(),
            dag.wf(),
            old(self).within(old(wf).parallel_limit()),
            graph_of(*dag, old(wf).tasks()),
        ensures
            forall|i: int| 0 <= i < actions@.len() ==> spawned_as_given(#[trigger] actions@[i], old(wf).tasks(), old(self).setup_launch()),
            graph_of(*dag, final(wf).tasks()),
            skip_free(old(wf).tasks(), old(state).status_map()) ==> skip_free(final(wf).tasks(), final(state).status_map()),
            forall|x: Seq<char>| final(self).launching() == Some(x) && old(self).launching() != Some(x) ==> {
                &&& lookup(old(state).status_map(), x) == Some(TaskStatus::Pending)
                &&& skip_free(old(wf).tasks(), old(state).status_map()) ==> deps_completed(old(wf).tasks(), final(state).status_map(), x)
            },
            actions@.len() > 0 && actions@.last() is Sleep ==> !(all_final(*dag, final(state).status_map()) && final(self).under_way() == 0),
            final(self).queue() == old(self).queue(),
            final(wf).wf(),
            final(wf).parallel_limit() == old(wf).parallel_limit(),
            final(self).within(final(wf).parallel_limit()),
            final(self).running_ids() == old(self).running_ids(),
            forall|x: Seq<char>| final(self).launching() == Some(x) && old(self).launching() != Some(x) ==> ready_in(*dag, final(state).status_map(), x) && final(state).status_map()[x] == TaskStatus::Running,
            starts_only(actions@, final(self).launching()),
            finishes_when_done(actions@, *dag, final(state).status_map(), elapsed, final(self).under_way()),
            old(self).launching() is None ==> {
                &&& exists|m1: Map<Seq<char>, TaskStatus>| skips_spread(old(wf).tasks(), old(state).status_map(), m1)
                    && (final(state).status_map() == m1 || exists|x: Seq<char>| lookup(m1, x) == Some(TaskStatus::Pending) && final(state).status_map() == m1.insert(x, TaskStatus::Running))
                &&& skip_free(final(wf).tasks(), final(state).status_map())
                &&& forall|x: Seq<char>| final(self).launching() == Some(x) ==> deps_completed(old(wf).tasks(), final(state).status_map(), x)
                &&& actions@.len() > 0
                &&& actions@.last() is Sleep ==> final(self).running_ids().len() >= final(wf).parallel_limit() || none_startable(*dag, final(wf).tasks(), final(state).status_map(), 0)
            },
    {
        let mut actions: Vec<RunAction> = Vec::new();
        if self.in_setup.is_some() || self.spawning.is_some() {
            return actions;
        }
        let ghost m0 = state.status_map();
        wf.propagate_skips(state);
        let ghost m1 = state.status_map();
        proof {
            let ts = wf.tasks();
            assert forall|i: int| 0 <= i < ts.len() && lookup(m1, #[trigger] ts[i].id@) == Some(TaskStatus::Pending) implies !crate::workflow::has_blocked_dep(m1, views(ts[i].dependencies@)) by {
                assert(crate::workflow::task_ids(ts)[i] == ts[i].id@);
                assert(wf.deps_at(i) == views(ts[i].dependencies@));
            }
            assert forall|k: Seq<char>| #[trigger] m0.contains_key(k) && m1[k] != m0[k] implies exists|i: int| 0 <= i < ts.len() && ts[i].id@ == k && crate::workflow::has_blocked_dep(m1, #[trigger] views(ts[i].dependencies@)) by {
                let i = choose|i: int| 0 <= i < ts.len() && crate::workflow::task_ids(ts)[i] == k && crate::workflow::has_blocked_dep(m1, #[trigger] wf.deps_at(i));
                assert(crate::workflow::task_ids(ts)[i] == ts[i].id@);
            }
            assert(skips_spread(ts, m0, m1));
            lemma_spread_skip_free(ts, m0, m1);
        }
        push_action(&mut actions, RunAction::Save);
        self.next = 0;
        self.advance(wf, dag, state, elapsed, &mut actions);
        proof {
            assert forall|x: Seq<char>| self.launching() == Some(x) implies lookup(m0, x) == Some(TaskStatus::Pending) by {
                assert(lookup(m1, x) == Some(TaskStatus::Pending));
            }
        }
        actions
    }

    /// The setup action of the task being started ran: on failure the task
    /// fails, the state is saved and the round goes on; otherwise the task
    /// is launched.
    fn on_setup_done<S: StateStore>(&mut self, wf: &mut Workflow, dag: &Dag, state: &mut S, elapsed: std::time::Duration, result: Result<(), String>) -> (actions: Vec<RunAction>)
        requires
            old(wf).wf(),
            dag.wf(),
            old(self).within(old(wf).parallel_limit()),
            graph_of(*dag, old(wf).tasks()),
        ensures
            forall|i: int| 0 <= i < actions@.len() ==> spawned_as_given(#[trigger] actions@[i], old(wf).tasks(), old(self).setup_launch()),
            graph_of(*dag, final(wf).tasks()),
            skip_free(old(wf).tasks(), old(state).status_map()) ==> skip_free(final(wf).tasks(), final(state).status_map()),
            forall|x: Seq<char>| final(self).launching() == Some(x) && old(self).launching() != Some(x) ==> {
                &&& lookup(old(state).status_map(), x) == Some(TaskStatus::Pending)
                &&& skip_free(old(wf).tasks(), old(state).status_map()) ==> deps_completed(old(wf).tasks(), final(state).status_map(), x)
            },
            actions@.len() > 0 && actions@.last() is Sleep ==> !(all_final(*dag, final(state).status_map()) && final(self).under_way() == 0),
            final(self).queue() == old(self).queue(),
            final(wf).wf(),
            final(wf).parallel_limit() == old(wf).parallel_limit(),
            final(self).within(final(wf).parallel_limit()),
            final(self).running_ids() == old(self).running_ids(),
            forall|x: Seq<char>| final(self).launching() == Some(x) && old(self).launching() != Some(x) ==> ready_in(*dag, final(state).status_map(), x) && final(state).status_map()[x] == TaskStatus::Running,
            starts_only(actions@, final(self).launching()),
            finishes_when_done(actions@, *dag, final(state).status_map(), elapsed, final(self).under_way()),
            old(self).in_setup_id() is None ==> actions@.len() == 0 && final(state).status_map() == old(state).status_map(),
            forall|x: Seq<char>, e: String| old(self).in_setup_id() == Some(x) && result == Err::<(), String>(e) ==> {
                &&& final(state).status_map().contains_key(x)
                &&& final(state).status_map()[x] == TaskStatus::Failed { error: e }
                &&& actions@.len() >= 1
                &&& actions@[0] is Save
            },
            forall|x: Seq<char>| old(self).in_setup_id() == Some(x) && result is Ok ==> final(state).status_map() == old(state).status_map() && actions@.len() == 1 && (final(self).spawning_id() == Some(x) || actions@[0] is Finish),
            actions@.len() > 0 && actions@.last() is Sleep ==> final(self).running_ids().len() >= final(wf).parallel_limit() || none_startable(*dag, final(wf).tasks(), final(state).status_map(), old(self).offered() as int),
    {
        let mut actions: Vec<RunAction> = Vec::new();
        let taken = self.in_setup.take();
        match taken {
            None => {},
            Some(l) => {
                match result {
                    Err(e) => {
                        let ghost x = l.id@;
                        let ghost ee = e;
                        state.mark_failed(l.id.as_str(), e);
                        let ghost m1 = state.status_map();
                        push_action(&mut actions, RunAction::Save);
                        self.advance(wf, dag, state, elapsed, &mut actions);
                        proof {
                            assert(m1[x] == TaskStatus::Failed { error: ee });
                            if state.status_map() != m1 {
                                let y = choose|y: Seq<char>| lookup(m1, y) == Some(TaskStatus::Pending) && state.status_map() == m1.insert(y, TaskStatus::Running);
                                assert(y != x);
                            }
                            if skip_free(old(wf).tasks(), old(state).status_map()) {
                                lemma_skip_free_insert(old(wf).tasks(), old(state).status_map(), x, TaskStatus::Failed { error: ee });
                            }
                            assert forall|y: Seq<char>| self.launching() == Some(y) implies lookup(old(state).status_map(), y) == Some(TaskStatus::Pending) by {
                                assert(lookup(m1, y) == Some(TaskStatus::Pending));
                                assert(y != x);
                            }
                        }
                    },
                    Ok(()) => {
                        self.launch(l, &mut actions);
                    },
                }
            },
        }
        actions
    }

    /// The process of the task being started was spawned: it is watched
    /// from now on, its start hooks fire and the round goes on.
    fn on_spawned<S: StateStore>(&mut self, wf: &mut Workflow, dag: &Dag, state: &mut S, elapsed: std::time::Duration) -> (actions: Vec<RunAction>)
        requires
            old(wf).wf(),
            dag.wf(),
            old(self).within(old(wf).parallel_limit()),
            graph_of(*dag, old(wf).tasks()),
        ensures
            forall|i: int| 0 <= i < actions@.len() ==> spawned_as_given(#[trigger] actions@[i], old(wf).tasks(), old(self).setup_launch()),
            graph_of(*dag, final(wf).tasks()),
            skip_free(old(wf).tasks(), old(state).status_map()) ==> skip_free(final(wf).tasks(), final(state).status_map()),
            forall|x: Seq<char>| final(self).launching() == Some(x) && old(self).launching() != Some(x) ==> {
                &&& lookup(old(state).status_map(), x) == Some(TaskStatus::Pending)
                &&& skip_free(old(wf).tasks(), old(state).status_map()) ==> deps_completed(old(wf).tasks(), final(state).status_map(), x)
            },
            actions@.len() > 0 && actions@.last() is Sleep ==> !(all_final(*dag, final(state).status_map()) && final(self).under_way() == 0),
            final(self).queue() == old(self).queue(),
            final(wf).wf(),
            final(wf).parallel_limit() == old(wf).parallel_limit(),
            final(self).within(final(wf).parallel_limit()),
            forall|x: Seq<char>| final(self).launching() == Some(x) && old(self).launching() != Some(x) ==> ready_in(*dag, final(state).status_map(), x) && final(state).status_map()[x] == TaskStatus::Running,
            starts_only(actions@, final(self).launching()),
            finishes_when_done(actions@, *dag, final(state).status_map(), elapsed, final(self).under_way()),
            old(self).spawning_id() is None ==> actions@.len() == 0 && final(self).running_ids() == old(self).running_ids(),
            forall|x: Seq<char>| old(self).spawning_id() == Some(x) ==> final(self).running_ids() == old(self).running_ids().push(x),
            actions@.len() > 0 && actions@.last() is Sleep ==> final(self).running_ids().len() >= final(wf).parallel_limit() || none_startable(*dag, final(wf).tasks(), final(state).status_map(), old(self).offered() as int),
    {
        let mut actions: Vec<RunAction> = Vec::new();
        let taken = self.spawning.take();
        match taken {
            None => {},
            Some(w) => {
                let hooks = select_hooks(&w.monitors, true, false);
                if hooks.len() > 0 {
                    let context = start_context(w.id.as_str(), w.workdir.clone());
                    push_action(&mut actions, RunAction::FireHooks { hooks, context });
                }
                let ghost before = self.running_ids();
                self.watched.push(w);
                proof {
                    assert(self.running_ids() =~= before.push(w.id@));
                }
                self.advance(wf, dag, state, elapsed, &mut actions);
            },
        }
        actions
    }
}

impl RunState {
    /// Takes one step of the run: decides, from what happened, what the
    /// caller does next. `dag` is the graph that `build_dag` built for the
    /// workflow. Across the steps of a run no more tasks are under way than
    /// the workflow's parallelism limit allows; only a pending task starts;
    /// a dispatch first spreads skips from failed and skipped tasks, then
    /// starts a pending task whose dependencies all completed whenever there
    /// is one and room for it, and ends the run exactly when every task has
    /// a final status and none is under way. From a dispatch on, no pending
    /// task has a skipped dependency, so every task started later in the run
    /// also has its dependencies completed.
    pub fn step<S: StateStore>(&mut self, wf: &mut Workflow, dag: &Dag, state: &mut S, event: RunEvent, elapsed: std::time::Duration) -> (actions: Vec<RunAction>)
        requires
            old(wf).wf(),
            dag.wf(),
            old(self).within(old(wf).parallel_limit()),
            graph_of(*dag, old(wf).tasks()),
        ensures
            forall|i: int| 0 <= i < actions@.len() ==> spawned_as_given(#[trigger] actions@[i], old(wf).tasks(), old(self).setup_launch()),
            graph_of(*dag, final(wf).tasks()),
            !(event matches RunEvent::Round { interrupted: true }) ==> (skip_free(old(wf).tasks(), old(state).status_map()) ==> skip_free(final(wf).tasks(), final(state).status_map())),
            forall|x: Seq<char>| final(self).launching() == Some(x) && old(self).launching() != Some(x) ==> {
                &&& lookup(old(state).status_map(), x) == Some(TaskStatus::Pending)
                &&& skip_free(old(wf).tasks(), old(state).status_map()) ==> deps_completed(old(wf).tasks(), final(state).status_map(), x)
            },
            actions@.len() > 0 && actions@.last() is Sleep ==> !(all_final(*dag, final(state).status_map()) && final(self).under_way() == 0),
            final(self).queue() == old(self).queue(),
            final(wf).wf(),
            final(wf).parallel_limit() == old(wf).parallel_limit(),
            final(self).within(final(wf).parallel_limit()),
            forall|x: Seq<char>| final(self).launching() == Some(x) && old(self).launching() != Some(x) ==> ready_in(*dag, final(state).status_map(), x) && final(state).status_map()[x] == TaskStatus::Running,
            starts_only(actions@, final(self).launching()),
            finishes_when_done(actions@, *dag, final(state).status_map(), elapsed, final(self).under_way()),
            match event {
                RunEvent::Round { interrupted } => if interrupted {
                    &&& final(self).running_ids().len() == 0
                    &&& actions@.len() == old(self).running_ids().len() + 2
                    &&& forall|i: int| 0 <= i < old(self).running_ids().len() ==> (#[trigger] actions@[i] matches RunAction::Terminate(x) && x@ == old(self).running_ids()[i])
                    &&& actions@[actions@.len() - 2] is Save
                    &&& actions@[actions@.len() - 1] matches RunAction::Finish(Err(WorkflowError::Interrupted))
                    &&& final(state).status_map().dom() == old(state).status_map().dom().union(old(self).running_ids().to_set())
                    &&& forall|k: Seq<char>| #[trigger] final(state).status_map().contains_key(k) ==> final(state).status_map()[k] == (if old(self).running_ids().contains(k) { TaskStatus::Pending } else { old(state).status_map()[k] })
                } else {
                    &&& final(state).status_map() == old(state).status_map()
                    &&& final(self).running_ids() == old(self).running_ids()
                    &&& actions@.len() == old(self).running_ids().len()
                    &&& forall|i: int| 0 <= i < actions@.len() ==> (#[trigger] actions@[i] matches RunAction::Check(x) && x@ == old(self).running_ids()[i])
                },
                RunEvent::Checked { id, elapsed: ran, alive } => {
                    &&& !old(self).running_ids().contains(id@) ==> actions@.len() == 0 && final(state).status_map() == old(state).status_map()
                    &&& forall|i: int| #[trigger] first_at(old(self).running_ids(), id@, i) ==> if expired(old(self).timeout_at(i), ran) {
                        &&& final(self).running_ids() == old(self).running_ids().remove(i)
                        &&& exists|msg: String| msg@ == timeout_text(id@) && final(state).status_map() == old(state).status_map().insert(id@, TaskStatus::Failed { error: msg })
                        &&& actions@.len() == 2
                        &&& actions@[0] matches RunAction::Terminate(x) && x@ == id@
                        &&& actions@[1] is Save
                    } else if !alive {
                        &&& actions@.len() == 1
                        &&& actions@[0] matches RunAction::Wait(x) && x@ == id@
                        &&& final(state).status_map() == old(state).status_map()
                    } else {
                        &&& actions@.len() == 0
                        &&& final(state).status_map() == old(state).status_map()
                    }
                },
                RunEvent::Waited { id, waited } => {
                    &&& !old(self).running_ids().contains(id@) ==> actions@.len() == 0 && final(state).status_map() == old(state).status_map()
                    &&& forall|i: int| #[trigger] first_at(old(self).running_ids(), id@, i) ==> {
                        &&& final(self).running_ids() == old(self).running_ids().remove(i)
                        &&& exists|st: TaskStatus| is_finish_status(st, waited) && final(state).status_map() == old(state).status_map().insert(id@, st)
                        &&& actions@.len() >= 1
                        &&& actions@.last() is Save
                        &&& waited == Some(Some(0i32)) && old(self).collects_at(i) ==> (actions@[0] matches RunAction::Collect { id: x, workdir: w, .. } && x@ == id@ && w == old(self).workdir_at(i))
                        &&& forall|j: int| 0 <= j < actions@.len() && (#[trigger] actions@[j] is Collect) ==> waited == Some(Some(0i32)) && old(self).collects_at(i)
                    }
                },
                RunEvent::Dispatch => {
                    &&& final(self).running_ids() == old(self).running_ids()
                    &&& old(self).launching() is None ==> {
                        &&& exists|m1: Map<Seq<char>, TaskStatus>| skips_spread(old(wf).tasks(), old(state).status_map(), m1)
                            && (final(state).status_map() == m1 || exists|x: Seq<char>| lookup(m1, x) == Some(TaskStatus::Pending) && final(state).status_map() == m1.insert(x, TaskStatus::Running))
                        &&& skip_free(final(wf).tasks(), final(state).status_map())
                        &&& forall|x: Seq<char>| final(self).launching() == Some(x) ==> deps_completed(old(wf).tasks(), final(state).status_map(), x)
                        &&& actions@.len() > 0
                        &&& actions@.last() is Sleep ==> final(self).running_ids().len() >= final(wf).parallel_limit() || none_startable(*dag, final(wf).tasks(), final(state).status_map(), 0)
                    }
                },
                RunEvent::SetupDone(result) => {
                    &&& final(self).running_ids() == old(self).running_ids()
                    &&& actions@.len() > 0 && actions@.last() is Sleep ==> final(self).running_ids().len() >= final(wf).parallel_limit() || none_startable(*dag, final(wf).tasks(), final(state).status_map(), old(self).offered() as int)
                    &&& forall|x: Seq<char>, e: String| old(self).in_setup_id() == Some(x) && result == Err::<(), String>(e) ==> {
                        &&& final(state).status_map().contains_key(x)
                        &&& final(state).status_map()[x] == TaskStatus::Failed { error: e }
                        &&& actions@.len() >= 1
                        &&& actions@[0] is Save
                    }
                },
                RunEvent::Spawned => {
                    &&& forall|x: Seq<char>| old(self).spawning_id() == Some(x) ==> final(self).running_ids() == old(self).running_ids().push(x)
                    &&& actions@.len() > 0 && actions@.last() is Sleep ==> final(self).running_ids().len() >= final(wf).parallel_limit() || none_startable(*dag, final(wf).tasks(), final(state).status_map(), old(self).offered() as int)
                },
            },
    {
        match event {
            RunEvent::Round { interrupted } => {
                let actions = self.on_round(state, interrupted);
                proof {
                    if actions@.len() > 0 {
                        assert(!(actions@[actions@.len() - 1] is Sleep));
                    }
                }
                actions
            },
            RunEvent::Checked { id, elapsed: ran, alive } => {
                let actions = self.on_checked(state, &id, ran, alive);
                proof {
                    if actions@.len() > 0 {
                        assert(!(actions@[actions@.len() - 1] is Sleep));
                    }
                }
                actions
            },
            RunEvent::Waited { id, waited } => {
                let actions = self.on_waited(state, &id, waited);
                proof {
                    if actions@.len() > 0 {
                        assert(!(actions@[actions@.len() - 1] is Sleep));
                    }
                }
                actions
            },
            RunEvent::Dispatch => self.on_dispatch(wf, dag, state, elapsed),
            RunEvent::SetupDone(result) => self.on_setup_done(wf, dag, state, elapsed, result),
            RunEvent::Spawned => self.on_spawned(wf, dag, state, elapsed),
        }
    }
}

} // verus!
