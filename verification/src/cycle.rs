//! The scheduling cycle as a state machine: the caller reports what
//! happened (a cycle begins or the run is stopped, what a submission gave,
//! what the polls answered) and carries out the actions it gets back.
use crate::executor::{JobHandle, JobStatus};
use crate::scheduler::{
    active_count, can_submit, is_active, is_final, lemma_active_count_bound, over_time_ids, polled_state, promoted,
    set_state_in, skipped, with_state, ExecutorLoad, Scheduler, TaskRecord, TaskState,
};
use crate::schema::{ConcreteTask, ExecutorDef};
use crate::text::views;
use vstd::prelude::*;

verus! {

/// What submitting the offered task gave.
pub enum SubmitOutcome {
    /// The backend accepted the job, with this handle.
    Accepted(JobHandle),
    /// The backend refused it.
    Refused,
    /// No executor could be built for the task.
    NoExecutor,
}

/// What happened since the last step.
pub enum SchedEvent {
    /// A cycle begins, or, with `cancelled`, the run is stopped.
    Cycle { cancelled: bool },
    /// Submitting the offered task gave this.
    Submitted(SubmitOutcome),
    /// The polls answered these statuses; a poll that failed is left out.
    Polled(Vec<(String, JobStatus)>),
}

/// What the caller does next, in order.
pub enum SchedAction {
    /// Submit the pipeline task at this position and report (`SchedEvent::Submitted`).
    Submit(usize),
    /// Poll these jobs and report (`SchedEvent::Polled`).
    Poll(Vec<(String, JobHandle)>),
    /// Forget the task's executor, cancelling the job first when there is a handle.
    Cancel { id: String, handle: Option<JobHandle> },
    /// Write every record to the state database.
    Persist,
    /// Wait a little (or until the run is stopped), then begin a new cycle.
    Sleep,
    /// The run is over.
    Finish,
}

/// Where a cycle stands: the active or accepted tasks per executor, the
/// next task to offer, the task offered, and the tasks accepted so far.
pub struct Round {
    load: ExecutorLoad,
    next: usize,
    offered: Option<usize>,
    accepted: Vec<(usize, JobHandle)>,
    submitting: bool,
}

impl Round {
    /// The nodes accepted for submission in the current cycle.
    pub closed spec fn accepted_nodes(&self) -> Seq<int> {
        self.accepted@.map_values(|p: (usize, JobHandle)| p.0 as int)
    }

    /// Whether a cycle's submissions go on.
    pub closed spec fn submitting(&self) -> bool {
        self.submitting
    }

    /// The tasks accepted in the current cycle, with their handles, in the
    /// order they were accepted.
    pub closed spec fn accepted(&self) -> Seq<(int, JobHandle)> {
        self.accepted@.map_values(|p: (usize, JobHandle)| (p.0 as int, p.1))
    }

    /// The task last offered for submission, if its outcome is awaited.
    pub closed spec fn offered(&self) -> Option<int> {
        match self.offered {
            Some(i) => Some(i as int),
            None => None,
        }
    }

    /// No cycle under way.
    pub fn new() -> (r: Round)
        ensures
            !r.submitting(),
            forall|s: Scheduler| #[trigger] s.round_ok(&r),
    {
        Round { load: ExecutorLoad::new(), next: 0, offered: None, accepted: Vec::new(), submitting: false }
    }
}

/// The action `a`, when it submits, submits a task that is ready and that
/// its executor's parallelism admits: fewer of the executor's tasks than it
/// allows are active or accepted in this cycle.
pub open spec fn submit_admitted(s: Scheduler, round: Round, a: SchedAction) -> bool {
    a matches SchedAction::Submit(i) ==> {
        &&& i < s.tasks().len()
        &&& s.table().contains_key(s.tasks()[i as int].id@)
        &&& s.table()[s.tasks()[i as int].id@].state == TaskState::Ready
        &&& s.tasks()[i as int].executor_def matches ExecutorDef::Local { parallelism }
            ==> active_count(s.tasks(), s.table(), s.tasks()[i as int].executor@, s.tasks().len() as int)
                + node_count(s.tasks(), round.accepted_nodes(), s.tasks()[i as int].executor@) < parallelism
    }
}

/// The records after the accepted tasks `acc` are recorded, in order, as
/// submitted at `now` with their handles.
pub open spec fn record_all(m: Map<Seq<char>, TaskRecord>, tasks: Seq<ConcreteTask>, acc: Seq<(int, JobHandle)>, now: u64) -> Map<Seq<char>, TaskRecord>
    decreases acc.len(),
{
    if acc.len() == 0 {
        m
    } else {
        let prev = record_all(m, tasks, acc.drop_last(), now);
        let i = acc.last().0;
        if 0 <= i < tasks.len() && prev.contains_key(tasks[i].id@) {
            prev.insert(tasks[i].id@, TaskRecord { id: prev[tasks[i].id@].id, state: TaskState::Submitted, handle: Some(acc.last().1), submitted_at: Some(now) })
        } else {
            prev
        }
    }
}

/// What a submission outcome does, for the task `i` offered: a refusal
/// fails it with code -1, an acceptance adds it with its handle to the
/// cycle's accepted tasks; then the next task is offered, or, when none is
/// left, the accepted tasks are recorded as submitted at `now`.
pub open spec fn submission_recorded(before: Scheduler, round: Round, outcome: SubmitOutcome, now: u64, after: Scheduler, round_after: Round, actions: Seq<SchedAction>) -> bool {
    let i = round.offered().unwrap();
    let m1 = match outcome {
        SubmitOutcome::Refused => set_state_in(before.table(), before.tasks()[i].id@, TaskState::Failed(-1i32)),
        _ => before.table(),
    };
    let acc = match outcome {
        SubmitOutcome::Accepted(h) => round.accepted().push((i, h)),
        _ => round.accepted(),
    };
    &&& actions.len() == 1
    &&& actions[0] is Submit ==> after.table() == m1 && round_after.accepted() == acc
    &&& actions[0] is Poll ==> after.table() == record_all(m1, before.tasks(), acc, now) && round_after.accepted().len() == 0
}

/// The records after the poll answers `st` are recorded, in order.
pub open spec fn apply_polls(m: Map<Seq<char>, TaskRecord>, st: Seq<(String, JobStatus)>) -> Map<Seq<char>, TaskRecord>
    decreases st.len(),
{
    if st.len() == 0 {
        m
    } else {
        set_state_in(apply_polls(m, st.drop_last()), st.last().0@, polled_state(st.last().1))
    }
}

/// The records after the tasks `ids` are marked timed out, in order.
pub open spec fn mark_late(m: Map<Seq<char>, TaskRecord>, ids: Seq<Seq<char>>) -> Map<Seq<char>, TaskRecord>
    decreases ids.len(),
{
    if ids.len() == 0 {
        m
    } else {
        set_state_in(mark_late(m, ids.drop_last()), ids.last(), TaskState::TimedOut)
    }
}

/// What recording poll answers `st` at `now` does to the records `m`: the
/// answers are recorded, each active task past its wall-time limit times
/// out and is to be cancelled (one `Cancel` each, in node order, with its
/// handle), and the dependents of failed tasks are skipped.
pub open spec fn polls_recorded(m: Map<Seq<char>, TaskRecord>, tasks: Seq<ConcreteTask>, st: Seq<(String, JobStatus)>, now: u64, after: Map<Seq<char>, TaskRecord>, actions: Seq<SchedAction>) -> bool {
    let mp = apply_polls(m, st);
    let late = over_time_ids(tasks, mp, now, tasks.len() as int);
    &&& after == skipped(mark_late(mp, late), tasks)
    &&& actions.len() == late.len() + 2
    &&& forall|j: int| 0 <= j < late.len() ==> (#[trigger] actions[j] matches SchedAction::Cancel { id, handle } && id@ == late[j] && handle == handle_in(mp, late[j]))
}

/// The handle recorded for `id`, if any.
pub open spec fn handle_in(m: Map<Seq<char>, TaskRecord>, id: Seq<char>) -> Option<JobHandle> {
    if m.contains_key(id) { m[id].handle } else { None }
}

/// Marking tasks timed out keeps every handle.
proof fn lemma_mark_late_handle(m: Map<Seq<char>, TaskRecord>, ids: Seq<Seq<char>>, id: Seq<char>)
    ensures
        handle_in(mark_late(m, ids), id) == handle_in(m, id),
        mark_late(m, ids).dom() == m.dom(),
    decreases ids.len(),
{
    if ids.len() > 0 {
        lemma_mark_late_handle(m, ids.drop_last(), id);
    }
}

/// How many of the nodes `nodes` run under executor `e`.
pub open spec fn node_count(tasks: Seq<ConcreteTask>, nodes: Seq<int>, e: Seq<char>) -> nat
    decreases nodes.len(),
{
    if nodes.len() == 0 {
        0
    } else {
        node_count(tasks, nodes.drop_last(), e) + if tasks[nodes.last()].executor@ == e { 1nat } else { 0nat }
    }
}

/// `a`, at most `usize::MAX`.
pub open spec fn capped(a: nat) -> nat {
    if a <= usize::MAX { a } else { usize::MAX as nat }
}

/// Giving a task a state that is not active raises no executor's active count.
proof fn lemma_active_count_drop(tasks: Seq<ConcreteTask>, m: Map<Seq<char>, TaskRecord>, id: Seq<char>, st: TaskState, e: Seq<char>, n: int)
    requires
        !is_active(st),
    ensures
        active_count(tasks, set_state_in(m, id, st), e, n) <= active_count(tasks, m, e, n),
    decreases n,
{
    if n > 0 {
        lemma_active_count_drop(tasks, m, id, st, e, n - 1);
    }
}

/// The count of the nodes with one more node.
proof fn lemma_node_count_push(tasks: Seq<ConcreteTask>, nodes: Seq<int>, x: int, e: Seq<char>)
    ensures
        node_count(tasks, nodes.push(x), e) == node_count(tasks, nodes, e) + if tasks[x].executor@ == e { 1nat } else { 0nat },
{
    assert(nodes.push(x).drop_last() =~= nodes);
}

impl Scheduler {
    /// While a cycle's submissions go on, the count per executor that they
    /// go by is at least the number of its active tasks and of its tasks
    /// accepted in this cycle.
    pub closed spec fn round_ok(&self, round: &Round) -> bool {
        round.submitting ==> {
            &&& forall|e: Seq<char>| capped(active_count(self.tasks(), self.table(), e, self.tasks().len() as int) + node_count(self.tasks(), round.accepted_nodes(), e)) <= #[trigger] round.load.count_of(e)
            &&& forall|j: int| 0 <= j < round.accepted_nodes().len() ==> 0 <= #[trigger] round.accepted_nodes()[j] < self.tasks().len()
            &&& round.offered matches Some(i) ==> i < self.tasks().len()
        }
    }

    /// Offers the cycle's remaining tasks, in node order: the first that is
    /// ready and that its executor's parallelism admits is to be submitted;
    /// when none is left, the accepted tasks are recorded as submitted at
    /// `now` and the active jobs are to be polled.
    fn offer(&mut self, round: &mut Round, now: u64) -> (actions: Vec<SchedAction>)
        requires
            old(self).round_ok(old(round)),
            old(round).submitting,
        ensures
            final(self).tasks() == old(self).tasks(),
            final(self).round_ok(final(round)),
            actions@.len() == 1,
            submit_admitted(*final(self), *final(round), actions@[0]),
            actions@[0] is Submit ==> final(self).table() == old(self).table() && final(round).accepted() == old(round).accepted() && final(round).submitting(),
            actions@[0] matches SchedAction::Submit(i) ==> final(round).offered() == Some(i as int),
            actions@[0] is Poll ==> final(self).table() == record_all(old(self).table(), old(self).tasks(), old(round).accepted(), now) && final(round).accepted().len() == 0 && !final(round).submitting(),
            actions@[0] is Submit || actions@[0] is Poll,
    {
        let n = self.pipeline().len();
        while round.next < n
            invariant
                self.round_ok(round),
                round.submitting,
                self.tasks() == old(self).tasks(),
                self.table() == old(self).table(),
                round.accepted == old(round).accepted,
                n == self.tasks().len(),
            decreases n - round.next,
        {
            let ghost r0 = *round;
            let i = round.next;
            round.next = round.next + 1;
            let task = self.pipeline().task(i);
            let ready = match self.state_of(task.id.as_str()) {
                Some(TaskState::Ready) => true,
                _ => false,
            };
            proof {
                assert(round.accepted_nodes() == r0.accepted_nodes());
            }
            if ready && can_submit(task, &round.load) {
                round.offered = Some(i);
                let mut actions: Vec<SchedAction> = Vec::new();
                actions.push(SchedAction::Submit(i));
                proof {
                    let e = task.executor@;
                    lemma_active_count_bound(self.tasks(), self.table(), e, n as int);
                    assert(round.accepted_nodes() == r0.accepted_nodes());
                    assert(round.load == r0.load);
                }
                return actions;
            }
        }
        round.submitting = false;
        round.offered = None;
        let ghost acc = round.accepted();
        let ghost m0 = self.table();
        proof {
            assert(acc == old(round).accepted());
        }
        let mut k: usize = 0;
        while k < round.accepted.len()
            invariant
                self.tasks() == old(self).tasks(),
                n == self.tasks().len(),
                !round.submitting,
                acc == round.accepted(),
                acc.len() == round.accepted@.len(),
                k <= acc.len(),
                self.table() == record_all(m0, self.tasks(), acc.take(k as int), now),
            decreases round.accepted@.len() - k,
        {
            let i = round.accepted[k].0;
            proof {
                assert(acc.take(k as int + 1).drop_last() =~= acc.take(k as int));
                assert(acc.take(k as int + 1).last() == acc[k as int]);
                assert(acc[k as int] == (round.accepted@[k as int].0 as int, round.accepted@[k as int].1));
            }
            if i < n {
                let id = self.pipeline().task(i).id.clone();
                let handle = JobHandle { raw: round.accepted[k].1.raw.clone() };
                self.record_submitted(id.as_str(), handle, now);
            }
            k = k + 1;
        }
        proof {
            assert(acc.take(acc.len() as int) =~= acc);
        }
        round.accepted = Vec::new();
        proof {
            assert(round.accepted() =~= Seq::<(int, JobHandle)>::empty());
        }
        let mut actions: Vec<SchedAction> = Vec::new();
        actions.push(SchedAction::Poll(self.active_jobs()));
        actions
    }
}

impl Scheduler {
    /// The submission offered last was made, refused, or found no executor.
    fn on_submitted(&mut self, round: &mut Round, outcome: SubmitOutcome, now: u64) -> (actions: Vec<SchedAction>)
        requires
            old(self).round_ok(old(round)),
        ensures
            final(self).tasks() == old(self).tasks(),
            final(self).round_ok(final(round)),
            actions@.len() <= 1,
            forall|j: int| 0 <= j < actions@.len() ==> (#[trigger] actions@[j] is Submit || actions@[j] is Poll),
            actions@.len() == 1 && actions@[0] is Submit ==> submit_admitted(*final(self), *final(round), actions@[0]),
            forall|i: int| old(round).submitting() && old(round).offered() == Some(i) ==> submission_recorded(*old(self), *old(round), outcome, now, *final(self), *final(round), actions@),
    {
        if !round.submitting {
            return Vec::new();
        }
        let i = match round.offered {
            Some(i) => i,
            None => return Vec::new(),
        };
        round.offered = None;
        let task = self.pipeline().task(i);
        let ghost e0 = task.executor@;
        match outcome {
            SubmitOutcome::Accepted(h) => {
                let ghost r0 = *round;
                round.accepted.push((i, h));
                round.load.add(task.executor.as_str());
                proof {
                    assert(round.accepted() =~= r0.accepted().push((i as int, h)));
                    assert(round.accepted_nodes() =~= r0.accepted_nodes().push(i as int));
                    assert forall|e: Seq<char>| capped(active_count(self.tasks(), self.table(), e, self.tasks().len() as int) + node_count(self.tasks(), round.accepted_nodes(), e)) <= #[trigger] round.load.count_of(e) by {
                        lemma_node_count_push(self.tasks(), r0.accepted_nodes(), i as int, e);
                        assert(r0.load.count_of(e) >= capped(active_count(self.tasks(), self.table(), e, self.tasks().len() as int) + node_count(self.tasks(), r0.accepted_nodes(), e)));
                    }
                    assert forall|j: int| 0 <= j < round.accepted_nodes().len() implies 0 <= #[trigger] round.accepted_nodes()[j] < self.tasks().len() by {
                        if j < r0.accepted_nodes().len() {
                            assert(round.accepted_nodes()[j] == r0.accepted_nodes()[j]);
                        }
                    }
                }
            },
            SubmitOutcome::Refused => {
                let id = task.id.clone();
                let ghost m0 = self.table();
                self.record_submit_failed(id.as_str());
                proof {
                    assert forall|e: Seq<char>| capped(active_count(self.tasks(), self.table(), e, self.tasks().len() as int) + node_count(self.tasks(), round.accepted_nodes(), e)) <= #[trigger] round.load.count_of(e) by {
                        lemma_active_count_drop(self.tasks(), m0, id@, TaskState::Failed(-1i32), e, self.tasks().len() as int);
                    }
                }
            },
            SubmitOutcome::NoExecutor => {},
        }
        self.offer(round, now)
    }
}

/// The records after a stop: each active task with a handle is cancelled
/// and fails with code -1; the others stay as they were.
pub open spec fn cancelled_table(m: Map<Seq<char>, TaskRecord>) -> Map<Seq<char>, TaskRecord> {
    Map::new(
        |k: Seq<char>| m.contains_key(k),
        |k: Seq<char>| if is_active(m[k].state) && m[k].handle is Some { with_state(m[k], TaskState::Failed(-1i32)) } else { m[k] },
    )
}

impl Scheduler {
    /// The run is stopped: every active job is to be cancelled and fails,
    /// the records are written and the run ends.
    fn on_cancel(&mut self, round: &mut Round) -> (actions: Vec<SchedAction>)
        ensures
            final(self).tasks() == old(self).tasks(),
            final(self).round_ok(final(round)),
            final(self).table() == cancelled_table(old(self).table()),
            actions@.len() >= 2,
            actions@[actions@.len() - 2] is Persist,
            actions@[actions@.len() - 1] is Finish,
            forall|j: int| 0 <= j < actions@.len() - 2 ==> (#[trigger] actions@[j] matches SchedAction::Cancel { id, handle } && handle is Some
                && old(self).table().contains_key(id@) && is_active(old(self).table()[id@].state) && old(self).table()[id@].handle == handle),
            forall|k: Seq<char>| #[trigger] old(self).table().contains_key(k) && is_active(old(self).table()[k].state) && old(self).table()[k].handle is Some
                ==> exists|j: int| 0 <= j < actions@.len() - 2 && (#[trigger] actions@[j] matches SchedAction::Cancel { id, .. } && id@ == k),
    {
        round.submitting = false;
        let ghost m0 = self.table();
        let jobs = self.active_jobs();
        let ghost ids = jobs@.map_values(|p: (String, JobHandle)| p.0@);
        let mut actions: Vec<SchedAction> = Vec::new();
        let mut j: usize = 0;
        while j < jobs.len()
            invariant
                j <= jobs@.len(),
                self.tasks() == old(self).tasks(),
                m0 == old(self).table(),
                ids == jobs@.map_values(|p: (String, JobHandle)| p.0@),
                ids.no_duplicates(),
                forall|a: int| 0 <= a < jobs@.len() ==> m0.contains_key(#[trigger] jobs@[a].0@) && is_active(m0[jobs@[a].0@].state) && m0[jobs@[a].0@].handle == Some(jobs@[a].1),
                self.table().dom() == m0.dom(),
                forall|k: Seq<char>| #[trigger] m0.contains_key(k) ==> self.table()[k] == (if ids.take(j as int).contains(k) { with_state(m0[k], TaskState::Failed(-1i32)) } else { m0[k] }),
                actions@.len() == j,
                forall|a: int| 0 <= a < j ==> (#[trigger] actions@[a] matches SchedAction::Cancel { id, handle } && id@ == jobs@[a].0@ && handle == Some(jobs@[a].1)),
            decreases jobs@.len() - j,
        {
            let ghost before = self.table();
            let id = jobs[j].0.clone();
            let handle = JobHandle { raw: jobs[j].1.raw.clone() };
            self.mark_cancelled(id.as_str());
            actions.push(SchedAction::Cancel { id, handle: Some(handle) });
            proof {
                let x = jobs@[j as int].0@;
                assert(ids[j as int] == x);
                assert(ids.take(j as int + 1) =~= ids.take(j as int).push(x));
                assert(!ids.take(j as int).contains(x)) by {
                    if ids.take(j as int).contains(x) {
                        let q = choose|q: int| 0 <= q < j && #[trigger] ids.take(j as int)[q] == x;
                        assert(ids[q] == ids[j as int]);
                    }
                }
                assert(self.table().dom() =~= m0.dom());
                assert forall|k: Seq<char>| #[trigger] m0.contains_key(k) implies self.table()[k] == (if ids.take(j as int + 1).contains(k) { with_state(m0[k], TaskState::Failed(-1i32)) } else { m0[k] }) by {
                    if k != x {
                        if ids.take(j as int + 1).contains(k) {
                            let q = choose|q: int| 0 <= q < j + 1 && #[trigger] ids.take(j as int + 1)[q] == k;
                            assert(ids.take(j as int)[q] == k);
                        }
                        if ids.take(j as int).contains(k) {
                            let q = choose|q: int| 0 <= q < j && #[trigger] ids.take(j as int)[q] == k;
                            assert(ids.take(j as int + 1)[q] == k);
                        }
                    } else {
                        assert(ids.take(j as int + 1)[j as int] == k);
                    }
                }
                assert(handle.raw@ == jobs@[j as int].1.raw@);
            }
            j = j + 1;
        }
        proof {
            assert(ids.take(jobs@.len() as int) =~= ids);
            assert(self.table() =~= cancelled_table(m0)) by {
                assert forall|k: Seq<char>| #[trigger] m0.contains_key(k) implies self.table()[k] == cancelled_table(m0)[k] by {
                    if is_active(m0[k].state) && m0[k].handle is Some {
                        assert(ids.contains(k));
                    }
                    if ids.contains(k) {
                        let a = choose|a: int| 0 <= a < ids.len() && ids[a] == k;
                        assert(jobs@[a].0@ == k);
                    }
                }
            }
            assert forall|k: Seq<char>| #[trigger] m0.contains_key(k) && is_active(m0[k].state) && m0[k].handle is Some
                implies exists|a: int| 0 <= a < actions@.len() && (#[trigger] actions@[a] matches SchedAction::Cancel { id, .. } && id@ == k) by {
                assert(ids.contains(k));
                let a = choose|a: int| 0 <= a < ids.len() && ids[a] == k;
                assert(jobs@[a].0@ == k);
                assert(actions@[a] matches SchedAction::Cancel { id, .. } && id@ == k);
            }
        }
        let ghost pre = actions@;
        actions.push(SchedAction::Persist);
        actions.push(SchedAction::Finish);
        proof {
            assert forall|a: int| 0 <= a < pre.len() implies #[trigger] actions@[a] == pre[a] by {}
            assert forall|k: Seq<char>| #[trigger] m0.contains_key(k) && is_active(m0[k].state) && m0[k].handle is Some
                implies exists|a: int| 0 <= a < actions@.len() - 2 && (#[trigger] actions@[a] matches SchedAction::Cancel { id, .. } && id@ == k) by {
                let a = choose|a: int| 0 <= a < pre.len() && (#[trigger] pre[a] matches SchedAction::Cancel { id, .. } && id@ == k);
                assert(actions@[a] == pre[a]);
            }
        }
        actions
    }
}

impl Scheduler {
    /// A cycle begins: pending tasks whose dependencies are done become
    /// ready, and the submissions start from the first task.
    fn on_begin(&mut self, round: &mut Round, now: u64) -> (actions: Vec<SchedAction>)
        ensures
            final(self).tasks() == old(self).tasks(),
            final(self).round_ok(final(round)),
            actions@.len() == 1,
            actions@[0] is Submit || actions@[0] is Poll,
            submit_admitted(*final(self), *final(round), actions@[0]),
            final(self).table() == promoted(old(self).table(), old(self).tasks()),
            actions@[0] is Poll ==> final(round).accepted().len() == 0,
            actions@[0] is Submit ==> final(round).accepted().len() == 0 && final(round).submitting(),
    {
        self.promote_ready();
        round.load = self.executor_load();
        round.next = 0;
        round.offered = None;
        round.accepted = Vec::new();
        round.submitting = true;
        proof {
            assert(round.accepted_nodes() =~= Seq::<int>::empty());
            assert(round.accepted() =~= Seq::<(int, JobHandle)>::empty());
            assert forall|e: Seq<char>| capped(active_count(self.tasks(), self.table(), e, self.tasks().len() as int) + node_count(self.tasks(), round.accepted_nodes(), e)) <= #[trigger] round.load.count_of(e) by {
                lemma_active_count_bound(self.tasks(), self.table(), e, self.tasks().len() as int);
            }
        }
        self.offer(round, now)
    }

    /// The polls answered: their states are recorded, the jobs past their
    /// wall-time limit at `now` are to be cancelled and time out, the
    /// dependents of failed tasks are skipped and the records written; the
    /// run ends once every record is final.
    fn on_polled(&mut self, round: &mut Round, statuses: Vec<(String, JobStatus)>, now: u64) -> (actions: Vec<SchedAction>)
        ensures
            final(self).tasks() == old(self).tasks(),
            final(self).round_ok(final(round)),
            actions@.len() >= 2,
            actions@[actions@.len() - 2] is Persist,
            actions@.last() is Finish || actions@.last() is Sleep,
            actions@.last() is Finish <==> forall|k: Seq<char>| #[trigger] final(self).table().contains_key(k) ==> is_final(final(self).table()[k].state),
            forall|j: int| 0 <= j < actions@.len() - 2 ==> #[trigger] actions@[j] is Cancel,
            polls_recorded(old(self).table(), old(self).tasks(), statuses@, now, final(self).table(), actions@),
    {
        round.submitting = false;
        let ghost m0 = self.table();
        let mut i: usize = 0;
        while i < statuses.len()
            invariant
                self.tasks() == old(self).tasks(),
                m0 == old(self).table(),
                i <= statuses@.len(),
                self.table() == apply_polls(m0, statuses@.take(i as int)),
            decreases statuses@.len() - i,
        {
            proof {
                assert(statuses@.take(i as int + 1).drop_last() =~= statuses@.take(i as int));
                assert(statuses@.take(i as int + 1).last() == statuses@[i as int]);
            }
            let st = match &statuses[i].1 {
                JobStatus::Running => JobStatus::Running,
                JobStatus::Completed => JobStatus::Completed,
                JobStatus::Failed(c) => JobStatus::Failed(*c),
            };
            self.apply_poll(statuses[i].0.as_str(), st);
            i = i + 1;
        }
        proof {
            assert(statuses@.take(statuses@.len() as int) =~= statuses@);
        }
        let ghost mp = self.table();
        let late = self.timed_out(now);
        let ghost ls = views(late@);
        let mut actions: Vec<SchedAction> = Vec::new();
        let mut j: usize = 0;
        while j < late.len()
            invariant
                self.tasks() == old(self).tasks(),
                ls == views(late@),
                j <= late@.len(),
                actions@.len() == j,
                self.table() == mark_late(mp, ls.take(j as int)),
                forall|a: int| 0 <= a < j ==> (#[trigger] actions@[a] matches SchedAction::Cancel { id, handle } && id@ == ls[a] && handle == handle_in(mp, ls[a])),
            decreases late@.len() - j,
        {
            proof {
                lemma_mark_late_handle(mp, ls.take(j as int), ls[j as int]);
                assert(ls.take(j as int + 1).drop_last() =~= ls.take(j as int));
                assert(ls.take(j as int + 1).last() == ls[j as int]);
                assert(ls[j as int] == late@[j as int]@);
            }
            let handle = self.handle_of(late[j].as_str());
            actions.push(SchedAction::Cancel { id: late[j].clone(), handle });
            self.mark_timed_out(late[j].as_str());
            j = j + 1;
        }
        proof {
            assert(ls.take(ls.len() as int) =~= ls);
        }
        let ghost ml = self.table();
        self.skip_failed_dependents();
        let ghost pre = actions@;
        actions.push(SchedAction::Persist);
        if self.all_terminal() {
            actions.push(SchedAction::Finish);
        } else {
            actions.push(SchedAction::Sleep);
        }
        proof {
            assert forall|a: int| 0 <= a < ls.len() implies (#[trigger] actions@[a] matches SchedAction::Cancel { id, handle } && id@ == ls[a] && handle == handle_in(mp, ls[a])) by {
                assert(actions@[a] == pre[a]);
            }
        }
        actions
    }

    /// Takes one step of the run that drives the pipeline: decides, from
    /// what happened, what the caller does next. A task is submitted only
    /// when it is ready and, under a local executor, fewer of that
    /// executor's tasks than its parallelism allows are active or accepted
    /// in the cycle. A cycle first promotes the tasks whose dependencies are
    /// done; the accepted tasks are recorded as submitted when the cycle's
    /// submissions end; poll answers are recorded, late jobs time out and
    /// are cancelled, and the dependents of failed tasks are skipped. A stop
    /// cancels every active job; the run ends by itself exactly once every
    /// record is final.
    pub fn step(&mut self, round: &mut Round, event: SchedEvent, now: u64) -> (actions: Vec<SchedAction>)
        requires
            old(self).round_ok(old(round)),
        ensures
            final(self).tasks() == old(self).tasks(),
            final(self).round_ok(final(round)),
            forall|j: int| 0 <= j < actions@.len() ==> submit_admitted(*final(self), *final(round), #[trigger] actions@[j]),
            match event {
                SchedEvent::Cycle { cancelled } => if cancelled {
                    &&& final(self).table() == cancelled_table(old(self).table())
                    &&& actions@.len() >= 2
                    &&& actions@[actions@.len() - 2] is Persist
                    &&& actions@[actions@.len() - 1] is Finish
                    &&& forall|j: int| 0 <= j < actions@.len() - 2 ==> (#[trigger] actions@[j] matches SchedAction::Cancel { id, handle } && handle is Some
                        && old(self).table().contains_key(id@) && is_active(old(self).table()[id@].state) && old(self).table()[id@].handle == handle)
                    &&& forall|k: Seq<char>| #[trigger] old(self).table().contains_key(k) && is_active(old(self).table()[k].state) && old(self).table()[k].handle is Some
                        ==> exists|j: int| 0 <= j < actions@.len() - 2 && (#[trigger] actions@[j] matches SchedAction::Cancel { id, .. } && id@ == k)
                } else {
                    &&& actions@.len() == 1 && (actions@[0] is Submit || actions@[0] is Poll)
                    &&& final(self).table() == promoted(old(self).table(), old(self).tasks())
                    &&& final(round).accepted().len() == 0
                },
                SchedEvent::Submitted(outcome) => {
                    &&& actions@.len() <= 1
                    &&& forall|j: int| 0 <= j < actions@.len() ==> (#[trigger] actions@[j] is Submit || actions@[j] is Poll)
                    &&& forall|i: int| old(round).submitting() && old(round).offered() == Some(i) ==> submission_recorded(*old(self), *old(round), outcome, now, *final(self), *final(round), actions@)
                },
                SchedEvent::Polled(statuses) => {
                    &&& actions@.len() >= 2
                    &&& actions@[actions@.len() - 2] is Persist
                    &&& (actions@.last() is Finish <==> forall|k: Seq<char>| #[trigger] final(self).table().contains_key(k) ==> is_final(final(self).table()[k].state))
                    &&& (actions@.last() is Finish || actions@.last() is Sleep)
                    &&& forall|j: int| 0 <= j < actions@.len() - 2 ==> #[trigger] actions@[j] is Cancel
                    &&& polls_recorded(old(self).table(), old(self).tasks(), statuses@, now, final(self).table(), actions@)
                },
            },
    {
        match event {
            SchedEvent::Cycle { cancelled } => if cancelled {
                let actions = self.on_cancel(round);
                proof {
                    assert forall|j: int| 0 <= j < actions@.len() implies submit_admitted(*self, *round, #[trigger] actions@[j]) by {
                        if j < actions@.len() - 2 {
                            assert(actions@[j] is Cancel);
                        }
                    }
                }
                actions
            } else {
                self.on_begin(round, now)
            },
            SchedEvent::Submitted(outcome) => self.on_submitted(round, outcome, now),
            SchedEvent::Polled(statuses) => {
                let actions = self.on_polled(round, statuses, now);
                proof {
                    assert forall|j: int| 0 <= j < actions@.len() implies submit_admitted(*self, *round, #[trigger] actions@[j]) by {
                        if j < actions@.len() - 2 {
                            assert(actions@[j] is Cancel);
                        }
                    }
                }
                actions
            },
        }
    }
}

} // verus!
