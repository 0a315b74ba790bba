//! The decisions of the job scheduler that drives a pipeline of configured
//! tasks: which tasks become ready, which are submitted under each
//! executor's parallelism, how poll answers, time limits and failures
//! change the records, and when the run is over.
use crate::executor::{JobHandle, JobStatus};
use crate::pipeline::Pipeline;
use crate::schema::{ConcreteTask, ExecutorDef};
use crate::text::{str_eq, views};
use vstd::prelude::*;

verus! {

/// The state of a task under the scheduler.
#[derive(Debug, Clone, Copy, PartialEq, Eq, Structural)]
pub enum TaskState {
    Pending,
    /// Every dependency is done; waiting for a submission slot.
    Ready,
    Submitted,
    Running,
    Completed,
    /// Finished with this exit code (-1 when it could not be submitted or was cancelled).
    Failed(i32),
    Skipped,
    /// Cancelled for running past its wall-time limit.
    TimedOut,
}

/// What the scheduler records of a task, and keeps across runs.
#[derive(Debug, Clone)]
pub struct TaskRecord {
    pub id: String,
    pub state: TaskState,
    /// The backend's handle, once submitted.
    pub handle: Option<JobHandle>,
    /// When it was submitted, in seconds since the Unix epoch.
    pub submitted_at: Option<u64>,
}

/// The records that the list gives, a later record for an id replacing an
/// earlier one.
pub open spec fn record_map(s: Seq<TaskRecord>) -> Map<Seq<char>, TaskRecord>
    decreases s.len(),
{
    if s.len() == 0 {
        Map::empty()
    } else {
        record_map(s.drop_last()).insert(s.last().id@, s.last())
    }
}

/// The ids of the records, in order.
pub open spec fn record_ids(s: Seq<TaskRecord>) -> Seq<Seq<char>> {
    s.map_values(|r: TaskRecord| r.id@)
}

/// The domain of `record_map` holds exactly the record ids.
proof fn lemma_record_map_dom(s: Seq<TaskRecord>)
    ensures
        record_map(s).dom().finite(),
        forall|k: Seq<char>| #[trigger] record_map(s).contains_key(k) <==> record_ids(s).contains(k),
    decreases s.len(),
{
    if s.len() > 0 {
        lemma_record_map_dom(s.drop_last());
        let ids = record_ids(s);
        let prev = record_ids(s.drop_last());
        assert(prev =~= ids.drop_last());
        assert forall|k: Seq<char>| record_map(s).contains_key(k) <==> ids.contains(k) by {
            if ids.contains(k) {
                let i = choose|i: int| 0 <= i < ids.len() && ids[i] == k;
                if i < ids.len() - 1 {
                    assert(prev[i] == k);
                }
            }
            if prev.contains(k) {
                let i = choose|i: int| 0 <= i < prev.len() && prev[i] == k;
                assert(ids[i] == k);
            }
            assert(ids[ids.len() - 1] == s.last().id@);
        }
    }
}

/// With distinct ids, the record at position `i` is the one the map keeps.
proof fn lemma_record_map_index(s: Seq<TaskRecord>, i: int)
    requires
        record_ids(s).no_duplicates(),
        0 <= i < s.len(),
    ensures
        record_map(s).contains_key(s[i].id@),
        record_map(s)[s[i].id@] == s[i],
    decreases s.len(),
{
    lemma_record_map_dom(s);
    assert(record_ids(s)[i] == s[i].id@);
    if i < s.len() - 1 {
        let t = s.drop_last();
        assert(record_ids(t) =~= record_ids(s).drop_last());
        lemma_record_map_index(t, i);
        assert(record_ids(s)[s.len() - 1] == s.last().id@);
        assert(s.last().id@ != s[i].id@);
    }
}

/// Replacing the record at `i` by one with the same id updates the map there.
proof fn lemma_record_map_update(s: Seq<TaskRecord>, i: int, r: TaskRecord)
    requires
        record_ids(s).no_duplicates(),
        0 <= i < s.len(),
        r.id@ == s[i].id@,
    ensures
        record_ids(s.update(i, r)) == record_ids(s),
        record_map(s.update(i, r)) == record_map(s).insert(r.id@, r),
    decreases s.len(),
{
    let u = s.update(i, r);
    assert(record_ids(u) =~= record_ids(s));
    if i == s.len() - 1 {
        assert(u.drop_last() =~= s.drop_last());
        assert(record_map(u) =~= record_map(s).insert(r.id@, r));
    } else {
        let t = s.drop_last();
        assert(record_ids(t) =~= record_ids(s).drop_last());
        lemma_record_map_update(t, i, r);
        assert(u.drop_last() =~= t.update(i, r));
        assert(record_ids(s)[s.len() - 1] != record_ids(s)[i]);
        assert(record_map(u) =~= record_map(s).insert(r.id@, r));
    }
}

/// Position of the record for `id`.
fn find_record(v: &Vec<TaskRecord>, id: &str) -> (r: Option<usize>)
    ensures
        r matches Some(i) ==> i < v@.len() && v@[i as int].id@ == id@,
        r is None ==> !record_ids(v@).contains(id@),
{
    let mut i: usize = 0;
    while i < v.len()
        invariant
            i <= v.len(),
            forall|k: int| 0 <= k < i ==> record_ids(v@)[k] != id@,
        decreases v.len() - i,
    {
        if str_eq(v[i].id.as_str(), id) {
            return Some(i);
        }
        i = i + 1;
    }
    None
}

/// Stores `r` in a list with distinct ids, in place of the record with its
/// id or at the end.
fn put_record(v: &mut Vec<TaskRecord>, r: TaskRecord)
    requires
        record_ids(old(v)@).no_duplicates(),
    ensures
        record_ids(final(v)@).no_duplicates(),
        record_map(final(v)@) == record_map(old(v)@).insert(r.id@, r),
{
    match find_record(v, r.id.as_str()) {
        Some(i) => {
            proof {
                lemma_record_map_update(v@, i as int, r);
            }
            v.set(i, r);
        },
        None => {
            let ghost before = v@;
            v.push(r);
            proof {
                assert(v@.drop_last() =~= before);
                assert(record_ids(v@) =~= record_ids(before).push(r.id@));
            }
        },
    }
}

/// A copy of a job handle, if there is one.
fn copy_handle(h: &Option<JobHandle>) -> (r: Option<JobHandle>)
    ensures
        r == *h,
{
    match h {
        Some(j) => Some(JobHandle { raw: j.raw.clone() }),
        None => None,
    }
}

/// `r` with its state replaced.
pub open spec fn with_state(r: TaskRecord, st: TaskState) -> TaskRecord {
    TaskRecord { id: r.id, state: st, handle: r.handle, submitted_at: r.submitted_at }
}

/// The table after setting the state of `id`, when it has a record.
pub open spec fn set_state_in(m: Map<Seq<char>, TaskRecord>, id: Seq<char>, st: TaskState) -> Map<Seq<char>, TaskRecord> {
    if m.contains_key(id) { m.insert(id, with_state(m[id], st)) } else { m }
}

/// A task submitted and not yet finished.
pub open spec fn is_active(st: TaskState) -> bool {
    st is Submitted || st is Running
}

/// A state after which nothing more happens to the task.
pub open spec fn is_final(st: TaskState) -> bool {
    st is Completed || st is Failed || st is Skipped || st is TimedOut
}

/// A state that lets the dependents of a task go ahead.
pub open spec fn lets_dependents_run(st: TaskState) -> bool {
    st is Completed || st is Skipped || st is TimedOut
}

/// The state a poll answer gives.
pub open spec fn polled_state(status: JobStatus) -> TaskState {
    match status {
        JobStatus::Running => TaskState::Running,
        JobStatus::Completed => TaskState::Completed,
        JobStatus::Failed(code) => TaskState::Failed(code),
    }
}

/// Drives a pipeline: the tasks, and a record per task id.
pub struct Scheduler {
    pipeline: Pipeline,
    records: Vec<TaskRecord>,
}

impl Scheduler {
    #[verifier::type_invariant]
    closed spec fn distinct_records(&self) -> bool {
        record_ids(self.records@).no_duplicates()
    }

    /// The record of each task id.
    pub closed spec fn table(&self) -> Map<Seq<char>, TaskRecord> {
        record_map(self.records@)
    }

    /// The pipeline's tasks, in node order.
    pub closed spec fn tasks(&self) -> Seq<ConcreteTask> {
        self.pipeline.task_list()
    }

    /// A scheduler for the pipeline, with no records yet.
    pub fn new(pipeline: Pipeline) -> (r: Scheduler)
        ensures
            r.table() == Map::<Seq<char>, TaskRecord>::empty(),
            r.tasks() == pipeline.task_list(),
    {
        let r = Scheduler { pipeline, records: Vec::new() };
        proof {
            assert(record_ids(r.records@) =~= Seq::<Seq<char>>::empty());
            assert(record_map(r.records@) =~= Map::<Seq<char>, TaskRecord>::empty());
        }
        r
    }

    /// The pipeline being driven.
    pub fn pipeline(&self) -> (r: &Pipeline)
        ensures
            r.task_list() == self.tasks(),
    {
        &self.pipeline
    }

    /// The records, one per task id.
    pub fn records(&self) -> (r: &Vec<TaskRecord>)
        ensures
            record_map(r@) == self.table(),
            record_ids(r@).no_duplicates(),
    {
        proof {
            use_type_invariant(self);
        }
        &self.records
    }

    /// The state recorded for `id`.
    pub fn state_of(&self, id: &str) -> (r: Option<TaskState>)
        ensures
            r == (if self.table().contains_key(id@) { Some(self.table()[id@].state) } else { None::<TaskState> }),
    {
        proof {
            use_type_invariant(self);
            lemma_record_map_dom(self.records@);
        }
        match find_record(&self.records, id) {
            Some(i) => {
                proof {
                    lemma_record_map_index(self.records@, i as int);
                }
                Some(self.records[i].state)
            },
            None => None,
        }
    }

    /// Sets the state of `id`, when it has a record.
    fn set_state(&mut self, id: &str, st: TaskState)
        ensures
            final(self).table() == set_state_in(old(self).table(), id@, st),
            final(self).tasks() == old(self).tasks(),
    {
        proof {
            use_type_invariant(&*self);
            lemma_record_map_dom(self.records@);
        }
        match find_record(&self.records, id) {
            Some(i) => {
                let r = TaskRecord {
                    id: self.records[i].id.clone(),
                    state: st,
                    handle: copy_handle(&self.records[i].handle),
                    submitted_at: self.records[i].submitted_at,
                };
                proof {
                    lemma_record_map_index(self.records@, i as int);
                    lemma_record_map_update(self.records@, i as int, r);
                }
                let mut records: Vec<TaskRecord> = Vec::new();
                std::mem::swap(&mut records, &mut self.records);
                records.set(i, r);
                self.records = records;
            },
            None => {},
        }
    }
}

/// Every dependency has a record whose state lets dependents run.
pub open spec fn deps_done(m: Map<Seq<char>, TaskRecord>, deps: Seq<Seq<char>>) -> bool {
    forall|j: int| 0 <= j < deps.len() ==> m.contains_key(#[trigger] deps[j]) && lets_dependents_run(m[deps[j]].state)
}

/// Task `k` is pending and some task with that id has every dependency done.
pub open spec fn promotable(m: Map<Seq<char>, TaskRecord>, tasks: Seq<ConcreteTask>, k: Seq<char>) -> bool {
    &&& m.contains_key(k)
    &&& m[k].state is Pending
    &&& exists|i: int| 0 <= i < tasks.len() && #[trigger] tasks[i].id@ == k && deps_done(m, views(tasks[i].depends_on@))
}

/// The table after promoting every promotable task to ready.
pub open spec fn promoted(m: Map<Seq<char>, TaskRecord>, tasks: Seq<ConcreteTask>) -> Map<Seq<char>, TaskRecord> {
    Map::new(
        |k: Seq<char>| m.contains_key(k),
        |k: Seq<char>| if promotable(m, tasks, k) { with_state(m[k], TaskState::Ready) } else { m[k] },
    )
}

/// A pending task becomes ready exactly when, for a task with its id, every
/// dependency has a record that is completed, skipped or timed out: never
/// while a dependency is pending, ready, submitted, running or failed, or
/// has no record. Tasks that are not pending keep their state.
pub proof fn lemma_promotion_waits_for_dependencies(m: Map<Seq<char>, TaskRecord>, tasks: Seq<ConcreteTask>, k: Seq<char>)
    requires
        m.contains_key(k),
    ensures
        promoted(m, tasks).contains_key(k),
        !(m[k].state is Pending) ==> promoted(m, tasks)[k] == m[k],
        m[k].state is Pending ==> (promoted(m, tasks)[k].state is Ready <==> exists|i: int| 0 <= i < tasks.len() && #[trigger] tasks[i].id@ == k
            && forall|j: int| 0 <= j < tasks[i].depends_on@.len() ==> m.contains_key(#[trigger] tasks[i].depends_on@[j]@) && {
                let st = m[tasks[i].depends_on@[j]@].state;
                st is TimedOut || st is Completed || st is Skipped
            }),
        m[k].state is Pending && !(promoted(m, tasks)[k].state is Ready) ==> promoted(m, tasks)[k] == m[k],
{
    if m[k].state is Pending {
        if promoted(m, tasks)[k].state is Ready {
            assert(promotable(m, tasks, k));
            let i = choose|i: int| 0 <= i < tasks.len() && #[trigger] tasks[i].id@ == k && deps_done(m, views(tasks[i].depends_on@));
            assert forall|j: int| 0 <= j < tasks[i].depends_on@.len() implies m.contains_key(#[trigger] tasks[i].depends_on@[j]@) && {
                let st = m[tasks[i].depends_on@[j]@].state;
                st is TimedOut || st is Completed || st is Skipped
            } by {
                assert(views(tasks[i].depends_on@)[j] == tasks[i].depends_on@[j]@);
            }
        }
        if exists|i: int| 0 <= i < tasks.len() && #[trigger] tasks[i].id@ == k
            && forall|j: int| 0 <= j < tasks[i].depends_on@.len() ==> m.contains_key(#[trigger] tasks[i].depends_on@[j]@) && {
                let st = m[tasks[i].depends_on@[j]@].state;
                st is TimedOut || st is Completed || st is Skipped
            } {
            let i = choose|i: int| 0 <= i < tasks.len() && #[trigger] tasks[i].id@ == k
                && forall|j: int| 0 <= j < tasks[i].depends_on@.len() ==> m.contains_key(#[trigger] tasks[i].depends_on@[j]@) && {
                    let st = m[tasks[i].depends_on@[j]@].state;
                    st is TimedOut || st is Completed || st is Skipped
                };
            assert forall|j: int| 0 <= j < views(tasks[i].depends_on@).len() implies m.contains_key(#[trigger] views(tasks[i].depends_on@)[j]) && lets_dependents_run(m[views(tasks[i].depends_on@)[j]].state) by {
                assert(views(tasks[i].depends_on@)[j] == tasks[i].depends_on@[j]@);
            }
            assert(deps_done(m, views(tasks[i].depends_on@)));
            assert(promotable(m, tasks, k));
        }
    }
}

/// The nodes, among the first `n`, whose task has an active record, in order.
pub open spec fn active_nodes(tasks: Seq<ConcreteTask>, m: Map<Seq<char>, TaskRecord>, n: int) -> Seq<int>
    decreases n,
{
    if n <= 0 {
        Seq::empty()
    } else if m.contains_key(tasks[n - 1].id@) && is_active(m[tasks[n - 1].id@].state) {
        active_nodes(tasks, m, n - 1).push(n - 1)
    } else {
        active_nodes(tasks, m, n - 1)
    }
}

impl Scheduler {
    /// Takes the records kept from an earlier run (a later record for an id
    /// replacing an earlier one) and gives every task without a record a
    /// pending one.
    pub fn load(&mut self, loaded: Vec<TaskRecord>)
        ensures
            final(self).tasks() == old(self).tasks(),
            final(self).table().dom() == record_map(loaded@).dom().union(crate::pipeline::task_ids_of(old(self).tasks()).to_set()),
            forall|k: Seq<char>| #[trigger] record_map(loaded@).contains_key(k) ==> final(self).table()[k] == record_map(loaded@)[k],
            forall|k: Seq<char>| #[trigger] final(self).table().contains_key(k) && !record_map(loaded@).contains_key(k) ==> {
                &&& final(self).table()[k].id@ == k
                &&& final(self).table()[k].state == TaskState::Pending
                &&& final(self).table()[k].handle is None
                &&& final(self).table()[k].submitted_at is None
            },
    {
        let ghost ids = crate::pipeline::task_ids_of(self.pipeline.task_list());
        let ghost lm = record_map(loaded@);
        let mut records: Vec<TaskRecord> = Vec::new();
        let mut i: usize = 0;
        proof {
            assert(record_ids(records@) =~= Seq::<Seq<char>>::empty());
            assert(record_map(records@) =~= record_map(loaded@.take(0)));
        }
        while i < loaded.len()
            invariant
                i <= loaded.len(),
                record_ids(records@).no_duplicates(),
                record_map(records@) == record_map(loaded@.take(i as int)),
            decreases loaded.len() - i,
        {
            let r = TaskRecord {
                id: loaded[i].id.clone(),
                state: loaded[i].state,
                handle: copy_handle(&loaded[i].handle),
                submitted_at: loaded[i].submitted_at,
            };
            proof {
                assert(r == loaded@[i as int]);
                assert(loaded@.take(i as int + 1).drop_last() =~= loaded@.take(i as int));
            }
            put_record(&mut records, r);
            i = i + 1;
        }
        proof {
            assert(loaded@.take(loaded@.len() as int) =~= loaded@);
            lemma_record_map_dom(loaded@);
        }
        let n = self.pipeline.len();
        let mut t: usize = 0;
        while t < n
            invariant
                n == self.pipeline.task_list().len(),
                ids == crate::pipeline::task_ids_of(self.pipeline.task_list()),
                lm == record_map(loaded@),
                lm.dom().finite(),
                t <= n,
                record_ids(records@).no_duplicates(),
                record_map(records@).dom() == lm.dom().union(ids.take(t as int).to_set()),
                forall|k: Seq<char>| #[trigger] lm.contains_key(k) ==> record_map(records@)[k] == lm[k],
                forall|k: Seq<char>| #[trigger] record_map(records@).contains_key(k) && !lm.contains_key(k) ==> {
                    &&& record_map(records@)[k].id@ == k
                    &&& record_map(records@)[k].state == TaskState::Pending
                    &&& record_map(records@)[k].handle is None
                    &&& record_map(records@)[k].submitted_at is None
                },
            decreases n - t,
        {
            let task = self.pipeline.task(t);
            let ghost before = record_map(records@);
            let ghost x = task.id@;
            proof {
                assert(ids[t as int] == x);
                assert(ids.take(t as int + 1) =~= ids.take(t as int).push(x));
                assert forall|y: Seq<char>| ids.take(t as int + 1).to_set().contains(y) <==> ids.take(t as int).to_set().contains(y) || y == x by {
                    let t1 = ids.take(t as int + 1);
                    let t0 = ids.take(t as int);
                    if t1.contains(y) {
                        let j = choose|j: int| 0 <= j < t1.len() && t1[j] == y;
                        if j < t0.len() {
                            assert(t0[j] == y);
                        }
                    }
                    if t0.contains(y) {
                        let j = choose|j: int| 0 <= j < t0.len() && t0[j] == y;
                        assert(t1[j] == y);
                    }
                    if y == x {
                        assert(t1[t as int] == y);
                    }
                }
                lemma_record_map_dom(records@);
            }
            let found = find_record(&records, task.id.as_str());
            if found.is_none() {
                let r = TaskRecord { id: task.id.clone(), state: TaskState::Pending, handle: None, submitted_at: None };
                put_record(&mut records, r);
                proof {
                    assert(!before.contains_key(x));
                    assert(!lm.contains_key(x));
                    assert(record_map(records@) == before.insert(x, r));
                    assert(record_map(records@).dom() =~= lm.dom().union(ids.take(t as int + 1).to_set()));
                }
            } else {
                proof {
                    let j = found.unwrap() as int;
                    assert(record_ids(records@)[j] == x);
                    assert(before.contains_key(x));
                    assert(record_map(records@).dom() =~= lm.dom().union(ids.take(t as int + 1).to_set()));
                }
            }
            t = t + 1;
        }
        proof {
            assert(ids.take(n as int) =~= ids);
            assert(record_map(records@).dom() =~= lm.dom().union(ids.to_set()));
        }
        self.records = records;
    }
}

impl Scheduler {
    /// Whether every dependency in `deps` has a record that lets dependents run.
    fn deps_all_done(&self, deps: &Vec<String>) -> (r: bool)
        ensures
            r == deps_done(self.table(), views(deps@)),
            r == forall|j: int| 0 <= j < deps@.len() ==> self.table().contains_key(#[trigger] deps@[j]@) && {
                let st = self.table()[deps@[j]@].state;
                st is TimedOut || st is Completed || st is Skipped
            },
    {
        let mut j: usize = 0;
        while j < deps.len()
            invariant
                j <= deps.len(),
                forall|q: int| 0 <= q < j ==> self.table().contains_key(#[trigger] views(deps@)[q]) && lets_dependents_run(self.table()[views(deps@)[q]].state),
            decreases deps.len() - j,
        {
            let ok = match self.state_of(deps[j].as_str()) {
                Some(TaskState::Completed) | Some(TaskState::Skipped) | Some(TaskState::TimedOut) => true,
                _ => false,
            };
            proof {
                assert(views(deps@)[j as int] == deps@[j as int]@);
            }
            if !ok {
                proof {
                    assert(!(self.table().contains_key(deps@[j as int]@) && {
                        let st = self.table()[deps@[j as int]@].state;
                        st is TimedOut || st is Completed || st is Skipped
                    }));
                }
                return false;
            }
            j = j + 1;
        }
        proof {
            assert forall|q: int| 0 <= q < deps@.len() implies self.table().contains_key(#[trigger] deps@[q]@) && {
                let st = self.table()[deps@[q]@].state;
                st is TimedOut || st is Completed || st is Skipped
            } by {
                assert(views(deps@)[q] == deps@[q]@);
            }
        }
        true
    }

    /// Marks ready every pending task whose dependencies are all completed,
    /// skipped or timed out.
    pub fn promote_ready(&mut self)
        ensures
            final(self).tasks() == old(self).tasks(),
            final(self).table() == promoted(old(self).table(), old(self).tasks()),
    {
        let ghost m = self.table();
        let ghost tasks = self.tasks();
        let n = self.pipeline.len();
        let mut ready: Vec<String> = Vec::new();
        let mut t: usize = 0;
        while t < n
            invariant
                n == tasks.len(),
                t <= n,
                m == self.table(),
                tasks == self.tasks(),
                forall|a: int| 0 <= a < ready@.len() ==> promotable(m, tasks, #[trigger] ready@[a]@),
                forall|i: int| 0 <= i < t && m.contains_key(#[trigger] tasks[i].id@) && m[tasks[i].id@].state is Pending && deps_done(m, views(tasks[i].depends_on@)) ==> views(ready@).contains(tasks[i].id@),
            decreases n - t,
        {
            let task = self.pipeline.task(t);
            let pending = match self.state_of(task.id.as_str()) {
                Some(TaskState::Pending) => true,
                _ => false,
            };
            if pending && self.deps_all_done(&task.depends_on) {
                let ghost before = ready@;
                ready.push(task.id.clone());
                proof {
                    assert(tasks[t as int].id@ == task.id@);
                    assert(promotable(m, tasks, task.id@));
                    assert forall|i: int| 0 <= i < t + 1 && m.contains_key(#[trigger] tasks[i].id@) && m[tasks[i].id@].state is Pending && deps_done(m, views(tasks[i].depends_on@)) implies views(ready@).contains(tasks[i].id@) by {
                        if i < t {
                            let a = choose|a: int| 0 <= a < views(before).len() && views(before)[a] == tasks[i].id@;
                            assert(views(ready@)[a] == tasks[i].id@);
                        } else {
                            assert(views(ready@)[before.len() as int] == tasks[i].id@);
                        }
                    }
                }
            }
            t = t + 1;
        }
        let mut j: usize = 0;
        while j < ready.len()
            invariant
                j <= ready.len(),
                tasks == self.tasks(),
                forall|a: int| 0 <= a < ready@.len() ==> promotable(m, tasks, #[trigger] ready@[a]@),
                self.table().dom() == m.dom(),
                forall|k: Seq<char>| #[trigger] self.table().contains_key(k) ==> self.table()[k] == (if views(ready@).take(j as int).contains(k) { with_state(m[k], TaskState::Ready) } else { m[k] }),
            decreases ready.len() - j,
        {
            let ghost before = self.table();
            let ghost x = ready@[j as int]@;
            self.set_state(ready[j].as_str(), TaskState::Ready);
            proof {
                assert(promotable(m, tasks, x));
                let t0 = views(ready@).take(j as int);
                let t1 = views(ready@).take(j as int + 1);
                assert(t1 =~= t0.push(x));
                assert(self.table().dom() =~= m.dom());
                assert forall|k: Seq<char>| #[trigger] self.table().contains_key(k) implies self.table()[k] == (if t1.contains(k) { with_state(m[k], TaskState::Ready) } else { m[k] }) by {
                    if t1.contains(k) != t0.contains(k) {
                        if t1.contains(k) {
                            let q = choose|q: int| 0 <= q < t1.len() && t1[q] == k;
                            if q < t0.len() {
                                assert(t0[q] == k);
                            }
                        } else {
                            let q = choose|q: int| 0 <= q < t0.len() && t0[q] == k;
                            assert(t1[q] == k);
                        }
                    }
                    if k == x {
                        assert(t1[t0.len() as int] == x);
                    }
                }
            }
            j = j + 1;
        }
        proof {
            assert(views(ready@).take(ready@.len() as int) =~= views(ready@));
            assert forall|k: Seq<char>| #[trigger] self.table().contains_key(k) implies self.table()[k] == promoted(m, tasks)[k] by {
                if promotable(m, tasks, k) {
                    let i = choose|i: int| 0 <= i < tasks.len() && #[trigger] tasks[i].id@ == k && deps_done(m, views(tasks[i].depends_on@));
                    assert(views(ready@).contains(tasks[i].id@));
                }
                if views(ready@).contains(k) {
                    let a = choose|a: int| 0 <= a < views(ready@).len() && views(ready@)[a] == k;
                    assert(promotable(m, tasks, ready@[a]@));
                }
            }
            assert(self.table() =~= promoted(m, tasks));
        }
    }

    /// The nodes of the tasks that are submitted or running, in node order:
    /// those whose executors a resumed run rebuilds.
    pub fn resumable_tasks(&self) -> (r: Vec<usize>)
        ensures
            r@.map_values(|x: usize| x as int) == active_nodes(self.tasks(), self.table(), self.tasks().len() as int),
    {
        let n = self.pipeline.len();
        let mut r: Vec<usize> = Vec::new();
        let mut t: usize = 0;
        while t < n
            invariant
                n == self.tasks().len(),
                t <= n,
                r@.map_values(|x: usize| x as int) == active_nodes(self.tasks(), self.table(), t as int),
            decreases n - t,
        {
            let task = self.pipeline.task(t);
            let active = match self.state_of(task.id.as_str()) {
                Some(TaskState::Submitted) | Some(TaskState::Running) => true,
                _ => false,
            };
            if active {
                r.push(t);
            }
            proof {
                assert(r@.map_values(|x: usize| x as int) =~= active_nodes(self.tasks(), self.table(), t as int + 1));
            }
            t = t + 1;
        }
        r
    }
}

/// How many nodes among the first `n` run under executor `e` and are
/// submitted or running.
pub open spec fn active_count(tasks: Seq<ConcreteTask>, m: Map<Seq<char>, TaskRecord>, e: Seq<char>, n: int) -> nat
    decreases n,
{
    if n <= 0 {
        0
    } else {
        active_count(tasks, m, e, n - 1) + if tasks[n - 1].executor@ == e && m.contains_key(tasks[n - 1].id@) && is_active(m[tasks[n - 1].id@].state) { 1nat } else { 0nat }
    }
}

/// An executor has at most as many active tasks as there are nodes.
pub proof fn lemma_active_count_bound(tasks: Seq<ConcreteTask>, m: Map<Seq<char>, TaskRecord>, e: Seq<char>, n: int)
    requires
        0 <= n,
    ensures
        active_count(tasks, m, e, n) <= n,
    decreases n,
{
    if n > 0 {
        lemma_active_count_bound(tasks, m, e, n - 1);
    }
}

/// The number of submitted or running tasks per executor, kept while a
/// round of submissions goes on.
pub struct ExecutorLoad {
    counts: Vec<(String, usize)>,
}

/// The count the pairs give `e`: that of the last pair for it, else 0.
pub open spec fn load_of(s: Seq<(String, usize)>, e: Seq<char>) -> nat
    decreases s.len(),
{
    if s.len() == 0 {
        0
    } else if s.last().0@ == e {
        s.last().1 as nat
    } else {
        load_of(s.drop_last(), e)
    }
}

impl ExecutorLoad {
    /// The count of each executor name (0 for a name not seen).
    pub closed spec fn count_of(&self, e: Seq<char>) -> nat {
        load_of(self.counts@, e)
    }

    /// No task under any executor.
    pub fn new() -> (r: ExecutorLoad)
        ensures
            forall|e: Seq<char>| r.count_of(e) == 0,
    {
        ExecutorLoad { counts: Vec::new() }
    }

    /// The count of executor `e`.
    pub fn count(&self, e: &str) -> (r: usize)
        ensures
            r == self.count_of(e@),
    {
        let mut i = self.counts.len();
        proof {
            assert(self.counts@.take(self.counts@.len() as int) =~= self.counts@);
        }
        while i > 0
            invariant
                i <= self.counts.len(),
                load_of(self.counts@, e@) == load_of(self.counts@.take(i as int), e@),
            decreases i,
        {
            let ghost t = self.counts@.take(i as int);
            proof {
                assert(t.drop_last() =~= self.counts@.take(i as int - 1));
                assert(t.last() == self.counts@[i as int - 1]);
            }
            if str_eq(self.counts[i - 1].0.as_str(), e) {
                return self.counts[i - 1].1;
            }
            i = i - 1;
        }
        0
    }

    /// One more task under executor `e` (the count stays at `usize::MAX`
    /// once there).
    pub fn add(&mut self, e: &str)
        ensures
            final(self).count_of(e@) == (if old(self).count_of(e@) < usize::MAX { old(self).count_of(e@) + 1 } else { old(self).count_of(e@) }),
            forall|f: Seq<char>| f != e@ ==> final(self).count_of(f) == old(self).count_of(f),
    {
        let c = self.count(e);
        let next = if c < usize::MAX { c + 1 } else { c };
        let ghost before = self.counts@;
        self.counts.push((e.to_owned(), next));
        proof {
            assert(self.counts@.drop_last() =~= before);
        }
    }
}

/// Whether `task` may be submitted now: under a local executor while fewer
/// tasks of that executor are active than its parallelism allows; under
/// SLURM always.
pub fn can_submit(task: &ConcreteTask, load: &ExecutorLoad) -> (r: bool)
    ensures
        r == match task.executor_def {
            ExecutorDef::Local { parallelism } => load.count_of(task.executor@) < parallelism,
            ExecutorDef::Slurm { .. } => true,
        },
{
    match &task.executor_def {
        ExecutorDef::Local { parallelism } => load.count(task.executor.as_str()) < *parallelism,
        ExecutorDef::Slurm { .. } => true,
    }
}

impl Scheduler {
    /// The active tasks per executor, counted over the pipeline's nodes.
    pub fn executor_load(&self) -> (r: ExecutorLoad)
        ensures
            forall|e: Seq<char>| r.count_of(e) == active_count(self.tasks(), self.table(), e, self.tasks().len() as int),
    {
        let n = self.pipeline.len();
        let mut load = ExecutorLoad { counts: Vec::new() };
        let mut t: usize = 0;
        while t < n
            invariant
                n == self.tasks().len(),
                t <= n,
                forall|e: Seq<char>| load.count_of(e) == active_count(self.tasks(), self.table(), e, t as int),
            decreases n - t,
        {
            let task = self.pipeline.task(t);
            let active = match self.state_of(task.id.as_str()) {
                Some(TaskState::Submitted) | Some(TaskState::Running) => true,
                _ => false,
            };
            if active {
                proof {
                    lemma_active_count_bound(self.tasks(), self.table(), task.executor@, t as int);
                }
                load.add(task.executor.as_str());
            }
            proof {
                assert forall|e: Seq<char>| load.count_of(e) == active_count(self.tasks(), self.table(), e, t as int + 1) by {
                    assert(self.tasks()[t as int] == *task);
                }
            }
            t = t + 1;
        }
        load
    }

    /// Records a successful submission of `id` at `now` (seconds since the
    /// Unix epoch) with the backend's handle.
    pub fn record_submitted(&mut self, id: &str, handle: JobHandle, now: u64)
        ensures
            final(self).tasks() == old(self).tasks(),
            final(self).table() == (if old(self).table().contains_key(id@) {
                old(self).table().insert(id@, TaskRecord { id: old(self).table()[id@].id, state: TaskState::Submitted, handle: Some(handle), submitted_at: Some(now) })
            } else {
                old(self).table()
            }),
    {
        proof {
            use_type_invariant(&*self);
            lemma_record_map_dom(self.records@);
        }
        match find_record(&self.records, id) {
            Some(i) => {
                let r = TaskRecord { id: self.records[i].id.clone(), state: TaskState::Submitted, handle: Some(handle), submitted_at: Some(now) };
                proof {
                    lemma_record_map_index(self.records@, i as int);
                    lemma_record_map_update(self.records@, i as int, r);
                }
                let mut records: Vec<TaskRecord> = Vec::new();
                std::mem::swap(&mut records, &mut self.records);
                records.set(i, r);
                self.records = records;
            },
            None => {},
        }
    }

    /// Records that submitting `id` failed: it fails with code -1.
    pub fn record_submit_failed(&mut self, id: &str)
        ensures
            final(self).tasks() == old(self).tasks(),
            final(self).table() == set_state_in(old(self).table(), id@, TaskState::Failed(-1i32)),
    {
        self.set_state(id, TaskState::Failed(-1));
    }

    /// Records what polling `id` answered.
    pub fn apply_poll(&mut self, id: &str, status: JobStatus)
        ensures
            final(self).tasks() == old(self).tasks(),
            final(self).table() == set_state_in(old(self).table(), id@, polled_state(status)),
    {
        let st = match status {
            JobStatus::Running => TaskState::Running,
            JobStatus::Completed => TaskState::Completed,
            JobStatus::Failed(code) => TaskState::Failed(code),
        };
        self.set_state(id, st);
    }

    /// Records that `id` was cancelled for running past its time limit.
    pub fn mark_timed_out(&mut self, id: &str)
        ensures
            final(self).tasks() == old(self).tasks(),
            final(self).table() == set_state_in(old(self).table(), id@, TaskState::TimedOut),
    {
        self.set_state(id, TaskState::TimedOut);
    }

    /// Records that `id` was cancelled when the run was stopped: it fails
    /// with code -1.
    pub fn mark_cancelled(&mut self, id: &str)
        ensures
            final(self).tasks() == old(self).tasks(),
            final(self).table() == set_state_in(old(self).table(), id@, TaskState::Failed(-1i32)),
    {
        self.set_state(id, TaskState::Failed(-1));
    }
}

/// `a - b`, or 0 when `b` is larger.
pub open spec fn saturating_diff(a: u64, b: u64) -> int {
    if a >= b { a - b } else { 0 }
}

/// Node `i`'s task has a wall-time limit that its active record, submitted
/// at a known time, has reached by `now`.
pub open spec fn over_time(tasks: Seq<ConcreteTask>, m: Map<Seq<char>, TaskRecord>, now: u64, i: int) -> bool {
    let t = tasks[i];
    &&& t.wall_time_secs is Some
    &&& m.contains_key(t.id@)
    &&& is_active(m[t.id@].state)
    &&& m[t.id@].submitted_at is Some
    &&& saturating_diff(now, m[t.id@].submitted_at.unwrap()) >= t.wall_time_secs.unwrap()
}

/// The ids of the nodes among the first `n` that are over time, in order.
pub open spec fn over_time_ids(tasks: Seq<ConcreteTask>, m: Map<Seq<char>, TaskRecord>, now: u64, n: int) -> Seq<Seq<char>>
    decreases n,
{
    if n <= 0 {
        Seq::empty()
    } else if over_time(tasks, m, now, n - 1) {
        over_time_ids(tasks, m, now, n - 1).push(tasks[n - 1].id@)
    } else {
        over_time_ids(tasks, m, now, n - 1)
    }
}

/// Some dependency has a failed record.
pub open spec fn has_failed_dep(m: Map<Seq<char>, TaskRecord>, deps: Seq<Seq<char>>) -> bool {
    exists|j: int| 0 <= j < deps.len() && m.contains_key(#[trigger] deps[j]) && m[deps[j]].state is Failed
}

/// Task `k` waits (pending or ready) and some task with that id has a
/// failed dependency.
pub open spec fn skippable(m: Map<Seq<char>, TaskRecord>, tasks: Seq<ConcreteTask>, k: Seq<char>) -> bool {
    &&& m.contains_key(k)
    &&& (m[k].state is Pending || m[k].state is Ready)
    &&& exists|i: int| 0 <= i < tasks.len() && #[trigger] tasks[i].id@ == k && has_failed_dep(m, views(tasks[i].depends_on@))
}

/// The table after skipping every skippable task.
pub open spec fn skipped(m: Map<Seq<char>, TaskRecord>, tasks: Seq<ConcreteTask>) -> Map<Seq<char>, TaskRecord> {
    Map::new(
        |k: Seq<char>| m.contains_key(k),
        |k: Seq<char>| if skippable(m, tasks, k) { with_state(m[k], TaskState::Skipped) } else { m[k] },
    )
}

/// Skipping is done in one round: afterwards no task is skippable, since
/// skipping changes no failed record.
pub proof fn lemma_skipped_settles(m: Map<Seq<char>, TaskRecord>, tasks: Seq<ConcreteTask>, k: Seq<char>)
    ensures
        !skippable(skipped(m, tasks), tasks, k),
{
    let s = skipped(m, tasks);
    if skippable(s, tasks, k) {
        let i = choose|i: int| 0 <= i < tasks.len() && #[trigger] tasks[i].id@ == k && has_failed_dep(s, views(tasks[i].depends_on@));
        let deps = views(tasks[i].depends_on@);
        let j = choose|j: int| 0 <= j < deps.len() && s.contains_key(#[trigger] deps[j]) && s[deps[j]].state is Failed;
        assert(m.contains_key(deps[j]));
        assert(!skippable(m, tasks, deps[j]));
        assert(m[deps[j]].state is Failed);
        assert(has_failed_dep(m, deps));
        assert(!skippable(m, tasks, k));
        assert(s[k] == m[k]);
        assert(false);
    }
}

impl Scheduler {
    /// The ids of the tasks that ran past their wall-time limit by `now`
    /// (seconds since the Unix epoch), in node order.
    pub fn timed_out(&self, now: u64) -> (r: Vec<String>)
        ensures
            views(r@) == over_time_ids(self.tasks(), self.table(), now, self.tasks().len() as int),
    {
        proof {
            use_type_invariant(self);
            lemma_record_map_dom(self.records@);
        }
        let n = self.pipeline.len();
        let mut r: Vec<String> = Vec::new();
        let mut t: usize = 0;
        while t < n
            invariant
                n == self.tasks().len(),
                t <= n,
                record_ids(self.records@).no_duplicates(),
                forall|k: Seq<char>| #[trigger] record_map(self.records@).contains_key(k) <==> record_ids(self.records@).contains(k),
                views(r@) == over_time_ids(self.tasks(), self.table(), now, t as int),
            decreases n - t,
        {
            let task = self.pipeline.task(t);
            let over = match task.wall_time_secs {
                None => false,
                Some(limit) => match find_record(&self.records, task.id.as_str()) {
                    None => false,
                    Some(i) => {
                        proof {
                            lemma_record_map_index(self.records@, i as int);
                        }
                        let rec = &self.records[i];
                        match (&rec.state, rec.submitted_at) {
                            (TaskState::Submitted, Some(start)) | (TaskState::Running, Some(start)) => {
                                let elapsed: u64 = if now >= start { now - start } else { 0 };
                                elapsed as u128 >= limit as u128
                            },
                            _ => false,
                        }
                    },
                },
            };
            if over {
                r.push(task.id.clone());
            }
            proof {
                assert(self.tasks()[t as int] == *task);
                assert(views(r@) =~= over_time_ids(self.tasks(), self.table(), now, t as int + 1));
            }
            t = t + 1;
        }
        r
    }

    /// One round of skipping; whether anything changed.
    fn skip_round(&mut self) -> (changed: bool)
        ensures
            final(self).tasks() == old(self).tasks(),
            final(self).table() == skipped(old(self).table(), old(self).tasks()),
            changed == exists|k: Seq<char>| skippable(old(self).table(), old(self).tasks(), k),
    {
        let ghost m = self.table();
        let ghost tasks = self.tasks();
        let n = self.pipeline.len();
        let mut found: Vec<String> = Vec::new();
        let mut t: usize = 0;
        while t < n
            invariant
                n == tasks.len(),
                t <= n,
                m == self.table(),
                tasks == self.tasks(),
                forall|a: int| 0 <= a < found@.len() ==> skippable(m, tasks, #[trigger] found@[a]@),
                forall|i: int| 0 <= i < t && m.contains_key(#[trigger] tasks[i].id@) && (m[tasks[i].id@].state is Pending || m[tasks[i].id@].state is Ready) && has_failed_dep(m, views(tasks[i].depends_on@)) ==> views(found@).contains(tasks[i].id@),
            decreases n - t,
        {
            let task = self.pipeline.task(t);
            let waiting = match self.state_of(task.id.as_str()) {
                Some(TaskState::Pending) | Some(TaskState::Ready) => true,
                _ => false,
            };
            if waiting && self.any_dep_failed(&task.depends_on) {
                let ghost before = found@;
                found.push(task.id.clone());
                proof {
                    assert(tasks[t as int].id@ == task.id@);
                    assert(skippable(m, tasks, task.id@));
                    assert forall|i: int| 0 <= i < t + 1 && m.contains_key(#[trigger] tasks[i].id@) && (m[tasks[i].id@].state is Pending || m[tasks[i].id@].state is Ready) && has_failed_dep(m, views(tasks[i].depends_on@)) implies views(found@).contains(tasks[i].id@) by {
                        if i < t {
                            let a = choose|a: int| 0 <= a < views(before).len() && views(before)[a] == tasks[i].id@;
                            assert(views(found@)[a] == tasks[i].id@);
                        } else {
                            assert(views(found@)[before.len() as int] == tasks[i].id@);
                        }
                    }
                }
            }
            t = t + 1;
        }
        let mut j: usize = 0;
        while j < found.len()
            invariant
                j <= found.len(),
                tasks == self.tasks(),
                forall|a: int| 0 <= a < found@.len() ==> skippable(m, tasks, #[trigger] found@[a]@),
                self.table().dom() == m.dom(),
                forall|k: Seq<char>| #[trigger] self.table().contains_key(k) ==> self.table()[k] == (if views(found@).take(j as int).contains(k) { with_state(m[k], TaskState::Skipped) } else { m[k] }),
            decreases found.len() - j,
        {
            let ghost x = found@[j as int]@;
            self.set_state(found[j].as_str(), TaskState::Skipped);
            proof {
                assert(skippable(m, tasks, x));
                let t0 = views(found@).take(j as int);
                let t1 = views(found@).take(j as int + 1);
                assert(t1 =~= t0.push(x));
                assert(self.table().dom() =~= m.dom());
                assert forall|k: Seq<char>| #[trigger] self.table().contains_key(k) implies self.table()[k] == (if t1.contains(k) { with_state(m[k], TaskState::Skipped) } else { m[k] }) by {
                    if t1.contains(k) != t0.contains(k) {
                        if t1.contains(k) {
                            let q = choose|q: int| 0 <= q < t1.len() && t1[q] == k;
                            if q < t0.len() {
                                assert(t0[q] == k);
                            }
                        } else {
                            let q = choose|q: int| 0 <= q < t0.len() && t0[q] == k;
                            assert(t1[q] == k);
                        }
                    }
                    if k == x {
                        assert(t1[t0.len() as int] == x);
                    }
                }
            }
            j = j + 1;
        }
        proof {
            assert(views(found@).take(found@.len() as int) =~= views(found@));
            assert forall|k: Seq<char>| #[trigger] self.table().contains_key(k) implies self.table()[k] == skipped(m, tasks)[k] by {
                if skippable(m, tasks, k) {
                    let i = choose|i: int| 0 <= i < tasks.len() && #[trigger] tasks[i].id@ == k && has_failed_dep(m, views(tasks[i].depends_on@));
                    assert(views(found@).contains(tasks[i].id@));
                }
                if views(found@).contains(k) {
                    let a = choose|a: int| 0 <= a < views(found@).len() && views(found@)[a] == k;
                    assert(skippable(m, tasks, found@[a]@));
                }
            }
            assert(self.table() =~= skipped(m, tasks));
            if exists|k: Seq<char>| skippable(m, tasks, k) {
                let k = choose|k: Seq<char>| skippable(m, tasks, k);
                let i = choose|i: int| 0 <= i < tasks.len() && #[trigger] tasks[i].id@ == k && has_failed_dep(m, views(tasks[i].depends_on@));
                assert(views(found@).contains(tasks[i].id@));
            }
            if found@.len() > 0 {
                assert(skippable(m, tasks, found@[0]@));
            }
        }
        found.len() > 0
    }

    /// Whether some dependency in `deps` has a failed record.
    fn any_dep_failed(&self, deps: &Vec<String>) -> (r: bool)
        ensures
            r == has_failed_dep(self.table(), views(deps@)),
    {
        let mut j: usize = 0;
        while j < deps.len()
            invariant
                j <= deps.len(),
                forall|q: int| 0 <= q < j ==> !(self.table().contains_key(#[trigger] views(deps@)[q]) && self.table()[views(deps@)[q]].state is Failed),
            decreases deps.len() - j,
        {
            let failed = match self.state_of(deps[j].as_str()) {
                Some(TaskState::Failed(_)) => true,
                _ => false,
            };
            proof {
                assert(views(deps@)[j as int] == deps@[j as int]@);
            }
            if failed {
                return true;
            }
            j = j + 1;
        }
        false
    }

    /// Skips every pending or ready task with a failed dependency, repeating
    /// until a round changes nothing. As skipping creates no failure, the
    /// second round already finds nothing.
    pub fn skip_failed_dependents(&mut self)
        ensures
            final(self).tasks() == old(self).tasks(),
            final(self).table() == skipped(old(self).table(), old(self).tasks()),
    {
        let ghost m0 = self.table();
        let ghost tasks = self.tasks();
        let mut changed = true;
        let mut rounds: usize = 0;
        while changed
            invariant
                tasks == self.tasks(),
                rounds <= 2,
                rounds == 0 ==> self.table() == m0 && changed,
                rounds > 0 ==> self.table() == skipped(m0, tasks),
                rounds == 2 ==> !changed,
                rounds > 0 && changed ==> rounds == 1,
            decreases 2 - rounds,
        {
            let ghost before = self.table();
            changed = self.skip_round();
            proof {
                if rounds > 0 {
                    assert forall|k: Seq<char>| !skippable(before, tasks, k) by {
                        lemma_skipped_settles(m0, tasks, k);
                    }
                    assert(self.table() =~= skipped(m0, tasks));
                }
            }
            rounds = rounds + 1;
        }
    }

    /// Whether every record is final: completed, failed, skipped or timed out.
    pub fn all_terminal(&self) -> (r: bool)
        ensures
            r == forall|k: Seq<char>| #[trigger] self.table().contains_key(k) ==> is_final(self.table()[k].state),
    {
        proof {
            use_type_invariant(self);
            lemma_record_map_dom(self.records@);
        }
        let mut i: usize = 0;
        while i < self.records.len()
            invariant
                i <= self.records.len(),
                record_ids(self.records@).no_duplicates(),
                forall|q: int| 0 <= q < i ==> is_final(#[trigger] self.records@[q].state),
            decreases self.records.len() - i,
        {
            let fin = match self.records[i].state {
                TaskState::Completed | TaskState::Failed(_) | TaskState::Skipped | TaskState::TimedOut => true,
                _ => false,
            };
            if !fin {
                proof {
                    lemma_record_map_index(self.records@, i as int);
                }
                return false;
            }
            i = i + 1;
        }
        proof {
            assert forall|k: Seq<char>| #[trigger] self.table().contains_key(k) implies is_final(self.table()[k].state) by {
                assert(record_ids(self.records@).contains(k));
                let q = choose|q: int| 0 <= q < record_ids(self.records@).len() && record_ids(self.records@)[q] == k;
                lemma_record_map_index(self.records@, q);
            }
        }
        true
    }

    /// The submitted or running tasks that have a handle, with it: the jobs
    /// to poll, or to cancel when the run is stopped.
    pub fn active_jobs(&self) -> (r: Vec<(String, JobHandle)>)
        ensures
            r@.map_values(|p: (String, JobHandle)| p.0@).no_duplicates(),
            forall|a: int| 0 <= a < r@.len() ==> self.table().contains_key(#[trigger] r@[a].0@) && is_active(self.table()[r@[a].0@].state) && self.table()[r@[a].0@].handle == Some(r@[a].1),
            forall|k: Seq<char>| #[trigger] self.table().contains_key(k) && is_active(self.table()[k].state) && self.table()[k].handle is Some ==> r@.map_values(|p: (String, JobHandle)| p.0@).contains(k),
    {
        proof {
            use_type_invariant(self);
            lemma_record_map_dom(self.records@);
        }
        let ghost ids = record_ids(self.records@);
        let ghost m = record_map(self.records@);
        let mut r: Vec<(String, JobHandle)> = Vec::new();
        let mut i: usize = 0;
        while i < self.records.len()
            invariant
                i <= self.records.len(),
                ids == record_ids(self.records@),
                m == record_map(self.records@),
                ids.no_duplicates(),
                forall|a: int| 0 <= a < r@.len() ==> ids.take(i as int).contains(#[trigger] r@[a].0@),
                forall|a: int| 0 <= a < r@.len() ==> m.contains_key(#[trigger] r@[a].0@) && is_active(m[r@[a].0@].state) && m[r@[a].0@].handle == Some(r@[a].1),
                forall|a: int, b: int| 0 <= a < b < r@.len() ==> r@[a].0@ != r@[b].0@,
                forall|q: int| 0 <= q < i && is_active(#[trigger] self.records@[q].state) && self.records@[q].handle is Some ==> exists|a: int| 0 <= a < r@.len() && r@[a].0@ == self.records@[q].id@,
            decreases self.records.len() - i,
        {
            let ghost x = ids[i as int];
            proof {
                assert(ids.take(i as int + 1) =~= ids.take(i as int).push(x));
                assert forall|a: int| 0 <= a < r@.len() implies ids.take(i as int + 1).contains(#[trigger] r@[a].0@) by {
                    let q = choose|q: int| 0 <= q < ids.take(i as int).len() && ids.take(i as int)[q] == r@[a].0@;
                    assert(ids.take(i as int + 1)[q] == r@[a].0@);
                }
            }
            let active = match self.records[i].state {
                TaskState::Submitted | TaskState::Running => true,
                _ => false,
            };
            if active {
                match &self.records[i].handle {
                    Some(h) => {
                        let ghost before = r@;
                        let h2 = JobHandle { raw: h.raw.clone() };
                        r.push((self.records[i].id.clone(), h2));
                        proof {
                            lemma_record_map_index(self.records@, i as int);
                            assert(ids[i as int] == self.records@[i as int].id@);
                            assert(!ids.take(i as int).contains(x)) by {
                                if ids.take(i as int).contains(x) {
                                    let q = choose|q: int| 0 <= q < ids.take(i as int).len() && ids.take(i as int)[q] == x;
                                    assert(ids[q] == ids[i as int]);
                                }
                            }
                            assert forall|a: int| 0 <= a < r@.len() implies ids.take(i as int + 1).contains(#[trigger] r@[a].0@) by {
                                if a < before.len() {
                                    assert(r@[a] == before[a]);
                                } else {
                                    assert(ids.take(i as int + 1)[i as int] == r@[a].0@);
                                }
                            }
                            assert forall|a: int| 0 <= a < r@.len() implies m.contains_key(#[trigger] r@[a].0@) && is_active(m[r@[a].0@].state) && m[r@[a].0@].handle == Some(r@[a].1) by {
                                if a < before.len() {
                                    assert(r@[a] == before[a]);
                                }
                            }
                            assert forall|a: int, b: int| 0 <= a < b < r@.len() implies r@[a].0@ != r@[b].0@ by {
                                if b == r@.len() - 1 {
                                    assert(r@[a] == before[a]);
                                    assert(ids.take(i as int).contains(before[a].0@));
                                } else {
                                    assert(r@[a] == before[a] && r@[b] == before[b]);
                                }
                            }
                            assert forall|q: int| 0 <= q < i + 1 && is_active(#[trigger] self.records@[q].state) && self.records@[q].handle is Some implies exists|a: int| 0 <= a < r@.len() && r@[a].0@ == self.records@[q].id@ by {
                                if q < i {
                                    let a = choose|a: int| 0 <= a < before.len() && before[a].0@ == self.records@[q].id@;
                                    assert(r@[a] == before[a]);
                                } else {
                                    assert(r@[before.len() as int].0@ == self.records@[q].id@);
                                }
                            }
                        }
                    },
                    None => {},
                }
            }
            i = i + 1;
        }
        proof {
            let rid = r@.map_values(|p: (String, JobHandle)| p.0@);
            assert forall|a: int, b: int| 0 <= a < rid.len() && 0 <= b < rid.len() && a != b implies rid[a] != rid[b] by {
                if a < b {
                    assert(r@[a].0@ != r@[b].0@);
                } else {
                    assert(r@[b].0@ != r@[a].0@);
                }
            }
            assert forall|k: Seq<char>| #[trigger] m.contains_key(k) && is_active(m[k].state) && m[k].handle is Some implies rid.contains(k) by {
                assert(ids.contains(k));
                let q = choose|q: int| 0 <= q < ids.len() && ids[q] == k;
                lemma_record_map_index(self.records@, q);
                assert(is_active(self.records@[q].state) && self.records@[q].handle is Some);
                let a = choose|a: int| 0 <= a < r@.len() && r@[a].0@ == self.records@[q].id@;
                assert(rid[a] == k);
            }
        }
        r
    }
}

impl Scheduler {
    /// The handle recorded for `id`, if any.
    pub fn handle_of(&self, id: &str) -> (r: Option<JobHandle>)
        ensures
            r == (if self.table().contains_key(id@) { self.table()[id@].handle } else { None::<JobHandle> }),
    {
        proof {
            use_type_invariant(self);
            lemma_record_map_dom(self.records@);
        }
        match find_record(&self.records, id) {
            Some(i) => {
                proof {
                    lemma_record_map_index(self.records@, i as int);
                }
                copy_handle(&self.records[i].handle)
            },
            None => None,
        }
    }
}

} // verus!
