//! Task status bookkeeping: the status of each task, the operations that
//! change it, the counts over it, and the store that a workflow run keeps.
use crate::text::{str_eq, views};
use vstd::prelude::*;

verus! {

/// Status of one task.
#[derive(Debug, Clone, PartialEq)]
pub enum TaskStatus {
    Pending,
    Running,
    Completed,
    Failed { error: String },
    /// Explicitly skipped by the user or workflow logic.
    Skipped,
    /// Skipped because an upstream dependency failed; eligible for retry after fixing upstream.
    SkippedDueToDependencyFailure,
}

impl TaskStatus {
    /// A copy of this status.
    pub fn duplicate(&self) -> (r: TaskStatus)
        ensures
            r == *self,
    {
        match self {
            TaskStatus::Pending => TaskStatus::Pending,
            TaskStatus::Running => TaskStatus::Running,
            TaskStatus::Completed => TaskStatus::Completed,
            TaskStatus::Failed { error } => TaskStatus::Failed { error: error.clone() },
            TaskStatus::Skipped => TaskStatus::Skipped,
            TaskStatus::SkippedDueToDependencyFailure => TaskStatus::SkippedDueToDependencyFailure,
        }
    }
}

/// The status a task takes when a run resumes from a saved state: running,
/// failed and dependency-skipped tasks go back to pending.
pub open spec fn resumed(s: TaskStatus) -> TaskStatus {
    match s {
        TaskStatus::Running | TaskStatus::Failed { .. } | TaskStatus::SkippedDueToDependencyFailure => TaskStatus::Pending,
        _ => s,
    }
}

/// The map that inserting the entries one after another, from the first,
/// produces; a later entry for the same id replaces an earlier one.
pub open spec fn entries_map(s: Seq<(String, TaskStatus)>) -> Map<Seq<char>, TaskStatus>
    decreases s.len(),
{
    if s.len() == 0 {
        Map::empty()
    } else {
        entries_map(s.drop_last()).insert(s.last().0@, s.last().1)
    }
}

/// The ids of the entries, in order.
pub open spec fn entry_ids(s: Seq<(String, TaskStatus)>) -> Seq<Seq<char>> {
    s.map_values(|e: (String, TaskStatus)| e.0@)
}

/// Number of entries among the first `n` whose status satisfies `p`.
pub open spec fn seq_count(s: Seq<(String, TaskStatus)>, p: spec_fn(TaskStatus) -> bool, n: int) -> nat
    decreases n,
{
    if n <= 0 {
        0
    } else {
        seq_count(s, p, n - 1) + if p(s[n - 1].1) { 1nat } else { 0nat }
    }
}

/// Number of tasks whose status satisfies `p`.
pub open spec fn map_count(m: Map<Seq<char>, TaskStatus>, p: spec_fn(TaskStatus) -> bool) -> nat {
    m.dom().filter(|k: Seq<char>| p(m[k])).len()
}

pub open spec fn is_pending(s: TaskStatus) -> bool {
    s is Pending
}

pub open spec fn is_running(s: TaskStatus) -> bool {
    s is Running
}

pub open spec fn is_completed(s: TaskStatus) -> bool {
    s is Completed
}

pub open spec fn is_failed(s: TaskStatus) -> bool {
    s is Failed
}

/// Skipped by the user or because of a dependency.
pub open spec fn is_skipped(s: TaskStatus) -> bool {
    s is Skipped || s is SkippedDueToDependencyFailure
}

/// The status recorded for `id`, if any.
pub open spec fn lookup(m: Map<Seq<char>, TaskStatus>, id: Seq<char>) -> Option<TaskStatus> {
    if m.contains_key(id) {
        Some(m[id])
    } else {
        None
    }
}

/// Keeps the status of each task of a workflow run.
pub trait StateStore {
    /// The status of each task that has one.
    spec fn status_map(&self) -> Map<Seq<char>, TaskStatus>;

    /// Whether `after` still holds what this store holds besides the statuses,
    /// as a change of one status leaves it.
    spec fn keeps_rest(&self, after: &Self) -> bool;

    /// Returns the current status of a task.
    fn get_status(&self, id: &str) -> (r: Option<TaskStatus>)
        ensures
            r == lookup(self.status_map(), id@),
    ;

    /// Sets the status of a task.
    fn set_status(&mut self, id: &str, status: TaskStatus)
        ensures
            final(self).status_map() == old(self).status_map().insert(id@, status),
            old(self).keeps_rest(&*final(self)),
    ;

    /// Returns all task ids with their statuses, each id once.
    fn all_tasks(&self) -> (r: Vec<(String, TaskStatus)>)
        ensures
            entry_ids(r@).no_duplicates(),
            entries_map(r@) == self.status_map(),
    ;
}

/// Counts of tasks by status.
#[derive(Debug, Clone)]
pub struct StateSummary {
    /// Number of pending tasks.
    pub pending: usize,
    /// Number of running tasks.
    pub running: usize,
    /// Number of completed tasks.
    pub completed: usize,
    /// Number of failed tasks.
    pub failed: usize,
    /// Number of skipped tasks, for either reason.
    pub skipped: usize,
}

/// Convenience operations on any state store.
pub trait StateStoreExt: StateStore {
    /// Marks a task as running.
    fn mark_running(&mut self, id: &str)
        ensures
            final(self).status_map() == old(self).status_map().insert(id@, TaskStatus::Running),
            old(self).keeps_rest(&*final(self)),
    {
        self.set_status(id, TaskStatus::Running);
    }

    /// Marks a task as completed.
    fn mark_completed(&mut self, id: &str)
        ensures
            final(self).status_map() == old(self).status_map().insert(id@, TaskStatus::Completed),
            old(self).keeps_rest(&*final(self)),
    {
        self.set_status(id, TaskStatus::Completed);
    }

    /// Marks a task as failed with the provided error message.
    fn mark_failed(&mut self, id: &str, error: String)
        ensures
            final(self).status_map() == old(self).status_map().insert(id@, TaskStatus::Failed { error }),
            old(self).keeps_rest(&*final(self)),
    {
        self.set_status(id, TaskStatus::Failed { error });
    }

    /// Marks a task as pending.
    fn mark_pending(&mut self, id: &str)
        ensures
            final(self).status_map() == old(self).status_map().insert(id@, TaskStatus::Pending),
            old(self).keeps_rest(&*final(self)),
    {
        self.set_status(id, TaskStatus::Pending);
    }

    /// Marks a task as skipped.
    fn mark_skipped(&mut self, id: &str)
        ensures
            final(self).status_map() == old(self).status_map().insert(id@, TaskStatus::Skipped),
            old(self).keeps_rest(&*final(self)),
    {
        self.set_status(id, TaskStatus::Skipped);
    }

    /// Marks a task as skipped because of an upstream failure.
    fn mark_skipped_due_to_dep_failure(&mut self, id: &str)
        ensures
            final(self).status_map() == old(self).status_map().insert(id@, TaskStatus::SkippedDueToDependencyFailure),
            old(self).keeps_rest(&*final(self)),
    {
        self.set_status(id, TaskStatus::SkippedDueToDependencyFailure);
    }

    /// Counts the tasks by status.
    fn summary(&self) -> (s: StateSummary)
        ensures
            s.pending == map_count(self.status_map(), |t: TaskStatus| is_pending(t)),
            s.running == map_count(self.status_map(), |t: TaskStatus| is_running(t)),
            s.completed == map_count(self.status_map(), |t: TaskStatus| is_completed(t)),
            s.failed == map_count(self.status_map(), |t: TaskStatus| is_failed(t)),
            s.skipped == map_count(self.status_map(), |t: TaskStatus| is_skipped(t)),
    {
        let tasks = self.all_tasks();
        let mut s = StateSummary { pending: 0, running: 0, completed: 0, failed: 0, skipped: 0 };
        let mut i: usize = 0;
        while i < tasks.len()
            invariant
                i <= tasks.len(),
                s.pending == seq_count(tasks@, |t: TaskStatus| is_pending(t), i as int),
                s.running == seq_count(tasks@, |t: TaskStatus| is_running(t), i as int),
                s.completed == seq_count(tasks@, |t: TaskStatus| is_completed(t), i as int),
                s.failed == seq_count(tasks@, |t: TaskStatus| is_failed(t), i as int),
                s.skipped == seq_count(tasks@, |t: TaskStatus| is_skipped(t), i as int),
            decreases tasks.len() - i,
        {
            proof {
                lemma_seq_count_bound(tasks@, |t: TaskStatus| is_pending(t), i as int);
                lemma_seq_count_bound(tasks@, |t: TaskStatus| is_running(t), i as int);
                lemma_seq_count_bound(tasks@, |t: TaskStatus| is_completed(t), i as int);
                lemma_seq_count_bound(tasks@, |t: TaskStatus| is_failed(t), i as int);
                lemma_seq_count_bound(tasks@, |t: TaskStatus| is_skipped(t), i as int);
            }
            match &tasks[i].1 {
                TaskStatus::Pending => s.pending = s.pending + 1,
                TaskStatus::Running => s.running = s.running + 1,
                TaskStatus::Completed => s.completed = s.completed + 1,
                TaskStatus::Failed { .. } => s.failed = s.failed + 1,
                TaskStatus::Skipped | TaskStatus::SkippedDueToDependencyFailure => s.skipped = s.skipped + 1,
            }
            i = i + 1;
        }
        proof {
            lemma_count_matches(tasks@, |t: TaskStatus| is_pending(t));
            lemma_count_matches(tasks@, |t: TaskStatus| is_running(t));
            lemma_count_matches(tasks@, |t: TaskStatus| is_completed(t));
            lemma_count_matches(tasks@, |t: TaskStatus| is_failed(t));
            lemma_count_matches(tasks@, |t: TaskStatus| is_skipped(t));
        }
        s
    }

    /// Whether the task is completed.
    fn is_completed(&self, id: &str) -> (r: bool)
        ensures
            r == (lookup(self.status_map(), id@) == Some(TaskStatus::Completed)),
    {
        match self.get_status(id) {
            Some(TaskStatus::Completed) => true,
            _ => false,
        }
    }
}

impl<T: StateStore> StateStoreExt for T {}

/// A count over a prefix never exceeds its length.
pub proof fn lemma_seq_count_bound(s: Seq<(String, TaskStatus)>, p: spec_fn(TaskStatus) -> bool, n: int)
    requires
        0 <= n,
    ensures
        seq_count(s, p, n) <= n,
    decreases n,
{
    if n > 0 {
        lemma_seq_count_bound(s, p, n - 1);
    }
}

/// The domain of `entries_map` holds exactly the entry ids, and is finite.
pub proof fn lemma_entries_map_dom(s: Seq<(String, TaskStatus)>)
    ensures
        entries_map(s).dom().finite(),
        forall|k: Seq<char>| #[trigger] entries_map(s).contains_key(k) <==> entry_ids(s).contains(k),
    decreases s.len(),
{
    if s.len() > 0 {
        lemma_entries_map_dom(s.drop_last());
        let ids = entry_ids(s);
        let prev = entry_ids(s.drop_last());
        assert(prev =~= ids.drop_last());
        assert forall|k: Seq<char>| entries_map(s).contains_key(k) <==> ids.contains(k) by {
            if ids.contains(k) {
                let i = choose|i: int| 0 <= i < ids.len() && ids[i] == k;
                if i < ids.len() - 1 {
                    assert(prev[i] == k);
                }
            }
            if prev.contains(k) {
                let i = choose|i: int| 0 <= i < prev.len() && prev[i] == k;
                assert(ids[i] == k);
            }
            assert(ids[ids.len() - 1] == s.last().0@);
        }
    }
}

/// With distinct ids, the entry at position `i` is the one the map keeps.
pub proof fn lemma_entries_map_index(s: Seq<(String, TaskStatus)>, i: int)
    requires
        entry_ids(s).no_duplicates(),
        0 <= i < s.len(),
    ensures
        entries_map(s).contains_key(s[i].0@),
        entries_map(s)[s[i].0@] == s[i].1,
    decreases s.len(),
{
    lemma_entries_map_dom(s);
    assert(entry_ids(s)[i] == s[i].0@);
    if i < s.len() - 1 {
        let t = s.drop_last();
        assert(entry_ids(t) =~= entry_ids(s).drop_last());
        lemma_entries_map_index(t, i);
        assert(entry_ids(s)[s.len() - 1] == s.last().0@);
        assert(s.last().0@ != s[i].0@);
    }
}

/// Replacing the status of the entry at `i` updates the map at its id.
pub proof fn lemma_entries_map_update(s: Seq<(String, TaskStatus)>, i: int, st: TaskStatus)
    requires
        entry_ids(s).no_duplicates(),
        0 <= i < s.len(),
    ensures
        entry_ids(s.update(i, (s[i].0, st))) == entry_ids(s),
        entries_map(s.update(i, (s[i].0, st))) == entries_map(s).insert(s[i].0@, st),
    decreases s.len(),
{
    let u = s.update(i, (s[i].0, st));
    assert(entry_ids(u) =~= entry_ids(s));
    if i == s.len() - 1 {
        assert(u.drop_last() =~= s.drop_last());
        lemma_entries_map_dom(s.drop_last());
        assert(entries_map(u) =~= entries_map(s).insert(s[i].0@, st));
    } else {
        let t = s.drop_last();
        assert(entry_ids(t) =~= entry_ids(s).drop_last());
        lemma_entries_map_update(t, i, st);
        assert(u.drop_last() =~= t.update(i, (t[i].0, st)));
        assert(entry_ids(s)[s.len() - 1] != entry_ids(s)[i]);
        assert(entries_map(u) =~= entries_map(s).insert(s[i].0@, st));
    }
}

/// Counting entries with distinct ids counts the tasks of the map.
pub proof fn lemma_count_matches(s: Seq<(String, TaskStatus)>, p: spec_fn(TaskStatus) -> bool)
    requires
        entry_ids(s).no_duplicates(),
    ensures
        seq_count(s, p, s.len() as int) == map_count(entries_map(s), p),
    decreases s.len(),
{
    let m = entries_map(s);
    if s.len() == 0 {
        assert(m.dom().filter(|k: Seq<char>| p(m[k])) =~= Set::<Seq<char>>::empty());
    } else {
        let t = s.drop_last();
        assert(entry_ids(t) =~= entry_ids(s).drop_last());
        lemma_count_matches(t, p);
        assert forall|j: int| 0 <= j < t.len() implies #[trigger] t[j] == s[j] by {}
        assert(seq_count(t, p, t.len() as int) == seq_count(s, p, t.len() as int)) by {
            lemma_seq_count_prefix(t, s, p, t.len() as int);
        }
        let m0 = entries_map(t);
        let k = s.last().0@;
        lemma_entries_map_dom(t);
        assert(!entry_ids(t).contains(k)) by {
            if entry_ids(t).contains(k) {
                let j = choose|j: int| 0 <= j < entry_ids(t).len() && entry_ids(t)[j] == k;
                assert(entry_ids(s)[j] == entry_ids(s)[s.len() - 1]);
            }
        }
        let f0 = m0.dom().filter(|x: Seq<char>| p(m0[x]));
        let f = m.dom().filter(|x: Seq<char>| p(m[x]));
        assert(f0.finite()) by {
            m0.dom().lemma_len_filter(|x: Seq<char>| p(m0[x]));
        }
        if p(s.last().1) {
            assert(f =~= f0.insert(k));
        } else {
            assert(f =~= f0);
        }
    }
}

/// Counts over a common prefix agree.
pub proof fn lemma_seq_count_prefix(a: Seq<(String, TaskStatus)>, b: Seq<(String, TaskStatus)>, p: spec_fn(TaskStatus) -> bool, n: int)
    requires
        0 <= n <= a.len(),
        n <= b.len(),
        forall|j: int| 0 <= j < n ==> a[j] == b[j],
    ensures
        seq_count(a, p, n) == seq_count(b, p, n),
    decreases n,
{
    if n > 0 {
        lemma_seq_count_prefix(a, b, p, n - 1);
    }
}

/// A status that was just written is what a read gives back, and writing
/// one task's status leaves every other task's status as it was.
pub proof fn lemma_read_after_write(m: Map<Seq<char>, TaskStatus>, id: Seq<char>, status: TaskStatus, other: Seq<char>)
    ensures
        lookup(m.insert(id, status), id) == Some(status),
        other != id ==> lookup(m.insert(id, status), other) == lookup(m, other),
{
}

/// Resuming twice changes nothing more than resuming once, and a resumed
/// task is never running, failed or skipped because of a dependency.
pub proof fn lemma_resume_idempotent(s: TaskStatus)
    ensures
        resumed(resumed(s)) == resumed(s),
        !(resumed(s) is Running),
        !(resumed(s) is Failed),
        !(resumed(s) is SkippedDueToDependencyFailure),
{
}

/// The tasks of `m` whose status satisfies `p`.
pub open spec fn with_status(m: Map<Seq<char>, TaskStatus>, p: spec_fn(TaskStatus) -> bool) -> Set<Seq<char>> {
    m.dom().filter(|k: Seq<char>| p(m[k]))
}

/// The counts of a summary add up to the number of tasks: every task is
/// pending, running, completed, failed or skipped, and only one of these.
pub proof fn lemma_summary_partition(m: Map<Seq<char>, TaskStatus>)
    requires
        m.dom().finite(),
    ensures
        map_count(m, |t: TaskStatus| is_pending(t)) + map_count(m, |t: TaskStatus| is_running(t))
            + map_count(m, |t: TaskStatus| is_completed(t)) + map_count(m, |t: TaskStatus| is_failed(t))
            + map_count(m, |t: TaskStatus| is_skipped(t)) == m.dom().len(),
{
    let a = with_status(m, |t: TaskStatus| is_pending(t));
    let b = with_status(m, |t: TaskStatus| is_running(t));
    let c = with_status(m, |t: TaskStatus| is_completed(t));
    let d = with_status(m, |t: TaskStatus| is_failed(t));
    let e = with_status(m, |t: TaskStatus| is_skipped(t));
    m.dom().lemma_len_filter(|k: Seq<char>| is_pending(m[k]));
    m.dom().lemma_len_filter(|k: Seq<char>| is_running(m[k]));
    m.dom().lemma_len_filter(|k: Seq<char>| is_completed(m[k]));
    m.dom().lemma_len_filter(|k: Seq<char>| is_failed(m[k]));
    m.dom().lemma_len_filter(|k: Seq<char>| is_skipped(m[k]));
    assert(a.disjoint(b));
    vstd::set_lib::lemma_set_disjoint_lens(a, b);
    let ab = a + b;
    assert(ab.disjoint(c));
    vstd::set_lib::lemma_set_disjoint_lens(ab, c);
    let abc = ab + c;
    assert(abc.disjoint(d));
    vstd::set_lib::lemma_set_disjoint_lens(abc, d);
    let abcd = abc + d;
    assert(abcd.disjoint(e));
    vstd::set_lib::lemma_set_disjoint_lens(abcd, e);
    assert(abcd + e =~= m.dom());
}

/// Task id to the ids of its direct dependents.
pub struct TaskSuccessors {
    entries: Vec<(String, Vec<String>)>,
}

/// The map that the successor entries, inserted in order, produce.
pub open spec fn successor_map(s: Seq<(String, Vec<String>)>) -> Map<Seq<char>, Seq<Seq<char>>>
    decreases s.len(),
{
    if s.len() == 0 {
        Map::empty()
    } else {
        successor_map(s.drop_last()).insert(s.last().0@, views(s.last().1@))
    }
}

/// Calls `Vec::from_iter` on the map, which takes its entries: every entry
/// of the map once, in the map's iteration order, which depends on its hasher.
#[verifier::external_body]
fn hash_map_entries(m: std::collections::HashMap<String, Vec<String>>) -> (r: Vec<(String, Vec<String>)>)
    ensures
        r@.len() == m@.len(),
        forall|i: int, j: int| 0 <= i < j < r@.len() ==> r@[i].0@ != r@[j].0@,
        forall|i: int| 0 <= i < r@.len() ==> m@.contains_key(#[trigger] r@[i].0) && m@[r@[i].0] == r@[i].1,
        forall|k: String| #[trigger] m@.contains_key(k) ==> exists|i: int| 0 <= i < r@.len() && r@[i].0 == k,
{
    Vec::from_iter(m)
}

impl View for TaskSuccessors {
    type V = Map<Seq<char>, Seq<Seq<char>>>;

    closed spec fn view(&self) -> Map<Seq<char>, Seq<Seq<char>>> {
        successor_map(self.entries@)
    }
}

/// Every id that some entry lists as a dependent.
pub open spec fn targets_of(s: Seq<(String, Vec<String>)>) -> Set<Seq<char>>
    decreases s.len(),
{
    if s.len() == 0 {
        Set::empty()
    } else {
        targets_of(s.drop_last()).union(views(s.last().1@).to_set())
    }
}

proof fn lemma_targets_of(s: Seq<(String, Vec<String>)>)
    ensures
        targets_of(s).finite(),
        forall|k: Seq<char>, j: int| #[trigger] successor_map(s).contains_key(k) && 0 <= j < successor_map(s)[k].len() ==> targets_of(s).contains(#[trigger] successor_map(s)[k][j]),
    decreases s.len(),
{
    broadcast use vstd::seq_lib::seq_to_set_is_finite;
    if s.len() > 0 {
        let t = s.drop_last();
        lemma_targets_of(t);
        assert forall|k: Seq<char>, j: int| #[trigger] successor_map(s).contains_key(k) && 0 <= j < successor_map(s)[k].len() implies targets_of(s).contains(#[trigger] successor_map(s)[k][j]) by {
            if k == s.last().0@ {
                assert(views(s.last().1@).to_set().contains(successor_map(s)[k][j]));
            } else {
                assert(successor_map(t).contains_key(k));
                assert(successor_map(s)[k] == successor_map(t)[k]);
            }
        }
    }
}

impl TaskSuccessors {
    /// Every id listed as a dependent.
    pub closed spec fn targets(&self) -> Set<Seq<char>> {
        targets_of(self.entries@)
    }

    /// The listed dependents form a finite set.
    pub proof fn lemma_targets(&self)
        ensures
            self.targets().finite(),
            forall|k: Seq<char>, j: int| #[trigger] self@.contains_key(k) && 0 <= j < self@[k].len() ==> self.targets().contains(#[trigger] self@[k][j]),
    {
        lemma_targets_of(self.entries@);
    }

    /// Builds the successor table from a map of task id to dependents.
    pub fn new(map: std::collections::HashMap<String, Vec<String>>) -> (r: TaskSuccessors)
        ensures
            forall|k: String| #[trigger] map@.contains_key(k) ==> r@.contains_key(k@) && r@[k@] == views(map@[k]@),
            forall|k: Seq<char>| r@.contains_key(k) ==> exists|s: String| #[trigger] map@.contains_key(s) && s@ == k,
    {
        let entries = hash_map_entries(map);
        let r = TaskSuccessors { entries };
        proof {
            lemma_successor_map_dom(entries@);
            assert forall|k: String| #[trigger] map@.contains_key(k) implies r@.contains_key(k@) && r@[k@] == views(map@[k]@) by {
                let i = choose|i: int| 0 <= i < entries@.len() && entries@[i].0 == k;
                lemma_successor_map_last_wins(entries@, i);
            }
            assert forall|k: Seq<char>| r@.contains_key(k) implies exists|s: String| #[trigger] map@.contains_key(s) && s@ == k by {
                let i = choose|i: int| 0 <= i < entries@.len() && entries@[i].0@ == k;
                assert(map@.contains_key(entries@[i].0));
            }
        }
        r
    }

    /// The entries of the table, id and dependents; a later entry for an id
    /// replaces an earlier one.
    pub fn entries(&self) -> (r: &Vec<(String, Vec<String>)>)
        ensures
            successor_map(r@) == self@,
    {
        &self.entries
    }

    /// The dependents recorded for `id`.
    pub fn get(&self, id: &str) -> (r: Option<&Vec<String>>)
        ensures
            r is None <==> !self@.contains_key(id@),
            r matches Some(v) ==> views(v@) == self@[id@],
    {
        let mut i = self.entries.len();
        while i > 0
            invariant
                i <= self.entries.len(),
                forall|k: int| i <= k < self.entries@.len() ==> self.entries@[k].0@ != id@,
            decreases i,
        {
            i = i - 1;
            if str_eq(self.entries[i].0.as_str(), id) {
                proof {
                    lemma_successor_map_last_wins(self.entries@, i as int);
                }
                return Some(&self.entries[i].1);
            }
        }
        proof {
            lemma_successor_map_dom(self.entries@);
        }
        None
    }
}

/// The domain of `successor_map` holds exactly the entry ids.
pub proof fn lemma_successor_map_dom(s: Seq<(String, Vec<String>)>)
    ensures
        forall|k: Seq<char>| successor_map(s).contains_key(k) <==> exists|i: int| 0 <= i < s.len() && #[trigger] s[i].0@ == k,
    decreases s.len(),
{
    if s.len() > 0 {
        let t = s.drop_last();
        lemma_successor_map_dom(t);
        assert forall|k: Seq<char>| successor_map(s).contains_key(k) implies exists|i: int| 0 <= i < s.len() && #[trigger] s[i].0@ == k by {
            if k == s.last().0@ {
                assert(s[s.len() - 1].0@ == k);
            } else {
                assert(successor_map(t).contains_key(k));
                let i = choose|i: int| 0 <= i < t.len() && #[trigger] t[i].0@ == k;
                assert(t[i] == s[i]);
                assert(s[i].0@ == k);
            }
        }
        assert forall|k: Seq<char>| (exists|i: int| 0 <= i < s.len() && #[trigger] s[i].0@ == k) implies successor_map(s).contains_key(k) by {
            let i = choose|i: int| 0 <= i < s.len() && #[trigger] s[i].0@ == k;
            if i < s.len() - 1 {
                assert(t[i] == s[i]);
                assert(t[i].0@ == k);
            }
        }
    }
}

/// An entry whose id no later entry repeats gives the map's value for that id.
pub proof fn lemma_successor_map_last_wins(s: Seq<(String, Vec<String>)>, i: int)
    requires
        0 <= i < s.len(),
        forall|k: int| i < k < s.len() ==> s[k].0@ != s[i].0@,
    ensures
        successor_map(s).contains_key(s[i].0@),
        successor_map(s)[s[i].0@] == views(s[i].1@),
    decreases s.len(),
{
    if i < s.len() - 1 {
        let t = s.drop_last();
        lemma_successor_map_last_wins(t, i);
        assert(t[i] == s[i]);
    }
}

#[verifier::external_type_specification]
#[verifier::external_body]
pub struct ExOffsetDateTime(time::OffsetDateTime);

/// Calls `OffsetDateTime::now_utc`: the current time, which nothing here
/// constrains.
#[verifier::external_body]
fn utc_now() -> time::OffsetDateTime {
    time::OffsetDateTime::now_utc()
}

/// Text laid out as an RFC 3339 date and time: `YYYY-MM-DDTHH:MM:SS`
/// followed by at least the zone (`Z` or an offset).
pub open spec fn rfc3339_shaped(s: Seq<char>) -> bool {
    &&& s.len() >= 20
    &&& s[4] == '-'
    &&& s[7] == '-'
    &&& s[10] == 'T'
    &&& s[13] == ':'
    &&& s[16] == ':'
}

/// Calls `OffsetDateTime::format` with the RFC 3339 description; `None`
/// when the crate cannot render the time that way (a year outside
/// 0..=9999). The crate writes four year digits, `-`, two month digits,
/// `-`, two day digits, `T`, hours, `:`, minutes, `:`, seconds, then any
/// fraction and the zone; which time it was is left unstated.
#[verifier::external_body]
fn format_rfc3339(t: time::OffsetDateTime) -> (r: Option<String>)
    ensures
        r matches Some(s) ==> rfc3339_shaped(s@),
{
    t.format(&time::format_description::well_known::Rfc3339).ok()
}

/// The current UTC time in RFC 3339 form, or the Unix epoch when the time
/// cannot be rendered.
pub fn now_iso8601() -> (r: String)
    ensures
        rfc3339_shaped(r@),
{
    match format_rfc3339(utc_now()) {
        Some(s) => s,
        None => {
            proof {
                reveal_strlit("1970-01-01T00:00:00Z");
            }
            "1970-01-01T00:00:00Z".to_string()
        },
    }
}

/// Index of the entry for `id`.
fn find_entry(v: &Vec<(String, TaskStatus)>, id: &str) -> (r: Option<usize>)
    ensures
        r matches Some(i) ==> i < v@.len() && v@[i as int].0@ == id@,
        r is None ==> !entry_ids(v@).contains(id@),
{
    let mut i: usize = 0;
    while i < v.len()
        invariant
            i <= v.len(),
            forall|k: int| 0 <= k < i ==> entry_ids(v@)[k] != id@,
        decreases v.len() - i,
    {
        if str_eq(v[i].0.as_str(), id) {
            return Some(i);
        }
        i = i + 1;
    }
    None
}

/// Records `status` for `id` in an entry list with distinct ids: the entry
/// for `id` is updated in place, or a new entry is appended.
fn put_entry(v: &mut Vec<(String, TaskStatus)>, id: &str, status: TaskStatus)
    requires
        entry_ids(old(v)@).no_duplicates(),
    ensures
        entry_ids(final(v)@).no_duplicates(),
        entries_map(final(v)@) == entries_map(old(v)@).insert(id@, status),
{
    match find_entry(v, id) {
        Some(i) => {
            let key = v[i].0.clone();
            proof {
                lemma_entries_map_update(v@, i as int, status);
            }
            v.set(i, (key, status));
        },
        None => {
            let ghost before = v@;
            let key = id.to_string();
            v.push((key, status));
            proof {
                assert(v@.drop_last() =~= before);
                assert(entry_ids(v@) =~= entry_ids(before).push(id@));
            }
        },
    }
}

/// Task statuses of a workflow run, with the file they are saved to.
///
/// When a run resumes from a saved state, running, failed and
/// dependency-skipped tasks go back to pending (see `reset_for_resume`);
/// for read-only inspection the saved statuses are used as they are.
pub struct JsonStateStore {
    workflow_name: String,
    created_at: String,
    last_updated: String,
    tasks: Vec<(String, TaskStatus)>,
    path: std::path::PathBuf,
    successors: Option<TaskSuccessors>,
}

impl JsonStateStore {
    #[verifier::type_invariant]
    closed spec fn distinct_ids(&self) -> bool {
        entry_ids(self.tasks@).no_duplicates()
    }

    /// The workflow's name.
    pub closed spec fn name(&self) -> Seq<char> {
        self.workflow_name@
    }

    /// The file the state is saved to.
    pub closed spec fn file(&self) -> std::path::PathBuf {
        self.path
    }

    /// When the store was created.
    pub closed spec fn created(&self) -> Seq<char> {
        self.created_at@
    }

    /// When a status last changed.
    pub closed spec fn updated(&self) -> Seq<char> {
        self.last_updated@
    }

    /// The dependency information kept with the state, if any.
    pub closed spec fn successor_table(&self) -> Option<Map<Seq<char>, Seq<Seq<char>>>> {
        match self.successors {
            Some(t) => Some(t@),
            None => None,
        }
    }

    /// An empty store for the workflow `name`, saved to `path`.
    pub fn new(name: &str, path: std::path::PathBuf) -> (r: JsonStateStore)
        ensures
            r.status_map() == Map::<Seq<char>, TaskStatus>::empty(),
            r.name() == name@,
            r.file() == path,
            r.successor_table() is None,
            rfc3339_shaped(r.created()),
            r.updated() == r.created(),
    {
        let now = now_iso8601();
        let r = JsonStateStore {
            workflow_name: name.to_string(),
            created_at: now.clone(),
            last_updated: now,
            tasks: Vec::new(),
            path,
            successors: None,
        };
        proof {
            assert(entry_ids(r.tasks@) =~= Seq::<Seq<char>>::empty());
            assert(entries_map(r.tasks@) =~= Map::<Seq<char>, TaskStatus>::empty());
        }
        r
    }

    /// A store holding saved data; when `entries` names an id twice the
    /// later entry wins, as it does when a JSON object is read into a map.
    pub fn from_parts(
        workflow_name: String,
        created_at: String,
        last_updated: String,
        entries: Vec<(String, TaskStatus)>,
        path: std::path::PathBuf,
        successors: Option<TaskSuccessors>,
    ) -> (r: JsonStateStore)
        ensures
            r.status_map() == entries_map(entries@),
            r.name() == workflow_name@,
            r.created() == created_at@,
            r.updated() == last_updated@,
            r.file() == path,
            r.successor_table() == (match successors { Some(t) => Some(t@), None => None::<Map<Seq<char>, Seq<Seq<char>>>> }),
    {
        let mut tasks: Vec<(String, TaskStatus)> = Vec::new();
        let mut i: usize = 0;
        proof {
            assert(entry_ids(tasks@) =~= Seq::<Seq<char>>::empty());
            assert(entries_map(tasks@) =~= entries_map(entries@.take(0)));
        }
        while i < entries.len()
            invariant
                i <= entries.len(),
                entry_ids(tasks@).no_duplicates(),
                entries_map(tasks@) == entries_map(entries@.take(i as int)),
            decreases entries.len() - i,
        {
            put_entry(&mut tasks, entries[i].0.as_str(), entries[i].1.duplicate());
            proof {
                assert(entries@.take(i as int + 1).drop_last() =~= entries@.take(i as int));
            }
            i = i + 1;
        }
        proof {
            assert(entries@.take(entries@.len() as int) =~= entries@);
        }
        JsonStateStore { workflow_name, created_at, last_updated, tasks, path, successors }
    }

    /// Returns the workflow name.
    pub fn workflow_name(&self) -> (r: &str)
        ensures
            r@ == self.name(),
    {
        self.workflow_name.as_str()
    }

    /// Returns the path of the state file.
    pub fn path(&self) -> (r: &std::path::PathBuf)
        ensures
            *r == self.file(),
    {
        &self.path
    }

    /// When the store was first created (RFC 3339 text).
    pub fn created_at(&self) -> (r: &str)
        ensures
            r@ == self.created(),
    {
        self.created_at.as_str()
    }

    /// When a status last changed (RFC 3339 text).
    pub fn last_updated(&self) -> (r: &str)
        ensures
            r@ == self.updated(),
    {
        self.last_updated.as_str()
    }

    /// The dependency information kept with the state, if any.
    pub fn task_successors(&self) -> (r: Option<&TaskSuccessors>)
        ensures
            r is Some <==> self.successor_table() is Some,
            r matches Some(t) ==> self.successor_table() == Some(t@),
    {
        match &self.successors {
            Some(t) => Some(t),
            None => None,
        }
    }

    /// Records the dependency information to keep with the state.
    pub fn set_task_successors(&mut self, successors: TaskSuccessors)
        ensures
            final(self).status_map() == old(self).status_map(),
            final(self).successor_table() == Some(successors@),
            final(self).name() == old(self).name(),
            final(self).file() == old(self).file(),
            final(self).created() == old(self).created(),
            final(self).updated() == old(self).updated(),
    {
        proof {
            use_type_invariant(&*self);
        }
        self.successors = Some(successors);
    }

    /// Prepares a loaded state for resuming a run: running, failed and
    /// dependency-skipped tasks become pending, the others keep their status.
    pub fn reset_for_resume(&mut self)
        ensures
            final(self).status_map().dom() == old(self).status_map().dom(),
            forall|k: Seq<char>| #[trigger] old(self).status_map().contains_key(k) ==> final(self).status_map()[k] == resumed(old(self).status_map()[k]),
            final(self).name() == old(self).name(),
            final(self).file() == old(self).file(),
            final(self).successor_table() == old(self).successor_table(),
            final(self).created() == old(self).created(),
            final(self).updated() == old(self).updated(),
    {
        proof {
            use_type_invariant(&*self);
        }
        let mut tasks: Vec<(String, TaskStatus)> = Vec::new();
        std::mem::swap(&mut tasks, &mut self.tasks);
        let ghost orig = tasks@;
        let mut i: usize = 0;
        while i < tasks.len()
            invariant
                i <= tasks.len(),
                tasks@.len() == orig.len(),
                entry_ids(tasks@) == entry_ids(orig),
                entry_ids(orig).no_duplicates(),
                forall|k: int| 0 <= k < i ==> #[trigger] tasks@[k].1 == resumed(orig[k].1),
                forall|k: int| i <= k < tasks@.len() ==> #[trigger] tasks@[k] == orig[k],
            decreases tasks.len() - i,
        {
            let reset = match &tasks[i].1 {
                TaskStatus::Running | TaskStatus::Failed { .. } | TaskStatus::SkippedDueToDependencyFailure => true,
                _ => false,
            };
            if reset {
                let key = tasks[i].0.clone();
                let ghost before = tasks@;
                tasks.set(i, (key, TaskStatus::Pending));
                proof {
                    assert(entry_ids(tasks@) =~= entry_ids(before));
                }
            }
            i = i + 1;
        }
        proof {
            lemma_entries_map_dom(tasks@);
            lemma_entries_map_dom(orig);
            assert forall|k: Seq<char>| entries_map(tasks@).dom().contains(k) <==> entries_map(orig).dom().contains(k) by {
                assert(entries_map(tasks@).contains_key(k) <==> entry_ids(tasks@).contains(k));
                assert(entries_map(orig).contains_key(k) <==> entry_ids(orig).contains(k));
            }
            assert(entries_map(tasks@).dom() =~= entries_map(orig).dom());
            assert forall|k: Seq<char>| #[trigger] entries_map(orig).contains_key(k) implies entries_map(tasks@)[k] == resumed(entries_map(orig)[k]) by {
                assert(entry_ids(orig).contains(k));
                let j = choose|j: int| 0 <= j < entry_ids(orig).len() && entry_ids(orig)[j] == k;
                lemma_entries_map_index(orig, j);
                lemma_entries_map_index(tasks@, j);
                assert(entry_ids(tasks@)[j] == k);
            }
        }
        self.tasks = tasks;
    }
}

impl StateStore for JsonStateStore {
    closed spec fn status_map(&self) -> Map<Seq<char>, TaskStatus> {
        entries_map(self.tasks@)
    }

    /// The name, file, creation time and successor table stay; the time of
    /// the last change is a time stamp.
    open spec fn keeps_rest(&self, after: &Self) -> bool {
        &&& after.name() == self.name()
        &&& after.file() == self.file()
        &&& after.successor_table() == self.successor_table()
        &&& after.created() == self.created()
        &&& rfc3339_shaped(after.updated())
    }

    fn get_status(&self, id: &str) -> (r: Option<TaskStatus>) {
        proof {
            use_type_invariant(self);
        }
        match find_entry(&self.tasks, id) {
            Some(i) => {
                proof {
                    lemma_entries_map_index(self.tasks@, i as int);
                }
                Some(self.tasks[i].1.duplicate())
            },
            None => {
                proof {
                    lemma_entries_map_dom(self.tasks@);
                }
                None
            },
        }
    }

    fn set_status(&mut self, id: &str, status: TaskStatus)
        ensures
            final(self).name() == old(self).name(),
            final(self).file() == old(self).file(),
            final(self).successor_table() == old(self).successor_table(),
            final(self).created() == old(self).created(),
            rfc3339_shaped(final(self).updated()),
    {
        proof {
            use_type_invariant(&*self);
        }
        let mut tasks: Vec<(String, TaskStatus)> = Vec::new();
        std::mem::swap(&mut tasks, &mut self.tasks);
        put_entry(&mut tasks, id, status);
        self.tasks = tasks;
        self.last_updated = now_iso8601();
    }

    fn all_tasks(&self) -> (r: Vec<(String, TaskStatus)>) {
        proof {
            use_type_invariant(self);
        }
        let mut r: Vec<(String, TaskStatus)> = Vec::new();
        let mut i: usize = 0;
        while i < self.tasks.len()
            invariant
                i <= self.tasks.len(),
                r@ == self.tasks@.take(i as int),
            decreases self.tasks.len() - i,
        {
            let entry = (self.tasks[i].0.clone(), self.tasks[i].1.duplicate());
            r.push(entry);
            proof {
                assert(self.tasks@.take(i as int + 1) =~= self.tasks@.take(i as int).push(self.tasks@[i as int]));
            }
            i = i + 1;
        }
        proof {
            assert(self.tasks@.take(self.tasks@.len() as int) =~= self.tasks@);
        }
        r
    }
}

} // verus!
