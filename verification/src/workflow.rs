//! A workflow: a set of tasks with dependencies, and the decisions that
//! drive a run of it — which tasks start, which are skipped, when the run
//! is over, and what its summary says.
use crate::dag::{has_cycle, is_path, edge_in, precedes, toposort_result, Dag};
use crate::error::WorkflowError;
use crate::state::{StateStore, StateStoreExt, TaskStatus, lookup, entries_map, entry_ids, lemma_entries_map_dom, lemma_entries_map_index};
use crate::task::Task;
use crate::text::{str_eq, views, TaskIdSet, decimal, i64_to_string};
use vstd::string::*;
use vstd::prelude::*;

verus! {

/// The ids of the tasks, in order.
pub open spec fn task_ids(ts: Seq<Task>) -> Seq<Seq<char>> {
    ts.map_values(|t: Task| t.id@)
}

/// The `(dependency, dependent)` pairs of the tasks, task by task and, within
/// a task, in the order its dependencies were declared.
pub open spec fn dep_pairs(ts: Seq<Task>) -> Seq<(Seq<char>, Seq<char>)>
    decreases ts.len(),
{
    if ts.len() == 0 {
        Seq::empty()
    } else {
        dep_pairs(ts.drop_last()) + views(ts.last().dependencies@).map_values(|d: Seq<char>| (d, ts.last().id@))
    }
}

/// Every dependency names a task among `ids`.
pub open spec fn pairs_known(ids: Seq<Seq<char>>, pairs: Seq<(Seq<char>, Seq<char>)>) -> bool {
    forall|k: int| 0 <= k < pairs.len() ==> ids.contains(#[trigger] pairs[k].0) && ids.contains(pairs[k].1)
}

/// The edges between positions in `ids` that the pairs describe.
pub open spec fn pair_edges(ids: Seq<Seq<char>>, pairs: Seq<(Seq<char>, Seq<char>)>) -> Seq<(int, int)> {
    pairs.map_values(|p: (Seq<char>, Seq<char>)| (ids.index_of(p.0), ids.index_of(p.1)))
}

/// All dependencies are tasks of the workflow and they form no cycle.
pub open spec fn dependencies_sound(ts: Seq<Task>) -> bool {
    &&& pairs_known(task_ids(ts), dep_pairs(ts))
    &&& !has_cycle(pair_edges(task_ids(ts), dep_pairs(ts)))
}

/// A status that stops dependents from running.
pub open spec fn blocks(s: TaskStatus) -> bool {
    s is Failed || s is Skipped || s is SkippedDueToDependencyFailure
}

/// A status after which a task needs nothing more: it completed or was skipped.
pub open spec fn settles(s: TaskStatus) -> bool {
    s is Completed || s is Skipped || s is SkippedDueToDependencyFailure
}

/// A final status: completed, failed or skipped.
pub open spec fn is_terminal(s: TaskStatus) -> bool {
    s is Completed || s is Failed || s is Skipped || s is SkippedDueToDependencyFailure
}

/// Some dependency in `deps` has a blocking status in `m`.
pub open spec fn has_blocked_dep(m: Map<Seq<char>, TaskStatus>, deps: Seq<Seq<char>>) -> bool {
    exists|j: int| 0 <= j < deps.len() && m.contains_key(#[trigger] deps[j]) && blocks(m[deps[j]])
}

/// The ids whose status lets their dependents run.
pub open spec fn settled_ids(m: Map<Seq<char>, TaskStatus>) -> Set<Seq<char>> {
    m.dom().filter(|k: Seq<char>| settles(m[k]))
}

/// A set of tasks with dependencies, and the parallelism allowed when running it.
pub struct Workflow {
    pub name: String,
    tasks: Vec<Task>,
    max_parallel: usize,
    log_dir: Option<std::path::PathBuf>,
}

/// The message a timed-out task fails with.
pub open spec fn timeout_text(id: Seq<char>) -> Seq<char> {
    "task '"@ + id + "' timed out"@
}

/// The error message of a task whose process ended with `code` (-1 when it
/// has no exit code, as when a signal killed it).
pub open spec fn exit_text(code: Option<i32>) -> Seq<char> {
    "exit code "@ + crate::text::decimal(match code { Some(c) => c as int, None => -1 })
}

impl Workflow {
    /// The tasks not yet dispatched, in the order they were added.
    pub closed spec fn tasks(&self) -> Seq<Task> {
        self.tasks@
    }

    /// The workflow's name.
    pub closed spec fn title(&self) -> String {
        self.name
    }

    /// The parallelism limit.
    pub closed spec fn parallel_limit(&self) -> nat {
        self.max_parallel as nat
    }

    /// The directory where queued jobs write their output, if one was set.
    pub closed spec fn logs(&self) -> Option<std::path::PathBuf> {
        self.log_dir
    }

    /// Task ids are distinct and at least one task may run at a time.
    pub closed spec fn wf(&self) -> bool {
        &&& task_ids(self.tasks@).no_duplicates()
        &&& self.max_parallel >= 1
    }

    /// A workflow with no tasks. The parallelism limit is what the host
    /// reports (`host_parallelism`), or 4 when it reports nothing.
    pub fn new(name: &str, host_parallelism: Option<usize>) -> (w: Workflow)
        requires
            host_parallelism != Some(0usize),
        ensures
            w.wf(),
            w.title()@ == name@,
            w.tasks().len() == 0,
            w.parallel_limit() == match host_parallelism { Some(n) => n as nat, None => 4nat },
            w.logs() is None,
    {
        let max_parallel = match host_parallelism {
            Some(n) => n,
            None => 4,
        };
        let w = Workflow { name: name.to_owned(), tasks: Vec::new(), max_parallel, log_dir: None };
        proof {
            assert(task_ids(w.tasks@) =~= Seq::<Seq<char>>::empty());
        }
        w
    }

    /// Sets the parallelism limit; zero is refused.
    pub fn with_max_parallel(self, n: usize) -> (r: Result<Workflow, WorkflowError>)
        requires
            self.wf(),
        ensures
            n == 0 ==> (r matches Err(WorkflowError::InvalidConfig(msg)) && msg@ == "max_parallel must be at least 1"@),
            n > 0 ==> (r matches Ok(w) && w.wf() && w.parallel_limit() == n && w.tasks() == self.tasks() && w.title() == self.title() && w.logs() == self.logs()),
    {
        if n == 0 {
            proof {
                reveal_strlit("max_parallel must be at least 1");
            }
            return Err(WorkflowError::InvalidConfig("max_parallel must be at least 1".to_owned()));
        }
        let mut w = self;
        w.max_parallel = n;
        Ok(w)
    }

    /// Sets the directory where queued jobs write their output.
    pub fn with_log_dir(self, dir: std::path::PathBuf) -> (r: Workflow)
        requires
            self.wf(),
        ensures
            r.wf(),
            r.logs() == Some(dir),
            r.tasks() == self.tasks(),
            r.title() == self.title(),
            r.parallel_limit() == self.parallel_limit(),
    {
        let mut w = self;
        w.log_dir = Some(dir);
        w
    }

    /// The directory where queued jobs write their output, if one was set.
    pub fn log_dir(&self) -> (r: Option<&std::path::PathBuf>)
        ensures
            match r {
                Some(d) => self.logs() == Some(*d),
                None => self.logs() is None,
            },
    {
        self.log_dir.as_ref()
    }

    /// The parallelism limit.
    pub fn max_parallel(&self) -> (r: usize)
        ensures
            r == self.parallel_limit(),
    {
        self.max_parallel
    }

    /// Position of the task `id` among the tasks.
    fn position(&self, id: &str) -> (r: Option<usize>)
        ensures
            r matches Some(i) ==> i < self.tasks().len() && task_ids(self.tasks())[i as int] == id@,
            r is None ==> !task_ids(self.tasks()).contains(id@),
    {
        let mut i: usize = 0;
        while i < self.tasks.len()
            invariant
                i <= self.tasks.len(),
                forall|k: int| 0 <= k < i ==> task_ids(self.tasks@)[k] != id@,
            decreases self.tasks.len() - i,
        {
            if str_eq(self.tasks[i].id.as_str(), id) {
                return Some(i);
            }
            i = i + 1;
        }
        None
    }

    /// Whether a task with this id is still held (added and not yet dispatched).
    pub fn has_task(&self, id: &str) -> (r: bool)
        ensures
            r == task_ids(self.tasks()).contains(id@),
    {
        self.position(id).is_some()
    }

    /// Adds a task; an id already present is refused and nothing changes.
    pub fn add_task(&mut self, task: Task) -> (r: Result<(), WorkflowError>)
        requires
            old(self).wf(),
        ensures
            final(self).wf(),
            final(self).title() == old(self).title(),
            final(self).parallel_limit() == old(self).parallel_limit(),
            task_ids(old(self).tasks()).contains(task.id@) ==> (r matches Err(WorkflowError::DuplicateTaskId(d)) && d@ == task.id@ && final(self).tasks() == old(self).tasks()),
            !task_ids(old(self).tasks()).contains(task.id@) ==> r is Ok && final(self).tasks() == old(self).tasks().push(task),
    {
        if self.position(task.id.as_str()).is_some() {
            return Err(WorkflowError::DuplicateTaskId(task.id.clone()));
        }
        let ghost before = self.tasks@;
        self.tasks.push(task);
        proof {
            assert(task_ids(self.tasks@) =~= task_ids(before).push(task.id@));
        }
        Ok(())
    }

    /// Removes and returns the task `id`, which a run does when it dispatches it.
    pub fn take_task(&mut self, id: &str) -> (r: Option<Task>)
        requires
            old(self).wf(),
        ensures
            final(self).wf(),
            final(self).title() == old(self).title(),
            final(self).parallel_limit() == old(self).parallel_limit(),
            !task_ids(old(self).tasks()).contains(id@) ==> r is None && final(self).tasks() == old(self).tasks(),
            task_ids(old(self).tasks()).contains(id@) ==> (r matches Some(t) && t.id@ == id@ && final(self).tasks() == old(self).tasks().remove(task_ids(old(self).tasks()).index_of(id@)) && t == old(self).tasks()[task_ids(old(self).tasks()).index_of(id@)]),
    {
        match self.position(id) {
            None => None,
            Some(i) => {
                proof {
                    crate::dag::lemma_index_of_unique(task_ids(self.tasks@), i as int);
                }
                let ghost before = self.tasks@;
                let t = self.tasks.remove(i);
                proof {
                    assert(task_ids(self.tasks@) =~= task_ids(before).remove(i as int));
                    assert forall|a: int, b: int| 0 <= a < b < task_ids(self.tasks@).len() implies task_ids(self.tasks@)[a] != task_ids(self.tasks@)[b] by {
                        let ta = if a < i { a } else { a + 1 };
                        let tb = if b < i { b } else { b + 1 };
                        assert(task_ids(self.tasks@)[a] == task_ids(before)[ta]);
                        assert(task_ids(self.tasks@)[b] == task_ids(before)[tb]);
                    }
                }
                Some(t)
            },
        }
    }

    /// The dependency graph of the tasks: a node per task, in order, and an
    /// edge from each dependency to its dependent. It is built exactly when
    /// every dependency names a task and no cycle arises; otherwise the
    /// first offending dependency, in task and declaration order, is reported.
    #[verifier::spinoff_prover]
    pub fn build_dag(&self) -> (r: Result<Dag, WorkflowError>)
        requires
            self.wf(),
            self.tasks().len() < u32::MAX,
            dep_pairs(self.tasks()).len() < u32::MAX,
        ensures
            r is Ok <==> dependencies_sound(self.tasks()),
            r matches Ok(d) ==> d.wf() && d.ids() == task_ids(self.tasks()) && d.edges() == pair_edges(task_ids(self.tasks()), dep_pairs(self.tasks())) && graph_of(d, self.tasks()),
            r matches Err(WorkflowError::UnknownDependency { task, dependency }) ==> exists|k: int| 0 <= k < dep_pairs(self.tasks()).len() && #[trigger] dep_pairs(self.tasks())[k] == (task@, dependency@) && !task_ids(self.tasks()).contains(task@),
            r matches Err(WorkflowError::CycleDetected) ==> exists|l: int| 0 <= l <= dep_pairs(self.tasks()).len() && pairs_known(task_ids(self.tasks()), #[trigger] dep_pairs(self.tasks()).take(l)) && has_cycle(pair_edges(task_ids(self.tasks()), dep_pairs(self.tasks()).take(l))),
            r is Err ==> (r matches Err(WorkflowError::UnknownDependency { .. }) || r matches Err(WorkflowError::CycleDetected)),
    {
        let ghost ts = self.tasks@;
        let ghost ids = task_ids(ts);
        let ghost pairs = dep_pairs(ts);
        let mut dag = Dag::new();
        let n = self.tasks.len();
        let mut i: usize = 0;
        while i < n
            invariant
                n == ts.len(),
                ts == self.tasks@,
                ids == task_ids(ts),
                ids.no_duplicates(),
                n < u32::MAX,
                i <= n,
                dag.wf(),
                dag.ids() == ids.take(i as int),
                dag.edges() == Seq::<(int, int)>::empty(),
            decreases n - i,
        {
            proof {
                assert(!ids.take(i as int).contains(ids[i as int])) by {
                    if ids.take(i as int).contains(ids[i as int]) {
                        let k = choose|k: int| 0 <= k < i && ids.take(i as int)[k] == ids[i as int];
                        assert(ids[k] == ids[i as int]);
                    }
                }
            }
            let res = dag.add_node(self.tasks[i].id.clone());
            proof {
                assert(ids.take(i as int + 1) =~= ids.take(i as int).push(ids[i as int]));
            }
            i = i + 1;
        }
        proof {
            assert(ids.take(n as int) =~= ids);
        }
        let mut i: usize = 0;
        let ghost mut pos: int = 0;
        proof {
            assert(pair_edges(ids, pairs.take(0)) =~= Seq::<(int, int)>::empty());
            assert(ts.take(0) =~= Seq::<Task>::empty());
        }
        while i < n
            invariant
                n == ts.len(),
                ts == self.tasks@,
                ids == task_ids(ts),
                pairs == dep_pairs(ts),
                ids.no_duplicates(),
                pairs.len() < u32::MAX,
                i <= n,
                pos == dep_pairs(ts.take(i as int)).len(),
                pos <= pairs.len(),
                dag.wf(),
                dag.ids() == ids,
                dag.edges() == pair_edges(ids, pairs.take(pos)),
                pairs_known(ids, pairs.take(pos)),
            decreases n - i,
        {
            proof {
                lemma_dep_pairs_step(ts, i as int);
            }
            let deps = &self.tasks[i].dependencies;
            let mut j: usize = 0;
            while j < deps.len()
                invariant
                    n == ts.len(),
                    ts == self.tasks@,
                    ids == task_ids(ts),
                    pairs == dep_pairs(ts),
                    ids.no_duplicates(),
                    pairs.len() < u32::MAX,
                    i < n,
                    deps == self.tasks@[i as int].dependencies,
                    j <= deps.len(),
                    pos == dep_pairs(ts.take(i as int)).len() + j,
                    dep_pairs(ts.take(i as int)).len() + deps.len() == dep_pairs(ts.take(i as int + 1)).len(),
                    dep_pairs(ts.take(i as int + 1)).len() <= pairs.len(),
                    forall|jj: int| 0 <= jj < deps.len() ==> #[trigger] pairs[dep_pairs(ts.take(i as int)).len() + jj] == (deps@[jj]@, ids[i as int]),
                    dag.wf(),
                    dag.ids() == ids,
                    dag.edges() == pair_edges(ids, pairs.take(pos)),
                    pairs_known(ids, pairs.take(pos)),
                decreases deps.len() - j,
            {
                let ghost p = pairs[pos];
                proof {
                    assert(p == (deps@[j as int]@, ids[i as int]));
                    assert(ids[i as int] == self.tasks@[i as int].id@);
                    assert(ids.contains(ids[i as int]));
                }
                let res = dag.add_edge(deps[j].as_str(), self.tasks[i].id.as_str());
                match res {
                    Ok(()) => {},
                    Err(e) => {
                        proof {
                            if !ids.contains(p.0) {
                                assert(pairs[pos] == p);
                            } else {
                                let l = pos + 1;
                                assert(pairs.take(l) =~= pairs.take(pos).push(p));
                                assert(pair_edges(ids, pairs.take(l)) =~= pair_edges(ids, pairs.take(pos)).push((ids.index_of(p.0), ids.index_of(p.1))));
                                assert(pairs_known(ids, pairs.take(l)));
                                assert(pair_edges(ids, pairs).take(l) =~= pair_edges(ids, pairs.take(l)));
                                lemma_cycle_prefix(pair_edges(ids, pairs), l);
                                lemma_not_sound_if_unknown_or_cycle(ts, l);
                                assert(pairs_known(task_ids(self.tasks()), dep_pairs(self.tasks()).take(l)));
                                assert(has_cycle(pair_edges(task_ids(self.tasks()), dep_pairs(self.tasks()).take(l))));
                                assert(exists|l: int| 0 <= l <= dep_pairs(self.tasks()).len() && pairs_known(task_ids(self.tasks()), #[trigger] dep_pairs(self.tasks()).take(l)) && has_cycle(pair_edges(task_ids(self.tasks()), dep_pairs(self.tasks()).take(l))));
                            }
                            if !ids.contains(p.0) {
                                lemma_unknown_not_sound(ts, pos);
                            }
                        }
                        return Err(e);
                    },
                }
                proof {
                    assert(pairs.take(pos + 1) =~= pairs.take(pos).push(p));
                    assert(pair_edges(ids, pairs.take(pos + 1)) =~= pair_edges(ids, pairs.take(pos)).push((ids.index_of(p.0), ids.index_of(p.1))));
                    pos = pos + 1;
                }
                j = j + 1;
            }
            i = i + 1;
        }
        proof {
            assert(ts.take(n as int) =~= ts);
            assert(pos == pairs.len());
            assert(pairs.take(pos) =~= pairs);
            assert(pairs_known(ids, pairs));
            assert(dag.edges() == pair_edges(ids, pairs));
            dag.lemma_acyclic();
            assert(!has_cycle(pair_edges(ids, pairs)));
            assert(dependencies_sound(ts));
            lemma_graph_of_built(dag, ts);
        }
        Ok(dag)
    }

    /// The task ids in an order where every dependency comes before its
    /// dependents, as the dependency graph's topological sort gives it; the
    /// errors are those of `build_dag`.
    pub fn dry_run(&self) -> (r: Result<Vec<String>, WorkflowError>)
        requires
            self.wf(),
            self.tasks().len() < u32::MAX,
            dep_pairs(self.tasks()).len() < u32::MAX,
        ensures
            r is Ok <==> dependencies_sound(self.tasks()),
            r matches Ok(order) ==> {
                &&& views(order@) == toposort_result(self.tasks().len(), pair_edges(task_ids(self.tasks()), dep_pairs(self.tasks()))).map_values(|i: int| task_ids(self.tasks())[i])
                &&& views(order@).len() == self.tasks().len()
                &&& views(order@).no_duplicates()
                &&& forall|i: int| 0 <= i < order@.len() ==> task_ids(self.tasks()).contains(#[trigger] order@[i]@)
                &&& forall|k: int| 0 <= k < dep_pairs(self.tasks()).len() ==> precedes(views(order@), #[trigger] dep_pairs(self.tasks())[k].0, dep_pairs(self.tasks())[k].1)
            },
            r matches Err(WorkflowError::UnknownDependency { task, dependency }) ==> exists|k: int| 0 <= k < dep_pairs(self.tasks()).len() && #[trigger] dep_pairs(self.tasks())[k] == (task@, dependency@) && !task_ids(self.tasks()).contains(task@),
            r matches Err(WorkflowError::CycleDetected) ==> exists|l: int| 0 <= l <= dep_pairs(self.tasks()).len() && pairs_known(task_ids(self.tasks()), #[trigger] dep_pairs(self.tasks()).take(l)) && has_cycle(pair_edges(task_ids(self.tasks()), dep_pairs(self.tasks()).take(l))),
            r is Err ==> (r matches Err(WorkflowError::UnknownDependency { .. }) || r matches Err(WorkflowError::CycleDetected)),
    {
        let dag = self.build_dag()?;
        let order = dag.topological_order();
        proof {
            let ids = task_ids(self.tasks());
            let pairs = dep_pairs(self.tasks());
            assert forall|k: int| 0 <= k < pairs.len() implies precedes(views(order@), #[trigger] pairs[k].0, pairs[k].1) by {
                let e = dag.edges()[k];
                assert(e == (ids.index_of(pairs[k].0), ids.index_of(pairs[k].1)));
                assert(precedes(views(order@), dag.ids()[dag.edges()[k].0], dag.ids()[dag.edges()[k].1]));
                assert(ids.contains(pairs[k].0) && ids.contains(pairs[k].1));
                assert(ids[ids.index_of(pairs[k].0)] == pairs[k].0);
                assert(ids[ids.index_of(pairs[k].1)] == pairs[k].1);
            }
        }
        Ok(order)
    }
}

/// The graph has an edge from task `d` to task `x`.
pub open spec fn dep_edge(dag: Dag, d: Seq<char>, x: Seq<char>) -> bool {
    exists|k: int| #![trigger dag.edges()[k]] 0 <= k < dag.edges().len() && dag.ids()[dag.edges()[k].0] == d && dag.ids()[dag.edges()[k].1] == x
}

/// The graph describes the tasks `ts`: each is a node, and its edges in
/// are exactly those from its dependencies.
pub open spec fn graph_of(dag: Dag, ts: Seq<Task>) -> bool {
    forall|i: int| 0 <= i < ts.len() ==> {
        &&& dag.ids().contains(#[trigger] ts[i].id@)
        &&& forall|d: Seq<char>| views(ts[i].dependencies@).contains(d) <==> dep_edge(dag, d, ts[i].id@)
    }
}

/// A pair `(d, x)` is among the dependency pairs exactly when some task with
/// id `x` declares the dependency `d`.
proof fn lemma_dep_pairs_member(ts: Seq<Task>, d: Seq<char>, x: Seq<char>)
    ensures
        dep_pairs(ts).contains((d, x)) <==> exists|i: int| 0 <= i < ts.len() && #[trigger] ts[i].id@ == x && views(ts[i].dependencies@).contains(d),
    decreases ts.len(),
{
    if ts.len() > 0 {
        let t = ts.drop_last();
        lemma_dep_pairs_member(t, d, x);
        let last = views(ts.last().dependencies@).map_values(|e: Seq<char>| (e, ts.last().id@));
        let all = dep_pairs(ts);
        assert(all == dep_pairs(t) + last);
        if all.contains((d, x)) {
            let k = choose|k: int| 0 <= k < all.len() && all[k] == (d, x);
            if k < dep_pairs(t).len() {
                assert(dep_pairs(t)[k] == (d, x));
                let i = choose|i: int| 0 <= i < t.len() && #[trigger] t[i].id@ == x && views(t[i].dependencies@).contains(d);
                assert(ts[i] == t[i]);
            } else {
                let q = k - dep_pairs(t).len();
                assert(last[q] == (d, x));
                assert(views(ts.last().dependencies@)[q] == d);
                assert(ts[ts.len() - 1].id@ == x);
            }
        }
        if exists|i: int| 0 <= i < ts.len() && #[trigger] ts[i].id@ == x && views(ts[i].dependencies@).contains(d) {
            let i = choose|i: int| 0 <= i < ts.len() && #[trigger] ts[i].id@ == x && views(ts[i].dependencies@).contains(d);
            if i < ts.len() - 1 {
                assert(t[i] == ts[i]);
                let k = choose|k: int| 0 <= k < dep_pairs(t).len() && dep_pairs(t)[k] == (d, x);
                assert(all[k] == (d, x));
            } else {
                let q = choose|q: int| 0 <= q < views(ts.last().dependencies@).len() && views(ts.last().dependencies@)[q] == d;
                assert(last[q] == (d, x));
                assert(all[dep_pairs(t).len() + q] == (d, x));
            }
        }
    }
}

/// The graph that `build_dag` builds describes the tasks.
proof fn lemma_graph_of_built(dag: Dag, ts: Seq<Task>)
    requires
        dag.ids() == task_ids(ts),
        task_ids(ts).no_duplicates(),
        dag.edges() == pair_edges(task_ids(ts), dep_pairs(ts)),
        pairs_known(task_ids(ts), dep_pairs(ts)),
    ensures
        graph_of(dag, ts),
{
    let ids = task_ids(ts);
    let pairs = dep_pairs(ts);
    assert forall|i: int| 0 <= i < ts.len() implies {
        &&& dag.ids().contains(#[trigger] ts[i].id@)
        &&& forall|d: Seq<char>| views(ts[i].dependencies@).contains(d) <==> dep_edge(dag, d, ts[i].id@)
    } by {
        let x = ts[i].id@;
        assert(ids[i] == x);
        assert forall|d: Seq<char>| views(ts[i].dependencies@).contains(d) <==> dep_edge(dag, d, x) by {
            lemma_dep_pairs_member(ts, d, x);
            if views(ts[i].dependencies@).contains(d) {
                let k = choose|k: int| 0 <= k < pairs.len() && pairs[k] == (d, x);
                assert(ids.contains(pairs[k].0) && ids.contains(pairs[k].1));
                assert(dag.edges()[k] == (ids.index_of(d), ids.index_of(x)));
                assert(dag.ids()[dag.edges()[k].0] == d);
            }
            if dep_edge(dag, d, x) {
                let k = choose|k: int| #![trigger dag.edges()[k]] 0 <= k < dag.edges().len() && dag.ids()[dag.edges()[k].0] == d && dag.ids()[dag.edges()[k].1] == x;
                assert(ids.contains(pairs[k].0) && ids.contains(pairs[k].1));
                assert(dag.edges()[k] == (ids.index_of(pairs[k].0), ids.index_of(pairs[k].1)));
                assert(pairs[k] == (d, x));
                let j = choose|j: int| 0 <= j < ts.len() && #[trigger] ts[j].id@ == x && views(ts[j].dependencies@).contains(d);
                assert(ids[j] == x);
            }
        }
    }
}

/// Removing a task keeps the graph describing the others.
pub proof fn lemma_graph_of_remove(dag: Dag, ts: Seq<Task>, j: int)
    requires
        graph_of(dag, ts),
        0 <= j < ts.len(),
    ensures
        graph_of(dag, ts.remove(j)),
{
    let r = ts.remove(j);
    assert forall|i: int| 0 <= i < r.len() implies {
        &&& dag.ids().contains(#[trigger] r[i].id@)
        &&& forall|d: Seq<char>| views(r[i].dependencies@).contains(d) <==> dep_edge(dag, d, r[i].id@)
    } by {
        if i < j {
            assert(r[i] == ts[i]);
        } else {
            assert(r[i] == ts[i + 1]);
        }
    }
}

/// Step of `dep_pairs` over a growing prefix of the tasks.
proof fn lemma_dep_pairs_step(ts: Seq<Task>, i: int)
    requires
        0 <= i < ts.len(),
    ensures
        dep_pairs(ts.take(i + 1)) == dep_pairs(ts.take(i)) + views(ts[i].dependencies@).map_values(|d: Seq<char>| (d, ts[i].id@)),
        dep_pairs(ts.take(i + 1)).len() <= dep_pairs(ts).len(),
        forall|k: int| 0 <= k < dep_pairs(ts.take(i + 1)).len() ==> #[trigger] dep_pairs(ts)[k] == dep_pairs(ts.take(i + 1))[k],
{
    assert(ts.take(i + 1).drop_last() =~= ts.take(i));
    lemma_dep_pairs_prefix(ts, i + 1);
}

/// The pairs of a prefix of the tasks are a prefix of all pairs.
proof fn lemma_dep_pairs_prefix(ts: Seq<Task>, i: int)
    requires
        0 <= i <= ts.len(),
    ensures
        dep_pairs(ts.take(i)).len() <= dep_pairs(ts).len(),
        forall|k: int| 0 <= k < dep_pairs(ts.take(i)).len() ==> #[trigger] dep_pairs(ts)[k] == dep_pairs(ts.take(i))[k],
    decreases ts.len(),
{
    if i == ts.len() {
        assert(ts.take(i) =~= ts);
    } else {
        let t = ts.drop_last();
        assert(t.take(i) =~= ts.take(i));
        lemma_dep_pairs_prefix(t, i);
    }
}

/// A cycle among the first `l` edges is a cycle among all of them.
pub proof fn lemma_cycle_prefix(e: Seq<(int, int)>, l: int)
    requires
        0 <= l <= e.len(),
        has_cycle(e.take(l)),
    ensures
        has_cycle(e),
{
    let p = choose|p: Seq<int>| #[trigger] is_path(e.take(l), p) && p[0] == p[p.len() - 1];
    assert forall|k: int| 0 <= k < p.len() - 1 implies edge_in(e, #[trigger] p[k], p[k + 1]) by {
        assert(edge_in(e.take(l), p[k], p[k + 1]));
        let m = choose|m: int| 0 <= m < e.take(l).len() && e.take(l)[m] == (p[k], p[k + 1]);
        assert(e[m] == (p[k], p[k + 1]));
    }
    assert(is_path(e, p));
}

/// A dependency on an unknown task makes the workflow unsound.
proof fn lemma_unknown_not_sound(ts: Seq<Task>, k: int)
    requires
        0 <= k < dep_pairs(ts).len(),
        !task_ids(ts).contains(dep_pairs(ts)[k].0),
    ensures
        !dependencies_sound(ts),
{
}

/// A cycle among the edges of a known prefix makes the workflow unsound.
proof fn lemma_not_sound_if_unknown_or_cycle(ts: Seq<Task>, l: int)
    requires
        0 <= l <= dep_pairs(ts).len(),
        has_cycle(pair_edges(task_ids(ts), dep_pairs(ts))),
    ensures
        !dependencies_sound(ts),
{
}

/// Number of tasks among the first `n` ids whose status in `m` is pending.
pub open spec fn pending_count(ids: Seq<Seq<char>>, m: Map<Seq<char>, TaskStatus>, n: int) -> nat
    decreases n,
{
    if n <= 0 {
        0
    } else {
        pending_count(ids, m, n - 1) + if lookup(m, ids[n - 1]) == Some(TaskStatus::Pending) { 1nat } else { 0nat }
    }
}

/// `after` differs from `before` only where a pending task became skipped
/// because of a dependency, on the same set of ids.
pub open spec fn only_skips_added(before: Map<Seq<char>, TaskStatus>, after: Map<Seq<char>, TaskStatus>) -> bool {
    &&& after.dom() == before.dom()
    &&& forall|k: Seq<char>| #[trigger] before.contains_key(k) ==> after[k] == before[k] || (before[k] is Pending && after[k] is SkippedDueToDependencyFailure)
}

/// Whether some dependency in `deps` blocks, by the statuses in `state`.
fn deps_blocked<S: StateStore>(state: &S, deps: &Vec<String>) -> (r: bool)
    ensures
        r == has_blocked_dep(state.status_map(), views(deps@)),
{
    let ghost m = state.status_map();
    let mut j: usize = 0;
    while j < deps.len()
        invariant
            j <= deps.len(),
            m == state.status_map(),
            forall|jj: int| 0 <= jj < j ==> !(m.contains_key(#[trigger] views(deps@)[jj]) && blocks(m[views(deps@)[jj]])),
        decreases deps.len() - j,
    {
        let st = state.get_status(deps[j].as_str());
        let b = match st {
            Some(TaskStatus::Failed { .. }) | Some(TaskStatus::Skipped) | Some(TaskStatus::SkippedDueToDependencyFailure) => true,
            _ => false,
        };
        if b {
            proof {
                assert(views(deps@)[j as int] == deps@[j as int]@);
            }
            return true;
        }
        j = j + 1;
    }
    false
}

/// Whether `id` is pending in `state`.
fn is_pending_in<S: StateStore>(state: &S, id: &str) -> (r: bool)
    ensures
        r == (lookup(state.status_map(), id@) == Some(TaskStatus::Pending)),
{
    match state.get_status(id) {
        Some(TaskStatus::Pending) => true,
        _ => false,
    }
}

/// Blocking statuses stay blocking when only skips are added.
proof fn lemma_blocked_monotone(before: Map<Seq<char>, TaskStatus>, after: Map<Seq<char>, TaskStatus>, deps: Seq<Seq<char>>)
    requires
        only_skips_added(before, after),
        has_blocked_dep(before, deps),
    ensures
        has_blocked_dep(after, deps),
{
    let j = choose|j: int| 0 <= j < deps.len() && before.contains_key(#[trigger] deps[j]) && blocks(before[deps[j]]);
    assert(after.contains_key(deps[j]));
}

/// Turning some pending tasks into skipped ones lowers the pending count.
proof fn lemma_pending_count_drops(ids: Seq<Seq<char>>, before: Map<Seq<char>, TaskStatus>, after: Map<Seq<char>, TaskStatus>, n: int, i0: int)
    requires
        0 <= i0 < n <= ids.len(),
        only_skips_added(before, after),
        lookup(before, ids[i0]) == Some(TaskStatus::Pending),
        lookup(after, ids[i0]) != Some(TaskStatus::Pending),
    ensures
        pending_count(ids, after, n) < pending_count(ids, before, n),
    decreases n,
{
    lemma_pending_count_le(ids, before, after, n - 1);
    if i0 < n - 1 {
        lemma_pending_count_drops(ids, before, after, n - 1, i0);
    }
    let k = ids[n - 1];
    if lookup(after, k) == Some(TaskStatus::Pending) {
        assert(after.contains_key(k));
        assert(before.contains_key(k));
    }
}

/// Adding skips never raises the pending count.
proof fn lemma_pending_count_le(ids: Seq<Seq<char>>, before: Map<Seq<char>, TaskStatus>, after: Map<Seq<char>, TaskStatus>, n: int)
    requires
        n <= ids.len(),
        only_skips_added(before, after),
    ensures
        pending_count(ids, after, n) <= pending_count(ids, before, n),
    decreases n,
{
    if n > 0 {
        lemma_pending_count_le(ids, before, after, n - 1);
        let k = ids[n - 1];
        if lookup(after, k) == Some(TaskStatus::Pending) {
            assert(after.contains_key(k));
            assert(before.contains_key(k));
        }
    }
}

/// `only_skips_added` composes.
proof fn lemma_skips_compose(a: Map<Seq<char>, TaskStatus>, b: Map<Seq<char>, TaskStatus>, c: Map<Seq<char>, TaskStatus>)
    requires
        only_skips_added(a, b),
        only_skips_added(b, c),
    ensures
        only_skips_added(a, c),
{
    assert forall|k: Seq<char>| #[trigger] a.contains_key(k) implies c[k] == a[k] || (a[k] is Pending && c[k] is SkippedDueToDependencyFailure) by {
        assert(b.contains_key(k));
    }
}

impl Workflow {
    /// Dependencies of the held task at position `i`.
    pub open spec fn deps_at(&self, i: int) -> Seq<Seq<char>> {
        views(self.tasks()[i].dependencies@)
    }

    /// Marks as skipped-due-to-dependency-failure every pending held task
    /// that has a failed or skipped dependency, repeatedly, until no pending
    /// held task has one. Only pending tasks change, and each task that
    /// changes has a failed or skipped dependency afterwards; the graph
    /// being acyclic, every such chain leads back to a task that failed or
    /// was skipped before the call.
    pub fn propagate_skips<S: StateStore>(&self, state: &mut S)
        requires
            self.wf(),
        ensures
            only_skips_added(old(state).status_map(), final(state).status_map()),
            forall|i: int| 0 <= i < self.tasks().len() && lookup(final(state).status_map(), #[trigger] task_ids(self.tasks())[i]) == Some(TaskStatus::Pending) ==> !has_blocked_dep(final(state).status_map(), self.deps_at(i)),
            forall|k: Seq<char>| #[trigger] old(state).status_map().contains_key(k) && final(state).status_map()[k] != old(state).status_map()[k] ==> exists|i: int| 0 <= i < self.tasks().len() && task_ids(self.tasks())[i] == k && has_blocked_dep(final(state).status_map(), #[trigger] self.deps_at(i)),
    {
        let ghost m0 = state.status_map();
        let ghost ids = task_ids(self.tasks@);
        let n = self.tasks.len();
        loop
            invariant_except_break
                n == self.tasks@.len(),
                ids == task_ids(self.tasks@),
                only_skips_added(m0, state.status_map()),
                forall|k: Seq<char>| #[trigger] m0.contains_key(k) && state.status_map()[k] != m0[k] ==> exists|i: int| 0 <= i < n && ids[i] == k && has_blocked_dep(state.status_map(), #[trigger] self.deps_at(i)),
            ensures
                only_skips_added(m0, state.status_map()),
                forall|k: Seq<char>| #[trigger] m0.contains_key(k) && state.status_map()[k] != m0[k] ==> exists|i: int| 0 <= i < n && ids[i] == k && has_blocked_dep(state.status_map(), #[trigger] self.deps_at(i)),
                forall|i: int| 0 <= i < n && lookup(state.status_map(), #[trigger] ids[i]) == Some(TaskStatus::Pending) ==> !has_blocked_dep(state.status_map(), self.deps_at(i)),
            decreases pending_count(ids, state.status_map(), n as int),
        {
            let ghost mr = state.status_map();
            let mut to_skip: Vec<usize> = Vec::new();
            let mut i: usize = 0;
            while i < n
                invariant
                    n == self.tasks@.len(),
                    ids == task_ids(self.tasks@),
                    mr == state.status_map(),
                    i <= n,
                    forall|t: int| 0 <= t < to_skip@.len() ==> (#[trigger] to_skip@[t]) < n && lookup(mr, ids[to_skip@[t] as int]) == Some(TaskStatus::Pending) && has_blocked_dep(mr, self.deps_at(to_skip@[t] as int)),
                    forall|ii: int| 0 <= ii < i && lookup(mr, #[trigger] ids[ii]) == Some(TaskStatus::Pending) && has_blocked_dep(mr, self.deps_at(ii)) ==> to_skip@.len() > 0,
                decreases n - i,
            {
                if is_pending_in(state, self.tasks[i].id.as_str()) && deps_blocked(state, &self.tasks[i].dependencies) {
                    to_skip.push(i);
                }
                i = i + 1;
            }
            if to_skip.len() == 0 {
                break;
            }
            let mut t: usize = 0;
            while t < to_skip.len()
                invariant
                    n == self.tasks@.len(),
                    ids == task_ids(self.tasks@),
                    t <= to_skip.len(),
                    to_skip.len() > 0,
                    forall|u: int| 0 <= u < to_skip@.len() ==> (#[trigger] to_skip@[u]) < n && lookup(mr, ids[to_skip@[u] as int]) == Some(TaskStatus::Pending) && has_blocked_dep(mr, self.deps_at(to_skip@[u] as int)),
                    only_skips_added(mr, state.status_map()),
                    forall|u: int| 0 <= u < t ==> lookup(state.status_map(), #[trigger] ids[to_skip@[u] as int]) == Some(TaskStatus::SkippedDueToDependencyFailure),
                    forall|k: Seq<char>| #[trigger] mr.contains_key(k) && state.status_map()[k] != mr[k] ==> exists|u: int| 0 <= u < t && ids[to_skip@[u] as int] == k,
                decreases to_skip.len() - t,
            {
                let idx = to_skip[t];
                let ghost before = state.status_map();
                proof {
                    assert(ids[idx as int] == self.tasks@[idx as int].id@);
                    assert(mr.contains_key(ids[idx as int]));
                }
                state.mark_skipped_due_to_dep_failure(self.tasks[idx].id.as_str());
                proof {
                    let after = state.status_map();
                    let key = ids[idx as int];
                    assert(after == before.insert(key, TaskStatus::SkippedDueToDependencyFailure));
                    assert(after.dom() =~= mr.dom());
                    assert forall|k: Seq<char>| #[trigger] mr.contains_key(k) implies after[k] == mr[k] || (mr[k] is Pending && after[k] is SkippedDueToDependencyFailure) by {
                        if k != key {
                            assert(after[k] == before[k]);
                        }
                    }
                    assert forall|k: Seq<char>| #[trigger] mr.contains_key(k) && after[k] != mr[k] implies exists|u: int| 0 <= u < t + 1 && ids[to_skip@[u] as int] == k by {
                        if k != key {
                            assert(after[k] == before[k]);
                        } else {
                            assert(ids[to_skip@[t as int] as int] == k);
                        }
                    }
                    assert forall|u: int| 0 <= u < t + 1 implies lookup(after, #[trigger] ids[to_skip@[u] as int]) == Some(TaskStatus::SkippedDueToDependencyFailure) by {
                        if u < t {
                            assert(lookup(before, ids[to_skip@[u] as int]) == Some(TaskStatus::SkippedDueToDependencyFailure));
                        }
                    }
                }
                t = t + 1;
            }
            proof {
                let m = state.status_map();
                lemma_skips_compose(m0, mr, m);
                assert forall|k: Seq<char>| #[trigger] m0.contains_key(k) && m[k] != m0[k] implies exists|i: int| 0 <= i < n && ids[i] == k && has_blocked_dep(m, #[trigger] self.deps_at(i)) by {
                    if m[k] != mr[k] {
                        let u = choose|u: int| 0 <= u < to_skip@.len() && ids[to_skip@[u] as int] == k;
                        let i = to_skip@[u] as int;
                        lemma_blocked_monotone(mr, m, self.deps_at(i));
                        assert(ids[i] == k && has_blocked_dep(m, self.deps_at(i)));
                    } else {
                        assert(mr[k] != m0[k]);
                        let i = choose|i: int| 0 <= i < n && ids[i] == k && has_blocked_dep(mr, #[trigger] self.deps_at(i));
                        lemma_blocked_monotone(mr, m, self.deps_at(i));
                    }
                }
                let i0 = to_skip@[0] as int;
                lemma_pending_count_drops(ids, mr, m, n as int, i0);
            }
        }
    }
}

/// `st` is the status a finished task takes: `waited` is `None` when its
/// process could not be waited for, else the exit code the process reported.
pub open spec fn is_finish_status(st: TaskStatus, waited: Option<Option<i32>>) -> bool {
    match waited {
        Some(Some(0i32)) => st is Completed,
        Some(code) => st matches TaskStatus::Failed { error } && error@ == exit_text(code),
        None => st matches TaskStatus::Failed { error } && error@ == "process terminated"@,
    }
}

/// Which statuses a summary list collects: 0 completed, 1 failed, 2 skipped.
pub open spec fn selected(kind: u8, st: TaskStatus) -> bool {
    if kind == 0 {
        st is Completed
    } else if kind == 1 {
        st is Failed
    } else if kind == 2 {
        st is Skipped || st is SkippedDueToDependencyFailure
    } else {
        false
    }
}

/// The entries among the first `n` whose status `kind` selects, in order.
pub open spec fn select(s: Seq<(String, TaskStatus)>, kind: u8, n: int) -> Seq<(String, TaskStatus)>
    decreases n,
{
    if n <= 0 {
        Seq::empty()
    } else if selected(kind, s[n - 1].1) {
        select(s, kind, n - 1).push(s[n - 1])
    } else {
        select(s, kind, n - 1)
    }
}

/// Selected entries come from the list, keep its distinct ids, and cover
/// every entry that `kind` selects.
proof fn lemma_select(s: Seq<(String, TaskStatus)>, kind: u8, n: int)
    requires
        0 <= n <= s.len(),
        entry_ids(s).no_duplicates(),
    ensures
        entry_ids(select(s, kind, n)).no_duplicates(),
        forall|a: int| 0 <= a < select(s, kind, n).len() ==> exists|i: int| 0 <= i < n && #[trigger] select(s, kind, n)[a] == s[i] && selected(kind, s[i].1),
        forall|i: int| 0 <= i < n && selected(kind, #[trigger] s[i].1) ==> entry_ids(select(s, kind, n)).contains(s[i].0@),
    decreases n,
{
    if n == 0 {
        assert(select(s, kind, 0) =~= Seq::<(String, TaskStatus)>::empty());
        assert(entry_ids(select(s, kind, 0)) =~= Seq::<Seq<char>>::empty());
    } else {
        lemma_select(s, kind, n - 1);
        let p = select(s, kind, n - 1);
        let q = select(s, kind, n);
        if selected(kind, s[n - 1].1) {
            assert(q == p.push(s[n - 1]));
            assert(entry_ids(q) =~= entry_ids(p).push(s[n - 1].0@));
            assert(!entry_ids(p).contains(s[n - 1].0@)) by {
                if entry_ids(p).contains(s[n - 1].0@) {
                    let a = choose|a: int| 0 <= a < entry_ids(p).len() && entry_ids(p)[a] == s[n - 1].0@;
                    let i = choose|i: int| 0 <= i < n - 1 && #[trigger] p[a] == s[i] && selected(kind, s[i].1);
                    assert(entry_ids(s)[i] == entry_ids(s)[n - 1]);
                }
            }
            assert forall|a: int| 0 <= a < q.len() implies exists|i: int| 0 <= i < n && #[trigger] q[a] == s[i] && selected(kind, s[i].1) by {
                if a < p.len() {
                    assert(q[a] == p[a]);
                    let i = choose|i: int| 0 <= i < n - 1 && #[trigger] p[a] == s[i] && selected(kind, s[i].1);
                } else {
                    assert(q[a] == s[n - 1]);
                }
            }
            assert forall|i: int| 0 <= i < n && selected(kind, #[trigger] s[i].1) implies entry_ids(q).contains(s[i].0@) by {
                if i < n - 1 {
                    let a = choose|a: int| 0 <= a < entry_ids(p).len() && entry_ids(p)[a] == s[i].0@;
                    assert(entry_ids(q)[a] == s[i].0@);
                } else {
                    assert(entry_ids(q)[q.len() - 1] == s[i].0@);
                }
            }
        } else {
            assert(q == p);
            assert forall|a: int| 0 <= a < q.len() implies exists|i: int| 0 <= i < n && #[trigger] q[a] == s[i] && selected(kind, s[i].1) by {
                let i = choose|i: int| 0 <= i < n - 1 && #[trigger] p[a] == s[i] && selected(kind, s[i].1);
                assert(q[a] == s[i]);
            }
            assert forall|i: int| 0 <= i < n && selected(kind, #[trigger] s[i].1) implies entry_ids(q).contains(s[i].0@) by {
                assert(i < n - 1);
            }
        }
    }
}

/// The entries of `s` that `kind` selects, in order.
fn select_entries(s: &Vec<(String, TaskStatus)>, kind: u8) -> (r: Vec<(String, TaskStatus)>)
    ensures
        r@ == select(s@, kind, s@.len() as int),
{
    let mut r: Vec<(String, TaskStatus)> = Vec::new();
    let mut i: usize = 0;
    while i < s.len()
        invariant
            i <= s.len(),
            r@ == select(s@, kind, i as int),
        decreases s.len() - i,
    {
        let keep = match &s[i].1 {
            TaskStatus::Completed => kind == 0,
            TaskStatus::Failed { .. } => kind == 1,
            TaskStatus::Skipped | TaskStatus::SkippedDueToDependencyFailure => kind == 2,
            _ => false,
        };
        if keep {
            let e = (s[i].0.clone(), s[i].1.duplicate());
            assert(e == s@[i as int]);
            r.push(e);
        }
        i = i + 1;
    }
    r
}

/// Results of a workflow run.
#[derive(Debug, Clone)]
pub struct WorkflowSummary {
    pub succeeded: Vec<String>,
    /// Failed tasks with their error messages.
    pub failed: Vec<(String, String)>,
    pub skipped: Vec<String>,
    pub duration: std::time::Duration,
}

/// `s` sums up the statuses `m` of a run that took `duration`: completed
/// tasks, failed tasks with their errors, and skipped tasks (for either
/// reason), each once.
pub open spec fn summarizes(s: WorkflowSummary, m: Map<Seq<char>, TaskStatus>, duration: std::time::Duration) -> bool {
    &&& views(s.succeeded@).no_duplicates()
    &&& forall|k: Seq<char>| views(s.succeeded@).contains(k) <==> m.contains_key(k) && (m[k] is Completed)
    &&& s.failed@.map_values(|e: (String, String)| e.0@).no_duplicates()
    &&& forall|a: int| 0 <= a < s.failed@.len() ==> m.contains_key(#[trigger] s.failed@[a].0@) && m[s.failed@[a].0@] == (TaskStatus::Failed { error: s.failed@[a].1 })
    &&& forall|k: Seq<char>| m.contains_key(k) && m[k] is Failed ==> s.failed@.map_values(|e: (String, String)| e.0@).contains(k)
    &&& views(s.skipped@).no_duplicates()
    &&& forall|k: Seq<char>| views(s.skipped@).contains(k) <==> m.contains_key(k) && (m[k] is Skipped || m[k] is SkippedDueToDependencyFailure)
    &&& s.duration == duration
}

impl WorkflowSummary {
    /// The summary of the statuses in `state`: completed tasks, failed tasks
    /// with their errors, and skipped tasks (for either reason), each once.
    pub fn from_state<S: StateStore>(state: &S, duration: std::time::Duration) -> (r: WorkflowSummary)
        ensures
            summarizes(r, state.status_map(), duration),
            views(r.succeeded@).no_duplicates(),
            forall|k: Seq<char>| views(r.succeeded@).contains(k) <==> state.status_map().contains_key(k) && (state.status_map()[k] is Completed),
            r.failed@.map_values(|e: (String, String)| e.0@).no_duplicates(),
            forall|a: int| 0 <= a < r.failed@.len() ==> state.status_map().contains_key(#[trigger] r.failed@[a].0@) && state.status_map()[r.failed@[a].0@] == (TaskStatus::Failed { error: r.failed@[a].1 }),
            forall|k: Seq<char>| state.status_map().contains_key(k) && state.status_map()[k] is Failed ==> r.failed@.map_values(|e: (String, String)| e.0@).contains(k),
            views(r.skipped@).no_duplicates(),
            forall|k: Seq<char>| views(r.skipped@).contains(k) <==> state.status_map().contains_key(k) && (state.status_map()[k] is Skipped || state.status_map()[k] is SkippedDueToDependencyFailure),
            r.duration == duration,
    {
        let tasks = state.all_tasks();
        let ghost m = state.status_map();
        let ghost s = tasks@;
        let done = select_entries(&tasks, 0);
        let bad = select_entries(&tasks, 1);
        let skip = select_entries(&tasks, 2);
        proof {
            lemma_select(s, 0, s.len() as int);
            lemma_select(s, 1, s.len() as int);
            lemma_select(s, 2, s.len() as int);
            lemma_entries_map_dom(s);
        }
        let mut succeeded: Vec<String> = Vec::new();
        let mut i: usize = 0;
        while i < done.len()
            invariant
                i <= done.len(),
                views(succeeded@) == entry_ids(done@).take(i as int),
            decreases done.len() - i,
        {
            let ghost before = succeeded@;
            succeeded.push(done[i].0.clone());
            proof {
                assert(views(succeeded@) =~= views(before).push(done@[i as int].0@));
                assert(entry_ids(done@).take(i as int + 1) =~= entry_ids(done@).take(i as int).push(done@[i as int].0@));
            }
            i = i + 1;
        }
        let mut skipped: Vec<String> = Vec::new();
        let mut i: usize = 0;
        while i < skip.len()
            invariant
                i <= skip.len(),
                views(skipped@) == entry_ids(skip@).take(i as int),
            decreases skip.len() - i,
        {
            let ghost before = skipped@;
            skipped.push(skip[i].0.clone());
            proof {
                assert(views(skipped@) =~= views(before).push(skip@[i as int].0@));
                assert(entry_ids(skip@).take(i as int + 1) =~= entry_ids(skip@).take(i as int).push(skip@[i as int].0@));
            }
            i = i + 1;
        }
        let mut failed: Vec<(String, String)> = Vec::new();
        let mut i: usize = 0;
        while i < bad.len()
            invariant
                i <= bad.len(),
                bad@ == select(s, 1, s.len() as int),
                entry_ids(s).no_duplicates(),
                failed@.len() == i,
                forall|a: int| 0 <= a < i ==> (#[trigger] failed@[a]).0 == bad@[a].0 && bad@[a].1 == (TaskStatus::Failed { error: failed@[a].1 }),
            decreases bad.len() - i,
        {
            let ghost e = bad@[i as int];
            proof {
                lemma_select(s, 1, s.len() as int);
                let j = choose|j: int| 0 <= j < s.len() && #[trigger] select(s, 1, s.len() as int)[i as int] == s[j] && selected(1, s[j].1);
            }
            let err = match &bad[i].1 {
                TaskStatus::Failed { error } => error.clone(),
                _ => {
                    proof {
                        assert(false);
                    }
                    String::new()
                },
            };
            failed.push((bad[i].0.clone(), err));
            i = i + 1;
        }
        proof {
            let ds = entry_ids(done@);
            let ks = entry_ids(skip@);
            assert(ds.take(ds.len() as int) =~= ds);
            assert(ks.take(ks.len() as int) =~= ks);
            assert(failed@.map_values(|e: (String, String)| e.0@) =~= entry_ids(bad@));
            assert forall|k: Seq<char>| views(succeeded@).contains(k) <==> m.contains_key(k) && m[k] is Completed by {
                if views(succeeded@).contains(k) {
                    let a = choose|a: int| 0 <= a < ds.len() && ds[a] == k;
                    let j = choose|j: int| 0 <= j < s.len() && #[trigger] done@[a] == s[j] && selected(0, s[j].1);
                    lemma_entries_map_index(s, j);
                }
                if m.contains_key(k) && m[k] is Completed {
                    assert(entry_ids(s).contains(k));
                    let j = choose|j: int| 0 <= j < entry_ids(s).len() && entry_ids(s)[j] == k;
                    lemma_entries_map_index(s, j);
                    assert(selected(0, s[j].1));
                }
            }
            assert forall|k: Seq<char>| views(skipped@).contains(k) <==> m.contains_key(k) && (m[k] is Skipped || m[k] is SkippedDueToDependencyFailure) by {
                if views(skipped@).contains(k) {
                    let a = choose|a: int| 0 <= a < ks.len() && ks[a] == k;
                    let j = choose|j: int| 0 <= j < s.len() && #[trigger] skip@[a] == s[j] && selected(2, s[j].1);
                    lemma_entries_map_index(s, j);
                }
                if m.contains_key(k) && (m[k] is Skipped || m[k] is SkippedDueToDependencyFailure) {
                    assert(entry_ids(s).contains(k));
                    let j = choose|j: int| 0 <= j < entry_ids(s).len() && entry_ids(s)[j] == k;
                    lemma_entries_map_index(s, j);
                    assert(selected(2, s[j].1));
                }
            }
            assert forall|a: int| 0 <= a < failed@.len() implies m.contains_key(#[trigger] failed@[a].0@) && m[failed@[a].0@] == TaskStatus::Failed { error: failed@[a].1 } by {
                let j = choose|j: int| 0 <= j < s.len() && #[trigger] bad@[a] == s[j] && selected(1, s[j].1);
                lemma_entries_map_index(s, j);
            }
            assert forall|k: Seq<char>| m.contains_key(k) && m[k] is Failed implies failed@.map_values(|e: (String, String)| e.0@).contains(k) by {
                assert(entry_ids(s).contains(k));
                let j = choose|j: int| 0 <= j < entry_ids(s).len() && entry_ids(s)[j] == k;
                lemma_entries_map_index(s, j);
                assert(selected(1, s[j].1));
            }
        }
        WorkflowSummary { succeeded, failed, skipped, duration }
    }
}

/// The status a finished task takes, from what waiting for its process gave.
pub fn finish_status(waited: Option<Option<i32>>) -> (r: TaskStatus)
    ensures
        is_finish_status(r, waited),
{
    proof {
        reveal_strlit("exit code ");
        reveal_strlit("process terminated");
    }
    match waited {
        Some(Some(0i32)) => TaskStatus::Completed,
        Some(code) => {
            let c: i32 = match code {
                Some(c) => c,
                None => -1,
            };
            TaskStatus::Failed { error: "exit code ".to_owned().concat(i64_to_string(c as i64).as_str()) }
        },
        None => TaskStatus::Failed { error: "process terminated".to_owned() },
    }
}

/// The message a task fails with when it runs past its time limit.
pub fn timeout_message(id: &str) -> (r: String)
    ensures
        r@ == timeout_text(id@),
{
    let e = WorkflowError::TaskTimeout(id.to_owned());
    let r = e.message();
    proof {
        assert(r@ == crate::error::error_text(e));
    }
    r
}

/// Gives every task of the graph that has no status the status pending.
pub fn initialize_statuses<S: StateStore>(dag: &Dag, state: &mut S)
    requires
        dag.wf(),
    ensures
        forall|k: Seq<char>| #[trigger] old(state).status_map().contains_key(k) ==> final(state).status_map().contains_key(k) && final(state).status_map()[k] == old(state).status_map()[k],
        forall|i: int| 0 <= i < dag.ids().len() ==> final(state).status_map().contains_key(#[trigger] dag.ids()[i]),
        forall|k: Seq<char>| #[trigger] final(state).status_map().contains_key(k) && !old(state).status_map().contains_key(k) ==> final(state).status_map()[k] == TaskStatus::Pending && dag.ids().contains(k),
{
    let ghost m0 = state.status_map();
    let ids = dag.task_ids();
    let mut i: usize = 0;
    while i < ids.len()
        invariant
            i <= ids.len(),
            views(ids@) == dag.ids(),
            forall|k: Seq<char>| #[trigger] m0.contains_key(k) ==> state.status_map().contains_key(k) && state.status_map()[k] == m0[k],
            forall|ii: int| 0 <= ii < i ==> state.status_map().contains_key(#[trigger] dag.ids()[ii]),
            forall|k: Seq<char>| #[trigger] state.status_map().contains_key(k) && !m0.contains_key(k) ==> state.status_map()[k] == TaskStatus::Pending && dag.ids().contains(k),
        decreases ids.len() - i,
    {
        proof {
            assert(views(ids@)[i as int] == ids@[i as int]@);
        }
        if state.get_status(ids[i].as_str()).is_none() {
            state.set_status(ids[i].as_str(), TaskStatus::Pending);
        }
        i = i + 1;
    }
}

/// The tasks whose status lets their dependents run: completed or skipped.
pub fn settled_tasks<S: StateStore>(state: &S) -> (r: TaskIdSet)
    ensures
        r@ == settled_ids(state.status_map()),
{
    let tasks = state.all_tasks();
    let ghost m = state.status_map();
    let ghost s = tasks@;
    let mut r = TaskIdSet::new();
    let mut i: usize = 0;
    proof {
        lemma_entries_map_dom(s);
    }
    while i < tasks.len()
        invariant
            i <= tasks.len(),
            s == tasks@,
            entry_ids(s).no_duplicates(),
            entries_map(s) == m,
            forall|k: Seq<char>| #[trigger] r@.contains(k) <==> exists|j: int| 0 <= j < i && s[j].0@ == k && crate::workflow::settles(s[j].1),
        decreases tasks.len() - i,
    {
        let keep = match &tasks[i].1 {
            TaskStatus::Completed | TaskStatus::Skipped | TaskStatus::SkippedDueToDependencyFailure => true,
            _ => false,
        };
        let ghost before = r@;
        if keep {
            r.insert(tasks[i].0.clone());
        }
        proof {
            assert forall|k: Seq<char>| #[trigger] r@.contains(k) <==> exists|j: int| 0 <= j < i + 1 && s[j].0@ == k && crate::workflow::settles(s[j].1) by {
                if exists|j: int| 0 <= j < i + 1 && s[j].0@ == k && crate::workflow::settles(s[j].1) {
                    let j = choose|j: int| 0 <= j < i + 1 && s[j].0@ == k && crate::workflow::settles(s[j].1);
                    if j < i {
                        assert(before.contains(k));
                    }
                }
                if r@.contains(k) && !before.contains(k) {
                    assert(s[i as int].0@ == k && crate::workflow::settles(s[i as int].1));
                }
            }
        }
        i = i + 1;
    }
    proof {
        assert forall|k: Seq<char>| r@.contains(k) <==> settled_ids(m).contains(k) by {
            if r@.contains(k) {
                let j = choose|j: int| 0 <= j < s.len() && s[j].0@ == k && crate::workflow::settles(s[j].1);
                lemma_entries_map_index(s, j);
            }
            if settled_ids(m).contains(k) {
                assert(m.contains_key(k));
                assert(entry_ids(s).contains(k));
                let j = choose|j: int| 0 <= j < entry_ids(s).len() && entry_ids(s)[j] == k;
                lemma_entries_map_index(s, j);
            }
        }
        assert(r@ =~= settled_ids(m));
    }
    r
}

/// Tasks of the graph that may start now, in node order: not yet completed
/// or skipped, with every dependency completed or skipped.
pub fn dispatch_candidates<S: StateStore>(dag: &Dag, state: &S) -> (r: Vec<String>)
    requires
        dag.wf(),
    ensures
        views(r@) == crate::dag::ready_prefix(dag.ids(), dag.edges(), settled_ids(state.status_map()), dag.ids().len() as int),
{
    let done = settled_tasks(state);
    dag.ready_tasks(&done)
}

/// Whether every task of the graph has a final status.
pub fn all_done<S: StateStore>(dag: &Dag, state: &S) -> (r: bool)
    requires
        dag.wf(),
    ensures
        r == forall|i: int| 0 <= i < dag.ids().len() ==> state.status_map().contains_key(#[trigger] dag.ids()[i]) && is_terminal(state.status_map()[dag.ids()[i]]),
{
    let ids = dag.task_ids();
    let mut i: usize = 0;
    while i < ids.len()
        invariant
            i <= ids.len(),
            views(ids@) == dag.ids(),
            forall|ii: int| 0 <= ii < i ==> state.status_map().contains_key(#[trigger] dag.ids()[ii]) && is_terminal(state.status_map()[dag.ids()[ii]]),
        decreases ids.len() - i,
    {
        proof {
            assert(views(ids@)[i as int] == ids@[i as int]@);
        }
        let term = match state.get_status(ids[i].as_str()) {
            Some(TaskStatus::Completed) | Some(TaskStatus::Failed { .. }) | Some(TaskStatus::Skipped) | Some(TaskStatus::SkippedDueToDependencyFailure) => true,
            _ => false,
        };
        if !term {
            return false;
        }
        i = i + 1;
    }
    true
}

/// Tasks start only after their dependencies: a task that the dispatch
/// selects is not yet completed or skipped, and every task with an edge
/// into it is completed or skipped. So a task with a failed dependency is
/// never started.
pub proof fn lemma_dispatch_respects_dependencies(dag: Dag, m: Map<Seq<char>, TaskStatus>, x: Seq<char>)
    requires
        dag.wf(),
        crate::dag::ready_prefix(dag.ids(), dag.edges(), settled_ids(m), dag.ids().len() as int).contains(x),
    ensures
        exists|i: int| 0 <= i < dag.ids().len() && dag.ids()[i] == x && !settled_ids(m).contains(x)
            && forall|k: int| 0 <= k < dag.edges().len() && #[trigger] dag.edges()[k].1 == i ==> {
                let d = dag.ids()[dag.edges()[k].0];
                m.contains_key(d) && settles(m[d]) && !(m[d] is Failed)
            },
{
    crate::dag::lemma_ready_members(dag.ids(), dag.edges(), settled_ids(m), dag.ids().len() as int, x);
    let i = choose|i: int| 0 <= i < dag.ids().len() && dag.ids()[i] == x && #[trigger] crate::dag::is_ready(dag.ids(), dag.edges(), settled_ids(m), i);
    assert forall|k: int| 0 <= k < dag.edges().len() && #[trigger] dag.edges()[k].1 == i implies {
        let d = dag.ids()[dag.edges()[k].0];
        m.contains_key(d) && settles(m[d]) && !(m[d] is Failed)
    } by {
        let d = dag.ids()[dag.edges()[k].0];
        assert(settled_ids(m).contains(d));
    }
}

/// What the run does with a task that the dispatch offers.
#[derive(Debug, Clone, Copy, PartialEq, Eq, Structural)]
pub enum DispatchDecision {
    /// As many tasks run as are allowed: offer no more this round.
    Stop,
    /// The task is not pending: pass it over.
    Pass,
    /// Start the task.
    Start,
}

/// Decides on an offered task, with `running` tasks under way and at most
/// `max_parallel` allowed.
pub fn dispatch_decision(running: usize, max_parallel: usize, status: &Option<TaskStatus>) -> (r: DispatchDecision)
    ensures
        running >= max_parallel ==> r == DispatchDecision::Stop,
        running < max_parallel && *status == Some(TaskStatus::Pending) ==> r == DispatchDecision::Start,
        running < max_parallel && *status != Some(TaskStatus::Pending) ==> r == DispatchDecision::Pass,
{
    if running >= max_parallel {
        DispatchDecision::Stop
    } else {
        match status {
            Some(TaskStatus::Pending) => DispatchDecision::Start,
            _ => DispatchDecision::Pass,
        }
    }
}

impl Workflow {
    /// Hands out the task `id` to be started and marks it running; `None`,
    /// with nothing changed, when the task is no longer held.
    pub fn start_task<S: StateStore>(&mut self, state: &mut S, id: &str) -> (r: Option<Task>)
        requires
            old(self).wf(),
        ensures
            final(self).wf(),
            final(self).title() == old(self).title(),
            final(self).parallel_limit() == old(self).parallel_limit(),
            !task_ids(old(self).tasks()).contains(id@) ==> r is None && final(self).tasks() == old(self).tasks() && final(state).status_map() == old(state).status_map(),
            task_ids(old(self).tasks()).contains(id@) ==> (r matches Some(t) && t.id@ == id@
                && t == old(self).tasks()[task_ids(old(self).tasks()).index_of(id@)]
                && final(self).tasks() == old(self).tasks().remove(task_ids(old(self).tasks()).index_of(id@))
                && final(state).status_map() == old(state).status_map().insert(id@, TaskStatus::Running)),
    {
        let t = self.take_task(id);
        if t.is_some() {
            state.mark_running(id);
        }
        t
    }
}

/// Whether the run still waits for the result of the finished task `id`:
/// not when it already failed (it ran past its time limit).
pub fn awaits_result<S: StateStore>(state: &S, id: &str) -> (r: bool)
    ensures
        r == !(lookup(state.status_map(), id@) matches Some(TaskStatus::Failed { .. })),
{
    match state.get_status(id) {
        Some(TaskStatus::Failed { .. }) => false,
        _ => true,
    }
}

/// Records how a finished task ended, from what waiting for its process
/// gave: the status `finish_status` gives. Returns whether it completed.
pub fn record_finish<S: StateStore>(state: &mut S, id: &str, waited: Option<Option<i32>>) -> (r: bool)
    ensures
        exists|st: TaskStatus| {
            &&& is_finish_status(st, waited)
            &&& final(state).status_map() == old(state).status_map().insert(id@, st)
            &&& r == (st is Completed)
        },
{
    let st = finish_status(waited);
    let completed = match st {
        TaskStatus::Completed => true,
        _ => false,
    };
    let ghost g = st;
    state.set_status(id, st);
    proof {
        assert(is_finish_status(g, waited));
    }
    completed
}

/// Fails the task `id` for running past its time limit.
pub fn record_timeout<S: StateStore>(state: &mut S, id: &str)
    ensures
        exists|e: String| e@ == timeout_text(id@) && final(state).status_map() == old(state).status_map().insert(id@, TaskStatus::Failed { error: e }),
{
    let msg = timeout_message(id);
    state.mark_failed(id, msg);
}

/// Sets the tasks `ids`, which were running when the run was interrupted,
/// back to pending, so that a resumed run starts them again.
pub fn return_to_pending<S: StateStore>(state: &mut S, ids: &Vec<String>)
    ensures
        final(state).status_map().dom() == old(state).status_map().dom().union(views(ids@).to_set()),
        forall|k: Seq<char>| #[trigger] final(state).status_map().contains_key(k) ==> final(state).status_map()[k] == (if views(ids@).contains(k) { TaskStatus::Pending } else { old(state).status_map()[k] }),
{
    let ghost m0 = state.status_map();
    let mut i: usize = 0;
    while i < ids.len()
        invariant
            i <= ids.len(),
            state.status_map().dom() == m0.dom().union(views(ids@).take(i as int).to_set()),
            forall|k: Seq<char>| #[trigger] state.status_map().contains_key(k) ==> state.status_map()[k] == (if views(ids@).take(i as int).contains(k) { TaskStatus::Pending } else { m0[k] }),
        decreases ids.len() - i,
    {
        let ghost before = state.status_map();
        state.mark_pending(ids[i].as_str());
        proof {
            let x0 = ids@[i as int]@;
            let t0 = views(ids@).take(i as int);
            let t1 = views(ids@).take(i as int + 1);
            assert(t1 =~= t0.push(x0));
            assert forall|x: Seq<char>| t1.contains(x) <==> (t0.contains(x) || x == x0) by {
                if t1.contains(x) {
                    let j = choose|j: int| 0 <= j < t1.len() && t1[j] == x;
                    if j < t0.len() {
                        assert(t0[j] == x);
                    }
                }
                if t0.contains(x) {
                    let j = choose|j: int| 0 <= j < t0.len() && t0[j] == x;
                    assert(t1[j] == x);
                }
                if x == x0 {
                    assert(t1[t0.len() as int] == x);
                }
            }
            assert(t1.to_set() =~= t0.to_set().insert(x0));
            assert(state.status_map().dom() =~= m0.dom().union(t1.to_set()));
            assert forall|k: Seq<char>| #[trigger] state.status_map().contains_key(k) implies state.status_map()[k] == (if t1.contains(k) { TaskStatus::Pending } else { m0[k] }) by {
                if k != x0 {
                    assert(before.contains_key(k));
                }
            }
        }
        i = i + 1;
    }
    proof {
        assert(views(ids@).take(ids@.len() as int) =~= views(ids@));
    }
}

/// The details a hook sees when its task finishes: state "completed" or
/// "failed", and the exit code when there is one.
pub fn finish_context(id: &str, workdir: std::path::PathBuf, completed: bool, exit_code: Option<i32>) -> (r: crate::monitoring::HookContext)
    ensures
        r.task_id@ == id@,
        r.workdir == workdir,
        r.state@ == (if completed { "completed"@ } else { "failed"@ }),
        r.exit_code == exit_code,
{
    proof {
        reveal_strlit("completed");
        reveal_strlit("failed");
    }
    let state = if completed { "completed".to_owned() } else { "failed".to_owned() };
    crate::monitoring::HookContext { task_id: id.to_owned(), workdir, state, exit_code }
}

/// The details a hook sees when its task starts: state "running", no exit code.
pub fn start_context(id: &str, workdir: std::path::PathBuf) -> (r: crate::monitoring::HookContext)
    ensures
        r.task_id@ == id@,
        r.workdir == workdir,
        r.state@ == "running"@,
        r.exit_code is None,
{
    proof {
        reveal_strlit("running");
    }
    crate::monitoring::HookContext { task_id: id.to_owned(), workdir, state: "running".to_owned(), exit_code: None }
}

} // verus!
