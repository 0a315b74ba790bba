//! A pipeline of configured tasks: the tasks as nodes of a graph, with an
//! edge from each dependency to its dependent.
use crate::dag::{graph_add_edge, graph_add_node, graph_edges, graph_neighbors, graph_new, graph_nodes, has_cycle, in_sources, is_topological_order, lemma_in_sources, lemma_out_targets, out_targets, TaskGraph};
use crate::schema::ConcreteTask;
use crate::text::{str_eq, views};
use vstd::prelude::*;
use vstd::string::*;

verus! {

/// The order in which petgraph's `Topo` walk visits the nodes of a graph
/// with `node_count` nodes whose edges were added in the order given.
pub uninterp spec fn topo_walk_result(node_count: nat, edges: Seq<(int, int)>) -> Seq<int>;

/// Calls `petgraph::algo::is_cyclic_directed`, which reports whether the
/// graph has a cycle (a self loop included).
#[verifier::external_body]
fn graph_is_cyclic(g: &TaskGraph) -> (r: bool)
    ensures
        r == has_cycle(graph_edges(*g)),
{
    petgraph::algo::is_cyclic_directed(g)
}

/// Walks the graph with `petgraph::visit::Topo`. On a graph without a
/// cycle the walk visits every node once, each before its successors.
#[verifier::external_body]
fn graph_topo_walk(g: &TaskGraph) -> (r: Vec<usize>)
    ensures
        r@.map_values(|x: usize| x as int) == topo_walk_result(graph_nodes(*g).len(), graph_edges(*g)),
        !has_cycle(graph_edges(*g)) ==> is_topological_order(r@.map_values(|x: usize| x as int), graph_nodes(*g).len(), graph_edges(*g)),
{
    petgraph::visit::Walker::iter(petgraph::visit::Topo::new(g), g).map(|n| n.index()).collect()
}

/// The ids of the tasks, in order.
pub open spec fn task_ids_of(tasks: Seq<ConcreteTask>) -> Seq<Seq<char>> {
    tasks.map_values(|t: ConcreteTask| t.id@)
}

/// Position of the last task with id `id` (the one a lookup by id finds);
/// -1 when there is none.
pub open spec fn last_index(ids: Seq<Seq<char>>, id: Seq<char>) -> int
    decreases ids.len(),
{
    if ids.len() == 0 {
        -1
    } else if ids.last() == id {
        ids.len() - 1
    } else {
        last_index(ids.drop_last(), id)
    }
}

/// Every declared dependency as (position of the dependent, id of the
/// dependency): tasks in order, each task's dependencies in order.
pub open spec fn dep_list(tasks: Seq<ConcreteTask>) -> Seq<(int, Seq<char>)>
    decreases tasks.len(),
{
    if tasks.len() == 0 {
        Seq::empty()
    } else {
        dep_list(tasks.drop_last()) + views(tasks.last().depends_on@).map_values(|d: Seq<char>| ((tasks.len() - 1) as int, d))
    }
}

/// The edges of the pipeline: for each dependency that names a task, from
/// that task to the dependent, in the order of `deps`.
pub open spec fn known_edges(ids: Seq<Seq<char>>, deps: Seq<(int, Seq<char>)>) -> Seq<(int, int)>
    decreases deps.len(),
{
    if deps.len() == 0 {
        Seq::empty()
    } else {
        let p = deps.last();
        known_edges(ids, deps.drop_last()) + if last_index(ids, p.1) >= 0 { seq![(last_index(ids, p.1), p.0)] } else { Seq::empty() }
    }
}

/// The first dependency in `deps` that names no task.
pub open spec fn first_unknown(ids: Seq<Seq<char>>, deps: Seq<(int, Seq<char>)>) -> Option<(int, Seq<char>)>
    decreases deps.len(),
{
    if deps.len() == 0 {
        None
    } else if first_unknown(ids, deps.drop_last()) is Some {
        first_unknown(ids, deps.drop_last())
    } else if last_index(ids, deps.last().1) < 0 {
        Some(deps.last())
    } else {
        None
    }
}

/// The message of the error about a dependency on an unknown task.
pub open spec fn unknown_dep_message(task: Seq<char>, dep: Seq<char>) -> Seq<char> {
    "task '"@ + task + "' depends on unknown task '"@ + dep + "'"@
}

/// `last_index` lies among the positions, or is -1.
proof fn lemma_last_index(ids: Seq<Seq<char>>, id: Seq<char>)
    ensures
        -1 <= last_index(ids, id) < ids.len(),
        last_index(ids, id) >= 0 ==> ids[last_index(ids, id)] == id,
        last_index(ids, id) < 0 ==> !ids.contains(id),
        forall|k: int| last_index(ids, id) < k < ids.len() ==> ids[k] != id,
    decreases ids.len(),
{
    if ids.len() > 0 {
        lemma_last_index(ids.drop_last(), id);
        if ids.last() != id {
            assert forall|k: int| 0 <= k < ids.len() - 1 implies ids[k] == ids.drop_last()[k] by {}
            if last_index(ids, id) < 0 {
                assert forall|k: int| 0 <= k < ids.len() implies ids[k] != id by {
                    if k < ids.len() - 1 {
                        assert(ids[k] == ids.drop_last()[k]);
                        assert(!ids.drop_last().contains(id));
                    }
                }
            }
        }
    }
}

/// The dependencies of the first tasks come first among all of them, and
/// every entry names a task position.
proof fn lemma_dep_list_prefix(tasks: Seq<ConcreteTask>, i: int)
    requires
        0 <= i <= tasks.len(),
    ensures
        dep_list(tasks.take(i)).len() <= dep_list(tasks).len(),
        forall|k: int| 0 <= k < dep_list(tasks.take(i)).len() ==> #[trigger] dep_list(tasks)[k] == dep_list(tasks.take(i))[k],
        forall|k: int| 0 <= k < dep_list(tasks).len() ==> 0 <= #[trigger] dep_list(tasks)[k].0 < tasks.len(),
    decreases tasks.len(),
{
    if tasks.len() > 0 {
        let t = tasks.drop_last();
        if i == tasks.len() {
            assert(tasks.take(i) =~= tasks);
        } else {
            assert(t.take(i) =~= tasks.take(i));
        }
        lemma_dep_list_prefix(t, if i == tasks.len() { t.len() as int } else { i });
        let tail = views(tasks.last().depends_on@).map_values(|d: Seq<char>| ((tasks.len() - 1) as int, d));
        assert(dep_list(tasks) == dep_list(t) + tail);
        assert forall|k: int| 0 <= k < dep_list(tasks).len() implies 0 <= #[trigger] dep_list(tasks)[k].0 < tasks.len() by {
            if k < dep_list(t).len() {
                assert(dep_list(tasks)[k] == dep_list(t)[k]);
            } else {
                assert(dep_list(tasks)[k] == tail[k - dep_list(t).len()]);
            }
        }
    } else {
        assert(tasks.take(i) =~= tasks);
    }
}

/// An unknown dependency found in a prefix is the first of the whole list.
proof fn lemma_first_unknown_stable(ids: Seq<Seq<char>>, a: Seq<(int, Seq<char>)>, b: Seq<(int, Seq<char>)>)
    requires
        first_unknown(ids, a) is Some,
    ensures
        first_unknown(ids, a + b) == first_unknown(ids, a),
    decreases b.len(),
{
    if b.len() == 0 {
        assert(a + b =~= a);
    } else {
        lemma_first_unknown_stable(ids, a, b.drop_last());
        assert((a + b).drop_last() =~= a + b.drop_last());
    }
}

/// Position of the last task with id `id`.
fn find_last(tasks: &Vec<ConcreteTask>, id: &str) -> (r: Option<usize>)
    ensures
        r matches Some(k) ==> k as int == last_index(task_ids_of(tasks@), id@),
        r is None ==> last_index(task_ids_of(tasks@), id@) == -1,
{
    let ghost ids = task_ids_of(tasks@);
    let mut i = tasks.len();
    proof {
        lemma_last_index(ids, id@);
    }
    while i > 0
        invariant
            i <= tasks.len(),
            ids == task_ids_of(tasks@),
            forall|k: int| i <= k < ids.len() ==> ids[k] != id@,
            -1 <= last_index(ids, id@) < ids.len(),
            last_index(ids, id@) >= 0 ==> ids[last_index(ids, id@)] == id@,
            forall|k: int| last_index(ids, id@) < k < ids.len() ==> ids[k] != id@,
        decreases i,
    {
        i = i - 1;
        if str_eq(tasks[i].id.as_str(), id) {
            proof {
                assert(ids[i as int] == id@);
            }
            return Some(i);
        }
    }
    None
}

/// A directed acyclic graph of configured tasks; edges point from a
/// dependency to its dependent.
pub struct Pipeline {
    graph: TaskGraph,
    tasks: Vec<ConcreteTask>,
}

impl Pipeline {
    /// The graph holds a node per task, in order; its edges join tasks and
    /// close no cycle.
    #[verifier::type_invariant]
    closed spec fn well_formed(&self) -> bool {
        &&& graph_nodes(self.graph) == task_ids_of(self.tasks@)
        &&& forall|k: int| 0 <= k < graph_edges(self.graph).len() ==> 0 <= #[trigger] graph_edges(self.graph)[k].0 < self.tasks@.len()
        &&& forall|k: int| 0 <= k < graph_edges(self.graph).len() ==> 0 <= #[trigger] graph_edges(self.graph)[k].1 < self.tasks@.len()
        &&& !has_cycle(graph_edges(self.graph))
    }

    /// The tasks, in node-index order.
    pub closed spec fn task_list(&self) -> Seq<ConcreteTask> {
        self.tasks@
    }

    /// The edges between node indices, in the order they were added.
    pub closed spec fn edge_list(&self) -> Seq<(int, int)> {
        graph_edges(self.graph)
    }

    /// Builds a pipeline from a flat list of tasks, wiring an edge from each
    /// dependency to its dependent (a dependency names the last task with
    /// that id). A cycle among these edges is an error; so, after that, is a
    /// dependency on an unknown task, the first one in task order reported.
    pub fn from_tasks(tasks: Vec<ConcreteTask>) -> (r: Result<Pipeline, String>)
        requires
            tasks@.len() < u32::MAX,
            dep_list(tasks@).len() < u32::MAX,
        ensures
            has_cycle(known_edges(task_ids_of(tasks@), dep_list(tasks@))) ==> (r matches Err(m) && m@ == "pipeline contains a cycle"@),
            !has_cycle(known_edges(task_ids_of(tasks@), dep_list(tasks@))) ==> match first_unknown(task_ids_of(tasks@), dep_list(tasks@)) {
                Some((i, d)) => r matches Err(m) && m@ == unknown_dep_message(task_ids_of(tasks@)[i], d),
                None => r matches Ok(p) && p.task_list() == tasks@ && p.edge_list() == known_edges(task_ids_of(tasks@), dep_list(tasks@)),
            },
    {
        let ghost ids = task_ids_of(tasks@);
        let ghost all = dep_list(tasks@);
        let graph = Self::wire(&tasks);
        if graph_is_cyclic(&graph) {
            proof {
                reveal_strlit("pipeline contains a cycle");
            }
            return Err("pipeline contains a cycle".to_owned());
        }
        match Self::unknown_dependency(&tasks) {
            Some(msg) => Err(msg),
            None => {
                proof {
                    lemma_dep_list_prefix(tasks@, tasks@.len() as int);
                    assert(ids.len() == tasks@.len());
                    assert(tasks@.take(tasks@.len() as int) =~= tasks@);
                    lemma_edges_in_range(ids, all);
                    assert(graph_edges(graph) == known_edges(ids, all));
                }
                Ok(Pipeline { graph, tasks })
            },
        }
    }

    /// The graph of the tasks: a node per task, an edge per dependency that
    /// names a task.
    fn wire(tasks: &Vec<ConcreteTask>) -> (g: TaskGraph)
        requires
            tasks@.len() < u32::MAX,
            dep_list(tasks@).len() < u32::MAX,
        ensures
            graph_nodes(g) == task_ids_of(tasks@),
            graph_edges(g) == known_edges(task_ids_of(tasks@), dep_list(tasks@)),
    {
        let ghost ids = task_ids_of(tasks@);
        let mut graph = graph_new();
        let n = tasks.len();
        let mut i: usize = 0;
        while i < n
            invariant
                n == tasks@.len(),
                n < u32::MAX,
                i <= n,
                ids == task_ids_of(tasks@),
                graph_nodes(graph) == ids.take(i as int),
                graph_edges(graph) == Seq::<(int, int)>::empty(),
            decreases n - i,
        {
            graph_add_node(&mut graph, tasks[i].id.clone());
            proof {
                assert(ids.take(i as int + 1) =~= ids.take(i as int).push(tasks@[i as int].id@));
            }
            i = i + 1;
        }
        proof {
            assert(ids.take(n as int) =~= ids);
            lemma_dep_list_prefix(tasks@, n as int);
            assert(tasks@.take(0) =~= Seq::<ConcreteTask>::empty());
        }
        let mut i: usize = 0;
        while i < n
            invariant
                n == tasks@.len(),
                i <= n,
                ids == task_ids_of(tasks@),
                dep_list(tasks@).len() < u32::MAX,
                graph_nodes(graph) == ids,
                graph_edges(graph) == known_edges(ids, dep_list(tasks@.take(i as int))),
            decreases n - i,
        {
            let deps = &tasks[i].depends_on;
            let ghost before = dep_list(tasks@.take(i as int));
            let ghost mapped = views(deps@).map_values(|d: Seq<char>| (i as int, d));
            proof {
                assert(tasks@.take(i as int + 1).drop_last() =~= tasks@.take(i as int));
                assert(dep_list(tasks@.take(i as int + 1)) == before + mapped);
                assert(before + mapped.take(0) =~= before);
                lemma_dep_list_prefix(tasks@, i as int + 1);
            }
            let mut j: usize = 0;
            while j < deps.len()
                invariant
                    n == tasks@.len(),
                    i < n,
                    j <= deps.len(),
                    deps == &tasks@[i as int].depends_on,
                    ids == task_ids_of(tasks@),
                    mapped == views(deps@).map_values(|d: Seq<char>| (i as int, d)),
                    dep_list(tasks@.take(i as int + 1)) == before + mapped,
                    dep_list(tasks@.take(i as int + 1)).len() <= dep_list(tasks@).len(),
                    dep_list(tasks@).len() < u32::MAX,
                    graph_nodes(graph) == ids,
                    graph_edges(graph) == known_edges(ids, before + mapped.take(j as int)),
                decreases deps.len() - j,
            {
                let ghost cur = before + mapped.take(j as int);
                let ghost next = before + mapped.take(j as int + 1);
                proof {
                    assert(next.drop_last() =~= cur);
                    assert(next.last() == (i as int, deps@[j as int]@));
                    lemma_known_edges_len(ids, cur);
                    assert(cur.len() < (before + mapped).len());
                }
                match find_last(tasks, deps[j].as_str()) {
                    Some(d) => {
                        proof {
                            lemma_last_index(ids, deps@[j as int]@);
                        }
                        graph_add_edge(&mut graph, d, i);
                    },
                    None => {},
                }
                proof {
                    assert(graph_edges(graph) =~= known_edges(ids, next));
                }
                j = j + 1;
            }
            proof {
                assert(mapped.take(mapped.len() as int) =~= mapped);
            }
            i = i + 1;
        }
        proof {
            assert(tasks@.take(n as int) =~= tasks@);
        }
        graph
    }

    /// The message about the first dependency on an unknown task, if any.
    fn unknown_dependency(tasks: &Vec<ConcreteTask>) -> (r: Option<String>)
        ensures
            match first_unknown(task_ids_of(tasks@), dep_list(tasks@)) {
                Some((i, d)) => r matches Some(m) && m@ == unknown_dep_message(task_ids_of(tasks@)[i], d),
                None => r is None,
            },
    {
        proof {
            reveal_strlit("task '");
            reveal_strlit("' depends on unknown task '");
            reveal_strlit("'");
        }
        let ghost ids = task_ids_of(tasks@);
        let n = tasks.len();
        let mut i: usize = 0;
        proof {
            assert(tasks@.take(0) =~= Seq::<ConcreteTask>::empty());
        }
        while i < n
            invariant
                n == tasks@.len(),
                i <= n,
                ids == task_ids_of(tasks@),
                first_unknown(ids, dep_list(tasks@.take(i as int))) is None,
            decreases n - i,
        {
            let deps = &tasks[i].depends_on;
            let ghost before = dep_list(tasks@.take(i as int));
            let ghost mapped = views(deps@).map_values(|d: Seq<char>| (i as int, d));
            proof {
                assert(tasks@.take(i as int + 1).drop_last() =~= tasks@.take(i as int));
                assert(dep_list(tasks@.take(i as int + 1)) == before + mapped);
                assert(before + mapped.take(0) =~= before);
            }
            let mut j: usize = 0;
            while j < deps.len()
                invariant
                    n == tasks@.len(),
                    i < n,
                    j <= deps.len(),
                    deps == &tasks@[i as int].depends_on,
                    ids == task_ids_of(tasks@),
                    mapped == views(deps@).map_values(|d: Seq<char>| (i as int, d)),
                    dep_list(tasks@.take(i as int + 1)) == before + mapped,
                    first_unknown(ids, before + mapped.take(j as int)) is None,
                decreases deps.len() - j,
            {
                let ghost cur = before + mapped.take(j as int);
                let ghost next = before + mapped.take(j as int + 1);
                proof {
                    assert(next.drop_last() =~= cur);
                    assert(next.last() == (i as int, deps@[j as int]@));
                }
                if find_last(tasks, deps[j].as_str()).is_none() {
                    proof {
                        assert(first_unknown(ids, next) == Some((i as int, deps@[j as int]@)));
                        let rest = mapped.skip(j as int + 1);
                        assert(before + mapped =~= next + rest);
                        lemma_first_unknown_stable(ids, next, rest);
                        let rest_tasks = tasks@.skip(i as int + 1);
                        lemma_dep_list_split(tasks@, i as int + 1);
                        lemma_first_unknown_stable(ids, before + mapped, dep_list(tasks@).skip(dep_list(tasks@.take(i as int + 1)).len() as int));
                        assert(ids[i as int] == tasks@[i as int].id@);
                    }
                    return Some("task '".to_owned().concat(tasks[i].id.as_str()).concat("' depends on unknown task '").concat(deps[j].as_str()).concat("'"));
                }
                j = j + 1;
            }
            proof {
                assert(mapped.take(mapped.len() as int) =~= mapped);
            }
            i = i + 1;
        }
        proof {
            assert(tasks@.take(n as int) =~= tasks@);
        }
        None
    }
}

impl Pipeline {
    /// The node indices in the order of petgraph's `Topo` walk: every task
    /// once, each after the tasks it depends on.
    pub fn topological_order(&self) -> (r: Vec<usize>)
        ensures
            r@.map_values(|x: usize| x as int) == topo_walk_result(self.task_list().len(), self.edge_list()),
            is_topological_order(r@.map_values(|x: usize| x as int), self.task_list().len(), self.edge_list()),
    {
        proof {
            use_type_invariant(self);
        }
        graph_topo_walk(&self.graph)
    }

    /// The node index of the task `id` (the last task with that id).
    pub fn node_index(&self, id: &str) -> (r: Option<usize>)
        ensures
            r matches Some(k) ==> k as int == last_index(task_ids_of(self.task_list()), id@),
            r is None ==> last_index(task_ids_of(self.task_list()), id@) == -1,
    {
        find_last(&self.tasks, id)
    }

    /// The number of tasks.
    pub fn len(&self) -> (r: usize)
        ensures
            r == self.task_list().len(),
    {
        self.tasks.len()
    }

    /// The task at node index `i`.
    pub fn task(&self, i: usize) -> (r: &ConcreteTask)
        requires
            i < self.task_list().len(),
        ensures
            *r == self.task_list()[i as int],
    {
        &self.tasks[i]
    }

    /// The tasks at the node indices `nbrs`, in order.
    fn tasks_at(&self, nbrs: &Vec<usize>) -> (r: Vec<&ConcreteTask>)
        requires
            forall|m: int| 0 <= m < nbrs@.len() ==> #[trigger] nbrs@[m] < self.task_list().len(),
        ensures
            r@.len() == nbrs@.len(),
            forall|m: int| 0 <= m < r@.len() ==> *r@[m] == self.task_list()[#[trigger] nbrs@[m] as int],
    {
        let mut r: Vec<&ConcreteTask> = Vec::new();
        let mut j: usize = 0;
        while j < nbrs.len()
            invariant
                j <= nbrs.len(),
                forall|m: int| 0 <= m < nbrs@.len() ==> #[trigger] nbrs@[m] < self.tasks@.len(),
                r@.len() == j,
                forall|m: int| 0 <= m < j ==> *r@[m] == self.tasks@[#[trigger] nbrs@[m] as int],
            decreases nbrs.len() - j,
        {
            r.push(&self.tasks[nbrs[j]]);
            j = j + 1;
        }
        r
    }

    /// The tasks that depend directly on the task `id`, most recently added
    /// edge first; none for an unknown id.
    pub fn successors(&self, id: &str) -> (r: Vec<&ConcreteTask>)
        ensures
            last_index(task_ids_of(self.task_list()), id@) < 0 ==> r@.len() == 0,
            last_index(task_ids_of(self.task_list()), id@) >= 0 ==> {
                let ns = out_targets(self.edge_list(), last_index(task_ids_of(self.task_list()), id@), self.edge_list().len() as int).reverse();
                &&& r@.len() == ns.len()
                &&& forall|m: int| 0 <= m < r@.len() ==> 0 <= ns[m] < self.task_list().len() && *r@[m] == self.task_list()[#[trigger] ns[m]]
            },
    {
        proof {
            use_type_invariant(self);
        }
        let a = match find_last(&self.tasks, id) {
            Some(a) => a,
            None => {
                return Vec::new();
            },
        };
        let ghost e = graph_edges(self.graph);
        let ghost ns = out_targets(e, a as int, e.len() as int).reverse();
        proof {
            lemma_last_index(task_ids_of(self.tasks@), id@);
            lemma_out_targets(e, a as int, e.len() as int);
        }
        let nbrs = graph_neighbors(&self.graph, a, false);
        proof {
            let t0 = out_targets(e, a as int, e.len() as int);
            assert(nbrs@.map_values(|x: usize| x as int) == t0.reverse());
            assert(nbrs@.len() == t0.len());
            assert forall|m: int| 0 <= m < nbrs@.len() implies #[trigger] nbrs@[m] < self.tasks@.len() && nbrs@[m] as int == ns[m] by {
                assert(nbrs@.map_values(|x: usize| x as int)[m] == nbrs@[m] as int);
                let t = out_targets(e, a as int, e.len() as int);
                assert(ns[m] == t[t.len() - 1 - m]);
                let j = choose|j: int| 0 <= j < e.len() && e[j].0 == a && #[trigger] t[t.len() - 1 - m] == e[j].1;
                assert(0 <= e[j].1 < self.tasks@.len());
            }
        }
        self.tasks_at(&nbrs)
    }

    /// The tasks that the task `id` depends on directly, most recently
    /// added edge first; none for an unknown id.
    pub fn predecessors(&self, id: &str) -> (r: Vec<&ConcreteTask>)
        ensures
            last_index(task_ids_of(self.task_list()), id@) < 0 ==> r@.len() == 0,
            last_index(task_ids_of(self.task_list()), id@) >= 0 ==> {
                let ns = in_sources(self.edge_list(), last_index(task_ids_of(self.task_list()), id@), self.edge_list().len() as int).reverse();
                &&& r@.len() == ns.len()
                &&& forall|m: int| 0 <= m < r@.len() ==> 0 <= ns[m] < self.task_list().len() && *r@[m] == self.task_list()[#[trigger] ns[m]]
            },
    {
        proof {
            use_type_invariant(self);
        }
        let a = match find_last(&self.tasks, id) {
            Some(a) => a,
            None => {
                return Vec::new();
            },
        };
        let ghost e = graph_edges(self.graph);
        let ghost ns = in_sources(e, a as int, e.len() as int).reverse();
        proof {
            lemma_last_index(task_ids_of(self.tasks@), id@);
            lemma_in_sources(e, a as int, e.len() as int);
        }
        let nbrs = graph_neighbors(&self.graph, a, true);
        proof {
            let t0 = in_sources(e, a as int, e.len() as int);
            assert(nbrs@.map_values(|x: usize| x as int) == t0.reverse());
            assert(nbrs@.len() == t0.len());
            assert forall|m: int| 0 <= m < nbrs@.len() implies #[trigger] nbrs@[m] < self.tasks@.len() && nbrs@[m] as int == ns[m] by {
                assert(nbrs@.map_values(|x: usize| x as int)[m] == nbrs@[m] as int);
                let t = in_sources(e, a as int, e.len() as int);
                assert(ns[m] == t[t.len() - 1 - m]);
                let j = choose|j: int| 0 <= j < e.len() && e[j].1 == a && #[trigger] t[t.len() - 1 - m] == e[j].0;
                assert(0 <= e[j].0 < self.tasks@.len());
            }
        }
        self.tasks_at(&nbrs)
    }
}

/// The edges of `known_edges` are at most one per dependency.
proof fn lemma_known_edges_len(ids: Seq<Seq<char>>, deps: Seq<(int, Seq<char>)>)
    ensures
        known_edges(ids, deps).len() <= deps.len(),
    decreases deps.len(),
{
    if deps.len() > 0 {
        lemma_known_edges_len(ids, deps.drop_last());
    }
}

/// Every edge of `known_edges` joins task positions, when the dependents are positions.
proof fn lemma_edges_in_range(ids: Seq<Seq<char>>, deps: Seq<(int, Seq<char>)>)
    requires
        forall|k: int| 0 <= k < deps.len() ==> 0 <= #[trigger] deps[k].0 < ids.len(),
    ensures
        forall|k: int| 0 <= k < known_edges(ids, deps).len() ==> 0 <= #[trigger] known_edges(ids, deps)[k].0 < ids.len(),
        forall|k: int| 0 <= k < known_edges(ids, deps).len() ==> 0 <= #[trigger] known_edges(ids, deps)[k].1 < ids.len(),
    decreases deps.len(),
{
    if deps.len() > 0 {
        let d = deps.drop_last();
        assert forall|k: int| 0 <= k < d.len() implies 0 <= #[trigger] d[k].0 < ids.len() by {
            assert(d[k] == deps[k]);
        }
        lemma_edges_in_range(ids, d);
        lemma_last_index(ids, deps.last().1);
        assert(deps.last() == deps[deps.len() - 1]);
        let e = known_edges(ids, deps);
        let e0 = known_edges(ids, d);
        assert forall|k: int| 0 <= k < e.len() implies 0 <= #[trigger] e[k].0 < ids.len() by {
            if k < e0.len() {
                assert(e[k] == e0[k]);
            }
        }
        assert forall|k: int| 0 <= k < e.len() implies 0 <= #[trigger] e[k].1 < ids.len() by {
            if k < e0.len() {
                assert(e[k] == e0[k]);
            }
        }
    }
}

/// The dependencies of all tasks are those of the first `i`, then the rest.
proof fn lemma_dep_list_split(tasks: Seq<ConcreteTask>, i: int)
    requires
        0 <= i <= tasks.len(),
    ensures
        dep_list(tasks) == dep_list(tasks.take(i)) + dep_list(tasks).skip(dep_list(tasks.take(i)).len() as int),
{
    lemma_dep_list_prefix(tasks, i);
    assert(dep_list(tasks) =~= dep_list(tasks.take(i)) + dep_list(tasks).skip(dep_list(tasks.take(i)).len() as int));
}

} // verus!
