//! Dependency graph of a workflow, kept acyclic at every step.
//!
//! The graph itself is a `petgraph` directed graph whose node weights are the
//! task ids; the library keeps beside it the list of ids in node-index order,
//! through which ids are looked up.
use crate::error::WorkflowError;
use crate::text::{str_eq, views};
use vstd::prelude::*;

verus! {

#[verifier::external_type_specification]
#[verifier::external_body]
#[verifier::reject_recursive_types(N)]
#[verifier::reject_recursive_types(E)]
#[verifier::reject_recursive_types(Ty)]
#[verifier::reject_recursive_types(Ix)]
pub struct ExGraph<N, E, Ty, Ix>(petgraph::graph::Graph<N, E, Ty, Ix>);

#[verifier::external_type_specification]
#[verifier::external_body]
pub struct ExDirected(petgraph::Directed);

/// The node weights of a task graph, in node-index order.
pub uninterp spec fn graph_nodes(g: petgraph::graph::Graph<String, (), petgraph::Directed, u32>) -> Seq<Seq<char>>;

/// The edges `(source, target)` of a task graph, in edge-index order.
pub uninterp spec fn graph_edges(g: petgraph::graph::Graph<String, (), petgraph::Directed, u32>) -> Seq<(int, int)>;

/// The node order that `petgraph::algo::toposort` produces for an acyclic
/// graph with `node_count` nodes whose edges were added in the order given.
pub uninterp spec fn toposort_result(node_count: nat, edges: Seq<(int, int)>) -> Seq<int>;

/// `(a, b)` is one of the edges.
pub open spec fn edge_in(edges: Seq<(int, int)>, a: int, b: int) -> bool {
    exists|k: int| 0 <= k < edges.len() && edges[k] == (a, b)
}

/// `p` follows edges from its first node to its last.
pub open spec fn is_path(edges: Seq<(int, int)>, p: Seq<int>) -> bool {
    &&& p.len() >= 2
    &&& forall|k: int| 0 <= k < p.len() - 1 ==> edge_in(edges, #[trigger] p[k], p[k + 1])
}

/// Some path returns to its start (self loops included).
pub open spec fn has_cycle(edges: Seq<(int, int)>) -> bool {
    exists|p: Seq<int>| #[trigger] is_path(edges, p) && p[0] == p[p.len() - 1]
}

/// `a` stands before `b` in `order`.
pub open spec fn precedes<T>(order: Seq<T>, a: T, b: T) -> bool {
    exists|i: int, j: int| 0 <= i < j < order.len() && order[i] == a && order[j] == b
}

/// `order` lists every node below `n` once, each before its successors.
pub open spec fn is_topological_order(order: Seq<int>, n: nat, edges: Seq<(int, int)>) -> bool {
    &&& order.len() == n
    &&& order.no_duplicates()
    &&& forall|i: int| 0 <= i < order.len() ==> 0 <= #[trigger] order[i] < n
    &&& forall|k: int| 0 <= k < edges.len() ==> precedes(order, #[trigger] edges[k].0, edges[k].1)
}

/// Targets of the edges that leave `a`, among the first `k` edges, in edge order.
pub open spec fn out_targets(edges: Seq<(int, int)>, a: int, k: int) -> Seq<int>
    decreases k,
{
    if k <= 0 || k > edges.len() {
        Seq::empty()
    } else if edges[k - 1].0 == a {
        out_targets(edges, a, k - 1).push(edges[k - 1].1)
    } else {
        out_targets(edges, a, k - 1)
    }
}

/// Sources of the edges that enter `a`, among the first `k` edges, in edge order.
pub open spec fn in_sources(edges: Seq<(int, int)>, a: int, k: int) -> Seq<int>
    decreases k,
{
    if k <= 0 || k > edges.len() {
        Seq::empty()
    } else if edges[k - 1].1 == a {
        in_sources(edges, a, k - 1).push(edges[k - 1].0)
    } else {
        in_sources(edges, a, k - 1)
    }
}

pub type TaskGraph = petgraph::graph::Graph<String, (), petgraph::Directed, u32>;

/// Calls `Graph::new`: a directed graph with no nodes and no edges.
#[verifier::external_body]
pub(crate) fn graph_new() -> (g: TaskGraph)
    ensures
        graph_nodes(g) == Seq::<Seq<char>>::empty(),
        graph_edges(g) == Seq::<(int, int)>::empty(),
{
    petgraph::graph::Graph::new()
}

/// Calls `Graph::add_node`: appends a node holding `weight` and returns its
/// index, the former node count; the edges stay. It panics only when the
/// count has reached `u32::MAX`, which `requires` rules out.
#[verifier::external_body]
pub(crate) fn graph_add_node(g: &mut TaskGraph, weight: String) -> (i: usize)
    requires
        graph_nodes(*old(g)).len() < u32::MAX,
    ensures
        graph_nodes(*final(g)) == graph_nodes(*old(g)).push(weight@),
        graph_edges(*final(g)) == graph_edges(*old(g)),
        i == graph_nodes(*old(g)).len(),
{
    g.add_node(weight).index()
}

/// Calls `Graph::add_edge`: appends the edge `(a, b)` and returns its index.
/// It panics on a missing node or when the edge count has reached `u32::MAX`,
/// which `requires` rules out.
#[verifier::external_body]
pub(crate) fn graph_add_edge(g: &mut TaskGraph, a: usize, b: usize) -> (e: usize)
    requires
        a < graph_nodes(*old(g)).len(),
        b < graph_nodes(*old(g)).len(),
        graph_edges(*old(g)).len() < u32::MAX,
    ensures
        graph_nodes(*final(g)) == graph_nodes(*old(g)),
        graph_edges(*final(g)) == graph_edges(*old(g)).push((a as int, b as int)),
        e == graph_edges(*old(g)).len(),
{
    g.add_edge(petgraph::graph::NodeIndex::new(a), petgraph::graph::NodeIndex::new(b), ()).index()
}

/// Calls `Graph::remove_edge` on the most recently added edge, which leaves
/// the other edges where they were.
#[verifier::external_body]
fn graph_remove_last_edge(g: &mut TaskGraph, e: usize)
    requires
        e + 1 == graph_edges(*old(g)).len(),
    ensures
        graph_nodes(*final(g)) == graph_nodes(*old(g)),
        graph_edges(*final(g)) == graph_edges(*old(g)).drop_last(),
{
    g.remove_edge(petgraph::graph::EdgeIndex::new(e));
}

/// Calls `Graph::neighbors_directed`: the nodes joined to `a` by an edge
/// leaving it (`incoming == false`) or entering it, most recently added
/// edge first, as petgraph documents.
#[verifier::external_body]
pub(crate) fn graph_neighbors(g: &TaskGraph, a: usize, incoming: bool) -> (r: Vec<usize>)
    requires
        a < graph_nodes(*g).len(),
    ensures
        !incoming ==> r@.map_values(|x: usize| x as int) == out_targets(graph_edges(*g), a as int, graph_edges(*g).len() as int).reverse(),
        incoming ==> r@.map_values(|x: usize| x as int) == in_sources(graph_edges(*g), a as int, graph_edges(*g).len() as int).reverse(),
{
    let dir = if incoming { petgraph::Direction::Incoming } else { petgraph::Direction::Outgoing };
    g.neighbors_directed(petgraph::graph::NodeIndex::new(a), dir).map(|n| n.index()).collect()
}

/// Calls `petgraph::algo::toposort`. As petgraph documents, it fails exactly
/// on graphs with a cycle (self loops included) and otherwise lists every
/// node once, each before its successors; which such order it picks is named
/// by `toposort_result`.
#[verifier::external_body]
fn graph_toposort(g: &TaskGraph) -> (r: Option<Vec<usize>>)
    ensures
        r is Some <==> !has_cycle(graph_edges(*g)),
        r matches Some(order) ==> {
            &&& order@.map_values(|x: usize| x as int) == toposort_result(graph_nodes(*g).len(), graph_edges(*g))
            &&& is_topological_order(order@.map_values(|x: usize| x as int), graph_nodes(*g).len(), graph_edges(*g))
        },
{
    match petgraph::algo::toposort(g, None) {
        Ok(v) => Some(v.into_iter().map(|n| n.index()).collect()),
        Err(_) => None,
    }
}

/// Task ids joined by dependency edges (dependency to dependent).
pub struct Dag {
    graph: TaskGraph,
    node_map: Vec<String>,
}

/// Ids of the nodes that `ready` selects among the first `n` nodes, in node order.
pub open spec fn ready_prefix(ids: Seq<Seq<char>>, edges: Seq<(int, int)>, done: Set<Seq<char>>, n: int) -> Seq<Seq<char>>
    decreases n,
{
    if n <= 0 {
        Seq::empty()
    } else if is_ready(ids, edges, done, n - 1) {
        ready_prefix(ids, edges, done, n - 1).push(ids[n - 1])
    } else {
        ready_prefix(ids, edges, done, n - 1)
    }
}

/// Node `i` is not done and every node with an edge into it is.
pub open spec fn is_ready(ids: Seq<Seq<char>>, edges: Seq<(int, int)>, done: Set<Seq<char>>, i: int) -> bool {
    &&& !done.contains(ids[i])
    &&& forall|k: int| 0 <= k < edges.len() && #[trigger] edges[k].1 == i ==> done.contains(ids[edges[k].0])
}

impl Dag {
    /// The task ids, in node-index order.
    pub closed spec fn ids(&self) -> Seq<Seq<char>> {
        views(self.node_map@)
    }

    /// The dependency edges between node indices, in the order they were added.
    pub closed spec fn edges(&self) -> Seq<(int, int)> {
        graph_edges(self.graph)
    }

    /// The graph and the id list agree, ids are distinct, edges join existing
    /// nodes and no cycle exists.
    pub closed spec fn wf(&self) -> bool {
        &&& graph_nodes(self.graph) == self.ids()
        &&& self.ids().no_duplicates()
        &&& forall|k: int| 0 <= k < self.edges().len() ==> 0 <= #[trigger] self.edges()[k].0 < self.ids().len()
        &&& forall|k: int| 0 <= k < self.edges().len() ==> 0 <= #[trigger] self.edges()[k].1 < self.ids().len()
        &&& !has_cycle(self.edges())
    }

    /// A well-formed graph has distinct ids, edges between existing nodes,
    /// and no cycle: every graph that `new`, `add_node` and `add_edge` build.
    pub proof fn lemma_acyclic(&self)
        requires
            self.wf(),
        ensures
            !has_cycle(self.edges()),
            self.ids().no_duplicates(),
            forall|k: int| 0 <= k < self.edges().len() ==> 0 <= #[trigger] self.edges()[k].0 < self.ids().len() && 0 <= self.edges()[k].1 < self.ids().len(),
    {
    }

    /// The `(dependency, dependent)` id pairs of the edges.
    pub open spec fn id_edges(&self) -> Seq<(Seq<char>, Seq<char>)> {
        self.edges().map_values(|e: (int, int)| (self.ids()[e.0], self.ids()[e.1]))
    }

    /// An empty graph.
    pub fn new() -> (d: Dag)
        ensures
            d.wf(),
            d.ids() == Seq::<Seq<char>>::empty(),
            d.edges() == Seq::<(int, int)>::empty(),
    {
        let d = Dag { graph: graph_new(), node_map: Vec::new() };
        proof {
            assert(d.ids() =~= Seq::<Seq<char>>::empty());
            lemma_no_edges_no_cycle(d.edges());
        }
        d
    }

    /// Index of the node that holds `id`.
    fn index_of(&self, id: &str) -> (r: Option<usize>)
        requires
            self.wf(),
        ensures
            r matches Some(i) ==> i < self.ids().len() && self.ids()[i as int] == id@,
            r is None ==> !self.ids().contains(id@),
    {
        let mut i: usize = 0;
        while i < self.node_map.len()
            invariant
                i <= self.node_map.len(),
                self.ids() == views(self.node_map@),
                forall|k: int| 0 <= k < i ==> self.ids()[k] != id@,
            decreases self.node_map.len() - i,
        {
            if str_eq(self.node_map[i].as_str(), id) {
                return Some(i);
            }
            i = i + 1;
        }
        None
    }

    /// Adds a node for `id`; an id that is already present is refused and
    /// the graph is left as it was.
    pub fn add_node(&mut self, id: String) -> (r: Result<(), WorkflowError>)
        requires
            old(self).wf(),
            old(self).ids().len() < u32::MAX,
        ensures
            final(self).wf(),
            old(self).ids().contains(id@) ==> r == Err::<(), WorkflowError>(WorkflowError::DuplicateTaskId(id)) && *final(self) == *old(self),
            !old(self).ids().contains(id@) ==> r is Ok && final(self).ids() == old(self).ids().push(id@) && final(self).edges() == old(self).edges(),
    {
        if self.index_of(id.as_str()).is_some() {
            return Err(WorkflowError::DuplicateTaskId(id));
        }
        let ghost old_ids = self.ids();
        let ghost old_edges = self.edges();
        graph_add_node(&mut self.graph, id.clone());
        self.node_map.push(id);
        proof {
            assert(self.ids() =~= old_ids.push(id@));
            assert(self.edges() == old_edges);
        }
        Ok(())
    }

    /// Adds the edge `from -> to` (dependency to dependent). An unknown end
    /// is refused, and so is an edge that would close a cycle; then the
    /// graph is left as it was.
    pub fn add_edge(&mut self, from: &str, to: &str) -> (r: Result<(), WorkflowError>)
        requires
            old(self).wf(),
            old(self).edges().len() < u32::MAX,
        ensures
            final(self).wf(),
            final(self).ids() == old(self).ids(),
            !old(self).ids().contains(from@) ==> (r matches Err(WorkflowError::UnknownDependency { task, dependency }) && task@ == from@ && dependency@ == to@),
            old(self).ids().contains(from@) && !old(self).ids().contains(to@) ==> (r matches Err(WorkflowError::UnknownDependency { task, dependency }) && task@ == to@ && dependency@ == from@),
            old(self).ids().contains(from@) && old(self).ids().contains(to@) ==> {
                let f = old(self).ids().index_of(from@);
                let t = old(self).ids().index_of(to@);
                let added = old(self).edges().push((f, t));
                &&& has_cycle(added) ==> (r matches Err(WorkflowError::CycleDetected))
                &&& !has_cycle(added) ==> r is Ok && final(self).edges() == added
            },
            r is Err ==> final(self).edges() == old(self).edges(),
    {
        let f = match self.index_of(from) {
            Some(f) => f,
            None => {
                return Err(WorkflowError::UnknownDependency { task: from.to_string(), dependency: to.to_string() });
            },
        };
        let t = match self.index_of(to) {
            Some(t) => t,
            None => {
                return Err(WorkflowError::UnknownDependency { task: to.to_string(), dependency: from.to_string() });
            },
        };
        proof {
            lemma_index_of_unique(self.ids(), f as int);
            lemma_index_of_unique(self.ids(), t as int);
        }
        let ghost old_edges = self.edges();
        let eid = graph_add_edge(&mut self.graph, f, t);
        if graph_toposort(&self.graph).is_none() {
            graph_remove_last_edge(&mut self.graph, eid);
            proof {
                assert(self.edges() =~= old_edges);
            }
            return Err(WorkflowError::CycleDetected);
        }
        proof {
            let e = self.edges();
            assert forall|k: int| 0 <= k < e.len() implies 0 <= #[trigger] e[k].0 < self.ids().len() && 0 <= e[k].1 < self.ids().len() by {
                if k < old_edges.len() {
                    assert(e[k] == old_edges[k]);
                }
            }
        }
        Ok(())
    }

    /// Every task id once, each dependency before its dependents, in the
    /// order petgraph's topological sort gives.
    pub fn topological_order(&self) -> (r: Vec<String>)
        requires
            self.wf(),
        ensures
            views(r@) == toposort_result(self.ids().len(), self.edges()).map_values(|i: int| self.ids()[i]),
            views(r@).len() == self.ids().len(),
            views(r@).no_duplicates(),
            forall|i: int| 0 <= i < r@.len() ==> self.ids().contains(#[trigger] r@[i]@),
            forall|k: int| 0 <= k < self.edges().len() ==> precedes(views(r@), self.ids()[#[trigger] self.edges()[k].0], self.ids()[self.edges()[k].1]),
    {
        let order = match graph_toposort(&self.graph) {
            Some(o) => o,
            None => {
                proof { assert(false); }
                Vec::new()
            },
        };
        let ghost ord = order@.map_values(|x: usize| x as int);
        let n = self.node_map.len();
        let mut r: Vec<String> = Vec::new();
        let mut i: usize = 0;
        while i < order.len()
            invariant
                self.wf(),
                n == self.ids().len(),
                ord == order@.map_values(|x: usize| x as int),
                is_topological_order(ord, n as nat, self.edges()),
                i <= order.len(),
                views(r@) == ord.take(i as int).map_values(|x: int| self.ids()[x]),
            decreases order.len() - i,
        {
            let idx = order[i];
            assert(ord[i as int] == idx as int);
            let ghost before = r@;
            r.push(self.node_map[idx].clone());
            proof {
                assert(r@ == before.push(self.node_map@[idx as int]));
                assert(views(r@) =~= views(before).push(self.ids()[idx as int]));
                assert(ord.take(i as int + 1) =~= ord.take(i as int).push(idx as int));
                assert(views(r@) =~= ord.take(i as int + 1).map_values(|x: int| self.ids()[x]));
            }
            i = i + 1;
        }
        proof {
            let ids = self.ids();
            let vr = views(r@);
            assert(ord.take(ord.len() as int) =~= ord);
            assert(vr =~= ord.map_values(|x: int| ids[x]));
            assert forall|a: int, b: int| 0 <= a < b < vr.len() implies vr[a] != vr[b] by {
                assert(ord[a] != ord[b]);
                assert(ids[ord[a]] != ids[ord[b]]);
            }
            assert forall|k: int| 0 <= k < self.edges().len() implies precedes(vr, ids[#[trigger] self.edges()[k].0], ids[self.edges()[k].1]) by {
                let e = self.edges()[k];
                assert(precedes(ord, e.0, e.1));
                let (a, b) = choose|a: int, b: int| 0 <= a < b < ord.len() && ord[a] == e.0 && ord[b] == e.1;
                assert(vr[a] == ids[e.0] && vr[b] == ids[e.1]);
            }
            assert forall|j: int| 0 <= j < r@.len() implies ids.contains(#[trigger] r@[j]@) by {
                assert(vr[j] == r@[j]@);
                assert(ids[ord[j]] == vr[j]);
            }
        }
        r
    }

    /// Ids, in node order, of the tasks outside `completed` whose
    /// dependencies are all in `completed`.
    pub fn ready_tasks(&self, completed: &crate::text::TaskIdSet) -> (r: Vec<String>)
        requires
            self.wf(),
        ensures
            views(r@) == ready_prefix(self.ids(), self.edges(), completed@, self.ids().len() as int),
    {
        let mut r: Vec<String> = Vec::new();
        let n = self.node_map.len();
        let mut i: usize = 0;
        while i < n
            invariant
                self.wf(),
                n == self.ids().len(),
                i <= n,
                views(r@) == ready_prefix(self.ids(), self.edges(), completed@, i as int),
            decreases n - i,
        {
            let ready = !completed.contains(self.node_map[i].as_str()) && self.all_sources_in(i, completed);
            if ready {
                r.push(self.node_map[i].clone());
                proof {
                    assert(views(r@) =~= ready_prefix(self.ids(), self.edges(), completed@, i as int).push(self.ids()[i as int]));
                }
            }
            i = i + 1;
        }
        r
    }

    /// Every node with an edge into node `i` holds an id in `done`.
    fn all_sources_in(&self, i: usize, done: &crate::text::TaskIdSet) -> (b: bool)
        requires
            self.wf(),
            i < self.ids().len(),
        ensures
            b == (forall|k: int| 0 <= k < self.edges().len() && #[trigger] self.edges()[k].1 == i ==> done@.contains(self.ids()[self.edges()[k].0])),
    {
        let srcs = graph_neighbors(&self.graph, i, true);
        let ghost e = self.edges();
        let ghost s = in_sources(e, i as int, e.len() as int);
        proof {
            lemma_in_sources(e, i as int, e.len() as int);
            assert(srcs@.map_values(|x: usize| x as int) == s.reverse());
            assert(srcs@.map_values(|x: usize| x as int).len() == srcs@.len());
            assert(s.reverse().len() == s.len());
            assert(srcs@.len() == s.len());
            assert forall|m: int| 0 <= m < s.len() implies exists|k: int| 0 <= k < e.len() && e[k].1 == i && #[trigger] s[m] == e[k].0 by {
                assert(in_sources(e, i as int, e.len() as int)[m] == s[m]);
                let k = choose|k: int| 0 <= k < e.len() && e[k].1 == i as int && in_sources(e, i as int, e.len() as int)[m] == e[k].0;
                assert(0 <= k < e.len() && e[k].1 == i && s[m] == e[k].0);
            }
        }
        let mut j: usize = 0;
        while j < srcs.len()
            invariant
                self.wf(),
                e == self.edges(),
                srcs@.map_values(|x: usize| x as int) == s.reverse(),
                srcs@.len() == s.len(),
                j <= srcs.len(),
                forall|m: int| 0 <= m < j ==> done@.contains(self.ids()[srcs@[m] as int]),
                s == in_sources(e, i as int, e.len() as int),
            decreases srcs.len() - j,
        {
            let src = srcs[j];
            proof {
                lemma_in_sources(e, i as int, e.len() as int);
                let m = s.len() - 1 - j;
                assert(s.reverse()[j as int] == s[m]);
                assert(srcs@.map_values(|x: usize| x as int)[j as int] == src as int);
                let k = choose|k: int| 0 <= k < e.len() && e[k].1 == i && s[m] == e[k].0;
                assert(e[k].0 < self.ids().len());
            }
            if !done.contains(self.node_map[src].as_str()) {
                proof {
                    lemma_in_sources(e, i as int, e.len() as int);
                    let m = s.len() - 1 - j;
                    assert(s.reverse()[j as int] == s[m]);
                    let k = choose|k: int| 0 <= k < e.len() && e[k].1 == i && s[m] == e[k].0;
                    assert(e[k].1 == i && !done@.contains(self.ids()[e[k].0]));
                }
                return false;
            }
            j = j + 1;
        }
        proof {
            lemma_in_sources(e, i as int, e.len() as int);
            assert forall|k: int| 0 <= k < e.len() && #[trigger] e[k].1 == i implies done@.contains(self.ids()[e[k].0]) by {
                assert(s.contains(e[k].0));
                let m = choose|m: int| 0 <= m < s.len() && s[m] == e[k].0;
                let jj = s.len() - 1 - m;
                assert(s.reverse()[jj] == s[m]);
                assert(srcs@.map_values(|x: usize| x as int)[jj] == srcs@[jj] as int);
            }
        }
        true
    }

    /// Ids of the direct dependents of `id`, most recently added edge first;
    /// empty for an unknown id.
    pub fn successors(&self, id: &str) -> (r: Vec<String>)
        requires
            self.wf(),
        ensures
            !self.ids().contains(id@) ==> r@.len() == 0,
            self.ids().contains(id@) ==> views(r@) == out_targets(self.edges(), self.ids().index_of(id@), self.edges().len() as int).reverse().map_values(|x: int| self.ids()[x]),
    {
        let a = match self.index_of(id) {
            Some(a) => a,
            None => {
                return Vec::new();
            },
        };
        proof {
            lemma_index_of_unique(self.ids(), a as int);
        }
        let ghost e = self.edges();
        let ghost s = out_targets(e, a as int, e.len() as int).reverse();
        let nbrs = graph_neighbors(&self.graph, a, false);
        proof {
            lemma_out_targets(e, a as int, e.len() as int);
        }
        let mut r: Vec<String> = Vec::new();
        let mut j: usize = 0;
        while j < nbrs.len()
            invariant
                self.wf(),
                e == self.edges(),
                nbrs@.map_values(|x: usize| x as int) == s,
                forall|m: int| 0 <= m < s.len() ==> 0 <= #[trigger] s[m] < self.ids().len(),
                j <= nbrs.len(),
                views(r@) == s.take(j as int).map_values(|x: int| self.ids()[x]),
            decreases nbrs.len() - j,
        {
            let x = nbrs[j];
            proof {
                assert(nbrs@.map_values(|x: usize| x as int)[j as int] == x as int);
            }
            let ghost before = r@;
            r.push(self.node_map[x].clone());
            proof {
                assert(r@ == before.push(self.node_map@[x as int]));
                assert(views(r@) =~= views(before).push(self.ids()[x as int]));
                assert(s.take(j as int + 1) =~= s.take(j as int).push(x as int));
                assert(views(r@) =~= s.take(j as int + 1).map_values(|x: int| self.ids()[x]));
            }
            j = j + 1;
        }
        proof {
            assert(s.take(s.len() as int) =~= s);
        }
        r
    }

    /// The task ids, in node-index order.
    pub fn task_ids(&self) -> (r: Vec<String>)
        requires
            self.wf(),
        ensures
            views(r@) == self.ids(),
    {
        let r = self.node_map.clone();
        proof {
            assert(views(r@) =~= self.ids());
        }
        r
    }
}

impl Default for Dag {
    /// An empty graph, as `Dag::new` makes it.
    fn default() -> (d: Dag)
        ensures
            d.wf(),
            d.ids() == Seq::<Seq<char>>::empty(),
            d.edges() == Seq::<(int, int)>::empty(),
    {
        Dag::new()
    }
}

/// A task is selected as ready exactly when it is not done and every task
/// with an edge into it is done.
pub proof fn lemma_ready_members(ids: Seq<Seq<char>>, edges: Seq<(int, int)>, done: Set<Seq<char>>, n: int, x: Seq<char>)
    requires
        0 <= n <= ids.len(),
    ensures
        ready_prefix(ids, edges, done, n).contains(x) <==> exists|i: int| 0 <= i < n && ids[i] == x && #[trigger] is_ready(ids, edges, done, i),
    decreases n,
{
    if n > 0 {
        lemma_ready_members(ids, edges, done, n - 1, x);
        let prev = ready_prefix(ids, edges, done, n - 1);
        if is_ready(ids, edges, done, n - 1) {
            let cur = prev.push(ids[n - 1]);
            if cur.contains(x) && !prev.contains(x) {
                let j = choose|j: int| 0 <= j < cur.len() && cur[j] == x;
                assert(j == prev.len());
                assert(is_ready(ids, edges, done, n - 1));
            }
            if prev.contains(x) {
                let j = choose|j: int| 0 <= j < prev.len() && prev[j] == x;
                assert(cur[j] == x);
            }
            if exists|i: int| 0 <= i < n && ids[i] == x && #[trigger] is_ready(ids, edges, done, i) {
                let i = choose|i: int| 0 <= i < n && ids[i] == x && #[trigger] is_ready(ids, edges, done, i);
                if i == n - 1 {
                    assert(cur[prev.len() as int] == x);
                }
            }
        }
    }
}

/// In a sequence without duplicates, the chosen index of an element is its position.
pub proof fn lemma_index_of_unique<A>(s: Seq<A>, i: int)
    requires
        s.no_duplicates(),
        0 <= i < s.len(),
    ensures
        s.index_of(s[i]) == i,
{
    assert(s.contains(s[i]));
    let j = s.index_of(s[i]);
    assert(0 <= j < s.len() && s[j] == s[i]);
}

/// Every entry of `in_sources` comes from an edge into `a`, and every such
/// edge among the first `k` contributes its source.
pub(crate) proof fn lemma_in_sources(e: Seq<(int, int)>, a: int, k: int)
    requires
        0 <= k <= e.len(),
    ensures
        forall|m: int| 0 <= m < in_sources(e, a, k).len() ==> exists|j: int| 0 <= j < k && e[j].1 == a && #[trigger] in_sources(e, a, k)[m] == e[j].0,
        forall|j: int| 0 <= j < k && #[trigger] e[j].1 == a ==> in_sources(e, a, k).contains(e[j].0),
    decreases k,
{
    if k > 0 {
        lemma_in_sources(e, a, k - 1);
        let prev = in_sources(e, a, k - 1);
        let cur = in_sources(e, a, k);
        if e[k - 1].1 == a {
            assert(cur == prev.push(e[k - 1].0));
        } else {
            assert(cur == prev);
        }
        assert forall|j: int| 0 <= j < k && #[trigger] e[j].1 == a implies cur.contains(e[j].0) by {
            if j < k - 1 {
                assert(prev.contains(e[j].0));
                let m = choose|m: int| 0 <= m < prev.len() && prev[m] == e[j].0;
                assert(cur[m] == e[j].0);
            } else {
                assert(cur[cur.len() - 1] == e[j].0);
            }
        }
        assert forall|m: int| 0 <= m < cur.len() implies exists|j: int| 0 <= j < k && e[j].1 == a && #[trigger] cur[m] == e[j].0 by {
            if m < prev.len() {
                assert(cur[m] == prev[m]);
                let j = choose|j: int| 0 <= j < k - 1 && e[j].1 == a && #[trigger] prev[m] == e[j].0;
                assert(0 <= j < k && e[j].1 == a && cur[m] == e[j].0);
            } else {
                assert(e[k - 1].1 == a && cur[m] == e[k - 1].0);
            }
        }
    }
}

/// Every entry of `out_targets` is the target of an edge leaving `a`.
pub(crate) proof fn lemma_out_targets(e: Seq<(int, int)>, a: int, k: int)
    requires
        0 <= k <= e.len(),
    ensures
        forall|m: int| 0 <= m < out_targets(e, a, k).len() ==> exists|j: int| 0 <= j < k && e[j].0 == a && #[trigger] out_targets(e, a, k)[m] == e[j].1,
    decreases k,
{
    if k > 0 {
        lemma_out_targets(e, a, k - 1);
        let prev = out_targets(e, a, k - 1);
        let cur = out_targets(e, a, k);
        if e[k - 1].0 == a {
            assert(cur == prev.push(e[k - 1].1));
        } else {
            assert(cur == prev);
        }
        assert forall|m: int| 0 <= m < cur.len() implies exists|j: int| 0 <= j < k && e[j].0 == a && #[trigger] cur[m] == e[j].1 by {
            if m < prev.len() {
                assert(cur[m] == prev[m]);
                let j = choose|j: int| 0 <= j < k - 1 && e[j].0 == a && #[trigger] prev[m] == e[j].1;
                assert(0 <= j < k && e[j].0 == a && cur[m] == e[j].1);
            } else {
                assert(e[k - 1].0 == a && cur[m] == e[k - 1].1);
            }
        }
    }
}

/// A graph without edges has no cycle.
proof fn lemma_no_edges_no_cycle(edges: Seq<(int, int)>)
    requires
        edges.len() == 0,
    ensures
        !has_cycle(edges),
{
    assert forall|p: Seq<int>| #[trigger] is_path(edges, p) implies p[0] != p[p.len() - 1] by {
        assert(edge_in(edges, p[0], p[1]));
    }
}

} // verus!
