//! The order in which a reactor runs the handlers of one event, computed from
//! their dependencies with the strongly connected components of the
//! dependency graph.

use crate::ecs::dependency::{deps_view, joined, names_view, Dependency};
use crate::ecs::handler::Handler;
use crate::ecs::state::{StateContainer, StateId};
use crate::ecs::topic::TopicId;
use std::collections::{HashMap, HashSet};
use crate::ecs::event::{AnyEvent, EventId, EventQueue};
use crate::text::{decimal, usize_to_string};
use crate::graph::{acyclic, is_path, is_permutation, lemma_map_path, lemma_mutual_reach_not_acyclic, lemma_path_edge, lemma_permutation_len, lemma_reaches_edge, lemma_reaches_refl, lemma_reaches_trans, reaches};
use petgraph::algo::kosaraju_scc;
use petgraph::graph::{DiGraph, Graph, NodeIndex};
use petgraph::Directed;
use vstd::prelude::*;

verus! {

#[verifier::external_type_specification]
#[verifier::external_body]
#[verifier::reject_recursive_types(N)]
#[verifier::reject_recursive_types(E)]
#[verifier::reject_recursive_types(Ty)]
#[verifier::reject_recursive_types(Ix)]
pub struct ExGraph<N, E, Ty, Ix>(Graph<N, E, Ty, Ix>);

#[verifier::external_type_specification]
#[verifier::external_body]
pub struct ExDirected(Directed);

/// The number of nodes of a petgraph graph.
pub uninterp spec fn graph_node_count(g: DiGraph<(), ()>) -> nat;

/// The edges of a petgraph graph, as `(source, target)` node indices, in the
/// order they were added.
pub uninterp spec fn graph_edges(g: DiGraph<(), ()>) -> Seq<(usize, usize)>;

/// The edge relation of a graph with the given edge list.
pub open spec fn edge_relation(edges: Seq<(usize, usize)>) -> spec_fn(int, int) -> bool {
    |a: int, b: int| 0 <= a <= usize::MAX && 0 <= b <= usize::MAX && edges.contains((a as usize, b as usize))
}

/// Node `x` belongs to one of `sccs`.
pub open spec fn in_some_scc(sccs: Seq<Seq<usize>>, x: usize) -> bool {
    exists|c: int, k: int| 0 <= c < sccs.len() && 0 <= k < sccs[c].len() && #[trigger] sccs[c][k] == x
}

/// `sccs` lists the strongly connected components of the graph with nodes
/// `0..n` and edge list `edges`, sinks first: every node is in exactly one
/// component, two nodes share a component exactly when each reaches the other,
/// and an edge never leads to a later component.
pub open spec fn is_scc_postorder(n: nat, edges: Seq<(usize, usize)>, sccs: Seq<Seq<usize>>) -> bool {
    &&& forall|c: int| 0 <= c < sccs.len() ==> #[trigger] sccs[c].len() > 0
    &&& forall|c: int, k: int| 0 <= c < sccs.len() && 0 <= k < sccs[c].len() ==> (#[trigger] sccs[c][k]) < n
    &&& forall|x: usize| x < n ==> #[trigger] in_some_scc(sccs, x)
    &&& forall|c1: int, k1: int, c2: int, k2: int|
        0 <= c1 < sccs.len() && 0 <= k1 < sccs[c1].len() && 0 <= c2 < sccs.len() && 0 <= k2 < sccs[c2].len()
            && #[trigger] sccs[c1][k1] == #[trigger] sccs[c2][k2] ==> c1 == c2 && k1 == k2
    &&& forall|c1: int, k1: int, c2: int, k2: int|
        0 <= c1 < sccs.len() && 0 <= k1 < sccs[c1].len() && 0 <= c2 < sccs.len() && 0 <= k2 < sccs[c2].len() ==> (
            c1 == c2 <==> (reaches(edge_relation(edges), #[trigger] sccs[c1][k1] as int, #[trigger] sccs[c2][k2] as int)
                && reaches(edge_relation(edges), sccs[c2][k2] as int, sccs[c1][k1] as int)))
    &&& forall|c1: int, k1: int, c2: int, k2: int|
        0 <= c1 < sccs.len() && 0 <= k1 < sccs[c1].len() && 0 <= c2 < sccs.len() && 0 <= k2 < sccs[c2].len()
            && edge_relation(edges)(#[trigger] sccs[c1][k1] as int, #[trigger] sccs[c2][k2] as int) ==> c2 <= c1
}

/// `DiGraph::new`: a graph with no nodes and no edges.
#[verifier::external_body]
fn graph_new() -> (g: DiGraph<(), ()>)
    ensures
        graph_node_count(g) == 0,
        graph_edges(g) == Seq::<(usize, usize)>::empty(),
{
    DiGraph::new()
}

/// `Graph::add_node`: appends a node and returns its index, the number of
/// nodes before the call. It panics when the graph already has the largest
/// number of nodes its `u32` indices can count, which `requires` rules out.
#[verifier::external_body]
fn graph_add_node(g: &mut DiGraph<(), ()>) -> (i: usize)
    requires
        graph_node_count(*old(g)) < u32::MAX,
    ensures
        i == graph_node_count(*old(g)),
        graph_node_count(*final(g)) == graph_node_count(*old(g)) + 1,
        graph_edges(*final(g)) == graph_edges(*old(g)),
{
    g.add_node(()).index()
}

/// `Graph::add_edge`: appends an edge from node `a` to node `b`. It panics
/// when either node does not exist or when the graph already has the largest
/// number of edges its `u32` indices can count, which `requires` rules out.
#[verifier::external_body]
fn graph_add_edge(g: &mut DiGraph<(), ()>, a: usize, b: usize)
    requires
        a < graph_node_count(*old(g)),
        b < graph_node_count(*old(g)),
        graph_edges(*old(g)).len() < u32::MAX,
    ensures
        graph_node_count(*final(g)) == graph_node_count(*old(g)),
        graph_edges(*final(g)) == graph_edges(*old(g)).push((a, b)),
{
    g.add_edge(NodeIndex::new(a), NodeIndex::new(b), ());
}

/// `kosaraju_scc`: the strongly connected components of `g`, each as a list
/// of node indices, sink components first (the order petgraph documents as
/// "postorder (reverse topological sort)").
#[verifier::external_body]
fn graph_sccs(g: &DiGraph<(), ()>) -> (r: Vec<Vec<usize>>)
    ensures
        is_scc_postorder(graph_node_count(*g), graph_edges(*g), r@.map_values(|c: Vec<usize>| c@)),
{
    kosaraju_scc(g).into_iter().map(|scc| scc.into_iter().map(|n| n.index()).collect()).collect()
}

broadcast use vstd::std_specs::hash::group_hash_axioms;

/// The node standing for handler `i` in the dependency graph.
pub open spec fn handler_node(i: int) -> int {
    3 * i
}

/// The node standing for the state with id `sid` in the dependency graph.
pub open spec fn state_node(sid: u64) -> int {
    3 * sid + 1
}

/// The node standing for the topic with id `tid` in the dependency graph.
pub open spec fn topic_node(tid: u64) -> int {
    3 * tid + 2
}

/// The edge that the dependency `deps[i][j]` adds to the dependency graph.
/// Edges point from dependee to dependency: a reader points at the state it
/// reads, a state at its writers and delayed readers, a subscriber at its
/// topic, and a topic at its publishers.
pub open spec fn dep_edge(deps: Seq<Seq<Dependency>>, i: int, j: int, x: int, y: int) -> bool {
    match deps[i][j] {
        Dependency::ReadState(s) => x == handler_node(i) && y == state_node(s.id),
        Dependency::ReadStateDelayed(s) => x == state_node(s.id) && y == handler_node(i),
        Dependency::WriteState(s) => x == state_node(s.id) && y == handler_node(i),
        Dependency::SubscribeTopic(t) => x == handler_node(i) && y == topic_node(t.id),
        Dependency::PublishTopic(t) => x == topic_node(t.id) && y == handler_node(i),
    }
}

/// The dependency graph of the handlers whose dependency lists are `deps`.
pub open spec fn dependency_graph(deps: Seq<Seq<Dependency>>) -> spec_fn(int, int) -> bool {
    |x: int, y: int|
        exists|i: int, j: int|
            0 <= i < deps.len() && 0 <= j < deps[i].len() && #[trigger] dep_edge(deps, i, j, x, y)
}

/// The number of dependencies in the first `i` lists.
pub open spec fn total_deps(deps: Seq<Seq<Dependency>>, i: int) -> nat
    decreases i,
{
    if i <= 0 {
        0
    } else {
        total_deps(deps, i - 1) + deps[i - 1].len()
    }
}

proof fn lemma_total_deps_monotone(deps: Seq<Seq<Dependency>>, i: int, k: int)
    requires
        0 <= i <= k,
    ensures
        total_deps(deps, i) <= total_deps(deps, k),
    decreases k - i,
{
    if i < k {
        lemma_total_deps_monotone(deps, i, k - 1);
    }
}

/// A node of the dependency graph built by [`compute_execution_order`].
enum GraphNode {
    Handler(usize),
    State(StateId),
    Topic(TopicId),
}

spec fn node_abs(n: GraphNode) -> int {
    match n {
        GraphNode::Handler(i) => handler_node(i as int),
        GraphNode::State(s) => state_node(s.id),
        GraphNode::Topic(t) => topic_node(t.id),
    }
}

/// The state id named by `d`, if any.
pub open spec fn dep_state(d: Dependency) -> Option<StateId> {
    match d {
        Dependency::ReadState(s) => Some(s),
        Dependency::ReadStateDelayed(s) => Some(s),
        Dependency::WriteState(s) => Some(s),
        _ => None,
    }
}

/// The topic id named by `d`, if any.
spec fn dep_topic(d: Dependency) -> Option<TopicId> {
    match d {
        Dependency::SubscribeTopic(t) => Some(t),
        Dependency::PublishTopic(t) => Some(t),
        _ => None,
    }
}

/// The dependency graph as built: the graph, what each of its nodes stands
/// for, and where to find the node of each handler, state and topic.
struct DepGraph {
    graph: DiGraph<(), ()>,
    nodes: Vec<GraphNode>,
    handler_nodes: Vec<usize>,
    state_nodes: HashMap<u64, usize>,
    topic_nodes: HashMap<u64, usize>,
}

impl DepGraph {
    spec fn abs(&self, k: int) -> int {
        node_abs(self.nodes@[k])
    }

    /// The node tables agree with the graph and with each other, and cover
    /// the first `h` handlers.
    spec fn tables_wf(&self, h: int) -> bool {
        &&& self.nodes@.len() == graph_node_count(self.graph)
        &&& self.handler_nodes@.len() == h
        &&& forall|k1: int, k2: int|
            0 <= k1 < self.nodes@.len() && 0 <= k2 < self.nodes@.len() && #[trigger] self.abs(k1) == #[trigger] self.abs(k2) ==> k1 == k2
        &&& forall|m: int| 0 <= m < h ==> (#[trigger] self.handler_nodes@[m]) < self.nodes@.len()
            && self.nodes@[self.handler_nodes@[m] as int] == GraphNode::Handler(m as usize)
        &&& forall|k: int| 0 <= k < self.nodes@.len() ==> match #[trigger] self.nodes@[k] {
            GraphNode::Handler(m) => m < h,
            GraphNode::State(s) => self.state_nodes@.contains_key(s.id),
            GraphNode::Topic(t) => self.topic_nodes@.contains_key(t.id),
        }
        &&& forall|sid: u64| #[trigger] self.state_nodes@.contains_key(sid) ==> self.state_nodes@[sid] < self.nodes@.len()
            && self.abs(self.state_nodes@[sid] as int) == state_node(sid)
        &&& forall|tid: u64| #[trigger] self.topic_nodes@.contains_key(tid) ==> self.topic_nodes@[tid] < self.nodes@.len()
            && self.abs(self.topic_nodes@[tid] as int) == topic_node(tid)
    }

    /// Every state and topic named by a dependency has a node.
    spec fn covers(&self, deps: Seq<Seq<Dependency>>) -> bool {
        forall|i: int, j: int| 0 <= i < deps.len() && 0 <= j < deps[i].len() ==> {
            &&& (#[trigger] dep_state(deps[i][j]) matches Some(s) ==> self.state_nodes@.contains_key(s.id))
            &&& (dep_topic(deps[i][j]) matches Some(t) ==> self.topic_nodes@.contains_key(t.id))
        }
    }
}

/// A node of the built graph was created for a handler, or for a state or
/// topic that some dependency names.
spec fn node_named(r: DepGraph, deps: Seq<Seq<Dependency>>) -> bool {
    forall|k: int| 0 <= k < r.nodes@.len() ==> match #[trigger] r.nodes@[k] {
        GraphNode::Handler(i) => true,
        GraphNode::State(s) => exists|i: int, j: int| 0 <= i < deps.len() && 0 <= j < deps[i].len()
            && #[trigger] dep_state(deps[i][j]) == Some(s),
        GraphNode::Topic(t) => exists|i: int, j: int| 0 <= i < deps.len() && 0 <= j < deps[i].len()
            && #[trigger] dep_topic(deps[i][j]) == Some(t),
    }
}

/// Creates the graph's nodes: one per handler and one per state and topic
/// that some dependency names, in the order they are first met.
fn build_graph_nodes(all_deps: &[&[Dependency]]) -> (r: DepGraph)
    requires
        all_deps@.len() + total_deps(deps_view(all_deps), all_deps@.len() as int) < u32::MAX,
    ensures
        r.tables_wf(all_deps@.len() as int),
        r.covers(deps_view(all_deps)),
        node_named(r, deps_view(all_deps)),
        graph_edges(r.graph) == Seq::<(usize, usize)>::empty(),
        r.nodes@.len() <= all_deps@.len() + total_deps(deps_view(all_deps), all_deps@.len() as int),
{
    let ghost deps = deps_view(all_deps);
    let ghost n = all_deps@.len();
    let mut r = DepGraph {
        graph: graph_new(),
        nodes: Vec::new(),
        handler_nodes: Vec::new(),
        state_nodes: HashMap::new(),
        topic_nodes: HashMap::new(),
    };
    let mut i: usize = 0;
    while i < all_deps.len()
        invariant
            deps == deps_view(all_deps),
            n == deps.len(),
            n + total_deps(deps, n as int) < u32::MAX,
            i <= n,
            r.tables_wf(i as int),
            node_named(r, deps),
            graph_edges(r.graph) == Seq::<(usize, usize)>::empty(),
            r.nodes@.len() <= i + total_deps(deps, i as int),
            forall|ii: int, j: int| 0 <= ii < i && 0 <= j < deps[ii].len() ==> {
                &&& (#[trigger] dep_state(deps[ii][j]) matches Some(s) ==> r.state_nodes@.contains_key(s.id))
                &&& (dep_topic(deps[ii][j]) matches Some(t) ==> r.topic_nodes@.contains_key(t.id))
            },
        decreases n - i,
    {
        proof {
            lemma_total_deps_monotone(deps, i as int + 1, n as int);
        }
        let ghost r0 = r;
        let k = graph_add_node(&mut r.graph);
        r.nodes.push(GraphNode::Handler(i));
        r.handler_nodes.push(k);
        proof {
            assert forall|k1: int| 0 <= k1 < r0.nodes@.len() implies r0.abs(k1) != handler_node(i as int) by {
                match r0.nodes@[k1] {
                    GraphNode::Handler(m) => {},
                    GraphNode::State(st) => {},
                    GraphNode::Topic(t) => {},
                }
            }
            assert forall|k1: int| 0 <= k1 < r0.nodes@.len() implies #[trigger] r.abs(k1) == r0.abs(k1) by {
                assert(r.nodes@[k1] == r0.nodes@[k1]);
            }
            assert(r.abs(k as int) == handler_node(i as int));
            assert forall|k1: int| 0 <= k1 < r.nodes@.len() implies match #[trigger] r.nodes@[k1] {
                GraphNode::Handler(m) => m < i + 1,
                GraphNode::State(st) => r.state_nodes@.contains_key(st.id),
                GraphNode::Topic(t) => r.topic_nodes@.contains_key(t.id),
            } by {
                if k1 < r0.nodes@.len() {
                    assert(r.nodes@[k1] == r0.nodes@[k1]);
                }
            }
            assert forall|m: int| 0 <= m < i + 1 implies (#[trigger] r.handler_nodes@[m]) < r.nodes@.len()
                && r.nodes@[r.handler_nodes@[m] as int] == GraphNode::Handler(m as usize) by {
                if m < i {
                    assert(r.handler_nodes@[m] == r0.handler_nodes@[m]);
                }
            }
            assert(r.tables_wf(i as int + 1));
            assert forall|k1: int| 0 <= k1 < r.nodes@.len() implies match #[trigger] r.nodes@[k1] {
                GraphNode::Handler(m) => true,
                GraphNode::State(st) => exists|ii: int, jj: int| 0 <= ii < deps.len() && 0 <= jj < deps[ii].len()
                    && #[trigger] dep_state(deps[ii][jj]) == Some(st),
                GraphNode::Topic(t) => exists|ii: int, jj: int| 0 <= ii < deps.len() && 0 <= jj < deps[ii].len()
                    && #[trigger] dep_topic(deps[ii][jj]) == Some(t),
            } by {
                if k1 < r0.nodes@.len() {
                    assert(r.nodes@[k1] == r0.nodes@[k1]);
                }
            }
        }
        let row: &[Dependency] = all_deps[i];
        assert(row@ == deps[i as int]);
        let mut j: usize = 0;
        while j < row.len()
            invariant
                deps == deps_view(all_deps),
                n == deps.len(),
                n + total_deps(deps, n as int) < u32::MAX,
                i < n,
                total_deps(deps, i as int + 1) <= total_deps(deps, n as int),
                row@ == deps[i as int],
                j <= row@.len(),
                r.tables_wf(i as int + 1),
                node_named(r, deps),
                graph_edges(r.graph) == Seq::<(usize, usize)>::empty(),
                r.nodes@.len() <= i + 1 + total_deps(deps, i as int) + j,
                forall|ii: int, jj: int| 0 <= ii < i && 0 <= jj < deps[ii].len() ==> {
                    &&& (#[trigger] dep_state(deps[ii][jj]) matches Some(s) ==> r.state_nodes@.contains_key(s.id))
                    &&& (dep_topic(deps[ii][jj]) matches Some(t) ==> r.topic_nodes@.contains_key(t.id))
                },
                forall|jj: int| 0 <= jj < j ==> {
                    &&& (#[trigger] dep_state(deps[i as int][jj]) matches Some(s) ==> r.state_nodes@.contains_key(s.id))
                    &&& (dep_topic(deps[i as int][jj]) matches Some(t) ==> r.topic_nodes@.contains_key(t.id))
                },
            decreases row@.len() - j,
        {
            let d = row[j];
            assert(deps[i as int][j as int] == d);
            let ghost r0 = r;
            proof {
                lemma_total_deps_monotone(deps, i as int + 1, n as int);
            }
            match d {
                Dependency::ReadState(s) | Dependency::ReadStateDelayed(s) | Dependency::WriteState(s) => {
                    if !r.state_nodes.contains_key(&s.id) {
                        let k = graph_add_node(&mut r.graph);
                        r.nodes.push(GraphNode::State(s));
                        r.state_nodes.insert(s.id, k);
                        proof {
                            assert forall|k1: int| 0 <= k1 < r0.nodes@.len() implies r0.abs(k1) != state_node(s.id) by {
                                match r0.nodes@[k1] {
                                    GraphNode::Handler(m) => {},
                                    GraphNode::State(st) => {
                                        assert(r0.state_nodes@.contains_key(st.id));
                                    },
                                    GraphNode::Topic(t) => {},
                                }
                            }
                            assert forall|k1: int| 0 <= k1 < r0.nodes@.len() implies #[trigger] r.abs(k1) == r0.abs(k1) by {
                                assert(r.nodes@[k1] == r0.nodes@[k1]);
                            }
                            assert(r.abs(k as int) == state_node(s.id));
                            assert forall|k1: int| 0 <= k1 < r.nodes@.len() implies match #[trigger] r.nodes@[k1] {
                                GraphNode::Handler(m) => m < i + 1,
                                GraphNode::State(st) => r.state_nodes@.contains_key(st.id),
                                GraphNode::Topic(t) => r.topic_nodes@.contains_key(t.id),
                            } by {
                                if k1 < r0.nodes@.len() {
                                    assert(r.nodes@[k1] == r0.nodes@[k1]);
                                }
                            }
                            assert forall|m: int| 0 <= m < i + 1 implies (#[trigger] r.handler_nodes@[m]) < r.nodes@.len()
                                && r.nodes@[r.handler_nodes@[m] as int] == GraphNode::Handler(m as usize) by {
                                assert(r.nodes@[r0.handler_nodes@[m] as int] == r0.nodes@[r0.handler_nodes@[m] as int]);
                            }
                            assert forall|sid: u64| #[trigger] r.state_nodes@.contains_key(sid) implies r.state_nodes@[sid] < r.nodes@.len()
                                && r.abs(r.state_nodes@[sid] as int) == state_node(sid) by {
                                if sid != s.id {
                                    assert(r.abs(r0.state_nodes@[sid] as int) == r0.abs(r0.state_nodes@[sid] as int));
                                }
                            }
                            assert forall|tid: u64| #[trigger] r.topic_nodes@.contains_key(tid) implies r.topic_nodes@[tid] < r.nodes@.len()
                                && r.abs(r.topic_nodes@[tid] as int) == topic_node(tid) by {
                                assert(r.abs(r0.topic_nodes@[tid] as int) == r0.abs(r0.topic_nodes@[tid] as int));
                            }
                            assert forall|k1: int| 0 <= k1 < r.nodes@.len() implies match #[trigger] r.nodes@[k1] {
                                GraphNode::Handler(m) => true,
                                GraphNode::State(st) => exists|ii: int, jj: int| 0 <= ii < deps.len() && 0 <= jj < deps[ii].len()
                                    && #[trigger] dep_state(deps[ii][jj]) == Some(st),
                                GraphNode::Topic(t) => exists|ii: int, jj: int| 0 <= ii < deps.len() && 0 <= jj < deps[ii].len()
                                    && #[trigger] dep_topic(deps[ii][jj]) == Some(t),
                            } by {
                                if k1 < r0.nodes@.len() {
                                    assert(r.nodes@[k1] == r0.nodes@[k1]);
                                } else {
                                    assert(dep_state(deps[i as int][j as int]) == Some(s));
                                }
                            }
                        }
                    }
                },
                Dependency::SubscribeTopic(t) | Dependency::PublishTopic(t) => {
                    if !r.topic_nodes.contains_key(&t.id) {
                        let k = graph_add_node(&mut r.graph);
                        r.nodes.push(GraphNode::Topic(t));
                        r.topic_nodes.insert(t.id, k);
                        proof {
                            assert forall|k1: int| 0 <= k1 < r0.nodes@.len() implies r0.abs(k1) != topic_node(t.id) by {
                                match r0.nodes@[k1] {
                                    GraphNode::Handler(m) => {},
                                    GraphNode::State(st) => {},
                                    GraphNode::Topic(tt) => {
                                        assert(r0.topic_nodes@.contains_key(tt.id));
                                    },
                                }
                            }
                            assert forall|k1: int| 0 <= k1 < r0.nodes@.len() implies #[trigger] r.abs(k1) == r0.abs(k1) by {
                                assert(r.nodes@[k1] == r0.nodes@[k1]);
                            }
                            assert(r.abs(k as int) == topic_node(t.id));
                            assert forall|k1: int| 0 <= k1 < r.nodes@.len() implies match #[trigger] r.nodes@[k1] {
                                GraphNode::Handler(m) => m < i + 1,
                                GraphNode::State(st) => r.state_nodes@.contains_key(st.id),
                                GraphNode::Topic(tt) => r.topic_nodes@.contains_key(tt.id),
                            } by {
                                if k1 < r0.nodes@.len() {
                                    assert(r.nodes@[k1] == r0.nodes@[k1]);
                                }
                            }
                            assert forall|m: int| 0 <= m < i + 1 implies (#[trigger] r.handler_nodes@[m]) < r.nodes@.len()
                                && r.nodes@[r.handler_nodes@[m] as int] == GraphNode::Handler(m as usize) by {
                                assert(r.nodes@[r0.handler_nodes@[m] as int] == r0.nodes@[r0.handler_nodes@[m] as int]);
                            }
                            assert forall|tid: u64| #[trigger] r.topic_nodes@.contains_key(tid) implies r.topic_nodes@[tid] < r.nodes@.len()
                                && r.abs(r.topic_nodes@[tid] as int) == topic_node(tid) by {
                                if tid != t.id {
                                    assert(r.abs(r0.topic_nodes@[tid] as int) == r0.abs(r0.topic_nodes@[tid] as int));
                                }
                            }
                            assert forall|sid: u64| #[trigger] r.state_nodes@.contains_key(sid) implies r.state_nodes@[sid] < r.nodes@.len()
                                && r.abs(r.state_nodes@[sid] as int) == state_node(sid) by {
                                assert(r.abs(r0.state_nodes@[sid] as int) == r0.abs(r0.state_nodes@[sid] as int));
                            }
                            assert forall|k1: int| 0 <= k1 < r.nodes@.len() implies match #[trigger] r.nodes@[k1] {
                                GraphNode::Handler(m) => true,
                                GraphNode::State(st) => exists|ii: int, jj: int| 0 <= ii < deps.len() && 0 <= jj < deps[ii].len()
                                    && #[trigger] dep_state(deps[ii][jj]) == Some(st),
                                GraphNode::Topic(tt) => exists|ii: int, jj: int| 0 <= ii < deps.len() && 0 <= jj < deps[ii].len()
                                    && #[trigger] dep_topic(deps[ii][jj]) == Some(tt),
                            } by {
                                if k1 < r0.nodes@.len() {
                                    assert(r.nodes@[k1] == r0.nodes@[k1]);
                                } else {
                                    assert(dep_topic(deps[i as int][j as int]) == Some(t));
                                }
                            }
                        }
                    }
                },
            }
            j += 1;
        }
        i += 1;
    }
    r
}

/// The position `(i, j)` comes before `(i0, j0)` in scanning order.
spec fn scanned(deps: Seq<Seq<Dependency>>, i0: int, j0: int, i: int, j: int) -> bool {
    0 <= i && 0 <= j < deps[i].len() && (i < i0 || (i == i0 && j < j0))
}

/// Some dependency scanned before `(i0, j0)` adds the edge `x -> y`.
spec fn dep_edge_upto(deps: Seq<Seq<Dependency>>, i0: int, j0: int, x: int, y: int) -> bool {
    exists|i: int, j: int| scanned(deps, i0, j0, i, j) && #[trigger] dep_edge(deps, i, j, x, y)
}

proof fn lemma_dep_edge_upto_step(deps: Seq<Seq<Dependency>>, i0: int, j0: int, x: int, y: int)
    requires
        0 <= i0 < deps.len(),
        0 <= j0 < deps[i0].len(),
    ensures
        dep_edge_upto(deps, i0, j0 + 1, x, y) == (dep_edge_upto(deps, i0, j0, x, y) || dep_edge(deps, i0, j0, x, y)),
{
    if dep_edge_upto(deps, i0, j0 + 1, x, y) {
        let (i, j) = choose|i: int, j: int| scanned(deps, i0, j0 + 1, i, j) && #[trigger] dep_edge(deps, i, j, x, y);
        if !(i == i0 && j == j0) {
            assert(scanned(deps, i0, j0, i, j));
        }
    }
    if dep_edge_upto(deps, i0, j0, x, y) {
        let (i, j) = choose|i: int, j: int| scanned(deps, i0, j0, i, j) && #[trigger] dep_edge(deps, i, j, x, y);
        assert(scanned(deps, i0, j0 + 1, i, j));
    }
    if dep_edge(deps, i0, j0, x, y) {
        assert(scanned(deps, i0, j0 + 1, i0, j0));
    }
}

proof fn lemma_dep_edge_upto_row(deps: Seq<Seq<Dependency>>, i0: int, x: int, y: int)
    requires
        0 <= i0 < deps.len(),
    ensures
        dep_edge_upto(deps, i0 + 1, 0, x, y) == dep_edge_upto(deps, i0, deps[i0].len() as int, x, y),
{
    if dep_edge_upto(deps, i0 + 1, 0, x, y) {
        let (i, j) = choose|i: int, j: int| scanned(deps, i0 + 1, 0, i, j) && #[trigger] dep_edge(deps, i, j, x, y);
        assert(scanned(deps, i0, deps[i0].len() as int, i, j));
    }
    if dep_edge_upto(deps, i0, deps[i0].len() as int, x, y) {
        let (i, j) = choose|i: int, j: int| scanned(deps, i0, deps[i0].len() as int, i, j) && #[trigger] dep_edge(deps, i, j, x, y);
        assert(scanned(deps, i0 + 1, 0, i, j));
    }
}

/// The pair `(a, b)` is an edge of the list `es`.
spec fn has_edge(es: Seq<(usize, usize)>, a: usize, b: usize) -> bool {
    es.contains((a, b))
}

proof fn lemma_tables_wf_graph_change(r0: DepGraph, r: DepGraph, h: int)
    requires
        r0.tables_wf(h),
        r.nodes@ == r0.nodes@,
        r.handler_nodes@ == r0.handler_nodes@,
        r.state_nodes@ == r0.state_nodes@,
        r.topic_nodes@ == r0.topic_nodes@,
        graph_node_count(r.graph) == graph_node_count(r0.graph),
    ensures
        r.tables_wf(h),
{
    assert forall|k: int| 0 <= k < r.nodes@.len() implies #[trigger] r.abs(k) == r0.abs(k) by {}
    assert forall|k1: int, k2: int|
        0 <= k1 < r.nodes@.len() && 0 <= k2 < r.nodes@.len() && #[trigger] r.abs(k1) == #[trigger] r.abs(k2) implies k1 == k2 by {
        assert(r0.abs(k1) == r0.abs(k2));
    }
    assert forall|sid: u64| #[trigger] r.state_nodes@.contains_key(sid) implies r.state_nodes@[sid] < r.nodes@.len()
        && r.abs(r.state_nodes@[sid] as int) == state_node(sid) by {
        assert(r0.abs(r0.state_nodes@[sid] as int) == state_node(sid));
    }
    assert forall|tid: u64| #[trigger] r.topic_nodes@.contains_key(tid) implies r.topic_nodes@[tid] < r.nodes@.len()
        && r.abs(r.topic_nodes@[tid] as int) == topic_node(tid) by {
        assert(r0.abs(r0.topic_nodes@[tid] as int) == topic_node(tid));
    }
}

/// Adds one edge per dependency, from dependee to dependency.
fn add_graph_edges(r: &mut DepGraph, all_deps: &[&[Dependency]])
    requires
        old(r).tables_wf(all_deps@.len() as int),
        old(r).covers(deps_view(all_deps)),
        graph_edges(old(r).graph) == Seq::<(usize, usize)>::empty(),
        total_deps(deps_view(all_deps), all_deps@.len() as int) < u32::MAX,
    ensures
        final(r).tables_wf(all_deps@.len() as int),
        final(r).covers(deps_view(all_deps)),
        final(r).nodes@ == old(r).nodes@,
        forall|m: int| 0 <= m < graph_edges(final(r).graph).len() ==> (#[trigger] graph_edges(final(r).graph)[m]).0 < final(r).nodes@.len()
            && graph_edges(final(r).graph)[m].1 < final(r).nodes@.len(),
        forall|a: usize, b: usize| a < final(r).nodes@.len() && b < final(r).nodes@.len() ==> (#[trigger] has_edge(graph_edges(final(r).graph), a, b)
            <==> dependency_graph(deps_view(all_deps))(final(r).abs(a as int), final(r).abs(b as int))),
{
    let ghost deps = deps_view(all_deps);
    let ghost n = all_deps@.len();
    let ghost nodes0 = r.nodes@;
    let mut i: usize = 0;
    while i < all_deps.len()
        invariant
            deps == deps_view(all_deps),
            n == deps.len(),
            total_deps(deps, n as int) < u32::MAX,
            i <= n,
            r.tables_wf(n as int),
            r.covers(deps),
            r.nodes@ == nodes0,
            graph_edges(r.graph).len() == total_deps(deps, i as int),
            forall|m: int| 0 <= m < graph_edges(r.graph).len() ==> (#[trigger] graph_edges(r.graph)[m]).0 < nodes0.len()
                && graph_edges(r.graph)[m].1 < nodes0.len(),
            forall|a: usize, b: usize| a < nodes0.len() && b < nodes0.len() ==> (#[trigger] has_edge(graph_edges(r.graph), a, b)
                <==> dep_edge_upto(deps, i as int, 0, r.abs(a as int), r.abs(b as int))),
        decreases n - i,
    {
        let row: &[Dependency] = all_deps[i];
        assert(row@ == deps[i as int]);
        proof {
            lemma_total_deps_monotone(deps, i as int + 1, n as int);
        }
        let mut j: usize = 0;
        while j < row.len()
            invariant
                deps == deps_view(all_deps),
                n == deps.len(),
                total_deps(deps, n as int) < u32::MAX,
                total_deps(deps, i as int + 1) <= total_deps(deps, n as int),
                i < n,
                row@ == deps[i as int],
                j <= row@.len(),
                r.tables_wf(n as int),
                r.covers(deps),
                r.nodes@ == nodes0,
                graph_edges(r.graph).len() == total_deps(deps, i as int) + j,
                forall|m: int| 0 <= m < graph_edges(r.graph).len() ==> (#[trigger] graph_edges(r.graph)[m]).0 < nodes0.len()
                    && graph_edges(r.graph)[m].1 < nodes0.len(),
                forall|a: usize, b: usize| a < nodes0.len() && b < nodes0.len() ==> (#[trigger] has_edge(graph_edges(r.graph), a, b)
                    <==> dep_edge_upto(deps, i as int, j as int, r.abs(a as int), r.abs(b as int))),
            decreases row@.len() - j,
        {
            let d = row[j];
            assert(deps[i as int][j as int] == d);
            let hn = r.handler_nodes[i];
            let (a, b) = match d {
                Dependency::ReadState(s) => (hn, *r.state_nodes.get(&s.id).unwrap()),
                Dependency::ReadStateDelayed(s) | Dependency::WriteState(s) => (*r.state_nodes.get(&s.id).unwrap(), hn),
                Dependency::SubscribeTopic(t) => (hn, *r.topic_nodes.get(&t.id).unwrap()),
                Dependency::PublishTopic(t) => (*r.topic_nodes.get(&t.id).unwrap(), hn),
            };
            proof {
                assert(dep_state(deps[i as int][j as int]) == dep_state(d));
                assert(dep_topic(deps[i as int][j as int]) == dep_topic(d));
            }
            let ghost before = graph_edges(r.graph);
            let ghost r0 = *r;
            graph_add_edge(&mut r.graph, a, b);
            proof {
                lemma_tables_wf_graph_change(r0, *r, n as int);
                assert(a < nodes0.len() && b < nodes0.len());
                assert(dep_edge(deps, i as int, j as int, r.abs(a as int), r.abs(b as int)));
                assert forall|x: usize, y: usize| x < nodes0.len() && y < nodes0.len() implies (#[trigger] has_edge(graph_edges(r.graph), x, y)
                    <==> dep_edge_upto(deps, i as int, j + 1, r.abs(x as int), r.abs(y as int))) by {
                    lemma_dep_edge_upto_step(deps, i as int, j as int, r.abs(x as int), r.abs(y as int));
                    assert(has_edge(before, x, y) <==> dep_edge_upto(deps, i as int, j as int, r.abs(x as int), r.abs(y as int)));
                    let es = graph_edges(r.graph);
                    assert(es == before.push((a, b)));
                    if dep_edge(deps, i as int, j as int, r.abs(x as int), r.abs(y as int)) {
                        assert(r.abs(x as int) == r.abs(a as int));
                        assert(r.abs(y as int) == r.abs(b as int));
                        assert(x == a && y == b);
                        assert(es[before.len() as int] == (x, y));
                    }
                    if has_edge(es, x, y) && !has_edge(before, x, y) {
                        let m = choose|m: int| 0 <= m < es.len() && es[m] == (x, y);
                        if m < before.len() {
                            assert(before[m] == (x, y));
                        }
                    }
                    if has_edge(before, x, y) {
                        let m = choose|m: int| 0 <= m < before.len() && before[m] == (x, y);
                        assert(es[m] == (x, y));
                    }
                }
                assert forall|m: int| 0 <= m < graph_edges(r.graph).len() implies (#[trigger] graph_edges(r.graph)[m]).0 < nodes0.len()
                    && graph_edges(r.graph)[m].1 < nodes0.len() by {
                    if m < before.len() {
                        assert(graph_edges(r.graph)[m] == before[m]);
                    }
                }
            }
            j += 1;
        }
        proof {
            assert forall|x: usize, y: usize| x < nodes0.len() && y < nodes0.len() implies (#[trigger] has_edge(graph_edges(r.graph), x, y)
                <==> dep_edge_upto(deps, i + 1, 0, r.abs(x as int), r.abs(y as int))) by {
                lemma_dep_edge_upto_row(deps, i as int, r.abs(x as int), r.abs(y as int));
            }
        }
        i += 1;
    }
    proof {
        assert forall|x: usize, y: usize| x < nodes0.len() && y < nodes0.len() implies (#[trigger] has_edge(graph_edges(r.graph), x, y)
            <==> dependency_graph(deps)(r.abs(x as int), r.abs(y as int))) by {
            let ax = r.abs(x as int);
            let ay = r.abs(y as int);
            if dep_edge_upto(deps, n as int, 0, ax, ay) {
                let (i, j) = choose|i: int, j: int| scanned(deps, n as int, 0, i, j) && #[trigger] dep_edge(deps, i, j, ax, ay);
                assert(0 <= i < deps.len() && 0 <= j < deps[i].len());
            }
            if dependency_graph(deps)(ax, ay) {
                let (i, j) = choose|i: int, j: int| 0 <= i < deps.len() && 0 <= j < deps[i].len() && #[trigger] dep_edge(deps, i, j, ax, ay);
                assert(scanned(deps, n as int, 0, i, j));
            }
        }
    }
}

/// Indicates that a cyclic dependency was found. Each `String` describes a
/// participant in the cycle.
pub struct CyclicDependenciesError(pub Vec<String>);

/// Errors which can occur while building a reactor.
pub enum BuildReactorError {
    /// The handlers for the given event have a circular dependency.
    Cycle(EventId, CyclicDependenciesError),
}

/// The message for a cyclic dependency between the participants `names`.
pub open spec fn cycle_text(names: Seq<String>) -> Seq<char> {
    "Cyclic dependency between: "@ + joined(names_view(names))
}

impl CyclicDependenciesError {
    /// The message that describes the error: the participants, separated
    /// by commas.
    pub fn message(&self) -> (r: String)
        ensures
            r@ == cycle_text(self.0@),
    {
        let mut r = String::from_str("Cyclic dependency between: ");
        let mut joined_names = String::new();
        let names = &self.0;
        let mut i: usize = 0;
        while i < names.len()
            invariant
                i <= names@.len(),
                joined_names@ == joined(names_view(names@.subrange(0, i as int))),
            decreases names@.len() - i,
        {
            if i > 0 {
                joined_names.append(", ");
            }
            joined_names.append(names[i].as_str());
            proof {
                let pre = names@.subrange(0, i as int);
                let post = names@.subrange(0, i + 1);
                assert(post.drop_last() =~= pre);
                assert(names_view(post).drop_last() =~= names_view(pre));
                if i == 0 {
                    assert(joined_names@ =~= names_view(post)[0]);
                }
            }
            i += 1;
        }
        proof {
            assert(names@.subrange(0, names@.len() as int) =~= names@);
        }
        r.append(joined_names.as_str());
        r
    }
}

impl BuildReactorError {
    /// The message that describes the error: the event, and the cycle.
    pub fn message(&self) -> (r: String)
        ensures
            match self {
                BuildReactorError::Cycle(id, e) => r@ == "While analyzing handlers for "@ + id.name@ + ": "@ + cycle_text(e.0@),
            },
    {
        match self {
            BuildReactorError::Cycle(id, e) => {
                let mut r = String::from_str("While analyzing handlers for ");
                r.append(id.name);
                r.append(": ");
                r.append(e.message().as_str());
                r
            },
        }
    }
}

/// `Event` fired at init time, which handlers can use to initialize their state.
pub struct InitEvent;

/// The id of [`InitEvent`].
pub open spec fn init_event_id() -> EventId {
    EventId { id: 0, name: "InitEvent" }
}

impl InitEvent {
    /// The id of this event type.
    pub fn event_id() -> (r: EventId)
        ensures
            r == init_event_id(),
    {
        EventId { id: 0, name: "InitEvent" }
    }
}

impl crate::ecs::event::Event for InitEvent {
    fn id() -> EventId {
        InitEvent::event_id()
    }
}

/// The graph as built, with the facts phase one and two establish.
spec fn graph_built(r: DepGraph, deps: Seq<Seq<Dependency>>) -> bool {
    &&& deps.len() <= usize::MAX
    &&& r.tables_wf(deps.len() as int)
    &&& r.covers(deps)
    &&& forall|m: int| 0 <= m < graph_edges(r.graph).len() ==> (#[trigger] graph_edges(r.graph)[m]).0 < r.nodes@.len()
        && graph_edges(r.graph)[m].1 < r.nodes@.len()
    &&& forall|a: usize, b: usize| a < r.nodes@.len() && b < r.nodes@.len() ==> (#[trigger] has_edge(graph_edges(r.graph), a, b)
        <==> dependency_graph(deps)(r.abs(a as int), r.abs(b as int)))
}

/// The target of an edge of the dependency graph has a node in the built graph,
/// and the built graph has the matching edge.
proof fn lemma_edge_preimage(r: DepGraph, deps: Seq<Seq<Dependency>>, k1: usize, y: int) -> (k2: usize)
    requires
        graph_built(r, deps),
        k1 < r.nodes@.len(),
        dependency_graph(deps)(r.abs(k1 as int), y),
    ensures
        k2 < r.nodes@.len(),
        r.abs(k2 as int) == y,
        has_edge(graph_edges(r.graph), k1, k2),
{
    let x = r.abs(k1 as int);
    let (i, j) = choose|i: int, j: int| 0 <= i < deps.len() && 0 <= j < deps[i].len() && #[trigger] dep_edge(deps, i, j, x, y);
    let d = deps[i][j];
    let ds = dep_state(deps[i][j]);
    let dt = dep_topic(deps[i][j]);
    assert(r.handler_nodes@[i] < r.nodes@.len());
    assert(r.nodes@[r.handler_nodes@[i] as int] == GraphNode::Handler(i as usize));
    let k2: usize = match d {
        Dependency::ReadState(s) => {
            assert(r.state_nodes@.contains_key(s.id));
            r.state_nodes@[s.id]
        },
        Dependency::ReadStateDelayed(s) => r.handler_nodes@[i],
        Dependency::WriteState(s) => r.handler_nodes@[i],
        Dependency::SubscribeTopic(t) => {
            assert(r.topic_nodes@.contains_key(t.id));
            r.topic_nodes@[t.id]
        },
        Dependency::PublishTopic(t) => r.handler_nodes@[i],
    };
    assert(r.abs(k2 as int) == y);
    assert(dependency_graph(deps)(r.abs(k1 as int), r.abs(k2 as int)));
    assert(has_edge(graph_edges(r.graph), k1, k2));
    k2
}

/// The source of an edge of the dependency graph has a node in the built graph.
proof fn lemma_source_preimage(r: DepGraph, deps: Seq<Seq<Dependency>>, x: int, y: int) -> (k: usize)
    requires
        graph_built(r, deps),
        dependency_graph(deps)(x, y),
    ensures
        k < r.nodes@.len(),
        r.abs(k as int) == x,
{
    let (i, j) = choose|i: int, j: int| 0 <= i < deps.len() && 0 <= j < deps[i].len() && #[trigger] dep_edge(deps, i, j, x, y);
    let d = deps[i][j];
    let ds = dep_state(deps[i][j]);
    let dt = dep_topic(deps[i][j]);
    assert(r.handler_nodes@[i] < r.nodes@.len());
    assert(r.nodes@[r.handler_nodes@[i] as int] == GraphNode::Handler(i as usize));
    let k: usize = match d {
        Dependency::ReadState(s) => r.handler_nodes@[i],
        Dependency::ReadStateDelayed(s) => {
            assert(r.state_nodes@.contains_key(s.id));
            r.state_nodes@[s.id]
        },
        Dependency::WriteState(s) => {
            assert(r.state_nodes@.contains_key(s.id));
            r.state_nodes@[s.id]
        },
        Dependency::SubscribeTopic(t) => r.handler_nodes@[i],
        Dependency::PublishTopic(t) => {
            assert(r.topic_nodes@.contains_key(t.id));
            r.topic_nodes@[t.id]
        },
    };
    k
}

/// A path of the dependency graph that starts at a node of the built graph is
/// matched by a path of the built graph.
proof fn lemma_abs_path_to_graph(r: DepGraph, deps: Seq<Seq<Dependency>>, q: Seq<int>, k1: usize) -> (k2: usize)
    requires
        graph_built(r, deps),
        k1 < r.nodes@.len(),
        is_path(dependency_graph(deps), q),
        q[0] == r.abs(k1 as int),
    ensures
        k2 < r.nodes@.len(),
        r.abs(k2 as int) == q.last(),
        reaches(edge_relation(graph_edges(r.graph)), k1 as int, k2 as int),
    decreases q.len(),
{
    let e = edge_relation(graph_edges(r.graph));
    if q.len() == 1 {
        lemma_reaches_refl(e, k1 as int);
        k1
    } else {
        lemma_path_edge(dependency_graph(deps), q, 0);
        let k = lemma_edge_preimage(r, deps, k1, q[1]);
        assert(e(k1 as int, k as int));
        lemma_reaches_edge(e, k1 as int, k as int);
        let rest = q.drop_first();
        assert forall|i: int| 0 <= i < rest.len() - 1 implies #[trigger] dependency_graph(deps)(rest[i], rest[i + 1]) by {
            lemma_path_edge(dependency_graph(deps), q, i + 1);
        }
        let k2 = lemma_abs_path_to_graph(r, deps, rest, k);
        lemma_reaches_trans(e, k1 as int, k as int, k2 as int);
        k2
    }
}

/// Reachability in the built graph and in the dependency graph agree.
proof fn lemma_reach_agrees(r: DepGraph, deps: Seq<Seq<Dependency>>, k1: usize, k2: usize)
    requires
        graph_built(r, deps),
        k1 < r.nodes@.len(),
        k2 < r.nodes@.len(),
    ensures
        reaches(edge_relation(graph_edges(r.graph)), k1 as int, k2 as int) <==> reaches(dependency_graph(deps), r.abs(k1 as int), r.abs(k2 as int)),
{
    let e = edge_relation(graph_edges(r.graph));
    let dg = dependency_graph(deps);
    let n = r.nodes@.len();
    if reaches(e, k1 as int, k2 as int) {
        let p = choose|p: Seq<int>| #[trigger] is_path(e, p) && p[0] == k1 as int && p.last() == k2 as int;
        let f = |k: int| if 0 <= k < n { r.abs(k) } else { 0 };
        assert forall|i: int| 0 <= i < p.len() - 1 implies #[trigger] dg(f(p[i]), f(p[i + 1])) by {
            lemma_path_edge(e, p, i);
            let es = graph_edges(r.graph);
            let m = choose|m: int| 0 <= m < es.len() && es[m] == (p[i] as usize, p[i + 1] as usize);
            assert(es[m].0 < n && es[m].1 < n);
            assert(has_edge(es, p[i] as usize, p[i + 1] as usize));
        }
        lemma_map_path(e, dg, f, p);
        let q = p.map_values(f);
        assert(q[0] == r.abs(k1 as int));
        assert(q.last() == r.abs(k2 as int));
        assert(is_path(dg, q));
    }
    if reaches(dg, r.abs(k1 as int), r.abs(k2 as int)) {
        let q = choose|q: Seq<int>| #[trigger] is_path(dg, q) && q[0] == r.abs(k1 as int) && q.last() == r.abs(k2 as int);
        let k3 = lemma_abs_path_to_graph(r, deps, q, k1);
        assert(k3 == k2);
    }
}

/// The component index of node `x` in `sccs`.
spec fn comp_of(sccs: Seq<Seq<usize>>, x: usize) -> int {
    choose|c: int| 0 <= c < sccs.len() && #[trigger] in_scc(sccs, c, x)
}

/// Node `x` belongs to component `c`.
spec fn in_scc(sccs: Seq<Seq<usize>>, c: int, x: usize) -> bool {
    exists|k: int| 0 <= k < sccs[c].len() && #[trigger] sccs[c][k] == x
}

proof fn lemma_comp_of(sccs: Seq<Seq<usize>>, c: int, k: int)
    requires
        forall|c1: int, k1: int, c2: int, k2: int|
            0 <= c1 < sccs.len() && 0 <= k1 < sccs[c1].len() && 0 <= c2 < sccs.len() && 0 <= k2 < sccs[c2].len()
                && #[trigger] sccs[c1][k1] == #[trigger] sccs[c2][k2] ==> c1 == c2 && k1 == k2,
        0 <= c < sccs.len(),
        0 <= k < sccs[c].len(),
    ensures
        comp_of(sccs, sccs[c][k]) == c,
{
    let x = sccs[c][k];
    assert(in_scc(sccs, c, x));
    let c2 = comp_of(sccs, x);
    assert(0 <= c2 < sccs.len() && in_scc(sccs, c2, x));
    let k2 = choose|k2: int| 0 <= k2 < sccs[c2].len() && #[trigger] sccs[c2][k2] == x;
}

/// Following edges never leads to a later component.
proof fn lemma_path_comp(n: nat, edges: Seq<(usize, usize)>, sccs: Seq<Seq<usize>>, p: Seq<int>)
    requires
        is_scc_postorder(n, edges, sccs),
        is_path(edge_relation(edges), p),
        0 <= p[0] < n,
        forall|m: int| 0 <= m < edges.len() ==> (#[trigger] edges[m]).0 < n && edges[m].1 < n,
    ensures
        0 <= p.last() < n,
        comp_of(sccs, p.last() as usize) <= comp_of(sccs, p[0] as usize),
    decreases p.len(),
{
    if p.len() > 1 {
        let e = edge_relation(edges);
        let rest = p.drop_first();
        lemma_path_edge(e, p, 0);
        let m = choose|m: int| 0 <= m < edges.len() && edges[m] == (p[0] as usize, p[1] as usize);
        assert(edges[m].1 < n);
        assert forall|i: int| 0 <= i < rest.len() - 1 implies #[trigger] e(rest[i], rest[i + 1]) by {
            lemma_path_edge(e, p, i + 1);
        }
        lemma_path_comp(n, edges, sccs, rest);
        let u = p[0] as usize;
        let v = p[1] as usize;
        assert(in_some_scc(sccs, u));
        assert(in_some_scc(sccs, v));
        let (cu, ku) = choose|c: int, k: int| 0 <= c < sccs.len() && 0 <= k < sccs[c].len() && #[trigger] sccs[c][k] == u;
        let (cv, kv) = choose|c: int, k: int| 0 <= c < sccs.len() && 0 <= k < sccs[c].len() && #[trigger] sccs[c][k] == v;
        lemma_comp_of(sccs, cu, ku);
        lemma_comp_of(sccs, cv, kv);
        assert(e(sccs[cu][ku] as int, sccs[cv][kv] as int));
    }
}

/// `text` describes node `x` of the dependency graph: `"Handler "` and the
/// handler's index, or `"State "` or `"Topic "` and the name of an id that
/// some dependency gives it.
pub open spec fn describes(deps: Seq<Seq<Dependency>>, x: int, text: Seq<char>) -> bool {
    ||| (x >= 0 && x % 3 == 0 && text == "Handler "@ + decimal((x / 3) as nat))
    ||| exists|i: int, j: int|
        0 <= i < deps.len() && 0 <= j < deps[i].len() && match #[trigger] deps[i][j] {
            Dependency::ReadState(s) => x == state_node(s.id) && text == "State "@ + s.name@,
            Dependency::ReadStateDelayed(s) => x == state_node(s.id) && text == "State "@ + s.name@,
            Dependency::WriteState(s) => x == state_node(s.id) && text == "State "@ + s.name@,
            Dependency::SubscribeTopic(t) => x == topic_node(t.id) && text == "Topic "@ + t.name@,
            Dependency::PublishTopic(t) => x == topic_node(t.id) && text == "Topic "@ + t.name@,
        }
}

/// Describes node `k` of the built graph.
fn describe_node(r: &DepGraph, k: usize, Ghost(deps): Ghost<Seq<Seq<Dependency>>>) -> (text: String)
    requires
        k < r.nodes@.len(),
        node_named(*r, deps),
    ensures
        describes(deps, r.abs(k as int), text@),
{
    match &r.nodes[k] {
        GraphNode::Handler(i) => {
            let mut text = String::from_str("Handler ");
            let digits = usize_to_string(*i);
            text.append(digits.as_str());
            proof {
                assert(r.abs(k as int) / 3 == *i as int);
            }
            text
        },
        GraphNode::State(st) => {
            let mut text = String::from_str("State ");
            text.append(st.name);
            proof {
                let (ii, jj) = choose|ii: int, jj: int| 0 <= ii < deps.len() && 0 <= jj < deps[ii].len()
                    && #[trigger] dep_state(deps[ii][jj]) == Some(*st);
                assert(match deps[ii][jj] {
                    Dependency::ReadState(s) => r.abs(k as int) == state_node(s.id) && text@ == "State "@ + s.name@,
                    Dependency::ReadStateDelayed(s) => r.abs(k as int) == state_node(s.id) && text@ == "State "@ + s.name@,
                    Dependency::WriteState(s) => r.abs(k as int) == state_node(s.id) && text@ == "State "@ + s.name@,
                    Dependency::SubscribeTopic(t) => r.abs(k as int) == topic_node(t.id) && text@ == "Topic "@ + t.name@,
                    Dependency::PublishTopic(t) => r.abs(k as int) == topic_node(t.id) && text@ == "Topic "@ + t.name@,
                });
            }
            text
        },
        GraphNode::Topic(t) => {
            let mut text = String::from_str("Topic ");
            text.append(t.name);
            proof {
                let (ii, jj) = choose|ii: int, jj: int| 0 <= ii < deps.len() && 0 <= jj < deps[ii].len()
                    && #[trigger] dep_topic(deps[ii][jj]) == Some(*t);
                assert(match deps[ii][jj] {
                    Dependency::ReadState(s) => r.abs(k as int) == state_node(s.id) && text@ == "State "@ + s.name@,
                    Dependency::ReadStateDelayed(s) => r.abs(k as int) == state_node(s.id) && text@ == "State "@ + s.name@,
                    Dependency::WriteState(s) => r.abs(k as int) == state_node(s.id) && text@ == "State "@ + s.name@,
                    Dependency::SubscribeTopic(tt) => r.abs(k as int) == topic_node(tt.id) && text@ == "Topic "@ + tt.name@,
                    Dependency::PublishTopic(tt) => r.abs(k as int) == topic_node(tt.id) && text@ == "Topic "@ + tt.name@,
                });
            }
            text
        },
    }
}

/// `order` runs each of the handlers whose dependency lists are `deps` once,
/// and each after every handler it reaches in their dependency graph.
pub open spec fn is_execution_order(deps: Seq<Seq<Dependency>>, order: Seq<usize>) -> bool {
    &&& is_permutation(order, deps.len())
    &&& forall|a: int, b: int|
        0 <= a < order.len() && 0 <= b < order.len() && a != b && reaches(
            dependency_graph(deps),
            handler_node(#[trigger] order[a] as int),
            handler_node(#[trigger] order[b] as int),
        ) ==> b < a
}

/// `names` describe, one each, at least two distinct nodes of the dependency
/// graph of `deps` that all reach one another, and every node that reaches
/// them and that they reach: a whole strongly connected component.
pub open spec fn names_cycle(deps: Seq<Seq<Dependency>>, names: Seq<String>) -> bool {
    &&& names.len() >= 2
    &&& exists|xs: Seq<int>|
        #![trigger xs.len()]
        xs.len() == names.len() && xs.no_duplicates()
        && (forall|m: int| 0 <= m < xs.len() ==> describes(deps, #[trigger] xs[m], names[m]@))
        && (forall|m1: int, m2: int| 0 <= m1 < xs.len() && 0 <= m2 < xs.len() ==> reaches(
            dependency_graph(deps),
            #[trigger] xs[m1],
            #[trigger] xs[m2],
        ))
        && (forall|y: int| #[trigger] reaches(dependency_graph(deps), xs[0], y) && reaches(dependency_graph(deps), y, xs[0])
            ==> exists|m: int| 0 <= m < xs.len() && xs[m] == y)
}

/// Computes the order in which to run the handlers whose dependency lists are
/// `all_deps`, from the strongly connected components of their dependency
/// graph. When the graph has no cycle, every handler appears once, after every
/// handler it depends on; otherwise the error names the participants of one
/// cycle.
pub fn compute_execution_order(all_deps: &[&[Dependency]]) -> (r: Result<Vec<usize>, CyclicDependenciesError>)
    requires
        all_deps@.len() + total_deps(deps_view(all_deps), all_deps@.len() as int) < u32::MAX,
    ensures
        match r {
            Ok(order) => acyclic(dependency_graph(deps_view(all_deps))) && is_execution_order(deps_view(all_deps), order@),
            Err(e) => !acyclic(dependency_graph(deps_view(all_deps))) && names_cycle(deps_view(all_deps), e.0@),
        },
{
    let ghost deps = deps_view(all_deps);
    let ghost n = all_deps@.len();
    let mut g = build_graph_nodes(all_deps);
    let ghost g0 = g;
    proof {
        lemma_total_deps_monotone(deps, 0, n as int);
    }
    add_graph_edges(&mut g, all_deps);
    let ghost count = graph_node_count(g.graph);
    let ghost es = graph_edges(g.graph);
    let ghost e = edge_relation(es);
    let ghost dg = dependency_graph(deps);
    assert(node_named(g, deps)) by {
        assert forall|k: int| 0 <= k < g.nodes@.len() implies #[trigger] g.nodes@[k] == g0.nodes@[k] by {}
    }
    assert(graph_built(g, deps));
    let sccs = graph_sccs(&g.graph);
    let ghost sc = sccs@.map_values(|c: Vec<usize>| c@);
    assert(is_scc_postorder(count, es, sc));
    let mut result: Vec<usize> = Vec::new();
    let ghost mut comps: Seq<int> = Seq::empty();
    let mut c: usize = 0;
    while c < sccs.len()
        invariant
            graph_built(g, deps),
            count == graph_node_count(g.graph),
            count == g.nodes@.len(),
            es == graph_edges(g.graph),
            e == edge_relation(es),
            dg == dependency_graph(deps),
            n == deps.len(),
            deps == deps_view(all_deps),
            node_named(g, deps),
            sc == sccs@.map_values(|c: Vec<usize>| c@),
            is_scc_postorder(count, es, sc),
            c <= sc.len(),
            forall|c1: int| 0 <= c1 < c ==> #[trigger] sc[c1].len() == 1,
            comps.len() == result@.len(),
            forall|m: int| 0 <= m < comps.len() ==> 0 <= #[trigger] comps[m] < c,
            forall|m1: int, m2: int| 0 <= m1 < m2 < comps.len() ==> comps[m1] < comps[m2],
            forall|m: int| 0 <= m < comps.len() ==> g.nodes@[sc[#[trigger] comps[m]][0] as int] == GraphNode::Handler(result@[m]),
            forall|c1: int| 0 <= c1 < c && (#[trigger] g.nodes@[sc[c1][0] as int]) is Handler ==> exists|m: int| 0 <= m < comps.len() && comps[m] == c1,
        decreases sc.len() - c,
    {
        let scc = &sccs[c];
        assert(scc@ == sc[c as int]);
        if scc.len() > 1 {
            let mut names: Vec<String> = Vec::new();
            let mut k: usize = 0;
            while k < scc.len()
                invariant
                    graph_built(g, deps),
                    node_named(g, deps),
                    deps == deps_view(all_deps),
                    count == g.nodes@.len(),
                    is_scc_postorder(count, es, sc),
                    c < sc.len(),
                    scc@ == sc[c as int],
                    k <= scc@.len(),
                    names@.len() == k,
                    forall|m: int| 0 <= m < k ==> describes(deps, g.abs(scc@[m] as int), #[trigger] names@[m]@),
                decreases scc@.len() - k,
            {
                assert(scc@[k as int] == sc[c as int][k as int]);
                let text = describe_node(&g, scc[k], Ghost(deps));
                names.push(text);
                k += 1;
            }
            proof {
                let members = scc@;
                let xs = members.map_values(|x: usize| g.abs(x as int));
                assert forall|m: int| 0 <= m < members.len() implies (#[trigger] members[m]) < count by {
                    assert(members[m] == sc[c as int][m]);
                }
                assert(xs.no_duplicates()) by {
                    assert forall|m1: int, m2: int| 0 <= m1 < m2 < xs.len() implies xs[m1] != xs[m2] by {
                        assert(sc[c as int][m1] != sc[c as int][m2]);
                        assert(members[m1] < count && members[m2] < count);
                    }
                }
                assert forall|m1: int, m2: int| 0 <= m1 < xs.len() && 0 <= m2 < xs.len() implies reaches(dg, #[trigger] xs[m1], #[trigger] xs[m2]) by {
                    assert(reaches(e, sc[c as int][m1] as int, sc[c as int][m2] as int));
                    lemma_reach_agrees(g, deps, members[m1], members[m2]);
                }
                assert forall|m: int| 0 <= m < xs.len() implies describes(deps, #[trigger] xs[m], names@[m]@) by {}
                assert forall|y: int| #[trigger] reaches(dg, xs[0], y) && reaches(dg, y, xs[0]) implies exists|m: int|
                    0 <= m < xs.len() && xs[m] == y by {
                    let q = choose|q: Seq<int>| #[trigger] is_path(dg, q) && q[0] == xs[0] && q.last() == y;
                    let k2 = lemma_abs_path_to_graph(g, deps, q, members[0]);
                    lemma_reach_agrees(g, deps, k2, members[0]);
                    assert(in_some_scc(sc, k2));
                    let (c2, m2) = choose|c2: int, m2: int| 0 <= c2 < sc.len() && 0 <= m2 < sc[c2].len() && #[trigger] sc[c2][m2] == k2;
                    assert(members[0] == sc[c as int][0]);
                    assert(reaches(e, sc[c as int][0] as int, sc[c2][m2] as int));
                    assert(reaches(e, sc[c2][m2] as int, sc[c as int][0] as int));
                    assert(c2 == c);
                    assert(xs[m2] == y);
                }
                assert(xs[0] != xs[1]);
                lemma_mutual_reach_not_acyclic(dg, xs[0], xs[1]);
                assert(xs.len() == names@.len());
            }
            return Err(CyclicDependenciesError(names));
        }
        proof {
            assert(sc[c as int].len() > 0);
        }
        let node = scc[0];
        let ghost old_comps = comps;
        match &g.nodes[node] {
            GraphNode::Handler(i) => {
                result.push(*i);
                proof {
                    comps = comps.push(c as int);
                }
            },
            _ => {},
        }
        proof {
            assert forall|c1: int| 0 <= c1 < c + 1 && (#[trigger] g.nodes@[sc[c1][0] as int]) is Handler implies exists|m: int| 0 <= m < comps.len() && comps[m] == c1 by {
                if c1 == c {
                    assert(comps[comps.len() - 1] == c1);
                } else {
                    let m = choose|m: int| 0 <= m < old_comps.len() && old_comps[m] == c1;
                    assert(comps[m] == c1);
                }
            }
        }
        c += 1;
    }
    proof {
        let o = result@;
        // Every component is a single node.
        assert forall|c1: int, k1: int| 0 <= c1 < sc.len() && 0 <= k1 < sc[c1].len() implies #[trigger] sc[c1][k1] == sc[c1][0] && k1 == 0 by {
            assert(sc[c1].len() == 1);
        }
        assert forall|m: int| 0 <= m < o.len() implies (#[trigger] o[m]) < n by {
            let k = sc[comps[m]][0];
            assert(k < count);
            assert(g.nodes@[k as int] == GraphNode::Handler(o[m]));
        }
        assert forall|x: usize| x < n implies #[trigger] o.contains(x) by {
            let k = g.handler_nodes@[x as int];
            assert(in_some_scc(sc, k));
            let (c1, k1) = choose|c1: int, k1: int| 0 <= c1 < sc.len() && 0 <= k1 < sc[c1].len() && #[trigger] sc[c1][k1] == k;
            assert(k1 == 0);
            assert(g.nodes@[sc[c1][0] as int] == GraphNode::Handler(x));
            let m = choose|m: int| 0 <= m < comps.len() && comps[m] == c1;
            assert(o[m] == x);
        }
        assert(o.no_duplicates()) by {
            assert forall|m1: int, m2: int| 0 <= m1 < m2 < o.len() implies o[m1] != o[m2] by {
                let k1 = sc[comps[m1]][0];
                let k2 = sc[comps[m2]][0];
                assert(k1 < count && k2 < count);
                if o[m1] == o[m2] {
                    assert(g.abs(k1 as int) == g.abs(k2 as int));
                    assert(k1 == k2);
                    assert(comps[m1] < comps[m2]);
                }
            }
        }
        lemma_permutation_len(o, n as usize);
        // The order respects reachability between handlers.
        assert forall|a: int, b: int|
            0 <= a < o.len() && 0 <= b < o.len() && a != b && reaches(dg, handler_node(#[trigger] o[a] as int), handler_node(#[trigger] o[b] as int))
            implies b < a by {
            let ka = sc[comps[a]][0];
            let kb = sc[comps[b]][0];
            assert(ka < count && kb < count);
            assert(g.abs(ka as int) == handler_node(o[a] as int));
            assert(g.abs(kb as int) == handler_node(o[b] as int));
            lemma_reach_agrees(g, deps, ka, kb);
            let p = choose|p: Seq<int>| #[trigger] is_path(e, p) && p[0] == ka as int && p.last() == kb as int;
            lemma_path_comp(count, es, sc, p);
            lemma_comp_of(sc, comps[a], 0);
            lemma_comp_of(sc, comps[b], 0);
            if comps[b] == comps[a] {
                assert(ka == kb);
            }
            if b > a {
                assert(comps[a] < comps[b]);
            }
        }
        // No edge lies on a cycle.
        assert forall|x: int, y: int| #[trigger] dg(x, y) implies !reaches(dg, y, x) by {
            if reaches(dg, y, x) {
                let kx = lemma_source_preimage(g, deps, x, y);
                let ky = lemma_edge_preimage(g, deps, kx, y);
                assert(e(kx as int, ky as int));
                lemma_reaches_edge(e, kx as int, ky as int);
                lemma_reach_agrees(g, deps, ky, kx);
                assert(in_some_scc(sc, kx));
                assert(in_some_scc(sc, ky));
                let (cx, ix) = choose|c1: int, k1: int| 0 <= c1 < sc.len() && 0 <= k1 < sc[c1].len() && #[trigger] sc[c1][k1] == kx;
                let (cy, iy) = choose|c1: int, k1: int| 0 <= c1 < sc.len() && 0 <= k1 < sc[c1].len() && #[trigger] sc[c1][k1] == ky;
                assert(reaches(e, sc[cx][ix] as int, sc[cy][iy] as int));
                assert(cx == cy);
                assert(ix == 0 && iy == 0);
                assert(kx == ky);
                let (i, j) = choose|i: int, j: int| 0 <= i < deps.len() && 0 <= j < deps[i].len() && #[trigger] dep_edge(deps, i, j, x, y);
                assert(x != y);
            }
        }
    }
    Ok(result)
}

/// Two groups never share an event id.
pub open spec fn ids_distinct<F>(groups: Seq<(EventId, Seq<Handler<F>>)>) -> bool {
    forall|a: int, b: int|
        0 <= a < groups.len() && 0 <= b < groups.len() && a != b ==> (#[trigger] groups[a]).0.id != (#[trigger] groups[b]).0.id
}

/// `groups` after adding `h`: appended to the group of its event id, or in a
/// new group at the end when no group has that id.
pub open spec fn add_handler<F>(groups: Seq<(EventId, Seq<Handler<F>>)>, h: Handler<F>) -> Seq<(EventId, Seq<Handler<F>>)> {
    if exists|k: int| 0 <= k < groups.len() && (#[trigger] groups[k]).0.id == h.event().id {
        let k = choose|k: int| 0 <= k < groups.len() && (#[trigger] groups[k]).0.id == h.event().id;
        groups.update(k, (groups[k].0, groups[k].1.push(h)))
    } else {
        groups.push((h.event(), seq![h]))
    }
}

/// Collects handlers, grouped by the id of the event they handle, and builds
/// a [`Reactor`] from them.
pub struct ReactorBuilder<F> {
    groups: Vec<(EventId, Vec<Handler<F>>)>,
}

impl<F> ReactorBuilder<F> {
    /// The groups: an event id and the handlers added for it, in the order
    /// they were added; the groups in the order their ids were first added.
    pub closed spec fn groups(&self) -> Seq<(EventId, Seq<Handler<F>>)> {
        self.groups@.map_values(|g: (EventId, Vec<Handler<F>>)| (g.0, g.1@))
    }

    #[verifier::type_invariant]
    spec fn distinct_ids(&self) -> bool {
        ids_distinct(self.groups())
    }

    /// A builder with no handlers.
    pub fn new() -> (r: ReactorBuilder<F>)
        ensures
            r.groups() == Seq::<(EventId, Seq<Handler<F>>)>::empty(),
    {
        let r = ReactorBuilder { groups: Vec::new() };
        assert(r.groups() =~= Seq::<(EventId, Seq<Handler<F>>)>::empty());
        r
    }

    /// Adds a handler, to the group of the event it handles.
    pub fn add(self, handler: Handler<F>) -> (r: ReactorBuilder<F>)
        ensures
            r.groups() == add_handler(self.groups(), handler),
    {
        proof {
            use_type_invariant(&self);
        }
        let ghost g0 = self.groups();
        let mut groups = self.groups;
        let id = handler.event_id();
        let mut k: usize = 0;
        while k < groups.len() && groups[k].0.id != id.id
            invariant
                k <= groups@.len(),
                g0 == groups@.map_values(|g: (EventId, Vec<Handler<F>>)| (g.0, g.1@)),
                id == handler.event(),
                forall|j: int| 0 <= j < k ==> (#[trigger] g0[j]).0.id != id.id,
            decreases groups@.len() - k,
        {
            k += 1;
        }
        if k < groups.len() {
            proof {
                assert(g0[k as int].0.id == id.id);
                assert forall|j: int| 0 <= j < g0.len() && (#[trigger] g0[j]).0.id == id.id implies j == k by {
                    if j != k {
                        assert(g0[j].0.id != g0[k as int].0.id);
                    }
                }
            }
            groups[k].1.push(handler);
            proof {
                let g1 = groups@.map_values(|g: (EventId, Vec<Handler<F>>)| (g.0, g.1@));
                assert(g1 =~= g0.update(k as int, (g0[k as int].0, g0[k as int].1.push(handler))));
                assert forall|a: int, b: int|
                    0 <= a < g1.len() && 0 <= b < g1.len() && a != b implies (#[trigger] g1[a]).0.id != (#[trigger] g1[b]).0.id by {
                    assert(g1[a].0 == g0[a].0 && g1[b].0 == g0[b].0);
                }
            }
            let r = ReactorBuilder { groups };
            r
        } else {
            let mut hs: Vec<Handler<F>> = Vec::new();
            hs.push(handler);
            groups.push((id, hs));
            proof {
                let g1 = groups@.map_values(|g: (EventId, Vec<Handler<F>>)| (g.0, g.1@));
                assert(hs@ =~= seq![handler]);
                assert(g1 =~= g0.push((id, seq![handler])));
                assert forall|a: int, b: int|
                    0 <= a < g1.len() && 0 <= b < g1.len() && a != b implies (#[trigger] g1[a]).0.id != (#[trigger] g1[b]).0.id by {
                    if a < g0.len() && b < g0.len() {
                        assert(g1[a] == g0[a] && g1[b] == g0[b]);
                    } else if a < g0.len() {
                        assert(g1[a] == g0[a]);
                    } else {
                        assert(g1[b] == g0[b]);
                    }
                }
            }
            let r = ReactorBuilder { groups };
            r
        }
    }
}

impl<F> Default for ReactorBuilder<F> {
    /// A builder with no handlers.
    fn default() -> (r: ReactorBuilder<F>)
        ensures
            r.groups() == Seq::<(EventId, Seq<Handler<F>>)>::empty(),
    {
        ReactorBuilder::new()
    }
}

/// The dependency lists of `handlers`.
pub open spec fn handler_deps<F>(handlers: Seq<Handler<F>>) -> Seq<Seq<Dependency>> {
    handlers.map_values(|h: Handler<F>| h.deps())
}

/// The handlers of `groups`, group after group.
pub open spec fn grouped_handlers<F>(groups: Seq<(EventId, Seq<Handler<F>>)>) -> Seq<Handler<F>> {
    groups.map_values(|g: (EventId, Seq<Handler<F>>)| g.1).flatten_alt()
}

/// The dependency graph of `handlers` has fewer nodes and edges than its
/// `u32` indices can count.
pub open spec fn group_fits<F>(handlers: Seq<Handler<F>>) -> bool {
    handlers.len() + total_deps(handler_deps(handlers), handlers.len() as int) < u32::MAX
}

/// The dependency graph of the handlers of `groups[k]` has no cycle.
pub open spec fn group_acyclic<F>(groups: Seq<(EventId, Seq<Handler<F>>)>, k: int) -> bool {
    acyclic(dependency_graph(handler_deps(groups[k].1)))
}

/// The number of handlers in the groups before `groups[k]`: where the
/// handlers of `groups[k]` start among all the handlers.
pub open spec fn handlers_before<F>(groups: Seq<(EventId, Seq<Handler<F>>)>, k: int) -> nat {
    grouped_handlers(groups.subrange(0, k)).len()
}

/// `order` is an execution order of the handlers with dependency lists
/// `deps`, with each index increased by `offset`.
pub open spec fn offset_execution_order(deps: Seq<Seq<Dependency>>, offset: int, order: Seq<usize>) -> bool {
    &&& forall|i: int| 0 <= i < order.len() ==> #[trigger] order[i] >= offset
    &&& is_execution_order(deps, order.map_values(|x: usize| (x - offset) as usize))
}

/// Adding a group appends its handlers.
proof fn lemma_grouped_step<F>(groups: Seq<(EventId, Seq<Handler<F>>)>, j: int)
    requires
        0 < j <= groups.len(),
    ensures
        grouped_handlers(groups.subrange(0, j)) == grouped_handlers(groups.subrange(0, j - 1)) + groups[j - 1].1,
{
    let post = groups.subrange(0, j);
    let pre = groups.subrange(0, j - 1);
    assert(post.drop_last() =~= pre);
    let ps = post.map_values(|g: (EventId, Seq<Handler<F>>)| g.1);
    assert(ps.drop_last() =~= pre.map_values(|g: (EventId, Seq<Handler<F>>)| g.1));
}

/// Handler `b` of group `k` stands at `handlers_before(groups, k) + b` among
/// the handlers of the first `j` groups, for any `j` past `k`.
proof fn lemma_grouped_index<F>(groups: Seq<(EventId, Seq<Handler<F>>)>, k: int, j: int, b: int)
    requires
        0 <= k < j <= groups.len(),
        0 <= b < groups[k].1.len(),
    ensures
        handlers_before(groups, k) + groups[k].1.len() <= grouped_handlers(groups.subrange(0, j)).len(),
        grouped_handlers(groups.subrange(0, j))[handlers_before(groups, k) + b] == groups[k].1[b],
    decreases j - k,
{
    lemma_grouped_step(groups, j);
    if j > k + 1 {
        lemma_grouped_index(groups, k, j - 1, b);
    }
}

/// Calls handlers in response to events: the handlers, and for each event id
/// the indices of the handlers to call, in order.
pub struct Reactor<F> {
    handlers: Vec<Handler<F>>,
    event_dispatch_order: HashMap<u64, Vec<usize>>,
}

impl<F> Reactor<F> {
    /// The handlers.
    pub closed spec fn handlers(&self) -> Seq<Handler<F>> {
        self.handlers@
    }

    /// The indices of the handlers to call for each event id.
    pub closed spec fn orders(&self) -> Map<u64, Vec<usize>> {
        self.event_dispatch_order@
    }

    /// Begins building a reactor.
    pub fn builder() -> (r: ReactorBuilder<F>)
        ensures
            r.groups() == Seq::<(EventId, Seq<Handler<F>>)>::empty(),
    {
        ReactorBuilder::new()
    }
}

impl<F> ReactorBuilder<F> {
    /// Builds the reactor. The handlers are kept group after group; for each
    /// group the execution order of its handlers is computed, each index is
    /// increased by the number of handlers of the groups before it, so that it
    /// names that handler among all of them, and the result is the order kept
    /// for its event id. When the handlers of some event depend on
    /// one another in a cycle, the error names the first such event and the
    /// cycle.
    pub fn build(self) -> (r: Result<Reactor<F>, BuildReactorError>)
        requires
            forall|k: int| 0 <= k < self.groups().len() ==> group_fits(#[trigger] self.groups()[k].1),
        ensures
            match r {
                Ok(reactor) => {
                    &&& forall|k: int| 0 <= k < self.groups().len() ==> group_acyclic(self.groups(), k)
                    &&& reactor.handlers() == grouped_handlers(self.groups())
                    &&& forall|id: u64| reactor.orders().contains_key(id)
                        <==> exists|k: int| 0 <= k < self.groups().len() && (#[trigger] self.groups()[k]).0.id == id
                    &&& forall|k: int| 0 <= k < self.groups().len() ==> offset_execution_order(
                        handler_deps(self.groups()[k].1),
                        handlers_before(self.groups(), k) as int,
                        reactor.orders()[(#[trigger] self.groups()[k]).0.id]@,
                    )
                    &&& forall|k: int, i: int|
                        0 <= k < self.groups().len() && 0 <= i < reactor.orders()[self.groups()[k].0.id]@.len() ==> {
                            let x = #[trigger] reactor.orders()[self.groups()[k].0.id]@[i] as int;
                            &&& x < reactor.handlers().len()
                            &&& reactor.handlers()[x] == self.groups()[k].1[x - handlers_before(self.groups(), k)]
                        }
                },
                Err(BuildReactorError::Cycle(id, e)) => exists|k: int|
                    0 <= k < self.groups().len() && (#[trigger] self.groups()[k]).0 == id
                    && !group_acyclic(self.groups(), k)
                    && names_cycle(handler_deps(self.groups()[k].1), e.0@)
                    && forall|j: int| 0 <= j < k ==> group_acyclic(self.groups(), j),
            },
    {
        proof {
            use_type_invariant(&self);
        }
        let ghost g0 = self.groups();
        let mut groups = self.groups;
        let mut handlers: Vec<Handler<F>> = Vec::new();
        let mut event_dispatch_order: HashMap<u64, Vec<usize>> = HashMap::new();
        let mut k: usize = 0;
        while k < groups.len()
            invariant
                k <= groups@.len() == g0.len(),
                g0 == self.groups(),
                ids_distinct(g0),
                forall|j: int| 0 <= j < g0.len() ==> group_fits(#[trigger] g0[j].1),
                forall|j: int| 0 <= j < g0.len() ==> (#[trigger] groups@[j]).0 == g0[j].0,
                forall|j: int| k <= j < g0.len() ==> (#[trigger] groups@[j]).1@ == g0[j].1,
                handlers@ == grouped_handlers(g0.subrange(0, k as int)),
                forall|j: int| 0 <= j < k ==> group_acyclic(g0, j),
                forall|id: u64| event_dispatch_order@.contains_key(id)
                    <==> exists|j: int| 0 <= j < k && (#[trigger] g0[j]).0.id == id,
                forall|j: int| 0 <= j < k ==> offset_execution_order(
                    handler_deps(g0[j].1),
                    handlers_before(g0, j) as int,
                    event_dispatch_order@[(#[trigger] g0[j]).0.id]@,
                ),
            decreases g0.len() - k,
        {
            let ghost hs = g0[k as int].1;
            let n = groups[k].1.len();
            let mut all_deps: Vec<&[Dependency]> = Vec::new();
            let mut i: usize = 0;
            while i < n
                invariant
                    k < groups@.len(),
                    n == groups@[k as int].1@.len(),
                    groups@[k as int].1@ == hs,
                    i <= n,
                    all_deps@.len() == i,
                    forall|m: int| 0 <= m < i ==> (#[trigger] all_deps@[m])@ == hs[m].deps(),
                decreases n - i,
            {
                all_deps.push(groups[k].1[i].dependencies());
                i += 1;
            }
            let deps_slice = all_deps.as_slice();
            proof {
                assert(deps_view(deps_slice) =~= handler_deps(hs));
            }
            let order = match compute_execution_order(deps_slice) {
                Ok(order) => order,
                Err(e) => {
                    proof {
                        assert(g0[k as int].0 == groups@[k as int].0);
                        assert(!group_acyclic(g0, k as int));
                        assert(names_cycle(handler_deps(g0[k as int].1), e.0@));
                    }
                    return Err(BuildReactorError::Cycle(groups[k].0, e));
                },
            };
            let ghost base = order@;
            let mut order = order;
            let id = groups[k].0;
            let offset = handlers.len();
            handlers.append(&mut groups[k].1);
            assert(handlers@.len() == handlers.len());
            let mut j: usize = 0;
            while j < order.len()
                invariant
                    order@.len() == base.len() == n,
                    offset + n <= usize::MAX,
                    forall|m: int| 0 <= m < base.len() ==> (#[trigger] base[m]) < n,
                    j <= n,
                    forall|m: int| 0 <= m < j ==> (#[trigger] order@[m]) == base[m] + offset,
                    forall|m: int| j <= m < n ==> (#[trigger] order@[m]) == base[m],
                decreases n - j,
            {
                let v = order[j];
                order.set(j, v + offset);
                j += 1;
            }
            proof {
                assert(order@.map_values(|x: usize| (x - offset) as usize) =~= base);
                assert(offset == handlers_before(g0, k as int));
                assert(offset_execution_order(handler_deps(hs), offset as int, order@));
            }
            event_dispatch_order.insert(id.id, order);
            proof {
                let pre = g0.subrange(0, k as int);
                let post = g0.subrange(0, k + 1);
                assert(post.drop_last() =~= pre);
                let ps = post.map_values(|g: (EventId, Seq<Handler<F>>)| g.1);
                assert(ps.drop_last() =~= pre.map_values(|g: (EventId, Seq<Handler<F>>)| g.1));
                assert(handlers@ =~= grouped_handlers(post));
                assert forall|id2: u64| event_dispatch_order@.contains_key(id2)
                    <==> exists|j2: int| 0 <= j2 < k + 1 && (#[trigger] g0[j2]).0.id == id2 by {
                    if id2 == id.id {
                        assert(g0[k as int].0.id == id2);
                    }
                }
                assert forall|j2: int| 0 <= j2 < k + 1 implies offset_execution_order(
                    handler_deps(g0[j2].1),
                    handlers_before(g0, j2) as int,
                    event_dispatch_order@[(#[trigger] g0[j2]).0.id]@,
                ) by {
                    if j2 < k {
                        assert(g0[j2].0.id != g0[k as int].0.id);
                    }
                }
            }
            k += 1;
        }
        proof {
            assert(g0.subrange(0, g0.len() as int) =~= g0);
            assert forall|k2: int, i: int|
                0 <= k2 < g0.len() && 0 <= i < event_dispatch_order@[g0[k2].0.id]@.len() implies {
                    let x = #[trigger] event_dispatch_order@[g0[k2].0.id]@[i] as int;
                    &&& x < handlers@.len()
                    &&& handlers@[x] == g0[k2].1[x - handlers_before(g0, k2)]
                } by {
                let o = event_dispatch_order@[g0[k2].0.id]@;
                let off = handlers_before(g0, k2) as int;
                assert(offset_execution_order(handler_deps(g0[k2].1), off, o));
                let un = o.map_values(|x: usize| (x - off) as usize);
                assert(un[i] < g0[k2].1.len());
                assert(o[i] >= off);
                lemma_grouped_index(g0, k2, g0.len() as int, o[i] - off);
            }
        }
        Ok(Reactor { handlers, event_dispatch_order })
    }
}

/// Some dependency of one of `handlers` names the state `s`.
pub open spec fn names_state<F>(handlers: Seq<Handler<F>>, s: StateId) -> bool {
    exists|h: int, d: int|
        0 <= h < handlers.len() && 0 <= d < handlers[h].deps().len() && #[trigger] dep_state(handlers[h].deps()[d]) == Some(s)
}

/// `ids` holds, once each by id, the states that the dependencies of
/// `handlers` name.
pub open spec fn lists_states<F>(handlers: Seq<Handler<F>>, ids: Seq<StateId>) -> bool {
    &&& forall|i: int, j: int| 0 <= i < ids.len() && 0 <= j < ids.len() && i != j ==> (#[trigger] ids[i]).id != (#[trigger] ids[j]).id
    &&& forall|i: int| 0 <= i < ids.len() ==> names_state(handlers, #[trigger] ids[i])
    &&& forall|s: StateId| #[trigger] names_state(handlers, s) ==> exists|i: int| 0 <= i < ids.len() && (#[trigger] ids[i]).id == s.id
}

impl<F> Reactor<F> {
    /// Returns the indices of the handlers to call for events with id
    /// `event_id`, if any are kept.
    pub fn dispatch_order(&self, event_id: EventId) -> (r: Option<&Vec<usize>>)
        ensures
            match r {
                Some(order) => self.orders().contains_key(event_id.id) && *order == self.orders()[event_id.id],
                None => !self.orders().contains_key(event_id.id),
            },
    {
        self.event_dispatch_order.get(&event_id.id)
    }

    /// The number of handlers.
    pub fn handler_count(&self) -> (r: usize)
        ensures
            r == self.handlers().len(),
    {
        self.handlers.len()
    }

    /// Returns the handler at index `idx`.
    pub fn handler(&self, idx: usize) -> (r: &Handler<F>)
        requires
            idx < self.handlers().len(),
        ensures
            *r == self.handlers()[idx as int],
    {
        &self.handlers[idx]
    }

    /// Calls, in order, the handlers kept for events with id `event_id` on
    /// `context`, and returns what each returned; nothing when no handlers
    /// are kept for it.
    pub fn run_handlers<C: Copy, R>(&self, event_id: EventId, context: C) -> (r: Vec<R>)
        where
            F: Fn(C) -> R,
        requires
            self.orders().contains_key(event_id.id) ==> forall|i: int|
                0 <= i < self.orders()[event_id.id]@.len() ==> {
                    &&& (#[trigger] self.orders()[event_id.id]@[i]) < self.handlers().len()
                    &&& call_requires(self.handlers()[self.orders()[event_id.id]@[i] as int].func(), (context,))
                },
        ensures
            !self.orders().contains_key(event_id.id) ==> r@.len() == 0,
            self.orders().contains_key(event_id.id) ==> {
                &&& r@.len() == self.orders()[event_id.id]@.len()
                &&& forall|i: int| 0 <= i < r@.len() ==> call_ensures(
                    self.handlers()[self.orders()[event_id.id]@[i] as int].func(),
                    (context,),
                    #[trigger] r@[i],
                )
            },
    {
        let mut results: Vec<R> = Vec::new();
        match self.event_dispatch_order.get(&event_id.id) {
            None => results,
            Some(order) => {
                let mut i: usize = 0;
                while i < order.len()
                    invariant
                        self.orders().contains_key(event_id.id),
                        *order == self.orders()[event_id.id],
                        i <= order@.len(),
                        results@.len() == i,
                        forall|m: int| 0 <= m < order@.len() ==> {
                            &&& (#[trigger] order@[m]) < self.handlers().len()
                            &&& call_requires(self.handlers()[order@[m] as int].func(), (context,))
                        },
                        forall|m: int| 0 <= m < i ==> call_ensures(
                            self.handlers()[order@[m] as int].func(),
                            (context,),
                            #[trigger] results@[m],
                        ),
                    decreases order@.len() - i,
                {
                    let idx = order[i];
                    let out = self.handlers[idx].call(context);
                    results.push(out);
                    i += 1;
                }
                results
            },
        }
    }

    /// The ids of the states that the handlers' dependencies name, each once.
    pub fn state_ids(&self) -> (r: Vec<StateId>)
        ensures
            lists_states(self.handlers(), r@),
    {
        let mut ids: Vec<StateId> = Vec::new();
        let mut seen: HashSet<u64> = HashSet::new();
        let mut h: usize = 0;
        while h < self.handlers.len()
            invariant
                h <= self.handlers().len(),
                forall|k: u64| seen@.contains(k) <==> exists|i: int| 0 <= i < ids@.len() && (#[trigger] ids@[i]).id == k,
                forall|i: int, j: int| 0 <= i < ids@.len() && 0 <= j < ids@.len() && i != j ==> (#[trigger] ids@[i]).id != (#[trigger] ids@[j]).id,
                forall|i: int| 0 <= i < ids@.len() ==> names_state(self.handlers(), #[trigger] ids@[i]),
                forall|h2: int, d: int|
                    0 <= h2 < h && 0 <= d < self.handlers()[h2].deps().len() && (#[trigger] dep_state(self.handlers()[h2].deps()[d])) is Some
                        ==> seen@.contains(dep_state(self.handlers()[h2].deps()[d])->0.id),
            decreases self.handlers().len() - h,
        {
            let deps = self.handlers[h].dependencies();
            let mut d: usize = 0;
            while d < deps.len()
                invariant
                    h < self.handlers().len(),
                    deps@ == self.handlers()[h as int].deps(),
                    d <= deps@.len(),
                    forall|k: u64| seen@.contains(k) <==> exists|i: int| 0 <= i < ids@.len() && (#[trigger] ids@[i]).id == k,
                    forall|i: int, j: int| 0 <= i < ids@.len() && 0 <= j < ids@.len() && i != j ==> (#[trigger] ids@[i]).id != (#[trigger] ids@[j]).id,
                    forall|i: int| 0 <= i < ids@.len() ==> names_state(self.handlers(), #[trigger] ids@[i]),
                    forall|h2: int, d2: int|
                        0 <= h2 < h && 0 <= d2 < self.handlers()[h2].deps().len() && (#[trigger] dep_state(self.handlers()[h2].deps()[d2])) is Some
                            ==> seen@.contains(dep_state(self.handlers()[h2].deps()[d2])->0.id),
                    forall|d2: int|
                        0 <= d2 < d && (#[trigger] dep_state(deps@[d2])) is Some ==> seen@.contains(dep_state(deps@[d2])->0.id),
                decreases deps@.len() - d,
            {
                match deps[d].state_id() {
                    Some(sid) => {
                        let sid = *sid;
                        proof {
                            assert(dep_state(self.handlers()[h as int].deps()[d as int]) == Some(sid));
                        }
                        if !seen.contains(&sid.id) {
                            let ghost old_ids = ids@;
                            let ghost old_seen = seen@;
                            seen.insert(sid.id);
                            ids.push(sid);
                            proof {
                                assert forall|k: u64| seen@.contains(k) <==> exists|i: int| 0 <= i < ids@.len() && (#[trigger] ids@[i]).id == k by {
                                    if k == sid.id {
                                        assert(ids@[old_ids.len() as int].id == k);
                                    } else if seen@.contains(k) {
                                        assert(old_seen.contains(k));
                                        let i = choose|i: int| 0 <= i < old_ids.len() && (#[trigger] old_ids[i]).id == k;
                                        assert(ids@[i] == old_ids[i]);
                                    }
                                    if exists|i: int| 0 <= i < ids@.len() && (#[trigger] ids@[i]).id == k {
                                        let i = choose|i: int| 0 <= i < ids@.len() && (#[trigger] ids@[i]).id == k;
                                        if i < old_ids.len() {
                                            assert(old_ids[i].id == k);
                                        }
                                    }
                                }
                                assert forall|i: int, j: int| 0 <= i < ids@.len() && 0 <= j < ids@.len() && i != j implies (#[trigger] ids@[i]).id != (#[trigger] ids@[j]).id by {
                                    if i < old_ids.len() && j < old_ids.len() {
                                        assert(ids@[i] == old_ids[i] && ids@[j] == old_ids[j]);
                                    } else if i < old_ids.len() {
                                        assert(ids@[i] == old_ids[i]);
                                        assert(!seen@.contains(old_ids[i].id) || old_ids[i].id != sid.id);
                                    } else {
                                        assert(ids@[j] == old_ids[j]);
                                    }
                                }
                                assert forall|i: int| 0 <= i < ids@.len() implies names_state(self.handlers(), #[trigger] ids@[i]) by {
                                    if i < old_ids.len() {
                                        assert(ids@[i] == old_ids[i]);
                                    } else {
                                        assert(dep_state(self.handlers()[h as int].deps()[d as int]) == Some(ids@[i]));
                                    }
                                }
                            }
                        }
                    },
                    None => {},
                }
                d += 1;
            }
            h += 1;
        }
        proof {
            assert forall|s: StateId| #[trigger] names_state(self.handlers(), s) implies exists|i: int| 0 <= i < ids@.len() && (#[trigger] ids@[i]).id == s.id by {
                let (h2, d2) = choose|h2: int, d2: int|
                    0 <= h2 < self.handlers().len() && 0 <= d2 < self.handlers()[h2].deps().len()
                        && #[trigger] dep_state(self.handlers()[h2].deps()[d2]) == Some(s);
                assert(seen@.contains(s.id));
            }
        }
        ids
    }

    /// A container with one state for each state that the handlers'
    /// dependencies name, made by `default_fn`, and the queue to dispatch
    /// first so that handlers can initialize their state: an [`InitEvent`],
    /// carried by the value `init`.
    pub fn new_state_container<S, G: Fn(StateId) -> S, E>(&self, default_fn: G, init: E) -> (r: (StateContainer<S>, EventQueue<E>))
        requires
            forall|id: StateId| call_requires(default_fn, (id,)),
        ensures
            forall|k: u64| r.0@.contains_key(k) <==> exists|s: StateId| #[trigger] names_state(self.handlers(), s) && s.id == k,
            forall|k: u64|
                #[trigger] r.0@.contains_key(k) ==> {
                    &&& r.0@[k].tag().id == k
                    &&& names_state(self.handlers(), r.0@[k].tag())
                    &&& call_ensures(default_fn, (r.0@[k].tag(),), r.0@[k].value())
                },
            r.1@.len() == 1,
            r.1@[0].tag() == init_event_id(),
            r.1@[0].value() == init,
    {
        let ids = self.state_ids();
        let r = StateContainer::new(ids.as_slice(), default_fn);
        proof {
            assert forall|k: u64| r@.contains_key(k) <==> exists|s: StateId| #[trigger] names_state(self.handlers(), s) && s.id == k by {
                if r@.contains_key(k) {
                    let i = choose|i: int| 0 <= i < ids@.len() && (#[trigger] ids@[i]).id == k;
                    assert(names_state(self.handlers(), ids@[i]));
                }
                if exists|s: StateId| #[trigger] names_state(self.handlers(), s) && s.id == k {
                    let s = choose|s: StateId| #[trigger] names_state(self.handlers(), s) && s.id == k;
                    let i = choose|i: int| 0 <= i < ids@.len() && (#[trigger] ids@[i]).id == s.id;
                }
            }
            assert forall|k: u64| #[trigger] r@.contains_key(k) implies names_state(self.handlers(), r@[k].tag()) by {
                let i = choose|i: int| 0 <= i < ids@.len() && ids@[i] == r@[k].tag();
                assert(names_state(self.handlers(), ids@[i]));
            }
        }
        let mut queue: EventQueue<E> = EventQueue::new();
        queue.push(AnyEvent::new(InitEvent::event_id(), init));
        (r, queue)
    }

    /// Takes the oldest event off `queue`, and gives it with the indices of
    /// the handlers to call for it, in order: those kept for its id, or none.
    pub fn next_dispatch<E>(&self, queue: &mut EventQueue<E>) -> (r: Option<(AnyEvent<E>, Vec<usize>)>)
        ensures
            match r {
                Some((ev, order)) => {
                    &&& old(queue)@.len() > 0
                    &&& ev == old(queue)@[0]
                    &&& final(queue)@ == old(queue)@.drop_first()
                    &&& self.orders().contains_key(ev.tag().id) ==> order@ == self.orders()[ev.tag().id]@
                    &&& !self.orders().contains_key(ev.tag().id) ==> order@.len() == 0
                },
                None => old(queue)@.len() == 0 && final(queue)@ == old(queue)@,
            },
    {
        match queue.pop() {
            None => None,
            Some(ev) => {
                let mut order: Vec<usize> = Vec::new();
                match self.event_dispatch_order.get(&ev.id().id) {
                    Some(kept) => {
                        let mut i: usize = 0;
                        while i < kept.len()
                            invariant
                                i <= kept@.len(),
                                order@ == kept@.subrange(0, i as int),
                            decreases kept@.len() - i,
                        {
                            order.push(kept[i]);
                            proof {
                                assert(kept@.subrange(0, i + 1) =~= kept@.subrange(0, i as int).push(kept@[i as int]));
                            }
                            i += 1;
                        }
                        proof {
                            assert(kept@.subrange(0, kept@.len() as int) =~= kept@);
                        }
                    },
                    None => {},
                }
                Some((ev, order))
            },
        }
    }
}

} // verus!
