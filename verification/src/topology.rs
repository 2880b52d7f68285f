//! Topological ordering of the forward edges of an audio graph.
//!
//! The sort itself is done by `petgraph`; this module states what an
//! execution order must satisfy and wraps the few `petgraph` calls that the
//! graph builder makes.
use petgraph::graph::{Graph, NodeIndex};
use petgraph::Directed;
use vstd::prelude::*;

verus! {

/// `order` lists every node index below `n` exactly once.
pub open spec fn is_node_permutation(order: Seq<usize>, n: nat) -> bool {
    &&& order.len() == n
    &&& order.no_duplicates()
    &&& forall|i: int| 0 <= i < order.len() ==> (#[trigger] order[i]) < n
    &&& forall|v: usize| v < n ==> #[trigger] order.contains(v)
}

/// Every edge `(a, b)` has `a` placed before `b` in `order`.
pub open spec fn respects_edges(order: Seq<usize>, edges: Seq<(usize, usize)>) -> bool {
    forall|k: int, i: int, j: int|
        0 <= k < edges.len() && 0 <= i < order.len() && 0 <= j < order.len()
            && #[trigger] order[i] == (#[trigger] edges[k]).0 && #[trigger] order[j] == edges[k].1
            ==> i < j
}

/// `order` is a topological order of the graph with `n` nodes and the given edges.
pub open spec fn is_topological_order(order: Seq<usize>, n: nat, edges: Seq<(usize, usize)>) -> bool {
    &&& is_node_permutation(order, n)
    &&& respects_edges(order, edges)
}

/// The graph has no directed cycle (self-loops included): some topological order exists.
pub open spec fn is_acyclic(n: nat, edges: Seq<(usize, usize)>) -> bool {
    exists|order: Seq<usize>| is_topological_order(order, n, edges)
}

/// The edge list of an adjacency list, in the order in which the builder
/// hands it to the sorter: by source index, then by insertion order.
pub open spec fn flatten_edges(adj: Seq<Seq<usize>>) -> Seq<(usize, usize)>
    decreases adj.len(),
{
    if adj.len() == 0 {
        Seq::empty()
    } else {
        let s = (adj.len() - 1) as usize;
        flatten_edges(adj.drop_last()) + adj.last().map_values(|t: usize| (s, t))
    }
}

/// Number of nodes held by a `petgraph` graph.
pub uninterp spec fn dag_node_count(g: Graph<(), (), Directed, u32>) -> nat;

/// Edges held by a `petgraph` graph, as `(source, target)` node indices in insertion order.
pub uninterp spec fn dag_edges(g: Graph<(), (), Directed, u32>) -> Seq<(usize, usize)>;

/// The order that `petgraph::algo::toposort` returns for a graph with `n`
/// nodes (added in index order) and the given edges (added in this order),
/// or `None` where it reports a cycle.
pub uninterp spec fn toposort_result(n: nat, edges: Seq<(usize, usize)>) -> Option<Seq<usize>>;

#[verifier::external_type_specification]
#[verifier::external_body]
#[verifier::reject_recursive_types(N)]
#[verifier::reject_recursive_types(E)]
#[verifier::reject_recursive_types(Ty)]
#[verifier::reject_recursive_types(Ix)]
pub struct ExGraph<N, E, Ty, Ix>(Graph<N, E, Ty, Ix>);

#[verifier::external_type_specification]
#[verifier::external_body]
pub struct ExDirected(Directed);

/// Calls `petgraph::Graph::new`: an empty directed graph.
#[verifier::external_body]
pub(crate) fn dag_new() -> (g: Graph<(), (), Directed, u32>)
    ensures
        dag_node_count(g) == 0,
        dag_edges(g) == Seq::<(usize, usize)>::empty(),
{
    Graph::new()
}

/// Calls `petgraph::Graph::add_node`, which appends a node whose index is the
/// previous node count and leaves the edges alone. It panics once the `u32`
/// index space is full, which `requires` rules out.
#[verifier::external_body]
pub(crate) fn dag_add_node(g: &mut Graph<(), (), Directed, u32>) -> (idx: usize)
    requires
        dag_node_count(*old(g)) < u32::MAX,
    ensures
        idx == dag_node_count(*old(g)),
        dag_node_count(*final(g)) == dag_node_count(*old(g)) + 1,
        dag_edges(*final(g)) == dag_edges(*old(g)),
{
    g.add_node(()).index()
}

/// Calls `petgraph::Graph::add_edge`, which appends the edge `(a, b)`. It
/// panics on an unknown node or once the `u32` edge index space is full,
/// which `requires` rules out.
#[verifier::external_body]
pub(crate) fn dag_add_edge(g: &mut Graph<(), (), Directed, u32>, a: usize, b: usize)
    requires
        a < dag_node_count(*old(g)),
        b < dag_node_count(*old(g)),
        dag_edges(*old(g)).len() < u32::MAX,
    ensures
        dag_node_count(*final(g)) == dag_node_count(*old(g)),
        dag_edges(*final(g)) == dag_edges(*old(g)).push((a, b)),
{
    g.add_edge(NodeIndex::new(a), NodeIndex::new(b), ());
}

/// Calls `petgraph::algo::toposort`. Its documentation and source show that it
/// returns every node once, each before its successors, when the graph is
/// acyclic, and reports a cycle (self-loops included) otherwise.
#[verifier::external_body]
pub(crate) fn dag_toposort(g: &Graph<(), (), Directed, u32>) -> (order: Option<Vec<usize>>)
    ensures
        toposort_result(dag_node_count(*g), dag_edges(*g)) == (match order {
            Some(o) => Some(o@),
            None => None::<Seq<usize>>,
        }),
        order matches Some(o) ==> is_topological_order(o@, dag_node_count(*g), dag_edges(*g)),
        order is None ==> !is_acyclic(dag_node_count(*g), dag_edges(*g)),
{
    match petgraph::algo::toposort(g, None) {
        Ok(nodes) => Some(nodes.into_iter().map(|i| i.index()).collect()),
        Err(_) => None,
    }
}

} // verus!
