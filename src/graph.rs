//! The dependency graph is a `petgraph` directed graph whose nodes carry no data
//! (node `i` stands for the recipe declared at position `i`) and whose edges carry
//! a signed weight. This module declares the graph type to the verifier, names
//! its contents, wraps the graph operations that the library uses, and states
//! what cycles and topological orders are.
use vstd::prelude::*;

verus! {

#[verifier::external_type_specification]
#[verifier::external_body]
#[verifier::reject_recursive_types(N)]
#[verifier::reject_recursive_types(E)]
#[verifier::reject_recursive_types(Ty)]
#[verifier::reject_recursive_types(Ix)]
pub struct ExGraph<N, E, Ty, Ix>(petgraph::graph::Graph<N, E, Ty, Ix>);

#[verifier::external_type_specification]
#[verifier::external_body]
pub struct ExDirected(petgraph::Directed);

#[verifier::external_type_specification]
#[verifier::external_body]
#[verifier::reject_recursive_types(Ix)]
pub struct ExNodeIndex<Ix>(petgraph::graph::NodeIndex<Ix>);

#[verifier::external_type_specification]
#[verifier::external_body]
#[verifier::reject_recursive_types(N)]
pub struct ExCycle<N>(petgraph::algo::Cycle<N>);

/// The edges of a graph, in the order of their indices: (source, target, weight).
pub uninterp spec fn graph_edges(g: petgraph::graph::DiGraph<(), i64>) -> Seq<(usize, usize, i64)>;

/// The number of nodes of a graph.
pub uninterp spec fn graph_node_count(g: petgraph::graph::DiGraph<(), i64>) -> nat;

/// The largest number of nodes, and of edges, that a graph with `u32` indices holds.
pub const MAX_GRAPH_ITEMS: usize = 0xFFFF_FFFE;

/// Relies on petgraph's `Graph::new`: the new graph has no nodes and no edges.
#[verifier::external_body]
pub(crate) fn new_graph() -> (g: petgraph::graph::DiGraph<(), i64>)
    ensures
        graph_node_count(g) == 0,
        graph_edges(g) == Seq::<(usize, usize, i64)>::empty(),
{
    petgraph::graph::DiGraph::new()
}

/// Relies on petgraph's `Graph::add_node`: the node gets the next index; it
/// panics when the node count reaches `u32::MAX`, which `requires` excludes.
#[verifier::external_body]
pub(crate) fn add_node(g: &mut petgraph::graph::DiGraph<(), i64>) -> (i: usize)
    requires
        graph_node_count(*old(g)) < MAX_GRAPH_ITEMS,
    ensures
        i == graph_node_count(*old(g)),
        graph_node_count(*final(g)) == graph_node_count(*old(g)) + 1,
        graph_edges(*final(g)) == graph_edges(*old(g)),
{
    g.add_node(()).index()
}

/// Relies on petgraph's `Graph::add_edge`: the edge is appended to the edge
/// list; it panics on a node index out of bounds or when the edge count reaches
/// `u32::MAX`, which `requires` excludes.
#[verifier::external_body]
pub(crate) fn add_edge(g: &mut petgraph::graph::DiGraph<(), i64>, a: usize, b: usize, w: i64)
    requires
        a < graph_node_count(*old(g)),
        b < graph_node_count(*old(g)),
        graph_edges(*old(g)).len() < MAX_GRAPH_ITEMS,
    ensures
        graph_node_count(*final(g)) == graph_node_count(*old(g)),
        graph_edges(*final(g)) == graph_edges(*old(g)).push((a, b, w)),
{
    g.add_edge(petgraph::graph::NodeIndex::new(a), petgraph::graph::NodeIndex::new(b), w);
}

/// Relies on petgraph's `Graph::raw_edges`: the edge array in index order.
#[verifier::external_body]
pub(crate) fn edge_list(g: &petgraph::graph::DiGraph<(), i64>) -> (r: Vec<(usize, usize, i64)>)
    ensures
        r@ == graph_edges(*g),
{
    g.raw_edges().iter().map(|e| (e.source().index(), e.target().index(), e.weight)).collect()
}

/// Relies on petgraph's `algo::toposort`: on an acyclic graph, every node once,
/// each before its successors; on a graph with a cycle (a self loop included),
/// the `Cycle` error.
#[verifier::external_body]
pub(crate) fn toposort(g: &petgraph::graph::DiGraph<(), i64>) -> (r: Result<
    Vec<usize>,
    petgraph::algo::Cycle<petgraph::graph::NodeIndex>,
>)
    ensures
        r is Err <==> has_cycle(graph_edges(*g)),
        r is Ok ==> is_topological_order(graph_node_count(*g), graph_edges(*g), r->Ok_0@),
{
    petgraph::algo::toposort(g, None).map(|v| v.into_iter().map(|n| n.index()).collect())
}

/// Some edge runs from `a` to `b`.
pub open spec fn has_edge(edges: Seq<(usize, usize, i64)>, a: int, b: int) -> bool {
    exists|k: int| 0 <= k < edges.len() && edges[k].0 == a && edges[k].1 == b
}

/// `p` is a walk along edges: each node has an edge to the next.
pub open spec fn is_walk(edges: Seq<(usize, usize, i64)>, p: Seq<int>) -> bool {
    forall|j: int| 0 <= j < p.len() - 1 ==> #[trigger] has_edge(edges, p[j], p[j + 1])
}

/// Some walk of at least one edge comes back to where it started.
pub open spec fn has_cycle(edges: Seq<(usize, usize, i64)>) -> bool {
    exists|p: Seq<int>| p.len() >= 2 && p[0] == p.last() && #[trigger] is_walk(edges, p)
}

/// `o` lists each of the nodes `0..n` exactly once, and for every edge its source
/// before its target.
pub open spec fn is_topological_order(n: nat, edges: Seq<(usize, usize, i64)>, o: Seq<usize>) -> bool {
    &&& o.len() == n
    &&& o.no_duplicates()
    &&& forall|i: int| 0 <= i < o.len() ==> (o[i] as int) < n
    &&& forall|v: usize| (v as int) < n ==> o.contains(v)
    &&& forall|k: int, i: int, j: int|
        0 <= k < edges.len() && 0 <= i < o.len() && 0 <= j < o.len() && o[i] == edges[k].0
            && o[j] == edges[k].1 ==> i < j
}

/// Every edge joins two of the nodes `0..n`.
pub open spec fn edges_in_range(n: nat, edges: Seq<(usize, usize, i64)>) -> bool {
    forall|k: int| 0 <= k < edges.len() ==> (edges[k].0 as int) < n && (edges[k].1 as int) < n
}

/// The position of node `v` in `o`.
pub open spec fn position(o: Seq<usize>, v: int) -> int {
    choose|i: int| 0 <= i < o.len() && o[i] == v
}

/// Along a walk, positions in a topological order grow.
proof fn lemma_walk_ascends(n: nat, edges: Seq<(usize, usize, i64)>, o: Seq<usize>, p: Seq<int>, m: int)
    requires
        is_topological_order(n, edges, o),
        edges_in_range(n, edges),
        is_walk(edges, p),
        1 <= m < p.len(),
    ensures
        position(o, p[0]) < position(o, p[m]),
        0 <= position(o, p[m]) < o.len(),
        o[position(o, p[m])] == p[m],
    decreases m,
{
    let j = m - 1;
    let a = p[j];
    let b = p[j + 1];
    assert(has_edge(edges, a, b));
    let k = choose|k: int| 0 <= k < edges.len() && edges[k].0 == a && edges[k].1 == b;
    assert(o.contains(edges[k].0));
    assert(o.contains(edges[k].1));
    let ia = position(o, a);
    let ib = position(o, b);
    if m > 1 {
        lemma_walk_ascends(n, edges, o, p, m - 1);
    }
    assert(ia < ib);
}

/// A graph with a cycle has no topological order.
pub proof fn lemma_cycle_has_no_order(n: nat, edges: Seq<(usize, usize, i64)>, o: Seq<usize>)
    requires
        has_cycle(edges),
        edges_in_range(n, edges),
    ensures
        !is_topological_order(n, edges, o),
{
    if is_topological_order(n, edges, o) {
        let p = choose|p: Seq<int>| p.len() >= 2 && p[0] == p.last() && #[trigger] is_walk(edges, p);
        lemma_walk_ascends(n, edges, o, p, p.len() - 1);
    }
}

} // verus!
