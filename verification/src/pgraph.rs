//! The directed graphs of `petgraph` as this library uses them: the declared
//! outside types, names for what a graph holds, and the calls into the crate.
//!
//! A graph holds a sequence of node weights (a node's index is its position)
//! and a sequence of edges `(source, target, weight)` (an edge's index is its
//! position). Adding appends to both. The order in which `petgraph` walks a
//! node's neighbours is its own (it changes when an edge is removed), so the
//! contracts here state the neighbours of a node as a multiset and a
//! topological order only by the property that defines it.
use vstd::prelude::*;
use petgraph::graph::{DiGraph, NodeIndex};
use crate::graph::{EdgeData, NodeData};

verus! {

#[verifier::external_type_specification]
#[verifier::external_body]
#[verifier::reject_recursive_types(N)]
#[verifier::reject_recursive_types(E)]
#[verifier::reject_recursive_types(Ty)]
#[verifier::reject_recursive_types(Ix)]
pub struct ExGraph<N, E, Ty, Ix>(petgraph::graph::Graph<N, E, Ty, Ix>);

#[verifier::external_type_specification]
#[verifier::external_body]
pub struct ExDirected(petgraph::Directed);

#[verifier::external_type_specification]
#[verifier::external_body]
#[verifier::reject_recursive_types(Ix)]
pub struct ExNodeIndex<Ix>(petgraph::graph::NodeIndex<Ix>);

// ─── Graph model ────────────────────────────────────────────────────────────

/// The node weights of an IR graph, by node index.
pub uninterp spec fn ir_nodes(g: DiGraph<NodeData, EdgeData>) -> Seq<NodeData>;

/// The edges `(source, target, weight)` of an IR graph, by edge index.
pub uninterp spec fn ir_edges(g: DiGraph<NodeData, EdgeData>) -> Seq<(nat, nat, EdgeData)>;

/// Every edge joins two nodes of a graph with `n` nodes.
pub open spec fn edges_within<E>(n: nat, edges: Seq<(nat, nat, E)>) -> bool {
    forall|k: int| 0 <= k < edges.len() ==> (#[trigger] edges[k]).0 < n && edges[k].1 < n
}

/// What every IR graph satisfies: edges join existing nodes, and both counts
/// fit the 32-bit indices.
pub open spec fn ir_wf(g: DiGraph<NodeData, EdgeData>) -> bool {
    &&& ir_nodes(g).len() < u32::MAX
    &&& ir_edges(g).len() < u32::MAX
    &&& edges_within(ir_nodes(g).len(), ir_edges(g))
}

/// The neighbours of node `a` in the given direction (targets of its outgoing
/// edges, or sources of its incoming edges), one entry per edge, listed from
/// the last edge of the edge list back to the first.
pub open spec fn adjacent<E>(edges: Seq<(nat, nat, E)>, a: nat, outgoing: bool) -> Seq<nat>
    decreases edges.len(),
{
    if edges.len() == 0 {
        seq![]
    } else {
        let e = edges.last();
        let rest = adjacent(edges.drop_last(), a, outgoing);
        if outgoing && e.0 == a {
            seq![e.1] + rest
        } else if !outgoing && e.1 == a {
            seq![e.0] + rest
        } else {
            rest
        }
    }
}

/// `pos` places the `n` nodes at distinct positions `0..n` so that every edge
/// goes from a lower to a higher position.
pub open spec fn is_topo_positions<E>(n: nat, edges: Seq<(nat, nat, E)>, pos: Seq<nat>) -> bool {
    &&& pos.len() == n
    &&& forall|i: int| 0 <= i < n ==> #[trigger] pos[i] < n
    &&& forall|i: int, j: int| 0 <= i < n && 0 <= j < n && i != j ==> pos[i] != pos[j]
    &&& forall|k: int|
        0 <= k < edges.len() ==> pos[(#[trigger] edges[k]).0 as int] < pos[edges[k].1 as int]
}

/// The graph has no directed cycle (a self-loop is a cycle): some ordering
/// of its nodes sends every edge forward.
pub open spec fn acyclic<E>(n: nat, edges: Seq<(nat, nat, E)>) -> bool {
    exists|pos: Seq<nat>| is_topo_positions(n, edges, pos)
}

/// `order` lists each of the `n` nodes once, every node before its successors.
pub open spec fn is_topo_list<E>(n: nat, edges: Seq<(nat, nat, E)>, order: Seq<nat>) -> bool {
    &&& order.len() == n
    &&& forall|i: int| 0 <= i < n ==> #[trigger] order[i] < n
    &&& forall|i: int, j: int| 0 <= i < n && 0 <= j < n && i != j ==> order[i] != order[j]
    &&& forall|k: int, i: int, j: int|
        #![trigger edges[k], order[i], order[j]]
        0 <= k < edges.len() && 0 <= i < n && 0 <= j < n && order[i] == edges[k].0
            && order[j] == edges[k].1 ==> i < j
}

/// Each entry of an adjacency list comes from an edge, so it names a node.
pub proof fn adjacent_source<E>(edges: Seq<(nat, nat, E)>, x: nat, outgoing: bool, j: int) -> (k: int)
    requires
        0 <= j < adjacent(edges, x, outgoing).len(),
    ensures
        0 <= k < edges.len(),
        outgoing ==> edges[k].0 == x && edges[k].1 == adjacent(edges, x, outgoing)[j],
        !outgoing ==> edges[k].1 == x && edges[k].0 == adjacent(edges, x, outgoing)[j],
    decreases edges.len(),
{
    let e = edges.last();
    let rest = adjacent(edges.drop_last(), x, outgoing);
    if (outgoing && e.0 == x) || (!outgoing && e.1 == x) {
        if j == 0 {
            edges.len() - 1
        } else {
            assert(adjacent(edges, x, outgoing)[j] == rest[j - 1]);
            adjacent_source(edges.drop_last(), x, outgoing, j - 1)
        }
    } else {
        adjacent_source(edges.drop_last(), x, outgoing, j)
    }
}

/// `r` lists the neighbours of node `a` in the given direction, one entry per
/// edge, in some order.
pub open spec fn lists_adjacent<E>(r: Seq<nat>, edges: Seq<(nat, nat, E)>, a: nat, outgoing: bool) -> bool {
    r.to_multiset() == adjacent(edges, a, outgoing).to_multiset()
}

/// A neighbour list is as long as the adjacency list, and each of its
/// entries comes from an edge, so it names a node.
pub proof fn lists_adjacent_source<E>(r: Seq<nat>, edges: Seq<(nat, nat, E)>, x: nat, outgoing: bool, j: int) -> (k: int)
    requires
        lists_adjacent(r, edges, x, outgoing),
        0 <= j < r.len(),
    ensures
        r.len() == adjacent(edges, x, outgoing).len(),
        0 <= k < edges.len(),
        outgoing ==> edges[k].0 == x && edges[k].1 == r[j],
        !outgoing ==> edges[k].1 == x && edges[k].0 == r[j],
{
    let adj = adjacent(edges, x, outgoing);
    r.to_multiset_ensures();
    adj.to_multiset_ensures();
    assert(r.contains(r[j]));
    assert(r.to_multiset().count(r[j]) > 0);
    assert(adj.to_multiset().count(r[j]) > 0);
    assert(adj.contains(r[j]));
    let i = choose|i: int| 0 <= i < adj.len() && adj[i] == r[j];
    adjacent_source(edges, x, outgoing, i)
}

/// A neighbour list is as long as the adjacency list.
pub proof fn lists_adjacent_len<E>(r: Seq<nat>, edges: Seq<(nat, nat, E)>, x: nat, outgoing: bool)
    requires
        lists_adjacent(r, edges, x, outgoing),
    ensures
        r.len() == adjacent(edges, x, outgoing).len(),
{
    r.to_multiset_ensures();
    adjacent(edges, x, outgoing).to_multiset_ensures();
}

// ─── IR graph calls ─────────────────────────────────────────────────────────

/// `DiGraph::new`: an empty graph.
#[verifier::external_body]
pub(crate) fn ir_new() -> (g: DiGraph<NodeData, EdgeData>)
    ensures
        ir_nodes(g) == Seq::<NodeData>::empty(),
        ir_edges(g) == Seq::<(nat, nat, EdgeData)>::empty(),
{
    DiGraph::new()
}

/// `Graph::add_node`: appends a node and returns its index (the old node
/// count). It panics at the 32-bit index limit, which `requires` rules out.
#[verifier::external_body]
pub(crate) fn ir_add_node(g: &mut DiGraph<NodeData, EdgeData>, w: NodeData) -> (i: usize)
    requires
        ir_nodes(*old(g)).len() + 1 < u32::MAX,
    ensures
        ir_nodes(*final(g)) == ir_nodes(*old(g)).push(w),
        ir_edges(*final(g)) == ir_edges(*old(g)),
        i == ir_nodes(*old(g)).len(),
{
    g.add_node(w).index()
}

/// `Graph::add_edge`: appends the edge `a → b`. It panics when an endpoint is
/// not a node or at the 32-bit index limit, which `requires` rules out.
#[verifier::external_body]
pub(crate) fn ir_add_edge(g: &mut DiGraph<NodeData, EdgeData>, a: usize, b: usize, w: EdgeData)
    requires
        a < ir_nodes(*old(g)).len(),
        b < ir_nodes(*old(g)).len(),
        ir_nodes(*old(g)).len() < u32::MAX,
        ir_edges(*old(g)).len() + 1 < u32::MAX,
    ensures
        ir_nodes(*final(g)) == ir_nodes(*old(g)),
        ir_edges(*final(g)) == ir_edges(*old(g)).push((a as nat, b as nat, w)),
{
    g.add_edge(NodeIndex::new(a), NodeIndex::new(b), w);
}

/// `Graph::node_count`.
#[verifier::external_body]
pub(crate) fn ir_node_count(g: &DiGraph<NodeData, EdgeData>) -> (n: usize)
    ensures
        n == ir_nodes(*g).len(),
{
    g.node_count()
}

/// `Graph::edge_count`.
#[verifier::external_body]
pub(crate) fn ir_edge_count(g: &DiGraph<NodeData, EdgeData>) -> (n: usize)
    ensures
        n == ir_edges(*g).len(),
{
    g.edge_count()
}

/// `graph[NodeIndex]`: the weight of node `i` (it panics for a missing node,
/// which `requires` rules out).
#[verifier::external_body]
pub(crate) fn ir_node(g: &DiGraph<NodeData, EdgeData>, i: usize) -> (w: &NodeData)
    requires
        i < ir_nodes(*g).len(),
        ir_nodes(*g).len() < u32::MAX,
    ensures
        *w == ir_nodes(*g)[i as int],
{
    &g[NodeIndex::new(i)]
}

/// `graph[EdgeIndex]`: the weight of edge `e` (it panics for a missing edge,
/// which `requires` rules out).
#[verifier::external_body]
pub(crate) fn ir_edge_weight(g: &DiGraph<NodeData, EdgeData>, e: usize) -> (w: &EdgeData)
    requires
        e < ir_edges(*g).len(),
        ir_edges(*g).len() < u32::MAX,
    ensures
        *w == ir_edges(*g)[e as int].2,
{
    &g[petgraph::graph::EdgeIndex::new(e)]
}

/// `Graph::edge_endpoints`: the source and target of edge `e`, or `None` when
/// there is no such edge. `EdgeIndex::new` truncates to 32 bits, so `e` is
/// held below that limit.
#[verifier::external_body]
pub(crate) fn ir_edge_endpoints(g: &DiGraph<NodeData, EdgeData>, e: usize) -> (r: Option<(usize, usize)>)
    requires
        ir_edges(*g).len() < u32::MAX,
        e < u32::MAX,
    ensures
        e < ir_edges(*g).len() ==> r == Some(
            (ir_edges(*g)[e as int].0 as usize, ir_edges(*g)[e as int].1 as usize),
        ),
        e >= ir_edges(*g).len() ==> r is None,
{
    g.edge_endpoints(petgraph::graph::EdgeIndex::new(e)).map(|(a, b)| (a.index(), b.index()))
}

/// `Graph::neighbors_directed`: for a directed graph, the neighbours of node
/// `i` in the given direction, one entry per edge. The order is that of the
/// node's edge list inside `petgraph`, which this contract leaves unsaid.
#[verifier::external_body]
pub(crate) fn ir_neighbors(g: &DiGraph<NodeData, EdgeData>, i: usize, outgoing: bool) -> (r: Vec<usize>)
    requires
        i < ir_nodes(*g).len(),
        ir_nodes(*g).len() < u32::MAX,
    ensures
        lists_adjacent(r@.map_values(|x: usize| x as nat), ir_edges(*g), i as nat, outgoing),
{
    let dir = if outgoing { petgraph::Direction::Outgoing } else { petgraph::Direction::Incoming };
    g.neighbors_directed(NodeIndex::new(i), dir).map(|x| x.index()).collect()
}

/// `petgraph::algo::is_cyclic_directed`: whether the graph has a directed
/// cycle.
#[verifier::external_body]
pub(crate) fn ir_is_cyclic(g: &DiGraph<NodeData, EdgeData>) -> (r: bool)
    ensures
        r == !acyclic(ir_nodes(*g).len(), ir_edges(*g)),
{
    petgraph::algo::is_cyclic_directed(g)
}

/// `petgraph::algo::toposort` (without a workspace): when the graph is
/// acyclic, a topological order of all its nodes; `None` (its `Cycle` error)
/// otherwise. Which topological order comes back depends on the order of the
/// node edge lists inside `petgraph`, and this contract leaves it unsaid.
#[verifier::external_body]
pub(crate) fn ir_toposort(g: &DiGraph<NodeData, EdgeData>) -> (r: Option<Vec<usize>>)
    ensures
        r is Some <==> acyclic(ir_nodes(*g).len(), ir_edges(*g)),
        r matches Some(v) ==> is_topo_list(
            ir_nodes(*g).len(),
            ir_edges(*g),
            v@.map_values(|x: usize| x as nat),
        ),
{
    match petgraph::algo::toposort(g, None) {
        Ok(v) => Some(v.into_iter().map(|x| x.index()).collect()),
        Err(_) => None,
    }
}

} // verus!
