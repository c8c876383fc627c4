//! A directed graph keyed by node id, with shapes and edge types kept as
//! text: the graph that the layout phases build and query by id.
use vstd::prelude::*;
use petgraph::graph::{DiGraph, NodeIndex};
use crate::pgraph::{acyclic, edges_within, is_topo_list};
use crate::text::{chars_le, sort_strings, sorted_strings, str_eq};

verus! {

/// Data stored for each node.
#[derive(Debug)]
pub struct KNode {
    pub id: String,
    pub label: String,
    /// Shape name, such as `"Rectangle"`.
    pub shape: String,
    pub subgraph: Option<String>,
}

impl Clone for KNode {
    fn clone(&self) -> (r: Self)
        ensures
            r == *self,
    {
        KNode {
            id: self.id.clone(),
            label: self.label.clone(),
            shape: self.shape.clone(),
            subgraph: match &self.subgraph {
                Some(s) => Some(s.clone()),
                None => None,
            },
        }
    }
}

/// Data stored for each edge.
#[derive(Debug)]
pub struct KEdge {
    /// Edge type name, such as `"Arrow"`.
    pub edge_type: String,
    pub label: Option<String>,
}

impl Clone for KEdge {
    fn clone(&self) -> (r: Self)
        ensures
            r == *self,
    {
        KEdge {
            edge_type: self.edge_type.clone(),
            label: match &self.label {
                Some(s) => Some(s.clone()),
                None => None,
            },
        }
    }
}

// ─── The petgraph calls ─────────────────────────────────────────────────────

/// The node weights of a keyed graph's digraph, by node index.
pub uninterp spec fn kg_nodes(g: DiGraph<KNode, KEdge>) -> Seq<KNode>;

/// The edges `(source, target, weight)` of a keyed graph's digraph, by edge
/// index.
pub uninterp spec fn kg_edges(g: DiGraph<KNode, KEdge>) -> Seq<(nat, nat, KEdge)>;

/// `DiGraph::new`: an empty graph.
#[verifier::external_body]
fn kg_new() -> (g: DiGraph<KNode, KEdge>)
    ensures
        kg_nodes(g) == Seq::<KNode>::empty(),
        kg_edges(g) == Seq::<(nat, nat, KEdge)>::empty(),
{
    DiGraph::new()
}

/// `Graph::add_node`: appends a node and returns its index (it panics at the
/// 32-bit index limit, which `requires` rules out).
#[verifier::external_body]
fn kg_add_node(g: &mut DiGraph<KNode, KEdge>, w: KNode) -> (i: usize)
    requires
        kg_nodes(*old(g)).len() + 1 < u32::MAX,
    ensures
        kg_nodes(*final(g)) == kg_nodes(*old(g)).push(w),
        kg_edges(*final(g)) == kg_edges(*old(g)),
        i == kg_nodes(*old(g)).len(),
{
    g.add_node(w).index()
}

/// `Graph::add_edge`: appends the edge `a → b` (it panics for a missing
/// endpoint or at the 32-bit index limit, which `requires` rules out).
#[verifier::external_body]
fn kg_add_edge(g: &mut DiGraph<KNode, KEdge>, a: usize, b: usize, w: KEdge)
    requires
        a < kg_nodes(*old(g)).len(),
        b < kg_nodes(*old(g)).len(),
        kg_nodes(*old(g)).len() < u32::MAX,
        kg_edges(*old(g)).len() + 1 < u32::MAX,
    ensures
        kg_nodes(*final(g)) == kg_nodes(*old(g)),
        kg_edges(*final(g)) == kg_edges(*old(g)).push((a as nat, b as nat, w)),
{
    g.add_edge(NodeIndex::new(a), NodeIndex::new(b), w);
}

/// `Graph::node_count`.
#[verifier::external_body]
fn kg_node_count(g: &DiGraph<KNode, KEdge>) -> (n: usize)
    ensures
        n == kg_nodes(*g).len(),
{
    g.node_count()
}

/// `Graph::edge_count`.
#[verifier::external_body]
fn kg_edge_count(g: &DiGraph<KNode, KEdge>) -> (n: usize)
    ensures
        n == kg_edges(*g).len(),
{
    g.edge_count()
}

/// `graph[NodeIndex]`: the weight of node `i` (it panics for a missing node,
/// which `requires` rules out).
#[verifier::external_body]
fn kg_node(g: &DiGraph<KNode, KEdge>, i: usize) -> (w: &KNode)
    requires
        i < kg_nodes(*g).len(),
        kg_nodes(*g).len() < u32::MAX,
    ensures
        *w == kg_nodes(*g)[i as int],
{
    &g[NodeIndex::new(i)]
}

/// `graph[EdgeIndex]`: the weight of edge `e` (it panics for a missing edge,
/// which `requires` rules out).
#[verifier::external_body]
fn kg_edge_weight(g: &DiGraph<KNode, KEdge>, e: usize) -> (w: &KEdge)
    requires
        e < kg_edges(*g).len(),
        kg_edges(*g).len() < u32::MAX,
    ensures
        *w == kg_edges(*g)[e as int].2,
{
    &g[petgraph::graph::EdgeIndex::new(e)]
}

/// `Graph::edge_endpoints`: the source and target of edge `e`, or `None` when
/// there is no such edge. `EdgeIndex::new` truncates to 32 bits, so `e` is
/// held below that limit.
#[verifier::external_body]
fn kg_edge_endpoints(g: &DiGraph<KNode, KEdge>, e: usize) -> (r: Option<(usize, usize)>)
    requires
        kg_edges(*g).len() < u32::MAX,
        e < u32::MAX,
    ensures
        e < kg_edges(*g).len() ==> r == Some(
            (kg_edges(*g)[e as int].0 as usize, kg_edges(*g)[e as int].1 as usize),
        ),
        e >= kg_edges(*g).len() ==> r is None,
{
    g.edge_endpoints(petgraph::graph::EdgeIndex::new(e)).map(|(a, b)| (a.index(), b.index()))
}

/// `petgraph::algo::is_cyclic_directed`: whether the graph has a directed
/// cycle.
#[verifier::external_body]
fn kg_is_cyclic(g: &DiGraph<KNode, KEdge>) -> (r: bool)
    ensures
        r == !acyclic(kg_nodes(*g).len(), kg_edges(*g)),
{
    petgraph::algo::is_cyclic_directed(g)
}

/// `petgraph::algo::toposort` (without a workspace): when the graph is
/// acyclic, a topological order of all its nodes; `None` (its `Cycle` error)
/// otherwise. Which topological order comes back depends on the order of the
/// node edge lists inside `petgraph`, and this contract leaves it unsaid.
#[verifier::external_body]
fn kg_toposort(g: &DiGraph<KNode, KEdge>) -> (r: Option<Vec<usize>>)
    ensures
        r is Some <==> acyclic(kg_nodes(*g).len(), kg_edges(*g)),
        r matches Some(v) ==> is_topo_list(
            kg_nodes(*g).len(),
            kg_edges(*g),
            v@.map_values(|x: usize| x as nat),
        ),
{
    match petgraph::algo::toposort(g, None) {
        Ok(v) => Some(v.into_iter().map(|x| x.index()).collect()),
        Err(_) => None,
    }
}

// ─── The keyed graph ────────────────────────────────────────────────────────

/// A directed graph whose nodes are found by id.
pub struct KeyedGraph {
    pub digraph: DiGraph<KNode, KEdge>,
    /// Entry `i` is the id of node `i` and `i`.
    pub node_index: Vec<(String, usize)>,
}

/// The node with id `id`, if any.
pub open spec fn kg_index_of(nodes: Seq<KNode>, id: Seq<char>) -> Option<nat> {
    if exists|i: int| 0 <= i < nodes.len() && nodes[i].id@ == id {
        Some((choose|i: int| 0 <= i < nodes.len() && nodes[i].id@ == id) as nat)
    } else {
        None
    }
}

/// The far ends of the edges at node `i`, in edge order: targets of its
/// outgoing edges, or sources of its incoming edges.
pub open spec fn edge_ends(edges: Seq<(nat, nat, KEdge)>, i: nat, outgoing: bool) -> Seq<nat>
    decreases edges.len(),
{
    if edges.len() == 0 {
        seq![]
    } else {
        let e = edges.last();
        edge_ends(edges.drop_last(), i, outgoing) + (if outgoing && e.0 == i {
            seq![e.1]
        } else if !outgoing && e.1 == i {
            seq![e.0]
        } else {
            seq![]
        })
    }
}

/// The ids of the neighbours of the node with id `id` (none for an unknown
/// id), in edge order.
pub open spec fn neighbour_ids(nodes: Seq<KNode>, edges: Seq<(nat, nat, KEdge)>, id: Seq<char>, outgoing: bool) -> Seq<
    Seq<char>,
> {
    match kg_index_of(nodes, id) {
        Some(i) => edge_ends(edges, i, outgoing).map_values(|j: nat| nodes[j as int].id@),
        None => seq![],
    }
}

/// The text of an optional string.
pub open spec fn opt_text(o: Option<String>) -> Option<Seq<char>> {
    match o {
        Some(s) => Some(s@),
        None => None,
    }
}

/// The text of an optional string slice.
pub open spec fn opt_str_text(o: Option<&str>) -> Option<Seq<char>> {
    match o {
        Some(s) => Some(s@),
        None => None,
    }
}

/// Node data with the given fields.
pub open spec fn knode_is(d: KNode, id: Seq<char>, label: Seq<char>, shape: Seq<char>, subgraph: Option<Seq<char>>) -> bool {
    &&& d.id@ == id
    &&& d.label@ == label
    &&& d.shape@ == shape
    &&& opt_text(d.subgraph) == subgraph
}

/// The nodes after adding one node.
pub open spec fn one_more<T>(before: Seq<T>, after: Seq<T>) -> bool {
    after.len() == before.len() + 1 && after.drop_last() == before
}

impl KeyedGraph {
    pub open spec fn nodes(self) -> Seq<KNode> {
        kg_nodes(self.digraph)
    }

    pub open spec fn edges(self) -> Seq<(nat, nat, KEdge)> {
        kg_edges(self.digraph)
    }

    /// Well-formedness: edges join nodes, counts fit the 32-bit indices, and
    /// node ids are distinct and listed in `node_index`.
    pub open spec fn wf(self) -> bool {
        &&& self.nodes().len() < u32::MAX
        &&& self.edges().len() < u32::MAX
        &&& edges_within(self.nodes().len(), self.edges())
        &&& self.node_index@.len() == self.nodes().len()
        &&& forall|i: int|
            0 <= i < self.node_index@.len() ==> (#[trigger] self.node_index@[i]).1 == i
                && self.node_index@[i].0@ == self.nodes()[i].id@
        &&& forall|i: int, j: int|
            0 <= i < self.nodes().len() && 0 <= j < self.nodes().len() && i != j ==> self.nodes()[i].id@
                != self.nodes()[j].id@
    }
}

/// An empty graph.
pub fn graph_new() -> (g: KeyedGraph)
    ensures
        g.wf(),
        g.nodes().len() == 0,
        g.edges().len() == 0,
{
    KeyedGraph { digraph: kg_new(), node_index: Vec::new() }
}

/// The index of the node with id `id`, if any.
pub fn graph_node_index(g: &KeyedGraph, id: &str) -> (r: Option<usize>)
    requires
        g.wf(),
    ensures
        r is None <==> kg_index_of(g.nodes(), id@) is None,
        r matches Some(i) ==> kg_index_of(g.nodes(), id@) == Some(i as nat) && i < g.nodes().len()
            && g.nodes()[i as int].id@ == id@,
{
    let mut i: usize = 0;
    while i < g.node_index.len()
        invariant
            g.wf(),
            i <= g.node_index@.len(),
            forall|j: int| 0 <= j < i ==> g.nodes()[j].id@ != id@,
        decreases g.node_index@.len() - i,
    {
        if str_eq(g.node_index[i].0.as_str(), id) {
            proof {
                assert(g.nodes()[i as int].id@ == id@);
                let c = choose|j: int| 0 <= j < g.nodes().len() && g.nodes()[j].id@ == id@;
                assert(c == i);
            }
            return Some(g.node_index[i].1);
        }
        i = i + 1;
    }
    None
}

/// Appends a node (the id must be new).
fn push_node(g: &mut KeyedGraph, data: KNode) -> (i: usize)
    requires
        old(g).wf(),
        old(g).nodes().len() + 1 < u32::MAX,
        kg_index_of(old(g).nodes(), data.id@) is None,
    ensures
        final(g).wf(),
        final(g).nodes() == old(g).nodes().push(data),
        final(g).edges() == old(g).edges(),
        i == old(g).nodes().len(),
{
    let id = data.id.clone();
    let i = kg_add_node(&mut g.digraph, data);
    g.node_index.push((id, i));
    proof {
        let n0 = old(g).nodes();
        assert forall|a: int, b: int|
            0 <= a < g.nodes().len() && 0 <= b < g.nodes().len() && a != b implies g.nodes()[a].id@
            != g.nodes()[b].id@ by {
            if a < n0.len() && b < n0.len() {
                assert(g.nodes()[a] == n0[a] && g.nodes()[b] == n0[b]);
            } else if a < n0.len() {
                assert(g.nodes()[a] == n0[a]);
            } else {
                assert(g.nodes()[b] == n0[b]);
            }
        }
        assert forall|a: int| 0 <= a < g.node_index@.len() implies (#[trigger] g.node_index@[a]).1 == a
            && g.node_index@[a].0@ == g.nodes()[a].id@ by {
            if a < n0.len() {
                assert(g.node_index@[a] == old(g).node_index@[a]);
                assert(g.nodes()[a] == n0[a]);
            }
        }
        assert forall|k: int| 0 <= k < g.edges().len() implies (#[trigger] g.edges()[k]).0 < g.nodes().len()
            && g.edges()[k].1 < g.nodes().len() by {
            assert(g.edges()[k] == old(g).edges()[k]);
        }
    }
    i
}

/// Adds a node unless one with the same id exists (the first one stays).
pub fn graph_add_node(g: &mut KeyedGraph, id: &str, label: &str, shape: &str, subgraph: Option<&str>)
    requires
        old(g).wf(),
        old(g).nodes().len() + 1 < u32::MAX,
    ensures
        final(g).wf(),
        final(g).edges() == old(g).edges(),
        kg_index_of(old(g).nodes(), id@) is Some ==> final(g).nodes() == old(g).nodes(),
        kg_index_of(old(g).nodes(), id@) is None ==> one_more(old(g).nodes(), final(g).nodes()) && knode_is(
            final(g).nodes().last(),
            id@,
            label@,
            shape@,
            opt_str_text(subgraph),
        ),
{
    if graph_node_index(g, id).is_none() {
        let data = KNode {
            id: id.to_string(),
            label: label.to_string(),
            shape: shape.to_string(),
            subgraph: match subgraph {
                Some(s) => Some(s.to_string()),
                None => None,
            },
        };
        push_node(g, data);
        proof {
            assert(g.nodes().drop_last() =~= old(g).nodes());
        }
    }
}

/// Makes sure a node with id `id` exists, adding a placeholder (labelled by
/// its id, a rectangle, in no subgraph) when it does not. Returns its index.
pub fn graph_ensure_node(g: &mut KeyedGraph, id: &str) -> (i: usize)
    requires
        old(g).wf(),
        old(g).nodes().len() + 1 < u32::MAX,
    ensures
        final(g).wf(),
        final(g).edges() == old(g).edges(),
        kg_index_of(old(g).nodes(), id@) matches Some(j) ==> final(g).nodes() == old(g).nodes() && i == j,
        kg_index_of(old(g).nodes(), id@) is None ==> one_more(old(g).nodes(), final(g).nodes()) && knode_is(
            final(g).nodes().last(),
            id@,
            id@,
            "Rectangle"@,
            None,
        ) && i == old(g).nodes().len(),
        i < final(g).nodes().len(),
        final(g).nodes()[i as int].id@ == id@,
{
    match graph_node_index(g, id) {
        Some(i) => i,
        None => {
            let data = KNode {
                id: id.to_string(),
                label: id.to_string(),
                shape: "Rectangle".to_string(),
                subgraph: None,
            };
            proof {
                reveal_strlit("Rectangle");
            }
            let i = push_node(g, data);
            proof {
                assert(g.nodes().drop_last() =~= old(g).nodes());
            }
            i
        },
    }
}

/// The nodes after adding the edge `from → to`: the old nodes, then a
/// placeholder for `from` (labelled by its id, a rectangle, in no subgraph)
/// when it had no node, then one for `to` when it had none and differs from
/// `from`, and nothing else.
pub open spec fn edge_nodes_added(before: Seq<KNode>, after: Seq<KNode>, from: Seq<char>, to: Seq<char>) -> bool {
    let add_from = kg_index_of(before, from) is None;
    let add_to = kg_index_of(before, to) is None && to != from;
    &&& before.is_prefix_of(after)
    &&& after.len() == before.len() + (if add_from {
        1nat
    } else {
        0nat
    }) + (if add_to {
        1nat
    } else {
        0nat
    })
    &&& add_from ==> knode_is(after[before.len() as int], from, from, "Rectangle"@, None)
    &&& add_to ==> knode_is(after[after.len() - 1], to, to, "Rectangle"@, None)
}

/// Adds the edge `from → to`, creating placeholder nodes for unknown ids.
pub fn graph_add_edge(g: &mut KeyedGraph, from: &str, to: &str, etype: &str, label: Option<&str>)
    requires
        old(g).wf(),
        old(g).nodes().len() + 2 < u32::MAX,
        old(g).edges().len() + 1 < u32::MAX,
    ensures
        final(g).wf(),
        kg_index_of(final(g).nodes(), from@) matches Some(a) && kg_index_of(final(g).nodes(), to@) matches Some(b)
            && one_more(old(g).edges(), final(g).edges()) && final(g).edges().last().0 == a
            && final(g).edges().last().1 == b && final(g).edges().last().2.edge_type@ == etype@ && opt_text(
            final(g).edges().last().2.label,
        ) == opt_str_text(label),
        edge_nodes_added(old(g).nodes(), final(g).nodes(), from@, to@),
{
    let ghost n0 = g.nodes();
    let a = graph_ensure_node(g, from);
    let ghost n1 = g.nodes();
    proof {
        if let Some(j) = kg_index_of(n0, to@) {
            assert(n1[j as int] == n0[j as int]);
            assert(kg_index_of(n1, to@) is Some);
        } else if to@ == from@ {
            assert(n1[a as int].id@ == to@);
            assert(kg_index_of(n1, to@) is Some);
        } else {
            assert forall|i: int| 0 <= i < n1.len() implies n1[i].id@ != to@ by {
                if i < n0.len() {
                    assert(n1[i] == n0[i]);
                }
            }
            assert(kg_index_of(n1, to@) is None);
        }
    }
    let b = graph_ensure_node(g, to);
    let ghost n2 = g.nodes();
    proof {
        if kg_index_of(n0, from@) is None {
            assert(n2[n0.len() as int] == n1[n0.len() as int]);
        }
        assert(n0.is_prefix_of(n2));
    }
    let data = KEdge {
        edge_type: etype.to_string(),
        label: match label {
            Some(s) => Some(s.to_string()),
            None => None,
        },
    };
    proof {
        assert(g.nodes()[a as int] == n1[a as int]);
        let c = choose|i: int| 0 <= i < g.nodes().len() && g.nodes()[i].id@ == from@;
        assert(c == a);
        let d = choose|i: int| 0 <= i < g.nodes().len() && g.nodes()[i].id@ == to@;
        assert(d == b);
    }
    kg_add_edge(&mut g.digraph, a, b, data);
    proof {
        assert forall|k: int| 0 <= k < g.edges().len() implies (#[trigger] g.edges()[k]).0 < g.nodes().len()
            && g.edges()[k].1 < g.nodes().len() by {
            if k < g.edges().len() - 1 {
                assert(g.edges()[k] == old(g).edges()[k]);
            }
        }
        assert(n0.is_prefix_of(g.nodes()));
        assert(g.edges().drop_last() =~= old(g).edges());
    }
}

/// The number of nodes.
pub fn graph_node_count(g: &KeyedGraph) -> (n: usize)
    ensures
        n == g.nodes().len(),
{
    kg_node_count(&g.digraph)
}

/// The number of edges.
pub fn graph_edge_count(g: &KeyedGraph) -> (n: usize)
    ensures
        n == g.edges().len(),
{
    kg_edge_count(&g.digraph)
}

/// Whether the graph has no directed cycle.
pub fn graph_is_dag(g: &KeyedGraph) -> (r: bool)
    ensures
        r == acyclic(g.nodes().len(), g.edges()),
{
    !kg_is_cyclic(&g.digraph)
}

/// The ids of the nodes at the given indices, in the same order.
pub fn graph_ids_in_order(g: &KeyedGraph, order: &Vec<usize>) -> (ids: Vec<String>)
    requires
        g.wf(),
        forall|j: int| 0 <= j < order@.len() ==> #[trigger] order@[j] < g.nodes().len(),
    ensures
        ids@.len() == order@.len(),
        forall|j: int| 0 <= j < order@.len() ==> (#[trigger] ids@[j])@ == g.nodes()[order@[j] as int].id@,
{
    let mut ids: Vec<String> = Vec::new();
    let mut i: usize = 0;
    while i < order.len()
        invariant
            g.wf(),
            forall|j: int| 0 <= j < order@.len() ==> #[trigger] order@[j] < g.nodes().len(),
            i <= order@.len(),
            ids@.len() == i,
            forall|j: int| 0 <= j < i ==> (#[trigger] ids@[j])@ == g.nodes()[order@[j] as int].id@,
        decreases order@.len() - i,
    {
        let id = kg_node(&g.digraph, order[i]).id.clone();
        ids.push(id);
        i = i + 1;
    }
    ids
}

/// The node ids in a topological order (the one petgraph's `toposort`
/// gives), or `None` when the graph has a cycle.
pub fn graph_topo_sort(g: &KeyedGraph) -> (r: Option<Vec<String>>)
    requires
        g.wf(),
    ensures
        r is Some <==> acyclic(g.nodes().len(), g.edges()),
        r matches Some(ids) ==> exists|order: Seq<nat>|
            {
                &&& #[trigger] is_topo_list(g.nodes().len(), g.edges(), order)
                &&& ids@.len() == order.len()
                &&& forall|i: int| 0 <= i < order.len() ==> (#[trigger] ids@[i])@ == g.nodes()[order[i] as int].id@
            },
{
    match kg_toposort(&g.digraph) {
        Some(idx) => {
            let ghost order = idx@.map_values(|x: usize| x as nat);
            proof {
                assert forall|j: int| 0 <= j < idx@.len() implies #[trigger] idx@[j] < g.nodes().len() by {
                    assert(order[j] == idx@[j] as nat);
                }
            }
            let ids = graph_ids_in_order(g, &idx);
            proof {
                assert forall|i: int| 0 <= i < order.len() implies (#[trigger] ids@[i])@ == g.nodes()[order[i] as int].id@ by {
                    assert(order[i] == idx@[i] as nat);
                }
                assert(is_topo_list(g.nodes().len(), g.edges(), order));
            }
            Some(ids)
        },
        None => None,
    }
}

/// All node ids, sorted.
pub fn graph_nodes(g: &KeyedGraph) -> (r: Vec<String>)
    requires
        g.wf(),
    ensures
        sorted_strings(r@),
        r@.to_multiset() == g.nodes().map_values(|d: KNode| d.id).to_multiset(),
{
    let n = kg_node_count(&g.digraph);
    let mut ids: Vec<String> = Vec::new();
    let mut i: usize = 0;
    while i < n
        invariant
            g.wf(),
            n == g.nodes().len(),
            i <= n,
            ids@ == g.nodes().map_values(|d: KNode| d.id).take(i as int),
        decreases n - i,
    {
        let id = kg_node(&g.digraph, i).id.clone();
        ids.push(id);
        proof {
            assert(g.nodes().map_values(|d: KNode| d.id).take(i + 1) =~= g.nodes().map_values(|d: KNode| d.id).take(
                i as int,
            ).push(g.nodes()[i as int].id));
        }
        i = i + 1;
    }
    proof {
        assert(g.nodes().map_values(|d: KNode| d.id).take(n as int) =~= g.nodes().map_values(|d: KNode| d.id));
    }
    sort_strings(ids)
}

/// The ids of the neighbours of node `id` in edge order: the targets of its
/// outgoing edges (`outgoing`), or the sources of its incoming edges.
fn neighbours(g: &KeyedGraph, id: &str, outgoing: bool) -> (r: Vec<String>)
    requires
        g.wf(),
    ensures
        r@.map_values(|s: String| s@) == neighbour_ids(g.nodes(), g.edges(), id@, outgoing),
{
    match graph_node_index(g, id) {
        None => {
            let r: Vec<String> = Vec::new();
            assert(r@.map_values(|s: String| s@) =~= Seq::<Seq<char>>::empty());
            r
        },
        Some(i) => {
            let m = kg_edge_count(&g.digraph);
            let mut r: Vec<String> = Vec::new();
            let mut k: usize = 0;
            while k < m
                invariant
                    g.wf(),
                    i < g.nodes().len(),
                    m == g.edges().len(),
                    k <= m,
                    r@.map_values(|s: String| s@) == edge_ends(g.edges().take(k as int), i as nat, outgoing).map_values(
                        |j: nat| g.nodes()[j as int].id@,
                    ),
                decreases m - k,
            {
                let ends = kg_edge_endpoints(&g.digraph, k);
                let (a, b) = match ends {
                    Some(p) => p,
                    None => (0, 0),
                };
                let ghost t0 = g.edges().take(k as int);
                let ghost t1 = g.edges().take(k + 1);
                let ghost r0 = r@;
                proof {
                    assert(t1.drop_last() =~= t0);
                    assert(t1.last() == g.edges()[k as int]);
                    assert(g.edges()[k as int].0 < g.nodes().len() && g.edges()[k as int].1 < g.nodes().len());
                    assert(a as nat == g.edges()[k as int].0 && b as nat == g.edges()[k as int].1);
                    let e = g.edges()[k as int];
                    assert(edge_ends(t1, i as nat, outgoing) == edge_ends(t0, i as nat, outgoing) + (if outgoing
                        && e.0 == i {
                        seq![e.1]
                    } else if !outgoing && e.1 == i {
                        seq![e.0]
                    } else {
                        seq![]
                    }));
                }
                let ghost e0 = edge_ends(t0, i as nat, outgoing);
                let ghost e1 = edge_ends(t1, i as nat, outgoing);
                if outgoing && a == i {
                    let nm = kg_node(&g.digraph, b).id.clone();
                    r.push(nm);
                    proof {
                        assert(e1 =~= e0.push(b as nat));
                        assert(r@.map_values(|s: String| s@) =~= r0.map_values(|s: String| s@).push(nm@));
                        assert(e1.map_values(|j: nat| g.nodes()[j as int].id@) =~= e0.map_values(
                            |j: nat| g.nodes()[j as int].id@,
                        ).push(nm@));
                    }
                } else if !outgoing && b == i {
                    let nm = kg_node(&g.digraph, a).id.clone();
                    r.push(nm);
                    proof {
                        assert(e1 =~= e0.push(a as nat));
                        assert(r@.map_values(|s: String| s@) =~= r0.map_values(|s: String| s@).push(nm@));
                        assert(e1.map_values(|j: nat| g.nodes()[j as int].id@) =~= e0.map_values(
                            |j: nat| g.nodes()[j as int].id@,
                        ).push(nm@));
                    }
                } else {
                    proof {
                        assert(e1 =~= e0);
                    }
                }
                k = k + 1;
            }
            proof {
                assert(g.edges().take(m as int) =~= g.edges());
            }
            r
        },
    }
}

/// The ids of the targets of the edges out of node `id`, in edge order
/// (none for an unknown id).
pub fn graph_successors(g: &KeyedGraph, id: &str) -> (r: Vec<String>)
    requires
        g.wf(),
    ensures
        r@.map_values(|s: String| s@) == neighbour_ids(g.nodes(), g.edges(), id@, true),
{
    neighbours(g, id, true)
}

/// The ids of the sources of the edges into node `id`, in edge order (none
/// for an unknown id).
pub fn graph_predecessors(g: &KeyedGraph, id: &str) -> (r: Vec<String>)
    requires
        g.wf(),
    ensures
        r@.map_values(|s: String| s@) == neighbour_ids(g.nodes(), g.edges(), id@, false),
{
    neighbours(g, id, false)
}

/// The number of edges out of node `id` (0 for an unknown id).
pub fn graph_out_degree(g: &KeyedGraph, id: &str) -> (d: usize)
    requires
        g.wf(),
    ensures
        d == neighbour_ids(g.nodes(), g.edges(), id@, true).len(),
{
    let r = neighbours(g, id, true);
    proof {
        assert(r@.len() == r@.map_values(|s: String| s@).len());
    }
    r.len()
}

/// The number of edges into node `id` (0 for an unknown id).
pub fn graph_in_degree(g: &KeyedGraph, id: &str) -> (d: usize)
    requires
        g.wf(),
    ensures
        d == neighbour_ids(g.nodes(), g.edges(), id@, false).len(),
{
    let r = neighbours(g, id, false);
    proof {
        assert(r@.len() == r@.map_values(|s: String| s@).len());
    }
    r.len()
}

/// Every edge as `(source id, target id)`, in edge order.
pub fn graph_edges(g: &KeyedGraph) -> (r: Vec<(String, String)>)
    requires
        g.wf(),
    ensures
        r@.len() == g.edges().len(),
        forall|k: int|
            0 <= k < r@.len() ==> (#[trigger] r@[k]).0@ == g.nodes()[g.edges()[k].0 as int].id@ && r@[k].1@
                == g.nodes()[g.edges()[k].1 as int].id@,
{
    let m = kg_edge_count(&g.digraph);
    let mut r: Vec<(String, String)> = Vec::new();
    let mut k: usize = 0;
    while k < m
        invariant
            g.wf(),
            m == g.edges().len(),
            k <= m,
            r@.len() == k,
            forall|j: int|
                0 <= j < k ==> (#[trigger] r@[j]).0@ == g.nodes()[g.edges()[j].0 as int].id@ && r@[j].1@
                    == g.nodes()[g.edges()[j].1 as int].id@,
        decreases m - k,
    {
        let (a, b) = match kg_edge_endpoints(&g.digraph, k) {
            Some(p) => p,
            None => (0, 0),
        };
        proof {
            assert(g.edges()[k as int].0 < g.nodes().len() && g.edges()[k as int].1 < g.nodes().len());
        }
        let s = kg_node(&g.digraph, a).id.clone();
        let t = kg_node(&g.digraph, b).id.clone();
        r.push((s, t));
        k = k + 1;
    }
    r
}

/// An independent copy of the graph.
pub fn graph_copy(g: &KeyedGraph) -> (c: KeyedGraph)
    requires
        g.wf(),
    ensures
        c.wf(),
        c.nodes() == g.nodes(),
        c.edges() == g.edges(),
{
    let n = kg_node_count(&g.digraph);
    let mut c = graph_new();
    let mut i: usize = 0;
    while i < n
        invariant
            g.wf(),
            c.wf(),
            n == g.nodes().len(),
            i <= n,
            c.nodes() == g.nodes().take(i as int),
            c.edges().len() == 0,
        decreases n - i,
    {
        let data = kg_node(&g.digraph, i).clone();
        proof {
            assert forall|j: int| 0 <= j < c.nodes().len() implies c.nodes()[j].id@ != data.id@ by {
                assert(c.nodes()[j] == g.nodes()[j]);
            }
        }
        push_node(&mut c, data);
        proof {
            assert(g.nodes().take(i + 1) =~= g.nodes().take(i as int).push(g.nodes()[i as int]));
        }
        i = i + 1;
    }
    proof {
        assert(g.nodes().take(n as int) =~= g.nodes());
    }
    let m = kg_edge_count(&g.digraph);
    let mut k: usize = 0;
    while k < m
        invariant
            g.wf(),
            c.wf(),
            m == g.edges().len(),
            k <= m,
            c.nodes() == g.nodes(),
            c.edges() == g.edges().take(k as int),
        decreases m - k,
    {
        let (a, b) = match kg_edge_endpoints(&g.digraph, k) {
            Some(p) => p,
            None => (0, 0),
        };
        let w = kg_edge_weight(&g.digraph, k).clone();
        proof {
            assert(g.edges()[k as int].0 < g.nodes().len() && g.edges()[k as int].1 < g.nodes().len());
        }
        kg_add_edge(&mut c.digraph, a, b, w);
        proof {
            assert(g.edges().take(k + 1) =~= g.edges().take(k as int).push(g.edges()[k as int]));
            assert forall|j: int| 0 <= j < c.edges().len() implies (#[trigger] c.edges()[j]).0 < c.nodes().len()
                && c.edges()[j].1 < c.nodes().len() by {
                assert(c.edges()[j] == g.edges()[j]);
            }
        }
        k = k + 1;
    }
    proof {
        assert(g.edges().take(m as int) =~= g.edges());
    }
    c
}

/// The data of node `i`.
pub fn node_data(g: &KeyedGraph, i: usize) -> (d: &KNode)
    requires
        g.wf(),
        i < g.nodes().len(),
    ensures
        *d == g.nodes()[i as int],
{
    kg_node(&g.digraph, i)
}

/// The data of edge `k`.
pub fn edge_data(g: &KeyedGraph, k: usize) -> (d: &KEdge)
    requires
        g.wf(),
        k < g.edges().len(),
    ensures
        *d == g.edges()[k as int].2,
{
    kg_edge_weight(&g.digraph, k)
}

} // verus!
