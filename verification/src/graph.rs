//! The graph intermediate representation: the diagram's nodes and edges held
//! in a `petgraph` directed graph, with lookup by node id.
use vstd::prelude::*;
use petgraph::graph::DiGraph;
use crate::ast::{Attr, Diagram, Direction, Edge, EdgeType, Node, NodeShape, Subgraph, clone_attrs};
use crate::pgraph::{
    acyclic, adjacent, ir_edges, ir_is_cyclic, ir_neighbors, ir_node, ir_node_count, ir_nodes, ir_toposort, ir_wf,
    is_topo_list, lists_adjacent, lists_adjacent_len, lists_adjacent_source,
};
use crate::text::{chars_le, sorted_strings, str_eq};

verus! {

/// Data stored for each node of the graph.
#[derive(Debug)]
pub struct NodeData {
    pub id: String,
    pub label: String,
    pub shape: NodeShape,
    pub attrs: Vec<Attr>,
    /// The subgraph this node belongs to (`None` at top level).
    pub subgraph: Option<String>,
}

impl NodeData {
    /// The two nodes carry the same data (attribute lists compared by
    /// content).
    pub open spec fn same(self, other: NodeData) -> bool {
        &&& self.id == other.id
        &&& self.label == other.label
        &&& self.shape == other.shape
        &&& self.attrs@ == other.attrs@
        &&& self.subgraph == other.subgraph
    }
}

impl Clone for NodeData {
    fn clone(&self) -> (r: Self)
        ensures
            r.same(*self),
    {
        NodeData {
            id: self.id.clone(),
            label: self.label.clone(),
            shape: self.shape,
            attrs: clone_attrs(&self.attrs),
            subgraph: match &self.subgraph {
                Some(s) => Some(s.clone()),
                None => None,
            },
        }
    }
}

/// Data stored for each edge of the graph.
#[derive(Debug)]
pub struct EdgeData {
    pub edge_type: EdgeType,
    pub label: Option<String>,
    pub attrs: Vec<Attr>,
}

impl EdgeData {
    /// The two edges carry the same data (attribute lists compared by
    /// content).
    pub open spec fn same(self, other: EdgeData) -> bool {
        &&& self.edge_type == other.edge_type
        &&& self.label == other.label
        &&& self.attrs@ == other.attrs@
    }
}

impl Clone for EdgeData {
    fn clone(&self) -> (r: Self)
        ensures
            r.same(*self),
    {
        EdgeData {
            edge_type: self.edge_type,
            label: match &self.label {
                Some(s) => Some(s.clone()),
                None => None,
            },
            attrs: clone_attrs(&self.attrs),
        }
    }
}

/// The graph intermediate representation built from a diagram.
pub struct GraphIR {
    pub digraph: DiGraph<NodeData, EdgeData>,
    /// Lookup of node ids: entry `i` is the id of node `i` and `i`.
    pub node_index: Vec<(String, usize)>,
    /// Direction from the diagram (used by layout).
    pub direction: Direction,
    /// Subgraph membership: subgraph name and its node ids.
    pub subgraph_members: Vec<(String, Vec<String>)>,
}

/// The ids of a node list, as text.
pub open spec fn node_ids(nodes: Seq<NodeData>) -> Seq<Seq<char>> {
    nodes.map_values(|d: NodeData| d.id@)
}

/// The node whose id is `id`, if any (ids are distinct in a well-formed IR).
pub open spec fn index_of(nodes: Seq<NodeData>, id: Seq<char>) -> Option<nat> {
    if exists|i: int| 0 <= i < nodes.len() && nodes[i].id@ == id {
        Some((choose|i: int| 0 <= i < nodes.len() && nodes[i].id@ == id) as nat)
    } else {
        None
    }
}

/// `ids` are the ids of the successors of node `i`, one per edge, in some
/// order.
pub open spec fn lists_successor_ids(
    nodes: Seq<NodeData>,
    edges: Seq<(nat, nat, EdgeData)>,
    i: nat,
    ids: Seq<Seq<char>>,
) -> bool {
    exists|p: Seq<nat>|
        #[trigger] lists_adjacent(p, edges, i, true) && ids == p.map_values(|j: nat| nodes[j as int].id@)
}

/// An adjacency-list entry: a node's id with the ids of its successors.
pub open spec fn adjacency_entry_ok(
    nodes: Seq<NodeData>,
    edges: Seq<(nat, nat, EdgeData)>,
    entry: (String, Vec<String>),
) -> bool {
    match index_of(nodes, entry.0@) {
        Some(i) => lists_successor_ids(nodes, edges, i, entry.1@.map_values(|s: String| s@)),
        None => false,
    }
}

// ─── Building the IR from a diagram ─────────────────────────────────────────

/// The data of a node, as text: id, label, shape, attributes, subgraph.
pub type NodeView = (Seq<char>, Seq<char>, NodeShape, Seq<Attr>, Option<Seq<char>>);

/// The text of an optional string.
pub open spec fn opt_view(o: Option<String>) -> Option<Seq<char>> {
    match o {
        Some(s) => Some(s@),
        None => None,
    }
}

/// The view of a node of the graph.
pub open spec fn data_view(d: NodeData) -> NodeView {
    (d.id@, d.label@, d.shape, d.attrs@, opt_view(d.subgraph))
}

/// A diagram node declared in subgraph `sg` (or at top level).
pub open spec fn decl_view(n: Node, sg: Option<Seq<char>>) -> NodeView {
    (n.id@, n.label@, n.shape, n.attrs@, sg)
}

/// The node made for an id that an edge names: labelled by its id, a
/// rectangle, without attributes, at top level.
pub open spec fn placeholder_view(id: Seq<char>) -> NodeView {
    (id, id, NodeShape::Rectangle, Seq::<Attr>::empty(), None)
}

/// The nodes of a subgraph as declared in it, then those of its nested
/// subgraphs.
pub open spec fn sg_decls(sg: Subgraph) -> Seq<NodeView>
    decreases sg,
{
    sg.nodes@.map_values(|n: Node| decl_view(n, Some(sg.name@))) + sgs_decls(sg.subgraphs@)
}

/// The declarations of a list of subgraphs, in order.
pub open spec fn sgs_decls(sgs: Seq<Subgraph>) -> Seq<NodeView>
    decreases sgs,
{
    if sgs.len() == 0 {
        seq![]
    } else {
        sg_decls(sgs[0]) + sgs_decls(sgs.drop_first())
    }
}

/// The edges of a subgraph, then those of its nested subgraphs.
pub open spec fn sg_edges(sg: Subgraph) -> Seq<Edge>
    decreases sg,
{
    sg.edges@ + sgs_edges(sg.subgraphs@)
}

/// The edges of a list of subgraphs, in order.
pub open spec fn sgs_edges(sgs: Seq<Subgraph>) -> Seq<Edge>
    decreases sgs,
{
    if sgs.len() == 0 {
        seq![]
    } else {
        sg_edges(sgs[0]) + sgs_edges(sgs.drop_first())
    }
}

/// Each subgraph's name with the ids of its nodes, nested subgraphs after
/// their parent.
pub open spec fn sg_members(sg: Subgraph) -> Seq<(Seq<char>, Seq<Seq<char>>)>
    decreases sg,
{
    seq![(sg.name@, sg.nodes@.map_values(|n: Node| n.id@))] + sgs_members(sg.subgraphs@)
}

/// The memberships of a list of subgraphs, in order.
pub open spec fn sgs_members(sgs: Seq<Subgraph>) -> Seq<(Seq<char>, Seq<Seq<char>>)>
    decreases sgs,
{
    if sgs.len() == 0 {
        seq![]
    } else {
        sg_members(sgs[0]) + sgs_members(sgs.drop_first())
    }
}

/// The placeholders for the ends of `edges`: source then target, edge by
/// edge.
pub open spec fn endpoint_decls(edges: Seq<Edge>) -> Seq<NodeView>
    decreases edges.len(),
{
    if edges.len() == 0 {
        seq![]
    } else {
        endpoint_decls(edges.drop_last()) + seq![placeholder_view(edges.last().from@), placeholder_view(edges.last().to@)]
    }
}

/// Whether `id` names one of the top-level subgraphs.
pub open spec fn names_subgraph(sgs: Seq<Subgraph>, id: Seq<char>) -> bool {
    exists|i: int| 0 <= i < sgs.len() && (#[trigger] sgs[i]).name@ == id
}

/// The top-level nodes whose id names no top-level subgraph.
pub open spec fn top_decls(nodes: Seq<Node>, sgs: Seq<Subgraph>) -> Seq<NodeView>
    decreases nodes.len(),
{
    if nodes.len() == 0 {
        seq![]
    } else {
        top_decls(nodes.drop_last(), sgs) + (if names_subgraph(sgs, nodes.last().id@) {
            seq![]
        } else {
            seq![decl_view(nodes.last(), None)]
        })
    }
}

/// All edges of a diagram: the top-level ones, then those of the
/// subgraphs.
pub open spec fn all_edges(d: Diagram) -> Seq<Edge> {
    d.edges@ + sgs_edges(d.subgraphs@)
}

/// Every node declaration of a diagram, in the order the IR meets them.
pub open spec fn all_decls(d: Diagram) -> Seq<NodeView> {
    top_decls(d.nodes@, d.subgraphs@) + sgs_decls(d.subgraphs@) + endpoint_decls(all_edges(d))
}

/// The first declaration of each id, in order.
pub open spec fn dedup(s: Seq<NodeView>) -> Seq<NodeView>
    decreases s.len(),
{
    if s.len() == 0 {
        seq![]
    } else {
        let d = dedup(s.drop_last());
        if exists|i: int| 0 <= i < d.len() && (#[trigger] d[i]).0 == s.last().0 {
            d
        } else {
            d.push(s.last())
        }
    }
}

/// The edge `e` as the IR holds it among the nodes `nodes`.
pub open spec fn edge_in(nodes: Seq<NodeData>, ge: (nat, nat, EdgeData), e: Edge) -> bool {
    &&& index_of(nodes, e.from@) == Some(ge.0)
    &&& index_of(nodes, e.to@) == Some(ge.1)
    &&& ge.2.edge_type == e.edge_type
    &&& ge.2.label == e.label
    &&& ge.2.attrs@ == e.attrs@
}

/// The partial IR: a valid graph without repeated ids, listed in the index.
pub open spec fn builder_ok(g: DiGraph<NodeData, EdgeData>, ix: Seq<(String, usize)>) -> bool {
    &&& ir_wf(g)
    &&& ix.len() == ir_nodes(g).len()
    &&& forall|i: int| 0 <= i < ix.len() ==> (#[trigger] ix[i]).1 == i && ix[i].0@ == ir_nodes(g)[i].id@
    &&& forall|i: int, j: int|
        0 <= i < ir_nodes(g).len() && 0 <= j < ir_nodes(g).len() && i != j ==> ir_nodes(g)[i].id@ != ir_nodes(
            g,
        )[j].id@
}

impl GraphIR {
    /// Well-formedness: a valid graph whose node ids are distinct and listed,
    /// in node order, in `node_index`.
    pub open spec fn wf(self) -> bool {
        &&& ir_wf(self.digraph)
        &&& self.node_index@.len() == ir_nodes(self.digraph).len()
        &&& forall|i: int|
            0 <= i < self.node_index@.len() ==> (#[trigger] self.node_index@[i]).1 == i
                && self.node_index@[i].0@ == ir_nodes(self.digraph)[i].id@
        &&& forall|i: int, j: int|
            0 <= i < ir_nodes(self.digraph).len() && 0 <= j < ir_nodes(self.digraph).len() && i != j
                ==> ir_nodes(self.digraph)[i].id@ != ir_nodes(self.digraph)[j].id@
    }

    pub open spec fn nodes(self) -> Seq<NodeData> {
        ir_nodes(self.digraph)
    }

    pub open spec fn edges(self) -> Seq<(nat, nat, EdgeData)> {
        ir_edges(self.digraph)
    }

    /// The index of the node with id `id`.
    pub fn find(&self, id: &str) -> (r: Option<usize>)
        requires
            self.wf(),
        ensures
            r is None <==> index_of(self.nodes(), id@) is None,
            r matches Some(i) ==> index_of(self.nodes(), id@) == Some(i as nat) && i < self.nodes().len()
                && self.nodes()[i as int].id@ == id@,
    {
        let mut i: usize = 0;
        while i < self.node_index.len()
            invariant
                self.wf(),
                i <= self.node_index@.len(),
                forall|j: int| 0 <= j < i ==> self.nodes()[j].id@ != id@,
            decreases self.node_index@.len() - i,
        {
            if str_eq(self.node_index[i].0.as_str(), id) {
                proof {
                    assert(self.nodes()[i as int].id@ == id@);
                    let c = choose|j: int| 0 <= j < self.nodes().len() && self.nodes()[j].id@ == id@;
                    assert(c == i);
                }
                return Some(self.node_index[i].1);
            }
            i = i + 1;
        }
        None
    }

    /// Whether the graph has no directed cycle.
    pub fn is_dag(&self) -> (r: bool)
        requires
            self.wf(),
        ensures
            r == acyclic(self.nodes().len(), self.edges()),
    {
        !ir_is_cyclic(&self.digraph)
    }

    /// The ids of the nodes at the given indices, in the same order.
    pub fn ids_in_order(&self, order: &Vec<usize>) -> (ids: Vec<String>)
        requires
            self.wf(),
            forall|j: int| 0 <= j < order@.len() ==> #[trigger] order@[j] < self.nodes().len(),
        ensures
            ids@.len() == order@.len(),
            forall|j: int| 0 <= j < order@.len() ==> (#[trigger] ids@[j])@ == self.nodes()[order@[j] as int].id@,
    {
        let mut ids: Vec<String> = Vec::new();
        let mut i: usize = 0;
        while i < order.len()
            invariant
                self.wf(),
                forall|j: int| 0 <= j < order@.len() ==> #[trigger] order@[j] < self.nodes().len(),
                i <= order@.len(),
                ids@.len() == i,
                forall|j: int| 0 <= j < i ==> (#[trigger] ids@[j])@ == self.nodes()[order@[j] as int].id@,
            decreases order@.len() - i,
        {
            let id = ir_node(&self.digraph, order[i]).id.clone();
            ids.push(id);
            i = i + 1;
        }
        ids
    }

    /// The node ids in a topological order (the one petgraph's `toposort`
    /// gives), or `None` when the graph has a cycle.
    pub fn topological_order(&self) -> (r: Option<Vec<String>>)
        requires
            self.wf(),
        ensures
            r is Some <==> acyclic(self.nodes().len(), self.edges()),
            r matches Some(ids) ==> exists|order: Seq<nat>|
                {
                    &&& #[trigger] is_topo_list(self.nodes().len(), self.edges(), order)
                    &&& ids@.len() == order.len()
                    &&& forall|i: int| 0 <= i < order.len() ==> (#[trigger] ids@[i])@ == self.nodes()[order[i] as int].id@
                },
    {
        match ir_toposort(&self.digraph) {
            Some(idx) => {
                let ghost order = idx@.map_values(|x: usize| x as nat);
                proof {
                    assert forall|j: int| 0 <= j < idx@.len() implies #[trigger] idx@[j] < self.nodes().len() by {
                        assert(order[j] == idx@[j] as nat);
                    }
                }
                let ids = self.ids_in_order(&idx);
                proof {
                    assert forall|i: int| 0 <= i < order.len() implies (#[trigger] ids@[i])@ == self.nodes()[order[i] as int].id@ by {
                        assert(order[i] == idx@[i] as nat);
                    }
                    assert(is_topo_list(self.nodes().len(), self.edges(), order));
                }
                Some(ids)
            },
            None => None,
        }
    }

    /// The number of nodes.
    pub fn node_count(&self) -> (n: usize)
        ensures
            n == self.nodes().len(),
    {
        ir_node_count(&self.digraph)
    }

    /// The number of edges.
    pub fn edge_count(&self) -> (n: usize)
        ensures
            n == self.edges().len(),
    {
        crate::pgraph::ir_edge_count(&self.digraph)
    }

    /// Each node id with the ids of its successors (in the order petgraph
    /// walks them), sorted by node id.
    pub fn adjacency_list(&self) -> (r: Vec<(String, Vec<String>)>)
        requires
            self.wf(),
        ensures
            r@.len() == self.nodes().len(),
            forall|a: int, b: int| 0 <= a < b < r@.len() ==> chars_le(r@[a].0@, r@[b].0@),
            r@.map_values(|p: (String, Vec<String>)| p.0).to_multiset() == self.nodes().map_values(
                |d: NodeData| d.id,
            ).to_multiset(),
            forall|a: int| 0 <= a < r@.len() ==> #[trigger] adjacency_entry_ok(self.nodes(), self.edges(), r@[a]),
    {
        broadcast use vstd::seq_lib::group_to_multiset_ensures;
        let n = ir_node_count(&self.digraph);
        let mut ids: Vec<String> = Vec::new();
        let mut i: usize = 0;
        while i < n
            invariant
                self.wf(),
                n == self.nodes().len(),
                i <= n,
                ids@ == self.nodes().map_values(|d: NodeData| d.id).take(i as int),
            decreases n - i,
        {
            let id = ir_node(&self.digraph, i).id.clone();
            ids.push(id);
            proof {
                assert(self.nodes().map_values(|d: NodeData| d.id).take(i + 1) =~= self.nodes().map_values(
                    |d: NodeData| d.id,
                ).take(i as int).push(self.nodes()[i as int].id));
            }
            i = i + 1;
        }
        proof {
            assert(self.nodes().map_values(|d: NodeData| d.id).take(n as int) =~= self.nodes().map_values(
                |d: NodeData| d.id,
            ));
        }
        let ghost all_ids = ids@;
        let sorted = crate::text::sort_strings(ids);
        proof {
            assert(sorted@.len() == sorted@.to_multiset().len());
            assert(all_ids.len() == all_ids.to_multiset().len());
        }
        let mut r: Vec<(String, Vec<String>)> = Vec::new();
        let mut a: usize = 0;
        while a < sorted.len()
            invariant
                self.wf(),
                n == self.nodes().len(),
                all_ids == self.nodes().map_values(|d: NodeData| d.id),
                sorted@.to_multiset() == all_ids.to_multiset(),
                sorted_strings(sorted@),
                a <= sorted@.len(),
                r@.len() == a,
                forall|b: int| 0 <= b < a ==> (#[trigger] r@[b]).0 == sorted@[b],
                forall|b: int| 0 <= b < a ==> #[trigger] adjacency_entry_ok(self.nodes(), self.edges(), r@[b]),
            decreases sorted@.len() - a,
        {
            let key = sorted[a].clone();
            proof {
                assert(sorted@.contains(sorted@[a as int]));
                sorted@.to_multiset_ensures();
                all_ids.to_multiset_ensures();
                assert(sorted@.to_multiset().count(sorted@[a as int]) > 0);
                assert(all_ids.contains(sorted@[a as int]));
                let k = choose|k: int| 0 <= k < all_ids.len() && all_ids[k] == sorted@[a as int];
                assert(self.nodes()[k].id@ == key@);
            }
            let found = self.find(key.as_str());
            let idx = match found {
                Some(x) => x,
                None => 0,
            };
            let succ = ir_neighbors(&self.digraph, idx, true);
            let ghost succ_n = succ@.map_values(|x: usize| x as nat);
            proof {
                assert forall|j: int| 0 <= j < succ_n.len() implies #[trigger] succ_n[j] < self.nodes().len() by {
                    let k = lists_adjacent_source(succ_n, self.edges(), idx as nat, true, j);
                    assert(self.edges()[k].1 < self.nodes().len());
                }
            }
            let mut names: Vec<String> = Vec::new();
            let mut t: usize = 0;
            while t < succ.len()
                invariant
                    self.wf(),
                    idx < self.nodes().len(),
                    succ_n == succ@.map_values(|x: usize| x as nat),
                    forall|j: int| 0 <= j < succ_n.len() ==> #[trigger] succ_n[j] < self.nodes().len(),
                    t <= succ@.len(),
                    names@.len() == t,
                    forall|j: int| 0 <= j < t ==> (#[trigger] names@[j])@ == self.nodes()[succ_n[j] as int].id@,
                decreases succ@.len() - t,
            {
                proof {
                    assert(succ_n[t as int] == succ@[t as int] as nat);
                }
                let nm = ir_node(&self.digraph, succ[t]).id.clone();
                names.push(nm);
                t = t + 1;
            }
            proof {
                assert(names@.map_values(|s: String| s@) =~= succ_n.map_values(|j: nat| self.nodes()[j as int].id@));
                assert(lists_adjacent(succ_n, self.edges(), idx as nat, true));
            }
            r.push((key, names));
            a = a + 1;
        }
        proof {
            assert(r@.map_values(|p: (String, Vec<String>)| p.0) =~= sorted@);
        }
        r
    }

    /// The number of edges into the node with id `node_id` (0 for an unknown
    /// id).
    pub fn in_degree(&self, node_id: &str) -> (d: usize)
        requires
            self.wf(),
        ensures
            d == match index_of(self.nodes(), node_id@) {
                Some(i) => adjacent(self.edges(), i, false).len(),
                None => 0,
            },
    {
        match self.find(node_id) {
            Some(i) => {
                let nb = ir_neighbors(&self.digraph, i, false);
                proof {
                    lists_adjacent_len(nb@.map_values(|x: usize| x as nat), self.edges(), i as nat, false);
                }
                nb.len()
            },
            None => 0,
        }
    }

    /// The number of edges out of the node with id `node_id` (0 for an
    /// unknown id).
    pub fn out_degree(&self, node_id: &str) -> (d: usize)
        requires
            self.wf(),
        ensures
            d == match index_of(self.nodes(), node_id@) {
                Some(i) => adjacent(self.edges(), i, true).len(),
                None => 0,
            },
    {
        match self.find(node_id) {
            Some(i) => {
                let nb = ir_neighbors(&self.digraph, i, true);
                proof {
                    lists_adjacent_len(nb@.map_values(|x: usize| x as nat), self.edges(), i as nat, true);
                }
                nb.len()
            },
            None => 0,
        }
    }
}

// ─── IR construction ────────────────────────────────────────────────────────

/// The views of a node list.
pub open spec fn nodes_view(nodes: Seq<NodeData>) -> Seq<NodeView> {
    nodes.map_values(|d: NodeData| data_view(d))
}

/// The views of a membership list.
pub open spec fn members_view(m: Seq<(String, Vec<String>)>) -> Seq<(Seq<char>, Seq<Seq<char>>)> {
    m.map_values(|p: (String, Vec<String>)| (p.0@, p.1@.map_values(|s: String| s@)))
}

/// Every edge is `e[k]` placed among `nodes`.
pub open spec fn edges_in(nodes: Seq<NodeData>, ge: Seq<(nat, nat, EdgeData)>, es: Seq<Edge>) -> bool {
    &&& ge.len() == es.len()
    &&& forall|k: int| 0 <= k < ge.len() ==> #[trigger] edge_in(nodes, ge[k], es[k])
}

proof fn lemma_index_of_at(nodes: Seq<NodeData>, i: int)
    requires
        0 <= i < nodes.len(),
        forall|a: int, b: int| 0 <= a < nodes.len() && 0 <= b < nodes.len() && a != b ==> nodes[a].id@ != nodes[b].id@,
    ensures
        index_of(nodes, nodes[i].id@) == Some(i as nat),
{
    let c = choose|j: int| 0 <= j < nodes.len() && nodes[j].id@ == nodes[i].id@;
    assert(c == i);
}

proof fn lemma_index_of_push(nodes: Seq<NodeData>, x: NodeData, id: Seq<char>)
    requires
        index_of(nodes, id) is Some,
        forall|a: int, b: int| 0 <= a < nodes.len() && 0 <= b < nodes.len() && a != b ==> nodes[a].id@ != nodes[b].id@,
        forall|a: int| 0 <= a < nodes.len() ==> nodes[a].id@ != x.id@,
    ensures
        index_of(nodes.push(x), id) == index_of(nodes, id),
{
    let i = index_of(nodes, id)->0 as int;
    assert(nodes[i].id@ == id);
    let t = nodes.push(x);
    assert(t[i] == nodes[i]);
    let c = choose|j: int| 0 <= j < t.len() && t[j].id@ == id;
    if c < nodes.len() {
        assert(t[c] == nodes[c]);
    }
    assert(c == i);
}

proof fn lemma_sgs_take(sgs: Seq<Subgraph>, i: int)
    requires
        0 <= i < sgs.len(),
    ensures
        sgs_decls(sgs.take(i + 1)) == sgs_decls(sgs.take(i)) + sg_decls(sgs[i]),
        sgs_edges(sgs.take(i + 1)) == sgs_edges(sgs.take(i)) + sg_edges(sgs[i]),
        sgs_members(sgs.take(i + 1)) == sgs_members(sgs.take(i)) + sg_members(sgs[i]),
    decreases i,
{
    if i == 0 {
        assert(sgs.take(1).drop_first() =~= Seq::<Subgraph>::empty());
        assert(sgs.take(0) =~= Seq::<Subgraph>::empty());
        assert(sgs.take(1)[0] == sgs[0]);
        assert(sgs_decls(sgs.take(1).drop_first()) == Seq::<NodeView>::empty());
        assert(sgs_edges(sgs.take(1).drop_first()) == Seq::<Edge>::empty());
        assert(sgs_members(sgs.take(1).drop_first()) == Seq::<(Seq<char>, Seq<Seq<char>>)>::empty());
        assert(sgs_decls(sgs.take(1)) =~= sg_decls(sgs[0]));
        assert(sgs_edges(sgs.take(1)) =~= sg_edges(sgs[0]));
        assert(sgs_members(sgs.take(1)) =~= sg_members(sgs[0]));
    } else {
        let t = sgs.drop_first();
        lemma_sgs_take(t, i - 1);
        assert(sgs.take(i + 1).drop_first() =~= t.take(i));
        assert(sgs.take(i).drop_first() =~= t.take(i - 1));
        assert(t[i - 1] == sgs[i]);
        assert(sgs_decls(sgs.take(i + 1)) =~= sgs_decls(sgs.take(i)) + sg_decls(sgs[i]));
        assert(sgs_edges(sgs.take(i + 1)) =~= sgs_edges(sgs.take(i)) + sg_edges(sgs[i]));
        assert(sgs_members(sgs.take(i + 1)) =~= sgs_members(sgs.take(i)) + sg_members(sgs[i]));
    }
}

/// The index of the node with id `id` in a partial IR.
fn find_in(g: &DiGraph<NodeData, EdgeData>, ix: &Vec<(String, usize)>, id: &str) -> (r: Option<usize>)
    requires
        builder_ok(*g, ix@),
    ensures
        r is None <==> index_of(ir_nodes(*g), id@) is None,
        r matches Some(i) ==> index_of(ir_nodes(*g), id@) == Some(i as nat) && i < ir_nodes(*g).len(),
{
    let mut i: usize = 0;
    while i < ix.len()
        invariant
            builder_ok(*g, ix@),
            i <= ix@.len(),
            forall|j: int| 0 <= j < i ==> ir_nodes(*g)[j].id@ != id@,
        decreases ix@.len() - i,
    {
        if str_eq(ix[i].0.as_str(), id) {
            proof {
                lemma_index_of_at(ir_nodes(*g), i as int);
            }
            return Some(ix[i].1);
        }
        i = i + 1;
    }
    None
}

/// Adds `data` as a node unless its id is already present.
fn add_decl(
    g: &mut DiGraph<NodeData, EdgeData>,
    ix: &mut Vec<(String, usize)>,
    data: NodeData,
    Ghost(decls): Ghost<Seq<NodeView>>,
)
    requires
        builder_ok(*old(g), old(ix)@),
        nodes_view(ir_nodes(*old(g))) == dedup(decls),
        ir_nodes(*old(g)).len() + 1 < u32::MAX,
    ensures
        builder_ok(*final(g), final(ix)@),
        nodes_view(ir_nodes(*final(g))) == dedup(decls.push(data_view(data))),
        ir_edges(*final(g)) == ir_edges(*old(g)),
        ir_nodes(*old(g)).is_prefix_of(ir_nodes(*final(g))),
        ir_nodes(*final(g)).len() <= ir_nodes(*old(g)).len() + 1,
        index_of(ir_nodes(*final(g)), data.id@) is Some,
        forall|id: Seq<char>|
            #[trigger] index_of(ir_nodes(*old(g)), id) is Some ==> index_of(ir_nodes(*final(g)), id) == index_of(
                ir_nodes(*old(g)),
                id,
            ),
{
    let ghost n0 = ir_nodes(*g);
    let ghost d = dedup(decls);
    let ghost t = decls.push(data_view(data));
    proof {
        assert(t.drop_last() =~= decls);
        assert(t.last() == data_view(data));
    }
    match find_in(g, ix, data.id.as_str()) {
        Some(i) => {
            proof {
                assert(d[i as int] == data_view(n0[i as int]));
                assert(d[i as int].0 == data_view(data).0);
                assert(dedup(t) == d);
                assert forall|id: Seq<char>| #[trigger] index_of(n0, id) is Some implies index_of(ir_nodes(*g), id)
                    == index_of(n0, id) by {}
            }
        },
        None => {
            proof {
                assert forall|j: int| 0 <= j < d.len() implies (#[trigger] d[j]).0 != data_view(data).0 by {
                    assert(d[j] == data_view(n0[j]));
                }
                assert(dedup(t) == d.push(data_view(data)));
                assert forall|a: int| 0 <= a < n0.len() implies n0[a].id@ != data.id@ by {}
            }
            let id = data.id.clone();
            let ghost dv = data;
            let i = crate::pgraph::ir_add_node(g, data);
            ix.push((id, i));
            proof {
                let n1 = ir_nodes(*g);
                assert(n1 == n0.push(dv));
                assert(nodes_view(n1) =~= d.push(data_view(dv)));
                assert forall|a: int, b: int| 0 <= a < n1.len() && 0 <= b < n1.len() && a != b implies n1[a].id@
                    != n1[b].id@ by {
                    if a < n0.len() && b < n0.len() {
                        assert(n1[a] == n0[a] && n1[b] == n0[b]);
                    } else if a < n0.len() {
                        assert(n1[a] == n0[a]);
                    } else {
                        assert(n1[b] == n0[b]);
                    }
                }
                assert forall|a: int| 0 <= a < ix@.len() implies (#[trigger] ix@[a]).1 == a && ix@[a].0@ == n1[a].id@ by {
                    if a < n0.len() {
                        assert(ix@[a] == old(ix)@[a]);
                        assert(n1[a] == n0[a]);
                    }
                }
                assert forall|k: int| 0 <= k < ir_edges(*g).len() implies (#[trigger] ir_edges(*g)[k]).0 < n1.len()
                    && ir_edges(*g)[k].1 < n1.len() by {
                    assert(ir_edges(*g)[k] == ir_edges(*old(g))[k]);
                }
                lemma_index_of_at(n1, n0.len() as int);
                assert forall|id: Seq<char>| #[trigger] index_of(n0, id) is Some implies index_of(n1, id) == index_of(
                    n0,
                    id,
                ) by {
                    lemma_index_of_push(n0, dv, id);
                }
            }
        },
    }
}

/// Adds the nodes of `sg` (with their subgraph) and of its nested
/// subgraphs, and records each subgraph's members.
fn collect_subgraph(
    sg: &Subgraph,
    g: &mut DiGraph<NodeData, EdgeData>,
    ix: &mut Vec<(String, usize)>,
    members: &mut Vec<(String, Vec<String>)>,
    Ghost(decls): Ghost<Seq<NodeView>>,
)
    requires
        builder_ok(*old(g), old(ix)@),
        nodes_view(ir_nodes(*old(g))) == dedup(decls),
        ir_nodes(*old(g)).len() + sg_decls(*sg).len() + 1 < u32::MAX,
    ensures
        builder_ok(*final(g), final(ix)@),
        nodes_view(ir_nodes(*final(g))) == dedup(decls + sg_decls(*sg)),
        ir_edges(*final(g)) == ir_edges(*old(g)),
        ir_nodes(*final(g)).len() <= ir_nodes(*old(g)).len() + sg_decls(*sg).len(),
        members_view(final(members)@) == members_view(old(members)@) + sg_members(*sg),
    decreases sg,
{
    let ghost own = sg.nodes@.map_values(|n: Node| decl_view(n, Some(sg.name@)));
    let mut member_ids: Vec<String> = Vec::new();
    let mut i: usize = 0;
    while i < sg.nodes.len()
        invariant
            builder_ok(*g, ix@),
            nodes_view(ir_nodes(*g)) == dedup(decls + own.take(i as int)),
            ir_edges(*g) == ir_edges(*old(g)),
            ir_nodes(*g).len() <= ir_nodes(*old(g)).len() + i,
            ir_nodes(*old(g)).len() + sg_decls(*sg).len() + 1 < u32::MAX,
            own == sg.nodes@.map_values(|n: Node| decl_view(n, Some(sg.name@))),
            sg_decls(*sg) == own + sgs_decls(sg.subgraphs@),
            i <= sg.nodes@.len(),
            member_ids@.map_values(|s: String| s@) == sg.nodes@.map_values(|n: Node| n.id@).take(i as int),
        decreases sg.nodes@.len() - i,
    {
        let node = &sg.nodes[i];
        let data = NodeData {
            id: node.id.clone(),
            label: node.label.clone(),
            shape: node.shape,
            attrs: clone_attrs(&node.attrs),
            subgraph: Some(sg.name.clone()),
        };
        proof {
            assert(data_view(data) == own[i as int]);
            assert((decls + own.take(i + 1)) =~= (decls + own.take(i as int)).push(own[i as int]));
        }
        add_decl(g, ix, data, Ghost(decls + own.take(i as int)));
        let ghost m0 = member_ids@;
        member_ids.push(node.id.clone());
        proof {
            assert(*node == sg.nodes@[i as int]);
            assert(member_ids@.map_values(|s: String| s@) =~= m0.map_values(|s: String| s@).push(sg.nodes@[i as int].id@));
            assert(member_ids@.map_values(|s: String| s@) =~= sg.nodes@.map_values(|n: Node| n.id@).take(i + 1));
        }
        i = i + 1;
    }
    proof {
        assert(own.take(sg.nodes@.len() as int) =~= own);
        assert(sg.nodes@.map_values(|n: Node| n.id@).take(sg.nodes@.len() as int) =~= sg.nodes@.map_values(
            |n: Node| n.id@,
        ));
    }
    let ghost mem0 = members@;
    members.push((sg.name.clone(), member_ids));
    proof {
        assert(members_view(members@) =~= members_view(mem0).push((sg.name@, sg.nodes@.map_values(|n: Node| n.id@))));
    }
    let ghost mem1 = members@;
    let ghost base = decls + own;
    let mut j: usize = 0;
    while j < sg.subgraphs.len()
        invariant
            builder_ok(*g, ix@),
            nodes_view(ir_nodes(*g)) == dedup(base + sgs_decls(sg.subgraphs@.take(j as int))),
            ir_edges(*g) == ir_edges(*old(g)),
            ir_nodes(*g).len() <= ir_nodes(*old(g)).len() + own.len() + sgs_decls(sg.subgraphs@.take(j as int)).len(),
            ir_nodes(*old(g)).len() + sg_decls(*sg).len() + 1 < u32::MAX,
            sg_decls(*sg) == own + sgs_decls(sg.subgraphs@),
            base == decls + own,
            j <= sg.subgraphs@.len(),
            members_view(members@) == members_view(mem1) + sgs_members(sg.subgraphs@.take(j as int)),
            sgs_decls(sg.subgraphs@.take(j as int)).len() <= sgs_decls(sg.subgraphs@).len(),
        decreases sg.subgraphs@.len() - j,
    {
        proof {
            lemma_sgs_take(sg.subgraphs@, j as int);
            lemma_sgs_prefix_len(sg.subgraphs@, (j + 1) as int);
            assert(decreases_to!(*sg => sg.subgraphs));
            assert(decreases_to!(sg.subgraphs => sg.subgraphs@));
            assert(decreases_to!(sg.subgraphs@ => sg.subgraphs@[j as int]));
        }
        let ghost d0 = base + sgs_decls(sg.subgraphs@.take(j as int));
        collect_subgraph(&sg.subgraphs[j], g, ix, members, Ghost(d0));
        proof {
            assert(d0 + sg_decls(sg.subgraphs@[j as int]) =~= base + sgs_decls(sg.subgraphs@.take(j + 1)));
        }
        j = j + 1;
    }
    proof {
        assert(sg.subgraphs@.take(sg.subgraphs@.len() as int) =~= sg.subgraphs@);
        assert(base + sgs_decls(sg.subgraphs@) =~= decls + sg_decls(*sg));
        assert(members_view(mem1) + sgs_members(sg.subgraphs@) =~= members_view(mem0) + sg_members(*sg));
    }
}

/// The declarations of a prefix of a subgraph list are no more than those
/// of the whole list.
proof fn lemma_sgs_prefix_len(sgs: Seq<Subgraph>, i: int)
    requires
        0 <= i <= sgs.len(),
    ensures
        sgs_decls(sgs.take(i)).len() <= sgs_decls(sgs).len(),
        sgs_edges(sgs.take(i)).len() <= sgs_edges(sgs).len(),
    decreases sgs.len() - i,
{
    if i < sgs.len() {
        lemma_sgs_take(sgs, i);
        lemma_sgs_prefix_len(sgs, i + 1);
    } else {
        assert(sgs.take(i) =~= sgs);
    }
}

proof fn lemma_endpoint_decls_concat(x: Seq<Edge>, y: Seq<Edge>)
    ensures
        endpoint_decls(x + y) == endpoint_decls(x) + endpoint_decls(y),
    decreases y.len(),
{
    if y.len() == 0 {
        assert(x + y =~= x);
        assert(endpoint_decls(x) + endpoint_decls(y) =~= endpoint_decls(x));
    } else {
        assert((x + y).drop_last() =~= x + y.drop_last());
        assert((x + y).last() == y.last());
        lemma_endpoint_decls_concat(x, y.drop_last());
        assert(endpoint_decls(x + y) =~= endpoint_decls(x) + endpoint_decls(y));
    }
}

/// Adds the edge `e`, creating placeholder nodes for ends not yet present.
fn add_ir_edge(
    g: &mut DiGraph<NodeData, EdgeData>,
    ix: &mut Vec<(String, usize)>,
    e: &Edge,
    Ghost(decls): Ghost<Seq<NodeView>>,
    Ghost(es): Ghost<Seq<Edge>>,
)
    requires
        builder_ok(*old(g), old(ix)@),
        nodes_view(ir_nodes(*old(g))) == dedup(decls),
        edges_in(ir_nodes(*old(g)), ir_edges(*old(g)), es),
        ir_nodes(*old(g)).len() + 3 < u32::MAX,
        ir_edges(*old(g)).len() + 2 < u32::MAX,
    ensures
        builder_ok(*final(g), final(ix)@),
        nodes_view(ir_nodes(*final(g))) == dedup(decls + seq![placeholder_view(e.from@), placeholder_view(e.to@)]),
        edges_in(ir_nodes(*final(g)), ir_edges(*final(g)), es.push(*e)),
        ir_nodes(*final(g)).len() <= ir_nodes(*old(g)).len() + 2,
{
    let ghost n0 = ir_nodes(*g);
    let from_data = NodeData {
        id: e.from.clone(),
        label: e.from.clone(),
        shape: NodeShape::Rectangle,
        attrs: Vec::new(),
        subgraph: None,
    };
    proof {
        assert(data_view(from_data) =~= placeholder_view(e.from@));
    }
    add_decl(g, ix, from_data, Ghost(decls));
    let ghost n1 = ir_nodes(*g);
    let to_data = NodeData { id: e.to.clone(), label: e.to.clone(), shape: NodeShape::Rectangle, attrs: Vec::new(), subgraph: None };
    proof {
        assert(data_view(to_data) =~= placeholder_view(e.to@));
    }
    add_decl(g, ix, to_data, Ghost(decls.push(placeholder_view(e.from@))));
    proof {
        assert(decls.push(placeholder_view(e.from@)).push(placeholder_view(e.to@)) =~= decls + seq![
            placeholder_view(e.from@),
            placeholder_view(e.to@),
        ]);
    }
    let a = match find_in(g, ix, e.from.as_str()) {
        Some(x) => x,
        None => 0,
    };
    let b = match find_in(g, ix, e.to.as_str()) {
        Some(x) => x,
        None => 0,
    };
    let data = EdgeData {
        edge_type: e.edge_type,
        label: match &e.label {
            Some(l) => Some(l.clone()),
            None => None,
        },
        attrs: clone_attrs(&e.attrs),
    };
    let ghost ge0 = ir_edges(*g);
    crate::pgraph::ir_add_edge(g, a, b, data);
    proof {
        let n2 = ir_nodes(*g);
        let ge = ir_edges(*g);
        let es2 = es.push(*e);
        assert forall|k: int| 0 <= k < ge.len() implies #[trigger] edge_in(n2, ge[k], es2[k]) by {
            if k < es.len() {
                assert(ge[k] == ge0[k]);
                assert(es2[k] == es[k]);
                assert(edge_in(n0, ge0[k], es[k]));
                assert(index_of(n0, es[k].from@) is Some);
                assert(index_of(n1, es[k].from@) == index_of(n0, es[k].from@));
                assert(index_of(n1, es[k].to@) == index_of(n0, es[k].to@));
            }
        }
        assert forall|k: int| 0 <= k < ge.len() implies (#[trigger] ge[k]).0 < n2.len() && ge[k].1 < n2.len() by {
            if k < ge0.len() {
                assert(ge[k] == ge0[k]);
            }
        }
    }
}

/// Adds the edges of `sg` and of its nested subgraphs.
fn collect_subgraph_edges(
    sg: &Subgraph,
    g: &mut DiGraph<NodeData, EdgeData>,
    ix: &mut Vec<(String, usize)>,
    Ghost(decls): Ghost<Seq<NodeView>>,
    Ghost(es): Ghost<Seq<Edge>>,
)
    requires
        builder_ok(*old(g), old(ix)@),
        nodes_view(ir_nodes(*old(g))) == dedup(decls),
        edges_in(ir_nodes(*old(g)), ir_edges(*old(g)), es),
        ir_nodes(*old(g)).len() + 2 * sg_edges(*sg).len() + 3 < u32::MAX,
        ir_edges(*old(g)).len() + sg_edges(*sg).len() + 2 < u32::MAX,
    ensures
        builder_ok(*final(g), final(ix)@),
        nodes_view(ir_nodes(*final(g))) == dedup(decls + endpoint_decls(sg_edges(*sg))),
        edges_in(ir_nodes(*final(g)), ir_edges(*final(g)), es + sg_edges(*sg)),
        ir_nodes(*final(g)).len() <= ir_nodes(*old(g)).len() + 2 * sg_edges(*sg).len(),
    decreases sg,
{
    let mut i: usize = 0;
    while i < sg.edges.len()
        invariant
            builder_ok(*g, ix@),
            nodes_view(ir_nodes(*g)) == dedup(decls + endpoint_decls(sg.edges@.take(i as int))),
            edges_in(ir_nodes(*g), ir_edges(*g), es + sg.edges@.take(i as int)),
            ir_nodes(*g).len() <= ir_nodes(*old(g)).len() + 2 * i,
            ir_edges(*g).len() == ir_edges(*old(g)).len() + i,
            ir_nodes(*old(g)).len() + 2 * sg_edges(*sg).len() + 3 < u32::MAX,
            ir_edges(*old(g)).len() + sg_edges(*sg).len() + 2 < u32::MAX,
            sg_edges(*sg) == sg.edges@ + sgs_edges(sg.subgraphs@),
            i <= sg.edges@.len(),
        decreases sg.edges@.len() - i,
    {
        let ghost d0 = decls + endpoint_decls(sg.edges@.take(i as int));
        let ghost e0 = es + sg.edges@.take(i as int);
        add_ir_edge(g, ix, &sg.edges[i], Ghost(d0), Ghost(e0));
        proof {
            let t1 = sg.edges@.take(i + 1);
            assert(t1.drop_last() =~= sg.edges@.take(i as int));
            assert(t1.last() == sg.edges@[i as int]);
            assert(d0 + seq![placeholder_view(sg.edges@[i as int].from@), placeholder_view(sg.edges@[i as int].to@)]
                =~= decls + endpoint_decls(t1));
            assert(e0.push(sg.edges@[i as int]) =~= es + t1);
        }
        i = i + 1;
    }
    proof {
        assert(sg.edges@.take(sg.edges@.len() as int) =~= sg.edges@);
    }
    let ghost base_d = decls + endpoint_decls(sg.edges@);
    let ghost base_e = es + sg.edges@;
    let mut j: usize = 0;
    while j < sg.subgraphs.len()
        invariant
            builder_ok(*g, ix@),
            nodes_view(ir_nodes(*g)) == dedup(base_d + endpoint_decls(sgs_edges(sg.subgraphs@.take(j as int)))),
            edges_in(ir_nodes(*g), ir_edges(*g), base_e + sgs_edges(sg.subgraphs@.take(j as int))),
            ir_nodes(*g).len() <= ir_nodes(*old(g)).len() + 2 * sg.edges@.len() + 2 * sgs_edges(
                sg.subgraphs@.take(j as int),
            ).len(),
            ir_edges(*g).len() == ir_edges(*old(g)).len() + sg.edges@.len() + sgs_edges(sg.subgraphs@.take(j as int)).len(),
            ir_nodes(*old(g)).len() + 2 * sg_edges(*sg).len() + 3 < u32::MAX,
            ir_edges(*old(g)).len() + sg_edges(*sg).len() + 2 < u32::MAX,
            sg_edges(*sg) == sg.edges@ + sgs_edges(sg.subgraphs@),
            base_d == decls + endpoint_decls(sg.edges@),
            base_e == es + sg.edges@,
            j <= sg.subgraphs@.len(),
        decreases sg.subgraphs@.len() - j,
    {
        proof {
            lemma_sgs_take(sg.subgraphs@, j as int);
            lemma_sgs_prefix_len(sg.subgraphs@, (j + 1) as int);
            assert(decreases_to!(*sg => sg.subgraphs));
            assert(decreases_to!(sg.subgraphs => sg.subgraphs@));
            assert(decreases_to!(sg.subgraphs@ => sg.subgraphs@[j as int]));
        }
        let ghost d0 = base_d + endpoint_decls(sgs_edges(sg.subgraphs@.take(j as int)));
        let ghost e0 = base_e + sgs_edges(sg.subgraphs@.take(j as int));
        collect_subgraph_edges(&sg.subgraphs[j], g, ix, Ghost(d0), Ghost(e0));
        proof {
            let nested = sg_edges(sg.subgraphs@[j as int]);
            lemma_endpoint_decls_concat(sgs_edges(sg.subgraphs@.take(j as int)), nested);
            assert(d0 + endpoint_decls(nested) =~= base_d + endpoint_decls(sgs_edges(sg.subgraphs@.take(j + 1))));
            assert(e0 + nested =~= base_e + sgs_edges(sg.subgraphs@.take(j + 1)));
        }
        j = j + 1;
    }
    proof {
        assert(sg.subgraphs@.take(sg.subgraphs@.len() as int) =~= sg.subgraphs@);
        lemma_endpoint_decls_concat(sg.edges@, sgs_edges(sg.subgraphs@));
        assert(base_d + endpoint_decls(sgs_edges(sg.subgraphs@)) =~= decls + endpoint_decls(sg_edges(*sg)));
        assert(base_e + sgs_edges(sg.subgraphs@) =~= es + sg_edges(*sg));
    }
}

proof fn lemma_dedup_len(s: Seq<NodeView>)
    ensures
        dedup(s).len() <= s.len(),
    decreases s.len(),
{
    if s.len() > 0 {
        lemma_dedup_len(s.drop_last());
    }
}

proof fn lemma_top_decls_len(nodes: Seq<Node>, sgs: Seq<Subgraph>)
    ensures
        top_decls(nodes, sgs).len() <= nodes.len(),
    decreases nodes.len(),
{
    if nodes.len() > 0 {
        lemma_top_decls_len(nodes.drop_last(), sgs);
    }
}

proof fn lemma_top_decls_prefix(nodes: Seq<Node>, sgs: Seq<Subgraph>, i: int)
    requires
        0 <= i <= nodes.len(),
    ensures
        top_decls(nodes.take(i), sgs).len() <= top_decls(nodes, sgs).len(),
    decreases nodes.len() - i,
{
    if i < nodes.len() {
        let t1 = nodes.take(i + 1);
        assert(t1.drop_last() =~= nodes.take(i));
        lemma_top_decls_prefix(nodes, sgs, i + 1);
    } else {
        assert(nodes.take(i) =~= nodes);
    }
}

proof fn lemma_endpoint_decls_len(edges: Seq<Edge>)
    ensures
        endpoint_decls(edges).len() == 2 * edges.len(),
    decreases edges.len(),
{
    if edges.len() > 0 {
        lemma_endpoint_decls_len(edges.drop_last());
    }
}

/// Whether `id` names one of the subgraphs `sgs`.
fn is_subgraph_name(sgs: &Vec<Subgraph>, id: &str) -> (r: bool)
    ensures
        r == names_subgraph(sgs@, id@),
{
    let mut j: usize = 0;
    while j < sgs.len()
        invariant
            j <= sgs@.len(),
            forall|k: int| 0 <= k < j ==> (#[trigger] sgs@[k]).name@ != id@,
        decreases sgs@.len() - j,
    {
        if str_eq(sgs[j].name.as_str(), id) {
            return true;
        }
        j = j + 1;
    }
    false
}

impl GraphIR {
    /// Builds the IR of a diagram: its top-level nodes (except those named
    /// like a top-level subgraph), the nodes of its subgraphs (tagged with
    /// their subgraph), placeholders for ids that only edges name, then its
    /// edges and those of its subgraphs; a node id keeps its first
    /// declaration.
    pub fn from_ast(d: &Diagram) -> (r: GraphIR)
        requires
            all_decls(*d).len() + 3 < u32::MAX,
            all_edges(*d).len() + 2 < u32::MAX,
        ensures
            r.wf(),
            nodes_view(r.nodes()) == dedup(all_decls(*d)),
            edges_in(r.nodes(), r.edges(), all_edges(*d)),
            members_view(r.subgraph_members@) == sgs_members(d.subgraphs@),
            r.direction == d.direction,
    {
        proof {
            lemma_top_decls_len(d.nodes@, d.subgraphs@);
            lemma_endpoint_decls_len(all_edges(*d));
            lemma_sgs_prefix_len(d.subgraphs@, d.subgraphs@.len() as int);
        }
        let ghost sgs = d.subgraphs@;
        let ghost top = top_decls(d.nodes@, sgs);
        let ghost bound = all_decls(*d).len();
        let mut g = crate::pgraph::ir_new();
        let mut ix: Vec<(String, usize)> = Vec::new();
        let mut members: Vec<(String, Vec<String>)> = Vec::new();
        proof {
            assert(nodes_view(ir_nodes(g)) =~= dedup(top_decls(d.nodes@.take(0), sgs)));
        }
        let mut i: usize = 0;
        while i < d.nodes.len()
            invariant
                builder_ok(g, ix@),
                ir_edges(g).len() == 0,
                nodes_view(ir_nodes(g)) == dedup(top_decls(d.nodes@.take(i as int), sgs)),
                ir_nodes(g).len() <= top_decls(d.nodes@.take(i as int), sgs).len(),
                top_decls(d.nodes@.take(i as int), sgs).len() <= i,
                sgs == d.subgraphs@,
                top.len() <= d.nodes@.len(),
                bound == all_decls(*d).len(),
                bound + 3 < u32::MAX,
                bound == top.len() + sgs_decls(sgs).len() + endpoint_decls(all_edges(*d)).len(),
                i <= d.nodes@.len(),
            decreases d.nodes@.len() - i,
        {
            let node = &d.nodes[i];
            let ghost t1 = d.nodes@.take(i + 1);
            proof {
                assert(t1.drop_last() =~= d.nodes@.take(i as int));
                assert(t1.last() == d.nodes@[i as int]);
                lemma_dedup_len(top_decls(d.nodes@.take(i as int), sgs));
                lemma_top_decls_prefix(d.nodes@, sgs, i + 1);
            }
            if !is_subgraph_name(&d.subgraphs, node.id.as_str()) {
                let data = NodeData {
                    id: node.id.clone(),
                    label: node.label.clone(),
                    shape: node.shape,
                    attrs: clone_attrs(&node.attrs),
                    subgraph: None,
                };
                proof {
                    assert(data_view(data) == decl_view(*node, None));
                    assert(top_decls(t1, sgs) == top_decls(d.nodes@.take(i as int), sgs).push(decl_view(*node, None)));
                }
                add_decl(&mut g, &mut ix, data, Ghost(top_decls(d.nodes@.take(i as int), sgs)));
            } else {
                proof {
                    assert(top_decls(t1, sgs) == top_decls(d.nodes@.take(i as int), sgs));
                }
            }
            i = i + 1;
        }
        proof {
            assert(d.nodes@.take(d.nodes@.len() as int) =~= d.nodes@);
            assert(sgs.take(0) =~= Seq::<Subgraph>::empty());
            assert(top + sgs_decls(sgs.take(0)) =~= top);
            assert(members_view(members@) =~= sgs_members(sgs.take(0)));
        }
        let mut j: usize = 0;
        while j < d.subgraphs.len()
            invariant
                builder_ok(g, ix@),
                ir_edges(g).len() == 0,
                sgs == d.subgraphs@,
                top == top_decls(d.nodes@, sgs),
                nodes_view(ir_nodes(g)) == dedup(top + sgs_decls(sgs.take(j as int))),
                ir_nodes(g).len() <= top.len() + sgs_decls(sgs.take(j as int)).len(),
                members_view(members@) == sgs_members(sgs.take(j as int)),
                bound == all_decls(*d).len(),
                bound + 3 < u32::MAX,
                bound == top.len() + sgs_decls(sgs).len() + endpoint_decls(all_edges(*d)).len(),
                j <= sgs.len(),
            decreases sgs.len() - j,
        {
            proof {
                lemma_sgs_take(sgs, j as int);
                lemma_sgs_prefix_len(sgs, (j + 1) as int);
            }
            let ghost d0 = top + sgs_decls(sgs.take(j as int));
            collect_subgraph(&d.subgraphs[j], &mut g, &mut ix, &mut members, Ghost(d0));
            proof {
                assert(d0 + sg_decls(sgs[j as int]) =~= top + sgs_decls(sgs.take(j + 1)));
            }
            j = j + 1;
        }
        proof {
            assert(sgs.take(sgs.len() as int) =~= sgs);
            assert(d.edges@.take(0) =~= Seq::<Edge>::empty());
            assert(top + sgs_decls(sgs) + endpoint_decls(d.edges@.take(0)) =~= top + sgs_decls(sgs));
            assert(edges_in(ir_nodes(g), ir_edges(g), d.edges@.take(0)));
            lemma_endpoint_decls_len(d.edges@);
            lemma_sgs_prefix_len(sgs, sgs.len() as int);
        }
        let ghost pre = top + sgs_decls(sgs);
        let mut k: usize = 0;
        while k < d.edges.len()
            invariant
                builder_ok(g, ix@),
                sgs == d.subgraphs@,
                pre == top + sgs_decls(sgs),
                nodes_view(ir_nodes(g)) == dedup(pre + endpoint_decls(d.edges@.take(k as int))),
                edges_in(ir_nodes(g), ir_edges(g), d.edges@.take(k as int)),
                ir_nodes(g).len() <= pre.len() + 2 * k,
                ir_edges(g).len() == k,
                bound == all_decls(*d).len(),
                bound + 3 < u32::MAX,
                bound == top.len() + sgs_decls(sgs).len() + endpoint_decls(all_edges(*d)).len(),
                endpoint_decls(all_edges(*d)).len() == 2 * all_edges(*d).len(),
                all_edges(*d) == d.edges@ + sgs_edges(sgs),
                all_edges(*d).len() + 2 < u32::MAX,
                k <= d.edges@.len(),
            decreases d.edges@.len() - k,
        {
            let ghost d0 = pre + endpoint_decls(d.edges@.take(k as int));
            let ghost e0 = d.edges@.take(k as int);
            add_ir_edge(&mut g, &mut ix, &d.edges[k], Ghost(d0), Ghost(e0));
            proof {
                let t1 = d.edges@.take(k + 1);
                assert(t1.drop_last() =~= e0);
                assert(t1.last() == d.edges@[k as int]);
                assert(d0 + seq![placeholder_view(d.edges@[k as int].from@), placeholder_view(d.edges@[k as int].to@)]
                    =~= pre + endpoint_decls(t1));
                assert(e0.push(d.edges@[k as int]) =~= t1);
            }
            k = k + 1;
        }
        proof {
            assert(d.edges@.take(d.edges@.len() as int) =~= d.edges@);
            assert(sgs.take(0) =~= Seq::<Subgraph>::empty());
            assert(d.edges@ + sgs_edges(sgs.take(0)) =~= d.edges@);
        }
        let mut j: usize = 0;
        while j < d.subgraphs.len()
            invariant
                builder_ok(g, ix@),
                sgs == d.subgraphs@,
                pre == top + sgs_decls(sgs),
                nodes_view(ir_nodes(g)) == dedup(pre + endpoint_decls(d.edges@ + sgs_edges(sgs.take(j as int)))),
                edges_in(ir_nodes(g), ir_edges(g), d.edges@ + sgs_edges(sgs.take(j as int))),
                ir_nodes(g).len() <= pre.len() + 2 * d.edges@.len() + 2 * sgs_edges(sgs.take(j as int)).len(),
                ir_edges(g).len() == d.edges@.len() + sgs_edges(sgs.take(j as int)).len(),
                bound == all_decls(*d).len(),
                bound + 3 < u32::MAX,
                bound == top.len() + sgs_decls(sgs).len() + endpoint_decls(all_edges(*d)).len(),
                endpoint_decls(all_edges(*d)).len() == 2 * all_edges(*d).len(),
                all_edges(*d) == d.edges@ + sgs_edges(sgs),
                all_edges(*d).len() + 2 < u32::MAX,
                j <= sgs.len(),
            decreases sgs.len() - j,
        {
            proof {
                lemma_sgs_take(sgs, j as int);
                lemma_sgs_prefix_len(sgs, (j + 1) as int);
            }
            let ghost es0 = d.edges@ + sgs_edges(sgs.take(j as int));
            let ghost d0 = pre + endpoint_decls(es0);
            collect_subgraph_edges(&d.subgraphs[j], &mut g, &mut ix, Ghost(d0), Ghost(es0));
            proof {
                let nested = sg_edges(sgs[j as int]);
                lemma_endpoint_decls_concat(es0, nested);
                assert(es0 + nested =~= d.edges@ + sgs_edges(sgs.take(j + 1)));
                assert(d0 + endpoint_decls(nested) =~= pre + endpoint_decls(d.edges@ + sgs_edges(sgs.take(j + 1))));
            }
            j = j + 1;
        }
        proof {
            assert(sgs.take(sgs.len() as int) =~= sgs);
            assert(pre + endpoint_decls(all_edges(*d)) =~= all_decls(*d));
        }
        GraphIR { digraph: g, node_index: ix, direction: d.direction, subgraph_members: members }
    }
}

/// A node declared directly in a subgraph keeps, among the subgraph's
/// declarations, its id, label, shape and attributes, with the subgraph's
/// name as its group.
pub proof fn lemma_subgraph_decl_data(sg: Subgraph, j: int)
    requires
        0 <= j < sg.nodes@.len(),
    ensures
        j < sg_decls(sg).len(),
        sg_decls(sg)[j].0 == sg.nodes@[j].id@,
        sg_decls(sg)[j].1 == sg.nodes@[j].label@,
        sg_decls(sg)[j].2 == sg.nodes@[j].shape,
        sg_decls(sg)[j].3 == sg.nodes@[j].attrs@,
        sg_decls(sg)[j].4 == Some(sg.name@),
{
}

proof fn lemma_sgs_decls_prefix(sgs: Seq<Subgraph>, m: int)
    requires
        0 <= m <= sgs.len(),
    ensures
        sgs_decls(sgs.take(m)).is_prefix_of(sgs_decls(sgs)),
    decreases sgs.len() - m,
{
    if m < sgs.len() {
        lemma_sgs_take(sgs, m);
        lemma_sgs_decls_prefix(sgs, m + 1);
        let a = sgs_decls(sgs.take(m));
        let b = sgs_decls(sgs.take(m + 1));
        let c = sgs_decls(sgs);
        assert(a.is_prefix_of(b));
        assert forall|x: int| 0 <= x < a.len() implies a[x] == c[x] by {
            assert(a[x] == b[x]);
            assert(b[x] == c[x]);
        }
        assert(c.subrange(0, a.len() as int) =~= a);
    } else {
        assert(sgs.take(m) =~= sgs);
        assert(sgs_decls(sgs).subrange(0, sgs_decls(sgs).len() as int) =~= sgs_decls(sgs));
    }
}

proof fn lemma_dedup_from(s: Seq<NodeView>, e: NodeView)
    requires
        dedup(s).contains(e),
    ensures
        s.contains(e),
    decreases s.len(),
{
    if s.len() > 0 {
        let d = dedup(s.drop_last());
        if d.contains(e) {
            lemma_dedup_from(s.drop_last(), e);
            let q = choose|q: int| 0 <= q < s.drop_last().len() && s.drop_last()[q] == e;
            assert(s[q] == e);
        } else {
            assert(e == s.last());
            assert(s[s.len() - 1] == e);
        }
    }
}

/// The first declaration of an id is kept.
proof fn lemma_dedup_keeps_first(s: Seq<NodeView>, p: int)
    requires
        0 <= p < s.len(),
        forall|q: int| 0 <= q < p ==> (#[trigger] s[q]).0 != s[p].0,
    ensures
        dedup(s).contains(s[p]),
    decreases s.len(),
{
    let t = s.drop_last();
    let d = dedup(t);
    if p < s.len() - 1 {
        assert forall|q: int| 0 <= q < p implies (#[trigger] t[q]).0 != t[p].0 by {
            assert(t[q] == s[q]);
        }
        lemma_dedup_keeps_first(t, p);
        assert(t[p] == s[p]);
        let x = choose|x: int| 0 <= x < d.len() && d[x] == s[p];
        if !(exists|i: int| 0 <= i < d.len() && (#[trigger] d[i]).0 == s.last().0) {
            assert(dedup(s)[x] == d[x]);
        }
    } else {
        assert(s.last() == s[p]);
        assert forall|i: int| 0 <= i < d.len() implies (#[trigger] d[i]).0 != s.last().0 by {
            assert(d.contains(d[i]));
            lemma_dedup_from(t, d[i]);
            let q = choose|q: int| 0 <= q < t.len() && t[q] == d[i];
            assert(s[q] == t[q]);
        }
        assert(dedup(s) == d.push(s.last()));
        assert(dedup(s)[d.len() as int] == s[p]);
    }
}

/// The graph of a diagram holds every node that is first declared in one of
/// its subgraphs with the data it was declared with: its label, shape and
/// attributes, and the subgraph's name as its group (no top-level
/// declaration, no declaration in an earlier subgraph and no earlier one in
/// the same subgraph having the same id).
pub proof fn lemma_subgraph_node_in_graph(d: Diagram, r: GraphIR, i: int, j: int)
    requires
        nodes_view(r.nodes()) == dedup(all_decls(d)),
        0 <= i < d.subgraphs@.len(),
        0 <= j < d.subgraphs@[i].nodes@.len(),
        forall|t: int|
            0 <= t < top_decls(d.nodes@, d.subgraphs@).len() ==> (#[trigger] top_decls(d.nodes@, d.subgraphs@)[t]).0
                != d.subgraphs@[i].nodes@[j].id@,
        forall|t: int|
            0 <= t < sgs_decls(d.subgraphs@.take(i)).len() ==> (#[trigger] sgs_decls(d.subgraphs@.take(i))[t]).0
                != d.subgraphs@[i].nodes@[j].id@,
        forall|t: int| 0 <= t < j ==> (#[trigger] d.subgraphs@[i].nodes@[t]).id@ != d.subgraphs@[i].nodes@[j].id@,
    ensures
        exists|k: int|
            0 <= k < r.nodes().len() && {
                let nd = #[trigger] r.nodes()[k];
                let n = d.subgraphs@[i].nodes@[j];
                &&& nd.id@ == n.id@
                &&& nd.label@ == n.label@
                &&& nd.shape == n.shape
                &&& nd.attrs@ == n.attrs@
                &&& opt_view(nd.subgraph) == Some(d.subgraphs@[i].name@)
            },
{
    let sgs = d.subgraphs@;
    let sg = sgs[i];
    let n = sg.nodes@[j];
    let top = top_decls(d.nodes@, sgs);
    let before = sgs_decls(sgs.take(i));
    let own = sg_decls(sg);
    let all = all_decls(d);
    lemma_subgraph_decl_data(sg, j);
    lemma_sgs_take(sgs, i);
    lemma_sgs_decls_prefix(sgs, i + 1);
    let upto = sgs_decls(sgs.take(i + 1));
    assert(upto =~= before + own);
    let p = top.len() + before.len() + j;
    assert(all == top + sgs_decls(sgs) + endpoint_decls(all_edges(d)));
    assert(all[p] == sgs_decls(sgs)[before.len() + j]);
    assert(sgs_decls(sgs)[before.len() + j] == upto[before.len() + j]);
    assert(all[p] == own[j]);
    assert forall|q: int| 0 <= q < p implies (#[trigger] all[q]).0 != all[p].0 by {
        if q < top.len() {
            assert(all[q] == top[q]);
        } else if q < top.len() + before.len() {
            assert(all[q] == sgs_decls(sgs)[q - top.len()]);
            assert(sgs_decls(sgs)[q - top.len()] == upto[q - top.len()]);
            assert(upto[q - top.len()] == before[q - top.len()]);
        } else {
            let t = q - top.len() - before.len();
            assert(all[q] == sgs_decls(sgs)[q - top.len()]);
            assert(sgs_decls(sgs)[q - top.len()] == upto[q - top.len()]);
            assert(upto[q - top.len()] == own[t]);
            lemma_subgraph_decl_data(sg, t);
        }
    }
    lemma_dedup_keeps_first(all, p);
    let views = nodes_view(r.nodes());
    let x = choose|x: int| 0 <= x < views.len() && views[x] == all[p];
    assert(views[x] == data_view(r.nodes()[x]));
}

} // verus!
