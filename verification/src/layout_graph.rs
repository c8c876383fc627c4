//! A directed graph of node ids with labelled edges, for the layout phases:
//! nodes are found by id and get indices in the order they were added.
use vstd::prelude::*;
use petgraph::graph::{DiGraph, NodeIndex};
use crate::pgraph::{edges_within, lists_adjacent, lists_adjacent_source};
use crate::text::str_eq;

verus! {

/// The node weights (the ids) of a layout graph's digraph, by node index.
pub uninterp spec fn lg_nodes(g: DiGraph<String, String>) -> Seq<String>;

/// The edges `(source, target, label)` of a layout graph's digraph, by edge
/// index.
pub uninterp spec fn lg_edges(g: DiGraph<String, String>) -> Seq<(nat, nat, String)>;

/// `DiGraph::new`: an empty graph.
#[verifier::external_body]
fn lg_new() -> (g: DiGraph<String, String>)
    ensures
        lg_nodes(g) == Seq::<String>::empty(),
        lg_edges(g) == Seq::<(nat, nat, String)>::empty(),
{
    DiGraph::new()
}

/// `Graph::add_node`: appends a node and returns its index (it panics at the
/// 32-bit index limit, which `requires` rules out).
#[verifier::external_body]
fn lg_add_node(g: &mut DiGraph<String, String>, w: String) -> (i: usize)
    requires
        lg_nodes(*old(g)).len() + 1 < u32::MAX,
    ensures
        lg_nodes(*final(g)) == lg_nodes(*old(g)).push(w),
        lg_edges(*final(g)) == lg_edges(*old(g)),
        i == lg_nodes(*old(g)).len(),
{
    g.add_node(w).index()
}

/// `Graph::add_edge`: appends the edge `a → b` (it panics for a missing
/// endpoint or at the 32-bit index limit, which `requires` rules out).
#[verifier::external_body]
fn lg_add_edge(g: &mut DiGraph<String, String>, a: usize, b: usize, w: String)
    requires
        a < lg_nodes(*old(g)).len(),
        b < lg_nodes(*old(g)).len(),
        lg_nodes(*old(g)).len() < u32::MAX,
        lg_edges(*old(g)).len() + 1 < u32::MAX,
    ensures
        lg_nodes(*final(g)) == lg_nodes(*old(g)),
        lg_edges(*final(g)) == lg_edges(*old(g)).push((a as nat, b as nat, w)),
{
    g.add_edge(NodeIndex::new(a), NodeIndex::new(b), w);
}

/// `Graph::node_count`.
#[verifier::external_body]
fn lg_node_count(g: &DiGraph<String, String>) -> (n: usize)
    ensures
        n == lg_nodes(*g).len(),
{
    g.node_count()
}

/// `Graph::edge_count`.
#[verifier::external_body]
fn lg_edge_count(g: &DiGraph<String, String>) -> (n: usize)
    ensures
        n == lg_edges(*g).len(),
{
    g.edge_count()
}

/// `graph[NodeIndex]`: the weight of node `i` (it panics for a missing node,
/// which `requires` rules out).
#[verifier::external_body]
fn lg_node(g: &DiGraph<String, String>, i: usize) -> (w: &String)
    requires
        i < lg_nodes(*g).len(),
        lg_nodes(*g).len() < u32::MAX,
    ensures
        *w == lg_nodes(*g)[i as int],
{
    &g[NodeIndex::new(i)]
}

/// `Graph::neighbors_directed`: the neighbours of node `i` in the given
/// direction, one entry per edge. The order is that of the node's edge list
/// inside `petgraph`, which this contract leaves unsaid.
#[verifier::external_body]
fn lg_neighbors(g: &DiGraph<String, String>, i: usize, outgoing: bool) -> (r: Vec<usize>)
    requires
        i < lg_nodes(*g).len(),
        lg_nodes(*g).len() < u32::MAX,
    ensures
        lists_adjacent(r@.map_values(|x: usize| x as nat), lg_edges(*g), i as nat, outgoing),
{
    let dir = if outgoing { petgraph::Direction::Outgoing } else { petgraph::Direction::Incoming };
    g.neighbors_directed(NodeIndex::new(i), dir).map(|x| x.index()).collect()
}

/// `Graph::contains_edge`: whether some edge goes from `a` to `b`.
#[verifier::external_body]
fn lg_contains_edge(g: &DiGraph<String, String>, a: usize, b: usize) -> (r: bool)
    requires
        a < lg_nodes(*g).len(),
        b < lg_nodes(*g).len(),
        lg_nodes(*g).len() < u32::MAX,
    ensures
        r == (exists|k: int| 0 <= k < lg_edges(*g).len() && (#[trigger] lg_edges(*g)[k]).0 == a && lg_edges(*g)[k].1 == b),
{
    g.contains_edge(NodeIndex::new(a), NodeIndex::new(b))
}

/// A directed graph of node ids, found by id.
#[derive(Debug)]
pub struct LayoutGraph {
    /// The graph; each node's weight is its id, each edge's its label.
    pub inner: DiGraph<String, String>,
    /// Entry `i` is the id of node `i` and `i`.
    pub id_map: Vec<(String, usize)>,
}

/// The position of `id` among `ids`, if present.
pub open spec fn id_position(ids: Seq<Seq<char>>, id: Seq<char>) -> Option<nat> {
    if exists|i: int| 0 <= i < ids.len() && ids[i] == id {
        Some((choose|i: int| 0 <= i < ids.len() && ids[i] == id) as nat)
    } else {
        None
    }
}

/// The text of each string of a list.
pub open spec fn str_views(r: Seq<&str>) -> Seq<Seq<char>> {
    r.map_values(|s: &str| s@)
}

impl LayoutGraph {
    /// The node ids, by index.
    pub open spec fn ids(&self) -> Seq<Seq<char>> {
        lg_nodes(self.inner).map_values(|s: String| s@)
    }

    /// The edges `(source, target, label)`, by index.
    pub open spec fn edge_list(&self) -> Seq<(nat, nat, String)> {
        lg_edges(self.inner)
    }

    /// Ids are distinct and listed in `id_map`; edges join nodes; counts fit
    /// the 32-bit indices.
    pub open spec fn wf(&self) -> bool {
        &&& self.ids().len() < u32::MAX
        &&& self.edge_list().len() < u32::MAX
        &&& edges_within(self.ids().len(), self.edge_list())
        &&& self.id_map@.len() == self.ids().len()
        &&& forall|i: int| 0 <= i < self.id_map@.len() ==> (#[trigger] self.id_map@[i]).1 == i && self.id_map@[i].0@ == self.ids()[i]
        &&& forall|i: int, j: int| 0 <= i < self.ids().len() && 0 <= j < self.ids().len() && i != j ==> self.ids()[i] != self.ids()[j]
    }

    /// An empty graph.
    pub fn new() -> (g: LayoutGraph)
        ensures
            g.wf(),
            g.ids().len() == 0,
            g.edge_list().len() == 0,
    {
        let g = LayoutGraph { inner: lg_new(), id_map: Vec::new() };
        assert(g.ids() =~= Seq::<Seq<char>>::empty());
        g
    }

    /// The index of node `id`, if present.
    pub fn node_index(&self, id: &str) -> (r: Option<usize>)
        requires
            self.wf(),
        ensures
            r is None <==> id_position(self.ids(), id@) is None,
            r matches Some(i) ==> id_position(self.ids(), id@) == Some(i as nat) && i < self.ids().len(),
    {
        let mut i: usize = 0;
        while i < self.id_map.len()
            invariant
                self.wf(),
                i <= self.id_map@.len(),
                forall|j: int| 0 <= j < i ==> self.ids()[j] != id@,
            decreases self.id_map@.len() - i,
        {
            if str_eq(self.id_map[i].0.as_str(), id) {
                proof {
                    let c = choose|j: int| 0 <= j < self.ids().len() && self.ids()[j] == id@;
                    assert(c == i);
                }
                return Some(self.id_map[i].1);
            }
            i = i + 1;
        }
        None
    }

    /// Adds node `id` unless present; returns its index.
    pub fn add_node(&mut self, id: &str) -> (i: usize)
        requires
            old(self).wf(),
            old(self).ids().len() + 1 < u32::MAX,
        ensures
            final(self).wf(),
            final(self).edge_list() == old(self).edge_list(),
            id_position(old(self).ids(), id@) matches Some(j) ==> final(self).ids() == old(self).ids() && i == j,
            id_position(old(self).ids(), id@) is None ==> final(self).ids() == old(self).ids().push(id@) && i
                == old(self).ids().len(),
            i < final(self).ids().len(),
            final(self).ids()[i as int] == id@,
    {
        match self.node_index(id) {
            Some(i) => i,
            None => {
                let ghost ids0 = self.ids();
                let i = lg_add_node(&mut self.inner, id.to_string());
                self.id_map.push((id.to_string(), i));
                proof {
                    assert(self.ids() =~= ids0.push(id@));
                    assert forall|a: int| 0 <= a < self.id_map@.len() implies (#[trigger] self.id_map@[a]).1 == a
                        && self.id_map@[a].0@ == self.ids()[a] by {
                        if a < ids0.len() {
                            assert(self.id_map@[a] == old(self).id_map@[a]);
                        }
                    }
                    assert forall|k: int| 0 <= k < self.edge_list().len() implies (#[trigger] self.edge_list()[k]).0
                        < self.ids().len() && self.edge_list()[k].1 < self.ids().len() by {
                        assert(self.edge_list()[k] == old(self).edge_list()[k]);
                    }
                }
                i
            },
        }
    }

    /// Adds the edge `from → to` with `label`, adding missing nodes.
    pub fn add_edge(&mut self, from: &str, to: &str, label: String)
        requires
            old(self).wf(),
            old(self).ids().len() + 2 < u32::MAX,
            old(self).edge_list().len() + 1 < u32::MAX,
        ensures
            final(self).wf(),
            old(self).ids().is_prefix_of(final(self).ids()),
            id_position(final(self).ids(), from@) matches Some(a) && id_position(final(self).ids(), to@) matches Some(b)
                && final(self).edge_list() == old(self).edge_list().push((a, b, label)),
    {
        let a = self.add_node(from);
        let ghost ids1 = self.ids();
        let b = self.add_node(to);
        proof {
            assert(self.ids()[a as int] == ids1[a as int]);
            assert(self.ids()[a as int] == from@);
            let c = choose|j: int| 0 <= j < self.ids().len() && self.ids()[j] == from@;
            assert(c == a);
            let d = choose|j: int| 0 <= j < self.ids().len() && self.ids()[j] == to@;
            assert(d == b);
        }
        lg_add_edge(&mut self.inner, a, b, label);
        proof {
            assert forall|k: int| 0 <= k < self.edge_list().len() implies (#[trigger] self.edge_list()[k]).0
                < self.ids().len() && self.edge_list()[k].1 < self.ids().len() by {
                if k < old(self).edge_list().len() {
                    assert(self.edge_list()[k] == old(self).edge_list()[k]);
                }
            }
        }
    }

    /// Whether node `id` is present.
    pub fn contains_node(&self, id: &str) -> (r: bool)
        requires
            self.wf(),
        ensures
            r == self.ids().contains(id@),
    {
        match self.node_index(id) {
            Some(i) => {
                assert(self.ids()[i as int] == id@);
                true
            },
            None => false,
        }
    }

    /// The id of node `idx`.
    pub fn node_id(&self, idx: usize) -> (s: &str)
        requires
            self.wf(),
            idx < self.ids().len(),
        ensures
            s@ == self.ids()[idx as int],
    {
        lg_node(&self.inner, idx).as_str()
    }

    /// The number of nodes.
    pub fn node_count(&self) -> (n: usize)
        ensures
            n == self.ids().len(),
    {
        lg_node_count(&self.inner)
    }

    /// The number of edges.
    pub fn edge_count(&self) -> (n: usize)
        ensures
            n == self.edge_list().len(),
    {
        lg_edge_count(&self.inner)
    }

    /// All node ids, by index.
    pub fn node_ids(&self) -> (r: Vec<&str>)
        requires
            self.wf(),
        ensures
            r@.map_values(|s: &str| s@) == self.ids(),
    {
        let n = lg_node_count(&self.inner);
        let mut r: Vec<&str> = Vec::new();
        let mut i: usize = 0;
        while i < n
            invariant
                self.wf(),
                n == self.ids().len(),
                i <= n,
                r@.map_values(|s: &str| s@) == self.ids().take(i as int),
            decreases n - i,
        {
            let ghost r0 = r@;
            let st = lg_node(&self.inner, i).as_str();
            proof {
                assert(st@ == self.ids()[i as int]);
            }
            r.push(st);
            proof {
                assert(r@.map_values(|s: &str| s@) =~= r0.map_values(|s: &str| s@).push(st@));
                assert(r@.map_values(|s: &str| s@) =~= self.ids().take(i + 1));
            }
            i = i + 1;
        }
        proof {
            assert(self.ids().take(n as int) =~= self.ids());
        }
        r
    }

    fn neighbour_ids(&self, id: &str, outgoing: bool) -> (r: Vec<&str>)
        requires
            self.wf(),
        ensures
            self.lists_neighbour_ids(id@, outgoing, str_views(r@)),
    {
        match self.node_index(id) {
            None => {
                let r: Vec<&str> = Vec::new();
                assert(str_views(r@) =~= Seq::<Seq<char>>::empty());
                r
            },
            Some(i) => {
                let nb = lg_neighbors(&self.inner, i, outgoing);
                let ghost nv = nb@.map_values(|x: usize| x as nat);
                let mut r: Vec<&str> = Vec::new();
                let mut t: usize = 0;
                while t < nb.len()
                    invariant
                        self.wf(),
                        i < self.ids().len(),
                        nv == nb@.map_values(|x: usize| x as nat),
                        lists_adjacent(nv, self.edge_list(), i as nat, outgoing),
                        t <= nb@.len(),
                        r@.map_values(|s: &str| s@) == nv.take(t as int).map_values(|j: nat| self.ids()[j as int]),
                    decreases nb@.len() - t,
                {
                    proof {
                        let k = lists_adjacent_source(nv, self.edge_list(), i as nat, outgoing, t as int);
                        assert(self.edge_list()[k].0 < self.ids().len() && self.edge_list()[k].1 < self.ids().len());
                        assert(nv[t as int] == nb@[t as int] as nat);
                    }
                    let ghost r0 = r@;
                    let st = lg_node(&self.inner, nb[t]).as_str();
                    proof {
                        assert(st@ == self.ids()[nv[t as int] as int]);
                    }
                    r.push(st);
                    proof {
                        assert(r@.map_values(|s: &str| s@) =~= r0.map_values(|s: &str| s@).push(st@));
                        assert(r@.map_values(|s: &str| s@) =~= nv.take(t + 1).map_values(|j: nat| self.ids()[j as int]));
                    }
                    t = t + 1;
                }
                proof {
                    assert(nv.take(nb@.len() as int) =~= nv);
                    assert(str_views(r@) =~= self.ids_at(nv));
                    let pos = id_position(self.ids(), id@);
                    assert(lists_adjacent(nv, self.edge_list(), pos->0, outgoing) && str_views(r@) == self.ids_at(nv));
                }
                r
            },
        }
    }

    /// `ids` are the ids of the neighbours of node `id` in the given
    /// direction, one per edge, in some order (none for an unknown id).
    pub open spec fn lists_neighbour_ids(self, id: Seq<char>, outgoing: bool, ids: Seq<Seq<char>>) -> bool {
        match id_position(self.ids(), id) {
            Some(i) => exists|p: Seq<nat>| #[trigger] lists_adjacent(p, self.edge_list(), i, outgoing) && ids == self.ids_at(p),
            None => ids.len() == 0,
        }
    }

    /// The ids of the nodes at the indices `p`.
    pub open spec fn ids_at(self, p: Seq<nat>) -> Seq<Seq<char>> {
        p.map_values(|j: nat| self.ids()[j as int])
    }

    /// The ids of the successors of node `id`, one per edge, in the order
    /// petgraph walks them (none for an unknown id).
    pub fn successors(&self, id: &str) -> (r: Vec<&str>)
        requires
            self.wf(),
        ensures
            self.lists_neighbour_ids(id@, true, str_views(r@)),
    {
        self.neighbour_ids(id, true)
    }

    /// The ids of the predecessors of node `id`, one per edge, in the order
    /// petgraph walks them (none for an unknown id).
    pub fn predecessors(&self, id: &str) -> (r: Vec<&str>)
        requires
            self.wf(),
        ensures
            self.lists_neighbour_ids(id@, false, str_views(r@)),
    {
        self.neighbour_ids(id, false)
    }

    /// Whether an edge goes from node `from` to node `to` (false when either
    /// is unknown).
    pub fn has_edge(&self, from: &str, to: &str) -> (r: bool)
        requires
            self.wf(),
        ensures
            r == (id_position(self.ids(), from@) matches Some(a) && id_position(self.ids(), to@) matches Some(b)
                && exists|k: int| 0 <= k < self.edge_list().len() && (#[trigger] self.edge_list()[k]).0 == a && self.edge_list()[k].1 == b),
    {
        match (self.node_index(from), self.node_index(to)) {
            (Some(a), Some(b)) => lg_contains_edge(&self.inner, a, b),
            _ => false,
        }
    }

    /// The underlying graph.
    pub fn inner(&self) -> (g: &DiGraph<String, String>)
        ensures
            *g == self.inner,
    {
        &self.inner
    }
}

impl Default for LayoutGraph {
    fn default() -> (g: Self)
        ensures
            g.wf(),
            g.ids().len() == 0,
            g.edge_list().len() == 0,
    {
        LayoutGraph::new()
    }
}

} // verus!
