//! Sugiyama-style layout phases over the graph IR: cycle removal (greedy
//! feedback arc set), layer assignment (longest path) and dummy-node insertion.
use vstd::prelude::*;
use petgraph::graph::DiGraph;
use crate::fas::{count_in, count_occ, count_out, count_pair, count_true, lemma_adjacent_occ, lemma_count_all_active, lemma_count_bounds, lemma_count_occ_le, lemma_count_occ_multiset, lemma_count_occ_take, lemma_count_remove, lemma_count_true_all, lemma_count_true_update, lemma_count_true_zero, lemma_count_zero, lemma_no_pair_from_active, lemma_sink_exists};
use crate::ast::{EdgeType, NodeShape};
use crate::graph::{EdgeData, GraphIR, NodeData};
use crate::keyed::{keys_distinct, kv_get, kv_map, kv_set, lemma_kv_index};
use crate::pgraph::{acyclic, adjacent, adjacent_source, edges_within, lists_adjacent, lists_adjacent_len, lists_adjacent_source, ir_add_edge, ir_add_node, ir_edge_count, ir_edge_endpoints, ir_edge_weight, ir_edges, ir_neighbors, ir_node, ir_node_count, ir_nodes, ir_wf, is_topo_list, is_topo_positions};

verus! {

// ─── Layout IR ──────────────────────────────────────────────────────────────

/// Ids of dummy nodes (inserted along long edges) start with this prefix.
pub const DUMMY_PREFIX: &'static str = "__dummy_";

/// Ids of compound nodes (collapsed subgraphs) start with this prefix.
pub const COMPOUND_PREFIX: &'static str = "__sg_";

/// A positioned node.
#[derive(Debug)]
pub struct LayoutNode {
    /// The node's id.
    pub id: String,
    /// Layer (rank); 0 is the first.
    pub layer: usize,
    /// Position within the layer.
    pub order: usize,
    /// Column of the left border.
    pub x: usize,
    /// Row of the top border.
    pub y: usize,
    /// Width in characters, borders included.
    pub width: usize,
    /// Height in characters, borders included.
    pub height: usize,
}

impl Clone for LayoutNode {
    fn clone(&self) -> (r: Self)
        ensures
            r == *self,
    {
        LayoutNode {
            id: self.id.clone(),
            layer: self.layer,
            order: self.order,
            x: self.x,
            y: self.y,
            width: self.width,
            height: self.height,
        }
    }
}

/// A point in character coordinates.
#[derive(Debug, Clone, Copy, PartialEq, Eq, Structural)]
pub struct Point {
    pub x: usize,
    pub y: usize,
}

/// An edge routed through a list of waypoints.
#[derive(Debug)]
pub struct RoutedEdge {
    pub from_id: String,
    pub to_id: String,
    pub label: Option<String>,
    pub edge_type: EdgeType,
    /// The route, from the source to the target.
    pub waypoints: Vec<Point>,
}

// ─── Greedy-FAS bookkeeping ─────────────────────────────────────────────────

/// The degree counters agree with the edges between active nodes.
pub open spec fn fas_state_ok(
    edges: Seq<(nat, nat, EdgeData)>,
    n: nat,
    active: Seq<bool>,
    out_deg: Seq<i64>,
    in_deg: Seq<i64>,
) -> bool {
    &&& active.len() == n
    &&& out_deg.len() == n
    &&& in_deg.len() == n
    &&& edges_within(n, edges)
    &&& forall|v: int|
        0 <= v < n && #[trigger] active[v] ==> out_deg[v] == count_out(edges, v as nat, active)
            && in_deg[v] == count_in(edges, v as nat, active)
}

/// Decrements `deg[y]` for each active neighbour `y` of `x` (one step per
/// edge), the neighbours being predecessors (`outgoing == false`) or
/// successors.
fn fas_decrement(
    graph: &DiGraph<NodeData, EdgeData>,
    active: &Vec<bool>,
    deg: &mut Vec<i64>,
    x: usize,
    outgoing: bool,
)
    requires
        ir_wf(*graph),
        x < ir_nodes(*graph).len(),
        active@.len() == ir_nodes(*graph).len(),
        old(deg)@.len() == ir_nodes(*graph).len(),
        forall|v: int|
            0 <= v < active@.len() && #[trigger] active@[v] ==> old(deg)@[v] >= (if outgoing {
                count_pair(ir_edges(*graph), x as nat, v as nat)
            } else {
                count_pair(ir_edges(*graph), v as nat, x as nat)
            }),
    ensures
        final(deg)@.len() == old(deg)@.len(),
        forall|v: int|
            0 <= v < active@.len() ==> (#[trigger] final(deg)@[v]) == (if active@[v] {
                old(deg)@[v] - (if outgoing {
                    count_pair(ir_edges(*graph), x as nat, v as nat)
                } else {
                    count_pair(ir_edges(*graph), v as nat, x as nat)
                })
            } else {
                old(deg)@[v] as int
            }),
{
    let ghost edges = ir_edges(*graph);
    let list = ir_neighbors(graph, x, outgoing);
    let ghost ln = list@.map_values(|y: usize| y as nat);
    proof {
        assert forall|v: nat| #[trigger] count_occ(ln, v) == (if outgoing {
            count_pair(edges, x as nat, v)
        } else {
            count_pair(edges, v, x as nat)
        }) by {
            lemma_adjacent_occ(edges, x as nat, v);
            lemma_count_occ_multiset(ln, v);
            lemma_count_occ_multiset(adjacent(edges, x as nat, outgoing), v);
        }
    }
    let mut j: usize = 0;
    while j < list.len()
        invariant
            ir_wf(*graph),
            edges == ir_edges(*graph),
            ln == list@.map_values(|y: usize| y as nat),
            lists_adjacent(ln, edges, x as nat, outgoing),
            forall|v: nat| #[trigger] count_occ(ln, v) == (if outgoing {
                count_pair(edges, x as nat, v)
            } else {
                count_pair(edges, v, x as nat)
            }),
            j <= list@.len(),
            x < ir_nodes(*graph).len(),
            active@.len() == ir_nodes(*graph).len(),
            deg@.len() == old(deg)@.len(),
            active@.len() == old(deg)@.len(),
            forall|v: int|
                0 <= v < active@.len() && #[trigger] active@[v] ==> old(deg)@[v] >= (if outgoing {
                    count_pair(edges, x as nat, v as nat)
                } else {
                    count_pair(edges, v as nat, x as nat)
                }),
            forall|v: int|
                0 <= v < active@.len() ==> (#[trigger] deg@[v]) == (if active@[v] {
                    old(deg)@[v] - count_occ(ln.take(j as int), v as nat)
                } else {
                    old(deg)@[v] as int
                }),
        decreases list@.len() - j,
    {
        let y = list[j];
        proof {
            assert(ln[j as int] == y as nat);
            // every neighbour is a node
            let k = lists_adjacent_source(ln, edges, x as nat, outgoing, j as int);
            assert(edges[k].0 < ir_nodes(*graph).len() && edges[k].1 < ir_nodes(*graph).len());
            assert(y < active@.len());
            assert forall|v: int| 0 <= v < active@.len() implies #[trigger] count_occ(
                ln.take(j + 1),
                v as nat,
            ) == count_occ(ln.take(j as int), v as nat) + (if y == v {
                1nat
            } else {
                0nat
            }) by {
                lemma_count_occ_take(ln, j as int, v as nat);
            }
        }
        if active[y] {
            proof {
                lemma_count_occ_le(ln, j + 1, y as nat);
            }
            let d = deg[y];
            deg.set(y, d - 1);
        }
        j = j + 1;
    }
    proof {
        assert(ln.take(list@.len() as int) =~= ln);
    }
}

/// Every node of `0..n` is either still active or placed exactly once in
/// `s1` or `s2`.
pub open spec fn placement_ok(n: nat, active: Seq<bool>, s1: Seq<usize>, s2: Seq<usize>) -> bool {
    &&& active.len() == n
    &&& forall|i: int| 0 <= i < s1.len() ==> (#[trigger] s1[i]) < n && !active[s1[i] as int]
    &&& forall|i: int| 0 <= i < s2.len() ==> (#[trigger] s2[i]) < n && !active[s2[i] as int]
    &&& s1.no_duplicates()
    &&& s2.no_duplicates()
    &&& forall|i: int, j: int| 0 <= i < s1.len() && 0 <= j < s2.len() ==> s1[i] != s2[j]
    &&& forall|v: int| 0 <= v < n && !(#[trigger] active[v]) ==> s1.contains(v as usize) || s2.contains(
        v as usize,
    )
    &&& s1.len() + s2.len() + count_true(active) == n
}

/// The sinks placed so far: each one's successors were placed before it.
pub open spec fn sinks_ordered(edges: Seq<(nat, nat, EdgeData)>, active: Seq<bool>, s2: Seq<usize>) -> bool {
    &&& forall|k: int, i: int|
        #![trigger edges[k], s2[i]]
        0 <= k < edges.len() && 0 <= i < s2.len() && s2[i] == edges[k].0 ==> !active[edges[k].1 as int]
    &&& forall|k: int, i: int, j: int|
        #![trigger edges[k], s2[i], s2[j]]
        0 <= k < edges.len() && 0 <= i < s2.len() && 0 <= j < s2.len() && s2[i] == edges[k].0
            && s2[j] == edges[k].1 ==> j < i
}

/// The loop state of the greedy feedback-arc-set ordering.
pub open spec fn fas_inv(
    g: DiGraph<NodeData, EdgeData>,
    active: Seq<bool>,
    out_deg: Seq<i64>,
    in_deg: Seq<i64>,
    s1: Seq<usize>,
    s2: Seq<usize>,
    remaining: nat,
) -> bool {
    &&& ir_wf(g)
    &&& fas_state_ok(ir_edges(g), ir_nodes(g).len(), active, out_deg, in_deg)
    &&& placement_ok(ir_nodes(g).len(), active, s1, s2)
    &&& remaining == count_true(active)
    &&& acyclic(ir_nodes(g).len(), ir_edges(g)) ==> s1.len() == 0 && sinks_ordered(
        ir_edges(g),
        active,
        s2,
    )
}

/// `order` lists each node of `0..n` exactly once.
pub open spec fn is_node_permutation(n: nat, order: Seq<usize>) -> bool {
    &&& order.len() == n
    &&& forall|i: int| 0 <= i < n ==> (#[trigger] order[i]) < n
    &&& order.no_duplicates()
}

/// The active nodes whose counter is zero, in increasing order.
fn collect_zero(active: &Vec<bool>, deg: &Vec<i64>) -> (r: Vec<usize>)
    requires
        active@.len() == deg@.len(),
    ensures
        forall|i: int| 0 <= i < r@.len() ==> (#[trigger] r@[i]) < active@.len() && active@[r@[i] as int]
            && deg@[r@[i] as int] == 0,
        forall|i: int, j: int| 0 <= i < j < r@.len() ==> r@[i] < r@[j],
        forall|v: int| 0 <= v < active@.len() && #[trigger] active@[v] && deg@[v] == 0 ==> r@.contains(
            v as usize,
        ),
{
    let mut r: Vec<usize> = Vec::new();
    let mut v: usize = 0;
    while v < active.len()
        invariant
            v <= active@.len(),
            active@.len() == deg@.len(),
            forall|i: int| 0 <= i < r@.len() ==> (#[trigger] r@[i]) < v && active@[r@[i] as int]
                && deg@[r@[i] as int] == 0,
            forall|i: int, j: int| 0 <= i < j < r@.len() ==> r@[i] < r@[j],
            forall|w: int| 0 <= w < v && #[trigger] active@[w] && deg@[w] == 0 ==> r@.contains(w as usize),
        decreases active@.len() - v,
    {
        let ghost r0 = r@;
        if active[v] && deg[v] == 0 {
            r.push(v);
            proof {
                assert(r@[r0.len() as int] == v);
                assert forall|w: int| 0 <= w < v && #[trigger] active@[w] && deg@[w] == 0 implies r@.contains(
                    w as usize,
                ) by {
                    let i = choose|i: int| 0 <= i < r0.len() && r0[i] == w as usize;
                    assert(r@[i] == w as usize);
                }
            }
        }
        v = v + 1;
    }
    r
}

/// Removes the active node `x` and brings the degree counters of the other
/// active nodes up to date: predecessors' out-degrees when `upd_out`,
/// successors' in-degrees when `upd_in` (a counter left alone must not
/// change, which `requires` states).
fn fas_take(
    graph: &DiGraph<NodeData, EdgeData>,
    active: &mut Vec<bool>,
    out_deg: &mut Vec<i64>,
    in_deg: &mut Vec<i64>,
    x: usize,
    upd_out: bool,
    upd_in: bool,
)
    requires
        ir_wf(*graph),
        fas_state_ok(ir_edges(*graph), ir_nodes(*graph).len(), old(active)@, old(out_deg)@, old(in_deg)@),
        x < old(active)@.len(),
        old(active)@[x as int],
        !upd_in ==> count_out(ir_edges(*graph), x as nat, old(active)@) == 0,
        !upd_out ==> count_in(ir_edges(*graph), x as nat, old(active)@) == 0,
    ensures
        final(active)@ == old(active)@.update(x as int, false),
        fas_state_ok(ir_edges(*graph), ir_nodes(*graph).len(), final(active)@, final(out_deg)@, final(in_deg)@),
        forall|v: int|
            0 <= v < final(active)@.len() && #[trigger] final(active)@[v] ==> final(out_deg)@[v] <= old(out_deg)@[v]
                && final(in_deg)@[v] <= old(in_deg)@[v],
{
    let ghost edges = ir_edges(*graph);
    let ghost old_active = active@;
    active.set(x, false);
    let ghost na = active@;
    proof {
        assert forall|v: int| 0 <= v < na.len() implies (#[trigger] count_out(edges, v as nat, na))
            + count_pair(edges, v as nat, x as nat) == count_out(edges, v as nat, old_active) && count_in(
            edges,
            v as nat,
            na,
        ) + count_pair(edges, x as nat, v as nat) == count_in(edges, v as nat, old_active) by {
            lemma_count_remove(edges, old_active, x as nat, v as nat);
        }
        assert forall|v: int| 0 <= v < na.len() && #[trigger] na[v] implies (!upd_in ==> count_pair(
            edges,
            x as nat,
            v as nat,
        ) == 0) && (!upd_out ==> count_pair(edges, v as nat, x as nat) == 0) by {
            lemma_no_pair_from_active(edges, old_active, x as nat, v as nat);
        }
        assert forall|v: int| 0 <= v < na.len() && #[trigger] na[v] implies out_deg@[v] >= count_pair(
            edges,
            v as nat,
            x as nat,
        ) && in_deg@[v] >= count_pair(edges, x as nat, v as nat) by {
            assert(old_active[v]);
            assert(count_out(edges, v as nat, na) + count_pair(edges, v as nat, x as nat) == count_out(
                edges,
                v as nat,
                old_active,
            ));
            assert(count_in(edges, v as nat, na) + count_pair(edges, x as nat, v as nat) == count_in(
                edges,
                v as nat,
                old_active,
            ));
        }
    }
    let ghost od0 = out_deg@;
    let ghost id0 = in_deg@;
    if upd_out {
        fas_decrement(graph, active, out_deg, x, false);
    }
    if upd_in {
        fas_decrement(graph, active, in_deg, x, true);
    }
    proof {
        assert forall|v: int| 0 <= v < na.len() && #[trigger] na[v] implies out_deg@[v] == count_out(
            edges,
            v as nat,
            na,
        ) && in_deg@[v] == count_in(edges, v as nat, na) by {
            assert(old_active[v]);
            assert(count_out(edges, v as nat, na) + count_pair(edges, v as nat, x as nat) == count_out(
                edges,
                v as nat,
                old_active,
            ));
            assert(count_in(edges, v as nat, na) + count_pair(edges, x as nat, v as nat) == count_in(
                edges,
                v as nat,
                old_active,
            ));
        }
    }
}

/// Placing the active node `x` at the end of `s2` (or of `s1`) keeps every
/// node placed exactly once.
proof fn lemma_place(n: nat, active: Seq<bool>, s1: Seq<usize>, s2: Seq<usize>, x: usize, to_s2: bool)
    requires
        placement_ok(n, active, s1, s2),
        x < n,
        active[x as int],
    ensures
        to_s2 ==> placement_ok(n, active.update(x as int, false), s1, s2.push(x)),
        !to_s2 ==> placement_ok(n, active.update(x as int, false), s1.push(x), s2),
{
    let na = active.update(x as int, false);
    lemma_count_true_update(active, x as int);
    assert forall|i: int| 0 <= i < s1.len() implies s1[i] != x by {
        assert(!active[s1[i] as int]);
    }
    assert forall|i: int| 0 <= i < s2.len() implies s2[i] != x by {
        assert(!active[s2[i] as int]);
    }
    if to_s2 {
        let t = s2.push(x);
        assert(t[s2.len() as int] == x);
        assert forall|i: int| 0 <= i < t.len() implies (#[trigger] t[i]) < n && !na[t[i] as int] by {
            if i < s2.len() {
                assert(t[i] == s2[i]);
            }
        }
        assert forall|i: int| 0 <= i < s1.len() implies (#[trigger] s1[i]) < n && !na[s1[i] as int] by {}
        assert forall|i: int, j: int| 0 <= i < t.len() && 0 <= j < t.len() && i != j implies t[i] != t[j] by {
            if i < s2.len() && j < s2.len() {
                assert(t[i] == s2[i] && t[j] == s2[j]);
            } else if i < s2.len() {
                assert(t[i] == s2[i]);
            } else {
                assert(t[j] == s2[j]);
            }
        }
        assert forall|i: int, j: int| 0 <= i < s1.len() && 0 <= j < t.len() implies s1[i] != t[j] by {
            if j < s2.len() {
                assert(t[j] == s2[j]);
            }
        }
        assert forall|v: int| 0 <= v < n && !(#[trigger] na[v]) implies s1.contains(v as usize) || t.contains(
            v as usize,
        ) by {
            if v == x {
                assert(t[s2.len() as int] == v as usize);
            } else {
                assert(!active[v]);
                if s2.contains(v as usize) {
                    let i = choose|i: int| 0 <= i < s2.len() && s2[i] == v as usize;
                    assert(t[i] == v as usize);
                }
            }
        }
    } else {
        let t = s1.push(x);
        assert(t[s1.len() as int] == x);
        assert forall|i: int| 0 <= i < t.len() implies (#[trigger] t[i]) < n && !na[t[i] as int] by {
            if i < s1.len() {
                assert(t[i] == s1[i]);
            }
        }
        assert forall|i: int| 0 <= i < s2.len() implies (#[trigger] s2[i]) < n && !na[s2[i] as int] by {}
        assert forall|i: int, j: int| 0 <= i < t.len() && 0 <= j < t.len() && i != j implies t[i] != t[j] by {
            if i < s1.len() && j < s1.len() {
                assert(t[i] == s1[i] && t[j] == s1[j]);
            } else if i < s1.len() {
                assert(t[i] == s1[i]);
            } else {
                assert(t[j] == s1[j]);
            }
        }
        assert forall|i: int, j: int| 0 <= i < t.len() && 0 <= j < s2.len() implies t[i] != s2[j] by {
            if i < s1.len() {
                assert(t[i] == s1[i]);
            }
        }
        assert forall|v: int| 0 <= v < n && !(#[trigger] na[v]) implies t.contains(v as usize) || s2.contains(
            v as usize,
        ) by {
            if v == x {
                assert(t[s1.len() as int] == v as usize);
            } else {
                assert(!active[v]);
                if s1.contains(v as usize) {
                    let i = choose|i: int| 0 <= i < s1.len() && s1[i] == v as usize;
                    assert(t[i] == v as usize);
                }
            }
        }
    }
}

/// Placing a sink `x` (no edge toward an active node) after the sinks placed
/// so far keeps them ordered.
proof fn lemma_sink_order(edges: Seq<(nat, nat, EdgeData)>, active: Seq<bool>, s2: Seq<usize>, x: usize)
    requires
        sinks_ordered(edges, active, s2),
        edges_within(active.len(), edges),
        x < active.len(),
        active[x as int],
        count_out(edges, x as nat, active) == 0,
    ensures
        sinks_ordered(edges, active.update(x as int, false), s2.push(x)),
{
    let na = active.update(x as int, false);
    let t = s2.push(x);
    lemma_count_zero(edges, active, x as nat);
    assert forall|k: int, i: int|
        #![trigger edges[k], t[i]]
        0 <= k < edges.len() && 0 <= i < t.len() && t[i] == edges[k].0 implies !na[edges[k].1 as int] by {
        if i < s2.len() {
            assert(t[i] == s2[i]);
        } else {
            assert(edges[k].0 == x as nat);
            assert(!active[edges[k].1 as int]);
        }
    }
    assert forall|k: int, i: int, j: int|
        #![trigger edges[k], t[i], t[j]]
        0 <= k < edges.len() && 0 <= i < t.len() && 0 <= j < t.len() && t[i] == edges[k].0 && t[j]
            == edges[k].1 implies j < i by {
        if i < s2.len() && j < s2.len() {
            assert(t[i] == s2[i] && t[j] == s2[j]);
        } else if i < s2.len() {
            assert(t[i] == s2[i]);
            assert(!active[edges[k].1 as int]);
        } else if j == s2.len() {
            assert(edges[k].0 == x as nat);
        }
    }
}

/// The active node with the largest `out − in` score (the last such node in
/// index order), or `None` when no node is active.
fn pick_best(active: &Vec<bool>, out_deg: &Vec<i64>, in_deg: &Vec<i64>) -> (r: Option<usize>)
    requires
        active@.len() == out_deg@.len(),
        active@.len() == in_deg@.len(),
        forall|v: int|
            0 <= v < active@.len() && #[trigger] active@[v] ==> 0 <= out_deg@[v] <= u32::MAX && 0
                <= in_deg@[v] <= u32::MAX,
    ensures
        r is None <==> forall|v: int| 0 <= v < active@.len() ==> !active@[v],
        r matches Some(b) ==> b < active@.len() && active@[b as int] && forall|v: int|
            0 <= v < active@.len() && #[trigger] active@[v] ==> out_deg@[v] - in_deg@[v] <= out_deg@[b as int]
                - in_deg@[b as int],
{
    let mut best: Option<usize> = None;
    let mut best_score: i64 = 0;
    let mut v: usize = 0;
    while v < active.len()
        invariant
            v <= active@.len(),
            active@.len() == out_deg@.len(),
            active@.len() == in_deg@.len(),
            forall|w: int|
                0 <= w < active@.len() && #[trigger] active@[w] ==> 0 <= out_deg@[w] <= u32::MAX && 0
                    <= in_deg@[w] <= u32::MAX,
            best is None <==> forall|w: int| 0 <= w < v ==> !active@[w],
            best matches Some(b) ==> b < v && active@[b as int] && best_score == out_deg@[b as int]
                - in_deg@[b as int] && forall|w: int|
                0 <= w < v && #[trigger] active@[w] ==> out_deg@[w] - in_deg@[w] <= best_score,
        decreases active@.len() - v,
    {
        if active[v] {
            let score = out_deg[v] - in_deg[v];
            if best.is_none() || score >= best_score {
                best = Some(v);
                best_score = score;
            }
        }
        v = v + 1;
    }
    best
}

/// How the greedy ordering placed a node.
pub enum FasMove {
    /// A node with no edge to an unplaced node, put at the right end.
    Sink,
    /// A node with no edge from an unplaced node (when no sink was left), put
    /// at the left end.
    Source,
    /// With neither sinks nor sources left, a node of largest `out − in`
    /// surplus among the unplaced ones, put at the left end.
    Surplus,
}

/// The nodes of `0..n` that `moves` has not placed.
pub open spec fn unplaced(n: nat, moves: Seq<(usize, FasMove)>) -> Seq<bool> {
    Seq::new(n, |v: int| forall|i: int| 0 <= i < moves.len() ==> (#[trigger] moves[i]).0 != v)
}

/// Every unplaced node has an edge to an unplaced node.
pub open spec fn no_sinks(edges: Seq<(nat, nat, EdgeData)>, active: Seq<bool>) -> bool {
    forall|v: int| 0 <= v < active.len() && #[trigger] active[v] ==> count_out(edges, v as nat, active) > 0
}

/// Every unplaced node has an edge from an unplaced node.
pub open spec fn no_sources(edges: Seq<(nat, nat, EdgeData)>, active: Seq<bool>) -> bool {
    forall|v: int| 0 <= v < active.len() && #[trigger] active[v] ==> count_in(edges, v as nat, active) > 0
}

/// The `out − in` surplus of `v` among the unplaced nodes.
pub open spec fn surplus(edges: Seq<(nat, nat, EdgeData)>, v: nat, active: Seq<bool>) -> int {
    count_out(edges, v, active) - count_in(edges, v, active)
}

/// The greedy rule allows placing `x` by `m` while `active` are unplaced.
pub open spec fn fas_move_ok(edges: Seq<(nat, nat, EdgeData)>, active: Seq<bool>, x: usize, m: FasMove) -> bool {
    &&& x < active.len()
    &&& active[x as int]
    &&& match m {
        FasMove::Sink => count_out(edges, x as nat, active) == 0,
        FasMove::Source => count_in(edges, x as nat, active) == 0 && no_sinks(edges, active),
        FasMove::Surplus => {
            &&& no_sinks(edges, active)
            &&& no_sources(edges, active)
            &&& forall|v: int|
                0 <= v < active.len() && #[trigger] active[v] ==> surplus(edges, v as nat, active) <= surplus(
                    edges,
                    x as nat,
                    active,
                )
        },
    }
}

/// Each move follows the greedy rule, given the moves before it.
pub open spec fn fas_trace_ok(edges: Seq<(nat, nat, EdgeData)>, n: nat, moves: Seq<(usize, FasMove)>) -> bool {
    forall|t: int|
        0 <= t < moves.len() ==> #[trigger] fas_move_ok(edges, unplaced(n, moves.take(t)), moves[t].0, moves[t].1)
}

/// The nodes placed at the left end, in order.
pub open spec fn lefts(moves: Seq<(usize, FasMove)>) -> Seq<usize>
    decreases moves.len(),
{
    if moves.len() == 0 {
        seq![]
    } else {
        lefts(moves.drop_last()) + (if moves.last().1 is Sink {
            seq![]
        } else {
            seq![moves.last().0]
        })
    }
}

/// The nodes placed at the right end, in the order they were placed.
pub open spec fn rights(moves: Seq<(usize, FasMove)>) -> Seq<usize>
    decreases moves.len(),
{
    if moves.len() == 0 {
        seq![]
    } else {
        rights(moves.drop_last()) + (if moves.last().1 is Sink {
            seq![moves.last().0]
        } else {
            seq![]
        })
    }
}

/// `order` is what the greedy rule can give: the left-end nodes in the order
/// placed, then the right-end nodes from the last placed to the first.
pub open spec fn is_greedy_order(edges: Seq<(nat, nat, EdgeData)>, n: nat, order: Seq<usize>) -> bool {
    exists|moves: Seq<(usize, FasMove)>|
        fas_trace_ok(edges, n, moves) && order == lefts(moves) + rights(moves).reverse()
}

proof fn lemma_trace_push(
    edges: Seq<(nat, nat, EdgeData)>,
    n: nat,
    moves: Seq<(usize, FasMove)>,
    x: usize,
    m: FasMove,
)
    requires
        fas_trace_ok(edges, n, moves),
        fas_move_ok(edges, unplaced(n, moves), x, m),
    ensures
        fas_trace_ok(edges, n, moves.push((x, m))),
        unplaced(n, moves.push((x, m))) == unplaced(n, moves).update(x as int, false),
        lefts(moves.push((x, m))) == lefts(moves) + (if m is Sink {
            seq![]
        } else {
            seq![x]
        }),
        rights(moves.push((x, m))) == rights(moves) + (if m is Sink {
            seq![x]
        } else {
            seq![]
        }),
{
    let mp = moves.push((x, m));
    assert(mp.drop_last() =~= moves);
    assert forall|t: int| 0 <= t < mp.len() implies #[trigger] fas_move_ok(
        edges,
        unplaced(n, mp.take(t)),
        mp[t].0,
        mp[t].1,
    ) by {
        if t < moves.len() {
            assert(mp.take(t) =~= moves.take(t));
            assert(mp[t] == moves[t]);
        } else {
            assert(mp.take(t) =~= moves);
        }
    }
    let u = unplaced(n, moves);
    assert forall|v: int| 0 <= v < n implies unplaced(n, mp)[v] == u.update(x as int, false)[v] by {
        if v == x as int {
            assert(mp[moves.len() as int].0 == x);
        } else {
            if !u[v] {
                let i = choose|i: int| 0 <= i < moves.len() && !((#[trigger] moves[i]).0 != v);
                assert(mp[i] == moves[i]);
            }
            assert forall|i: int| 0 <= i < mp.len() && u[v] implies (#[trigger] mp[i]).0 != v by {
                if i < moves.len() {
                    assert(mp[i] == moves[i]);
                }
            }
        }
    }
    assert(unplaced(n, mp) =~= u.update(x as int, false));
}

/// Removing a node with no edge from an active node leaves every other
/// active node's count of edges to active nodes unchanged.
proof fn lemma_source_keeps_no_sinks(edges: Seq<(nat, nat, EdgeData)>, active: Seq<bool>, x: usize)
    requires
        edges_within(active.len(), edges),
        x < active.len(),
        active[x as int],
        count_in(edges, x as nat, active) == 0,
        no_sinks(edges, active),
    ensures
        no_sinks(edges, active.update(x as int, false)),
{
    let na = active.update(x as int, false);
    assert forall|v: int| 0 <= v < na.len() && #[trigger] na[v] implies count_out(edges, v as nat, na) > 0 by {
        lemma_count_remove(edges, active, x as nat, v as nat);
        lemma_no_pair_from_active(edges, active, x as nat, v as nat);
    }
}

/// `pos` gives each node its place in an ordering the greedy rule can give.
pub open spec fn greedy_positions(edges: Seq<(nat, nat, EdgeData)>, n: nat, pos: Seq<nat>) -> bool {
    exists|order: Seq<usize>|
        {
            &&& is_greedy_order(edges, n, order)
            &&& is_node_permutation(n, order)
            &&& forall|j: int| 0 <= j < n ==> #[trigger] pos[order[j] as int] == j
        }
}

/// Once no node is active, `s1` followed by `s2` reversed lists every node
/// once; for an acyclic graph it is a topological order.
proof fn lemma_fas_result(
    g: DiGraph<NodeData, EdgeData>,
    active: Seq<bool>,
    out_deg: Seq<i64>,
    in_deg: Seq<i64>,
    s1: Seq<usize>,
    s2: Seq<usize>,
    order: Seq<usize>,
)
    requires
        fas_inv(g, active, out_deg, in_deg, s1, s2, 0),
        order.len() == s1.len() + s2.len(),
        forall|i: int| 0 <= i < s1.len() ==> order[i] == s1[i],
        forall|i: int| s1.len() <= i < order.len() ==> #[trigger] order[i] == s2[s2.len() - 1 - (i - s1.len())],
    ensures
        is_node_permutation(ir_nodes(g).len(), order),
        acyclic(ir_nodes(g).len(), ir_edges(g)) ==> is_topo_list(
            ir_nodes(g).len(),
            ir_edges(g),
            order.map_values(|x: usize| x as nat),
        ),
{
    let n = ir_nodes(g).len();
    let edges = ir_edges(g);
    let a = s1.len();
    let b = s2.len();
    lemma_count_true_zero(active);
    assert forall|i: int| 0 <= i < order.len() implies (#[trigger] order[i]) < n by {
        if i < a {
            assert(order[i] == s1[i]);
        } else {
            assert(order[i] == s2[b - 1 - (i - a)]);
        }
    }
    assert forall|i: int, j: int| 0 <= i < order.len() && 0 <= j < order.len() && i != j implies order[i]
        != order[j] by {
        if i < a && j < a {
            assert(order[i] == s1[i] && order[j] == s1[j]);
        } else if i < a {
            assert(order[j] == s2[b - 1 - (j - a)]);
            assert(order[i] == s1[i]);
        } else if j < a {
            assert(order[i] == s2[b - 1 - (i - a)]);
            assert(order[j] == s1[j]);
        } else {
            assert(order[i] == s2[b - 1 - (i - a)]);
            assert(order[j] == s2[b - 1 - (j - a)]);
        }
    }
    if acyclic(n, edges) {
        let o = order.map_values(|x: usize| x as nat);
        assert(a == 0);
        assert forall|i: int| 0 <= i < n implies (#[trigger] o[i]) < n by {
            assert(o[i] == order[i] as nat);
        }
        assert forall|i: int, j: int| 0 <= i < n && 0 <= j < n && i != j implies o[i] != o[j] by {
            assert(o[i] == order[i] as nat && o[j] == order[j] as nat);
        }
        assert forall|k: int, i: int, j: int|
            #![trigger edges[k], o[i], o[j]]
            0 <= k < edges.len() && 0 <= i < n && 0 <= j < n && o[i] == edges[k].0 && o[j]
                == edges[k].1 implies i < j by {
            assert(o[i] == order[i] as nat && o[j] == order[j] as nat);
            assert(order[i] == s2[b - 1 - i]);
            assert(order[j] == s2[b - 1 - j]);
            assert(s2[b - 1 - i] == edges[k].0);
            assert(s2[b - 1 - j] == edges[k].1);
        }
    }
}

/// A node ordering by the greedy feedback-arc-set heuristic: sinks are
/// placed at the right end, sources at the left end, and when neither is left
/// the node with the largest `out − in` degree surplus goes left. Every node
/// appears once; for an acyclic graph the ordering is topological.
fn greedy_fas_ordering(graph: &DiGraph<NodeData, EdgeData>) -> (order: Vec<usize>)
    requires
        ir_wf(*graph),
    ensures
        is_node_permutation(ir_nodes(*graph).len(), order@),
        acyclic(ir_nodes(*graph).len(), ir_edges(*graph)) ==> is_topo_list(
            ir_nodes(*graph).len(),
            ir_edges(*graph),
            order@.map_values(|x: usize| x as nat),
        ),
        is_greedy_order(ir_edges(*graph), ir_nodes(*graph).len(), order@),
{
    let ghost edges = ir_edges(*graph);
    let n = ir_node_count(graph);
    let mut active: Vec<bool> = Vec::new();
    let mut v: usize = 0;
    while v < n
        invariant
            v <= n,
            active@.len() == v,
            forall|i: int| 0 <= i < v ==> active@[i],
        decreases n - v,
    {
        active.push(true);
        v = v + 1;
    }
    let mut out_deg: Vec<i64> = Vec::new();
    let mut in_deg: Vec<i64> = Vec::new();
    v = 0;
    while v < n
        invariant
            ir_wf(*graph),
            edges == ir_edges(*graph),
            n == ir_nodes(*graph).len(),
            v <= n,
            active@.len() == n,
            forall|i: int| 0 <= i < n ==> active@[i],
            out_deg@.len() == v,
            in_deg@.len() == v,
            forall|w: int|
                0 <= w < v ==> #[trigger] out_deg@[w] == count_out(edges, w as nat, active@) && in_deg@[w]
                    == count_in(edges, w as nat, active@),
        decreases n - v,
    {
        let succ = ir_neighbors(graph, v, true);
        let pred = ir_neighbors(graph, v, false);
        proof {
            lemma_count_all_active(edges, active@, v as nat);
            lemma_count_bounds(edges, active@, v as nat);
            lists_adjacent_len(succ@.map_values(|x: usize| x as nat), edges, v as nat, true);
            lists_adjacent_len(pred@.map_values(|x: usize| x as nat), edges, v as nat, false);
            assert(succ@.len() == succ@.map_values(|x: usize| x as nat).len());
            assert(pred@.len() == pred@.map_values(|x: usize| x as nat).len());
        }
        out_deg.push(succ.len() as i64);
        in_deg.push(pred.len() as i64);
        v = v + 1;
    }
    let mut s1: Vec<usize> = Vec::new();
    let mut s2: Vec<usize> = Vec::new();
    let mut remaining: usize = n;
    let ghost mut moves: Seq<(usize, FasMove)> = Seq::empty();
    proof {
        assert(unplaced(n as nat, moves) =~= active@);
        assert(s1@ =~= lefts(moves));
        assert(s2@ =~= rights(moves));
        lemma_count_true_all(active@);
        assert forall|w: int| 0 <= w < n && !(#[trigger] active@[w]) implies s1@.contains(w as usize)
            || s2@.contains(w as usize) by {}
    }
    while remaining > 0
        invariant
            fas_inv(*graph, active@, out_deg@, in_deg@, s1@, s2@, remaining as nat),
            edges == ir_edges(*graph),
            active@ == unplaced(ir_nodes(*graph).len(), moves),
            fas_trace_ok(edges, ir_nodes(*graph).len(), moves),
            s1@ == lefts(moves),
            s2@ == rights(moves),
        decreases remaining,
    {
        let ghost start = remaining;
        // Step 1: sinks go to the right end.
        loop
            invariant
                fas_inv(*graph, active@, out_deg@, in_deg@, s1@, s2@, remaining as nat),
                edges == ir_edges(*graph),
                remaining <= start,
                active@ == unplaced(ir_nodes(*graph).len(), moves),
                fas_trace_ok(edges, ir_nodes(*graph).len(), moves),
                s1@ == lefts(moves),
                s2@ == rights(moves),
            ensures
                fas_inv(*graph, active@, out_deg@, in_deg@, s1@, s2@, remaining as nat),
                remaining <= start,
                acyclic(ir_nodes(*graph).len(), edges) ==> remaining == 0,
                active@ == unplaced(ir_nodes(*graph).len(), moves),
                fas_trace_ok(edges, ir_nodes(*graph).len(), moves),
                s1@ == lefts(moves),
                s2@ == rights(moves),
                no_sinks(edges, active@),
            decreases remaining,
        {
            let sinks = collect_zero(&active, &out_deg);
            if sinks.len() == 0 {
                proof {
                    assert forall|v: int| 0 <= v < active@.len() && #[trigger] active@[v] implies count_out(
                        edges,
                        v as nat,
                        active@,
                    ) > 0 by {
                        if out_deg@[v] == 0 {
                            assert(sinks@.contains(v as usize));
                        }
                    }
                    if acyclic(ir_nodes(*graph).len(), edges) && remaining > 0 {
                        lemma_count_true_zero(active@);
                        let v0 = choose|i: int| 0 <= i < active@.len() && active@[i];
                        let pos = choose|pos: Seq<nat>| is_topo_positions(ir_nodes(*graph).len(), edges, pos);
                        let w = lemma_sink_exists(edges, active@, pos, v0 as nat);
                        assert(sinks@.contains(w as usize));
                    }
                }
                break;
            }
            let mut t: usize = 0;
            let ghost r0 = remaining;
            while t < sinks.len()
                invariant
                    fas_inv(*graph, active@, out_deg@, in_deg@, s1@, s2@, remaining as nat),
                    edges == ir_edges(*graph),
                    t <= sinks@.len(),
                    remaining + t == r0,
                    active@ == unplaced(ir_nodes(*graph).len(), moves),
                    fas_trace_ok(edges, ir_nodes(*graph).len(), moves),
                    s1@ == lefts(moves),
                    s2@ == rights(moves),
                    forall|i: int, j: int| 0 <= i < j < sinks@.len() ==> sinks@[i] < sinks@[j],
                    forall|i: int|
                        t <= i < sinks@.len() ==> (#[trigger] sinks@[i]) < active@.len() && active@[sinks@[i] as int]
                            && out_deg@[sinks@[i] as int] == 0,
                decreases sinks@.len() - t,
            {
                let x = sinks[t];
                proof {
                    assert(out_deg@[x as int] == count_out(edges, x as nat, active@));
                    lemma_place(ir_nodes(*graph).len(), active@, s1@, s2@, x, true);
                    if acyclic(ir_nodes(*graph).len(), edges) {
                        lemma_sink_order(edges, active@, s2@, x);
                    }
                    lemma_count_true_update(active@, x as int);
                }
                let ghost ab = active@;
                let ghost ob = out_deg@;
                proof {
                    lemma_trace_push(edges, ir_nodes(*graph).len(), moves, x, FasMove::Sink);
                }
                fas_take(graph, &mut active, &mut out_deg, &mut in_deg, x, true, false);
                s2.push(x);
                proof {
                    moves = moves.push((x, FasMove::Sink));
                }
                remaining = remaining - 1;
                proof {
                    assert forall|i: int| t + 1 <= i < sinks@.len() implies (#[trigger] sinks@[i]) < active@.len()
                        && active@[sinks@[i] as int] && out_deg@[sinks@[i] as int] == 0 by {
                        assert(sinks@[t as int] < sinks@[i]);
                        assert(ab[sinks@[i] as int] && ob[sinks@[i] as int] == 0);
                        assert(active@[sinks@[i] as int]);
                        assert(out_deg@[sinks@[i] as int] == count_out(edges, sinks@[i] as nat, active@));
                    }
                }
                t = t + 1;
            }
        }
        // Step 2: sources go to the left end.
        loop
            invariant
                fas_inv(*graph, active@, out_deg@, in_deg@, s1@, s2@, remaining as nat),
                edges == ir_edges(*graph),
                remaining <= start,
                acyclic(ir_nodes(*graph).len(), edges) ==> remaining == 0,
                active@ == unplaced(ir_nodes(*graph).len(), moves),
                fas_trace_ok(edges, ir_nodes(*graph).len(), moves),
                s1@ == lefts(moves),
                s2@ == rights(moves),
                no_sinks(edges, active@),
            ensures
                fas_inv(*graph, active@, out_deg@, in_deg@, s1@, s2@, remaining as nat),
                remaining <= start,
                active@ == unplaced(ir_nodes(*graph).len(), moves),
                fas_trace_ok(edges, ir_nodes(*graph).len(), moves),
                s1@ == lefts(moves),
                s2@ == rights(moves),
                no_sinks(edges, active@),
                no_sources(edges, active@),
            decreases remaining,
        {
            let sources = collect_zero(&active, &in_deg);
            if sources.len() == 0 {
                proof {
                    assert forall|v: int| 0 <= v < active@.len() && #[trigger] active@[v] implies count_in(
                        edges,
                        v as nat,
                        active@,
                    ) > 0 by {
                        if in_deg@[v] == 0 {
                            assert(sources@.contains(v as usize));
                        }
                    }
                }
                break;
            }
            proof {
                let x0 = sources@[0];
                lemma_count_true_zero(active@);
                assert(!acyclic(ir_nodes(*graph).len(), edges));
            }
            let mut t: usize = 0;
            let ghost r0 = remaining;
            while t < sources.len()
                invariant
                    fas_inv(*graph, active@, out_deg@, in_deg@, s1@, s2@, remaining as nat),
                    !acyclic(ir_nodes(*graph).len(), edges),
                    edges == ir_edges(*graph),
                    t <= sources@.len(),
                    remaining + t == r0,
                    active@ == unplaced(ir_nodes(*graph).len(), moves),
                    fas_trace_ok(edges, ir_nodes(*graph).len(), moves),
                    s1@ == lefts(moves),
                    s2@ == rights(moves),
                    no_sinks(edges, active@),
                    forall|i: int, j: int| 0 <= i < j < sources@.len() ==> sources@[i] < sources@[j],
                    forall|i: int|
                        t <= i < sources@.len() ==> (#[trigger] sources@[i]) < active@.len()
                            && active@[sources@[i] as int] && in_deg@[sources@[i] as int] == 0,
                decreases sources@.len() - t,
            {
                let x = sources[t];
                proof {
                    assert(in_deg@[x as int] == count_in(edges, x as nat, active@));
                    lemma_place(ir_nodes(*graph).len(), active@, s1@, s2@, x, false);
                    lemma_count_true_update(active@, x as int);
                }
                let ghost ab = active@;
                let ghost ib = in_deg@;
                proof {
                    lemma_trace_push(edges, ir_nodes(*graph).len(), moves, x, FasMove::Source);
                    lemma_source_keeps_no_sinks(edges, active@, x);
                }
                fas_take(graph, &mut active, &mut out_deg, &mut in_deg, x, false, true);
                s1.push(x);
                proof {
                    moves = moves.push((x, FasMove::Source));
                }
                remaining = remaining - 1;
                proof {
                    assert forall|i: int| t + 1 <= i < sources@.len() implies (#[trigger] sources@[i])
                        < active@.len() && active@[sources@[i] as int] && in_deg@[sources@[i] as int] == 0 by {
                        assert(sources@[t as int] < sources@[i]);
                        assert(ab[sources@[i] as int] && ib[sources@[i] as int] == 0);
                        assert(active@[sources@[i] as int]);
                        assert(in_deg@[sources@[i] as int] == count_in(edges, sources@[i] as nat, active@));
                    }
                }
                t = t + 1;
            }
        }
        // Step 3: of what is left, the node with the largest surplus goes left.
        proof {
            assert forall|w: int| 0 <= w < active@.len() && #[trigger] active@[w] implies 0 <= out_deg@[w]
                <= u32::MAX && 0 <= in_deg@[w] <= u32::MAX by {
                lemma_count_bounds(edges, active@, w as nat);
            }
        }
        let best = pick_best(&active, &out_deg, &in_deg);
        match best {
            Some(b) => {
                proof {
                    lemma_count_true_zero(active@);
                    lemma_place(ir_nodes(*graph).len(), active@, s1@, s2@, b, false);
                    lemma_count_true_update(active@, b as int);
                }
                proof {
                    assert forall|v: int| 0 <= v < active@.len() && #[trigger] active@[v] implies surplus(
                        edges,
                        v as nat,
                        active@,
                    ) <= surplus(edges, b as nat, active@) by {
                        assert(out_deg@[v] - in_deg@[v] <= out_deg@[b as int] - in_deg@[b as int]);
                    }
                    lemma_trace_push(edges, ir_nodes(*graph).len(), moves, b, FasMove::Surplus);
                }
                fas_take(graph, &mut active, &mut out_deg, &mut in_deg, b, true, true);
                s1.push(b);
                proof {
                    moves = moves.push((b, FasMove::Surplus));
                }
                remaining = remaining - 1;
            },
            None => {
                proof {
                    lemma_count_true_zero(active@);
                }
            },
        }
    }
    // The ordering is s1 followed by s2 reversed.
    let ghost s1v = s1@;
    let mut order = s1;
    let mut j: usize = s2.len();
    while j > 0
        invariant
            j <= s2@.len(),
            order@.len() == s1v.len() + (s2@.len() - j),
            forall|i: int| 0 <= i < s1v.len() ==> order@[i] == s1v[i],
            forall|i: int|
                s1v.len() <= i < order@.len() ==> #[trigger] order@[i] == s2@[s2@.len() - 1 - (i - s1v.len())],
        decreases j,
    {
        j = j - 1;
        order.push(s2[j]);
    }
    proof {
        lemma_fas_result(*graph, active@, out_deg@, in_deg@, s1v, s2@, order@);
        assert(order@ =~= lefts(moves) + rights(moves).reverse());
    }
    order
}

/// A permutation of the nodes `0..n` lists each of them.
proof fn lemma_perm_covers(n: nat, order: Seq<usize>, v: nat) -> (i: int)
    requires
        is_node_permutation(n, order),
        v < n,
    ensures
        0 <= i < n,
        order[i] == v,
{
    broadcast use vstd::set::group_set_axioms, vstd::seq_lib::seq_to_set_is_finite;
    let oi = order.map_values(|x: usize| x as int);
    assert forall|a: int, b: int| 0 <= a < oi.len() && 0 <= b < oi.len() && a != b implies oi[a] != oi[b] by {
        assert(order[a] != order[b]);
    }
    assert(oi.no_duplicates());
    oi.unique_seq_to_set();
    let range = vstd::set_lib::set_int_range(0, n as int);
    vstd::set_lib::lemma_int_range(0, n as int);
    assert forall|x: int| oi.to_set().contains(x) implies range.contains(x) by {
        let j = choose|j: int| 0 <= j < oi.len() && oi[j] == x;
        assert(order[j] < n);
    }
    vstd::set_lib::lemma_subset_equality(oi.to_set(), range);
    assert(range.contains(v as int));
    assert(oi.to_set().contains(v as int));
    let i = choose|i: int| 0 <= i < oi.len() && oi[i] == v as int;
    i
}

// ─── Cycle removal ──────────────────────────────────────────────────────────

/// `pos` gives the `n` nodes distinct positions `0..n`.
pub open spec fn is_positions(n: nat, pos: Seq<nat>) -> bool {
    &&& pos.len() == n
    &&& forall|i: int| 0 <= i < n ==> #[trigger] pos[i] < n
    &&& forall|i: int, j: int| 0 <= i < n && 0 <= j < n && i != j ==> pos[i] != pos[j]
}

/// An edge that cycle removal reverses: a self-loop, or an edge going
/// backwards in the ordering `pos`.
pub open spec fn is_back_edge(e: (nat, nat, EdgeData), pos: Seq<nat>) -> bool {
    e.0 == e.1 || pos[e.0 as int] > pos[e.1 as int]
}

/// The indices of the reversed edges, in increasing order.
pub open spec fn back_edges(edges: Seq<(nat, nat, EdgeData)>, pos: Seq<nat>) -> Seq<nat>
    decreases edges.len(),
{
    if edges.len() == 0 {
        seq![]
    } else {
        back_edges(edges.drop_last(), pos) + (if is_back_edge(edges.last(), pos) {
            seq![(edges.len() - 1) as nat]
        } else {
            seq![]
        })
    }
}

/// The edges of the cycle-free graph, in the original order: self-loops are
/// dropped and back-edges are flipped.
pub open spec fn dag_edges(edges: Seq<(nat, nat, EdgeData)>, pos: Seq<nat>) -> Seq<(nat, nat, EdgeData)>
    decreases edges.len(),
{
    if edges.len() == 0 {
        seq![]
    } else {
        let e = edges.last();
        dag_edges(edges.drop_last(), pos) + (if e.0 == e.1 {
            seq![]
        } else if pos[e.0 as int] > pos[e.1 as int] {
            seq![(e.1, e.0, e.2)]
        } else {
            seq![e]
        })
    }
}

/// The two edge lists have the same endpoints and carry the same data.
pub open spec fn edges_match(a: Seq<(nat, nat, EdgeData)>, b: Seq<(nat, nat, EdgeData)>) -> bool {
    &&& a.len() == b.len()
    &&& forall|k: int|
        0 <= k < a.len() ==> (#[trigger] a[k]).0 == b[k].0 && a[k].1 == b[k].1 && a[k].2.same(b[k].2)
}

/// The two node lists carry the same data, node by node.
pub open spec fn nodes_match(a: Seq<NodeData>, b: Seq<NodeData>) -> bool {
    &&& a.len() == b.len()
    &&& forall|i: int| 0 <= i < a.len() ==> (#[trigger] a[i]).same(b[i])
}

/// Every edge of the cycle-free graph goes forward in `pos`.
proof fn lemma_dag_edges_forward(n: nat, edges: Seq<(nat, nat, EdgeData)>, pos: Seq<nat>)
    requires
        is_positions(n, pos),
        edges_within(n, edges),
    ensures
        forall|k: int|
            0 <= k < dag_edges(edges, pos).len() ==> pos[(#[trigger] dag_edges(edges, pos)[k]).0 as int]
                < pos[dag_edges(edges, pos)[k].1 as int] && dag_edges(edges, pos)[k].0 < n
                && dag_edges(edges, pos)[k].1 < n,
    decreases edges.len(),
{
    if edges.len() > 0 {
        let d = edges.drop_last();
        assert(edges_within(n, d)) by {
            assert forall|k: int| 0 <= k < d.len() implies (#[trigger] d[k]).0 < n && d[k].1 < n by {
                assert(d[k] == edges[k]);
            }
        }
        lemma_dag_edges_forward(n, d, pos);
        let e = edges.last();
        assert(e == edges[edges.len() - 1]);
        let prev = dag_edges(d, pos);
        let all = dag_edges(edges, pos);
        assert forall|k: int| 0 <= k < all.len() implies pos[(#[trigger] all[k]).0 as int] < pos[all[k].1 as int]
            && all[k].0 < n && all[k].1 < n by {
            if k < prev.len() {
                assert(all[k] == prev[k]);
            }
        }
    }
}

/// With no back-edge, nothing is reversed.
proof fn lemma_no_back_edges(edges: Seq<(nat, nat, EdgeData)>, pos: Seq<nat>)
    requires
        forall|k: int| 0 <= k < edges.len() ==> !is_back_edge(#[trigger] edges[k], pos),
    ensures
        back_edges(edges, pos).len() == 0,
    decreases edges.len(),
{
    if edges.len() > 0 {
        let d = edges.drop_last();
        assert forall|k: int| 0 <= k < d.len() implies !is_back_edge(#[trigger] d[k], pos) by {
            assert(d[k] == edges[k]);
        }
        lemma_no_back_edges(d, pos);
        assert(edges.last() == edges[edges.len() - 1]);
    }
}

/// Removes cycles: orders the nodes by the greedy feedback-arc-set heuristic,
/// then copies the graph with every self-loop dropped and every edge that
/// goes backwards in that order flipped. Returns the copy and the indices of
/// the reversed edges (self-loops included), in increasing order.
pub fn remove_cycles(graph: &DiGraph<NodeData, EdgeData>) -> (r: (DiGraph<NodeData, EdgeData>, Vec<usize>))
    requires
        ir_wf(*graph),
    ensures
        ir_wf(r.0),
        nodes_match(ir_nodes(r.0), ir_nodes(*graph)),
        exists|pos: Seq<nat>|
            {
                &&& is_positions(ir_nodes(*graph).len(), pos)
                &&& greedy_positions(ir_edges(*graph), ir_nodes(*graph).len(), pos)
                &&& r.1@.map_values(|k: usize| k as nat) == back_edges(ir_edges(*graph), pos)
                &&& edges_match(ir_edges(r.0), dag_edges(ir_edges(*graph), pos))
            },
        acyclic(ir_nodes(r.0).len(), ir_edges(r.0)),
        acyclic(ir_nodes(*graph).len(), ir_edges(*graph)) ==> r.1@.len() == 0,
{
    let ghost edges = ir_edges(*graph);
    let n = ir_node_count(graph);
    let order = greedy_fas_ordering(graph);
    let mut position: Vec<usize> = Vec::new();
    let mut v: usize = 0;
    while v < n
        invariant
            v <= n,
            position@.len() == v,
            forall|i: int| 0 <= i < v ==> position@[i] == 0,
        decreases n - v,
    {
        position.push(0);
        v = v + 1;
    }
    let mut i: usize = 0;
    while i < n
        invariant
            n == ir_nodes(*graph).len(),
            is_node_permutation(n as nat, order@),
            i <= n,
            position@.len() == n,
            forall|w: int| 0 <= w < n ==> #[trigger] position@[w] < n,
            forall|j: int| 0 <= j < i ==> position@[order@[j] as int] == j,
        decreases n - i,
    {
        let ghost p0 = position@;
        position.set(order[i], i);
        proof {
            assert forall|j: int| 0 <= j < i implies position@[order@[j] as int] == j by {
                assert(order@[j] != order@[i as int]);
                assert(p0[order@[j] as int] == j);
            }
        }
        i = i + 1;
    }
    let ghost pos = position@.map_values(|x: usize| x as nat);
    proof {
        assert forall|a: int, b: int| 0 <= a < n && 0 <= b < n && a != b implies pos[a] != pos[b] by {
            let ia = lemma_perm_covers(n as nat, order@, a as nat);
            let ib = lemma_perm_covers(n as nat, order@, b as nat);
            assert(position@[order@[ia] as int] == ia);
            assert(position@[order@[ib] as int] == ib);
        }
        assert forall|a: int| 0 <= a < n implies #[trigger] pos[a] < n by {
            assert(position@[a] < n);
        }
        assert forall|j: int| 0 <= j < n implies #[trigger] pos[order@[j] as int] == j by {
            assert(position@[order@[j] as int] == j);
        }
        assert(greedy_positions(edges, n as nat, pos));
    }
    let mut dag = crate::pgraph::ir_new();
    v = 0;
    while v < n
        invariant
            n == ir_nodes(*graph).len(),
            ir_wf(*graph),
            v <= n,
            ir_nodes(dag).len() == v,
            ir_edges(dag).len() == 0,
            forall|j: int| 0 <= j < v ==> (#[trigger] ir_nodes(dag)[j]).same(ir_nodes(*graph)[j]),
        decreases n - v,
    {
        let w = ir_node(graph, v).clone();
        let ghost d0 = ir_nodes(dag);
        ir_add_node(&mut dag, w);
        proof {
            assert forall|j: int| 0 <= j < v + 1 implies (#[trigger] ir_nodes(dag)[j]).same(
                ir_nodes(*graph)[j],
            ) by {
                if j < v {
                    assert(ir_nodes(dag)[j] == d0[j]);
                }
            }
        }
        v = v + 1;
    }
    let m = ir_edge_count(graph);
    let mut reversed: Vec<usize> = Vec::new();
    let mut k: usize = 0;
    while k < m
        invariant
            n == ir_nodes(*graph).len(),
            m == ir_edges(*graph).len(),
            edges == ir_edges(*graph),
            ir_wf(*graph),
            is_positions(n as nat, pos),
            pos == position@.map_values(|x: usize| x as nat),
            position@.len() == n,
            k <= m,
            nodes_match(ir_nodes(dag), ir_nodes(*graph)),
            ir_edges(dag).len() <= k,
            edges_within(n as nat, ir_edges(dag)),
            reversed@.map_values(|e: usize| e as nat) == back_edges(edges.take(k as int), pos),
            edges_match(ir_edges(dag), dag_edges(edges.take(k as int), pos)),
        decreases m - k,
    {
        let ends = ir_edge_endpoints(graph, k);
        let (a, b) = match ends {
            Some(p) => p,
            None => (0, 0),
        };
        let w = ir_edge_weight(graph, k).clone();
        let ghost e = edges[k as int];
        let ghost t0 = edges.take(k as int);
        let ghost t1 = edges.take(k + 1);
        let ghost de0 = ir_edges(dag);
        let ghost r0 = reversed@;
        proof {
            assert(t1.drop_last() =~= t0);
            assert(t1.last() == e);
            assert(e.0 < n && e.1 < n);
            assert(pos[a as int] == position@[a as int] as nat);
            assert(pos[b as int] == position@[b as int] as nat);
        }
        if a == b {
            reversed.push(k);
        } else if position[a] > position[b] {
            reversed.push(k);
            ir_add_edge(&mut dag, b, a, w);
        } else {
            ir_add_edge(&mut dag, a, b, w);
        }
        proof {
            assert(reversed@.map_values(|e: usize| e as nat) =~= back_edges(t1, pos));
            let de = dag_edges(t1, pos);
            let dp = dag_edges(t0, pos);
            assert forall|j: int| 0 <= j < ir_edges(dag).len() implies (#[trigger] ir_edges(dag)[j]).0
                == de[j].0 && ir_edges(dag)[j].1 == de[j].1 && ir_edges(dag)[j].2.same(de[j].2) by {
                if j < de0.len() {
                    assert(ir_edges(dag)[j] == de0[j]);
                    assert(de[j] == dp[j]);
                }
            }
            assert forall|j: int| 0 <= j < ir_edges(dag).len() implies (#[trigger] ir_edges(dag)[j]).0 < n
                && ir_edges(dag)[j].1 < n by {
                if j < de0.len() {
                    assert(ir_edges(dag)[j] == de0[j]);
                }
            }
        }
        k = k + 1;
    }
    proof {
        assert(edges.take(m as int) =~= edges);
        lemma_dag_edges_forward(n as nat, edges, pos);
        let de = dag_edges(edges, pos);
        assert(is_topo_positions(n as nat, ir_edges(dag), pos)) by {
            assert forall|j: int| 0 <= j < ir_edges(dag).len() implies pos[(#[trigger] ir_edges(dag)[j]).0 as int]
                < pos[ir_edges(dag)[j].1 as int] by {
                assert(de[j].0 == ir_edges(dag)[j].0);
            }
        }
        if acyclic(n as nat, edges) {
            let ov = order@.map_values(|x: usize| x as nat);
            assert forall|j: int| 0 <= j < edges.len() implies !is_back_edge(#[trigger] edges[j], pos) by {
                let s = edges[j].0;
                let t = edges[j].1;
                let is_ = lemma_perm_covers(n as nat, order@, s);
                let it = lemma_perm_covers(n as nat, order@, t);
                assert(ov[is_] == s && ov[it] == t);
                assert(is_ < it);
                assert(position@[order@[is_] as int] == is_);
                assert(position@[order@[it] as int] == it);
            }
            lemma_no_back_edges(edges, pos);
        }
    }
    (dag, reversed)
}

// ─── Layer assignment ───────────────────────────────────────────────────────

/// `rank` puts each of the `n` nodes on the layer given by the longest path
/// ending at it: every edge goes at least one layer down, and every node
/// below layer 0 sits exactly one layer below one of its predecessors.
pub open spec fn longest_path_layering<E>(n: nat, edges: Seq<(nat, nat, E)>, rank: Seq<nat>) -> bool {
    &&& rank.len() == n
    &&& forall|k: int| 0 <= k < edges.len() ==> rank[(#[trigger] edges[k]).1 as int] >= rank[edges[k].0 as int] + 1
    &&& forall|v: int|
        0 <= v < n && #[trigger] rank[v] > 0 ==> exists|k: int|
            0 <= k < edges.len() && (#[trigger] edges[k]).1 == v && rank[edges[k].0 as int] + 1 == rank[v]
}

/// The sum of `n - r` over the ranks `r`.
pub open spec fn slack(rank: Seq<usize>, n: nat) -> nat
    decreases rank.len(),
{
    if rank.len() == 0 {
        0
    } else {
        slack(rank.drop_last(), n) + (if rank.last() <= n {
            (n - rank.last()) as nat
        } else {
            0nat
        })
    }
}

proof fn lemma_slack_update(rank: Seq<usize>, v: int, new: usize, n: nat)
    requires
        0 <= v < rank.len(),
        rank[v] < new <= n,
    ensures
        slack(rank.update(v, new), n) < slack(rank, n),
    decreases rank.len(),
{
    let u = rank.update(v, new);
    if v == rank.len() - 1 {
        assert(u.drop_last() =~= rank.drop_last());
    } else {
        assert(u.drop_last() =~= rank.drop_last().update(v, new));
        lemma_slack_update(rank.drop_last(), v, new, n);
    }
}

/// The largest of the values, 0 for none.
pub open spec fn seq_max(s: Seq<nat>) -> nat
    decreases s.len(),
{
    if s.len() == 0 {
        0
    } else {
        vstd::math::max(seq_max(s.drop_last()) as int, s.last() as int) as nat
    }
}

/// The ranks as natural numbers.
pub open spec fn nat_seq(s: Seq<usize>) -> Seq<nat> {
    s.map_values(|x: usize| x as nat)
}

/// The longest-path layer of each node of an acyclic graph, by fixed-point
/// iteration: every edge `u → v` raises `v` to at least one below `u`, until
/// nothing changes.
fn longest_path_ranks(dag: &DiGraph<NodeData, EdgeData>) -> (rank: Vec<usize>)
    requires
        ir_wf(*dag),
        acyclic(ir_nodes(*dag).len(), ir_edges(*dag)),
    ensures
        longest_path_layering(ir_nodes(*dag).len(), ir_edges(*dag), nat_seq(rank@)),
        forall|v: int| 0 <= v < rank@.len() ==> #[trigger] rank@[v] < ir_nodes(*dag).len(),
{
    let ghost edges = ir_edges(*dag);
    let n = ir_node_count(dag);
    let m = crate::pgraph::ir_edge_count(dag);
    let ghost pos = choose|pos: Seq<nat>| is_topo_positions(n as nat, edges, pos);
    let mut rank: Vec<usize> = Vec::new();
    let mut v: usize = 0;
    while v < n
        invariant
            v <= n,
            rank@.len() == v,
            forall|i: int| 0 <= i < v ==> rank@[i] == 0,
        decreases n - v,
    {
        rank.push(0);
        v = v + 1;
    }
    let mut changed = true;
    while changed
        invariant
            ir_wf(*dag),
            edges == ir_edges(*dag),
            n == ir_nodes(*dag).len(),
            m == edges.len(),
            is_topo_positions(n as nat, edges, pos),
            rank@.len() == n,
            forall|i: int| 0 <= i < n ==> #[trigger] rank@[i] <= pos[i],
            forall|i: int|
                0 <= i < n && #[trigger] rank@[i] > 0 ==> exists|k: int|
                    0 <= k < edges.len() && (#[trigger] edges[k]).1 == i && rank@[edges[k].0 as int] + 1 >= rank@[i],
            !changed ==> forall|k: int|
                0 <= k < edges.len() ==> rank@[(#[trigger] edges[k]).1 as int] >= rank@[edges[k].0 as int] + 1,
        decreases slack(rank@, n as nat), if changed {
            1int
        } else {
            0int
        },
    {
        changed = false;
        let ghost start = rank@;
        let mut k: usize = 0;
        while k < m
            invariant
                ir_wf(*dag),
                edges == ir_edges(*dag),
                n == ir_nodes(*dag).len(),
                m == edges.len(),
                is_topo_positions(n as nat, edges, pos),
                rank@.len() == n,
                start.len() == n,
                forall|i: int| 0 <= i < n ==> #[trigger] start[i] <= pos[i],
                forall|i: int| 0 <= i < n ==> #[trigger] rank@[i] <= pos[i],
                forall|i: int|
                    0 <= i < n && #[trigger] rank@[i] > 0 ==> exists|k2: int|
                        0 <= k2 < edges.len() && (#[trigger] edges[k2]).1 == i && rank@[edges[k2].0 as int] + 1
                            >= rank@[i],
                k <= m,
                changed ==> slack(rank@, n as nat) < slack(start, n as nat),
                !changed ==> rank@ == start,
                !changed ==> forall|k2: int|
                    0 <= k2 < k ==> rank@[(#[trigger] edges[k2]).1 as int] >= rank@[edges[k2].0 as int] + 1,
            decreases m - k,
        {
            let (a, b) = match crate::pgraph::ir_edge_endpoints(dag, k) {
                Some(p) => p,
                None => (0, 0),
            };
            proof {
                assert(edges[k as int].0 < n && edges[k as int].1 < n);
                assert(pos[edges[k as int].0 as int] < pos[edges[k as int].1 as int]);
                assert(pos[a as int] < n);
            }
            let ra = rank[a];
            let rb = rank[b];
            if rb < ra + 1 {
                let ghost r0 = rank@;
                rank.set(b, ra + 1);
                proof {
                    assert(ra + 1 <= pos[b as int]);
                    assert(pos[b as int] < n);
                    lemma_slack_update(r0, b as int, (ra + 1) as usize, n as nat);
                    assert forall|i: int| 0 <= i < n implies #[trigger] rank@[i] <= pos[i] by {}
                    assert forall|i: int| 0 <= i < n && #[trigger] rank@[i] > 0 implies exists|k2: int|
                        0 <= k2 < edges.len() && (#[trigger] edges[k2]).1 == i && rank@[edges[k2].0 as int] + 1
                            >= rank@[i] by {
                        if i == b {
                            assert(edges[k as int].1 == i && rank@[edges[k as int].0 as int] + 1 >= rank@[i]);
                        } else {
                            assert(r0[i] > 0);
                            let k2 = choose|k2: int|
                                0 <= k2 < edges.len() && (#[trigger] edges[k2]).1 == i && r0[edges[k2].0 as int] + 1
                                    >= r0[i];
                            assert(rank@[edges[k2].0 as int] >= r0[edges[k2].0 as int]);
                        }
                    }
                }
                changed = true;
            }
            k = k + 1;
        }
    }
    proof {
        assert forall|i: int| 0 <= i < n implies #[trigger] rank@[i] < n by {
            assert(pos[i] < n);
        }
        let r = nat_seq(rank@);
        assert forall|kk: int| 0 <= kk < edges.len() implies r[(#[trigger] edges[kk]).1 as int] >= r[edges[kk].0 as int] + 1 by {
            assert(edges[kk].0 < n && edges[kk].1 < n);
        }
        assert forall|i: int| 0 <= i < n && #[trigger] r[i] > 0 implies exists|kk: int|
            0 <= kk < edges.len() && (#[trigger] edges[kk]).1 == i && r[edges[kk].0 as int] + 1 == r[i] by {
            assert(rank@[i] > 0);
            let kk = choose|kk: int|
                0 <= kk < edges.len() && (#[trigger] edges[kk]).1 == i && rank@[edges[kk].0 as int] + 1 >= rank@[i];
            assert(edges[kk].0 < n);
            assert(rank@[edges[kk].1 as int] >= rank@[edges[kk].0 as int] + 1);
        }
    }
    rank
}

/// A map from node id to layer.
#[derive(Debug)]
pub struct LayerMap {
    pub entries: Vec<(String, usize)>,
}

impl View for LayerMap {
    type V = Map<Seq<char>, usize>;

    open spec fn view(&self) -> Map<Seq<char>, usize> {
        kv_map(self.entries@)
    }
}

impl LayerMap {
    /// Keys are distinct.
    pub open spec fn wf(&self) -> bool {
        keys_distinct(self.entries@)
    }

    /// An empty map.
    pub fn new() -> (m: LayerMap)
        ensures
            m.wf(),
            m@ == Map::<Seq<char>, usize>::empty(),
    {
        let m = LayerMap { entries: Vec::new() };
        assert(m@ =~= Map::<Seq<char>, usize>::empty());
        m
    }

    /// Sets the layer of `id`.
    pub fn insert(&mut self, id: String, layer: usize)
        requires
            old(self).wf(),
        ensures
            final(self).wf(),
            final(self)@ == old(self)@.insert(id@, layer),
    {
        kv_set(&mut self.entries, id, layer);
    }

    /// The layer of `id`, if it has one.
    pub fn get(&self, id: &str) -> (r: Option<usize>)
        requires
            self.wf(),
        ensures
            r is None <==> !self@.dom().contains(id@),
            r matches Some(l) ==> self@[id@] == l,
    {
        kv_get(&self.entries, id)
    }

    /// An independent copy.
    pub fn copy(&self) -> (r: LayerMap)
        ensures
            r.entries@ == self.entries@,
    {
        let mut entries: Vec<(String, usize)> = Vec::new();
        let mut i: usize = 0;
        while i < self.entries.len()
            invariant
                i <= self.entries@.len(),
                entries@ == self.entries@.take(i as int),
            decreases self.entries@.len() - i,
        {
            entries.push((self.entries[i].0.clone(), self.entries[i].1));
            proof {
                assert(self.entries@.take(i + 1) =~= self.entries@.take(i as int).push(self.entries@[i as int]));
            }
            i = i + 1;
        }
        proof {
            assert(self.entries@.take(self.entries@.len() as int) =~= self.entries@);
        }
        LayerMap { entries }
    }

    /// The largest layer, 0 for an empty map.
    pub fn max_layer(&self) -> (r: usize)
        requires
            self.wf(),
        ensures
            self@ == Map::<Seq<char>, usize>::empty() ==> r == 0,
            self@ != Map::<Seq<char>, usize>::empty() ==> self@.values().contains(r),
            forall|k: Seq<char>| #[trigger] self@.dom().contains(k) ==> self@[k] <= r,
    {
        let mut best: usize = 0;
        let mut i: usize = 0;
        while i < self.entries.len()
            invariant
                self.wf(),
                i <= self.entries@.len(),
                i == 0 ==> best == 0,
                i > 0 ==> exists|j: int| 0 <= j < i && self.entries@[j].1 == best,
                forall|j: int| 0 <= j < i ==> (#[trigger] self.entries@[j]).1 <= best,
            decreases self.entries@.len() - i,
        {
            if i == 0 || self.entries[i].1 > best {
                best = self.entries[i].1;
            }
            i = i + 1;
        }
        proof {
            if self.entries@.len() == 0 {
                assert(self@ =~= Map::<Seq<char>, usize>::empty());
            } else {
                let j = choose|j: int| 0 <= j < self.entries@.len() && self.entries@[j].1 == best;
                lemma_kv_index(self.entries@, j);
                assert(!Map::<Seq<char>, usize>::empty().dom().contains(self.entries@[j].0@));
            }
            assert forall|k: Seq<char>| #[trigger] self@.dom().contains(k) implies self@[k] <= best by {
                let c = choose|c: int| 0 <= c < self.entries@.len() && (#[trigger] self.entries@[c]).0@ == k;
                lemma_kv_index(self.entries@, c);
            }
        }
        best
    }
}

/// Each node of the graph gets a layer.
pub struct LayerAssignment {
    /// The layer of each node id.
    pub layers: LayerMap,
    /// One more than the largest layer.
    pub layer_count: usize,
    /// The indices of the edges reversed by cycle removal, increasing.
    pub reversed_edges: Vec<usize>,
}

/// The layers recorded for the nodes of `nodes`, by node index.
pub open spec fn layers_by_index(layers: Map<Seq<char>, usize>, nodes: Seq<NodeData>) -> Seq<nat> {
    Seq::new(nodes.len(), |i: int| layers[nodes[i].id@] as nat)
}

impl LayerAssignment {
    /// Assigns layers: removes cycles, then puts each node on the layer of
    /// the longest path ending at it in the cycle-free graph.
    pub fn assign(gir: &GraphIR) -> (la: LayerAssignment)
        requires
            gir.wf(),
        ensures
            la.layers.wf(),
            forall|k: Seq<char>|
                #[trigger] la.layers@.dom().contains(k) <==> crate::graph::index_of(gir.nodes(), k) is Some,
            exists|pos: Seq<nat>|
                {
                    &&& is_positions(gir.nodes().len(), pos)
                    &&& greedy_positions(gir.edges(), gir.nodes().len(), pos)
                    &&& la.reversed_edges@.map_values(|k: usize| k as nat) == back_edges(gir.edges(), pos)
                    &&& longest_path_layering(
                        gir.nodes().len(),
                        dag_edges(gir.edges(), pos),
                        layers_by_index(la.layers@, gir.nodes()),
                    )
                },
            la.layer_count == seq_max(layers_by_index(la.layers@, gir.nodes())) + 1,
    {
        let (dag, reversed_edges) = remove_cycles(&gir.digraph);
        let ghost pos = choose|pos: Seq<nat>|
            {
                &&& is_positions(gir.nodes().len(), pos)
                &&& greedy_positions(gir.edges(), gir.nodes().len(), pos)
                &&& reversed_edges@.map_values(|k: usize| k as nat) == back_edges(gir.edges(), pos)
                &&& edges_match(ir_edges(dag), dag_edges(gir.edges(), pos))
            };
        let rank = longest_path_ranks(&dag);
        let n = ir_node_count(&gir.digraph);
        let mut layers = LayerMap::new();
        let mut max_rank: usize = 0;
        let mut i: usize = 0;
        while i < n
            invariant
                gir.wf(),
                n == gir.nodes().len(),
                rank@.len() == n,
                forall|v: int| 0 <= v < n ==> #[trigger] rank@[v] < n,
                i <= n,
                layers.wf(),
                forall|k: Seq<char>|
                    #[trigger] layers@.dom().contains(k) <==> exists|j: int| 0 <= j < i && gir.nodes()[j].id@ == k,
                forall|j: int| 0 <= j < i ==> layers@[#[trigger] gir.nodes()[j].id@] == rank@[j],
                max_rank == seq_max(nat_seq(rank@).take(i as int)),
                max_rank == 0 || max_rank < n,
            decreases n - i,
        {
            let id = crate::pgraph::ir_node(&gir.digraph, i).id.clone();
            layers.insert(id, rank[i]);
            proof {
                let t1 = nat_seq(rank@).take(i + 1);
                assert(t1.drop_last() =~= nat_seq(rank@).take(i as int));
                assert(t1.last() == rank@[i as int] as nat);
                assert forall|j: int| 0 <= j < i + 1 implies layers@[#[trigger] gir.nodes()[j].id@] == rank@[j] by {
                    if j < i {
                        assert(gir.nodes()[j].id@ != gir.nodes()[i as int].id@);
                    }
                }
            }
            if rank[i] > max_rank {
                max_rank = rank[i];
            }
            i = i + 1;
        }
        proof {
            assert(nat_seq(rank@).take(n as int) =~= nat_seq(rank@));
            let lb = layers_by_index(layers@, gir.nodes());
            assert(lb =~= nat_seq(rank@));
            assert forall|k: Seq<char>|
                #[trigger] layers@.dom().contains(k) <==> crate::graph::index_of(gir.nodes(), k) is Some by {}
            let de = dag_edges(gir.edges(), pos);
            let r = nat_seq(rank@);
            assert forall|kk: int| 0 <= kk < de.len() implies r[(#[trigger] de[kk]).1 as int] >= r[de[kk].0 as int]
                + 1 by {
                assert(ir_edges(dag)[kk].0 == de[kk].0 && ir_edges(dag)[kk].1 == de[kk].1);
            }
            assert forall|v: int| 0 <= v < gir.nodes().len() && #[trigger] r[v] > 0 implies exists|kk: int|
                0 <= kk < de.len() && (#[trigger] de[kk]).1 == v && r[de[kk].0 as int] + 1 == r[v] by {
                let kk = choose|kk: int|
                    0 <= kk < ir_edges(dag).len() && (#[trigger] ir_edges(dag)[kk]).1 == v && r[ir_edges(dag)[kk].0 as int]
                        + 1 == r[v];
                assert(ir_edges(dag)[kk].0 == de[kk].0 && ir_edges(dag)[kk].1 == de[kk].1);
            }
        }
        LayerAssignment { layers, layer_count: max_rank + 1, reversed_edges }
    }
}

// ─── Dummy nodes ────────────────────────────────────────────────────────────

/// A long edge that was replaced by a chain through dummy nodes.
pub struct DummyEdge {
    /// Id of the original source node.
    pub original_src: String,
    /// Id of the original target node.
    pub original_tgt: String,
    /// Ids of the dummy nodes, from the source side to the target side.
    pub dummy_ids: Vec<String>,
    /// The original edge data, kept for rendering.
    pub edge_data: EdgeData,
}

/// The graph with its long edges broken up by dummy nodes.
pub struct AugmentedGraph {
    /// Original nodes followed by the dummy nodes.
    pub graph: DiGraph<NodeData, EdgeData>,
    /// The layer of every node, dummies included.
    pub layers: LayerMap,
    /// One more than the largest layer.
    pub layer_count: usize,
    /// The long edges that were broken up, in edge order.
    pub dummy_edges: Vec<DummyEdge>,
}

/// The id of dummy `i` of the `t`-th long edge.
pub open spec fn dummy_text(t: nat, i: nat) -> Seq<char> {
    "__dummy_"@ + crate::text::nat_decimal(t) + "_"@ + crate::text::nat_decimal(i)
}

/// The layer of the source of edge `k` in `m`.
pub open spec fn src_layer(nodes: Seq<NodeData>, edges: Seq<(nat, nat, EdgeData)>, m: Map<Seq<char>, usize>, k: int) -> int {
    m[nodes[edges[k].0 as int].id@] as int
}

/// The layer of the target of edge `k` in `m`.
pub open spec fn tgt_layer(nodes: Seq<NodeData>, edges: Seq<(nat, nat, EdgeData)>, m: Map<Seq<char>, usize>, k: int) -> int {
    m[nodes[edges[k].1 as int].id@] as int
}

/// The number of dummy nodes edge `k` needs under the layers `m`: one per
/// layer strictly between its ends when it goes down by more than one layer,
/// else none.
pub open spec fn steps_in(nodes: Seq<NodeData>, edges: Seq<(nat, nat, EdgeData)>, m: Map<Seq<char>, usize>, k: int) -> nat {
    let sl = src_layer(nodes, edges, m, k);
    let tl = tgt_layer(nodes, edges, m, k);
    if tl > sl + 1 {
        (tl - sl - 1) as nat
    } else {
        0
    }
}

/// `m` with the first `s` dummies of the `t`-th long edge (source layer
/// `sl`) placed on the layers below `sl`.
pub open spec fn insert_dummies(m: Map<Seq<char>, usize>, t: nat, sl: int, s: nat) -> Map<Seq<char>, usize>
    decreases s,
{
    if s == 0 {
        m
    } else {
        insert_dummies(m, t, sl, (s - 1) as nat).insert(dummy_text(t, (s - 1) as nat), (sl + s) as usize)
    }
}

/// The state after the first `k` edges: the layer map (the edges' ends are
/// looked up in it as it grows), the dummy nodes added, and the long edges
/// met.
pub open spec fn aug_fold(nodes: Seq<NodeData>, edges: Seq<(nat, nat, EdgeData)>, l: Map<Seq<char>, usize>, k: nat) -> (
    Map<Seq<char>, usize>,
    nat,
    nat,
)
    decreases k,
{
    if k == 0 {
        (l, 0, 0)
    } else {
        let prev = aug_fold(nodes, edges, l, (k - 1) as nat);
        let st = steps_in(nodes, edges, prev.0, k - 1);
        (
            insert_dummies(prev.0, prev.2, src_layer(nodes, edges, prev.0, k - 1), st),
            prev.1 + st,
            prev.2 + (if st > 0 {
                1nat
            } else {
                0nat
            }),
        )
    }
}

/// The number of dummy nodes edge `k` gets.
pub open spec fn edge_steps(nodes: Seq<NodeData>, edges: Seq<(nat, nat, EdgeData)>, l: Map<Seq<char>, usize>, k: int) -> nat {
    steps_in(nodes, edges, aug_fold(nodes, edges, l, k as nat).0, k)
}

/// The dummy nodes added for the first `k` edges.
pub open spec fn steps_before(nodes: Seq<NodeData>, edges: Seq<(nat, nat, EdgeData)>, l: Map<Seq<char>, usize>, k: nat) -> nat {
    aug_fold(nodes, edges, l, k).1
}

/// The long edges among the first `k` edges.
pub open spec fn longs_before(nodes: Seq<NodeData>, edges: Seq<(nat, nat, EdgeData)>, l: Map<Seq<char>, usize>, k: nat) -> nat {
    aug_fold(nodes, edges, l, k).2
}

/// The layer map after the dummies of the first `k` edges.
pub open spec fn layers_after(nodes: Seq<NodeData>, edges: Seq<(nat, nat, EdgeData)>, l: Map<Seq<char>, usize>, k: nat) -> Map<
    Seq<char>,
    usize,
> {
    aug_fold(nodes, edges, l, k).0
}

/// A dummy node: its id, an empty label, a rectangle, no attributes, in no
/// subgraph.
pub open spec fn is_dummy_node(d: NodeData, id: Seq<char>) -> bool {
    &&& d.id@ == id
    &&& d.label@.len() == 0
    &&& d.shape == NodeShape::Rectangle
    &&& d.attrs@.len() == 0
    &&& d.subgraph is None
}

/// What edge `j` became in the augmented graph `(gn, ge)`: a copy for a
/// short edge; for a long one, its dummy nodes and the chain source → dummies
/// → target, the last link carrying the label and attributes.
pub open spec fn edge_emitted(
    gn: Seq<NodeData>,
    ge: Seq<(nat, nat, EdgeData)>,
    nodes: Seq<NodeData>,
    edges: Seq<(nat, nat, EdgeData)>,
    l: Map<Seq<char>, usize>,
    j: int,
) -> bool {
    let bn = nodes.len() + steps_before(nodes, edges, l, j as nat);
    let be = j + steps_before(nodes, edges, l, j as nat);
    let s = edge_steps(nodes, edges, l, j);
    let e = edges[j];
    let t = longs_before(nodes, edges, l, j as nat);
    if s == 0 {
        ge[be].0 == e.0 && ge[be].1 == e.1 && ge[be].2.same(e.2)
    } else {
        &&& forall|p: int| bn <= p < bn + s ==> is_dummy_node(#[trigger] gn[p], dummy_text(t, (p - bn) as nat))
        &&& forall|q: int|
            be <= q < be + s ==> {
                &&& (#[trigger] ge[q]).0 == (if q == be { e.0 as int } else { bn + (q - be) - 1 })
                &&& ge[q].1 == bn + (q - be)
                &&& ge[q].2.edge_type == e.2.edge_type
                &&& ge[q].2.label is None
                &&& ge[q].2.attrs@.len() == 0
            }
        &&& ge[be + s].0 == bn + s - 1
        &&& ge[be + s].1 == e.1
        &&& ge[be + s].2.same(e.2)
    }
}

proof fn lemma_steps_before_mono(
    nodes: Seq<NodeData>,
    edges: Seq<(nat, nat, EdgeData)>,
    l: Map<Seq<char>, usize>,
    j: nat,
    k: nat,
)
    requires
        j <= k,
    ensures
        steps_before(nodes, edges, l, j) <= steps_before(nodes, edges, l, k),
        longs_before(nodes, edges, l, j) <= longs_before(nodes, edges, l, k),
        longs_before(nodes, edges, l, k) <= k,
    decreases k,
{
    if j < k {
        lemma_steps_before_mono(nodes, edges, l, j, (k - 1) as nat);
    } else if k > 0 {
        lemma_steps_before_mono(nodes, edges, l, (k - 1) as nat, (k - 1) as nat);
    }
}

/// What edge `j` became stays as it was when more nodes and edges are
/// appended.
proof fn lemma_emitted_extend(
    gn: Seq<NodeData>,
    ge: Seq<(nat, nat, EdgeData)>,
    gn2: Seq<NodeData>,
    ge2: Seq<(nat, nat, EdgeData)>,
    nodes: Seq<NodeData>,
    edges: Seq<(nat, nat, EdgeData)>,
    l: Map<Seq<char>, usize>,
    j: int,
)
    requires
        0 <= j,
        edge_emitted(gn, ge, nodes, edges, l, j),
        nodes.len() + steps_before(nodes, edges, l, (j + 1) as nat) <= gn.len(),
        j + 1 + steps_before(nodes, edges, l, (j + 1) as nat) <= ge.len(),
        gn.is_prefix_of(gn2),
        ge.is_prefix_of(ge2),
    ensures
        edge_emitted(gn2, ge2, nodes, edges, l, j),
{
    let bn = nodes.len() + steps_before(nodes, edges, l, j as nat);
    let be = j + steps_before(nodes, edges, l, j as nat);
    let s = edge_steps(nodes, edges, l, j);
    assert(ge2[be + s] == ge[be + s]);
    assert(ge2[be] == ge[be]);
    assert forall|p: int| bn <= p < bn + s implies gn2[p] == gn[p] by {}
    assert forall|q: int| be <= q < be + s implies ge2[q] == ge[q] by {}
}

/// The record of a long edge: its ends' ids, its dummy ids in order, and its
/// data.
pub open spec fn dummy_entry_ok(
    de: DummyEdge,
    nodes: Seq<NodeData>,
    edges: Seq<(nat, nat, EdgeData)>,
    l: Map<Seq<char>, usize>,
    j: int,
) -> bool {
    &&& de.original_src@ == nodes[edges[j].0 as int].id@
    &&& de.original_tgt@ == nodes[edges[j].1 as int].id@
    &&& de.dummy_ids@.map_values(|s: String| s@) == Seq::new(
        edge_steps(nodes, edges, l, j),
        |i: int| dummy_text(longs_before(nodes, edges, l, j as nat), i as nat),
    )
    &&& de.edge_data.same(edges[j].2)
}

/// Every key of `l` keeps a layer as dummies are added, and every layer
/// stays below `usize::MAX`.
proof fn lemma_fold_keys(nodes: Seq<NodeData>, edges: Seq<(nat, nat, EdgeData)>, l: Map<Seq<char>, usize>, k: nat)
    requires
        k <= edges.len(),
        edges_within(nodes.len(), edges),
        forall|key: Seq<char>| #[trigger] l.dom().contains(key) ==> l[key] < usize::MAX,
        forall|j: int|
            0 <= j < edges.len() ==> l.dom().contains(nodes[(#[trigger] edges[j]).0 as int].id@) && l.dom().contains(
                nodes[edges[j].1 as int].id@,
            ),
    ensures
        forall|key: Seq<char>| #[trigger] l.dom().contains(key) ==> layers_after(nodes, edges, l, k).dom().contains(key),
        forall|key: Seq<char>|
            #[trigger] layers_after(nodes, edges, l, k).dom().contains(key) ==> layers_after(nodes, edges, l, k)[key]
                < usize::MAX,
    decreases k,
{
    if k > 0 {
        lemma_fold_keys(nodes, edges, l, (k - 1) as nat);
        let prev = aug_fold(nodes, edges, l, (k - 1) as nat);
        let e = edges[k - 1];
        assert(l.dom().contains(nodes[e.0 as int].id@) && l.dom().contains(nodes[e.1 as int].id@));
        let sl = src_layer(nodes, edges, prev.0, k - 1);
        let tl = tgt_layer(nodes, edges, prev.0, k - 1);
        lemma_insert_dummies(prev.0, prev.2, sl, steps_in(nodes, edges, prev.0, k - 1), tl);
    }
}

proof fn lemma_insert_dummies(m: Map<Seq<char>, usize>, t: nat, sl: int, s: nat, tl: int)
    requires
        forall|key: Seq<char>| #[trigger] m.dom().contains(key) ==> m[key] < usize::MAX,
        0 <= sl,
        s > 0 ==> sl + s + 1 <= tl < usize::MAX,
    ensures
        forall|key: Seq<char>| #[trigger] m.dom().contains(key) ==> insert_dummies(m, t, sl, s).dom().contains(key),
        forall|key: Seq<char>|
            #[trigger] insert_dummies(m, t, sl, s).dom().contains(key) ==> insert_dummies(m, t, sl, s)[key] < usize::MAX,
    decreases s,
{
    if s > 0 {
        lemma_insert_dummies(m, t, sl, (s - 1) as nat, tl);
        let prev = insert_dummies(m, t, sl, (s - 1) as nat);
        assert(insert_dummies(m, t, sl, s) == prev.insert(dummy_text(t, (s - 1) as nat), (sl + s) as usize));
        assert((sl + s) as usize == sl + s);
        assert forall|key: Seq<char>| #[trigger] insert_dummies(m, t, sl, s).dom().contains(key) implies insert_dummies(
            m,
            t,
            sl,
            s,
        )[key] < usize::MAX by {
            if key != dummy_text(t, (s - 1) as nat) {
                assert(prev.dom().contains(key));
            }
        }
    }
}

/// Breaks every edge that goes down by more than one layer into a chain
/// through new dummy nodes, one per layer in between; the dummies get
/// their layers, and each broken edge is recorded.
#[verifier::rlimit(50)]
#[verifier::spinoff_prover]
pub fn insert_dummy_nodes(dag: &DiGraph<NodeData, EdgeData>, la: &LayerAssignment) -> (aug: AugmentedGraph)
    requires
        ir_wf(*dag),
        la.layers.wf(),
        forall|key: Seq<char>| #[trigger] la.layers@.dom().contains(key) ==> la.layers@[key] < usize::MAX,
        forall|j: int|
            0 <= j < ir_edges(*dag).len() ==> la.layers@.dom().contains(
                ir_nodes(*dag)[(#[trigger] ir_edges(*dag)[j]).0 as int].id@,
            ) && la.layers@.dom().contains(ir_nodes(*dag)[ir_edges(*dag)[j].1 as int].id@),
        ir_nodes(*dag).len() + steps_before(ir_nodes(*dag), ir_edges(*dag), la.layers@, ir_edges(*dag).len()) + 1
            < u32::MAX,
        ir_edges(*dag).len() + steps_before(ir_nodes(*dag), ir_edges(*dag), la.layers@, ir_edges(*dag).len()) + 1
            < u32::MAX,
    ensures
        ir_wf(aug.graph),
        ir_nodes(aug.graph).len() == ir_nodes(*dag).len() + steps_before(
            ir_nodes(*dag),
            ir_edges(*dag),
            la.layers@,
            ir_edges(*dag).len(),
        ),
        ir_edges(aug.graph).len() == ir_edges(*dag).len() + steps_before(
            ir_nodes(*dag),
            ir_edges(*dag),
            la.layers@,
            ir_edges(*dag).len(),
        ),
        forall|p: int| 0 <= p < ir_nodes(*dag).len() ==> (#[trigger] ir_nodes(aug.graph)[p]).same(ir_nodes(*dag)[p]),
        forall|j: int|
            0 <= j < ir_edges(*dag).len() ==> #[trigger] edge_emitted(
                ir_nodes(aug.graph),
                ir_edges(aug.graph),
                ir_nodes(*dag),
                ir_edges(*dag),
                la.layers@,
                j,
            ),
        aug.layers.wf(),
        aug.layers@ == layers_after(ir_nodes(*dag), ir_edges(*dag), la.layers@, ir_edges(*dag).len()),
        aug.dummy_edges@.len() == longs_before(ir_nodes(*dag), ir_edges(*dag), la.layers@, ir_edges(*dag).len()),
        forall|j: int|
            0 <= j < ir_edges(*dag).len() && edge_steps(ir_nodes(*dag), ir_edges(*dag), la.layers@, j) > 0
                ==> dummy_entry_ok(
                aug.dummy_edges@[#[trigger] longs_before(ir_nodes(*dag), ir_edges(*dag), la.layers@, j as nat) as int],
                ir_nodes(*dag),
                ir_edges(*dag),
                la.layers@,
                j,
            ),
        forall|key: Seq<char>| #[trigger] aug.layers@.dom().contains(key) ==> aug.layers@[key] < aug.layer_count,
        aug.layers@ != Map::<Seq<char>, usize>::empty() ==> aug.layers@.values().contains((aug.layer_count - 1) as usize),
        aug.layers@ == Map::<Seq<char>, usize>::empty() ==> aug.layer_count == 1,
{
    let ghost nodes = ir_nodes(*dag);
    let ghost edges = ir_edges(*dag);
    let ghost l = la.layers@;
    let n = ir_node_count(dag);
    let m = crate::pgraph::ir_edge_count(dag);
    let ghost total = steps_before(nodes, edges, l, m as nat);
    let mut g = crate::pgraph::ir_new();
    let mut p: usize = 0;
    while p < n
        invariant
            ir_wf(*dag),
            nodes == ir_nodes(*dag),
            n == nodes.len(),
            n + total + 1 < u32::MAX,
            p <= n,
            ir_nodes(g).len() == p,
            ir_edges(g).len() == 0,
            forall|q: int| 0 <= q < p ==> (#[trigger] ir_nodes(g)[q]).same(nodes[q]),
        decreases n - p,
    {
        let w = ir_node(dag, p).clone();
        let ghost g0 = ir_nodes(g);
        crate::pgraph::ir_add_node(&mut g, w);
        proof {
            assert forall|q: int| 0 <= q < p + 1 implies (#[trigger] ir_nodes(g)[q]).same(nodes[q]) by {
                if q < p {
                    assert(ir_nodes(g)[q] == g0[q]);
                }
            }
        }
        p = p + 1;
    }
    let mut layers = la.layers.copy();
    let mut dummy_edges: Vec<DummyEdge> = Vec::new();
    let mut edge_counter: usize = 0;
    proof {
        assert(layers@ == l);
        lemma_fold_keys(nodes, edges, l, 0);
    }
    let mut k: usize = 0;
    while k < m
        invariant
            ir_wf(*dag),
            nodes == ir_nodes(*dag),
            edges == ir_edges(*dag),
            l == la.layers@,
            n == nodes.len(),
            m == edges.len(),
            total == steps_before(nodes, edges, l, m as nat),
            n + total + 1 < u32::MAX,
            m + total + 1 < u32::MAX,
            forall|key: Seq<char>| #[trigger] l.dom().contains(key) ==> l[key] < usize::MAX,
            forall|j: int|
                0 <= j < edges.len() ==> l.dom().contains(nodes[(#[trigger] edges[j]).0 as int].id@) && l.dom().contains(
                    nodes[edges[j].1 as int].id@,
                ),
            k <= m,
            ir_nodes(g).len() == n + steps_before(nodes, edges, l, k as nat),
            ir_edges(g).len() == k + steps_before(nodes, edges, l, k as nat),
            edges_within(ir_nodes(g).len(), ir_edges(g)),
            forall|q: int| 0 <= q < n ==> (#[trigger] ir_nodes(g)[q]).same(nodes[q]),
            forall|j: int| 0 <= j < k ==> #[trigger] edge_emitted(ir_nodes(g), ir_edges(g), nodes, edges, l, j),
            layers.wf(),
            layers@ == layers_after(nodes, edges, l, k as nat),
            edge_counter == longs_before(nodes, edges, l, k as nat),
            dummy_edges@.len() == edge_counter,
            forall|j: int|
                0 <= j < k && edge_steps(nodes, edges, l, j) > 0 ==> dummy_entry_ok(
                    dummy_edges@[#[trigger] longs_before(nodes, edges, l, j as nat) as int],
                    nodes,
                    edges,
                    l,
                    j,
                ),
        decreases m - k,
    {
        proof {
            lemma_fold_keys(nodes, edges, l, k as nat);
            lemma_steps_before_mono(nodes, edges, l, (k + 1) as nat, m as nat);
            lemma_steps_before_mono(nodes, edges, l, k as nat, k as nat);
        }
        let ghost gn0 = ir_nodes(g);
        let ghost ge0 = ir_edges(g);
        let ghost mk = layers@;
        let ghost e = edges[k as int];
        let ghost bn = n + steps_before(nodes, edges, l, k as nat);
        let ghost be = k + steps_before(nodes, edges, l, k as nat);
        let (a, b) = match crate::pgraph::ir_edge_endpoints(dag, k) {
            Some(pr) => pr,
            None => (0, 0),
        };
        let edge_data = crate::pgraph::ir_edge_weight(dag, k).clone();
        proof {
            assert(e.0 < n && e.1 < n);
            assert(ir_nodes(g)[a as int].same(nodes[a as int]));
            assert(ir_nodes(g)[b as int].same(nodes[b as int]));
        }
        let src_id = ir_node(&g, a).id.clone();
        let tgt_id = ir_node(&g, b).id.clone();
        let sl = match layers.get(src_id.as_str()) {
            Some(v) => v,
            None => 0,
        };
        let tl = match layers.get(tgt_id.as_str()) {
            Some(v) => v,
            None => 0,
        };
        proof {
            assert(sl == src_layer(nodes, edges, mk, k as int));
            assert(tl == tgt_layer(nodes, edges, mk, k as int));
        }
        let layer_diff = if tl > sl {
            tl - sl
        } else {
            1
        };
        if layer_diff <= 1 {
            crate::pgraph::ir_add_edge(&mut g, a, b, edge_data);
            proof {
                assert(edge_steps(nodes, edges, l, k as int) == 0);
                assert(ir_edges(g)[be] == (a as nat, b as nat, edge_data));
                assert(edge_emitted(ir_nodes(g), ir_edges(g), nodes, edges, l, k as int));
                assert(layers_after(nodes, edges, l, (k + 1) as nat) == mk);
                assert forall|j: int| 0 <= j < k + 1 implies #[trigger] edge_emitted(
                    ir_nodes(g),
                    ir_edges(g),
                    nodes,
                    edges,
                    l,
                    j,
                ) by {
                    if j < k {
                        lemma_steps_before_mono(nodes, edges, l, (j + 1) as nat, k as nat);
                        lemma_emitted_extend(gn0, ge0, ir_nodes(g), ir_edges(g), nodes, edges, l, j);
                    }
                }
                assert forall|q: int| 0 <= q < ir_edges(g).len() implies (#[trigger] ir_edges(g)[q]).0 < ir_nodes(
                    g,
                ).len() && ir_edges(g)[q].1 < ir_nodes(g).len() by {
                    if q < ge0.len() {
                        assert(ir_edges(g)[q] == ge0[q]);
                    }
                }
            }
        } else {
            let steps = layer_diff - 1;
            let this_edge = edge_counter;
            edge_counter = edge_counter + 1;
            let mut dummy_ids: Vec<String> = Vec::new();
            let mut chain_prev = a;
            let mut i: usize = 0;
            proof {
                assert(steps == edge_steps(nodes, edges, l, k as int));
                assert(insert_dummies(mk, this_edge as nat, sl as int, 0) == mk);
                assert(dummy_ids@.map_values(|s: String| s@) =~= Seq::new(0, |x: int| dummy_text(this_edge as nat, x as nat)));
                reveal_strlit("_");
            }
            while i < steps
                invariant
                    ir_wf(*dag),
                    nodes == ir_nodes(*dag),
                    edges == ir_edges(*dag),
                    n == nodes.len(),
                    k < m,
                    e == edges[k as int],
                    a == e.0 && b == e.1,
                    bn == n + steps_before(nodes, edges, l, k as nat),
                    be == k + steps_before(nodes, edges, l, k as nat),
                    bn + steps + 1 < u32::MAX,
                    be + steps + 1 < u32::MAX,
                    sl + steps + 1 == tl,
                    tl < usize::MAX,
                    i <= steps,
                    ir_nodes(g).len() == bn + i,
                    ir_edges(g).len() == be + i,
                    gn0.is_prefix_of(ir_nodes(g)),
                    ge0.is_prefix_of(ir_edges(g)),
                    gn0.len() == bn,
                    ge0.len() == be,
                    edges_within(ir_nodes(g).len(), ir_edges(g)),
                    forall|pp: int|
                        bn <= pp < bn + i ==> is_dummy_node(#[trigger] ir_nodes(g)[pp], dummy_text(this_edge as nat, (pp - bn) as nat)),
                    forall|q: int|
                        be <= q < be + i ==> {
                            &&& (#[trigger] ir_edges(g)[q]).0 == (if q == be { e.0 as int } else { bn + (q - be) - 1 })
                            &&& ir_edges(g)[q].1 == bn + (q - be)
                            &&& ir_edges(g)[q].2.edge_type == e.2.edge_type
                            &&& ir_edges(g)[q].2.label is None
                            &&& ir_edges(g)[q].2.attrs@.len() == 0
                        },
                    chain_prev == (if i == 0 { a as int } else { bn + i - 1 }),
                    chain_prev < ir_nodes(g).len(),
                    layers.wf(),
                    layers@ == insert_dummies(mk, this_edge as nat, sl as int, i as nat),
                    dummy_ids@.map_values(|s: String| s@) == Seq::new(i as nat, |x: int| dummy_text(this_edge as nat, x as nat)),
                    edge_data.same(e.2),
                decreases steps - i,
            {
                let mut dummy_id = String::new();
                crate::text::push_str(&mut dummy_id, "__dummy_");
                crate::text::push_u64(&mut dummy_id, this_edge as u64);
                crate::text::string_push(&mut dummy_id, '_');
                crate::text::push_u64(&mut dummy_id, i as u64);
                proof {
                    reveal_strlit("_");
                    assert(dummy_id@ =~= dummy_text(this_edge as nat, i as nat));
                }
                let dummy_data = NodeData {
                    id: dummy_id.clone(),
                    label: String::new(),
                    shape: NodeShape::Rectangle,
                    attrs: Vec::new(),
                    subgraph: None,
                };
                let ghost gni = ir_nodes(g);
                let ghost gei = ir_edges(g);
                let ni = crate::pgraph::ir_add_node(&mut g, dummy_data);
                layers.insert(dummy_id.clone(), sl + i + 1);
                let ghost ids0 = dummy_ids@;
                let ghost did = dummy_id@;
                dummy_ids.push(dummy_id);
                let segment = EdgeData { edge_type: edge_data.edge_type, label: None, attrs: Vec::new() };
                crate::pgraph::ir_add_edge(&mut g, chain_prev, ni, segment);
                proof {
                    assert(dummy_ids@.map_values(|s: String| s@) =~= ids0.map_values(|s: String| s@).push(did));
                    assert(dummy_ids@.map_values(|s: String| s@) =~= Seq::new(
                        (i + 1) as nat,
                        |x: int| dummy_text(this_edge as nat, x as nat),
                    ));
                    assert forall|pp: int|
                        bn <= pp < bn + i + 1 implies is_dummy_node(
                        #[trigger] ir_nodes(g)[pp],
                        dummy_text(this_edge as nat, (pp - bn) as nat),
                    ) by {
                        if pp < bn + i {
                            assert(ir_nodes(g)[pp] == gni[pp]);
                        }
                    }
                    assert forall|q: int| be <= q < be + i + 1 implies {
                        &&& (#[trigger] ir_edges(g)[q]).0 == (if q == be { e.0 as int } else { bn + (q - be) - 1 })
                        &&& ir_edges(g)[q].1 == bn + (q - be)
                        &&& ir_edges(g)[q].2.edge_type == e.2.edge_type
                        &&& ir_edges(g)[q].2.label is None
                        &&& ir_edges(g)[q].2.attrs@.len() == 0
                    } by {
                        if q < be + i {
                            assert(ir_edges(g)[q] == gei[q]);
                        }
                    }
                    assert forall|q: int| 0 <= q < ir_edges(g).len() implies (#[trigger] ir_edges(g)[q]).0 < ir_nodes(
                        g,
                    ).len() && ir_edges(g)[q].1 < ir_nodes(g).len() by {
                        if q < gei.len() {
                            assert(ir_edges(g)[q] == gei[q]);
                        }
                    }
                    assert(gn0.is_prefix_of(ir_nodes(g))) by {
                        assert forall|x: int| 0 <= x < gn0.len() implies gn0[x] == ir_nodes(g)[x] by {
                            assert(ir_nodes(g)[x] == gni[x]);
                        }
                    }
                    assert(ge0.is_prefix_of(ir_edges(g))) by {
                        assert forall|x: int| 0 <= x < ge0.len() implies ge0[x] == ir_edges(g)[x] by {
                            assert(ir_edges(g)[x] == gei[x]);
                        }
                    }
                }
                chain_prev = ni;
                i = i + 1;
            }
            let last_segment = edge_data.clone();
            let ghost gel = ir_edges(g);
            crate::pgraph::ir_add_edge(&mut g, chain_prev, b, last_segment);
            proof {
                assert(ir_edges(g)[be + steps] == (chain_prev as nat, b as nat, last_segment));
                assert forall|q: int| be <= q < be + steps implies ir_edges(g)[q] == gel[q] by {}
                assert(edge_emitted(ir_nodes(g), ir_edges(g), nodes, edges, l, k as int));
                assert forall|j: int| 0 <= j < k + 1 implies #[trigger] edge_emitted(
                    ir_nodes(g),
                    ir_edges(g),
                    nodes,
                    edges,
                    l,
                    j,
                ) by {
                    if j < k {
                        lemma_steps_before_mono(nodes, edges, l, (j + 1) as nat, k as nat);
                        assert(ge0.is_prefix_of(ir_edges(g))) by {
                            assert forall|x: int| 0 <= x < ge0.len() implies ge0[x] == ir_edges(g)[x] by {
                                assert(ir_edges(g)[x] == gel[x]);
                            }
                        }
                        lemma_emitted_extend(gn0, ge0, ir_nodes(g), ir_edges(g), nodes, edges, l, j);
                    }
                }
                assert forall|q: int| 0 <= q < ir_edges(g).len() implies (#[trigger] ir_edges(g)[q]).0 < ir_nodes(
                    g,
                ).len() && ir_edges(g)[q].1 < ir_nodes(g).len() by {
                    if q < gel.len() {
                        assert(ir_edges(g)[q] == gel[q]);
                    }
                }
                assert forall|q: int| 0 <= q < n implies (#[trigger] ir_nodes(g)[q]).same(nodes[q]) by {
                    assert(ir_nodes(g)[q] == gn0[q]);
                }
            }
            let ghost de0 = dummy_edges@;
            dummy_edges.push(DummyEdge { original_src: src_id, original_tgt: tgt_id, dummy_ids, edge_data });
            proof {
                assert forall|j: int|
                    0 <= j < k + 1 && edge_steps(nodes, edges, l, j) > 0 implies dummy_entry_ok(
                    dummy_edges@[#[trigger] longs_before(nodes, edges, l, j as nat) as int],
                    nodes,
                    edges,
                    l,
                    j,
                ) by {
                    if j < k {
                        lemma_steps_before_mono(nodes, edges, l, (j + 1) as nat, k as nat);
                        assert(dummy_edges@[longs_before(nodes, edges, l, j as nat) as int] == de0[longs_before(
                            nodes,
                            edges,
                            l,
                            j as nat,
                        ) as int]);
                    }
                }
            }
        }
        k = k + 1;
    }
    proof {
        lemma_fold_keys(nodes, edges, l, m as nat);
    }
    let mx = layers.max_layer();
    AugmentedGraph { graph: g, layers, layer_count: mx + 1, dummy_edges }
}

/// The dummy nodes fit: every layer is below `usize::MAX`, and the graph
/// with its dummies keeps its node and edge counts below petgraph's 32-bit
/// index limit.
pub open spec fn dummies_fit(dag: DiGraph<NodeData, EdgeData>, l: Map<Seq<char>, usize>) -> bool {
    &&& forall|key: Seq<char>| #[trigger] l.dom().contains(key) ==> l[key] < usize::MAX
    &&& ir_nodes(dag).len() + steps_before(ir_nodes(dag), ir_edges(dag), l, ir_edges(dag).len()) + 1 < u32::MAX
    &&& ir_edges(dag).len() + steps_before(ir_nodes(dag), ir_edges(dag), l, ir_edges(dag).len()) + 1 < u32::MAX
}

/// What `insert_dummy_nodes` gives for the graph `dag` with layers `l`.
pub open spec fn dummies_inserted(dag: DiGraph<NodeData, EdgeData>, l: Map<Seq<char>, usize>, aug: AugmentedGraph) -> bool {
    let nodes = ir_nodes(dag);
    let edges = ir_edges(dag);
    let total = steps_before(nodes, edges, l, edges.len());
    &&& ir_wf(aug.graph)
    &&& ir_nodes(aug.graph).len() == nodes.len() + total
    &&& ir_edges(aug.graph).len() == edges.len() + total
    &&& forall|p: int| 0 <= p < nodes.len() ==> (#[trigger] ir_nodes(aug.graph)[p]).same(nodes[p])
    &&& forall|j: int|
        0 <= j < edges.len() ==> #[trigger] edge_emitted(ir_nodes(aug.graph), ir_edges(aug.graph), nodes, edges, l, j)
    &&& aug.layers.wf()
    &&& aug.layers@ == layers_after(nodes, edges, l, edges.len())
    &&& aug.dummy_edges@.len() == longs_before(nodes, edges, l, edges.len())
    &&& forall|j: int|
        0 <= j < edges.len() && edge_steps(nodes, edges, l, j) > 0 ==> dummy_entry_ok(
            aug.dummy_edges@[#[trigger] longs_before(nodes, edges, l, j as nat) as int],
            nodes,
            edges,
            l,
            j,
        )
    &&& forall|key: Seq<char>| #[trigger] aug.layers@.dom().contains(key) ==> aug.layers@[key] < aug.layer_count
    &&& aug.layers@ != Map::<Seq<char>, usize>::empty() ==> aug.layers@.values().contains((aug.layer_count - 1) as usize)
    &&& aug.layers@ == Map::<Seq<char>, usize>::empty() ==> aug.layer_count == 1
}

/// Whether the graph with the dummy nodes of every long edge stays below
/// the 32-bit index limit: runs the layer bookkeeping of the dummy insertion
/// without building the graph, and stops as soon as the count is too large.
fn dummy_count_fits(dag: &DiGraph<NodeData, EdgeData>, layers: &LayerMap) -> (ok: bool)
    requires
        ir_wf(*dag),
        layers.wf(),
        forall|key: Seq<char>| #[trigger] layers@.dom().contains(key) ==> layers@[key] < usize::MAX,
        forall|j: int|
            0 <= j < ir_edges(*dag).len() ==> layers@.dom().contains(
                ir_nodes(*dag)[(#[trigger] ir_edges(*dag)[j]).0 as int].id@,
            ) && layers@.dom().contains(ir_nodes(*dag)[ir_edges(*dag)[j].1 as int].id@),
    ensures
        ok == (ir_nodes(*dag).len() + steps_before(ir_nodes(*dag), ir_edges(*dag), layers@, ir_edges(*dag).len()) + 1
            < u32::MAX && ir_edges(*dag).len() + steps_before(ir_nodes(*dag), ir_edges(*dag), layers@, ir_edges(*dag).len())
            + 1 < u32::MAX),
{
    let ghost nodes = ir_nodes(*dag);
    let ghost edges = ir_edges(*dag);
    let ghost l = layers@;
    let n = ir_node_count(dag);
    let m = crate::pgraph::ir_edge_count(dag);
    let lim: usize = 4294967295;
    let mut acc: usize = 0;
    let mut longs: usize = 0;
    if n + 1 >= lim || m + 1 >= lim {
        return false;
    }
    let mut cur = layers.copy();
    proof {
        assert(cur@ == l);
        lemma_fold_keys(nodes, edges, l, 0);
    }
    let mut k: usize = 0;
    while k < m
        invariant
            ir_wf(*dag),
            nodes == ir_nodes(*dag),
            edges == ir_edges(*dag),
            n == nodes.len(),
            m == edges.len(),
            lim == u32::MAX,
            l == layers@,
            forall|key: Seq<char>| #[trigger] l.dom().contains(key) ==> l[key] < usize::MAX,
            forall|j: int|
                0 <= j < edges.len() ==> l.dom().contains(nodes[(#[trigger] edges[j]).0 as int].id@) && l.dom().contains(
                    nodes[edges[j].1 as int].id@,
                ),
            k <= m,
            acc == steps_before(nodes, edges, l, k as nat),
            longs == longs_before(nodes, edges, l, k as nat),
            n + acc + 1 < lim,
            m + acc + 1 < lim,
            cur.wf(),
            cur@ == layers_after(nodes, edges, l, k as nat),
        decreases m - k,
    {
        proof {
            lemma_fold_keys(nodes, edges, l, k as nat);
            lemma_steps_before_mono(nodes, edges, l, k as nat, k as nat);
            lemma_steps_before_mono(nodes, edges, l, (k + 1) as nat, m as nat);
        }
        let ghost mk = cur@;
        let (a, b) = match crate::pgraph::ir_edge_endpoints(dag, k) {
            Some(pr) => pr,
            None => (0, 0),
        };
        proof {
            assert(edges[k as int].0 < n && edges[k as int].1 < n);
        }
        let sl = match cur.get(ir_node(dag, a).id.as_str()) {
            Some(v) => v,
            None => 0,
        };
        let tl = match cur.get(ir_node(dag, b).id.as_str()) {
            Some(v) => v,
            None => 0,
        };
        proof {
            assert(sl == src_layer(nodes, edges, mk, k as int));
            assert(tl == tgt_layer(nodes, edges, mk, k as int));
        }
        let st: usize = if tl > sl && tl - sl > 1 {
            tl - sl - 1
        } else {
            0
        };
        proof {
            assert(st == steps_in(nodes, edges, mk, k as int));
            assert(steps_before(nodes, edges, l, (k + 1) as nat) == acc + st);
        }
        if st >= lim - n - acc - 1 || st >= lim - m - acc - 1 {
            proof {
                lemma_steps_before_mono(nodes, edges, l, (k + 1) as nat, m as nat);
            }
            return false;
        }
        if st > 0 {
            let mut i: usize = 0;
            proof {
                assert(insert_dummies(mk, longs as nat, sl as int, 0) == mk);
            }
            while i < st
                invariant
                    cur.wf(),
                    i <= st,
                    sl + st + 1 == tl,
                    tl < usize::MAX,
                    longs < u32::MAX,
                    cur@ == insert_dummies(mk, longs as nat, sl as int, i as nat),
                decreases st - i,
            {
                let mut dummy_id = String::new();
                crate::text::push_str(&mut dummy_id, "__dummy_");
                crate::text::push_u64(&mut dummy_id, longs as u64);
                crate::text::string_push(&mut dummy_id, '_');
                crate::text::push_u64(&mut dummy_id, i as u64);
                proof {
                    reveal_strlit("_");
                    assert(dummy_id@ =~= dummy_text(longs as nat, i as nat));
                }
                cur.insert(dummy_id, sl + i + 1);
                i = i + 1;
            }
            longs = longs + 1;
        }
        acc = acc + st;
        k = k + 1;
    }
    true
}

/// The layered graph with its dummy nodes: the cycle-free copy of the
/// graph of `gir` that `remove_cycles` makes, the layers that
/// `LayerAssignment::assign` gives, and the copy with every long edge broken
/// into a chain of dummy nodes on those layers (`insert_dummy_nodes`), or
/// `None` when a layer is `usize::MAX` or the graph with its dummies would
/// pass petgraph's 32-bit index limit.
pub fn layered_with_dummies(gir: &GraphIR) -> (r: (DiGraph<NodeData, EdgeData>, LayerAssignment, Option<AugmentedGraph>))
    requires
        gir.wf(),
    ensures
        ir_wf(r.0),
        nodes_match(ir_nodes(r.0), gir.nodes()),
        acyclic(ir_nodes(r.0).len(), ir_edges(r.0)),
        exists|pos: Seq<nat>|
            {
                &&& is_positions(gir.nodes().len(), pos)
                &&& greedy_positions(gir.edges(), gir.nodes().len(), pos)
                &&& edges_match(ir_edges(r.0), dag_edges(gir.edges(), pos))
            },
        r.1.layers.wf(),
        forall|k: Seq<char>|
            #[trigger] r.1.layers@.dom().contains(k) <==> crate::graph::index_of(gir.nodes(), k) is Some,
        exists|pos: Seq<nat>|
            {
                &&& is_positions(gir.nodes().len(), pos)
                &&& greedy_positions(gir.edges(), gir.nodes().len(), pos)
                &&& r.1.reversed_edges@.map_values(|k: usize| k as nat) == back_edges(gir.edges(), pos)
                &&& longest_path_layering(
                    gir.nodes().len(),
                    dag_edges(gir.edges(), pos),
                    layers_by_index(r.1.layers@, gir.nodes()),
                )
            },
        r.1.layer_count == seq_max(layers_by_index(r.1.layers@, gir.nodes())) + 1,
        r.2 is Some <==> dummies_fit(r.0, r.1.layers@),
        r.2 matches Some(aug) ==> dummies_inserted(r.0, r.1.layers@, aug),
{
    let (dag, _) = remove_cycles(&gir.digraph);
    let la = LayerAssignment::assign(gir);
    let ghost nodes = ir_nodes(dag);
    let ghost edges = ir_edges(dag);
    let ghost l = la.layers@;
    proof {
        assert forall|j: int| 0 <= j < edges.len() implies l.dom().contains(
            nodes[(#[trigger] edges[j]).0 as int].id@,
        ) && l.dom().contains(nodes[edges[j].1 as int].id@) by {
            let a = edges[j].0 as int;
            let b = edges[j].1 as int;
            assert(nodes[a].same(gir.nodes()[a]));
            assert(nodes[b].same(gir.nodes()[b]));
            assert(crate::graph::index_of(gir.nodes(), gir.nodes()[a].id@) is Some);
            assert(crate::graph::index_of(gir.nodes(), gir.nodes()[b].id@) is Some);
        }
    }
    let top = la.layers.max_layer();
    if top == usize::MAX {
        proof {
            assert(l.values().contains(top));
        }
        return (dag, la, None);
    }
    if !dummy_count_fits(&dag, &la.layers) {
        return (dag, la, None);
    }
    let aug = insert_dummy_nodes(&dag, &la);
    (dag, la, Some(aug))
}

/// Distinct long edges and positions give distinct dummy ids.
proof fn lemma_dummy_text_injective(t1: nat, i1: nat, t2: nat, i2: nat)
    requires
        dummy_text(t1, i1) == dummy_text(t2, i2),
    ensures
        t1 == t2,
        i1 == i2,
{
    reveal_strlit("__dummy_");
    reveal_strlit("_");
    let d1 = crate::text::nat_decimal(t1);
    let d2 = crate::text::nat_decimal(t2);
    let e1 = crate::text::nat_decimal(i1);
    let e2 = crate::text::nat_decimal(i2);
    crate::text::lemma_nat_decimal_digits(t1);
    crate::text::lemma_nat_decimal_digits(t2);
    let s1 = dummy_text(t1, i1);
    let s2 = dummy_text(t2, i2);
    assert(s1 =~= "__dummy_"@ + (d1 + seq!['_'] + e1));
    assert(s2 =~= "__dummy_"@ + (d2 + seq!['_'] + e2));
    let u1 = d1 + seq!['_'] + e1;
    let u2 = d2 + seq!['_'] + e2;
    assert(u1 =~= s1.skip(8));
    assert(u2 =~= s2.skip(8));
    assert(u1 == u2);
    if d1.len() < d2.len() {
        assert(u1[d1.len() as int] == '_');
        assert(u2[d1.len() as int] == d2[d1.len() as int]);
        assert(crate::text::is_digit(d2[d1.len() as int]));
    } else if d2.len() < d1.len() {
        assert(u2[d2.len() as int] == '_');
        assert(u1[d2.len() as int] == d1[d2.len() as int]);
        assert(crate::text::is_digit(d1[d2.len() as int]));
    }
    assert(d1.len() == d2.len());
    assert(d1 =~= u1.take(d1.len() as int));
    assert(d2 =~= u2.take(d2.len() as int));
    crate::text::lemma_nat_decimal_injective(t1, t2);
    assert(e1 =~= u1.skip(d1.len() as int + 1));
    assert(e2 =~= u2.skip(d2.len() as int + 1));
    crate::text::lemma_nat_decimal_injective(i1, i2);
}

/// Keys other than the dummies being placed keep their layers.
proof fn lemma_insert_dummies_other(m: Map<Seq<char>, usize>, t: nat, sl: int, s: nat, key: Seq<char>)
    requires
        forall|x: nat| x < s ==> key != dummy_text(t, x),
    ensures
        insert_dummies(m, t, sl, s).dom().contains(key) == m.dom().contains(key),
        insert_dummies(m, t, sl, s)[key] == m[key],
    decreases s,
{
    if s > 0 {
        lemma_insert_dummies_other(m, t, sl, (s - 1) as nat, key);
        assert(key != dummy_text(t, (s - 1) as nat));
    }
}

/// Dummy `i` of a long edge is placed `i + 1` layers below the source.
proof fn lemma_insert_dummies_own(m: Map<Seq<char>, usize>, t: nat, sl: int, s: nat, i: nat)
    requires
        i < s,
    ensures
        insert_dummies(m, t, sl, s).dom().contains(dummy_text(t, i)),
        insert_dummies(m, t, sl, s)[dummy_text(t, i)] == (sl + i + 1) as usize,
    decreases s,
{
    if i < s - 1 {
        lemma_insert_dummies_own(m, t, sl, (s - 1) as nat, i);
        if dummy_text(t, (s - 1) as nat) == dummy_text(t, i) {
            lemma_dummy_text_injective(t, (s - 1) as nat, t, i);
        }
    }
}

/// No node id has the form of a dummy id.
pub open spec fn ids_not_dummy(nodes: Seq<NodeData>) -> bool {
    forall|i: int, t: nat, x: nat| 0 <= i < nodes.len() ==> #[trigger] nodes[i].id@ != #[trigger] dummy_text(t, x)
}

/// Ids that are not dummy ids keep their layers while dummies are added.
proof fn lemma_fold_other(nodes: Seq<NodeData>, edges: Seq<(nat, nat, EdgeData)>, l: Map<Seq<char>, usize>, k: nat, key: Seq<char>)
    requires
        forall|t: nat, x: nat| key != dummy_text(t, x),
    ensures
        layers_after(nodes, edges, l, k).dom().contains(key) == l.dom().contains(key),
        layers_after(nodes, edges, l, k)[key] == l[key],
    decreases k,
{
    if k > 0 {
        lemma_fold_other(nodes, edges, l, (k - 1) as nat, key);
        let prev = aug_fold(nodes, edges, l, (k - 1) as nat);
        lemma_insert_dummies_other(
            prev.0,
            prev.2,
            src_layer(nodes, edges, prev.0, k - 1),
            steps_in(nodes, edges, prev.0, k - 1),
            key,
        );
    }
}

/// The dummies of a long edge keep their layers while later edges add
/// theirs.
proof fn lemma_fold_dummy(
    nodes: Seq<NodeData>,
    edges: Seq<(nat, nat, EdgeData)>,
    l: Map<Seq<char>, usize>,
    j: nat,
    k: nat,
    i: nat,
)
    requires
        j < k,
        i < edge_steps(nodes, edges, l, j as int),
    ensures
        layers_after(nodes, edges, l, k).dom().contains(dummy_text(longs_before(nodes, edges, l, j), i)),
        layers_after(nodes, edges, l, k)[dummy_text(longs_before(nodes, edges, l, j), i)] == (src_layer(
            nodes,
            edges,
            layers_after(nodes, edges, l, j),
            j as int,
        ) + i + 1) as usize,
    decreases k,
{
    let t = longs_before(nodes, edges, l, j);
    if k == j + 1 {
        let prev = aug_fold(nodes, edges, l, j);
        lemma_insert_dummies_own(prev.0, prev.2, src_layer(nodes, edges, prev.0, j as int), steps_in(nodes, edges, prev.0, j as int), i);
    } else {
        lemma_fold_dummy(nodes, edges, l, j, (k - 1) as nat, i);
        let prev = aug_fold(nodes, edges, l, (k - 1) as nat);
        lemma_steps_before_mono(nodes, edges, l, j + 1, (k - 1) as nat);
        assert(prev.2 > t);
        assert forall|x: nat| x < steps_in(nodes, edges, prev.0, k - 1) implies dummy_text(t, i) != dummy_text(prev.2, x) by {
            if dummy_text(t, i) == dummy_text(prev.2, x) {
                lemma_dummy_text_injective(t, i, prev.2, x);
            }
        }
        lemma_insert_dummies_other(
            prev.0,
            prev.2,
            src_layer(nodes, edges, prev.0, k - 1),
            steps_in(nodes, edges, prev.0, k - 1),
            dummy_text(t, i),
        );
    }
}

/// The edge `j` whose chain holds augmented edge `q`.
proof fn lemma_locate(nodes: Seq<NodeData>, edges: Seq<(nat, nat, EdgeData)>, l: Map<Seq<char>, usize>, q: int, k: nat) -> (j: nat)
    requires
        0 <= q < k + steps_before(nodes, edges, l, k),
    ensures
        j < k,
        j + steps_before(nodes, edges, l, j) <= q <= j + steps_before(nodes, edges, l, j) + edge_steps(
            nodes,
            edges,
            l,
            j as int,
        ),
    decreases k,
{
    let kk = (k - 1) as nat;
    if q >= kk + steps_before(nodes, edges, l, kk) {
        kk
    } else {
        lemma_locate(nodes, edges, l, q, kk)
    }
}

/// After dummy insertion, when no edge goes up a layer and no node id has
/// the form of a dummy id, every edge of the augmented graph goes from a
/// layer to the same layer or the next one: long edges are fully broken up.
pub proof fn lemma_augmented_edges_adjacent(
    nodes: Seq<NodeData>,
    edges: Seq<(nat, nat, EdgeData)>,
    l: Map<Seq<char>, usize>,
    gn: Seq<NodeData>,
    ge: Seq<(nat, nat, EdgeData)>,
)
    requires
        edges_within(nodes.len(), edges),
        forall|j: int|
            0 <= j < edges.len() ==> l.dom().contains(nodes[(#[trigger] edges[j]).0 as int].id@) && l.dom().contains(
                nodes[edges[j].1 as int].id@,
            ),
        forall|key: Seq<char>| #[trigger] l.dom().contains(key) ==> l[key] < usize::MAX,
        forall|j: int|
            0 <= j < edges.len() ==> l[nodes[(#[trigger] edges[j]).0 as int].id@] <= l[nodes[edges[j].1 as int].id@],
        ids_not_dummy(nodes),
        gn.len() == nodes.len() + steps_before(nodes, edges, l, edges.len()),
        ge.len() == edges.len() + steps_before(nodes, edges, l, edges.len()),
        forall|p: int| 0 <= p < nodes.len() ==> (#[trigger] gn[p]).same(nodes[p]),
        forall|j: int| 0 <= j < edges.len() ==> #[trigger] edge_emitted(gn, ge, nodes, edges, l, j),
    ensures
        forall|q: int|
            0 <= q < ge.len() ==> {
                let m2 = layers_after(nodes, edges, l, edges.len());
                let a = m2[gn[(#[trigger] ge[q]).0 as int].id@];
                let b = m2[gn[ge[q].1 as int].id@];
                a <= b <= a + 1
            },
{
    let m = edges.len();
    let m2 = layers_after(nodes, edges, l, m);
    assert forall|q: int| 0 <= q < ge.len() implies {
        let a = m2[gn[(#[trigger] ge[q]).0 as int].id@];
        let b = m2[gn[ge[q].1 as int].id@];
        a <= b <= a + 1
    } by {
        let j = lemma_locate(nodes, edges, l, q, m);
        let e = edges[j as int];
        assert(e.0 < nodes.len() && e.1 < nodes.len());
        assert(edge_emitted(gn, ge, nodes, edges, l, j as int));
        let mj = layers_after(nodes, edges, l, j);
        let sid = nodes[e.0 as int].id@;
        let tid = nodes[e.1 as int].id@;
        assert forall|t: nat, x: nat| sid != dummy_text(t, x) by {
            assert(nodes[e.0 as int].id@ != dummy_text(t, x));
        }
        assert forall|t: nat, x: nat| tid != dummy_text(t, x) by {
            assert(nodes[e.1 as int].id@ != dummy_text(t, x));
        }
        lemma_fold_other(nodes, edges, l, j, sid);
        lemma_fold_other(nodes, edges, l, j, tid);
        lemma_fold_other(nodes, edges, l, m, sid);
        lemma_fold_other(nodes, edges, l, m, tid);
        assert(gn[e.0 as int].id@ == sid && gn[e.1 as int].id@ == tid);
        let sl = src_layer(nodes, edges, mj, j as int);
        let st = edge_steps(nodes, edges, l, j as int);
        let bn = nodes.len() + steps_before(nodes, edges, l, j);
        let be = j + steps_before(nodes, edges, l, j);
        let t = longs_before(nodes, edges, l, j);
        assert(sl == l[sid] as int);
        if st > 0 {
            lemma_steps_before_mono(nodes, edges, l, j + 1, m);
            if q < be + st {
                let x = (q - be) as nat;
                assert(is_dummy_node(gn[(bn + x) as int], dummy_text(t, x)));
                lemma_fold_dummy(nodes, edges, l, j, m, x);
                if q > be {
                    assert(is_dummy_node(gn[bn + x - 1], dummy_text(t, (x - 1) as nat)));
                    lemma_fold_dummy(nodes, edges, l, j, m, (x - 1) as nat);
                }
            } else {
                let x = (st - 1) as nat;
                assert(is_dummy_node(gn[(bn + x) as int], dummy_text(t, x)));
                lemma_fold_dummy(nodes, edges, l, j, m, x);
            }
        }
    }
}

// ─── Layout ─────────────────────────────────────────────────────────────────

/// The result of cycle removal: the edges that were reversed.
pub struct CycleRemovalResult {
    /// The indices of the reversed edges, increasing.
    pub reversed_edges: Vec<usize>,
}

/// The nodes of a layout with the edges reversed to break cycles.
pub struct Layout {
    pub nodes: Vec<LayoutNode>,
    /// The indices of the reversed edges, increasing.
    pub reversed_edges: Vec<usize>,
}

impl Layout {
    /// Runs cycle removal and lists the nodes unplaced: each at the origin,
    /// layer 0, as wide as its label's UTF-8 length plus 4 (`"[ "` and `" ]"`)
    /// and 3 high.
    pub fn from_graph_ir(gir: &GraphIR) -> (lay: Layout)
        requires
            gir.wf(),
            forall|i: int| 0 <= i < gir.nodes().len() ==> 4 * (#[trigger] gir.nodes()[i]).label@.len() + 4 <= usize::MAX,
        ensures
            exists|pos: Seq<nat>|
                {
                    &&& is_positions(gir.nodes().len(), pos)
                    &&& greedy_positions(gir.edges(), gir.nodes().len(), pos)
                    &&& lay.reversed_edges@.map_values(|k: usize| k as nat) == back_edges(gir.edges(), pos)
                },
            acyclic(gir.nodes().len(), gir.edges()) ==> lay.reversed_edges@.len() == 0,
            lay.nodes@.len() == gir.nodes().len(),
            forall|i: int|
                0 <= i < lay.nodes@.len() ==> {
                    let ln = #[trigger] lay.nodes@[i];
                    &&& ln.id@ == gir.nodes()[i].id@
                    &&& ln.layer == 0 && ln.order == 0 && ln.x == 0 && ln.y == 0
                    &&& ln.width == crate::render::text_bytes(gir.nodes()[i].label@) + 4
                    &&& ln.height == 3
                },
    {
        let (dag, reversed_edges) = remove_cycles(&gir.digraph);
        let ghost pos = choose|pos: Seq<nat>|
            {
                &&& is_positions(gir.nodes().len(), pos)
                &&& greedy_positions(gir.edges(), gir.nodes().len(), pos)
                &&& reversed_edges@.map_values(|k: usize| k as nat) == back_edges(gir.edges(), pos)
                &&& edges_match(ir_edges(dag), dag_edges(gir.edges(), pos))
            };
        assert(is_positions(gir.nodes().len(), pos) && reversed_edges@.map_values(|k: usize| k as nat) == back_edges(
            gir.edges(),
            pos,
        ));
        let n = ir_node_count(&gir.digraph);
        let mut nodes: Vec<LayoutNode> = Vec::new();
        let mut i: usize = 0;
        while i < n
            invariant
                gir.wf(),
                n == gir.nodes().len(),
                forall|j: int| 0 <= j < gir.nodes().len() ==> 4 * (#[trigger] gir.nodes()[j]).label@.len() + 4 <= usize::MAX,
                i <= n,
                nodes@.len() == i,
                forall|j: int|
                    0 <= j < i ==> {
                        let ln = #[trigger] nodes@[j];
                        &&& ln.id@ == gir.nodes()[j].id@
                        &&& ln.layer == 0 && ln.order == 0 && ln.x == 0 && ln.y == 0
                        &&& ln.width == crate::render::text_bytes(gir.nodes()[j].label@) + 4
                        &&& ln.height == 3
                    },
            decreases n - i,
        {
            let data = ir_node(&gir.digraph, i);
            let chars = crate::text::str_chars(data.label.as_str());
            proof {
                assert(4 * gir.nodes()[i as int].label@.len() + 4 <= usize::MAX);
                crate::render::lemma_text_bytes_bound(chars@);
            }
            let label_len = crate::render::utf8_len(&chars);
            nodes.push(
                LayoutNode {
                    id: data.id.clone(),
                    layer: 0,
                    order: 0,
                    x: 0,
                    y: 0,
                    width: label_len + 4,
                    height: 3,
                },
            );
            i = i + 1;
        }
        Layout { nodes, reversed_edges }
    }
}

// ─── Report ─────────────────────────────────────────────────────────────────

/// The parts joined by `sep`.
pub open spec fn join(parts: Seq<Seq<char>>, sep: Seq<char>) -> Seq<char>
    decreases parts.len(),
{
    if parts.len() == 0 {
        seq![]
    } else if parts.len() == 1 {
        parts[0]
    } else {
        join(parts.drop_last(), sep) + sep + parts.last()
    }
}

/// The ids of `ids` (in order) whose layer in `m` is `i`.
pub open spec fn ids_on_layer(ids: Seq<String>, m: Map<Seq<char>, usize>, i: nat) -> Seq<Seq<char>>
    decreases ids.len(),
{
    if ids.len() == 0 {
        seq![]
    } else {
        ids_on_layer(ids.drop_last(), m, i) + (if m.dom().contains(ids.last()@) && m[ids.last()@] == i {
            seq![ids.last()@]
        } else {
            seq![]
        })
    }
}

/// One line per layer below `n`: `  Layer i: ` and the ids on it.
pub open spec fn layer_lines(ids: Seq<String>, m: Map<Seq<char>, usize>, n: nat) -> Seq<char>
    decreases n,
{
    if n == 0 {
        seq![]
    } else {
        let i = (n - 1) as nat;
        layer_lines(ids, m, i) + "  Layer "@ + crate::text::nat_decimal(i) + ": "@ + join(ids_on_layer(ids, m, i), ", "@)
            + "\n"@
    }
}

/// One line per reversed edge that exists: `  source ← target (displayed
/// reversed)`.
pub open spec fn reversed_lines(gnodes: Seq<NodeData>, gedges: Seq<(nat, nat, EdgeData)>, rev: Seq<usize>) -> Seq<char>
    decreases rev.len(),
{
    if rev.len() == 0 {
        seq![]
    } else {
        let k = rev.last() as int;
        reversed_lines(gnodes, gedges, rev.drop_last()) + (if k < gedges.len() {
            "  "@ + gnodes[gedges[k].0 as int].id@ + " ← "@ + gnodes[gedges[k].1 as int].id@ + " (displayed reversed)\n"@
        } else {
            seq![]
        })
    }
}

/// The report: the number of reversed edges, the layer count, the ids on
/// each layer (sorted), and the reversed edges when there are any.
pub open spec fn report_text(
    ids: Seq<String>,
    m: Map<Seq<char>, usize>,
    layer_count: nat,
    rev: Seq<usize>,
    gnodes: Seq<NodeData>,
    gedges: Seq<(nat, nat, EdgeData)>,
) -> Seq<char> {
    "Reversed edges (cycle removal): "@ + crate::text::nat_decimal(rev.len()) + "\n"@ + "Layer count: "@
        + crate::text::nat_decimal(layer_count) + "\n\n"@ + layer_lines(ids, m, layer_count) + (if rev.len() > 0 {
        "\nReversed back-edges:\n"@ + reversed_lines(gnodes, gedges, rev)
    } else {
        seq![]
    })
}

/// The line of layer `i` lists exactly those of the ids that the map puts
/// on layer `i`.
pub proof fn lemma_ids_on_layer(ids: Seq<String>, m: Map<Seq<char>, usize>, i: nat, x: Seq<char>)
    ensures
        ids_on_layer(ids, m, i).contains(x) <==> (exists|j: int| 0 <= j < ids.len() && (#[trigger] ids[j])@ == x)
            && m.dom().contains(x) && m[x] == i,
    decreases ids.len(),
{
    if ids.len() > 0 {
        let t = ids.drop_last();
        lemma_ids_on_layer(t, m, i, x);
        let prev = ids_on_layer(t, m, i);
        let cur = ids_on_layer(ids, m, i);
        if cur.contains(x) {
            let q = choose|q: int| 0 <= q < cur.len() && cur[q] == x;
            if q < prev.len() {
                assert(prev[q] == x);
                let j = choose|j: int| 0 <= j < t.len() && (#[trigger] t[j])@ == x;
                assert(ids[j] == t[j]);
            } else {
                assert(ids[ids.len() - 1]@ == x);
            }
        }
        if (exists|j: int| 0 <= j < ids.len() && (#[trigger] ids[j])@ == x) && m.dom().contains(x) && m[x] == i {
            let j = choose|j: int| 0 <= j < ids.len() && (#[trigger] ids[j])@ == x;
            if j < t.len() {
                assert(t[j] == ids[j]);
                let q = choose|q: int| 0 <= q < prev.len() && prev[q] == x;
                assert(cur[q] == x);
            } else {
                assert(cur[cur.len() - 1] == x);
            }
        }
    }
}

/// The report line of one reversed edge of `gir`: its source's id, then its
/// target's, as the edge is stored in the graph.
pub open spec fn back_edge_line(gnodes: Seq<NodeData>, gedges: Seq<(nat, nat, EdgeData)>, k: int) -> Seq<char> {
    let (source, target, _) = gedges[k];
    "  "@ + gnodes[source as int].id@ + " ← "@ + gnodes[target as int].id@ + " (displayed reversed)\n"@
}

/// The report ends with one line per reversed edge: with the edge `k` of
/// the graph as the last reversed edge, the report's last line names the
/// source of edge `k` and then its target, and the reversed-edge lines
/// before it are those of the other reversed edges.
pub proof fn lemma_report_back_edges(
    ids: Seq<String>,
    m: Map<Seq<char>, usize>,
    layer_count: nat,
    rev: Seq<usize>,
    gnodes: Seq<NodeData>,
    gedges: Seq<(nat, nat, EdgeData)>,
    k: usize,
)
    requires
        k < gedges.len(),
    ensures
        ({
            let t = report_text(ids, m, layer_count, rev.push(k), gnodes, gedges);
            let line = back_edge_line(gnodes, gedges, k as int);
            &&& line.len() <= t.len()
            &&& t.subrange(t.len() - line.len(), t.len() as int) == line
            &&& reversed_lines(gnodes, gedges, rev.push(k)).subrange(0, reversed_lines(gnodes, gedges, rev).len() as int)
                == reversed_lines(gnodes, gedges, rev)
        }),
{
    assert(rev.push(k).drop_last() =~= rev);
    let t = report_text(ids, m, layer_count, rev.push(k), gnodes, gedges);
    let line = back_edge_line(gnodes, gedges, k as int);
    let r0 = reversed_lines(gnodes, gedges, rev);
    let r1 = reversed_lines(gnodes, gedges, rev.push(k));
    assert(r1 =~= r0 + line);
    assert(r1.subrange(0, r0.len() as int) =~= r0);
    assert(t.subrange(t.len() - line.len(), t.len() as int) =~= line);
}

impl LayerAssignment {
    /// A readable report of the assignment.
    pub fn format_report(&self, gir: &GraphIR) -> (t: String)
        requires
            gir.wf(),
            self.layers.wf(),
            forall|k: Seq<char>| #[trigger] self.layers@.dom().contains(k) ==> self.layers@[k] < self.layer_count,
        ensures
            exists|ids: Seq<String>|
                {
                    &&& crate::text::sorted_strings(ids)
                    &&& ids.to_multiset() == self.layers.entries@.map_values(|p: (String, usize)| p.0).to_multiset()
                    &&& t@ == report_text(
                        ids,
                        self.layers@,
                        self.layer_count as nat,
                        self.reversed_edges@,
                        gir.nodes(),
                        gir.edges(),
                    )
                },
    {
        let mut out = String::new();
        crate::text::push_str(&mut out, "Reversed edges (cycle removal): ");
        crate::text::push_u64(&mut out, self.reversed_edges.len() as u64);
        crate::text::push_str(&mut out, "\n");
        crate::text::push_str(&mut out, "Layer count: ");
        crate::text::push_u64(&mut out, self.layer_count as u64);
        crate::text::push_str(&mut out, "\n\n");
        let ghost head = out@;
        let mut keys: Vec<String> = Vec::new();
        let mut i: usize = 0;
        while i < self.layers.entries.len()
            invariant
                i <= self.layers.entries@.len(),
                keys@ == self.layers.entries@.map_values(|p: (String, usize)| p.0).take(i as int),
            decreases self.layers.entries@.len() - i,
        {
            keys.push(self.layers.entries[i].0.clone());
            proof {
                assert(self.layers.entries@.map_values(|p: (String, usize)| p.0).take(i + 1)
                    =~= self.layers.entries@.map_values(|p: (String, usize)| p.0).take(i as int).push(
                    self.layers.entries@[i as int].0,
                ));
            }
            i = i + 1;
        }
        proof {
            assert(self.layers.entries@.map_values(|p: (String, usize)| p.0).take(self.layers.entries@.len() as int)
                =~= self.layers.entries@.map_values(|p: (String, usize)| p.0));
        }
        let sorted = crate::text::sort_strings(keys);
        let mut layer: usize = 0;
        while layer < self.layer_count
            invariant
                self.layers.wf(),
                layer <= self.layer_count,
                out@ == head + layer_lines(sorted@, self.layers@, layer as nat),
            decreases self.layer_count - layer,
        {
            let ghost before = out@;
            crate::text::push_str(&mut out, "  Layer ");
            crate::text::push_u64(&mut out, layer as u64);
            crate::text::push_str(&mut out, ": ");
            let ghost line_start = out@;
            let mut count: usize = 0;
            let mut j: usize = 0;
            while j < sorted.len()
                invariant
                    self.layers.wf(),
                    j <= sorted@.len(),
                    count == ids_on_layer(sorted@.take(j as int), self.layers@, layer as nat).len(),
                    count <= j,
                    out@ == line_start + join(ids_on_layer(sorted@.take(j as int), self.layers@, layer as nat), ", "@),
                decreases sorted@.len() - j,
            {
                let ghost parts = ids_on_layer(sorted@.take(j as int), self.layers@, layer as nat);
                proof {
                    let t1 = sorted@.take(j + 1);
                    assert(t1.drop_last() =~= sorted@.take(j as int));
                    assert(t1.last() == sorted@[j as int]);
                }
                match self.layers.get(sorted[j].as_str()) {
                    Some(l) => {
                        if l == layer {
                            let ghost o0 = out@;
                            if count > 0 {
                                crate::text::push_str(&mut out, ", ");
                            }
                            crate::text::push_str(&mut out, sorted[j].as_str());
                            proof {
                                let x = sorted@[j as int]@;
                                let np = parts.push(x);
                                assert(np.drop_last() =~= parts);
                                assert(ids_on_layer(sorted@.take(j + 1), self.layers@, layer as nat) == np);
                                if count == 0 {
                                    assert(join(np, ", "@) == x);
                                    assert(out@ =~= line_start + join(np, ", "@));
                                } else {
                                    assert(join(np, ", "@) == join(parts, ", "@) + ", "@ + x);
                                    assert(out@ =~= line_start + join(np, ", "@));
                                }
                            }
                            count = count + 1;
                        }
                    },
                    None => {},
                }
                j = j + 1;
            }
            crate::text::push_str(&mut out, "\n");
            proof {
                assert(sorted@.take(sorted@.len() as int) =~= sorted@);
                assert(out@ =~= head + layer_lines(sorted@, self.layers@, (layer + 1) as nat));
            }
            layer = layer + 1;
        }
        if self.reversed_edges.len() > 0 {
            crate::text::push_str(&mut out, "\nReversed back-edges:\n");
            let ghost mid = out@;
            let mut r: usize = 0;
            while r < self.reversed_edges.len()
                invariant
                    gir.wf(),
                    r <= self.reversed_edges@.len(),
                    out@ == mid + reversed_lines(gir.nodes(), gir.edges(), self.reversed_edges@.take(r as int)),
                decreases self.reversed_edges@.len() - r,
            {
                let k = self.reversed_edges[r];
                proof {
                    let t1 = self.reversed_edges@.take(r + 1);
                    assert(t1.drop_last() =~= self.reversed_edges@.take(r as int));
                    assert(t1.last() == self.reversed_edges@[r as int]);
                }
                let ends = if k < u32::MAX as usize {
                    crate::pgraph::ir_edge_endpoints(&gir.digraph, k)
                } else {
                    None
                };
                match ends {
                    Some((a, b)) => {
                        proof {
                            assert(gir.edges()[k as int].0 < gir.nodes().len());
                            assert(gir.edges()[k as int].1 < gir.nodes().len());
                        }
                        crate::text::push_str(&mut out, "  ");
                        crate::text::push_str(&mut out, ir_node(&gir.digraph, a).id.as_str());
                        crate::text::push_str(&mut out, " ← ");
                        crate::text::push_str(&mut out, ir_node(&gir.digraph, b).id.as_str());
                        crate::text::push_str(&mut out, " (displayed reversed)\n");
                    },
                    None => {},
                }
                proof {
                    assert(out@ =~= mid + reversed_lines(gir.nodes(), gir.edges(), self.reversed_edges@.take(r + 1)));
                }
                r = r + 1;
            }
            proof {
                assert(self.reversed_edges@.take(self.reversed_edges@.len() as int) =~= self.reversed_edges@);
            }
        }
        proof {
            assert(out@ =~= report_text(
                sorted@,
                self.layers@,
                self.layer_count as nat,
                self.reversed_edges@,
                gir.nodes(),
                gir.edges(),
            ));
        }
        out
    }
}

} // verus!
