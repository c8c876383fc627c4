//! Counting lemmas for the greedy feedback-arc-set ordering: how many edges
//! join a node to the nodes still active, and how that count changes when a
//! node is removed.
use vstd::prelude::*;
use crate::pgraph::{adjacent, edges_within, is_topo_positions};

verus! {

/// The number of edges `v → t` with `t` active.
pub open spec fn count_out<E>(edges: Seq<(nat, nat, E)>, v: nat, active: Seq<bool>) -> nat
    decreases edges.len(),
{
    if edges.len() == 0 {
        0
    } else {
        let e = edges.last();
        count_out(edges.drop_last(), v, active) + (if e.0 == v && active[e.1 as int] {
            1nat
        } else {
            0nat
        })
    }
}

/// The number of edges `u → v` with `u` active.
pub open spec fn count_in<E>(edges: Seq<(nat, nat, E)>, v: nat, active: Seq<bool>) -> nat
    decreases edges.len(),
{
    if edges.len() == 0 {
        0
    } else {
        let e = edges.last();
        count_in(edges.drop_last(), v, active) + (if e.1 == v && active[e.0 as int] {
            1nat
        } else {
            0nat
        })
    }
}

/// The number of edges `a → b`.
pub open spec fn count_pair<E>(edges: Seq<(nat, nat, E)>, a: nat, b: nat) -> nat
    decreases edges.len(),
{
    if edges.len() == 0 {
        0
    } else {
        let e = edges.last();
        count_pair(edges.drop_last(), a, b) + (if e.0 == a && e.1 == b {
            1nat
        } else {
            0nat
        })
    }
}

/// The number of occurrences of `v` in `s`.
pub open spec fn count_occ(s: Seq<nat>, v: nat) -> nat
    decreases s.len(),
{
    if s.len() == 0 {
        0
    } else {
        count_occ(s.drop_last(), v) + (if s.last() == v {
            1nat
        } else {
            0nat
        })
    }
}

pub proof fn lemma_count_occ_prepend(x: nat, s: Seq<nat>, v: nat)
    ensures
        count_occ(seq![x] + s, v) == count_occ(s, v) + (if x == v {
            1nat
        } else {
            0nat
        }),
    decreases s.len(),
{
    if s.len() == 0 {
        assert((seq![x] + s).drop_last() =~= s);
    } else {
        lemma_count_occ_prepend(x, s.drop_last(), v);
        assert((seq![x] + s).drop_last() =~= seq![x] + s.drop_last());
    }
}

pub proof fn lemma_count_occ_take(s: Seq<nat>, j: int, v: nat)
    requires
        0 <= j < s.len(),
    ensures
        count_occ(s.take(j + 1), v) == count_occ(s.take(j), v) + (if s[j] == v {
            1nat
        } else {
            0nat
        }),
{
    assert(s.take(j + 1).drop_last() =~= s.take(j));
}

pub proof fn lemma_count_occ_le(s: Seq<nat>, j: int, v: nat)
    requires
        0 <= j <= s.len(),
    ensures
        count_occ(s.take(j), v) <= count_occ(s, v),
    decreases s.len() - j,
{
    if j < s.len() {
        lemma_count_occ_take(s, j, v);
        lemma_count_occ_le(s, j + 1, v);
    } else {
        assert(s.take(j) =~= s);
    }
}

/// `count_occ` is the multiplicity in the sequence's multiset.
pub proof fn lemma_count_occ_multiset(s: Seq<nat>, v: nat)
    ensures
        count_occ(s, v) == s.to_multiset().count(v),
    decreases s.len(),
{
    s.to_multiset_ensures();
    if s.len() > 0 {
        lemma_count_occ_multiset(s.drop_last(), v);
        s.drop_last().to_multiset_ensures();
        assert(s =~= s.drop_last().push(s.last()));
    } else {
        assert(s.to_multiset() =~= vstd::multiset::Multiset::<nat>::empty());
    }
}

/// Each neighbour of `x` occurs in its adjacency list once per edge.
pub proof fn lemma_adjacent_occ<E>(edges: Seq<(nat, nat, E)>, x: nat, v: nat)
    ensures
        count_occ(adjacent(edges, x, false), v) == count_pair(edges, v, x),
        count_occ(adjacent(edges, x, true), v) == count_pair(edges, x, v),
    decreases edges.len(),
{
    if edges.len() > 0 {
        lemma_adjacent_occ(edges.drop_last(), x, v);
        let e = edges.last();
        lemma_count_occ_prepend(e.0, adjacent(edges.drop_last(), x, false), v);
        lemma_count_occ_prepend(e.1, adjacent(edges.drop_last(), x, true), v);
    }
}

/// Removing an active node `x` takes away exactly the edges that join a node
/// to `x`.
pub proof fn lemma_count_remove<E>(edges: Seq<(nat, nat, E)>, active: Seq<bool>, x: nat, v: nat)
    requires
        x < active.len(),
        active[x as int],
        edges_within(active.len(), edges),
    ensures
        count_out(edges, v, active.update(x as int, false)) + count_pair(edges, v, x) == count_out(
            edges,
            v,
            active,
        ),
        count_in(edges, v, active.update(x as int, false)) + count_pair(edges, x, v) == count_in(
            edges,
            v,
            active,
        ),
    decreases edges.len(),
{
    if edges.len() > 0 {
        assert(edges_within(active.len(), edges.drop_last())) by {
            assert forall|k: int| 0 <= k < edges.drop_last().len() implies (
            #[trigger] edges.drop_last()[k]).0 < active.len() && edges.drop_last()[k].1
                < active.len() by {
                assert(edges.drop_last()[k] == edges[k]);
            }
        }
        lemma_count_remove(edges.drop_last(), active, x, v);
        assert(edges.last() == edges[edges.len() - 1]);
    }
}

/// With every node active, the out-count is the number of outgoing edges and
/// the in-count the number of incoming ones.
pub proof fn lemma_count_all_active<E>(edges: Seq<(nat, nat, E)>, active: Seq<bool>, v: nat)
    requires
        forall|i: int| 0 <= i < active.len() ==> active[i],
        edges_within(active.len(), edges),
    ensures
        count_out(edges, v, active) == adjacent(edges, v, true).len(),
        count_in(edges, v, active) == adjacent(edges, v, false).len(),
    decreases edges.len(),
{
    if edges.len() > 0 {
        assert(edges_within(active.len(), edges.drop_last())) by {
            assert forall|k: int| 0 <= k < edges.drop_last().len() implies (
            #[trigger] edges.drop_last()[k]).0 < active.len() && edges.drop_last()[k].1
                < active.len() by {
                assert(edges.drop_last()[k] == edges[k]);
            }
        }
        lemma_count_all_active(edges.drop_last(), active, v);
        assert(edges.last() == edges[edges.len() - 1]);
    }
}

/// A zero out-count means no edge leaves `w` toward an active node; a zero
/// in-count means no edge enters `w` from an active node.
pub proof fn lemma_count_zero<E>(edges: Seq<(nat, nat, E)>, active: Seq<bool>, w: nat)
    ensures
        count_out(edges, w, active) == 0 <==> (forall|k: int|
            0 <= k < edges.len() && (#[trigger] edges[k]).0 == w ==> !active[edges[k].1 as int]),
        count_in(edges, w, active) == 0 <==> (forall|k: int|
            0 <= k < edges.len() && (#[trigger] edges[k]).1 == w ==> !active[edges[k].0 as int]),
    decreases edges.len(),
{
    if edges.len() > 0 {
        let d = edges.drop_last();
        let e = edges.last();
        lemma_count_zero(d, active, w);
        assert(e == edges[edges.len() - 1]);
        assert forall|k: int| 0 <= k < d.len() implies #[trigger] d[k] == edges[k] by {}
        if count_out(edges, w, active) == 0 {
            assert forall|k: int|
                0 <= k < edges.len() && (#[trigger] edges[k]).0 == w implies !active[edges[k].1 as int] by {
                if k < d.len() {
                    assert(d[k] == edges[k]);
                }
            }
        } else {
            if count_out(d, w, active) == 0 {
                assert(e.0 == w && active[e.1 as int]);
            } else {
                let k0 = choose|k: int| 0 <= k < d.len() && (#[trigger] d[k]).0 == w && active[d[k].1 as int];
                assert(edges[k0] == d[k0]);
            }
        }
        if count_in(edges, w, active) == 0 {
            assert forall|k: int|
                0 <= k < edges.len() && (#[trigger] edges[k]).1 == w implies !active[edges[k].0 as int] by {
                if k < d.len() {
                    assert(d[k] == edges[k]);
                }
            }
        } else {
            if count_in(d, w, active) == 0 {
                assert(e.1 == w && active[e.0 as int]);
            } else {
                let k0 = choose|k: int| 0 <= k < d.len() && (#[trigger] d[k]).1 == w && active[d[k].0 as int];
                assert(edges[k0] == d[k0]);
            }
        }
    }
}

/// No active node has an edge to the active node `x` when `x` has in-count 0
/// (and symmetrically for out-count 0).
pub proof fn lemma_no_pair_from_active<E>(
    edges: Seq<(nat, nat, E)>,
    active: Seq<bool>,
    x: nat,
    v: nat,
)
    requires
        v < active.len(),
        active[v as int],
    ensures
        count_in(edges, x, active) == 0 ==> count_pair(edges, v, x) == 0,
        count_out(edges, x, active) == 0 ==> count_pair(edges, x, v) == 0,
    decreases edges.len(),
{
    if edges.len() > 0 {
        lemma_no_pair_from_active(edges.drop_last(), active, x, v);
    }
}

/// The active node with the largest position, scanning from `i` with the
/// best node so far `best`.
proof fn lemma_last_active(active: Seq<bool>, pos: Seq<nat>, i: nat, best: nat) -> (w: nat)
    requires
        i <= active.len(),
        pos.len() == active.len(),
        best < active.len(),
        active[best as int],
        forall|j: int| 0 <= j < i && active[j] ==> pos[j] <= pos[best as int],
    ensures
        w < active.len(),
        active[w as int],
        forall|j: int| 0 <= j < active.len() && active[j] ==> pos[j] <= pos[w as int],
    decreases active.len() - i,
{
    if i == active.len() {
        best
    } else if active[i as int] && pos[i as int] > pos[best as int] {
        lemma_last_active(active, pos, i + 1, i)
    } else {
        lemma_last_active(active, pos, i + 1, best)
    }
}

/// In an acyclic graph, every non-empty set of active nodes holds a node with
/// no edge toward another active node: the active node placed last.
pub proof fn lemma_sink_exists<E>(
    edges: Seq<(nat, nat, E)>,
    active: Seq<bool>,
    pos: Seq<nat>,
    v: nat,
) -> (w: nat)
    requires
        is_topo_positions(active.len(), edges, pos),
        edges_within(active.len(), edges),
        v < active.len(),
        active[v as int],
    ensures
        w < active.len(),
        active[w as int],
        count_out(edges, w, active) == 0,
{
    let best = lemma_last_active(active, pos, 0, v);
    assert forall|k: int| 0 <= k < edges.len() && (#[trigger] edges[k]).0 == best implies !active[
        edges[k].1 as int] by {
        if active[edges[k].1 as int] {
            assert(pos[edges[k].0 as int] < pos[edges[k].1 as int]);
            assert(pos[edges[k].1 as int] <= pos[best as int]);
        }
    }
    lemma_count_zero(edges, active, best);
    best
}

/// Counts never exceed the number of edges.
pub proof fn lemma_count_bounds<E>(edges: Seq<(nat, nat, E)>, active: Seq<bool>, v: nat)
    ensures
        count_out(edges, v, active) <= edges.len(),
        count_in(edges, v, active) <= edges.len(),
    decreases edges.len(),
{
    if edges.len() > 0 {
        lemma_count_bounds(edges.drop_last(), active, v);
    }
}

/// The number of `true` entries.
pub open spec fn count_true(s: Seq<bool>) -> nat
    decreases s.len(),
{
    if s.len() == 0 {
        0
    } else {
        count_true(s.drop_last()) + (if s.last() {
            1nat
        } else {
            0nat
        })
    }
}

pub proof fn lemma_count_true_update(s: Seq<bool>, i: int)
    requires
        0 <= i < s.len(),
        s[i],
    ensures
        count_true(s.update(i, false)) + 1 == count_true(s),
    decreases s.len(),
{
    if i < s.len() - 1 {
        lemma_count_true_update(s.drop_last(), i);
        assert(s.update(i, false).drop_last() =~= s.drop_last().update(i, false));
    } else {
        assert(s.update(i, false).drop_last() =~= s.drop_last());
    }
}

pub proof fn lemma_count_true_zero(s: Seq<bool>)
    ensures
        count_true(s) == 0 <==> forall|i: int| 0 <= i < s.len() ==> !s[i],
    decreases s.len(),
{
    if s.len() > 0 {
        lemma_count_true_zero(s.drop_last());
        if count_true(s) == 0 {
            assert forall|i: int| 0 <= i < s.len() implies !s[i] by {
                if i < s.len() - 1 {
                    assert(s.drop_last()[i] == s[i]);
                }
            }
        } else if count_true(s.drop_last()) > 0 {
            let i = choose|i: int| 0 <= i < s.drop_last().len() && s.drop_last()[i];
            assert(s[i]);
        }
    }
}

pub proof fn lemma_count_true_all(s: Seq<bool>)
    requires
        forall|i: int| 0 <= i < s.len() ==> s[i],
    ensures
        count_true(s) == s.len(),
    decreases s.len(),
{
    if s.len() > 0 {
        lemma_count_true_all(s.drop_last());
    }
}

} // verus!
