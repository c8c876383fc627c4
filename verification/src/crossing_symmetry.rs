//! Reversing every layer of an ordering leaves its crossing count unchanged.
//!
//! The edges between two layers are grouped by source node. Reversing both
//! layers reverses the order of those groups and mirrors every position,
//! and neither changes which pairs of edges cross.
use vstd::prelude::*;
use crate::keyed_graph::{KEdge, KNode, KeyedGraph, neighbour_ids};
use crate::layout_state::{
    OrderingList, StrList, cross_count_with, crosses, crossings, crossings_upto, last_pos, layer_pairs, node_pairs,
    total_crossings,
};

verus! {

/// No id occurs twice in the layer.
pub open spec fn ids_distinct(layer: Seq<String>) -> bool {
    forall|a: int, b: int| 0 <= a < b < layer.len() ==> layer[a]@ != layer[b]@
}

/// The number of crossings between an edge of `p` and an edge of `q`.
pub open spec fn cross_between(p: Seq<(int, int)>, q: Seq<(int, int)>) -> nat
    decreases q.len(),
{
    if q.len() == 0 {
        0
    } else {
        cross_between(p, q.drop_last()) + cross_count_with(p, q.last())
    }
}

/// The blocks of `bl` one after the other.
pub open spec fn concat_blocks(bl: Seq<Seq<(int, int)>>) -> Seq<(int, int)>
    decreases bl.len(),
{
    if bl.len() == 0 {
        seq![]
    } else {
        concat_blocks(bl.drop_last()) + bl.last()
    }
}

/// A position pair mirrored in layers of `s` and `t` positions.
pub open spec fn mirror(a: (int, int), s: int, t: int) -> (int, int) {
    (s - 1 - a.0, t - 1 - a.1)
}

/// Every pair of `p` mirrored.
pub open spec fn mirror_all(p: Seq<(int, int)>, s: int, t: int) -> Seq<(int, int)> {
    p.map_values(|a: (int, int)| mirror(a, s, t))
}

/// The edges from layer `src` to layer `tgt`, one block per source node.
pub open spec fn pair_blocks(src: Seq<String>, tgt: Seq<String>, nodes: Seq<KNode>, edges: Seq<(nat, nat, KEdge)>) -> Seq<
    Seq<(int, int)>,
> {
    Seq::new(src.len(), |i: int| node_pairs(i, neighbour_ids(nodes, edges, src[i]@, true), tgt))
}

proof fn lemma_cross_count_append(p: Seq<(int, int)>, q: Seq<(int, int)>, b: (int, int))
    ensures
        cross_count_with(p + q, b) == cross_count_with(p, b) + cross_count_with(q, b),
    decreases q.len(),
{
    if q.len() == 0 {
        assert(p + q =~= p);
    } else {
        lemma_cross_count_append(p, q.drop_last(), b);
        assert((p + q).drop_last() =~= p + q.drop_last());
    }
}

proof fn lemma_crossings_append(p: Seq<(int, int)>, q: Seq<(int, int)>)
    ensures
        crossings(p + q) == crossings(p) + crossings(q) + cross_between(p, q),
    decreases q.len(),
{
    if q.len() == 0 {
        assert(p + q =~= p);
    } else {
        lemma_crossings_append(p, q.drop_last());
        assert((p + q).drop_last() =~= p + q.drop_last());
        lemma_cross_count_append(p, q.drop_last(), q.last());
    }
}

proof fn lemma_cross_between_push_left(p: Seq<(int, int)>, a: (int, int), q: Seq<(int, int)>)
    ensures
        cross_between(p.push(a), q) == cross_between(p, q) + cross_count_with(q, a),
    decreases q.len(),
{
    if q.len() > 0 {
        let b = q.last();
        lemma_cross_between_push_left(p, a, q.drop_last());
        assert(p.push(a).drop_last() =~= p);
        assert(p.push(a).last() == a);
        assert(cross_count_with(p.push(a), b) == cross_count_with(p, b) + (if crosses(a, b) {
            1nat
        } else {
            0nat
        }));
        assert(crosses(a, b) == crosses(b, a));
    }
}

proof fn lemma_cross_between_empty(q: Seq<(int, int)>)
    ensures
        cross_between(Seq::<(int, int)>::empty(), q) == 0,
    decreases q.len(),
{
    if q.len() > 0 {
        lemma_cross_between_empty(q.drop_last());
    }
}

proof fn lemma_cross_between_symmetric(p: Seq<(int, int)>, q: Seq<(int, int)>)
    ensures
        cross_between(p, q) == cross_between(q, p),
    decreases p.len(),
{
    if p.len() > 0 {
        let p0 = p.drop_last();
        let a = p.last();
        assert(p0.push(a) =~= p);
        lemma_cross_between_symmetric(p0, q);
        lemma_cross_between_push_left(p0, a, q);
        assert(cross_between(q, p) == cross_between(q, p0) + cross_count_with(q, a));
        assert(cross_between(p, q) == cross_between(p0, q) + cross_count_with(q, a));
    } else {
        assert(p =~= Seq::<(int, int)>::empty());
        lemma_cross_between_empty(q);
    }
}

proof fn lemma_cross_between_append(p: Seq<(int, int)>, q1: Seq<(int, int)>, q2: Seq<(int, int)>)
    ensures
        cross_between(p, q1 + q2) == cross_between(p, q1) + cross_between(p, q2),
    decreases q2.len(),
{
    if q2.len() == 0 {
        assert(q1 + q2 =~= q1);
    } else {
        lemma_cross_between_append(p, q1, q2.drop_last());
        assert((q1 + q2).drop_last() =~= q1 + q2.drop_last());
    }
}

proof fn lemma_concat_prepend(b: Seq<(int, int)>, bl: Seq<Seq<(int, int)>>)
    ensures
        concat_blocks(seq![b] + bl) == b + concat_blocks(bl),
    decreases bl.len(),
{
    if bl.len() == 0 {
        let one = seq![b] + bl;
        assert(one.len() == 1);
        assert(one.drop_last() =~= Seq::<Seq<(int, int)>>::empty());
        assert(one.last() == b);
        assert(concat_blocks(one.drop_last()) == Seq::<(int, int)>::empty());
        assert(concat_blocks(one) == concat_blocks(one.drop_last()) + one.last());
        assert(Seq::<(int, int)>::empty() + b =~= b);
        assert(b + Seq::<(int, int)>::empty() =~= b);
    } else {
        lemma_concat_prepend(b, bl.drop_last());
        assert((seq![b] + bl).drop_last() =~= seq![b] + bl.drop_last());
        assert((seq![b] + bl).last() == bl.last());
        assert(b + concat_blocks(bl.drop_last()) + bl.last() =~= b + (concat_blocks(bl.drop_last()) + bl.last()));
    }
}

/// The crossings between `p` and the blocks do not depend on their order.
proof fn lemma_cross_between_reversed(p: Seq<(int, int)>, bl: Seq<Seq<(int, int)>>)
    ensures
        cross_between(p, concat_blocks(bl.reverse())) == cross_between(p, concat_blocks(bl)),
    decreases bl.len(),
{
    if bl.len() > 0 {
        lemma_cross_between_reversed(p, bl.drop_last());
        assert(bl.reverse() =~= seq![bl.last()] + bl.drop_last().reverse());
        lemma_concat_prepend(bl.last(), bl.drop_last().reverse());
        lemma_cross_between_append(p, bl.last(), concat_blocks(bl.drop_last().reverse()));
        lemma_cross_between_append(p, concat_blocks(bl.drop_last()), bl.last());
    }
}

/// The crossings among the blocks do not depend on their order.
proof fn lemma_crossings_reversed(bl: Seq<Seq<(int, int)>>)
    ensures
        crossings(concat_blocks(bl.reverse())) == crossings(concat_blocks(bl)),
    decreases bl.len(),
{
    if bl.len() > 0 {
        let last = bl.last();
        let front = concat_blocks(bl.drop_last());
        let rfront = concat_blocks(bl.drop_last().reverse());
        lemma_crossings_reversed(bl.drop_last());
        assert(bl.reverse() =~= seq![last] + bl.drop_last().reverse());
        lemma_concat_prepend(last, bl.drop_last().reverse());
        lemma_crossings_append(last, rfront);
        lemma_crossings_append(front, last);
        lemma_cross_between_reversed(last, bl.drop_last());
        lemma_cross_between_symmetric(last, front);
    }
}

proof fn lemma_mirror_cross_count(p: Seq<(int, int)>, b: (int, int), s: int, t: int)
    ensures
        cross_count_with(mirror_all(p, s, t), mirror(b, s, t)) == cross_count_with(p, b),
    decreases p.len(),
{
    if p.len() > 0 {
        lemma_mirror_cross_count(p.drop_last(), b, s, t);
        assert(mirror_all(p, s, t).drop_last() =~= mirror_all(p.drop_last(), s, t));
    }
}

/// Mirroring every pair keeps the crossing count.
proof fn lemma_mirror_crossings(p: Seq<(int, int)>, s: int, t: int)
    ensures
        crossings(mirror_all(p, s, t)) == crossings(p),
    decreases p.len(),
{
    if p.len() > 0 {
        lemma_mirror_crossings(p.drop_last(), s, t);
        assert(mirror_all(p, s, t).drop_last() =~= mirror_all(p.drop_last(), s, t));
        lemma_mirror_cross_count(p.drop_last(), p.last(), s, t);
    }
}

proof fn lemma_mirror_concat(bl: Seq<Seq<(int, int)>>, s: int, t: int)
    ensures
        concat_blocks(bl.map_values(|b: Seq<(int, int)>| mirror_all(b, s, t))) == mirror_all(concat_blocks(bl), s, t),
    decreases bl.len(),
{
    if bl.len() == 0 {
        assert(mirror_all(concat_blocks(bl), s, t) =~= Seq::<(int, int)>::empty());
    } else {
        let ml = bl.map_values(|b: Seq<(int, int)>| mirror_all(b, s, t));
        lemma_mirror_concat(bl.drop_last(), s, t);
        assert(ml.drop_last() =~= bl.drop_last().map_values(|b: Seq<(int, int)>| mirror_all(b, s, t)));
        assert(mirror_all(concat_blocks(bl), s, t) =~= mirror_all(concat_blocks(bl.drop_last()), s, t) + mirror_all(
            bl.last(),
            s,
            t,
        ));
    }
}

/// In a layer without repeated ids, an id sits at one position.
proof fn lemma_last_pos_distinct(s: Seq<String>, k: Seq<char>)
    requires
        ids_distinct(s),
    ensures
        last_pos(s, k) matches Some(p) ==> p < s.len() && s[p as int]@ == k,
        last_pos(s, k) is None ==> forall|i: int| 0 <= i < s.len() ==> s[i]@ != k,
        forall|i: int| 0 <= i < s.len() && s[i]@ == k ==> last_pos(s, k) == Some(i as nat),
    decreases s.len(),
{
    if s.len() > 0 {
        assert(ids_distinct(s.drop_last()));
        lemma_last_pos_distinct(s.drop_last(), k);
        assert forall|i: int| 0 <= i < s.drop_last().len() implies s.drop_last()[i] == s[i] by {}
    }
}

/// Looking an id up in the reversed layer gives the mirrored position.
proof fn lemma_last_pos_reverse(s: Seq<String>, k: Seq<char>)
    requires
        ids_distinct(s),
    ensures
        last_pos(s.reverse(), k) == match last_pos(s, k) {
            Some(p) => Some((s.len() - 1 - p) as nat),
            None => None::<nat>,
        },
{
    let r = s.reverse();
    assert(ids_distinct(r)) by {
        assert forall|a: int, b: int| 0 <= a < b < r.len() implies r[a]@ != r[b]@ by {
            assert(r[a] == s[s.len() - 1 - a]);
            assert(r[b] == s[s.len() - 1 - b]);
        }
    }
    lemma_last_pos_distinct(s, k);
    lemma_last_pos_distinct(r, k);
    match last_pos(s, k) {
        Some(p) => {
            assert(r[s.len() - 1 - p] == s[p as int]);
        },
        None => {
            if let Some(q) = last_pos(r, k) {
                assert(r[q as int] == s[s.len() - 1 - q]);
            }
        },
    }
}

/// The block of a source node in the reversed layers is its block in the
/// original layers, mirrored.
proof fn lemma_node_pairs_reverse(sp: int, nbs: Seq<Seq<char>>, tgt: Seq<String>, slen: int)
    requires
        ids_distinct(tgt),
    ensures
        node_pairs(slen - 1 - sp, nbs, tgt.reverse()) == mirror_all(node_pairs(sp, nbs, tgt), slen, tgt.len() as int),
    decreases nbs.len(),
{
    let t = tgt.len() as int;
    if nbs.len() == 0 {
        assert(mirror_all(node_pairs(sp, nbs, tgt), slen, t) =~= Seq::<(int, int)>::empty());
    } else {
        lemma_node_pairs_reverse(sp, nbs.drop_last(), tgt, slen);
        lemma_last_pos_reverse(tgt, nbs.last());
        lemma_last_pos_distinct(tgt, nbs.last());
        let front = node_pairs(sp, nbs.drop_last(), tgt);
        let tail = match last_pos(tgt, nbs.last()) {
            Some(tp) => seq![(sp, tp as int)],
            None => Seq::<(int, int)>::empty(),
        };
        assert(mirror_all(front + tail, slen, t) =~= mirror_all(front, slen, t) + mirror_all(tail, slen, t));
        match last_pos(tgt, nbs.last()) {
            Some(tp) => {
                assert(mirror_all(tail, slen, t) =~= seq![(slen - 1 - sp, t - 1 - tp)]);
            },
            None => {
                assert(mirror_all(tail, slen, t) =~= Seq::<(int, int)>::empty());
            },
        }
    }
}

proof fn lemma_layer_pairs_blocks(src: Seq<String>, tgt: Seq<String>, nodes: Seq<KNode>, edges: Seq<(nat, nat, KEdge)>)
    ensures
        layer_pairs(src, tgt, nodes, edges) == concat_blocks(pair_blocks(src, tgt, nodes, edges)),
    decreases src.len(),
{
    if src.len() > 0 {
        lemma_layer_pairs_blocks(src.drop_last(), tgt, nodes, edges);
        assert(pair_blocks(src, tgt, nodes, edges).drop_last() =~= pair_blocks(src.drop_last(), tgt, nodes, edges));
    }
}

/// Reversing both layers keeps the crossings between them.
proof fn lemma_layer_crossings_reverse(src: Seq<String>, tgt: Seq<String>, nodes: Seq<KNode>, edges: Seq<(nat, nat, KEdge)>)
    requires
        ids_distinct(tgt),
    ensures
        crossings(layer_pairs(src.reverse(), tgt.reverse(), nodes, edges)) == crossings(
            layer_pairs(src, tgt, nodes, edges),
        ),
{
    let s = src.len() as int;
    let t = tgt.len() as int;
    let bl = pair_blocks(src, tgt, nodes, edges);
    let rbl = pair_blocks(src.reverse(), tgt.reverse(), nodes, edges);
    let mbl = bl.reverse().map_values(|b: Seq<(int, int)>| mirror_all(b, s, t));
    assert forall|i: int| 0 <= i < rbl.len() implies rbl[i] == mbl[i] by {
        assert(src.reverse()[i] == src[s - 1 - i]);
        lemma_node_pairs_reverse(s - 1 - i, neighbour_ids(nodes, edges, src[s - 1 - i]@, true), tgt, s);
    }
    assert(rbl =~= mbl);
    lemma_layer_pairs_blocks(src, tgt, nodes, edges);
    lemma_layer_pairs_blocks(src.reverse(), tgt.reverse(), nodes, edges);
    lemma_mirror_concat(bl.reverse(), s, t);
    lemma_mirror_crossings(concat_blocks(bl.reverse()), s, t);
    lemma_crossings_reversed(bl);
}

proof fn lemma_crossings_upto_reverse(
    layers: Seq<Seq<String>>,
    rev: Seq<Seq<String>>,
    nodes: Seq<KNode>,
    edges: Seq<(nat, nat, KEdge)>,
    k: nat,
)
    requires
        k < layers.len(),
        rev.len() == layers.len(),
        forall|i: int| 0 <= i < layers.len() ==> #[trigger] rev[i] == layers[i].reverse(),
        forall|i: int| 0 <= i < layers.len() ==> ids_distinct(#[trigger] layers[i]),
    ensures
        crossings_upto(rev, nodes, edges, k) == crossings_upto(layers, nodes, edges, k),
    decreases k,
{
    if k > 0 {
        lemma_crossings_upto_reverse(layers, rev, nodes, edges, (k - 1) as nat);
        assert(rev[k - 1] == layers[k - 1].reverse());
        assert(rev[k as int] == layers[k as int].reverse());
        assert(ids_distinct(layers[k as int]));
        lemma_layer_crossings_reverse(layers[k - 1], layers[k as int], nodes, edges);
    }
}

/// Reversing every layer of an ordering leaves the number of edge crossings
/// between adjacent layers unchanged, when no layer holds an id twice.
pub proof fn lemma_reversed_layers_same_crossings(
    layers: Seq<Seq<String>>,
    rev: Seq<Seq<String>>,
    nodes: Seq<KNode>,
    edges: Seq<(nat, nat, KEdge)>,
)
    requires
        rev.len() == layers.len(),
        forall|i: int| 0 <= i < layers.len() ==> #[trigger] rev[i] == layers[i].reverse(),
        forall|i: int| 0 <= i < layers.len() ==> ids_distinct(#[trigger] layers[i]),
    ensures
        total_crossings(rev, nodes, edges) == total_crossings(layers, nodes, edges),
        layers.len() <= 1 ==> total_crossings(layers, nodes, edges) == 0,
{
    if layers.len() > 0 {
        lemma_crossings_upto_reverse(layers, rev, nodes, edges, (layers.len() - 1) as nat);
    }
}

/// The same law for orderings of a graph, in the terms that
/// `ordering_count_crossings` states its result in: an ordering and the one
/// with every layer reversed have the same number of crossings, and an
/// ordering of at most one layer has none.
pub proof fn lemma_reversed_ordering_same_crossings(ol: OrderingList, rev: OrderingList, g: KeyedGraph)
    requires
        rev@.len() == ol@.len(),
        forall|i: int| 0 <= i < ol@.len() ==> (#[trigger] rev@[i])@ == ol@[i]@.reverse(),
        forall|i: int| 0 <= i < ol@.len() ==> ids_distinct((#[trigger] ol@[i])@),
    ensures
        total_crossings(rev@.map_values(|l: StrList| l@), g.nodes(), g.edges()) == total_crossings(
            ol@.map_values(|l: StrList| l@),
            g.nodes(),
            g.edges(),
        ),
        ol@.len() <= 1 ==> total_crossings(ol@.map_values(|l: StrList| l@), g.nodes(), g.edges()) == 0,
{
    let layers = ol@.map_values(|l: StrList| l@);
    let rl = rev@.map_values(|l: StrList| l@);
    assert forall|i: int| 0 <= i < layers.len() implies #[trigger] rl[i] == layers[i].reverse() by {
        assert(rl[i] == rev@[i]@);
        assert(layers[i] == ol@[i]@);
    }
    assert forall|i: int| 0 <= i < layers.len() implies ids_distinct(#[trigger] layers[i]) by {
        assert(layers[i] == ol@[i]@);
    }
    lemma_reversed_layers_same_crossings(layers, rl, g.nodes(), g.edges());
}

} // verus!
