//! State for the layout phases: degree maps, node sets, string lists, edge
//! lists, position maps, the mutable keyed graph and its queries, the
//! feedback-arc-set helpers, dummy-edge records, layer orderings, node
//! layouts, edge routes and integer lists.
use vstd::prelude::*;
use crate::keyed::{has_key, key_position, keys_distinct, kv_get, kv_map, kv_set, lemma_kv_index};
use crate::keyed_graph::{KEdge, KNode, KeyedGraph, edge_data, edge_ends, edge_nodes_added, node_data, graph_add_edge, graph_add_node, graph_copy, graph_edges, graph_in_degree, graph_new, graph_node_count, graph_node_index, graph_nodes, graph_out_degree, graph_predecessors, graph_successors, kg_index_of, knode_is, neighbour_ids, one_more, opt_text};
use crate::path_state::PointList;
use crate::text::{chars_le, is_prefix, sort_strings, sorted_strings, str_eq, str_starts_with_str};

verus! {

// ─── DegMap ─────────────────────────────────────────────────────────────────

/// A map from node id to an integer (a degree or a layer).
#[derive(Debug)]
pub struct DegMap {
    pub inner: Vec<(String, i32)>,
}

impl View for DegMap {
    type V = Map<Seq<char>, i32>;

    open spec fn view(&self) -> Map<Seq<char>, i32> {
        kv_map(self.inner@)
    }
}

impl DegMap {
    /// Keys are distinct.
    pub open spec fn wf(&self) -> bool {
        keys_distinct(self.inner@)
    }
}

/// The value of `k` in `m`, 0 when absent.
pub open spec fn get_or_zero(m: Map<Seq<char>, i32>, k: Seq<char>) -> i32 {
    if m.dom().contains(k) {
        m[k]
    } else {
        0
    }
}

/// An empty map.
/// After `deg_map_set(dm, k, v)`, reading `k` gives `v` and reading any
/// other key gives what it gave before.
pub proof fn lemma_deg_map_set_get(m: Map<Seq<char>, i32>, k: Seq<char>, v: i32, k2: Seq<char>)
    ensures
        get_or_zero(m.insert(k, v), k2) == (if k2 == k {
            v
        } else {
            get_or_zero(m, k2)
        }),
{
}

pub fn deg_map_new() -> (dm: DegMap)
    ensures
        dm.wf(),
        dm@ == Map::<Seq<char>, i32>::empty(),
{
    let dm = DegMap { inner: Vec::new() };
    assert(dm@ =~= Map::<Seq<char>, i32>::empty());
    dm
}

/// Sets `id` to `val` and returns the map.
pub fn deg_map_set(dm: DegMap, id: String, val: i32) -> (r: DegMap)
    requires
        dm.wf(),
    ensures
        r.wf(),
        r@ == dm@.insert(id@, val),
{
    let mut dm = dm;
    kv_set(&mut dm.inner, id, val);
    dm
}

/// The value of `id`, 0 when absent.
pub fn deg_map_get(dm: DegMap, id: String) -> (v: i32)
    requires
        dm.wf(),
    ensures
        v == get_or_zero(dm@, id@),
{
    match kv_get(&dm.inner, id.as_str()) {
        Some(v) => v,
        None => 0,
    }
}

/// Decrements the value of `id` by one when it is present and positive;
/// returns the map.
pub fn deg_map_dec(dm: DegMap, id: String) -> (r: DegMap)
    requires
        dm.wf(),
    ensures
        r.wf(),
        r@ == (if dm@.dom().contains(id@) && dm@[id@] > 0 {
            dm@.insert(id@, (dm@[id@] - 1) as i32)
        } else {
            dm@
        }),
{
    let mut dm = dm;
    match kv_get(&dm.inner, id.as_str()) {
        Some(v) => {
            if v > 0 {
                kv_set(&mut dm.inner, id, v - 1);
            }
        },
        None => {},
    }
    dm
}

/// The largest value, or 0 for an empty map.
pub fn deg_map_max(dm: DegMap) -> (m: i32)
    requires
        dm.wf(),
    ensures
        dm@ == Map::<Seq<char>, i32>::empty() ==> m == 0,
        dm@ != Map::<Seq<char>, i32>::empty() ==> dm@.values().contains(m) && forall|k: Seq<char>|
            #[trigger] dm@.dom().contains(k) ==> dm@[k] <= m,
{
    let mut best: Option<i32> = None;
    let mut i: usize = 0;
    while i < dm.inner.len()
        invariant
            dm.wf(),
            i <= dm.inner@.len(),
            best is None <==> i == 0,
            best matches Some(b) ==> exists|j: int| 0 <= j < i && dm.inner@[j].1 == b,
            best matches Some(b) ==> forall|j: int| 0 <= j < i ==> (#[trigger] dm.inner@[j]).1 <= b,
        decreases dm.inner@.len() - i,
    {
        let v = dm.inner[i].1;
        match best {
            Some(b) => {
                if v > b {
                    best = Some(v);
                }
            },
            None => {
                best = Some(v);
            },
        }
        i = i + 1;
    }
    proof {
        if dm.inner@.len() == 0 {
            assert(dm@ =~= Map::<Seq<char>, i32>::empty());
        } else {
            let j = choose|j: int| 0 <= j < dm.inner@.len() && dm.inner@[j].1 == best->0;
            lemma_kv_index(dm.inner@, j);
            assert(dm@.dom().contains(dm.inner@[j].0@));
            assert(!Map::<Seq<char>, i32>::empty().dom().contains(dm.inner@[j].0@));
            assert(dm@.values().contains(best->0));
            assert forall|k: Seq<char>| #[trigger] dm@.dom().contains(k) implies dm@[k] <= best->0 by {
                let c = choose|c: int| 0 <= c < dm.inner@.len() && (#[trigger] dm.inner@[c]).0@ == k;
                lemma_kv_index(dm.inner@, c);
            }
        }
    }
    match best {
        Some(b) => b,
        None => 0,
    }
}

/// The same map.
pub fn deg_map_copy(dm: DegMap) -> (r: DegMap)
    ensures
        r@ == dm@,
        r.inner@ == dm.inner@,
{
    dm
}

/// All keys, sorted.
pub fn deg_map_sorted_keys(dm: DegMap) -> (r: StrList)
    ensures
        sorted_strings(r@),
        r@.to_multiset() == dm.inner@.map_values(|p: (String, i32)| p.0).to_multiset(),
{
    let mut keys: Vec<String> = Vec::new();
    let mut i: usize = 0;
    while i < dm.inner.len()
        invariant
            i <= dm.inner@.len(),
            keys@ == dm.inner@.map_values(|p: (String, i32)| p.0).take(i as int),
        decreases dm.inner@.len() - i,
    {
        keys.push(dm.inner[i].0.clone());
        proof {
            assert(dm.inner@.map_values(|p: (String, i32)| p.0).take(i + 1) =~= dm.inner@.map_values(
                |p: (String, i32)| p.0,
            ).take(i as int).push(dm.inner@[i as int].0));
        }
        i = i + 1;
    }
    proof {
        assert(dm.inner@.map_values(|p: (String, i32)| p.0).take(dm.inner@.len() as int) =~= dm.inner@.map_values(
            |p: (String, i32)| p.0,
        ));
    }
    sort_strings(keys)
}

// ─── NodeSet ────────────────────────────────────────────────────────────────

/// A set of node ids.
#[derive(Debug)]
pub struct NodeSet {
    pub inner: Vec<String>,
}

/// The texts of a list of strings.
pub open spec fn texts(s: Seq<String>) -> Seq<Seq<char>> {
    s.map_values(|x: String| x@)
}

/// The set of texts in a list of strings.
pub open spec fn text_set(s: Seq<String>) -> Set<Seq<char>> {
    Set::new(|k: Seq<char>| exists|i: int| 0 <= i < s.len() && (#[trigger] s[i])@ == k)
}

impl View for NodeSet {
    type V = Set<Seq<char>>;

    open spec fn view(&self) -> Set<Seq<char>> {
        text_set(self.inner@)
    }
}

impl NodeSet {
    /// No id occurs twice.
    pub open spec fn wf(&self) -> bool {
        texts(self.inner@).no_duplicates()
    }
}

/// Whether `k` occurs in `s`, by text.
fn position_of(s: &Vec<String>, k: &str) -> (r: Option<usize>)
    ensures
        r is None <==> !text_set(s@).contains(k@),
        r matches Some(i) ==> i < s@.len() && s@[i as int]@ == k@,
{
    let mut i: usize = 0;
    while i < s.len()
        invariant
            i <= s@.len(),
            forall|j: int| 0 <= j < i ==> (#[trigger] s@[j])@ != k@,
        decreases s@.len() - i,
    {
        if str_eq(s[i].as_str(), k) {
            return Some(i);
        }
        i = i + 1;
    }
    None
}

/// The set of the ids in `sl`.
pub fn node_set_from_str_list(sl: &StrList) -> (ns: NodeSet)
    ensures
        ns.wf(),
        ns@ == text_set(sl@),
{
    let mut inner: Vec<String> = Vec::new();
    let mut i: usize = 0;
    while i < sl.len()
        invariant
            i <= sl@.len(),
            texts(inner@).no_duplicates(),
            text_set(inner@) == text_set(sl@.take(i as int)),
        decreases sl@.len() - i,
    {
        let ghost before = inner@;
        if position_of(&inner, sl[i].as_str()).is_none() {
            inner.push(sl[i].clone());
            proof {
                assert forall|a: int, b: int|
                    0 <= a < texts(inner@).len() && 0 <= b < texts(inner@).len() && a != b implies texts(
                    inner@,
                )[a] != texts(inner@)[b] by {
                    if a < before.len() && b < before.len() {
                        assert(texts(before)[a] != texts(before)[b]);
                    } else if a < before.len() {
                        assert(inner@[a] == before[a]);
                    } else {
                        assert(inner@[b] == before[b]);
                    }
                }
            }
        }
        proof {
            let t1 = sl@.take(i + 1);
            assert forall|k: Seq<char>| text_set(inner@).contains(k) <==> text_set(t1).contains(k) by {
                if text_set(inner@).contains(k) {
                    let j = choose|j: int| 0 <= j < inner@.len() && (#[trigger] inner@[j])@ == k;
                    if j < before.len() {
                        assert(inner@[j] == before[j]);
                        assert(text_set(sl@.take(i as int)).contains(k));
                        let c = choose|c: int| 0 <= c < i && (#[trigger] sl@.take(i as int)[c])@ == k;
                        assert(t1[c] == sl@.take(i as int)[c]);
                    } else {
                        assert(t1[i as int]@ == k);
                    }
                }
                if text_set(t1).contains(k) {
                    let c = choose|c: int| 0 <= c < t1.len() && (#[trigger] t1[c])@ == k;
                    if c < i {
                        assert(sl@.take(i as int)[c] == t1[c]);
                        assert(text_set(sl@.take(i as int)).contains(k));
                        assert(text_set(before).contains(k));
                        let j = choose|j: int| 0 <= j < before.len() && (#[trigger] before[j])@ == k;
                        assert(inner@[j] == before[j]);
                    } else if text_set(before).contains(k) {
                        let j = choose|j: int| 0 <= j < before.len() && (#[trigger] before[j])@ == k;
                        assert(inner@[j] == before[j]);
                    } else {
                        assert(inner@[before.len() as int]@ == k);
                    }
                }
            }
            assert(text_set(inner@) =~= text_set(t1));
        }
        i = i + 1;
    }
    proof {
        assert(sl@.take(sl@.len() as int) =~= sl@);
    }
    NodeSet { inner }
}

/// Removes `id` from the set and returns the set.
pub fn node_set_remove(ns: NodeSet, id: String) -> (r: NodeSet)
    requires
        ns.wf(),
    ensures
        r.wf(),
        r@ == ns@.remove(id@),
{
    let mut ns = ns;
    match position_of(&ns.inner, id.as_str()) {
        Some(i) => {
            let ghost before = ns.inner@;
            ns.inner.remove(i);
            proof {
                assert(ns.inner@ == before.remove(i as int));
                assert forall|a: int, b: int|
                    0 <= a < texts(ns.inner@).len() && 0 <= b < texts(ns.inner@).len() && a != b implies texts(
                    ns.inner@,
                )[a] != texts(ns.inner@)[b] by {
                    let a0 = if a < i { a } else { a + 1 };
                    let b0 = if b < i { b } else { b + 1 };
                    assert(ns.inner@[a] == before[a0]);
                    assert(ns.inner@[b] == before[b0]);
                    assert(texts(before)[a0] != texts(before)[b0]);
                }
                assert forall|k: Seq<char>| text_set(ns.inner@).contains(k) <==> text_set(before).remove(
                    id@,
                ).contains(k) by {
                    if text_set(ns.inner@).contains(k) {
                        let j = choose|j: int| 0 <= j < ns.inner@.len() && (#[trigger] ns.inner@[j])@ == k;
                        let j0 = if j < i { j } else { j + 1 };
                        assert(ns.inner@[j] == before[j0]);
                        assert(texts(before)[j0] != texts(before)[i as int]);
                    }
                    if text_set(before).remove(id@).contains(k) {
                        let j = choose|j: int| 0 <= j < before.len() && (#[trigger] before[j])@ == k;
                        assert(j != i);
                        let j1 = if j < i { j } else { j - 1 };
                        assert(ns.inner@[j1] == before[j]);
                    }
                }
                assert(text_set(ns.inner@) =~= text_set(before).remove(id@));
            }
        },
        None => {
            assert(text_set(ns.inner@) =~= text_set(ns.inner@).remove(id@));
        },
    }
    ns
}

/// Whether `id` is in the set.
pub fn node_set_contains(ns: NodeSet, id: String) -> (r: bool)
    ensures
        r == ns@.contains(id@),
{
    position_of(&ns.inner, id.as_str()).is_some()
}

/// The number of ids in the set.
pub fn node_set_len(ns: NodeSet) -> (n: i32)
    requires
        ns.inner@.len() <= i32::MAX,
    ensures
        n == ns.inner@.len(),
{
    ns.inner.len() as i32
}

// ─── StrList ────────────────────────────────────────────────────────────────

/// A list of strings (node ids, mostly).
pub type StrList = Vec<String>;

/// An empty list.
pub fn str_list_new() -> (sl: StrList)
    ensures
        sl@.len() == 0,
{
    Vec::new()
}

/// Appends `s`.
pub fn str_list_push(sl: &mut StrList, s: String)
    ensures
        final(sl)@ == old(sl)@.push(s),
{
    sl.push(s);
}

/// The number of strings.
pub fn str_list_len(sl: &StrList) -> (n: i32)
    requires
        sl@.len() <= i32::MAX,
    ensures
        n == sl@.len(),
{
    sl.len() as i32
}

/// String `idx`.
pub fn str_list_get(sl: &StrList, idx: i32) -> (s: String)
    requires
        0 <= idx < sl@.len(),
    ensures
        s == sl@[idx as int],
{
    sl[idx as usize].clone()
}

/// Appends the strings of `src` in reverse order.
pub fn str_list_extend_reversed(dst: &mut StrList, src: &StrList)
    ensures
        final(dst)@ == old(dst)@ + src@.reverse(),
{
    let mut i: usize = src.len();
    while i > 0
        invariant
            i <= src@.len(),
            dst@ == old(dst)@ + src@.reverse().take(src@.len() - i),
        decreases i,
    {
        i = i - 1;
        dst.push(src[i].clone());
        proof {
            assert(src@.reverse().take(src@.len() - i) =~= src@.reverse().take(src@.len() - i - 1).push(
                src@[i as int],
            ));
        }
    }
    proof {
        assert(src@.reverse().take(src@.len() as int) =~= src@.reverse());
    }
}

// ─── EdgePairList ───────────────────────────────────────────────────────────

/// A list of `(source id, target id)` pairs.
pub type EdgePairList = Vec<(String, String)>;

/// An empty list.
pub fn edge_pair_list_new() -> (epl: EdgePairList)
    ensures
        epl@.len() == 0,
{
    Vec::new()
}

/// Appends the pair `(src, tgt)`.
pub fn edge_pair_list_add(epl: &mut EdgePairList, src: String, tgt: String)
    ensures
        final(epl)@ == old(epl)@.push((src, tgt)),
{
    epl.push((src, tgt));
}

/// Whether the pair `(src, tgt)` is in the list.
pub fn edge_pair_list_contains(epl: &EdgePairList, src: String, tgt: String) -> (r: bool)
    ensures
        r == exists|i: int| 0 <= i < epl@.len() && (#[trigger] epl@[i]).0@ == src@ && epl@[i].1@ == tgt@,
{
    let mut i: usize = 0;
    while i < epl.len()
        invariant
            i <= epl@.len(),
            forall|j: int| 0 <= j < i ==> !((#[trigger] epl@[j]).0@ == src@ && epl@[j].1@ == tgt@),
        decreases epl@.len() - i,
    {
        if str_eq(epl[i].0.as_str(), src.as_str()) && str_eq(epl[i].1.as_str(), tgt.as_str()) {
            return true;
        }
        i = i + 1;
    }
    false
}

/// The number of pairs.
pub fn edge_pair_list_len(epl: &EdgePairList) -> (n: i32)
    requires
        epl@.len() <= i32::MAX,
    ensures
        n == epl@.len(),
{
    epl.len() as i32
}

/// The source of pair `idx`.
pub fn edge_pair_list_get_src(epl: &EdgePairList, idx: i32) -> (s: String)
    requires
        0 <= idx < epl@.len(),
    ensures
        s == epl@[idx as int].0,
{
    epl[idx as usize].0.clone()
}

/// The target of pair `idx`.
pub fn edge_pair_list_get_tgt(epl: &EdgePairList, idx: i32) -> (s: String)
    requires
        0 <= idx < epl@.len(),
    ensures
        s == epl@[idx as int].1,
{
    epl[idx as usize].1.clone()
}

// ─── EdgeInfoList ───────────────────────────────────────────────────────────

/// A list of edges as `(source id, target id, edge type, label)`; an empty
/// label means none.
pub type EdgeInfoList = Vec<(String, String, String, String)>;

/// The number of edges.
pub fn edge_info_len(el: &EdgeInfoList) -> (n: i32)
    requires
        el@.len() <= i32::MAX,
    ensures
        n == el@.len(),
{
    el.len() as i32
}

/// The source of edge `idx`.
pub fn edge_info_src(el: &EdgeInfoList, idx: i32) -> (s: String)
    requires
        0 <= idx < el@.len(),
    ensures
        s == el@[idx as int].0,
{
    el[idx as usize].0.clone()
}

/// The target of edge `idx`.
pub fn edge_info_tgt(el: &EdgeInfoList, idx: i32) -> (s: String)
    requires
        0 <= idx < el@.len(),
    ensures
        s == el@[idx as int].1,
{
    el[idx as usize].1.clone()
}

/// The edge type of edge `idx`.
pub fn edge_info_etype(el: &EdgeInfoList, idx: i32) -> (s: String)
    requires
        0 <= idx < el@.len(),
    ensures
        s == el@[idx as int].2,
{
    el[idx as usize].2.clone()
}

/// The label of edge `idx` (empty when none).
pub fn edge_info_label(el: &EdgeInfoList, idx: i32) -> (s: String)
    requires
        0 <= idx < el@.len(),
    ensures
        s == el@[idx as int].3,
{
    el[idx as usize].3.clone()
}

// ─── PosMap ─────────────────────────────────────────────────────────────────

/// The position of the last occurrence of `k` in `s`.
pub open spec fn last_pos(s: Seq<String>, k: Seq<char>) -> Option<nat>
    decreases s.len(),
{
    if s.len() == 0 {
        None
    } else if s.last()@ == k {
        Some((s.len() - 1) as nat)
    } else {
        last_pos(s.drop_last(), k)
    }
}

/// A map from node id to its position in an ordering.
#[derive(Debug)]
pub struct PosMap {
    pub inner: Vec<(String, i32)>,
}

impl View for PosMap {
    type V = Map<Seq<char>, i32>;

    open spec fn view(&self) -> Map<Seq<char>, i32> {
        kv_map(self.inner@)
    }
}

impl PosMap {
    pub open spec fn wf(&self) -> bool {
        keys_distinct(self.inner@)
    }
}

/// Maps each id of `ordering` to its position (the last one, for an id that
/// occurs twice).
pub fn pos_map_from_str_list(ordering: &StrList) -> (pm: PosMap)
    requires
        ordering@.len() <= i32::MAX,
    ensures
        pm.wf(),
        forall|k: Seq<char>|
            #![trigger pm@.dom().contains(k)]
            (pm@.dom().contains(k) <==> last_pos(ordering@, k) is Some) && (last_pos(ordering@, k) matches Some(
                p,
            ) ==> pm@[k] == p),
{
    let mut inner: Vec<(String, i32)> = Vec::new();
    let mut i: usize = 0;
    while i < ordering.len()
        invariant
            ordering@.len() <= i32::MAX,
            i <= ordering@.len(),
            keys_distinct(inner@),
            forall|k: Seq<char>|
                #![trigger kv_map(inner@).dom().contains(k)]
                (kv_map(inner@).dom().contains(k) <==> last_pos(ordering@.take(i as int), k) is Some) && (last_pos(
                    ordering@.take(i as int),
                    k,
                ) matches Some(p) ==> kv_map(inner@)[k] == p),
        decreases ordering@.len() - i,
    {
        let ghost before = kv_map(inner@);
        kv_set(&mut inner, ordering[i].clone(), i as i32);
        proof {
            let t1 = ordering@.take(i + 1);
            assert(t1.drop_last() =~= ordering@.take(i as int));
            assert(t1.last() == ordering@[i as int]);
        }
        i = i + 1;
    }
    proof {
        assert(ordering@.take(ordering@.len() as int) =~= ordering@);
    }
    PosMap { inner }
}

/// The position of `id`, -1 when absent.
pub fn pos_map_get(pm: &PosMap, id: String) -> (p: i32)
    requires
        pm.wf(),
    ensures
        p == (if pm@.dom().contains(id@) {
            pm@[id@]
        } else {
            -1i32
        }),
{
    match kv_get(&pm.inner, id.as_str()) {
        Some(v) => v,
        None => -1,
    }
}

// ─── MutableGraph ───────────────────────────────────────────────────────────

/// The graph that the layout phases fill in.
pub type MutableGraph = KeyedGraph;

/// An empty graph.
pub fn mgraph_new() -> (mg: MutableGraph)
    ensures
        mg.wf(),
        mg.nodes().len() == 0,
        mg.edges().len() == 0,
{
    graph_new()
}

/// Adds a node outside any subgraph (nothing happens if the id exists).
pub fn mgraph_add_node_full(mg: &mut MutableGraph, id: String, label: String, shape: String)
    requires
        old(mg).wf(),
        old(mg).nodes().len() + 1 < u32::MAX,
    ensures
        final(mg).wf(),
        final(mg).edges() == old(mg).edges(),
        kg_index_of(old(mg).nodes(), id@) is Some ==> final(mg).nodes() == old(mg).nodes(),
        kg_index_of(old(mg).nodes(), id@) is None ==> one_more(old(mg).nodes(), final(mg).nodes()) && knode_is(
            final(mg).nodes().last(),
            id@,
            label@,
            shape@,
            None,
        ),
{
    graph_add_node(mg, id.as_str(), label.as_str(), shape.as_str(), None);
}

/// Adds the edge `from → to`; an empty label means none.
pub fn mgraph_add_edge_full(mg: &mut MutableGraph, from: String, to: String, etype: String, label: String)
    requires
        old(mg).wf(),
        old(mg).nodes().len() + 2 < u32::MAX,
        old(mg).edges().len() + 1 < u32::MAX,
    ensures
        final(mg).wf(),
        kg_index_of(final(mg).nodes(), from@) matches Some(a) && kg_index_of(final(mg).nodes(), to@) matches Some(b)
            && one_more(old(mg).edges(), final(mg).edges()) && final(mg).edges().last().0 == a
            && final(mg).edges().last().1 == b && final(mg).edges().last().2.edge_type@ == etype@ && opt_text(
            final(mg).edges().last().2.label,
        ) == (if label@.len() == 0 {
            None
        } else {
            Some(label@)
        }),
        edge_nodes_added(old(mg).nodes(), final(mg).nodes(), from@, to@),
{
    if label.as_str().is_empty() {
        graph_add_edge(mg, from.as_str(), to.as_str(), etype.as_str(), None);
    } else {
        graph_add_edge(mg, from.as_str(), to.as_str(), etype.as_str(), Some(label.as_str()));
    }
}

/// A copy of the graph built so far.
pub fn mgraph_build(mg: &MutableGraph) -> (g: KeyedGraph)
    requires
        mg.wf(),
    ensures
        g.wf(),
        g.nodes() == mg.nodes(),
        g.edges() == mg.edges(),
{
    graph_copy(mg)
}

// ─── Graph queries ──────────────────────────────────────────────────────────

/// The number of nodes.
pub fn gw_node_count(g: &KeyedGraph) -> (n: i32)
    requires
        g.nodes().len() <= i32::MAX,
    ensures
        n == g.nodes().len(),
{
    graph_node_count(g) as i32
}

/// All node ids, sorted.
pub fn gw_nodes(g: &KeyedGraph) -> (r: StrList)
    requires
        g.wf(),
    ensures
        sorted_strings(r@),
        r@.to_multiset() == g.nodes().map_values(|d: KNode| d.id).to_multiset(),
{
    graph_nodes(g)
}

/// The number of edges out of node `id` (0 for an unknown id).
pub fn gw_out_degree(g: &KeyedGraph, id: String) -> (d: i32)
    requires
        g.wf(),
        g.edges().len() <= i32::MAX,
    ensures
        d == neighbour_ids(g.nodes(), g.edges(), id@, true).len(),
{
    let d = graph_out_degree(g, id.as_str());
    proof {
        lemma_neighbour_count(g, id@, true);
    }
    d as i32
}

/// The number of edges into node `id` (0 for an unknown id).
pub fn gw_in_degree(g: &KeyedGraph, id: String) -> (d: i32)
    requires
        g.wf(),
        g.edges().len() <= i32::MAX,
    ensures
        d == neighbour_ids(g.nodes(), g.edges(), id@, false).len(),
{
    let d = graph_in_degree(g, id.as_str());
    proof {
        lemma_neighbour_count(g, id@, false);
    }
    d as i32
}

/// A node has no more neighbours than the graph has edges.
proof fn lemma_neighbour_count(g: &KeyedGraph, id: Seq<char>, outgoing: bool)
    requires
        g.wf(),
    ensures
        neighbour_ids(g.nodes(), g.edges(), id, outgoing).len() <= g.edges().len(),
{
    if let Some(i) = kg_index_of(g.nodes(), id) {
        lemma_edge_ends_len(g.edges(), i, outgoing);
    }
}

proof fn lemma_edge_ends_len(edges: Seq<(nat, nat, KEdge)>, i: nat, outgoing: bool)
    ensures
        edge_ends(edges, i, outgoing).len() <= edges.len(),
    decreases edges.len(),
{
    if edges.len() > 0 {
        lemma_edge_ends_len(edges.drop_last(), i, outgoing);
    }
}

/// The ids of the targets of the edges out of node `id`, in edge order.
pub fn gw_successors(g: &KeyedGraph, id: String) -> (r: StrList)
    requires
        g.wf(),
    ensures
        texts(r@) == neighbour_ids(g.nodes(), g.edges(), id@, true),
{
    graph_successors(g, id.as_str())
}

/// The ids of the sources of the edges into node `id`, in edge order.
pub fn gw_predecessors(g: &KeyedGraph, id: String) -> (r: StrList)
    requires
        g.wf(),
    ensures
        texts(r@) == neighbour_ids(g.nodes(), g.edges(), id@, false),
{
    graph_predecessors(g, id.as_str())
}

/// The label of node `id`; the id itself for an unknown id.
pub fn gw_node_label(g: &KeyedGraph, id: String) -> (l: String)
    requires
        g.wf(),
    ensures
        l@ == match kg_index_of(g.nodes(), id@) {
            Some(i) => g.nodes()[i as int].label@,
            None => id@,
        },
{
    match graph_node_index(g, id.as_str()) {
        None => id.clone(),
        Some(i) => node_data(g, i).label.clone(),
    }
}

/// The shape name of node `id`; `"Rectangle"` for an unknown id.
pub fn gw_node_shape(g: &KeyedGraph, id: String) -> (s: String)
    requires
        g.wf(),
    ensures
        s@ == match kg_index_of(g.nodes(), id@) {
            Some(i) => g.nodes()[i as int].shape@,
            None => "Rectangle"@,
        },
{
    match graph_node_index(g, id.as_str()) {
        None => {
            proof {
                reveal_strlit("Rectangle");
            }
            "Rectangle".to_string()
        },
        Some(i) => node_data(g, i).shape.clone(),
    }
}

/// An independent copy of the graph.
pub fn gw_copy(g: &KeyedGraph) -> (c: KeyedGraph)
    requires
        g.wf(),
    ensures
        c.wf(),
        c.nodes() == g.nodes(),
        c.edges() == g.edges(),
{
    graph_copy(g)
}

/// Every edge as `(source id, target id, edge type, label)`, in edge order;
/// an edge without a label gets an empty one.
pub fn gw_edges_full(g: &KeyedGraph) -> (r: EdgeInfoList)
    requires
        g.wf(),
    ensures
        r@.len() == g.edges().len(),
        forall|k: int|
            0 <= k < r@.len() ==> {
                let e = g.edges()[k];
                &&& (#[trigger] r@[k]).0@ == g.nodes()[e.0 as int].id@
                &&& r@[k].1@ == g.nodes()[e.1 as int].id@
                &&& r@[k].2@ == e.2.edge_type@
                &&& r@[k].3@ == match e.2.label {
                    Some(l) => l@,
                    None => Seq::<char>::empty(),
                }
            },
{
    let pairs = graph_edges(g);
    let mut r: EdgeInfoList = Vec::new();
    let mut k: usize = 0;
    while k < pairs.len()
        invariant
            g.wf(),
            pairs@.len() == g.edges().len(),
            forall|j: int|
                0 <= j < pairs@.len() ==> (#[trigger] pairs@[j]).0@ == g.nodes()[g.edges()[j].0 as int].id@
                    && pairs@[j].1@ == g.nodes()[g.edges()[j].1 as int].id@,
            k <= pairs@.len(),
            r@.len() == k,
            forall|j: int|
                0 <= j < k ==> {
                    let e = g.edges()[j];
                    &&& (#[trigger] r@[j]).0@ == g.nodes()[e.0 as int].id@
                    &&& r@[j].1@ == g.nodes()[e.1 as int].id@
                    &&& r@[j].2@ == e.2.edge_type@
                    &&& r@[j].3@ == match e.2.label {
                        Some(l) => l@,
                        None => Seq::<char>::empty(),
                    }
                },
        decreases pairs@.len() - k,
    {
        let w = edge_data(g, k);
        let label = match &w.label {
            Some(l) => l.clone(),
            None => String::new(),
        };
        r.push((pairs[k].0.clone(), pairs[k].1.clone(), w.edge_type.clone(), label));
        k = k + 1;
    }
    r
}

// ─── Feedback-arc-set helpers ───────────────────────────────────────────────

/// The ids of `ids` whose counter in `deg` is 0 (absent counts as 0), in
/// order.
pub open spec fn zero_ids(ids: Seq<String>, deg: Map<Seq<char>, i32>) -> Seq<String>
    decreases ids.len(),
{
    if ids.len() == 0 {
        seq![]
    } else {
        zero_ids(ids.drop_last(), deg) + (if get_or_zero(deg, ids.last()@) == 0 {
            seq![ids.last()]
        } else {
            seq![]
        })
    }
}

fn zero_filter(active: &NodeSet, deg: &DegMap) -> (r: StrList)
    requires
        deg.wf(),
    ensures
        r@ == zero_ids(active.inner@, deg@),
{
    let mut r: StrList = Vec::new();
    let mut i: usize = 0;
    while i < active.inner.len()
        invariant
            deg.wf(),
            i <= active.inner@.len(),
            r@ == zero_ids(active.inner@.take(i as int), deg@),
        decreases active.inner@.len() - i,
    {
        let v = match kv_get(&deg.inner, active.inner[i].as_str()) {
            Some(x) => x,
            None => 0,
        };
        proof {
            let t1 = active.inner@.take(i + 1);
            assert(t1.drop_last() =~= active.inner@.take(i as int));
            assert(t1.last() == active.inner@[i as int]);
        }
        if v == 0 {
            r.push(active.inner[i].clone());
        }
        i = i + 1;
    }
    proof {
        assert(active.inner@.take(active.inner@.len() as int) =~= active.inner@);
    }
    r
}

/// The ids in `active` whose out-degree is 0.
pub fn fas_sinks(active: &NodeSet, out_deg: &DegMap) -> (r: StrList)
    requires
        out_deg.wf(),
    ensures
        r@ == zero_ids(active.inner@, out_deg@),
{
    zero_filter(active, out_deg)
}

/// The ids in `active` whose in-degree is 0.
pub fn fas_sources(active: &NodeSet, in_deg: &DegMap) -> (r: StrList)
    requires
        in_deg.wf(),
    ensures
        r@ == zero_ids(active.inner@, in_deg@),
{
    zero_filter(active, in_deg)
}

/// The `out − in` score of an id.
pub open spec fn fas_score(out_deg: Map<Seq<char>, i32>, in_deg: Map<Seq<char>, i32>, k: Seq<char>) -> int {
    get_or_zero(out_deg, k) - get_or_zero(in_deg, k)
}

/// The choice made over `ids`: scanning in order, an id replaces the best so
/// far when nothing has been chosen yet (the chosen id is empty) or when its
/// score is strictly higher. Returns the chosen id and its score.
pub open spec fn best_scan(ids: Seq<String>, out_deg: Map<Seq<char>, i32>, in_deg: Map<Seq<char>, i32>) -> (
    Seq<char>,
    int,
)
    decreases ids.len(),
{
    if ids.len() == 0 {
        (Seq::<char>::empty(), i32::MIN as int)
    } else {
        let prev = best_scan(ids.drop_last(), out_deg, in_deg);
        let sc = fas_score(out_deg, in_deg, ids.last()@);
        if prev.0.len() == 0 || sc > prev.1 {
            (ids.last()@, sc)
        } else {
            prev
        }
    }
}

/// Position `k` holds the first id of `ids` with the highest `out − in`
/// score: no id scores more, and every id before it scores less.
pub open spec fn is_first_best(ids: Seq<String>, out_deg: Map<Seq<char>, i32>, in_deg: Map<Seq<char>, i32>, k: int) -> bool {
    &&& 0 <= k < ids.len()
    &&& forall|j: int| 0 <= j < ids.len() ==> fas_score(out_deg, in_deg, (#[trigger] ids[j])@) <= fas_score(out_deg, in_deg, ids[k]@)
    &&& forall|j: int| 0 <= j < k ==> fas_score(out_deg, in_deg, (#[trigger] ids[j])@) < fas_score(out_deg, in_deg, ids[k]@)
}

/// When no id is empty, the scan chooses the first id with the highest
/// score.
pub proof fn lemma_best_scan_first_best(ids: Seq<String>, out_deg: Map<Seq<char>, i32>, in_deg: Map<Seq<char>, i32>) -> (k: int)
    requires
        ids.len() > 0,
        forall|i: int| 0 <= i < ids.len() ==> (#[trigger] ids[i])@.len() > 0,
    ensures
        is_first_best(ids, out_deg, in_deg, k),
        best_scan(ids, out_deg, in_deg) == (ids[k]@, fas_score(out_deg, in_deg, ids[k]@)),
    decreases ids.len(),
{
    let last = ids.len() - 1;
    assert(ids.last() == ids[last]);
    if ids.len() == 1 {
        assert(ids.drop_last().len() == 0);
        assert(best_scan(ids.drop_last(), out_deg, in_deg).0.len() == 0);
        0
    } else {
        let front = ids.drop_last();
        assert forall|i: int| 0 <= i < front.len() implies (#[trigger] front[i])@.len() > 0 by {
            assert(front[i] == ids[i]);
        }
        let k0 = lemma_best_scan_first_best(front, out_deg, in_deg);
        assert(front[k0] == ids[k0]);
        assert forall|j: int| 0 <= j < front.len() implies #[trigger] front[j] == ids[j] by {}
        if fas_score(out_deg, in_deg, ids[last]@) > fas_score(out_deg, in_deg, ids[k0]@) {
            assert forall|j: int| 0 <= j < ids.len() implies fas_score(out_deg, in_deg, (#[trigger] ids[j])@) <= fas_score(
                out_deg,
                in_deg,
                ids[last]@,
            ) by {
                if j < last {
                    assert(front[j] == ids[j]);
                }
            }
            assert forall|j: int| 0 <= j < last implies fas_score(out_deg, in_deg, (#[trigger] ids[j])@) < fas_score(
                out_deg,
                in_deg,
                ids[last]@,
            ) by {
                assert(front[j] == ids[j]);
            }
            last
        } else {
            assert forall|j: int| 0 <= j < ids.len() implies fas_score(out_deg, in_deg, (#[trigger] ids[j])@) <= fas_score(
                out_deg,
                in_deg,
                ids[k0]@,
            ) by {
                if j < last {
                    assert(front[j] == ids[j]);
                }
            }
            assert forall|j: int| 0 <= j < k0 implies fas_score(out_deg, in_deg, (#[trigger] ids[j])@) < fas_score(
                out_deg,
                in_deg,
                ids[k0]@,
            ) by {
                assert(front[j] == ids[j]);
            }
            k0
        }
    }
}

/// The id in `active` with the highest `out − in` score; the empty string
/// when `active` is empty.
pub fn fas_best_node(active: &NodeSet, out_deg: &DegMap, in_deg: &DegMap) -> (r: String)
    requires
        out_deg.wf(),
        in_deg.wf(),
        forall|i: int|
            0 <= i < active.inner@.len() ==> i32::MIN <= fas_score(out_deg@, in_deg@, (#[trigger] active.inner@[i])@)
                <= i32::MAX,
    ensures
        r@ == best_scan(active.inner@, out_deg@, in_deg@).0,
        active.inner@.len() == 0 ==> r@.len() == 0,
        active.inner@.len() > 0 && (forall|i: int| 0 <= i < active.inner@.len() ==> (#[trigger] active.inner@[i])@.len() > 0)
            ==> exists|k: int| #[trigger] is_first_best(active.inner@, out_deg@, in_deg@, k) && r@ == active.inner@[k]@,
{
    let mut best_id = String::new();
    let mut best_score: i32 = i32::MIN;
    let mut i: usize = 0;
    while i < active.inner.len()
        invariant
            out_deg.wf(),
            in_deg.wf(),
            forall|j: int|
                0 <= j < active.inner@.len() ==> i32::MIN <= fas_score(out_deg@, in_deg@, (#[trigger] active.inner@[j])@)
                    <= i32::MAX,
            i <= active.inner@.len(),
            (best_id@, best_score as int) == best_scan(active.inner@.take(i as int), out_deg@, in_deg@),
        decreases active.inner@.len() - i,
    {
        let o = match kv_get(&out_deg.inner, active.inner[i].as_str()) {
            Some(x) => x,
            None => 0,
        };
        let n = match kv_get(&in_deg.inner, active.inner[i].as_str()) {
            Some(x) => x,
            None => 0,
        };
        proof {
            let t1 = active.inner@.take(i + 1);
            assert(t1.drop_last() =~= active.inner@.take(i as int));
            assert(t1.last() == active.inner@[i as int]);
            assert(i32::MIN <= fas_score(out_deg@, in_deg@, active.inner@[i as int]@) <= i32::MAX);
        }
        let score = o - n;
        if best_id.as_str().is_empty() || score > best_score {
            best_score = score;
            best_id = active.inner[i].clone();
        }
        i = i + 1;
    }
    proof {
        assert(active.inner@.take(active.inner@.len() as int) =~= active.inner@);
        if active.inner@.len() > 0 && (forall|i: int| 0 <= i < active.inner@.len() ==> (#[trigger] active.inner@[i])@.len() > 0) {
            let k = lemma_best_scan_first_best(active.inner@, out_deg@, in_deg@);
            assert(is_first_best(active.inner@, out_deg@, in_deg@, k));
        }
    }
    best_id
}

// ─── DummyEdgeList ──────────────────────────────────────────────────────────

/// A long edge that was split by dummy nodes.
#[derive(Debug)]
pub struct DummyEdgeInfo {
    pub original_src: String,
    pub original_tgt: String,
    /// The dummy node ids, from the source side to the target side.
    pub dummy_ids: Vec<String>,
    pub edge_etype: String,
    /// Empty when the edge has no label.
    pub edge_label: String,
}

/// The split long edges.
pub type DummyEdgeList = Vec<DummyEdgeInfo>;

/// An empty list.
pub fn dummy_edge_list_new() -> (del: DummyEdgeList)
    ensures
        del@.len() == 0,
{
    Vec::new()
}

/// Records a split edge; `ids` is copied.
pub fn dummy_edge_list_add(
    del: &mut DummyEdgeList,
    orig_src: String,
    orig_tgt: String,
    ids: &StrList,
    etype: String,
    label: String,
)
    ensures
        final(del)@.len() == old(del)@.len() + 1,
        final(del)@.drop_last() == old(del)@,
        final(del)@.last().original_src == orig_src,
        final(del)@.last().original_tgt == orig_tgt,
        final(del)@.last().dummy_ids@ == ids@,
        final(del)@.last().edge_etype == etype,
        final(del)@.last().edge_label == label,
{
    let snapshot = ids.clone();
    proof {
        assert(snapshot@ =~= ids@);
    }
    del.push(
        DummyEdgeInfo {
            original_src: orig_src,
            original_tgt: orig_tgt,
            dummy_ids: snapshot,
            edge_etype: etype,
            edge_label: label,
        },
    );
    proof {
        assert(del@.drop_last() =~= old(del)@);
    }
}

/// The number of split edges.
pub fn dummy_edge_list_len(del: &DummyEdgeList) -> (n: i32)
    requires
        del@.len() <= i32::MAX,
    ensures
        n == del@.len(),
{
    del.len() as i32
}

/// The source of split edge `idx`.
pub fn dummy_edge_list_orig_src(del: &DummyEdgeList, idx: i32) -> (s: String)
    requires
        0 <= idx < del@.len(),
    ensures
        s == del@[idx as int].original_src,
{
    del[idx as usize].original_src.clone()
}

/// The target of split edge `idx`.
pub fn dummy_edge_list_orig_tgt(del: &DummyEdgeList, idx: i32) -> (s: String)
    requires
        0 <= idx < del@.len(),
    ensures
        s == del@[idx as int].original_tgt,
{
    del[idx as usize].original_tgt.clone()
}

/// A copy of the dummy ids of split edge `idx`.
pub fn dummy_edge_list_dummy_ids(del: &DummyEdgeList, idx: i32) -> (r: StrList)
    requires
        0 <= idx < del@.len(),
    ensures
        r@ == del@[idx as int].dummy_ids@,
{
    let r = del[idx as usize].dummy_ids.clone();
    proof {
        assert(r@ =~= del@[idx as int].dummy_ids@);
    }
    r
}

/// The edge type of split edge `idx`.
pub fn dummy_edge_list_etype(del: &DummyEdgeList, idx: i32) -> (s: String)
    requires
        0 <= idx < del@.len(),
    ensures
        s == del@[idx as int].edge_etype,
{
    del[idx as usize].edge_etype.clone()
}

/// The label of split edge `idx` (empty when none).
pub fn dummy_edge_list_label(del: &DummyEdgeList, idx: i32) -> (s: String)
    requires
        0 <= idx < del@.len(),
    ensures
        s == del@[idx as int].edge_label,
{
    del[idx as usize].edge_label.clone()
}

// ─── OrderingList ───────────────────────────────────────────────────────────

/// The node ids of each layer, left to right.
pub type OrderingList = Vec<StrList>;

/// `layer_count` empty layers (none for a negative count).
pub fn ordering_new(layer_count: i32) -> (ol: OrderingList)
    ensures
        ol@.len() == (if layer_count < 0 {
            0
        } else {
            layer_count as int
        }),
        forall|i: int| 0 <= i < ol@.len() ==> (#[trigger] ol@[i])@.len() == 0,
{
    let mut ol: OrderingList = Vec::new();
    let mut i: i32 = 0;
    while i < layer_count
        invariant
            0 <= i,
            layer_count >= 0 ==> i <= layer_count,
            layer_count < 0 ==> i == 0,
            ol@.len() == i,
            forall|j: int| 0 <= j < ol@.len() ==> (#[trigger] ol@[j])@.len() == 0,
        decreases layer_count - i,
    {
        ol.push(Vec::new());
        i = i + 1;
    }
    ol
}

/// Appends `node_id` to layer `layer_idx`.
pub fn ordering_push(ol: &mut OrderingList, layer_idx: i32, node_id: String)
    requires
        0 <= layer_idx < old(ol)@.len(),
    ensures
        final(ol)@.len() == old(ol)@.len(),
        final(ol)@[layer_idx as int]@ == old(ol)@[layer_idx as int]@.push(node_id),
        forall|i: int| 0 <= i < old(ol)@.len() && i != layer_idx ==> (#[trigger] final(ol)@[i]) == old(ol)@[i],
{
    let i = layer_idx as usize;
    let mut layer = ol[i].clone();
    proof {
        assert(layer@ =~= old(ol)@[i as int]@);
    }
    layer.push(node_id);
    ol.set(i, layer);
}

/// The number of layers.
pub fn ordering_layer_count(ol: &OrderingList) -> (n: i32)
    requires
        ol@.len() <= i32::MAX,
    ensures
        n == ol@.len(),
{
    ol.len() as i32
}

/// A copy of layer `idx`.
pub fn ordering_get_layer(ol: &OrderingList, idx: i32) -> (l: StrList)
    requires
        0 <= idx < ol@.len(),
    ensures
        l@ == ol@[idx as int]@,
{
    let l = ol[idx as usize].clone();
    proof {
        assert(l@ =~= ol@[idx as int]@);
    }
    l
}

/// Replaces layer `idx`.
pub fn ordering_set_layer(ol: &mut OrderingList, idx: i32, layer: StrList)
    requires
        0 <= idx < old(ol)@.len(),
    ensures
        final(ol)@ == old(ol)@.update(idx as int, layer),
{
    ol.set(idx as usize, layer);
}

/// The position of the last occurrence of `k` in `s`.
fn last_position(s: &StrList, k: &str) -> (r: Option<usize>)
    ensures
        r matches Some(i) ==> last_pos(s@, k@) == Some(i as nat),
        r is None ==> last_pos(s@, k@) is None,
{
    let mut i: usize = s.len();
    proof {
        assert(s@.take(s@.len() as int) =~= s@);
    }
    while i > 0
        invariant
            i <= s@.len(),
            last_pos(s@, k@) == last_pos(s@.take(i as int), k@),
        decreases i,
    {
        let ghost t = s@.take(i as int);
        proof {
            assert(t.drop_last() =~= s@.take(i - 1));
            assert(t.last() == s@[i - 1]);
        }
        if str_eq(s[i - 1].as_str(), k) {
            return Some(i - 1);
        }
        i = i - 1;
    }
    None
}

proof fn lemma_last_pos_bound(s: Seq<String>, k: Seq<char>)
    ensures
        last_pos(s, k) matches Some(p) ==> p < s.len() && s[p as int]@ == k,
    decreases s.len(),
{
    if s.len() > 0 && s.last()@ != k {
        lemma_last_pos_bound(s.drop_last(), k);
        if let Some(p) = last_pos(s.drop_last(), k) {
            assert(s.drop_last()[p as int] == s[p as int]);
        }
    }
}

/// For the source node at position `sp`, the pairs `(sp, tp)` of its
/// neighbours `nbs` that sit at position `tp` of the target layer.
pub open spec fn node_pairs(sp: int, nbs: Seq<Seq<char>>, tgt: Seq<String>) -> Seq<(int, int)>
    decreases nbs.len(),
{
    if nbs.len() == 0 {
        seq![]
    } else {
        node_pairs(sp, nbs.drop_last(), tgt) + match last_pos(tgt, nbs.last()) {
            Some(tp) => seq![(sp, tp as int)],
            None => seq![],
        }
    }
}

/// The edges from layer `src` to layer `tgt`, as pairs of positions, source
/// by source, each source's edges in edge order.
pub open spec fn layer_pairs(src: Seq<String>, tgt: Seq<String>, nodes: Seq<KNode>, edges: Seq<(nat, nat, KEdge)>) -> Seq<
    (int, int),
>
    decreases src.len(),
{
    if src.len() == 0 {
        seq![]
    } else {
        layer_pairs(src.drop_last(), tgt, nodes, edges) + node_pairs(
            src.len() - 1,
            neighbour_ids(nodes, edges, src.last()@, true),
            tgt,
        )
    }
}

/// Two edges cross: their ends are in opposite orders on the two layers.
pub open spec fn crosses(a: (int, int), b: (int, int)) -> bool {
    (a.0 < b.0 && a.1 > b.1) || (a.0 > b.0 && a.1 < b.1)
}

/// The number of pairs in `p` that `b` crosses.
pub open spec fn cross_count_with(p: Seq<(int, int)>, b: (int, int)) -> nat
    decreases p.len(),
{
    if p.len() == 0 {
        0
    } else {
        cross_count_with(p.drop_last(), b) + (if crosses(p.last(), b) {
            1nat
        } else {
            0nat
        })
    }
}

/// The number of crossing pairs among the edges `p`.
pub open spec fn crossings(p: Seq<(int, int)>) -> nat
    decreases p.len(),
{
    if p.len() == 0 {
        0
    } else {
        crossings(p.drop_last()) + cross_count_with(p.drop_last(), p.last())
    }
}

/// The crossings between layers `l` and `l + 1`, summed over the first `k`
/// pairs of adjacent layers.
pub open spec fn crossings_upto(layers: Seq<Seq<String>>, nodes: Seq<KNode>, edges: Seq<(nat, nat, KEdge)>, k: nat) -> nat
    decreases k,
{
    if k == 0 {
        0
    } else {
        crossings_upto(layers, nodes, edges, (k - 1) as nat) + crossings(
            layer_pairs(layers[k - 1], layers[k as int], nodes, edges),
        )
    }
}

/// All edge crossings between adjacent layers.
pub open spec fn total_crossings(layers: Seq<Seq<String>>, nodes: Seq<KNode>, edges: Seq<(nat, nat, KEdge)>) -> nat {
    if layers.len() == 0 {
        0
    } else {
        crossings_upto(layers, nodes, edges, (layers.len() - 1) as nat)
    }
}

proof fn lemma_cross_count_take(p: Seq<(int, int)>, b: (int, int), i: int)
    requires
        0 <= i < p.len(),
    ensures
        cross_count_with(p.take(i + 1), b) == cross_count_with(p.take(i), b) + (if crosses(p[i], b) {
            1nat
        } else {
            0nat
        }),
{
    assert(p.take(i + 1).drop_last() =~= p.take(i));
}

proof fn lemma_cross_count_le(p: Seq<(int, int)>, b: (int, int), i: int)
    requires
        0 <= i <= p.len(),
    ensures
        cross_count_with(p.take(i), b) <= cross_count_with(p, b),
    decreases p.len() - i,
{
    if i < p.len() {
        lemma_cross_count_take(p, b, i);
        lemma_cross_count_le(p, b, i + 1);
    } else {
        assert(p.take(i) =~= p);
    }
}

proof fn lemma_crossings_le(p: Seq<(int, int)>, j: int)
    requires
        0 <= j <= p.len(),
    ensures
        crossings(p.take(j)) <= crossings(p),
    decreases p.len() - j,
{
    if j < p.len() {
        assert(p.take(j + 1).drop_last() =~= p.take(j));
        lemma_crossings_le(p, j + 1);
    } else {
        assert(p.take(j) =~= p);
    }
}

proof fn lemma_crossings_upto_le(layers: Seq<Seq<String>>, nodes: Seq<KNode>, edges: Seq<(nat, nat, KEdge)>, k: nat, m: nat)
    requires
        k <= m,
    ensures
        crossings_upto(layers, nodes, edges, k) <= crossings_upto(layers, nodes, edges, m),
    decreases m - k,
{
    if k < m {
        lemma_crossings_upto_le(layers, nodes, edges, k, (m - 1) as nat);
    }
}

/// The edges from layer `src` to layer `tgt` as position pairs.
fn collect_layer_pairs(src: &StrList, tgt: &StrList, g: &KeyedGraph) -> (r: Vec<(i32, i32)>)
    requires
        g.wf(),
        src@.len() <= i32::MAX,
        tgt@.len() <= i32::MAX,
    ensures
        r@.map_values(|p: (i32, i32)| (p.0 as int, p.1 as int)) == layer_pairs(src@, tgt@, g.nodes(), g.edges()),
{
    let mut r: Vec<(i32, i32)> = Vec::new();
    let mut sp: usize = 0;
    while sp < src.len()
        invariant
            g.wf(),
            src@.len() <= i32::MAX,
            tgt@.len() <= i32::MAX,
            sp <= src@.len(),
            r@.map_values(|p: (i32, i32)| (p.0 as int, p.1 as int)) == layer_pairs(
                src@.take(sp as int),
                tgt@,
                g.nodes(),
                g.edges(),
            ),
        decreases src@.len() - sp,
    {
        let nbs = graph_successors(g, src[sp].as_str());
        let ghost base = r@.map_values(|p: (i32, i32)| (p.0 as int, p.1 as int));
        let ghost nv = texts(nbs@);
        let mut t: usize = 0;
        while t < nbs.len()
            invariant
                tgt@.len() <= i32::MAX,
                sp < src@.len() <= i32::MAX,
                t <= nbs@.len(),
                nv == texts(nbs@),
                r@.map_values(|p: (i32, i32)| (p.0 as int, p.1 as int)) == base + node_pairs(
                    sp as int,
                    nv.take(t as int),
                    tgt@,
                ),
            decreases nbs@.len() - t,
        {
            let ghost r0 = r@;
            proof {
                assert(nv.take(t + 1).drop_last() =~= nv.take(t as int));
                assert(nv.take(t + 1).last() == nbs@[t as int]@);
            }
            match last_position(tgt, nbs[t].as_str()) {
                Some(tp) => {
                    proof {
                        lemma_last_pos_bound(tgt@, nbs@[t as int]@);
                    }
                    r.push((sp as i32, tp as i32));
                    proof {
                        assert(r@.map_values(|p: (i32, i32)| (p.0 as int, p.1 as int)) =~= r0.map_values(
                            |p: (i32, i32)| (p.0 as int, p.1 as int),
                        ).push((sp as int, tp as int)));
                    }
                },
                None => {},
            }
            t = t + 1;
        }
        proof {
            assert(nv.take(nbs@.len() as int) =~= nv);
            let t1 = src@.take(sp + 1);
            assert(t1.drop_last() =~= src@.take(sp as int));
            assert(t1.last() == src@[sp as int]);
        }
        sp = sp + 1;
    }
    proof {
        assert(src@.take(src@.len() as int) =~= src@);
    }
    r
}

/// Counts edge crossings between adjacent layers: for each pair of layers,
/// the pairs of edges whose ends come in opposite orders.
pub fn ordering_count_crossings(ol: &OrderingList, g: &KeyedGraph) -> (total: i32)
    requires
        g.wf(),
        forall|i: int| 0 <= i < ol@.len() ==> (#[trigger] ol@[i])@.len() <= i32::MAX,
        total_crossings(ol@.map_values(|l: StrList| l@), g.nodes(), g.edges()) <= i32::MAX,
    ensures
        total == total_crossings(ol@.map_values(|l: StrList| l@), g.nodes(), g.edges()),
{
    let ghost layers = ol@.map_values(|l: StrList| l@);
    let layer_count = ol.len();
    let mut total: i32 = 0;
    if layer_count == 0 {
        return 0;
    }
    let mut l: usize = 0;
    while l + 1 < layer_count
        invariant
            g.wf(),
            layer_count == ol@.len(),
            layer_count > 0,
            layers == ol@.map_values(|l: StrList| l@),
            forall|i: int| 0 <= i < ol@.len() ==> (#[trigger] ol@[i])@.len() <= i32::MAX,
            total_crossings(layers, g.nodes(), g.edges()) <= i32::MAX,
            l + 1 <= layer_count,
            total == crossings_upto(layers, g.nodes(), g.edges(), l as nat),
        decreases layer_count - l,
    {
        proof {
            assert(layers[l as int] == ol@[l as int]@);
            assert(layers[l + 1] == ol@[l + 1]@);
            lemma_crossings_upto_le(layers, g.nodes(), g.edges(), (l + 1) as nat, (layer_count - 1) as nat);
        }
        let pairs = collect_layer_pairs(&ol[l], &ol[l + 1], g);
        let ghost pv = pairs@.map_values(|p: (i32, i32)| (p.0 as int, p.1 as int));
        let ghost base = total as int;
        let mut j: usize = 0;
        while j < pairs.len()
            invariant
                pv == pairs@.map_values(|p: (i32, i32)| (p.0 as int, p.1 as int)),
                base + crossings(pv) <= i32::MAX,
                0 <= base,
                j <= pairs@.len(),
                total == base + crossings(pv.take(j as int)),
            decreases pairs@.len() - j,
        {
            let mut i: usize = 0;
            proof {
                assert(pv.take(j + 1).drop_last() =~= pv.take(j as int));
                assert(pv.take(j + 1).last() == pv[j as int]);
                assert(pv.take(j as int).take(j as int) =~= pv.take(j as int));
                lemma_crossings_le(pv, j + 1);
            }
            while i < j
                invariant
                    pv == pairs@.map_values(|p: (i32, i32)| (p.0 as int, p.1 as int)),
                    base + crossings(pv) <= i32::MAX,
                    0 <= base,
                    i <= j < pairs@.len(),
                    base + crossings(pv.take(j as int)) + cross_count_with(pv.take(j as int), pv[j as int])
                        <= i32::MAX,
                    total == base + crossings(pv.take(j as int)) + cross_count_with(
                        pv.take(j as int).take(i as int),
                        pv[j as int],
                    ),
                decreases j - i,
            {
                let (a0, a1) = pairs[i];
                let (b0, b1) = pairs[j];
                proof {
                    let pj = pv.take(j as int);
                    lemma_cross_count_take(pj, pv[j as int], i as int);
                    lemma_cross_count_le(pj, pv[j as int], i + 1);
                    assert(pj[i as int] == pv[i as int]);
                }
                if (a0 < b0 && a1 > b1) || (a0 > b0 && a1 < b1) {
                    total = total + 1;
                }
                i = i + 1;
            }
            proof {
                assert(pv.take(j as int).take(j as int) =~= pv.take(j as int));
            }
            j = j + 1;
        }
        proof {
            assert(pv.take(pairs@.len() as int) =~= pv);
        }
        l = l + 1;
    }
    proof {
        assert(total_crossings(layers, g.nodes(), g.edges()) == crossings_upto(
            layers,
            g.nodes(),
            g.edges(),
            (layer_count - 1) as nat,
        ));
    }
    total
}

// ─── NodeLayoutList ─────────────────────────────────────────────────────────

/// A node placed by the layout.
#[derive(Debug)]
pub struct NodeLayoutInfo {
    pub id: String,
    pub layer: i32,
    pub order: i32,
    pub x: i32,
    pub y: i32,
    pub width: i32,
    pub height: i32,
    pub label: String,
    pub shape: String,
}

/// The placed nodes.
pub type NodeLayoutList = Vec<NodeLayoutInfo>;

/// An empty list.
pub fn nll_new() -> (nl: NodeLayoutList)
    ensures
        nl@.len() == 0,
{
    Vec::new()
}

/// Appends a placed node.
pub fn nll_push(
    nl: &mut NodeLayoutList,
    id: String,
    layer: i32,
    order: i32,
    x: i32,
    y: i32,
    width: i32,
    height: i32,
    label: String,
    shape: String,
)
    ensures
        final(nl)@ == old(nl)@.push(NodeLayoutInfo { id, layer, order, x, y, width, height, label, shape }),
{
    nl.push(NodeLayoutInfo { id, layer, order, x, y, width, height, label, shape });
}

/// The number of placed nodes.
pub fn nll_len(nl: &NodeLayoutList) -> (n: i32)
    requires
        nl@.len() <= i32::MAX,
    ensures
        n == nl@.len(),
{
    nl.len() as i32
}

/// The id of node `idx`.
pub fn nll_get_id(nl: &NodeLayoutList, idx: i32) -> (s: String)
    requires
        0 <= idx < nl@.len(),
    ensures
        s == nl@[idx as int].id,
{
    nl[idx as usize].id.clone()
}

/// The x of node `idx`.
pub fn nll_get_x(nl: &NodeLayoutList, idx: i32) -> (v: i32)
    requires
        0 <= idx < nl@.len(),
    ensures
        v == nl@[idx as int].x,
{
    nl[idx as usize].x
}

/// The y of node `idx`.
pub fn nll_get_y(nl: &NodeLayoutList, idx: i32) -> (v: i32)
    requires
        0 <= idx < nl@.len(),
    ensures
        v == nl@[idx as int].y,
{
    nl[idx as usize].y
}

/// The width of node `idx`.
pub fn nll_get_width(nl: &NodeLayoutList, idx: i32) -> (v: i32)
    requires
        0 <= idx < nl@.len(),
    ensures
        v == nl@[idx as int].width,
{
    nl[idx as usize].width
}

/// The height of node `idx`.
pub fn nll_get_height(nl: &NodeLayoutList, idx: i32) -> (v: i32)
    requires
        0 <= idx < nl@.len(),
    ensures
        v == nl@[idx as int].height,
{
    nl[idx as usize].height
}

/// The label of node `idx`.
pub fn nll_get_label(nl: &NodeLayoutList, idx: i32) -> (s: String)
    requires
        0 <= idx < nl@.len(),
    ensures
        s == nl@[idx as int].label,
{
    nl[idx as usize].label.clone()
}

/// The shape name of node `idx`.
pub fn nll_get_shape(nl: &NodeLayoutList, idx: i32) -> (s: String)
    requires
        0 <= idx < nl@.len(),
    ensures
        s == nl@[idx as int].shape,
{
    nl[idx as usize].shape.clone()
}

/// The layer of node `idx`.
pub fn nll_get_layer(nl: &NodeLayoutList, idx: i32) -> (v: i32)
    requires
        0 <= idx < nl@.len(),
    ensures
        v == nl@[idx as int].layer,
{
    nl[idx as usize].layer
}

/// Sets the x of node `idx`.
pub fn nll_set_x(nl: &mut NodeLayoutList, idx: i32, val: i32)
    requires
        0 <= idx < old(nl)@.len(),
    ensures
        final(nl)@.len() == old(nl)@.len(),
        final(nl)@[idx as int] == (NodeLayoutInfo { x: val, ..old(nl)@[idx as int] }),
        forall|i: int| 0 <= i < old(nl)@.len() && i != idx ==> (#[trigger] final(nl)@[i]) == old(nl)@[i],
{
    let i = idx as usize;
    let old_info = &nl[i];
    let info = NodeLayoutInfo {
        id: old_info.id.clone(),
        layer: old_info.layer,
        order: old_info.order,
        x: val,
        y: old_info.y,
        width: old_info.width,
        height: old_info.height,
        label: old_info.label.clone(),
        shape: old_info.shape.clone(),
    };
    nl.set(i, info);
}

/// The index of the first node with id `id`, -1 when there is none.
pub fn nll_id_to_index(nl: &NodeLayoutList, id: String) -> (r: i32)
    requires
        nl@.len() <= i32::MAX,
    ensures
        -1 <= r < nl@.len(),
        r >= 0 ==> nl@[r as int].id@ == id@ && forall|j: int| 0 <= j < r ==> (#[trigger] nl@[j]).id@ != id@,
        r == -1 ==> forall|j: int| 0 <= j < nl@.len() ==> (#[trigger] nl@[j]).id@ != id@,
{
    let mut i: usize = 0;
    while i < nl.len()
        invariant
            nl@.len() <= i32::MAX,
            i <= nl@.len(),
            forall|j: int| 0 <= j < i ==> (#[trigger] nl@[j]).id@ != id@,
        decreases nl@.len() - i,
    {
        if str_eq(nl[i].id.as_str(), id.as_str()) {
            return i as i32;
        }
        i = i + 1;
    }
    -1
}

// ─── EdgeRouteList ──────────────────────────────────────────────────────────

/// A routed edge with its waypoints.
#[derive(Debug)]
pub struct EdgeRouteInfo {
    pub from_id: String,
    pub to_id: String,
    /// Empty when the edge has no label.
    pub label: String,
    pub edge_type: String,
    pub waypoints: Vec<(i32, i32)>,
}

/// The routed edges.
pub type EdgeRouteList = Vec<EdgeRouteInfo>;

/// An empty list.
pub fn erl_new() -> (el: EdgeRouteList)
    ensures
        el@.len() == 0,
{
    Vec::new()
}

/// Appends a routed edge.
pub fn erl_push(
    el: &mut EdgeRouteList,
    from_id: String,
    to_id: String,
    label: String,
    edge_type: String,
    waypoints: PointList,
)
    ensures
        final(el)@ == old(el)@.push(EdgeRouteInfo { from_id, to_id, label, edge_type, waypoints }),
{
    el.push(EdgeRouteInfo { from_id, to_id, label, edge_type, waypoints });
}

/// The number of routed edges.
pub fn erl_len(el: &EdgeRouteList) -> (n: i32)
    requires
        el@.len() <= i32::MAX,
    ensures
        n == el@.len(),
{
    el.len() as i32
}

/// The source id of edge `idx`.
pub fn erl_get_from(el: &EdgeRouteList, idx: i32) -> (s: String)
    requires
        0 <= idx < el@.len(),
    ensures
        s == el@[idx as int].from_id,
{
    el[idx as usize].from_id.clone()
}

/// The target id of edge `idx`.
pub fn erl_get_to(el: &EdgeRouteList, idx: i32) -> (s: String)
    requires
        0 <= idx < el@.len(),
    ensures
        s == el@[idx as int].to_id,
{
    el[idx as usize].to_id.clone()
}

/// The label of edge `idx` (empty when none).
pub fn erl_get_label(el: &EdgeRouteList, idx: i32) -> (s: String)
    requires
        0 <= idx < el@.len(),
    ensures
        s == el@[idx as int].label,
{
    el[idx as usize].label.clone()
}

/// The edge type of edge `idx`.
pub fn erl_get_etype(el: &EdgeRouteList, idx: i32) -> (s: String)
    requires
        0 <= idx < el@.len(),
    ensures
        s == el@[idx as int].edge_type,
{
    el[idx as usize].edge_type.clone()
}

/// The number of waypoints of edge `idx`.
pub fn erl_get_waypoint_count(el: &EdgeRouteList, idx: i32) -> (n: i32)
    requires
        0 <= idx < el@.len(),
        el@[idx as int].waypoints@.len() <= i32::MAX,
    ensures
        n == el@[idx as int].waypoints@.len(),
{
    el[idx as usize].waypoints.len() as i32
}

/// The x of waypoint `wp_idx` of edge `edge_idx`.
pub fn erl_get_waypoint_x(el: &EdgeRouteList, edge_idx: i32, wp_idx: i32) -> (v: i32)
    requires
        0 <= edge_idx < el@.len(),
        0 <= wp_idx < el@[edge_idx as int].waypoints@.len(),
    ensures
        v == el@[edge_idx as int].waypoints@[wp_idx as int].0,
{
    el[edge_idx as usize].waypoints[wp_idx as usize].0
}

/// The y of waypoint `wp_idx` of edge `edge_idx`.
pub fn erl_get_waypoint_y(el: &EdgeRouteList, edge_idx: i32, wp_idx: i32) -> (v: i32)
    requires
        0 <= edge_idx < el@.len(),
        0 <= wp_idx < el@[edge_idx as int].waypoints@.len(),
    ensures
        v == el@[edge_idx as int].waypoints@[wp_idx as int].1,
{
    el[edge_idx as usize].waypoints[wp_idx as usize].1
}

// ─── IntList ────────────────────────────────────────────────────────────────

/// A list of integers.
pub type IntList = Vec<i32>;

/// An empty list.
pub fn int_list_new() -> (il: IntList)
    ensures
        il@.len() == 0,
{
    Vec::new()
}

/// Appends `val`.
pub fn int_list_push(il: &mut IntList, val: i32)
    ensures
        final(il)@ == old(il)@.push(val),
{
    il.push(val);
}

/// The number of integers.
pub fn int_list_len(il: &IntList) -> (n: i32)
    requires
        il@.len() <= i32::MAX,
    ensures
        n == il@.len(),
{
    il.len() as i32
}

/// Integer `idx`.
pub fn int_list_get(il: &IntList, idx: i32) -> (v: i32)
    requires
        0 <= idx < il@.len(),
    ensures
        v == il@[idx as int],
{
    il[idx as usize]
}

/// Sets integer `idx` to `val`.
pub fn int_list_set(il: &mut IntList, idx: i32, val: i32)
    requires
        0 <= idx < old(il)@.len(),
    ensures
        final(il)@ == old(il)@.update(idx as int, val),
{
    il.set(idx as usize, val);
}

/// Whether `s` starts with `prefix`.
pub fn str_starts_with(s: String, prefix: String) -> (r: bool)
    ensures
        r == is_prefix(prefix@, s@),
{
    str_starts_with_str(s.as_str(), prefix.as_str())
}

} // verus!
