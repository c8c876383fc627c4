use mermaid_ascii::layout_graph::LayoutGraph;

#[test]
fn add_and_lookup_nodes() {
    let mut g = LayoutGraph::new();
    let a = g.add_node("A");
    let b = g.add_node("B");
    assert_ne!(a, b);
    assert_eq!(g.add_node("A"), a);
    assert_eq!(g.node_count(), 2);
    assert!(g.contains_node("A"));
    assert!(!g.contains_node("C"));
    assert_eq!(g.node_id(a), "A");
}

#[test]
fn add_and_lookup_edges() {
    let mut g = LayoutGraph::new();
    g.add_edge("A", "B", String::new());
    g.add_edge("A", "C", "label".into());
    assert_eq!(g.node_count(), 3);
    assert_eq!(g.edge_count(), 2);
    assert!(g.has_edge("A", "B"));
    assert!(g.has_edge("A", "C"));
    assert!(!g.has_edge("B", "A"));
}

#[test]
fn successors_and_predecessors() {
    let mut g = LayoutGraph::new();
    g.add_edge("A", "B", String::new());
    g.add_edge("A", "C", String::new());
    g.add_edge("B", "C", String::new());

    let mut succ: Vec<&str> = g.successors("A");
    succ.sort();
    assert_eq!(succ, vec!["B", "C"]);

    let pred: Vec<&str> = g.predecessors("C");
    let mut pred_sorted = pred.clone();
    pred_sorted.sort();
    assert_eq!(pred_sorted, vec!["A", "B"]);

    assert!(g.successors("C").is_empty());
    assert!(g.predecessors("A").is_empty());
}

#[test]
fn node_ids_lists_all() {
    let mut g = LayoutGraph::new();
    g.add_node("X");
    g.add_node("Y");
    g.add_node("Z");
    let mut ids = g.node_ids();
    ids.sort();
    assert_eq!(ids, vec!["X", "Y", "Z"]);
}

#[test]
fn unknown_node_returns_empty() {
    let g = LayoutGraph::new();
    assert!(g.successors("nope").is_empty());
    assert!(g.predecessors("nope").is_empty());
    assert!(!g.has_edge("a", "b"));
    assert_eq!(g.node_index("x"), None);
}

#[test]
fn layout_graph_inner_counts_match() {
    let mut g = LayoutGraph::new();
    g.add_edge("P", "Q", "x".to_string());
    g.add_edge("P", "Q", "y".to_string());
    assert_eq!(g.inner().node_count(), 2);
    assert_eq!(g.inner().edge_count(), 2);
    assert_eq!(g.node_index("Q"), Some(1));
}

#[test]
fn layout_graph_default_is_empty() {
    let g = LayoutGraph::default();
    assert_eq!(g.node_count(), 0);
    assert_eq!(g.edge_count(), 0);
}
