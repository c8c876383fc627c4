use mermaid_ascii::ast::{EdgeType, NodeShape};
use mermaid_ascii::graph::{EdgeData, GraphIR, NodeData};
use mermaid_ascii::layout::{insert_dummy_nodes, layered_with_dummies, remove_cycles, LayerAssignment, LayerMap};
use mermaid_ascii::parser::parse;
use petgraph::graph::DiGraph;
use petgraph::visit::EdgeRef;

fn make_node(id: &str) -> NodeData {
    NodeData { id: id.to_string(), label: id.to_string(), shape: NodeShape::Rectangle, attrs: vec![], subgraph: None }
}

fn make_edge() -> EdgeData {
    EdgeData { edge_type: EdgeType::Arrow, label: None, attrs: vec![] }
}

#[test]
fn test_dag_has_no_reversed_edges() {
    let mut g: DiGraph<NodeData, EdgeData> = DiGraph::new();
    let a = g.add_node(make_node("A"));
    let b = g.add_node(make_node("B"));
    let c = g.add_node(make_node("C"));
    g.add_edge(a, b, make_edge());
    g.add_edge(b, c, make_edge());

    let (_, reversed) = remove_cycles(&g);
    assert!(reversed.is_empty(), "DAG should have no reversed edges, got: {:?}", reversed);
}

#[test]
fn test_single_cycle_reversed() {
    let mut g: DiGraph<NodeData, EdgeData> = DiGraph::new();
    let a = g.add_node(make_node("A"));
    let b = g.add_node(make_node("B"));
    g.add_edge(a, b, make_edge());
    g.add_edge(b, a, make_edge());

    let (result, reversed) = remove_cycles(&g);
    assert_eq!(reversed.len(), 1, "Should reverse exactly one edge");
    assert!(!petgraph::algo::is_cyclic_directed(&result), "Result should be a DAG");
}

#[test]
fn test_self_loop_reversed() {
    let mut g: DiGraph<NodeData, EdgeData> = DiGraph::new();
    let a = g.add_node(make_node("A"));
    g.add_edge(a, a, make_edge());

    let (result, reversed) = remove_cycles(&g);
    assert_eq!(reversed.len(), 1, "Self-loop should be counted as reversed");
    assert!(!petgraph::algo::is_cyclic_directed(&result), "Result should be a DAG");
}

#[test]
fn test_complex_cycle() {
    let mut g: DiGraph<NodeData, EdgeData> = DiGraph::new();
    let a = g.add_node(make_node("A"));
    let b = g.add_node(make_node("B"));
    let c = g.add_node(make_node("C"));
    let d = g.add_node(make_node("D"));
    g.add_edge(a, b, make_edge());
    g.add_edge(b, c, make_edge());
    g.add_edge(c, a, make_edge());
    g.add_edge(d, b, make_edge());

    let (result, _) = remove_cycles(&g);
    assert!(!petgraph::algo::is_cyclic_directed(&result), "Result should be a DAG");
}

#[test]
fn layout_test_empty_graph() {
    let g: DiGraph<NodeData, EdgeData> = DiGraph::new();
    let (result, reversed) = remove_cycles(&g);
    assert_eq!(result.node_count(), 0);
    assert!(reversed.is_empty());
}

fn make_layer_assignment(pairs: &[(&str, usize)]) -> LayerAssignment {
    let mut layers = LayerMap::new();
    let mut max = 0;
    for (id, l) in pairs {
        layers.insert(id.to_string(), *l);
        if *l > max {
            max = *l;
        }
    }
    LayerAssignment { layers, layer_count: max + 1, reversed_edges: vec![] }
}

#[test]
fn test_adjacent_edge_no_dummy() {
    let mut g: DiGraph<NodeData, EdgeData> = DiGraph::new();
    let a = g.add_node(make_node("A"));
    let b = g.add_node(make_node("B"));
    g.add_edge(a, b, make_edge());

    let la = make_layer_assignment(&[("A", 0), ("B", 1)]);
    let aug = insert_dummy_nodes(&g, &la);

    assert_eq!(aug.graph.node_count(), 2, "No dummy nodes should be added");
    assert_eq!(aug.graph.edge_count(), 1);
    assert!(aug.dummy_edges.is_empty());
}

#[test]
fn test_long_edge_one_dummy() {
    let mut g: DiGraph<NodeData, EdgeData> = DiGraph::new();
    let a = g.add_node(make_node("A"));
    let c = g.add_node(make_node("C"));
    g.add_edge(a, c, make_edge());

    let la = make_layer_assignment(&[("A", 0), ("C", 2)]);
    let aug = insert_dummy_nodes(&g, &la);

    assert_eq!(aug.graph.node_count(), 3, "Should have 1 dummy node");
    assert_eq!(aug.graph.edge_count(), 2);
    assert_eq!(aug.dummy_edges.len(), 1);

    let de = &aug.dummy_edges[0];
    assert_eq!(de.original_src, "A");
    assert_eq!(de.original_tgt, "C");
    assert_eq!(de.dummy_ids.len(), 1);

    let dummy_id = &de.dummy_ids[0];
    assert_eq!(aug.layers.get(dummy_id).unwrap(), 1);

    for edge in aug.graph.edge_references() {
        let src_id = &aug.graph[edge.source()].id;
        let tgt_id = &aug.graph[edge.target()].id;
        let src_layer = aug.layers.get(src_id).unwrap();
        let tgt_layer = aug.layers.get(tgt_id).unwrap();
        assert!(
            tgt_layer >= src_layer && tgt_layer - src_layer <= 1,
            "Edge {}→{} spans {} layers (expected ≤1)",
            src_id,
            tgt_id,
            tgt_layer.saturating_sub(src_layer)
        );
    }
}

#[test]
fn test_long_edge_two_dummies() {
    let mut g: DiGraph<NodeData, EdgeData> = DiGraph::new();
    let a = g.add_node(make_node("A"));
    let d = g.add_node(make_node("D"));
    g.add_edge(a, d, make_edge());

    let la = make_layer_assignment(&[("A", 0), ("D", 3)]);
    let aug = insert_dummy_nodes(&g, &la);

    assert_eq!(aug.graph.node_count(), 4);
    assert_eq!(aug.graph.edge_count(), 3);
    assert_eq!(aug.dummy_edges.len(), 1);

    let de = &aug.dummy_edges[0];
    assert_eq!(de.dummy_ids.len(), 2);
    assert_eq!(aug.layers.get(&de.dummy_ids[0]).unwrap(), 1);
    assert_eq!(aug.layers.get(&de.dummy_ids[1]).unwrap(), 2);
}

#[test]
fn test_multiple_long_edges_independent() {
    let mut g: DiGraph<NodeData, EdgeData> = DiGraph::new();
    let a = g.add_node(make_node("A"));
    let b = g.add_node(make_node("B"));
    let c = g.add_node(make_node("C"));
    let d = g.add_node(make_node("D"));
    g.add_edge(a, c, make_edge());
    g.add_edge(b, d, make_edge());

    let la = make_layer_assignment(&[("A", 0), ("B", 0), ("C", 2), ("D", 2)]);
    let aug = insert_dummy_nodes(&g, &la);

    assert_eq!(aug.graph.node_count(), 6);
    assert_eq!(aug.graph.edge_count(), 4);
    assert_eq!(aug.dummy_edges.len(), 2);
}

#[test]
fn test_mixed_short_and_long_edges() {
    let mut g: DiGraph<NodeData, EdgeData> = DiGraph::new();
    let a = g.add_node(make_node("A"));
    let b = g.add_node(make_node("B"));
    let c = g.add_node(make_node("C"));
    g.add_edge(a, b, make_edge());
    g.add_edge(a, c, make_edge());

    let la = make_layer_assignment(&[("A", 0), ("B", 1), ("C", 2)]);
    let aug = insert_dummy_nodes(&g, &la);

    assert_eq!(aug.graph.node_count(), 4);
    assert_eq!(aug.graph.edge_count(), 3);
    assert_eq!(aug.dummy_edges.len(), 1);

    for edge in aug.graph.edge_references() {
        let src_id = &aug.graph[edge.source()].id;
        let tgt_id = &aug.graph[edge.target()].id;
        let diff = aug.layers.get(tgt_id).unwrap().saturating_sub(aug.layers.get(src_id).unwrap());
        assert!(diff <= 1, "Edge {}→{} not adjacent-layer", src_id, tgt_id);
    }
}

#[test]
fn layered_with_dummies_breaks_the_long_edge() {
    let gir = GraphIR::from_ast(&parse("[A] --> [B]\n[B] --> [C]\n[A] --> [C]\n").unwrap());
    let (dag, la, aug) = layered_with_dummies(&gir);
    assert_eq!(dag.node_count(), 3);
    assert_eq!(dag.edge_count(), 3);
    assert_eq!(la.layer_count, 3);
    assert_eq!(la.layers.get("C"), Some(2));
    let aug = aug.unwrap();
    assert_eq!(aug.graph.node_count(), 4);
    assert_eq!(aug.graph.edge_count(), 4);
    assert_eq!(aug.dummy_edges.len(), 1);
    assert_eq!(aug.dummy_edges[0].original_src, "A");
    assert_eq!(aug.dummy_edges[0].original_tgt, "C");
    assert_eq!(aug.layers.get("__dummy_0_0"), Some(1));
}
