use mermaid_ascii::graph::GraphIR;
use mermaid_ascii::layout::LayerAssignment;
use mermaid_ascii::parser::parse;

#[test]
fn graph_ir_from_parsed_text() {
    let d = parse("[A] --> [B]\n[B] --> [C]\nsubgraph G\n  [D]\nend\n[D] --> [A]\n").unwrap();
    let gir = GraphIR::from_ast(&d);
    assert_eq!(gir.node_count(), 4);
    assert_eq!(gir.edge_count(), 3);
    assert!(gir.is_dag());
    assert_eq!(gir.subgraph_members.len(), 1);
    assert_eq!(gir.subgraph_members[0].0, "G");
    assert_eq!(gir.subgraph_members[0].1, vec!["D".to_string()]);
    let order = gir.topological_order().unwrap();
    let pos = |id: &str| order.iter().position(|x| x == id).unwrap();
    assert!(pos("D") < pos("A") && pos("A") < pos("B") && pos("B") < pos("C"));
    assert_eq!(gir.in_degree("A"), 1);
    assert_eq!(gir.out_degree("B"), 1);
}

#[test]
fn graph_ir_cycle_is_not_dag() {
    let d = parse("[A] --> [B]\n[B] --> [A]\n").unwrap();
    let gir = GraphIR::from_ast(&d);
    assert!(!gir.is_dag());
    assert!(gir.topological_order().is_none());
}

#[test]
fn layer_report_for_chain() {
    let d = parse("[A] --> [B]\n[B] --> [C]\n").unwrap();
    let gir = GraphIR::from_ast(&d);
    let la = LayerAssignment::assign(&gir);
    assert_eq!(la.layer_count, 3);
    assert_eq!(
        la.format_report(&gir),
        "Reversed edges (cycle removal): 0\nLayer count: 3\n\n  Layer 0: A\n  Layer 1: B\n  Layer 2: C\n"
    );
}

#[test]
fn layer_report_lists_reversed_edges() {
    let d = parse("[A] --> [B]\n[B] --> [A]\n").unwrap();
    let gir = GraphIR::from_ast(&d);
    let la = LayerAssignment::assign(&gir);
    assert_eq!(la.layer_count, 2);
    let report = la.format_report(&gir);
    assert!(report.starts_with("Reversed edges (cycle removal): 1\nLayer count: 2\n\n"));
    assert!(report.contains("\nReversed back-edges:\n"));
    assert!(report.contains("(displayed reversed)\n"));
}

#[test]
fn graph_ir_ids_in_order_maps_indices() {
    let d = parse("[A] --> [B]\n[C]\n").unwrap();
    let gir = GraphIR::from_ast(&d);
    assert_eq!(gir.ids_in_order(&vec![2, 0, 1]), vec!["C".to_string(), "A".to_string(), "B".to_string()]);
    assert!(gir.ids_in_order(&vec![]).is_empty());
}

#[test]
fn layout_from_graph_ir_sizes_nodes_by_label_bytes() {
    let d = parse("[A] --> [é]\n[é] --> [A]\n").unwrap();
    let gir = GraphIR::from_ast(&d);
    let lay = mermaid_ascii::layout::Layout::from_graph_ir(&gir);
    assert_eq!(lay.nodes.len(), 2);
    assert_eq!(lay.nodes[0].id, "A");
    assert_eq!(lay.nodes[0].width, 5);
    assert_eq!(lay.nodes[1].width, 6);
    assert_eq!(lay.nodes[1].height, 3);
    assert_eq!(lay.reversed_edges.len(), 1);
}
