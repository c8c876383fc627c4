use mermaid_ascii::ast::{Direction, EdgeType, NodeShape};
use mermaid_ascii::graph::GraphIR;
use mermaid_ascii::parser::parse;

#[test]
fn test_empty_graph_produces_no_output() {
    let src = "# Empty graph — only a comment\n";
    let ast_graph = parse(src).expect("parse failed");
    let gir = GraphIR::from_ast(&ast_graph);
    assert_eq!(gir.node_count(), 0);
    assert_eq!(gir.edge_count(), 0);
}

#[test]
fn parse_self_loop_gives_one_node_one_edge() {
    let ast_graph = parse("[Loop] --> [Loop]\n").expect("parse failed");
    let gir = GraphIR::from_ast(&ast_graph);
    assert_eq!(gir.node_count(), 1);
    assert_eq!(gir.edge_count(), 1);
}

#[test]
fn parse_disconnected_nodes() {
    let ast_graph = parse("[A]\n[B]\n").expect("parse failed");
    let gir = GraphIR::from_ast(&ast_graph);
    assert_eq!(gir.node_count(), 2);
    assert_eq!(gir.edge_count(), 0);
}

#[test]
fn parse_two_node_cycle() {
    let ast_graph = parse("[A] --> [B]\n[B] --> [A]\n").expect("parse failed");
    let gir = GraphIR::from_ast(&ast_graph);
    assert_eq!(gir.node_count(), 2);
    assert_eq!(gir.edge_count(), 2);
}

#[test]
fn parse_shapes() {
    let g = parse("[Rect] --> (Round) --> {Dia} --> ((Circ))\n").unwrap();
    assert_eq!(g.nodes.len(), 4);
    assert_eq!(g.nodes[0].shape, NodeShape::Rectangle);
    assert_eq!(g.nodes[1].shape, NodeShape::Rounded);
    assert_eq!(g.nodes[2].shape, NodeShape::Diamond);
    assert_eq!(g.nodes[3].shape, NodeShape::Circle);
    assert_eq!(g.nodes[3].id, "Circ");
    assert_eq!(g.edges.len(), 3);
    assert_eq!(g.edges[2].from, "Dia");
    assert_eq!(g.edges[2].to, "Circ");
}

#[test]
fn parse_connectors() {
    let g = parse("[a] --> [b]\n[a] --- [b]\n[a] <-- [b]\n[a] <--> [b]\n[a] ==> [b]\n[a] === [b]\n[a] -.-> [b]\n").unwrap();
    let types: Vec<EdgeType> = g.edges.iter().map(|e| e.edge_type).collect();
    assert_eq!(
        types,
        vec![
            EdgeType::Arrow,
            EdgeType::Line,
            EdgeType::BackArrow,
            EdgeType::BidirArrow,
            EdgeType::ThickArrow,
            EdgeType::DoubleLine,
            EdgeType::DottedArrow,
        ]
    );
    assert_eq!(g.nodes.len(), 2);
}

#[test]
fn parse_direction_and_rounded_label() {
    let g = parse("direction: LR\n(Rounded Node)\n").unwrap();
    assert_eq!(g.direction, Direction::LR);
    assert_eq!(g.nodes[0].label, "Rounded Node");
    assert_eq!(parse("direction: XY\n").unwrap().direction, Direction::TD);
    assert_eq!(parse("[A]\n").unwrap().direction, Direction::TD);
}

#[test]
fn parse_edge_attributes() {
    let g = parse("[A] --> [B] { label: \"connects\", weight: 2 }\n").unwrap();
    assert_eq!(g.edges.len(), 1);
    assert!(g.edges[0].label.is_none());
    assert_eq!(g.edges[0].attrs.len(), 2);
    assert_eq!(g.edges[0].attrs[0].key, "label");
    assert_eq!(g.edges[0].attrs[0].value, "connects");
    assert_eq!(g.edges[0].attrs[1].key, "weight");
    assert_eq!(g.edges[0].attrs[1].value, "2");
}

#[test]
fn parse_quoted_labels() {
    let g = parse("[\"say \\\"hi\\\" \\\\ bye\"]\n").unwrap();
    assert_eq!(g.nodes[0].label, "say \"hi\" \\ bye");
}

#[test]
fn parse_subgraphs_nested() {
    let src = "subgraph Outer\n  [A] --> [B]\n  subgraph \"Inner one\"\n    [C]\n  end\nend\n[D]\n";
    let g = parse(src).unwrap();
    assert_eq!(g.nodes.len(), 1);
    assert_eq!(g.nodes[0].id, "D");
    assert_eq!(g.subgraphs.len(), 1);
    let outer = &g.subgraphs[0];
    assert_eq!(outer.name, "Outer");
    assert_eq!(outer.nodes.len(), 2);
    assert_eq!(outer.edges.len(), 1);
    assert_eq!(outer.subgraphs.len(), 1);
    assert_eq!(outer.subgraphs[0].name, "Inner one");
    assert_eq!(outer.subgraphs[0].nodes[0].id, "C");
}

#[test]
fn parse_dedups_nodes_by_id() {
    let g = parse("[A] --> [B]\n(A)\n[B] --> [C]\n").unwrap();
    let ids: Vec<&str> = g.nodes.iter().map(|n| n.id.as_str()).collect();
    assert_eq!(ids, vec!["A", "B", "C"]);
    assert_eq!(g.nodes[0].shape, NodeShape::Rectangle);
    assert_eq!(g.edges.len(), 2);
}

#[test]
fn parse_errors_name_the_line() {
    match parse("[A]\n[B] -> [C]\n") {
        Err(m) => assert_eq!(m, "syntax error on line 2"),
        Ok(_) => panic!("expected an error"),
    }
    match parse("end\n") {
        Err(m) => assert_eq!(m, "syntax error on line 1"),
        Ok(_) => panic!("expected an error"),
    }
    match parse("subgraph S\n[A]\n") {
        Err(m) => assert_eq!(m, "unclosed subgraph at end of input"),
        Ok(_) => panic!("expected an error"),
    }
    assert!(parse("[A] -->\n").is_err());
    assert!(parse("[ ]\n").is_err());
}

#[test]
fn parse_comments_and_blank_lines() {
    let g = parse("\n   \n# note\n[A] # trailing\n\r\n").unwrap();
    assert_eq!(g.nodes.len(), 1);
    assert_eq!(g.nodes[0].label, "A");
}

#[test]
fn parse_unquoted_label_runs_to_closing_bracket() {
    let g = parse("[B --> [C]\n").unwrap();
    assert_eq!(g.nodes.len(), 1);
    assert_eq!(g.nodes[0].label, "B --> [C");
}
