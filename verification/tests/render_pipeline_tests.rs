use mermaid_ascii::ast::{EdgeType, NodeShape};
use mermaid_ascii::graph::GraphIR;
use mermaid_ascii::layout::{LayoutNode, Point, RoutedEdge};
use mermaid_ascii::parser::parse;
use mermaid_ascii::render::{canvas_dimensions, paint_edge, paint_node, render, BoxChars, Canvas, CharSet, Rect};

fn node(id: &str, x: usize, y: usize) -> LayoutNode {
    LayoutNode { id: id.to_string(), layer: 0, order: 0, x, y, width: 5, height: 3 }
}

fn chain() -> (GraphIR, Vec<LayoutNode>, Vec<RoutedEdge>) {
    let gir = GraphIR::from_ast(&parse("[A] --> [B]\n").unwrap());
    let nodes = vec![node("A", 0, 0), node("B", 0, 6)];
    let edges = vec![RoutedEdge {
        from_id: "A".to_string(),
        to_id: "B".to_string(),
        label: None,
        edge_type: EdgeType::Arrow,
        waypoints: vec![Point { x: 2, y: 3 }, Point { x: 2, y: 5 }],
    }];
    (gir, nodes, edges)
}

#[test]
fn render_two_node_chain_unicode() {
    let (gir, nodes, edges) = chain();
    assert_eq!(render(&gir, &nodes, &edges, true), "┌───┐\n│ A │\n└───┘\n  │\n  │\n  ▼\n┌───┐\n│ B │\n└───┘\n");
}

#[test]
fn render_two_node_chain_ascii() {
    let (gir, nodes, edges) = chain();
    assert_eq!(render(&gir, &nodes, &edges, false), "+---+\n| A |\n+---+\n  |\n  |\n  v\n+---+\n| B |\n+---+\n");
}

#[test]
fn render_nothing_without_nodes() {
    let gir = GraphIR::from_ast(&parse("").unwrap());
    assert_eq!(render(&gir, &[], &[], true), "");
}

#[test]
fn canvas_dimensions_have_minimum_and_margins() {
    let (_, nodes, edges) = chain();
    assert_eq!(canvas_dimensions(&nodes, &edges), (40, 13));
    assert_eq!(canvas_dimensions(&[node("Z", 50, 1)], &[]), (57, 10));
}

#[test]
fn paint_edge_exit_stub_is_a_tee() {
    let mut canvas = Canvas::new(5, 9, CharSet::Unicode);
    canvas.draw_box(&Rect::new(0, 0, 5, 3), &BoxChars::unicode());
    let re = RoutedEdge {
        from_id: "A".to_string(),
        to_id: "B".to_string(),
        label: None,
        edge_type: EdgeType::Arrow,
        waypoints: vec![Point { x: 2, y: 2 }, Point { x: 2, y: 6 }],
    };
    paint_edge(&mut canvas, &re, &EdgeType::Arrow);
    assert_eq!(canvas.get(2, 2), '┬');
    for r in 3..=5 {
        assert_eq!(canvas.get(2, r), '│');
    }
    assert_eq!(canvas.get(2, 6), '▼');
    assert_eq!(canvas.get(0, 2), '└');
    assert_eq!(canvas.get(1, 2), '─');
    assert_eq!(canvas.get(3, 2), '─');
    assert_eq!(canvas.get(4, 2), '┘');
    assert_eq!(canvas.get(0, 1), '│');
    assert_eq!(canvas.get(2, 0), '─');
}

#[test]
fn paint_edge_bend_is_a_corner() {
    let mut canvas = Canvas::new(10, 10, CharSet::Unicode);
    let re = RoutedEdge {
        from_id: "A".to_string(),
        to_id: "B".to_string(),
        label: None,
        edge_type: EdgeType::Arrow,
        waypoints: vec![Point { x: 1, y: 1 }, Point { x: 1, y: 4 }, Point { x: 6, y: 4 }],
    };
    paint_edge(&mut canvas, &re, &EdgeType::Arrow);
    assert_eq!(canvas.get(1, 1), '│');
    assert_eq!(canvas.get(1, 3), '│');
    assert_eq!(canvas.get(1, 4), '└');
    assert_eq!(canvas.get(3, 4), '─');
    assert_eq!(canvas.get(6, 4), '►');
}

#[test]
fn paint_node_centres_by_char_count() {
    let mut canvas = Canvas::new(10, 3, CharSet::Unicode);
    let ln = LayoutNode { id: "n".to_string(), layer: 0, order: 0, x: 0, y: 0, width: 5, height: 3 };
    paint_node(&mut canvas, &ln, &NodeShape::Rectangle, "é");
    assert_eq!(canvas.get(2, 1), 'é');
    assert_eq!(canvas.get(1, 1), ' ');
    assert_eq!(canvas.get(3, 1), ' ');
}

#[test]
fn canvas_dimensions_ignore_dummy_nodes() {
    let d = LayoutNode { id: "__dummy_0".to_string(), layer: 0, order: 0, x: usize::MAX - 2, y: 0, width: 1, height: 1 };
    assert_eq!(canvas_dimensions(&[d], &[]), (40, 10));
    assert_eq!(canvas_dimensions(&[], &[]), (40, 10));
}
