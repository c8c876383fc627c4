use mermaid_ascii::ast::{Diagram, Direction, EdgeType, Node, NodeShape};
use mermaid_ascii::drawing::{dir_from_str, label_of, shape_of, step_one, svg_doc_size, trim_edge};
use mermaid_ascii::layout::{LayoutNode, Point, RoutedEdge};

fn diagram() -> Diagram {
    let mut d = Diagram::new();
    d.nodes.push(Node::new("Alpha".to_string(), NodeShape::Diamond));
    let mut n = Node::new(String::new(), NodeShape::Circle);
    n.id = "B".to_string();
    d.nodes.push(n);
    d
}

#[test]
fn node_looks_by_id() {
    let d = diagram();
    assert_eq!(shape_of(&d, "Alpha"), NodeShape::Diamond);
    assert_eq!(shape_of(&d, "B"), NodeShape::Circle);
    assert_eq!(shape_of(&d, "zzz"), NodeShape::Rectangle);
    assert_eq!(label_of(&d, "Alpha"), "Alpha");
    assert_eq!(label_of(&d, "B"), "B");
    assert_eq!(label_of(&d, "zzz"), "zzz");
}

#[test]
fn direction_names() {
    assert_eq!(dir_from_str("TB"), Some(Direction::TD));
    assert_eq!(dir_from_str("td"), Some(Direction::TD));
    assert_eq!(dir_from_str("lr"), Some(Direction::LR));
    assert_eq!(dir_from_str("RL"), None);
    assert_eq!(dir_from_str(""), None);
}

#[test]
fn step_one_moves_one_cell() {
    assert_eq!(step_one(&Point { x: 5, y: 5 }, &Point { x: 9, y: 5 }), Point { x: 6, y: 5 });
    assert_eq!(step_one(&Point { x: 5, y: 5 }, &Point { x: 5, y: 1 }), Point { x: 5, y: 4 });
    assert_eq!(step_one(&Point { x: 5, y: 5 }, &Point { x: 5, y: 5 }), Point { x: 5, y: 5 });
}

fn edge(points: &[(usize, usize)]) -> RoutedEdge {
    RoutedEdge {
        from_id: "A".to_string(),
        to_id: "B".to_string(),
        label: None,
        edge_type: EdgeType::Arrow,
        waypoints: points.iter().map(|&(x, y)| Point { x, y }).collect(),
    }
}

#[test]
fn trim_edge_pulls_both_ends_in() {
    let e = trim_edge(edge(&[(2, 0), (2, 5), (8, 5), (8, 9)]));
    let w: Vec<(usize, usize)> = e.waypoints.iter().map(|p| (p.x, p.y)).collect();
    assert_eq!(w, vec![(2, 1), (2, 5), (8, 5), (8, 8)]);
    assert_eq!(e.from_id, "A");
}

#[test]
fn trim_edge_drops_one_cell_ends() {
    let e = trim_edge(edge(&[(2, 0), (2, 1), (2, 2)]));
    let w: Vec<(usize, usize)> = e.waypoints.iter().map(|p| (p.x, p.y)).collect();
    assert_eq!(w, vec![(2, 1)]);
    let e = trim_edge(edge(&[(4, 4)]));
    assert_eq!(e.waypoints.len(), 1);
}

#[test]
fn svg_doc_size_pads_the_cell_box() {
    assert_eq!(svg_doc_size(&[], &[]), (70, 100));
    let n = || LayoutNode { id: "A".to_string(), layer: 0, order: 0, x: 0, y: 0, width: 5, height: 3 };
    assert_eq!(svg_doc_size(&[n()], &[]), (110, 140));
    assert_eq!(svg_doc_size(&[n()], &[edge(&[(2, 3), (9, 9)])]), (160, 280));
}
