use mermaid_ascii::svg_renderer::{render_ir, LayoutEdge, LayoutIR, LayoutRect};

fn rect(x: i32, y: i32, w: i32, h: i32, shape: &str, label: &str) -> LayoutRect {
    LayoutRect { x, y, w, h, shape: shape.to_string(), label: label.to_string() }
}

const DEFS: &str = "<defs>\n  <marker id=\"arrowhead\" markerWidth=\"10\" markerHeight=\"7\" refX=\"10\" refY=\"3.5\" orient=\"auto\">\n    <polygon points=\"0 0, 10 3.5, 0 7\" fill=\"black\"/>\n  </marker>\n  <marker id=\"arrowhead-rev\" markerWidth=\"10\" markerHeight=\"7\" refX=\"0\" refY=\"3.5\" orient=\"auto\">\n    <polygon points=\"10 0, 0 3.5, 10 7\" fill=\"black\"/>\n  </marker>\n</defs>";

#[test]
fn svg_empty_layout_is_empty() {
    let ir = LayoutIR { rects: vec![], edges: vec![] };
    assert_eq!(render_ir(&ir, "TD"), "");
}

#[test]
fn svg_single_rectangle_exact() {
    let ir = LayoutIR { rects: vec![rect(0, 0, 5, 3, "Rectangle", "A")], edges: vec![] };
    let expected = format!(
        "<svg xmlns=\"http://www.w3.org/2000/svg\" width=\"110\" height=\"140\" viewBox=\"0 0 110 140\">\n{}\n<rect width=\"110\" height=\"140\" fill=\"white\"/>\n<rect x=\"20\" y=\"20\" width=\"50\" height=\"60\" rx=\"0\" fill=\"white\" stroke=\"black\" stroke-width=\"1.5\"/>\n<text x=\"45\" y=\"50\" dominant-baseline=\"central\" text-anchor=\"middle\" font-family=\"monospace\" font-size=\"14\">A</text>\n</svg>",
        DEFS
    );
    assert_eq!(render_ir(&ir, "TD"), expected);
}

#[test]
fn svg_escapes_labels() {
    let ir = LayoutIR { rects: vec![rect(0, 0, 5, 3, "Rectangle", "a<b&c>")], edges: vec![] };
    let out = render_ir(&ir, "LR");
    assert!(out.contains(">a&lt;b&amp;c&gt;</text>"));
}

#[test]
fn svg_multiline_label_uses_tspans() {
    let ir = LayoutIR { rects: vec![rect(0, 0, 5, 3, "Rectangle", "x\ny")], edges: vec![] };
    let out = render_ir(&ir, "TD");
    assert!(out.contains(
        "<text text-anchor=\"middle\" font-family=\"monospace\" font-size=\"14\"><tspan x=\"45\" y=\"41\">x</tspan><tspan x=\"45\" y=\"57\">y</tspan></text>"
    ));
}

#[test]
fn svg_shapes() {
    let ir = LayoutIR {
        rects: vec![
            rect(0, 0, 4, 2, "Rounded", "r"),
            rect(10, 0, 4, 2, "Diamond", "d"),
            rect(20, 0, 4, 2, "Circle", "c"),
        ],
        edges: vec![],
    };
    let out = render_ir(&ir, "TD");
    assert!(out.contains("<rect x=\"20\" y=\"20\" width=\"40\" height=\"40\" rx=\"10\" fill=\"white\" stroke=\"black\" stroke-width=\"1.5\"/>"));
    assert!(out.contains("<polygon points=\"140,20 160,40 140,60 120,40\" fill=\"white\" stroke=\"black\" stroke-width=\"1.5\"/>"));
    assert!(out.contains("<ellipse cx=\"240\" cy=\"40\" rx=\"20\" ry=\"20\" fill=\"white\" stroke=\"black\" stroke-width=\"1.5\"/>"));
}

#[test]
fn svg_container_drawn_first_with_title() {
    let ir = LayoutIR {
        rects: vec![rect(1, 1, 3, 3, "Rectangle", "n"), rect(0, 0, 10, 8, "Container", "Group")],
        edges: vec![],
    };
    let out = render_ir(&ir, "TD");
    let c = out.find("stroke-dasharray=\"4 2\"").unwrap();
    let n = out.find(">n</text>").unwrap();
    assert!(c < n);
    assert!(out.contains("<text x=\"28\" y=\"36\" font-family=\"monospace\" font-size=\"12\" fill=\"#666\">Group</text>"));
}

#[test]
fn svg_edge_with_label_and_style() {
    let ir = LayoutIR {
        rects: vec![rect(0, 0, 3, 2, "Rectangle", "A")],
        edges: vec![LayoutEdge {
            waypoints: vec![(1, 2), (1, 5)],
            edge_type: "DottedArrow".to_string(),
            label: "yes".to_string(),
        }],
    };
    let out = render_ir(&ir, "TD");
    assert!(out.contains("<polyline points=\"30,60 30,120\" fill=\"none\" stroke=\"black\" stroke-width=\"1.5\" stroke-dasharray=\"6 4\" marker-end=\"url(#arrowhead)\"/>\n<text x=\"30\" y=\"112\" text-anchor=\"middle\" font-family=\"monospace\" font-size=\"12\" fill=\"#333\">yes</text>"));
    assert!(out.starts_with("<svg xmlns=\"http://www.w3.org/2000/svg\" width=\"90\" height=\"180\""));
}

#[test]
fn svg_bidir_thick_edge_markers() {
    let ir = LayoutIR {
        rects: vec![rect(0, 0, 3, 2, "Rectangle", "A")],
        edges: vec![LayoutEdge { waypoints: vec![(0, 0), (4, 0)], edge_type: "BidirThick".to_string(), label: String::new() }],
    };
    let out = render_ir(&ir, "TD");
    assert!(out.contains("stroke-width=\"1.5\" stroke-width=\"3\" marker-end=\"url(#arrowhead)\" marker-start=\"url(#arrowhead-rev)\"/>"));
}

#[test]
fn svg_short_edge_is_skipped() {
    let ir = LayoutIR {
        rects: vec![rect(0, 0, 3, 2, "Rectangle", "A")],
        edges: vec![LayoutEdge { waypoints: vec![(0, 0)], edge_type: "Arrow".to_string(), label: "l".to_string() }],
    };
    let out = render_ir(&ir, "TD");
    assert!(!out.contains("polyline"));
}

#[test]
fn svg_mirrored_directions() {
    let ir = LayoutIR { rects: vec![rect(0, 0, 5, 3, "Rectangle", "A")], edges: vec![] };
    let bt = render_ir(&ir, "BT");
    assert!(bt.contains("<g transform=\"translate(0,140) scale(1,-1)\">"));
    assert!(bt.ends_with("</g>\n</svg>"));
    let rl = render_ir(&ir, "RL");
    assert!(rl.contains("<g transform=\"translate(110,0) scale(-1,1)\">"));
    let td = render_ir(&ir, "TD");
    assert!(!td.contains("<g "));
}
