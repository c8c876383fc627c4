//! SVG output: each rectangle of a layout becomes a shape with its label,
//! each edge a polyline with arrow markers, all scaled from character cells.
use vstd::prelude::*;
use crate::layout::join;
use crate::path_state::div_trunc;
use crate::render::{split_lines, split_newlines};
use crate::text::{int_decimal, push_chars, push_i128, push_i64, push_str, str_chars, str_eq, string_push};

verus! {

/// A laid-out box, in character cells.
#[derive(Debug)]
pub struct LayoutRect {
    pub x: i32,
    pub y: i32,
    pub w: i32,
    pub h: i32,
    /// `"Rectangle"`, `"Rounded"`, `"Diamond"`, `"Circle"` or `"Container"`.
    pub shape: String,
    pub label: String,
}

/// A routed edge, in character cells.
#[derive(Debug)]
pub struct LayoutEdge {
    pub waypoints: Vec<(i32, i32)>,
    pub edge_type: String,
    /// Empty when the edge has no label.
    pub label: String,
}

/// The boxes and edges of a layout.
#[derive(Debug)]
pub struct LayoutIR {
    pub rects: Vec<LayoutRect>,
    pub edges: Vec<LayoutEdge>,
}

// ─── Text pieces ────────────────────────────────────────────────────────────

/// `s` with `&`, `<` and `>` written as XML entities.
pub open spec fn escape_text(s: Seq<char>) -> Seq<char>
    decreases s.len(),
{
    if s.len() == 0 {
        seq![]
    } else {
        let c = s.last();
        escape_text(s.drop_last()) + (if c == '&' {
            "&amp;"@
        } else if c == '<' {
            "&lt;"@
        } else if c == '>' {
            "&gt;"@
        } else {
            seq![c]
        })
    }
}

/// The font attributes for a size.
pub open spec fn font_text(size: int) -> Seq<char> {
    "font-family=\"monospace\" font-size=\""@ + int_decimal(size) + "\""@
}

/// The pixel column of a cell column.
pub open spec fn px_of(col: int) -> int {
    20 + col * 10
}

/// The pixel row of a cell row.
pub open spec fn py_of(row: int) -> int {
    20 + row * 20
}

/// The dash or width attribute of an edge type.
pub open spec fn stroke_text(et: Seq<char>) -> Seq<char> {
    if et == "DottedArrow"@ || et == "DottedLine"@ || et == "BidirDotted"@ {
        "stroke-dasharray=\"6 4\""@
    } else if et == "ThickArrow"@ || et == "ThickLine"@ || et == "BidirThick"@ {
        "stroke-width=\"3\""@
    } else {
        seq![]
    }
}

/// Whether an edge type ends in an arrowhead.
pub open spec fn arrow_type(et: Seq<char>) -> bool {
    et == "Arrow"@ || et == "DottedArrow"@ || et == "ThickArrow"@ || et == "BidirArrow"@ || et == "BidirDotted"@
        || et == "BidirThick"@
}

/// Whether an edge type has arrowheads at both ends.
pub open spec fn bidir_type(et: Seq<char>) -> bool {
    et == "BidirArrow"@ || et == "BidirDotted"@ || et == "BidirThick"@
}

/// The tspans of the first `n` lines, from `start_y` down by 16 pixels each.
pub open spec fn tspans_text(cx: int, start_y: int, lines: Seq<Seq<char>>, n: nat) -> Seq<char>
    decreases n,
{
    if n == 0 {
        seq![]
    } else {
        tspans_text(cx, start_y, lines, (n - 1) as nat) + "<tspan x=\""@ + int_decimal(cx) + "\" y=\""@ + int_decimal(
            start_y + (n - 1) * 16,
        ) + "\">"@ + lines[n - 1] + "</tspan>"@
    }
}

/// A label centred at `(cx, cy)`: one `text` element, or one `tspan` per
/// line for a label of several lines.
pub open spec fn label_svg_text(cx: int, cy: int, label: Seq<char>) -> Seq<char> {
    let lines = split_lines(escape_text(label));
    if lines.len() == 1 {
        "<text x=\""@ + int_decimal(cx) + "\" y=\""@ + int_decimal(cy)
            + "\" dominant-baseline=\"central\" text-anchor=\"middle\" "@ + font_text(14) + ">"@ + lines[0] + "</text>"@
    } else {
        let start_y = cy - lines.len() * 8 + 7;
        "<text text-anchor=\"middle\" "@ + font_text(14) + ">"@ + tspans_text(cx, start_y, lines, lines.len())
            + "</text>"@
    }
}

/// The fill and stroke of node shapes.
pub open spec fn fill_stroke() -> Seq<char> {
    "fill=\"white\" stroke=\"black\" stroke-width=\"1.5\""@
}

/// The SVG of a box: a dashed rectangle with its title for a container,
/// otherwise its shape followed by its centred label.
pub open spec fn rect_svg_text(x: int, y: int, w: int, h: int, shape: Seq<char>, label: Seq<char>) -> Seq<char> {
    let sx = px_of(x);
    let sy = py_of(y);
    let sw = w * 10;
    let sh = h * 20;
    let cx = sx + div_trunc(sw, 2);
    let cy = sy + div_trunc(sh, 2);
    if shape == "Container"@ {
        "<rect x=\""@ + int_decimal(sx) + "\" y=\""@ + int_decimal(sy) + "\" width=\""@ + int_decimal(sw)
            + "\" height=\""@ + int_decimal(sh)
            + "\" fill=\"none\" stroke=\"#888\" stroke-width=\"1\" stroke-dasharray=\"4 2\"/>\n<text x=\""@
            + int_decimal(sx + 8) + "\" y=\""@ + int_decimal(sy + 16) + "\" "@ + font_text(12) + " fill=\"#666\">"@
            + escape_text(label) + "</text>"@
    } else {
        let shape_svg = if shape == "Rounded"@ {
            "<rect x=\""@ + int_decimal(sx) + "\" y=\""@ + int_decimal(sy) + "\" width=\""@ + int_decimal(sw)
                + "\" height=\""@ + int_decimal(sh) + "\" rx=\""@ + int_decimal(
                div_trunc(if sw <= sh { sw } else { sh }, 4),
            ) + "\" "@ + fill_stroke() + "/>"@
        } else if shape == "Diamond"@ {
            "<polygon points=\""@ + int_decimal(cx) + ","@ + int_decimal(sy) + " "@ + int_decimal(sx + sw) + ","@
                + int_decimal(cy) + " "@ + int_decimal(cx) + ","@ + int_decimal(sy + sh) + " "@ + int_decimal(sx)
                + ","@ + int_decimal(cy) + "\" "@ + fill_stroke() + "/>"@
        } else if shape == "Circle"@ {
            "<ellipse cx=\""@ + int_decimal(cx) + "\" cy=\""@ + int_decimal(cy) + "\" rx=\""@ + int_decimal(
                div_trunc(sw, 2),
            ) + "\" ry=\""@ + int_decimal(div_trunc(sh, 2)) + "\" "@ + fill_stroke() + "/>"@
        } else {
            "<rect x=\""@ + int_decimal(sx) + "\" y=\""@ + int_decimal(sy) + "\" width=\""@ + int_decimal(sw)
                + "\" height=\""@ + int_decimal(sh) + "\" rx=\"0\" "@ + fill_stroke() + "/>"@
        };
        shape_svg + "\n"@ + label_svg_text(cx, cy, label)
    }
}

/// The pixel points of a route, `x,y` separated by spaces.
pub open spec fn points_text(w: Seq<(i32, i32)>) -> Seq<char> {
    join(w.map_values(|p: (i32, i32)| int_decimal(px_of(p.0 as int)) + ","@ + int_decimal(py_of(p.1 as int))), " "@)
}

/// The SVG of an edge: nothing for a route of fewer than two points;
/// otherwise a polyline with its style and markers, and its label above the
/// middle waypoint when it has one.
pub open spec fn edge_svg_text(w: Seq<(i32, i32)>, et: Seq<char>, label: Seq<char>) -> Seq<char> {
    if w.len() < 2 {
        seq![]
    } else {
        let markers = (if arrow_type(et) {
            " marker-end=\"url(#arrowhead)\""@
        } else {
            seq![]
        }) + (if bidir_type(et) {
            " marker-start=\"url(#arrowhead-rev)\""@
        } else {
            seq![]
        });
        let line = "<polyline points=\""@ + points_text(w) + "\" fill=\"none\" stroke=\"black\" stroke-width=\"1.5\" "@
            + stroke_text(et) + markers + "/>"@;
        if label.len() == 0 {
            line
        } else {
            let lp = w[(w.len() / 2) as int];
            line + "\n"@ + "<text x=\""@ + int_decimal(px_of(lp.0 as int)) + "\" y=\""@ + int_decimal(
                py_of(lp.1 as int) - 8,
            ) + "\" text-anchor=\"middle\" "@ + font_text(12) + " fill=\"#333\">"@ + escape_text(label) + "</text>"@
        }
    }
}


/// The rightmost column that the boxes reach, plus a margin of two (0 for none).
pub open spec fn rects_col(rects: Seq<LayoutRect>) -> int
    decreases rects.len(),
{
    if rects.len() == 0 {
        0
    } else {
        vstd::math::max(rects_col(rects.drop_last()), rects.last().x + rects.last().w + 2)
    }
}

/// The lowest row that the boxes reach, plus a margin of two (0 for none).
pub open spec fn rects_row(rects: Seq<LayoutRect>) -> int
    decreases rects.len(),
{
    if rects.len() == 0 {
        0
    } else {
        vstd::math::max(rects_row(rects.drop_last()), rects.last().y + rects.last().h + 2)
    }
}

/// The rightmost column of a route, plus two (0 for none).
pub open spec fn points_col(w: Seq<(i32, i32)>) -> int
    decreases w.len(),
{
    if w.len() == 0 {
        0
    } else {
        vstd::math::max(points_col(w.drop_last()), w.last().0 + 2)
    }
}

/// The lowest row of a route, plus two (0 for none).
pub open spec fn points_row(w: Seq<(i32, i32)>) -> int
    decreases w.len(),
{
    if w.len() == 0 {
        0
    } else {
        vstd::math::max(points_row(w.drop_last()), w.last().1 + 2)
    }
}

/// The rightmost column of all routes, plus two (0 for none).
pub open spec fn edges_col(edges: Seq<LayoutEdge>) -> int
    decreases edges.len(),
{
    if edges.len() == 0 {
        0
    } else {
        vstd::math::max(edges_col(edges.drop_last()), points_col(edges.last().waypoints@))
    }
}

/// The lowest row of all routes, plus two (0 for none).
pub open spec fn edges_row(edges: Seq<LayoutEdge>) -> int
    decreases edges.len(),
{
    if edges.len() == 0 {
        0
    } else {
        vstd::math::max(edges_row(edges.drop_last()), points_row(edges.last().waypoints@))
    }
}

/// The width of the picture in pixels.
pub open spec fn svg_width(rects: Seq<LayoutRect>, edges: Seq<LayoutEdge>) -> int {
    40 + vstd::math::max(rects_col(rects), edges_col(edges)) * 10
}

/// The height of the picture in pixels.
pub open spec fn svg_height(rects: Seq<LayoutRect>, edges: Seq<LayoutEdge>) -> int {
    40 + vstd::math::max(rects_row(rects), edges_row(edges)) * 20
}

/// The opening lines: the `svg` element, the arrowhead markers and the
/// white background.
pub open spec fn svg_header(w: int, h: int) -> Seq<Seq<char>> {
    seq![
        "<svg xmlns=\"http://www.w3.org/2000/svg\" width=\""@ + int_decimal(w) + "\" height=\""@ + int_decimal(h)
            + "\" viewBox=\"0 0 "@ + int_decimal(w) + " "@ + int_decimal(h) + "\">"@,
        "<defs>"@,
        "  <marker id=\"arrowhead\" markerWidth=\"10\" markerHeight=\"7\" refX=\"10\" refY=\"3.5\" orient=\"auto\">"@,
        "    <polygon points=\"0 0, 10 3.5, 0 7\" fill=\"black\"/>"@,
        "  </marker>"@,
        "  <marker id=\"arrowhead-rev\" markerWidth=\"10\" markerHeight=\"7\" refX=\"0\" refY=\"3.5\" orient=\"auto\">"@,
        "    <polygon points=\"10 0, 0 3.5, 10 7\" fill=\"black\"/>"@,
        "  </marker>"@,
        "</defs>"@,
        "<rect width=\""@ + int_decimal(w) + "\" height=\""@ + int_decimal(h) + "\" fill=\"white\"/>"@,
    ]
}

/// Whether a direction is drawn mirrored (`BT` upside down, `RL` left to right).
pub open spec fn mirrored(direction: Seq<char>) -> bool {
    direction == "BT"@ || direction == "RL"@
}

/// The group that mirrors a `BT` or `RL` picture; nothing otherwise.
pub open spec fn svg_transform(direction: Seq<char>, w: int, h: int) -> Seq<Seq<char>> {
    if direction == "BT"@ {
        seq!["<g transform=\"translate(0,"@ + int_decimal(h) + ") scale(1,-1)\">"@]
    } else if direction == "RL"@ {
        seq!["<g transform=\"translate("@ + int_decimal(w) + ",0) scale(-1,1)\">"@]
    } else {
        seq![]
    }
}

/// The SVG of each box, in order, that is (`containers`) or is not a container.
pub open spec fn rect_parts(rects: Seq<LayoutRect>, containers: bool) -> Seq<Seq<char>>
    decreases rects.len(),
{
    if rects.len() == 0 {
        seq![]
    } else {
        let r = rects.last();
        rect_parts(rects.drop_last(), containers) + (if (r.shape@ == "Container"@) == containers {
            seq![rect_svg_text(r.x as int, r.y as int, r.w as int, r.h as int, r.shape@, r.label@)]
        } else {
            seq![]
        })
    }
}

/// The SVG of each edge, in order, that draws anything.
pub open spec fn edge_parts(edges: Seq<LayoutEdge>) -> Seq<Seq<char>>
    decreases edges.len(),
{
    if edges.len() == 0 {
        seq![]
    } else {
        let e = edges.last();
        let t = edge_svg_text(e.waypoints@, e.edge_type@, e.label@);
        edge_parts(edges.drop_last()) + (if t.len() > 0 {
            seq![t]
        } else {
            seq![]
        })
    }
}

/// The lines of the picture: header, mirroring group, containers, edges,
/// other boxes, and the closing tags.
pub open spec fn svg_lines(rects: Seq<LayoutRect>, edges: Seq<LayoutEdge>, direction: Seq<char>) -> Seq<Seq<char>> {
    let w = svg_width(rects, edges);
    let h = svg_height(rects, edges);
    svg_header(w, h) + svg_transform(direction, w, h) + rect_parts(rects, true) + edge_parts(edges) + rect_parts(
        rects,
        false,
    ) + (if mirrored(direction) {
        seq!["</g>"@]
    } else {
        seq![]
    }) + seq!["</svg>"@]
}

/// The SVG document of a layout: empty when it has no boxes, otherwise its
/// lines joined by newlines.
pub open spec fn ir_svg_text(rects: Seq<LayoutRect>, edges: Seq<LayoutEdge>, direction: Seq<char>) -> Seq<char> {
    if rects.len() == 0 {
        seq![]
    } else {
        join(svg_lines(rects, edges, direction), "\n"@)
    }
}

// ─── Exec helpers ───────────────────────────────────────────────────────────

fn push_int(s: &mut String, v: i64)
    ensures
        final(s)@ == old(s)@ + int_decimal(v as int),
{
    push_i64(s, v);
}

/// `s` with `&`, `<` and `>` escaped.
fn escape(s: &str) -> (r: String)
    ensures
        r@ == escape_text(s@),
{
    let chars = str_chars(s);
    let mut out = String::new();
    let mut i: usize = 0;
    while i < chars.len()
        invariant
            chars@ == s@,
            i <= chars@.len(),
            out@ == escape_text(s@.take(i as int)),
        decreases chars@.len() - i,
    {
        let c = chars[i];
        proof {
            let t1 = s@.take(i + 1);
            assert(t1.drop_last() =~= s@.take(i as int));
            assert(t1.last() == c);
            reveal_strlit("&amp;");
            reveal_strlit("&lt;");
            reveal_strlit("&gt;");
        }
        if c == '&' {
            push_str(&mut out, "&amp;");
        } else if c == '<' {
            push_str(&mut out, "&lt;");
        } else if c == '>' {
            push_str(&mut out, "&gt;");
        } else {
            string_push(&mut out, c);
            proof {
                assert(out@ =~= escape_text(s@.take(i as int)) + seq![c]);
            }
        }
        i = i + 1;
    }
    proof {
        assert(s@.take(s@.len() as int) =~= s@);
    }
    out
}

/// The font attributes for `size`.
fn font(size: i32) -> (r: String)
    ensures
        r@ == font_text(size as int),
{
    let mut s = String::new();
    push_str(&mut s, "font-family=\"monospace\" font-size=\"");
    push_int(&mut s, size as i64);
    push_str(&mut s, "\"");
    s
}

/// The pixel column of cell column `col`.
fn px(col: i32) -> (r: i64)
    ensures
        r == px_of(col as int),
{
    20 + (col as i64) * 10
}

/// The pixel row of cell row `row`.
fn py(row: i32) -> (r: i64)
    ensures
        r == py_of(row as int),
{
    20 + (row as i64) * 20
}

/// `v / d` rounded toward zero.
fn div_toward_zero(v: i64, d: i64) -> (r: i64)
    requires
        d > 0,
        v > i64::MIN,
    ensures
        r == div_trunc(v as int, d as int),
{
    if v >= 0 {
        v / d
    } else {
        -((-v) / d)
    }
}

/// The dash or width attribute of an edge type.
fn stroke_style(et: &str) -> (r: &'static str)
    ensures
        r@ == stroke_text(et@),
{
    if str_eq(et, "DottedArrow") || str_eq(et, "DottedLine") || str_eq(et, "BidirDotted") {
        "stroke-dasharray=\"6 4\""
    } else if str_eq(et, "ThickArrow") || str_eq(et, "ThickLine") || str_eq(et, "BidirThick") {
        "stroke-width=\"3\""
    } else {
        proof {
            reveal_strlit("");
        }
        ""
    }
}

/// Whether an edge type ends in an arrowhead.
fn is_arrow(et: &str) -> (r: bool)
    ensures
        r == arrow_type(et@),
{
    str_eq(et, "Arrow") || str_eq(et, "DottedArrow") || str_eq(et, "ThickArrow") || str_eq(et, "BidirArrow")
        || str_eq(et, "BidirDotted") || str_eq(et, "BidirThick")
}

/// Whether an edge type has arrowheads at both ends.
fn is_bidir(et: &str) -> (r: bool)
    ensures
        r == bidir_type(et@),
{
    str_eq(et, "BidirArrow") || str_eq(et, "BidirDotted") || str_eq(et, "BidirThick")
}


// ─── Joining ──────────────────────────────────────────────────────────────

/// The pieces joined by `sep`.
pub fn join_strings(parts: &Vec<String>, sep: &str) -> (r: String)
    ensures
        r@ == join(parts@.map_values(|p: String| p@), sep@),
{
    let ghost ps = parts@.map_values(|p: String| p@);
    let mut out = String::new();
    let mut i: usize = 0;
    while i < parts.len()
        invariant
            i <= parts@.len(),
            ps == parts@.map_values(|p: String| p@),
            out@ == join(ps.take(i as int), sep@),
        decreases parts@.len() - i,
    {
        proof {
            assert(ps.take(i + 1).drop_last() =~= ps.take(i as int));
            assert(ps.take(i + 1).last() == parts@[i as int]@);
        }
        if i > 0 {
            push_str(&mut out, sep);
        } else {
            proof {
                assert(out@ =~= seq![]);
            }
        }
        push_str(&mut out, parts[i].as_str());
        i = i + 1;
    }
    proof {
        assert(ps.take(parts@.len() as int) =~= ps);
    }
    out
}

// ─── Rect → SVG ─────────────────────────────────────────────────────────────

/// A label centred at `(cx, cy)`.
fn render_label_svg(cx: i64, cy: i64, label: &str) -> (r: String)
    requires
        -0x1_0000_0000_0000 < cx < 0x1_0000_0000_0000,
        -0x1_0000_0000_0000 < cy < 0x1_0000_0000_0000,
    ensures
        r@ == label_svg_text(cx as int, cy as int, label@),
{
    let esc = escape(label);
    let esc_chars = str_chars(esc.as_str());
    let lines = split_newlines(&esc_chars);
    let ghost ls = lines@.map_values(|l: Vec<char>| l@);
    proof {
        assert(ls.len() == lines@.len());
    }
    let f = font(14);
    let mut out = String::new();
    if lines.len() == 1 {
        push_str(&mut out, "<text x=\"");
        push_int(&mut out, cx);
        push_str(&mut out, "\" y=\"");
        push_int(&mut out, cy);
        push_str(&mut out, "\" dominant-baseline=\"central\" text-anchor=\"middle\" ");
        push_str(&mut out, f.as_str());
        push_str(&mut out, ">");
        push_chars(&mut out, &lines[0], 0, lines[0].len());
        push_str(&mut out, "</text>");
        proof {
            assert(lines@[0]@.subrange(0, lines@[0]@.len() as int) =~= ls[0]);
        }
    } else {
        let n = lines.len() as i128;
        let start_y: i128 = (cy as i128) - n * 8 + 7;
        let mut tspans = String::new();
        let mut i: usize = 0;
        while i < lines.len()
            invariant
                i <= lines@.len(),
                n == lines@.len(),
                n <= usize::MAX,
                ls == lines@.map_values(|l: Vec<char>| l@),
                start_y == cy - n * 8 + 7,
                -0x1_0000_0000_0000 < cx < 0x1_0000_0000_0000,
                -0x1_0000_0000_0000 < cy < 0x1_0000_0000_0000,
                tspans@ == tspans_text(cx as int, start_y as int, ls, i as nat),
            decreases lines@.len() - i,
        {
            let ty: i128 = start_y + (i as i128) * 16;
            push_str(&mut tspans, "<tspan x=\"");
            push_int(&mut tspans, cx);
            push_str(&mut tspans, "\" y=\"");
            push_i128(&mut tspans, ty);
            push_str(&mut tspans, "\">");
            push_chars(&mut tspans, &lines[i], 0, lines[i].len());
            push_str(&mut tspans, "</tspan>");
            proof {
                assert(lines@[i as int]@.subrange(0, lines@[i as int]@.len() as int) =~= ls[i as int]);
            }
            i = i + 1;
        }
        push_str(&mut out, "<text text-anchor=\"middle\" ");
        push_str(&mut out, f.as_str());
        push_str(&mut out, ">");
        push_str(&mut out, tspans.as_str());
        push_str(&mut out, "</text>");
    }
    out
}


/// The SVG of a box, with its label.
fn render_rect(r: &LayoutRect) -> (out: String)
    ensures
        out@ == rect_svg_text(r.x as int, r.y as int, r.w as int, r.h as int, r.shape@, r.label@),
{
    let sx = px(r.x);
    let sy = py(r.y);
    let sw = (r.w as i64) * 10;
    let sh = (r.h as i64) * 20;
    let cx = sx + div_toward_zero(sw, 2);
    let cy = sy + div_toward_zero(sh, 2);
    let mut out = String::new();
    if str_eq(r.shape.as_str(), "Container") {
        let f = font(12);
        push_str(&mut out, "<rect x=\"");
        push_int(&mut out, sx);
        push_str(&mut out, "\" y=\"");
        push_int(&mut out, sy);
        push_str(&mut out, "\" width=\"");
        push_int(&mut out, sw);
        push_str(&mut out, "\" height=\"");
        push_int(&mut out, sh);
        push_str(
            &mut out,
            "\" fill=\"none\" stroke=\"#888\" stroke-width=\"1\" stroke-dasharray=\"4 2\"/>\n<text x=\"",
        );
        push_int(&mut out, sx + 8);
        push_str(&mut out, "\" y=\"");
        push_int(&mut out, sy + 16);
        push_str(&mut out, "\" ");
        push_str(&mut out, f.as_str());
        push_str(&mut out, " fill=\"#666\">");
        let esc = escape(r.label.as_str());
        push_str(&mut out, esc.as_str());
        push_str(&mut out, "</text>");
    } else {
        if str_eq(r.shape.as_str(), "Rounded") {
            let m = if sw <= sh {
                sw
            } else {
                sh
            };
            push_str(&mut out, "<rect x=\"");
            push_int(&mut out, sx);
            push_str(&mut out, "\" y=\"");
            push_int(&mut out, sy);
            push_str(&mut out, "\" width=\"");
            push_int(&mut out, sw);
            push_str(&mut out, "\" height=\"");
            push_int(&mut out, sh);
            push_str(&mut out, "\" rx=\"");
            push_int(&mut out, div_toward_zero(m, 4));
            push_str(&mut out, "\" ");
        } else if str_eq(r.shape.as_str(), "Diamond") {
            push_str(&mut out, "<polygon points=\"");
            push_int(&mut out, cx);
            push_str(&mut out, ",");
            push_int(&mut out, sy);
            push_str(&mut out, " ");
            push_int(&mut out, sx + sw);
            push_str(&mut out, ",");
            push_int(&mut out, cy);
            push_str(&mut out, " ");
            push_int(&mut out, cx);
            push_str(&mut out, ",");
            push_int(&mut out, sy + sh);
            push_str(&mut out, " ");
            push_int(&mut out, sx);
            push_str(&mut out, ",");
            push_int(&mut out, cy);
            push_str(&mut out, "\" ");
        } else if str_eq(r.shape.as_str(), "Circle") {
            push_str(&mut out, "<ellipse cx=\"");
            push_int(&mut out, cx);
            push_str(&mut out, "\" cy=\"");
            push_int(&mut out, cy);
            push_str(&mut out, "\" rx=\"");
            push_int(&mut out, div_toward_zero(sw, 2));
            push_str(&mut out, "\" ry=\"");
            push_int(&mut out, div_toward_zero(sh, 2));
            push_str(&mut out, "\" ");
        } else {
            push_str(&mut out, "<rect x=\"");
            push_int(&mut out, sx);
            push_str(&mut out, "\" y=\"");
            push_int(&mut out, sy);
            push_str(&mut out, "\" width=\"");
            push_int(&mut out, sw);
            push_str(&mut out, "\" height=\"");
            push_int(&mut out, sh);
            push_str(&mut out, "\" rx=\"0\" ");
        }
        push_str(&mut out, "fill=\"white\" stroke=\"black\" stroke-width=\"1.5\"");
        push_str(&mut out, "/>");
        push_str(&mut out, "\n");
        let label_svg = render_label_svg(cx, cy, r.label.as_str());
        push_str(&mut out, label_svg.as_str());
    }
    out
}


// ─── Edge → SVG ─────────────────────────────────────────────────────────────

/// The pixel points of a route.
fn render_points(w: &Vec<(i32, i32)>) -> (out: String)
    ensures
        out@ == points_text(w@),
{
    let mut out = String::new();
    let mut i: usize = 0;
    while i < w.len()
        invariant
            i <= w@.len(),
            out@ == points_text(w@.take(i as int)),
        decreases w@.len() - i,
    {
        let (x, y) = w[i];
        let ghost f = |p: (i32, i32)| int_decimal(px_of(p.0 as int)) + ","@ + int_decimal(py_of(p.1 as int));
        proof {
            assert(w@.take(i + 1).map_values(f) =~= w@.take(i as int).map_values(f).push(f(w@[i as int])));
            assert(w@.take(i as int).map_values(f).len() == i);
        }
        if i > 0 {
            push_str(&mut out, " ");
        } else {
            proof {
                assert(out@ =~= seq![]);
            }
        }
        push_int(&mut out, px(x));
        push_str(&mut out, ",");
        push_int(&mut out, py(y));
        proof {
            let m = w@.take(i + 1).map_values(f);
            if i > 0 {
                assert(m.drop_last() =~= w@.take(i as int).map_values(f));
            }
        }
        i = i + 1;
    }
    proof {
        assert(w@.take(w@.len() as int) =~= w@);
    }
    out
}

/// The SVG of an edge; empty for a route of fewer than two points.
fn render_edge(e: &LayoutEdge) -> (out: String)
    ensures
        out@ == edge_svg_text(e.waypoints@, e.edge_type@, e.label@),
{
    let mut out = String::new();
    if e.waypoints.len() < 2 {
        proof {
            assert(out@ =~= seq![]);
        }
        return out;
    }
    let style = stroke_style(e.edge_type.as_str());
    let mut markers = String::new();
    if is_arrow(e.edge_type.as_str()) {
        push_str(&mut markers, " marker-end=\"url(#arrowhead)\"");
    }
    if is_bidir(e.edge_type.as_str()) {
        push_str(&mut markers, " marker-start=\"url(#arrowhead-rev)\"");
    }
    proof {
        assert(markers@ =~= (if arrow_type(e.edge_type@) {
            " marker-end=\"url(#arrowhead)\""@
        } else {
            seq![]
        }) + (if bidir_type(e.edge_type@) {
            " marker-start=\"url(#arrowhead-rev)\""@
        } else {
            seq![]
        }));
    }
    let pts = render_points(&e.waypoints);
    push_str(&mut out, "<polyline points=\"");
    push_str(&mut out, pts.as_str());
    push_str(&mut out, "\" fill=\"none\" stroke=\"black\" stroke-width=\"1.5\" ");
    push_str(&mut out, style);
    push_str(&mut out, markers.as_str());
    push_str(&mut out, "/>");
    let ghost line = "<polyline points=\""@ + points_text(e.waypoints@)
        + "\" fill=\"none\" stroke=\"black\" stroke-width=\"1.5\" "@ + stroke_text(e.edge_type@) + markers@ + "/>"@;
    assert(out@ =~= line);
    proof {
        reveal_strlit("");
    }
    if !str_eq(e.label.as_str(), "") {
        let mid = e.waypoints.len() / 2;
        let (lx, ly) = e.waypoints[mid];
        let f = font(12);
        push_str(&mut out, "\n");
        push_str(&mut out, "<text x=\"");
        push_int(&mut out, px(lx));
        push_str(&mut out, "\" y=\"");
        push_int(&mut out, py(ly) - 8);
        push_str(&mut out, "\" text-anchor=\"middle\" ");
        push_str(&mut out, f.as_str());
        push_str(&mut out, " fill=\"#333\">");
        let esc = escape(e.label.as_str());
        push_str(&mut out, esc.as_str());
        push_str(&mut out, "</text>");
        assert(e.label@.len() != 0) by {
            if e.label@.len() == 0 {
                assert(e.label@ =~= ""@);
            }
        }
        assert(out@ =~= line + "\n"@ + "<text x=\""@ + int_decimal(px_of(lx as int)) + "\" y=\""@ + int_decimal(
                py_of(ly as int) - 8,
            ) + "\" text-anchor=\"middle\" "@ + font_text(12) + " fill=\"#333\">"@ + escape_text(e.label@) + "</text>"@);
    }
    out
}


// ─── Whole picture ──────────────────────────────────────────────────────────

/// Appends `t` as a new part.
fn push_part(parts: &mut Vec<String>, t: &str)
    ensures
        final(parts)@.map_values(|p: String| p@) == old(parts)@.map_values(|p: String| p@).push(t@),
{
    let mut s = String::new();
    push_str(&mut s, t);
    parts.push(s);
    proof {
        assert(final(parts)@.map_values(|p: String| p@) =~= old(parts)@.map_values(|p: String| p@).push(t@));
    }
}

/// Draws a layout as an SVG document, scaled from character cells; a
/// `BT` or `RL` direction mirrors the drawing. Empty when there are no boxes.
pub fn render_ir(ir: &LayoutIR, direction: &str) -> (out: String)
    ensures
        out@ == ir_svg_text(ir.rects@, ir.edges@, direction@),
{
    if ir.rects.len() == 0 {
        return String::new();
    }
    let ghost rects = ir.rects@;
    let ghost edges = ir.edges@;
    let mut max_col: i64 = 0;
    let mut max_row: i64 = 0;
    let mut i: usize = 0;
    while i < ir.rects.len()
        invariant
            i <= rects.len(),
            rects == ir.rects@,
            max_col == rects_col(rects.take(i as int)),
            max_row == rects_row(rects.take(i as int)),
            0 <= max_col <= 0x1_0000_0000,
            0 <= max_row <= 0x1_0000_0000,
        decreases rects.len() - i,
    {
        let r = &ir.rects[i];
        proof {
            assert(rects.take(i + 1).drop_last() =~= rects.take(i as int));
        }
        let c = (r.x as i64) + (r.w as i64) + 2;
        let w = (r.y as i64) + (r.h as i64) + 2;
        if c > max_col {
            max_col = c;
        }
        if w > max_row {
            max_row = w;
        }
        i = i + 1;
    }
    proof {
        assert(rects.take(rects.len() as int) =~= rects);
    }
    let mut k: usize = 0;
    while k < ir.edges.len()
        invariant
            k <= edges.len(),
            edges == ir.edges@,
            max_col == vstd::math::max(rects_col(rects), edges_col(edges.take(k as int))),
            max_row == vstd::math::max(rects_row(rects), edges_row(edges.take(k as int))),
            0 <= max_col <= 0x1_0000_0000,
            0 <= max_row <= 0x1_0000_0000,
        decreases edges.len() - k,
    {
        let wp = &ir.edges[k].waypoints;
        let ghost before_c = max_col;
        let ghost before_r = max_row;
        let mut j: usize = 0;
        while j < wp.len()
            invariant
                j <= wp@.len(),
                max_col == vstd::math::max(before_c as int, points_col(wp@.take(j as int))),
                max_row == vstd::math::max(before_r as int, points_row(wp@.take(j as int))),
                0 <= before_c <= max_col <= 0x1_0000_0000,
                0 <= before_r <= max_row <= 0x1_0000_0000,
                0 <= before_c <= 0x1_0000_0000,
            decreases wp@.len() - j,
        {
            let (wx, wy) = wp[j];
            proof {
                assert(wp@.take(j + 1).drop_last() =~= wp@.take(j as int));
            }
            if (wx as i64) + 2 > max_col {
                max_col = (wx as i64) + 2;
            }
            if (wy as i64) + 2 > max_row {
                max_row = (wy as i64) + 2;
            }
            j = j + 1;
        }
        proof {
            assert(wp@.take(wp@.len() as int) =~= wp@);
            assert(edges.take(k + 1).drop_last() =~= edges.take(k as int));
        }
        k = k + 1;
    }
    proof {
        assert(edges.take(edges.len() as int) =~= edges);
    }
    let svg_w = 40 + max_col * 10;
    let svg_h = 40 + max_row * 20;
    let mut parts: Vec<String> = Vec::new();
    let mut head = String::new();
    push_str(&mut head, "<svg xmlns=\"http://www.w3.org/2000/svg\" width=\"");
    push_int(&mut head, svg_w);
    push_str(&mut head, "\" height=\"");
    push_int(&mut head, svg_h);
    push_str(&mut head, "\" viewBox=\"0 0 ");
    push_int(&mut head, svg_w);
    push_str(&mut head, " ");
    push_int(&mut head, svg_h);
    push_str(&mut head, "\">");
    push_part(&mut parts, head.as_str());
    push_part(&mut parts, "<defs>");
    push_part(
        &mut parts,
        "  <marker id=\"arrowhead\" markerWidth=\"10\" markerHeight=\"7\" refX=\"10\" refY=\"3.5\" orient=\"auto\">",
    );
    push_part(&mut parts, "    <polygon points=\"0 0, 10 3.5, 0 7\" fill=\"black\"/>");
    push_part(&mut parts, "  </marker>");
    push_part(
        &mut parts,
        "  <marker id=\"arrowhead-rev\" markerWidth=\"10\" markerHeight=\"7\" refX=\"0\" refY=\"3.5\" orient=\"auto\">",
    );
    push_part(&mut parts, "    <polygon points=\"10 0, 0 3.5, 10 7\" fill=\"black\"/>");
    push_part(&mut parts, "  </marker>");
    push_part(&mut parts, "</defs>");
    let mut bg = String::new();
    push_str(&mut bg, "<rect width=\"");
    push_int(&mut bg, svg_w);
    push_str(&mut bg, "\" height=\"");
    push_int(&mut bg, svg_h);
    push_str(&mut bg, "\" fill=\"white\"/>");
    push_part(&mut parts, bg.as_str());
    let ghost w = svg_width(rects, edges);
    let ghost h = svg_height(rects, edges);
    proof {
        assert(parts@.map_values(|p: String| p@) =~= svg_header(w, h));
    }
    if str_eq(direction, "BT") {
        let mut g = String::new();
        push_str(&mut g, "<g transform=\"translate(0,");
        push_int(&mut g, svg_h);
        push_str(&mut g, ") scale(1,-1)\">");
        push_part(&mut parts, g.as_str());
    } else if str_eq(direction, "RL") {
        let mut g = String::new();
        push_str(&mut g, "<g transform=\"translate(");
        push_int(&mut g, svg_w);
        push_str(&mut g, ",0) scale(-1,1)\">");
        push_part(&mut parts, g.as_str());
    }
    let ghost base = svg_header(w, h) + svg_transform(direction@, w, h);
    proof {
        assert(parts@.map_values(|p: String| p@) =~= base);
    }
    let mut i: usize = 0;
    while i < ir.rects.len()
        invariant
            i <= rects.len(),
            rects == ir.rects@,
            parts@.map_values(|p: String| p@) == base + rect_parts(rects.take(i as int), true),
        decreases rects.len() - i,
    {
        let r = &ir.rects[i];
        proof {
            assert(rects.take(i + 1).drop_last() =~= rects.take(i as int));
        }
        let ghost before = parts@.map_values(|p: String| p@);
        proof {
            assert(rects.take(i + 1).last() == rects[i as int]);
        }
        if str_eq(r.shape.as_str(), "Container") {
            let t = render_rect(r);
            parts.push(t);
            proof {
                assert(parts@.map_values(|p: String| p@) =~= before.push(t@));
            }
        }
        proof {
            assert(parts@.map_values(|p: String| p@) =~= base + rect_parts(rects.take(i + 1), true));
        }
        i = i + 1;
    }
    proof {
        assert(rects.take(rects.len() as int) =~= rects);
    }
    let ghost base2 = base + rect_parts(rects, true);
    let mut k: usize = 0;
    while k < ir.edges.len()
        invariant
            k <= edges.len(),
            edges == ir.edges@,
            parts@.map_values(|p: String| p@) == base2 + edge_parts(edges.take(k as int)),
        decreases edges.len() - k,
    {
        proof {
            assert(edges.take(k + 1).drop_last() =~= edges.take(k as int));
        }
        let ghost before = parts@.map_values(|p: String| p@);
        proof {
            assert(edges.take(k + 1).last() == edges[k as int]);
        }
        let t = render_edge(&ir.edges[k]);
        if !str_eq(t.as_str(), "") {
            proof {
                reveal_strlit("");
                if t@.len() == 0 {
                    assert(t@ =~= ""@);
                }
            }
            parts.push(t);
            proof {
                assert(parts@.map_values(|p: String| p@) =~= before.push(t@));
            }
        } else {
            proof {
                reveal_strlit("");
            }
        }
        proof {
            assert(parts@.map_values(|p: String| p@) =~= base2 + edge_parts(edges.take(k + 1)));
        }
        k = k + 1;
    }
    proof {
        assert(edges.take(edges.len() as int) =~= edges);
    }
    let ghost base3 = base2 + edge_parts(edges);
    let mut i: usize = 0;
    while i < ir.rects.len()
        invariant
            i <= rects.len(),
            rects == ir.rects@,
            parts@.map_values(|p: String| p@) == base3 + rect_parts(rects.take(i as int), false),
        decreases rects.len() - i,
    {
        let r = &ir.rects[i];
        proof {
            assert(rects.take(i + 1).drop_last() =~= rects.take(i as int));
        }
        let ghost before = parts@.map_values(|p: String| p@);
        proof {
            assert(rects.take(i + 1).last() == rects[i as int]);
        }
        if !str_eq(r.shape.as_str(), "Container") {
            let t = render_rect(r);
            parts.push(t);
            proof {
                assert(parts@.map_values(|p: String| p@) =~= before.push(t@));
            }
        }
        proof {
            assert(parts@.map_values(|p: String| p@) =~= base3 + rect_parts(rects.take(i + 1), false));
        }
        i = i + 1;
    }
    proof {
        assert(rects.take(rects.len() as int) =~= rects);
    }
    if str_eq(direction, "BT") || str_eq(direction, "RL") {
        push_part(&mut parts, "</g>");
    }
    push_part(&mut parts, "</svg>");
    proof {
        assert(parts@.map_values(|p: String| p@) =~= svg_lines(rects, edges, direction@));
    }
    join_strings(&parts, "\n")
}

/// The start of an edge's polyline, up to its markers.
pub open spec fn polyline_head(w: Seq<(i32, i32)>, et: Seq<char>) -> Seq<char> {
    "<polyline points=\""@ + points_text(w) + "\" fill=\"none\" stroke=\"black\" stroke-width=\"1.5\" "@
        + stroke_text(et)
}

/// An edge of two or more points is a polyline whose markers follow its
/// style: the edge types `Arrow`, `DottedArrow`, `ThickArrow`,
/// `BidirArrow`, `BidirDotted` and `BidirThick` end in the arrowhead marker
/// and no other type does; of these, exactly the three two-way types also
/// carry the reversed arrowhead at their start.
pub proof fn lemma_edge_markers(w: Seq<(i32, i32)>, et: Seq<char>, label: Seq<char>)
    requires
        w.len() >= 2,
    ensures
        polyline_head(w, et).is_prefix_of(edge_svg_text(w, et, label)),
        (et == "Arrow"@ || et == "DottedArrow"@ || et == "ThickArrow"@ || et == "BidirArrow"@ || et == "BidirDotted"@
            || et == "BidirThick"@) <==> " marker-end=\"url(#arrowhead)\""@.is_prefix_of(
            edge_svg_text(w, et, label).skip(polyline_head(w, et).len() as int),
        ),
        (et == "BidirArrow"@ || et == "BidirDotted"@ || et == "BidirThick"@) <==> (" marker-end=\"url(#arrowhead)\""@
            + " marker-start=\"url(#arrowhead-rev)\""@).is_prefix_of(
            edge_svg_text(w, et, label).skip(polyline_head(w, et).len() as int),
        ),
{
    let head = polyline_head(w, et);
    let t = edge_svg_text(w, et, label);
    let endm = " marker-end=\"url(#arrowhead)\""@;
    let startm = " marker-start=\"url(#arrowhead-rev)\""@;
    let close = "/>"@;
    reveal_strlit(" marker-end=\"url(#arrowhead)\"");
    reveal_strlit(" marker-start=\"url(#arrowhead-rev)\"");
    reveal_strlit("/>");
    let markers = (if arrow_type(et) {
        endm
    } else {
        seq![]
    }) + (if bidir_type(et) {
        startm
    } else {
        seq![]
    });
    let line = head + markers + close;
    let tail = t.skip(line.len() as int);
    assert(line.is_prefix_of(t));
    assert(t =~= line + tail);
    let rest = t.skip(head.len() as int);
    assert(rest =~= markers + close + tail);
    assert(head.is_prefix_of(t)) by {
        assert(t.subrange(0, head.len() as int) =~= head);
    }
    if arrow_type(et) {
        assert(rest.subrange(0, endm.len() as int) =~= endm);
        if bidir_type(et) {
            assert(rest.subrange(0, (endm + startm).len() as int) =~= endm + startm);
        } else {
            assert(rest[endm.len() as int] == '/');
            assert((endm + startm)[endm.len() as int] == ' ');
        }
    } else {
        assert(rest[0] == '/');
        assert(endm[0] == ' ');
        assert((endm + startm)[0] == ' ');
    }
}

/// The start of an edge's polyline, up to its style.
pub open spec fn polyline_base(w: Seq<(i32, i32)>) -> Seq<char> {
    "<polyline points=\""@ + points_text(w) + "\" fill=\"none\" stroke=\"black\" stroke-width=\"1.5\" "@
}

/// An edge of two or more points is drawn dashed exactly when its type is
/// `DottedArrow`, `DottedLine` or `BidirDotted`, and three pixels wide
/// exactly when its type is `ThickArrow`, `ThickLine` or `BidirThick`.
pub proof fn lemma_edge_stroke(w: Seq<(i32, i32)>, et: Seq<char>, label: Seq<char>)
    requires
        w.len() >= 2,
    ensures
        polyline_base(w).is_prefix_of(edge_svg_text(w, et, label)),
        (et == "DottedArrow"@ || et == "DottedLine"@ || et == "BidirDotted"@) <==> "stroke-dasharray=\"6 4\""@.is_prefix_of(
            edge_svg_text(w, et, label).skip(polyline_base(w).len() as int),
        ),
        (et == "ThickArrow"@ || et == "ThickLine"@ || et == "BidirThick"@) <==> "stroke-width=\"3\""@.is_prefix_of(
            edge_svg_text(w, et, label).skip(polyline_base(w).len() as int),
        ),
{
    let base = polyline_base(w);
    let t = edge_svg_text(w, et, label);
    let dash = "stroke-dasharray=\"6 4\""@;
    let thick = "stroke-width=\"3\""@;
    let endm = " marker-end=\"url(#arrowhead)\""@;
    let startm = " marker-start=\"url(#arrowhead-rev)\""@;
    let close = "/>"@;
    reveal_strlit("stroke-dasharray=\"6 4\"");
    reveal_strlit("stroke-width=\"3\"");
    reveal_strlit(" marker-end=\"url(#arrowhead)\"");
    reveal_strlit(" marker-start=\"url(#arrowhead-rev)\"");
    reveal_strlit("/>");
    reveal_strlit("DottedArrow");
    reveal_strlit("DottedLine");
    reveal_strlit("BidirDotted");
    reveal_strlit("ThickArrow");
    reveal_strlit("ThickLine");
    reveal_strlit("BidirThick");
    let markers = (if arrow_type(et) {
        endm
    } else {
        seq![]
    }) + (if bidir_type(et) {
        startm
    } else {
        seq![]
    });
    let st = stroke_text(et);
    let line = base + st + markers + close;
    let tail = t.skip(line.len() as int);
    assert(t =~= line + tail);
    let rest = t.skip(base.len() as int);
    assert(rest =~= st + markers + close + tail);
    assert(t.subrange(0, base.len() as int) =~= base);
    assert(markers.len() == 0 || markers[0] == ' ');
    let after = markers + close + tail;
    assert(after[0] == ' ' || after[0] == '/');
    if et == "DottedArrow"@ || et == "DottedLine"@ || et == "BidirDotted"@ {
        assert(et[0] == 'D' || et[5] == 'D');
        assert("ThickArrow"@[0] == 'T' && "ThickLine"@[0] == 'T' && "BidirThick"@[0] == 'B' && "BidirThick"@[5] == 'T');
        assert(!(et == "ThickArrow"@ || et == "ThickLine"@ || et == "BidirThick"@));
        assert(st == dash);
        assert(rest.subrange(0, dash.len() as int) =~= dash);
        assert(rest[7] == 'd' && thick[7] == 'w');
        assert(!thick.is_prefix_of(rest)) by {
            if thick.is_prefix_of(rest) {
                assert(rest.subrange(0, thick.len() as int)[7] == rest[7]);
            }
        }
    } else if et == "ThickArrow"@ || et == "ThickLine"@ || et == "BidirThick"@ {
        assert(st == thick);
        assert(rest.subrange(0, thick.len() as int) =~= thick);
        assert(rest[7] == 'w' && dash[7] == 'd');
        assert(!dash.is_prefix_of(rest)) by {
            if dash.is_prefix_of(rest) {
                assert(rest.subrange(0, dash.len() as int)[7] == rest[7]);
            }
        }
    } else {
        assert(st.len() == 0);
        assert(rest[0] == after[0]);
        assert(dash[0] == 's' && thick[0] == 's');
        assert(!dash.is_prefix_of(rest)) by {
            if dash.is_prefix_of(rest) {
                assert(rest.subrange(0, dash.len() as int)[0] == rest[0]);
            }
        }
        assert(!thick.is_prefix_of(rest)) by {
            if thick.is_prefix_of(rest) {
                assert(rest.subrange(0, thick.len() as int)[0] == rest[0]);
            }
        }
    }
}

} // verus!
