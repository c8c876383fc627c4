//! What the drawing takes from a diagram: the shape and label of a node by
//! id, a direction given by name, and routed edges with their ends pulled in
//! by one cell for SVG markers.
use vstd::prelude::*;
use crate::ast::{Diagram, Direction, Node, NodeShape};
use crate::layout::{LayoutNode, Point, RoutedEdge};
use crate::render::is_compound_id;
use crate::text::{str_eq, str_starts_with_str};

verus! {

/// `nodes[i]` is the first node whose id is `id`.
pub open spec fn first_with_id(nodes: Seq<Node>, id: Seq<char>, i: int) -> bool {
    &&& 0 <= i < nodes.len()
    &&& nodes[i].id@ == id
    &&& forall|j: int| 0 <= j < i ==> nodes[j].id@ != id
}

/// No node has the id `id`.
pub open spec fn no_node_with_id(nodes: Seq<Node>, id: Seq<char>) -> bool {
    forall|j: int| 0 <= j < nodes.len() ==> (#[trigger] nodes[j]).id@ != id
}

/// The index of the first node with id `id`, if any.
fn find_node(nodes: &Vec<Node>, id: &str) -> (r: Option<usize>)
    ensures
        r matches Some(i) ==> first_with_id(nodes@, id@, i as int),
        r is None ==> no_node_with_id(nodes@, id@),
{
    let mut i: usize = 0;
    while i < nodes.len()
        invariant
            i <= nodes@.len(),
            forall|j: int| 0 <= j < i ==> (#[trigger] nodes@[j]).id@ != id@,
        decreases nodes@.len() - i,
    {
        if str_eq(nodes[i].id.as_str(), id) {
            return Some(i);
        }
        i = i + 1;
    }
    None
}

/// The shape of node `id`: that of the first node with this id, a rectangle
/// when there is none.
pub fn shape_of(graph: &Diagram, id: &str) -> (s: NodeShape)
    ensures
        forall|i: int| first_with_id(graph.nodes@, id@, i) ==> s == graph.nodes@[i].shape,
        no_node_with_id(graph.nodes@, id@) ==> s == NodeShape::Rectangle,
{
    match find_node(&graph.nodes, id) {
        Some(i) => graph.nodes[i].shape,
        None => NodeShape::Rectangle,
    }
}

/// The text shown for node `id`: the label of the first node with this id,
/// or its id when that label is empty; `id` itself when there is no such node.
pub fn label_of(graph: &Diagram, id: &str) -> (l: String)
    ensures
        forall|i: int|
            first_with_id(graph.nodes@, id@, i) ==> l@ == (if graph.nodes@[i].label@.len() > 0 {
                graph.nodes@[i].label@
            } else {
                graph.nodes@[i].id@
            }),
        no_node_with_id(graph.nodes@, id@) ==> l@ == id@,
{
    match find_node(&graph.nodes, id) {
        Some(i) => {
            if graph.nodes[i].label.as_str().unicode_len() > 0 {
                graph.nodes[i].label.clone()
            } else {
                graph.nodes[i].id.clone()
            }
        },
        None => String::from_str(id),
    }
}

/// A direction given by name: `TD`, `TB` (either case) are top-down, `LR`
/// (either case) is left to right; anything else is none.
pub fn dir_from_str(s: &str) -> (d: Option<Direction>)
    ensures
        d == (if s@ == "TD"@ || s@ == "td"@ || s@ == "TB"@ || s@ == "tb"@ {
            Some(Direction::TD)
        } else if s@ == "LR"@ || s@ == "lr"@ {
            Some(Direction::LR)
        } else {
            None
        }),
{
    if str_eq(s, "TD") || str_eq(s, "td") || str_eq(s, "TB") || str_eq(s, "tb") {
        Some(Direction::TD)
    } else if str_eq(s, "LR") || str_eq(s, "lr") {
        Some(Direction::LR)
    } else {
        None
    }
}

/// Whether `id` names a subgraph container (it starts with `__sg_`).
pub fn is_compound(id: &str) -> (r: bool)
    ensures
        r == is_compound_id(id@),
{
    str_starts_with_str(id, "__sg_")
}

/// -1, 0 or 1 by the sign of `v`.
pub open spec fn signum(v: int) -> int {
    if v < 0 {
        -1
    } else if v > 0 {
        1
    } else {
        0
    }
}

/// One orthogonal cell from `p` toward `t`.
pub open spec fn step_toward(p: Point, t: Point) -> Point {
    Point { x: (p.x + signum(t.x - p.x)) as usize, y: (p.y + signum(t.y - p.y)) as usize }
}

/// One orthogonal cell from `p` toward `toward`.
pub fn step_one(p: &Point, toward: &Point) -> (r: Point)
    ensures
        r == step_toward(*p, *toward),
        r.x == p.x + signum(toward.x - p.x),
        r.y == p.y + signum(toward.y - p.y),
{
    let x = if toward.x < p.x {
        p.x - 1
    } else if toward.x > p.x {
        p.x + 1
    } else {
        p.x
    };
    let y = if toward.y < p.y {
        p.y - 1
    } else if toward.y > p.y {
        p.y + 1
    } else {
        p.y
    };
    Point { x, y }
}

/// The route with its last point moved one cell toward the one before it,
/// or dropped when that is where the step lands.
pub open spec fn trim_target(w: Seq<Point>) -> Seq<Point> {
    if w.len() >= 2 {
        let s = step_toward(w[w.len() - 1], w[w.len() - 2]);
        if s == w[w.len() - 2] {
            w.drop_last()
        } else {
            w.update(w.len() - 1, s)
        }
    } else {
        w
    }
}

/// The route with its first point moved one cell toward the next one, or
/// dropped when that is where the step lands.
pub open spec fn trim_source(w: Seq<Point>) -> Seq<Point> {
    if w.len() >= 2 {
        let s = step_toward(w[0], w[1]);
        if s == w[1] {
            w.drop_first()
        } else {
            w.update(0, s)
        }
    } else {
        w
    }
}

/// Pulls both ends of a route in by one cell, so that SVG markers sit in
/// the gap before the box borders: first the target end, then the source end.
pub fn trim_edge(e: RoutedEdge) -> (r: RoutedEdge)
    ensures
        r.waypoints@ == trim_source(trim_target(e.waypoints@)),
        r.from_id == e.from_id,
        r.to_id == e.to_id,
        r.label == e.label,
        r.edge_type == e.edge_type,
{
    let mut e = e;
    let ghost w0 = e.waypoints@;
    let n = e.waypoints.len();
    if n >= 2 {
        let stepped = step_one(&e.waypoints[n - 1], &e.waypoints[n - 2]);
        if stepped.x == e.waypoints[n - 2].x && stepped.y == e.waypoints[n - 2].y {
            e.waypoints.pop();
            proof {
                assert(e.waypoints@ =~= w0.drop_last());
            }
        } else {
            e.waypoints.set(n - 1, stepped);
        }
    }
    let ghost w1 = e.waypoints@;
    assert(w1 == trim_target(w0));
    let n = e.waypoints.len();
    if n >= 2 {
        let stepped = step_one(&e.waypoints[0], &e.waypoints[1]);
        if stepped.x == e.waypoints[1].x && stepped.y == e.waypoints[1].y {
            e.waypoints.remove(0);
            proof {
                assert(e.waypoints@ =~= w1.drop_first());
            }
        } else {
            e.waypoints.set(0, stepped);
        }
    }
    e
}

// ─── SVG page size ──────────────────────────────────────────────────────────

/// The cell box grown to hold the nodes: right and bottom edge of each.
pub open spec fn node_cells(ext: (nat, nat), nodes: Seq<LayoutNode>) -> (nat, nat)
    decreases nodes.len(),
{
    if nodes.len() == 0 {
        ext
    } else {
        let (w, h) = node_cells(ext, nodes.drop_last());
        let n = nodes.last();
        (vstd::math::max(w as int, n.x + n.width) as nat, vstd::math::max(h as int, n.y + n.height) as nat)
    }
}

/// The cell box grown to hold the points: one cell beyond each.
pub open spec fn point_cells(ext: (nat, nat), w: Seq<Point>) -> (nat, nat)
    decreases w.len(),
{
    if w.len() == 0 {
        ext
    } else {
        let (cw, ch) = point_cells(ext, w.drop_last());
        let p = w.last();
        (vstd::math::max(cw as int, p.x + 1) as nat, vstd::math::max(ch as int, p.y + 1) as nat)
    }
}

/// The cell box grown to hold the waypoints of the routes.
pub open spec fn route_cells(ext: (nat, nat), routed: Seq<RoutedEdge>) -> (nat, nat)
    decreases routed.len(),
{
    if routed.len() == 0 {
        ext
    } else {
        point_cells(route_cells(ext, routed.drop_last()), routed.last().waypoints@)
    }
}

/// The cell box of a drawing: at least one cell, holding every node and
/// every waypoint.
pub open spec fn doc_cells(nodes: Seq<LayoutNode>, routed: Seq<RoutedEdge>) -> (nat, nat) {
    route_cells(node_cells((1, 1), nodes), routed)
}

/// The SVG page size in pixels for a cell box: one spare cell on each side,
/// ten pixels a column and twenty a row, and a margin of twenty pixels.
pub open spec fn page_size(cells: (nat, nat)) -> (nat, nat) {
    (40 + (cells.0 + 2) * 10, 40 + (cells.1 + 2) * 20)
}

/// The SVG page size (width, height) in pixels for the laid-out nodes and
/// routes.
pub fn svg_doc_size(nodes: &[LayoutNode], routed: &[RoutedEdge]) -> (r: (usize, usize))
    requires
        forall|i: int|
            0 <= i < nodes@.len() ==> (#[trigger] nodes@[i]).x + nodes@[i].width <= usize::MAX && nodes@[i].y
                + nodes@[i].height <= usize::MAX,
        forall|i: int, j: int|
            0 <= i < routed@.len() && 0 <= j < routed@[i].waypoints@.len() ==> (
            #[trigger] routed@[i].waypoints@[j]).x + 1 <= usize::MAX && routed@[i].waypoints@[j].y + 1 <= usize::MAX,
        page_size(doc_cells(nodes@, routed@)).0 <= usize::MAX,
        page_size(doc_cells(nodes@, routed@)).1 <= usize::MAX,
    ensures
        r.0 == page_size(doc_cells(nodes@, routed@)).0,
        r.1 == page_size(doc_cells(nodes@, routed@)).1,
{
    let mut w: usize = 1;
    let mut h: usize = 1;
    let mut i: usize = 0;
    while i < nodes.len()
        invariant
            forall|k: int|
                0 <= k < nodes@.len() ==> (#[trigger] nodes@[k]).x + nodes@[k].width <= usize::MAX && nodes@[k].y
                    + nodes@[k].height <= usize::MAX,
            i <= nodes@.len(),
            (w as nat, h as nat) == node_cells((1, 1), nodes@.take(i as int)),
        decreases nodes@.len() - i,
    {
        let n = &nodes[i];
        proof {
            let t1 = nodes@.take(i + 1);
            assert(t1.drop_last() =~= nodes@.take(i as int));
            assert(t1.last() == nodes@[i as int]);
        }
        if n.x + n.width > w {
            w = n.x + n.width;
        }
        if n.y + n.height > h {
            h = n.y + n.height;
        }
        i = i + 1;
    }
    proof {
        assert(nodes@.take(nodes@.len() as int) =~= nodes@);
    }
    let ghost base = node_cells((1, 1), nodes@);
    let mut e: usize = 0;
    while e < routed.len()
        invariant
            forall|a: int, b: int|
                0 <= a < routed@.len() && 0 <= b < routed@[a].waypoints@.len() ==> (
                #[trigger] routed@[a].waypoints@[b]).x + 1 <= usize::MAX && routed@[a].waypoints@[b].y + 1
                    <= usize::MAX,
            e <= routed@.len(),
            (w as nat, h as nat) == route_cells(base, routed@.take(e as int)),
        decreases routed@.len() - e,
    {
        let re = &routed[e];
        let ghost start = (w as nat, h as nat);
        let mut j: usize = 0;
        while j < re.waypoints.len()
            invariant
                forall|a: int, b: int|
                    0 <= a < routed@.len() && 0 <= b < routed@[a].waypoints@.len() ==> (
                    #[trigger] routed@[a].waypoints@[b]).x + 1 <= usize::MAX && routed@[a].waypoints@[b].y + 1
                        <= usize::MAX,
                e < routed@.len(),
                *re == routed@[e as int],
                j <= re.waypoints@.len(),
                (w as nat, h as nat) == point_cells(start, re.waypoints@.take(j as int)),
            decreases re.waypoints@.len() - j,
        {
            let p = re.waypoints[j];
            proof {
                let t1 = re.waypoints@.take(j + 1);
                assert(t1.drop_last() =~= re.waypoints@.take(j as int));
                assert(t1.last() == re.waypoints@[j as int]);
                assert(routed@[e as int].waypoints@[j as int] == p);
            }
            if p.x + 1 > w {
                w = p.x + 1;
            }
            if p.y + 1 > h {
                h = p.y + 1;
            }
            j = j + 1;
        }
        proof {
            assert(re.waypoints@.take(re.waypoints@.len() as int) =~= re.waypoints@);
            let t1 = routed@.take(e + 1);
            assert(t1.drop_last() =~= routed@.take(e as int));
            assert(t1.last() == routed@[e as int]);
        }
        e = e + 1;
    }
    proof {
        assert(routed@.take(routed@.len() as int) =~= routed@);
    }
    (40 + (w + 2) * 10, 40 + (h + 2) * 20)
}

} // verus!
