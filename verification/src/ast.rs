//! The syntax tree of a diagram: nodes, edges and (nested) subgraphs.
use vstd::prelude::*;
use crate::text::str_eq;

verus! {

/// Layout direction of a diagram.
#[derive(Clone, Copy, Debug, PartialEq, Eq, Structural)]
pub enum Direction {
    /// Top to bottom (the default).
    TD,
    /// Left to right.
    LR,
    /// Right to left.
    RL,
    /// Bottom to top.
    BT,
}

/// The outline of a node box.
#[derive(Clone, Copy, Debug, PartialEq, Eq, Structural)]
pub enum NodeShape {
    Rectangle,
    Rounded,
    Diamond,
    Circle,
}

/// The line style and arrowheads of an edge.
#[derive(Clone, Copy, Debug, PartialEq, Eq, Structural)]
pub enum EdgeType {
    Arrow,
    Line,
    BackArrow,
    BidirArrow,
    ThickArrow,
    DoubleLine,
    DottedArrow,
    DottedLine,
    ThickLine,
    BidirDotted,
    BidirThick,
}

/// The name of a shape, as written in diagrams and reports.
pub open spec fn shape_name(s: NodeShape) -> Seq<char> {
    match s {
        NodeShape::Rectangle => "Rectangle"@,
        NodeShape::Rounded => "Rounded"@,
        NodeShape::Diamond => "Diamond"@,
        NodeShape::Circle => "Circle"@,
    }
}

/// The shape with the given name; any other name means a rectangle.
pub open spec fn shape_from_name(n: Seq<char>) -> NodeShape {
    if n == "Rounded"@ {
        NodeShape::Rounded
    } else if n == "Diamond"@ {
        NodeShape::Diamond
    } else if n == "Circle"@ {
        NodeShape::Circle
    } else {
        NodeShape::Rectangle
    }
}

/// The name of an edge type.
pub open spec fn edge_type_name(t: EdgeType) -> Seq<char> {
    match t {
        EdgeType::Arrow => "Arrow"@,
        EdgeType::Line => "Line"@,
        EdgeType::BackArrow => "BackArrow"@,
        EdgeType::BidirArrow => "BidirArrow"@,
        EdgeType::ThickArrow => "ThickArrow"@,
        EdgeType::DoubleLine => "DoubleLine"@,
        EdgeType::DottedArrow => "DottedArrow"@,
        EdgeType::DottedLine => "DottedLine"@,
        EdgeType::ThickLine => "ThickLine"@,
        EdgeType::BidirDotted => "BidirDotted"@,
        EdgeType::BidirThick => "BidirThick"@,
    }
}

/// The edge type with the given name; any other name means a plain arrow.
pub open spec fn edge_type_from_name(n: Seq<char>) -> EdgeType {
    if n == "Line"@ {
        EdgeType::Line
    } else if n == "BackArrow"@ {
        EdgeType::BackArrow
    } else if n == "BidirArrow"@ {
        EdgeType::BidirArrow
    } else if n == "ThickArrow"@ {
        EdgeType::ThickArrow
    } else if n == "DoubleLine"@ {
        EdgeType::DoubleLine
    } else if n == "DottedArrow"@ {
        EdgeType::DottedArrow
    } else if n == "DottedLine"@ {
        EdgeType::DottedLine
    } else if n == "ThickLine"@ {
        EdgeType::ThickLine
    } else if n == "BidirDotted"@ {
        EdgeType::BidirDotted
    } else if n == "BidirThick"@ {
        EdgeType::BidirThick
    } else {
        EdgeType::Arrow
    }
}

impl NodeShape {
    /// The shape's name.
    pub fn name(&self) -> (s: String)
        ensures
            s@ == shape_name(*self),
    {
        match self {
            NodeShape::Rectangle => {
                proof {
                    reveal_strlit("Rectangle");
                }
                String::from_str("Rectangle")
            },
            NodeShape::Rounded => {
                proof {
                    reveal_strlit("Rounded");
                }
                String::from_str("Rounded")
            },
            NodeShape::Diamond => {
                proof {
                    reveal_strlit("Diamond");
                }
                String::from_str("Diamond")
            },
            NodeShape::Circle => {
                proof {
                    reveal_strlit("Circle");
                }
                String::from_str("Circle")
            },
        }
    }

    /// The shape named `n` (a rectangle for any unknown name).
    pub fn from_name(n: &str) -> (s: NodeShape)
        ensures
            s == shape_from_name(n@),
    {
        if str_eq(n, "Rounded") {
            NodeShape::Rounded
        } else if str_eq(n, "Diamond") {
            NodeShape::Diamond
        } else if str_eq(n, "Circle") {
            NodeShape::Circle
        } else {
            NodeShape::Rectangle
        }
    }
}

impl EdgeType {
    /// The edge type's name.
    pub fn name(&self) -> (s: String)
        ensures
            s@ == edge_type_name(*self),
    {
        let lit: &str = match self {
            EdgeType::Arrow => "Arrow",
            EdgeType::Line => "Line",
            EdgeType::BackArrow => "BackArrow",
            EdgeType::BidirArrow => "BidirArrow",
            EdgeType::ThickArrow => "ThickArrow",
            EdgeType::DoubleLine => "DoubleLine",
            EdgeType::DottedArrow => "DottedArrow",
            EdgeType::DottedLine => "DottedLine",
            EdgeType::ThickLine => "ThickLine",
            EdgeType::BidirDotted => "BidirDotted",
            EdgeType::BidirThick => "BidirThick",
        };
        String::from_str(lit)
    }

    /// The edge type named `n` (a plain arrow for any unknown name).
    pub fn from_name(n: &str) -> (t: EdgeType)
        ensures
            t == edge_type_from_name(n@),
    {
        if str_eq(n, "Line") {
            EdgeType::Line
        } else if str_eq(n, "BackArrow") {
            EdgeType::BackArrow
        } else if str_eq(n, "BidirArrow") {
            EdgeType::BidirArrow
        } else if str_eq(n, "ThickArrow") {
            EdgeType::ThickArrow
        } else if str_eq(n, "DoubleLine") {
            EdgeType::DoubleLine
        } else if str_eq(n, "DottedArrow") {
            EdgeType::DottedArrow
        } else if str_eq(n, "DottedLine") {
            EdgeType::DottedLine
        } else if str_eq(n, "ThickLine") {
            EdgeType::ThickLine
        } else if str_eq(n, "BidirDotted") {
            EdgeType::BidirDotted
        } else if str_eq(n, "BidirThick") {
            EdgeType::BidirThick
        } else {
            EdgeType::Arrow
        }
    }
}

/// A `key: value` attribute.
#[derive(Debug)]
pub struct Attr {
    pub key: String,
    pub value: String,
}

impl Clone for Attr {
    fn clone(&self) -> (r: Self)
        ensures
            r == *self,
    {
        Attr { key: self.key.clone(), value: self.value.clone() }
    }
}

/// A node of the diagram.
#[derive(Debug)]
pub struct Node {
    /// Unique identifier.
    pub id: String,
    /// Display text (may contain `\n`).
    pub label: String,
    pub shape: NodeShape,
    pub attrs: Vec<Attr>,
}

impl Clone for Node {
    fn clone(&self) -> (r: Self)
        ensures
            r.id == self.id,
            r.label == self.label,
            r.shape == self.shape,
            r.attrs@ == self.attrs@,
    {
        Node {
            id: self.id.clone(),
            label: self.label.clone(),
            shape: self.shape,
            attrs: clone_attrs(&self.attrs),
        }
    }
}

/// A copy of an attribute list.
pub fn clone_attrs(v: &Vec<Attr>) -> (r: Vec<Attr>)
    ensures
        r@ == v@,
{
    let r = v.clone();
    assert(r@ =~= v@);
    r
}

impl Node {
    /// A node whose id is its label.
    pub fn new(label: String, shape: NodeShape) -> (n: Node)
        ensures
            n.id == label,
            n.label == label,
            n.shape == shape,
            n.attrs@.len() == 0,
    {
        Node { id: label.clone(), label, shape, attrs: Vec::new() }
    }
}

/// A directed edge between two node ids.
#[derive(Debug)]
pub struct Edge {
    pub from: String,
    pub to: String,
    pub edge_type: EdgeType,
    pub label: Option<String>,
    pub attrs: Vec<Attr>,
}

impl Clone for Edge {
    fn clone(&self) -> (r: Self)
        ensures
            r.from == self.from,
            r.to == self.to,
            r.edge_type == self.edge_type,
            r.label == self.label,
            r.attrs@ == self.attrs@,
    {
        Edge {
            from: self.from.clone(),
            to: self.to.clone(),
            edge_type: self.edge_type,
            label: match &self.label {
                Some(l) => Some(l.clone()),
                None => None,
            },
            attrs: clone_attrs(&self.attrs),
        }
    }
}

/// A named group of nodes and edges (possibly nested).
#[derive(Debug)]
pub struct Subgraph {
    pub name: String,
    pub nodes: Vec<Node>,
    pub edges: Vec<Edge>,
    pub subgraphs: Vec<Subgraph>,
}

impl Subgraph {
    /// An empty subgraph with the given name.
    pub fn new(name: String) -> (sg: Subgraph)
        ensures
            sg.name == name,
            sg.nodes@.len() == 0,
            sg.edges@.len() == 0,
            sg.subgraphs@.len() == 0,
    {
        Subgraph { name, nodes: Vec::new(), edges: Vec::new(), subgraphs: Vec::new() }
    }
}

/// A whole diagram.
#[derive(Debug)]
pub struct Diagram {
    pub nodes: Vec<Node>,
    pub edges: Vec<Edge>,
    pub subgraphs: Vec<Subgraph>,
    pub direction: Direction,
}

impl Diagram {
    /// An empty top-down diagram.
    pub fn new() -> (g: Diagram)
        ensures
            g.nodes@.len() == 0,
            g.edges@.len() == 0,
            g.subgraphs@.len() == 0,
            g.direction == Direction::TD,
    {
        Diagram { nodes: Vec::new(), edges: Vec::new(), subgraphs: Vec::new(), direction: Direction::TD }
    }
}

} // verus!
