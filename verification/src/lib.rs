pub mod grid_data;
pub mod text;
pub mod path_state;
pub mod ast;
pub mod graph;
pub mod pgraph;
pub mod fas;
pub mod layout;
pub mod keyed;
pub mod keyed_graph;
pub mod layout_state;
pub mod render;
pub mod layout_graph;
pub mod svg_renderer;
pub mod drawing;
pub mod parser;
pub mod crossing_symmetry;
