# mermaid_ascii

A verified library for drawing flowchart diagrams as text and SVG.

- `parser` reads the diagram language line by line into a `Diagram`
  (`ast`); `graph` turns a diagram into a petgraph-backed `GraphIR`.
- `layout` removes cycles with the greedy feedback-arc-set rule, assigns
  longest-path layers and breaks long edges with dummy nodes.
- `render` paints boxes, edges and subgraph borders on a character
  `Canvas` (Unicode or ASCII); `svg_renderer` writes a layout as SVG;
  `drawing` holds the small lookups between the two.
- `keyed_graph`, `layout_graph`, `layout_state`, `path_state` and
  `grid_data` are the graph and state helpers the layout phases work with;
  `fas` and `crossing_symmetry` hold proofs about the feedback-arc-set
  counts and about edge crossings.

The library's own functions carry contracts that Verus proves. The calls
into petgraph, and one call into `String::push`, go through small trusted
wrappers (`#[verifier::external_body]`) in `pgraph`, `keyed_graph`,
`layout_graph` and `text`: their contracts are believed, not proved, and
each states only what petgraph's source shows (a node's neighbours as a
multiset, a topological order by its defining property). `app/` is the
command-line front end.
