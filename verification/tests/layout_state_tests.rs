use mermaid_ascii::keyed_graph::{graph_add_edge, graph_new};
use mermaid_ascii::layout_state::{
    deg_map_copy, deg_map_dec, deg_map_get, deg_map_max, deg_map_new, deg_map_set, deg_map_sorted_keys, edge_pair_list_add,
    edge_pair_list_contains, edge_pair_list_new, fas_best_node, fas_sinks, fas_sources, gw_edges_full, gw_node_label,
    gw_node_shape, int_list_get, int_list_new, int_list_push, int_list_set, mgraph_add_edge_full, mgraph_add_node_full,
    mgraph_build, mgraph_new, nll_id_to_index, nll_new, nll_push, node_set_contains, node_set_from_str_list,
    node_set_len, node_set_remove, ordering_count_crossings, ordering_get_layer, ordering_layer_count, ordering_new,
    ordering_push, pos_map_from_str_list, pos_map_get, str_list_extend_reversed, str_starts_with,
};

fn strs(v: &[&str]) -> Vec<String> {
    v.iter().map(|s| s.to_string()).collect()
}

fn sample_deg_map() -> mermaid_ascii::layout_state::DegMap {
    let dm = deg_map_set(deg_map_new(), "A".to_string(), 2);
    deg_map_set(dm, "B".to_string(), 5)
}

#[test]
fn deg_map_set_get_dec_max() {
    assert_eq!(deg_map_get(sample_deg_map(), "A".to_string()), 2);
    let dm = deg_map_dec(sample_deg_map(), "A".to_string());
    assert_eq!(deg_map_get(dm, "A".to_string()), 1);
    let dm = deg_map_dec(sample_deg_map(), "missing".to_string());
    assert_eq!(deg_map_get(dm, "missing".to_string()), 0);
    assert_eq!(deg_map_max(sample_deg_map()), 5);
    assert_eq!(deg_map_max(deg_map_new()), 0);
    assert_eq!(deg_map_sorted_keys(deg_map_copy(sample_deg_map())), strs(&["A", "B"]));
}

#[test]
fn deg_map_dec_stops_at_zero() {
    let dm = deg_map_set(deg_map_new(), "Z".to_string(), 0);
    let dm = deg_map_dec(dm, "Z".to_string());
    assert_eq!(deg_map_get(dm, "Z".to_string()), 0);
}

#[test]
fn node_set_ops() {
    let list = strs(&["A", "B", "A"]);
    assert_eq!(node_set_len(node_set_from_str_list(&list)), 2);
    let ns = node_set_remove(node_set_from_str_list(&list), "A".to_string());
    assert!(!node_set_contains(ns, "A".to_string()));
    let ns = node_set_remove(node_set_from_str_list(&list), "A".to_string());
    assert!(node_set_contains(ns, "B".to_string()));
    let ns = node_set_remove(node_set_from_str_list(&list), "A".to_string());
    assert_eq!(node_set_len(ns), 1);
}

#[test]
fn fas_helpers_pick_nodes() {
    let active = node_set_from_str_list(&strs(&["A", "B", "C"]));
    let out = deg_map_set(deg_map_set(deg_map_new(), "A".to_string(), 1), "B".to_string(), 3);
    let inn = deg_map_set(deg_map_set(deg_map_new(), "B".to_string(), 1), "A".to_string(), 2);
    assert_eq!(fas_best_node(&active, &out, &inn), "B");
    assert_eq!(fas_sinks(&active, &out), strs(&["C"]));
    assert_eq!(fas_sources(&active, &inn), strs(&["C"]));
    let none = node_set_from_str_list(&vec![]);
    assert_eq!(fas_best_node(&none, &out, &inn), "");
}

#[test]
fn fas_best_node_takes_the_first_of_equal_scores() {
    let active = node_set_from_str_list(&strs(&["A", "B", "C"]));
    let out = deg_map_set(deg_map_set(deg_map_new(), "B".to_string(), 2), "C".to_string(), 2);
    let inn = deg_map_new();
    assert_eq!(fas_best_node(&active, &out, &inn), "B");
}

#[test]
fn str_and_pair_lists() {
    let mut dst = strs(&["x"]);
    str_list_extend_reversed(&mut dst, &strs(&["a", "b", "c"]));
    assert_eq!(dst, strs(&["x", "c", "b", "a"]));
    let mut epl = edge_pair_list_new();
    edge_pair_list_add(&mut epl, "A".to_string(), "B".to_string());
    assert!(edge_pair_list_contains(&epl, "A".to_string(), "B".to_string()));
    assert!(!edge_pair_list_contains(&epl, "B".to_string(), "A".to_string()));
    assert!(str_starts_with("__dummy_1".to_string(), "__dummy".to_string()));
    assert!(!str_starts_with("du".to_string(), "dummy".to_string()));
}

#[test]
fn pos_map_positions() {
    let pm = pos_map_from_str_list(&strs(&["P", "Q", "R"]));
    assert_eq!(pos_map_get(&pm, "R".to_string()), 2);
    assert_eq!(pos_map_get(&pm, "P".to_string()), 0);
    assert_eq!(pos_map_get(&pm, "nope".to_string()), -1);
}

#[test]
fn mgraph_and_views() {
    let mut mg = mgraph_new();
    mgraph_add_node_full(&mut mg, "A".to_string(), "Alpha".to_string(), "Diamond".to_string());
    mgraph_add_edge_full(&mut mg, "A".to_string(), "B".to_string(), "Arrow".to_string(), "".to_string());
    mgraph_add_edge_full(&mut mg, "B".to_string(), "C".to_string(), "Line".to_string(), "go".to_string());
    let g = mgraph_build(&mg);
    assert_eq!(gw_node_label(&g, "A".to_string()), "Alpha");
    assert_eq!(gw_node_label(&g, "Q".to_string()), "Q");
    assert_eq!(gw_node_shape(&g, "A".to_string()), "Diamond");
    assert_eq!(gw_node_shape(&g, "Q".to_string()), "Rectangle");
    let edges = gw_edges_full(&g);
    assert_eq!(
        edges,
        vec![
            ("A".to_string(), "B".to_string(), "Arrow".to_string(), "".to_string()),
            ("B".to_string(), "C".to_string(), "Line".to_string(), "go".to_string()),
        ]
    );
}

#[test]
fn ordering_crossings_counted() {
    let mut g = graph_new();
    graph_add_edge(&mut g, "A", "D", "Arrow", None);
    graph_add_edge(&mut g, "B", "C", "Arrow", None);
    let mut ol = ordering_new(2);
    assert_eq!(ordering_layer_count(&ol), 2);
    ordering_push(&mut ol, 0, "A".to_string());
    ordering_push(&mut ol, 0, "B".to_string());
    ordering_push(&mut ol, 1, "C".to_string());
    ordering_push(&mut ol, 1, "D".to_string());
    assert_eq!(ordering_get_layer(&ol, 1), strs(&["C", "D"]));
    assert_eq!(ordering_count_crossings(&ol, &g), 1);

    let mut g2 = graph_new();
    graph_add_edge(&mut g2, "A", "C", "Arrow", None);
    graph_add_edge(&mut g2, "B", "D", "Arrow", None);
    assert_eq!(ordering_count_crossings(&ol, &g2), 0);
}

#[test]
fn node_layout_lookup() {
    let mut nl = nll_new();
    nll_push(&mut nl, "A".to_string(), 0, 0, 1, 2, 5, 3, "A".to_string(), "Rectangle".to_string());
    nll_push(&mut nl, "B".to_string(), 1, 0, 1, 8, 5, 3, "B".to_string(), "Rounded".to_string());
    assert_eq!(nll_id_to_index(&nl, "B".to_string()), 1);
    assert_eq!(nll_id_to_index(&nl, "Z".to_string()), -1);
}

#[test]
fn int_list_ops() {
    let mut il = int_list_new();
    int_list_push(&mut il, 4);
    int_list_push(&mut il, 9);
    int_list_set(&mut il, 0, 7);
    assert_eq!(int_list_get(&il, 0), 7);
    assert_eq!(int_list_get(&il, 1), 9);
}

#[test]
fn ordering_crossings_unchanged_by_reversing_layers() {
    let mut g = graph_new();
    graph_add_edge(&mut g, "A", "E", "Arrow", None);
    graph_add_edge(&mut g, "B", "D", "Arrow", None);
    graph_add_edge(&mut g, "C", "D", "Arrow", None);
    graph_add_edge(&mut g, "A", "F", "Arrow", None);
    let layers = [vec!["A", "B", "C"], vec!["D", "E", "F"]];
    let mut ol = ordering_new(2);
    let mut rev = ordering_new(2);
    for (i, layer) in layers.iter().enumerate() {
        for id in layer {
            ordering_push(&mut ol, i as i32, id.to_string());
        }
        for id in layer.iter().rev() {
            ordering_push(&mut rev, i as i32, id.to_string());
        }
    }
    let c = ordering_count_crossings(&ol, &g);
    assert_eq!(c, 4);
    assert_eq!(ordering_count_crossings(&rev, &g), c);
}
