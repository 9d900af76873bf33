use lau_spectral_graph_agent::Graph;

#[test]
fn test_star_graph() {
    let g = Graph::star(5, 1.0);
    assert_eq!(g.edges[0].len(), 4); // center has degree 4
    for i in 1..5 {
        assert_eq!(g.edges[i].len(), 1); // leaves have degree 1
    }
}

#[test]
fn new_graph_has_no_edges() {
    let g: Graph<f64> = Graph::new(3);
    assert_eq!(g.n, 3);
    assert_eq!(g.edges.len(), 3);
    assert_eq!(g.num_edges(), 0);
    assert!(!g.has_edge(0, 1));
}

#[test]
fn add_edge_stores_both_directions() {
    let mut g = Graph::new(3);
    g.add_edge(0, 1, 2.5);
    g.add_edge(1, 2, 1.0);
    assert_eq!(g.edges[0], vec![(1, 2.5)]);
    assert_eq!(g.edges[1], vec![(0, 2.5), (2, 1.0)]);
    assert_eq!(g.edges[2], vec![(1, 1.0)]);
    assert!(g.has_edge(0, 1) && g.has_edge(1, 0));
    assert!(g.has_edge(1, 2) && g.has_edge(2, 1));
    assert!(!g.has_edge(0, 2) && !g.has_edge(2, 0));
    assert_eq!(g.num_edges(), 2);
}

#[test]
fn self_loop_counts_twice_in_its_list() {
    let mut g = Graph::new(2);
    g.add_edge(1, 1, 3.0);
    assert_eq!(g.edges[1], vec![(1, 3.0), (1, 3.0)]);
    assert_eq!(g.num_edges(), 1);
}

#[test]
fn edge_weight_is_first_entry_and_symmetric() {
    let mut g = Graph::new(3);
    g.add_edge(0, 1, 2.5);
    g.add_edge(1, 0, 4.0);
    assert_eq!(g.edge_weight(0, 1), Some(2.5));
    assert_eq!(g.edge_weight(1, 0), Some(2.5));
    assert_eq!(g.edge_weight(0, 2), None);
    assert_eq!(g.edge_weight(2, 0), None);
}

#[test]
fn adjacency_matrix_takes_last_weight_and_is_symmetric() {
    let mut g = Graph::new(3);
    g.add_edge(0, 1, 2.5);
    g.add_edge(1, 0, 4.0);
    g.add_edge(1, 2, 1.5);
    let m = g.adjacency_matrix(0.0);
    assert_eq!(m.rows, 3);
    assert_eq!(m.cols, 3);
    assert_eq!(m.get(0, 1), 4.0);
    assert_eq!(m.get(1, 0), 4.0);
    assert_eq!(m.get(1, 2), 1.5);
    assert_eq!(m.get(2, 1), 1.5);
    assert_eq!(m.get(0, 2), 0.0);
    assert_eq!(m.get(0, 0), 0.0);
    for i in 0..3 {
        for j in 0..3 {
            assert_eq!(m.get(i, j), m.get(j, i));
        }
    }
}

#[test]
fn complete_graph_lists_every_other_vertex() {
    let g = Graph::complete(4, 1.0);
    assert_eq!(g.n, 4);
    assert_eq!(g.edges[0], vec![(1, 1.0), (2, 1.0), (3, 1.0)]);
    assert_eq!(g.edges[2], vec![(0, 1.0), (1, 1.0), (3, 1.0)]);
    assert_eq!(g.edges[3], vec![(0, 1.0), (1, 1.0), (2, 1.0)]);
    assert_eq!(g.num_edges(), 6);
    assert_eq!(Graph::complete(5, 1.0).num_edges(), 10);
}

#[test]
fn path_graph_rows() {
    let g = Graph::path(4, 2.0);
    assert_eq!(g.edges[0], vec![(1, 2.0)]);
    assert_eq!(g.edges[1], vec![(0, 2.0), (2, 2.0)]);
    assert_eq!(g.edges[3], vec![(2, 2.0)]);
    assert_eq!(g.num_edges(), 3);
    assert_eq!(Graph::path(1, 1.0).num_edges(), 0);
    assert_eq!(Graph::path(0, 1.0).n, 0);
}

#[test]
fn cycle_graph_closes_only_above_two() {
    let g = Graph::cycle(5, 1.0);
    assert_eq!(g.num_edges(), 5);
    assert_eq!(g.edges[0], vec![(1, 1.0), (4, 1.0)]);
    assert_eq!(g.edges[4], vec![(3, 1.0), (0, 1.0)]);
    let g2 = Graph::cycle(2, 1.0);
    assert_eq!(g2.num_edges(), 1);
    assert_eq!(g2.edges[0], vec![(1, 1.0)]);
}

#[test]
fn star_graph_rows() {
    let g = Graph::star(4, 0.5);
    assert_eq!(g.edges[0], vec![(1, 0.5), (2, 0.5), (3, 0.5)]);
    assert_eq!(g.edges[2], vec![(0, 0.5)]);
    assert_eq!(g.num_edges(), 3);
    assert_eq!(Graph::<f64>::star(0, 1.0).n, 0);
}

#[test]
fn induced_subgraph_renumbers_vertices() {
    let g = Graph::path(4, 1.0);
    let h = g.induced_subgraph(&[1, 2, 3]);
    assert_eq!(h.n, 3);
    assert_eq!(h.edges[0], vec![(1, 1.0)]);
    assert_eq!(h.edges[1], vec![(0, 1.0), (2, 1.0)]);
    assert_eq!(h.edges[2], vec![(1, 1.0)]);
}

#[test]
fn induced_subgraph_follows_the_given_order() {
    let g = Graph::path(4, 1.0);
    let h = g.induced_subgraph(&[3, 0, 2]);
    // new 0 = old 3, new 1 = old 0, new 2 = old 2: only the edge 2-3 survives.
    assert_eq!(h.n, 3);
    assert_eq!(h.edges[0], vec![(2, 1.0)]);
    assert!(h.edges[1].is_empty());
    assert_eq!(h.edges[2], vec![(0, 1.0)]);
}

#[test]
fn induced_subgraph_of_complete_graph_is_complete() {
    let g = Graph::complete(5, 1.0);
    let h = g.induced_subgraph(&[4, 1, 3]);
    assert_eq!(h.num_edges(), 3);
    for a in 0..3 {
        for b in 0..3 {
            assert_eq!(h.has_edge(a, b), a != b);
        }
    }
}

#[test]
fn induced_subgraph_drops_self_loops() {
    let mut g = Graph::new(3);
    g.add_edge(1, 1, 1.0);
    g.add_edge(1, 2, 1.0);
    let h = g.induced_subgraph(&[1]);
    assert_eq!(h.n, 1);
    assert!(h.edges[0].is_empty());
}

#[test]
fn upper_edges_lists_each_edge_once() {
    let g = Graph::path(3, 1.0);
    assert_eq!(g.upper_edges(), vec![(0, 1, 1.0), (1, 2, 1.0)]);
    let mut h = Graph::new(3);
    h.add_edge(2, 0, 5.0);
    h.add_edge(1, 1, 2.0);
    assert_eq!(h.upper_edges(), vec![(0, 2, 5.0)]);
}

#[test]
fn well_formedness_is_checked() {
    assert!(Graph::complete(3, 1.0).is_well_formed());
    let bad = Graph { n: 2, edges: vec![vec![(5, 1.0)], vec![]] };
    assert!(!bad.is_well_formed());
    let short: Graph<f64> = Graph { n: 3, edges: vec![vec![], vec![]] };
    assert!(!short.is_well_formed());
}

#[test]
fn induced_subgraph_keeps_weights_and_counts_edges() {
    let mut g = Graph::new(4);
    g.add_edge(0, 1, 2.0);
    g.add_edge(1, 2, 3.0);
    g.add_edge(2, 0, 4.0);
    g.add_edge(0, 3, 5.0);
    let h = g.induced_subgraph(&[2, 0, 3]);
    assert_eq!(h.num_edges(), 2);
    assert_eq!(h.edge_weight(0, 1), Some(4.0));
    assert_eq!(h.edge_weight(1, 0), Some(4.0));
    assert_eq!(h.edge_weight(1, 2), Some(5.0));
    assert_eq!(h.edge_weight(2, 1), Some(5.0));
    assert_eq!(h.edge_weight(0, 2), None);
}

#[test]
fn duplicate_copies_every_list() {
    let mut g = Graph::new(3);
    g.add_edge(0, 2, 1.5);
    g.add_edge(1, 1, 2.0);
    let h = g.duplicate();
    assert_eq!(h.n, 3);
    assert_eq!(h.edges, g.edges);
}
