use lau_spectral_graph_agent::{CheegerInvariant, Graph};

#[test]
fn subset_of_mask_lists_set_bits() {
    let c = CheegerInvariant::new();
    assert_eq!(c.subset_of_mask(4, 0b1011), vec![0, 1, 3]);
    assert_eq!(c.subset_of_mask(2, 0b1111), vec![0, 1]);
    assert!(c.subset_of_mask(3, 0).is_empty());
}

#[test]
fn cheeger_candidates_have_at_most_half_the_vertices() {
    let c = CheegerInvariant::new();
    assert_eq!(c.cheeger_candidate(4, 0b0011), Some(vec![0, 1]));
    assert_eq!(c.cheeger_candidate(4, 0b0100), Some(vec![2]));
    assert_eq!(c.cheeger_candidate(4, 0b0111), None);
    assert_eq!(c.cheeger_candidate(4, 0), None);
    assert_eq!(c.cheeger_candidate(5, 0b00011), Some(vec![0, 1]));
    assert_eq!(c.cheeger_candidate(5, 0b00111), None);
}

#[test]
fn boundary_of_one_vertex_of_k4() {
    let g = Graph::complete(4, 1.0);
    let c = CheegerInvariant::new();
    assert_eq!(c.edge_boundary_weights(&g, &[0]), vec![1.0, 1.0, 1.0]);
    assert_eq!(c.edge_boundary_weights(&g, &[0, 1]), vec![1.0, 1.0, 1.0, 1.0]);
}

#[test]
fn boundary_of_barbell_half_is_the_bridge() {
    let mut g = Graph::new(6);
    g.add_edge(0, 1, 1.0);
    g.add_edge(1, 2, 1.0);
    g.add_edge(0, 2, 1.0);
    g.add_edge(3, 4, 1.0);
    g.add_edge(4, 5, 1.0);
    g.add_edge(3, 5, 1.0);
    g.add_edge(2, 3, 0.5);
    let c = CheegerInvariant::new();
    assert_eq!(c.edge_boundary_weights(&g, &[0, 1, 2]), vec![0.5]);
    assert!(c.edge_boundary_weights(&g, &[0, 1, 2, 3, 4, 5]).is_empty());
}

#[test]
fn boundary_is_the_same_from_either_side() {
    let mut g = Graph::new(4);
    g.add_edge(0, 1, 1.0);
    g.add_edge(1, 2, 2.0);
    g.add_edge(2, 3, 3.0);
    g.add_edge(3, 1, 4.0);
    let c = CheegerInvariant::new();
    let mut inside = c.edge_boundary_weights(&g, &[1]);
    let mut outside = c.edge_boundary_weights(&g, &[0, 2, 3]);
    inside.sort_by(|a, b| a.partial_cmp(b).unwrap());
    outside.sort_by(|a, b| a.partial_cmp(b).unwrap());
    assert_eq!(inside, vec![1.0, 2.0, 4.0]);
    assert_eq!(outside, vec![1.0, 2.0, 4.0]);
}
