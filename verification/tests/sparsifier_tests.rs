use lau_spectral_graph_agent::{Graph, GraphSparsifier};

/// Indices of `g.upper_edges()` sorted by increasing weight (stable).
fn order_by_weight(g: &Graph<f64>) -> Vec<usize> {
    let edges = g.upper_edges();
    let mut order: Vec<usize> = (0..edges.len()).collect();
    order.sort_by(|a, b| edges[*a].2.partial_cmp(&edges[*b].2).unwrap());
    order
}

/// Shortest-path length from `s` to `t`, infinite when there is none.
fn path_length(g: &Graph<f64>, s: usize, t: usize) -> f64 {
    let n = g.n;
    let mut dist = vec![f64::INFINITY; n];
    let mut done = vec![false; n];
    dist[s] = 0.0;
    for _ in 0..n {
        let mut u = n;
        for v in 0..n {
            if !done[v] && dist[v].is_finite() && (u == n || dist[v] < dist[u]) {
                u = v;
            }
        }
        if u == n {
            break;
        }
        done[u] = true;
        for &(v, w) in &g.edges[u] {
            if dist[u] + w < dist[v] {
                dist[v] = dist[u] + w;
            }
        }
    }
    dist[t]
}

/// The spanner with stretch `stretch`, edges by increasing weight.
fn spanner(sp: &GraphSparsifier, g: &Graph<f64>, stretch: f64) -> Graph<f64> {
    let mut pass = sp.spanner_start(g, &order_by_weight(g));
    while let Some((i, j, w)) = pass.next_edge() {
        let near = path_length(pass.current(), i, j) <= stretch * w;
        sp.spanner_step(&mut pass, near);
    }
    sp.spanner_finish(pass)
}

fn all_connected(sp: &GraphSparsifier, g: &Graph<f64>) -> bool {
    for s in 0..g.n {
        for t in 0..g.n {
            if !sp.is_connected_in(g, s, t) {
                return false;
            }
        }
    }
    true
}

#[test]
fn test_spanner_connectivity() {
    let g = Graph::complete(5, 1.0);
    let sp = GraphSparsifier::new();
    let spanner = spanner(&sp, &g, 2.0);
    // Spanner should maintain connectivity
    assert!(all_connected(&sp, &spanner));
}

#[test]
fn test_spanner_fewer_edges() {
    let g = Graph::complete(5, 1.0);
    let sp = GraphSparsifier::new();
    let spanner = spanner(&sp, &g, 2.0);
    assert!(spanner.num_edges() <= g.num_edges());
}

#[test]
fn spanner_of_six_cycle_with_stretch_two_keeps_every_edge() {
    let g = Graph::cycle(6, 1.0);
    let sp = GraphSparsifier::new();
    let t = spanner(&sp, &g, 2.0);
    assert_eq!(t.num_edges(), 6);
    assert!(t.has_edge(4, 5));
    assert!(t.has_edge(0, 5));
}

#[test]
fn spanner_with_large_stretch_keeps_a_spanning_tree() {
    let g = Graph::cycle(5, 1.0);
    let sp = GraphSparsifier::new();
    let t = spanner(&sp, &g, 100.0);
    assert_eq!(t.num_edges(), 4);
    assert!(all_connected(&sp, &t));
}

#[test]
fn spanner_of_complete_graph_with_stretch_two_is_a_star() {
    let g = Graph::complete(6, 1.0);
    let sp = GraphSparsifier::new();
    let t = spanner(&sp, &g, 2.0);
    assert_eq!(t.num_edges(), 5);
    assert_eq!(t.edges[0], vec![(1, 1.0), (2, 1.0), (3, 1.0), (4, 1.0), (5, 1.0)]);
}

#[test]
fn spanner_of_complete_graph_with_stretch_one_keeps_everything() {
    let g = Graph::complete(4, 1.0);
    let sp = GraphSparsifier::new();
    let t = spanner(&sp, &g, 1.0);
    assert_eq!(t.num_edges(), 6);
}

#[test]
fn spanner_drops_edge_with_short_detour() {
    let mut g = Graph::new(3);
    g.add_edge(0, 1, 3.0);
    g.add_edge(1, 2, 1.0);
    g.add_edge(0, 2, 2.0);
    let sp = GraphSparsifier::new();
    let t = spanner(&sp, &g, 1.0);
    assert_eq!(t.upper_edges(), vec![(0, 2, 2.0), (1, 2, 1.0)]);
    assert!(!t.has_edge(0, 1));
    let kept = spanner(&sp, &g, 0.9);
    assert_eq!(kept.num_edges(), 3);
}

#[test]
fn spanner_keeps_components_apart() {
    let mut g = Graph::new(4);
    g.add_edge(0, 1, 1.0);
    g.add_edge(2, 3, 1.0);
    let sp = GraphSparsifier::new();
    let t = spanner(&sp, &g, 3.0);
    assert!(sp.is_connected_in(&t, 0, 1));
    assert!(sp.is_connected_in(&t, 3, 2));
    assert!(!sp.is_connected_in(&t, 0, 2));
    assert!(!sp.is_connected_in(&t, 1, 3));
    assert_eq!(t.num_edges(), 2);
}

#[test]
fn spanner_step_leaves_out_only_connected_edges() {
    let g = Graph::cycle(4, 1.0);
    assert_eq!(g.upper_edges(), vec![(0, 1, 1.0), (0, 3, 1.0), (1, 2, 1.0), (2, 3, 1.0)]);
    let sp = GraphSparsifier::new();
    let mut pass = sp.spanner_start(&g, &[0, 2, 3, 1]);
    assert_eq!(pass.next_edge(), Some((0, 1, 1.0)));
    sp.spanner_step(&mut pass, true); // ends not yet connected: kept anyway
    sp.spanner_step(&mut pass, false);
    sp.spanner_step(&mut pass, true); // not yet connected: kept
    assert_eq!(pass.next_edge(), Some((0, 3, 1.0)));
    sp.spanner_step(&mut pass, true); // connected and reported near: left out
    assert_eq!(pass.next_edge(), None);
    let t = sp.spanner_finish(pass);
    assert_eq!(t.num_edges(), 3);
    assert!(!t.has_edge(0, 3));

    let mut far = sp.spanner_start(&g, &[0, 2, 3, 1]);
    for _ in 0..4 {
        sp.spanner_step(&mut far, false); // reported far: every edge kept
    }
    assert_eq!(sp.spanner_finish(far).num_edges(), 4);
}

#[test]
fn is_connected_in_follows_walks() {
    let mut g = Graph::new(5);
    g.add_edge(0, 1, 1.0);
    g.add_edge(1, 2, 1.0);
    g.add_edge(3, 4, 1.0);
    let sp = GraphSparsifier::new();
    assert!(sp.is_connected_in(&g, 0, 2));
    assert!(sp.is_connected_in(&g, 2, 0));
    assert!(sp.is_connected_in(&g, 4, 3));
    assert!(!sp.is_connected_in(&g, 0, 3));
    assert!(sp.is_connected_in(&g, 3, 3));
}

#[test]
fn connect_greedily_skips_edges_already_connected() {
    let mut g = Graph::new(4);
    let edges = vec![(0, 1, 1.0), (1, 2, 1.0), (0, 2, 1.0), (2, 3, 1.0), (3, 0, 1.0)];
    let sp = GraphSparsifier::new();
    sp.connect_greedily(&mut g, &edges);
    assert_eq!(g.upper_edges(), vec![(0, 1, 1.0), (1, 2, 1.0), (2, 3, 1.0)]);
    assert_eq!(g.num_edges(), 3);
}

#[test]
fn restore_connectivity_reconnects_the_graph() {
    let g = Graph::path(4, 2.0);
    let mut result = Graph::new(4);
    result.add_edge(3, 2, 9.0);
    let sp = GraphSparsifier::new();
    sp.restore_connectivity(&mut result, &g);
    assert!(all_connected(&sp, &result));
    assert_eq!(result.num_edges(), 3);
    assert_eq!(result.edges[2], vec![(3, 9.0), (1, 2.0)]);
}

#[test]
fn restore_connectivity_adds_nothing_when_connected() {
    let g = Graph::complete(4, 1.0);
    let mut result = Graph::star(4, 5.0);
    let sp = GraphSparsifier::new();
    sp.restore_connectivity(&mut result, &g);
    assert_eq!(result.num_edges(), 3);
}

#[test]
fn sample_count_is_clamped() {
    let sp = GraphSparsifier::new();
    assert_eq!(sp.sample_count(3, 6, 15), 5);
    assert_eq!(sp.sample_count(9, 6, 15), 9);
    assert_eq!(sp.sample_count(40, 6, 15), 15);
    assert_eq!(sp.sample_count(0, 1, 0), 0);
}

#[test]
fn add_sampled_edge_only_adds_new_edges() {
    let sp = GraphSparsifier::new();
    let mut g = Graph::new(3);
    sp.add_sampled_edge(&mut g, 0, 1, 2.0);
    sp.add_sampled_edge(&mut g, 0, 1, 5.0);
    sp.add_sampled_edge(&mut g, 1, 0, 7.0);
    sp.add_sampled_edge(&mut g, 2, 1, 1.0);
    assert_eq!(g.edges[0], vec![(1, 2.0)]);
    assert_eq!(g.edges[1], vec![(0, 2.0), (2, 1.0)]);
    assert_eq!(g.num_edges(), 2);
}

#[test]
fn sample_into_adds_picked_edges_once() {
    let g = Graph::complete(4, 1.0);
    // upper edges: (0,1) (0,2) (0,3) (1,2) (1,3) (2,3)
    let sp = GraphSparsifier::new();
    let mut result = Graph::new(4);
    sp.sample_into(&mut result, &g, &[(3, 2.5), (0, 4.0), (3, 9.0), (5, 0.5)]);
    assert_eq!(result.upper_edges(), vec![(0, 1, 4.0), (1, 2, 2.5), (2, 3, 0.5)]);
    assert_eq!(result.num_edges(), 3);
    assert!(result.num_edges() <= g.num_edges());
}

#[test]
fn sampled_then_restored_graph_connects_like_the_graph() {
    let mut g = Graph::new(5);
    g.add_edge(0, 1, 1.0);
    g.add_edge(1, 2, 1.0);
    g.add_edge(0, 2, 1.0);
    g.add_edge(3, 4, 1.0);
    let sp = GraphSparsifier::new();
    let mut result = Graph::new(5);
    sp.sample_into(&mut result, &g, &[(1, 3.0)]);
    sp.restore_connectivity(&mut result, &g);
    for s in 0..5 {
        for t in 0..5 {
            assert_eq!(sp.is_connected_in(&result, s, t), sp.is_connected_in(&g, s, t));
        }
    }
    assert!(result.num_edges() <= g.num_edges());
    assert_eq!(result.num_edges(), 3);
}

#[test]
fn keep_if_sparse_returns_sparse_graphs_whole() {
    let sp = GraphSparsifier::new();
    let g = Graph::path(4, 2.0);
    let kept = sp.keep_if_sparse(&g).unwrap();
    assert_eq!(kept.n, 4);
    assert_eq!(kept.edges, g.edges);
    assert!(sp.keep_if_sparse(&Graph::complete(4, 1.0)).is_none());
    assert!(sp.keep_if_sparse(&Graph::cycle(4, 1.0)).is_none());
}
