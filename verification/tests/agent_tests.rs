use lau_spectral_graph_agent::{AgentNetwork, Graph, GraphWave, PageRank};

fn make_test_network() -> AgentNetwork<f64> {
    let agents = vec!["alpha".to_string(), "beta".to_string(), "gamma".to_string(), "delta".to_string()];
    let mut g = Graph::new(4);
    g.add_edge(0, 1, 1.0);
    g.add_edge(1, 2, 1.0);
    g.add_edge(2, 3, 1.0);
    g.add_edge(0, 3, 1.0);
    AgentNetwork::new(agents, g)
}

#[test]
fn network_keeps_agents_and_graph() {
    let net = make_test_network();
    assert_eq!(net.agents.len(), 4);
    assert_eq!(net.agents[2], "gamma");
    assert_eq!(net.graph.num_edges(), 4);
}

#[test]
fn remaining_agents_leave_one_out() {
    let net = make_test_network();
    assert_eq!(net.remaining_agents(2), vec![0, 1, 3]);
    assert_eq!(net.remaining_agents(7), vec![0, 1, 2, 3]);
}

#[test]
fn crossing_agents_of_a_cut() {
    let net = make_test_network();
    assert_eq!(net.crossing_agents(&[true, true, false, false]), vec![0, 1, 2, 3]);
    assert_eq!(net.crossing_agents(&[true, true, true, true]), Vec::<usize>::new());
    let path = AgentNetwork::new(
        vec!["a".to_string(), "b".to_string(), "c".to_string(), "d".to_string()],
        Graph::path(4, 1.0),
    );
    assert_eq!(path.crossing_agents(&[true, true, false, false]), vec![1, 2]);
}

#[test]
fn robustness_subgraph_of_removed_agent() {
    let net = make_test_network();
    let remaining = net.remaining_agents(0);
    let sub = net.graph.induced_subgraph(&remaining);
    assert_eq!(sub.n, 3);
    assert_eq!(sub.num_edges(), 2);
}

#[test]
fn unit_analysers_construct() {
    let _p = PageRank::new();
    let _w = GraphWave::new();
}
