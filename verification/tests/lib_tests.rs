use spectral_fleet::Graph;

#[test]
fn test_graph_creation() {
    let g = Graph::new(5);
    assert_eq!(g.n, 5);
    assert_eq!(g.edge_count(), 0);
}

#[test]
fn test_graph_edges() {
    let mut g = Graph::new(3);
    g.add_edge(0, 1, 1.0f64.to_bits());
    g.add_edge(1, 2, 1.0f64.to_bits());
    assert_eq!(g.edge_count(), 2);
}

#[test]
fn test_is_connected() {
    let mut g = Graph::new(3);
    g.add_edge(0, 1, 1.0f64.to_bits());
    g.add_edge(1, 2, 1.0f64.to_bits());
    assert!(g.is_connected());
}

#[test]
fn test_not_connected() {
    let g = Graph::new(3);
    assert!(!g.is_connected());
}

#[test]
fn graph_edges_listed_at_both_ends() {
    let mut g = Graph::new(3);
    g.add_edge(0, 2, 3.0f64.to_bits());
    let lists = g.adjacency_lists();
    assert_eq!(lists[0], vec![(2, 3.0f64.to_bits())]);
    assert_eq!(lists[2], vec![(0, 3.0f64.to_bits())]);
    assert!(lists[1].is_empty());
}

#[test]
fn graph_self_loop_counts_once() {
    let mut g = Graph::new(2);
    g.add_edge(1, 1, 2.0f64.to_bits());
    assert_eq!(g.edge_count(), 1);
    assert_eq!(g.adjacency_lists()[1].len(), 2);
    assert!(!g.is_connected());
}

#[test]
fn graph_empty_is_connected() {
    let g = Graph::new(0);
    assert!(g.is_connected());
    assert_eq!(g.edge_count(), 0);
}

#[test]
fn graph_connected_ignores_weights() {
    let mut g = Graph::new(2);
    g.add_edge(0, 1, 0.0f64.to_bits());
    assert!(g.is_connected());
}
