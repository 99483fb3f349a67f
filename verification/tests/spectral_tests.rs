use spectral_fleet::bottleneck;
use spectral_fleet::fleet_graph::FleetGraph;
use spectral_fleet::reorganization;

// ============================================================================
// Fleet Graph Tests
// ============================================================================

#[test]
fn test_complete_graph_connected() {
    let g = FleetGraph::complete(5);
    assert!(g.is_connected());
    assert_eq!(g.node_count(), 5);
    assert_eq!(g.edge_count(), 5 * 4); // directed edges
}

#[test]
fn test_disconnected_graph() {
    let g = FleetGraph::two_cliques(3);
    assert_eq!(g.node_count(), 6);
    assert!(!g.is_connected());
    let components = g.connected_components();
    assert_eq!(components.len(), 2);
}

#[test]
fn test_path_graph() {
    let g = FleetGraph::path(4);
    assert!(g.is_connected());
    assert_eq!(g.edge_count(), 6); // 3 undirected edges × 2 directions
}

#[test]
fn test_star_graph() {
    let g = FleetGraph::star(5);
    assert!(g.is_connected());
    // Node 0 should have degree 4, others degree 1
    let adj = g.link_matrix();
    let deg0: f64 = adj[0].iter().map(|&live| if live { 1.0 } else { 0.0 }).sum();
    assert_eq!(deg0, 4.0);
    let deg1: f64 = adj[1].iter().map(|&live| if live { 1.0 } else { 0.0 }).sum();
    assert_eq!(deg1, 1.0);
}

#[test]
fn test_barbell_graph() {
    let g = FleetGraph::barbell(3);
    assert!(g.is_connected());
    assert_eq!(g.node_count(), 6);
}

#[test]
fn test_from_github_org() {
    let repos: Vec<(String, Vec<String>)> = vec![
        ("auth-service".into(), vec!["rust".into(), "security".into()]),
        ("api-gateway".into(), vec!["go".into(), "networking".into()]),
        ("data-pipeline".into(), vec!["python".into(), "ml".into()]),
    ];
    let deps: Vec<(String, String, u64)> = vec![
        ("api-gateway".into(), "auth-service".into(), 0.8f64.to_bits()),
        ("data-pipeline".into(), "api-gateway".into(), 0.5f64.to_bits()),
    ];
    let g = FleetGraph::from_github_org(repos, deps);
    assert_eq!(g.node_count(), 3);
    assert_eq!(g.edge_count(), 2);
}

// ============================================================================
// Bottleneck Tests
// ============================================================================

#[test]
fn test_bridge_agents_in_star() {
    let g = FleetGraph::star(5);
    let bridges = bottleneck::find_bridge_agents(&g);
    // Center node (0) is an articulation point
    assert!(
        bridges.contains(&0),
        "Center of star graph should be a bridge agent"
    );
}

#[test]
fn test_bridge_edges_in_barbell() {
    let g = FleetGraph::barbell(3);
    let bridges = bottleneck::find_bridge_edges(&g);
    // The single bridge edge should be detected
    assert!(
        !bridges.is_empty(),
        "Barbell graph should have bridge edges"
    );
    // The bridge is between node 2 and node 3
    assert!(
        bridges.contains(&(2, 3)),
        "Should detect bridge edge (2, 3), got {:?}",
        bridges
    );
}

// ============================================================================
// Reorganization Tests
// ============================================================================

#[test]
fn test_diameter_path() {
    let g = FleetGraph::path(5);
    let d = reorganization::diameter(&g);
    assert_eq!(d as f64, 4.0, "Path of 5 nodes has diameter 4");
}

#[test]
fn test_diameter_complete() {
    let g = FleetGraph::complete(5);
    let d = reorganization::diameter(&g);
    assert_eq!(d as f64, 1.0, "Complete graph has diameter 1");
}

#[test]
fn test_avg_shortest_path() {
    let g = FleetGraph::complete(4);
    let (total, count) = reorganization::path_length_totals(&g);
    let asp = if count == 0 { 0.0 } else { total as f64 / count as f64 };
    assert!((asp - 1.0).abs() <= 0.01);
}
