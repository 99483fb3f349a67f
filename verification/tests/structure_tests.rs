use spectral_fleet::bottleneck::{bypass_pairs, find_bridge_agents, find_bridge_edges};
use spectral_fleet::dynamics::{
    add_agent, add_edge, connectivity_shift, remove_agent, remove_edge, ConnectivityShift, FleetEvent,
};
use spectral_fleet::fleet_graph::{is_positive_bits, AgentNode, CommEdge, FleetGraph, UNIT_BITS, ZERO_BITS};
use spectral_fleet::clustering::{assignments_from_clusters, cluster_members, separator};
use spectral_fleet::embedding::render_canvas;
use spectral_fleet::reorganization::{
    balance_plan, diameter, path_length_totals, sorted_unique_prefix, suggest_for_diameter, unlinked_pairs,
};

fn chain(n: usize, bandwidth: f64) -> FleetGraph {
    let mut g = FleetGraph::new();
    for i in 0..n {
        g.add_agent(AgentNode::new(format!("a{i}"), vec![], 0.0f64.to_bits()));
    }
    for i in 0..n.saturating_sub(1) {
        g.add_edge(CommEdge::new(i, i + 1, bandwidth.to_bits(), 1.0f64.to_bits()));
        g.add_edge(CommEdge::new(i + 1, i, bandwidth.to_bits(), 1.0f64.to_bits()));
    }
    g
}

#[test]
fn positive_bits_classifies_values() {
    assert!(is_positive_bits(1.0f64.to_bits()));
    assert!(is_positive_bits(f64::MIN_POSITIVE.to_bits()));
    assert!(is_positive_bits(f64::INFINITY.to_bits()));
    assert!(is_positive_bits(1e-320f64.to_bits()));
    assert!(!is_positive_bits(0.0f64.to_bits()));
    assert!(!is_positive_bits((-0.0f64).to_bits()));
    assert!(!is_positive_bits((-1.0f64).to_bits()));
    assert!(!is_positive_bits(f64::NAN.to_bits()));
    assert!(!is_positive_bits(f64::NEG_INFINITY.to_bits()));
    assert_eq!(UNIT_BITS, 1.0f64.to_bits());
    assert_eq!(ZERO_BITS, 0.0f64.to_bits());
}

#[test]
fn generated_agents_are_named_and_general() {
    let g = FleetGraph::complete(12);
    assert_eq!(g.agents[0].id, "agent-0");
    assert_eq!(g.agents[11].id, "agent-11");
    assert_eq!(g.agents[7].capabilities, vec!["general".to_string()]);
    assert_eq!(g.agents[7].load_bits, 0.0f64.to_bits());
}

#[test]
fn complete_edges_in_lexicographic_order() {
    let g = FleetGraph::complete(3);
    let pairs: Vec<(usize, usize)> = g.edges.iter().map(|e| (e.from, e.to)).collect();
    assert_eq!(pairs, vec![(0, 1), (0, 2), (1, 0), (1, 2), (2, 0), (2, 1)]);
    assert!(g.edges.iter().all(|e| e.bandwidth_bits == UNIT_BITS && e.latency_bits == UNIT_BITS));
}

#[test]
fn path_cycle_and_star_edges() {
    let p = FleetGraph::path(3);
    let pairs: Vec<(usize, usize)> = p.edges.iter().map(|e| (e.from, e.to)).collect();
    assert_eq!(pairs, vec![(0, 1), (1, 0), (1, 2), (2, 1)]);
    let c = FleetGraph::cycle(4);
    assert_eq!(c.edge_count(), 8);
    assert_eq!((c.edges[6].from, c.edges[6].to), (3, 0));
    assert_eq!(FleetGraph::cycle(2).edge_count(), 2);
    let s = FleetGraph::star(4);
    let pairs: Vec<(usize, usize)> = s.edges.iter().map(|e| (e.from, e.to)).collect();
    assert_eq!(pairs, vec![(0, 1), (1, 0), (0, 2), (2, 0), (0, 3), (3, 0)]);
    assert_eq!(FleetGraph::path(0).edge_count(), 0);
    assert_eq!(FleetGraph::star(1).edge_count(), 0);
}

#[test]
fn empty_fleet_is_connected_without_components() {
    let g = FleetGraph::new();
    assert!(g.is_connected());
    assert!(g.connected_components().is_empty());
    assert!(g.is_empty());
    assert_eq!(g.len(), 0);
}

#[test]
fn components_start_with_least_agent() {
    let g = FleetGraph::two_cliques(3);
    let comps = g.connected_components();
    assert_eq!(comps.len(), 2);
    assert_eq!(comps[0][0], 0);
    assert_eq!(comps[1][0], 3);
    let mut a = comps[0].clone();
    a.sort();
    let mut b = comps[1].clone();
    b.sort();
    assert_eq!(a, vec![0, 1, 2]);
    assert_eq!(b, vec![3, 4, 5]);
}

#[test]
fn components_follow_depth_first_order() {
    let g = FleetGraph::star(4);
    assert_eq!(g.connected_components(), vec![vec![0, 3, 2, 1]]);
}

#[test]
fn zero_bandwidth_channels_do_not_connect() {
    let g = chain(3, 0.0);
    assert!(!g.is_connected());
    assert_eq!(g.connected_components().len(), 3);
    // Neighbors count every channel, whatever its bandwidth.
    assert_eq!(g.neighbors(1), vec![0, 2]);
    let g = chain(3, f64::NAN);
    assert!(!g.is_connected());
    let g = chain(3, -2.0);
    assert!(!g.is_connected());
}

#[test]
fn neighbors_sorted_and_deduplicated() {
    let mut g = FleetGraph::complete(4);
    g.add_edge(CommEdge::new(2, 0, UNIT_BITS, UNIT_BITS));
    assert_eq!(g.neighbors(0), vec![1, 2, 3]);
    assert_eq!(g.neighbors(9), Vec::<usize>::new());
}

#[test]
fn from_github_org_skips_unknown_and_uses_last_name() {
    let repos: Vec<(String, Vec<String>)> = vec![
        ("a".into(), vec!["x".into()]),
        ("b".into(), vec![]),
        ("a".into(), vec!["y".into()]),
    ];
    let deps: Vec<(String, String, u64)> = vec![
        ("b".into(), "a".into(), 0.25f64.to_bits()),
        ("b".into(), "zzz".into(), 1.0f64.to_bits()),
    ];
    let g = FleetGraph::from_github_org(repos, deps);
    assert_eq!(g.node_count(), 3);
    assert_eq!(g.edge_count(), 1);
    assert_eq!((g.edges[0].from, g.edges[0].to), (1, 2));
    assert_eq!(g.edges[0].bandwidth_bits, 0.25f64.to_bits());
    assert_eq!(g.edges[0].latency_bits, 1.0f64.to_bits());
    assert_eq!(g.agents[2].capabilities, vec!["y".to_string()]);
}

#[test]
fn random_graph_is_deterministic() {
    let a = FleetGraph::random(6, 1 << 30, 42);
    let b = FleetGraph::random(6, 1 << 30, 42);
    let pa: Vec<(usize, usize)> = a.edges.iter().map(|e| (e.from, e.to)).collect();
    let pb: Vec<(usize, usize)> = b.edges.iter().map(|e| (e.from, e.to)).collect();
    assert_eq!(pa, pb);
    assert_eq!(FleetGraph::random(6, 0, 42).edge_count(), 0);
    // Every ordered pair is drawn once, and each accepted draw adds both directions.
    assert_eq!(FleetGraph::random(4, 1 << 31, 7).edge_count(), 2 * 4 * 3);
}

#[test]
fn random_graph_first_draw() {
    // The first draw is for the pair (0, 1).
    let seed: u64 = 5;
    let next = seed.wrapping_mul(6364136223846793005).wrapping_add(1442695040888963407);
    let draw = next >> 33;
    let accept = FleetGraph::random(2, draw + 1, seed);
    assert_eq!((accept.edges[0].from, accept.edges[0].to), (0, 1));
    let reject = FleetGraph::random(2, draw, seed);
    assert!(reject.edges.is_empty() || (reject.edges[0].from, reject.edges[0].to) == (1, 0));
}

#[test]
fn bridge_agents_of_chain() {
    let g = chain(5, 5.0);
    assert_eq!(find_bridge_agents(&g), vec![1, 2, 3]);
    assert!(find_bridge_agents(&FleetGraph::complete(5)).is_empty());
    assert!(find_bridge_agents(&FleetGraph::path(2)).is_empty());
}

#[test]
fn bridge_edges_of_chain_and_cycle() {
    let g = chain(4, 1.0);
    assert_eq!(find_bridge_edges(&g), vec![(0, 1), (1, 2), (2, 3)]);
    assert!(find_bridge_edges(&FleetGraph::cycle(5)).is_empty());
}

#[test]
fn bypasses_around_chain_bottlenecks() {
    let g = chain(5, 5.0);
    assert_eq!(bypass_pairs(&g, 1), vec![(0, 2)]);
    assert_eq!(bypass_pairs(&g, 2), vec![(1, 3)]);
    assert_eq!(bypass_pairs(&g, 3), vec![(2, 4)]);
    assert!(bypass_pairs(&FleetGraph::complete(4), 0).is_empty());
}

#[test]
fn diameter_ignores_unreachable_pairs() {
    assert_eq!(diameter(&FleetGraph::two_cliques(3)), 1);
    assert_eq!(diameter(&FleetGraph::new()), 0);
    assert_eq!(diameter(&FleetGraph::cycle(6)), 3);
}

#[test]
fn path_totals_of_short_path() {
    assert_eq!(path_length_totals(&FleetGraph::path(3)), (8, 6));
    assert_eq!(path_length_totals(&FleetGraph::two_cliques(2)), (4, 4));
    assert_eq!(path_length_totals(&FleetGraph::new()), (0, 0));
}

#[test]
fn diameter_suggestions_farthest_first() {
    let g = FleetGraph::path(6);
    assert_eq!(suggest_for_diameter(&g, 3), vec![(0, 5), (0, 4), (1, 5)]);
    assert!(suggest_for_diameter(&g, 0).is_empty());
    assert!(suggest_for_diameter(&FleetGraph::complete(4), 5).is_empty());
    // Unreachable pairs are never suggested.
    assert!(suggest_for_diameter(&FleetGraph::two_cliques(3), 10).is_empty());
}

#[test]
fn merged_suggestions_sorted_unique_prefix() {
    let items = vec![(2, 3), (0, 5), (2, 3), (0, 4), (1, 1)];
    assert_eq!(sorted_unique_prefix(&items, 3), vec![(0, 4), (0, 5), (1, 1)]);
    assert_eq!(sorted_unique_prefix(&items, 10), vec![(0, 4), (0, 5), (1, 1), (2, 3)]);
}

#[test]
fn removing_star_hub_fragments_fleet() {
    let mut g = FleetGraph::star(5);
    let ev = remove_agent(&mut g, 0);
    match ev {
        Some(FleetEvent::AgentLeft { agent_id, index }) => {
            assert_eq!(agent_id, "agent-0");
            assert_eq!(index, 0);
        }
        _ => panic!("expected an AgentLeft event"),
    }
    assert_eq!(g.node_count(), 4);
    assert_eq!(g.edge_count(), 0);
    assert!(!g.is_connected());
    assert_eq!(g.connected_components().len(), 4);
    assert_eq!(g.agents[0].id, "agent-1");
}

#[test]
fn removing_agent_reindexes_channels() {
    let mut g = FleetGraph::path(4);
    assert!(remove_agent(&mut g, 1).is_some());
    let pairs: Vec<(usize, usize)> = g.edges.iter().map(|e| (e.from, e.to)).collect();
    assert_eq!(pairs, vec![(1, 2), (2, 1)]);
    assert!(remove_agent(&mut g, 7).is_none());
    assert_eq!(g.node_count(), 3);
}

#[test]
fn removing_edge_reports_only_real_removals() {
    let mut g = FleetGraph::path(4);
    assert!(matches!(remove_edge(&mut g, 1, 2), Some(FleetEvent::EdgeRemoved { from: 1, to: 2 })));
    assert!(g.is_connected());
    assert!(matches!(remove_edge(&mut g, 2, 1), Some(FleetEvent::EdgeRemoved { from: 2, to: 1 })));
    assert!(!g.is_connected());
    assert!(remove_edge(&mut g, 2, 1).is_none());
    assert_eq!(g.edge_count(), 4);
}

#[test]
fn adding_agent_and_edge_records_events() {
    let mut g = FleetGraph::complete(3);
    let (idx, ev) = add_agent(&mut g, "new-agent".to_string(), vec!["compute".to_string()], 0.0f64.to_bits());
    assert_eq!(idx, 3);
    assert_eq!(g.node_count(), 4);
    assert!(matches!(ev, FleetEvent::AgentJoined { index: 3, .. }));
    assert!(!g.is_connected());
    let ev = add_edge(&mut g, 3, 0, UNIT_BITS, UNIT_BITS);
    assert!(matches!(ev, FleetEvent::EdgeAdded { from: 3, to: 0 }));
    assert!(g.is_connected());
}

#[test]
fn cluster_members_groups_by_id() {
    let buckets = cluster_members(&vec![1, 0, 1, 2], 3);
    assert_eq!(buckets, vec![vec![1], vec![0, 2], vec![3]]);
    let empty = cluster_members(&vec![0, 0], 2);
    assert_eq!(empty, vec![vec![0, 1], vec![]]);
}

#[test]
fn separator_lists_boundary_members_in_order() {
    let g = FleetGraph::path(4);
    assert_eq!(separator(&g, &vec![0, 1]), vec![1]);
    assert_eq!(separator(&g, &vec![2, 1]), vec![2, 1]);
    assert_eq!(separator(&g, &vec![0, 1, 2, 3]), Vec::<usize>::new());
}

#[test]
fn assignments_take_last_listing_cluster() {
    let ids = assignments_from_clusters(5, &vec![vec![0, 2], vec![1], vec![2, 3]]);
    assert_eq!(ids, vec![0, 1, 2, 2, 0]);
}

#[test]
fn canvas_later_agent_covers_earlier() {
    let canvas = render_canvas(&vec![(0, 0), (2, 1), (0, 0)], 3, 2);
    assert_eq!(canvas, vec![vec![' ', ' ', 'B'], vec!['C', ' ', ' ']]);
}

#[test]
fn canvas_marks_late_agents_with_hash() {
    let mut cells = Vec::new();
    for i in 0..27 {
        cells.push((i, 0));
    }
    let canvas = render_canvas(&cells, 27, 1);
    assert_eq!(canvas[0][0], 'A');
    assert_eq!(canvas[0][25], 'Z');
    assert_eq!(canvas[0][26], '#');
}

#[test]
fn unlinked_pairs_of_path() {
    let g = FleetGraph::path(4);
    assert_eq!(unlinked_pairs(&g), vec![(0, 2), (0, 3), (1, 3)]);
    assert_eq!(unlinked_pairs(&FleetGraph::complete(4)), Vec::<(usize, usize)>::new());
}

#[test]
fn balance_plan_links_light_and_trims_heavy() {
    let g = FleetGraph::two_cliques(3);
    let order = vec![0, 3, 1, 2, 4, 5];
    let heavy = vec![true; 6];
    let (adds, removes) = balance_plan(&g, &order, &heavy, 0);
    assert_eq!(adds, Vec::<(usize, usize)>::new());
    assert_eq!(removes, Vec::<(usize, usize)>::new());
    let (adds, removes) = balance_plan(&g, &order, &heavy, 10);
    assert_eq!(adds, vec![(0, 3)]);
    assert_eq!(removes, vec![(3, 4), (4, 5), (3, 5), (4, 5)]);
}

#[test]
fn balance_plan_skips_light_agents_and_tiny_fleets() {
    let g = FleetGraph::path(6);
    let (adds, removes) = balance_plan(&g, &vec![0, 5, 1, 2, 3, 4], &vec![false; 6], 3);
    assert_eq!(adds, vec![(0, 5)]);
    assert_eq!(removes, Vec::<(usize, usize)>::new());
    let single = FleetGraph::complete(1);
    let (adds, removes) = balance_plan(&single, &vec![0], &vec![true], 3);
    assert!(adds.is_empty() && removes.is_empty());
    let (adds, removes) = balance_plan(&g, &vec![0, 5, 1, 2, 3, 4], &vec![true; 6], 0);
    assert!(adds.is_empty() && removes.is_empty());
}

#[test]
fn connectivity_shift_between_snapshots() {
    assert_eq!(connectivity_shift(1, 2), Some(ConnectivityShift::Disconnected));
    assert_eq!(connectivity_shift(3, 1), Some(ConnectivityShift::Connected));
    assert_eq!(connectivity_shift(1, 0), Some(ConnectivityShift::Disconnected));
    assert_eq!(connectivity_shift(2, 3), None);
    assert_eq!(connectivity_shift(1, 1), None);
    assert_eq!(connectivity_shift(0, 0), None);
}

#[test]
fn removing_middle_channel_disconnects_path() {
    let mut g = FleetGraph::path(4);
    let before = g.connected_components().len();
    assert!(remove_edge(&mut g, 1, 2).is_some());
    assert!(remove_edge(&mut g, 2, 1).is_some());
    let after = g.connected_components().len();
    assert_eq!((before, after), (1, 2));
    assert!(!g.is_connected());
    assert_eq!(connectivity_shift(before, after), Some(ConnectivityShift::Disconnected));
}

fn edge_tuples(g: &FleetGraph) -> Vec<(usize, usize, u64, u64)> {
    g.edges.iter().map(|e| (e.from, e.to, e.bandwidth_bits, e.latency_bits)).collect()
}

fn agent_ids(g: &FleetGraph) -> Vec<String> {
    g.agents.iter().map(|a| a.id.clone()).collect()
}

#[test]
fn leaving_right_after_joining_restores_fleet() {
    let mut g = FleetGraph::cycle(4);
    let (ids, edges) = (agent_ids(&g), edge_tuples(&g));
    let (idx, _) = add_agent(&mut g, "visitor".to_string(), vec![], ZERO_BITS);
    assert!(remove_agent(&mut g, idx).is_some());
    assert_eq!(agent_ids(&g), ids);
    assert_eq!(edge_tuples(&g), edges);
}

#[test]
fn removing_a_fresh_channel_restores_fleet() {
    let mut g = FleetGraph::path(4);
    let edges = edge_tuples(&g);
    add_edge(&mut g, 0, 3, UNIT_BITS, UNIT_BITS);
    assert!(remove_edge(&mut g, 0, 3).is_some());
    assert_eq!(edge_tuples(&g), edges);
}

#[test]
fn leaving_keeps_links_between_same_agents() {
    let before = FleetGraph::cycle(5);
    let old_links = before.link_matrix();
    let mut after = before.clone();
    assert!(remove_agent(&mut after, 2).is_some());
    let new_links = after.link_matrix();
    let lifted = |i: usize| if i < 2 { i } else { i + 1 };
    assert_eq!(agent_ids(&after), vec!["agent-0", "agent-1", "agent-3", "agent-4"]);
    for i in 0..4 {
        for j in 0..4 {
            assert_eq!(new_links[i][j], old_links[lifted(i)][lifted(j)]);
        }
    }
    assert!(new_links[2][3] && new_links[3][0] && !new_links[1][2]);
}
