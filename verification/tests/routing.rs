use traffic_sim::Edge;
use traffic_sim::InvalidGraph;
use traffic_sim::Node;
use traffic_sim::NodeGraph;
use traffic_sim::Position;

fn node(x: i64, y: i64, z: i64) -> Node {
    Node { position: Position { x, y, z } }
}

fn edge(source: usize, dest: usize) -> Edge {
    Edge { source, dest, priority: false }
}

fn nightmare_expected_paths() -> Vec<(usize, usize, Vec<usize>)> {
    // commented out test cases are for uturn scenarios which don't seem valid
    vec![
        (1, 7, vec![1, 9, 7]),
        (1, 3, vec![1, 9, 11, 3]),
        (1, 4, vec![1, 9, 10, 4]),
        // (1, 0, vec![1, 9, 10, 8, 0]),
        (6, 3, vec![6, 11, 3]),
        (6, 4, vec![6, 11, 10, 4]),
        (6, 0, vec![6, 11, 8, 0]),
        // (6, 7, vec![6, 11, 8, 9, 7]),
        (2, 4, vec![2, 10, 4]),
        (2, 0, vec![2, 10, 8, 0]),
        (2, 7, vec![2, 10, 9, 7]),
        // (2, 3, vec![2, 10, 9, 11, 3]),
        (5, 0, vec![5, 8, 0]),
        (5, 7, vec![5, 8, 9, 7]),
        (5, 3, vec![5, 8, 11, 3]),
        // (5, 4, vec![5, 8, 11, 10, 4]),
    ]
}

fn nightmare_like_input() -> (Vec<Node>, Vec<Edge>) {
    let nodes = vec![
        node(-1000, 0, 10000),
        node(1000, 0, 10000),
        node(-1000, 0, -10000),
        node(1000, 0, -10000),
        node(-10000, 0, -1000),
        node(-10000, 0, 1000),
        node(10000, 0, -1000),
        node(10000, 0, 1000),
        node(-1000, 0, 1000),
        node(1000, 0, 1000),
        node(-1000, 0, -1000),
        node(1000, 0, -1000),
    ];
    let edges = vec![
        edge(1, 9),
        edge(2, 10),
        edge(6, 11),
        edge(5, 8),
        edge(9, 7),
        edge(11, 3),
        edge(10, 4),
        edge(8, 0),
        edge(9, 11),
        edge(9, 10),
        edge(11, 10),
        edge(11, 8),
        edge(10, 8),
        edge(10, 9),
        edge(8, 9),
        edge(8, 11),
    ];
    (nodes, edges)
}

#[test]
fn node_graph_calculate_distance_map_produces_expected_values() {
    let graph = NodeGraph::create_nightmare().unwrap();

    for (source_node, dest_node, expected_path) in nightmare_expected_paths() {
        let shortest_path = graph.shortest_path(source_node, dest_node).unwrap();
        assert_eq!(
            expected_path, *shortest_path,
            "Input of ({}, {}) produced an unexpected shortest path",
            source_node, dest_node
        );
    }
}

#[test]
fn path_finding_data_calculate_distance_map_produces_expected_values() {
    let (nodes, edges) = nightmare_like_input();
    let graph = NodeGraph::build(nodes, edges).unwrap();

    for (source_node, dest_node, expected_path) in nightmare_expected_paths() {
        let shortest_path = graph.shortest_path(source_node, dest_node).unwrap();
        assert_eq!(
            expected_path, *shortest_path,
            "Input of ({}, {}) produced an unexpected shortest path",
            source_node, dest_node
        );
    }
}

#[test]
fn unreachable_pair_has_no_route() {
    let graph = NodeGraph::create_nightmare().unwrap();
    // node 7 is an exit: nothing leads out of it
    assert!(graph.shortest_path(7, 1).is_none());
    // a destination is never a source key
    assert!(graph.shortest_path(0, 7).is_none());
}

#[test]
fn classification_matches_edge_directions() {
    let graph = NodeGraph::create_nightmare().unwrap();
    assert_eq!(graph.source_nodes, vec![1, 2, 5, 6]);
    assert_eq!(graph.dest_nodes, vec![0, 3, 4, 7]);
    assert!(graph.is_source_node(1));
    assert!(!graph.is_source_node(0));
    assert!(graph.is_dest_node(0));
    assert!(!graph.is_dest_node(9));
}

#[test]
fn edge_length_is_world_distance() {
    let graph = NodeGraph::create_nightmare().unwrap();
    // edge 1 -> 9 runs straight from z = 10000 to z = 1000
    assert_eq!(graph.edge_length(1, 9), 9000);
    // edge 9 -> 10 is a 2000 x 2000 diagonal: floor(sqrt(8_000_000))
    assert_eq!(graph.edge_length(9, 10), 2828);
}

#[test]
fn edge_between_reports_priority() {
    let graph = NodeGraph::create_roundabout().unwrap();
    let rotary = graph.edge_between(8, 13).unwrap();
    assert!(rotary.priority);
    let approach = graph.edge_between(0, 8).unwrap();
    assert!(!approach.priority);
    assert!(graph.edge_between(0, 13).is_none());
}

#[test]
fn build_rejects_out_of_range_edge() {
    let (nodes, mut edges) = nightmare_like_input();
    edges.push(edge(3, 99));
    assert!(matches!(NodeGraph::build(nodes, edges), Err(InvalidGraph::EdgeOutOfRange)));
}

#[test]
fn build_rejects_duplicate_edge() {
    let (nodes, mut edges) = nightmare_like_input();
    edges.push(edge(1, 9));
    assert!(matches!(NodeGraph::build(nodes, edges), Err(InvalidGraph::DuplicateEdge)));
}

#[test]
fn build_rejects_zero_length_edge() {
    let nodes = vec![node(0, 0, 0), node(0, 0, 0), node(1000, 0, 0)];
    let edges = vec![edge(0, 1), edge(1, 2), edge(2, 0)];
    assert!(matches!(NodeGraph::build(nodes, edges), Err(InvalidGraph::ZeroLengthEdge)));
}

#[test]
fn build_rejects_isolated_node() {
    let nodes = vec![node(0, 0, 0), node(1000, 0, 0), node(5000, 5000, 0)];
    let edges = vec![edge(0, 1)];
    assert!(matches!(NodeGraph::build(nodes, edges), Err(InvalidGraph::IsolatedNode)));
}

#[test]
fn build_rejects_position_out_of_range() {
    let nodes = vec![node(0, 0, 0), node(2_000_000, 0, 0)];
    let edges = vec![edge(0, 1)];
    assert!(matches!(NodeGraph::build(nodes, edges), Err(InvalidGraph::PositionOutOfRange)));
}

#[test]
fn serialization_round_trip_recovers_graph() {
    let graph = NodeGraph::create_roundabout().unwrap();

    let node_data: Vec<(i64, i64, i64)> =
        graph.nodes.iter().map(|n| (n.position.x, n.position.y, n.position.z)).collect();
    let edge_data: Vec<(usize, usize, bool)> =
        graph.edges.iter().map(|e| (e.source, e.dest, e.priority)).collect();

    let json = serde_json::to_string(&(node_data, edge_data)).unwrap();
    let (nodes_back, edges_back): (Vec<(i64, i64, i64)>, Vec<(usize, usize, bool)>) =
        serde_json::from_str(&json).unwrap();

    let rebuilt_nodes: Vec<Node> = nodes_back.iter().map(|&(x, y, z)| node(x, y, z)).collect();
    let rebuilt_edges: Vec<Edge> = edges_back
        .iter()
        .map(|&(source, dest, priority)| Edge { source, dest, priority })
        .collect();
    let rebuilt = NodeGraph::build(rebuilt_nodes, rebuilt_edges).unwrap();

    assert_eq!(graph.nodes, rebuilt.nodes);
    let mut original_set: Vec<(usize, usize, bool)> =
        graph.edges.iter().map(|e| (e.source, e.dest, e.priority)).collect();
    let mut rebuilt_set: Vec<(usize, usize, bool)> =
        rebuilt.edges.iter().map(|e| (e.source, e.dest, e.priority)).collect();
    original_set.sort();
    rebuilt_set.sort();
    assert_eq!(original_set, rebuilt_set);
    // the derived route table is identical as well
    for entry in &graph.shortest_path_map {
        let p = rebuilt.shortest_path(entry.source, entry.dest).unwrap();
        assert_eq!(entry.path, *p);
    }
}

#[test]
fn is_edge_in_path_uses_first_occurrences() {
    let path = vec![1usize, 9, 7];
    assert!(NodeGraph::is_edge_in_path(1, 9, &path));
    assert!(NodeGraph::is_edge_in_path(9, 7, &path));
    assert!(!NodeGraph::is_edge_in_path(1, 7, &path));
    assert!(!NodeGraph::is_edge_in_path(9, 1, &path));
    assert!(!NodeGraph::is_edge_in_path(4, 5, &path));
}
