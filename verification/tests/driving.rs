use traffic_sim::NodeGraph;
use traffic_sim::Position;
use traffic_sim::ReservationTable;
use traffic_sim::Vehicle;
use traffic_sim::VehicleSnap;
use traffic_sim::VehicleState;

const FOLLOW_DISTANCE: i64 = 700;
const ACQ_BUFFER: i64 = 900;
const REL_BUFFER: i64 = 1000;

fn nightmare() -> NodeGraph {
    NodeGraph::create_nightmare().unwrap()
}

fn vehicle(id: usize, path: Vec<usize>, edge_position: i64, speed: i64) -> Vehicle {
    Vehicle { id, path, path_index: 0, edge_position, speed, state: VehicleState::Travelling }
}

fn snap_of(vehicles: &[Vehicle]) -> Vec<VehicleSnap> {
    vehicles
        .iter()
        .filter(|v| v.path_index < v.path.len() - 1)
        .map(|v| VehicleSnap {
            id: v.id,
            from: v.path[v.path_index],
            to: v.path[v.path_index + 1],
            edge_position: v.edge_position,
        })
        .collect()
}

#[test]
fn world_position_interpolates_along_edge() {
    let graph = nightmare();
    // edge 1 -> 9: from (1000, 0, 10000) to (1000, 0, 1000), length 9000
    let v = vehicle(0, vec![1, 9, 7], 4500, 4000);
    let p = v.get_world_position(&graph);
    assert_eq!(p, Position { x: 1000, y: 0, z: 5500 });
}

#[test]
fn free_vehicle_covers_speed_times_dt() {
    let graph = nightmare();
    let table = ReservationTable::new(graph.num_nodes());
    let mut v = vehicle(0, vec![1, 9, 7], 0, 4000);
    let snap = snap_of(std::slice::from_ref(&v));
    v.drive(4000, &graph, &table, &snap, FOLLOW_DISTANCE, ACQ_BUFFER);
    assert_eq!(v.edge_position, 4000);
    assert!(matches!(v.state, VehicleState::Travelling));
}

#[test]
fn vehicle_without_reservation_waits_at_buffer() {
    let graph = nightmare();
    let table = ReservationTable::new(graph.num_nodes());
    // next node 9 is shared (not the destination) and unreserved
    let mut v = vehicle(0, vec![1, 9, 7], 7900, 4000);
    let snap = snap_of(std::slice::from_ref(&v));
    v.drive(4000, &graph, &table, &snap, FOLLOW_DISTANCE, ACQ_BUFFER);
    // edge length 9000: it stops exactly one buffer before the node
    assert_eq!(v.edge_position, 9000 - ACQ_BUFFER);
    assert!(matches!(v.state, VehicleState::Waiting));
    assert_eq!(v.path_index, 0);
}

#[test]
fn reservation_holder_crosses_and_carries_overshoot() {
    let graph = nightmare();
    let mut table = ReservationTable::new(graph.num_nodes());
    let mut v = vehicle(7, vec![1, 9, 7], 8600, 4000);
    let snap = snap_of(std::slice::from_ref(&v));
    table.acquire(&graph, &snap, ACQ_BUFFER);
    assert_eq!(table.holder(9), Some(7));
    v.drive(1000, &graph, &table, &snap, FOLLOW_DISTANCE, ACQ_BUFFER);
    // 400 units to the node, 600 carried onto edge 9 -> 7
    assert_eq!(v.path_index, 1);
    assert_eq!(v.edge_position, 600);
    assert!(matches!(v.state, VehicleState::Travelling));
}

#[test]
fn follower_keeps_follow_distance() {
    let graph = nightmare();
    let table = ReservationTable::new(graph.num_nodes());
    let lead = vehicle(1, vec![1, 9, 7], 3000, 4000);
    let mut tail = vehicle(2, vec![1, 9, 7], 1000, 4000);
    let snap = snap_of(&[lead.clone(), tail.clone()]);
    tail.drive(4000, &graph, &table, &snap, FOLLOW_DISTANCE, ACQ_BUFFER);
    // the gap was 2000: the tail may advance 2000 - 700 = 1300, not 4000
    assert_eq!(tail.edge_position, 2300);
}

#[test]
fn blocked_follower_waits_in_place() {
    let graph = nightmare();
    let table = ReservationTable::new(graph.num_nodes());
    let lead = vehicle(1, vec![1, 9, 7], 1600, 4000);
    let mut tail = vehicle(2, vec![1, 9, 7], 1000, 4000);
    let snap = snap_of(&[lead.clone(), tail.clone()]);
    tail.drive(4000, &graph, &table, &snap, FOLLOW_DISTANCE, ACQ_BUFFER);
    // the gap of 600 is below the follow distance: zero forward progress
    assert_eq!(tail.edge_position, 1000);
    assert!(matches!(tail.state, VehicleState::Waiting));
}

#[test]
fn exactly_one_vehicle_acquires_a_contested_node() {
    let graph = nightmare();
    let mut table = ReservationTable::new(graph.num_nodes());
    // two vehicles approach node 9 on different non-priority edges, both
    // inside the acquisition buffer: edge 1 -> 9 is 9000 long, 8 -> 9 is 2000
    let a = vehicle(10, vec![1, 9, 7], 8200, 4000);  // 800 from the node
    let b = vehicle(11, vec![5, 8, 9, 7], 1300, 4000);
    let mut b_on_edge = b.clone();
    b_on_edge.path_index = 1;  // on edge 8 -> 9, 700 from the node
    let snap = snap_of(&[a.clone(), b_on_edge.clone()]);
    table.acquire(&graph, &snap, ACQ_BUFFER);

    // the nearer vehicle wins; nobody else holds any node
    assert_eq!(table.holder(9), Some(11));
    for v in 0..graph.num_nodes() {
        assert_ne!(table.holder(v), Some(10));
    }

    // the loser stays waiting at the buffer until the reservation clears
    let mut blocked = a.clone();
    blocked.drive(4000, &graph, &table, &snap, FOLLOW_DISTANCE, ACQ_BUFFER);
    assert!(matches!(blocked.state, VehicleState::Waiting));
    assert_eq!(blocked.edge_position, 9000 - ACQ_BUFFER);

    // once the winner has crossed and left the release buffer, the next
    // release and acquire passes hand the node to the waiting vehicle
    let moved_on = VehicleSnap { id: 11, from: 9, to: 7, edge_position: 1200 };
    let waiting = VehicleSnap {
        id: 10,
        from: 1,
        to: 9,
        edge_position: blocked.edge_position,
    };
    let later = vec![waiting, moved_on];
    table.release(&graph, &later, REL_BUFFER);
    assert_eq!(table.holder(9), None);
    table.acquire(&graph, &later, ACQ_BUFFER);
    assert_eq!(table.holder(9), Some(10));
}

#[test]
fn contested_node_tie_breaks_by_lower_id() {
    let graph = nightmare();
    let mut table = ReservationTable::new(graph.num_nodes());
    // both vehicles exactly 800 from node 9
    let a = vehicle(21, vec![1, 9, 7], 8200, 4000);
    let mut b = vehicle(20, vec![5, 8, 9, 7], 1200, 4000);
    b.path_index = 1;
    let snap = snap_of(&[a, b]);
    table.acquire(&graph, &snap, ACQ_BUFFER);
    assert_eq!(table.holder(9), Some(20));
}

#[test]
fn priority_edges_preempt_other_approaches() {
    let graph = NodeGraph::create_roundabout().unwrap();
    let mut table = ReservationTable::new(graph.num_nodes());
    // node 8 is fed by the approach 0 -> 8 (no priority) and the rotary
    // 12 -> 8 (priority).  Only the rotary vehicle may acquire it.
    let len_approach = graph.edge_length(0, 8);
    let len_rotary = graph.edge_length(12, 8);
    let on_approach = VehicleSnap { id: 1, from: 0, to: 8, edge_position: len_approach - 100 };
    let on_rotary = VehicleSnap { id: 2, from: 12, to: 8, edge_position: len_rotary - 850 };
    table.acquire(&graph, &snap_vec(&[on_approach, on_rotary]), ACQ_BUFFER);
    assert_eq!(table.holder(8), Some(2));

    // without rotary traffic the pre-emption still bars the approach
    let mut empty_table = ReservationTable::new(graph.num_nodes());
    empty_table.acquire(&graph, &snap_vec(&[on_approach]), ACQ_BUFFER);
    assert_eq!(empty_table.holder(8), None);
}

fn snap_vec(entries: &[VehicleSnap]) -> Vec<VehicleSnap> {
    entries.to_vec()
}

#[test]
fn release_pass_frees_distant_and_stale_holders() {
    let graph = nightmare();
    let mut table = ReservationTable::new(graph.num_nodes());
    let near = VehicleSnap { id: 1, from: 1, to: 9, edge_position: 8200 };
    let snap = snap_vec(&[near]);
    table.acquire(&graph, &snap, ACQ_BUFFER);
    assert_eq!(table.holder(9), Some(1));

    // still within the release buffer: kept
    table.release(&graph, &snap, REL_BUFFER);
    assert_eq!(table.holder(9), Some(1));

    // the holder moved past the node and beyond the release buffer
    let moved = VehicleSnap { id: 1, from: 9, to: 7, edge_position: 1500 };
    table.release(&graph, &snap_vec(&[moved]), REL_BUFFER);
    assert_eq!(table.holder(9), None);

    // a stale reservation whose holder left the snapshot is dropped too
    let mut stale = ReservationTable::new(graph.num_nodes());
    stale.acquire(&graph, &snap, ACQ_BUFFER);
    assert_eq!(stale.holder(9), Some(1));
    stale.release(&graph, &snap_vec(&[]), REL_BUFFER);
    assert_eq!(stale.holder(9), None);
}

#[test]
fn a_node_has_at_most_one_holder() {
    let graph = nightmare();
    let mut table = ReservationTable::new(graph.num_nodes());
    let a = VehicleSnap { id: 1, from: 1, to: 9, edge_position: 8200 };
    let b = VehicleSnap { id: 2, from: 8, to: 9, edge_position: 1300 };
    let c = VehicleSnap { id: 3, from: 2, to: 10, edge_position: 8500 };
    table.acquire(&graph, &snap_vec(&[a, b, c]), ACQ_BUFFER);
    // each node resolves to one holder; the contested node to exactly one
    assert_eq!(table.holder(9), Some(2));
    assert_eq!(table.holder(10), Some(3));
    let holders: Vec<usize> = (0..graph.num_nodes()).filter_map(|v| table.holder(v)).collect();
    assert_eq!(holders.len(), 2);
}
