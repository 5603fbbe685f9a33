use traffic_sim::NodeGraph;
use traffic_sim::SimConfig;
use traffic_sim::Simulation;
use traffic_sim::InvalidConfig;
use traffic_sim::Vehicle;
use traffic_sim::VehicleSpawnLimiter;
use traffic_sim::VehicleState;

fn config() -> SimConfig {
    SimConfig {
        spawn_interval: 500,
        min_speed: 4000,
        max_speed: 10000,
        follow_distance: 700,
        node_acquisition_buffer: 900,
        node_release_buffer: 1000,
    }
}

fn simulation() -> Simulation {
    Simulation::new(NodeGraph::create_nightmare().unwrap(), config()).unwrap()
}

#[test]
fn rate_limiter_grants_at_most_once_per_interval() {
    let mut limiter = VehicleSpawnLimiter::new(500);
    assert!(limiter.try_spawn(1000));
    // a second call inside the interval after a success is denied
    assert!(!limiter.try_spawn(1200));
    assert!(!limiter.try_spawn(1499));
    // and granted again exactly one interval later
    assert!(limiter.try_spawn(1500));
    assert!(!limiter.try_spawn(1999));
}

#[test]
fn new_rejects_bad_configurations() {
    let graph = || NodeGraph::create_nightmare().unwrap();
    let mut c = config();
    c.min_speed = 5000;
    c.max_speed = 4000;
    assert!(matches!(Simulation::new(graph(), c), Err(InvalidConfig::SpeedRange)));

    let mut c = config();
    c.follow_distance = -1;
    assert!(matches!(Simulation::new(graph(), c), Err(InvalidConfig::FollowDistance)));

    let mut c = config();
    c.node_release_buffer = 800;  // below the acquisition buffer
    assert!(matches!(Simulation::new(graph(), c), Err(InvalidConfig::Buffers)));

    let mut c = config();
    // the shortest nightmare edge is 2000 long
    c.node_acquisition_buffer = 2500;
    c.node_release_buffer = 2500;
    assert!(matches!(Simulation::new(graph(), c), Err(InvalidConfig::EdgeShorterThanBuffer)));
}

#[test]
fn spawned_vehicle_draws_route_and_speed_from_configuration() {
    let mut sim = simulation();
    let spawned = sim.spawn_vehicle(0);
    assert_eq!(spawned.len(), 1);
    let v = sim.vehicles.last().unwrap();
    assert_eq!(v.id, spawned[0]);
    assert_eq!(v.path_index, 0);
    assert_eq!(v.edge_position, 0);
    assert!(matches!(v.state, VehicleState::Travelling));
    assert!(v.speed >= 4000 && v.speed <= 10000);
    // the route is one of the precomputed shortest routes
    assert!(sim.graph.shortest_path_map.iter().any(|e| e.path == v.path));
    // the first spawn takes the highlight
    assert_eq!(sim.get_highlighted_vehicle_id(), Some(v.id));
    assert!(sim.is_highlighted(v.id));

    // inside the interval the limiter refuses a second spawn
    let refused = sim.spawn_vehicle(100);
    assert_eq!(refused.len(), 0);
    let granted = sim.spawn_vehicle(500);
    assert_eq!(granted.len(), 1);
    // the highlight stays with the first vehicle
    assert_eq!(sim.get_highlighted_vehicle_id(), Some(spawned[0]));
}

#[test]
fn clear_highlight_empties_the_slot() {
    let mut sim = simulation();
    let spawned = sim.spawn_vehicle(0);
    assert!(sim.is_highlighted(spawned[0]));
    sim.clear_highlight();
    assert_eq!(sim.get_highlighted_vehicle_id(), None);
}

#[test]
fn vehicle_ids_increase_monotonically() {
    let mut sim = simulation();
    let a = sim.spawn_vehicle(0);
    let b = sim.spawn_vehicle(1000);
    let c = sim.spawn_vehicle(2000);
    assert_eq!((a[0], b[0], c[0]), (0, 1, 2));
}

#[test]
fn tick_reports_an_arrival_exactly_once() {
    let mut sim = simulation();
    // use up the limiter's initial grant, so no tick below spawns again
    // within the 500-unit interval
    let first = sim.spawn_vehicle(0);
    assert_eq!(first.len(), 1);
    // a hand-placed fast vehicle on the short route 5 -> 8 -> 0; its id is
    // far above anything the ticks below will allocate
    let watched = 777usize;
    let path = sim.graph.shortest_path(5, 0).unwrap().clone();
    sim.vehicles.push(Vehicle {
        id: watched,
        path,
        path_index: 0,
        edge_position: 0,
        speed: 10000,
        state: VehicleState::Travelling,
    });

    let mut seen: usize = 0;
    let mut now: u64 = 0;
    for _ in 0..40 {
        now += 1;
        let report = sim.tick(now, 1);
        seen += report.arrived.iter().filter(|&&id| id == watched).count();
        // an id reported arrived never names a surviving vehicle
        for id in &report.arrived {
            assert!(!sim.vehicles.iter().any(|v| v.id == *id));
        }
    }
    assert_eq!(seen, 1, "the vehicle must arrive exactly once");
    assert!(!sim.vehicles.iter().any(|v| v.id == watched));
}

#[test]
fn tick_preserves_the_reservation_clamp() {
    let mut sim = simulation();
    let mut now: u64 = 0;
    for _ in 0..60 {
        now += 300;
        sim.tick(now, 1);
        // every vehicle not holding its next shared node stays a buffer away
        for v in &sim.vehicles {
            if v.path_index + 2 <= v.path.len() - 1 {
                let next = v.path[v.path_index + 1];
                if sim.reservations.holder(next) != Some(v.id) {
                    let len = sim.graph.edge_length(v.path[v.path_index], next);
                    assert!(v.edge_position <= len - 900);
                }
            }
        }
    }
}
