//! The simulation driver: owns the network, the live vehicles and the
//! reservation table, and advances everything by one tick at a time.
//!
//! A tick snapshots the vehicles, refreshes the reservations from the
//! snapshot, drives every vehicle against the refreshed table and the same
//! snapshot, removes and reports arrivals, and finally offers the rate
//! limiter a chance to spawn one new vehicle on a randomly chosen route.

use vstd::prelude::*;

use crate::graph::NodeGraph;
use crate::ids::VehicleIdGenerator;
use crate::limiter::spawn_granted;
use crate::limiter::VehicleSpawnLimiter;
use crate::random::random_below;
use crate::reservations::acquire_post;
use crate::reservations::release_post;
use crate::reservations::snap_wf;
use crate::reservations::ReservationTable;
use crate::reservations::VehicleSnap;
use crate::vehicle::clamped_before_unheld_node;
use crate::vehicle::drive_spec;
use crate::vehicle::edges_at_least;
use crate::vehicle::vehicle_wf;
use crate::vehicle::Vehicle;
use crate::vehicle::VehicleState;
use crate::geometry::EDGE_LEN_LIMIT;

verus! {

broadcast use vstd::seq_lib::lemma_seq_contains_after_push, vstd::seq::Seq::lemma_filter_push, vstd::seq::Seq::lemma_push_map_commute;

/// Largest constant speed a vehicle may be assigned, in world units per time
/// unit.
pub const SPEED_LIMIT: i64 = 1_000_000;

/// Largest elapsed time one tick may cover, in time units.
pub const DT_LIMIT: i64 = 1_000_000;

/// The recognized simulation options, all lengths in world units and times
/// in the caller's time units.
#[derive(Clone, Copy, PartialEq, Eq, Structural, Debug)]
pub struct SimConfig {
    /// Minimum time between two granted spawns.
    pub spawn_interval: u64,
    pub min_speed: i64,
    pub max_speed: i64,
    /// Gap a vehicle keeps behind the vehicle ahead on the same edge.
    pub follow_distance: i64,
    /// Distance from a node within which a reservation is needed and granted.
    pub node_acquisition_buffer: i64,
    /// Distance beyond which a held reservation is released; at least the
    /// acquisition buffer, to avoid flapping.
    pub node_release_buffer: i64,
}

/// Why a configuration was rejected.
#[derive(Clone, Copy, PartialEq, Eq, Structural, Debug)]
pub enum InvalidConfig {
    /// Speeds must satisfy `0 <= min_speed <= max_speed <= SPEED_LIMIT`.
    SpeedRange,
    /// The follow distance must be nonnegative and below `EDGE_LEN_LIMIT`.
    FollowDistance,
    /// Buffers must satisfy
    /// `0 < acquisition <= release < EDGE_LEN_LIMIT`.
    Buffers,
    /// Some edge of the graph is shorter than the release buffer, so a
    /// waiting vehicle could not stay on its edge.
    EdgeShorterThanBuffer,
}

/// The conditions under which a configuration is accepted.
pub open spec fn config_wf(c: SimConfig) -> bool {
    &&& 0 <= c.min_speed <= c.max_speed <= SPEED_LIMIT
    &&& 0 <= c.follow_distance < EDGE_LEN_LIMIT
    &&& 0 < c.node_acquisition_buffer <= c.node_release_buffer < EDGE_LEN_LIMIT
}

/// What one tick reports back: vehicles that reached their destination this
/// tick and vehicles spawned this tick, by id.
pub struct TickReport {
    pub arrived: Vec<usize>,
    pub spawned: Vec<usize>,
}

/// The per-tick read-only record of all travelling vehicles, in vehicle
/// order.
pub open spec fn snapshot_spec(vs: Seq<Vehicle>) -> Seq<VehicleSnap>
    decreases vs.len(),
{
    if vs.len() == 0 {
        Seq::empty()
    } else {
        let rest = snapshot_spec(vs.drop_last());
        let v = vs.last();
        if v.path_index < v.path@.len() - 1 {
            rest.push(
                VehicleSnap {
                    id: v.id,
                    from: v.path@[v.path_index as int],
                    to: v.path@[v.path_index as int + 1],
                    edge_position: v.edge_position,
                },
            )
        } else {
            rest
        }
    }
}

/// Every snapshot id comes from some vehicle of the list.
proof fn lemma_snapshot_ids(vs: Seq<Vehicle>, i: int)
    requires
        0 <= i < snapshot_spec(vs).len(),
    ensures
        exists|k: int| 0 <= k < vs.len() && (#[trigger] vs[k]).id == snapshot_spec(vs)[i].id,
    decreases vs.len(),
{
    if vs.len() > 0 {
        let rest = snapshot_spec(vs.drop_last());
        if i < rest.len() {
            lemma_snapshot_ids(vs.drop_last(), i);
            let k = choose|k: int|
                0 <= k < vs.drop_last().len() && (#[trigger] vs.drop_last()[k]).id == rest[i].id;
            assert(vs[k].id == snapshot_spec(vs)[i].id);
        } else {
            assert(vs[vs.len() - 1].id == snapshot_spec(vs)[i].id);
        }
    }
}

/// A travelling vehicle appears in the snapshot with its edge and progress.
proof fn lemma_snapshot_covers(vs: Seq<Vehicle>, k: int)
    requires
        0 <= k < vs.len(),
        vs[k].path_index < vs[k].path@.len() - 1,
    ensures
        exists|i: int|
            0 <= i < snapshot_spec(vs).len() && #[trigger] snapshot_spec(vs)[i] == (VehicleSnap {
                id: vs[k].id,
                from: vs[k].path@[vs[k].path_index as int],
                to: vs[k].path@[vs[k].path_index as int + 1],
                edge_position: vs[k].edge_position,
            }),
    decreases vs.len(),
{
    let snap = snapshot_spec(vs);
    let rest = snapshot_spec(vs.drop_last());
    if k == vs.len() - 1 {
        assert(snap[snap.len() - 1] == (VehicleSnap {
            id: vs[k].id,
            from: vs[k].path@[vs[k].path_index as int],
            to: vs[k].path@[vs[k].path_index as int + 1],
            edge_position: vs[k].edge_position,
        }));
    } else {
        assert(vs.drop_last()[k] == vs[k]);
        lemma_snapshot_covers(vs.drop_last(), k);
        let i = choose|i: int|
            0 <= i < rest.len() && #[trigger] rest[i] == (VehicleSnap {
                id: vs[k].id,
                from: vs[k].path@[vs[k].path_index as int],
                to: vs[k].path@[vs[k].path_index as int + 1],
                edge_position: vs[k].edge_position,
            });
        assert(snap[i] == rest[i]);
    }
}

/// A snapshot of well-formed vehicles with distinct ids is itself sound.
proof fn lemma_snapshot_wf(g: NodeGraph, vs: Seq<Vehicle>)
    requires
        forall|k: int| 0 <= k < vs.len() ==> vehicle_wf(g, #[trigger] vs[k]),
        forall|k1: int, k2: int|
            0 <= k1 < k2 < vs.len() ==> (#[trigger] vs[k1]).id != (#[trigger] vs[k2]).id,
    ensures
        snap_wf(g, snapshot_spec(vs)),
    decreases vs.len(),
{
    let snap = snapshot_spec(vs);
    if vs.len() > 0 {
        assert(vs.drop_last() =~= vs.subrange(0, vs.len() - 1));
        lemma_snapshot_wf(g, vs.drop_last());
        let rest = snapshot_spec(vs.drop_last());
        let v = vs.last();
        if v.path_index < v.path@.len() - 1 {
            assert forall|i: int, j: int|
                0 <= i < j < snap.len() implies (#[trigger] snap[i]).id != (
            #[trigger] snap[j]).id by {
                if j == snap.len() - 1 {
                    lemma_snapshot_ids(vs.drop_last(), i);
                    let k = choose|k: int|
                        0 <= k < vs.drop_last().len() && (#[trigger] vs.drop_last()[k]).id
                            == rest[i].id;
                    assert(vs[k].id != vs[vs.len() - 1].id);
                }
            }
        }
    }
}

/// Vehicles advanced for one tick of `dt` time units, against a fixed
/// reservation table and snapshot; a vehicle with no distance to cover is
/// untouched.
pub open spec fn driven_spec(
    vs: Seq<Vehicle>,
    dt: int,
    g: NodeGraph,
    table: Seq<Option<usize>>,
    snap: Seq<VehicleSnap>,
    follow: int,
    buffer: int,
) -> Seq<Vehicle> {
    vs.map(
        |k: int, v: Vehicle|
            if v.speed * dt > 0 {
                drive_spec(v, v.speed * dt, g, table, snap, follow, buffer)
            } else {
                v
            },
    )
}

/// Whether a vehicle stands at the last node of its route.
pub open spec fn vehicle_arrived(v: Vehicle) -> bool {
    v.path_index >= v.path@.len() - 1
}

/// The vehicles of the list that have not arrived, in order.
pub open spec fn remaining_spec(vs: Seq<Vehicle>) -> Seq<Vehicle> {
    vs.filter(|v: Vehicle| !vehicle_arrived(v))
}

/// The ids of the vehicles of the list that have arrived, in order.
pub open spec fn arrived_ids_spec(vs: Seq<Vehicle>) -> Seq<usize> {
    vs.filter(|v: Vehicle| vehicle_arrived(v)).map_values(|v: Vehicle| v.id)
}

/// The authoritative simulation state.
pub struct Simulation {
    pub graph: NodeGraph,
    pub config: SimConfig,
    pub vehicles: Vec<Vehicle>,
    pub reservations: ReservationTable,
    pub id_generator: VehicleIdGenerator,
    pub spawn_limiter: VehicleSpawnLimiter,
    /// The one vehicle currently highlighted for the display layer, if any.
    pub highlighted_vehicle_id: Option<usize>,
}

impl Simulation {
    /// The whole-state invariant: a valid network and configuration, sound
    /// vehicles with distinct, already-allocated ids, and every vehicle
    /// outside the acquisition buffer of a next node it has not reserved.
    pub open spec fn wf(self) -> bool {
        &&& self.graph.wf()
        &&& config_wf(self.config)
        &&& self.reservations.wf(self.graph.n())
        &&& edges_at_least(self.graph, self.config.node_release_buffer as int)
        &&& forall|k: int|
            0 <= k < self.vehicles@.len() ==> vehicle_wf(self.graph, #[trigger] self.vehicles@[k])
        &&& forall|k: int|
            0 <= k < self.vehicles@.len() ==> self.config.min_speed <= (
            #[trigger] self.vehicles@[k]).speed <= self.config.max_speed
        &&& forall|k1: int, k2: int|
            0 <= k1 < k2 < self.vehicles@.len() ==> (#[trigger] self.vehicles@[k1]).id != (
            #[trigger] self.vehicles@[k2]).id
        &&& forall|k: int|
            0 <= k < self.vehicles@.len() ==> (#[trigger] self.vehicles@[k]).id
                < self.id_generator.spec_next()
        &&& forall|k: int|
            0 <= k < self.vehicles@.len() ==> clamped_before_unheld_node(
                self.graph,
                self.reservations.slots@,
                #[trigger] self.vehicles@[k],
                self.config.node_acquisition_buffer as int,
            )
    }

    /// Builds a simulation over a validated graph; rejects a configuration
    /// whose options are out of range or whose buffers do not fit the
    /// graph's shortest edge.
    pub fn new(graph: NodeGraph, config: SimConfig) -> (r: Result<Simulation, InvalidConfig>)
        requires
            graph.wf(),
        ensures
            r is Ok <==> config_wf(config) && edges_at_least(
                graph,
                config.node_release_buffer as int,
            ),
            r matches Ok(s) ==> s.wf() && s.graph == graph && s.config == config && s.vehicles@
                =~= Seq::<Vehicle>::empty() && s.id_generator.spec_next() == 0
                && s.spawn_limiter.spec_interval() == config.spawn_interval
                && s.spawn_limiter.spec_last_spawned() is None && s.highlighted_vehicle_id is None,
    {
        if !(0 <= config.min_speed && config.min_speed <= config.max_speed && config.max_speed
            <= SPEED_LIMIT) {
            return Result::Err(InvalidConfig::SpeedRange);
        }
        if !(0 <= config.follow_distance && config.follow_distance < EDGE_LEN_LIMIT) {
            return Result::Err(InvalidConfig::FollowDistance);
        }
        if !(0 < config.node_acquisition_buffer && config.node_acquisition_buffer
            <= config.node_release_buffer && config.node_release_buffer < EDGE_LEN_LIMIT) {
            return Result::Err(InvalidConfig::Buffers);
        }
        let mut i: usize = 0;
        let n_edges = graph.edges.len();
        while i < n_edges
            invariant
                i <= n_edges,
                n_edges == graph.edges@.len(),
                graph.wf(),
                forall|k: int|
                    0 <= k < i ==> crate::graph::edge_len_spec(
                        graph,
                        (#[trigger] graph.edges@[k]).source as int,
                        graph.edges@[k].dest as int,
                    ) >= config.node_release_buffer,
            decreases n_edges - i,
        {
            let e = graph.edges[i];
            proof {
                assert(crate::graph::has_edge(graph.edges@, e.source as int, e.dest as int));
            }
            let len = graph.edge_length(e.source, e.dest);
            if len < config.node_release_buffer {
                return Result::Err(InvalidConfig::EdgeShorterThanBuffer);
            }
            i = i + 1;
        }
        let n = graph.nodes.len();
        let reservations = ReservationTable::new(n);
        Result::Ok(
            Simulation {
                graph,
                config,
                vehicles: Vec::new(),
                reservations,
                id_generator: VehicleIdGenerator::new(),
                spawn_limiter: VehicleSpawnLimiter::new(config.spawn_interval),
                highlighted_vehicle_id: Option::None,
            },
        )
    }

    /// The id of the highlighted vehicle, if any.
    pub fn get_highlighted_vehicle_id(&self) -> (r: Option<usize>)
        ensures
            r == self.highlighted_vehicle_id,
    {
        self.highlighted_vehicle_id
    }

    /// Whether the given vehicle carries the highlight.
    pub fn is_highlighted(&self, id: usize) -> (r: bool)
        ensures
            r == (self.highlighted_vehicle_id == Option::Some(id)),
    {
        match self.highlighted_vehicle_id {
            Option::Some(h) => h == id,
            Option::None => false,
        }
    }

    /// Removes the highlight.
    pub fn clear_highlight(&mut self)
        ensures
            *final(self) == (Simulation { highlighted_vehicle_id: Option::None, ..*old(self) }),
    {
        self.highlighted_vehicle_id = Option::None;
    }

    /// Drives every vehicle by `speed * dt` world units against the given
    /// snapshot and the current reservation table.
    #[verifier::rlimit(100)]
    fn advance_all(&mut self, dt: i64, snap: &Vec<VehicleSnap>)
        requires
            old(self).graph.wf(),
            config_wf(old(self).config),
            old(self).reservations.wf(old(self).graph.n()),
            edges_at_least(old(self).graph, old(self).config.node_release_buffer as int),
            snap_wf(old(self).graph, snap@),
            0 <= dt <= DT_LIMIT,
            forall|k: int|
                0 <= k < old(self).vehicles@.len() ==> vehicle_wf(
                    old(self).graph,
                    #[trigger] old(self).vehicles@[k],
                ),
            forall|k: int|
                0 <= k < old(self).vehicles@.len() ==> 0 <= (#[trigger] old(self).vehicles@[k]).speed
                    <= SPEED_LIMIT,
            forall|k: int|
                0 <= k < old(self).vehicles@.len() ==> clamped_before_unheld_node(
                    old(self).graph,
                    old(self).reservations.slots@,
                    #[trigger] old(self).vehicles@[k],
                    old(self).config.node_acquisition_buffer as int,
                ),
        ensures
            final(self).graph == old(self).graph,
            final(self).config == old(self).config,
            final(self).reservations == old(self).reservations,
            final(self).id_generator == old(self).id_generator,
            final(self).spawn_limiter == old(self).spawn_limiter,
            final(self).highlighted_vehicle_id == old(self).highlighted_vehicle_id,
            final(self).vehicles@ == driven_spec(
                old(self).vehicles@,
                dt as int,
                old(self).graph,
                old(self).reservations.slots@,
                snap@,
                old(self).config.follow_distance as int,
                old(self).config.node_acquisition_buffer as int,
            ),
            forall|k: int|
                0 <= k < final(self).vehicles@.len() ==> vehicle_wf(
                    old(self).graph,
                    #[trigger] final(self).vehicles@[k],
                ),
            final(self).vehicles@.len() == old(self).vehicles@.len(),
            forall|k: int|
                0 <= k < final(self).vehicles@.len() ==> (#[trigger] final(self).vehicles@[k]).id
                    == old(self).vehicles@[k].id,
            forall|k: int|
                0 <= k < final(self).vehicles@.len() ==> (#[trigger] final(self).vehicles@[k]).speed
                    == old(self).vehicles@[k].speed && final(self).vehicles@[k].path@
                    == old(self).vehicles@[k].path@,
            forall|k: int|
                0 <= k < final(self).vehicles@.len() ==> clamped_before_unheld_node(
                    old(self).graph,
                    old(self).reservations.slots@,
                    #[trigger] final(self).vehicles@[k],
                    old(self).config.node_acquisition_buffer as int,
                ),
    {
        proof {
            assert forall|i: int|
                0 <= i < self.graph.edges@.len() implies crate::graph::edge_len_spec(
                self.graph,
                (#[trigger] self.graph.edges@[i]).source as int,
                self.graph.edges@[i].dest as int,
            ) >= self.config.node_acquisition_buffer by {
                assert(crate::graph::edge_len_spec(
                    self.graph,
                    self.graph.edges@[i].source as int,
                    self.graph.edges@[i].dest as int,
                ) >= self.config.node_release_buffer);
            }
        }
        let ghost orig = self.vehicles@;
        let vlen = self.vehicles.len();
        let mut k: usize = 0;
        while k < vlen
            invariant
                vlen == self.vehicles@.len(),
                k <= vlen,
                orig == old(self).vehicles@,
                orig.len() == vlen,
                self.graph == old(self).graph,
                self.config == old(self).config,
                self.reservations == old(self).reservations,
                self.id_generator == old(self).id_generator,
                self.spawn_limiter == old(self).spawn_limiter,
                self.highlighted_vehicle_id == old(self).highlighted_vehicle_id,
                self.graph.wf(),
                config_wf(self.config),
                self.reservations.wf(self.graph.n()),
                edges_at_least(self.graph, self.config.node_acquisition_buffer as int),
                snap_wf(self.graph, snap@),
                0 <= dt <= DT_LIMIT,
                forall|j: int|
                    k <= j < vlen ==> #[trigger] self.vehicles@[j] == orig[j],
                forall|j: int|
                    0 <= j < orig.len() ==> vehicle_wf(self.graph, #[trigger] orig[j])
                        && 0 <= orig[j].speed <= SPEED_LIMIT,
                forall|j: int|
                    0 <= j < orig.len() ==> clamped_before_unheld_node(
                        self.graph,
                        self.reservations.slots@,
                        #[trigger] orig[j],
                        self.config.node_acquisition_buffer as int,
                    ),
                forall|j: int|
                    0 <= j < k ==> #[trigger] self.vehicles@[j] == (if orig[j].speed * dt > 0 {
                        drive_spec(
                            orig[j],
                            orig[j].speed * dt,
                            self.graph,
                            self.reservations.slots@,
                            snap@,
                            self.config.follow_distance as int,
                            self.config.node_acquisition_buffer as int,
                        )
                    } else {
                        orig[j]
                    }),
                forall|j: int|
                    0 <= j < k ==> vehicle_wf(self.graph, #[trigger] self.vehicles@[j]),
                forall|j: int|
                    0 <= j < k ==> (#[trigger] self.vehicles@[j]).id == orig[j].id
                        && self.vehicles@[j].speed == orig[j].speed && self.vehicles@[j].path@
                        == orig[j].path@,
                forall|j: int|
                    0 <= j < k ==> clamped_before_unheld_node(
                        self.graph,
                        self.reservations.slots@,
                        #[trigger] self.vehicles@[j],
                        self.config.node_acquisition_buffer as int,
                    ),
            decreases vlen - k,
        {
            let speed = self.vehicles[k].speed;
            let distance = tick_distance(speed, dt);
            if distance > 0 {
                let follow = self.config.follow_distance;
                let buffer = self.config.node_acquisition_buffer;
                self.vehicles[k].drive(
                    distance,
                    &self.graph,
                    &self.reservations,
                    snap,
                    follow,
                    buffer,
                );
            }
            k = k + 1;
        }
        proof {
            let driven = driven_spec(
                orig,
                dt as int,
                self.graph,
                self.reservations.slots@,
                snap@,
                self.config.follow_distance as int,
                self.config.node_acquisition_buffer as int,
            );
            assert forall|j: int| 0 <= j < vlen implies #[trigger] self.vehicles@[j] == driven[j] by {
                assert(driven[j] == (if orig[j].speed * (dt as int) > 0 {
                    drive_spec(
                        orig[j],
                        orig[j].speed * dt,
                        self.graph,
                        self.reservations.slots@,
                        snap@,
                        self.config.follow_distance as int,
                        self.config.node_acquisition_buffer as int,
                    )
                } else {
                    orig[j]
                }));
            }
            assert(self.vehicles@ =~= driven);
        }
    }

    /// Removes every vehicle standing at its final node, reporting their
    /// ids in order and clearing the highlight if its bearer left.
    #[verifier::rlimit(100)]
    fn collect_arrivals(&mut self) -> (arrived: Vec<usize>)
        requires
            forall|k: int|
                0 <= k < old(self).vehicles@.len() ==> (#[trigger] old(self).vehicles@[k]).path@.len() >= 1,
        ensures
            final(self).graph == old(self).graph,
            final(self).config == old(self).config,
            final(self).reservations == old(self).reservations,
            final(self).id_generator == old(self).id_generator,
            final(self).spawn_limiter == old(self).spawn_limiter,
            final(self).vehicles@ == remaining_spec(old(self).vehicles@),
            arrived@ == arrived_ids_spec(old(self).vehicles@),
            final(self).highlighted_vehicle_id == (match old(self).highlighted_vehicle_id {
                Option::Some(h) => if arrived_ids_spec(old(self).vehicles@).contains(h) {
                    Option::<usize>::None
                } else {
                    Option::Some(h)
                },
                Option::None => Option::<usize>::None,
            }),
    {
        let ghost orig = self.vehicles@;
        // reverse the list so vehicles can be moved out in original order
        let mut rev: Vec<Vehicle> = Vec::new();
        while self.vehicles.len() > 0
            invariant
                orig == old(self).vehicles@,
                forall|k: int| 0 <= k < orig.len() ==> (#[trigger] orig[k]).path@.len() >= 1,
                rev@.len() + self.vehicles@.len() == orig.len(),
                self.vehicles@ == orig.take(self.vehicles@.len() as int),
                forall|i: int|
                    0 <= i < rev@.len() ==> #[trigger] rev@[i] == orig[orig.len() - 1 - i],
                self.graph == old(self).graph,
                self.config == old(self).config,
                self.reservations == old(self).reservations,
                self.id_generator == old(self).id_generator,
                self.spawn_limiter == old(self).spawn_limiter,
                self.highlighted_vehicle_id == old(self).highlighted_vehicle_id,
            decreases self.vehicles@.len(),
        {
            let v = self.vehicles.pop().unwrap();
            rev.push(v);
        }

        let mut kept: Vec<Vehicle> = Vec::new();
        let mut arrived: Vec<usize> = Vec::new();
        while rev.len() > 0
            invariant
                orig == old(self).vehicles@,
                forall|k: int| 0 <= k < orig.len() ==> (#[trigger] orig[k]).path@.len() >= 1,
                rev@.len() <= orig.len(),
                forall|i: int|
                    0 <= i < rev@.len() ==> #[trigger] rev@[i] == orig[orig.len() - 1 - i],
                kept@ == remaining_spec(orig.take(orig.len() - rev@.len())),
                arrived@ == arrived_ids_spec(orig.take(orig.len() - rev@.len())),
                self.highlighted_vehicle_id == (match old(self).highlighted_vehicle_id {
                    Option::Some(h) => if arrived@.contains(h) {
                        Option::<usize>::None
                    } else {
                        Option::Some(h)
                    },
                    Option::None => Option::<usize>::None,
                }),
                self.graph == old(self).graph,
                self.config == old(self).config,
                self.reservations == old(self).reservations,
                self.id_generator == old(self).id_generator,
                self.spawn_limiter == old(self).spawn_limiter,
            decreases rev@.len(),
        {
            let ghost j = orig.len() - rev@.len() as int;
            let v = rev.pop().unwrap();
            proof {
                assert(v == orig[j]);
                orig.lemma_take_succ_push(j);
                assert(orig.take(j + 1).drop_last() =~= orig.take(j));
                assert(orig.take(j + 1) =~= orig.take(j).push(orig[j]));
            }
            if v.path_index >= v.path.len() - 1 {
                match self.highlighted_vehicle_id {
                    Option::Some(h) => {
                        if h == v.id {
                            self.highlighted_vehicle_id = Option::None;
                        }
                    },
                    Option::None => {},
                }
                arrived.push(v.id);
            } else {
                kept.push(v);
            }
            proof {
                assert(orig.take(j + 1).filter(|v: Vehicle| vehicle_arrived(v))
                    == if vehicle_arrived(orig[j]) {
                    orig.take(j).filter(|v: Vehicle| vehicle_arrived(v)).push(orig[j])
                } else {
                    orig.take(j).filter(|v: Vehicle| vehicle_arrived(v))
                });
                assert(orig.take(j + 1).filter(|v: Vehicle| !vehicle_arrived(v))
                    == if !vehicle_arrived(orig[j]) {
                    orig.take(j).filter(|v: Vehicle| !vehicle_arrived(v)).push(orig[j])
                } else {
                    orig.take(j).filter(|v: Vehicle| !vehicle_arrived(v))
                });
            }
        }
        self.vehicles = kept;
        proof {
            assert(orig.take(orig.len() as int) =~= orig);
        }
        arrived
    }

    /// Spawns at most one vehicle: the rate limiter must grant the attempt
    /// and the route table must be nonempty.  The new vehicle gets the next
    /// id, a uniformly drawn route and speed, and the highlight if nothing
    /// carries it.
    #[verifier::rlimit(100)]
    pub fn spawn_vehicle(&mut self, now: u64) -> (spawned: Vec<usize>)
        requires
            old(self).wf(),
            old(self).spawn_limiter.now_admissible(now),
            old(self).id_generator.spec_next() < usize::MAX,
        ensures
            final(self).wf(),
            final(self).graph == old(self).graph,
            final(self).config == old(self).config,
            final(self).reservations == old(self).reservations,
            spawned@.len() <= 1,
            (spawned@.len() == 1) <==> (spawn_granted(
                old(self).spawn_limiter.spec_interval(),
                old(self).spawn_limiter.spec_last_spawned(),
                now,
            ) && old(self).graph.shortest_path_map@.len() > 0),
            final(self).spawn_limiter.spec_interval() == old(self).spawn_limiter.spec_interval(),
            final(self).spawn_limiter.spec_last_spawned() == (if spawn_granted(
                old(self).spawn_limiter.spec_interval(),
                old(self).spawn_limiter.spec_last_spawned(),
                now,
            ) {
                Option::Some(now)
            } else {
                old(self).spawn_limiter.spec_last_spawned()
            }),
            spawned@.len() == 0 ==> final(self).vehicles@ == old(self).vehicles@ && final(self).id_generator == old(self).id_generator && final(self).highlighted_vehicle_id == old(self).highlighted_vehicle_id,
            spawned@.len() == 1 ==> spawned@[0] == old(self).id_generator.spec_next() && final(self).id_generator.spec_next() == old(self).id_generator.spec_next() + 1 && final(self).vehicles@.len() == old(self).vehicles@.len() + 1 && final(self).vehicles@.take(
                old(self).vehicles@.len() as int,
            ) == old(self).vehicles@ && (final(self).vehicles@.last().id == spawned@[0]) && (final(self).vehicles@.last().path_index == 0) && (final(self).vehicles@.last().edge_position == 0)
                && (final(self).vehicles@.last().state is Travelling) && (old(self).config.min_speed <= final(self).vehicles@.last().speed <= old(self).config.max_speed)
                && (exists|k: int|
                0 <= k < old(self).graph.shortest_path_map@.len() && final(self).vehicles@.last().path@ == (#[trigger] old(self).graph.shortest_path_map@[k]).path@),
            spawned@.len() == 1 ==> final(self).highlighted_vehicle_id == (
            if old(self).highlighted_vehicle_id is None {
                Option::Some(spawned@[0])
            } else {
                old(self).highlighted_vehicle_id
            }),
    {
        let mut spawned: Vec<usize> = Vec::new();
        if !self.spawn_limiter.try_spawn(now) {
            return spawned;
        }
        let m = self.graph.shortest_path_map.len();
        if m == 0 {
            return spawned;
        }
        let pick = random_below(m as u64) as usize;
        let entry = &self.graph.shortest_path_map[pick];
        let span = (self.config.max_speed - self.config.min_speed + 1) as u64;
        let speed = self.config.min_speed + (random_below(span) as i64);
        let id = self.id_generator.get_id();
        let path = copy_path(&entry.path);
        let vehicle = Vehicle {
            id,
            path,
            path_index: 0,
            edge_position: 0,
            speed,
            state: VehicleState::Travelling,
        };
        proof {
            // the chosen route entry makes the new vehicle well formed
            assert(crate::paths::path_entry_wf(
                self.graph.nodes@,
                self.graph.edges@,
                self.graph.shortest_path_map@[pick as int],
            ));
            let u = vehicle.path@[0];
            let w = vehicle.path@[1];
            assert(crate::graph::has_edge(self.graph.edges@, u as int, w as int));
            let ei = choose|ei: int|
                0 <= ei < self.graph.edges@.len() && (#[trigger] self.graph.edges@[ei]).source
                    == u as int && self.graph.edges@[ei].dest == w as int;
            assert(crate::graph::edge_len_spec(self.graph, u as int, w as int)
                >= self.config.node_release_buffer);
            assert(vehicle_wf(self.graph, vehicle));
        }
        self.vehicles.push(vehicle);
        spawned.push(id);
        if self.highlighted_vehicle_id.is_none() {
            self.highlighted_vehicle_id = Option::Some(id);
        }
        spawned
    }

    /// Advances the whole simulation by one tick of `dt` time units at
    /// timestamp `now`: refreshes reservations from a snapshot, drives every
    /// vehicle, removes and reports arrivals, and offers one spawn.
    #[verifier::rlimit(100)]
    pub fn tick(&mut self, now: u64, dt: i64) -> (r: TickReport)
        requires
            old(self).wf(),
            0 <= dt <= DT_LIMIT,
            old(self).spawn_limiter.now_admissible(now),
            old(self).id_generator.spec_next() < usize::MAX,
        ensures
            final(self).wf(),
            final(self).graph == old(self).graph,
            final(self).config == old(self).config,
            // the reservation table was refreshed from the pre-tick snapshot:
            // a release pass, then an acquire pass
            exists|mid: Seq<Option<usize>>|
                release_post(
                    old(self).graph,
                    snapshot_spec(old(self).vehicles@),
                    old(self).config.node_release_buffer,
                    old(self).reservations.slots@,
                    mid,
                ) && #[trigger] acquire_post(
                    old(self).graph,
                    snapshot_spec(old(self).vehicles@),
                    old(self).config.node_acquisition_buffer,
                    mid,
                    final(self).reservations.slots@,
                ),
            // every pre-tick vehicle advanced against the refreshed table and
            // the pre-tick snapshot; those at their last node left and are
            // reported, the rest survive in order
            r.arrived@ == arrived_ids_spec(
                driven_spec(
                    old(self).vehicles@,
                    dt as int,
                    old(self).graph,
                    final(self).reservations.slots@,
                    snapshot_spec(old(self).vehicles@),
                    old(self).config.follow_distance as int,
                    old(self).config.node_acquisition_buffer as int,
                ),
            ),
            r.spawned@.len() == 0 ==> final(self).vehicles@ == remaining_spec(
                driven_spec(
                    old(self).vehicles@,
                    dt as int,
                    old(self).graph,
                    final(self).reservations.slots@,
                    snapshot_spec(old(self).vehicles@),
                    old(self).config.follow_distance as int,
                    old(self).config.node_acquisition_buffer as int,
                ),
            ),
            r.spawned@.len() == 1 ==> final(self).vehicles@.len() == remaining_spec(
                driven_spec(
                    old(self).vehicles@,
                    dt as int,
                    old(self).graph,
                    final(self).reservations.slots@,
                    snapshot_spec(old(self).vehicles@),
                    old(self).config.follow_distance as int,
                    old(self).config.node_acquisition_buffer as int,
                ),
            ).len() + 1 && final(self).vehicles@.take(final(self).vehicles@.len() - 1)
                == remaining_spec(
                driven_spec(
                    old(self).vehicles@,
                    dt as int,
                    old(self).graph,
                    final(self).reservations.slots@,
                    snapshot_spec(old(self).vehicles@),
                    old(self).config.follow_distance as int,
                    old(self).config.node_acquisition_buffer as int,
                ),
            ),
            // a spawn happens exactly when the limiter grants one and a route
            // exists; the new vehicle starts the chosen route at its head
            r.spawned@.len() <= 1,
            (r.spawned@.len() == 1) <==> (spawn_granted(
                old(self).spawn_limiter.spec_interval(),
                old(self).spawn_limiter.spec_last_spawned(),
                now,
            ) && old(self).graph.shortest_path_map@.len() > 0),
            r.spawned@.len() == 1 ==> r.spawned@[0] == old(self).id_generator.spec_next()
                && final(self).id_generator.spec_next() == old(self).id_generator.spec_next() + 1
                && (final(self).vehicles@.last().id == r.spawned@[0]) && (final(self).vehicles@.last().path_index == 0) && (final(self).vehicles@.last().edge_position == 0)
                && (final(self).vehicles@.last().state is Travelling) && (old(self).config.min_speed <= final(self).vehicles@.last().speed <= old(self).config.max_speed)
                && (exists|k: int|
                0 <= k < old(self).graph.shortest_path_map@.len() && final(self).vehicles@.last().path@ == (#[trigger] old(self).graph.shortest_path_map@[k]).path@),
            r.spawned@.len() == 0 ==> final(self).id_generator.spec_next() == old(self).id_generator.spec_next(),
            // the rate limiter consumed this timestamp exactly when it
            // granted the spawn attempt
            final(self).spawn_limiter.spec_interval() == old(self).spawn_limiter.spec_interval(),
            final(self).spawn_limiter.spec_last_spawned() == (if spawn_granted(
                old(self).spawn_limiter.spec_interval(),
                old(self).spawn_limiter.spec_last_spawned(),
                now,
            ) {
                Option::Some(now)
            } else {
                old(self).spawn_limiter.spec_last_spawned()
            }),
            // the highlight follows its bearer out, then a fresh spawn may
            // take a free slot
            final(self).highlighted_vehicle_id == ({
                let cleared = match old(self).highlighted_vehicle_id {
                    Option::Some(h) => if r.arrived@.contains(h) {
                        Option::<usize>::None
                    } else {
                        Option::Some(h)
                    },
                    Option::None => Option::<usize>::None,
                };
                if r.spawned@.len() == 1 && cleared is None {
                    Option::Some(r.spawned@[0])
                } else {
                    cleared
                }
            }),
            // each arrived id names a distinct pre-tick vehicle and no
            // surviving one: an arrival is reported exactly once
            r.arrived@.no_duplicates(),
            forall|i: int|
                #![trigger r.arrived@[i]]
                0 <= i < r.arrived@.len() ==> exists|k: int|
                    0 <= k < old(self).vehicles@.len() && (#[trigger] old(self).vehicles@[k]).id
                        == r.arrived@[i],
            forall|i: int, k: int|
                #![trigger r.arrived@[i], final(self).vehicles@[k]]
                0 <= i < r.arrived@.len() && 0 <= k < final(self).vehicles@.len() ==> r.arrived@[i]
                    != final(self).vehicles@[k].id,
    {
        let ghost orig = self.vehicles@;
        let snap = self.build_snapshot();
        proof {
            lemma_snapshot_wf(self.graph, self.vehicles@);
        }

        // release pass
        let release_buffer = self.config.node_release_buffer;
        self.reservations.release(&self.graph, &snap, release_buffer);
        let ghost mid = self.reservations.slots@;
        proof {
            // a vehicle that lost its reservation had left the release
            // buffer, which contains the acquisition buffer
            assert forall|k: int|
                0 <= k < self.vehicles@.len() implies clamped_before_unheld_node(
                self.graph,
                mid,
                #[trigger] self.vehicles@[k],
                self.config.node_acquisition_buffer as int,
            ) by {
                let v = self.vehicles@[k];
                if v.path_index + 2 <= v.path@.len() - 1 {
                    let w = v.path@[v.path_index as int + 1] as int;
                    if mid[w] != Option::Some(v.id) {
                        if old(self).reservations.slots@[w] == Option::Some(v.id) {
                            lemma_snapshot_covers(orig, k);
                            let i = choose|i: int|
                                0 <= i < snap@.len() && #[trigger] snap@[i] == (VehicleSnap {
                                    id: orig[k].id,
                                    from: orig[k].path@[orig[k].path_index as int],
                                    to: orig[k].path@[orig[k].path_index as int + 1],
                                    edge_position: orig[k].edge_position,
                                });
                            assert(!crate::reservations::holder_keeps(
                                self.graph,
                                snap@,
                                w,
                                v.id,
                                release_buffer,
                            ));
                            assert(crate::reservations::snap_dist_to_node(self.graph, snap@[i], w)
                                > release_buffer);
                        }
                    }
                }
            }
        }

        // acquire pass
        let acquisition_buffer = self.config.node_acquisition_buffer;
        self.reservations.acquire(&self.graph, &snap, acquisition_buffer);
        proof {
            // granting never moves a vehicle past its clamp: an unreserved
            // node stays forbidden to everyone but its new holder
            assert forall|k: int|
                0 <= k < self.vehicles@.len() implies clamped_before_unheld_node(
                self.graph,
                self.reservations.slots@,
                #[trigger] self.vehicles@[k],
                self.config.node_acquisition_buffer as int,
            ) by {
                let v = self.vehicles@[k];
                if v.path_index + 2 <= v.path@.len() - 1 {
                    let w = v.path@[v.path_index as int + 1] as int;
                    if self.reservations.slots@[w] != Option::Some(v.id) {
                        if mid[w] is Some {
                            assert(self.reservations.slots@[w] == mid[w]);
                        } else {
                            assert(mid[w] != Option::Some(v.id));
                        }
                    }
                }
            }
        }

        // kinematics over the snapshot and the refreshed table
        self.advance_all(dt, &snap);
        let ghost driven = self.vehicles@;

        // arrivals leave the simulation and are reported
        proof {
            lemma_partition_facts(driven);
        }
        let arrived = self.collect_arrivals();
        proof {
            assert forall|j: int|
                0 <= j < self.vehicles@.len() implies vehicle_wf(
                self.graph,
                #[trigger] self.vehicles@[j],
            ) && self.config.min_speed <= self.vehicles@[j].speed <= self.config.max_speed
                && self.vehicles@[j].id < self.id_generator.spec_next()
                && clamped_before_unheld_node(
                self.graph,
                self.reservations.slots@,
                self.vehicles@[j],
                self.config.node_acquisition_buffer as int,
            ) by {
                lemma_remaining_sources(driven, j);
                let k = choose|k: int|
                    0 <= k < driven.len() && #[trigger] driven[k] == remaining_spec(driven)[j]
                        && !vehicle_arrived(driven[k]);
                assert(driven[k].id == orig[k].id && driven[k].speed == orig[k].speed);
            }
            assert forall|j1: int, j2: int|
                0 <= j1 < j2 < self.vehicles@.len() implies (#[trigger] self.vehicles@[j1]).id != (
            #[trigger] self.vehicles@[j2]).id by {
                assert(remaining_spec(driven)[j1].id != remaining_spec(driven)[j2].id);
            }
            assert(self.wf());
            // arrived ids belong to pre-tick vehicles
            assert forall|i: int|
                #![trigger arrived@[i]]
                0 <= i < arrived@.len() implies exists|k: int|
                    0 <= k < orig.len() && (#[trigger] orig[k]).id == arrived@[i] by {
                lemma_arrived_sources(driven, i);
                let k = choose|k: int|
                    0 <= k < driven.len() && (#[trigger] driven[k]).id == arrived_ids_spec(driven)[i]
                        && vehicle_arrived(driven[k]);
                assert(orig[k].id == arrived@[i]);
            }
        }

        // at most one spawn per tick, rate limited
        let spawned = self.spawn_vehicle(now);
        proof {
            assert forall|i: int, k: int|
                #![trigger arrived@[i], self.vehicles@[k]]
                0 <= i < arrived@.len() && 0 <= k < self.vehicles@.len() implies arrived@[i]
                != self.vehicles@[k].id by {
                if spawned@.len() == 1 && k == self.vehicles@.len() - 1 {
                    // the spawned id is fresh: above every pre-tick id
                    let ka = choose|ka: int|
                        0 <= ka < orig.len() && (#[trigger] orig[ka]).id == arrived@[i];
                } else {
                    let kept = remaining_spec(driven);
                    if spawned@.len() == 1 {
                        assert(self.vehicles@[k] == self.vehicles@.take(
                            self.vehicles@.len() - 1,
                        )[k]);
                    }
                    assert(arrived_ids_spec(driven)[i] != kept[k].id);
                }
            }
        }
        TickReport { arrived, spawned }
    }

    /// Takes the per-tick snapshot of all travelling vehicles.
    fn build_snapshot(&self) -> (snap: Vec<VehicleSnap>)
        requires
            forall|k: int|
                0 <= k < self.vehicles@.len() ==> vehicle_wf(
                    self.graph,
                    #[trigger] self.vehicles@[k],
                ),
        ensures
            snap@ == snapshot_spec(self.vehicles@),
    {
        let mut snap: Vec<VehicleSnap> = Vec::new();
        let mut k: usize = 0;
        while k < self.vehicles.len()
            invariant
                k <= self.vehicles@.len(),
                forall|j: int|
                    0 <= j < self.vehicles@.len() ==> vehicle_wf(
                        self.graph,
                        #[trigger] self.vehicles@[j],
                    ),
                snap@ == snapshot_spec(self.vehicles@.take(k as int)),
            decreases self.vehicles@.len() - k,
        {
            proof {
                self.vehicles@.lemma_take_succ_push(k as int);
                assert(self.vehicles@.take(k as int + 1).drop_last() =~= self.vehicles@.take(
                    k as int,
                ));
                assert(self.vehicles@.take(k as int + 1).last() == self.vehicles@[k as int]);
            }
            let v = &self.vehicles[k];
            if v.path_index < v.path.len() - 1 {
                snap.push(
                    VehicleSnap {
                        id: v.id,
                        from: v.path[v.path_index],
                        to: v.path[v.path_index + 1],
                        edge_position: v.edge_position,
                    },
                );
            }
            k = k + 1;
        }
        proof {
            assert(self.vehicles@.take(self.vehicles@.len() as int) =~= self.vehicles@);
        }
        snap
    }
}

/// Each reported arrived id names an arrived vehicle of the list.
proof fn lemma_arrived_sources(vs: Seq<Vehicle>, i: int)
    requires
        0 <= i < arrived_ids_spec(vs).len(),
    ensures
        exists|k: int|
            0 <= k < vs.len() && (#[trigger] vs[k]).id == arrived_ids_spec(vs)[i]
                && vehicle_arrived(vs[k]),
    decreases vs.len(),
{
    if vs.len() > 0 {
        let dl = vs.drop_last();
        let v = vs.last();
        assert(dl.push(v) =~= vs);
        assert(dl.push(v).filter(|v: Vehicle| vehicle_arrived(v)) == if vehicle_arrived(v) {
            dl.filter(|v: Vehicle| vehicle_arrived(v)).push(v)
        } else {
            dl.filter(|v: Vehicle| vehicle_arrived(v))
        });
        let arr_dl = arrived_ids_spec(dl);
        if vehicle_arrived(v) {
            assert(arrived_ids_spec(vs) =~= arr_dl.push(v.id));
            if i < arr_dl.len() {
                lemma_arrived_sources(dl, i);
                let k = choose|k: int|
                    0 <= k < dl.len() && (#[trigger] dl[k]).id == arr_dl[i] && vehicle_arrived(
                        dl[k],
                    );
                assert(vs[k].id == arrived_ids_spec(vs)[i] && vehicle_arrived(vs[k]));
            } else {
                assert(vs[vs.len() - 1].id == arrived_ids_spec(vs)[i]);
            }
        } else {
            assert(arrived_ids_spec(vs) == arr_dl);
            lemma_arrived_sources(dl, i);
            let k = choose|k: int|
                0 <= k < dl.len() && (#[trigger] dl[k]).id == arr_dl[i] && vehicle_arrived(dl[k]);
            assert(vs[k].id == arrived_ids_spec(vs)[i] && vehicle_arrived(vs[k]));
        }
    }
}

/// Each surviving vehicle comes from the list, not yet arrived.
proof fn lemma_remaining_sources(vs: Seq<Vehicle>, j: int)
    requires
        0 <= j < remaining_spec(vs).len(),
    ensures
        exists|k: int|
            0 <= k < vs.len() && #[trigger] vs[k] == remaining_spec(vs)[j] && !vehicle_arrived(
                vs[k],
            ),
    decreases vs.len(),
{
    if vs.len() > 0 {
        let dl = vs.drop_last();
        let v = vs.last();
        assert(dl.push(v) =~= vs);
        assert(dl.push(v).filter(|v: Vehicle| !vehicle_arrived(v)) == if !vehicle_arrived(v) {
            dl.filter(|v: Vehicle| !vehicle_arrived(v)).push(v)
        } else {
            dl.filter(|v: Vehicle| !vehicle_arrived(v))
        });
        let rem_dl = remaining_spec(dl);
        if !vehicle_arrived(v) {
            assert(remaining_spec(vs) =~= rem_dl.push(v));
            if j < rem_dl.len() {
                lemma_remaining_sources(dl, j);
                let k = choose|k: int|
                    0 <= k < dl.len() && #[trigger] dl[k] == rem_dl[j] && !vehicle_arrived(dl[k]);
                assert(vs[k] == remaining_spec(vs)[j]);
            } else {
                assert(vs[vs.len() - 1] == remaining_spec(vs)[j]);
            }
        } else {
            assert(remaining_spec(vs) == rem_dl);
            lemma_remaining_sources(dl, j);
            let k = choose|k: int|
                0 <= k < dl.len() && #[trigger] dl[k] == rem_dl[j] && !vehicle_arrived(dl[k]);
            assert(vs[k] == remaining_spec(vs)[j]);
        }
    }
}

/// How the arrived and surviving parts of a vehicle list relate when ids
/// are distinct: both keep distinct ids drawn from the list, and no id is in
/// both parts.
#[verifier::rlimit(100)]
proof fn lemma_partition_facts(vs: Seq<Vehicle>)
    requires
        forall|k1: int, k2: int|
            0 <= k1 < k2 < vs.len() ==> (#[trigger] vs[k1]).id != (#[trigger] vs[k2]).id,
    ensures
        arrived_ids_spec(vs).no_duplicates(),
        forall|j1: int, j2: int|
            0 <= j1 < j2 < remaining_spec(vs).len() ==> (#[trigger] remaining_spec(vs)[j1]).id != (
            #[trigger] remaining_spec(vs)[j2]).id,
        forall|i: int, j: int|
            #![trigger arrived_ids_spec(vs)[i], remaining_spec(vs)[j]]
            0 <= i < arrived_ids_spec(vs).len() && 0 <= j < remaining_spec(vs).len()
                ==> arrived_ids_spec(vs)[i] != remaining_spec(vs)[j].id,
    decreases vs.len(),
{
    if vs.len() == 0 {
        assert(vs.filter(|v: Vehicle| vehicle_arrived(v)) =~= Seq::<Vehicle>::empty());
        assert(vs.filter(|v: Vehicle| !vehicle_arrived(v)) =~= Seq::<Vehicle>::empty());
        assert(arrived_ids_spec(vs).len() == 0);
        assert(remaining_spec(vs).len() == 0);
    } else {
        let dl = vs.drop_last();
        let v = vs.last();
        assert(dl.push(v) =~= vs);
        assert forall|k1: int, k2: int|
            0 <= k1 < k2 < dl.len() implies (#[trigger] dl[k1]).id != (#[trigger] dl[k2]).id by {
            assert(dl[k1] == vs[k1]);
            assert(dl[k2] == vs[k2]);
        }
        lemma_partition_facts(dl);
        let arr_dl = arrived_ids_spec(dl);
        let rem_dl = remaining_spec(dl);
        assert(dl.push(v).filter(|v: Vehicle| vehicle_arrived(v)) == if vehicle_arrived(v) {
            dl.filter(|v: Vehicle| vehicle_arrived(v)).push(v)
        } else {
            dl.filter(|v: Vehicle| vehicle_arrived(v))
        });
        assert(dl.push(v).filter(|v: Vehicle| !vehicle_arrived(v)) == if !vehicle_arrived(v) {
            dl.filter(|v: Vehicle| !vehicle_arrived(v)).push(v)
        } else {
            dl.filter(|v: Vehicle| !vehicle_arrived(v))
        });
        if vehicle_arrived(v) {
            assert(arrived_ids_spec(vs) =~= arr_dl.push(v.id));
            assert(remaining_spec(vs) == rem_dl);
            // the new arrived id belongs to no earlier vehicle
            assert forall|i: int|
                0 <= i < arr_dl.len() implies arr_dl[i] != v.id by {
                lemma_arrived_sources(dl, i);
                let k = choose|k: int|
                    0 <= k < dl.len() && (#[trigger] dl[k]).id == arr_dl[i] && vehicle_arrived(
                        dl[k],
                    );
                assert(vs[k].id != vs[vs.len() - 1].id);
            }
            assert forall|j: int|
                0 <= j < remaining_spec(vs).len() implies v.id != (
            #[trigger] remaining_spec(vs)[j]).id by {
                lemma_remaining_sources(dl, j);
                let k = choose|k: int|
                    0 <= k < dl.len() && #[trigger] dl[k] == rem_dl[j] && !vehicle_arrived(dl[k]);
                assert(vs[k].id != vs[vs.len() - 1].id);
            }
            assert(arrived_ids_spec(vs).no_duplicates());
        } else {
            assert(arrived_ids_spec(vs) == arr_dl);
            assert(remaining_spec(vs) =~= rem_dl.push(v));
            assert forall|i: int|
                0 <= i < arr_dl.len() implies arr_dl[i] != v.id by {
                lemma_arrived_sources(dl, i);
                let k = choose|k: int|
                    0 <= k < dl.len() && (#[trigger] dl[k]).id == arr_dl[i] && vehicle_arrived(
                        dl[k],
                    );
                assert(vs[k].id != vs[vs.len() - 1].id);
            }
            assert forall|j1: int, j2: int|
                0 <= j1 < j2 < remaining_spec(vs).len() implies (
            #[trigger] remaining_spec(vs)[j1]).id != (#[trigger] remaining_spec(vs)[j2]).id by {
                if j2 == remaining_spec(vs).len() - 1 {
                    lemma_remaining_sources(dl, j1);
                    let k = choose|k: int|
                        0 <= k < dl.len() && #[trigger] dl[k] == rem_dl[j1] && !vehicle_arrived(
                            dl[k],
                        );
                    assert(vs[k].id != vs[vs.len() - 1].id);
                }
            }
        }
    }
}


/// Driving never changes a vehicle's identity: its id, route and speed are
/// those it spawned with.
pub proof fn lemma_drive_spec_preserves_identity(
    v: Vehicle,
    d: int,
    g: NodeGraph,
    table: Seq<Option<usize>>,
    snap: Seq<VehicleSnap>,
    follow: int,
    buffer: int,
)
    ensures
        drive_spec(v, d, g, table, snap, follow, buffer).id == v.id,
        drive_spec(v, d, g, table, snap, follow, buffer).path@ == v.path@,
        drive_spec(v, d, g, table, snap, follow, buffer).speed == v.speed,
    decreases v.path@.len() - v.path_index, d,
{
    if d <= 0 {
    } else {
        let stepped = crate::vehicle::drive_edge_spec(v, d, g, table, snap, follow, buffer);
        let v2 = stepped.0;
        let d2 = stepped.1;
        if 0 < d2 && ((v2.path_index == v.path_index && d2 < d) || (v2.path_index > v.path_index
            && d2 <= d && v2.path@.len() == v.path@.len())) {
            lemma_drive_spec_preserves_identity(v2, d2, g, table, snap, follow, buffer);
        }
    }
}

/// A retired id stays retired: when no live vehicle carries `id` and every
/// future id is larger, one tick's survivors and spawn still avoid `id` and
/// keep every future id larger.  A vehicle therefore arrives, and is
/// reported, at most once over any run.
pub proof fn lemma_retired_id_stays_retired(
    pre: Seq<Vehicle>,
    post: Seq<Vehicle>,
    next_id: usize,
    spawn: Option<Vehicle>,
    id: usize,
    dt: int,
    g: NodeGraph,
    table: Seq<Option<usize>>,
    snap: Seq<VehicleSnap>,
    follow: int,
    buffer: int,
)
    requires
        forall|k: int| 0 <= k < pre.len() ==> (#[trigger] pre[k]).id != id,
        id < next_id,
        spawn matches Option::Some(nv) ==> nv.id == next_id,
        post == (match spawn {
            Option::Some(nv) => remaining_spec(
                driven_spec(pre, dt, g, table, snap, follow, buffer),
            ).push(nv),
            Option::None => remaining_spec(driven_spec(pre, dt, g, table, snap, follow, buffer)),
        }),
    ensures
        forall|k: int| 0 <= k < post.len() ==> (#[trigger] post[k]).id != id,
{
    let driven = driven_spec(pre, dt, g, table, snap, follow, buffer);
    assert forall|k: int| 0 <= k < driven.len() implies (#[trigger] driven[k]).id != id by {
        lemma_drive_spec_preserves_identity(pre[k], pre[k].speed * dt, g, table, snap, follow, buffer);
    }
    let kept = remaining_spec(driven);
    assert forall|k: int| 0 <= k < kept.len() implies (#[trigger] kept[k]).id != id by {
        lemma_remaining_sources(driven, k);
        let k2 = choose|k2: int|
            0 <= k2 < driven.len() && #[trigger] driven[k2] == kept[k] && !vehicle_arrived(
                driven[k2],
            );
    }
    match spawn {
        Option::Some(nv) => {
            assert forall|k: int| 0 <= k < post.len() implies (#[trigger] post[k]).id != id by {
                if k < kept.len() {
                    assert(post[k] == kept[k]);
                } else {
                    assert(post[k] == nv);
                }
            }
        },
        Option::None => {},
    }
}

/// A vehicle that does not hold the reservation of its upcoming shared node
/// never stands closer to it than the acquisition buffer: the intersection
/// clamp holds in every well-formed simulation state, so after every tick.
pub proof fn lemma_unheld_node_kept_at_distance(s: Simulation, k: int)
    requires
        s.wf(),
        0 <= k < s.vehicles@.len(),
        s.vehicles@[k].path_index + 2 <= s.vehicles@[k].path@.len() - 1,
        s.reservations.spec_holder(
            s.vehicles@[k].path@[s.vehicles@[k].path_index as int + 1] as int,
        ) != Option::Some(s.vehicles@[k].id),
    ensures
        s.vehicles@[k].edge_position <= crate::graph::edge_len_spec(
            s.graph,
            s.vehicles@[k].path@[s.vehicles@[k].path_index as int] as int,
            s.vehicles@[k].path@[s.vehicles@[k].path_index as int + 1] as int,
        ) - s.config.node_acquisition_buffer,
{
    assert(clamped_before_unheld_node(
        s.graph,
        s.reservations.slots@,
        s.vehicles@[k],
        s.config.node_acquisition_buffer as int,
    ));
}

/// The world distance a vehicle covers in one tick, shown to fit the
/// per-tick distance limit.
fn tick_distance(speed: i64, dt: i64) -> (r: i64)
    requires
        0 <= speed <= SPEED_LIMIT,
        0 <= dt <= DT_LIMIT,
    ensures
        r == speed * dt,
        0 <= r <= crate::vehicle::DISTANCE_LIMIT,
{
    proof {
        assert(0 <= speed * dt <= 1_000_000_000_000) by (nonlinear_arith)
            requires
                0 <= speed <= 1_000_000,
                0 <= dt <= 1_000_000,
        ;
    }
    speed * dt
}

/// A plain element-for-element copy of a route.
fn copy_path(path: &Vec<usize>) -> (r: Vec<usize>)
    ensures
        r@ == path@,
{
    let mut r: Vec<usize> = Vec::new();
    let mut i: usize = 0;
    while i < path.len()
        invariant
            i <= path@.len(),
            r@ == path@.take(i as int),
        decreases path@.len() - i,
    {
        proof {
            path@.lemma_take_succ_push(i as int);
        }
        r.push(path[i]);
        i = i + 1;
    }
    proof {
        assert(path@.take(path@.len() as int) =~= path@);
    }
    r
}

} // verus!
