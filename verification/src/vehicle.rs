//! Per-tick vehicle kinematics with car-following and intersection yielding.
//!
//! A vehicle advances along its fixed route by a world-space distance each
//! tick.  Its progress on the current edge is clamped so it never passes the
//! vehicle ahead by less than the follow distance, and never enters the
//! acquisition buffer of an upcoming shared node whose reservation it does
//! not hold.  Distance left over after crossing a node carries into the next
//! edge, so several short edges can be crossed in one tick.

use vstd::prelude::*;

use crate::graph::edge_len_spec;
use crate::graph::has_edge;
use crate::graph::Node;
use crate::graph::NodeGraph;
use crate::geometry::lerp;
use crate::geometry::lerp_spec;
use crate::geometry::pos_in_bounds;
use crate::geometry::Position;
use crate::geometry::EDGE_LEN_LIMIT;
use crate::reservations::snap_wf;
use crate::reservations::ReservationTable;
use crate::reservations::VehicleSnap;

verus! {

/// Largest world distance a vehicle may be asked to drive in one tick.
pub const DISTANCE_LIMIT: i64 = 2_000_000_000_000;

/// What a vehicle did this tick.
#[derive(Clone, Copy, PartialEq, Eq, Structural, Debug)]
pub enum VehicleState {
    /// Moving along its route.
    Travelling,
    /// Held back with zero forward progress, by a reservation it does not
    /// hold or by the vehicle ahead.
    Waiting,
    /// At the last node of its route.
    Arrived,
}

/// A vehicle bound to a fixed route through the network.
#[derive(Clone, Debug)]
pub struct Vehicle {
    pub id: usize,
    /// The precomputed node route this vehicle follows.
    pub path: Vec<usize>,
    /// Index of the current edge's start node within `path`.
    pub path_index: usize,
    /// Progress along the current edge, in world units from its start node.
    pub edge_position: i64,
    /// Constant speed, in world units per time unit.
    pub speed: i64,
    pub state: VehicleState,
}

/// A vehicle is sound for a graph: its route is a real path of in-range
/// nodes, its progress lies within the current edge, and its state field
/// agrees with its position.
pub open spec fn vehicle_wf(g: NodeGraph, v: Vehicle) -> bool {
    &&& v.path@.len() >= 2
    &&& v.path_index < v.path@.len()
    &&& forall|i: int| 0 <= i < v.path@.len() ==> (#[trigger] v.path@[i]) < g.n()
    &&& forall|i: int|
        0 <= i < v.path@.len() - 1 ==> has_edge(
            g.edges@,
            #[trigger] v.path@[i] as int,
            v.path@[i + 1] as int,
        )
    &&& if v.path_index < v.path@.len() - 1 {
        0 <= v.edge_position <= edge_len_spec(
            g,
            v.path@[v.path_index as int] as int,
            v.path@[v.path_index as int + 1] as int,
        )
    } else {
        v.edge_position == 0
    }
    &&& (v.state is Arrived <==> v.path_index == v.path@.len() - 1)
    &&& 0 <= v.speed
}

/// Every edge of the graph is at least `buffer` long, so a vehicle can
/// always stop that far before a node without leaving its edge.
pub open spec fn edges_at_least(g: NodeGraph, buffer: int) -> bool {
    forall|i: int|
        0 <= i < g.edges@.len() ==> edge_len_spec(
            g,
            (#[trigger] g.edges@[i]).source as int,
            g.edges@[i].dest as int,
        ) >= buffer
}

/// A vehicle that does not hold the reservation of its next, non-final node
/// stays at least `buffer` before that node.
pub open spec fn clamped_before_unheld_node(
    g: NodeGraph,
    table: Seq<Option<usize>>,
    v: Vehicle,
    buffer: int,
) -> bool {
    (v.path_index + 2 <= v.path@.len() - 1 && table[v.path@[v.path_index as int + 1] as int]
        != Option::Some(v.id)) ==> v.edge_position <= edge_len_spec(
        g,
        v.path@[v.path_index as int] as int,
        v.path@[v.path_index as int + 1] as int,
    ) - buffer
}

/// The smallest positive lead gap among snapshot entries on the directed
/// edge (`from`, `to`), relative to progress `pos`; `None` when no vehicle
/// is ahead on that edge.
pub open spec fn min_gap(snap: Seq<VehicleSnap>, from: usize, to: usize, pos: int) -> Option<int>
    decreases snap.len(),
{
    if snap.len() == 0 {
        Option::None
    } else {
        let rest = min_gap(snap.drop_last(), from, to, pos);
        let e = snap.last();
        if e.from == from && e.to == to && e.edge_position - pos > 0 {
            let gap = e.edge_position - pos;
            match rest {
                Option::None => Option::Some(gap),
                Option::Some(m) => Option::Some(if gap < m { gap } else { m }),
            }
        } else {
            rest
        }
    }
}

/// A positive lead gap never exceeds the edge length.
proof fn lemma_min_gap_in_range(
    g: NodeGraph,
    snap: Seq<VehicleSnap>,
    from: usize,
    to: usize,
    pos: int,
)
    requires
        snap_wf(g, snap),
        0 <= pos,
    ensures
        min_gap(snap, from, to, pos) matches Option::Some(m) ==> 0 < m <= edge_len_spec(
            g,
            from as int,
            to as int,
        ),
    decreases snap.len(),
{
    if snap.len() > 0 {
        assert(snap.drop_last() =~= snap.subrange(0, snap.len() - 1));
        assert(snap_wf(g, snap.drop_last())) by {
            assert forall|i: int, j: int|
                0 <= i < j < snap.drop_last().len() implies (#[trigger] snap.drop_last()[i]).id != (
                #[trigger] snap.drop_last()[j]).id by {
                assert(snap.drop_last()[i] == snap[i]);
                assert(snap.drop_last()[j] == snap[j]);
            }
        }
        lemma_min_gap_in_range(g, snap.drop_last(), from, to, pos);
        let e = snap.last();
        if e.from == from && e.to == to && e.edge_position - pos > 0 {
            assert(e == snap[snap.len() - 1]);
            assert(e.edge_position <= edge_len_spec(g, from as int, to as int));
        }
    }
}

/// One bounded move along the current edge: the advanced vehicle and the
/// world distance left over after crossing its end node, if it did.
pub open spec fn drive_edge_spec(
    v: Vehicle,
    d: int,
    g: NodeGraph,
    table: Seq<Option<usize>>,
    snap: Seq<VehicleSnap>,
    follow: int,
    buffer: int,
) -> (Vehicle, int) {
    let i = v.path_index as int;
    if i >= v.path@.len() - 1 {
        (Vehicle { state: VehicleState::Arrived, ..v }, 0)
    } else {
        let u = v.path@[i];
        let w = v.path@[i + 1];
        let len = edge_len_spec(g, u as int, w as int);
        let m = (match min_gap(snap, u, w, v.edge_position as int) {
            Option::None => d,
            Option::Some(gap) => if gap - follow < d {
                if gap - follow < 0 {
                    0
                } else {
                    gap - follow
                }
            } else {
                d
            },
        });
        let new_pos = v.edge_position + m;
        if i + 2 <= v.path@.len() - 1 && len - new_pos <= buffer && table[w as int]
            != Option::Some(v.id) {
            let clamped = if len - buffer >= 0 {
                len - buffer
            } else {
                0
            };
            (Vehicle { edge_position: clamped as i64, state: VehicleState::Waiting, ..v }, 0)
        } else if new_pos > len {
            (
                Vehicle {
                    path_index: (v.path_index + 1) as usize,
                    edge_position: 0,
                    state: if i + 1 == v.path@.len() - 1 {
                        VehicleState::Arrived
                    } else {
                        VehicleState::Travelling
                    },
                    ..v
                },
                new_pos - len,
            )
        } else {
            (
                Vehicle {
                    edge_position: new_pos as i64,
                    state: if m <= 0 {
                        VehicleState::Waiting
                    } else {
                        VehicleState::Travelling
                    },
                    ..v
                },
                0,
            )
        }
    }
}

/// Driving a whole tick distance: bounded moves repeated until the distance
/// is spent, the vehicle waits, or it arrives.
pub open spec fn drive_spec(
    v: Vehicle,
    d: int,
    g: NodeGraph,
    table: Seq<Option<usize>>,
    snap: Seq<VehicleSnap>,
    follow: int,
    buffer: int,
) -> Vehicle
    decreases v.path@.len() - v.path_index, d,
{
    if d <= 0 {
        v
    } else {
        let stepped = drive_edge_spec(v, d, g, table, snap, follow, buffer);
        let v2 = stepped.0;
        let d2 = stepped.1;
        if 0 < d2 && ((v2.path_index == v.path_index && d2 < d) || (v2.path_index > v.path_index
            && d2 <= d && v2.path@.len() == v.path@.len())) {
            drive_spec(v2, d2, g, table, snap, follow, buffer)
        } else {
            v2
        }
    }
}

impl Vehicle {
    /// The node this vehicle's current edge starts from.
    pub fn get_current_node_index(&self) -> (r: usize)
        requires
            self.path_index < self.path@.len(),
        ensures
            r == self.path@[self.path_index as int],
    {
        self.path[self.path_index]
    }

    /// The node this vehicle's current edge leads to; `None` at the end of
    /// the route.
    pub fn get_next_node_index(&self) -> (r: Option<usize>)
        requires
            self.path@.len() >= 1,
            self.path_index < self.path@.len(),
        ensures
            r == if self.path_index == self.path@.len() - 1 {
                Option::<usize>::None
            } else {
                Option::Some(self.path@[self.path_index as int + 1])
            },
    {
        if self.path_index == self.path.len() - 1 {
            return Option::None;
        }
        Option::Some(self.path[self.path_index + 1])
    }

    /// The directed edge the vehicle currently travels, if it has not
    /// arrived.
    pub fn get_edge(&self) -> (r: Option<(usize, usize)>)
        requires
            self.path@.len() >= 1,
            self.path_index < self.path@.len(),
        ensures
            r == if self.path_index == self.path@.len() - 1 {
                Option::<(usize, usize)>::None
            } else {
                Option::Some(
                    (self.path@[self.path_index as int], self.path@[self.path_index as int + 1]),
                )
            },
    {
        match self.get_next_node_index() {
            Option::Some(next) => Option::Some((self.get_current_node_index(), next)),
            Option::None => Option::None,
        }
    }

    /// The current node record.
    pub fn get_current_node<'a>(&self, node_graph: &'a NodeGraph) -> (r: &'a Node)
        requires
            self.path_index < self.path@.len(),
            self.path@[self.path_index as int] < node_graph.n(),
        ensures
            *r == node_graph.nodes@[self.path@[self.path_index as int] as int],
    {
        &node_graph.nodes[self.path[self.path_index]]
    }

    /// The next node record, if the vehicle has not arrived; the heading
    /// target for rendering.
    pub fn get_next_node<'a>(&self, node_graph: &'a NodeGraph) -> (r: Option<&'a Node>)
        requires
            vehicle_wf(*node_graph, *self),
        ensures
            r is Some <==> self.path_index < self.path@.len() - 1,
            r matches Some(node) ==> *node == node_graph.nodes@[self.path@[self.path_index as int
                + 1] as int],
    {
        match self.get_next_node_index() {
            Option::Some(node_index) => Option::Some(&node_graph.nodes[node_index]),
            Option::None => Option::None,
        }
    }

    /// The vehicle's world position: its progress interpolated between the
    /// current and next node positions, or the final node itself after
    /// arrival.
    pub fn get_world_position(&self, node_graph: &NodeGraph) -> (r: Position)
        requires
            node_graph.wf(),
            vehicle_wf(*node_graph, *self),
        ensures
            r == world_position_spec(*node_graph, *self),
            pos_in_bounds(r),
    {
        let current = self.path[self.path_index];
        let current_pos = node_graph.nodes[current].position;
        proof {
            assert(pos_in_bounds(current_pos));
        }
        if self.path_index == self.path.len() - 1 {
            return current_pos;
        }
        let next = self.path[self.path_index + 1];
        let next_pos = node_graph.nodes[next].position;
        let len = node_graph.edge_length(current, next);
        lerp(current_pos, next_pos, self.edge_position, len)
    }

    /// The smallest positive gap to a vehicle ahead on the same directed
    /// edge, in world units.
    pub fn get_next_vehicle_edge_distance(&self, snap: &Vec<VehicleSnap>) -> (r: Option<i64>)
        requires
            self.path@.len() >= 1,
            self.path_index < self.path@.len(),
            forall|i: int|
                0 <= i < snap@.len() ==> -EDGE_LEN_LIMIT <= (#[trigger] snap@[i]).edge_position
                    <= EDGE_LEN_LIMIT,
            -EDGE_LEN_LIMIT <= self.edge_position <= EDGE_LEN_LIMIT,
        ensures
            self.path_index < self.path@.len() - 1 ==> (r is None <==> min_gap(
                snap@,
                self.path@[self.path_index as int],
                self.path@[self.path_index as int + 1],
                self.edge_position as int,
            ) is None),
            self.path_index < self.path@.len() - 1 ==> (r matches Option::Some(c) ==> min_gap(
                snap@,
                self.path@[self.path_index as int],
                self.path@[self.path_index as int + 1],
                self.edge_position as int,
            ) == Option::Some(c as int)),
            self.path_index == self.path@.len() - 1 ==> r is None,
    {
        let (from, to) = match self.get_edge() {
            Option::Some(edge) => edge,
            Option::None => {
                return Option::None;
            },
        };
        let mut closest: Option<i64> = Option::None;
        let mut i: usize = 0;
        while i < snap.len()
            invariant
                i <= snap@.len(),
                forall|k: int|
                    0 <= k < snap@.len() ==> -EDGE_LEN_LIMIT <= (#[trigger] snap@[k]).edge_position
                        <= EDGE_LEN_LIMIT,
                -EDGE_LEN_LIMIT <= self.edge_position <= EDGE_LEN_LIMIT,
                closest is None <==> min_gap(
                    snap@.take(i as int),
                    from,
                    to,
                    self.edge_position as int,
                ) is None,
                closest matches Option::Some(c) ==> min_gap(
                    snap@.take(i as int),
                    from,
                    to,
                    self.edge_position as int,
                ) == Option::Some(c as int),
            decreases snap@.len() - i,
        {
            let e = snap[i];
            proof {
                snap@.lemma_take_succ_push(i as int);
                assert(snap@.take(i as int + 1).drop_last() =~= snap@.take(i as int));
                assert(snap@.take(i as int + 1).last() == snap@[i as int]);
            }
            if e.from == from && e.to == to {
                let gap = e.edge_position - self.edge_position;
                if gap > 0 {
                    closest = match closest {
                        Option::None => Option::Some(gap),
                        Option::Some(m) => Option::Some(
                            if gap < m {
                                gap
                            } else {
                                m
                            },
                        ),
                    };
                }
            }
            i = i + 1;
        }
        proof {
            assert(snap@.take(snap@.len() as int) =~= snap@);
        }
        closest
    }

    /// Whether the vehicle must stop before its next node: the node is not
    /// its final destination, the proposed position is inside the
    /// acquisition buffer, and this vehicle does not hold the node's
    /// reservation.
    pub fn should_wait_at_node(
        &self,
        node_graph: &NodeGraph,
        reservations: &ReservationTable,
        new_edge_position: i64,
        node_buffer: i64,
    ) -> (r: bool)
        requires
            node_graph.wf(),
            vehicle_wf(*node_graph, *self),
            reservations.wf(node_graph.n()),
            self.path_index < self.path@.len() - 1,
            0 <= new_edge_position <= DISTANCE_LIMIT + EDGE_LEN_LIMIT,
        ensures
            r == (self.path_index + 2 <= self.path@.len() - 1 && edge_len_spec(
                *node_graph,
                self.path@[self.path_index as int] as int,
                self.path@[self.path_index as int + 1] as int,
            ) - new_edge_position <= node_buffer && reservations.slots@[self.path@[self.path_index as int + 1] as int] != Option::Some(self.id)),
    {
        // the next node never needs a reservation when it ends the route
        if self.path_index >= self.path.len() - 2 {
            return false;
        }
        let current = self.path[self.path_index];
        let next = self.path[self.path_index + 1];
        let len = node_graph.edge_length(current, next);
        // outside the buffer there is nothing to yield to
        if len - new_edge_position > node_buffer {
            return false;
        }
        // only the reservation holder may enter the buffer
        match reservations.holder(next) {
            Option::Some(holder) => holder != self.id,
            Option::None => true,
        }
    }

    /// Advances along the current edge by at most `distance`, returning the
    /// world distance left over when the edge's end node was crossed.
    #[verifier::rlimit(100)]
    pub fn drive_edge(
        &mut self,
        distance: i64,
        node_graph: &NodeGraph,
        reservations: &ReservationTable,
        snap: &Vec<VehicleSnap>,
        follow_distance: i64,
        node_buffer: i64,
    ) -> (leftover: i64)
        requires
            node_graph.wf(),
            vehicle_wf(*node_graph, *old(self)),
            reservations.wf(node_graph.n()),
            snap_wf(*node_graph, snap@),
            edges_at_least(*node_graph, node_buffer as int),
            0 < distance <= DISTANCE_LIMIT,
            0 <= follow_distance < EDGE_LEN_LIMIT,
            0 < node_buffer < EDGE_LEN_LIMIT,
        ensures
            (*final(self), leftover as int) == drive_edge_spec(
                *old(self),
                distance as int,
                *node_graph,
                reservations.slots@,
                snap@,
                follow_distance as int,
                node_buffer as int,
            ),
            vehicle_wf(*node_graph, *final(self)),
            0 <= leftover,
            leftover > 0 ==> final(self).path_index == old(self).path_index + 1 && leftover
                <= distance,
            final(self).id == old(self).id && final(self).path@ == old(self).path@,
            final(self).speed == old(self).speed,
            clamped_before_unheld_node(
                *node_graph,
                reservations.slots@,
                *final(self),
                node_buffer as int,
            ),
    {
        if self.path_index >= self.path.len() - 1 {
            self.state = VehicleState::Arrived;
            return 0;
        }
        let current = self.path[self.path_index];
        let next = self.path[self.path_index + 1];
        let len = node_graph.edge_length(current, next);

        // clamp the move so the vehicle stays behind the one ahead
        proof {
            lemma_min_gap_in_range(*node_graph, snap@, current, next, self.edge_position as int);
            assert forall|k: int|
                0 <= k < snap@.len() implies -EDGE_LEN_LIMIT <= (
            #[trigger] snap@[k]).edge_position <= EDGE_LEN_LIMIT by {
                crate::graph::lemma_edge_len_in_range(
                    *node_graph,
                    snap@[k].from as int,
                    snap@[k].to as int,
                );
            }
            crate::graph::lemma_edge_len_in_range(*node_graph, current as int, next as int);
        }
        let mut move_amount = distance;
        if let Option::Some(gap) = self.get_next_vehicle_edge_distance(snap) {
            let limit = gap - follow_distance;
            if limit < move_amount {
                move_amount = if limit < 0 {
                    0
                } else {
                    limit
                };
            }
        }
        let new_position = self.edge_position + move_amount;

        if self.should_wait_at_node(node_graph, reservations, new_position, node_buffer) {
            // stop at the buffer boundary and wait for the reservation
            self.edge_position = if len - node_buffer >= 0 {
                len - node_buffer
            } else {
                0
            };
            self.state = VehicleState::Waiting;
            return 0;
        }

        if new_position > len {
            // cross into the next edge and carry the overshoot
            let leftover = new_position - len;
            self.path_index = self.path_index + 1;
            self.edge_position = 0;
            self.state = if self.path_index == self.path.len() - 1 {
                VehicleState::Arrived
            } else {
                VehicleState::Travelling
            };
            return leftover;
        }

        self.edge_position = new_position;
        self.state = if move_amount <= 0 {
            VehicleState::Waiting
        } else {
            VehicleState::Travelling
        };
        0
    }

    /// Drives the vehicle by a whole tick's world distance, crossing as many
    /// edges as the distance allows.
    pub fn drive(
        &mut self,
        distance: i64,
        node_graph: &NodeGraph,
        reservations: &ReservationTable,
        snap: &Vec<VehicleSnap>,
        follow_distance: i64,
        node_buffer: i64,
    )
        requires
            node_graph.wf(),
            vehicle_wf(*node_graph, *old(self)),
            reservations.wf(node_graph.n()),
            snap_wf(*node_graph, snap@),
            edges_at_least(*node_graph, node_buffer as int),
            0 <= distance <= DISTANCE_LIMIT,
            0 <= follow_distance < EDGE_LEN_LIMIT,
            0 < node_buffer < EDGE_LEN_LIMIT,
        ensures
            *final(self) == drive_spec(
                *old(self),
                distance as int,
                *node_graph,
                reservations.slots@,
                snap@,
                follow_distance as int,
                node_buffer as int,
            ),
            vehicle_wf(*node_graph, *final(self)),
            final(self).id == old(self).id && final(self).path@ == old(self).path@,
            final(self).speed == old(self).speed,
            distance > 0 ==> clamped_before_unheld_node(
                *node_graph,
                reservations.slots@,
                *final(self),
                node_buffer as int,
            ),
    {
        let mut remaining = distance;
        while remaining > 0
            invariant
                node_graph.wf(),
                vehicle_wf(*node_graph, *self),
                reservations.wf(node_graph.n()),
                snap_wf(*node_graph, snap@),
                edges_at_least(*node_graph, node_buffer as int),
                0 <= remaining <= DISTANCE_LIMIT,
                0 <= follow_distance < EDGE_LEN_LIMIT,
                0 < node_buffer < EDGE_LEN_LIMIT,
                drive_spec(
                    *old(self),
                    distance as int,
                    *node_graph,
                    reservations.slots@,
                    snap@,
                    follow_distance as int,
                    node_buffer as int,
                ) == if remaining > 0 {
                    drive_spec(
                        *self,
                        remaining as int,
                        *node_graph,
                        reservations.slots@,
                        snap@,
                        follow_distance as int,
                        node_buffer as int,
                    )
                } else {
                    *self
                },
                self.id == old(self).id && self.path@ == old(self).path@,
                self.speed == old(self).speed,
                (*self == *old(self) && remaining == distance) || clamped_before_unheld_node(
                    *node_graph,
                    reservations.slots@,
                    *self,
                    node_buffer as int,
                ),
            decreases self.path@.len() - self.path_index, remaining,
        {
            remaining = self.drive_edge(
                remaining,
                node_graph,
                reservations,
                snap,
                follow_distance,
                node_buffer,
            );
        }
    }
}

/// The vehicle's world position: linear interpolation along its current
/// edge, or the final node once arrived.
pub open spec fn world_position_spec(g: NodeGraph, v: Vehicle) -> Position {
    let current = g.nodes@[v.path@[v.path_index as int] as int].position;
    if v.path_index == v.path@.len() - 1 {
        current
    } else {
        let next = g.nodes@[v.path@[v.path_index as int + 1] as int].position;
        lerp_spec(
            current,
            next,
            v.edge_position as int,
            edge_len_spec(
                g,
                v.path@[v.path_index as int] as int,
                v.path@[v.path_index as int + 1] as int,
            ),
        )
    }
}

} // verus!
