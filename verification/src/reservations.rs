//! Intersection mutual exclusion: a table granting at most one vehicle at a
//! time the right to occupy a node.
//!
//! Once per tick, over a snapshot of vehicle positions, a release pass drops
//! reservations whose holder is gone or has moved beyond the release buffer,
//! and an acquire pass grants each free node to the nearest vehicle inside
//! the acquisition buffer on its incoming edges.  Edges flagged as priority
//! pre-empt: while a node has a priority incoming edge, vehicles on its
//! non-priority edges are not considered.
//!
//! Distances are measured in world units along the straight edge a vehicle
//! travels, which on an incident edge is exactly the distance to the node.
//! A holder that is on no edge at the node any more counts as beyond every
//! buffer, so its reservation is released.

use vstd::prelude::*;

use crate::geometry::EDGE_LEN_LIMIT;
use crate::graph::edge_len_spec;
use crate::graph::edge_priority_spec;
use crate::graph::has_edge;
use crate::graph::NodeGraph;

verus! {

/// The per-tick, read-only record of one travelling vehicle: its id, its
/// current directed edge and its progress along it in world units.
#[derive(Clone, Copy, PartialEq, Eq, Structural, Debug)]
pub struct VehicleSnap {
    pub id: usize,
    pub from: usize,
    pub to: usize,
    pub edge_position: i64,
}

/// A snapshot is sound for a graph: every entry sits on a real edge, within
/// its length, and no id repeats.
pub open spec fn snap_wf(g: NodeGraph, s: Seq<VehicleSnap>) -> bool {
    &&& forall|i: int|
        0 <= i < s.len() ==> (#[trigger] s[i]).from < g.n() && s[i].to < g.n() && has_edge(
            g.edges@,
            s[i].from as int,
            s[i].to as int,
        ) && 0 <= s[i].edge_position <= edge_len_spec(g, s[i].from as int, s[i].to as int)
    &&& forall|i: int, j: int| 0 <= i < j < s.len() ==> (#[trigger] s[i]).id != (#[trigger] s[j]).id
}

/// The distance in world units from a snapshot entry to node `v`: measured
/// along the edge when `v` is one of its endpoints, out of range otherwise.
pub open spec fn snap_dist_to_node(g: NodeGraph, e: VehicleSnap, v: int) -> int {
    if e.to == v {
        edge_len_spec(g, e.from as int, e.to as int) - e.edge_position
    } else if e.from == v {
        e.edge_position as int
    } else {
        EDGE_LEN_LIMIT as int
    }
}

/// The holder of node `v` keeps its reservation: it is still in the snapshot
/// and within the release buffer of the node.
pub open spec fn holder_keeps(
    g: NodeGraph,
    snap: Seq<VehicleSnap>,
    v: int,
    holder: usize,
    release_buffer: i64,
) -> bool {
    exists|i: int|
        0 <= i < snap.len() && (#[trigger] snap[i]).id == holder && snap_dist_to_node(
            g,
            snap[i],
            v,
        ) <= release_buffer
}

/// Some incoming edge of `v` carries right of way.
pub open spec fn node_has_priority_incoming(g: NodeGraph, v: int) -> bool {
    exists|i: int|
        0 <= i < g.edges@.len() && (#[trigger] g.edges@[i]).dest == v && g.edges@[i].priority
}

/// Snapshot entry `i` may be granted node `v`: it approaches `v` on an
/// incoming edge, within the acquisition buffer (inclusive, so a vehicle
/// waiting exactly at the buffer boundary is eligible), and is not
/// pre-empted by a priority edge.
pub open spec fn acquire_candidate(
    g: NodeGraph,
    snap: Seq<VehicleSnap>,
    v: int,
    acquisition_buffer: i64,
    i: int,
) -> bool {
    &&& 0 <= i < snap.len()
    &&& snap[i].to == v
    &&& snap_dist_to_node(g, snap[i], v) <= acquisition_buffer
    &&& node_has_priority_incoming(g, v) ==> edge_priority_spec(g.edges@, snap[i].from as int, v)
}

/// Candidate `i` ranks no worse than candidate `j`: nearer to the node, or
/// equally near with the smaller id.
pub open spec fn candidate_preferred(
    g: NodeGraph,
    snap: Seq<VehicleSnap>,
    v: int,
    i: int,
    j: int,
) -> bool {
    ||| snap_dist_to_node(g, snap[i], v) < snap_dist_to_node(g, snap[j], v)
    ||| (snap_dist_to_node(g, snap[i], v) == snap_dist_to_node(g, snap[j], v) && snap[i].id
        <= snap[j].id)
}

/// The release pass relates the old and new holder of each node.
pub open spec fn release_post(
    g: NodeGraph,
    snap: Seq<VehicleSnap>,
    release_buffer: i64,
    prev: Seq<Option<usize>>,
    next: Seq<Option<usize>>,
) -> bool {
    &&& next.len() == prev.len()
    &&& forall|v: int|
        0 <= v < prev.len() ==> #[trigger] next[v] == (match prev[v] {
            Option::Some(h) => if holder_keeps(g, snap, v, h, release_buffer) {
                Option::Some(h)
            } else {
                Option::None
            },
            Option::None => Option::<usize>::None,
        })
}

/// The acquire pass relates the old and new holder of each node: existing
/// reservations stand; a free node goes to its best-ranked candidate, if any.
pub open spec fn acquire_post(
    g: NodeGraph,
    snap: Seq<VehicleSnap>,
    acquisition_buffer: i64,
    prev: Seq<Option<usize>>,
    next: Seq<Option<usize>>,
) -> bool {
    &&& next.len() == prev.len()
    &&& forall|v: int| 0 <= v < prev.len() && prev[v] is Some ==> #[trigger] next[v] == prev[v]
    &&& forall|v: int|
        0 <= v < prev.len() && prev[v] is None && (exists|i: int|
            acquire_candidate(g, snap, v, acquisition_buffer, i)) ==> exists|i: int|
            acquire_candidate(g, snap, v, acquisition_buffer, i) && #[trigger] next[v]
                == Option::Some(snap[i].id) && (forall|j: int|
                acquire_candidate(g, snap, v, acquisition_buffer, j) ==> candidate_preferred(
                    g,
                    snap,
                    v,
                    i,
                    j,
                ))
    &&& forall|v: int|
        0 <= v < prev.len() && prev[v] is None && !(exists|i: int|
            acquire_candidate(g, snap, v, acquisition_buffer, i)) ==> #[trigger] next[v] is None
}

/// The mutable reservation table: at most one holding vehicle id per node.
pub struct ReservationTable {
    pub slots: Vec<Option<usize>>,
}

impl ReservationTable {
    /// One slot per node.
    pub open spec fn wf(self, n: int) -> bool {
        self.slots@.len() == n
    }

    /// The vehicle currently holding node `v`, if any.
    pub open spec fn spec_holder(self, v: int) -> Option<usize> {
        self.slots@[v]
    }

    /// An empty table for a graph of `n` nodes.
    pub fn new(n: usize) -> (r: Self)
        ensures
            r.wf(n as int),
            forall|v: int| 0 <= v < n ==> #[trigger] r.spec_holder(v) is None,
    {
        let mut slots: Vec<Option<usize>> = Vec::new();
        let mut i: usize = 0;
        while i < n
            invariant
                i <= n,
                slots@.len() == i,
                forall|v: int| 0 <= v < i ==> #[trigger] slots@[v] is None,
            decreases n - i,
        {
            slots.push(Option::None);
            i = i + 1;
        }
        ReservationTable { slots }
    }

    /// The holder of node `v`.
    pub fn holder(&self, v: usize) -> (r: Option<usize>)
        requires
            v < self.slots@.len(),
        ensures
            r == self.spec_holder(v as int),
    {
        self.slots[v]
    }

    /// Release pass: drops every reservation whose holder is missing from
    /// the snapshot or farther from the node than the release buffer.
    pub fn release(&mut self, graph: &NodeGraph, snap: &Vec<VehicleSnap>, release_buffer: i64)
        requires
            graph.wf(),
            old(self).wf(graph.n()),
            snap_wf(*graph, snap@),
            0 <= release_buffer < EDGE_LEN_LIMIT,
        ensures
            final(self).wf(graph.n()),
            release_post(*graph, snap@, release_buffer, old(self).slots@, final(self).slots@),
    {
        let n = self.slots.len();
        let mut v: usize = 0;
        while v < n
            invariant
                v <= n,
                n == graph.n(),
                graph.wf(),
                snap_wf(*graph, snap@),
                0 <= release_buffer < EDGE_LEN_LIMIT,
                self.slots@.len() == n,
                forall|w: int| v <= w < n ==> #[trigger] self.slots@[w] == old(self).slots@[w],
                forall|w: int|
                    0 <= w < v ==> #[trigger] self.slots@[w] == (match old(self).slots@[w] {
                        Option::Some(h) => if holder_keeps(*graph, snap@, w, h, release_buffer) {
                            Option::Some(h)
                        } else {
                            Option::None
                        },
                        Option::None => Option::<usize>::None,
                    }),
            decreases n - v,
        {
            if let Option::Some(h) = self.slots[v] {
                let mut keep = false;
                let mut i: usize = 0;
                while i < snap.len()
                    invariant
                        i <= snap@.len(),
                        v < n,
                        n == graph.n(),
                        graph.wf(),
                        snap_wf(*graph, snap@),
                        keep ==> holder_keeps(*graph, snap@, v as int, h, release_buffer),
                        !keep ==> forall|k: int|
                            0 <= k < i ==> !((#[trigger] snap@[k]).id == h && snap_dist_to_node(
                                *graph,
                                snap@[k],
                                v as int,
                            ) <= release_buffer),
                    decreases snap@.len() - i,
                {
                    let e = snap[i];
                    if e.id == h {
                        let d: i64 = if e.to == v {
                            graph.edge_length(e.from, e.to) - e.edge_position
                        } else if e.from == v {
                            e.edge_position
                        } else {
                            EDGE_LEN_LIMIT
                        };
                        proof {
                            assert(d == snap_dist_to_node(*graph, e, v as int));
                        }
                        if d <= release_buffer {
                            keep = true;
                        }
                    }
                    i = i + 1;
                }
                if !keep {
                    proof {
                        if holder_keeps(*graph, snap@, v as int, h, release_buffer) {
                            let k = choose|k: int|
                                0 <= k < snap@.len() && (#[trigger] snap@[k]).id == h
                                    && snap_dist_to_node(*graph, snap@[k], v as int)
                                    <= release_buffer;
                            assert(false);
                        }
                    }
                    self.slots[v] = Option::None;
                }
            }
            v = v + 1;
        }
    }

    /// Acquire pass: grants each free node with candidates to the nearest
    /// one, breaking distance ties by the lower vehicle id.
    #[verifier::rlimit(100)]
    pub fn acquire(
        &mut self,
        graph: &NodeGraph,
        snap: &Vec<VehicleSnap>,
        acquisition_buffer: i64,
    )
        requires
            graph.wf(),
            old(self).wf(graph.n()),
            snap_wf(*graph, snap@),
            0 < acquisition_buffer < EDGE_LEN_LIMIT,
        ensures
            final(self).wf(graph.n()),
            acquire_post(*graph, snap@, acquisition_buffer, old(self).slots@, final(self).slots@),
    {
        let n = self.slots.len();
        let mut v: usize = 0;
        while v < n
            invariant
                v <= n,
                n == graph.n(),
                graph.wf(),
                snap_wf(*graph, snap@),
                0 < acquisition_buffer < EDGE_LEN_LIMIT,
                self.slots@.len() == n,
                forall|w: int| v <= w < n ==> #[trigger] self.slots@[w] == old(self).slots@[w],
                forall|w: int|
                    0 <= w < v && old(self).slots@[w] is Some ==> #[trigger] self.slots@[w] == old(
                        self,
                    ).slots@[w],
                forall|w: int|
                    0 <= w < v && old(self).slots@[w] is None && (exists|i: int|
                        acquire_candidate(*graph, snap@, w, acquisition_buffer, i)) ==> exists|
                        i: int,
                    |
                        acquire_candidate(*graph, snap@, w, acquisition_buffer, i) && #[trigger] self.slots@[w] == Option::Some(snap@[i].id) && (forall|j: int|
                            acquire_candidate(*graph, snap@, w, acquisition_buffer, j)
                                ==> candidate_preferred(*graph, snap@, w, i, j)),
                forall|w: int|
                    0 <= w < v && old(self).slots@[w] is None && !(exists|i: int|
                        acquire_candidate(*graph, snap@, w, acquisition_buffer, i))
                        ==> #[trigger] self.slots@[w] is None,
            decreases n - v,
        {
            if self.slots[v].is_none() {
                // does any incoming edge carry right of way?
                let mut any_priority = false;
                let mut e: usize = 0;
                let elen = graph.edges.len();
                while e < elen
                    invariant
                        e <= elen,
                        elen == graph.edges@.len(),
                        v < n,
                        n == graph.n(),
                        graph.wf(),
                        any_priority ==> node_has_priority_incoming(*graph, v as int),
                        !any_priority ==> forall|i: int|
                            0 <= i < e ==> !((#[trigger] graph.edges@[i]).dest == v
                                && graph.edges@[i].priority),
                    decreases elen - e,
                {
                    let edge = graph.edges[e];
                    if edge.dest == v && edge.priority {
                        any_priority = true;
                    }
                    e = e + 1;
                }
                proof {
                    if !any_priority {
                        assert(!node_has_priority_incoming(*graph, v as int));
                    }
                }

                // find the best-ranked candidate on the admissible edges
                let mut best: Option<usize> = Option::None;
                let ghost mut best_idx: int = 0;
                let mut best_d: i64 = 0;
                let mut best_id: usize = 0;
                let mut i: usize = 0;
                while i < snap.len()
                    invariant
                        i <= snap@.len(),
                        v < n,
                        n == graph.n(),
                        graph.wf(),
                        snap_wf(*graph, snap@),
                        0 < acquisition_buffer < EDGE_LEN_LIMIT,
                        any_priority == node_has_priority_incoming(*graph, v as int),
                        best is None ==> forall|k: int|
                            0 <= k < i ==> !acquire_candidate(
                                *graph,
                                snap@,
                                v as int,
                                acquisition_buffer,
                                k,
                            ),
                        best is Some ==> 0 <= best_idx < i && acquire_candidate(
                            *graph,
                            snap@,
                            v as int,
                            acquisition_buffer,
                            best_idx,
                        ) && best == Option::Some(snap@[best_idx].id) && best_id
                            == snap@[best_idx].id && best_d == snap_dist_to_node(
                            *graph,
                            snap@[best_idx],
                            v as int,
                        ) && (forall|j: int|
                            0 <= j < i && acquire_candidate(
                                *graph,
                                snap@,
                                v as int,
                                acquisition_buffer,
                                j,
                            ) ==> candidate_preferred(*graph, snap@, v as int, best_idx, j)),
                    decreases snap@.len() - i,
                {
                    let entry = snap[i];
                    if entry.to == v {
                        let len = graph.edge_length(entry.from, entry.to);
                        let d = len - entry.edge_position;
                        proof {
                            assert(d == snap_dist_to_node(*graph, entry, v as int));
                        }
                        let admissible = if any_priority {
                            match graph.edge_between(entry.from, v) {
                                Option::Some(edge) => edge.priority,
                                Option::None => false,
                            }
                        } else {
                            true
                        };
                        if d <= acquisition_buffer && admissible {
                            proof {
                                assert(acquire_candidate(
                                    *graph,
                                    snap@,
                                    v as int,
                                    acquisition_buffer,
                                    i as int,
                                ));
                            }
                            let take = match best {
                                Option::None => true,
                                Option::Some(_) => d < best_d || (d == best_d && entry.id
                                    < best_id),
                            };
                            if take {
                                best = Option::Some(entry.id);
                                best_d = d;
                                best_id = entry.id;
                                proof {
                                    best_idx = i as int;
                                }
                            }
                        }
                    }
                    i = i + 1;
                }
                if let Option::Some(id) = best {
                    self.slots[v] = Option::Some(id);
                }
            }
            v = v + 1;
        }
    }
}

/// Each node names at most one holder: two ids holding the same node are the
/// same vehicle.
pub proof fn lemma_at_most_one_holder_per_node(
    t: ReservationTable,
    v: int,
    h1: usize,
    h2: usize,
)
    requires
        t.spec_holder(v) == Option::Some(h1),
        t.spec_holder(v) == Option::Some(h2),
    ensures
        h1 == h2,
{
}

} // verus!
