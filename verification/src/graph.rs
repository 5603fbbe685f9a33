//! The road network: an immutable directed graph of positioned nodes.
//!
//! `NodeGraph::build` validates its input, classifies each node as a source
//! (no incoming edges), a destination (no outgoing edges) or an intersection,
//! and derives forward and reverse adjacency lists.  The shortest-route table
//! between every reachable (source, destination) pair is computed once here
//! and never changes afterwards.

use vstd::prelude::*;

use crate::geometry::dist_sq;
use crate::geometry::dist_sq_spec;
use crate::geometry::pos_in_bounds;
use crate::geometry::Position;
use crate::paths::calculate_shortest_path_map;
use crate::paths::path_map_wf;
use crate::paths::PathEntry;

verus! {

broadcast use vstd::seq_lib::lemma_seq_contains_after_push;

/// A point of the network, carrying only its fixed world position.
#[derive(Clone, Copy, PartialEq, Eq, Structural, Debug)]
pub struct Node {
    pub position: Position,
}

/// A directed edge between two node indices; `priority` marks a
/// right-of-way lane whose traffic pre-empts other approaches.
#[derive(Clone, Copy, PartialEq, Eq, Structural, Debug)]
pub struct Edge {
    pub source: usize,
    pub dest: usize,
    pub priority: bool,
}

/// Why a graph was rejected at construction.
#[derive(Clone, Copy, PartialEq, Eq, Structural, Debug)]
pub enum InvalidGraph {
    /// A node position lies outside the coordinate range the fixed-point
    /// geometry supports.
    PositionOutOfRange,
    /// An edge references a node index at or beyond the node count.
    EdgeOutOfRange,
    /// Two edges share the same ordered (source, dest) pair.
    DuplicateEdge,
    /// An edge connects two nodes at the same position (this includes
    /// self-loops), leaving it without a drivable length.
    ZeroLengthEdge,
    /// A node has no incident edge at all, so it is neither a source, nor a
    /// destination, nor an intersection.
    IsolatedNode,
}

/// Every node position within the fixed-point coordinate range.
pub open spec fn all_positions_in_bounds(nodes: Seq<Node>) -> bool {
    forall|i: int| 0 <= i < nodes.len() ==> pos_in_bounds(#[trigger] nodes[i].position)
}

/// Every edge endpoint below the node count.
pub open spec fn edges_in_range(edges: Seq<Edge>, n: int) -> bool {
    forall|i: int|
        0 <= i < edges.len() ==> (#[trigger] edges[i]).source < n && edges[i].dest < n
}

/// No two edges with the same ordered (source, dest) pair.
pub open spec fn no_duplicate_edges(edges: Seq<Edge>) -> bool {
    forall|i: int, j: int|
        0 <= i < j < edges.len() ==> !((#[trigger] edges[i]).source == (#[trigger] edges[j]).source
            && edges[i].dest == edges[j].dest)
}

/// The endpoints of every edge sit at distinct positions.
pub open spec fn edges_nondegenerate(nodes: Seq<Node>, edges: Seq<Edge>) -> bool {
    forall|i: int|
        0 <= i < edges.len() ==> nodes[(#[trigger] edges[i]).source as int].position
            != nodes[edges[i].dest as int].position
}

/// No edge into or out of node `v`.
pub open spec fn is_isolated(edges: Seq<Edge>, v: int) -> bool {
    forall|i: int|
        0 <= i < edges.len() ==> (#[trigger] edges[i]).source != v && edges[i].dest != v
}

/// Every node has at least one incident edge.
pub open spec fn no_isolated_nodes(nodes: Seq<Node>, edges: Seq<Edge>) -> bool {
    forall|v: int| 0 <= v < nodes.len() ==> !is_isolated(edges, v)
}

/// The conditions under which `NodeGraph::build` accepts its input.
pub open spec fn graph_valid(nodes: Seq<Node>, edges: Seq<Edge>) -> bool {
    &&& all_positions_in_bounds(nodes)
    &&& edges_in_range(edges, nodes.len() as int)
    &&& no_duplicate_edges(edges)
    &&& edges_nondegenerate(nodes, edges)
    &&& no_isolated_nodes(nodes, edges)
}

/// The error `NodeGraph::build` reports, checked in a fixed order.
pub open spec fn build_failure(nodes: Seq<Node>, edges: Seq<Edge>) -> InvalidGraph {
    if !all_positions_in_bounds(nodes) {
        InvalidGraph::PositionOutOfRange
    } else if !edges_in_range(edges, nodes.len() as int) {
        InvalidGraph::EdgeOutOfRange
    } else if !no_duplicate_edges(edges) {
        InvalidGraph::DuplicateEdge
    } else if !edges_nondegenerate(nodes, edges) {
        InvalidGraph::ZeroLengthEdge
    } else {
        InvalidGraph::IsolatedNode
    }
}

/// Some edge goes from `s` to `d`.
pub open spec fn has_edge(edges: Seq<Edge>, s: int, d: int) -> bool {
    exists|i: int| 0 <= i < edges.len() && (#[trigger] edges[i]).source == s && edges[i].dest == d
}

/// No edge ends at `v`: `v` is a source (or isolated).
pub open spec fn no_incoming(edges: Seq<Edge>, v: int) -> bool {
    forall|i: int| 0 <= i < edges.len() ==> (#[trigger] edges[i]).dest != v
}

/// No edge starts at `v`: `v` is a destination (or isolated).
pub open spec fn no_outgoing(edges: Seq<Edge>, v: int) -> bool {
    forall|i: int| 0 <= i < edges.len() ==> (#[trigger] edges[i]).source != v
}

/// A sequence of node indices whose consecutive pairs are all edges.
pub open spec fn is_path(edges: Seq<Edge>, p: Seq<usize>) -> bool {
    forall|i: int| 0 <= i < p.len() - 1 ==> has_edge(edges, #[trigger] p[i] as int, p[i + 1] as int)
}

/// A path that leads from `s` to `d`.
pub open spec fn is_path_between(edges: Seq<Edge>, p: Seq<usize>, s: int, d: int) -> bool {
    &&& is_path(edges, p)
    &&& p.len() >= 1
    &&& p[0] == s
    &&& p[p.len() - 1] == d
}

/// Some path leads from `s` to `d`.
pub open spec fn reachable(edges: Seq<Edge>, s: int, d: int) -> bool {
    exists|p: Seq<usize>| is_path_between(edges, p, s, d)
}

/// The node positions of the four-arm intersection network.
pub open spec fn nightmare_nodes() -> Seq<Node> {
    seq![
        Node { position: Position { x: -1000i64, y: 0i64, z: 10000i64 } },
        Node { position: Position { x: 1000i64, y: 0i64, z: 10000i64 } },
        Node { position: Position { x: -1000i64, y: 0i64, z: -10000i64 } },
        Node { position: Position { x: 1000i64, y: 0i64, z: -10000i64 } },
        Node { position: Position { x: -10000i64, y: 0i64, z: -1000i64 } },
        Node { position: Position { x: -10000i64, y: 0i64, z: 1000i64 } },
        Node { position: Position { x: 10000i64, y: 0i64, z: -1000i64 } },
        Node { position: Position { x: 10000i64, y: 0i64, z: 1000i64 } },
        Node { position: Position { x: -1000i64, y: 0i64, z: 1000i64 } },
        Node { position: Position { x: 1000i64, y: 0i64, z: 1000i64 } },
        Node { position: Position { x: -1000i64, y: 0i64, z: -1000i64 } },
        Node { position: Position { x: 1000i64, y: 0i64, z: -1000i64 } },
    ]
}

/// The edges of the four-arm intersection network.
pub open spec fn nightmare_edges() -> Seq<Edge> {
    seq![
        Edge { source: 1, dest: 9, priority: false },
        Edge { source: 2, dest: 10, priority: false },
        Edge { source: 6, dest: 11, priority: false },
        Edge { source: 5, dest: 8, priority: false },
        Edge { source: 9, dest: 7, priority: false },
        Edge { source: 11, dest: 3, priority: false },
        Edge { source: 10, dest: 4, priority: false },
        Edge { source: 8, dest: 0, priority: false },
        Edge { source: 9, dest: 11, priority: false },
        Edge { source: 9, dest: 10, priority: false },
        Edge { source: 11, dest: 10, priority: false },
        Edge { source: 11, dest: 8, priority: false },
        Edge { source: 10, dest: 8, priority: false },
        Edge { source: 10, dest: 9, priority: false },
        Edge { source: 8, dest: 9, priority: false },
        Edge { source: 8, dest: 11, priority: false },
    ]
}

/// The node positions of the four-arm roundabout network.
pub open spec fn roundabout_nodes() -> Seq<Node> {
    seq![
        Node { position: Position { x: -5000i64, y: 0i64, z: 10000i64 } },
        Node { position: Position { x: 5000i64, y: 0i64, z: 10000i64 } },
        Node { position: Position { x: -5000i64, y: 0i64, z: -10000i64 } },
        Node { position: Position { x: 5000i64, y: 0i64, z: -10000i64 } },
        Node { position: Position { x: -10000i64, y: 0i64, z: -5000i64 } },
        Node { position: Position { x: -10000i64, y: 0i64, z: 5000i64 } },
        Node { position: Position { x: 10000i64, y: 0i64, z: -5000i64 } },
        Node { position: Position { x: 10000i64, y: 0i64, z: 5000i64 } },
        Node { position: Position { x: -2000i64, y: 0i64, z: 3000i64 } },
        Node { position: Position { x: 3000i64, y: 0i64, z: 2000i64 } },
        Node { position: Position { x: -3000i64, y: 0i64, z: -2000i64 } },
        Node { position: Position { x: 2000i64, y: 0i64, z: -3000i64 } },
        Node { position: Position { x: -3000i64, y: 0i64, z: 2000i64 } },
        Node { position: Position { x: 2000i64, y: 0i64, z: 3000i64 } },
        Node { position: Position { x: -2000i64, y: 0i64, z: -3000i64 } },
        Node { position: Position { x: 3000i64, y: 0i64, z: -2000i64 } },
    ]
}

/// The edges of the four-arm roundabout network.
pub open spec fn roundabout_edges() -> Seq<Edge> {
    seq![
        Edge { source: 7, dest: 9, priority: false },
        Edge { source: 3, dest: 11, priority: false },
        Edge { source: 4, dest: 10, priority: false },
        Edge { source: 0, dest: 8, priority: false },
        Edge { source: 13, dest: 1, priority: true },
        Edge { source: 14, dest: 2, priority: true },
        Edge { source: 15, dest: 6, priority: true },
        Edge { source: 12, dest: 5, priority: true },
        Edge { source: 12, dest: 8, priority: true },
        Edge { source: 13, dest: 9, priority: true },
        Edge { source: 14, dest: 10, priority: true },
        Edge { source: 15, dest: 11, priority: true },
        Edge { source: 9, dest: 15, priority: true },
        Edge { source: 11, dest: 14, priority: true },
        Edge { source: 10, dest: 12, priority: true },
        Edge { source: 8, dest: 13, priority: true },
    ]
}

/// The immutable road network with its derived lookup structures.
pub struct NodeGraph {
    pub nodes: Vec<Node>,
    pub edges: Vec<Edge>,
    /// Forward adjacency: `node_map[u]` lists every `v` with an edge `u -> v`.
    pub node_map: Vec<Vec<usize>>,
    /// Reverse adjacency: `reverse_node_map[v]` lists every `u` with an edge
    /// `u -> v`.
    pub reverse_node_map: Vec<Vec<usize>>,
    /// Nodes with no incoming edges.
    pub source_nodes: Vec<usize>,
    /// Nodes with no outgoing edges.
    pub dest_nodes: Vec<usize>,
    /// One shortest route for every reachable (source, destination) pair.
    pub shortest_path_map: Vec<PathEntry>,
}

impl NodeGraph {
    /// Number of nodes.
    pub open spec fn n(self) -> int {
        self.nodes@.len() as int
    }

    /// The forward adjacency list of node `u`.
    pub open spec fn spec_forward(self, u: int) -> Seq<usize> {
        self.node_map@[u]@
    }

    /// The reverse adjacency list of node `v`.
    pub open spec fn spec_reverse(self, v: int) -> Seq<usize> {
        self.reverse_node_map@[v]@
    }

    /// The adjacency lists mirror the edge set exactly.
    pub open spec fn adjacency_wf(self) -> bool {
        &&& self.node_map@.len() == self.n()
        &&& self.reverse_node_map@.len() == self.n()
        &&& forall|u: int, k: int|
            0 <= u < self.n() && 0 <= k < self.spec_forward(u).len() ==> has_edge(
                self.edges@,
                u,
                #[trigger] self.spec_forward(u)[k] as int,
            )
        &&& forall|v: int, k: int|
            0 <= v < self.n() && 0 <= k < self.spec_reverse(v).len() ==> has_edge(
                self.edges@,
                #[trigger] self.spec_reverse(v)[k] as int,
                v,
            )
        &&& forall|i: int|
            0 <= i < self.edges@.len() ==> self.spec_forward(
                (#[trigger] self.edges@[i]).source as int,
            ).contains(self.edges@[i].dest)
        &&& forall|i: int|
            0 <= i < self.edges@.len() ==> self.spec_reverse(
                (#[trigger] self.edges@[i]).dest as int,
            ).contains(self.edges@[i].source)
    }

    /// The source and destination lists match the classification rule.
    pub open spec fn classification_wf(self) -> bool {
        &&& forall|k: int|
            0 <= k < self.source_nodes@.len() ==> (#[trigger] self.source_nodes@[k]) < self.n()
                && no_incoming(self.edges@, self.source_nodes@[k] as int)
        &&& forall|v: int|
            0 <= v < self.n() && no_incoming(self.edges@, v) ==> self.source_nodes@.contains(
                v as usize,
            )
        &&& forall|k: int|
            0 <= k < self.dest_nodes@.len() ==> (#[trigger] self.dest_nodes@[k]) < self.n()
                && no_outgoing(self.edges@, self.dest_nodes@[k] as int)
        &&& forall|v: int|
            0 <= v < self.n() && no_outgoing(self.edges@, v) ==> self.dest_nodes@.contains(
                v as usize,
            )
        &&& self.source_nodes@.no_duplicates()
        &&& self.dest_nodes@.no_duplicates()
    }

    /// Full well-formedness: validated input plus faithful derived data.
    pub open spec fn wf(self) -> bool {
        &&& graph_valid(self.nodes@, self.edges@)
        &&& self.adjacency_wf()
        &&& self.classification_wf()
        &&& path_map_wf(self.nodes@, self.edges@, self.shortest_path_map@)
        &&& crate::paths::path_map_complete(
            self.edges@,
            self.source_nodes@,
            self.dest_nodes@,
            self.shortest_path_map@,
        )
    }

    /// A four-arm intersection: four entry roads, four exit roads and a
    /// fully connected centre of four nodes, all approaches equal.
    pub fn create_nightmare() -> (r: Result<NodeGraph, InvalidGraph>)
        ensures
            r is Ok,
            r->Ok_0.wf(),
            r->Ok_0.nodes@ == nightmare_nodes(),
            r->Ok_0.edges@ == nightmare_edges(),
    {
        let mut nodes: Vec<Node> = Vec::new();
        nodes.push(Node { position: Position { x: -1000, y: 0, z: 10000 } });
        nodes.push(Node { position: Position { x: 1000, y: 0, z: 10000 } });
        nodes.push(Node { position: Position { x: -1000, y: 0, z: -10000 } });
        nodes.push(Node { position: Position { x: 1000, y: 0, z: -10000 } });
        nodes.push(Node { position: Position { x: -10000, y: 0, z: -1000 } });
        nodes.push(Node { position: Position { x: -10000, y: 0, z: 1000 } });
        nodes.push(Node { position: Position { x: 10000, y: 0, z: -1000 } });
        nodes.push(Node { position: Position { x: 10000, y: 0, z: 1000 } });
        nodes.push(Node { position: Position { x: -1000, y: 0, z: 1000 } });
        nodes.push(Node { position: Position { x: 1000, y: 0, z: 1000 } });
        nodes.push(Node { position: Position { x: -1000, y: 0, z: -1000 } });
        nodes.push(Node { position: Position { x: 1000, y: 0, z: -1000 } });
        let mut edges: Vec<Edge> = Vec::new();
        edges.push(Edge { source: 1, dest: 9, priority: false });
        edges.push(Edge { source: 2, dest: 10, priority: false });
        edges.push(Edge { source: 6, dest: 11, priority: false });
        edges.push(Edge { source: 5, dest: 8, priority: false });
        edges.push(Edge { source: 9, dest: 7, priority: false });
        edges.push(Edge { source: 11, dest: 3, priority: false });
        edges.push(Edge { source: 10, dest: 4, priority: false });
        edges.push(Edge { source: 8, dest: 0, priority: false });
        edges.push(Edge { source: 9, dest: 11, priority: false });
        edges.push(Edge { source: 9, dest: 10, priority: false });
        edges.push(Edge { source: 11, dest: 10, priority: false });
        edges.push(Edge { source: 11, dest: 8, priority: false });
        edges.push(Edge { source: 10, dest: 8, priority: false });
        edges.push(Edge { source: 10, dest: 9, priority: false });
        edges.push(Edge { source: 8, dest: 9, priority: false });
        edges.push(Edge { source: 8, dest: 11, priority: false });
        proof {
            assert(nodes@ =~= nightmare_nodes());
            assert(edges@ =~= nightmare_edges());
            assert(!is_isolated(edges@, 0)) by { assert(edges@[7].source == 8 && edges@[7].dest == 0); }
            assert(!is_isolated(edges@, 1)) by { assert(edges@[0].source == 1 && edges@[0].dest == 9); }
            assert(!is_isolated(edges@, 2)) by { assert(edges@[1].source == 2 && edges@[1].dest == 10); }
            assert(!is_isolated(edges@, 3)) by { assert(edges@[5].source == 11 && edges@[5].dest == 3); }
            assert(!is_isolated(edges@, 4)) by { assert(edges@[6].source == 10 && edges@[6].dest == 4); }
            assert(!is_isolated(edges@, 5)) by { assert(edges@[3].source == 5 && edges@[3].dest == 8); }
            assert(!is_isolated(edges@, 6)) by { assert(edges@[2].source == 6 && edges@[2].dest == 11); }
            assert(!is_isolated(edges@, 7)) by { assert(edges@[4].source == 9 && edges@[4].dest == 7); }
            assert(!is_isolated(edges@, 8)) by { assert(edges@[3].source == 5 && edges@[3].dest == 8); }
            assert(!is_isolated(edges@, 9)) by { assert(edges@[0].source == 1 && edges@[0].dest == 9); }
            assert(!is_isolated(edges@, 10)) by { assert(edges@[1].source == 2 && edges@[1].dest == 10); }
            assert(!is_isolated(edges@, 11)) by { assert(edges@[2].source == 6 && edges@[2].dest == 11); }
            assert(no_isolated_nodes(nodes@, edges@));
            assert(graph_valid(nodes@, edges@));
        }
        NodeGraph::build(nodes, edges)
    }

    /// A four-arm roundabout: entries feed a rotary ring whose edges carry
    /// right of way, and the ring feeds the exits.
    pub fn create_roundabout() -> (r: Result<NodeGraph, InvalidGraph>)
        ensures
            r is Ok,
            r->Ok_0.wf(),
            r->Ok_0.nodes@ == roundabout_nodes(),
            r->Ok_0.edges@ == roundabout_edges(),
    {
        let mut nodes: Vec<Node> = Vec::new();
        nodes.push(Node { position: Position { x: -5000, y: 0, z: 10000 } });
        nodes.push(Node { position: Position { x: 5000, y: 0, z: 10000 } });
        nodes.push(Node { position: Position { x: -5000, y: 0, z: -10000 } });
        nodes.push(Node { position: Position { x: 5000, y: 0, z: -10000 } });
        nodes.push(Node { position: Position { x: -10000, y: 0, z: -5000 } });
        nodes.push(Node { position: Position { x: -10000, y: 0, z: 5000 } });
        nodes.push(Node { position: Position { x: 10000, y: 0, z: -5000 } });
        nodes.push(Node { position: Position { x: 10000, y: 0, z: 5000 } });
        nodes.push(Node { position: Position { x: -2000, y: 0, z: 3000 } });
        nodes.push(Node { position: Position { x: 3000, y: 0, z: 2000 } });
        nodes.push(Node { position: Position { x: -3000, y: 0, z: -2000 } });
        nodes.push(Node { position: Position { x: 2000, y: 0, z: -3000 } });
        nodes.push(Node { position: Position { x: -3000, y: 0, z: 2000 } });
        nodes.push(Node { position: Position { x: 2000, y: 0, z: 3000 } });
        nodes.push(Node { position: Position { x: -2000, y: 0, z: -3000 } });
        nodes.push(Node { position: Position { x: 3000, y: 0, z: -2000 } });
        let mut edges: Vec<Edge> = Vec::new();
        edges.push(Edge { source: 7, dest: 9, priority: false });
        edges.push(Edge { source: 3, dest: 11, priority: false });
        edges.push(Edge { source: 4, dest: 10, priority: false });
        edges.push(Edge { source: 0, dest: 8, priority: false });
        edges.push(Edge { source: 13, dest: 1, priority: true });
        edges.push(Edge { source: 14, dest: 2, priority: true });
        edges.push(Edge { source: 15, dest: 6, priority: true });
        edges.push(Edge { source: 12, dest: 5, priority: true });
        edges.push(Edge { source: 12, dest: 8, priority: true });
        edges.push(Edge { source: 13, dest: 9, priority: true });
        edges.push(Edge { source: 14, dest: 10, priority: true });
        edges.push(Edge { source: 15, dest: 11, priority: true });
        edges.push(Edge { source: 9, dest: 15, priority: true });
        edges.push(Edge { source: 11, dest: 14, priority: true });
        edges.push(Edge { source: 10, dest: 12, priority: true });
        edges.push(Edge { source: 8, dest: 13, priority: true });
        proof {
            assert(nodes@ =~= roundabout_nodes());
            assert(edges@ =~= roundabout_edges());
            assert(!is_isolated(edges@, 0)) by { assert(edges@[3].source == 0 && edges@[3].dest == 8); }
            assert(!is_isolated(edges@, 1)) by { assert(edges@[4].source == 13 && edges@[4].dest == 1); }
            assert(!is_isolated(edges@, 2)) by { assert(edges@[5].source == 14 && edges@[5].dest == 2); }
            assert(!is_isolated(edges@, 3)) by { assert(edges@[1].source == 3 && edges@[1].dest == 11); }
            assert(!is_isolated(edges@, 4)) by { assert(edges@[2].source == 4 && edges@[2].dest == 10); }
            assert(!is_isolated(edges@, 5)) by { assert(edges@[7].source == 12 && edges@[7].dest == 5); }
            assert(!is_isolated(edges@, 6)) by { assert(edges@[6].source == 15 && edges@[6].dest == 6); }
            assert(!is_isolated(edges@, 7)) by { assert(edges@[0].source == 7 && edges@[0].dest == 9); }
            assert(!is_isolated(edges@, 8)) by { assert(edges@[3].source == 0 && edges@[3].dest == 8); }
            assert(!is_isolated(edges@, 9)) by { assert(edges@[0].source == 7 && edges@[0].dest == 9); }
            assert(!is_isolated(edges@, 10)) by { assert(edges@[2].source == 4 && edges@[2].dest == 10); }
            assert(!is_isolated(edges@, 11)) by { assert(edges@[1].source == 3 && edges@[1].dest == 11); }
            assert(!is_isolated(edges@, 12)) by { assert(edges@[7].source == 12 && edges@[7].dest == 5); }
            assert(!is_isolated(edges@, 13)) by { assert(edges@[4].source == 13 && edges@[4].dest == 1); }
            assert(!is_isolated(edges@, 14)) by { assert(edges@[5].source == 14 && edges@[5].dest == 2); }
            assert(!is_isolated(edges@, 15)) by { assert(edges@[6].source == 15 && edges@[6].dest == 6); }
            assert(no_isolated_nodes(nodes@, edges@));
            assert(graph_valid(nodes@, edges@));
        }
        NodeGraph::build(nodes, edges)
    }

    /// Validates the node and edge lists and builds the derived structures.
    ///
    /// Succeeds exactly when the positions are in range, every edge joins two
    /// in-range nodes at distinct positions, no ordered pair repeats and no
    /// node is isolated; otherwise reports the first failing check.
    #[verifier::loop_isolation(false)]
    #[verifier::rlimit(80)]
    pub fn build(nodes: Vec<Node>, edges: Vec<Edge>) -> (r: Result<NodeGraph, InvalidGraph>)
        ensures
            r is Ok <==> graph_valid(nodes@, edges@),
            r is Ok ==> r->Ok_0.wf() && r->Ok_0.nodes@ == nodes@ && r->Ok_0.edges@ == edges@,
            r is Err ==> r->Err_0 == build_failure(nodes@, edges@),
    {
        let n = nodes.len();

        // Positions within the fixed-point range.
        let mut i: usize = 0;
        while i < n
            invariant
                i <= n,
                n == nodes@.len(),
                forall|k: int| 0 <= k < i ==> pos_in_bounds(#[trigger] nodes@[k].position),
            decreases n - i,
        {
            let p = nodes[i].position;
            if p.x < -crate::geometry::COORD_LIMIT || p.x > crate::geometry::COORD_LIMIT || p.y
                < -crate::geometry::COORD_LIMIT || p.y > crate::geometry::COORD_LIMIT || p.z
                < -crate::geometry::COORD_LIMIT || p.z > crate::geometry::COORD_LIMIT {
                return Result::Err(InvalidGraph::PositionOutOfRange);
            }
            i = i + 1;
        }

        // Edge endpoints in range.
        let mut i: usize = 0;
        while i < edges.len()
            invariant
                i <= edges@.len(),
                n == nodes@.len(),
                forall|k: int|
                    0 <= k < i ==> (#[trigger] edges@[k]).source < n && edges@[k].dest < n,
            decreases edges@.len() - i,
        {
            let e = edges[i];
            if e.source >= n || e.dest >= n {
                return Result::Err(InvalidGraph::EdgeOutOfRange);
            }
            i = i + 1;
        }

        // No duplicate ordered pair.
        let mut i: usize = 0;
        while i < edges.len()
            invariant
                i <= edges@.len(),
                forall|a: int, b: int|
                    0 <= a < b < edges@.len() && a < i ==> !((#[trigger] edges@[a]).source == (
                    #[trigger] edges@[b]).source && edges@[a].dest == edges@[b].dest),
            decreases edges@.len() - i,
        {
            let mut j: usize = i + 1;
            while j < edges.len()
                invariant
                    i < j <= edges@.len(),
                    forall|b: int|
                        i < b < j ==> !((#[trigger] edges@[b]).source == edges@[i as int].source
                            && edges@[b].dest == edges@[i as int].dest),
                decreases edges@.len() - j,
            {
                if edges[i].source == edges[j].source && edges[i].dest == edges[j].dest {
                    return Result::Err(InvalidGraph::DuplicateEdge);
                }
                j = j + 1;
            }
            i = i + 1;
        }

        // Distinct endpoint positions for every edge.
        let mut i: usize = 0;
        while i < edges.len()
            invariant
                i <= edges@.len(),
                n == nodes@.len(),
                edges_in_range(edges@, n as int),
                all_positions_in_bounds(nodes@),
                forall|k: int|
                    0 <= k < i ==> nodes@[(#[trigger] edges@[k]).source as int].position
                        != nodes@[edges@[k].dest as int].position,
            decreases edges@.len() - i,
        {
            let e = edges[i];
            let a = nodes[e.source].position;
            let b = nodes[e.dest].position;
            if dist_sq(a, b) == 0 {
                proof {
                    lemma_dist_sq_zero(a, b);
                }
                return Result::Err(InvalidGraph::ZeroLengthEdge);
            }
            proof {
                lemma_dist_sq_zero(a, b);
            }
            i = i + 1;
        }

        // No isolated node.
        let mut v: usize = 0;
        while v < n
            invariant
                v <= n,
                n == nodes@.len(),
                forall|w: int| 0 <= w < v ==> !is_isolated(edges@, w),
            decreases n - v,
        {
            let mut found = false;
            let mut i: usize = 0;
            while i < edges.len()
                invariant
                    i <= edges@.len(),
                    found ==> !is_isolated(edges@, v as int),
                    !found ==> forall|k: int|
                        0 <= k < i ==> (#[trigger] edges@[k]).source != v && edges@[k].dest != v,
                decreases edges@.len() - i,
            {
                if edges[i].source == v || edges[i].dest == v {
                    found = true;
                }
                i = i + 1;
            }
            if !found {
                proof {
                    assert(is_isolated(edges@, v as int));
                    assert(!no_isolated_nodes(nodes@, edges@));
                }
                return Result::Err(InvalidGraph::IsolatedNode);
            }
            v = v + 1;
        }

        // Forward and reverse adjacency, one row per node, in edge order.
        let mut node_map: Vec<Vec<usize>> = Vec::new();
        let mut reverse_node_map: Vec<Vec<usize>> = Vec::new();
        let mut u: usize = 0;
        while u < n
            invariant
                u <= n,
                n == nodes@.len(),
                edges_in_range(edges@, n as int),
                node_map@.len() == u,
                reverse_node_map@.len() == u,
                forall|w: int, k: int|
                    0 <= w < u && 0 <= k < node_map@[w]@.len() ==> has_edge(
                        edges@,
                        w,
                        #[trigger] node_map@[w]@[k] as int,
                    ),
                forall|w: int, k: int|
                    0 <= w < u && 0 <= k < reverse_node_map@[w]@.len() ==> has_edge(
                        edges@,
                        #[trigger] reverse_node_map@[w]@[k] as int,
                        w,
                    ),
                forall|i: int|
                    0 <= i < edges@.len() && (#[trigger] edges@[i]).source < u
                        ==> node_map@[edges@[i].source as int]@.contains(edges@[i].dest),
                forall|i: int|
                    0 <= i < edges@.len() && (#[trigger] edges@[i]).dest < u
                        ==> reverse_node_map@[edges@[i].dest as int]@.contains(edges@[i].source),
            decreases n - u,
        {
            let mut fwd: Vec<usize> = Vec::new();
            let mut rev: Vec<usize> = Vec::new();
            let mut i: usize = 0;
            while i < edges.len()
                invariant
                    i <= edges@.len(),
                    u < n,
                    n == nodes@.len(),
                    edges_in_range(edges@, n as int),
                    forall|k: int|
                        0 <= k < fwd@.len() ==> has_edge(edges@, u as int, #[trigger] fwd@[k] as int),
                    forall|k: int|
                        0 <= k < rev@.len() ==> has_edge(edges@, #[trigger] rev@[k] as int, u as int),
                    forall|j: int|
                        0 <= j < i && (#[trigger] edges@[j]).source == u ==> fwd@.contains(
                            edges@[j].dest,
                        ),
                    forall|j: int|
                        0 <= j < i && (#[trigger] edges@[j]).dest == u ==> rev@.contains(
                            edges@[j].source,
                        ),
                decreases edges@.len() - i,
            {
                let e = edges[i];
                if e.source == u {
                    fwd.push(e.dest);
                    proof {
                        assert(has_edge(edges@, u as int, e.dest as int));
                    }
                }
                if e.dest == u {
                    rev.push(e.source);
                    proof {
                        assert(has_edge(edges@, e.source as int, u as int));
                    }
                }
                i = i + 1;
            }
            node_map.push(fwd);
            reverse_node_map.push(rev);
            u = u + 1;
        }

        // Classification: sources have no incoming, destinations no outgoing.
        let mut source_nodes: Vec<usize> = Vec::new();
        let mut dest_nodes: Vec<usize> = Vec::new();
        let mut v: usize = 0;
        while v < n
            invariant
                v <= n,
                n == nodes@.len(),
                reverse_node_map@.len() == n,
                node_map@.len() == n,
                forall|w: int, k: int|
                    0 <= w < n && 0 <= k < node_map@[w]@.len() ==> has_edge(
                        edges@,
                        w,
                        #[trigger] node_map@[w]@[k] as int,
                    ),
                forall|w: int, k: int|
                    0 <= w < n && 0 <= k < reverse_node_map@[w]@.len() ==> has_edge(
                        edges@,
                        #[trigger] reverse_node_map@[w]@[k] as int,
                        w,
                    ),
                forall|i: int|
                    0 <= i < edges@.len() ==> node_map@[(#[trigger] edges@[i]).source as int]@
                        .contains(edges@[i].dest),
                forall|i: int|
                    0 <= i < edges@.len() ==> reverse_node_map@[(#[trigger] edges@[i]).dest as int]@
                        .contains(edges@[i].source),
                forall|k: int|
                    0 <= k < source_nodes@.len() ==> (#[trigger] source_nodes@[k]) < n
                        && no_incoming(edges@, source_nodes@[k] as int),
                forall|k: int| 0 <= k < source_nodes@.len() ==> (#[trigger] source_nodes@[k]) < v,
                source_nodes@.no_duplicates(),
                forall|w: int|
                    0 <= w < v && no_incoming(edges@, w) ==> source_nodes@.contains(w as usize),
                forall|k: int|
                    0 <= k < dest_nodes@.len() ==> (#[trigger] dest_nodes@[k]) < n && no_outgoing(
                        edges@,
                        dest_nodes@[k] as int,
                    ),
                forall|k: int| 0 <= k < dest_nodes@.len() ==> (#[trigger] dest_nodes@[k]) < v,
                dest_nodes@.no_duplicates(),
                forall|w: int|
                    0 <= w < v && no_outgoing(edges@, w) ==> dest_nodes@.contains(w as usize),
            decreases n - v,
        {
            if reverse_node_map[v].len() == 0 {
                proof {
                    assert forall|i: int|
                        0 <= i < edges@.len() implies (#[trigger] edges@[i]).dest != v by {
                        if edges@[i].dest == v {
                            assert(reverse_node_map@[v as int]@.contains(edges@[i].source));
                        }
                    }
                }
                proof {
                    assert(!source_nodes@.contains(v));
                }
                source_nodes.push(v);
            } else {
                proof {
                    let k0 = reverse_node_map@[v as int]@[0];
                    assert(has_edge(edges@, k0 as int, v as int));
                    assert(!no_incoming(edges@, v as int)) by {
                        let i = choose|i: int|
                            0 <= i < edges@.len() && (#[trigger] edges@[i]).source == k0 as int
                                && edges@[i].dest == v as int;
                        assert(edges@[i].dest == v);
                    }
                }
            }
            if node_map[v].len() == 0 {
                proof {
                    assert forall|i: int|
                        0 <= i < edges@.len() implies (#[trigger] edges@[i]).source != v by {
                        if edges@[i].source == v {
                            assert(node_map@[v as int]@.contains(edges@[i].dest));
                        }
                    }
                }
                proof {
                    assert(!dest_nodes@.contains(v));
                }
                dest_nodes.push(v);
            } else {
                proof {
                    let k0 = node_map@[v as int]@[0];
                    assert(has_edge(edges@, v as int, k0 as int));
                    assert(!no_outgoing(edges@, v as int)) by {
                        let i = choose|i: int|
                            0 <= i < edges@.len() && (#[trigger] edges@[i]).source == v as int
                                && edges@[i].dest == k0 as int;
                        assert(edges@[i].source == v);
                    }
                }
            }
            v = v + 1;
        }

        let shortest_path_map = calculate_shortest_path_map(
            &nodes,
            &edges,
            &node_map,
            &reverse_node_map,
            &source_nodes,
            &dest_nodes,
        );

        Result::Ok(
            NodeGraph {
                nodes,
                edges,
                node_map,
                reverse_node_map,
                source_nodes,
                dest_nodes,
                shortest_path_map,
            },
        )
    }
}

/// Serialization round trip: the node list and edge list of a well-formed
/// graph are themselves a valid input, so `build` on them succeeds, and by
/// `build`'s contract the rebuilt graph carries exactly the same node
/// positions and the same edge sequence - hence the same edge set.
pub proof fn lemma_serialization_round_trip(g: NodeGraph)
    requires
        g.wf(),
    ensures
        graph_valid(g.nodes@, g.edges@),
{
}

/// The index of the edge from `s` to `d`; meaningful when such an edge
/// exists and no ordered pair repeats.
pub open spec fn edge_index_of(edges: Seq<Edge>, s: int, d: int) -> int {
    choose|i: int| 0 <= i < edges.len() && (#[trigger] edges[i]).source == s && edges[i].dest == d
}

/// With no duplicate pairs, any matching index is the edge's index.
pub proof fn lemma_edge_index_unique(edges: Seq<Edge>, i: int)
    requires
        no_duplicate_edges(edges),
        0 <= i < edges.len(),
    ensures
        edge_index_of(edges, edges[i].source as int, edges[i].dest as int) == i,
{
    let s = edges[i].source as int;
    let d = edges[i].dest as int;
    assert(has_edge(edges, s, d));
    let j = edge_index_of(edges, s, d);
    if i < j {
        assert(!(edges[i].source == edges[j].source && edges[i].dest == edges[j].dest));
    } else if j < i {
        assert(!(edges[j].source == edges[i].source && edges[j].dest == edges[i].dest));
    }
}

/// Whether the (unique) edge from `s` to `d` carries right of way.
pub open spec fn edge_priority_spec(edges: Seq<Edge>, s: int, d: int) -> bool {
    edges[edge_index_of(edges, s, d)].priority
}

/// The drivable length of the edge from `u` to `v`, in world units.
pub open spec fn edge_len_spec(g: NodeGraph, u: int, v: int) -> int {
    crate::geometry::sqrt_floor(
        dist_sq_spec(g.nodes@[u].position, g.nodes@[v].position),
    )
}

/// `x` first occurs in `s` at position `i`.
pub open spec fn first_at(s: Seq<usize>, x: usize, i: int) -> bool {
    &&& 0 <= i < s.len()
    &&& s[i] == x
    &&& forall|j: int| 0 <= j < i ==> s[j] != x
}

impl NodeGraph {
    /// Number of nodes, as an executable count.
    pub fn num_nodes(&self) -> (r: usize)
        ensures
            r == self.n(),
    {
        self.nodes.len()
    }

    /// The position of node `v`.
    pub fn node_position(&self, v: usize) -> (r: Position)
        requires
            v < self.n(),
        ensures
            r == self.nodes@[v as int].position,
    {
        self.nodes[v].position
    }

    /// The unique edge from `u` to `v`, if one exists.
    pub fn edge_between(&self, u: usize, v: usize) -> (r: Option<Edge>)
        requires
            self.wf(),
        ensures
            r is Some <==> has_edge(self.edges@, u as int, v as int),
            r matches Some(e) ==> e.source == u && e.dest == v && e.priority
                == edge_priority_spec(self.edges@, u as int, v as int),
    {
        let mut i: usize = 0;
        while i < self.edges.len()
            invariant
                i <= self.edges@.len(),
                no_duplicate_edges(self.edges@),
                forall|k: int|
                    0 <= k < i ==> !((#[trigger] self.edges@[k]).source == u && self.edges@[k].dest
                        == v),
            decreases self.edges@.len() - i,
        {
            let e = self.edges[i];
            if e.source == u && e.dest == v {
                proof {
                    lemma_edge_index_unique(self.edges@, i as int);
                }
                return Option::Some(e);
            }
            i = i + 1;
        }
        proof {
            if has_edge(self.edges@, u as int, v as int) {
                let k = choose|k: int|
                    0 <= k < self.edges@.len() && (#[trigger] self.edges@[k]).source == u as int
                        && self.edges@[k].dest == v as int;
                assert(false);
            }
        }
        Option::None
    }

    /// The length in world units of the edge from `u` to `v`; positive, since
    /// a valid graph has no zero-length edge.
    pub fn edge_length(&self, u: usize, v: usize) -> (r: i64)
        requires
            self.wf(),
            u < self.n(),
            v < self.n(),
            has_edge(self.edges@, u as int, v as int),
        ensures
            r == edge_len_spec(*self, u as int, v as int),
            1 <= r < crate::geometry::EDGE_LEN_LIMIT,
    {
        proof {
            let k = choose|k: int|
                0 <= k < self.edges@.len() && (#[trigger] self.edges@[k]).source == u as int
                    && self.edges@[k].dest == v as int;
            assert(self.nodes@[u as int].position != self.nodes@[v as int].position);
            lemma_dist_sq_zero(self.nodes@[u as int].position, self.nodes@[v as int].position);
        }
        let d2 = dist_sq(self.nodes[u].position, self.nodes[v].position);
        let r = crate::geometry::isqrt(d2);
        proof {
            if r == 0 {
                assert(d2 < (r + 1) * (r + 1));
                assert(d2 < 1) by (nonlinear_arith)
                    requires
                        r == 0,
                        d2 < (r + 1) * (r + 1),
                ;
                assert(d2 == 0);
                assert(false);
            }
        }
        r
    }

    /// Whether node `v` is a source (no incoming edges).
    pub fn is_source_node(&self, v: usize) -> (r: bool)
        requires
            self.wf(),
            v < self.n(),
        ensures
            r == no_incoming(self.edges@, v as int),
    {
        let empty = self.reverse_node_map[v].len() == 0;
        proof {
            if empty {
                assert forall|i: int|
                    0 <= i < self.edges@.len() implies (#[trigger] self.edges@[i]).dest != v by {
                    if self.edges@[i].dest == v {
                        assert(self.spec_reverse(v as int).contains(self.edges@[i].source));
                    }
                }
            } else {
                let u0 = self.spec_reverse(v as int)[0];
                assert(has_edge(self.edges@, u0 as int, v as int));
                let i = choose|i: int|
                    0 <= i < self.edges@.len() && (#[trigger] self.edges@[i]).source == u0 as int
                        && self.edges@[i].dest == v as int;
                assert(!no_incoming(self.edges@, v as int));
            }
        }
        empty
    }

    /// Whether node `v` is a destination (no outgoing edges).
    pub fn is_dest_node(&self, v: usize) -> (r: bool)
        requires
            self.wf(),
            v < self.n(),
        ensures
            r == no_outgoing(self.edges@, v as int),
    {
        let empty = self.node_map[v].len() == 0;
        proof {
            if empty {
                assert forall|i: int|
                    0 <= i < self.edges@.len() implies (#[trigger] self.edges@[i]).source != v by {
                    if self.edges@[i].source == v {
                        assert(self.spec_forward(v as int).contains(self.edges@[i].dest));
                    }
                }
            } else {
                let w0 = self.spec_forward(v as int)[0];
                assert(has_edge(self.edges@, v as int, w0 as int));
                let i = choose|i: int|
                    0 <= i < self.edges@.len() && (#[trigger] self.edges@[i]).source == v as int
                        && self.edges@[i].dest == w0 as int;
                assert(!no_outgoing(self.edges@, v as int));
            }
        }
        empty
    }

    /// The precomputed shortest route from `source` to `dest`, if that pair
    /// is reachable.
    pub fn shortest_path(&self, source: usize, dest: usize) -> (r: Option<&Vec<usize>>)
        requires
            self.wf(),
        ensures
            r is Some <==> exists|k: int|
                0 <= k < self.shortest_path_map@.len() && (
                #[trigger] self.shortest_path_map@[k]).source == source
                    && self.shortest_path_map@[k].dest == dest,
            r matches Some(p) ==> is_path_between(self.edges@, p@, source as int, dest as int)
                && p@.len() >= 2 && (forall|q: Seq<usize>|
                is_path_between(self.edges@, q, source as int, dest as int) ==> q.len()
                    >= p@.len()) && (forall|i: int|
                0 <= i < p@.len() ==> (#[trigger] p@[i]) < self.n()),
    {
        let mut k: usize = 0;
        while k < self.shortest_path_map.len()
            invariant
                k <= self.shortest_path_map@.len(),
                path_map_wf(self.nodes@, self.edges@, self.shortest_path_map@),
                forall|j: int|
                    0 <= j < k ==> !((#[trigger] self.shortest_path_map@[j]).source == source
                        && self.shortest_path_map@[j].dest == dest),
            decreases self.shortest_path_map@.len() - k,
        {
            let entry = &self.shortest_path_map[k];
            if entry.source == source && entry.dest == dest {
                return Option::Some(&entry.path);
            }
            k = k + 1;
        }
        Option::None
    }

    /// Whether the directed pair (`source_node`, `dest_node`) appears as one
    /// step of `path`, judging each node by its first occurrence.
    pub fn is_edge_in_path(source_node: usize, dest_node: usize, path: &Vec<usize>) -> (r: bool)
        ensures
            r == exists|i: int|
                #[trigger] first_at(path@, source_node, i) && first_at(path@, dest_node, i + 1),
    {
        let len = path.len();
        let mut si: usize = 0;
        let mut s_found = false;
        let mut k: usize = 0;
        while k < len
            invariant
                len == path@.len(),
                k <= len,
                s_found ==> first_at(path@, source_node, si as int),
                !s_found ==> forall|j: int| 0 <= j < k ==> path@[j] != source_node,
            decreases len - k,
        {
            if !s_found && path[k] == source_node {
                si = k;
                s_found = true;
            }
            k = k + 1;
        }
        let mut di: usize = 0;
        let mut d_found = false;
        let mut k: usize = 0;
        while k < len
            invariant
                len == path@.len(),
                k <= len,
                d_found ==> first_at(path@, dest_node, di as int),
                !d_found ==> forall|j: int| 0 <= j < k ==> path@[j] != dest_node,
            decreases len - k,
        {
            if !d_found && path[k] == dest_node {
                di = k;
                d_found = true;
            }
            k = k + 1;
        }
        let r = s_found && d_found && di == si + 1;
        proof {
            if r {
                assert(first_at(path@, source_node, si as int) && first_at(
                    path@,
                    dest_node,
                    si as int + 1,
                ));
            } else {
                if exists|i: int|
                    #[trigger] first_at(path@, source_node, i) && first_at(path@, dest_node, i + 1) {
                    let i = choose|i: int|
                        #[trigger] first_at(path@, source_node, i) && first_at(
                            path@,
                            dest_node,
                            i + 1,
                        );
                    assert(s_found && d_found);
                    assert((si as int) == i) by {
                        if (si as int) < i {
                            assert(path@[si as int] != source_node);
                        }
                        if i < (si as int) {
                            assert(path@[i] != source_node);
                        }
                    }
                    assert((di as int) == i + 1) by {
                        if (di as int) < i + 1 {
                            assert(path@[di as int] != dest_node);
                        }
                        if i + 1 < (di as int) {
                            assert(path@[i + 1] != dest_node);
                        }
                    }
                    assert(false);
                }
            }
        }
        r
    }
}

/// The spec-level edge length of a real edge lies between one unit and the
/// edge-length limit.
pub proof fn lemma_edge_len_in_range(g: NodeGraph, u: int, v: int)
    requires
        g.wf(),
        0 <= u < g.n(),
        0 <= v < g.n(),
        has_edge(g.edges@, u, v),
    ensures
        1 <= edge_len_spec(g, u, v) < crate::geometry::EDGE_LEN_LIMIT,
{
    let a = g.nodes@[u].position;
    let b = g.nodes@[v].position;
    let k = choose|k: int|
        0 <= k < g.edges@.len() && (#[trigger] g.edges@[k]).source == u && g.edges@[k].dest == v;
    assert(a != b);
    lemma_dist_sq_zero(a, b);
    let dx = a.x - b.x;
    let dy = a.y - b.y;
    let dz = a.z - b.z;
    assert(0 <= dx * dx <= 4_000_000_000_000) by (nonlinear_arith)
        requires
            -2_000_000 <= dx <= 2_000_000,
    ;
    assert(0 <= dy * dy <= 4_000_000_000_000) by (nonlinear_arith)
        requires
            -2_000_000 <= dy <= 2_000_000,
    ;
    assert(0 <= dz * dz <= 4_000_000_000_000) by (nonlinear_arith)
        requires
            -2_000_000 <= dz <= 2_000_000,
    ;
    crate::geometry::lemma_sqrt_floor_bounded(dist_sq_spec(a, b));
}

/// Two in-bounds positions coincide exactly when their squared distance is
/// zero.
pub proof fn lemma_dist_sq_zero(a: Position, b: Position)
    ensures
        (dist_sq_spec(a, b) == 0) <==> (a == b),
{
    let dx = a.x - b.x;
    let dy = a.y - b.y;
    let dz = a.z - b.z;
    assert(dx * dx >= 0 && (dx * dx == 0 <==> dx == 0)) by (nonlinear_arith);
    assert(dy * dy >= 0 && (dy * dy == 0 <==> dy == 0)) by (nonlinear_arith);
    assert(dz * dz >= 0 && (dz * dz == 0 <==> dz == 0)) by (nonlinear_arith);
}

} // verus!
