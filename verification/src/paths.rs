//! Shortest-route precomputation: a breadth-first search per source node and
//! a deterministic backward reconstruction, producing one fewest-hop route
//! for every reachable (source, destination) pair.

use vstd::prelude::*;

use crate::graph::edges_in_range;
use crate::graph::has_edge;
use crate::graph::is_path;
use crate::graph::is_path_between;
use crate::graph::no_incoming;
use crate::graph::no_outgoing;
use crate::graph::reachable;
use crate::graph::Edge;
use crate::graph::Node;

verus! {

broadcast use vstd::seq_lib::lemma_seq_contains_after_push;

/// One precomputed route: the fewest-hop node sequence from `source` to
/// `dest`.
pub struct PathEntry {
    pub source: usize,
    pub dest: usize,
    pub path: Vec<usize>,
}

/// A route table entry is a shortest path between its own key pair, over
/// in-range nodes.
pub open spec fn path_entry_wf(nodes: Seq<Node>, edges: Seq<Edge>, e: PathEntry) -> bool {
    &&& is_path_between(edges, e.path@, e.source as int, e.dest as int)
    &&& e.path@.len() >= 2
    &&& forall|i: int| 0 <= i < e.path@.len() ==> (#[trigger] e.path@[i]) < nodes.len()
    &&& no_incoming(edges, e.source as int)
    &&& no_outgoing(edges, e.dest as int)
    &&& forall|q: Seq<usize>|
        is_path_between(edges, q, e.source as int, e.dest as int) ==> q.len() >= e.path@.len()
}

/// Every entry is a shortest route and no key pair repeats.
pub open spec fn path_map_wf(nodes: Seq<Node>, edges: Seq<Edge>, entries: Seq<PathEntry>) -> bool {
    &&& forall|k: int|
        0 <= k < entries.len() ==> path_entry_wf(nodes, edges, #[trigger] entries[k])
    &&& forall|k1: int, k2: int|
        0 <= k1 < k2 < entries.len() ==> !((#[trigger] entries[k1]).source == (
        #[trigger] entries[k2]).source && entries[k1].dest == entries[k2].dest)
}

/// The table has an entry for every reachable (source, destination) pair.
pub open spec fn path_map_complete(
    edges: Seq<Edge>,
    sources: Seq<usize>,
    dests: Seq<usize>,
    entries: Seq<PathEntry>,
) -> bool {
    forall|a: int, b: int|
        0 <= a < sources.len() && 0 <= b < dests.len() && reachable(
            edges,
            #[trigger] sources[a] as int,
            #[trigger] dests[b] as int,
        ) ==> exists|k: int|
            0 <= k < entries.len() && (#[trigger] entries[k]).source == sources[a]
                && entries[k].dest == dests[b]
}

/// The forward adjacency lists agree with the edge set.
pub open spec fn forward_adjacency_ok(edges: Seq<Edge>, nm: Seq<Vec<usize>>, n: int) -> bool {
    &&& nm.len() == n
    &&& edges_in_range(edges, n)
    &&& forall|u: int, k: int|
        0 <= u < n && 0 <= k < nm[u]@.len() ==> has_edge(edges, u, #[trigger] nm[u]@[k] as int)
    &&& forall|i: int|
        0 <= i < edges.len() ==> nm[(#[trigger] edges[i]).source as int]@.contains(edges[i].dest)
}

/// The reverse adjacency lists agree with the edge set.
pub open spec fn reverse_adjacency_ok(edges: Seq<Edge>, rm: Seq<Vec<usize>>, n: int) -> bool {
    &&& rm.len() == n
    &&& edges_in_range(edges, n)
    &&& forall|v: int, k: int|
        0 <= v < n && 0 <= k < rm[v]@.len() ==> has_edge(edges, #[trigger] rm[v]@[k] as int, v)
    &&& forall|i: int|
        0 <= i < edges.len() ==> rm[(#[trigger] edges[i]).dest as int]@.contains(edges[i].source)
}

/// Some path of exactly `k` hops (`k + 1` nodes) leads from `s` to `v`.
pub open spec fn has_path_of_len(edges: Seq<Edge>, s: int, v: int, k: int) -> bool {
    exists|p: Seq<usize>| is_path_between(edges, p, s, v) && p.len() == k + 1
}

/// Hop distances closed under edges: one step away from a recorded node is
/// recorded, at most one hop further.
pub open spec fn dist_edge_closed(edges: Seq<Edge>, dist: Seq<Option<usize>>) -> bool {
    forall|i: int|
        0 <= i < edges.len() && dist[(#[trigger] edges[i]).source as int] is Some
            ==> dist[edges[i].dest as int] is Some && dist[edges[i].dest as int].unwrap()
            <= dist[edges[i].source as int].unwrap() + 1
}

/// A hop-distance map is faithful to the graph: the source sits at zero, only
/// the source at zero, recorded nodes are witnessed by real paths, and the
/// map is closed under edges.
pub open spec fn dist_map_ok(edges: Seq<Edge>, s: int, n: int, dist: Seq<Option<usize>>) -> bool {
    &&& dist.len() == n
    &&& dist[s] == Some(0usize)
    &&& dist_edge_closed(edges, dist)
    &&& forall|v: int|
        0 <= v < n && #[trigger] dist[v] is Some ==> dist[v].unwrap() < n && has_path_of_len(
            edges,
            s,
            v,
            dist[v].unwrap() as int,
        )
    &&& forall|v: int| 0 <= v < n && #[trigger] dist[v] is Some && dist[v].unwrap() == 0 ==> v == s
}

/// Appending one edge to a path from `s` to `u` gives a path from `s` to `v`.
proof fn lemma_path_extend(edges: Seq<Edge>, p: Seq<usize>, s: int, v: usize)
    requires
        p.len() >= 1,
        is_path_between(edges, p, s, p[p.len() - 1] as int),
        has_edge(edges, p[p.len() - 1] as int, v as int),
    ensures
        is_path_between(edges, p.push(v), s, v as int),
{
    let q = p.push(v);
    assert(q[q.len() - 1] == v);
    assert(q[0] == p[0]);
    assert forall|i: int| 0 <= i < q.len() - 1 implies has_edge(
        edges,
        #[trigger] q[i] as int,
        q[i + 1] as int,
    ) by {
        if i < p.len() - 1 {
            assert(q[i] == p[i]);
            assert(q[i + 1] == p[i + 1]);
        } else {
            assert(q[i] == p[p.len() - 1]);
            assert(q[i + 1] == v);
        }
    }
}

/// Every path from the source bounds the recorded hop distance of its last
/// node: a faithful distance map never overestimates.
pub proof fn lemma_dist_bounds_path(
    edges: Seq<Edge>,
    s: int,
    n: int,
    dist: Seq<Option<usize>>,
    p: Seq<usize>,
)
    requires
        dist.len() == n,
        edges_in_range(edges, n),
        0 <= s < n,
        dist[s] == Some(0usize),
        dist_edge_closed(edges, dist),
        is_path(edges, p),
        p.len() >= 1,
        p[0] == s,
    ensures
        dist[p[p.len() - 1] as int] is Some,
        dist[p[p.len() - 1] as int].unwrap() <= p.len() - 1,
        p[p.len() - 1] < n,
    decreases p.len(),
{
    if p.len() == 1 {
        assert(p[p.len() - 1] == p[0]);
    } else {
        let q = p.drop_last();
        assert(is_path(edges, q)) by {
            assert forall|i: int| 0 <= i < q.len() - 1 implies has_edge(
                edges,
                #[trigger] q[i] as int,
                q[i + 1] as int,
            ) by {
                assert(q[i] == p[i]);
                assert(q[i + 1] == p[i + 1]);
            }
        }
        lemma_dist_bounds_path(edges, s, n, dist, q);
        let u = p[p.len() - 2] as int;
        let w = p[p.len() - 1] as int;
        assert(has_edge(edges, u, w));
        let i = choose|i: int|
            0 <= i < edges.len() && (#[trigger] edges[i]).source == u && edges[i].dest == w;
        assert(dist[w] is Some && dist[w].unwrap() <= dist[u].unwrap() + 1);
    }
}

/// A distinct sequence of indices below `n` has at most `n` elements.
proof fn lemma_distinct_bounded_len(q: Seq<usize>, n: int)
    requires
        q.no_duplicates(),
        0 <= n,
        forall|i: int| 0 <= i < q.len() ==> (#[trigger] q[i] as int) < n,
    ensures
        q.len() <= n,
{
    let qi = q.map_values(|x: usize| x as int);
    assert(qi.no_duplicates()) by {
        assert forall|i: int, j: int|
            0 <= i < qi.len() && 0 <= j < qi.len() && i != j implies qi[i] != qi[j] by {
            assert(qi[i] == q[i] as int);
            assert(qi[j] == q[j] as int);
        }
    }
    qi.unique_seq_to_set();
    assert(qi.to_set().subset_of(vstd::set_lib::set_int_range(0, n))) by {
        assert forall|x: int| qi.to_set().contains(x) implies vstd::set_lib::set_int_range(
            0,
            n,
        ).contains(x) by {
            let i = choose|i: int| 0 <= i < qi.len() && qi[i] == x;
            assert(qi[i] == q[i] as int);
        }
    }
    vstd::set_lib::lemma_int_range(0, n);
    vstd::set_lib::lemma_len_subset(qi.to_set(), vstd::set_lib::set_int_range(0, n));
}

/// Breadth-first search from `source` over the forward adjacency lists,
/// recording the hop distance of every reachable node.
#[verifier::rlimit(100)]
pub fn calculate_distance_map(
    source: usize,
    node_map: &Vec<Vec<usize>>,
    edges: &Vec<Edge>,
    n: usize,
) -> (dist: Vec<Option<usize>>)
    requires
        source < n,
        forward_adjacency_ok(edges@, node_map@, n as int),
    ensures
        dist_map_ok(edges@, source as int, n as int, dist@),
{
    let mut dist: Vec<Option<usize>> = Vec::new();
    let mut i: usize = 0;
    while i < n
        invariant
            i <= n,
            dist@.len() == i,
            forall|v: int| 0 <= v < i ==> dist@[v] is None,
        decreases n - i,
    {
        dist.push(Option::None);
        i = i + 1;
    }

    let mut queue: Vec<usize> = Vec::new();
    dist[source] = Option::Some(0);
    queue.push(source);
    proof {
        let p0 = seq![source];
        assert(is_path_between(edges@, p0, source as int, source as int));
        assert(has_path_of_len(edges@, source as int, source as int, 0));
    }

    let mut head: usize = 0;
    while head < queue.len()
        invariant
            source < n,
            forward_adjacency_ok(edges@, node_map@, n as int),
            dist@.len() == n,
            head <= queue@.len(),
            queue@.len() <= n,
            dist@[source as int] == Some(0usize),
            // queue holds exactly the recorded nodes, each once
            forall|idx: int|
                0 <= idx < queue@.len() ==> (#[trigger] queue@[idx]) < n
                    && dist@[queue@[idx] as int] is Some,
            forall|v: int| 0 <= v < n && #[trigger] dist@[v] is Some ==> queue@.contains(v as usize),
            queue@.no_duplicates(),
            // recorded distances grow along the queue, by at most one past
            // the cursor
            forall|a: int, b: int|
                0 <= a <= b < queue@.len() ==> dist@[queue@[a] as int].unwrap() <= dist@[queue@[b] as int].unwrap(),
            forall|idx: int|
                head <= idx < queue@.len() ==> dist@[queue@[idx] as int].unwrap() <= dist@[queue@[head as int] as int].unwrap() + 1,
            forall|idx: int|
                0 <= idx < queue@.len() ==> dist@[queue@[idx] as int].unwrap() <= idx,
            // nodes before the cursor have all successors recorded
            forall|a: int, k: int|
                0 <= a < head && 0 <= k < node_map@[queue@[a] as int]@.len()
                    ==> dist@[#[trigger] node_map@[queue@[a] as int]@[k] as int] is Some
                    && dist@[node_map@[queue@[a] as int]@[k] as int].unwrap() <= dist@[queue@[a] as int].unwrap() + 1,
            // every recorded node is witnessed by a real path
            forall|v: int|
                0 <= v < n && #[trigger] dist@[v] is Some ==> has_path_of_len(
                    edges@,
                    source as int,
                    v,
                    dist@[v].unwrap() as int,
                ),
            forall|v: int|
                0 <= v < n && #[trigger] dist@[v] is Some && dist@[v].unwrap() == 0 ==> v
                    == source,
        decreases n - head,
    {
        let node = queue[head];
        let d_node = match dist[node] {
            Option::Some(d) => d,
            Option::None => {
                proof {
                    assert(false);
                }
                0
            },
        };
        proof {
            lemma_distinct_bounded_len(queue@, n as int);
        }
        let row_len = node_map[node].len();
        let mut k: usize = 0;
        while k < row_len
            invariant
                source < n,
                node < n,
                forward_adjacency_ok(edges@, node_map@, n as int),
                row_len == node_map@[node as int]@.len(),
                k <= row_len,
                head < queue@.len(),
                queue@.len() <= n,
                queue@[head as int] == node,
                dist@[node as int] == Some(d_node),
                d_node + 1 <= n,
                dist@.len() == n,
                dist@[source as int] == Some(0usize),
                forall|idx: int|
                    0 <= idx < queue@.len() ==> (#[trigger] queue@[idx]) < n
                        && dist@[queue@[idx] as int] is Some,
                forall|v: int|
                    0 <= v < n && #[trigger] dist@[v] is Some ==> queue@.contains(v as usize),
                queue@.no_duplicates(),
                forall|a: int, b: int|
                    0 <= a <= b < queue@.len() ==> dist@[queue@[a] as int].unwrap() <= dist@[queue@[b] as int].unwrap(),
                forall|idx: int|
                    head <= idx < queue@.len() ==> dist@[queue@[idx] as int].unwrap() <= d_node
                        + 1,
                forall|idx: int|
                    0 <= idx < queue@.len() ==> dist@[queue@[idx] as int].unwrap() <= idx,
                forall|a: int, kk: int|
                    0 <= a < head && 0 <= kk < node_map@[queue@[a] as int]@.len()
                        ==> dist@[#[trigger] node_map@[queue@[a] as int]@[kk] as int] is Some
                        && dist@[node_map@[queue@[a] as int]@[kk] as int].unwrap() <= dist@[queue@[a] as int].unwrap() + 1,
                forall|kk: int|
                    0 <= kk < k ==> dist@[#[trigger] node_map@[node as int]@[kk] as int] is Some
                        && dist@[node_map@[node as int]@[kk] as int].unwrap() <= d_node + 1,
                forall|v: int|
                    0 <= v < n && #[trigger] dist@[v] is Some ==> has_path_of_len(
                        edges@,
                        source as int,
                        v,
                        dist@[v].unwrap() as int,
                    ),
                forall|v: int|
                    0 <= v < n && #[trigger] dist@[v] is Some && dist@[v].unwrap() == 0 ==> v
                        == source,
            decreases row_len - k,
        {
            let v = node_map[node][k];
            proof {
                assert(has_edge(edges@, node as int, v as int));
                let i = choose|i: int|
                    0 <= i < edges@.len() && (#[trigger] edges@[i]).source == node as int
                        && edges@[i].dest == v as int;
                assert(v < n);
            }
            if dist[v].is_none() {
                proof {
                    assert(!queue@.contains(v));
                    // path witness for v, one hop past node
                    let p = choose|p: Seq<usize>|
                        is_path_between(edges@, p, source as int, node as int) && p.len() == d_node
                            + 1;
                    assert(p[p.len() - 1] == node);
                    lemma_path_extend(edges@, p, source as int, v);
                    assert(is_path_between(edges@, p.push(v), source as int, v as int));
                    assert(p.push(v).len() == d_node + 2);
                }
                dist[v] = Option::Some(d_node + 1);
                let ghost old_queue = queue@;
                queue.push(v);
                proof {
                    assert forall|a: int, b: int|
                        0 <= a <= b < queue@.len() implies dist@[queue@[a] as int].unwrap()
                        <= dist@[queue@[b] as int].unwrap() by {
                        if b < queue@.len() - 1 {
                            assert(queue@[a] == old_queue[a]);
                            assert(queue@[b] == old_queue[b]);
                        } else {
                            assert(queue@[b] == v);
                            if a < queue@.len() - 1 {
                                assert(queue@[a] == old_queue[a]);
                            }
                        }
                    }
                    assert(queue@.no_duplicates()) by {
                        assert forall|a: int, b: int|
                            0 <= a < queue@.len() && 0 <= b < queue@.len() && a != b implies queue@[a]
                            != queue@[b] by {
                            if a < old_queue.len() && b < old_queue.len() {
                            } else if a == old_queue.len() as int {
                                assert(queue@[a] == v);
                                assert(old_queue.contains(queue@[b]) ==> queue@[b] != v);
                            } else if b == old_queue.len() as int {
                                assert(queue@[b] == v);
                            }
                        }
                    }
                    lemma_distinct_bounded_len(queue@, n as int);
                }
            }
            k = k + 1;
        }
        head = head + 1;
        proof {
            assert forall|idx: int|
                head <= idx < queue@.len() implies dist@[queue@[idx] as int].unwrap()
                <= dist@[queue@[head as int] as int].unwrap() + 1 by {
                assert(dist@[queue@[idx] as int].unwrap() <= d_node + 1);
                assert(d_node <= dist@[queue@[head as int] as int].unwrap());
            }
        }
    }

    proof {
        assert forall|i: int|
            0 <= i < edges@.len() && dist@[(#[trigger] edges@[i]).source as int] is Some implies
            dist@[edges@[i].dest as int] is Some && dist@[edges@[i].dest as int].unwrap()
            <= dist@[edges@[i].source as int].unwrap() + 1 by {
            let u = edges@[i].source;
            let w = edges@[i].dest;
            assert(queue@.contains(u));
            let a = choose|a: int| 0 <= a < queue@.len() && queue@[a] == u;
            assert(node_map@[u as int]@.contains(w));
            let kk = choose|kk: int|
                0 <= kk < node_map@[u as int]@.len() && node_map@[u as int]@[kk] == w;
            assert(dist@[node_map@[queue@[a] as int]@[kk] as int] is Some);
        }
        assert forall|v: int| 0 <= v < n && #[trigger] dist@[v] is Some implies dist@[v].unwrap()
            < n by {
            assert(queue@.contains(v as usize));
            let a = choose|a: int| 0 <= a < queue@.len() && queue@[a] == v as usize;
            lemma_distinct_bounded_len(queue@, n as int);
            assert(dist@[v].unwrap() <= a);
        }
    }
    dist
}

/// For a node recorded at hop distance `cd >= 1`, some reverse-neighbor is
/// recorded at hop distance `cd - 1`.
proof fn lemma_predecessor_exists(
    edges: Seq<Edge>,
    rm: Seq<Vec<usize>>,
    dist: Seq<Option<usize>>,
    s: int,
    n: int,
    node: usize,
    cd: usize,
)
    requires
        0 <= s < n,
        node < n,
        cd >= 1,
        dist_map_ok(edges, s, n, dist),
        reverse_adjacency_ok(edges, rm, n),
        dist[node as int] == Some(cd),
    ensures
        exists|u0: usize|
            #[trigger] rm[node as int]@.contains(u0) && dist[u0 as int] == Some((cd - 1) as usize)
                && has_edge(edges, u0 as int, node as int),
{
    assert(has_path_of_len(edges, s, node as int, cd as int));
    let p = choose|p: Seq<usize>|
        is_path_between(edges, p, s, node as int) && p.len() == cd + 1;
    let u0 = p[p.len() - 2];
    assert(has_edge(edges, u0 as int, node as int));
    let q = p.drop_last();
    assert(is_path(edges, q)) by {
        assert forall|i: int| 0 <= i < q.len() - 1 implies has_edge(
            edges,
            #[trigger] q[i] as int,
            q[i + 1] as int,
        ) by {
            assert(q[i] == p[i]);
            assert(q[i + 1] == p[i + 1]);
        }
    }
    lemma_dist_bounds_path(edges, s, n, dist, q);
    assert(dist[u0 as int].unwrap() <= cd - 1);
    // the edge closure forbids anything below cd - 1
    let i = choose|i: int|
        0 <= i < edges.len() && (#[trigger] edges[i]).source == u0 as int && edges[i].dest
            == node as int;
    assert(dist[u0 as int].unwrap() >= cd - 1);
    assert(dist[u0 as int] == Some((cd - 1) as usize));
    assert(rm[node as int]@.contains(u0));
}

/// Scans the reverse-neighbors of `node` for one recorded at hop distance
/// `cd - 1`; such a neighbor is required to exist.
fn find_predecessor(
    node: usize,
    cd: usize,
    dist: &Vec<Option<usize>>,
    reverse_node_map: &Vec<Vec<usize>>,
    edges: &Vec<Edge>,
    n: usize,
) -> (u: usize)
    requires
        node < n,
        cd >= 1,
        dist@.len() == n,
        reverse_adjacency_ok(edges@, reverse_node_map@, n as int),
        exists|u0: usize|
            #[trigger] reverse_node_map@[node as int]@.contains(u0) && dist@[u0 as int] == Some(
                (cd - 1) as usize,
            ) && has_edge(edges@, u0 as int, node as int),
    ensures
        u < n,
        dist@[u as int] == Some((cd - 1) as usize),
        has_edge(edges@, u as int, node as int),
{
    let row_len = reverse_node_map[node].len();
    let mut chosen: usize = 0;
    let mut found = false;
    let mut j: usize = 0;
    while j < row_len
        invariant
            node < n,
            cd >= 1,
            row_len == reverse_node_map@[node as int]@.len(),
            j <= row_len,
            n == dist@.len(),
            reverse_adjacency_ok(edges@, reverse_node_map@, n as int),
            found ==> chosen < n && dist@[chosen as int] == Some((cd - 1) as usize) && has_edge(
                edges@,
                chosen as int,
                node as int,
            ),
            !found ==> forall|jj: int|
                0 <= jj < j ==> dist@[#[trigger] reverse_node_map@[node as int]@[jj] as int]
                    != Some((cd - 1) as usize),
        decreases row_len - j,
    {
        if !found {
            let u = reverse_node_map[node][j];
            proof {
                assert(has_edge(edges@, u as int, node as int));
                let i = choose|i: int|
                    0 <= i < edges@.len() && (#[trigger] edges@[i]).source == u as int
                        && edges@[i].dest == node as int;
                assert(u < n);
            }
            match dist[u] {
                Option::Some(du) => {
                    if du == cd - 1 {
                        chosen = u;
                        found = true;
                    }
                },
                Option::None => {},
            }
        }
        j = j + 1;
    }
    if !found {
        proof {
            let u0 = choose|u0: usize|
                #[trigger] reverse_node_map@[node as int]@.contains(u0) && dist@[u0 as int] == Some(
                    (cd - 1) as usize,
                ) && has_edge(edges@, u0 as int, node as int);
            let jj = choose|jj: int|
                0 <= jj < reverse_node_map@[node as int]@.len() && reverse_node_map@[node as int]@[jj] == u0;
            assert(false);
        }
    }
    chosen
}

/// One shortest route from `source` to `dest`, reconstructed backward from
/// the breadth-first hop distances; `None` exactly when `dest` cannot be
/// reached from `source`.
///
/// Where several predecessors sit at the same hop distance, the walk takes
/// the first one in the stored reverse-adjacency order, which follows the
/// edge list; the reconstruction is therefore deterministic.
#[verifier::rlimit(100)]
pub fn calculate_shortest_path(
    source: usize,
    dest: usize,
    edges: &Vec<Edge>,
    node_map: &Vec<Vec<usize>>,
    reverse_node_map: &Vec<Vec<usize>>,
    n: usize,
) -> (r: Option<Vec<usize>>)
    requires
        source < n,
        dest < n,
        forward_adjacency_ok(edges@, node_map@, n as int),
        reverse_adjacency_ok(edges@, reverse_node_map@, n as int),
    ensures
        r is Some <==> reachable(edges@, source as int, dest as int),
        r matches Some(p) ==> is_path_between(edges@, p@, source as int, dest as int),
        r matches Some(p) ==> forall|q: Seq<usize>|
            is_path_between(edges@, q, source as int, dest as int) ==> q.len() >= p@.len(),
        r matches Some(p) ==> forall|i: int| 0 <= i < p@.len() ==> (#[trigger] p@[i]) < n,
{
    let dist = calculate_distance_map(source, node_map, edges, n);

    let k = match dist[dest] {
        Option::Some(k) => k,
        Option::None => {
            proof {
                if reachable(edges@, source as int, dest as int) {
                    let p = choose|p: Seq<usize>|
                        is_path_between(edges@, p, source as int, dest as int);
                    lemma_dist_bounds_path(edges@, source as int, n as int, dist@, p);
                }
            }
            return Option::None;
        },
    };

    // Walk backward from the destination, one hop-distance level at a time.
    let mut path: Vec<usize> = Vec::new();
    path.push(dest);
    let mut node = dest;
    let mut cd = k;
    while cd > 0
        invariant
            source < n,
            dest < n,
            node < n,
            cd <= k,
            forward_adjacency_ok(edges@, node_map@, n as int),
            reverse_adjacency_ok(edges@, reverse_node_map@, n as int),
            dist_map_ok(edges@, source as int, n as int, dist@),
            dist@[dest as int] == Some(k),
            dist@[node as int] == Some(cd),
            path@.len() == k - cd + 1,
            path@[0] == dest,
            path@[path@.len() - 1] == node,
            forall|i: int| 0 <= i < path@.len() ==> (#[trigger] path@[i]) < n,
            forall|i: int|
                0 <= i < path@.len() ==> dist@[#[trigger] path@[i] as int] == Some((k - i) as usize),
            forall|i: int|
                0 <= i < path@.len() - 1 ==> has_edge(
                    edges@,
                    #[trigger] path@[i + 1] as int,
                    path@[i] as int,
                ),
        decreases cd,
    {
        proof {
            lemma_predecessor_exists(
                edges@,
                reverse_node_map@,
                dist@,
                source as int,
                n as int,
                node,
                cd,
            );
        }
        let chosen = find_predecessor(node, cd, &dist, reverse_node_map, edges, n);
        path.push(chosen);
        node = chosen;
        cd = cd - 1;
    }

    proof {
        // hop distance zero is the source itself
        assert(node == source);
    }

    // the walk was backward; emit the route forward
    let result = reverse_route(&path);
    proof {
        lemma_reversed_walk_is_shortest(
            edges@,
            dist@,
            source as int,
            dest as int,
            n as int,
            k,
            path@,
            result@,
        );
    }
    Option::Some(result)
}

/// The same node sequence in the opposite order.
fn reverse_route(path: &Vec<usize>) -> (r: Vec<usize>)
    ensures
        r@.len() == path@.len(),
        forall|a: int| 0 <= a < r@.len() ==> #[trigger] r@[a] == path@[path@.len() - 1 - a],
{
    let total = path.len();
    let mut result: Vec<usize> = Vec::new();
    let mut i: usize = 0;
    while i < total
        invariant
            total == path@.len(),
            i <= total,
            result@.len() == i,
            forall|a: int| 0 <= a < i ==> #[trigger] result@[a] == path@[total - 1 - a],
        decreases total - i,
    {
        result.push(path[total - 1 - i]);
        i = i + 1;
    }
    result
}

/// A completed backward walk, reversed, is a shortest path from `s` to `d`.
proof fn lemma_reversed_walk_is_shortest(
    edges: Seq<Edge>,
    dist: Seq<Option<usize>>,
    s: int,
    d: int,
    n: int,
    k: usize,
    path: Seq<usize>,
    result: Seq<usize>,
)
    requires
        0 <= s < n,
        0 <= d < n,
        dist.len() == n,
        edges_in_range(edges, n),
        dist[s] == Some(0usize),
        dist_edge_closed(edges, dist),
        path.len() == k + 1,
        path[0] == d,
        path[path.len() - 1] == s,
        dist[d] == Some(k),
        forall|i: int| 0 <= i < path.len() ==> (#[trigger] path[i]) < n,
        forall|i: int|
            0 <= i < path.len() - 1 ==> has_edge(edges, #[trigger] path[i + 1] as int, path[i] as int),
        result.len() == path.len(),
        forall|a: int| 0 <= a < result.len() ==> #[trigger] result[a] == path[path.len() - 1 - a],
    ensures
        is_path_between(edges, result, s, d),
        reachable(edges, s, d),
        forall|q: Seq<usize>| is_path_between(edges, q, s, d) ==> q.len() >= result.len(),
        forall|i: int| 0 <= i < result.len() ==> (#[trigger] result[i]) < n,
{
    let total = path.len() as int;
    assert(result[0] == s);
    assert(result[result.len() - 1] == d);
    assert forall|a: int| 0 <= a < result.len() - 1 implies has_edge(
        edges,
        #[trigger] result[a] as int,
        result[a + 1] as int,
    ) by {
        let i = total - 2 - a;
        assert(result[a] == path[i + 1]);
        assert(result[a + 1] == path[i]);
        assert(has_edge(edges, path[i + 1] as int, path[i] as int));
    }
    assert(is_path_between(edges, result, s, d));
    assert(reachable(edges, s, d));
    assert forall|q: Seq<usize>| is_path_between(edges, q, s, d) implies q.len() >= result.len() by {
        lemma_dist_bounds_path(edges, s, n, dist, q);
        assert(dist[d] is Some && dist[d].unwrap() <= q.len() - 1);
    }
}

/// Computes the full shortest-route table for the given classified graph:
/// one entry per reachable (source, destination) pair, sources outermost, in
/// list order.
#[verifier::rlimit(100)]
pub fn calculate_shortest_path_map(
    nodes: &Vec<Node>,
    edges: &Vec<Edge>,
    node_map: &Vec<Vec<usize>>,
    reverse_node_map: &Vec<Vec<usize>>,
    source_nodes: &Vec<usize>,
    dest_nodes: &Vec<usize>,
) -> (entries: Vec<PathEntry>)
    requires
        forward_adjacency_ok(edges@, node_map@, nodes@.len() as int),
        reverse_adjacency_ok(edges@, reverse_node_map@, nodes@.len() as int),
        crate::graph::no_isolated_nodes(nodes@, edges@),
        source_nodes@.no_duplicates(),
        dest_nodes@.no_duplicates(),
        forall|k: int|
            0 <= k < source_nodes@.len() ==> (#[trigger] source_nodes@[k]) < nodes@.len()
                && no_incoming(edges@, source_nodes@[k] as int),
        forall|k: int|
            0 <= k < dest_nodes@.len() ==> (#[trigger] dest_nodes@[k]) < nodes@.len()
                && no_outgoing(edges@, dest_nodes@[k] as int),
    ensures
        path_map_wf(nodes@, edges@, entries@),
        path_map_complete(edges@, source_nodes@, dest_nodes@, entries@),
{
    let n = nodes.len();
    let mut entries: Vec<PathEntry> = Vec::new();
    // ghost bookkeeping: the (source position, destination position) pair of
    // each entry, and the entry index of each reachable pair handled so far
    let ghost mut keys: Seq<(int, int)> = Seq::empty();
    let ghost mut pos: Map<(int, int), int> = Map::empty();
    let ghost dlen = dest_nodes@.len() as int;
    let mut a: usize = 0;
    while a < source_nodes.len()
        invariant
            n == nodes@.len(),
            a <= source_nodes@.len(),
            dlen == dest_nodes@.len() as int,
            forward_adjacency_ok(edges@, node_map@, n as int),
            reverse_adjacency_ok(edges@, reverse_node_map@, n as int),
            crate::graph::no_isolated_nodes(nodes@, edges@),
            source_nodes@.no_duplicates(),
            dest_nodes@.no_duplicates(),
            forall|k: int|
                0 <= k < source_nodes@.len() ==> (#[trigger] source_nodes@[k]) < nodes@.len()
                    && no_incoming(edges@, source_nodes@[k] as int),
            forall|k: int|
                0 <= k < dest_nodes@.len() ==> (#[trigger] dest_nodes@[k]) < nodes@.len()
                    && no_outgoing(edges@, dest_nodes@[k] as int),
            forall|k: int|
                0 <= k < entries@.len() ==> path_entry_wf(nodes@, edges@, #[trigger] entries@[k]),
            keys.len() == entries@.len(),
            forall|k: int|
                0 <= k < keys.len() ==> 0 <= (#[trigger] keys[k]).0 < a && 0 <= keys[k].1 < dlen
                    && entries@[k].source == source_nodes@[keys[k].0] && entries@[k].dest
                    == dest_nodes@[keys[k].1],
            forall|k1: int, k2: int| 0 <= k1 < k2 < keys.len() ==> keys[k1] != keys[k2],
            forall|a2: int, b2: int|
                0 <= a2 < a && 0 <= b2 < dlen && reachable(
                    edges@,
                    #[trigger] source_nodes@[a2] as int,
                    #[trigger] dest_nodes@[b2] as int,
                ) ==> pos.contains_key((a2, b2)) && 0 <= pos[(a2, b2)] < entries@.len()
                    && keys[pos[(a2, b2)]] == (a2, b2),
        decreases source_nodes@.len() - a,
    {
        let s = source_nodes[a];
        let mut b: usize = 0;
        while b < dest_nodes.len()
            invariant
                n == nodes@.len(),
                a < source_nodes@.len(),
                s == source_nodes@[a as int],
                b <= dest_nodes@.len(),
                dlen == dest_nodes@.len() as int,
                forward_adjacency_ok(edges@, node_map@, n as int),
                reverse_adjacency_ok(edges@, reverse_node_map@, n as int),
                crate::graph::no_isolated_nodes(nodes@, edges@),
                source_nodes@.no_duplicates(),
                dest_nodes@.no_duplicates(),
                forall|k: int|
                    0 <= k < source_nodes@.len() ==> (#[trigger] source_nodes@[k]) < nodes@.len()
                        && no_incoming(edges@, source_nodes@[k] as int),
                forall|k: int|
                    0 <= k < dest_nodes@.len() ==> (#[trigger] dest_nodes@[k]) < nodes@.len()
                        && no_outgoing(edges@, dest_nodes@[k] as int),
                forall|k: int|
                    0 <= k < entries@.len() ==> path_entry_wf(
                        nodes@,
                        edges@,
                        #[trigger] entries@[k],
                    ),
                keys.len() == entries@.len(),
                forall|k: int|
                    0 <= k < keys.len() ==> 0 <= (#[trigger] keys[k]).0 <= a && 0 <= keys[k].1
                        < dlen && ((keys[k]).0 < a || keys[k].1 < b) && entries@[k].source
                        == source_nodes@[keys[k].0] && entries@[k].dest == dest_nodes@[keys[k].1],
                forall|k1: int, k2: int| 0 <= k1 < k2 < keys.len() ==> keys[k1] != keys[k2],
                forall|a2: int, b2: int|
                    0 <= a2 <= a && 0 <= b2 < dlen && (a2 < a || b2 < b) && reachable(
                        edges@,
                        #[trigger] source_nodes@[a2] as int,
                        #[trigger] dest_nodes@[b2] as int,
                    ) ==> pos.contains_key((a2, b2)) && 0 <= pos[(a2, b2)] < entries@.len()
                        && keys[pos[(a2, b2)]] == (a2, b2),
            decreases dest_nodes@.len() - b,
        {
            let d = dest_nodes[b];
            match calculate_shortest_path(s, d, edges, node_map, reverse_node_map, n) {
                Option::Some(p) => {
                    proof {
                        // a source and a destination never coincide: that
                        // node would be isolated
                        if s == d {
                            assert(crate::graph::is_isolated(edges@, s as int));
                            assert(false);
                        }
                        assert(p@.len() >= 2);
                    }
                    entries.push(PathEntry { source: s, dest: d, path: p });
                    proof {
                        keys = keys.push((a as int, b as int));
                        pos = pos.insert((a as int, b as int), entries@.len() - 1);
                        assert(path_entry_wf(nodes@, edges@, entries@[entries@.len() - 1]));
                    }
                },
                Option::None => {},
            }
            b = b + 1;
        }
        a = a + 1;
    }
    proof {
        assert forall|k1: int, k2: int| 0 <= k1 < k2 < entries@.len() implies !((
        #[trigger] entries@[k1]).source == (#[trigger] entries@[k2]).source && entries@[k1].dest
            == entries@[k2].dest) by {
            if entries@[k1].source == entries@[k2].source && entries@[k1].dest
                == entries@[k2].dest {
                let (a1, b1) = keys[k1];
                let (a2, b2) = keys[k2];
                assert(source_nodes@[a1] == source_nodes@[a2]);
                assert(a1 == a2);
                assert(dest_nodes@[b1] == dest_nodes@[b2]);
                assert(b1 == b2);
                assert(false);
            }
        }
        assert forall|a2: int, b2: int|
            0 <= a2 < source_nodes@.len() && 0 <= b2 < dest_nodes@.len() && reachable(
                edges@,
                #[trigger] source_nodes@[a2] as int,
                #[trigger] dest_nodes@[b2] as int,
            ) implies exists|k: int|
            0 <= k < entries@.len() && (#[trigger] entries@[k]).source == source_nodes@[a2]
                && entries@[k].dest == dest_nodes@[b2] by {
            let k = pos[(a2, b2)];
            assert(0 <= k < entries@.len() && entries@[k].source == source_nodes@[a2]
                && entries@[k].dest == dest_nodes@[b2]);
        }
    }
    entries
}

} // verus!
