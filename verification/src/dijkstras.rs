//! Shortest-path search over the grid topology.
//!
//! `dijkstras` runs a Dijkstra-style search over an adjacency list with
//! uniform edge weight 1, producing the distance to the target, predecessor
//! links and the order in which cells were settled. `usize::MAX` is the
//! sentinel for "unreached". `run` wraps the search for a grid: it builds the
//! topology, searches, trims the visit order and reconstructs the path.
//!
//! Ties between entries of equal priority are resolved by the queue and are
//! deliberately left unspecified in the contracts; every contract below holds
//! whichever entry the queue yields first.

use crate::adjacency_list::{
    create_adjacency_list, grid_connects, grid_edge_ok, grid_edges, grid_side, grid_walk,
    is_perfect_square, lemma_grid_edges_wf, lemma_grid_side, passable, AdjacencyEntry,
};
use crate::pqueue::{queue_entries, queue_new, queue_pop_min, queue_push};
use crate::utils;
use crate::NodeStatus;
use vstd::prelude::*;
use vstd::seq_lib::*;
use vstd::set_lib::{lemma_int_range, lemma_len_subset};

verus! {

/// There is an edge from `u` to `v` in the adjacency list.
pub open spec fn edge_ok(adj: Seq<AdjacencyEntry>, u: int, v: int) -> bool {
    &&& 0 <= u < adj.len()
    &&& exists|k: int|
        0 <= k < adj[u].edges@.len() && (#[trigger] adj[u].edges@[k]).to as int == v
}

/// Every edge weighs 1 (uniform-cost grid).
pub open spec fn uniform_weights(adj: Seq<AdjacencyEntry>) -> bool {
    forall|u: int, k: int|
        0 <= u < adj.len() && 0 <= k < adj[u].edges@.len() ==> (#[trigger] adj[u].edges@[k]).weight
            == 1
}

/// Every edge points at a valid node of the graph.
pub open spec fn targets_in_range(adj: Seq<AdjacencyEntry>) -> bool {
    forall|u: int, k: int|
        0 <= u < adj.len() && 0 <= k < adj[u].edges@.len() ==> (#[trigger] adj[u].edges@[k]).to
            < adj.len()
}

/// `p` is a non-empty node sequence whose consecutive entries are joined by
/// edges of `adj`. With uniform weight 1 its cost is `p.len() - 1`.
pub open spec fn is_walk(adj: Seq<AdjacencyEntry>, p: Seq<int>) -> bool {
    &&& p.len() >= 1
    &&& forall|i: int| 0 <= i < p.len() - 1 ==> edge_ok(adj, #[trigger] p[i], p[i + 1])
}

/// `p` is a walk from `s` to `t`.
pub open spec fn connects(adj: Seq<AdjacencyEntry>, s: int, t: int, p: Seq<int>) -> bool {
    &&& is_walk(adj, p)
    &&& p[0] == s
    &&& p[p.len() - 1] == t
}

/// Well-formed predecessor links: every reached cell other than the source
/// was reached over an edge from its predecessor, one step farther than it.
pub open spec fn pred_wf(
    adj: Seq<AdjacencyEntry>,
    start: int,
    dist: Seq<usize>,
    prev: Seq<Option<usize>>,
) -> bool {
    forall|v: int|
        0 <= v < adj.len() && v != start && dist[v] < usize::MAX ==> {
            &&& (#[trigger] prev[v]) is Some
            &&& 0 <= (prev[v]->0) < adj.len()
            &&& edge_ok(adj, (prev[v]->0) as int, v)
            &&& dist[(prev[v]->0) as int] < usize::MAX
            &&& dist[v] == dist[(prev[v]->0) as int] + 1
        }
}

/// Every listed edge of every settled node except `skip` has been relaxed:
/// its target is settled too or lies within one step of the node's distance.
pub open spec fn all_relaxed_except(
    adj: Seq<AdjacencyEntry>,
    dist: Seq<usize>,
    vis: Seq<bool>,
    skip: int,
) -> bool {
    forall|u: int, k: int|
        0 <= u < adj.len() && vis[u] && u != skip && 0 <= k < adj[u].edges@.len() ==> {
            let t = (#[trigger] adj[u].edges@[k]).to as int;
            vis[t] || dist[t] <= dist[u] + 1
        }
}

/// Every listed edge of every settled node has been relaxed.
pub open spec fn all_relaxed(adj: Seq<AdjacencyEntry>, dist: Seq<usize>, vis: Seq<bool>) -> bool {
    all_relaxed_except(adj, dist, vis, -1)
}

/// The first `k` edges of node `u0` have been relaxed.
pub open spec fn relaxed_upto(
    adj: Seq<AdjacencyEntry>,
    dist: Seq<usize>,
    vis: Seq<bool>,
    u0: int,
    k: int,
) -> bool {
    forall|kk: int|
        0 <= kk < k ==> {
            let t = (#[trigger] adj[u0].edges@[kk]).to as int;
            vis[t] || dist[t] <= dist[u0] + 1
        }
}

/// Settled cells already carry their final, least distance: no walk from the
/// source to a settled cell is shorter than the recorded distance.
pub open spec fn settled_optimal(
    adj: Seq<AdjacencyEntry>,
    start: int,
    dist: Seq<usize>,
    vis: Seq<bool>,
) -> bool {
    forall|v: int, p: Seq<int>|
        0 <= v < adj.len() && vis[v] && #[trigger] connects(adj, start, v, p) ==> p.len() >= dist[v]
            + 1
}

/// The full invariant of the search loop.
pub open spec fn search_inv(
    adj: Seq<AdjacencyEntry>,
    start: int,
    end: int,
    dist: Seq<usize>,
    vis: Seq<bool>,
    prev: Seq<Option<usize>>,
    vo: Seq<usize>,
    qm: Map<int, int>,
) -> bool {
    &&& 0 <= start < adj.len()
    &&& 0 <= end < adj.len()
    &&& adj.len() + 1 < usize::MAX
    &&& uniform_weights(adj)
    &&& targets_in_range(adj)
    &&& dist.len() == adj.len()
    &&& vis.len() == adj.len()
    &&& prev.len() == adj.len()
    &&& dist[start] == 0
    &&& !vis[end]
    // queued entries carry the tentative distance of unsettled, reached cells
    &&& forall|j: int|
        #[trigger] qm.dom().contains(j) ==> 0 <= j < adj.len() && !vis[j] && dist[j] == qm[j]
            && dist[j] < usize::MAX
    // every unsettled, reached cell is queued
    &&& forall|j: int|
        0 <= j < adj.len() && !(#[trigger] vis[j]) && dist[j] < usize::MAX ==> qm.dom().contains(j)
    // settled cells are reached
    &&& forall|v: int| 0 <= v < adj.len() && #[trigger] vis[v] ==> dist[v] < usize::MAX
    // reached distances never exceed the number of settled cells
    &&& forall|v: int| 0 <= v < adj.len() && #[trigger] dist[v] < usize::MAX ==> dist[v] <= vo.len()
    &&& vo.no_duplicates()
    &&& forall|i: int| 0 <= i < vo.len() ==> (#[trigger] vo[i]) < adj.len() && vis[vo[i] as int]
    &&& vo.len() <= adj.len()
    &&& vo.len() >= 1 ==> vo[0] == start
    &&& vis[start] ==> vo.len() >= 1
    // before the first settling step the queue holds exactly the source
    &&& !vis[start] ==> {
        &&& vo.len() == 0
        &&& forall|v: int| 0 <= v < adj.len() ==> !(#[trigger] vis[v])
        &&& qm.dom() =~= set![start]
        &&& forall|v: int| 0 <= v < adj.len() && v != start ==> (#[trigger] dist[v]) == usize::MAX
    }
    &&& pred_wf(adj, start, dist, prev)
    // predecessors are settled, so their distances are final
    &&& forall|v: int|
        0 <= v < adj.len() && v != start && (#[trigger] dist[v]) < usize::MAX ==> vis[(
        prev[v]->0) as int]
    &&& settled_optimal(adj, start, dist, vis)
    &&& all_relaxed(adj, dist, vis)
}

/// The result of one search: distance from source to target (`usize::MAX`
/// when the target was not reached), predecessor links, and the order in
/// which the search settled cells. `distances` records, for proofs, the
/// final tentative distance of every cell.
pub struct DijkstrasResult {
    pub distance: usize,
    pub previous: Vec<Option<usize>>,
    pub visited_ordered: Vec<usize>,
    pub distances: Ghost<Seq<usize>>,
}

/// The outcome a caller keeps: the reconstructed path (excluding both
/// endpoints) and the trimmed visit order.
pub struct DijkstrasTraversal {
    path: Vec<usize>,
    traversed_nodes: Vec<usize>,
}

/// A sequence of distinct values below `n` has at most `n` elements.
proof fn lemma_distinct_bounded(s: Seq<usize>, n: int)
    requires
        0 <= n,
        s.no_duplicates(),
        forall|i: int| 0 <= i < s.len() ==> (#[trigger] s[i]) < n,
    ensures
        s.len() <= n,
{
    broadcast use vstd::seq_lib::group_seq_properties;

    let t = s.map_values(|c: usize| c as int);
    assert(t.no_duplicates()) by {
        assert forall|i: int, j: int| 0 <= i < t.len() && 0 <= j < t.len() && i != j implies t[i]
            != t[j] by {
            assert(s[i] != s[j]);
        }
    }
    t.unique_seq_to_set();
    let range = vstd::set_lib::set_int_range(0, n);
    lemma_int_range(0, n);
    assert(t.to_set().subset_of(range)) by {
        assert forall|x: int| t.to_set().contains(x) implies range.contains(x) by {
            let i = choose|i: int| 0 <= i < t.len() && t[i] == x;
            assert(s[i] < n);
        }
    }
    lemma_len_subset(t.to_set(), range);
}

/// In a walk that starts at a settled cell and ends at an unsettled one,
/// some edge crosses from the settled region to the unsettled region; this
/// returns the index just past the first such edge.
proof fn lemma_first_crossing(adj: Seq<AdjacencyEntry>, vis: Seq<bool>, p: Seq<int>) -> (j: int)
    requires
        targets_in_range(adj),
        vis.len() == adj.len(),
        is_walk(adj, p),
        0 <= p[0] < adj.len(),
        vis[p[0]],
        !vis[p[p.len() - 1]],
    ensures
        1 <= j < p.len(),
        0 <= p[j - 1] < adj.len(),
        0 <= p[j] < adj.len(),
        vis[p[j - 1]],
        !vis[p[j]],
        edge_ok(adj, p[j - 1], p[j]),
    decreases p.len(),
{
    assert(p.len() >= 2);
    assert(edge_ok(adj, p[0], p[1]));
    let k = choose|k: int|
        0 <= k < adj[p[0]].edges@.len() && (#[trigger] adj[p[0]].edges@[k]).to as int == p[1];
    assert(adj[p[0]].edges@[k].to < adj.len());
    assert(0 <= p[1] < adj.len());
    if !vis[p[1]] {
        1
    } else {
        let q = p.drop_first();
        assert(is_walk(adj, q)) by {
            assert forall|i: int| 0 <= i < q.len() - 1 implies edge_ok(
                adj,
                #[trigger] q[i],
                q[i + 1],
            ) by {
                assert(q[i] == p[i + 1]);
                assert(q[i + 1] == p[i + 2]);
                assert(edge_ok(adj, p[i + 1], p[i + 2]));
            }
        }
        assert(q[q.len() - 1] == p[p.len() - 1]);
        let jr = lemma_first_crossing(adj, vis, q);
        assert(q[jr - 1] == p[jr]);
        assert(q[jr] == p[jr + 1]);
        jr + 1
    }
}

/// Follows the predecessor links back from `v` and returns the walk they
/// spell, whose length is exactly the recorded distance plus one.
proof fn lemma_chain_walk(
    adj: Seq<AdjacencyEntry>,
    start: int,
    dist: Seq<usize>,
    prev: Seq<Option<usize>>,
    v: int,
) -> (p: Seq<int>)
    requires
        dist.len() == adj.len(),
        prev.len() == adj.len(),
        0 <= start < adj.len(),
        dist[start] == 0,
        pred_wf(adj, start, dist, prev),
        0 <= v < adj.len(),
        dist[v] < usize::MAX,
    ensures
        connects(adj, start, v, p),
        p.len() == dist[v] + 1,
    decreases dist[v],
{
    if v == start {
        let p = seq![start];
        assert(p[0] == start);
        p
    } else {
        let u = (prev[v]->0) as int;
        let q = lemma_chain_walk(adj, start, dist, prev, u);
        let p = q.push(v);
        assert(connects(adj, start, v, p)) by {
            assert forall|i: int| 0 <= i < p.len() - 1 implies edge_ok(
                adj,
                #[trigger] p[i],
                p[i + 1],
            ) by {
                if i < q.len() - 1 {
                    assert(p[i] == q[i]);
                    assert(p[i + 1] == q[i + 1]);
                    assert(edge_ok(adj, q[i], q[i + 1]));
                } else {
                    assert(p[i] == q[q.len() - 1]);
                    assert(p[i + 1] == v);
                    assert(edge_ok(adj, u, v));
                }
            }
            assert(p[0] == q[0]);
        }
        p
    }
}

/// When the queue yields an entry of least priority, no walk from the source
/// to that cell is shorter than the cell's recorded distance.
proof fn lemma_pop_settles(
    adj: Seq<AdjacencyEntry>,
    start: int,
    end: int,
    dist: Seq<usize>,
    vis: Seq<bool>,
    prev: Seq<Option<usize>>,
    vo: Seq<usize>,
    qm: Map<int, int>,
    node_id: int,
    min_distance: int,
)
    requires
        search_inv(adj, start, end, dist, vis, prev, vo, qm),
        qm.dom().contains(node_id),
        qm[node_id] == min_distance,
        forall|j: int| #[trigger] qm.dom().contains(j) ==> min_distance <= qm[j],
    ensures
        forall|p: Seq<int>|
            #[trigger] connects(adj, start, node_id, p) ==> p.len() >= dist[node_id] + 1,
{
    assert forall|p: Seq<int>| #[trigger] connects(adj, start, node_id, p) implies p.len()
        >= dist[node_id] + 1 by {
        if !vis[start] {
            assert(qm.dom() =~= set![start]);
            assert(node_id == start);
            assert(dist[node_id] == 0);
        } else {
            assert(!vis[node_id]);
            assert(p[0] == start);
            assert(p[p.len() - 1] == node_id);
            let j = lemma_first_crossing(adj, vis, p);
            let u = p[j - 1];
            let x = p[j];
            let k = choose|k: int|
                0 <= k < adj[u].edges@.len() && (#[trigger] adj[u].edges@[k]).to as int == x;
            assert(vis[x] || dist[x] <= dist[u] + 1);
            assert(dist[x] <= dist[u] + 1);
            assert(dist[u] < usize::MAX);
            assert(dist[u] <= vo.len());
            assert(dist[x] < usize::MAX);
            assert(qm.dom().contains(x));
            assert(dist[x] >= min_distance);
            // the prefix of the walk up to the crossing reaches `u`
            let q = p.take(j);
            assert(connects(adj, start, u, q)) by {
                assert forall|i: int| 0 <= i < q.len() - 1 implies edge_ok(
                    adj,
                    #[trigger] q[i],
                    q[i + 1],
                ) by {
                    assert(q[i] == p[i]);
                    assert(q[i + 1] == p[i + 1]);
                    assert(edge_ok(adj, p[i], p[i + 1]));
                }
                assert(q[0] == p[0]);
                assert(q[q.len() - 1] == p[j - 1]);
            }
            assert(q.len() >= dist[u] + 1);
            assert(p.len() >= j + 1);
            assert(dist[node_id] == min_distance);
        }
    }
}

/// When the queue runs empty the target was never settled, so it is
/// unreached and no walk leads to it at all.
proof fn lemma_exhausted(
    adj: Seq<AdjacencyEntry>,
    start: int,
    end: int,
    dist: Seq<usize>,
    vis: Seq<bool>,
    prev: Seq<Option<usize>>,
    vo: Seq<usize>,
    qm: Map<int, int>,
)
    requires
        search_inv(adj, start, end, dist, vis, prev, vo, qm),
        qm.dom() == Set::<int>::empty(),
    ensures
        dist[end] == usize::MAX,
        forall|p: Seq<int>| !connects(adj, start, end, p),
{
    assert(dist[end] == usize::MAX) by {
        if dist[end] < usize::MAX {
            assert(qm.dom().contains(end));
        }
    }
    assert forall|p: Seq<int>| !(#[trigger] connects(adj, start, end, p)) by {
        if connects(adj, start, end, p) {
            if !vis[start] {
                assert(qm.dom() =~= set![start]);
                assert(qm.dom().contains(start));
            } else {
                assert(!vis[end]);
                let j = lemma_first_crossing(adj, vis, p);
                let u = p[j - 1];
                let x = p[j];
                assert(vis[x] || dist[x] <= dist[u] + 1);
                assert(dist[u] < usize::MAX);
                assert(dist[u] <= vo.len());
                assert(dist[x] < usize::MAX);
                assert(qm.dom().contains(x));
            }
            assert(false);
        }
    }
}

/// The adjacency list built from `statuses` lists exactly the edges of the
/// grid topology, so both describe the same walks.
proof fn lemma_graph_matches_grid(adj: Seq<AdjacencyEntry>, statuses: Seq<NodeStatus>)
    requires
        adj.len() == statuses.len(),
        forall|i: int|
            0 <= i < adj.len() ==> #[trigger] adj[i].edges@ == grid_edges(
                statuses,
                grid_side(statuses.len() as int),
                i,
            ),
    ensures
        forall|u: int, v: int|
            #![trigger edge_ok(adj, u, v)]
            #![trigger grid_edge_ok(statuses, u, v)]
            edge_ok(adj, u, v) <==> grid_edge_ok(statuses, u, v),
        forall|p: Seq<int>|
            #![trigger is_walk(adj, p)]
            #![trigger grid_walk(statuses, p)]
            is_walk(adj, p) <==> grid_walk(statuses, p),
{
    let side = grid_side(statuses.len() as int);
    assert forall|u: int, v: int|
        #![trigger edge_ok(adj, u, v)]
        #![trigger grid_edge_ok(statuses, u, v)]
        edge_ok(adj, u, v) <==> grid_edge_ok(statuses, u, v) by {
        if edge_ok(adj, u, v) {
            let k = choose|k: int|
                0 <= k < adj[u].edges@.len() && (#[trigger] adj[u].edges@[k]).to as int == v;
            assert(grid_edges(statuses, side, u)[k].to as int == v);
            assert(grid_edge_ok(statuses, u, v));
        }
        if grid_edge_ok(statuses, u, v) {
            let k = choose|k: int|
                0 <= k < grid_edges(statuses, side, u).len() && (#[trigger] grid_edges(
                    statuses,
                    side,
                    u,
                )[k]).to as int == v;
            assert(adj[u].edges@[k].to as int == v);
            assert(edge_ok(adj, u, v));
        }
    }
    assert forall|p: Seq<int>|
        #![trigger is_walk(adj, p)]
        #![trigger grid_walk(statuses, p)]
        is_walk(adj, p) <==> grid_walk(statuses, p) by {
        if is_walk(adj, p) {
            assert forall|i: int| 0 <= i < p.len() - 1 implies grid_edge_ok(
                statuses,
                #[trigger] p[i],
                p[i + 1],
            ) by {
                assert(edge_ok(adj, p[i], p[i + 1]));
            }
        }
        if grid_walk(statuses, p) {
            assert forall|i: int| 0 <= i < p.len() - 1 implies edge_ok(
                adj,
                #[trigger] p[i],
                p[i + 1],
            ) by {
                assert(grid_edge_ok(statuses, p[i], p[i + 1]));
            }
        }
    }
}

/// Some walk of the grid topology leads from `start` to cell `c`.
pub open spec fn reachable_cell(statuses: Seq<NodeStatus>, start: int, c: int) -> bool {
    exists|p: Seq<int>| grid_connects(statuses, start, c, p)
}

/// Every cell of `tnodes` can be reached from `start` over the topology of
/// `statuses`.
pub open spec fn traversed_reachable(
    statuses: Seq<NodeStatus>,
    start: int,
    tnodes: Seq<usize>,
) -> bool {
    forall|i: int|
        0 <= i < tnodes.len() ==> reachable_cell(statuses, start, (#[trigger] tnodes[i]) as int)
}

/// Every trimmed visit-order cell, being settled with a finite distance, can
/// be reached from the source over the grid topology.
proof fn lemma_traversed_reachable(
    adj: Seq<AdjacencyEntry>,
    statuses: Seq<NodeStatus>,
    start: int,
    dist: Seq<usize>,
    prev: Seq<Option<usize>>,
    tnodes: Seq<usize>,
)
    requires
        adj.len() == statuses.len(),
        forall|i: int|
            0 <= i < adj.len() ==> #[trigger] adj[i].edges@ == grid_edges(
                statuses,
                grid_side(statuses.len() as int),
                i,
            ),
        dist.len() == adj.len(),
        prev.len() == adj.len(),
        0 <= start < adj.len(),
        dist[start] == 0,
        pred_wf(adj, start, dist, prev),
        forall|i: int|
            0 <= i < tnodes.len() ==> (#[trigger] tnodes[i]) < adj.len() && dist[tnodes[i] as int]
                < usize::MAX,
    ensures
        traversed_reachable(statuses, start, tnodes),
{
    lemma_graph_matches_grid(adj, statuses);
    assert forall|i: int| 0 <= i < tnodes.len() implies reachable_cell(
        statuses,
        start,
        (#[trigger] tnodes[i]) as int,
    ) by {
        let c = tnodes[i] as int;
        let p = lemma_chain_walk(adj, start, dist, prev, c);
        assert(grid_walk(statuses, p));
        assert(grid_connects(statuses, start, c, p));
    }
}

/// Path validity: when `[s] + path + [e]` forms a grid walk — as the path
/// returned by a search does — every cell of `path` is passable, and
/// consecutive path cells are grid-adjacent.
pub proof fn lemma_path_cells_valid(
    statuses: Seq<NodeStatus>,
    s: int,
    e: int,
    path: Seq<usize>,
    i: int,
)
    requires
        is_perfect_square(statuses.len() as int),
        statuses.len() <= usize::MAX,
        grid_connects(statuses, s, e, seq![s] + path.map_values(|c: usize| c as int) + seq![e]),
        0 <= i < path.len(),
    ensures
        0 <= path[i] < statuses.len(),
        passable(statuses[path[i] as int]),
        i + 1 < path.len() ==> crate::adjacency_list::grid_adjacent(
            grid_side(statuses.len() as int),
            path[i] as int,
            path[i + 1] as int,
        ),
{
    let full = seq![s] + path.map_values(|c: usize| c as int) + seq![e];
    assert(full[i + 1] == path[i] as int);
    crate::adjacency_list::lemma_walk_step_valid(statuses, full, i);
    if i + 1 < path.len() {
        assert(full[i + 2] == path[i + 1] as int);
        crate::adjacency_list::lemma_walk_step_valid(statuses, full, i + 1);
    }
}

/// The walk that the collected predecessor cells spell, read backwards from
/// the target.
spec fn back_walk(path: Seq<usize>, target: int) -> Seq<int> {
    path.map_values(|c: usize| c as int).reverse() + seq![target]
}

/// A vector holding the same elements in reverse order.
fn reversed(v: &Vec<usize>) -> (r: Vec<usize>)
    ensures
        r@ == v@.reverse(),
{
    let mut r: Vec<usize> = Vec::new();
    let mut i: usize = v.len();
    while i > 0
        invariant
            i <= v@.len(),
            r@.len() == v@.len() - i,
            forall|j: int| 0 <= j < r@.len() ==> r@[j] == v@[v@.len() - 1 - j],
        decreases i,
    {
        i = i - 1;
        let x = v[i];
        r.push(x);
    }
    proof {
        assert(r@ =~= v@.reverse());
    }
    r
}

/// A vector of `n` copies of `value`.
fn filled<T: Copy>(n: usize, value: T) -> (r: Vec<T>)
    ensures
        r@.len() == n,
        forall|i: int| 0 <= i < n ==> r@[i] == value,
{
    let mut r: Vec<T> = Vec::new();
    let mut i: usize = 0;
    while i < n
        invariant
            i <= n,
            r@.len() == i,
            forall|j: int| 0 <= j < i ==> r@[j] == value,
        decreases n - i,
    {
        r.push(value);
        i = i + 1;
    }
    r
}

impl DijkstrasTraversal {
    /// The path held by this traversal, as a sequence.
    pub closed spec fn spec_path(&self) -> Seq<usize> {
        self.path@
    }

    /// The trimmed visit order held by this traversal, as a sequence.
    pub closed spec fn spec_traversed(&self) -> Seq<usize> {
        self.traversed_nodes@
    }

    /// The reconstructed path: the cells strictly between source and target,
    /// in travel order; empty when the target is unreachable or equals the
    /// source.
    pub fn get_path(&self) -> (r: Vec<usize>)
        ensures
            r@ == self.spec_path(),
    {
        self.path.clone()
    }

    /// The trimmed visit order: the settled cells between the first (the
    /// source) and the last.
    pub fn get_traversed_nodes(&self) -> (r: Vec<usize>)
        ensures
            r@ == self.spec_traversed(),
    {
        self.traversed_nodes.clone()
    }

    /// Dijkstra's search: settles cells in order of least tentative
    /// distance, relaxing the edges of each settled cell, and stops as soon
    /// as the target is settled or the queue runs empty.
    pub fn dijkstras(
        adjacency_list: Vec<AdjacencyEntry>,
        start_node_id: usize,
        end_node_id: usize,
    ) -> (r: DijkstrasResult)
        requires
            start_node_id < adjacency_list@.len(),
            end_node_id < adjacency_list@.len(),
            adjacency_list@.len() + 1 < usize::MAX,
            uniform_weights(adjacency_list@),
            targets_in_range(adjacency_list@),
        ensures
            r.distances@.len() == adjacency_list@.len(),
            r.previous@.len() == adjacency_list@.len(),
            r.distances@[start_node_id as int] == 0,
            pred_wf(adjacency_list@, start_node_id as int, r.distances@, r.previous@),
            r.distance == r.distances@[end_node_id as int],
            r.visited_ordered@.no_duplicates(),
            r.visited_ordered@.len() >= 1,
            r.visited_ordered@[0] == start_node_id,
            forall|i: int|
                0 <= i < r.visited_ordered@.len() ==> (#[trigger] r.visited_ordered@[i])
                    < adjacency_list@.len() && r.distances@[r.visited_ordered@[i] as int]
                    < usize::MAX,
            r.distance < usize::MAX ==> (exists|p: Seq<int>|
                connects(adjacency_list@, start_node_id as int, end_node_id as int, p) && p.len()
                    == r.distance + 1),
            forall|p: Seq<int>|
                #[trigger] connects(adjacency_list@, start_node_id as int, end_node_id as int, p)
                    ==> p.len() >= r.distance + 1,
            r.distance == usize::MAX ==> forall|p: Seq<int>|
                !connects(adjacency_list@, start_node_id as int, end_node_id as int, p),
    {
        let ghost adj = adjacency_list@;
        let ghost start = start_node_id as int;
        let ghost end = end_node_id as int;
        let n = adjacency_list.len();

        let mut heap = queue_new();
        queue_push(&mut heap, start_node_id, 0);

        let mut distances: Vec<usize> = filled(n, usize::MAX);
        distances[start_node_id] = 0;

        let mut visited: Vec<bool> = filled(n, false);
        let mut previous: Vec<Option<usize>> = filled(n, None);
        let mut visited_ordered: Vec<usize> = Vec::new();

        proof {
            assert(queue_entries(heap) =~= Map::<int, int>::empty().insert(start, 0));
            assert(queue_entries(heap).dom() =~= set![start]);
        }

        loop
            invariant
                n == adj.len(),
                adj == adjacency_list@,
                start == start_node_id as int,
                end == end_node_id as int,
                search_inv(
                    adj,
                    start,
                    end,
                    distances@,
                    visited@,
                    previous@,
                    visited_ordered@,
                    queue_entries(heap),
                ),
            ensures
                n == adj.len(),
                search_inv(
                    adj,
                    start,
                    end,
                    distances@,
                    visited@,
                    previous@,
                    visited_ordered@,
                    queue_entries(heap),
                ),
                queue_entries(heap).dom() == Set::<int>::empty(),
            decreases n - visited_ordered@.len(),
        {
            let ghost pre_dist = distances@;
            let ghost pre_vis = visited@;
            let ghost pre_vo = visited_ordered@;
            let ghost pre_qm = queue_entries(heap);
            let popped = queue_pop_min(&mut heap);
            match popped {
                None => {
                    break ;
                },
                Some((node_id, min_distance)) => {
                    proof {
                        assert(pre_qm.dom().contains(node_id as int));
                        assert(pre_dist[node_id as int] == min_distance);
                        assert(min_distance < usize::MAX);
                        lemma_pop_settles(
                            adj,
                            start,
                            end,
                            pre_dist,
                            pre_vis,
                            previous@,
                            pre_vo,
                            pre_qm,
                            node_id as int,
                            min_distance as int,
                        );
                    }
                    visited[node_id] = true;
                    visited_ordered.push(node_id);
                    proof {
                        assert(visited_ordered@ =~= pre_vo.push(node_id));
                        assert forall|i: int|
                            0 <= i < visited_ordered@.len() implies (#[trigger] visited_ordered@[i])
                            < adj.len() && visited@[visited_ordered@[i] as int] by {
                            if i < pre_vo.len() {
                                assert(pre_vo[i] < adj.len() && pre_vis[pre_vo[i] as int]);
                            }
                        }
                        assert(!pre_vo.contains(node_id)) by {
                            if pre_vo.contains(node_id) {
                                let i = choose|i: int|
                                    0 <= i < pre_vo.len() && pre_vo[i] == node_id;
                                assert(pre_vis[pre_vo[i] as int]);
                            }
                        }
                        assert(visited_ordered@.no_duplicates());
                        lemma_distinct_bounded(visited_ordered@, adj.len() as int);
                        if !pre_vis[start] {
                            assert(pre_qm.dom() =~= set![start]);
                            assert(node_id as int == start);
                        }
                        assert(visited@[start]);
                        assert(visited_ordered@[0] == start_node_id) by {
                            if pre_vo.len() >= 1 {
                                assert(pre_vo[0] == start);
                                assert(visited_ordered@[0] == pre_vo[0]);
                            } else {
                                assert(!pre_vis[start]);
                                assert(visited_ordered@[0] == node_id);
                                assert(node_id as int == start);
                            }
                        }
                        // the new settled cell keeps its optimality bound
                        assert(settled_optimal(adj, start, pre_dist, visited@)) by {
                            assert forall|v: int, p: Seq<int>|
                                0 <= v < adj.len() && visited@[v] && #[trigger] connects(
                                    adj,
                                    start,
                                    v,
                                    p,
                                ) implies p.len() >= pre_dist[v] + 1 by {
                                if v == node_id as int {
                                } else {
                                    assert(pre_vis[v]);
                                }
                            }
                        }
                    }
                    // a keyed queue rewrites priorities in place, so a popped
                    // entry always carries the cell's current distance and
                    // this lazy-deletion guard can never fire
                    if min_distance > distances[node_id] {
                        proof {
                            assert(pre_qm.dom().contains(node_id as int));
                            assert(false);
                        }
                        continue ;
                    } else {
                        distances[node_id] = min_distance;
                        proof {
                            assert(distances@ =~= pre_dist);
                        }
                    }

                    if node_id == end_node_id {
                        proof {
                            assert(node_id as int == end);
                            assert(distances@ == pre_dist);
                            assert(distances@[end] == min_distance);
                            assert(distances@[end] < usize::MAX);
                            let p = lemma_chain_walk(adj, start, distances@, previous@, end);
                        }
                        return DijkstrasResult {
                            distance: min_distance,
                            previous,
                            visited_ordered,
                            distances: Ghost(distances@),
                        };
                    }

                    let ghost vis1 = visited@;
                    let ghost vo1 = visited_ordered@;
                    proof {
                        // relaxing has not begun: the settled set grew by one,
                        // and every other invariant carries over
                        assert(all_relaxed_except(adj, distances@, vis1, node_id as int)) by {
                            assert forall|u: int, k: int|
                                0 <= u < adj.len() && vis1[u] && u != node_id as int && 0 <= k
                                    < adj[u].edges@.len() implies {
                                let t = (#[trigger] adj[u].edges@[k]).to as int;
                                vis1[t] || distances@[t] <= distances@[u] + 1
                            } by {
                                assert(pre_vis[u]);
                                let t = adj[u].edges@[k].to as int;
                                assert(pre_vis[t] || pre_dist[t] <= pre_dist[u] + 1);
                            }
                        }
                    }

                    let edges_len = adjacency_list[node_id].edges.len();
                    let mut k: usize = 0;
                    while k < edges_len
                        invariant
                            n == adj.len(),
                            0 <= start < adj.len(),
                            0 <= end < adj.len(),
                            adj.len() + 1 < usize::MAX,
                            uniform_weights(adj),
                            targets_in_range(adj),
                            adjacency_list@ == adj,
                            start == start_node_id as int,
                            end == end_node_id as int,
                            distances@.len() == adj.len(),
                            visited@.len() == adj.len(),
                            previous@.len() == adj.len(),
                            visited@ == vis1,
                            visited_ordered@ == vo1,
                            k <= edges_len,
                            (node_id as int) < adj.len(),
                            edges_len == adj[node_id as int].edges@.len(),
                            vis1[node_id as int],
                            vis1[start],
                            !vis1[end],
                            node_id != end_node_id,
                            distances@[start] == 0,
                            distances@[node_id as int] == min_distance,
                            min_distance < usize::MAX,
                            min_distance + 1 <= vo1.len(),
                            vo1.no_duplicates(),
                            forall|i: int|
                                0 <= i < vo1.len() ==> (#[trigger] vo1[i]) < adj.len()
                                    && vis1[vo1[i] as int],
                            vo1.len() <= adj.len(),
                            vo1.len() >= 1 && vo1[0] == start,
                            forall|j: int|
                                #[trigger] queue_entries(heap).dom().contains(j) ==> 0 <= j
                                    < adj.len() && !vis1[j] && distances@[j] == queue_entries(
                                    heap,
                                )[j] && distances@[j] < usize::MAX,
                            forall|j: int|
                                0 <= j < adj.len() && !(#[trigger] vis1[j]) && distances@[j]
                                    < usize::MAX ==> queue_entries(heap).dom().contains(j),
                            forall|v: int|
                                0 <= v < adj.len() && #[trigger] vis1[v] ==> distances@[v]
                                    < usize::MAX,
                            forall|v: int|
                                0 <= v < adj.len() && #[trigger] distances@[v] < usize::MAX
                                    ==> distances@[v] <= vo1.len(),
                            pred_wf(adj, start, distances@, previous@),
                            forall|v: int|
                                0 <= v < adj.len() && v != start && (#[trigger] distances@[v])
                                    < usize::MAX ==> vis1[(previous@[v]->0) as int],
                            settled_optimal(adj, start, distances@, vis1),
                            all_relaxed_except(adj, distances@, vis1, node_id as int),
                            relaxed_upto(adj, distances@, vis1, node_id as int, k as int),
                        decreases edges_len - k,
                    {
                        let edge = adjacency_list[node_id].edges[k];
                        proof {
                            assert(adj[node_id as int].edges@[k as int].weight == 1);
                            assert(adj[node_id as int].edges@[k as int].to < adj.len());
                        }
                        if !visited[edge.to] {
                            let new_distance = min_distance + edge.weight;
                            if new_distance < distances[edge.to] {
                                let ghost d0 = distances@;
                                let ghost p0 = previous@;
                                let ghost q0 = queue_entries(heap);
                                distances[edge.to] = new_distance;
                                previous[edge.to] = Some(node_id);
                                queue_push(&mut heap, edge.to, new_distance);
                                proof {
                                    let t = edge.to as int;
                                    assert(distances@ =~= d0.update(t, new_distance));
                                    assert(previous@ =~= p0.update(t, Some(node_id)));
                                    assert(queue_entries(heap) =~= q0.insert(
                                        t,
                                        new_distance as int,
                                    ));
                                    assert(t != start);
                                    assert(edge_ok(adj, node_id as int, t)) by {
                                        assert(adj[node_id as int].edges@[k as int].to as int == t);
                                    }
                                    assert(pred_wf(adj, start, distances@, previous@)) by {
                                        assert forall|v: int|
                                            0 <= v < adj.len() && v != start && distances@[v]
                                                < usize::MAX implies {
                                            &&& (#[trigger] previous@[v]) is Some
                                            &&& 0 <= (previous@[v]->0) < adj.len()
                                            &&& edge_ok(adj, (previous@[v]->0) as int, v)
                                            &&& distances@[(previous@[v]->0) as int] < usize::MAX
                                            &&& distances@[v] == distances@[(previous@[v]->0) as int]
                                                + 1
                                        } by {
                                            if v == t {
                                                assert(distances@[node_id as int] == min_distance);
                                            } else {
                                                assert(d0[v] < usize::MAX);
                                                assert(vis1[(p0[v]->0) as int]);
                                                assert((p0[v]->0) as int != t);
                                            }
                                        }
                                    }
                                    assert forall|v: int|
                                        0 <= v < adj.len() && v != start
                                            && (#[trigger] distances@[v]) < usize::MAX implies vis1[(
                                    previous@[v]->0) as int] by {
                                        if v != t {
                                            assert(d0[v] < usize::MAX);
                                        }
                                    }
                                    assert(settled_optimal(adj, start, distances@, vis1)) by {
                                        assert forall|v: int, p: Seq<int>|
                                            0 <= v < adj.len() && vis1[v] && #[trigger] connects(
                                                adj,
                                                start,
                                                v,
                                                p,
                                            ) implies p.len() >= distances@[v] + 1 by {
                                            assert(v != t);
                                            assert(p.len() >= d0[v] + 1);
                                        }
                                    }
                                    assert(all_relaxed_except(
                                        adj,
                                        distances@,
                                        vis1,
                                        node_id as int,
                                    )) by {
                                        assert forall|u: int, kk: int|
                                            0 <= u < adj.len() && vis1[u] && u != node_id as int
                                                && 0 <= kk < adj[u].edges@.len() implies {
                                            let tt = (#[trigger] adj[u].edges@[kk]).to as int;
                                            vis1[tt] || distances@[tt] <= distances@[u] + 1
                                        } by {
                                            let tt = adj[u].edges@[kk].to as int;
                                            assert(vis1[tt] || d0[tt] <= d0[u] + 1);
                                            assert(u != t);
                                        }
                                    }
                                    assert(relaxed_upto(
                                        adj,
                                        distances@,
                                        vis1,
                                        node_id as int,
                                        k + 1,
                                    )) by {
                                        assert forall|kk: int| 0 <= kk < k + 1 implies {
                                            let tt = (#[trigger] adj[node_id as int].edges@[kk]).to
                                                as int;
                                            vis1[tt] || distances@[tt] <= distances@[node_id as int]
                                                + 1
                                        } by {
                                            let tt = adj[node_id as int].edges@[kk].to as int;
                                            if kk < k {
                                                assert(vis1[tt] || d0[tt] <= d0[node_id as int]
                                                    + 1);
                                            }
                                        }
                                    }
                                }
                            } else {
                                proof {
                                    assert(relaxed_upto(
                                        adj,
                                        distances@,
                                        vis1,
                                        node_id as int,
                                        k + 1,
                                    )) by {
                                        assert(distances@[adj[node_id as int].edges@[k as int].to
                                            as int] <= min_distance + 1);
                                    }
                                }
                            }
                        } else {
                            proof {
                                assert(relaxed_upto(adj, distances@, vis1, node_id as int, k + 1))
                                    by {
                                    assert(vis1[adj[node_id as int].edges@[k as int].to as int]);
                                }
                            }
                        }
                        k = k + 1;
                    }
                    proof {
                        assert(all_relaxed(adj, distances@, visited@)) by {
                            assert forall|u: int, kk: int|
                                0 <= u < adj.len() && visited@[u] && u != -1 && 0 <= kk
                                    < adj[u].edges@.len() implies {
                                let t = (#[trigger] adj[u].edges@[kk]).to as int;
                                visited@[t] || distances@[t] <= distances@[u] + 1
                            } by {
                                if u == node_id as int {
                                    assert(relaxed_upto(
                                        adj,
                                        distances@,
                                        vis1,
                                        node_id as int,
                                        edges_len as int,
                                    ));
                                    let t = adj[u].edges@[kk].to as int;
                                    assert(vis1[t] || distances@[t] <= distances@[u] + 1);
                                }
                            }
                        }
                    }
                },
            }
        }

        proof {
            lemma_exhausted(
                adj,
                start,
                end,
                distances@,
                visited@,
                previous@,
                visited_ordered@,
                queue_entries(heap),
            );
        }
        DijkstrasResult {
            distance: usize::MAX,
            previous,
            visited_ordered,
            distances: Ghost(distances@),
        }
    }

    /// Full search on a grid: builds the topology from the cell states, runs
    /// the search, trims the visit order for playback, and walks the
    /// predecessor links backwards to spell the path. The path holds the
    /// cells strictly between the two markers, in travel order; it is empty
    /// when the target is unreachable or coincides with the source.
    #[verifier::rlimit(100)]
    pub fn run(nodes: &Vec<NodeStatus>, start_node_id: usize, end_node_id: usize) -> (r: Self)
        requires
            is_perfect_square(nodes@.len() as int),
            nodes@.len() + 1 < usize::MAX,
            start_node_id < nodes@.len(),
            end_node_id < nodes@.len(),
        ensures
            r.spec_traversed().no_duplicates(),
            forall|i: int|
                0 <= i < r.spec_traversed().len() ==> (#[trigger] r.spec_traversed()[i])
                    < nodes@.len(),
            traversed_reachable(nodes@, start_node_id as int, r.spec_traversed()),
            (forall|p: Seq<int>|
                !grid_connects(nodes@, start_node_id as int, end_node_id as int, p))
                ==> r.spec_path().len() == 0,
            start_node_id == end_node_id ==> r.spec_path().len() == 0,
            (start_node_id != end_node_id && (exists|p: Seq<int>|
                grid_connects(nodes@, start_node_id as int, end_node_id as int, p))) ==> {
                &&& grid_connects(
                    nodes@,
                    start_node_id as int,
                    end_node_id as int,
                    seq![start_node_id as int] + r.spec_path().map_values(|c: usize| c as int)
                        + seq![end_node_id as int],
                )
                &&& forall|p: Seq<int>|
                    #[trigger] grid_connects(nodes@, start_node_id as int, end_node_id as int, p)
                        ==> p.len() >= r.spec_path().len() + 2
            },
    {
        let num_nodes = nodes.len();
        let ghost statuses = nodes@;
        let ghost start = start_node_id as int;
        let ghost end = end_node_id as int;
        let ghost side = grid_side(num_nodes as int);

        let adjacency_list = create_adjacency_list(nodes);
        let ghost adj = adjacency_list@;
        proof {
            lemma_grid_side(num_nodes as int);
            assert(side >= 1) by (nonlinear_arith)
                requires
                    side * side == num_nodes as int,
                    num_nodes >= 1,
                    side >= 0,
            ;
            assert forall|u: int, k: int|
                0 <= u < adj.len() && 0 <= k < adj[u].edges@.len() implies (
            #[trigger] adj[u].edges@[k]).weight == 1 && adj[u].edges@[k].to < adj.len() by {
                lemma_grid_edges_wf(statuses, side, u, k);
            }
            assert(uniform_weights(adj));
            assert(targets_in_range(adj));
            lemma_graph_matches_grid(adj, statuses);
        }

        let mut result = Self::dijkstras(adjacency_list, start_node_id, end_node_id);
        let ghost dist = result.distances@;
        let ghost prev = result.previous@;
        let ghost vo = result.visited_ordered@;

        utils::drop_first_and_last(&mut result.visited_ordered);
        let ghost tvo = result.visited_ordered@;
        proof {
            assert forall|i: int| 0 <= i < tvo.len() implies (#[trigger] tvo[i]) < num_nodes
                && dist[tvo[i] as int] < usize::MAX by {
                assert(tvo[i] == vo[i + 1]);
                assert(vo[i + 1] < adj.len() && dist[vo[i + 1] as int] < usize::MAX);
            }
            assert(tvo.no_duplicates()) by {
                assert forall|i: int, j: int|
                    0 <= i < tvo.len() && 0 <= j < tvo.len() && i != j implies tvo[i] != tvo[j] by {
                    assert(tvo[i] == vo[i + 1]);
                    assert(tvo[j] == vo[j + 1]);
                }
            }
            lemma_traversed_reachable(adj, statuses, start, dist, prev, tvo);
        }

        if result.distance == usize::MAX {
            proof {
                assert forall|p: Seq<int>| !(#[trigger] grid_connects(statuses, start, end, p)) by {
                    if grid_connects(statuses, start, end, p) {
                        assert(is_walk(adj, p));
                        assert(connects(adj, start, end, p));
                        assert(!connects(adj, start, end, p));
                    }
                }
            }
            let unreachable_result = Self { path: Vec::new(), traversed_nodes: result.visited_ordered };
            proof {
                assert(unreachable_result.spec_traversed() == tvo);
                assert(unreachable_result.spec_path().len() == 0);
                assert(traversed_reachable(nodes@, start_node_id as int, unreachable_result.spec_traversed()));
            }
            return unreachable_result;
        }

        proof {
            assert(dist[end] < usize::MAX);
        }

        let mut path: Vec<usize> = Vec::new();
        let mut current_node_id = end_node_id;

        while current_node_id != start_node_id
            invariant
                start == start_node_id as int,
                end == end_node_id as int,
                0 <= start < adj.len(),
                0 <= end < adj.len(),
                dist.len() == adj.len(),
                prev.len() == adj.len(),
                dist[start] == 0,
                pred_wf(adj, start, dist, prev),
                result.previous@ == prev,
                (current_node_id as int) < adj.len(),
                dist[current_node_id as int] < usize::MAX,
                dist[end] < usize::MAX,
                path@.len() == dist[end] - dist[current_node_id as int],
                connects(adj, current_node_id as int, end, back_walk(path@, end)),
            ensures
                current_node_id == start_node_id,
                path@.len() == dist[end],
                connects(adj, start, end, back_walk(path@, end)),
            decreases dist[current_node_id as int],
        {
            let ghost old_path = path@;
            let ghost cur = current_node_id as int;
            proof {
                assert(cur != start);
                assert((prev[cur]) is Some);
            }
            if let Some(previous_node_id) = result.previous[current_node_id] {
                path.push(previous_node_id);
                current_node_id = previous_node_id;
                proof {
                    let u = previous_node_id as int;
                    assert(edge_ok(adj, u, cur));
                    assert(dist[u] == dist[cur] - 1);
                    let w_old = back_walk(old_path, end);
                    let w_new = back_walk(path@, end);
                    assert(w_new =~= seq![u] + w_old) by {
                        assert(path@.map_values(|c: usize| c as int) =~= old_path.map_values(
                            |c: usize| c as int,
                        ).push(u));
                    }
                    assert(connects(adj, u, end, w_new)) by {
                        assert forall|i: int| 0 <= i < w_new.len() - 1 implies edge_ok(
                            adj,
                            #[trigger] w_new[i],
                            w_new[i + 1],
                        ) by {
                            if i == 0 {
                                assert(w_new[0] == u);
                                assert(w_new[1] == w_old[0]);
                                assert(w_old[0] == cur);
                            } else {
                                assert(w_new[i] == w_old[i - 1]);
                                assert(w_new[i + 1] == w_old[i]);
                                assert(edge_ok(adj, w_old[i - 1], w_old[i]));
                            }
                        }
                        assert(w_new[w_new.len() - 1] == w_old[w_old.len() - 1]);
                    }
                }
            } else {
                // every reached cell other than the source carries a
                // predecessor link, so the chain cannot stop short
                proof {
                    assert(false);
                }
                break ;
            }
        }

        let ghost full_walk = back_walk(path@, end);
        let ghost pre_pop = path@;
        path.pop();
        let reversed_path = reversed(&path);
        proof {
            if start_node_id != end_node_id {
                assert(pre_pop.len() == dist[end]);
                assert(dist[end] >= 1);
                assert(path@ == pre_pop.subrange(0, pre_pop.len() - 1));
                let full = seq![start] + reversed_path@.map_values(|c: usize| c as int)
                    + seq![end];
                assert(full =~= full_walk) by {
                    assert(full_walk[0] == start);
                    assert(full.len() == full_walk.len());
                    assert forall|j: int| 0 <= j < full.len() implies full[j] == full_walk[j] by {
                        let m = pre_pop.len();
                        if j == 0 {
                            assert(full_walk[0] == pre_pop.map_values(|c: usize| c as int)[m - 1]);
                        } else if j < full.len() - 1 {
                            assert(full[j] == reversed_path@[j - 1] as int);
                            assert(reversed_path@[j - 1] == path@[m - 1 - j]);
                            assert(full_walk[j] == pre_pop.map_values(|c: usize| c as int).reverse()[j]);
                            assert(pre_pop.map_values(|c: usize| c as int).reverse()[j]
                                == pre_pop[m - 1 - j] as int);
                        }
                    }
                }
                assert(grid_connects(statuses, start, end, full)) by {
                    assert(is_walk(adj, full_walk));
                    assert(grid_walk(statuses, full));
                }
                assert forall|p: Seq<int>|
                    #[trigger] grid_connects(statuses, start, end, p) implies p.len()
                    >= reversed_path@.len() + 2 by {
                    assert(is_walk(adj, p));
                    assert(connects(adj, start, end, p));
                    assert(p.len() >= result.distance + 1);
                }
            }
        }
        let traversal = Self { path: reversed_path, traversed_nodes: result.visited_ordered };
        proof {
            assert(traversal.spec_traversed() == tvo);
            assert(traversal.spec_path() == reversed_path@);
            assert(traversed_reachable(nodes@, start_node_id as int, traversal.spec_traversed()));
        }
        traversal
    }
}

} // verus!
