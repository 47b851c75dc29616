//! Grid topology: turns a flat sequence of cell states into, for every cell,
//! the list of edges to its passable up/down/left/right neighbours.
//!
//! The grid is square: a cell sequence of length `n` is laid out row by row
//! with side length `sqrt(n)`. A neighbour receives an edge exactly when it is
//! inside the grid and its state is not `Off`. Every edge carries weight 1
//! (uniform-cost grid).

use crate::NodeStatus;
use vstd::arithmetic::div_mod::{
    lemma_fundamental_div_mod, lemma_fundamental_div_mod_converse, lemma_mod_bound,
};
use vstd::prelude::*;

verus! {

/// One outgoing edge of a cell.
#[derive(Clone, Copy, Debug, Hash)]
pub struct Edge {
    pub to: usize,
    pub weight: usize,
}

/// All outgoing edges of one cell.
pub struct AdjacencyEntry {
    pub edges: Vec<Edge>,
}

/// A cell permits traversal unless it is an obstacle.
pub open spec fn passable(status: NodeStatus) -> bool {
    status != NodeStatus::Off
}

/// `n` is the square of a natural number.
pub open spec fn is_perfect_square(n: int) -> bool {
    exists|s: int| 0 <= s && #[trigger] (s * s) == n
}

/// The side length of a square grid with `n` cells.
pub open spec fn grid_side(n: int) -> int {
    choose|s: int| 0 <= s && #[trigger] (s * s) == n
}

/// Non-negative square roots are unique.
proof fn lemma_square_unique(a: int, b: int)
    requires
        0 <= a,
        0 <= b,
        a * a == b * b,
    ensures
        a == b,
{
    assert(a == b) by (nonlinear_arith)
        requires
            0 <= a,
            0 <= b,
            a * a == b * b,
    ;
}

/// For a perfect square `n`, `grid_side(n)` is its non-negative root.
pub proof fn lemma_grid_side(n: int)
    requires
        is_perfect_square(n),
    ensures
        0 <= grid_side(n),
        grid_side(n) * grid_side(n) == n,
        forall|s: int| 0 <= s && #[trigger] (s * s) == n ==> s == grid_side(n),
{
    let side = choose|s: int| 0 <= s && #[trigger] (s * s) == n;
    assert(side == grid_side(n));
    assert forall|s: int| 0 <= s && #[trigger] (s * s) == n implies s == grid_side(n) by {
        lemma_square_unique(s, grid_side(n));
    }
}

/// The exact edge list of cell `i`, in the order left, right, up, down.
pub open spec fn grid_edges(statuses: Seq<NodeStatus>, side: int, i: int) -> Seq<Edge> {
    let row = i / side;
    let col = i % side;
    (if col > 0 && passable(statuses[i - 1]) {
        seq![Edge { to: (i - 1) as usize, weight: 1 }]
    } else {
        Seq::<Edge>::empty()
    }) + (if col < side - 1 && passable(statuses[i + 1]) {
        seq![Edge { to: (i + 1) as usize, weight: 1 }]
    } else {
        Seq::<Edge>::empty()
    }) + (if row > 0 && passable(statuses[i - side]) {
        seq![Edge { to: (i - side) as usize, weight: 1 }]
    } else {
        Seq::<Edge>::empty()
    }) + (if row < side - 1 && passable(statuses[i + side]) {
        seq![Edge { to: (i + side) as usize, weight: 1 }]
    } else {
        Seq::<Edge>::empty()
    })
}

/// Cells `u` and `v` are one step apart in the same row or the same column of
/// a square grid with side `side`.
pub open spec fn grid_adjacent(side: int, u: int, v: int) -> bool {
    &&& 0 <= u < side * side
    &&& 0 <= v < side * side
    &&& {
        ||| (u / side == v / side && (v == u + 1 || v == u - 1))
        ||| (u % side == v % side && (v == u + side || v == u - side))
    }
}

/// Row/column decomposition of an in-range cell index.
proof fn lemma_grid_coords(side: int, i: int)
    requires
        1 <= side,
        0 <= i < side * side,
    ensures
        i == (i / side) * side + (i % side),
        0 <= i % side < side,
        0 <= i / side < side,
{
    broadcast use vstd::arithmetic::mul::lemma_mul_is_commutative;

    lemma_fundamental_div_mod(i, side);
    lemma_mod_bound(i, side);
    assert(i / side < side) by (nonlinear_arith)
        requires
            1 <= side,
            0 <= i < side * side,
            i == side * (i / side) + (i % side),
            0 <= i % side < side,
    ;
    assert(0 <= i / side) by (nonlinear_arith)
        requires
            1 <= side,
            i == side * (i / side) + (i % side),
            0 <= i,
            0 <= i % side < side,
    ;
}

/// Index arithmetic for the four neighbour candidates of cell `i`.
proof fn lemma_neighbor_bounds(side: int, i: int)
    requires
        1 <= side,
        0 <= i < side * side,
    ensures
        i % side > 0 ==> 1 <= i && (i - 1) / side == i / side && (i - 1) % side == i % side - 1,
        i % side < side - 1 ==> i + 1 < side * side && (i + 1) / side == i / side && (i + 1)
            % side == i % side + 1,
        i / side > 0 ==> side <= i && (i - side) / side == i / side - 1 && (i - side) % side == i
            % side,
        i / side < side - 1 ==> i + side < side * side && (i + side) / side == i / side + 1 && (i
            + side) % side == i % side,
{
    broadcast use vstd::arithmetic::mul::lemma_mul_is_commutative;

    lemma_grid_coords(side, i);
    let row = i / side;
    let col = i % side;
    if col > 0 {
        assert(i - 1 == row * side + (col - 1));
        lemma_fundamental_div_mod_converse(i - 1, side, row, col - 1);
    }
    if col < side - 1 {
        assert(i + 1 == row * side + (col + 1));
        lemma_fundamental_div_mod_converse(i + 1, side, row, col + 1);
        assert(row * side + (col + 1) < side * side) by (nonlinear_arith)
            requires
                0 <= row < side,
                0 <= col + 1 < side,
                1 <= side,
        ;
    }
    if row > 0 {
        assert(i - side == (row - 1) * side + col) by (nonlinear_arith)
            requires
                i == row * side + col,
        ;
        assert(0 <= (row - 1) * side) by (nonlinear_arith)
            requires
                1 <= row,
                1 <= side,
        ;
        lemma_fundamental_div_mod_converse(i - side, side, row - 1, col);
    }
    if row < side - 1 {
        assert(i + side == (row + 1) * side + col) by (nonlinear_arith)
            requires
                i == row * side + col,
        ;
        assert((row + 1) * side + col < side * side) by (nonlinear_arith)
            requires
                0 <= row + 1 < side,
                0 <= col < side,
                1 <= side,
        ;
        lemma_fundamental_div_mod_converse(i + side, side, row + 1, col);
    }
}

/// Every edge that `grid_edges` emits points at an in-range, passable,
/// grid-adjacent cell and carries weight 1.
pub proof fn lemma_grid_edges_wf(statuses: Seq<NodeStatus>, side: int, i: int, k: int)
    requires
        1 <= side,
        side * side == statuses.len(),
        statuses.len() <= usize::MAX,
        0 <= i < statuses.len(),
        0 <= k < grid_edges(statuses, side, i).len(),
    ensures
        0 <= grid_edges(statuses, side, i)[k].to < statuses.len(),
        passable(statuses[grid_edges(statuses, side, i)[k].to as int]),
        grid_edges(statuses, side, i)[k].weight == 1,
        grid_adjacent(side, i, grid_edges(statuses, side, i)[k].to as int),
{
    lemma_grid_coords(side, i);
    lemma_neighbor_bounds(side, i);
    let row = i / side;
    let col = i % side;
    let a = if col > 0 && passable(statuses[i - 1]) {
        seq![Edge { to: (i - 1) as usize, weight: 1 }]
    } else {
        Seq::<Edge>::empty()
    };
    let b = if col < side - 1 && passable(statuses[i + 1]) {
        seq![Edge { to: (i + 1) as usize, weight: 1 }]
    } else {
        Seq::<Edge>::empty()
    };
    let c = if row > 0 && passable(statuses[i - side]) {
        seq![Edge { to: (i - side) as usize, weight: 1 }]
    } else {
        Seq::<Edge>::empty()
    };
    let d = if row < side - 1 && passable(statuses[i + side]) {
        seq![Edge { to: (i + side) as usize, weight: 1 }]
    } else {
        Seq::<Edge>::empty()
    };
    assert(grid_edges(statuses, side, i) == a + b + c + d);
    let e = grid_edges(statuses, side, i)[k];
    if k < a.len() {
        assert(e == a[0]);
        assert(e.to as int == i - 1);
    } else if k < a.len() + b.len() {
        assert(e == b[0]);
        assert(e.to as int == i + 1);
    } else if k < a.len() + b.len() + c.len() {
        assert(e == c[0]);
        assert(e.to as int == i - side);
    } else {
        assert(e == d[0]);
        assert(e.to as int == i + side);
    }
}

/// A topology built from `statuses` (one entry per cell, holding that
/// cell's grid edges) only ever points at in-range, passable cells, always
/// with weight 1.
pub proof fn lemma_topology_wf(
    statuses: Seq<NodeStatus>,
    adj: Seq<AdjacencyEntry>,
    i: int,
    k: int,
)
    requires
        is_perfect_square(statuses.len() as int),
        statuses.len() <= usize::MAX,
        adj.len() == statuses.len(),
        forall|j: int|
            0 <= j < adj.len() ==> #[trigger] adj[j].edges@ == grid_edges(
                statuses,
                grid_side(statuses.len() as int),
                j,
            ),
        0 <= i < adj.len(),
        0 <= k < adj[i].edges@.len(),
    ensures
        adj[i].edges@[k].to < statuses.len(),
        passable(statuses[adj[i].edges@[k].to as int]),
        adj[i].edges@[k].weight == 1,
        grid_adjacent(grid_side(statuses.len() as int), i, adj[i].edges@[k].to as int),
{
    let side = grid_side(statuses.len() as int);
    lemma_grid_side(statuses.len() as int);
    assert(side >= 1) by (nonlinear_arith)
        requires
            side * side == statuses.len(),
            statuses.len() >= 1,
            side >= 0,
    ;
    lemma_grid_edges_wf(statuses, side, i, k);
}

/// There is an edge from cell `u` to cell `v` in the topology of `statuses`.
pub open spec fn grid_edge_ok(statuses: Seq<NodeStatus>, u: int, v: int) -> bool {
    let side = grid_side(statuses.len() as int);
    &&& 0 <= u < statuses.len()
    &&& exists|k: int|
        0 <= k < grid_edges(statuses, side, u).len() && (#[trigger] grid_edges(
            statuses,
            side,
            u,
        )[k]).to as int == v
}

/// `p` is a non-empty cell sequence whose consecutive entries are joined by
/// edges of the topology of `statuses`.
pub open spec fn grid_walk(statuses: Seq<NodeStatus>, p: Seq<int>) -> bool {
    &&& p.len() >= 1
    &&& forall|i: int| 0 <= i < p.len() - 1 ==> grid_edge_ok(statuses, #[trigger] p[i], p[i + 1])
}

/// `p` is a walk from cell `s` to cell `t` over the topology of `statuses`.
pub open spec fn grid_connects(statuses: Seq<NodeStatus>, s: int, t: int, p: Seq<int>) -> bool {
    &&& grid_walk(statuses, p)
    &&& p[0] == s
    &&& p[p.len() - 1] == t
}

/// Consecutive cells of any grid walk are grid-adjacent, and every cell a
/// walk steps into is passable.
pub proof fn lemma_walk_step_valid(statuses: Seq<NodeStatus>, p: Seq<int>, i: int)
    requires
        is_perfect_square(statuses.len() as int),
        statuses.len() <= usize::MAX,
        grid_walk(statuses, p),
        0 <= i < p.len() - 1,
    ensures
        grid_adjacent(grid_side(statuses.len() as int), p[i], p[i + 1]),
        0 <= p[i + 1] < statuses.len(),
        passable(statuses[p[i + 1]]),
{
    let side = grid_side(statuses.len() as int);
    lemma_grid_side(statuses.len() as int);
    assert(grid_edge_ok(statuses, p[i], p[i + 1]));
    assert(side >= 1) by (nonlinear_arith)
        requires
            side * side == statuses.len(),
            statuses.len() >= 1,
            side >= 0,
    ;
    let k = choose|k: int|
        0 <= k < grid_edges(statuses, side, p[i]).len() && (#[trigger] grid_edges(
            statuses,
            side,
            p[i],
        )[k]).to as int == p[i + 1];
    lemma_grid_edges_wf(statuses, side, p[i], k);
}

/// Computes the side length of a square grid with `n` cells.
fn grid_side_length(n: usize) -> (side: usize)
    requires
        is_perfect_square(n as int),
    ensures
        side as int == grid_side(n as int),
        side * side == n,
{
    proof {
        lemma_grid_side(n as int);
        assert(grid_side(n as int) <= n as int) by (nonlinear_arith)
            requires
                0 <= grid_side(n as int),
                grid_side(n as int) * grid_side(n as int) == n as int,
        ;
    }
    let ghost true_side: int = grid_side(n as int);
    let mut side: usize = 0;
    while side * side != n
        invariant
            0 <= side <= true_side,
            true_side <= n as int,
            true_side * true_side == n as int,
            (side as int) * (side as int) <= n as int,
        decreases true_side - side,
    {
        proof {
            assert(side as int != true_side);
            assert((side + 1) * (side + 1) <= true_side * true_side) by (nonlinear_arith)
                requires
                    side + 1 <= true_side,
                    0 <= side,
            ;
        }
        side = side + 1;
    }
    proof {
        lemma_square_unique(side as int, true_side);
    }
    side
}

/// Does the state of this cell permit traversal?
pub fn is_node_on(node_id: usize, nodes: &Vec<NodeStatus>) -> (r: bool)
    requires
        node_id < nodes@.len(),
    ensures
        r == passable(nodes@[node_id as int]),
{
    if let NodeStatus::Off = nodes[node_id] {
        return false;
    }
    true
}

/// Appends one edge to an edge list.
pub fn add_edge(edges: &mut Vec<Edge>, to: usize, weight: usize)
    ensures
        final(edges)@ == old(edges)@.push(Edge { to, weight }),
{
    edges.push(Edge { to, weight });
}

/// Collects the edges from cell `node_id` to each of its passable neighbours.
fn get_edges_to_neighbors(node_id: usize, nodes: &Vec<NodeStatus>) -> (r: Vec<Edge>)
    requires
        is_perfect_square(nodes@.len() as int),
        node_id < nodes@.len(),
    ensures
        r@ == grid_edges(nodes@, grid_side(nodes@.len() as int), node_id as int),
{
    let mut edges_to_neighbors: Vec<Edge> = Vec::new();
    let side_length = grid_side_length(nodes.len());
    let ghost side: int = side_length as int;
    proof {
        assert(side >= 1) by (nonlinear_arith)
            requires
                side * side == nodes@.len(),
                1 <= nodes@.len(),
                0 <= side,
        ;
        lemma_grid_coords(side, node_id as int);
        lemma_neighbor_bounds(side, node_id as int);
    }
    let row = node_id / side_length;
    let col = node_id % side_length;
    let ghost target = grid_edges(nodes@, side, node_id as int);

    // the value 1 is the edge weight; all edges carry the same weight here
    if col > 0 && is_node_on(node_id - 1, nodes) {
        add_edge(&mut edges_to_neighbors, node_id - 1, 1);
    }

    if col < side_length - 1 && is_node_on(node_id + 1, nodes) {
        add_edge(&mut edges_to_neighbors, node_id + 1, 1);
    }

    if row > 0 && is_node_on(node_id - side_length, nodes) {
        add_edge(&mut edges_to_neighbors, node_id - side_length, 1);
    }

    if row < side_length - 1 && is_node_on(node_id + side_length, nodes) {
        add_edge(&mut edges_to_neighbors, node_id + side_length, 1);
    }

    proof {
        assert(edges_to_neighbors@ =~= target);
    }
    edges_to_neighbors
}

/// Builds the full topology: entry `i` of the result holds the edges from
/// cell `i` to each of its passable neighbours, in the order left, right,
/// up, down.
pub fn create_adjacency_list(nodes: &Vec<NodeStatus>) -> (r: Vec<AdjacencyEntry>)
    requires
        is_perfect_square(nodes@.len() as int),
    ensures
        r@.len() == nodes@.len(),
        forall|i: int|
            0 <= i < nodes@.len() ==> #[trigger] r@[i].edges@ == grid_edges(
                nodes@,
                grid_side(nodes@.len() as int),
                i,
            ),
{
    let mut list: Vec<AdjacencyEntry> = Vec::new();
    let n = nodes.len();
    let mut i: usize = 0;
    while i < n
        invariant
            is_perfect_square(n as int),
            n == nodes@.len(),
            i <= n,
            list@.len() == i,
            forall|j: int|
                0 <= j < i ==> #[trigger] list@[j].edges@ == grid_edges(
                    nodes@,
                    grid_side(n as int),
                    j,
                ),
        decreases n - i,
    {
        let edges = get_edges_to_neighbors(i, nodes);
        list.push(AdjacencyEntry { edges });
        i = i + 1;
    }
    list
}

} // verus!
