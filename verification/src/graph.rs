//! Proximity-graph builder.
//!
//! Nodes live on an integer grid; two distinct nodes are adjacent exactly
//! when the squared Euclidean distance between their positions is below the
//! square of a proximity radius. Adjacency lists store neighbor IDs in
//! increasing order, which fixes the deterministic expansion order the
//! search engine relies on. The resulting relation is symmetric and free of
//! self-loops, and both facts are part of the graph's well-formedness.

use vstd::prelude::*;

verus! {

/// Largest coordinate magnitude a position may carry. Keeps every squared
/// distance well inside `i64` range.
pub const COORD_LIMIT: i64 = 1_000_000;

/// Largest admissible proximity radius; `RADIUS_LIMIT * RADIUS_LIMIT` still
/// fits in `i64`.
pub const RADIUS_LIMIT: i64 = 2_000_000;

/// A node's position on the integer grid.
#[derive(Clone, Copy, Debug, PartialEq, Eq, Structural)]
pub struct Pos {
    pub x: i64,
    pub y: i64,
}

/// The position's coordinates are small enough that distance arithmetic on
/// any two such positions cannot overflow.
pub open spec fn in_bounds(p: Pos) -> bool {
    &&& -COORD_LIMIT <= p.x <= COORD_LIMIT
    &&& -COORD_LIMIT <= p.y <= COORD_LIMIT
}

/// Squared Euclidean distance between two positions.
pub open spec fn dist_sq(a: Pos, b: Pos) -> int {
    (a.x - b.x) * (a.x - b.x) + (a.y - b.y) * (a.y - b.y)
}

/// The edge predicate: strictly closer than `radius`.
pub open spec fn close(a: Pos, b: Pos, radius: i64) -> bool {
    dist_sq(a, b) < radius * radius
}

/// The edge predicate does not depend on the order of its endpoints.
pub proof fn lemma_close_symmetric(a: Pos, b: Pos, radius: i64)
    ensures
        close(a, b, radius) == close(b, a, radius),
{
    assert((a.x - b.x) * (a.x - b.x) == (b.x - a.x) * (b.x - a.x)) by (nonlinear_arith);
    assert((a.y - b.y) * (a.y - b.y) == (b.y - a.y) * (b.y - a.y)) by (nonlinear_arith);
}

/// The adjacency row of node `i` over the first `m` candidate neighbors:
/// every `j < m` with `j != i` whose position is close to `i`'s, in
/// increasing order of `j`.
pub open spec fn neighbor_row(ps: Seq<Pos>, radius: i64, i: int, m: nat) -> Seq<usize>
    decreases m,
{
    if m == 0 {
        Seq::empty()
    } else {
        let init = neighbor_row(ps, radius, i, (m - 1) as nat);
        let j = m - 1;
        if j != i && close(ps[i], ps[j as int], radius) {
            init.push(j as usize)
        } else {
            init
        }
    }
}

/// Membership in an adjacency row is exactly the bounded, irreflexive
/// proximity predicate.
pub proof fn lemma_neighbor_row_contains(ps: Seq<Pos>, radius: i64, i: int, m: nat, j: usize)
    requires
        m <= usize::MAX,
    ensures
        neighbor_row(ps, radius, i, m).contains(j) <==> ((j as nat) < m && j as int != i
            && close(ps[i], ps[j as int], radius)),
    decreases m,
{
    if m > 0 {
        lemma_neighbor_row_contains(ps, radius, i, (m - 1) as nat, j);
        let init = neighbor_row(ps, radius, i, (m - 1) as nat);
        let row = neighbor_row(ps, radius, i, m);
        let lastj: int = m - 1;
        let last = lastj as usize;
        if lastj != i && close(ps[i], ps[lastj], radius) {
            assert(row == init.push(last));
            if row.contains(j) {
                let k = choose|k: int| 0 <= k < row.len() && row[k] == j;
                if k < init.len() {
                    assert(init[k] == j);
                    assert(init.contains(j));
                } else {
                    assert(j == last);
                }
            }
            if (j as nat) < m && j as int != i && close(ps[i], ps[j as int], radius) {
                if (j as nat) < m - 1 {
                    assert(init.contains(j));
                    let k = choose|k: int| 0 <= k < init.len() && init[k] == j;
                    assert(row[k] == j);
                    assert(row.contains(j));
                } else {
                    assert(row[init.len() as int] == j);
                    assert(row.contains(j));
                }
            }
        } else {
            assert(row == init);
        }
    }
}

/// A proximity graph: one position and one adjacency row per node.
pub struct Graph {
    pub positions: Vec<Pos>,
    pub adj: Vec<Vec<usize>>,
}

impl Graph {
    /// Number of nodes; node IDs are exactly `0 .. n`.
    pub open spec fn n(self) -> nat {
        self.positions@.len()
    }

    /// Position of node `i`.
    pub open spec fn pos(self, i: int) -> Pos {
        self.positions@[i]
    }

    /// Adjacency row of node `i`, as a sequence of neighbor IDs.
    pub open spec fn row(self, i: int) -> Seq<usize> {
        self.adj@[i]@
    }

    /// `j` occurs in `i`'s adjacency row.
    pub open spec fn has_edge(self, i: usize, j: usize) -> bool {
        (i as nat) < self.n() && self.row(i as int).contains(j)
    }

    /// Structural soundness of the graph: rows exist for every node, every
    /// listed neighbor is a node, the relation is symmetric and no node is
    /// its own neighbor.
    pub open spec fn wf(self) -> bool {
        &&& self.adj@.len() == self.n()
        &&& (forall|i: int, k: int|
            0 <= i < self.n() && 0 <= k < self.row(i).len() ==> (#[trigger] self.row(i)[k] as nat)
                < self.n())
        &&& (forall|i: usize, j: usize| #[trigger] self.has_edge(i, j) ==> self.has_edge(j, i))
        &&& (forall|i: usize| !(#[trigger] self.has_edge(i, i)))
    }

    /// Builds the graph for the given positions: for every ordered pair of
    /// distinct nodes closer than `radius`, the second is listed as a
    /// neighbor of the first, in increasing ID order.
    pub fn from_positions(positions: Vec<Pos>, radius: i64) -> (g: Graph)
        requires
            forall|i: int| 0 <= i < positions@.len() ==> in_bounds(#[trigger] positions@[i]),
            0 < radius <= RADIUS_LIMIT,
        ensures
            g.wf(),
            g.n() == positions@.len(),
            forall|i: int| 0 <= i < g.n() ==> g.pos(i) == positions@[i],
            forall|i: int|
                0 <= i < g.n() ==> g.row(i) == neighbor_row(positions@, radius, i, g.n()),
            forall|i: usize, j: usize|
                #[trigger] g.has_edge(i, j) <==> ((i as nat) < g.n() && (j as nat) < g.n()
                    && i != j && close(g.pos(i as int), g.pos(j as int), radius)),
            forall|i: usize, j: usize| #[trigger] g.has_edge(i, j) ==> g.has_edge(j, i),
            forall|i: usize| !(#[trigger] g.has_edge(i, i)),
    {
        let n = positions.len();
        let mut adj: Vec<Vec<usize>> = Vec::new();
        let mut i: usize = 0;
        while i < n
            invariant
                i <= n,
                n == positions@.len(),
                adj@.len() == i,
                forall|t: int| 0 <= t < positions@.len() ==> in_bounds(#[trigger] positions@[t]),
                0 < radius <= RADIUS_LIMIT,
                forall|t: int|
                    0 <= t < i ==> #[trigger] adj@[t]@ == neighbor_row(
                        positions@,
                        radius,
                        t,
                        n as nat,
                    ),
            decreases n - i,
        {
            let mut row: Vec<usize> = Vec::new();
            let mut j: usize = 0;
            while j < n
                invariant
                    j <= n,
                    i < n,
                    n == positions@.len(),
                    forall|t: int|
                        0 <= t < positions@.len() ==> in_bounds(#[trigger] positions@[t]),
                    0 < radius <= RADIUS_LIMIT,
                    row@ == neighbor_row(positions@, radius, i as int, j as nat),
                decreases n - j,
            {
                if j != i && is_close(positions[i], positions[j], radius) {
                    row.push(j);
                }
                j = j + 1;
            }
            adj.push(row);
            i = i + 1;
        }
        let g = Graph { positions, adj };
        proof {
            assert forall|a: usize, b: usize| #[trigger]
                g.has_edge(a, b) <==> ((a as nat) < g.n() && (b as nat) < g.n() && a != b
                    && close(g.pos(a as int), g.pos(b as int), radius)) by {
                if (a as nat) < g.n() {
                    lemma_neighbor_row_contains(positions@, radius, a as int, g.n(), b);
                }
            }
            assert forall|a: usize, b: usize| #[trigger] g.has_edge(a, b) implies g.has_edge(
                b,
                a,
            ) by {
                lemma_close_symmetric(g.pos(a as int), g.pos(b as int), radius);
            }
            assert forall|a: int, k: int|
                0 <= a < g.n() && 0 <= k < g.row(a).len() implies (#[trigger] g.row(a)[k] as nat)
                < g.n() by {
                let b = g.row(a)[k];
                assert(g.row(a).contains(b));
                assert(g.has_edge(a as usize, b));
            }
        }
        g
    }
}

/// Largest admissible width or height of the random placement area; keeps
/// every generated coordinate within `COORD_LIMIT`.
pub const EXTENT_LIMIT: u64 = 2_000_000;

/// One step of the xorshift pseudo-random sequence that drives node
/// placement.
pub open spec fn scramble(s: u64) -> u64 {
    let a = s ^ (s << 13u64);
    let b = a ^ (a >> 7u64);
    b ^ (b << 17u64)
}

/// The pseudo-random state after `k` draws from the given seed. The seed's
/// low bit is forced so the state is never zero, which would make the
/// sequence collapse.
pub open spec fn gen_state(seed: u64, k: nat) -> u64
    decreases k,
{
    if k == 0 {
        seed | 1
    } else {
        scramble(gen_state(seed, (k - 1) as nat))
    }
}

/// Maps one raw draw to a coordinate in `[-extent / 2, extent - extent / 2)`.
pub open spec fn coord_from(r: u64, extent: u64) -> i64 {
    ((r % extent) as int - (extent / 2) as int) as i64
}

/// The position of node `i` as generated from the given seed: the draws are
/// consumed two per node, x first.
pub open spec fn gen_pos(seed: u64, width: u64, height: u64, i: nat) -> Pos {
    Pos {
        x: coord_from(gen_state(seed, 2 * i + 1), width),
        y: coord_from(gen_state(seed, 2 * i + 2), height),
    }
}

/// Executable form of `scramble`.
fn scramble_exec(s: u64) -> (r: u64)
    ensures
        r == scramble(s),
{
    let a = s ^ (s << 13u64);
    let b = a ^ (a >> 7u64);
    b ^ (b << 17u64)
}

/// Executable form of `coord_from`; the result always lies within
/// `COORD_LIMIT`.
fn coord_of(r: u64, extent: u64) -> (c: i64)
    requires
        0 < extent <= EXTENT_LIMIT,
    ensures
        c == coord_from(r, extent),
        -COORD_LIMIT <= c <= COORD_LIMIT,
{
    let rem = r % extent;
    let half = extent / 2;
    rem as i64 - half as i64
}

/// Generates `n` positions pseudo-randomly from the seed, uniformly over the
/// `width` by `height` rectangle centered on the origin.
pub fn random_positions(n: usize, width: u64, height: u64, seed: u64) -> (ps: Vec<Pos>)
    requires
        0 < width <= EXTENT_LIMIT,
        0 < height <= EXTENT_LIMIT,
    ensures
        ps@.len() == n,
        forall|i: int| 0 <= i < n ==> #[trigger] ps@[i] == gen_pos(seed, width, height, i as nat),
        forall|i: int| 0 <= i < n ==> in_bounds(#[trigger] ps@[i]),
{
    let mut ps: Vec<Pos> = Vec::new();
    let mut state: u64 = seed | 1;
    let mut i: usize = 0;
    while i < n
        invariant
            i <= n,
            ps@.len() == i,
            0 < width <= EXTENT_LIMIT,
            0 < height <= EXTENT_LIMIT,
            state == gen_state(seed, 2 * i as nat),
            forall|t: int|
                0 <= t < i ==> #[trigger] ps@[t] == gen_pos(seed, width, height, t as nat),
            forall|t: int| 0 <= t < i ==> in_bounds(#[trigger] ps@[t]),
        decreases n - i,
    {
        let sx = scramble_exec(state);
        let sy = scramble_exec(sx);
        proof {
            assert(sx == gen_state(seed, 2 * i as nat + 1));
            assert(sy == gen_state(seed, 2 * i as nat + 2));
        }
        let x = coord_of(sx, width);
        let y = coord_of(sy, height);
        ps.push(Pos { x, y });
        state = sy;
        i = i + 1;
    }
    ps
}

impl Graph {
    /// Builds the proximity graph over `n` pseudo-randomly placed nodes.
    pub fn new_random(n: usize, width: u64, height: u64, radius: i64, seed: u64) -> (g: Graph)
        requires
            0 < width <= EXTENT_LIMIT,
            0 < height <= EXTENT_LIMIT,
            0 < radius <= RADIUS_LIMIT,
        ensures
            g.wf(),
            g.n() == n,
            forall|i: int| 0 <= i < n ==> g.pos(i) == gen_pos(seed, width, height, i as nat),
            forall|i: int|
                0 <= i < g.n() ==> g.row(i) == neighbor_row(g.positions@, radius, i, g.n()),
            forall|i: usize, j: usize|
                #[trigger] g.has_edge(i, j) <==> ((i as nat) < g.n() && (j as nat) < g.n()
                    && i != j && close(g.pos(i as int), g.pos(j as int), radius)),
    {
        let ps = random_positions(n, width, height, seed);
        let ghost psv = ps@;
        let g = Graph::from_positions(ps, radius);
        proof {
            assert forall|i: int| 0 <= i < g.n() implies g.positions@[i] == psv[i] by {
                assert(g.pos(i) == psv[i]);
            }
            assert(g.positions@ =~= psv);
        }
        g
    }
}

/// Executable form of the `close` predicate.
fn is_close(a: Pos, b: Pos, radius: i64) -> (r: bool)
    requires
        in_bounds(a),
        in_bounds(b),
        0 < radius <= RADIUS_LIMIT,
    ensures
        r == close(a, b, radius),
{
    let dx = a.x - b.x;
    let dy = a.y - b.y;
    proof {
        assert(dx * dx <= 4_000_000_000_000) by (nonlinear_arith)
            requires
                -2_000_000 <= dx <= 2_000_000,
        ;
        assert(dy * dy <= 4_000_000_000_000) by (nonlinear_arith)
            requires
                -2_000_000 <= dy <= 2_000_000,
        ;
        assert(dx * dx >= 0) by (nonlinear_arith);
        assert(dy * dy >= 0) by (nonlinear_arith);
        assert(radius * radius <= 4_000_000_000_000) by (nonlinear_arith)
            requires
                0 < radius <= 2_000_000,
        ;
        assert(radius * radius >= 0) by (nonlinear_arith);
    }
    dx * dx + dy * dy < radius * radius
}

} // verus!
