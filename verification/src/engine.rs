//! Incremental breadth-first search engine.
//!
//! The engine owns a proximity graph together with the working state of one
//! breadth-first search: the selected endpoints, a FIFO frontier of
//! discovered nodes, the visited set, the first-discovery predecessor map,
//! the reconstructed path once one is found, and a coarse phase tag. A
//! driving loop advances the search by calling [`Model::shortest_path_step`]
//! once per tick; each call performs one bounded unit of work.

use crate::graph::close;
use crate::graph::gen_pos;
use crate::graph::Graph;
use crate::graph::EXTENT_LIMIT;
use crate::graph::RADIUS_LIMIT;
use std::collections::VecDeque;
use vstd::prelude::*;

verus! {

/// The engine's coarse phase: no active search, or one in progress.
#[derive(Clone, Copy, Debug, PartialEq, Eq, Structural)]
pub enum ModelState {
    Idle,
    Searching,
}

/// Why an endpoint selection was rejected.
#[derive(Clone, Copy, Debug, PartialEq, Eq, Structural)]
pub enum EngineError {
    /// A selected node lies outside the graph's ID range.
    InvalidNodeId,
    /// A search was requested on a graph with no nodes.
    EmptyGraph,
}

/// `p` walks through `g` from `s` to `t`: nonempty, starts at `s`, ends at
/// `t`, and every consecutive pair is an edge of `g`.
pub open spec fn is_search_path(g: Graph, p: Seq<usize>, s: usize, t: usize) -> bool {
    &&& p.len() > 0
    &&& p[0] == s
    &&& p[p.len() - 1] == t
    &&& (forall|k: int| 0 <= k < p.len() - 1 ==> g.has_edge(#[trigger] p[k], p[k + 1]))
}

/// Some walk through `g` joins `s` to `t`.
pub open spec fn connected(g: Graph, s: usize, t: usize) -> bool {
    exists|p: Seq<usize>| is_search_path(g, p, s, t)
}

/// Follows the predecessor map backward from `node` until `s` is reached,
/// returning the collected walk in `s`-to-`node` order, or `None` when the
/// chain breaks off or does not reach `s` within `fuel` links.
pub open spec fn walk_back(pred: Seq<Option<usize>>, s: usize, node: usize, fuel: nat) -> Option<
    Seq<usize>,
>
    decreases fuel,
{
    if node == s {
        Some(seq![s])
    } else if fuel == 0 {
        None
    } else {
        match pred[node as int] {
            None => None,
            Some(p) => match walk_back(pred, s, p, (fuel - 1) as nat) {
                None => None,
                Some(rest) => Some(rest.push(node)),
            },
        }
    }
}

/// Membership in a pushed sequence: the old members plus the new element.
proof fn lemma_push_contains(s: Seq<usize>, e: usize, x: usize)
    ensures
        s.push(e).contains(x) <==> (s.contains(x) || x == e),
{
    if s.contains(x) {
        let k = choose|k: int| 0 <= k < s.len() && s[k] == x;
        assert(s.push(e)[k] == x);
    }
    assert(s.push(e)[s.len() as int] == e);
    if s.push(e).contains(x) {
        let k = choose|k: int| 0 <= k < s.push(e).len() && s.push(e)[k] == x;
        if k < s.len() {
            assert(s[k] == x);
        }
    }
}

/// A predecessor walk is unchanged when the map gains entries: filling
/// `None` slots does not disturb chains that already exist.
proof fn lemma_walk_extension(
    pred1: Seq<Option<usize>>,
    pred2: Seq<Option<usize>>,
    s: usize,
    node: usize,
    fuel: nat,
)
    requires
        pred1.len() == pred2.len(),
        (node as nat) < pred1.len(),
        forall|y: int|
            0 <= y < pred1.len() && (#[trigger] pred1[y]) is Some ==> pred2[y] == pred1[y],
        forall|y: int|
            0 <= y < pred1.len() && (#[trigger] pred1[y]) is Some ==> ((pred1[y]->0) as nat)
                < pred1.len(),
        walk_back(pred1, s, node, fuel) is Some,
    ensures
        walk_back(pred2, s, node, fuel) == walk_back(pred1, s, node, fuel),
    decreases fuel,
{
    if node != s {
        let p = pred1[node as int]->0;
        lemma_walk_extension(pred1, pred2, s, p, (fuel - 1) as nat);
    }
}

/// A successful walk needs no more fuel than the links it takes: any fuel
/// of at least the walk's length minus one gives the same result.
proof fn lemma_walk_fuel(pred: Seq<Option<usize>>, s: usize, node: usize, fuel: nat, fuel2: nat)
    requires
        walk_back(pred, s, node, fuel) is Some,
        fuel2 >= walk_back(pred, s, node, fuel)->0.len() - 1,
    ensures
        walk_back(pred, s, node, fuel2) == walk_back(pred, s, node, fuel),
    decreases fuel,
{
    if node != s {
        let p = pred[node as int]->0;
        let rest = walk_back(pred, s, p, (fuel - 1) as nat)->0;
        lemma_walk_fuel(pred, s, p, (fuel - 1) as nat, (fuel2 - 1) as nat);
    }
}

/// Structure of a successful walk: it starts at `s`, ends at `node`, every
/// member after the first carries a predecessor entry, and all members are
/// node IDs.
proof fn lemma_walk_members(
    pred: Seq<Option<usize>>,
    s: usize,
    node: usize,
    fuel: nat,
    w: Seq<usize>,
)
    requires
        walk_back(pred, s, node, fuel) == Some(w),
        (s as nat) < pred.len(),
        (node as nat) < pred.len(),
        forall|y: int|
            0 <= y < pred.len() && (#[trigger] pred[y]) is Some ==> ((pred[y]->0) as nat)
                < pred.len(),
    ensures
        w.len() >= 1,
        w[0] == s,
        w[w.len() - 1] == node,
        forall|i: int| 1 <= i < w.len() ==> pred[(#[trigger] w[i]) as int] is Some,
        forall|i: int| 0 <= i < w.len() ==> ((#[trigger] w[i]) as nat) < pred.len(),
    decreases fuel,
{
    if node != s {
        let p = pred[node as int]->0;
        let rest = walk_back(pred, s, p, (fuel - 1) as nat)->0;
        lemma_walk_members(pred, s, p, (fuel - 1) as nat, rest);
        assert(w == rest.push(node));
        assert forall|i: int| 1 <= i < w.len() implies pred[(#[trigger] w[i]) as int] is Some by {
            if i < rest.len() {
                assert(w[i] == rest[i]);
            } else {
                assert(w[i] == node);
            }
        }
        assert forall|i: int| 0 <= i < w.len() implies ((#[trigger] w[i]) as nat) < pred.len() by {
            if i < rest.len() {
                assert(w[i] == rest[i]);
            } else {
                assert(w[i] == node);
            }
        }
    }
}

/// Pigeonhole: a duplicate-free sequence of node IDs below `n` has at most
/// `n` members.
proof fn lemma_bounded_no_dup_len(w: Seq<usize>, n: nat)
    requires
        w.no_duplicates(),
        forall|i: int| 0 <= i < w.len() ==> ((#[trigger] w[i]) as nat) < n,
    ensures
        w.len() <= n,
{
    let wi = w.map_values(|u: usize| u as int);
    assert(wi.no_duplicates());
    wi.unique_seq_to_set();
    let range = vstd::set_lib::set_int_range(0, n as int);
    assert(wi.to_set().subset_of(range)) by {
        assert forall|e: int| wi.to_set().contains(e) implies range.contains(e) by {
            let i = choose|i: int| 0 <= i < wi.len() && wi[i] == e;
            assert((w[i] as nat) < n);
        }
    }
    vstd::set_lib::lemma_int_range(0, n as int);
    vstd::set_lib::lemma_len_subset(wi.to_set(), range);
}

/// Expanding one more row entry changes the discovered map at exactly that
/// entry, and only when it is unvisited and still undiscovered.
proof fn lemma_discover_push(
    pred: Seq<Option<usize>>,
    row: Seq<usize>,
    vis: Seq<bool>,
    cur: usize,
    nb: usize,
)
    requires
        pred.len() <= usize::MAX,
        (nb as nat) < pred.len(),
    ensures
        discover(pred, row.push(nb), vis, cur) == (if !vis[nb as int] && pred[nb as int] is None {
            discover(pred, row, vis, cur).update(nb as int, Some(cur))
        } else {
            discover(pred, row, vis, cur)
        }),
{
    let d0 = discover(pred, row, vis, cur);
    let d1 = discover(pred, row.push(nb), vis, cur);
    if !vis[nb as int] && pred[nb as int] is None {
        let upd = d0.update(nb as int, Some(cur));
        assert forall|x: int| 0 <= x < pred.len() implies d1[x] == upd[x] by {
            lemma_push_contains(row, nb, x as usize);
            assert((x as usize) as int == x);
            if x == nb as int {
                assert(row.push(nb)[row.len() as int] == nb);
                assert(row.push(nb).contains(nb));
                assert(d1[x] == Some(cur));
            }
        }
        assert(d1 =~= upd);
    } else {
        assert forall|x: int| 0 <= x < pred.len() implies d1[x] == d0[x] by {
            lemma_push_contains(row, nb, x as usize);
            assert((x as usize) as int == x);
        }
        assert(d1 =~= d0);
    }
}

/// A successful predecessor walk yields a genuine path of the graph: it
/// joins `s` to `node` edge by edge.
pub proof fn lemma_walk_back_valid(
    g: Graph,
    pred: Seq<Option<usize>>,
    s: usize,
    node: usize,
    fuel: nat,
)
    requires
        pred.len() == g.n(),
        (node as nat) < g.n(),
        forall|x: int|
            0 <= x < pred.len() && (#[trigger] pred[x]) is Some ==> g.has_edge(
                pred[x]->0,
                x as usize,
            ),
        walk_back(pred, s, node, fuel) is Some,
    ensures
        is_search_path(g, walk_back(pred, s, node, fuel)->0, s, node),
    decreases fuel,
{
    if node == s {
        let p = walk_back(pred, s, node, fuel)->0;
        assert(p == seq![s]);
        assert(p[0] == s);
    } else {
        let prev = pred[node as int]->0;
        assert(g.has_edge(prev, node as usize));
        lemma_walk_back_valid(g, pred, s, prev, (fuel - 1) as nat);
        let rest = walk_back(pred, s, prev, (fuel - 1) as nat)->0;
        let whole = walk_back(pred, s, node, fuel)->0;
        assert(whole == rest.push(node));
        assert(whole[0] == rest[0]);
        assert forall|k: int| 0 <= k < whole.len() - 1 implies g.has_edge(
            #[trigger] whole[k],
            whole[k + 1],
        ) by {
            if k < rest.len() - 1 {
                assert(whole[k] == rest[k]);
                assert(whole[k + 1] == rest[k + 1]);
            } else {
                assert(whole[k] == rest[rest.len() - 1]);
                assert(whole[k + 1] == node);
            }
        }
    }
}

/// The members of `row` not yet visited, in row order.
pub open spec fn unvisited_neighbors(row: Seq<usize>, visited: Seq<bool>) -> Seq<usize>
    decreases row.len(),
{
    if row.len() == 0 {
        Seq::empty()
    } else {
        let init = unvisited_neighbors(row.drop_last(), visited);
        if !visited[row.last() as int] {
            init.push(row.last())
        } else {
            init
        }
    }
}

/// The predecessor map after expanding `cur` over its adjacency row: every
/// unvisited neighbor without an entry is recorded as first discovered by
/// `cur`; every existing entry is kept.
pub open spec fn discover(
    pred: Seq<Option<usize>>,
    row: Seq<usize>,
    visited: Seq<bool>,
    cur: usize,
) -> Seq<Option<usize>> {
    Seq::new(
        pred.len(),
        |x: int|
            if row.contains(x as usize) && !visited[x] && pred[x] is None {
                Some(cur)
            } else {
                pred[x]
            },
    )
}

/// The exact transition one call of [`Model::shortest_path_step`] makes
/// from `pre` to `post`.
pub open spec fn step_rel(pre: Model, post: Model) -> bool {
    &&& post.graph == pre.graph
    &&& post.source == pre.source
    &&& post.target == pre.target
    &&& if pre.state is Idle {
        post == pre
    } else if pre.frontier@.len() == 0 {
        &&& post.visited == pre.visited
        &&& post.predecessor == pre.predecessor
        &&& post.frontier == pre.frontier
        &&& post.path == pre.path
        &&& post.state is Idle
    } else {
        let cur = pre.frontier@[0];
        let rec = walk_back(pre.predecessor@, pre.source, pre.target, pre.n());
        if cur == pre.target && rec is Some {
            &&& post.visited == pre.visited
            &&& post.predecessor == pre.predecessor
            &&& post.frontier@ == Seq::<usize>::empty()
            &&& post.path@ == rec->0
            &&& post.state is Idle
        } else if pre.visited@[cur as int] {
            &&& post.visited == pre.visited
            &&& post.predecessor == pre.predecessor
            &&& post.frontier@ == pre.frontier@.drop_first()
            &&& post.path == pre.path
            &&& post.state == (if pre.frontier@.len() == 1 {
                ModelState::Idle
            } else {
                ModelState::Searching
            })
        } else {
            let vis2 = pre.visited@.update(cur as int, true);
            let row = pre.graph.row(cur as int);
            &&& post.visited@ == vis2
            &&& post.predecessor@ == discover(pre.predecessor@, row, vis2, cur)
            &&& post.frontier@ == pre.frontier@.drop_first() + unvisited_neighbors(row, vis2)
            &&& post.path == pre.path
            &&& post.state == (if post.frontier@.len() == 0 {
                ModelState::Idle
            } else {
                ModelState::Searching
            })
        }
    }
}

impl Model {
    /// Number of nodes of the owned graph.
    pub open spec fn n(self) -> nat {
        self.graph.n()
    }

    /// Every recorded predecessor link is an edge of the graph, pointing at
    /// the node that discovered its neighbor.
    pub open spec fn pred_ok(self) -> bool {
        forall|x: int|
            0 <= x < self.predecessor@.len() && (#[trigger] self.predecessor@[x]) is Some
                ==> self.graph.has_edge(self.predecessor@[x]->0, x as usize)
    }

    /// Either the source has already been expanded, or discovery has not
    /// begun: no predecessor is recorded yet and the frontier holds at most
    /// the source itself. This is what keeps the source out of the
    /// predecessor map for the whole run.
    pub open spec fn source_anchored(self) -> bool {
        self.n() > 0 ==> (self.visited@[self.source as int] || ((forall|x: int|
            0 <= x < self.predecessor@.len() ==> (#[trigger] self.predecessor@[x]) is None)
            && (self.frontier@.len() == 0 || (self.frontier@.len() == 1 && self.frontier@[0]
            == self.source))))
    }

    /// Every recorded predecessor chain walks back to the source without
    /// repeating a node, so path reconstruction from any discovered node is
    /// well-defined.
    pub open spec fn chains_ok(self) -> bool {
        forall|x: int|
            0 <= x < self.predecessor@.len() && (#[trigger] self.predecessor@[x]) is Some
                ==> walk_back(self.predecessor@, self.source, x as usize, self.n()) is Some
                && walk_back(self.predecessor@, self.source, x as usize, self.n())->0.no_duplicates()
    }

    /// Every queued node is the source or has a predecessor entry, so
    /// reconstruction succeeds whenever the target is dequeued.
    pub open spec fn frontier_discovered(self) -> bool {
        forall|k: int|
            0 <= k < self.frontier@.len() ==> ((#[trigger] self.frontier@[k]) == self.source
                || self.predecessor@[self.frontier@[k] as int] is Some)
    }

    /// Well-formedness of the whole engine state: structural bounds, the
    /// phase/frontier coupling (searching means work queued, idle means
    /// nothing queued), and the search-run invariants — the source never
    /// gains a predecessor, predecessor chains lead back to the source, the
    /// frontier holds only discovered nodes, and a reported path is a
    /// duplicate-free walk of the graph between the endpoints.
    pub open spec fn wf(self) -> bool {
        &&& self.graph.wf()
        &&& self.visited@.len() == self.n()
        &&& self.predecessor@.len() == self.n()
        &&& (self.n() > 0 ==> (self.source as nat) < self.n() && (self.target as nat) < self.n())
        &&& (forall|k: int|
            0 <= k < self.frontier@.len() ==> ((#[trigger] self.frontier@[k]) as nat) < self.n())
        &&& self.pred_ok()
        &&& (self.state is Searching ==> self.frontier@.len() > 0)
        &&& (self.state is Idle ==> self.frontier@.len() == 0)
        &&& (self.n() == 0 ==> self.state is Idle && self.path@.len() == 0)
        &&& (self.n() > 0 ==> self.predecessor@[self.source as int] is None)
        &&& self.source_anchored()
        &&& self.chains_ok()
        &&& self.frontier_discovered()
        &&& (self.path@.len() > 0 ==> is_search_path(
            self.graph,
            self.path@,
            self.source,
            self.target,
        ) && self.path@.no_duplicates())
    }
}

/// The graph, the selected endpoints, and the working state of one
/// step-wise breadth-first search.
pub struct Model {
    /// The proximity graph being searched; immutable for the engine's life.
    pub graph: Graph,
    /// Start node of the current search.
    pub source: usize,
    /// Goal node of the current search.
    pub target: usize,
    /// First-discovery predecessor of each node, if any; written at most
    /// once per search run.
    pub predecessor: Vec<Option<usize>>,
    /// The reconstructed source-to-target path, nonempty only after a
    /// successful search.
    pub path: Vec<usize>,
    /// Whether each node has been dequeued and expanded.
    pub visited: Vec<bool>,
    /// FIFO queue of discovered nodes awaiting expansion.
    pub frontier: VecDeque<usize>,
    /// Coarse phase of the engine.
    pub state: ModelState,
}

/// A vector of `n` `false` flags.
fn falses(n: usize) -> (v: Vec<bool>)
    ensures
        v@ == Seq::new(n as nat, |x: int| false),
{
    let mut v: Vec<bool> = Vec::new();
    let mut i: usize = 0;
    while i < n
        invariant
            i <= n,
            v@ == Seq::new(i as nat, |x: int| false),
        decreases n - i,
    {
        v.push(false);
        proof {
            assert(v@ =~= Seq::new((i + 1) as nat, |x: int| false));
        }
        i = i + 1;
    }
    v
}

/// A vector of `n` empty predecessor entries.
fn nones(n: usize) -> (v: Vec<Option<usize>>)
    ensures
        v@ == Seq::new(n as nat, |x: int| None::<usize>),
{
    let mut v: Vec<Option<usize>> = Vec::new();
    let mut i: usize = 0;
    while i < n
        invariant
            i <= n,
            v@ == Seq::new(i as nat, |x: int| None::<usize>),
        decreases n - i,
    {
        v.push(None);
        proof {
            assert(v@ =~= Seq::new((i + 1) as nat, |x: int| None::<usize>));
        }
        i = i + 1;
    }
    v
}

impl Model {
    /// Creates an engine over the given graph with the default endpoint
    /// selection: source 0 and target 1, ready to search, mirroring the
    /// state right after a retarget. A one-node graph degenerates to the
    /// single-node path at node 0; an empty graph starts idle with nothing
    /// to do.
    pub fn new(graph: Graph) -> (m: Model)
        requires
            graph.wf(),
        ensures
            m.wf(),
            m.graph == graph,
            m.visited@ == Seq::new(graph.n(), |x: int| false),
            m.predecessor@ == Seq::new(graph.n(), |x: int| None::<usize>),
            graph.n() >= 2 ==> m.source == 0 && m.target == 1 && m.frontier@ == seq![0usize]
                && m.path@.len() == 0 && m.state is Searching,
            graph.n() == 1 ==> m.source == 0 && m.target == 0 && m.frontier@.len() == 0
                && m.path@ == seq![0usize] && m.state is Idle,
            graph.n() == 0 ==> m.frontier@.len() == 0 && m.path@.len() == 0 && m.state is Idle,
    {
        let n = graph.positions.len();
        let visited = falses(n);
        let predecessor = nones(n);
        let mut frontier: VecDeque<usize> = VecDeque::new();
        let mut path: Vec<usize> = Vec::new();
        let state: ModelState;
        if n >= 2 {
            frontier.push_back(0);
            state = ModelState::Searching;
            proof {
                assert(frontier@ =~= seq![0usize]);
            }
        } else if n == 1 {
            path.push(0);
            state = ModelState::Idle;
            proof {
                assert(path@ =~= seq![0usize]);
            }
        } else {
            state = ModelState::Idle;
        }
        let target: usize = if n >= 2 {
            1
        } else {
            0
        };
        Model { graph, source: 0, target, predecessor, path, visited, frontier, state }
    }

    /// Creates an engine over a freshly generated random proximity graph,
    /// in the same initial state as [`Model::new`].
    pub fn new_random(n: usize, width: u64, height: u64, radius: i64, seed: u64) -> (m: Model)
        requires
            0 < width <= EXTENT_LIMIT,
            0 < height <= EXTENT_LIMIT,
            0 < radius <= RADIUS_LIMIT,
        ensures
            m.wf(),
            m.n() == n,
            forall|i: int|
                0 <= i < n ==> m.graph.pos(i) == gen_pos(seed, width, height, i as nat),
            forall|i: int|
                0 <= i < n ==> m.graph.row(i) == crate::graph::neighbor_row(
                    m.graph.positions@,
                    radius,
                    i,
                    n as nat,
                ),
            forall|i: usize, j: usize|
                #[trigger] m.graph.has_edge(i, j) <==> ((i as nat) < n && (j as nat) < n && i != j
                    && close(m.graph.pos(i as int), m.graph.pos(j as int), radius)),
            m.visited@ == Seq::new(n as nat, |x: int| false),
            m.predecessor@ == Seq::new(n as nat, |x: int| None::<usize>),
            n >= 2 ==> m.source == 0 && m.target == 1 && m.frontier@ == seq![0usize]
                && m.path@.len() == 0 && m.state is Searching,
            n == 1 ==> m.source == 0 && m.target == 0 && m.frontier@.len() == 0 && m.path@
                == seq![0usize] && m.state is Idle,
            n == 0 ==> m.frontier@.len() == 0 && m.path@.len() == 0 && m.state is Idle,
    {
        Model::new(Graph::new_random(n, width, height, radius, seed))
    }

    /// Selects new endpoints and resets the search: visited, predecessor
    /// and path are cleared, the frontier holds exactly the new source, and
    /// the engine is searching — except for the degenerate equal-endpoint
    /// selection, which completes immediately with the single-node path.
    /// A rejected selection leaves the engine untouched.
    pub fn retarget(&mut self, source: usize, target: usize) -> (r: Result<(), EngineError>)
        requires
            old(self).wf(),
        ensures
            final(self).wf(),
            final(self).graph == old(self).graph,
            old(self).n() == 0 ==> r == Err::<(), EngineError>(EngineError::EmptyGraph)
                && *final(self) == *old(self),
            old(self).n() > 0 && ((source as nat) >= old(self).n()
                || (target as nat) >= old(self).n()) ==> r == Err::<(), EngineError>(
                EngineError::InvalidNodeId,
            ) && *final(self) == *old(self),
            old(self).n() > 0 && (source as nat) < old(self).n() && (target as nat) < old(self).n()
                ==> {
                &&& r == Ok::<(), EngineError>(())
                &&& final(self).source == source
                &&& final(self).target == target
                &&& final(self).visited@ == Seq::new(old(self).n(), |x: int| false)
                &&& final(self).predecessor@ == Seq::new(old(self).n(), |x: int| None::<usize>)
                &&& (source == target ==> final(self).state is Idle && final(self).path@
                    == seq![source] && final(self).frontier@.len() == 0)
                &&& (source != target ==> final(self).state is Searching && final(self).path@.len()
                    == 0 && final(self).frontier@ == seq![source])
            },
    {
        let n = self.graph.positions.len();
        if n == 0 {
            return Err(EngineError::EmptyGraph);
        }
        if source >= n || target >= n {
            return Err(EngineError::InvalidNodeId);
        }
        self.visited = falses(n);
        self.predecessor = nones(n);
        self.path = Vec::new();
        self.frontier = VecDeque::new();
        self.source = source;
        self.target = target;
        if source == target {
            self.path.push(source);
            self.state = ModelState::Idle;
            proof {
                assert(self.path@ =~= seq![source]);
            }
        } else {
            self.frontier.push_back(source);
            self.state = ModelState::Searching;
            proof {
                assert(self.frontier@ =~= seq![source]);
            }
        }
        Ok(())
    }

    /// Performs one bounded unit of search work: dequeues the front of the
    /// frontier and either finishes with a reconstructed path (the dequeued
    /// node is the target and the predecessor walk succeeds), skips an
    /// already-visited node, or expands the node's unvisited neighbors onto
    /// the frontier, recording first discoveries. Idle engines and empty
    /// frontiers make the call a no-op that settles in `Idle`. The exact
    /// transition is [`step_rel`]; the visited set only ever grows and no
    /// predecessor entry is ever overwritten.
    #[verifier::loop_isolation(false)]
    pub fn shortest_path_step(&mut self)
        requires
            old(self).wf(),
        ensures
            final(self).wf(),
            step_rel(*old(self), *final(self)),
            forall|x: int|
                0 <= x < old(self).n() && old(self).visited@[x] ==> final(self).visited@[x],
            forall|x: int|
                0 <= x < old(self).n() && (#[trigger] old(self).predecessor@[x]) is Some
                    ==> final(self).predecessor@[x] == old(self).predecessor@[x],
            old(self).state is Idle ==> *final(self) == *old(self),
            old(self).state is Searching && old(self).frontier@.len() > 0
                && old(self).frontier@[0] == old(self).target ==> final(self).state is Idle
                && final(self).path@.len() > 0 && final(self).frontier@.len() == 0,
    {
        let ghost pre = *old(self);
        match self.state {
            ModelState::Idle => {
                return ;
            },
            ModelState::Searching => {},
        }
        if self.frontier.len() == 0 {
            self.state = ModelState::Idle;
            return ;
        }
        let current = self.frontier.pop_front().unwrap();
        proof {
            assert(self.frontier@ =~= pre.frontier@.drop_first());
            assert(current == pre.frontier@[0]);
            assert((current as nat) < pre.n());
        }
        if current == self.target {
            let fuel = self.predecessor.len();
            let rec = walk_back_exec(&self.predecessor, self.source, self.target, fuel);
            match rec {
                Some(p) => {
                    self.path = p;
                    self.frontier.clear();
                    self.state = ModelState::Idle;
                    proof {
                        lemma_walk_back_valid(
                            pre.graph,
                            pre.predecessor@,
                            pre.source,
                            pre.target,
                            pre.n(),
                        );
                        if pre.target == pre.source {
                            assert(self.path@ == seq![pre.source]);
                            assert(self.path@.no_duplicates());
                        } else {
                            assert(pre.predecessor@[pre.target as int] is Some);
                            assert(self.path@.no_duplicates());
                        }
                    }
                    return ;
                },
                None => {
                    proof {
                        if pre.target != pre.source {
                            assert(pre.frontier@[0] == pre.target);
                            assert(pre.predecessor@[pre.target as int] is Some);
                        }
                        assert(false);
                    }
                },
            }
        }
        if self.visited[current] {
            if self.frontier.len() == 0 {
                self.state = ModelState::Idle;
            } else {
                self.state = ModelState::Searching;
            }
            return ;
        }
        self.visited[current] = true;
        let ghost vis2 = self.visited@;
        let ghost row = pre.graph.row(current as int);
        let pred_count = self.predecessor.len();
        proof {
            assert(pred_count as nat == pre.predecessor@.len());
            // the source is expanded before anything else, so it is marked
            // by the time any discovery happens
            if !pre.visited@[pre.source as int] {
                assert(pre.frontier@.len() == 1 && pre.frontier@[0] == pre.source);
            }
            assert(vis2[pre.source as int]);
        }
        let row_len = self.graph.adj[current].len();
        let mut k: usize = 0;
        while k < row_len
            invariant
                k <= row_len,
                row_len == row.len(),
                self.graph == pre.graph,
                self.source == pre.source,
                self.target == pre.target,
                self.path == pre.path,
                self.state == pre.state,
                self.visited@ == vis2,
                self.predecessor@ == discover(pre.predecessor@, row.take(k as int), vis2, current),
                self.frontier@ == pre.frontier@.drop_first() + unvisited_neighbors(
                    row.take(k as int),
                    vis2,
                ),
                forall|t: int|
                    0 <= t < self.frontier@.len() ==> ((#[trigger] self.frontier@[t]) as nat)
                        < pre.n(),
                forall|t: int|
                    0 <= t < self.frontier@.len() ==> ((#[trigger] self.frontier@[t]) == pre.source
                        || self.predecessor@[self.frontier@[t] as int] is Some),
            decreases row_len - k,
        {
            let nb = self.graph.adj[current][k];
            proof {
                assert(nb == row[k as int]);
                assert(row.take(k as int + 1) =~= row.take(k as int).push(nb));
                assert((nb as nat) < pre.n());
                assert(row.take(k as int + 1).drop_last() =~= row.take(k as int));
            }
            let ghost dk = discover(pre.predecessor@, row.take(k as int), vis2, current);
            let ghost dk1 = discover(pre.predecessor@, row.take(k as int + 1), vis2, current);
            proof {
                lemma_discover_push(pre.predecessor@, row.take(k as int), vis2, current, nb);
            }
            if !self.visited[nb] {
                self.frontier.push_back(nb);
                if self.predecessor[nb].is_none() {
                    self.predecessor[nb] = Some(current);
                    proof {
                        assert(pre.predecessor@[nb as int] is None);
                        assert(self.predecessor@ == dk1);
                    }
                } else {
                    proof {
                        if pre.predecessor@[nb as int] is None {
                            assert(dk[nb as int] == Some(current));
                            assert(dk.update(nb as int, Some(current)) =~= dk);
                        }
                        assert(self.predecessor@ == dk1);
                    }
                }
                proof {
                    assert(unvisited_neighbors(row.take(k as int + 1), vis2) =~= unvisited_neighbors(
                        row.take(k as int),
                        vis2,
                    ).push(nb));
                    assert(self.frontier@ =~= pre.frontier@.drop_first() + unvisited_neighbors(
                        row.take(k as int + 1),
                        vis2,
                    ));
                }
            } else {
                proof {
                    assert(unvisited_neighbors(row.take(k as int + 1), vis2)
                        =~= unvisited_neighbors(row.take(k as int), vis2));
                    assert(self.predecessor@ == dk1);
                }
            }
            k = k + 1;
        }
        proof {
            assert(row.take(row_len as int) =~= row);
        }
        if self.frontier.len() == 0 {
            self.state = ModelState::Idle;
        } else {
            self.state = ModelState::Searching;
        }
        proof {
            let pred0 = pre.predecessor@;
            let predf = self.predecessor@;
            let nn = pre.n();
            assert forall|x: int|
                0 <= x < predf.len() && (#[trigger] predf[x]) is Some implies self.graph.has_edge(
                predf[x]->0,
                x as usize,
            ) by {
                if pred0[x] is Some {
                    assert(predf[x] == pred0[x]);
                } else {
                    assert(row.contains(x as usize));
                }
            }
            // entry bounds, for the chain lemmas
            assert forall|y: int|
                0 <= y < pred0.len() && (#[trigger] pred0[y]) is Some implies ((pred0[y]->0) as nat)
                < pred0.len() by {
                assert(pre.graph.has_edge(pred0[y]->0, y as usize));
            }
            // the source never gains an entry: it is already visited
            assert(predf[pre.source as int] == pred0[pre.source as int]);
            // every chain still reaches the source without repeating a node
            assert forall|x: int|
                0 <= x < predf.len() && (#[trigger] predf[x]) is Some implies walk_back(
                predf,
                pre.source,
                x as usize,
                nn,
            ) is Some && walk_back(predf, pre.source, x as usize, nn)->0.no_duplicates() by {
                if pred0[x] is Some {
                    lemma_walk_extension(pred0, predf, pre.source, x as usize, nn);
                } else {
                    // newly discovered from `current`: its chain is the
                    // chain of `current` with one more link
                    let xu = x as usize;
                    assert(predf[x] == Some(current));
                    assert(xu != pre.source);
                    if current == pre.source {
                        assert(walk_back(predf, pre.source, current, (nn - 1) as nat) == Some(
                            seq![pre.source],
                        ));
                        assert(walk_back(predf, pre.source, xu, nn) == Some(
                            seq![pre.source].push(xu),
                        ));
                        assert(seq![pre.source].push(xu).no_duplicates());
                    } else {
                        assert(pre.frontier@[0] == current);
                        assert(pred0[current as int] is Some);
                        let w = walk_back(pred0, pre.source, current, nn)->0;
                        lemma_walk_members(pred0, pre.source, current, nn, w);
                        lemma_bounded_no_dup_len(w, nn);
                        lemma_walk_fuel(pred0, pre.source, current, nn, (nn - 1) as nat);
                        lemma_walk_extension(pred0, predf, pre.source, current, (nn - 1) as nat);
                        assert(walk_back(predf, pre.source, current, (nn - 1) as nat) == Some(w));
                        assert(walk_back(predf, pre.source, xu, nn) == Some(w.push(xu)));
                        // `xu` lies on no existing chain: it had no entry
                        assert forall|i: int, j: int|
                            0 <= i < w.push(xu).len() && 0 <= j < w.push(xu).len() && i
                            != j implies w.push(xu)[i] != w.push(xu)[j] by {
                            let t = if i < w.len() { j } else { i };
                            if t >= w.len() {
                                let o = if i < w.len() { i } else { j };
                                assert(w.push(xu)[t] == xu);
                                assert(w.push(xu)[o] == w[o]);
                                if o == 0 {
                                    assert(w[0] == pre.source);
                                } else {
                                    assert(pred0[(w[o]) as int] is Some);
                                }
                            }
                        }
                        assert(w.push(xu).no_duplicates());
                    }
                }
            }
        }
    }
}

/// Whatever path a well-formed engine reports is a genuine walk of its
/// graph: it starts at the source, ends at the target, every consecutive
/// pair of nodes is an edge, and no node repeats.
pub proof fn lemma_path_is_valid(m: Model)
    requires
        m.wf(),
        m.path@.len() > 0,
    ensures
        is_search_path(m.graph, m.path@, m.source, m.target),
        m.path@.no_duplicates(),
{
}

/// When no walk of the graph joins the selected endpoints, a well-formed
/// engine can never report a path: its path stays empty.
pub proof fn lemma_unreachable_keeps_path_empty(m: Model)
    requires
        m.wf(),
        !connected(m.graph, m.source, m.target),
    ensures
        m.path@.len() == 0,
{
    if m.path@.len() > 0 {
        assert(is_search_path(m.graph, m.path@, m.source, m.target));
        assert(connected(m.graph, m.source, m.target));
    }
}

/// Executable form of `walk_back`, collecting the path into a vector.
fn walk_back_exec(pred: &Vec<Option<usize>>, s: usize, node: usize, fuel: usize) -> (r: Option<
    Vec<usize>,
>)
    requires
        (node as nat) < pred@.len(),
        forall|x: int|
            0 <= x < pred@.len() && (#[trigger] pred@[x]) is Some ==> ((pred@[x]->0) as nat)
                < pred@.len(),
    ensures
        match r {
            Some(v) => walk_back(pred@, s, node, fuel as nat) == Some(v@),
            None => walk_back(pred@, s, node, fuel as nat) is None,
        },
    decreases fuel,
{
    if node == s {
        let mut v: Vec<usize> = Vec::new();
        v.push(s);
        proof {
            assert(v@ =~= seq![s]);
        }
        Some(v)
    } else if fuel == 0 {
        None
    } else {
        match pred[node] {
            None => None,
            Some(p) => match walk_back_exec(pred, s, p, fuel - 1) {
                None => None,
                Some(mut rest) => {
                    rest.push(node);
                    Some(rest)
                },
            },
        }
    }
}

} // verus!
