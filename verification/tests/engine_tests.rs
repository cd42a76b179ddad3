use proximity_bfs::engine::{EngineError, Model, ModelState};
use proximity_bfs::graph::{Graph, Pos};

fn pos(x: i64, y: i64) -> Pos {
    Pos { x, y }
}

/// A line graph 0-1-2-3-4: consecutive nodes 10 apart, radius 15.
fn line_graph() -> Graph {
    let positions = vec![pos(0, 0), pos(10, 0), pos(20, 0), pos(30, 0), pos(40, 0)];
    Graph::from_positions(positions, 15)
}

/// Two clusters far apart: {0, 1} and {2, 3}.
fn split_graph() -> Graph {
    let positions = vec![pos(0, 0), pos(10, 0), pos(1000, 0), pos(1010, 0)];
    Graph::from_positions(positions, 15)
}

/// A triangle: all three nodes mutually adjacent.
fn triangle_graph() -> Graph {
    let positions = vec![pos(0, 0), pos(10, 0), pos(5, 8)];
    Graph::from_positions(positions, 15)
}

/// Drives the engine until it goes idle, with a safety bound on calls.
fn run_to_idle(m: &mut Model) {
    for _ in 0..1000 {
        if m.state == ModelState::Idle {
            return;
        }
        m.shortest_path_step();
    }
    panic!("search did not settle");
}

#[test]
fn initial_state_is_searching_from_node_zero() {
    let m = Model::new(line_graph());
    assert_eq!(m.source, 0);
    assert_eq!(m.target, 1);
    assert_eq!(m.state, ModelState::Searching);
    assert_eq!(m.frontier, std::collections::VecDeque::from(vec![0usize]));
    assert!(m.path.is_empty());
    assert!(m.visited.iter().all(|&v| !v));
    assert!(m.predecessor.iter().all(|p| p.is_none()));
}

#[test]
fn line_graph_yields_the_shortest_path() {
    let mut m = Model::new(line_graph());
    assert!(m.retarget(0, 4).is_ok());
    run_to_idle(&mut m);
    assert_eq!(m.path, vec![0, 1, 2, 3, 4]);
}

#[test]
fn adjacent_endpoints_finish_in_three_steps() {
    // retarget(1, 2): step one expands node 1 and discovers 0 and 2; step
    // two expands node 0, discovered first; step three dequeues the target.
    let mut m = Model::new(line_graph());
    assert!(m.retarget(1, 2).is_ok());
    m.shortest_path_step();
    assert_eq!(m.state, ModelState::Searching);
    m.shortest_path_step();
    assert_eq!(m.state, ModelState::Searching);
    m.shortest_path_step();
    assert_eq!(m.state, ModelState::Idle);
    assert_eq!(m.path, vec![1, 2]);
    assert!(m.frontier.is_empty());
}

#[test]
fn triangle_path_takes_the_direct_edge() {
    let mut m = Model::new(triangle_graph());
    assert!(m.retarget(0, 2).is_ok());
    run_to_idle(&mut m);
    assert_eq!(m.path, vec![0, 2]);
}

#[test]
fn degenerate_equal_endpoints_go_idle_immediately() {
    let mut m = Model::new(line_graph());
    assert!(m.retarget(2, 2).is_ok());
    assert_eq!(m.state, ModelState::Idle);
    assert_eq!(m.path, vec![2]);
    assert!(m.frontier.is_empty());
}

#[test]
fn unreachable_target_drains_to_idle_with_empty_path() {
    let mut m = Model::new(split_graph());
    assert!(m.retarget(0, 3).is_ok());
    run_to_idle(&mut m);
    assert_eq!(m.state, ModelState::Idle);
    assert!(m.frontier.is_empty());
    assert!(m.path.is_empty());
}

#[test]
fn visited_only_grows_across_steps() {
    let mut m = Model::new(line_graph());
    assert!(m.retarget(0, 4).is_ok());
    let mut seen: Vec<bool> = m.visited.clone();
    for _ in 0..50 {
        m.shortest_path_step();
        for i in 0..seen.len() {
            assert!(!seen[i] || m.visited[i], "node {} left the visited set", i);
        }
        seen = m.visited.clone();
    }
}

#[test]
fn predecessor_entries_are_written_once() {
    let mut m = Model::new(triangle_graph());
    assert!(m.retarget(0, 2).is_ok());
    let mut recorded: Vec<Option<usize>> = m.predecessor.clone();
    for _ in 0..50 {
        m.shortest_path_step();
        for i in 0..recorded.len() {
            if recorded[i].is_some() {
                assert_eq!(recorded[i], m.predecessor[i], "predecessor of {} rewritten", i);
            }
        }
        recorded = m.predecessor.clone();
    }
    assert!(m.predecessor[0].is_none(), "the source gained a predecessor");
}

#[test]
fn retarget_resets_all_search_state() {
    let mut m = Model::new(line_graph());
    assert!(m.retarget(0, 4).is_ok());
    m.shortest_path_step();
    m.shortest_path_step();
    assert!(m.visited.iter().any(|&v| v), "prior search should have visited nodes");
    assert!(m.predecessor.iter().any(|p| p.is_some()));

    assert!(m.retarget(3, 0).is_ok());
    assert!(m.visited.iter().all(|&v| !v));
    assert!(m.predecessor.iter().all(|p| p.is_none()));
    assert!(m.path.is_empty());
    assert_eq!(m.frontier, std::collections::VecDeque::from(vec![3usize]));
    assert_eq!(m.source, 3);
    assert_eq!(m.target, 0);
    assert_eq!(m.state, ModelState::Searching);
}

#[test]
fn idle_step_changes_nothing() {
    let mut m = Model::new(line_graph());
    assert!(m.retarget(0, 4).is_ok());
    run_to_idle(&mut m);
    let visited = m.visited.clone();
    let predecessor = m.predecessor.clone();
    let path = m.path.clone();
    let frontier = m.frontier.clone();
    let (source, target, state) = (m.source, m.target, m.state);
    m.shortest_path_step();
    assert_eq!(m.visited, visited);
    assert_eq!(m.predecessor, predecessor);
    assert_eq!(m.path, path);
    assert_eq!(m.frontier, frontier);
    assert_eq!(m.source, source);
    assert_eq!(m.target, target);
    assert_eq!(m.state, state);
}

#[test]
fn out_of_range_endpoint_is_rejected_and_state_kept() {
    let mut m = Model::new(line_graph());
    assert!(m.retarget(0, 4).is_ok());
    m.shortest_path_step();
    let visited = m.visited.clone();
    let frontier = m.frontier.clone();
    assert_eq!(m.retarget(5, 0), Err(EngineError::InvalidNodeId));
    assert_eq!(m.retarget(0, 99), Err(EngineError::InvalidNodeId));
    assert_eq!(m.visited, visited);
    assert_eq!(m.frontier, frontier);
    assert_eq!(m.source, 0);
    assert_eq!(m.target, 4);
    assert_eq!(m.state, ModelState::Searching);
}

#[test]
fn empty_graph_rejects_search_and_ignores_steps() {
    let mut m = Model::new(Graph::from_positions(Vec::new(), 100));
    assert_eq!(m.state, ModelState::Idle);
    assert_eq!(m.retarget(0, 0), Err(EngineError::EmptyGraph));
    m.shortest_path_step();
    assert_eq!(m.state, ModelState::Idle);
    assert!(m.path.is_empty());
    assert!(m.frontier.is_empty());
}

#[test]
fn single_node_graph_starts_with_its_own_path() {
    let m = Model::new(Graph::from_positions(vec![pos(0, 0)], 100));
    assert_eq!(m.state, ModelState::Idle);
    assert_eq!(m.path, vec![0]);
}

#[test]
fn duplicate_frontier_entries_drain_one_per_step() {
    // A triangle plus an isolated target: node 2 is discovered by both 0
    // and 1, so it is enqueued twice; its second dequeue is a visited-skip
    // step, and the drained search ends idle with no path.
    let positions = vec![pos(0, 0), pos(10, 0), pos(5, 8), pos(500, 500)];
    let mut m = Model::new(Graph::from_positions(positions, 15));
    assert!(m.retarget(0, 3).is_ok());
    run_to_idle(&mut m);
    assert_eq!(m.state, ModelState::Idle);
    assert!(m.path.is_empty());
    assert!(m.frontier.is_empty());
    // The whole component of the source was explored.
    assert_eq!(m.visited, vec![true, true, true, false]);
}

#[test]
fn random_model_searches_its_own_graph() {
    let mut m = Model::new_random(30, 1000, 1000, 300, 424242);
    let n = m.graph.adj.len();
    assert_eq!(n, 30);
    assert!(m.retarget(0, n - 1).is_ok());
    run_to_idle(&mut m);
    // Whatever the outcome, a reported path must be a genuine walk of the
    // graph between the endpoints.
    if !m.path.is_empty() {
        assert_eq!(m.path[0], 0);
        assert_eq!(*m.path.last().unwrap(), n - 1);
        for w in m.path.windows(2) {
            assert!(m.graph.adj[w[0]].contains(&w[1]));
        }
    }
}
