use proximity_bfs::graph::{Graph, Pos};

fn pos(x: i64, y: i64) -> Pos {
    Pos { x, y }
}

#[test]
fn adjacency_is_symmetric() {
    let positions = vec![pos(0, 0), pos(10, 0), pos(20, 5), pos(500, 500), pos(12, 3)];
    let g = Graph::from_positions(positions, 15);
    let n = g.adj.len();
    assert_eq!(n, 5);
    for i in 0..n {
        for j in 0..n {
            let ij = g.adj[i].contains(&j);
            let ji = g.adj[j].contains(&i);
            assert_eq!(ij, ji, "edge {}-{} not symmetric", i, j);
        }
    }
}

#[test]
fn no_self_loops() {
    let positions = vec![pos(0, 0), pos(1, 1), pos(2, 2), pos(3, 3)];
    let g = Graph::from_positions(positions, 1000);
    for i in 0..g.adj.len() {
        assert!(!g.adj[i].contains(&i), "node {} lists itself", i);
    }
}

#[test]
fn edge_rule_is_strict_distance_threshold() {
    // Two nodes exactly 10 apart: an edge appears only for a radius
    // strictly above the distance.
    let g_far = Graph::from_positions(vec![pos(0, 0), pos(10, 0)], 10);
    assert_eq!(g_far.adj[0], Vec::<usize>::new());
    assert_eq!(g_far.adj[1], Vec::<usize>::new());

    let g_near = Graph::from_positions(vec![pos(0, 0), pos(10, 0)], 11);
    assert_eq!(g_near.adj[0], vec![1]);
    assert_eq!(g_near.adj[1], vec![0]);
}

#[test]
fn neighbor_rows_are_in_increasing_id_order() {
    // A tight cluster: every row lists all other nodes, in ID order.
    let positions = vec![pos(0, 0), pos(1, 0), pos(0, 1), pos(1, 1)];
    let g = Graph::from_positions(positions, 50);
    assert_eq!(g.adj[0], vec![1, 2, 3]);
    assert_eq!(g.adj[1], vec![0, 2, 3]);
    assert_eq!(g.adj[2], vec![0, 1, 3]);
    assert_eq!(g.adj[3], vec![0, 1, 2]);
}

#[test]
fn empty_graph_builds_without_error() {
    let g = Graph::from_positions(Vec::new(), 100);
    assert_eq!(g.positions.len(), 0);
    assert_eq!(g.adj.len(), 0);
}

#[test]
fn random_build_is_deterministic_in_the_seed() {
    let a = Graph::new_random(40, 1000, 1000, 100, 12345);
    let b = Graph::new_random(40, 1000, 1000, 100, 12345);
    assert_eq!(a.positions.len(), 40);
    assert_eq!(a.positions, b.positions);
    assert_eq!(a.adj, b.adj);

    let c = Graph::new_random(40, 1000, 1000, 100, 54321);
    assert_ne!(a.positions, c.positions);
}

#[test]
fn random_positions_stay_in_the_requested_rectangle() {
    let g = Graph::new_random(100, 1000, 600, 100, 7);
    for p in &g.positions {
        assert!(-500 <= p.x && p.x < 500, "x out of range: {}", p.x);
        assert!(-300 <= p.y && p.y < 300, "y out of range: {}", p.y);
    }
}

fn scramble(s: u64) -> u64 {
    let a = s ^ (s << 13);
    let b = a ^ (a >> 7);
    b ^ (b << 17)
}

#[test]
fn first_random_position_matches_the_generator_formula() {
    let seed: u64 = 42;
    let mut s = seed | 1;
    s = scramble(s);
    let x = (s % 1000) as i64 - 500;
    s = scramble(s);
    let y = (s % 600) as i64 - 300;
    let g = Graph::new_random(1, 1000, 600, 100, seed);
    assert_eq!(g.positions[0], Pos { x, y });
}

#[test]
fn random_graph_is_symmetric_and_loop_free() {
    let g = Graph::new_random(60, 1000, 1000, 150, 99);
    let n = g.adj.len();
    assert_eq!(n, 60);
    for i in 0..n {
        assert!(!g.adj[i].contains(&i));
        for j in 0..n {
            assert_eq!(g.adj[i].contains(&j), g.adj[j].contains(&i));
        }
    }
}
