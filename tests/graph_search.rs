use navgraph::graph::{build, WeightMatrix};
use navgraph::math::{Distance, Vec2};
use navgraph::pathfinding::{dijkstra, shortest_path};

fn p(x: i32, y: i32) -> Vec2<i32> {
    Vec2 { x, y }
}

fn cost(m: &WeightMatrix, path: &[usize]) -> u64 {
    let mut total = 0u64;
    for k in 1..path.len() {
        total += m.get(path[k - 1], path[k]).expect("step along an edge");
    }
    total
}

fn is_valid(m: &WeightMatrix, path: &[usize], start: usize, end: usize) -> bool {
    !path.is_empty()
        && path[0] == start
        && *path.last().unwrap() == end
        && path.windows(2).all(|w| m.get(w[0], w[1]).is_some())
}

/// Square of side 1000 (hundredths of a unit), corners in order round it.
fn square() -> Vec<Vec2<i32>> {
    vec![p(0, 0), p(1000, 0), p(1000, 1000), p(0, 1000)]
}

/// A 3x3 grid of points 100 apart, joined to their 8 neighbours, with the
/// centre node left out so that many equal-cost routes exist.
fn ring_grid() -> (Vec<Vec2<i32>>, Vec<(usize, usize)>) {
    let mut nodes = Vec::new();
    for y in 0..3 {
        for x in 0..3 {
            if x != 1 || y != 1 {
                nodes.push(p(x * 100, y * 100));
            }
        }
    }
    let mut edges = Vec::new();
    for i in 0..nodes.len() {
        for j in (i + 1)..nodes.len() {
            let dx = (nodes[i].x - nodes[j].x).abs();
            let dy = (nodes[i].y - nodes[j].y).abs();
            if dx <= 100 && dy <= 100 {
                edges.push((i, j));
            }
        }
    }
    (nodes, edges)
}

/// Six nodes with a few detours, used for the exhaustive comparison.
fn six_nodes() -> (Vec<Vec2<i32>>, Vec<(usize, usize)>) {
    let nodes = vec![p(0, 0), p(300, 50), p(650, -20), p(900, 400), p(420, 610), p(120, 380)];
    let edges = vec![(0, 1), (1, 2), (2, 3), (3, 4), (4, 5), (5, 0), (1, 4), (0, 4), (2, 4), (1, 5)];
    (nodes, edges)
}

fn brute_force_min(m: &WeightMatrix, at: usize, end: usize, seen: &mut Vec<bool>, so_far: u64) -> Option<u64> {
    if at == end {
        return Some(so_far);
    }
    let mut best: Option<u64> = None;
    for next in 0..m.size() {
        if seen[next] {
            continue;
        }
        if let Some(w) = m.get(at, next) {
            seen[next] = true;
            if let Some(c) = brute_force_min(m, next, end, seen, so_far + w) {
                best = Some(best.map_or(c, |b| b.min(c)));
            }
            seen[next] = false;
        }
    }
    best
}

#[test]
fn distance_is_rounded_up_euclidean() {
    assert_eq!(p(0, 0).distance(&p(3, 4)), 5);
    assert_eq!(p(0, 0).distance(&p(1, 1)), 2);
    assert_eq!(p(5, 5).distance(&p(5, 5)), 0);
    assert_eq!(p(0, 0).distance(&p(1000, 1000)), 1415);
    assert_eq!(p(-7, 2).distance(&p(5, -3)), 13);
    assert_eq!(p(2, 9).distance(&p(-4, 1)), p(-4, 1).distance(&p(2, 9)));
}

#[test]
fn distance_at_coordinate_extremes() {
    let a = p(i32::MIN, i32::MIN);
    let b = p(i32::MAX, i32::MAX);
    let r = a.distance(&b) as u128;
    let side = (i32::MAX as i64 - i32::MIN as i64) as u128;
    let s = 2 * side * side;
    assert!(r * r >= s);
    assert!((r - 1) * (r - 1) < s);
}

#[test]
fn build_fills_matrix() {
    let nodes = vec![p(0, 0), p(3, 4), p(6, 0), p(10, 10)];
    let edges = vec![(0, 1), (2, 1)];
    let m = build(&nodes, &edges);
    assert_eq!(m.size(), 4);
    assert_eq!(m.cells.len(), 16);
    for i in 0..4 {
        assert_eq!(m.get(i, i), Some(0));
        for j in 0..4 {
            assert_eq!(m.get(i, j), m.get(j, i));
        }
    }
    assert_eq!(m.get(0, 1), Some(5));
    assert_eq!(m.get(1, 2), Some(5));
    assert_eq!(m.get(0, 2), None);
    assert_eq!(m.get(3, 0), None);
    assert_eq!(m.get(3, 1), None);
}

#[test]
fn build_is_repeatable() {
    let (nodes, edges) = six_nodes();
    let a = build(&nodes, &edges);
    let b = build(&nodes, &edges);
    assert_eq!(a.n, b.n);
    assert_eq!(a.cells, b.cells);
}

#[test]
fn build_accepts_repeated_and_reversed_edges() {
    let nodes = vec![p(0, 0), p(0, 7)];
    let m = build(&nodes, &vec![(0, 1), (1, 0), (0, 1)]);
    assert_eq!(m.get(0, 1), Some(7));
    assert_eq!(m.get(1, 0), Some(7));
}

#[test]
fn square_with_diagonal_takes_diagonal() {
    let nodes = square();
    let edges = vec![(0, 1), (1, 2), (2, 3), (3, 0), (0, 2)];
    let m = build(&nodes, &edges);
    let a = shortest_path(&nodes, &m, 0, 2).expect("connected");
    assert_eq!(a, vec![0, 2]);
    assert_eq!(cost(&m, &a), 1415);
    let d = dijkstra(&m, 0, 2).expect("connected");
    assert_eq!(d, vec![0, 2]);
    assert_eq!(cost(&m, &d), 1415);
}

#[test]
fn square_without_diagonal_goes_round() {
    let nodes = square();
    let edges = vec![(0, 1), (1, 2), (2, 3), (3, 0)];
    let m = build(&nodes, &edges);
    for path in [shortest_path(&nodes, &m, 0, 2), dijkstra(&m, 0, 2)] {
        let path = path.expect("connected");
        assert!(path == vec![0, 1, 2] || path == vec![0, 3, 2]);
        assert_eq!(cost(&m, &path), 2000);
    }
}

#[test]
fn self_query_is_single_node() {
    let (nodes, edges) = six_nodes();
    let m = build(&nodes, &edges);
    for k in 0..nodes.len() {
        assert_eq!(shortest_path(&nodes, &m, k, k), Some(vec![k]));
        assert_eq!(dijkstra(&m, k, k), Some(vec![k]));
    }
    let lone = vec![p(4, 4)];
    let m = build(&lone, &vec![]);
    assert_eq!(shortest_path(&lone, &m, 0, 0), Some(vec![0]));
}

#[test]
fn repeated_queries_agree() {
    let (nodes, edges) = ring_grid();
    let m = build(&nodes, &edges);
    for s in 0..nodes.len() {
        for e in 0..nodes.len() {
            let first = shortest_path(&nodes, &m, s, e);
            let second = shortest_path(&nodes, &m, s, e);
            assert_eq!(first, second);
            assert_eq!(dijkstra(&m, s, e), dijkstra(&m, s, e));
        }
    }
}

#[test]
fn every_path_is_valid() {
    let (nodes, edges) = ring_grid();
    let m = build(&nodes, &edges);
    for s in 0..nodes.len() {
        for e in 0..nodes.len() {
            let a = shortest_path(&nodes, &m, s, e).expect("connected");
            assert!(is_valid(&m, &a, s, e));
            let d = dijkstra(&m, s, e).expect("connected");
            assert!(is_valid(&m, &d, s, e));
        }
    }
}

#[test]
fn paths_match_exhaustive_search() {
    let (nodes, edges) = six_nodes();
    let m = build(&nodes, &edges);
    for s in 0..nodes.len() {
        for e in 0..nodes.len() {
            let mut seen = vec![false; nodes.len()];
            seen[s] = true;
            let best = brute_force_min(&m, s, e, &mut seen, 0).expect("connected");
            let a = shortest_path(&nodes, &m, s, e).expect("connected");
            assert_eq!(cost(&m, &a), best);
            let d = dijkstra(&m, s, e).expect("connected");
            assert_eq!(cost(&m, &d), best);
        }
    }
}

#[test]
fn dijkstra_and_astar_costs_agree() {
    let (nodes, edges) = ring_grid();
    let m = build(&nodes, &edges);
    for s in 0..nodes.len() {
        for e in 0..nodes.len() {
            let a = shortest_path(&nodes, &m, s, e).expect("connected");
            let d = dijkstra(&m, s, e).expect("connected");
            assert_eq!(cost(&m, &a), cost(&m, &d));
        }
    }
}

#[test]
fn reversed_queries_cost_the_same() {
    let (nodes, edges) = six_nodes();
    let m = build(&nodes, &edges);
    for s in 0..nodes.len() {
        for e in 0..nodes.len() {
            let fwd = shortest_path(&nodes, &m, s, e).expect("connected");
            let back = shortest_path(&nodes, &m, e, s).expect("connected");
            assert_eq!(cost(&m, &fwd), cost(&m, &back));
        }
    }
}

#[test]
fn reversed_query_without_ties_is_the_reverse() {
    let nodes = vec![p(0, 0), p(100, 10), p(230, -5), p(310, 40)];
    let edges = vec![(0, 1), (1, 2), (2, 3), (0, 2)];
    let m = build(&nodes, &edges);
    let fwd = dijkstra(&m, 0, 3).expect("connected");
    let mut back = dijkstra(&m, 3, 0).expect("connected");
    back.reverse();
    assert_eq!(fwd, back);
    assert_eq!(fwd, vec![0, 2, 3]);
}

#[test]
fn disconnected_graph_has_no_path() {
    let nodes = vec![p(0, 0), p(10, 0), p(20, 0), p(100, 100), p(110, 100)];
    let edges = vec![(0, 1), (1, 2), (3, 4)];
    let m = build(&nodes, &edges);
    for s in 0..3 {
        for e in 3..5 {
            assert_eq!(shortest_path(&nodes, &m, s, e), None);
            assert_eq!(dijkstra(&m, s, e), None);
            assert_eq!(shortest_path(&nodes, &m, e, s), None);
            assert_eq!(dijkstra(&m, e, s), None);
        }
    }
    assert_eq!(dijkstra(&m, 0, 2), Some(vec![0, 1, 2]));
    assert_eq!(dijkstra(&m, 4, 3), Some(vec![4, 3]));
}

#[test]
fn isolated_node_has_no_path() {
    let nodes = vec![p(0, 0), p(5, 5)];
    let m = build(&nodes, &vec![]);
    assert_eq!(dijkstra(&m, 0, 1), None);
    assert_eq!(shortest_path(&nodes, &m, 1, 0), None);
}

#[test]
fn zero_length_edges_are_followed() {
    let nodes = vec![p(0, 0), p(0, 0), p(0, 0), p(3, 4)];
    let edges = vec![(0, 1), (1, 2), (2, 0), (2, 3)];
    let m = build(&nodes, &edges);
    let path = dijkstra(&m, 0, 3).expect("connected");
    assert!(is_valid(&m, &path, 0, 3));
    assert_eq!(cost(&m, &path), 5);
    let path = shortest_path(&nodes, &m, 1, 3).expect("connected");
    assert_eq!(cost(&m, &path), 5);
}

#[test]
fn hand_built_matrix_is_searched() {
    let m = WeightMatrix {
        n: 3,
        cells: vec![Some(0), Some(9), Some(2), Some(9), Some(0), None, Some(2), Some(4), Some(0)],
    };
    assert_eq!(dijkstra(&m, 0, 1), Some(vec![0, 2, 1]));
    assert_eq!(dijkstra(&m, 1, 2), Some(vec![1, 0, 2]));
}
