use navgraph::geom::{Color, Scale, Translate};
use navgraph::graph::build;
use navgraph::math::{Vec2, Vec3, Vec4};
use navgraph::navigation::{advance_waypoint, navigate, nearest};

fn p(x: i32, y: i32) -> Vec2<i32> {
    Vec2 { x, y }
}

#[test]
fn nearest_picks_closest_node() {
    let nodes = vec![p(0, 0), p(100, 0), p(100, 100), p(0, 100)];
    assert_eq!(nearest(&nodes, &p(90, 20)), 1);
    assert_eq!(nearest(&nodes, &p(10, 95)), 3);
    assert_eq!(nearest(&nodes, &p(100, 100)), 2);
    assert_eq!(nearest(&vec![p(7, 7)], &p(-500, 300)), 0);
}

#[test]
fn nearest_breaks_ties_toward_lowest_index() {
    let nodes = vec![p(10, 0), p(-10, 0), p(0, 10), p(0, -10)];
    assert_eq!(nearest(&nodes, &p(0, 0)), 0);
    let nodes = vec![p(50, 50), p(0, 10), p(10, 0)];
    assert_eq!(nearest(&nodes, &p(0, 0)), 1);
}

#[test]
fn waypoint_advances_only_on_arrival() {
    let path = vec![4, 7, 9];
    assert_eq!(advance_waypoint(4, &path, 3, 5), 7);
    assert_eq!(advance_waypoint(4, &path, 5, 5), 7);
    assert_eq!(advance_waypoint(4, &path, 6, 5), 4);
    assert_eq!(advance_waypoint(4, &vec![4], 0, 5), 4);
    assert_eq!(advance_waypoint(4, &vec![], 0, 5), 4);
}

#[test]
fn navigate_steps_toward_cursor() {
    let nodes = vec![p(0, 0), p(1000, 0), p(1000, 1000), p(0, 1000)];
    let edges = vec![(0, 1), (1, 2), (2, 3), (3, 0), (0, 2)];
    let m = build(&nodes, &edges);

    let step = navigate(&nodes, &m, 0, &p(10, 5), &p(980, 1010), 50);
    assert_eq!(step.target, 2);
    assert_eq!(step.path, Some(vec![0, 2]));
    assert_eq!(step.waypoint, 2);

    let step = navigate(&nodes, &m, 0, &p(400, 400), &p(980, 1010), 50);
    assert_eq!(step.target, 2);
    assert_eq!(step.path, Some(vec![0, 2]));
    assert_eq!(step.waypoint, 0);

    let step = navigate(&nodes, &m, 2, &p(1000, 1000), &p(1010, 990), 50);
    assert_eq!(step.target, 2);
    assert_eq!(step.path, Some(vec![2]));
    assert_eq!(step.waypoint, 2);
}

#[test]
fn navigate_holds_without_path() {
    let nodes = vec![p(0, 0), p(100, 0), p(500, 500)];
    let m = build(&nodes, &vec![(0, 1)]);
    let step = navigate(&nodes, &m, 0, &p(0, 0), &p(490, 510), 10);
    assert_eq!(step.target, 2);
    assert_eq!(step.path, None);
    assert_eq!(step.waypoint, 0);
}

#[test]
fn column_reads_top_to_bottom() {
    let mat = [[1, 2, 3, 4], [5, 6, 7, 8], [9, 10, 11, 12], [13, 14, 15, 16]];
    assert_eq!(navgraph::math::column(&mat, 0), [1, 5, 9, 13]);
    assert_eq!(navgraph::math::column(&mat, 2), [3, 7, 11, 15]);
    assert_eq!(navgraph::math::column(&mat, 3), [4, 8, 12, 16]);
}

#[test]
fn vectors_fill_from_one_value() {
    let a: Vec2<i32> = Vec2::from(3);
    assert_eq!(a, Vec2 { x: 3, y: 3 });
    let b: Vec3<i32> = Vec3::from(-2);
    assert_eq!((b.x, b.y, b.z), (-2, -2, -2));
    let c: Vec4<u8> = Vec4::from(9);
    assert_eq!((c.x, c.y, c.z, c.w), (9, 9, 9, 9));
    let t: Translate<i32> = Translate::from(Vec2 { x: 1, y: 2 });
    assert_eq!(t.0, Vec2 { x: 1, y: 2 });
    let s: Scale<i32> = Scale::from(Vec2 { x: 4, y: 5 });
    assert_eq!(s.0, Vec2 { x: 4, y: 5 });
    let k: Color<u8> = Color::from(Vec4 { x: 1, y: 2, z: 3, w: 4 });
    assert_eq!((k.0.x, k.0.y, k.0.z, k.0.w), (1, 2, 3, 4));
}
