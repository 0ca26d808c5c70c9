use voxel_dda::{floor_div, segment_in_range, voxel_traversal_fixed, FixedPoint, Segment, Traversal, Triple};

fn pt(x: i64, y: i64, z: i64) -> FixedPoint {
    FixedPoint { x, y, z }
}

fn seg(start: FixedPoint, end: FixedPoint, scale: i64) -> Segment {
    Segment { start, end, scale }
}

/// Every visit of the walk, with a cap so that a walk that runs away stops.
fn walk(s: Segment, cap: usize) -> Vec<(Triple, Triple)> {
    let mut t = Traversal::new(s);
    let mut out = Vec::new();
    while out.len() < cap {
        match t.next_visit() {
            Some(v) => out.push(v),
            None => break,
        }
    }
    out
}

/// Every visit made through the visitor-driven driver.
fn drive(start: FixedPoint, end: FixedPoint, scale: i64) -> (u64, Vec<(Triple, Triple)>) {
    let mut seen = Vec::new();
    let n = voxel_traversal_fixed(start, end, scale, |v: Triple, m: Triple| {
        seen.push((v, m));
        false
    });
    (n, seen)
}

fn manhattan(a: Triple, b: Triple) -> i64 {
    (a.0 as i64 - b.0 as i64).abs() + (a.1 as i64 - b.1 as i64).abs() + (a.2 as i64 - b.2 as i64).abs()
}

#[test]
fn axis_aligned_ray() {
    let (n, seen) = drive(pt(1, 1, 1), pt(7, 1, 1), 2);
    assert_eq!(n, 4);
    assert_eq!(
        seen,
        vec![
            ((0, 0, 0), (0, 0, 0)),
            ((1, 0, 0), (-1, 0, 0)),
            ((2, 0, 0), (-1, 0, 0)),
            ((3, 0, 0), (-1, 0, 0)),
        ]
    );
}

#[test]
fn origin_first_with_negative_coordinates() {
    // start (-0.5, 2.25, -3.0), end (4.75, -1.5, 2.0), in quarters
    let s = seg(pt(-2, 9, -12), pt(19, -6, 8), 4);
    let visits = walk(s, 1000);
    assert_eq!(visits[0], ((-1, 2, -3), (0, 0, 0)));
}

#[test]
fn termination_last_and_count() {
    // start (0.3, 0.7, 0.1), end (5.9, 3.2, -2.6), in tenths
    let s = seg(pt(3, 7, 1), pt(59, 32, -26), 10);
    let visits = walk(s, 1000);
    let first = visits[0].0;
    let last = visits[visits.len() - 1].0;
    assert_eq!(first, (0, 0, 0));
    assert_eq!(last, (5, 3, -3));
    assert_eq!(visits.len() as i64, 1 + manhattan(first, last));
    assert_eq!(visits.len(), 12);
}

#[test]
fn consecutive_voxels_are_face_neighbours() {
    let s = seg(pt(-17, 40, 3), pt(90, -33, 71), 8);
    let visits = walk(s, 10000);
    assert!(visits.len() > 1);
    for w in visits.windows(2) {
        assert_eq!(manhattan(w[0].0, w[1].0), 1);
    }
}

#[test]
fn normals_point_back_to_the_voxel_left() {
    let s = seg(pt(-17, 40, 3), pt(90, -33, 71), 8);
    let visits = walk(s, 10000);
    for w in visits.windows(2) {
        let (prev, (v, m)) = (w[0].0, w[1]);
        assert_eq!(manhattan((0, 0, 0), m), 1);
        assert_eq!((v.0 + m.0, v.1 + m.1, v.2 + m.2), prev);
    }
    // travel is up in x, down in y, up in z
    assert!(visits[1..].iter().all(|(_, m)| *m == (-1, 0, 0) || *m == (0, 1, 0) || *m == (0, 0, -1)));
}

#[test]
fn degenerate_single_voxel() {
    let p = pt(5, -3, 11);
    let (n, seen) = drive(p, p, 4);
    assert_eq!(n, 1);
    assert_eq!(seen, vec![((1, -1, 2), (0, 0, 0))]);
    let mut t = Traversal::new(seg(p, p, 4));
    assert_eq!(t.next_visit(), Some(((1, -1, 2), (0, 0, 0))));
    assert_eq!(t.next_visit(), None);
    assert_eq!(t.next_visit(), None);
}

#[test]
fn early_stop_after_nth_visit() {
    for stop_at in 1..=4usize {
        let mut calls = 0usize;
        let n = voxel_traversal_fixed(pt(1, 1, 1), pt(7, 1, 1), 2, |_v: Triple, _m: Triple| {
            calls += 1;
            calls == stop_at
        });
        assert_eq!(n as usize, stop_at);
        assert_eq!(calls, stop_at);
    }
}

#[test]
fn visitor_that_never_stops_sees_whole_walk() {
    let (n, seen) = drive(pt(3, 7, 1), pt(59, 32, -26), 10);
    assert_eq!(n, 12);
    assert_eq!(seen.len(), 12);
    assert_eq!(seen, walk(seg(pt(3, 7, 1), pt(59, 32, -26), 10), 1000));
}

#[test]
fn tie_on_x_and_y_steps_y_first() {
    // (0.5, 0.5, 0.5) to (1.5, 1.5, 0.5)
    let visits = walk(seg(pt(1, 1, 1), pt(3, 3, 1), 2), 100);
    assert_eq!(
        visits,
        vec![((0, 0, 0), (0, 0, 0)), ((0, 1, 0), (0, -1, 0)), ((1, 1, 0), (-1, 0, 0))]
    );
}

#[test]
fn tie_on_all_axes_steps_z_then_y_then_x() {
    // (0.5, 0.5, 0.5) to (1.5, 1.5, 1.5)
    let visits = walk(seg(pt(1, 1, 1), pt(3, 3, 3), 2), 100);
    assert_eq!(
        visits,
        vec![
            ((0, 0, 0), (0, 0, 0)),
            ((0, 0, 1), (0, 0, -1)),
            ((0, 1, 1), (0, -1, 0)),
            ((1, 1, 1), (-1, 0, 0)),
        ]
    );
}

#[test]
fn tie_on_x_and_z_steps_x_first() {
    // (0.5, 0.5, 0.5) to (1.5, 0.5, 1.5)
    let visits = walk(seg(pt(1, 1, 1), pt(3, 1, 3), 2), 100);
    assert_eq!(
        visits,
        vec![((0, 0, 0), (0, 0, 0)), ((1, 0, 0), (-1, 0, 0)), ((1, 0, 1), (0, 0, -1))]
    );
}

#[test]
fn tie_on_x_and_z_below_y_steps_x_first() {
    // (0.5, 0.25, 0.5) to (1.5, 0.75, 1.5)
    let (n, seen) = drive(pt(2, 1, 2), pt(6, 3, 6), 4);
    assert_eq!(n, 3);
    assert_eq!(
        seen,
        vec![((0, 0, 0), (0, 0, 0)), ((1, 0, 0), (-1, 0, 0)), ((1, 0, 1), (0, 0, -1))]
    );
}

#[test]
fn two_axis_ray_visits_in_crossing_order() {
    // (0.5, 0.5, 0.5) to (2.5, 1.75, 0.5)
    let (n, seen) = drive(pt(2, 2, 2), pt(10, 7, 2), 4);
    assert_eq!(n, 4);
    assert_eq!(
        seen,
        vec![
            ((0, 0, 0), (0, 0, 0)),
            ((1, 0, 0), (-1, 0, 0)),
            ((1, 1, 0), (0, -1, 0)),
            ((2, 1, 0), (-1, 0, 0)),
        ]
    );
}

#[test]
fn mixed_direction_ray_visits_in_crossing_order() {
    // (0.25, 0.5, 0.75) to (-0.75, 1.25, 1.5): x at t = 1/4, z at 1/3, y at 2/3
    let (n, seen) = drive(pt(1, 2, 3), pt(-3, 5, 6), 4);
    assert_eq!(n, 4);
    assert_eq!(
        seen,
        vec![
            ((0, 0, 0), (0, 0, 0)),
            ((-1, 0, 0), (1, 0, 0)),
            ((-1, 0, 1), (0, 0, -1)),
            ((-1, 1, 1), (0, -1, 0)),
        ]
    );
}

#[test]
fn downward_ray_reports_positive_normals() {
    // (2.5, 0.5, 0.5) to (0.5, 0.5, 0.5)
    let (n, seen) = drive(pt(5, 1, 1), pt(1, 1, 1), 2);
    assert_eq!(n, 3);
    assert_eq!(
        seen,
        vec![((2, 0, 0), (0, 0, 0)), ((1, 0, 0), (1, 0, 0)), ((0, 0, 0), (1, 0, 0))]
    );
}

#[test]
fn start_on_plane_moving_down_crosses_it_at_once() {
    // (1.0, 0.5, 0.5) to (0.5, 0.5, 0.5)
    let visits = walk(seg(pt(2, 1, 1), pt(1, 1, 1), 2), 100);
    assert_eq!(visits, vec![((1, 0, 0), (0, 0, 0)), ((0, 0, 0), (1, 0, 0))]);
}

#[test]
fn end_on_plane_moving_up_enters_that_voxel() {
    // (0.5, 0.5, 0.5) to (1.0, 0.5, 0.5)
    let visits = walk(seg(pt(1, 1, 1), pt(2, 1, 1), 2), 100);
    assert_eq!(visits, vec![((0, 0, 0), (0, 0, 0)), ((1, 0, 0), (-1, 0, 0))]);
}

#[test]
fn end_on_two_planes_stops_in_end_voxel() {
    // (0.5, 0.5, 1.5) to (1.0, 0.5, 1.0): the crossings of x and z both fall at the
    // end point; z has already arrived and is not stepped.
    let (n, seen) = drive(pt(1, 1, 3), pt(2, 1, 2), 2);
    assert_eq!(n, 2);
    assert_eq!(seen, vec![((0, 0, 1), (0, 0, 0)), ((1, 0, 1), (-1, 0, 0))]);
}

#[test]
fn end_on_edge_moving_down_in_y_stops_in_end_voxel() {
    // (0.5, 0.5, 0.5) to (1.0, 0.0, 0.5)
    let (n, seen) = drive(pt(1, 1, 1), pt(2, 0, 1), 2);
    assert_eq!(n, 2);
    assert_eq!(seen, vec![((0, 0, 0), (0, 0, 0)), ((1, 0, 0), (-1, 0, 0))]);
}

#[test]
fn visitor_stopping_on_last_voxel_sees_every_voxel_once() {
    let mut seen = Vec::new();
    let n = voxel_traversal_fixed(pt(1, 1, 1), pt(7, 1, 1), 2, |v: Triple, _m: Triple| {
        seen.push(v);
        v == (3, 0, 0)
    });
    assert_eq!(n, 4);
    assert_eq!(seen, vec![(0, 0, 0), (1, 0, 0), (2, 0, 0), (3, 0, 0)]);
}

#[test]
fn single_voxel_with_negative_coordinates() {
    // (-0.5, 2.25, -3.0) to the same point
    let (n, seen) = drive(pt(-2, 9, -12), pt(-2, 9, -12), 4);
    assert_eq!(n, 1);
    assert_eq!(seen, vec![((-1, 2, -3), (0, 0, 0))]);
}

#[test]
fn planar_ray_never_moves_on_its_flat_axis() {
    // (0.25, 0.75, 2.5) to (2.75, 3.25, 2.5)
    let visits = walk(seg(pt(1, 3, 10), pt(11, 13, 10), 4), 100);
    assert!(visits.iter().all(|(v, m)| v.2 == 2 && m.2 == 0));
    assert_eq!(visits.len() as i64, 1 + manhattan(visits[0].0, (2, 3, 2)));
    assert_eq!(visits[visits.len() - 1].0, (2, 3, 2));
}

#[test]
fn floor_div_rounds_down() {
    assert_eq!(floor_div(5, 2), 2);
    assert_eq!(floor_div(-5, 2), -3);
    assert_eq!(floor_div(-1, 2), -1);
    assert_eq!(floor_div(-2, 2), -1);
    assert_eq!(floor_div(0, 7), 0);
    assert_eq!(floor_div(i64::MIN, 1), i64::MIN);
}

#[test]
fn segment_in_range_rejects_bad_scale_and_far_points() {
    assert!(segment_in_range(&seg(pt(0, 0, 0), pt(1, 1, 1), 1)));
    assert!(!segment_in_range(&seg(pt(0, 0, 0), pt(1, 1, 1), 0)));
    assert!(!segment_in_range(&seg(pt(0, 0, 0), pt(1, 1, 1), (1 << 30) + 1)));
    let limit: i64 = 1 << 31;
    assert!(segment_in_range(&seg(pt(limit - 1, 0, 0), pt(-limit, 0, 0), 1)));
    assert!(!segment_in_range(&seg(pt(limit, 0, 0), pt(0, 0, 0), 1)));
    assert!(!segment_in_range(&seg(pt(0, 0, 0), pt(0, -limit * 2 - 1, 0), 2)));
}
