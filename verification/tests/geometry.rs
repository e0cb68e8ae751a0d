use routinglib::geometry::{orientation, LineSegment, Point, Rect};
use routinglib::geometry::COST_SCALE;
use routinglib::math::isqrt;

fn seg(x1: i32, y1: i32, x2: i32, y2: i32) -> LineSegment {
    LineSegment::new(Point::new(x1, y1), Point::new(x2, y2))
}

#[test]
fn isqrt_rounds_down() {
    assert_eq!(isqrt(0), 0);
    assert_eq!(isqrt(1), 1);
    assert_eq!(isqrt(2), 1);
    assert_eq!(isqrt(3), 1);
    assert_eq!(isqrt(4), 2);
    assert_eq!(isqrt(15), 3);
    assert_eq!(isqrt(16), 4);
    assert_eq!(isqrt(17), 4);
    assert_eq!(isqrt(41_000_000), 6403);
    assert_eq!(isqrt(u128::MAX), u64::MAX);
}

#[test]
fn distance_is_euclidean_rounded_down() {
    assert_eq!(Point::new(0, 0).distance_to(Point::new(3, 4)), 5);
    assert_eq!(Point::new(3, 4).distance_to(Point::new(0, 0)), 5);
    assert_eq!(Point::new(0, 0).distance_to(Point::new(1, 1)), 1);
    assert_eq!(Point::new(0, 0).distance_to(Point::new(2, 2)), 2);
    assert_eq!(Point::new(-7, 9).distance_to(Point::new(-7, 9)), 0);
    assert_eq!(Point::new(5000, -5000).distance_to(Point::new(0, -1000)), 6403);
}

#[test]
fn distance_at_the_ends_of_the_grid() {
    let low = Point::new(i32::MIN, i32::MIN);
    let high = Point::new(i32::MAX, i32::MAX);
    assert_eq!(low.distance_to(high), 6_074_000_998);
    assert_eq!(Point::new(i32::MIN, 0).distance_to(Point::new(i32::MAX, 0)), 4_294_967_295);
}

#[test]
fn keys_tell_points_apart() {
    assert_eq!(Point::new(i32::MIN, i32::MIN).hash_key(), 0);
    assert_eq!(Point::new(i32::MAX, i32::MAX).hash_key(), u64::MAX);
    assert_eq!(Point::new(0, 0).hash_key(), 9_223_372_039_002_259_456);
    assert_ne!(Point::new(0, 1).hash_key(), Point::new(1, 0).hash_key());
    assert_ne!(Point::new(-1, 0).hash_key(), Point::new(0, -1).hash_key());
    assert_eq!(Point::new(12, -34).hash_key(), Point::new(12, -34).hash_key());
}

#[test]
fn points_are_equal_by_value() {
    assert_eq!(Point::new(1, 2), Point::new(1, 2));
    assert_ne!(Point::new(1, 2), Point::new(2, 1));
}

#[test]
fn orientation_tells_left_from_right() {
    let p = Point::new(0, 0);
    let q = Point::new(10, 0);
    assert!(orientation(p, q, Point::new(5, 3)) > 0);
    assert!(orientation(p, q, Point::new(5, -3)) < 0);
    assert_eq!(orientation(p, q, Point::new(25, 0)), 0);
    assert_eq!(orientation(p, q, Point::new(5, 3)), 30);
}

#[test]
fn orientation_at_the_ends_of_the_grid() {
    let p = Point::new(i32::MIN, i32::MIN);
    let q = Point::new(i32::MAX, i32::MIN);
    let r = Point::new(i32::MIN, i32::MAX);
    let side: i128 = 4_294_967_295;
    assert_eq!(orientation(p, q, r), side * side);
    assert_eq!(orientation(p, r, q), -(side * side));
}

#[test]
fn bounding_rect_is_minimal() {
    let r = seg(5, -2, -3, 7).bounding_rect();
    assert_eq!(r, Rect { min_x: -3, min_y: -2, max_x: 5, max_y: 7 });
    let flat = seg(4, 4, 4, 4).bounding_rect();
    assert_eq!(flat, Rect { min_x: 4, min_y: 4, max_x: 4, max_y: 4 });
}

#[test]
fn rects_overlap_on_closed_intervals() {
    let a = Rect { min_x: 0, min_y: 0, max_x: 10, max_y: 10 };
    let touching = Rect { min_x: 10, min_y: 10, max_x: 20, max_y: 20 };
    let apart_x = Rect { min_x: 11, min_y: 0, max_x: 20, max_y: 10 };
    let apart_y = Rect { min_x: 0, min_y: -20, max_x: 10, max_y: -1 };
    let inside = Rect { min_x: 2, min_y: 2, max_x: 3, max_y: 3 };
    assert!(a.intersects(&touching));
    assert!(touching.intersects(&a));
    assert!(!a.intersects(&apart_x));
    assert!(!a.intersects(&apart_y));
    assert!(a.intersects(&inside));
    assert!(inside.intersects(&a));
}

#[test]
fn a_way_through_a_wall_crosses_it() {
    let wall = seg(0, 0, 10, 0);
    assert!(seg(5, -5, 5, 5).intersects(&wall));
    assert!(seg(5, 5, 5, -5).intersects(&wall));
    assert!(seg(1, -1, 9, 1).intersects(&wall));
}

#[test]
fn a_way_past_a_wall_does_not_cross_it() {
    let wall = seg(0, 0, 10, 0);
    assert!(!seg(5, -5, 5, -1).intersects(&wall));
    assert!(!seg(11, -5, 11, 5).intersects(&wall));
    assert!(!seg(-1, -5, -1, 5).intersects(&wall));
    assert!(!seg(20, 20, 30, 30).intersects(&wall));
}

#[test]
fn parallel_and_collinear_segments_do_not_cross() {
    let wall = seg(0, 0, 10, 0);
    assert!(!seg(0, 1, 10, 1).intersects(&wall));
    assert!(!seg(2, 0, 8, 0).intersects(&wall));
    assert!(!seg(-5, 0, 5, 0).intersects(&wall));
    assert!(!seg(10, 0, 20, 0).intersects(&wall));
    assert!(!seg(0, 0, 10, 0).intersects(&wall));
}

#[test]
fn a_way_that_starts_or_ends_within_a_wall_crosses_it() {
    let wall = seg(0, 0, 10, 0);
    assert!(seg(5, 0, 5, 5).intersects(&wall));
    assert!(seg(5, -5, 5, 0).intersects(&wall));
    assert!(seg(1, 0, 3, 7).intersects(&wall));
    assert!(wall.intersects(&seg(5, 0, 5, 5)));
}

#[test]
fn a_way_that_starts_or_ends_at_the_end_of_a_wall_does_not_cross_it() {
    let wall = seg(0, 0, 10, 0);
    assert!(!seg(0, 0, 3, 7).intersects(&wall));
    assert!(!seg(-4, 9, 10, 0).intersects(&wall));
    assert!(!seg(10, 0, 10, -1).intersects(&wall));
    // nor one that starts or ends on the line of the wall, beyond its ends
    assert!(!seg(11, 0, 5, 5).intersects(&wall));
    assert!(!seg(5, -5, -1, 0).intersects(&wall));
}

#[test]
fn a_way_over_the_end_of_a_wall_crosses_it() {
    let wall = seg(0, 0, 10, 0);
    assert!(seg(0, -1, 0, 1).intersects(&wall));
    assert!(seg(9, -1, 11, 1).intersects(&wall));
    // crossing is mutual
    assert!(wall.intersects(&seg(0, -1, 0, 1)));
}

#[test]
fn a_way_through_the_joint_of_two_walls_crosses_both() {
    let left = seg(0, 0, 5, 0);
    let right = seg(5, 0, 10, 0);
    let way = seg(5, -5, 5, 5);
    assert!(way.intersects(&left));
    assert!(way.intersects(&right));
}

#[test]
fn lengths_in_cost_units() {
    assert_eq!(COST_SCALE, 100_000);
    assert_eq!(Point::new(0, 0).span_to(Point::new(3, 4)), 500_000);
    assert_eq!(Point::new(0, 0).span_to(Point::new(1, 1)), 141_421);
    assert_eq!(Point::new(5, -5).span_to(Point::new(0, -1)), 640_312);
    assert_eq!(Point::new(-7, 9).span_to(Point::new(-7, 9)), 0);
    assert_eq!(Point::new(5, -5).span_to(Point::new(5, -1)), 400_000);
}

#[test]
fn lengths_in_cost_units_refine_distances() {
    let pairs = [
        (Point::new(0, 0), Point::new(1, 1)),
        (Point::new(-3, 8), Point::new(40, -2)),
        (Point::new(i32::MIN, i32::MIN), Point::new(i32::MAX, i32::MAX)),
        (Point::new(i32::MIN, 7), Point::new(i32::MAX, 7)),
    ];
    for (p, q) in pairs {
        let far = p.distance_to(q);
        let fine = p.span_to(q);
        assert!(far * COST_SCALE <= fine);
        assert!(fine < (far + 1) * COST_SCALE);
        assert_eq!(fine, q.span_to(p));
    }
    assert_eq!(
        Point::new(i32::MIN, 7).span_to(Point::new(i32::MAX, 7)),
        4_294_967_295 * COST_SCALE
    );
}
