use routinglib::direction::{sort_by_angle, Direction};
use routinglib::geometry::Point;

fn dir(dx: i64, dy: i64) -> Direction {
    Direction { dx, dy }
}

#[test]
fn direction_from_points() {
    let d = Direction::from_points(Point::new(3, 4), Point::new(10, -2));
    assert_eq!(d, dir(7, -6));
    let wide = Direction::from_points(Point::new(i32::MIN, i32::MAX), Point::new(i32::MAX, i32::MIN));
    assert_eq!(wide, dir(4_294_967_295, -4_294_967_295));
}

#[test]
fn quarter_turns() {
    assert_eq!(dir(1, 0).turned_left(), dir(0, 1));
    assert_eq!(dir(0, 1).turned_left(), dir(-1, 0));
    assert_eq!(dir(1, 0).turned_right(), dir(0, -1));
    assert_eq!(dir(3, 4).turned_left(), dir(-4, 3));
    assert_eq!(dir(3, 4).turned_right(), dir(4, -3));
}

#[test]
fn cross_and_dot() {
    assert_eq!(dir(1, 0).cross_with(&dir(0, 1)), 1);
    assert_eq!(dir(0, 1).cross_with(&dir(1, 0)), -1);
    assert_eq!(dir(2, 3).cross_with(&dir(4, 6)), 0);
    assert_eq!(dir(2, 3).dot_with(&dir(4, 6)), 26);
    assert_eq!(dir(1, 0).dot_with(&dir(0, 1)), 0);
}

#[test]
fn angles_are_counted_from_the_positive_x_axis() {
    let east = dir(1, 0);
    let north = dir(0, 1);
    let west = dir(-1, 0);
    let south = dir(0, -1);
    assert!(east.comes_before(&north));
    assert!(north.comes_before(&west));
    assert!(west.comes_before(&south));
    assert!(east.comes_before(&south));
    assert!(!south.comes_before(&east));
    assert!(!north.comes_before(&east));
    assert!(!east.comes_before(&east));
    assert!(!east.comes_before(&dir(5, 0)));
    assert!(dir(5, 1).comes_before(&dir(5, 2)));
    assert!(dir(-5, -1).comes_before(&dir(5, -1)));
}

#[test]
fn sorting_by_angle_is_stable() {
    let given = vec![dir(0, -1), dir(1, 0), dir(-1, 0), dir(0, 1), dir(2, 0), dir(1, 1)];
    let sorted = sort_by_angle(&given);
    assert_eq!(
        sorted,
        vec![dir(1, 0), dir(2, 0), dir(1, 1), dir(0, 1), dir(-1, 0), dir(0, -1)]
    );
    assert_eq!(sort_by_angle(&Vec::new()), Vec::<Direction>::new());
}

#[test]
fn offsets_along_the_axes_are_exact() {
    assert_eq!(dir(1, 0).offset_along(1000), dir(1000, 0));
    assert_eq!(dir(-2000, 0).offset_along(1000), dir(-1000, 0));
    assert_eq!(dir(0, 7).offset_along(1000), dir(0, 1000));
    assert_eq!(dir(0, -7).offset_along(1000), dir(0, -1000));
    assert_eq!(dir(4_294_967_296, 0).offset_along(0x7fff_ffff), dir(0x7fff_ffff, 0));
}

#[test]
fn offsets_are_rounded_away_from_zero() {
    assert_eq!(dir(1, 1).offset_along(1000), dir(708, 708));
    assert_eq!(dir(1, 1).offset_along(1), dir(1, 1));
    assert_eq!(dir(1, -1).offset_along(2), dir(2, -2));
    assert_eq!(dir(1000, 1).offset_along(1), dir(1, 1));
    assert_eq!(dir(-1000, -1000).offset_along(1000), dir(-708, -708));
    assert_eq!(dir(1, 2).offset_along(1000), dir(448, 895));
    assert_eq!(dir(-3, 4).offset_along(5), dir(-3, 4));
    assert_eq!(dir(5, 12).offset_along(13), dir(5, 12));
    assert_eq!(
        dir(4_294_967_296, 4_294_967_296).offset_along(0x7fff_ffff),
        dir(1_518_500_250, 1_518_500_250)
    );
}

#[test]
fn offset_of_no_direction_or_no_length_is_zero() {
    assert_eq!(dir(0, 0).offset_along(1000), dir(0, 0));
    assert_eq!(dir(3, 4).offset_along(0), dir(0, 0));
}

#[test]
fn offsets_stay_within_the_radius() {
    let radius: u32 = 1000;
    let mut dx: i64 = -9;
    while dx <= 9 {
        let mut dy: i64 = -9;
        while dy <= 9 {
            if dx != 0 || dy != 0 {
                let o = dir(dx, dy).offset_along(radius);
                let square = o.dx * o.dx + o.dy * o.dy;
                assert!(square >= 1_000_000);
                assert!(square < 1003 * 1003);
                assert!(o.dx.abs() <= 1000 && o.dy.abs() <= 1000);
                let small = dir(dx, dy).offset_along(1);
                assert!(small.dx != 0 || small.dy != 0);
                assert!(small.dx.abs() <= 1 && small.dy.abs() <= 1);
            }
            dy += 1;
        }
        dx += 1;
    }
}

#[test]
fn bisector_of_a_full_turn_points_backward() {
    let d = dir(10_000, 0);
    assert_eq!(d.bisecting(&d, 1000), dir(-2000, 0));
}

#[test]
fn bisector_of_three_quarter_turn() {
    // from north on to east, against the clock: the gap opens to the south-west
    let b = dir(0, 3000).bisecting(&dir(4000, 0), 1000);
    assert_eq!(b, dir(-1000, -1000));
    assert_eq!(b.offset_along(1000), dir(-708, -708));
}

#[test]
fn bisector_of_a_gap_little_over_a_half_turn() {
    // from a direction just short of west on to east, through the south
    let b = dir(-1000, 1).bisecting(&dir(1000, 0), 1000);
    // the sum of the perpendiculars into the gap: both point south
    assert_eq!(b, dir(-1, -2000));
    assert_eq!(b.offset_along(1000), dir(-1, -1000));
}

#[test]
fn bisector_of_a_gap_that_a_small_radius_cannot_tell() {
    // with no radius the sum comes to nothing: the perpendicular stands in
    assert_eq!(dir(1, 0).bisecting(&dir(1, 0), 0), dir(0, 1));
    assert_eq!(dir(0, -5).bisecting(&dir(3, 0), 0), dir(5, 0));
    // with a radius of one unit the offsets have a length, and so has the sum
    assert_eq!(dir(1, 1).bisecting(&dir(1, -1), 1), dir(-2, 0));
    assert_eq!(dir(0, 10).bisecting(&dir(10, 0), 1), dir(-1, -1));
}
