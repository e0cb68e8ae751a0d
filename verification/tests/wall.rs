use routinglib::geometry::Point;
use routinglib::wall::{DoorState, DoorType, Wall, WallHeight, WallSenseType};

fn wall(door_type: DoorType, door_state: DoorState, move_type: WallSenseType, height: WallHeight) -> Wall {
    Wall::new(Point::new(0, 0), Point::new(10, 0), door_type, door_state, move_type, height)
}

#[test]
fn door_state_numbers() {
    assert_eq!(DoorState::try_from(0), Ok(DoorState::CLOSED));
    assert_eq!(DoorState::try_from(1), Ok(DoorState::OPEN));
    assert_eq!(DoorState::try_from(2), Ok(DoorState::LOCKED));
    assert_eq!(DoorState::try_from(3), Err(()));
    assert_eq!(DoorState::try_from(usize::MAX), Err(()));
    assert_eq!(DoorState::CLOSED.code(), 0);
    assert_eq!(DoorState::OPEN.code(), 1);
    assert_eq!(DoorState::LOCKED.code(), 2);
}

#[test]
fn door_type_numbers() {
    assert_eq!(DoorType::try_from(0), Ok(DoorType::NONE));
    assert_eq!(DoorType::try_from(1), Ok(DoorType::DOOR));
    assert_eq!(DoorType::try_from(2), Ok(DoorType::SECRET));
    assert_eq!(DoorType::try_from(3), Err(()));
    assert_eq!(DoorType::NONE.code(), 0);
    assert_eq!(DoorType::DOOR.code(), 1);
    assert_eq!(DoorType::SECRET.code(), 2);
}

#[test]
fn wall_sense_type_numbers() {
    assert_eq!(WallSenseType::try_from(0), Ok(WallSenseType::NONE));
    assert_eq!(WallSenseType::try_from(10), Ok(WallSenseType::LIMITED));
    assert_eq!(WallSenseType::try_from(20), Ok(WallSenseType::NORMAL));
    assert_eq!(WallSenseType::try_from(1), Err(()));
    assert_eq!(WallSenseType::try_from(2), Err(()));
    assert_eq!(WallSenseType::try_from(30), Err(()));
    assert_eq!(WallSenseType::NONE.code(), 0);
    assert_eq!(WallSenseType::LIMITED.code(), 10);
    assert_eq!(WallSenseType::NORMAL.code(), 20);
}

#[test]
fn numbers_round_trip() {
    for state in [DoorState::CLOSED, DoorState::OPEN, DoorState::LOCKED] {
        assert_eq!(DoorState::try_from(state.code()), Ok(state));
    }
    for kind in [DoorType::NONE, DoorType::DOOR, DoorType::SECRET] {
        assert_eq!(DoorType::try_from(kind.code()), Ok(kind));
    }
    for kind in [WallSenseType::NONE, WallSenseType::LIMITED, WallSenseType::NORMAL] {
        assert_eq!(WallSenseType::try_from(kind.code()), Ok(kind));
    }
}

#[test]
fn default_height_holds_every_elevation() {
    let h = WallHeight::default();
    assert_eq!(h.top, i64::MAX);
    assert_eq!(h.bottom, i64::MIN);
    assert!(h.contains(0));
    assert!(h.contains(i64::MIN));
    assert!(h.contains(i64::MAX));
}

#[test]
fn height_contains_both_ends() {
    let h = WallHeight { top: 10, bottom: -5 };
    assert!(h.contains(-5));
    assert!(h.contains(0));
    assert!(h.contains(10));
    assert!(!h.contains(-6));
    assert!(!h.contains(11));
    let empty = WallHeight { top: 0, bottom: 1 };
    assert!(!empty.contains(0));
    assert!(!empty.contains(1));
}

#[test]
fn height_from_bounds_fills_in_what_is_missing() {
    assert_eq!(WallHeight::from_bounds(None, None), WallHeight::default());
    assert_eq!(WallHeight::from_bounds(Some(7), None), WallHeight { top: 7, bottom: i64::MIN });
    assert_eq!(WallHeight::from_bounds(None, Some(-7)), WallHeight { top: i64::MAX, bottom: -7 });
    assert_eq!(WallHeight::from_bounds(Some(7), Some(-7)), WallHeight { top: 7, bottom: -7 });
}

#[test]
fn wall_new_keeps_its_arguments() {
    let w = Wall::new(
        Point::new(1, 2),
        Point::new(3, 4),
        DoorType::SECRET,
        DoorState::LOCKED,
        WallSenseType::LIMITED,
        WallHeight { top: 9, bottom: 8 },
    );
    assert_eq!(w.p1, Point::new(1, 2));
    assert_eq!(w.p2, Point::new(3, 4));
    assert_eq!(w.door_type, DoorType::SECRET);
    assert_eq!(w.door_state, DoorState::LOCKED);
    assert_eq!(w.move_type, WallSenseType::LIMITED);
    assert_eq!(w.height, WallHeight { top: 9, bottom: 8 });
}

#[test]
fn wall_from_record() {
    let c = vec![1, 2, 3, 4, 99];
    let h = WallHeight { top: 9, bottom: 8 };
    let with = Wall::from_record(&c, DoorType::DOOR, DoorState::OPEN, WallSenseType::NORMAL, h, true);
    assert_eq!(with.p1, Point::new(1, 2));
    assert_eq!(with.p2, Point::new(3, 4));
    assert_eq!(with.height, h);
    assert_eq!(with.door_type, DoorType::DOOR);
    assert_eq!(with.door_state, DoorState::OPEN);
    assert_eq!(with.move_type, WallSenseType::NORMAL);
    let without = Wall::from_record(&c, DoorType::DOOR, DoorState::OPEN, WallSenseType::NORMAL, h, false);
    assert_eq!(without.height, WallHeight::default());
    assert_eq!(without.p1, Point::new(1, 2));
}

#[test]
fn is_door_and_is_open() {
    let plain = wall(DoorType::NONE, DoorState::CLOSED, WallSenseType::NORMAL, WallHeight::default());
    assert!(!plain.is_door());
    assert!(!plain.is_open());
    let door = wall(DoorType::DOOR, DoorState::OPEN, WallSenseType::NORMAL, WallHeight::default());
    assert!(door.is_door());
    assert!(door.is_open());
    let secret = wall(DoorType::SECRET, DoorState::LOCKED, WallSenseType::NORMAL, WallHeight::default());
    assert!(secret.is_door());
    assert!(!secret.is_open());
}

#[test]
fn which_walls_block() {
    let all = WallHeight::default();
    assert!(wall(DoorType::NONE, DoorState::CLOSED, WallSenseType::NORMAL, all).is_obstacle(0));
    assert!(wall(DoorType::NONE, DoorState::CLOSED, WallSenseType::LIMITED, all).is_obstacle(0));
    assert!(!wall(DoorType::NONE, DoorState::CLOSED, WallSenseType::NONE, all).is_obstacle(0));
    // a door blocks unless it stands open
    assert!(wall(DoorType::DOOR, DoorState::CLOSED, WallSenseType::NORMAL, all).is_obstacle(0));
    assert!(wall(DoorType::DOOR, DoorState::LOCKED, WallSenseType::NORMAL, all).is_obstacle(0));
    assert!(!wall(DoorType::DOOR, DoorState::OPEN, WallSenseType::NORMAL, all).is_obstacle(0));
    assert!(!wall(DoorType::SECRET, DoorState::OPEN, WallSenseType::NORMAL, all).is_obstacle(0));
    // the state of what is no door does not count
    assert!(wall(DoorType::NONE, DoorState::OPEN, WallSenseType::NORMAL, all).is_obstacle(0));
    // the height must span the elevation
    let low = WallHeight { top: 10, bottom: 0 };
    assert!(wall(DoorType::NONE, DoorState::CLOSED, WallSenseType::NORMAL, low).is_obstacle(0));
    assert!(wall(DoorType::NONE, DoorState::CLOSED, WallSenseType::NORMAL, low).is_obstacle(10));
    assert!(!wall(DoorType::NONE, DoorState::CLOSED, WallSenseType::NORMAL, low).is_obstacle(11));
    assert!(!wall(DoorType::NONE, DoorState::CLOSED, WallSenseType::NORMAL, low).is_obstacle(-1));
}
