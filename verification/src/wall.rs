//! Walls as the host describes them, and the rule that says which of them block.

use vstd::prelude::*;
use crate::geometry::Point;

verus! {

/// Whether a door stands closed, open or locked.
#[derive(Debug, Copy, Clone, PartialEq, Eq, Structural)]
pub enum DoorState {
    CLOSED,
    OPEN,
    LOCKED,
}

/// Whether a wall is a door, and of which sort.
#[derive(Debug, Copy, Clone, PartialEq, Eq, Structural)]
pub enum DoorType {
    NONE,
    DOOR,
    SECRET,
}

/// How far a wall restricts movement.
#[derive(Debug, Copy, Clone, PartialEq, Eq, Structural)]
pub enum WallSenseType {
    NONE,
    LIMITED,
    NORMAL,
}

impl DoorState {
    /// The number that the host uses for this state.
    pub open spec fn number(self) -> usize {
        match self {
            DoorState::CLOSED => 0,
            DoorState::OPEN => 1,
            DoorState::LOCKED => 2,
        }
    }

    /// The number that the host uses for this state.
    pub fn code(&self) -> (n: usize)
        ensures
            n == self.number(),
    {
        match self {
            DoorState::CLOSED => 0,
            DoorState::OPEN => 1,
            DoorState::LOCKED => 2,
        }
    }

    /// The state with the given number; an error where no state has it.
    pub fn try_from(value: usize) -> (r: Result<DoorState, ()>)
        ensures
            match r {
                Ok(state) => state.number() == value,
                Err(_) => value > 2,
            },
    {
        if value == 0 {
            Ok(DoorState::CLOSED)
        } else if value == 1 {
            Ok(DoorState::OPEN)
        } else if value == 2 {
            Ok(DoorState::LOCKED)
        } else {
            Err(())
        }
    }
}

impl DoorType {
    /// The number that the host uses for this sort of door.
    pub open spec fn number(self) -> usize {
        match self {
            DoorType::NONE => 0,
            DoorType::DOOR => 1,
            DoorType::SECRET => 2,
        }
    }

    /// The number that the host uses for this sort of door.
    pub fn code(&self) -> (n: usize)
        ensures
            n == self.number(),
    {
        match self {
            DoorType::NONE => 0,
            DoorType::DOOR => 1,
            DoorType::SECRET => 2,
        }
    }

    /// The sort of door with the given number; an error where none has it.
    pub fn try_from(value: usize) -> (r: Result<DoorType, ()>)
        ensures
            match r {
                Ok(kind) => kind.number() == value,
                Err(_) => value > 2,
            },
    {
        if value == 0 {
            Ok(DoorType::NONE)
        } else if value == 1 {
            Ok(DoorType::DOOR)
        } else if value == 2 {
            Ok(DoorType::SECRET)
        } else {
            Err(())
        }
    }
}

impl WallSenseType {
    /// The number that the host uses for this restriction.
    pub open spec fn number(self) -> usize {
        match self {
            WallSenseType::NONE => 0,
            WallSenseType::LIMITED => 10,
            WallSenseType::NORMAL => 20,
        }
    }

    /// The number that the host uses for this restriction.
    pub fn code(&self) -> (n: usize)
        ensures
            n == self.number(),
    {
        match self {
            WallSenseType::NONE => 0,
            WallSenseType::LIMITED => 10,
            WallSenseType::NORMAL => 20,
        }
    }

    /// The restriction with the given number; an error where none has it.
    pub fn try_from(value: usize) -> (r: Result<WallSenseType, ()>)
        ensures
            match r {
                Ok(kind) => kind.number() == value,
                Err(_) => value != 0 && value != 10 && value != 20,
            },
    {
        if value == 0 {
            Ok(WallSenseType::NONE)
        } else if value == 10 {
            Ok(WallSenseType::LIMITED)
        } else if value == 20 {
            Ok(WallSenseType::NORMAL)
        } else {
            Err(())
        }
    }
}

/// The heights that a wall spans, both ends included.
#[derive(Debug, Copy, Clone, PartialEq, Eq, Structural)]
pub struct WallHeight {
    pub top: i64,
    pub bottom: i64,
}

impl Default for WallHeight {
    /// The span of a wall that reaches every height.
    fn default() -> (h: WallHeight)
        ensures
            h == WallHeight::unbounded(),
    {
        WallHeight { top: i64::MAX, bottom: i64::MIN }
    }
}

impl WallHeight {
    /// The span that holds every height.
    pub open spec fn unbounded() -> WallHeight {
        WallHeight { top: i64::MAX, bottom: i64::MIN }
    }

    /// `height` lies in the span.
    pub open spec fn spans(self, height: i64) -> bool {
        self.bottom <= height <= self.top
    }

    /// The span with the given ends; an end that is not given is unbounded.
    pub fn from_bounds(top: Option<i64>, bottom: Option<i64>) -> (h: WallHeight)
        ensures
            h.top == (match top {
                Some(t) => t,
                None => i64::MAX,
            }),
            h.bottom == (match bottom {
                Some(b) => b,
                None => i64::MIN,
            }),
    {
        let top: i64 = match top {
            Some(t) => t,
            None => i64::MAX,
        };
        let bottom: i64 = match bottom {
            Some(b) => b,
            None => i64::MIN,
        };
        WallHeight { top, bottom }
    }

    /// Whether `height` lies in the span.
    pub fn contains(&self, height: i64) -> (r: bool)
        ensures
            r == self.spans(height),
    {
        self.top >= height && self.bottom <= height
    }
}

/// One wall of the scene.
#[derive(Debug, Clone, Copy, PartialEq, Eq, Structural)]
pub struct Wall {
    pub p1: Point,
    pub p2: Point,
    pub door_type: DoorType,
    pub door_state: DoorState,
    pub move_type: WallSenseType,
    pub height: WallHeight,
}

impl Wall {
    /// The wall with the given ends and properties.
    pub fn new(
        p1: Point,
        p2: Point,
        door_type: DoorType,
        door_state: DoorState,
        move_type: WallSenseType,
        height: WallHeight,
    ) -> (w: Wall)
        ensures
            w == (Wall { p1, p2, door_type, door_state, move_type, height }),
    {
        Wall { p1, p2, door_type, door_state, move_type, height }
    }

    /// The wall as the host records it: `coordinates` holds x and y of the first
    /// end, then of the second. The height counts only where `enable_height` is
    /// set; otherwise the wall reaches every height.
    pub fn from_record(
        coordinates: &Vec<i32>,
        door_type: DoorType,
        door_state: DoorState,
        move_type: WallSenseType,
        height: WallHeight,
        enable_height: bool,
    ) -> (w: Wall)
        requires
            coordinates.len() >= 4,
        ensures
            w == (Wall {
                p1: Point { x: coordinates[0], y: coordinates[1] },
                p2: Point { x: coordinates[2], y: coordinates[3] },
                door_type,
                door_state,
                move_type,
                height: if enable_height {
                    height
                } else {
                    WallHeight::unbounded()
                },
            }),
    {
        let height = if enable_height {
            height
        } else {
            WallHeight::default()
        };
        Wall::new(
            Point::new(coordinates[0], coordinates[1]),
            Point::new(coordinates[2], coordinates[3]),
            door_type,
            door_state,
            move_type,
            height,
        )
    }

    /// The wall blocks a token at `elevation`: it restricts movement, it is not
    /// a door that stands open, and its height spans the elevation.
    pub open spec fn blocks(self, elevation: i64) -> bool {
        &&& self.move_type != WallSenseType::NONE
        &&& !(self.door_type != DoorType::NONE && self.door_state == DoorState::OPEN)
        &&& self.height.spans(elevation)
    }

    /// Whether the wall is a door of any sort.
    pub fn is_door(&self) -> (r: bool)
        ensures
            r == (self.door_type != DoorType::NONE),
    {
        self.door_type != DoorType::NONE
    }

    /// Whether the door state of the wall is open.
    pub fn is_open(&self) -> (r: bool)
        ensures
            r == (self.door_state == DoorState::OPEN),
    {
        self.door_state == DoorState::OPEN
    }

    /// Whether the wall blocks a token at `elevation`.
    pub fn is_obstacle(&self, elevation: i64) -> (r: bool)
        ensures
            r == self.blocks(elevation),
    {
        if self.move_type == WallSenseType::NONE {
            return false;
        }
        if self.is_door() && self.is_open() {
            return false;
        }
        self.height.contains(elevation)
    }
}

} // verus!
