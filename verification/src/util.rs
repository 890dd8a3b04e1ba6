use vstd::prelude::*;

use crate::game::Direction;

verus! {

/// A pointer position in screen coordinates, remembered between a press and
/// a release so that the drag between them can be turned into a direction.
pub struct Point {
    x: i32,
    y: i32,
}

impl Point {
    /// The stored column coordinate.
    pub closed spec fn spec_x(&self) -> int {
        self.x as int
    }

    /// The stored row coordinate.
    pub closed spec fn spec_y(&self) -> int {
        self.y as int
    }

    pub fn from_data(x: i32, y: i32) -> (p: Self)
        ensures
            p.spec_x() == x,
            p.spec_y() == y,
    {
        Point { x, y }
    }

    pub fn set(&mut self, x: i32, y: i32)
        ensures
            final(self).spec_x() == x,
            final(self).spec_y() == y,
    {
        self.x = x;
        self.y = y;
    }
}

/// Absolute value over mathematical integers.
pub open spec fn abs_val(v: int) -> int {
    if v < 0 {
        -v
    } else {
        v
    }
}

/// The direction a drag from `(lx, ly)` to `(cx, cy)` means: the axis with
/// the larger displacement wins, and the vertical axis wins a tie.
pub open spec fn direction_of(lx: int, ly: int, cx: int, cy: int) -> Direction {
    if abs_val(lx - cx) > abs_val(ly - cy) {
        if lx > cx {
            Direction::Left
        } else {
            Direction::Right
        }
    } else {
        if ly > cy {
            Direction::Up
        } else {
            Direction::Down
        }
    }
}

/// Turn the drag from `last` to `current` into a move direction.
pub fn get_direction(last: &Point, current: &Point) -> (d: Direction)
    requires
        -0x8000_0000 < last.spec_x() - current.spec_x() < 0x8000_0000,
        -0x8000_0000 < last.spec_y() - current.spec_y() < 0x8000_0000,
    ensures
        d == direction_of(last.spec_x(), last.spec_y(), current.spec_x(), current.spec_y()),
{
    let dx: i32 = last.x - current.x;
    let dy: i32 = last.y - current.y;
    let adx: i32 = if dx < 0 { -dx } else { dx };
    let ady: i32 = if dy < 0 { -dy } else { dy };
    if adx > ady {
        // move horizontal
        if dx > 0 {
            Direction::Left
        } else {
            Direction::Right
        }
    } else {
        // move vertical
        if dy > 0 {
            Direction::Up
        } else {
            Direction::Down
        }
    }
}

} // verus!
