//! Grid coordinates and the two word directions.

use vstd::prelude::*;

verus! {

/// The two directions a word can run in: to the right or downwards.
#[derive(Clone, Copy, Debug, PartialEq, Eq, Structural)]
pub enum Dir {
    Right,
    Down,
}

/// A cell coordinate. Points may lie outside a grid; the grid treats such
/// points as blocked cells with borders all around.
#[derive(Clone, Copy, Debug, PartialEq, Eq, Structural)]
pub struct Point {
    pub x: i32,
    pub y: i32,
}

impl Dir {
    /// The unit step of a direction along the x axis.
    pub open spec fn dx(self) -> int {
        match self {
            Dir::Right => 1,
            Dir::Down => 0,
        }
    }

    /// The unit step of a direction along the y axis.
    pub open spec fn dy(self) -> int {
        match self {
            Dir::Right => 0,
            Dir::Down => 1,
        }
    }

    /// The other direction, perpendicular to this one.
    pub open spec fn spec_other(self) -> Dir {
        match self {
            Dir::Right => Dir::Down,
            Dir::Down => Dir::Right,
        }
    }

    /// The other direction, perpendicular to this one.
    pub fn other(&self) -> (d: Dir)
        ensures
            d == self.spec_other(),
    {
        match *self {
            Dir::Right => Dir::Down,
            Dir::Down => Dir::Right,
        }
    }

    /// The corresponding unit vector: to move one cell in this direction,
    /// add the vector to a point.
    pub fn point(&self) -> (p: Point)
        ensures
            p.x as int == self.dx(),
            p.y as int == self.dy(),
    {
        match *self {
            Dir::Right => Point { x: 1, y: 0 },
            Dir::Down => Point { x: 0, y: 1 },
        }
    }
}

impl Point {
    pub fn new(x: i32, y: i32) -> (p: Point)
        ensures
            p.x == x,
            p.y == y,
    {
        Point { x, y }
    }
}

} // verus!
