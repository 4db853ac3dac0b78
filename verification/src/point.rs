//! A 2d point type with integer coordinates.

use vstd::prelude::*;

verus! {

/// A 2d point.
#[derive(Clone, Copy, Debug, PartialEq, Eq, Structural)]
pub struct Point {
    /// x-coordinate.
    pub x: i32,
    /// y-coordinate.
    pub y: i32,
}

impl Point {
    /// Construct a point at (x, y).
    pub fn new(x: i32, y: i32) -> (p: Point)
        ensures
            p.x == x,
            p.y == y,
    {
        Point { x, y }
    }
}

} // verus!
