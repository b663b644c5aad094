//! Points of the plane on a fixed-point grid.
use vstd::prelude::*;

verus! {

/// `a` comes before `b` in lexicographic order (x first, then y).
pub open spec fn lex_lt(a: Point, b: Point) -> bool {
    a.x < b.x || (a.x == b.x && a.y < b.y)
}

/// A point of the plane; each coordinate is a fixed-point integer.
#[derive(Clone, Copy, Debug, PartialEq, Eq, Structural, Hash, PartialOrd, Ord)]
pub struct Point {
    pub x: i64,
    pub y: i64,
}

impl Point {
    /// The point with the given coordinates.
    pub fn new(x: i64, y: i64) -> (r: Point)
        ensures
            r.x == x,
            r.y == y,
    {
        Point { x, y }
    }

    /// Tells whether `self` comes before `other` in lexicographic order.
    pub fn is_before(&self, other: &Point) -> (r: bool)
        ensures
            r == lex_lt(*self, *other),
    {
        self.x < other.x || (self.x == other.x && self.y < other.y)
    }

    /// The origin.
    pub fn origin() -> (r: Point)
        ensures
            r.x == 0,
            r.y == 0,
    {
        Point { x: 0, y: 0 }
    }
}

} // verus!
