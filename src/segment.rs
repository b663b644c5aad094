//! Oriented segments between two points.
use vstd::prelude::*;
use crate::point::{Point, lex_lt};

verus! {

/// An oriented segment from `start` to `end`.
#[derive(Clone, Copy, Debug, PartialEq, Eq, Structural, Hash)]
pub struct Segment {
    pub start: Point,
    pub end: Point,
}

impl Segment {
    /// The segment from `start` to `end`.
    pub fn new(start: Point, end: Point) -> (r: Segment)
        ensures
            r.start == start,
            r.end == end,
    {
        Segment { start, end }
    }

    /// The same segment, in the opposite direction.
    pub fn reverse(&self) -> (r: Segment)
        ensures
            r.start == self.end,
            r.end == self.start,
    {
        Segment { start: self.end, end: self.start }
    }

    /// The two endpoints, the lexicographically smaller first.
    pub fn ordered_points(&self) -> (r: [Point; 2])
        ensures
            r@[0] == if lex_lt(self.end, self.start) { self.end } else { self.start },
            r@[1] == if lex_lt(self.end, self.start) { self.start } else { self.end },
    {
        if self.end.is_before(&self.start) {
            [self.end, self.start]
        } else {
            [self.start, self.end]
        }
    }
}

} // verus!
