//! Straight segments.
use vstd::prelude::*;
use crate::geometry::point::Point;

verus! {

/// The segment from `start` to `end`.
#[derive(Debug, Copy, Clone, PartialEq, Eq, Structural)]
pub struct Line {
    pub start: Point,
    pub end: Point,
}

impl Line {
    pub fn new(start: Point, end: Point) -> (line: Line)
        ensures
            line.start == start,
            line.end == end,
    {
        Line { start, end }
    }
}

} // verus!
