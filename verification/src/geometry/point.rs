//! Locations in the plane.
use vstd::prelude::*;
use crate::geometry::vector::Vector;
use crate::math::{is_floor_sqrt, Scalar};

verus! {

/// A location, held as its position vector.
#[derive(Debug, Copy, Clone, PartialEq, Eq, Structural)]
pub struct Point {
    pub pos: Vector,
}

impl Point {
    pub fn new(x: Scalar, y: Scalar) -> (p: Point)
        ensures
            p.pos.x == x,
            p.pos.y == y,
    {
        Point { pos: Vector::new(x, y) }
    }

    pub fn from_vector(pos: Vector) -> (p: Point)
        ensures
            p.pos == pos,
    {
        Point { pos }
    }

    /// Distance from the origin of coordinates, rounded down to a whole
    /// number of units. A distance beyond the range of a `Scalar` gives
    /// `Scalar::MAX`.
    pub fn distance(&self) -> (d: Scalar)
        ensures
            0 <= d,
            d < Scalar::MAX ==> is_floor_sqrt(self.pos.norm_squared(), d as int),
            d == Scalar::MAX ==> Scalar::MAX * Scalar::MAX <= self.pos.norm_squared(),
    {
        self.pos.length()
    }
}

} // verus!
