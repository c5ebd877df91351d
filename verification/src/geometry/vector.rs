//! Two-component vectors.
use vstd::prelude::*;
use crate::math::{floor_sqrt, is_floor_sqrt, saturate, saturated, Scalar};

verus! {

/// A displacement, or a position taken from the origin.
#[derive(Debug, Copy, Clone, PartialEq, Eq, Structural)]
pub struct Vector {
    pub x: Scalar,
    pub y: Scalar,
}

impl Vector {
    /// Square of the Euclidean norm.
    pub open spec fn norm_squared(self) -> int {
        self.x * self.x + self.y * self.y
    }

    pub fn new(x: Scalar, y: Scalar) -> (v: Vector)
        ensures
            v.x == x,
            v.y == y,
    {
        Vector { x, y }
    }

    /// Euclidean norm, rounded down to a whole number of units. A norm
    /// beyond the range of a `Scalar` gives `Scalar::MAX`.
    pub fn length(&self) -> (len: Scalar)
        ensures
            0 <= len,
            len < Scalar::MAX ==> is_floor_sqrt(self.norm_squared(), len as int),
            len == Scalar::MAX ==> Scalar::MAX * Scalar::MAX <= self.norm_squared(),
    {
        let x: i64 = self.x as i64;
        let y: i64 = self.y as i64;
        assert(0 <= x * x <= 0x4000_0000_0000_0000) by (nonlinear_arith)
            requires
                -0x8000_0000 <= x <= 0x7fff_ffff,
        ;
        assert(0 <= y * y <= 0x4000_0000_0000_0000) by (nonlinear_arith)
            requires
                -0x8000_0000 <= y <= 0x7fff_ffff,
        ;
        let n: u64 = (x * x) as u64 + (y * y) as u64;
        let r: u64 = floor_sqrt(n);
        if r >= 0x7fff_ffff {
            assert(0x7fff_ffff * 0x7fff_ffff <= r * r) by (nonlinear_arith)
                requires
                    0x7fff_ffff <= r,
            ;
            0x7fff_ffff
        } else {
            r as i32
        }
    }
}

/// Componentwise sum. A component that leaves the range of a `Scalar` stays
/// at the end of the range.
impl core::ops::Add for Vector {
    type Output = Vector;

    fn add(self, rhs: Vector) -> (v: Vector) {
        Vector {
            x: saturate(self.x as i128 + rhs.x as i128),
            y: saturate(self.y as i128 + rhs.y as i128),
        }
    }
}

impl vstd::std_specs::ops::AddSpecImpl for Vector {
    open spec fn obeys_add_spec() -> bool {
        true
    }

    open spec fn add_req(self, rhs: Vector) -> bool {
        true
    }

    open spec fn add_spec(self, rhs: Vector) -> Vector {
        Vector {
            x: saturated(self.x + rhs.x) as Scalar,
            y: saturated(self.y + rhs.y) as Scalar,
        }
    }
}

/// Componentwise difference. A component that leaves the range of a `Scalar`
/// stays at the end of the range.
impl core::ops::Sub for Vector {
    type Output = Vector;

    fn sub(self, rhs: Vector) -> (v: Vector) {
        Vector {
            x: saturate(self.x as i128 - rhs.x as i128),
            y: saturate(self.y as i128 - rhs.y as i128),
        }
    }
}

impl vstd::std_specs::ops::SubSpecImpl for Vector {
    open spec fn obeys_sub_spec() -> bool {
        true
    }

    open spec fn sub_req(self, rhs: Vector) -> bool {
        true
    }

    open spec fn sub_spec(self, rhs: Vector) -> Vector {
        Vector {
            x: saturated(self.x - rhs.x) as Scalar,
            y: saturated(self.y - rhs.y) as Scalar,
        }
    }
}

/// Each component multiplied by a factor. A component that leaves the range
/// of a `Scalar` stays at the end of the range.
impl core::ops::Mul<Scalar> for Vector {
    type Output = Vector;

    fn mul(self, rhs: Scalar) -> (v: Vector) {
        assert(-0x4000_0000_0000_0000 <= self.x * rhs <= 0x4000_0000_0000_0000)
            by (nonlinear_arith)
            requires
                -0x8000_0000 <= self.x <= 0x7fff_ffff,
                -0x8000_0000 <= rhs <= 0x7fff_ffff,
        ;
        assert(-0x4000_0000_0000_0000 <= self.y * rhs <= 0x4000_0000_0000_0000)
            by (nonlinear_arith)
            requires
                -0x8000_0000 <= self.y <= 0x7fff_ffff,
                -0x8000_0000 <= rhs <= 0x7fff_ffff,
        ;
        Vector {
            x: saturate(self.x as i128 * rhs as i128),
            y: saturate(self.y as i128 * rhs as i128),
        }
    }
}

impl vstd::std_specs::ops::MulSpecImpl<Scalar> for Vector {
    open spec fn obeys_mul_spec() -> bool {
        true
    }

    open spec fn mul_req(self, rhs: Scalar) -> bool {
        true
    }

    open spec fn mul_spec(self, rhs: Scalar) -> Vector {
        Vector {
            x: saturated(self.x * rhs) as Scalar,
            y: saturated(self.y * rhs) as Scalar,
        }
    }
}

} // verus!
