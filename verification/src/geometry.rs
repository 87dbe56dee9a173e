//! The three-component point type.
//!
//! One integer point type serves both roles the renderer needs: an
//! object-space vertex, whose coordinates are decimal fixed-point values
//! (six fractional digits), and a screen-space pixel-plus-depth triple,
//! whose coordinates are plain integers.  The elementwise quotient rounds
//! toward zero, the direction the rest of the pipeline is built on.

use vstd::prelude::*;
use crate::numeric::tdiv;
use crate::numeric::trunc_div;
use crate::numeric::TDIV_LIMIT;

verus! {

/// A point or vector with three integer components.
#[derive(Clone, Copy, Debug, PartialEq, Eq, Structural)]
pub struct Point3D {
    pub x: i64,
    pub y: i64,
    pub z: i64,
}

impl Point3D {
    /// The point with the given components.
    pub fn new(x: i64, y: i64, z: i64) -> (p: Point3D)
        ensures
            p == (Point3D { x, y, z }),
    {
        Point3D { x, y, z }
    }

    /// Scalar multiple: every component scaled by `multiplier`.
    pub fn multiply(self, multiplier: i64) -> (p: Point3D)
        requires
            i64::MIN <= self.x * multiplier <= i64::MAX,
            i64::MIN <= self.y * multiplier <= i64::MAX,
            i64::MIN <= self.z * multiplier <= i64::MAX,
        ensures
            p.x == self.x * multiplier,
            p.y == self.y * multiplier,
            p.z == self.z * multiplier,
    {
        Point3D { x: self.x * multiplier, y: self.y * multiplier, z: self.z * multiplier }
    }

    /// Elementwise sum.
    pub fn add(self, other: Point3D) -> (p: Point3D)
        requires
            i64::MIN <= self.x + other.x <= i64::MAX,
            i64::MIN <= self.y + other.y <= i64::MAX,
            i64::MIN <= self.z + other.z <= i64::MAX,
        ensures
            p.x == self.x + other.x,
            p.y == self.y + other.y,
            p.z == self.z + other.z,
    {
        Point3D { x: self.x + other.x, y: self.y + other.y, z: self.z + other.z }
    }

    /// Elementwise difference.
    pub fn sub(self, other: Point3D) -> (p: Point3D)
        requires
            i64::MIN <= self.x - other.x <= i64::MAX,
            i64::MIN <= self.y - other.y <= i64::MAX,
            i64::MIN <= self.z - other.z <= i64::MAX,
        ensures
            p.x == self.x - other.x,
            p.y == self.y - other.y,
            p.z == self.z - other.z,
    {
        Point3D { x: self.x - other.x, y: self.y - other.y, z: self.z - other.z }
    }

    /// Elementwise product.
    pub fn mul(self, other: Point3D) -> (p: Point3D)
        requires
            i64::MIN <= self.x * other.x <= i64::MAX,
            i64::MIN <= self.y * other.y <= i64::MAX,
            i64::MIN <= self.z * other.z <= i64::MAX,
        ensures
            p.x == self.x * other.x,
            p.y == self.y * other.y,
            p.z == self.z * other.z,
    {
        Point3D { x: self.x * other.x, y: self.y * other.y, z: self.z * other.z }
    }

    /// Elementwise quotient, truncating toward zero.
    pub fn div(self, other: Point3D) -> (p: Point3D)
        requires
            other.x != 0 && other.y != 0 && other.z != 0,
            -TDIV_LIMIT <= self.x <= TDIV_LIMIT,
            -TDIV_LIMIT <= self.y <= TDIV_LIMIT,
            -TDIV_LIMIT <= self.z <= TDIV_LIMIT,
            -TDIV_LIMIT <= other.x <= TDIV_LIMIT,
            -TDIV_LIMIT <= other.y <= TDIV_LIMIT,
            -TDIV_LIMIT <= other.z <= TDIV_LIMIT,
        ensures
            p.x == tdiv(self.x as int, other.x as int),
            p.y == tdiv(self.y as int, other.y as int),
            p.z == tdiv(self.z as int, other.z as int),
    {
        Point3D {
            x: trunc_div(self.x, other.x),
            y: trunc_div(self.y, other.y),
            z: trunc_div(self.z, other.z),
        }
    }
}

/// The fixed-point denominator of world coordinates: one unit is
/// `1_000_000`, giving six decimal fractional digits.
pub const FIXED_ONE: i64 = 1_000_000;

/// Every component of the point within `[-m, m]`.
pub open spec fn pt_in_range(p: Point3D, m: int) -> bool {
    &&& -m <= p.x <= m
    &&& -m <= p.y <= m
    &&& -m <= p.z <= m
}

} // verus!
