//! Flat shading: the face normal's direction decides culling, its angle to
//! the light decides the fill color.
//!
//! The light direction is fixed at (0, 0, 1), so the Lambertian intensity
//! of a face is `cz / sqrt(cx^2 + cy^2 + cz^2)` where `(cx, cy, cz)` is the
//! cross product `(v0 - v1) x (v1 - v2)` of the face's edges — the operand
//! order is load-bearing, it decides which side is front-facing.  A face
//! with `cz <= 0` (back-facing, edge-on, or with a zero-length normal) is
//! culled.  The fill color is the grey level `trunc(255 * intensity)`,
//! computed exactly in integers as the largest `k <= 255` with
//! `k^2 * (cx^2 + cy^2 + cz^2) <= (255 * cz)^2`.

use vstd::prelude::*;
use crate::framebuffer::Color;
use crate::geometry::pt_in_range;
use crate::geometry::Point3D;

verus! {

/// Largest world-coordinate magnitude the library accepts (decimal fixed
/// point with six fractional digits, so a coordinate value of 75).  The
/// bound is set by the exactness window of the integer intensity
/// computation: the square of `255 * cz` must fit in 128 bits.
pub const MAX_WORLD: i64 = 75_000_000;

/// x-component of the face normal direction `(v0 - v1) x (v1 - v2)`.
pub open spec fn face_cross_x(v0: Point3D, v1: Point3D, v2: Point3D) -> int {
    (v0.y - v1.y) * (v1.z - v2.z) - (v0.z - v1.z) * (v1.y - v2.y)
}

/// y-component of the face normal direction `(v0 - v1) x (v1 - v2)`.
pub open spec fn face_cross_y(v0: Point3D, v1: Point3D, v2: Point3D) -> int {
    (v0.z - v1.z) * (v1.x - v2.x) - (v0.x - v1.x) * (v1.z - v2.z)
}

/// z-component of the face normal direction `(v0 - v1) x (v1 - v2)`.
pub open spec fn face_cross_z(v0: Point3D, v1: Point3D, v2: Point3D) -> int {
    (v0.x - v1.x) * (v1.y - v2.y) - (v0.y - v1.y) * (v1.x - v2.x)
}

/// The largest `k` at most `top` with `k^2 * s <= t^2`.
pub open spec fn shade_level_rec(s: int, t: int, k: int) -> int
    decreases k,
{
    if k <= 0 {
        0
    } else if k * k * s <= t * t {
        k
    } else {
        shade_level_rec(s, t, k - 1)
    }
}

/// The grey level of a front-facing face: `trunc(255 * cz / sqrt(s))`
/// with `s = cx^2 + cy^2 + cz^2`, as the largest `k <= 255` whose square
/// times `s` stays within `(255 * cz)^2`.
pub open spec fn shade_level(cx: int, cy: int, cz: int) -> int {
    shade_level_rec(cx * cx + cy * cy + cz * cz, 255 * cz, 255)
}

/// The grey color at level `k`.
pub open spec fn grey(k: int) -> Color {
    Color { r: k as u8, g: k as u8, b: k as u8 }
}

/// The level is always a byte.
pub proof fn lemma_shade_level_range(s: int, t: int, k: int)
    requires
        0 <= k <= 255,
    ensures
        0 <= shade_level_rec(s, t, k) <= 255,
    decreases k,
{
    if k > 0 && !(k * k * s <= t * t) {
        lemma_shade_level_range(s, t, k - 1);
    }
}

/// Computes the flat-shaded fill color of the face `(v0, v1, v2)` under
/// the fixed light direction (0, 0, 1): `None` exactly when the face is
/// culled — its normal points away from or orthogonally to the light
/// (`cz <= 0`, which includes a zero-length normal) — and otherwise the
/// grey at level `trunc(255 * intensity)`.
pub fn shade_face(v0: Point3D, v1: Point3D, v2: Point3D) -> (r: Option<Color>)
    requires
        pt_in_range(v0, MAX_WORLD as int),
        pt_in_range(v1, MAX_WORLD as int),
        pt_in_range(v2, MAX_WORLD as int),
    ensures
        r is None <==> face_cross_z(v0, v1, v2) <= 0,
        r is Some ==> r == Some(
            grey(
                shade_level(
                    face_cross_x(v0, v1, v2),
                    face_cross_y(v0, v1, v2),
                    face_cross_z(v0, v1, v2),
                ),
            ),
        ),
{
    proof {
        lemma_edge_products(v0, v1, v2);
    }
    let cx: i64 = (v0.y - v1.y) * (v1.z - v2.z) - (v0.z - v1.z) * (v1.y - v2.y);
    let cy: i64 = (v0.z - v1.z) * (v1.x - v2.x) - (v0.x - v1.x) * (v1.z - v2.z);
    let cz: i64 = (v0.x - v1.x) * (v1.y - v2.y) - (v0.y - v1.y) * (v1.x - v2.x);
    if cz <= 0 {
        return None;
    }
    proof {
        lemma_square_bounds(cx as int, cy as int, cz as int);
    }
    let s: u128 = ((cx as i128) * (cx as i128) + (cy as i128) * (cy as i128) + (cz as i128) * (
    cz as i128)) as u128;
    let t: u128 = (255 * (cz as i128)) as u128;
    let t2: u128 = t * t;
    proof {
        assert(cz * cz >= 1) by (nonlinear_arith)
            requires
                cz >= 1,
        ;
    }
    let q: u128 = t2 / s;
    let mut k: i64 = 255;
    proof {
        lemma_shade_level_range(s as int, t as int, 255);
    }
    while k > 0 && level_exceeds(k, q)
        invariant
            0 <= k <= 255,
            1 <= s,
            q == (t * t) as int / (s as int),
            shade_level_rec(s as int, t as int, 255) == shade_level_rec(s as int, t as int, k as int),
        decreases k,
    {
        proof {
            lemma_div_scale((k * k) as int, (t * t) as int, s as int);
        }
        k = k - 1;
    }
    proof {
        lemma_div_scale((k * k) as int, (t * t) as int, s as int);
        assert(shade_level_rec(s as int, t as int, k as int) == k);
        assert(s as int == face_cross_x(v0, v1, v2) * face_cross_x(v0, v1, v2) + face_cross_y(
            v0,
            v1,
            v2,
        ) * face_cross_y(v0, v1, v2) + face_cross_z(v0, v1, v2) * face_cross_z(v0, v1, v2));
    }
    Some(Color { r: k as u8, g: k as u8, b: k as u8 })
}

/// Whether level `k` overshoots the squared-intensity quotient: `k^2 > q`.
fn level_exceeds(k: i64, q: u128) -> (r: bool)
    requires
        0 <= k <= 255,
    ensures
        r == (k * k > q),
{
    proof {
        assert(0 <= k * k <= 65025) by (nonlinear_arith)
            requires
                0 <= k <= 255,
        ;
    }
    ((k as u128) * (k as u128)) > q
}

/// Scaling both sides out of a quotient: for a positive divisor `s`,
/// `a * s <= b` exactly when `a <= b / s`.
proof fn lemma_div_scale(a: int, b: int, s: int)
    requires
        s >= 1,
        a >= 0,
        b >= 0,
    ensures
        (a * s <= b) <==> (a <= b / s),
{
    let d = b / s;
    assert(b == d * s + b % s && 0 <= b % s < s) by (nonlinear_arith)
        requires
            s >= 1,
            b >= 0,
            d == b / s,
    ;
    if a <= d {
        assert(a * s <= d * s) by (nonlinear_arith)
            requires
                a <= d,
                s >= 1,
        ;
    }
    if a > d {
        assert(a * s >= (d + 1) * s && (d + 1) * s == d * s + s) by (nonlinear_arith)
            requires
                a >= d + 1,
                s >= 1,
        ;
    }
}

/// Edge components of a bounded face multiply without overflowing.
proof fn lemma_edge_products(v0: Point3D, v1: Point3D, v2: Point3D)
    requires
        pt_in_range(v0, MAX_WORLD as int),
        pt_in_range(v1, MAX_WORLD as int),
        pt_in_range(v2, MAX_WORLD as int),
    ensures
        -45_000_000_000_000_000 <= face_cross_x(v0, v1, v2) <= 45_000_000_000_000_000,
        -45_000_000_000_000_000 <= face_cross_y(v0, v1, v2) <= 45_000_000_000_000_000,
        -45_000_000_000_000_000 <= face_cross_z(v0, v1, v2) <= 45_000_000_000_000_000,
        -22_500_000_000_000_000 <= (v0.y - v1.y) * (v1.z - v2.z) <= 22_500_000_000_000_000,
        -22_500_000_000_000_000 <= (v0.z - v1.z) * (v1.y - v2.y) <= 22_500_000_000_000_000,
        -22_500_000_000_000_000 <= (v0.z - v1.z) * (v1.x - v2.x) <= 22_500_000_000_000_000,
        -22_500_000_000_000_000 <= (v0.x - v1.x) * (v1.z - v2.z) <= 22_500_000_000_000_000,
        -22_500_000_000_000_000 <= (v0.x - v1.x) * (v1.y - v2.y) <= 22_500_000_000_000_000,
        -22_500_000_000_000_000 <= (v0.y - v1.y) * (v1.x - v2.x) <= 22_500_000_000_000_000,
{
    assert forall|a: int, b: int|
        -150_000_000 <= a <= 150_000_000 && -150_000_000 <= b <= 150_000_000
            implies -22_500_000_000_000_000 <= #[trigger] (a * b) <= 22_500_000_000_000_000 by {
        assert(-22_500_000_000_000_000 <= a * b <= 22_500_000_000_000_000) by (nonlinear_arith)
            requires
                -150_000_000 <= a <= 150_000_000,
                -150_000_000 <= b <= 150_000_000,
        ;
    }
}

/// The squares of bounded cross components fit comfortably in 128 bits.
proof fn lemma_square_bounds(cx: int, cy: int, cz: int)
    requires
        -45_000_000_000_000_000 <= cx <= 45_000_000_000_000_000,
        -45_000_000_000_000_000 <= cy <= 45_000_000_000_000_000,
        -45_000_000_000_000_000 <= cz <= 45_000_000_000_000_000,
    ensures
        0 <= cx * cx + cy * cy + cz * cz <= 6_075_000_000_000_000_000_000_000_000_000_000,
        0 <= cx * cx,
        0 <= cy * cy,
        0 <= cz * cz,
        cx * cx <= 2_025_000_000_000_000_000_000_000_000_000_000,
        cy * cy <= 2_025_000_000_000_000_000_000_000_000_000_000,
        cz * cz <= 2_025_000_000_000_000_000_000_000_000_000_000,
        0 <= 255 * cz + 45_000_000_000_000_000 * 255,
        -132_000_000_000_000_000_000_000_000_000_000_000_000 <= (255 * cz) * (255 * cz)
            <= 132_000_000_000_000_000_000_000_000_000_000_000_000,
{
    assert(0 <= cx * cx <= 2_025_000_000_000_000_000_000_000_000_000_000) by (nonlinear_arith)
        requires
            -45_000_000_000_000_000 <= cx <= 45_000_000_000_000_000,
    ;
    assert(0 <= cy * cy <= 2_025_000_000_000_000_000_000_000_000_000_000) by (nonlinear_arith)
        requires
            -45_000_000_000_000_000 <= cy <= 45_000_000_000_000_000,
    ;
    assert(0 <= cz * cz <= 2_025_000_000_000_000_000_000_000_000_000_000) by (nonlinear_arith)
        requires
            -45_000_000_000_000_000 <= cz <= 45_000_000_000_000_000,
    ;
    assert(0 <= (255 * cz) * (255 * cz) <= 132_000_000_000_000_000_000_000_000_000_000_000_000)
        by (nonlinear_arith)
        requires
            -45_000_000_000_000_000 <= cz <= 45_000_000_000_000_000,
    ;
}

} // verus!
