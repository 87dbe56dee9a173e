//! Scan-conversion: lines, and depth-tested triangles.
//!
//! A line is walked along its dominant axis (the one with the greater
//! absolute delta), one pixel per integer step, interpolating the other
//! axis with truncation toward zero; the iteration runs from the smaller
//! dominant coordinate up to, but not including, the larger one, so the
//! drawn pixel set does not depend on the order of the endpoints.
//!
//! A triangle is cut into scanlines between its y-sorted vertices; each
//! scanline interpolates a boundary point on the long edge and one on the
//! short edge of the current half, fills the span between them, and writes
//! each pixel through the strict depth test.  Every write is clipped to the
//! framebuffer.

use vstd::prelude::*;
use crate::framebuffer::Color;
use crate::framebuffer::Framebuffer;
use crate::geometry::pt_in_range;
use crate::geometry::Point3D;
use crate::numeric::abs_i;
use crate::numeric::lemma_interp_bound;
use crate::numeric::lemma_tdiv_exact;
use crate::numeric::tdiv;
use crate::numeric::trunc_div;

verus! {

/// Largest coordinate magnitude the rasterizer accepts; keeps every
/// intermediate product of the interpolation inside `i64`.
pub const MAX_COORD: i64 = 0x4000_0000;

/// The y-delta dominates the x-delta, so the walk transposes the axes.
pub open spec fn line_is_steep(x0: int, y0: int, x1: int, y1: int) -> bool {
    abs_i(x0 - x1) < abs_i(y0 - y1)
}

/// Endpoints after transposing to the dominant axis (as `(u, v)` with `u`
/// dominant) and ordering so the walk ascends: `(u0, v0, u1, v1)`.
pub open spec fn line_axes(x0: int, y0: int, x1: int, y1: int) -> (int, int, int, int) {
    let (u0, v0, u1, v1) = if line_is_steep(x0, y0, x1, y1) {
        (y0, x0, y1, x1)
    } else {
        (x0, y0, x1, y1)
    };
    if u0 > u1 {
        (u1, v1, u0, v0)
    } else {
        (u0, v0, u1, v1)
    }
}

/// The secondary coordinate at dominant coordinate `u`: the linearly
/// interpolated value `v0 + (v1 - v0) * (u - u0) / (u1 - u0)`, truncated
/// toward zero as a whole.
pub open spec fn line_v_at(x0: int, y0: int, x1: int, y1: int, u: int) -> int {
    let (u0, v0, u1, v1) = line_axes(x0, y0, x1, y1);
    tdiv(v0 * (u1 - u0) + (v1 - v0) * (u - u0), u1 - u0)
}

/// Whether the walk of the segment writes pixel `(px, py)`.
pub open spec fn line_covers(x0: int, y0: int, x1: int, y1: int, px: int, py: int) -> bool {
    let (u0, v0, u1, v1) = line_axes(x0, y0, x1, y1);
    let (u, v) = if line_is_steep(x0, y0, x1, y1) {
        (py, px)
    } else {
        (px, py)
    };
    u0 <= u < u1 && v == line_v_at(x0, y0, x1, y1, u)
}

/// Draws the segment from `(x0, y0)` to `(x1, y1)`: exactly the pixels of
/// `line_covers` take `color`, clipped to the framebuffer; every other
/// pixel, and the whole depth grid, stay as they were.
pub fn draw_line(x0: i64, y0: i64, x1: i64, y1: i64, color: Color, image: &mut Framebuffer)
    requires
        old(image).wf(),
        -MAX_COORD <= x0 <= MAX_COORD,
        -MAX_COORD <= y0 <= MAX_COORD,
        -MAX_COORD <= x1 <= MAX_COORD,
        -MAX_COORD <= y1 <= MAX_COORD,
    ensures
        final(image).wf(),
        final(image).width == old(image).width,
        final(image).height == old(image).height,
        final(image).depths == old(image).depths,
        forall|px: int, py: int|
            old(image).in_bounds(px, py) ==> #[trigger] final(image).color_at(px, py) == (
            if line_covers(x0 as int, y0 as int, x1 as int, y1 as int, px, py) {
                color
            } else {
                old(image).color_at(px, py)
            }),
{
    let dx: i64 = if x0 >= x1 {
        x0 - x1
    } else {
        x1 - x0
    };
    let dy: i64 = if y0 >= y1 {
        y0 - y1
    } else {
        y1 - y0
    };
    let steep = dx < dy;
    let (tu0, tv0, tu1, tv1): (i64, i64, i64, i64) = if steep {
        (y0, x0, y1, x1)
    } else {
        (x0, y0, x1, y1)
    };
    let (u0, v0, u1, v1): (i64, i64, i64, i64) = if tu0 > tu1 {
        (tu1, tv1, tu0, tv0)
    } else {
        (tu0, tv0, tu1, tv1)
    };
    proof {
        assert(steep == line_is_steep(x0 as int, y0 as int, x1 as int, y1 as int));
        assert((u0 as int, v0 as int, u1 as int, v1 as int) == line_axes(
            x0 as int,
            y0 as int,
            x1 as int,
            y1 as int,
        ));
    }
    if u0 < u1 {
        let du: i64 = u1 - u0;
        let dv: i64 = v1 - v0;
        let mut u: i64 = u0;
        while u < u1
            invariant
                image.wf(),
                image.width == old(image).width,
                image.height == old(image).height,
                image.depths == old(image).depths,
                u0 <= u <= u1,
                u0 < u1,
                du == u1 - u0,
                dv == v1 - v0,
                -MAX_COORD <= u0 <= MAX_COORD,
                -MAX_COORD <= v0 <= MAX_COORD,
                -MAX_COORD <= u1 <= MAX_COORD,
                -MAX_COORD <= v1 <= MAX_COORD,
                steep == line_is_steep(x0 as int, y0 as int, x1 as int, y1 as int),
                (u0 as int, v0 as int, u1 as int, v1 as int) == line_axes(
                    x0 as int,
                    y0 as int,
                    x1 as int,
                    y1 as int,
                ),
                forall|px: int, py: int|
                    old(image).in_bounds(px, py) ==> #[trigger] image.color_at(px, py) == (
                    if line_covers(x0 as int, y0 as int, x1 as int, y1 as int, px, py) && (
                    if steep {
                        py
                    } else {
                        px
                    }) < u {
                        color
                    } else {
                        old(image).color_at(px, py)
                    }),
            decreases u1 - u,
        {
            proof {
                assert(-0x4000_0000_0000_0000 <= dv * (u - u0) <= 0x4000_0000_0000_0000)
                    by (nonlinear_arith)
                    requires
                        -0x8000_0000i64 <= dv <= 0x8000_0000i64,
                        0 <= u - u0 <= 0x8000_0000i64,
                ;
                assert(-0x2000_0000_0000_0000 <= v0 * du <= 0x2000_0000_0000_0000)
                    by (nonlinear_arith)
                    requires
                        -0x4000_0000i64 <= v0 <= 0x4000_0000i64,
                        0 <= du <= 0x8000_0000i64,
                ;
                lemma_interp_bound(v0 as int, v1 as int, u - u0, du as int, MAX_COORD as int);
                assert((MAX_COORD as int) * du <= 0x4000_0000_0000_0000) by (nonlinear_arith)
                    requires
                        0 <= du <= 0x8000_0000i64,
                ;
            }
            let v: i64 = trunc_div(v0 * du + dv * (u - u0), du);
            proof {
                assert(v == line_v_at(x0 as int, y0 as int, x1 as int, y1 as int, u as int));
            }
            if steep {
                image.set_pixel(v, u, color);
            } else {
                image.set_pixel(u, v, color);
            }
            proof {
                let gx0 = x0 as int;
                let gy0 = y0 as int;
                let gx1 = x1 as int;
                let gy1 = y1 as int;
                assert forall|px: int, py: int| old(image).in_bounds(px, py) implies #[trigger]
                    image.color_at(px, py) == (if line_covers(gx0, gy0, gx1, gy1, px, py) && (
                if steep {
                    py
                } else {
                    px
                }) < u + 1 {
                    color
                } else {
                    old(image).color_at(px, py)
                }) by {
                    if line_covers(gx0, gy0, gx1, gy1, px, py) {
                        assert((if steep {
                            py
                        } else {
                            px
                        }) < u + 1 ==> ((if steep {
                            py
                        } else {
                            px
                        }) < u || (px == (if steep {
                            v as int
                        } else {
                            u as int
                        }) && py == (if steep {
                            u as int
                        } else {
                            v as int
                        }))));
                    }
                }
            }
            u = u + 1;
        }
    }
}

/// Largest coordinate magnitude `draw_triangle` accepts.
pub const MAX_TRI_COORD: i64 = 0x100_0000;

/// All three y-coordinates equal: the triangle has zero screen area.
pub open spec fn tri_degenerate(t0: Point3D, t1: Point3D, t2: Point3D) -> bool {
    t0.y == t1.y && t0.y == t2.y
}

/// The vertices in ascending y order, by the same three conditional
/// exchanges the scan performs.
pub open spec fn tri_sorted(t0: Point3D, t1: Point3D, t2: Point3D) -> (Point3D, Point3D, Point3D) {
    let (a1, b1) = if t0.y > t1.y {
        (t1, t0)
    } else {
        (t0, t1)
    };
    let (a2, c2) = if a1.y > t2.y {
        (t2, a1)
    } else {
        (a1, t2)
    };
    let (b3, c3) = if b1.y > c2.y {
        (c2, b1)
    } else {
        (b1, c2)
    };
    (a2, b3, c3)
}

/// The y-coordinate of the lowest sorted vertex.
pub open spec fn tri_y0(t0: Point3D, t1: Point3D, t2: Point3D) -> int {
    tri_sorted(t0, t1, t2).0.y as int
}

/// Scanline `i` lies in the lower half, between the middle and top sorted
/// vertices.
pub open spec fn scan_second_half(s0: Point3D, s1: Point3D, i: int) -> bool {
    i > s1.y - s0.y || s1.y == s0.y
}

/// x of the boundary point on the long edge at scanline `i`: the
/// interpolated value, truncated toward zero as a whole.
pub open spec fn scan_a_x(s0: Point3D, s2: Point3D, i: int) -> int {
    tdiv(s0.x * (s2.y - s0.y) + (s2.x - s0.x) * i, s2.y - s0.y)
}

/// depth of the boundary point on the long edge at scanline `i`.
pub open spec fn scan_a_z(s0: Point3D, s2: Point3D, i: int) -> int {
    tdiv(s0.z * (s2.y - s0.y) + (s2.z - s0.z) * i, s2.y - s0.y)
}

/// x of the boundary point on the current half's short edge at scanline `i`.
pub open spec fn scan_b_x(s0: Point3D, s1: Point3D, s2: Point3D, i: int) -> int {
    if scan_second_half(s0, s1, i) {
        tdiv(s1.x * (s2.y - s1.y) + (s2.x - s1.x) * (i - (s1.y - s0.y)), s2.y - s1.y)
    } else {
        tdiv(s0.x * (s1.y - s0.y) + (s1.x - s0.x) * i, s1.y - s0.y)
    }
}

/// depth of the boundary point on the current half's short edge.
pub open spec fn scan_b_z(s0: Point3D, s1: Point3D, s2: Point3D, i: int) -> int {
    if scan_second_half(s0, s1, i) {
        tdiv(s1.z * (s2.y - s1.y) + (s2.z - s1.z) * (i - (s1.y - s0.y)), s2.y - s1.y)
    } else {
        tdiv(s0.z * (s1.y - s0.y) + (s1.z - s0.z) * i, s1.y - s0.y)
    }
}

/// The filled span of scanline `i`, left boundary first:
/// `(left x, left depth, right x, right depth)`.
pub open spec fn tri_span(s0: Point3D, s1: Point3D, s2: Point3D, i: int) -> (int, int, int, int) {
    let ax = scan_a_x(s0, s2, i);
    let az = scan_a_z(s0, s2, i);
    let bx = scan_b_x(s0, s1, s2, i);
    let bz = scan_b_z(s0, s1, s2, i);
    if ax > bx {
        (bx, bz, ax, az)
    } else {
        (ax, az, bx, bz)
    }
}

/// Depth interpolated across a span at column `px`, the value truncated
/// toward zero as a whole; a one-pixel span takes the right boundary's
/// depth.
pub open spec fn span_z(lx: int, lz: int, rx: int, rz: int, px: int) -> int {
    if rx == lx {
        rz
    } else {
        tdiv(lz * (rx - lx) + (rz - lz) * (px - lx), rx - lx)
    }
}

/// Whether the scan of the triangle reaches pixel `(px, py)`.
pub open spec fn tri_covers(t0: Point3D, t1: Point3D, t2: Point3D, px: int, py: int) -> bool {
    let (s0, s1, s2) = tri_sorted(t0, t1, t2);
    &&& !tri_degenerate(t0, t1, t2)
    &&& 0 <= py - s0.y < s2.y - s0.y
    &&& {
        let (lx, lz, rx, rz) = tri_span(s0, s1, s2, py - s0.y);
        lx <= px <= rx
    }
}

/// The candidate depth of the triangle at a covered pixel.
pub open spec fn tri_depth(t0: Point3D, t1: Point3D, t2: Point3D, px: int, py: int) -> int {
    let (s0, s1, s2) = tri_sorted(t0, t1, t2);
    let (lx, lz, rx, rz) = tri_span(s0, s1, s2, py - s0.y);
    span_z(lx, lz, rx, rz, px)
}

/// The color a pixel holds after the triangle is drawn over a pixel that
/// held `old_c` at depth `old_d`.
pub open spec fn tri_pixel_color(
    t0: Point3D,
    t1: Point3D,
    t2: Point3D,
    color: Color,
    old_c: Color,
    old_d: int,
    px: int,
    py: int,
) -> Color {
    if tri_covers(t0, t1, t2, px, py) && tri_depth(t0, t1, t2, px, py) > old_d {
        color
    } else {
        old_c
    }
}

/// The depth a pixel holds after the triangle is drawn over depth `old_d`.
pub open spec fn tri_pixel_depth(
    t0: Point3D,
    t1: Point3D,
    t2: Point3D,
    old_d: int,
    px: int,
    py: int,
) -> int {
    if tri_covers(t0, t1, t2, px, py) && tri_depth(t0, t1, t2, px, py) > old_d {
        tri_depth(t0, t1, t2, px, py)
    } else {
        old_d
    }
}

/// A product of two magnitudes up to `2^31` stays within the divider's
/// limit.
proof fn lemma_mul_in_tdiv_range(d: int, k: int)
    requires
        -0x8000_0000 <= d <= 0x8000_0000,
        -0x8000_0000 <= k <= 0x8000_0000,
    ensures
        -0x4000_0000_0000_0000 <= d * k <= 0x4000_0000_0000_0000,
{
    assert(-0x4000_0000_0000_0000 <= d * k <= 0x4000_0000_0000_0000) by (nonlinear_arith)
        requires
            -0x8000_0000 <= d <= 0x8000_0000,
            -0x8000_0000 <= k <= 0x8000_0000,
    ;
}

/// Fills one scanline span at row `py`, columns `lx..=rx`, interpolating
/// depth between `lz` and `rz` and writing each pixel through the strict
/// depth test.
fn fill_span(lx: i64, lz: i64, rx: i64, rz: i64, py: i64, color: Color, image: &mut Framebuffer)
    requires
        old(image).wf(),
        -0x800_0000 <= lx <= 0x800_0000,
        -0x800_0000 <= lz <= 0x800_0000,
        -0x800_0000 <= rx <= 0x800_0000,
        -0x800_0000 <= rz <= 0x800_0000,
    ensures
        final(image).wf(),
        final(image).width == old(image).width,
        final(image).height == old(image).height,
        forall|qx: int, qy: int|
            old(image).in_bounds(qx, qy) ==> #[trigger] final(image).color_at(qx, qy) == (
            if qy == py as int && lx <= qx <= rx && span_z(
                lx as int,
                lz as int,
                rx as int,
                rz as int,
                qx,
            ) > old(image).depth_at(qx, qy) {
                color
            } else {
                old(image).color_at(qx, qy)
            }),
        forall|qx: int, qy: int|
            old(image).in_bounds(qx, qy) ==> #[trigger] final(image).depth_at(qx, qy) == (
            if qy == py as int && lx <= qx <= rx && span_z(
                lx as int,
                lz as int,
                rx as int,
                rz as int,
                qx,
            ) > old(image).depth_at(qx, qy) {
                span_z(lx as int, lz as int, rx as int, rz as int, qx)
            } else {
                old(image).depth_at(qx, qy)
            }),
{
    let mut j: i64 = lx;
    while j <= rx
        invariant
            image.wf(),
            image.width == old(image).width,
            image.height == old(image).height,
            lx <= j,
            j <= rx + 1 || j == lx,
            -0x800_0000 <= lx <= 0x800_0000,
            -0x800_0000 <= lz <= 0x800_0000,
            -0x800_0000 <= rx <= 0x800_0000,
            -0x800_0000 <= rz <= 0x800_0000,
            forall|qx: int, qy: int|
                old(image).in_bounds(qx, qy) ==> #[trigger] image.color_at(qx, qy) == (
                if qy == py as int && lx <= qx < j && span_z(
                    lx as int,
                    lz as int,
                    rx as int,
                    rz as int,
                    qx,
                ) > old(image).depth_at(qx, qy) {
                    color
                } else {
                    old(image).color_at(qx, qy)
                }),
            forall|qx: int, qy: int|
                old(image).in_bounds(qx, qy) ==> #[trigger] image.depth_at(qx, qy) == (
                if qy == py as int && lx <= qx < j && span_z(
                    lx as int,
                    lz as int,
                    rx as int,
                    rz as int,
                    qx,
                ) > old(image).depth_at(qx, qy) {
                    span_z(lx as int, lz as int, rx as int, rz as int, qx)
                } else {
                    old(image).depth_at(qx, qy)
                }),
        decreases rx + 1 - j,
    {
        let z: i64 = if rx == lx {
            rz
        } else {
            proof {
                lemma_mul_in_tdiv_range(lz as int, (rx - lx) as int);
                lemma_mul_in_tdiv_range((rz - lz) as int, (j - lx) as int);
                lemma_interp_bound(lz as int, rz as int, (j - lx) as int, (rx - lx) as int, 0x800_0000);
                lemma_mul_in_tdiv_range(0x800_0000, (rx - lx) as int);
            }
            trunc_div(lz * (rx - lx) + (rz - lz) * (j - lx), rx - lx)
        };
        proof {
            assert(z as int == span_z(lx as int, lz as int, rx as int, rz as int, j as int));
        }
        let ghost pre = *image;
        image.set_pixel_depth(j, py, z, color);
        proof {
            assert forall|qx: int, qy: int| old(image).in_bounds(qx, qy) implies #[trigger]
                image.color_at(qx, qy) == (if qy == py as int && lx <= qx < j + 1 && span_z(
                lx as int,
                lz as int,
                rx as int,
                rz as int,
                qx,
            ) > old(image).depth_at(qx, qy) {
                color
            } else {
                old(image).color_at(qx, qy)
            }) by {
                if qx == j as int && qy == py as int {
                    assert(pre.depth_at(qx, qy) == old(image).depth_at(qx, qy));
                }
            }
            assert forall|qx: int, qy: int| old(image).in_bounds(qx, qy) implies #[trigger]
                image.depth_at(qx, qy) == (if qy == py as int && lx <= qx < j + 1 && span_z(
                lx as int,
                lz as int,
                rx as int,
                rz as int,
                qx,
            ) > old(image).depth_at(qx, qy) {
                span_z(lx as int, lz as int, rx as int, rz as int, qx)
            } else {
                old(image).depth_at(qx, qy)
            }) by {
                if qx == j as int && qy == py as int {
                    assert(pre.depth_at(qx, qy) == old(image).depth_at(qx, qy));
                }
            }
        }
        j = j + 1;
    }
}

/// Scan-converts the triangle with vertices `t0`, `t1`, `t2` (x, y and
/// depth each) into the framebuffer: every covered pixel whose candidate
/// depth is strictly greater than the stored depth takes `color` and the
/// candidate depth; every other pixel is untouched.  A triangle whose three
/// vertices share one y-coordinate writes nothing.
#[verifier::rlimit(100)]
pub fn draw_triangle(
    t0: Point3D,
    t1: Point3D,
    t2: Point3D,
    color: Color,
    image: &mut Framebuffer,
)
    requires
        old(image).wf(),
        pt_in_range(t0, MAX_TRI_COORD as int),
        pt_in_range(t1, MAX_TRI_COORD as int),
        pt_in_range(t2, MAX_TRI_COORD as int),
    ensures
        final(image).wf(),
        final(image).width == old(image).width,
        final(image).height == old(image).height,
        forall|px: int, py: int|
            old(image).in_bounds(px, py) ==> #[trigger] final(image).color_at(px, py)
                == tri_pixel_color(
                t0,
                t1,
                t2,
                color,
                old(image).color_at(px, py),
                old(image).depth_at(px, py),
                px,
                py,
            ),
        forall|px: int, py: int|
            old(image).in_bounds(px, py) ==> #[trigger] final(image).depth_at(px, py)
                == tri_pixel_depth(t0, t1, t2, old(image).depth_at(px, py), px, py),
{
    if t0.y == t1.y && t0.y == t2.y {
        return ;
    }
    let mut a = t0;
    let mut b = t1;
    let mut c = t2;
    if a.y > b.y {
        let t = a;
        a = b;
        b = t;
    }
    if a.y > c.y {
        let t = a;
        a = c;
        c = t;
    }
    if b.y > c.y {
        let t = b;
        b = c;
        c = t;
    }
    proof {
        assert((a, b, c) == tri_sorted(t0, t1, t2));
        assert(a.y <= b.y && b.y <= c.y);
        assert(a.y < c.y);
    }
    let total: i64 = c.y - a.y;
    let mut i: i64 = 0;
    while i < total
        invariant
            image.wf(),
            image.width == old(image).width,
            image.height == old(image).height,
            0 <= i <= total,
            total == c.y - a.y,
            a.y <= b.y && b.y <= c.y,
            a.y < c.y,
            (a, b, c) == tri_sorted(t0, t1, t2),
            !tri_degenerate(t0, t1, t2),
            pt_in_range(a, MAX_TRI_COORD as int),
            pt_in_range(b, MAX_TRI_COORD as int),
            pt_in_range(c, MAX_TRI_COORD as int),
            forall|px: int, py: int|
                old(image).in_bounds(px, py) ==> #[trigger] image.color_at(px, py) == (
                if tri_covers(t0, t1, t2, px, py) && py - tri_y0(t0, t1, t2) < i && tri_depth(
                    t0,
                    t1,
                    t2,
                    px,
                    py,
                ) > old(image).depth_at(px, py) {
                    color
                } else {
                    old(image).color_at(px, py)
                }),
            forall|px: int, py: int|
                old(image).in_bounds(px, py) ==> #[trigger] image.depth_at(px, py) == (
                if tri_covers(t0, t1, t2, px, py) && py - tri_y0(t0, t1, t2) < i && tri_depth(
                    t0,
                    t1,
                    t2,
                    px,
                    py,
                ) > old(image).depth_at(px, py) {
                    tri_depth(t0, t1, t2, px, py)
                } else {
                    old(image).depth_at(px, py)
                }),
        decreases total - i,
    {
        let second = i > b.y - a.y || b.y == a.y;
        let seg: i64 = if second {
            c.y - b.y
        } else {
            b.y - a.y
        };
        proof {
            assert(seg >= 1);
            lemma_mul_in_tdiv_range(a.x as int, total as int);
            lemma_mul_in_tdiv_range(a.z as int, total as int);
            lemma_mul_in_tdiv_range((c.x - a.x) as int, i as int);
            lemma_mul_in_tdiv_range((c.z - a.z) as int, i as int);
            lemma_interp_bound(a.x as int, c.x as int, i as int, total as int, MAX_TRI_COORD as int);
            lemma_interp_bound(a.z as int, c.z as int, i as int, total as int, MAX_TRI_COORD as int);
            lemma_mul_in_tdiv_range(MAX_TRI_COORD as int, total as int);
        }
        let ax: i64 = trunc_div(a.x * total + (c.x - a.x) * i, total);
        let az: i64 = trunc_div(a.z * total + (c.z - a.z) * i, total);
        let (bx, bz): (i64, i64) = if second {
            let k: i64 = i - (b.y - a.y);
            proof {
                assert(0 <= k && k <= seg);
                lemma_mul_in_tdiv_range(b.x as int, seg as int);
                lemma_mul_in_tdiv_range(b.z as int, seg as int);
                lemma_mul_in_tdiv_range((c.x - b.x) as int, k as int);
                lemma_mul_in_tdiv_range((c.z - b.z) as int, k as int);
                lemma_interp_bound(b.x as int, c.x as int, k as int, seg as int, MAX_TRI_COORD as int);
                lemma_interp_bound(b.z as int, c.z as int, k as int, seg as int, MAX_TRI_COORD as int);
                lemma_mul_in_tdiv_range(MAX_TRI_COORD as int, seg as int);
            }
            (
                trunc_div(b.x * seg + (c.x - b.x) * k, seg),
                trunc_div(b.z * seg + (c.z - b.z) * k, seg),
            )
        } else {
            proof {
                assert(0 <= i && i <= seg);
                lemma_mul_in_tdiv_range(a.x as int, seg as int);
                lemma_mul_in_tdiv_range(a.z as int, seg as int);
                lemma_mul_in_tdiv_range((b.x - a.x) as int, i as int);
                lemma_mul_in_tdiv_range((b.z - a.z) as int, i as int);
                lemma_interp_bound(a.x as int, b.x as int, i as int, seg as int, MAX_TRI_COORD as int);
                lemma_interp_bound(a.z as int, b.z as int, i as int, seg as int, MAX_TRI_COORD as int);
                lemma_mul_in_tdiv_range(MAX_TRI_COORD as int, seg as int);
            }
            (
                trunc_div(a.x * seg + (b.x - a.x) * i, seg),
                trunc_div(a.z * seg + (b.z - a.z) * i, seg),
            )
        };
        proof {
            assert(ax as int == scan_a_x(a, c, i as int));
            assert(az as int == scan_a_z(a, c, i as int));
            assert(bx as int == scan_b_x(a, b, c, i as int));
            assert(bz as int == scan_b_z(a, b, c, i as int));
        }
        let (lx, lz, rx, rz): (i64, i64, i64, i64) = if ax > bx {
            (bx, bz, ax, az)
        } else {
            (ax, az, bx, bz)
        };
        proof {
            assert((lx as int, lz as int, rx as int, rz as int) == tri_span(a, b, c, i as int));
        }
        let py: i64 = a.y + i;
        let ghost mid = *image;
        fill_span(lx, lz, rx, rz, py, color, image);
        proof {
            assert forall|qx: int, qy: int| old(image).in_bounds(qx, qy) implies #[trigger]
                image.color_at(qx, qy) == (if tri_covers(t0, t1, t2, qx, qy) && qy - tri_y0(
                t0,
                t1,
                t2,
            ) < i + 1 && tri_depth(t0, t1, t2, qx, qy) > old(image).depth_at(qx, qy) {
                color
            } else {
                old(image).color_at(qx, qy)
            }) by {
                if qy == py as int {
                    assert(mid.color_at(qx, qy) == old(image).color_at(qx, qy));
                    assert(mid.depth_at(qx, qy) == old(image).depth_at(qx, qy));
                    assert(tri_covers(t0, t1, t2, qx, qy) <==> lx <= qx <= rx);
                    if lx <= qx <= rx {
                        assert(tri_depth(t0, t1, t2, qx, qy) == span_z(
                            lx as int,
                            lz as int,
                            rx as int,
                            rz as int,
                            qx,
                        ));
                    }
                } else {
                    assert(image.color_at(qx, qy) == mid.color_at(qx, qy));
                }
            }
            assert forall|qx: int, qy: int| old(image).in_bounds(qx, qy) implies #[trigger]
                image.depth_at(qx, qy) == (if tri_covers(t0, t1, t2, qx, qy) && qy - tri_y0(
                t0,
                t1,
                t2,
            ) < i + 1 && tri_depth(t0, t1, t2, qx, qy) > old(image).depth_at(qx, qy) {
                tri_depth(t0, t1, t2, qx, qy)
            } else {
                old(image).depth_at(qx, qy)
            }) by {
                if qy == py as int {
                    assert(mid.color_at(qx, qy) == old(image).color_at(qx, qy));
                    assert(mid.depth_at(qx, qy) == old(image).depth_at(qx, qy));
                    assert(tri_covers(t0, t1, t2, qx, qy) <==> lx <= qx <= rx);
                    if lx <= qx <= rx {
                        assert(tri_depth(t0, t1, t2, qx, qy) == span_z(
                            lx as int,
                            lz as int,
                            rx as int,
                            rz as int,
                            qx,
                        ));
                    }
                } else {
                    assert(image.depth_at(qx, qy) == mid.depth_at(qx, qy));
                }
            }
        }
        i = i + 1;
    }
}

/// Reversing the endpoints leaves the drawn pixel set unchanged: the walk
/// normalizes the segment before stepping.
pub proof fn lemma_line_covers_symmetric(x0: int, y0: int, x1: int, y1: int, px: int, py: int)
    ensures
        line_covers(x0, y0, x1, y1, px, py) == line_covers(x1, y1, x0, y0, px, py),
{
    assert(abs_i(x0 - x1) == abs_i(x1 - x0));
    assert(abs_i(y0 - y1) == abs_i(y1 - y0));
}

/// A horizontal segment covers exactly the ideal pixels: row `y0`, from
/// the smaller x inclusive to the larger x exclusive, in either argument
/// order.
pub proof fn lemma_line_horizontal(x0: int, y0: int, x1: int, px: int, py: int)
    ensures
        line_covers(x0, y0, x1, y0, px, py) <==> (py == y0 && (if x0 <= x1 {
            x0
        } else {
            x1
        }) <= px < (if x0 <= x1 {
            x1
        } else {
            x0
        })),
{
    if x0 != x1 {
        let (u0, v0, u1, v1) = line_axes(x0, y0, x1, y0);
        assert(u1 - u0 >= 1);
        lemma_tdiv_exact(y0, u1 - u0);
        assert(forall|u: int| line_v_at(x0, y0, x1, y0, u) == y0);
    }
}

/// A vertical segment covers exactly the ideal pixels: column `x0`, from
/// the smaller y inclusive to the larger y exclusive.
pub proof fn lemma_line_vertical(x0: int, y0: int, y1: int, px: int, py: int)
    ensures
        line_covers(x0, y0, x0, y1, px, py) <==> (px == x0 && (if y0 <= y1 {
            y0
        } else {
            y1
        }) <= py < (if y0 <= y1 {
            y1
        } else {
            y0
        })),
{
    if y0 != y1 {
        let (u0, v0, u1, v1) = line_axes(x0, y0, x0, y1);
        assert(u1 - u0 >= 1);
        lemma_tdiv_exact(x0, u1 - u0);
        assert(forall|u: int| line_v_at(x0, y0, x0, y1, u) == x0);
    }
}

/// A 45-degree segment covers exactly the pixels of the ideal line: the
/// columns from the smaller x inclusive to the larger x exclusive, each at
/// the row the exact line equation gives.
pub proof fn lemma_line_diagonal(x0: int, y0: int, x1: int, y1: int, px: int, py: int)
    requires
        abs_i(x0 - x1) == abs_i(y0 - y1),
    ensures
        line_covers(x0, y0, x1, y1, px, py) <==> ((if x0 <= x1 {
            x0
        } else {
            x1
        }) <= px < (if x0 <= x1 {
            x1
        } else {
            x0
        }) && (py - y0) * (x1 - x0) == (px - x0) * (y1 - y0)),
{
    if x0 == x1 {
        assert(y0 == y1);
    } else {
        let (u0, v0, u1, v1) = line_axes(x0, y0, x1, y1);
        let du = u1 - u0;
        let dv = v1 - v0;
        assert(du >= 1);
        assert(dv == du || dv == -du);
        assert forall|u: int| u0 <= u < u1 implies line_v_at(x0, y0, x1, y1, u) == v0 + (if dv
            == du {
            u - u0
        } else {
            u0 - u
        }) by {
            if dv == du {
                assert(v0 * du + dv * (u - u0) == (v0 + (u - u0)) * du) by (nonlinear_arith)
                    requires
                        dv == du,
                ;
                lemma_tdiv_exact(v0 + (u - u0), du);
            } else {
                assert(v0 * du + dv * (u - u0) == (v0 - (u - u0)) * du) by (nonlinear_arith)
                    requires
                        dv == -du,
                ;
                lemma_tdiv_exact(v0 - (u - u0), du);
            }
        }
        if line_covers(x0, y0, x1, y1, px, py) {
            assert((py - y0) * (x1 - x0) == (px - x0) * (y1 - y0)) by (nonlinear_arith)
                requires
                    (py - y0 == px - x0 && y1 - y0 == x1 - x0) || (py - y0 == -(px - x0) && y1 - y0
                        == -(x1 - x0)),
            ;
        }
        if (if x0 <= x1 {
            x0
        } else {
            x1
        }) <= px < (if x0 <= x1 {
            x1
        } else {
            x0
        }) && (py - y0) * (x1 - x0) == (px - x0) * (y1 - y0) {
            assert((py - y0 == px - x0 && y1 - y0 == x1 - x0) || (py - y0 == -(px - x0) && y1 - y0
                == -(x1 - x0))) by (nonlinear_arith)
                requires
                    x1 != x0,
                    (py - y0) * (x1 - x0) == (px - x0) * (y1 - y0),
                    y1 - y0 == x1 - x0 || y1 - y0 == -(x1 - x0),
            ;
        }
    }
}

/// A triangle whose three vertices share one y-coordinate covers no pixel
/// at all: the scan writes nothing.
pub proof fn lemma_degenerate_covers_nothing(
    t0: Point3D,
    t1: Point3D,
    t2: Point3D,
    px: int,
    py: int,
)
    requires
        tri_degenerate(t0, t1, t2),
    ensures
        !tri_covers(t0, t1, t2, px, py),
{
}

/// The depth test makes draw order irrelevant: at a pixel covered by two
/// triangles with distinct candidate depths, drawing them in either order
/// leaves the same color and depth; and when both candidates beat the
/// depth the pixel started with, that color is the one of the strictly
/// greater candidate depth.
pub proof fn lemma_depth_test_order_independent(
    a0: Point3D,
    a1: Point3D,
    a2: Point3D,
    ca: Color,
    b0: Point3D,
    b1: Point3D,
    b2: Point3D,
    cb: Color,
    old_c: Color,
    old_d: int,
    px: int,
    py: int,
)
    requires
        tri_covers(a0, a1, a2, px, py),
        tri_covers(b0, b1, b2, px, py),
        tri_depth(a0, a1, a2, px, py) != tri_depth(b0, b1, b2, px, py),
    ensures
        tri_pixel_color(
            b0,
            b1,
            b2,
            cb,
            tri_pixel_color(a0, a1, a2, ca, old_c, old_d, px, py),
            tri_pixel_depth(a0, a1, a2, old_d, px, py),
            px,
            py,
        ) == tri_pixel_color(
            a0,
            a1,
            a2,
            ca,
            tri_pixel_color(b0, b1, b2, cb, old_c, old_d, px, py),
            tri_pixel_depth(b0, b1, b2, old_d, px, py),
            px,
            py,
        ),
        tri_pixel_depth(
            b0,
            b1,
            b2,
            tri_pixel_depth(a0, a1, a2, old_d, px, py),
            px,
            py,
        ) == tri_pixel_depth(
            a0,
            a1,
            a2,
            tri_pixel_depth(b0, b1, b2, old_d, px, py),
            px,
            py,
        ),
        (tri_depth(a0, a1, a2, px, py) > old_d && tri_depth(b0, b1, b2, px, py) > old_d)
            ==> tri_pixel_color(
            b0,
            b1,
            b2,
            cb,
            tri_pixel_color(a0, a1, a2, ca, old_c, old_d, px, py),
            tri_pixel_depth(a0, a1, a2, old_d, px, py),
            px,
            py,
        ) == (if tri_depth(a0, a1, a2, px, py) > tri_depth(b0, b1, b2, px, py) {
            ca
        } else {
            cb
        }),
{
}

} // verus!
