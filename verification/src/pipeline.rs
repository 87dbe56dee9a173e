//! The render pipeline: shade, project and rasterize every face.
//!
//! Faces are processed strictly in input order.  A face is first shaded;
//! a culled face is skipped entirely.  An accepted face's vertices are
//! projected to screen space with `screen = (object + 1) * dimension / 2`
//! per axis (width, height and the depth range respectively), truncated
//! toward zero, and the projected triangle is drawn with the depth test.

use vstd::prelude::*;
use crate::framebuffer::black;
use crate::framebuffer::Color;
use crate::framebuffer::Framebuffer;
use crate::framebuffer::MAX_DIM;
use crate::geometry::pt_in_range;
use crate::geometry::Point3D;
use crate::geometry::FIXED_ONE;
use crate::numeric::lemma_tdiv_bound;
use crate::numeric::tdiv;
use crate::numeric::trunc_div;
use crate::rasterizer::draw_triangle;
use crate::rasterizer::tri_pixel_color;
use crate::rasterizer::tri_pixel_depth;
use crate::rasterizer::MAX_TRI_COORD;
use crate::shading::face_cross_x;
use crate::shading::face_cross_y;
use crate::shading::face_cross_z;
use crate::shading::grey;
use crate::shading::shade_face;
use crate::shading::shade_level;
use crate::shading::MAX_WORLD;
use crate::wavefront::Mesh;

verus! {

/// Largest depth range `render` accepts.
pub const MAX_DEPTH_RANGE: i64 = 65535;

/// One projected axis: `(c + 1) * dim / 2` in fixed point, truncated
/// toward zero.
pub open spec fn project_coord(c: int, dim: int) -> int {
    tdiv((c + FIXED_ONE) * dim, 2 * FIXED_ONE)
}

/// A vertex projected to screen space: x against the width, y against the
/// height, depth against the depth range.
pub open spec fn project_point(v: Point3D, width: int, height: int, depth: int) -> Point3D {
    Point3D {
        x: project_coord(v.x as int, width) as i64,
        y: project_coord(v.y as int, height) as i64,
        z: project_coord(v.z as int, depth) as i64,
    }
}

/// Projects one vertex to screen space, truncating toward zero.
pub fn project_vertex(v: Point3D, width: usize, height: usize, depth: i64) -> (p: Point3D)
    requires
        pt_in_range(v, MAX_WORLD as int),
        width <= MAX_DIM,
        height <= MAX_DIM,
        0 <= depth <= MAX_DEPTH_RANGE,
    ensures
        p == project_point(v, width as int, height as int, depth as int),
        pt_in_range(p, MAX_TRI_COORD as int),
{
    proof {
        lemma_project_in_range(v.x as int, width as int);
        lemma_project_in_range(v.y as int, height as int);
        lemma_project_in_range(v.z as int, depth as int);
    }
    Point3D {
        x: trunc_div((v.x + FIXED_ONE) * (width as i64), 2 * FIXED_ONE),
        y: trunc_div((v.y + FIXED_ONE) * (height as i64), 2 * FIXED_ONE),
        z: trunc_div((v.z + FIXED_ONE) * depth, 2 * FIXED_ONE),
    }
}

/// A projected coordinate of an in-capacity vertex stays within the
/// rasterizer's range.
proof fn lemma_project_in_range(c: int, dim: int)
    requires
        -MAX_WORLD <= c <= MAX_WORLD,
        0 <= dim <= 65536,
    ensures
        -0x4000_0000_0000_0000 <= (c + FIXED_ONE) * dim <= 0x4000_0000_0000_0000,
        -MAX_TRI_COORD <= project_coord(c, dim) <= MAX_TRI_COORD,
{
    assert(-(0x100_0000 * (2 * 1_000_000)) <= (c + FIXED_ONE) * dim <= 0x100_0000 * (2
        * 1_000_000)) by (nonlinear_arith)
        requires
            -76_000_000 <= c + FIXED_ONE <= 76_000_000,
            0 <= dim <= 65536,
    ;
    lemma_tdiv_bound((c + FIXED_ONE) * dim, 2 * FIXED_ONE, MAX_TRI_COORD as int);
}

/// The three object-space vertices of face `k`.
pub open spec fn face_world(mesh: Mesh, k: int) -> (Point3D, Point3D, Point3D) {
    (
        mesh.vertices[mesh.faces[k].a as int],
        mesh.vertices[mesh.faces[k].b as int],
        mesh.vertices[mesh.faces[k].c as int],
    )
}

/// A face is drawn exactly when its normal has a positive component
/// toward the light: `cz > 0`.
pub open spec fn face_visible(mesh: Mesh, k: int) -> bool {
    let (v0, v1, v2) = face_world(mesh, k);
    face_cross_z(v0, v1, v2) > 0
}

/// The flat-shaded fill color of face `k`.
pub open spec fn face_color(mesh: Mesh, k: int) -> Color {
    let (v0, v1, v2) = face_world(mesh, k);
    grey(shade_level(face_cross_x(v0, v1, v2), face_cross_y(v0, v1, v2), face_cross_z(v0, v1, v2)))
}

/// The projected screen-space triangle of face `k`.
pub open spec fn face_screen(mesh: Mesh, k: int, width: int, height: int, depth: int) -> (
    Point3D,
    Point3D,
    Point3D,
) {
    let (v0, v1, v2) = face_world(mesh, k);
    (
        project_point(v0, width, height, depth),
        project_point(v1, width, height, depth),
        project_point(v2, width, height, depth),
    )
}

/// The depth pixel `(px, py)` holds after the first `n` faces.
pub open spec fn pixel_depth_after(
    mesh: Mesh,
    width: int,
    height: int,
    depth: int,
    px: int,
    py: int,
    n: int,
) -> int
    decreases n,
{
    if n <= 0 {
        i64::MIN as int
    } else {
        let prev = pixel_depth_after(mesh, width, height, depth, px, py, n - 1);
        if face_visible(mesh, n - 1) {
            let (s0, s1, s2) = face_screen(mesh, n - 1, width, height, depth);
            tri_pixel_depth(s0, s1, s2, prev, px, py)
        } else {
            prev
        }
    }
}

/// The color pixel `(px, py)` holds after the first `n` faces.
pub open spec fn pixel_color_after(
    mesh: Mesh,
    width: int,
    height: int,
    depth: int,
    px: int,
    py: int,
    n: int,
) -> Color
    decreases n,
{
    if n <= 0 {
        black()
    } else {
        let prev_c = pixel_color_after(mesh, width, height, depth, px, py, n - 1);
        let prev_d = pixel_depth_after(mesh, width, height, depth, px, py, n - 1);
        if face_visible(mesh, n - 1) {
            let (s0, s1, s2) = face_screen(mesh, n - 1, width, height, depth);
            tri_pixel_color(s0, s1, s2, face_color(mesh, n - 1), prev_c, prev_d, px, py)
        } else {
            prev_c
        }
    }
}

/// Renders the mesh into a fresh framebuffer: every pixel ends exactly as
/// the face-by-face fold of the shaded, projected, depth-tested triangles
/// leaves it.
pub fn render(mesh: &Mesh, width: usize, height: usize, depth_range: i64) -> (fb: Framebuffer)
    requires
        mesh.wf(),
        width <= MAX_DIM,
        height <= MAX_DIM,
        0 <= depth_range <= MAX_DEPTH_RANGE,
    ensures
        fb.wf(),
        fb.width == width,
        fb.height == height,
        forall|px: int, py: int|
            fb.in_bounds(px, py) ==> #[trigger] fb.color_at(px, py) == pixel_color_after(
                *mesh,
                width as int,
                height as int,
                depth_range as int,
                px,
                py,
                mesh.faces.len() as int,
            ),
        forall|px: int, py: int|
            fb.in_bounds(px, py) ==> #[trigger] fb.depth_at(px, py) == pixel_depth_after(
                *mesh,
                width as int,
                height as int,
                depth_range as int,
                px,
                py,
                mesh.faces.len() as int,
            ),
{
    let ghost gw = width as int;
    let ghost gh = height as int;
    let ghost gd = depth_range as int;
    let mut fb = Framebuffer::new(width, height);
    let mut k: usize = 0;
    while k < mesh.faces.len()
        invariant
            mesh.wf(),
            width <= MAX_DIM,
            height <= MAX_DIM,
            0 <= depth_range <= MAX_DEPTH_RANGE,
            gw == width as int,
            gh == height as int,
            gd == depth_range as int,
            0 <= k <= mesh.faces.len(),
            fb.wf(),
            fb.width == width,
            fb.height == height,
            forall|px: int, py: int|
                fb.in_bounds(px, py) ==> #[trigger] fb.color_at(px, py) == pixel_color_after(
                    *mesh,
                    gw,
                    gh,
                    gd,
                    px,
                    py,
                    k as int,
                ),
            forall|px: int, py: int|
                fb.in_bounds(px, py) ==> #[trigger] fb.depth_at(px, py) == pixel_depth_after(
                    *mesh,
                    gw,
                    gh,
                    gd,
                    px,
                    py,
                    k as int,
                ),
        decreases mesh.faces.len() - k,
    {
        let f = mesh.faces[k];
        let v0 = mesh.vertices[f.a];
        let v1 = mesh.vertices[f.b];
        let v2 = mesh.vertices[f.c];
        proof {
            assert((v0, v1, v2) == face_world(*mesh, k as int));
        }
        let shade = shade_face(v0, v1, v2);
        match shade {
            Option::Some(color) => {
                let p0 = project_vertex(v0, width, height, depth_range);
                let p1 = project_vertex(v1, width, height, depth_range);
                let p2 = project_vertex(v2, width, height, depth_range);
                let ghost mid = fb;
                proof {
                    assert(face_visible(*mesh, k as int));
                    assert((p0, p1, p2) == face_screen(*mesh, k as int, gw, gh, gd));
                    assert(color == face_color(*mesh, k as int));
                }
                draw_triangle(p0, p1, p2, color, &mut fb);
                proof {
                    assert forall|px: int, py: int| fb.in_bounds(px, py) implies #[trigger]
                        fb.color_at(px, py) == pixel_color_after(
                        *mesh,
                        gw,
                        gh,
                        gd,
                        px,
                        py,
                        k + 1,
                    ) && #[trigger] fb.depth_at(px, py) == pixel_depth_after(
                        *mesh,
                        gw,
                        gh,
                        gd,
                        px,
                        py,
                        k + 1,
                    ) by {
                        assert(mid.color_at(px, py) == pixel_color_after(
                            *mesh,
                            gw,
                            gh,
                            gd,
                            px,
                            py,
                            k as int,
                        ));
                        assert(mid.depth_at(px, py) == pixel_depth_after(
                            *mesh,
                            gw,
                            gh,
                            gd,
                            px,
                            py,
                            k as int,
                        ));
                    }
                }
            },
            Option::None => {
                proof {
                    assert(!face_visible(*mesh, k as int));
                    assert forall|px: int, py: int| fb.in_bounds(px, py) implies #[trigger]
                        fb.color_at(px, py) == pixel_color_after(
                        *mesh,
                        gw,
                        gh,
                        gd,
                        px,
                        py,
                        k + 1,
                    ) && #[trigger] fb.depth_at(px, py) == pixel_depth_after(
                        *mesh,
                        gw,
                        gh,
                        gd,
                        px,
                        py,
                        k + 1,
                    ) by {}
                }
            },
        }
        k = k + 1;
    }
    fb
}


/// Back-face culling as a whole-render fact: a mesh whose first `n` faces
/// all face away from (or edge-on to) the light leaves every pixel of the
/// fold untouched — the background color and the minimum depth.
pub proof fn lemma_culled_faces_render_nothing(
    mesh: Mesh,
    width: int,
    height: int,
    depth: int,
    px: int,
    py: int,
    n: int,
)
    requires
        forall|k: int| 0 <= k < n ==> !face_visible(mesh, k),
    ensures
        pixel_color_after(mesh, width, height, depth, px, py, n) == black(),
        pixel_depth_after(mesh, width, height, depth, px, py, n) == i64::MIN as int,
    decreases n,
{
    if n > 0 {
        lemma_culled_faces_render_nothing(mesh, width, height, depth, px, py, n - 1);
    }
}

} // verus!
