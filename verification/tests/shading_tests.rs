use simple_renderer::framebuffer::Color;
use simple_renderer::geometry::Point3D;
use simple_renderer::shading::shade_face;

// one fixed-point unit
const ONE: i64 = 1_000_000;

#[test]
fn face_toward_the_light_shades_full_white() {
    // edges (v0 - v1) x (v1 - v2) point straight at the light (0, 0, 1)
    let v0 = Point3D::new(ONE, 0, 0);
    let v1 = Point3D::new(0, 0, 0);
    let v2 = Point3D::new(0, -ONE, 0);
    let c = shade_face(v0, v1, v2).unwrap();
    assert_eq!(c, Color::new(255, 255, 255));
}

#[test]
fn back_facing_triangle_is_culled() {
    // the same face with two vertices exchanged: the normal flips
    let v0 = Point3D::new(0, -ONE, 0);
    let v1 = Point3D::new(0, 0, 0);
    let v2 = Point3D::new(ONE, 0, 0);
    assert!(shade_face(v0, v1, v2).is_none());
}

#[test]
fn edge_on_triangle_is_culled() {
    // all three vertices on one line: zero-length normal
    let v0 = Point3D::new(0, 0, 0);
    let v1 = Point3D::new(ONE, 0, 0);
    let v2 = Point3D::new(2 * ONE, 0, 0);
    assert!(shade_face(v0, v1, v2).is_none());
}

#[test]
fn tilted_face_shades_by_its_exact_intensity() {
    // cross product (0, 3, 4) scaled: intensity 4/5, grey trunc(255 * 4/5) = 204
    let v1 = Point3D::new(0, 0, 0);
    let v0 = Point3D::new(ONE, 0, 0);
    let v2 = Point3D::new(0, -4 * ONE, 3 * ONE);
    let c = shade_face(v0, v1, v2).unwrap();
    assert_eq!(c, Color::new(204, 204, 204));
}
