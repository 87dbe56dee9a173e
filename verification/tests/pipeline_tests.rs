use simple_renderer::framebuffer::Color;
use simple_renderer::geometry::Point3D;
use simple_renderer::pipeline::project_vertex;
use simple_renderer::pipeline::render;
use simple_renderer::wavefront::parse;

// one fixed-point unit
const ONE: i64 = 1_000_000;

#[test]
fn projection_maps_the_unit_cube_to_the_screen() {
    // (object + 1) * dimension / 2, truncated toward zero, per axis
    let p = project_vertex(Point3D::new(0, 0, 0), 1000, 1000, 255);
    assert_eq!(p, Point3D::new(500, 500, 127));
    let p = project_vertex(Point3D::new(-ONE, -ONE, -ONE), 1000, 1000, 255);
    assert_eq!(p, Point3D::new(0, 0, 0));
    let p = project_vertex(Point3D::new(ONE, ONE, ONE), 1000, 1000, 255);
    assert_eq!(p, Point3D::new(1000, 1000, 255));
}

#[test]
fn rendering_a_visible_face_lights_its_pixels() {
    let text = b"v 0.0 0.0 0.0\nv 1.0 0.0 0.0\nv 0.0 -1.0 0.0\nf 2/1/1 1/1/1 3/1/1\n";
    let mesh = parse(text).unwrap();
    // the face's normal points at the light: full white fill
    let fb = render(&mesh, 20, 20, 255);
    assert_eq!(fb.get_width(), 20);
    assert_eq!(fb.get_height(), 20);
    assert_eq!(fb.get_color(11, 5), Color::new(255, 255, 255));
    assert_eq!(fb.get_color(0, 0), Color::new(0, 0, 0));
}

#[test]
fn a_culled_face_renders_no_pixel_at_all() {
    // the same triangle with the winding reversed: anti-parallel normal,
    // non-degenerate on screen, still nothing drawn
    let text = b"v 0.0 0.0 0.0\nv 1.0 0.0 0.0\nv 0.0 -1.0 0.0\nf 3/1/1 1/1/1 2/1/1\n";
    let mesh = parse(text).unwrap();
    let fb = render(&mesh, 20, 20, 255);
    for y in 0..20usize {
        for x in 0..20usize {
            assert_eq!(fb.get_color(x, y), Color::new(0, 0, 0));
            assert_eq!(fb.get_depth(x, y), i64::MIN);
        }
    }
}

#[test]
fn faces_overlap_by_depth_not_by_draw_order() {
    // two parallel faces toward the light at different depths, in both
    // file orders: the nearer one (greater projected depth) wins
    let near_then_far =
        b"v 0.0 0.0 0.5\nv 1.0 0.0 0.5\nv 0.0 -1.0 0.5\nv 0.0 0.0 -0.5\nv 1.0 0.0 -0.5\nv 0.0 -1.0 -0.5\nf 2 1 3\nf 5 4 6\n";
    let far_then_near =
        b"v 0.0 0.0 -0.5\nv 1.0 0.0 -0.5\nv 0.0 -1.0 -0.5\nv 0.0 0.0 0.5\nv 1.0 0.0 0.5\nv 0.0 -1.0 0.5\nf 2 1 3\nf 5 4 6\n";
    let fb1 = render(&parse(near_then_far).unwrap(), 20, 20, 255);
    let fb2 = render(&parse(far_then_near).unwrap(), 20, 20, 255);
    for y in 0..20usize {
        for x in 0..20usize {
            assert_eq!(fb1.get_color(x, y), fb2.get_color(x, y));
            assert_eq!(fb1.get_depth(x, y), fb2.get_depth(x, y));
        }
    }
    // both faces cover (11, 5); the nearer depth is (0.5 + 1) * 255 / 2 = 191
    assert_eq!(fb1.get_depth(11, 5), 191);
}

#[test]
fn mesh_validity_check_matches_the_parser() {
    let mesh = parse(b"v 0 0 0\nv 1 0 0\nv 0 1 0\nf 1 2 3\n").unwrap();
    assert!(mesh.is_valid());
}
