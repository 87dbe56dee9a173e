use simple_renderer::framebuffer::Color;
use simple_renderer::framebuffer::Framebuffer;
use simple_renderer::geometry::Point3D;

#[test]
fn new_stores_the_components() {
    let p = Point3D::new(1, -2, 3);
    assert_eq!(p.x, 1);
    assert_eq!(p.y, -2);
    assert_eq!(p.z, 3);
}

#[test]
fn multiply_scales_every_component() {
    let p = Point3D::new(1, -2, 3).multiply(-4);
    assert_eq!(p, Point3D::new(-4, 8, -12));
}

#[test]
fn elementwise_arithmetic_is_exact() {
    let a = Point3D::new(5, -6, 7);
    let b = Point3D::new(2, 3, -4);
    assert_eq!(a.add(b), Point3D::new(7, -3, 3));
    assert_eq!(a.sub(b), Point3D::new(3, -9, 11));
    assert_eq!(a.mul(b), Point3D::new(10, -18, -28));
}

#[test]
fn division_truncates_toward_zero() {
    let a = Point3D::new(-7, 7, 1);
    let b = Point3D::new(2, 2, 1);
    assert_eq!(a.div(b), Point3D::new(-3, 3, 1));
    let c = Point3D::new(7, -7, -1);
    let d = Point3D::new(-2, -2, -1);
    assert_eq!(c.div(d), Point3D::new(-3, 3, 1));
}

#[test]
fn out_of_bounds_writes_are_rejected() {
    let mut fb = Framebuffer::new(4, 4);
    let c = Color::new(1, 1, 1);
    fb.set_pixel(-1, 0, c);
    fb.set_pixel(0, -1, c);
    fb.set_pixel(4, 0, c);
    fb.set_pixel(0, 4, c);
    fb.set_pixel_depth(7, 7, 100, c);
    for y in 0..4usize {
        for x in 0..4usize {
            assert_eq!(fb.get_color(x, y), Color::new(0, 0, 0));
            assert_eq!(fb.get_depth(x, y), i64::MIN);
        }
    }
}

#[test]
fn depth_tested_write_follows_the_strict_rule() {
    let mut fb = Framebuffer::new(4, 4);
    let red = Color::new(255, 0, 0);
    let blue = Color::new(0, 0, 255);
    // the first candidate always beats the initial minimum depth
    fb.set_pixel_depth(1, 1, -1000, red);
    assert_eq!(fb.get_color(1, 1), red);
    assert_eq!(fb.get_depth(1, 1), -1000);
    // an exact tie keeps the existing pixel
    fb.set_pixel_depth(1, 1, -1000, blue);
    assert_eq!(fb.get_color(1, 1), red);
    // a smaller depth is rejected
    fb.set_pixel_depth(1, 1, -2000, blue);
    assert_eq!(fb.get_color(1, 1), red);
    // a strictly greater depth wins
    fb.set_pixel_depth(1, 1, 5, blue);
    assert_eq!(fb.get_color(1, 1), blue);
    assert_eq!(fb.get_depth(1, 1), 5);
}
