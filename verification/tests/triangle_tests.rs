use simple_renderer::framebuffer::Color;
use simple_renderer::framebuffer::Framebuffer;
use simple_renderer::geometry::Point3D;
use simple_renderer::rasterizer::draw_triangle;

fn count_colored(fb: &Framebuffer, c: Color) -> usize {
    let mut n = 0;
    for y in 0..fb.get_height() {
        for x in 0..fb.get_width() {
            if fb.get_color(x, y) == c {
                n += 1;
            }
        }
    }
    n
}

#[test]
fn triangle_pixel_count_matches_its_area() {
    let mut fb = Framebuffer::new(20, 20);
    let c = Color::new(200, 200, 200);
    draw_triangle(
        Point3D::new(0, 0, 0),
        Point3D::new(10, 0, 0),
        Point3D::new(0, 10, 0),
        c,
        &mut fb,
    );
    // geometric area 50; the scan includes both span boundaries, so the
    // count sits a little above it
    let n = count_colored(&fb, c);
    assert!(n >= 45 && n <= 66, "pixel count {} not near the area", n);
}

#[test]
fn degenerate_triangle_writes_nothing() {
    let mut fb = Framebuffer::new(20, 20);
    let c = Color::new(200, 200, 200);
    draw_triangle(
        Point3D::new(1, 5, 0),
        Point3D::new(9, 5, 0),
        Point3D::new(15, 5, 0),
        c,
        &mut fb,
    );
    assert_eq!(count_colored(&fb, c), 0);
    for y in 0..20usize {
        for x in 0..20usize {
            assert_eq!(fb.get_color(x, y), Color::new(0, 0, 0));
            assert_eq!(fb.get_depth(x, y), i64::MIN);
        }
    }
}

#[test]
fn depth_test_keeps_the_greater_depth_in_either_order() {
    let near = Color::new(255, 0, 0);
    let far = Color::new(0, 0, 255);
    let t_near = (
        Point3D::new(0, 0, 10),
        Point3D::new(10, 0, 10),
        Point3D::new(0, 10, 10),
    );
    let t_far = (
        Point3D::new(0, 0, 5),
        Point3D::new(10, 0, 5),
        Point3D::new(0, 10, 5),
    );

    let mut fb1 = Framebuffer::new(20, 20);
    draw_triangle(t_near.0, t_near.1, t_near.2, near, &mut fb1);
    draw_triangle(t_far.0, t_far.1, t_far.2, far, &mut fb1);

    let mut fb2 = Framebuffer::new(20, 20);
    draw_triangle(t_far.0, t_far.1, t_far.2, far, &mut fb2);
    draw_triangle(t_near.0, t_near.1, t_near.2, near, &mut fb2);

    // the overlap shows the strictly greater depth, whatever the order
    assert_eq!(fb1.get_color(2, 2), near);
    assert_eq!(fb2.get_color(2, 2), near);
    assert_eq!(fb1.get_depth(2, 2), 10);
    assert_eq!(fb2.get_depth(2, 2), 10);
    for y in 0..20usize {
        for x in 0..20usize {
            assert_eq!(fb1.get_color(x, y), fb2.get_color(x, y));
            assert_eq!(fb1.get_depth(x, y), fb2.get_depth(x, y));
        }
    }
}

#[test]
fn equal_depth_keeps_the_earlier_pixel() {
    let first = Color::new(255, 0, 0);
    let second = Color::new(0, 0, 255);
    let mut fb = Framebuffer::new(20, 20);
    draw_triangle(
        Point3D::new(0, 0, 7),
        Point3D::new(10, 0, 7),
        Point3D::new(0, 10, 7),
        first,
        &mut fb,
    );
    draw_triangle(
        Point3D::new(0, 0, 7),
        Point3D::new(10, 0, 7),
        Point3D::new(0, 10, 7),
        second,
        &mut fb,
    );
    assert_eq!(fb.get_color(2, 2), first);
}

#[test]
fn off_screen_triangle_is_clipped() {
    let mut fb = Framebuffer::new(5, 5);
    let c = Color::new(50, 50, 50);
    draw_triangle(
        Point3D::new(-10, -10, 0),
        Point3D::new(30, -10, 0),
        Point3D::new(-10, 30, 0),
        c,
        &mut fb,
    );
    // the framebuffer lies inside the triangle: fully covered, nothing faults
    assert_eq!(count_colored(&fb, c), 25);
}

#[test]
fn depth_interpolates_as_the_truncated_value() {
    // along the long edge from depth 9 down to 0 over four rows, the value
    // at row 1 is 6.75: the stored depth is 6, truncated as a whole
    let c = Color::new(80, 80, 80);
    let mut fb = Framebuffer::new(10, 10);
    draw_triangle(
        Point3D::new(0, 0, 9),
        Point3D::new(4, 0, 9),
        Point3D::new(0, 4, 0),
        c,
        &mut fb,
    );
    assert_eq!(fb.get_depth(0, 1), 6);
}
