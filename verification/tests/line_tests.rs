use simple_renderer::framebuffer::Color;
use simple_renderer::framebuffer::Framebuffer;
use simple_renderer::rasterizer::draw_line;

fn count_colored(fb: &Framebuffer, c: Color) -> usize {
    let mut n = 0;
    for y in 0..fb.get_height() {
        for x in 0..fb.get_width() {
            if fb.get_color(x, y) == c {
                n += 1;
            }
        }
    }
    n
}

#[test]
fn horizontal_line_writes_exactly_the_segment() {
    let mut fb = Framebuffer::new(20, 20);
    let white = Color::new(255, 255, 255);
    draw_line(0, 0, 10, 0, white, &mut fb);
    for x in 0..10usize {
        assert_eq!(fb.get_color(x, 0), white);
    }
    assert_eq!(fb.get_color(10, 0), Color::new(0, 0, 0));
    assert_eq!(count_colored(&fb, white), 10);
}

#[test]
fn horizontal_line_is_symmetric_in_its_endpoints() {
    let white = Color::new(255, 255, 255);
    let mut fb1 = Framebuffer::new(20, 20);
    let mut fb2 = Framebuffer::new(20, 20);
    draw_line(0, 5, 10, 5, white, &mut fb1);
    draw_line(10, 5, 0, 5, white, &mut fb2);
    for y in 0..20usize {
        for x in 0..20usize {
            assert_eq!(fb1.get_color(x, y), fb2.get_color(x, y));
        }
    }
}

#[test]
fn vertical_line_writes_exactly_the_segment() {
    let mut fb = Framebuffer::new(20, 20);
    let red = Color::new(255, 0, 0);
    draw_line(3, 2, 3, 9, red, &mut fb);
    for y in 2..9usize {
        assert_eq!(fb.get_color(3, y), red);
    }
    assert_eq!(count_colored(&fb, red), 7);
}

#[test]
fn vertical_line_is_symmetric_in_its_endpoints() {
    let red = Color::new(255, 0, 0);
    let mut fb1 = Framebuffer::new(20, 20);
    let mut fb2 = Framebuffer::new(20, 20);
    draw_line(7, 1, 7, 12, red, &mut fb1);
    draw_line(7, 12, 7, 1, red, &mut fb2);
    for y in 0..20usize {
        for x in 0..20usize {
            assert_eq!(fb1.get_color(x, y), fb2.get_color(x, y));
        }
    }
}

#[test]
fn diagonal_line_has_no_gaps() {
    let mut fb = Framebuffer::new(20, 20);
    let c = Color::new(0, 255, 0);
    draw_line(0, 0, 5, 5, c, &mut fb);
    for i in 0..5usize {
        assert_eq!(fb.get_color(i, i), c);
    }
    assert_eq!(count_colored(&fb, c), 5);
}

#[test]
fn anti_diagonal_line_has_no_gaps() {
    let mut fb = Framebuffer::new(20, 20);
    let c = Color::new(0, 255, 0);
    draw_line(0, 4, 4, 0, c, &mut fb);
    assert_eq!(fb.get_color(0, 4), c);
    assert_eq!(fb.get_color(1, 3), c);
    assert_eq!(fb.get_color(2, 2), c);
    assert_eq!(fb.get_color(3, 1), c);
    assert_eq!(count_colored(&fb, c), 4);
}

#[test]
fn diagonal_line_is_symmetric_in_its_endpoints() {
    let c = Color::new(0, 255, 0);
    let mut fb1 = Framebuffer::new(20, 20);
    let mut fb2 = Framebuffer::new(20, 20);
    draw_line(2, 3, 9, 10, c, &mut fb1);
    draw_line(9, 10, 2, 3, c, &mut fb2);
    for y in 0..20usize {
        for x in 0..20usize {
            assert_eq!(fb1.get_color(x, y), fb2.get_color(x, y));
        }
    }
}

#[test]
fn steep_line_iterates_the_dominant_axis() {
    let mut fb = Framebuffer::new(20, 20);
    let c = Color::new(9, 9, 9);
    draw_line(0, 0, 2, 8, c, &mut fb);
    // one pixel per row 0..8, interpolated x truncated toward zero
    assert_eq!(count_colored(&fb, c), 8);
    for y in 0..8usize {
        let x = 2 * y / 8;
        assert_eq!(fb.get_color(x, y), c);
    }
}

#[test]
fn zero_length_segment_writes_no_pixel() {
    let mut fb = Framebuffer::new(20, 20);
    let c = Color::new(1, 2, 3);
    draw_line(3, 3, 3, 3, c, &mut fb);
    assert_eq!(count_colored(&fb, c), 0);
}

#[test]
fn line_is_clipped_to_the_framebuffer() {
    let mut fb = Framebuffer::new(3, 3);
    let c = Color::new(255, 255, 255);
    draw_line(-5, 1, 5, 1, c, &mut fb);
    assert_eq!(fb.get_color(0, 1), c);
    assert_eq!(fb.get_color(1, 1), c);
    assert_eq!(fb.get_color(2, 1), c);
    assert_eq!(count_colored(&fb, c), 3);
}

#[test]
fn interpolation_truncates_the_value_toward_zero() {
    // from (0,5) to (2,4) the value at x = 1 is 4.5, which truncates to 4:
    // the pixel lands on row 4, not on the starting row
    let c = Color::new(7, 7, 7);
    let mut fb = Framebuffer::new(10, 10);
    draw_line(0, 5, 2, 4, c, &mut fb);
    assert_eq!(fb.get_color(0, 5), c);
    assert_eq!(fb.get_color(1, 4), c);
    assert_eq!(fb.get_color(1, 5), Color::new(0, 0, 0));
    let mut fb2 = Framebuffer::new(10, 10);
    draw_line(2, 4, 0, 5, c, &mut fb2);
    for y in 0..10usize {
        for x in 0..10usize {
            assert_eq!(fb.get_color(x, y), fb2.get_color(x, y));
        }
    }
}
