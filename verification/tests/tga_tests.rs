use simple_renderer::framebuffer::Color;
use simple_renderer::framebuffer::Framebuffer;
use simple_renderer::tga::decode;
use simple_renderer::tga::encode;

#[test]
fn header_round_trip_recovers_the_image() {
    let fb = Framebuffer::new(2, 2);
    let bytes = encode(&fb);
    let img = decode(&bytes).unwrap();
    assert_eq!(img.width, 2);
    assert_eq!(img.height, 2);
    assert_eq!(img.bits, 24);
    assert_eq!(img.pixels.len(), 4);
    for p in img.pixels {
        assert_eq!(p, Color::new(0, 0, 0));
    }
}

#[test]
fn header_bytes_are_exact() {
    let fb = Framebuffer::new(2, 2);
    let bytes = encode(&fb);
    assert_eq!(bytes.len(), 18 + 12);
    assert_eq!(
        &bytes[0..18],
        &[0, 0, 2, 0, 0, 0, 0, 0, 0, 0, 0, 0, 2, 0, 2, 0, 24, 0]
    );
}

#[test]
fn width_and_height_are_little_endian() {
    let fb = Framebuffer::new(300, 1);
    let bytes = encode(&fb);
    assert_eq!(bytes[12], 44); // 300 = 44 + 1 * 256
    assert_eq!(bytes[13], 1);
    assert_eq!(bytes[14], 1);
    assert_eq!(bytes[15], 0);
}

#[test]
fn pixels_are_written_blue_green_red() {
    let mut fb = Framebuffer::new(2, 1);
    fb.set_pixel(0, 0, Color::new(1, 2, 3));
    fb.set_pixel(1, 0, Color::new(10, 20, 30));
    let bytes = encode(&fb);
    assert_eq!(&bytes[18..21], &[3, 2, 1]);
    assert_eq!(&bytes[21..24], &[30, 20, 10]);
}

#[test]
fn round_trip_keeps_every_pixel() {
    let mut fb = Framebuffer::new(3, 2);
    fb.set_pixel(0, 0, Color::new(1, 2, 3));
    fb.set_pixel(2, 1, Color::new(9, 8, 7));
    let img = decode(&encode(&fb)).unwrap();
    assert_eq!(img.pixels[0], Color::new(1, 2, 3));
    assert_eq!(img.pixels[5], Color::new(9, 8, 7));
    assert_eq!(img.pixels[1], Color::new(0, 0, 0));
}

#[test]
fn decode_rejects_a_truncated_image() {
    let fb = Framebuffer::new(2, 2);
    let mut bytes = encode(&fb);
    bytes.pop();
    assert!(decode(&bytes).is_none());
}

#[test]
fn decode_rejects_a_wrong_image_type() {
    let fb = Framebuffer::new(1, 1);
    let mut bytes = encode(&fb);
    bytes[2] = 10;
    assert!(decode(&bytes).is_none());
}
