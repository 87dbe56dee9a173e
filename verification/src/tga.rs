//! Image encoding: an uncompressed true-color raster with a fixed
//! 18-byte header.
//!
//! The header states an uncompressed true-color image (type 2) of 24 bits
//! per pixel, with the width and height as little-endian 16-bit values; it
//! carries no identification field and no color map.  The pixel data
//! follows row by row in the file's native bottom-to-top scan order — the
//! framebuffer's row 0 is the file's bottom row — with the channels of
//! each pixel in blue, green, red order.

use vstd::prelude::*;
use crate::framebuffer::Color;
use crate::framebuffer::Framebuffer;

verus! {

/// The byte at offset `i` of the encoded image of a `width` by `height`
/// grid of `colors`.
pub open spec fn tga_byte(width: int, height: int, colors: Seq<Color>, i: int) -> u8 {
    if i == 2 {
        2
    } else if i == 12 {
        (width % 256) as u8
    } else if i == 13 {
        (width / 256) as u8
    } else if i == 14 {
        (height % 256) as u8
    } else if i == 15 {
        (height / 256) as u8
    } else if i == 16 {
        24
    } else if i < 18 {
        0
    } else {
        let p = (i - 18) / 3;
        let ch = (i - 18) % 3;
        if ch == 0 {
            colors[p].b
        } else if ch == 1 {
            colors[p].g
        } else {
            colors[p].r
        }
    }
}

/// The whole encoded image: 18 header bytes, then three bytes per pixel.
pub open spec fn tga_bytes(width: int, height: int, colors: Seq<Color>) -> Seq<u8> {
    Seq::new((18 + 3 * colors.len()) as nat, |i: int| tga_byte(width, height, colors, i))
}

/// Serializes the framebuffer byte-exactly as `tga_bytes` lays it out.
pub fn encode(fb: &Framebuffer) -> (r: Vec<u8>)
    requires
        fb.wf(),
    ensures
        r@ == tga_bytes(fb.width as int, fb.height as int, fb.colors@),
{
    let ghost gw = fb.width as int;
    let ghost gh = fb.height as int;
    let ghost gc = fb.colors@;
    let mut out: Vec<u8> = Vec::new();
    out.push(0);
    out.push(0);
    out.push(2);
    out.push(0);
    out.push(0);
    out.push(0);
    out.push(0);
    out.push(0);
    out.push(0);
    out.push(0);
    out.push(0);
    out.push(0);
    out.push((fb.width % 256) as u8);
    out.push((fb.width / 256) as u8);
    out.push((fb.height % 256) as u8);
    out.push((fb.height / 256) as u8);
    out.push(24);
    out.push(0);
    proof {
        assert forall|i: int| 0 <= i < 18 implies out@[i] == tga_byte(gw, gh, gc, i) by {}
    }
    let mut p: usize = 0;
    while p < fb.colors.len()
        invariant
            0 <= p <= fb.colors.len(),
            gw == fb.width as int,
            gh == fb.height as int,
            gc == fb.colors@,
            out@.len() == 18 + 3 * p,
            forall|i: int| 0 <= i < out@.len() ==> out@[i] == tga_byte(gw, gh, gc, i),
        decreases fb.colors.len() - p,
    {
        let c = fb.colors[p];
        out.push(c.b);
        out.push(c.g);
        out.push(c.r);
        proof {
            assert forall|i: int| 0 <= i < out@.len() implies out@[i] == tga_byte(gw, gh, gc, i) by {
                if i >= 18 + 3 * p {
                    assert((i - 18) / 3 == p && (i - 18) % 3 == i - 18 - 3 * p);
                }
            }
        }
        p = p + 1;
    }
    proof {
        assert(out@ =~= tga_bytes(gw, gh, gc));
    }
    out
}

/// Whether the bytes are a well-formed encoded image: the fixed header
/// with the 24-bit uncompressed true-color marker, and exactly three
/// bytes per pixel of the stated dimensions.
pub open spec fn decode_ok(bytes: Seq<u8>) -> bool {
    &&& bytes.len() >= 18
    &&& bytes[0] == 0
    &&& bytes[1] == 0
    &&& bytes[2] == 2
    &&& bytes[3] == 0
    &&& bytes[4] == 0
    &&& bytes[5] == 0
    &&& bytes[6] == 0
    &&& bytes[7] == 0
    &&& bytes[8] == 0
    &&& bytes[9] == 0
    &&& bytes[10] == 0
    &&& bytes[11] == 0
    &&& bytes[16] == 24
    &&& bytes[17] == 0
    &&& bytes.len() == 18 + 3 * (decoded_width(bytes) * decoded_height(bytes))
}

/// The width the header states.
pub open spec fn decoded_width(bytes: Seq<u8>) -> int {
    bytes[12] + 256 * bytes[13]
}

/// The height the header states.
pub open spec fn decoded_height(bytes: Seq<u8>) -> int {
    bytes[14] + 256 * bytes[15]
}

/// The `p`-th pixel of the payload, read back from blue, green, red order.
pub open spec fn decoded_pixel(bytes: Seq<u8>, p: int) -> Color {
    Color { r: bytes[18 + 3 * p + 2], g: bytes[18 + 3 * p + 1], b: bytes[18 + 3 * p] }
}

/// An image read back from its encoded bytes.
pub struct DecodedImage {
    pub width: usize,
    pub height: usize,
    pub bits: u8,
    pub pixels: Vec<Color>,
}

/// Reads an encoded image back: its dimensions, its bit depth and its
/// pixels; nothing for bytes that are not a well-formed encoding.
pub fn decode(bytes: &[u8]) -> (r: Option<DecodedImage>)
    ensures
        match r {
            Some(img) => {
                &&& decode_ok(bytes@)
                &&& img.width == decoded_width(bytes@)
                &&& img.height == decoded_height(bytes@)
                &&& img.bits == 24
                &&& img.pixels@.len() == decoded_width(bytes@) * decoded_height(bytes@)
                &&& forall|p: int|
                    0 <= p < img.pixels@.len() ==> #[trigger] img.pixels@[p] == decoded_pixel(
                        bytes@,
                        p,
                    )
            },
            Option::None => !decode_ok(bytes@),
        },
{
    let n = bytes.len();
    if n < 18 {
        return Option::None;
    }
    if bytes[0] != 0 || bytes[1] != 0 || bytes[2] != 2 || bytes[3] != 0 || bytes[4] != 0
        || bytes[5] != 0 || bytes[6] != 0 || bytes[7] != 0 || bytes[8] != 0 || bytes[9] != 0
        || bytes[10] != 0 || bytes[11] != 0 || bytes[16] != 24 || bytes[17] != 0 {
        return Option::None;
    }
    let w: u64 = bytes[12] as u64 + 256 * (bytes[13] as u64);
    let h: u64 = bytes[14] as u64 + 256 * (bytes[15] as u64);
    proof {
        assert(w * h <= 65535 * 65535) by (nonlinear_arith)
            requires
                0 <= w <= 65535,
                0 <= h <= 65535,
        ;
        assert(w * h == decoded_width(bytes@) * decoded_height(bytes@));
    }
    if (n as u64) != 18 + 3 * (w * h) {
        return Option::None;
    }
    let count: usize = (w as usize) * (h as usize);
    let mut pixels: Vec<Color> = Vec::new();
    let mut p: usize = 0;
    while p < count
        invariant
            0 <= p <= count,
            count == decoded_width(bytes@) * decoded_height(bytes@),
            n == bytes@.len() == 18 + 3 * count,
            pixels@.len() == p,
            forall|q: int|
                0 <= q < p ==> #[trigger] pixels@[q] == decoded_pixel(bytes@, q),
        decreases count - p,
    {
        let base: usize = 18 + 3 * p;
        let c = Color { r: bytes[base + 2], g: bytes[base + 1], b: bytes[base] };
        pixels.push(c);
        p = p + 1;
    }
    Some(DecodedImage { width: w as usize, height: h as usize, bits: 24, pixels })
}

/// Round trip: decoding an encoded framebuffer recovers the width, the
/// height, the 24-bit depth, and every pixel exactly.
pub proof fn lemma_tga_round_trip(width: int, height: int, colors: Seq<Color>)
    requires
        0 <= width < 65536,
        0 <= height < 65536,
        colors.len() == width * height,
    ensures
        decode_ok(tga_bytes(width, height, colors)),
        decoded_width(tga_bytes(width, height, colors)) == width,
        decoded_height(tga_bytes(width, height, colors)) == height,
        forall|p: int|
            0 <= p < colors.len() ==> decoded_pixel(tga_bytes(width, height, colors), p)
                == colors[p],
{
    let bytes = tga_bytes(width, height, colors);
    assert(bytes[12] == (width % 256) as u8);
    assert(bytes[13] == (width / 256) as u8);
    assert(width % 256 + 256 * (width / 256) == width);
    assert(height % 256 + 256 * (height / 256) == height);
    assert(decoded_width(bytes) == width);
    assert(decoded_height(bytes) == height);
    assert forall|p: int| 0 <= p < colors.len() implies decoded_pixel(bytes, p) == colors[p] by {
        assert((18 + 3 * p - 18) / 3 == p && (18 + 3 * p - 18) % 3 == 0);
        assert((18 + 3 * p + 1 - 18) / 3 == p && (18 + 3 * p + 1 - 18) % 3 == 1);
        assert((18 + 3 * p + 2 - 18) / 3 == p && (18 + 3 * p + 2 - 18) % 3 == 2);
    }
}

} // verus!
