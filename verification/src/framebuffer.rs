//! The render target: a color grid and a parallel depth grid.
//!
//! Both grids have exactly `width * height` cells and are addressed as
//! `x + y * width`.  Every write is bounds-checked: a coordinate outside the
//! grid is rejected and leaves the buffer unchanged.  The depth grid starts
//! at the smallest representable value, so the first candidate at a pixel
//! always passes the strict depth test.

use vstd::prelude::*;

verus! {

/// A true-color pixel: three unsigned byte channels.
#[derive(Clone, Copy, Debug, PartialEq, Eq, Structural)]
pub struct Color {
    pub r: u8,
    pub g: u8,
    pub b: u8,
}

impl Color {
    /// The color with the given channels.
    pub fn new(r: u8, g: u8, b: u8) -> (c: Color)
        ensures
            c == (Color { r, g, b }),
    {
        Color { r, g, b }
    }
}

/// All channels zero.
pub open spec fn black() -> Color {
    Color { r: 0, g: 0, b: 0 }
}

/// Largest side length a framebuffer may have.
pub const MAX_DIM: usize = 32768;

/// A width-by-height color grid with a parallel depth grid.
pub struct Framebuffer {
    pub width: usize,
    pub height: usize,
    pub colors: Vec<Color>,
    pub depths: Vec<i64>,
}

impl Framebuffer {
    /// Both grids hold exactly one cell per pixel and the sides are small
    /// enough that every index computation stays in range.
    pub open spec fn wf(self) -> bool {
        &&& self.width <= MAX_DIM
        &&& self.height <= MAX_DIM
        &&& self.colors.len() == self.width * self.height
        &&& self.depths.len() == self.width * self.height
    }

    /// Whether `(x, y)` addresses a pixel of the grid.
    pub open spec fn in_bounds(self, x: int, y: int) -> bool {
        0 <= x < self.width && 0 <= y < self.height
    }

    /// The cell index of pixel `(x, y)`.
    pub open spec fn idx(self, x: int, y: int) -> int {
        x + y * self.width
    }

    /// The color stored at pixel `(x, y)`.
    pub open spec fn color_at(self, x: int, y: int) -> Color {
        self.colors[self.idx(x, y)]
    }

    /// The depth stored at pixel `(x, y)`.
    pub open spec fn depth_at(self, x: int, y: int) -> int {
        self.depths[self.idx(x, y)] as int
    }

    /// A fresh buffer: every pixel black, every depth at the minimum.
    pub fn new(width: usize, height: usize) -> (fb: Framebuffer)
        requires
            width <= MAX_DIM,
            height <= MAX_DIM,
        ensures
            fb.wf(),
            fb.width == width,
            fb.height == height,
            forall|x: int, y: int|
                fb.in_bounds(x, y) ==> #[trigger] fb.color_at(x, y) == black(),
            forall|x: int, y: int|
                fb.in_bounds(x, y) ==> #[trigger] fb.depth_at(x, y) == i64::MIN,
    {
        proof {
            lemma_area_small(width as int, height as int);
        }
        let n: usize = width * height;
        let mut colors: Vec<Color> = Vec::new();
        let mut depths: Vec<i64> = Vec::new();
        while colors.len() < n
            invariant
                colors.len() <= n,
                forall|i: int| 0 <= i < colors.len() ==> colors[i] == black(),
            decreases n - colors.len(),
        {
            colors.push(Color { r: 0, g: 0, b: 0 });
        }
        while depths.len() < n
            invariant
                depths.len() <= n,
                forall|i: int| 0 <= i < depths.len() ==> depths[i] == i64::MIN,
            decreases n - depths.len(),
        {
            depths.push(i64::MIN);
        }
        let fb = Framebuffer { width, height, colors, depths };
        proof {
            assert forall|x: int, y: int| fb.in_bounds(x, y) implies #[trigger] fb.color_at(x, y)
                == black() by {
                lemma_idx_range(width as int, height as int, x, y);
            }
            assert forall|x: int, y: int| fb.in_bounds(x, y) implies #[trigger] fb.depth_at(x, y)
                == i64::MIN by {
                lemma_idx_range(width as int, height as int, x, y);
            }
        }
        fb
    }

    /// The grid width.
    pub fn get_width(&self) -> (w: usize)
        ensures
            w == self.width,
    {
        self.width
    }

    /// The grid height.
    pub fn get_height(&self) -> (h: usize)
        ensures
            h == self.height,
    {
        self.height
    }

    /// The color stored at pixel `(x, y)`.
    pub fn get_color(&self, x: usize, y: usize) -> (c: Color)
        requires
            self.wf(),
            x < self.width,
            y < self.height,
        ensures
            c == self.color_at(x as int, y as int),
    {
        proof {
            lemma_idx_range(self.width as int, self.height as int, x as int, y as int);
        }
        self.colors[x + y * self.width]
    }

    /// The depth stored at pixel `(x, y)`.
    pub fn get_depth(&self, x: usize, y: usize) -> (d: i64)
        requires
            self.wf(),
            x < self.width,
            y < self.height,
        ensures
            d == self.depth_at(x as int, y as int),
    {
        proof {
            lemma_idx_range(self.width as int, self.height as int, x as int, y as int);
        }
        self.depths[x + y * self.width]
    }

    /// Writes `color` at `(x, y)` if the coordinate is on the grid; a
    /// coordinate off the grid is rejected and nothing changes.  The depth
    /// grid is never touched.
    pub fn set_pixel(&mut self, x: i64, y: i64, color: Color)
        requires
            old(self).wf(),
        ensures
            final(self).wf(),
            final(self).width == old(self).width,
            final(self).height == old(self).height,
            final(self).depths == old(self).depths,
            forall|px: int, py: int|
                old(self).in_bounds(px, py) ==> #[trigger] final(self).color_at(px, py) == (
                if px == x as int && py == y as int {
                    color
                } else {
                    old(self).color_at(px, py)
                }),
    {
        if 0 <= x && 0 <= y && x < self.width as i64 && y < self.height as i64 {
            proof {
                lemma_idx_range(
                    self.width as int,
                    self.height as int,
                    x as int,
                    y as int,
                );
            }
            let i: usize = (x as usize) + (y as usize) * self.width;
            self.colors.set(i, color);
            proof {
                assert forall|px: int, py: int| old(self).in_bounds(px, py) implies #[trigger] self
                    .color_at(px, py) == (if px == x as int && py == y as int {
                    color
                } else {
                    old(self).color_at(px, py)
                }) by {
                    lemma_idx_range(self.width as int, self.height as int, px, py);
                    lemma_idx_inj(self.width as int, px, py, x as int, y as int);
                }
            }
        }
    }

    /// The depth-tested write: if `(x, y)` is on the grid and `z` is
    /// strictly greater than the stored depth, the pixel takes `color` and
    /// the stored depth becomes `z`; otherwise nothing changes.  An exact
    /// depth tie keeps the existing pixel.
    pub fn set_pixel_depth(&mut self, x: i64, y: i64, z: i64, color: Color)
        requires
            old(self).wf(),
        ensures
            final(self).wf(),
            final(self).width == old(self).width,
            final(self).height == old(self).height,
            forall|px: int, py: int|
                old(self).in_bounds(px, py) ==> #[trigger] final(self).color_at(px, py) == (
                if px == x as int && py == y as int && z > old(self).depth_at(px, py) {
                    color
                } else {
                    old(self).color_at(px, py)
                }),
            forall|px: int, py: int|
                old(self).in_bounds(px, py) ==> #[trigger] final(self).depth_at(px, py) == (
                if px == x as int && py == y as int && z > old(self).depth_at(px, py) {
                    z as int
                } else {
                    old(self).depth_at(px, py)
                }),
    {
        if 0 <= x && 0 <= y && x < self.width as i64 && y < self.height as i64 {
            proof {
                lemma_idx_range(
                    self.width as int,
                    self.height as int,
                    x as int,
                    y as int,
                );
            }
            let i: usize = (x as usize) + (y as usize) * self.width;
            if self.depths[i] < z {
                self.depths.set(i, z);
                self.colors.set(i, color);
            }
            proof {
                assert forall|px: int, py: int| old(self).in_bounds(px, py) implies #[trigger] self
                    .color_at(px, py) == (if px == x as int && py == y as int && z > old(
                    self,
                ).depth_at(px, py) {
                    color
                } else {
                    old(self).color_at(px, py)
                }) by {
                    lemma_idx_range(self.width as int, self.height as int, px, py);
                    lemma_idx_inj(self.width as int, px, py, x as int, y as int);
                }
                assert forall|px: int, py: int| old(self).in_bounds(px, py) implies #[trigger] self
                    .depth_at(px, py) == (if px == x as int && py == y as int && z > old(
                    self,
                ).depth_at(px, py) {
                    z as int
                } else {
                    old(self).depth_at(px, py)
                }) by {
                    lemma_idx_range(self.width as int, self.height as int, px, py);
                    lemma_idx_inj(self.width as int, px, py, x as int, y as int);
                }
            }
        }
    }
}

/// A grid within the side limit has at most `2^30` cells.
pub proof fn lemma_area_small(w: int, h: int)
    requires
        0 <= w <= MAX_DIM,
        0 <= h <= MAX_DIM,
    ensures
        0 <= w * h <= 0x4000_0000,
{
    assert(0 <= w * h <= 0x4000_0000) by (nonlinear_arith)
        requires
            0 <= w <= 32768,
            0 <= h <= 32768,
    ;
}

/// A pixel on the grid has its cell index inside the grid's cell range.
pub proof fn lemma_idx_range(w: int, h: int, x: int, y: int)
    requires
        0 <= x < w,
        0 <= y < h,
    ensures
        0 <= x + y * w < w * h,
{
    assert(0 <= x + y * w < w * h) by (nonlinear_arith)
        requires
            0 <= x < w,
            0 <= y < h,
    ;
}

/// Two on-grid pixels share a cell index only when they are the same pixel.
pub proof fn lemma_idx_inj(w: int, x1: int, y1: int, x2: int, y2: int)
    requires
        0 <= x1 < w,
        0 <= x2 < w,
        0 <= y1,
        0 <= y2,
    ensures
        (x1 + y1 * w == x2 + y2 * w) <==> (x1 == x2 && y1 == y2),
{
    assert((x1 + y1 * w == x2 + y2 * w) <==> (x1 == x2 && y1 == y2)) by (nonlinear_arith)
        requires
            0 <= x1 < w,
            0 <= x2 < w,
            0 <= y1,
            0 <= y2,
    ;
}

} // verus!
