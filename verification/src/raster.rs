//! Grayscale rasters: a page, or a line cut out of one.
//!
//! Samples are 8-bit, stored row by row from the top-left corner.

use vstd::prelude::*;

verus! {

/// A grid of 8-bit gray samples, `width` columns by `height` rows, in row-major order.
#[derive(Debug, Clone)]
pub struct GrayImage {
    /// Number of columns.
    pub width: u32,
    /// Number of rows.
    pub height: u32,
    /// The samples, row after row.
    pub pixels: Vec<u8>,
}

/// A sample at column `x` of row `y` of a grid `w` wide and `h` high has its place in the buffer.
pub proof fn lemma_index_in_grid(x: int, y: int, w: int, h: int)
    requires
        0 <= x < w,
        0 <= y < h,
    ensures
        0 <= y * w + x < w * h,
        y * w + w <= w * h,
        0 <= y * w,
{
    assert(y * w + w <= w * h) by (nonlinear_arith)
        requires
            0 <= y < h,
            0 <= w,
    ;
    assert(0 <= y * w) by (nonlinear_arith)
        requires
            0 <= y,
            0 <= w,
    ;
}

/// The product of two 32-bit numbers fits in 64 bits.
pub proof fn lemma_product_fits(a: int, b: int)
    requires
        0 <= a <= u32::MAX,
        0 <= b <= u32::MAX,
    ensures
        0 <= a * b <= 0xFFFF_FFFE_0000_0001,
{
    assert(0 <= a * b <= 0xFFFF_FFFF * 0xFFFF_FFFF) by (nonlinear_arith)
        requires
            0 <= a <= 0xFFFF_FFFF,
            0 <= b <= 0xFFFF_FFFF,
    ;
}

impl GrayImage {
    /// The buffer holds exactly one sample for each cell of the grid.
    pub open spec fn wf(&self) -> bool {
        self.pixels@.len() == self.width * self.height
    }

    /// The sample at column `x` of row `y`.
    pub open spec fn pixel(&self, x: int, y: int) -> u8 {
        self.pixels@[y * self.width + x]
    }

    /// A raster of the given size over `pixels`, or `None` when the buffer does not hold
    /// exactly `width * height` samples.
    pub fn new(width: u32, height: u32, pixels: Vec<u8>) -> (image: Option<GrayImage>)
        ensures
            image is Some <==> pixels@.len() == width * height,
            image is Some ==> {
                let img = image->0;
                &&& img.wf()
                &&& img.width == width
                &&& img.height == height
                &&& img.pixels@ == pixels@
            },
    {
        proof {
            lemma_product_fits(width as int, height as int);
        }
        let cells: u64 = (width as u64) * (height as u64);
        if pixels.len() as u64 == cells {
            Some(GrayImage { width, height, pixels })
        } else {
            None
        }
    }

    /// Number of columns.
    pub fn width(&self) -> (w: u32)
        ensures
            w == self.width,
    {
        self.width
    }

    /// Number of rows.
    pub fn height(&self) -> (h: u32)
        ensures
            h == self.height,
    {
        self.height
    }

    /// The sample at column `x` of row `y`.
    pub fn get(&self, x: u32, y: u32) -> (v: u8)
        requires
            self.wf(),
            x < self.width,
            y < self.height,
        ensures
            v == self.pixel(x as int, y as int),
    {
        let w: usize = self.width as usize;
        let row: usize = y as usize;
        let cells: usize = self.pixels.len();
        proof {
            assert(cells == self.width * self.height);
            lemma_index_in_grid(x as int, y as int, self.width as int, self.height as int);
            assert(row * w == y * self.width);
        }
        self.pixels[row * w + (x as usize)]
    }

    /// The part of the raster that starts at column `x`, row `y` and spans `w` columns and `h`
    /// rows, as a raster of its own.
    pub fn crop(&self, x: u32, y: u32, w: u32, h: u32) -> (part: GrayImage)
        requires
            self.wf(),
            x + w <= self.width,
            y + h <= self.height,
        ensures
            part.wf(),
            part.width == w,
            part.height == h,
            forall|cx: int, cy: int|
                0 <= cx < w && 0 <= cy < h ==> #[trigger] part.pixel(cx, cy) == self.pixel(
                    x + cx,
                    y + cy,
                ),
    {
        let mut pixels: Vec<u8> = Vec::new();
        let mut cy: u32 = 0;
        while cy < h
            invariant
                self.wf(),
                x + w <= self.width,
                y + h <= self.height,
                cy <= h,
                pixels@.len() == cy * w,
                forall|px: int, py: int|
                    0 <= px < w && 0 <= py < cy ==> #[trigger] pixels@[py * w + px] == self.pixel(
                        x + px,
                        y + py,
                    ),
            decreases h - cy,
        {
            let mut cx: u32 = 0;
            while cx < w
                invariant
                    self.wf(),
                    x + w <= self.width,
                    y + h <= self.height,
                    cy < h,
                    cx <= w,
                    pixels@.len() == cy * w + cx,
                    forall|px: int, py: int|
                        0 <= px < w && 0 <= py < cy ==> #[trigger] pixels@[py * w + px]
                            == self.pixel(x + px, y + py),
                    forall|px: int|
                        0 <= px < cx ==> #[trigger] pixels@[cy * w + px] == self.pixel(
                            x + px,
                            y + cy,
                        ),
                decreases w - cx,
            {
                let ghost before = pixels@;
                let v = self.get(x + cx, y + cy);
                pixels.push(v);
                proof {
                    assert forall|px: int, py: int| 0 <= px < w && 0 <= py < cy implies (
                    #[trigger] pixels@[py * w + px]) == self.pixel(x + px, y + py) by {
                        lemma_index_in_grid(px, py, w as int, cy as int);
                        assert(pixels@[py * w + px] == before[py * w + px]);
                    }
                }
                cx = cx + 1;
            }
            proof {
                assert((cy + 1) * w == cy * w + w) by (nonlinear_arith);
                assert forall|px: int, py: int| 0 <= px < w && 0 <= py < cy + 1 implies (
                #[trigger] pixels@[py * w + px]) == self.pixel(x + px, y + py) by {
                    if py == cy {
                    }
                }
            }
            cy = cy + 1;
        }
        proof {
            assert(cy * w == w * h) by (nonlinear_arith)
                requires
                    cy == h,
            ;
        }
        GrayImage { width: w, height: h, pixels }
    }
}

} // verus!
