//! Normalising a line into the raster that the model reads.

use crate::monocr::{MonOcr, OcrError};
use crate::raster::{lemma_index_in_grid, GrayImage};
use crate::resample::{can_resample, resize_triangle, triangle_resized};
use vstd::prelude::*;

verus! {

/// Height, in samples, of the raster the model reads.
pub const TARGET_HEIGHT: u32 = 64;

/// Width, in samples, of the raster the model reads.
pub const TARGET_WIDTH: u32 = 1024;

/// Sample that fills a tensor to the right of a line: white.
pub const PADDING_SAMPLE: u8 = 255;

/// The input of the model for one line: `TARGET_HEIGHT` rows of `TARGET_WIDTH` samples. A sample
/// `v` stands for the number `v / 127.5 - 1`, so that 0 is -1 and 255 is 1.
#[derive(Debug, Clone)]
pub struct Tensor {
    /// The samples, row after row.
    pub samples: Vec<u8>,
}

/// Width to which a line of `width` by `height` samples is resampled: the width that keeps its
/// proportions at the target height, rounded to the nearest whole number with halves rounded
/// up, and at most the target width. A line without rows is taken to be as wide as can be,
/// unless it has no columns either.
pub open spec fn scaled_width(width: u32, height: u32) -> int {
    if height == 0 {
        if width == 0 {
            0
        } else {
            TARGET_WIDTH as int
        }
    } else {
        let exact = (2 * TARGET_HEIGHT * width + height) / (2 * height);
        if exact > TARGET_WIDTH {
            TARGET_WIDTH as int
        } else {
            exact
        }
    }
}

/// A line that has the size of the model's input keeps its width.
pub proof fn lemma_full_size_keeps_width()
    ensures
        scaled_width(TARGET_WIDTH, TARGET_HEIGHT) == TARGET_WIDTH,
{
    assert(131136int / 128 == 1024);
}

/// Whether `samples` are the tensor of a line resampled to `new_width` columns: the resampled
/// line on the left, white to the right of it.
pub open spec fn is_padded_tensor(samples: Seq<u8>, resized: Seq<u8>, new_width: int) -> bool {
    &&& samples.len() == TARGET_HEIGHT * TARGET_WIDTH
    &&& forall|r: int, c: int|
        0 <= r < TARGET_HEIGHT && 0 <= c < TARGET_WIDTH ==> #[trigger] samples[r * TARGET_WIDTH
            + c] == if c < new_width {
            resized[r * new_width + c]
        } else {
            PADDING_SAMPLE
        }
}

/// Whether `samples` are the tensor of `image`.
pub open spec fn is_tensor_of(samples: Seq<u8>, image: &GrayImage) -> bool {
    let new_width = scaled_width(image.width, image.height);
    is_padded_tensor(
        samples,
        triangle_resized(
            image.pixels@,
            image.width,
            image.height,
            new_width as u32,
            TARGET_HEIGHT,
        ),
        new_width,
    )
}

/// The tensor of a line that was resampled to `new_width` columns and the target height.
pub fn pad_to_tensor(resized: &Vec<u8>, new_width: u32) -> (tensor: Tensor)
    requires
        new_width <= TARGET_WIDTH,
        resized@.len() == new_width * TARGET_HEIGHT,
    ensures
        is_padded_tensor(tensor.samples@, resized@, new_width as int),
{
    let mut samples: Vec<u8> = Vec::new();
    let mut r: u32 = 0;
    while r < TARGET_HEIGHT
        invariant
            new_width <= TARGET_WIDTH,
            resized@.len() == new_width * TARGET_HEIGHT,
            r <= TARGET_HEIGHT,
            samples@.len() == r * TARGET_WIDTH,
            forall|pr: int, pc: int|
                0 <= pr < r && 0 <= pc < TARGET_WIDTH ==> #[trigger] samples@[pr * TARGET_WIDTH
                    + pc] == if pc < new_width {
                    resized@[pr * new_width + pc]
                } else {
                    PADDING_SAMPLE
                },
        decreases TARGET_HEIGHT - r,
    {
        let mut c: u32 = 0;
        while c < TARGET_WIDTH
            invariant
                new_width <= TARGET_WIDTH,
                resized@.len() == new_width * TARGET_HEIGHT,
                r < TARGET_HEIGHT,
                c <= TARGET_WIDTH,
                samples@.len() == r * TARGET_WIDTH + c,
                forall|pr: int, pc: int|
                    0 <= pr < r && 0 <= pc < TARGET_WIDTH ==> #[trigger] samples@[pr
                        * TARGET_WIDTH + pc] == if pc < new_width {
                        resized@[pr * new_width + pc]
                    } else {
                        PADDING_SAMPLE
                    },
                forall|pc: int|
                    0 <= pc < c ==> #[trigger] samples@[r * TARGET_WIDTH + pc] == if pc
                        < new_width {
                        resized@[r * new_width + pc]
                    } else {
                        PADDING_SAMPLE
                    },
            decreases TARGET_WIDTH - c,
        {
            let v: u8 = if c < new_width {
                proof {
                    lemma_index_in_grid(
                        c as int,
                        r as int,
                        new_width as int,
                        TARGET_HEIGHT as int,
                    );
                }
                resized[(r as usize) * (new_width as usize) + (c as usize)]
            } else {
                PADDING_SAMPLE
            };
            samples.push(v);
            c = c + 1;
        }
        r = r + 1;
    }
    Tensor { samples }
}

impl Tensor {
    /// The tensor has one sample for each cell of the model's input.
    pub open spec fn wf(&self) -> bool {
        self.samples@.len() == TARGET_HEIGHT * TARGET_WIDTH
    }

    /// The sample at column `column` of row `row`.
    pub fn sample(&self, row: u32, column: u32) -> (v: u8)
        requires
            self.wf(),
            row < TARGET_HEIGHT,
            column < TARGET_WIDTH,
        ensures
            v == self.samples@[row * TARGET_WIDTH + column],
    {
        let cells: usize = self.samples.len();
        let width: usize = TARGET_WIDTH as usize;
        proof {
            lemma_index_in_grid(
                column as int,
                row as int,
                TARGET_WIDTH as int,
                TARGET_HEIGHT as int,
            );
            assert(TARGET_WIDTH * TARGET_HEIGHT == TARGET_HEIGHT * TARGET_WIDTH);
        }
        self.samples[(row as usize) * width + (column as usize)]
    }
}

impl MonOcr {
    /// The tensor of a line: the line resampled to the target height and to the width that
    /// keeps its proportions, or to the target width if that is less, with white to its right.
    /// A line too wide to be resampled on this machine is refused.
    pub fn preprocess(&self, image: &GrayImage) -> (tensor: Result<Tensor, OcrError>)
        requires
            image.wf(),
        ensures
            match tensor {
                Ok(t) => {
                    &&& can_resample(image.width, TARGET_HEIGHT)
                    &&& t.wf()
                    &&& is_tensor_of(t.samples@, image)
                    &&& image.width == TARGET_WIDTH && image.height == TARGET_HEIGHT
                        ==> t.samples@ == image.pixels@
                },
                Err(e) => e == OcrError::OversizedLine && !can_resample(
                    image.width,
                    TARGET_HEIGHT,
                ),
            },
    {
        let width: u64 = image.width as u64;
        let height: u64 = image.height as u64;
        if width * 1024 > isize::MAX as u64 {
            return Err(OcrError::OversizedLine);
        }
        let new_width: u32 = if height == 0 {
            if width == 0 {
                0
            } else {
                TARGET_WIDTH
            }
        } else {
            let scale: u64 = 2 * (TARGET_HEIGHT as u64);
            assert(scale == 128);
            let exact: u64 = (scale * width + height) / (2 * height);
            if exact > TARGET_WIDTH as u64 {
                TARGET_WIDTH
            } else {
                exact as u32
            }
        };
        let resized = resize_triangle(
            &image.pixels,
            image.width,
            image.height,
            new_width,
            TARGET_HEIGHT,
        );
        let tensor = pad_to_tensor(&resized, new_width);
        proof {
            if image.width == TARGET_WIDTH && image.height == TARGET_HEIGHT {
                lemma_full_size_keeps_width();
                assert(new_width == TARGET_WIDTH);
                assert(resized@ == image.pixels@);
                assert forall|i: int| 0 <= i < tensor.samples@.len() implies tensor.samples@[i]
                    == image.pixels@[i] by {
                    let r = i / (TARGET_WIDTH as int);
                    let c = i % (TARGET_WIDTH as int);
                    assert(i == r * TARGET_WIDTH + c);
                    assert(tensor.samples@[r * TARGET_WIDTH + c] == resized@[r * new_width + c]);
                }
                assert(tensor.samples@ =~= image.pixels@);
            }
        }
        Ok(tensor)
    }
}

} // verus!
