//! Resampling of gray rasters, done by the `image` crate.

use vstd::prelude::*;

verus! {

/// Widest raster the sampler is asked for.
pub const MAX_RESAMPLED_WIDTH: u32 = 1024;

/// Tallest raster the sampler is asked for.
pub const MAX_RESAMPLED_HEIGHT: u32 = 64;

/// The samples that `image::imageops::resize` with `FilterType::Triangle` computes for a gray
/// raster of `width` by `height` samples brought to `new_width` by `new_height`.
pub uninterp spec fn triangle_resized(
    pixels: Seq<u8>,
    width: u32,
    height: u32,
    new_width: u32,
    new_height: u32,
) -> Seq<u8>;

/// Whether a raster `width` samples wide can be resampled to `new_height` rows on this machine:
/// the sampler's intermediate buffer, four 32-bit numbers per sample, must be addressable.
pub open spec fn can_resample(width: u32, new_height: u32) -> bool {
    16 * width * new_height <= isize::MAX
}

/// Calls `image::imageops::resize` with `FilterType::Triangle` on the raster and hands back the
/// samples of the result, row after row.
///
/// Not proved, but taken from the crate's source: the result has `new_width * new_height`
/// samples; they depend on the arguments alone; and a raster that is not empty and already has
/// the size asked for comes back as a copy.
#[verifier::external_body]
pub(crate) fn resize_triangle(
    pixels: &Vec<u8>,
    width: u32,
    height: u32,
    new_width: u32,
    new_height: u32,
) -> (out: Vec<u8>)
    requires
        pixels@.len() == width * height,
        new_width <= MAX_RESAMPLED_WIDTH,
        new_height <= MAX_RESAMPLED_HEIGHT,
        can_resample(width, new_height),
    ensures
        out@ == triangle_resized(pixels@, width, height, new_width, new_height),
        out@.len() == new_width * new_height,
        width > 0 && height > 0 && new_width == width && new_height == height ==> out@ == pixels@,
{
    let source = image::GrayImage::from_raw(width, height, pixels.clone()).unwrap();
    let filter = image::imageops::FilterType::Triangle;
    image::imageops::resize(&source, new_width, new_height, filter).into_raw()
}

} // verus!
