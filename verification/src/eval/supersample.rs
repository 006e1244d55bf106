//! Pictures that are drawn larger and then made smaller.

use super::raster::RgbImage;
use vstd::prelude::*;

verus! {

/// Colours are drawn at this many times the size and then made smaller.
pub const SUPERSAMPLE: u32 = 2;

/// Images with longer sides are not resized: places in them are told apart too coarsely in
/// single precision.
pub const MAX_SIDE: u32 = 0x100000;

/// An image of this size can be brought to size `(w, h)`: both have pixels, no side is too
/// long, and neither the result nor the image between two passes of 16 bytes a pixel is
/// larger than memory.
pub open spec fn can_resize(width: u32, height: u32, w: u32, h: u32) -> bool {
    &&& 0 < width <= MAX_SIDE && 0 < height <= MAX_SIDE
    &&& 0 < w <= MAX_SIDE && 0 < h <= MAX_SIDE
    &&& 16 * width * h <= isize::MAX
    &&& 3 * w * h <= isize::MAX
}

/// The pixels of an image that `image::imageops::resize` brings to size `(w, h)` with the
/// triangle filter.
pub uninterp spec fn triangle_resized(
    width: u32,
    height: u32,
    pixels: Seq<[u8; 3]>,
    w: u32,
    h: u32,
) -> Seq<[u8; 3]>;

/// Calls `image::imageops::resize` with `FilterType::Triangle`: gives an image of the size
/// asked for, whose pixels depend on the image and the sizes alone. Which mean of the old
/// pixels a new one is, is not claimed.
#[verifier::external_body]
fn shrink(img: &RgbImage, w: u32, h: u32) -> (r: RgbImage)
    requires
        img.wf(),
        can_resize(img.width, img.height, w, h),
    ensures
        r.wf(),
        r.width == w,
        r.height == h,
        r.pixels@ == triangle_resized(img.width, img.height, img.pixels@, w, h),
{
    let src = image::RgbImage::from_raw(img.width, img.height, img.pixels.concat());
    let filter = image::imageops::FilterType::Triangle;
    let out = image::imageops::resize(&src.unwrap(), w, h, filter);
    let pixels = out.pixels().map(|p| p.0).collect();
    RgbImage { width: out.width(), height: out.height(), pixels }
}

/// The size to draw a picture of size `(w, h)` at; none if it has no pixels or could not be
/// made smaller again.
pub fn draw_size(w: u32, h: u32) -> (r: Option<(u32, u32)>)
    ensures
        match r {
            Some((width, height)) => {
                &&& width == SUPERSAMPLE * w
                &&& height == SUPERSAMPLE * h
                &&& can_resize(width, height, w, h)
            },
            None => w == 0 || h == 0 || SUPERSAMPLE * w > MAX_SIDE || SUPERSAMPLE * h > MAX_SIDE
                || 16 * (SUPERSAMPLE * w) * h > isize::MAX,
        },
{
    if w == 0 || h == 0 || w > MAX_SIDE / SUPERSAMPLE || h > MAX_SIDE / SUPERSAMPLE {
        return None;
    }
    let width: u32 = SUPERSAMPLE * w;
    let height: u32 = SUPERSAMPLE * h;
    assert(0 <= width * h <= 0x100000 * 0x80000) by (nonlinear_arith)
        requires
            0 <= width <= 0x100000,
            0 <= h <= 0x80000,
    ;
    assert(16 * width * h == 16 * (width * h)) by (nonlinear_arith);
    assert(3 * w * h <= 16 * width * h) by (nonlinear_arith)
        requires
            width == 2 * w,
            0 <= w,
            0 <= h,
    ;
    if 16 * (width as u64 * h as u64) > isize::MAX as u64 {
        return None;
    }
    Some((width, height))
}

/// Bring a picture that was drawn at `draw_size(w, h)` to size `(w, h)`.
pub fn downsample(big: &RgbImage, w: u32, h: u32) -> (r: RgbImage)
    requires
        big.wf(),
        big.width == SUPERSAMPLE * w,
        big.height == SUPERSAMPLE * h,
        can_resize(big.width, big.height, w, h),
    ensures
        r.wf(),
        r.width == w,
        r.height == h,
        r.pixels@ == triangle_resized(big.width, big.height, big.pixels@, w, h),
{
    shrink(big, w, h)
}

} // verus!
