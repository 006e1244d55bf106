//! Buffers that are read back from the GPU, whose rows are padded to an alignment.

use crate::bytes;
use crate::eval::raster::{self, RgbImage};
use crate::float::F32;
use vstd::prelude::*;

verus! {

/// Rows start at multiples of this many bytes.
pub const ROW_ALIGN: u32 = 256;

/// The bytes of a padded row of `w` pixels of four bytes.
pub open spec fn padded(w: u32) -> int {
    (4 * w + ROW_ALIGN - 1) / (ROW_ALIGN as int) * ROW_ALIGN
}

/// The length of a row with its padding: the least multiple of the alignment that holds the
/// row.
pub fn padded_row(w: u32) -> (r: u32)
    requires
        4 * w + ROW_ALIGN <= u32::MAX,
    ensures
        r == padded(w),
        r % ROW_ALIGN == 0,
        4 * w <= r < 4 * w + ROW_ALIGN,
{
    (w * 4 + (ROW_ALIGN - 1)) / ROW_ALIGN * ROW_ALIGN
}

/// Where pixel `(x, y)` starts in a padded buffer.
pub open spec fn offset(row: int, x: int, y: int) -> int {
    y * row + 4 * x
}

proof fn offset_bound(len: int, w: int, h: int, row: int, x: int, y: int)
    requires
        4 * w <= row,
        row * h <= len,
        0 <= x < w,
        0 <= y < h,
    ensures
        0 <= y * row,
        0 <= offset(row, x, y),
        offset(row, x, y) + 4 <= len,
{
    assert(0 <= y * row && y * row + row <= row * h) by (nonlinear_arith)
        requires
            0 <= y < h,
            row >= 0,
    ;
}

/// Take the RGB pixels out of a padded RGBA buffer.
pub fn unpack_rgb(raw: &[u8], w: u32, h: u32, row: u32) -> (img: RgbImage)
    requires
        4 * w <= row,
        row * h <= raw@.len(),
    ensures
        img.wf(),
        img.width == w,
        img.height == h,
        forall|x: int, y: int| #[trigger]
            img.has(x, y) ==> {
                let at = offset(row as int, x, y);
                let p = img.at(x, y);
                p[0] == raw@[at] && p[1] == raw@[at + 1] && p[2] == raw@[at + 2]
            },
{
    let mut pixels: Vec<[u8; 3]> = Vec::new();
    for y in 0..h
        invariant
            4 * w <= row,
            row * h <= raw@.len(),
            pixels@.len() == y * w,
            forall|u: int, v: int|
                0 <= u < w && 0 <= v < y ==> is_pixel(raw@, row, u, v, #[trigger] pixels@[raster::place(w, u, v)]),
    {
        for x in 0..w
            invariant
                y < h,
                4 * w <= row,
                row * h <= raw@.len(),
                pixels@.len() == y * w + x,
                forall|u: int, v: int|
                    0 <= u < w && 0 <= v < y + 1 && (v < y || u < x) ==> is_pixel(
                        raw@,
                        row,
                        u,
                        v,
                        #[trigger] pixels@[raster::place(w, u, v)],
                    ),
        {
            proof {
                offset_bound(raw@.len() as int, w as int, h as int, row as int, x as int, y as int);
            }
            assert(raw.len() <= usize::MAX);
            let at: usize = y as usize * row as usize + 4 * x as usize;
            let ghost before = pixels@;
            let p: [u8; 3] = [raw[at], raw[at + 1], raw[at + 2]];
            pixels.push(p);
            proof {
                assert forall|u: int, v: int|
                    0 <= u < w && 0 <= v < y + 1 && (v < y || u < x + 1) implies is_pixel(
                    raw@,
                    row,
                    u,
                    v,
                    #[trigger] pixels@[raster::place(w, u, v)],
                ) by {
                    if v < y || u < x {
                        assert(raster::place(w, u, v) < before.len()) by {
                            assert(v * w + u < y * w + x) by (nonlinear_arith)
                                requires
                                    0 <= u < w,
                                    v < y || v == y && u < x,
                                    0 <= v,
                                    0 <= x,
                            ;
                        }
                        assert(raster::place(w, u, v) >= 0) by {
                            assert(v * w >= 0) by (nonlinear_arith)
                                requires
                                    v >= 0,
                                    w >= 0,
                            ;
                        }
                        assert(pixels@[raster::place(w, u, v)] == before[raster::place(w, u, v)]);
                    } else {
                        assert(raster::place(w, u, v) == before.len());
                    }
                }
            }
        }
        assert((y + 1) * w == y * w + w) by (nonlinear_arith);
    }
    assert(h * w == w * h) by (nonlinear_arith);
    let img = RgbImage { width: w, height: h, pixels };
    proof {
        assert forall|x: int, y: int| #[trigger] img.has(x, y) implies is_pixel(
            raw@,
            row,
            x,
            y,
            img.at(x, y),
        ) by {
            assert(img.at(x, y) == pixels@[raster::place(w, x, y)]);
        }
    }
    img
}

/// `p` is pixel `(x, y)` of the buffer.
pub open spec fn is_pixel(raw: Seq<u8>, row: u32, x: int, y: int, p: [u8; 3]) -> bool {
    let at = offset(row as int, x, y);
    p[0] == raw[at] && p[1] == raw[at + 1] && p[2] == raw[at + 2]
}

/// `v` is word `(x, y)` of the buffer, lowest byte first.
pub open spec fn is_word(raw: Seq<u8>, row: u32, x: int, y: int, v: F32) -> bool {
    v.bits == bytes::le_word(raw, offset(row as int, x, y))
}

/// Take the `f32` values out of a padded buffer, row by row.
pub fn unpack_f32(raw: &[u8], w: u32, h: u32, row: u32) -> (values: Vec<F32>)
    requires
        4 * w <= row,
        row * h <= raw@.len(),
    ensures
        values@.len() == w * h,
        forall|x: int, y: int|
            0 <= x < w && 0 <= y < h ==> is_word(
                raw@,
                row,
                x,
                y,
                #[trigger] values@[raster::place(w, x, y)],
            ),
{
    let mut values: Vec<F32> = Vec::new();
    for y in 0..h
        invariant
            4 * w <= row,
            row * h <= raw@.len(),
            values@.len() == y * w,
            forall|u: int, v: int|
                0 <= u < w && 0 <= v < y ==> is_word(
                    raw@,
                    row,
                    u,
                    v,
                    #[trigger] values@[raster::place(w, u, v)],
                ),
    {
        for x in 0..w
            invariant
                y < h,
                4 * w <= row,
                row * h <= raw@.len(),
                values@.len() == y * w + x,
                forall|u: int, v: int|
                    0 <= u < w && 0 <= v < y + 1 && (v < y || u < x) ==> is_word(
                        raw@,
                        row,
                        u,
                        v,
                        #[trigger] values@[raster::place(w, u, v)],
                    ),
        {
            proof {
                offset_bound(raw@.len() as int, w as int, h as int, row as int, x as int, y as int);
            }
            assert(raw.len() <= usize::MAX);
            let at: usize = y as usize * row as usize + 4 * x as usize;
            let ghost before = values@;
            values.push(F32::from_bits(bytes::read_word(raw, at)));
            proof {
                assert forall|u: int, v: int|
                    0 <= u < w && 0 <= v < y + 1 && (v < y || u < x + 1) implies is_word(
                    raw@,
                    row,
                    u,
                    v,
                    #[trigger] values@[raster::place(w, u, v)],
                ) by {
                    if v < y || u < x {
                        assert(v * w + u < y * w + x && v * w >= 0) by (nonlinear_arith)
                            requires
                                0 <= u < w,
                                v < y || v == y && u < x,
                                0 <= v,
                                0 <= x,
                        ;
                        assert(values@[raster::place(w, u, v)] == before[raster::place(w, u, v)]);
                    } else {
                        assert(raster::place(w, u, v) == before.len());
                    }
                }
            }
        }
        assert((y + 1) * w == y * w + w) by (nonlinear_arith);
    }
    assert(h * w == w * h) by (nonlinear_arith);
    values
}

/// A padded row holds the row, is a multiple of the alignment, and is the least such.
pub proof fn padding_is_least(w: u32, k: int)
    requires
        k * 256 >= 4 * w,
    ensures
        4 * w <= padded(w) <= k * 256,
        padded(w) % 256 == 0,
{
}

/// Rows follow each other at the length of a padded row, and pixels at four bytes.
pub proof fn pixels_follow_each_other(row: int, x: int, y: int)
    ensures
        offset(row, 0, 0) == 0,
        offset(row, x + 1, y) == offset(row, x, y) + 4,
        offset(row, x, y + 1) == offset(row, x, y) + row,
{
    assert((y + 1) * row == y * row + row) by (nonlinear_arith);
}

/// The channels of a pixel are its first three bytes, red first.
pub proof fn channels_are_the_first_bytes(raw: Seq<u8>, row: u32, x: int, y: int, p: [u8; 3], k: int)
    requires
        is_pixel(raw, row, x, y, p),
        0 <= k < 3,
    ensures
        p[k] == raw[y * row + 4 * x + k],
{
    assert(k == 0 || k == 1 || k == 2);
}

/// The lowest byte of a value comes first.
pub proof fn values_are_four_bytes(raw: Seq<u8>, row: u32, x: int, y: int, v: F32)
    requires
        is_word(raw, row, x, y, v),
        0 <= y * row + 4 * x,
        y * row + 4 * x + 4 <= raw.len(),
    ensures
        ({
            let i = y * row + 4 * x;
            v.bits == raw[i] + 256 * (raw[i + 1] + 256 * (raw[i + 2] + 256 * raw[i + 3]))
        }),
{
    bytes::byte_orders_mirror(raw, y * row + 4 * x);
}

} // verus!
