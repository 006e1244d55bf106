//! Geometry channels: colour packing and depth supervision.

use crate::float::F32;
use vstd::prelude::*;

verus! {

/// Which geometry channel a colormap shows.
#[derive(Clone, Copy, Debug, PartialEq, Eq, Structural, Hash)]
pub enum GeoColormapMode {
    Depth,
    Normal,
    Alpha,
}

impl Default for GeoColormapMode {
    fn default() -> (r: Self)
        ensures
            r == GeoColormapMode::Depth,
    {
        GeoColormapMode::Depth
    }
}

/// `0.5`: less coverage shows no surface.
pub const HALF_BITS: u32 = 0x3F000000;

/// Red in the lowest byte, then green and blue, and full opacity.
pub open spec fn packed(rgb: [u8; 3]) -> int {
    rgb[0] + 256 * rgb[1] + 65536 * rgb[2] + 16777216 * 255
}

/// Pack a colour.
pub fn pack_rgba(rgb: [u8; 3]) -> (r: u32)
    ensures
        r == packed(rgb),
{
    rgb[0] as u32 + 256 * rgb[1] as u32 + 65536 * rgb[2] as u32 + 4278190080
}

/// A packed colour can be taken apart again.
pub proof fn packing_keeps_channels(rgb: [u8; 3])
    ensures
        packed(rgb) % 256 == rgb[0],
        packed(rgb) / 256 % 256 == rgb[1],
        packed(rgb) / 65536 % 256 == rgb[2],
        packed(rgb) / 16777216 == 255,
{
}

/// The colour of a pixel: its coverage as grey, or, where a surface covers more than half of
/// it, the colour of the surface normal or depth. Other pixels are black.
pub open spec fn colour(
    mode: GeoColormapMode,
    coverage: F32,
    grey: u8,
    normal: [u8; 3],
    depth: [u8; 3],
) -> [u8; 3] {
    if mode == GeoColormapMode::Alpha {
        [grey, grey, grey]
    } else if !(F32 { bits: HALF_BITS }).spec_lt(coverage) {
        [0, 0, 0]
    } else if mode == GeoColormapMode::Normal {
        normal
    } else {
        depth
    }
}

/// The packed colour of a pixel.
pub fn colormap_pixel(
    mode: GeoColormapMode,
    coverage: F32,
    grey: u8,
    normal: [u8; 3],
    depth: [u8; 3],
) -> (r: u32)
    ensures
        r == packed(colour(mode, coverage, grey, normal, depth)),
{
    if mode == GeoColormapMode::Alpha {
        pack_rgba([grey, grey, grey])
    } else if !F32::from_bits(HALF_BITS).lt(coverage) {
        pack_rgba([0, 0, 0])
    } else if mode == GeoColormapMode::Normal {
        pack_rgba(normal)
    } else {
        pack_rgba(depth)
    }
}

/// The whole number of rendered pixels per depth sample, down and across, if there is one.
/// Else each depth sample is held against the nearest pixel.
pub fn block_ratio(h: usize, w: usize, depth_h: usize, depth_w: usize) -> (r: Option<
    (usize, usize),
>)
    requires
        depth_h > 0,
        depth_w > 0,
    ensures
        match r {
            Some((kh, kw)) => kh * depth_h == h && kw * depth_w == w,
            None => h % depth_h != 0 || w % depth_w != 0,
        },
{
    if h % depth_h == 0 && w % depth_w == 0 {
        let kh: usize = h / depth_h;
        let kw: usize = w / depth_w;
        assert(kh * depth_h == h) by (nonlinear_arith)
            requires
                depth_h > 0,
                h % depth_h == 0,
                kh == h / depth_h,
        ;
        assert(kw * depth_w == w) by (nonlinear_arith)
            requires
                depth_w > 0,
                w % depth_w == 0,
                kw == w / depth_w,
        ;
        Some((kh, kw))
    } else {
        None
    }
}

/// The pixel, along one axis of `n`, that sample `i` of `samples` is held against where there
/// is no whole number of pixels per sample: the nearest one before it.
pub fn nearest_pixel(i: usize, n: usize, samples: usize) -> (r: usize)
    requires
        i < samples,
        n > 0,
    ensures
        r == (i * n) / (samples as int),
        r < n,
{
    let ghost (a, b) = (i as int, n as int);
    assert(a * b <= 0xffff_ffff_ffff_ffff * 0xffff_ffff_ffff_ffff) by (nonlinear_arith)
        requires
            0 <= a <= 0xffff_ffff_ffff_ffff,
            0 <= b <= 0xffff_ffff_ffff_ffff,
    ;
    let p: u128 = i as u128 * n as u128 / samples as u128;
    proof {
        let (c, q) = (samples as int, p as int);
        assert(0 <= q < b) by (nonlinear_arith)
            requires
                q == (a * b) / c,
                0 <= a < c,
                b > 0,
        ;
    }
    p as usize
}

/// Later samples are held against the same pixel or later ones.
pub proof fn nearest_pixels_ascend(i: int, j: int, n: int, samples: int)
    requires
        0 <= i <= j < samples,
        n > 0,
    ensures
        (i * n) / samples <= (j * n) / samples,
{
    assert(i * n <= j * n) by (nonlinear_arith)
        requires
            i <= j,
            n > 0,
    ;
    vstd::arithmetic::div_mod::lemma_div_is_ordered(i * n, j * n, samples);
}

/// Whether a depth sample supervises the render: it is confident enough, not too far (which
/// leaves out samples without a return), and some pixel of its cell is covered.
pub fn supervises(conf: u8, min_conf: u8, depth: F32, max_depth: F32, covered: bool) -> (r: bool)
    ensures
        r <==> conf >= min_conf && depth.spec_le(max_depth) && covered,
{
    conf >= min_conf && depth.le(max_depth) && covered
}

/// Coverage is shown as grey whatever it is; normals and depths only where the surface covers more
/// than half of the pixel.
pub proof fn colours_show_what_is_asked_for(
    mode: GeoColormapMode,
    coverage: F32,
    grey: u8,
    normal: [u8; 3],
    depth: [u8; 3],
    k: int,
)
    requires
        0 <= k < 3,
        !coverage.nan(),
    ensures
        ({
            let c = colour(mode, coverage, grey, normal, depth);
            let covers = 0x3f00_0000 < coverage.bits <= 0x7f80_0000;
            match mode {
                GeoColormapMode::Alpha => c[k] == grey,
                GeoColormapMode::Normal => c[k] == (if covers {
                    normal[k]
                } else {
                    0
                }),
                GeoColormapMode::Depth => c[k] == (if covers {
                    depth[k]
                } else {
                    0
                }),
            }
        }),
{
}

} // verus!
