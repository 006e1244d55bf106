//! Rendered images: colour maps, readback, mip levels, depth panels; bits of numbers and text.

use brush_mesh::bounds::inside;
use brush_mesh::buckets::{bucket, tile_id};
use brush_mesh::eval::raster::BLACK;
use brush_mesh::float::F32;
use brush_mesh::mesh::Vec3;
use brush_mesh::render::geo::{
    block_ratio, colormap_pixel, nearest_pixel, pack_rgba, supervises, GeoColormapMode,
};
use brush_mesh::render::mip::{mip_chain, mip_count, Level};
use brush_mesh::render::panel::{depth_panel, depth_range, keep_finite};
use brush_mesh::render::readback::{padded_row, unpack_f32, unpack_rgb};
use brush_mesh::sort::stable_order;
use brush_mesh::text::{is_before, pad, replace, to_decimal};

fn f(x: f32) -> F32 {
    F32::from_bits(x.to_bits())
}

fn g(x: F32) -> f32 {
    f32::from_bits(x.bits)
}

fn floats(v: &[f32]) -> Vec<F32> {
    v.iter().map(|&x| f(x)).collect()
}

#[test]
fn red_is_the_lowest_byte() {
    assert_eq!(pack_rgba([1, 2, 3]), 0xff03_0201);
    assert_eq!(pack_rgba([255, 0, 255]), u32::from_le_bytes([255, 0, 255, 255]));
}

#[test]
fn uncovered_pixels_are_black() {
    let (normal, depth) = ([1, 2, 3], [4, 5, 6]);
    let at = |mode: GeoColormapMode, c: f32| colormap_pixel(mode, f(c), 9, normal, depth);
    assert_eq!(at(GeoColormapMode::Alpha, 0.1), 0xff09_0909);
    assert_eq!(at(GeoColormapMode::Normal, 0.5), 0xff00_0000);
    assert_eq!(at(GeoColormapMode::Normal, 0.6), 0xff03_0201);
    assert_eq!(at(GeoColormapMode::default(), 0.6), 0xff06_0504);
}

#[test]
fn depth_samples_fall_on_whole_blocks_or_not() {
    assert_eq!(block_ratio(480, 640, 120, 160), Some((4, 4)));
    assert_eq!(block_ratio(480, 641, 120, 160), None);
}

#[test]
fn samples_supervise_if_confident_near_and_covered() {
    assert!(supervises(2, 1, f(3.0), f(5.0), true));
    assert!(!supervises(0, 1, f(3.0), f(5.0), true));
    assert!(!supervises(2, 1, f(f32::INFINITY), f(5.0), true));
    assert!(!supervises(2, 1, f(f32::NAN), f(5.0), true));
    assert!(!supervises(2, 1, f(3.0), f(5.0), false));
}

#[test]
fn rows_are_padded_and_unpacked() {
    assert_eq!(padded_row(1), 256);
    assert_eq!(padded_row(64), 256);
    assert_eq!(padded_row(65), 512);
    let mut raw = vec![0u8; 512];
    raw[0..4].copy_from_slice(&[1, 2, 3, 4]);
    raw[256..260].copy_from_slice(&[5, 6, 7, 8]);
    let img = unpack_rgb(&raw, 1, 2, 256);
    assert_eq!(img.pixels, vec![[1, 2, 3], [5, 6, 7]]);
    raw[256..260].copy_from_slice(&1.5f32.to_le_bytes());
    let values = unpack_f32(&raw, 1, 2, 256);
    assert_eq!(g(values[1]), 1.5);
}

#[test]
fn mip_levels_halve_until_one_texel() {
    assert_eq!(mip_count(8, 4), 3);
    assert_eq!(mip_count(1, 9), 1);
    let base = Level {
        width: 4,
        height: 2,
        rgba: (0..32).collect(),
    };
    let levels = mip_chain(base);
    let sizes: Vec<(usize, usize)> = levels.iter().map(|l| (l.width, l.height)).collect();
    assert_eq!(sizes, vec![(4, 2), (2, 1)]);
    // Texels 0, 4, 16 and 20 of the first channel.
    assert_eq!(levels[1].rgba[0], 10);
    assert_eq!(levels[1].rgba[4], 18);
}

#[test]
fn odd_edges_are_repeated() {
    let rgba = [10, 20, 40].iter().flat_map(|&v| [v; 4]).collect();
    let base = Level { width: 3, height: 1, rgba };
    let next = base.next();
    assert_eq!((next.width, next.height), (1, 1));
    assert_eq!(next.rgba, vec![15; 4]);
}

#[test]
fn depth_ranges_leave_out_both_ends() {
    let mut depth: Vec<f32> = (0..100).rev().map(|x| x as f32).collect();
    depth.push(f32::NAN);
    depth.push(f32::INFINITY);
    let (lo, hi) = depth_range(&floats(&depth)).expect("finite");
    assert_eq!((g(lo), g(hi)), (5.0, 95.0));
    let (lo, hi) = depth_range(&floats(&[3.0])).expect("finite");
    assert_eq!((g(lo), g(hi)), (3.0, 3.0));
    assert!(depth_range(&floats(&[f32::NAN])).is_none());
    assert_eq!(keep_finite(&floats(&[1.0, f32::NAN, 2.0])).len(), 2);
}

#[test]
fn depth_panels_are_black_without_depth() {
    let img = depth_panel(&floats(&[1.0, f32::NAN]), 2, 1, |v: F32| [g(v) as u8, 0, 0]);
    assert_eq!(img.pixels, vec![[1, 0, 0], BLACK]);
}

#[test]
fn buckets_group_by_tile() {
    let ids = vec![2, 0, 2, 3, 0];
    let b = bucket(&ids, 3);
    assert_eq!(b.members(&ids, 3, 0), vec![1, 4]);
    assert!(b.members(&ids, 3, 1).is_empty());
    assert_eq!(b.members(&ids, 3, 2), vec![0, 2]);
    assert_eq!(tile_id(Some((17, 33)), 16, 4, 4), 2 * 4 + 1);
    assert_eq!(tile_id(None, 16, 4, 4), 16);
}

#[test]
fn boxes_hold_their_border() {
    let p = |x: f32| Vec3 { x: f(x), y: f(0.0), z: f(0.0) };
    let points = vec![p(0.0), p(1.0), p(1.1), p(f32::NAN)];
    assert_eq!(inside(&points, p(0.0), p(1.0)), vec![true, true, false, false]);
}

#[test]
fn equal_keys_keep_their_places() {
    assert_eq!(stable_order(&vec![3, 1, 3, 1]), vec![1, 3, 0, 2]);
}

#[test]
fn numbers_are_compared_as_floats_are() {
    let all = [f32::NEG_INFINITY, -2.0, -0.0, 0.0, 1e-40, 1.0, f32::INFINITY, f32::NAN];
    for &a in &all {
        for &b in &all {
            assert_eq!(f(a).lt(f(b)), a < b, "{a} < {b}");
            assert_eq!(f(a).le(f(b)), a <= b, "{a} <= {b}");
            assert_eq!(
                f(a).to_total_rank() < f(b).to_total_rank(),
                a.total_cmp(&b).is_lt(),
                "{a} before {b}"
            );
            if !a.is_nan() && !b.is_nan() {
                assert_eq!(f(a).to_rank() < f(b).to_rank(), a < b);
            }
        }
        assert_eq!(f(a).is_nan(), a.is_nan());
        assert_eq!(f(a).is_finite(), a.is_finite());
        assert_eq!(f(a).is_positive(), a > 0.0);
        assert_eq!(f(a).is_negative(), a < 0.0);
    }
}

#[test]
fn text_is_replaced_from_the_left() {
    assert_eq!(replace("aaa", "aa", "b"), "ba");
    assert_eq!(replace("x{i}y{i}", "{i}", "12"), "x12y12");
    assert_eq!(replace("abc", "d", "e"), "abc");
    assert_eq!(to_decimal(0), "0");
    assert_eq!(to_decimal(4294967295), "4294967295");
    assert_eq!(pad(42, 5), "00042");
    assert_eq!(pad(42, 1), "42");
    assert!(is_before("a", "ab"));
    assert!(is_before("ab", "b"));
    assert!(!is_before("b", "b"));
}

#[test]
fn samples_have_a_nearest_pixel() {
    let pixels: Vec<usize> = (0..4).map(|i| nearest_pixel(i, 10, 4)).collect();
    assert_eq!(pixels, vec![0, 2, 5, 7]);
    let pixels: Vec<usize> = (0..5).map(|i| nearest_pixel(i, 3, 5)).collect();
    assert_eq!(pixels, vec![0, 0, 1, 1, 2]);
    assert_eq!(nearest_pixel(usize::MAX - 1, usize::MAX, usize::MAX), usize::MAX - 1);
}
