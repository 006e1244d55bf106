//! Evaluation images: labels, grids, holes, view selection and errors.

use brush_mesh::eval::grid::{assemble_grid, grid_fits};
use brush_mesh::eval::holes::{count_enclosed_holes, Background};
use brush_mesh::eval::label::{draw_glyph, draw_label_centered, glyph};
use brush_mesh::eval::raster::{RgbImage, BLACK, WHITE};
use brush_mesh::eval::supersample::{downsample, draw_size, MAX_SIDE};
use brush_mesh::eval::views::{count_covered, select_views, sum_masked_error};
use brush_mesh::float::F32;

fn f(x: f32) -> F32 {
    F32::from_bits(x.to_bits())
}

/// An image from rows of characters; a dot is black.
fn image(rows: &[&str]) -> RgbImage {
    let mut img = RgbImage::filled(rows[0].len() as u32, rows.len() as u32, BLACK);
    for (y, row) in rows.iter().enumerate() {
        for (x, c) in row.chars().enumerate() {
            if c != '.' {
                img.put(x as u32, y as u32, [10, 20, 30]);
            }
        }
    }
    img
}

fn lit(img: &RgbImage) -> Vec<String> {
    (0..img.height)
        .map(|y| {
            (0..img.width)
                .map(|x| if img.get(x, y) == WHITE { '#' } else { '.' })
                .collect()
        })
        .collect()
}

#[test]
fn letters_have_glyphs() {
    assert_eq!(glyph('L'), Some([0x10, 0x10, 0x10, 0x10, 0x10, 0x10, 0x1F]));
    assert_eq!(glyph('T'), Some([0x1F, 0x04, 0x04, 0x04, 0x04, 0x04, 0x04]));
    assert_eq!(glyph('l'), None);
    assert_eq!(glyph(' '), None);
    for ch in "ADEGHLMPST".chars() {
        assert!(glyph(ch).is_some());
    }
}

#[test]
fn glyphs_are_drawn_left_to_right() {
    let mut img = RgbImage::filled(7, 8, BLACK);
    draw_glyph(&mut img, 'P', 1, 1, 1);
    assert_eq!(
        lit(&img),
        vec![
            ".......", ".####..", ".#...#.", ".#...#.", ".####..", ".#.....", ".#.....", ".#.....",
        ]
    );
    let before = lit(&img);
    draw_glyph(&mut img, '?', 0, 0, 1);
    assert_eq!(lit(&img), before, "characters without a glyph draw nothing");
}

#[test]
fn glyphs_scale_and_are_cut_off() {
    let mut img = RgbImage::filled(4, 4, BLACK);
    draw_glyph(&mut img, 'L', 0, 0, 2);
    assert_eq!(lit(&img), vec!["##..", "##..", "##..", "##.."]);
}

#[test]
fn labels_are_centred() {
    // Two glyphs and the gap are eleven wide; twenty-one leave five on each side.
    let mut img = RgbImage::filled(21, 11, BLACK);
    draw_label_centered(&mut img, "LL", 0, 21, 11, 1);
    let rows = lit(&img);
    assert_eq!(rows[2], ".....#.....#.........");
    assert_eq!(rows[8], ".....#####.#####.....");
    assert_eq!(rows[1], ".".repeat(21));
    assert_eq!(rows[9], ".".repeat(21));
}

#[test]
fn panels_lie_side_by_side_under_the_header() {
    let panel = |c: u8| RgbImage::filled(3, 2, [c, c, c]);
    let rows = vec![
        [panel(1), panel(2), panel(3), panel(4)],
        [panel(5), panel(6), panel(7), RgbImage::filled(1, 1, [8, 8, 8])],
    ];
    let out = assemble_grid(&rows, ["GT", "SPLAT", "MESH", "DEPTH"]);
    let header = (7 + 4) * 2;
    assert_eq!((out.width, out.height), (12, header + 4));
    assert_eq!(out.get(0, header), [1, 1, 1]);
    assert_eq!(out.get(11, header + 1), [4, 4, 4]);
    assert_eq!(out.get(6, header + 2), [7, 7, 7]);
    assert_eq!(out.get(9, header + 2), [8, 8, 8]);
    assert_eq!(out.get(10, header + 2), BLACK, "a small panel leaves its cell black");
}

#[test]
fn a_grid_without_rows_is_its_header() {
    let out = assemble_grid(&vec![], ["GT", "GT", "GT", "GT"]);
    assert_eq!((out.width, out.height), (4, 22));
}

#[test]
fn holes_are_enclosed_black_regions() {
    let img = image(&["#####", "#.#.#", "#.###", "###.#", "####."]);
    assert_eq!(count_enclosed_holes(&img), 3);
    let open = image(&["#.###", "#.#.#", "#####"]);
    assert_eq!(count_enclosed_holes(&open), 1);
    assert_eq!(count_enclosed_holes(&image(&["...", "...", "..."])), 0);
    assert_eq!(Background::of(&img).count_holes(), 3);
}

#[test]
fn covered_pixels_are_not_black() {
    let img = image(&["#..", ".##"]);
    assert_eq!(count_covered(&img), 3);
}

#[test]
fn errors_are_summed_over_covered_pixels() {
    let mesh = image(&["#."]);
    let target = RgbImage::filled(2, 1, [13, 16, 30]);
    // (10-13)^2 + (20-16)^2 + 0 over three channels.
    assert_eq!(sum_masked_error(&mesh, &target), (25, 3));
    let none = image(&[".."]);
    assert_eq!(sum_masked_error(&none, &target), (0, 0));
}

#[test]
fn views_are_spread_over_the_far_half() {
    let dist: Vec<F32> = [1.0, 9.0, 8.0, 2.0, 7.0, 3.0, 6.0, 4.0].iter().map(|&x| f(x)).collect();
    // The far half is {1, 2, 4, 6}; two of it are places 0 and 2.
    assert_eq!(select_views(&dist, 2), vec![1, 4]);
    assert_eq!(select_views(&dist, 20), (0..8).collect::<Vec<usize>>());
    assert!(select_views(&dist, 0).is_empty());
    assert!(select_views(&vec![], 3).is_empty());
}

#[test]
fn overlays_are_cut_off() {
    let mut img = RgbImage::filled(3, 3, BLACK);
    img.overlay(&RgbImage::filled(2, 2, WHITE), 2, 1);
    assert_eq!(lit(&img), vec!["...", "..#", "..#"]);
}

#[test]
fn grids_that_are_too_large_are_told() {
    let panel = |width: u32| RgbImage { width, height: 1, pixels: vec![] };
    let row = |w: u32| vec![[panel(w), panel(1), panel(1), panel(1)]];
    let labels = ["GT", "SPLAT", "MESH", "DEPTH"];
    assert!(grid_fits(&vec![], labels));
    assert!(grid_fits(&row(1000), labels));
    assert!(grid_fits(&row(800_000_000), labels));
    assert!(!grid_fits(&row(900_000_000), labels));
    assert!(!grid_fits(&row(1000), ["GT", "", "MESH", "DEPTH"]));
}

#[test]
fn large_pictures_are_made_smaller() {
    let four = RgbImage {
        width: 2,
        height: 2,
        pixels: vec![[0, 0, 0], [100, 0, 20], [200, 0, 40], [40, 255, 0]],
    };
    let one = downsample(&four, 1, 1);
    assert_eq!((one.width, one.height), (1, 1));
    assert_eq!(one.pixels, vec![[85, 64, 15]]);
    // The weights of four columns are 3, 3, 1, 0 and 0, 1, 3, 3.
    let row = [[0, 0, 7], [70, 0, 7], [140, 0, 7], [210, 0, 7]];
    let wide = RgbImage { width: 4, height: 2, pixels: [row, row].concat() };
    assert_eq!(downsample(&wide, 2, 1).pixels, vec![[50, 0, 7], [160, 0, 7]]);
}

#[test]
fn pictures_are_drawn_at_twice_the_size() {
    assert_eq!(draw_size(640, 480), Some((1280, 960)));
    assert_eq!(draw_size(0, 480), None);
    assert_eq!(draw_size(640, 0), None);
    assert_eq!(draw_size(MAX_SIDE / 2, 1), Some((MAX_SIDE, 2)));
    assert_eq!(draw_size(1, MAX_SIDE / 2 + 1), None);
}
