//! Datasets: file matching, splits, starting points and the view cache.

use brush_mesh::dataset::formats::{
    accept_dataset, find_depth_path, find_image_by_name, find_mask_path, main_ply,
    split_eval_every, DatasetError, FilePath,
};
use brush_mesh::dataset::lidar_init::{first_per_cell, select_seeds};
use brush_mesh::dataset::load_depth::DepthData;
use brush_mesh::dataset::random_init::{
    chunk_size, contributes, gather_points, sample_pixel, sampling_jobs,
};
use brush_mesh::dataset::scene_loader::{
    task_seeds, CachedView, DepthSample, EpochSampler, ViewCache, CACHE_BUDGET_BYTES,
};
use brush_mesh::dataset::splat_init::bounds_from_pos as bounds_at;
use brush_mesh::eval::raster::RgbImage;
use brush_mesh::float::F32;
use std::sync::Arc;

fn f(x: f32) -> F32 {
    F32::from_bits(x.to_bits())
}

fn g(x: F32) -> f32 {
    f32::from_bits(x.bits)
}

fn path(p: &str) -> FilePath {
    FilePath { parts: p.split('/').map(|s| s.to_string()).collect() }
}

fn paths(all: &[&str]) -> Vec<FilePath> {
    all.iter().map(|p| path(p)).collect()
}

fn mask_of(files: &[&str], image: &str) -> Option<String> {
    let all = paths(files);
    find_mask_path(&all, &path(image)).map(|i| all[i].parts.join("/"))
}

#[test]
fn test_find_mask() {
    // Basic matching with same extension
    assert_eq!(
        mask_of(&["images/img.png", "masks/img.png"], "images/img.png"),
        Some("masks/img.png".to_string())
    );
    // Different extensions are ok.
    assert_eq!(
        mask_of(&["images/img.jpeg", "masks/img.png"], "images/img.jpeg"),
        Some("masks/img.png".to_string())
    );
}

#[test]
fn test_find_mask_formats() {
    // Test img.png.mask format
    assert_eq!(
        mask_of(&["images/foo.png", "masks/foo.png.mask"], "images/foo.png"),
        Some("masks/foo.png.mask".to_string())
    );
    // Test img.mask.png format
    assert_eq!(
        mask_of(&["images/bar.jpeg", "masks/bar.mask.png"], "images/bar.jpeg"),
        Some("masks/bar.mask.png".to_string())
    );
}

#[test]
fn test_find_nested_dirs() {
    // Nested directories must match
    assert_eq!(
        mask_of(&["images/foo/bar/img.png", "masks/foo/bar/img.png"], "images/foo/bar/img.png"),
        Some("masks/foo/bar/img.png".to_string())
    );
    // Should not match wrong subpath
    assert_eq!(mask_of(&["images/baz/img.png", "masks/foo/img.png"], "images/baz/img.png"), None);
}

#[test]
fn test_find_case_insensitive() {
    assert_eq!(
        mask_of(&["images/IMG.PNG", "masks/img.png"], "images/IMG.PNG"),
        Some("masks/img.png".to_string())
    );
}

#[test]
fn images_are_no_masks() {
    assert_eq!(mask_of(&["images/a.png", "other/a.png"], "images/a.png"), None);
    assert_eq!(mask_of(&[], "images/a.png"), None);
}

#[test]
fn depth_files_match_by_stem() {
    let files = paths(&["images/a.jpg", "depths/b.bin", "depths/a.bin"]);
    assert_eq!(find_depth_path(&files, &path("images/a.jpg")), Some(2));
    let image = path("images/A.jpg");
    assert_eq!(find_depth_path(&paths(&["x/Depth/y/a.BIN"]), &image), Some(0));
    assert_eq!(find_depth_path(&paths(&["images/a.bin", "depth/a.png"]), &image), None);
}

#[test]
fn the_first_image_by_name_that_is_no_mask_is_taken() {
    assert_eq!(find_image_by_name(&paths(&["z/img.png", "a/img.png", "masks/img.png"])), Some(1));
    assert_eq!(find_image_by_name(&paths(&["masks/img.png"])), None);
    assert_eq!(find_image_by_name(&vec![]), None);
}

#[test]
fn init_files_come_before_the_last_one() {
    assert_eq!(main_ply(&paths(&["b.ply", "init.ply", "z.ply"])), Some(1));
    assert_eq!(main_ply(&paths(&["b.ply", "z.ply", "c.ply"])), Some(1));
    assert_eq!(main_ply(&vec![]), None);
}

#[test]
fn datasets_are_refused_for_a_reason() {
    assert_eq!(accept_dataset(true, 1), Ok(()));
    assert_eq!(accept_dataset(true, 0), Err(DatasetError::NoTrainViews));
    assert_eq!(accept_dataset(false, 1), Err(DatasetError::FormatNotSupported));
}

#[test]
fn every_view_is_trained_on_or_evaluated() {
    let (train, eval) = split_eval_every(&vec![0, 1, 2, 3, 4, 5, 6], Some(3));
    assert_eq!(eval, vec![0, 3, 6]);
    assert_eq!(train, vec![1, 2, 4, 5]);
    let (train, eval) = split_eval_every(&vec![0, 1], None);
    assert_eq!((train, eval), (vec![0, 1], vec![]));
    let (train, eval) = split_eval_every(&vec![0, 1], Some(1));
    assert_eq!((train, eval), (vec![], vec![0, 1]));
}

struct Bounds {
    center: glam::Vec3,
    extent: glam::Vec3,
}

fn bounds_from_pos(percentile: f32, means: &[f32]) -> Bounds {
    let pick = |n: usize| {
        let lo = ((1.0 - percentile) / 2.0 * n as f32) as usize;
        let hi = (n - 1).min(((1.0 + percentile) / 2.0 * n as f32) as usize);
        (lo, hi)
    };
    let (lo, hi) = bounds_at(pick, &means.iter().map(|&x| f(x)).collect());
    let lo = glam::Vec3::new(g(lo.x), g(lo.y), g(lo.z));
    let hi = glam::Vec3::new(g(hi.x), g(hi.y), g(hi.z));
    Bounds { center: (lo + hi) / 2.0, extent: (hi - lo) / 2.0 }
}

#[test]
fn bounds_from_pos_all_nan_does_not_panic() {
    let means = vec![f32::NAN; 30];
    let bb = bounds_from_pos(0.8, &means);
    // We expect a finite fallback: no NaN leak, no panic.
    assert!(bb.center.is_finite(), "center: {:?}", bb.center);
    assert!(bb.extent.is_finite(), "extent: {:?}", bb.extent);
}

#[test]
fn bounds_from_pos_empty_does_not_panic() {
    let bb = bounds_from_pos(0.8, &[]);
    assert!(bb.center.is_finite());
    assert!(bb.extent.is_finite());
}

#[test]
fn bounds_from_pos_mixed_nan_and_finite() {
    // Half NaN, half finite. The finite half should determine the bounds.
    let mut means = Vec::new();
    for i in 0..100 {
        if i % 2 == 0 {
            means.extend_from_slice(&[f32::NAN, f32::NAN, f32::NAN]);
        } else {
            means.extend_from_slice(&[i as f32, i as f32, i as f32]);
        }
    }
    let bb = bounds_from_pos(0.8, &means);
    assert!(bb.center.is_finite());
    assert!(bb.extent.is_finite());
    // Extent should be reasonable (the finite values span 1..99).
    assert!(bb.extent.x > 0.0 && bb.extent.x < 100.0);
}

#[test]
fn bounds_from_pos_one_axis_all_nan() {
    // x and z are OK, y is all NaN.
    let mut means = Vec::new();
    for i in 0..50 {
        means.extend_from_slice(&[i as f32, f32::NAN, i as f32]);
    }
    let bb = bounds_from_pos(0.8, &means);
    assert!(bb.center.is_finite());
    assert!(bb.extent.is_finite());
}

#[test]
fn bounds_leave_outliers_out() {
    let mut means = Vec::new();
    for i in (0..10).rev() {
        means.extend_from_slice(&[i as f32, -(i as f32), 0.0]);
    }
    means.push(7.0);
    let bb = bounds_from_pos(0.5, &means);
    // Places 2 and 7 of 0..9.
    assert_eq!(bb.center.x - bb.extent.x, 2.0);
    assert_eq!(bb.center.x + bb.extent.x, 7.0);
    assert_eq!(bb.center.y - bb.extent.y, -7.0);
}

#[test]
fn quotas_share_out_all_points() {
    let jobs = sampling_jobs(10, 4, 100);
    let counts: Vec<usize> = jobs.iter().map(|j| j.0).collect();
    assert_eq!(counts, vec![3, 3, 2, 2]);
    assert_eq!(jobs[0].1, 100);
    assert_eq!(jobs[1].1, 100u64.wrapping_add(0x9E37_79B9));
    assert_eq!(jobs[3].1, 100u64.wrapping_add(3 * 0x9E37_79B9));
    assert!(sampling_jobs(10, 0, 1).is_empty());
}

#[test]
fn chunks_cover_everything() {
    assert_eq!(chunk_size(10, 4), 3);
    assert_eq!(chunk_size(0, 4), 1);
    assert_eq!(chunk_size(8, 4), 2);
}

#[test]
fn pixels_outside_are_those_of_the_border() {
    let mut img = RgbImage::filled(2, 2, [1, 1, 1]);
    img.put(1, 1, [9, 8, 7]);
    assert_eq!(sample_pixel(&img, 5, 7), [9, 8, 7]);
    assert_eq!(sample_pixel(&img, 0, 7), [1, 1, 1]);
}

#[test]
fn confident_near_samples_are_seeds() {
    let d = DepthData {
        width: 4,
        height: 1,
        depth: [1.0, 9.0, 2.0, f32::INFINITY].iter().map(|&x| f(x)).collect(),
        conf: vec![2, 2, 0, 2],
    };
    assert_eq!(select_seeds(&d, 1, f(5.0)), vec![0]);
    assert_eq!(select_seeds(&d, 0, f(5.0)), vec![0, 2]);
}

#[test]
fn cells_keep_their_first_sample() {
    let mut kept = first_per_cell(&vec![(0, 0, 0), (1, 0, 0), (0, 0, 0), (-1, 5, 0), (1, 0, 0)]);
    kept.sort_unstable();
    assert_eq!(kept, vec![0, 1, 3]);
    assert!(first_per_cell(&vec![]).is_empty());
}

fn view(bytes: usize) -> Arc<CachedView> {
    let depth = Some(DepthSample { depth: vec![0; 4], conf: vec![0; 2] });
    Arc::new(CachedView { img_packed: vec![0; bytes], has_alpha: false, depth })
}

#[test]
fn views_are_cached_once_and_within_the_budget() {
    let mut cache = ViewCache::new(2);
    assert_eq!(cache.budget_bytes, CACHE_BUDGET_BYTES);
    assert_eq!(cache.budget_bytes, 6 * 1024 * 1024 * 1024);
    assert!(cache.get(0).is_none());
    cache.insert(0, view(10));
    assert_eq!(cache.used_bytes, 16);
    cache.insert(0, view(20));
    assert_eq!(cache.used_bytes, 16, "the first one stays");
    assert_eq!(cache.get(0).map(|v| v.img_packed.len()), Some(10));
    cache.budget_bytes = 32;
    cache.insert(1, view(10));
    assert!(cache.get(1).is_none(), "a view that reaches the budget is not kept");
    cache.insert(1, view(9));
    assert_eq!(cache.used_bytes, 31);
}

#[test]
fn epochs_visit_each_view_once() {
    let mut sampler = EpochSampler::new(7, 42);
    let mut epochs = Vec::new();
    for _ in 0..3 {
        let mut epoch: Vec<usize> = (0..7).map(|_| sampler.next_view()).collect();
        epochs.push(epoch.clone());
        epoch.sort_unstable();
        assert_eq!(epoch, (0..7).collect::<Vec<usize>>());
    }
    let mut again = EpochSampler::new(7, 42);
    let first: Vec<usize> = (0..7).map(|_| again.next_view()).collect();
    assert_eq!(first, epochs[0], "the seed fixes the order");
    let mut many = EpochSampler::new(100, 1);
    let long: Vec<usize> = (0..100).map(|_| many.next_view()).collect();
    assert_ne!(long, (0..100).collect::<Vec<usize>>(), "the views are shuffled");
    assert_ne!(long, (0..100).rev().collect::<Vec<usize>>());
}

#[test]
fn tasks_have_seeds_of_their_own() {
    assert_eq!(task_seeds(5, 2), vec![5, 6, 7, 8]);
    assert_eq!(task_seeds(u64::MAX, 1), vec![u64::MAX, 0]);
}

#[test]
fn views_contribute_if_they_have_pixels() {
    assert!(contributes(1, Some((2, 3))));
    assert!(!contributes(0, Some((2, 3))));
    assert!(!contributes(5, None));
    assert!(!contributes(5, Some((0, 3))));
    assert!(!contributes(5, Some((2, 0))));
}

#[test]
fn points_are_gathered_in_the_order_of_the_views() {
    assert_eq!(gather_points(&vec![vec![3, 1], vec![], vec![2]]), Some(vec![3, 1, 2]));
    assert_eq!(gather_points::<u8>(&vec![vec![], vec![]]), None);
    assert_eq!(gather_points::<u8>(&vec![]), None);
}

/// A larger percentile gives a larger box, up to that of all finite points; others change nothing.
#[test]
fn larger_percentiles_give_larger_boxes() {
    let mut means: Vec<f32> = (0..60).map(|i| ((i * 37) % 60) as f32 - 30.0).collect();
    let mut last = bounds_from_pos(0.0, &means);
    for percent in 1..=20 {
        let next = bounds_from_pos(percent as f32 / 20.0, &means);
        assert!((next.center - next.extent).cmple(last.center - last.extent).all());
        assert!((next.center + next.extent).cmpge(last.center + last.extent).all());
        last = next;
    }
    for axis in 0..3 {
        let all: Vec<f32> = means.iter().copied().skip(axis).step_by(3).collect();
        let low = all.iter().copied().fold(f32::INFINITY, f32::min);
        let high = all.iter().copied().fold(f32::NEG_INFINITY, f32::max);
        assert_eq!((last.center - last.extent)[axis], low);
        assert_eq!((last.center + last.extent)[axis], high);
    }
    means.extend([f32::NAN, f32::INFINITY, f32::NEG_INFINITY]);
    let same = bounds_from_pos(1.0, &means);
    assert_eq!((same.center, same.extent), (last.center, last.extent));
}
