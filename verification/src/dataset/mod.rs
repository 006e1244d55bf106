//! Datasets: views, their sidecar files and what training starts from.

pub mod formats;
pub mod lidar_init;
pub mod load_depth;
pub mod random_init;
pub mod scene_loader;
pub mod splat_init;
