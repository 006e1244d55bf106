//! Evaluation of a mesh against rendered views.

pub mod grid;
pub mod holes;
pub mod label;
pub mod raster;
pub mod supersample;
pub mod views;
