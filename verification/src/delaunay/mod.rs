//! Incremental 3D Delaunay triangulation (Bowyer-Watson).

pub mod arena;
pub mod cavity;
pub mod closed;
pub mod geometry;
pub mod hilbert;
pub mod insert;
pub mod level;
pub mod locate;
pub mod lock_grid;
pub mod locked_insert;
pub mod triangulate;
