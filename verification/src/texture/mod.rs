//! UV atlas: which faces form a chart, where charts are packed, and how the mesh is split
//! along their borders.
//!
//! Faces cluster into charts over shared edges. Charts are packed as rectangles under a
//! skyline. Each chart gets its own copy of the vertices it uses. Normals, projections and
//! texel sizes are the caller's.

pub mod adjacency;
pub mod atlas;
pub mod charts;
pub mod skyline;
pub mod specks;
pub mod split;
pub mod texels;
