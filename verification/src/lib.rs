//! Mesh extraction from Gaussian splats: the parts that decide and rearrange.

pub mod bake;
pub mod bounds;
pub mod buckets;
pub mod bytes;
pub mod carve;
pub mod dataset;
pub mod delaunay;
pub mod eval;
pub mod extract;
pub mod filter;
pub mod float;
mod fx;
pub mod gltf;
pub mod integrate;
pub mod json;
pub mod marching_tet;
pub mod mesh;
pub mod process;
pub mod refine;
pub mod render;
pub mod seqs;
pub mod simplify;
pub mod smooth;
pub mod sort;
pub mod tetra_points;
pub mod text;
pub mod texture;
