//! Rendered channels: packing, read-back and colour ranges.

pub mod fields;
pub mod geo;
pub mod mip;
pub mod panel;
pub mod readback;
pub mod replay;
pub mod scatter;
pub mod tiles;
