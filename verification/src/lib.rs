//! Clipmap mesh generation: a square terrain surface assembled from nested
//! levels of detail, each a uniformly subdivided grid, with the rings between
//! resolutions closed by a seam-stitching algorithm.
//!
//! All geometry is computed over exact rational coordinates, so the hole test
//! and the seam merge are free of rounding.

pub mod frac;
pub mod geom;
pub mod lod;
pub mod mesh;
pub mod order;
pub mod props;
pub mod stitch;
