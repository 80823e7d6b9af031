//! Watercolor-style raster transforms: a border-distance transform over a
//! pixel grid, exact-color segmentation with area filtering, and the mask
//! transforms that drive the cosmetic passes built on top of them.

pub mod distance;
pub mod edge;
pub mod grid;
pub mod mask;
pub mod segment;
