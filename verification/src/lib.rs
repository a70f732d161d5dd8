//! Takeoff pipeline for architectural drawings: tiled rasterization,
//! adaptive vectorization, scale inference, geometric measurement,
//! bill-of-materials mapping, and job orchestration.
pub mod detect;
pub mod jobs;
pub mod map;
pub mod measure;
pub mod scale;
pub mod raster;
pub mod render;
pub mod tiler;
