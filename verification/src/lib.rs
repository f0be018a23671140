//! Raster-to-vector tracing library: the integer stages of the tracing
//! pipeline (image decoding and preprocessing, palette quantization and
//! segmentation, label cleanup, grid-edge contour extraction, SVG path
//! planning, configuration parsing, progress bookkeeping and results).

pub mod cleanup;
pub mod components;
pub mod config;
pub mod contour;
pub mod error;
pub mod loader;
pub mod preprocess;
pub mod progress;
pub mod quantize;
pub mod regions;
pub mod result;
pub mod segment;
pub mod sort;
