//! Palette quantization and dithering for RGB rasters.
//!
//! A raster is reduced to a small colour set by one of four quantizers
//! (random sampling, bucket average, k-means, median cut) and redrawn with
//! that set by ordered, error-diffusion or noise-gated dithering. Every
//! distance comparison goes through one integer metric, the squared
//! Euclidean distance between two colours.

pub mod error;
pub mod colour;
pub mod utils;
pub mod sorting;
pub mod median_cut;
pub mod random;
pub mod kmeans;
pub mod buffer;
pub mod consts;
pub mod ditherer;
pub mod population;
pub mod hex;
pub mod palette;
pub mod image;
