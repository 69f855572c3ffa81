//! Raster-to-vector tracing: luminance bitmaps, histogram thresholding, contour
//! extraction, the integer stages of polygon fitting, and posterization layers.

pub mod constants;
pub mod utils;
pub mod point;
pub mod path;
pub mod bitmap;
pub mod histogram;
pub mod potrace;
pub mod posterizer;
