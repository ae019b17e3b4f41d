//! Quantizes full-color raster images to a packed 16-bit color format, with four dithering
//! strategies, and stores the result in a run-length-compressed binary container.

pub mod codec;
pub mod color;
pub mod converters;
pub mod plane;
