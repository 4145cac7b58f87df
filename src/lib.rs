//! Conversion of decoded raster images into packed palette-indexed bytes
//! for a display that supports 1, 2, 3, 4, 6 or 8 bits per pixel.

pub mod color;
pub mod depth;
pub mod error;
pub mod raster;
pub mod palette;
pub mod global;
pub mod encode;
pub mod params;
pub mod layout;
pub mod run;
pub mod naming;
pub mod args;
