//! A square raster tile of a Mercator tile pyramid: its placement in the unit
//! square of the projection, a grid of samples, downsampling by box averaging,
//! and the false-color encoding used to draw it.
pub mod color;
pub mod tile;

pub use color::{encode_level, encode_levels, LEVEL_CAP};
pub use tile::{GeoImage, TileError, UNSET};
