//! Conversion of equirectangular panoramas into packaged cube-map Deep Zoom
//! pyramids.

pub mod archive;
pub mod codec;
pub mod converter;
pub mod dzi;
pub mod error;
pub mod face;
pub mod pyramid;
pub mod raster;
pub mod render;
pub mod sampling;
pub mod text;

pub use converter::DzpConverter;
pub use dzi::{TileBlob, TileCreator};
pub use error::TilingError;
pub use face::Face;
pub use raster::{Raster, Rgb};
