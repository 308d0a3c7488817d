//! The failures that a conversion can end in.

use vstd::prelude::*;

verus! {

/// Why a conversion or one of its steps failed.
#[derive(Debug)]
pub enum TilingError {
    /// The panorama is not twice as wide as it is high, or is empty.
    InvalidPanoramaDimensions { width: u32, height: u32 },
    /// A level was asked for that the pyramid does not have.
    InvalidLevel { level: u32, levels: u32 },
    /// The rectangle of a tile does not lie in its level.
    InvalidTile { level: u32, col: u32, row: u32 },
    /// The JPEG encoder refused the raster of a tile.
    EncodingFailed { level: u32, col: u32, row: u32, source: image::ImageError },
    /// The container could not be written.
    IOFailure(zip::result::ZipError),
}

} // verus!
