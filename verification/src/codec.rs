//! The two image operations that the tiler takes from the `image` crate:
//! Lanczos resampling and baseline JPEG encoding. Nothing in this module is
//! proved; each function states what is assumed of the code it calls.

use vstd::prelude::*;
use crate::raster::Raster;

verus! {

/// Largest side of an image that the JPEG encoder accepts.
pub const JPEG_MAX_SIDE: u32 = 65535;

/// Quality setting of every tile, on the encoder's scale of 1 to 100.
pub const TILE_QUALITY: u8 = 90;

/// The error type of the `image` crate, carried through unread.
#[verifier::external_type_specification]
#[verifier::external_body]
pub struct ExImageError(image::ImageError);

/// The samples that `image::imageops::resize` with the Lanczos filter of
/// window 3 gives for an RGB image of `width` by `height` pixels resampled
/// to `new_width` by `new_height`.
pub uninterp spec fn lanczos3_resampled(
    samples: Seq<u8>,
    width: nat,
    height: nat,
    new_width: nat,
    new_height: nat,
) -> Seq<u8>;

/// The byte stream that `image`'s JPEG encoder writes for an RGB image of
/// `width` by `height` pixels at the given quality.
pub uninterp spec fn jpeg_encoded(samples: Seq<u8>, width: nat, height: nat, quality: u8) -> Seq<
    u8,
>;

/// The encoder takes images whose sides are between 1 and 65535 pixels.
pub open spec fn jpeg_encodable(width: nat, height: nat) -> bool {
    1 <= width <= JPEG_MAX_SIDE && 1 <= height <= JPEG_MAX_SIDE
}

/// The resampler's working buffers for an image of this size can be
/// allocated: the largest holds four 32-bit samples per pixel.
pub open spec fn resampling_fits_memory(width: nat, height: nat) -> bool {
    16 * width * height <= isize::MAX
}

/// Calls `image::imageops::resize` with `FilterType::Lanczos3`.
///
/// Assumed: the result has exactly the requested dimensions and its samples
/// depend on the arguments alone; when the requested dimensions are those of
/// the source, the result is a copy of the source. The call allocates a
/// `width` by `new_height` buffer of sixteen bytes per pixel and panics when
/// that exceeds the address space, hence the bound on the source.
#[verifier::external_body]
pub(crate) fn resize_lanczos3(source: &Raster, new_width: u32, new_height: u32) -> (resized: Raster)
    requires
        source@.wf(),
        new_width <= source@.width,
        new_height <= source@.height,
        resampling_fits_memory(source@.width, source@.height),
    ensures
        resized@.wf(),
        resized@.width == new_width,
        resized@.height == new_height,
        resized@.samples == lanczos3_resampled(
            source@.samples,
            source@.width,
            source@.height,
            new_width as nat,
            new_height as nat,
        ),
        new_width == source@.width && new_height == source@.height ==> resized@ == source@,
{
    let pixels: &[u8] = source.data.as_slice();
    let view = image::ImageBuffer::<image::Rgb<u8>, &[u8]>::from_raw(
        source.width,
        source.height,
        pixels,
    ).unwrap();
    let out = image::imageops::resize(
        &view,
        new_width,
        new_height,
        image::imageops::FilterType::Lanczos3,
    );
    Raster { width: new_width, height: new_height, data: out.into_raw() }
}

/// Calls `JpegEncoder::new_with_quality` on a fresh buffer and
/// `ImageEncoder::write_image` with the raster's samples as `Rgb8`.
///
/// Assumed: the encoder refuses exactly the images with a side of 0 or above
/// 65535, and otherwise writes bytes that depend on the samples, the
/// dimensions and the quality alone.
#[verifier::external_body]
pub(crate) fn encode_jpeg(raster: &Raster, quality: u8) -> (encoded: Result<
    Vec<u8>,
    image::ImageError,
>)
    requires
        raster@.wf(),
    ensures
        encoded is Ok <==> jpeg_encodable(raster@.width, raster@.height),
        encoded matches Ok(bytes) ==> bytes@ == jpeg_encoded(
            raster@.samples,
            raster@.width,
            raster@.height,
            quality,
        ),
{
    let mut bytes: Vec<u8> = Vec::new();
    let encoder = image::codecs::jpeg::JpegEncoder::new_with_quality(&mut bytes, quality);
    image::ImageEncoder::write_image(
        encoder,
        raster.data.as_slice(),
        raster.width,
        raster.height,
        image::ExtendedColorType::Rgb8,
    )?;
    Ok(bytes)
}

} // verus!
