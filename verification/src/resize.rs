//! The resize pipeline: decode a JPEG byte stream, resample to the target
//! dimensions with a Lanczos-3 convolution filter, re-encode as JPEG.
//!
//! Whether a byte stream decodes, and at which dimensions, is determined by
//! the bytes alone, so that outcome carries a name (`jpeg_dims`) that the
//! contracts speak of. The decoded pixel values and the resampled pixel
//! values are not named: both the decoder's inverse DCT and the resampler
//! pick their code path by the CPU's vector extensions, so only the sizes
//! of those buffers are claimed. The encoding of a given pixel buffer is
//! deterministic and carries the name `jpeg_encode_rgb`; the pipeline's
//! contract states the decodability and the exact dimensions of the final
//! JPEG, which hold whatever pixels came out of the resampler.

use vstd::prelude::*;

use fast_image_resize::images::Image;
use fast_image_resize::{FilterType, PixelType, ResizeAlg, ResizeOptions, Resizer};
use image::codecs::jpeg::JpegEncoder;
use image::{load_from_memory_with_format, ColorType, ImageEncoder, ImageFormat};

verus! {

/// Largest accepted target width or height: the JPEG format stores each
/// dimension in 16 bits.
pub const MAX_DIM: u32 = 65535;

/// Largest accepted pixel buffer, in bytes: the decoder allows one
/// allocation of at most 512 MiB, so a larger re-encoded image could not be
/// read back through the same path.
pub const MAX_PIXEL_BYTES: u64 = 536870912;

/// What decoding a byte sequence strictly as JPEG yields: `None` where the
/// bytes are not accepted as JPEG, otherwise the image's width and height.
/// Acceptance and dimensions depend on the bytes alone; the pixel values do
/// not (the inverse DCT varies with the CPU), so they carry no name.
pub uninterp spec fn jpeg_dims(data: Seq<u8>) -> Option<(nat, nat)>;

pub open spec fn jpeg_valid(data: Seq<u8>) -> bool {
    jpeg_dims(data) is Some
}

pub open spec fn jpeg_width(data: Seq<u8>) -> nat {
    jpeg_dims(data)->Some_0.0
}

pub open spec fn jpeg_height(data: Seq<u8>) -> nat {
    jpeg_dims(data)->Some_0.1
}

/// The JPEG encoding, at the encoder's default quality, of a packed 8-bit
/// RGB buffer with the given dimensions.
pub uninterp spec fn jpeg_encode_rgb(pixels: Seq<u8>, width: nat, height: nat) -> Seq<u8>;

/// A decoded image held as plain values: dimensions and packed RGB bytes.
pub struct RgbImage {
    pub width: u32,
    pub height: u32,
    pub pixels: Vec<u8>,
}

/// Relies on `image::load_from_memory_with_format` with `ImageFormat::Jpeg`
/// and `DynamicImage::to_rgb8`: decodes the bytes strictly as JPEG and
/// converts them to packed 8-bit RGB, dropping any alpha. Whether decoding
/// succeeds, and at which dimensions, depends on the bytes alone; a decoded
/// JPEG has nonzero dimensions of at most 65535, and the raw RGB buffer
/// holds 3 bytes per pixel. Nothing is claimed of the pixel values.
#[verifier::external_body]
fn decode_jpeg_rgb(data: &Vec<u8>) -> (r: Option<RgbImage>)
    ensures
        match r {
            Some(img) => jpeg_dims(data@) == Some((img.width as nat, img.height as nat)) && 1
                <= img.width <= MAX_DIM && 1 <= img.height <= MAX_DIM && img.pixels@.len() == 3
                * img.width * img.height,
            None => jpeg_dims(data@) is None,
        },
{
    match load_from_memory_with_format(data.as_slice(), ImageFormat::Jpeg) {
        Ok(decoded) => {
            let rgb = decoded.to_rgb8();
            let (width, height) = (rgb.width(), rgb.height());
            Some(RgbImage { width, height, pixels: rgb.into_raw() })
        },
        Err(_) => None,
    }
}

/// Relies on `fast_image_resize::Resizer::resize` with
/// `ResizeAlg::Convolution(FilterType::Lanczos3)` on `U8x3` pixels: a
/// separable Lanczos-3 convolution resample of a packed RGB buffer. The
/// destination buffer is allocated at exactly `3 * dst_width * dst_height`
/// bytes and is returned whole; the pixel values themselves may depend on
/// the CPU's vector extensions, so nothing more is claimed of them.
#[verifier::external_body]
fn resample_rgb_lanczos3(src: RgbImage, dst_width: u32, dst_height: u32) -> (r: Vec<u8>)
    requires
        1 <= src.width,
        1 <= src.height,
        src.pixels@.len() == 3 * src.width * src.height,
        1 <= dst_width <= MAX_DIM,
        1 <= dst_height <= MAX_DIM,
    ensures
        r@.len() == 3 * dst_width * dst_height,
{
    let src_image = Image::from_vec_u8(src.width, src.height, src.pixels, PixelType::U8x3)
        .unwrap();
    let mut dst_image = Image::new(dst_width, dst_height, PixelType::U8x3);
    let options = ResizeOptions::new().resize_alg(ResizeAlg::Convolution(FilterType::Lanczos3));
    Resizer::new().resize(&src_image, &mut dst_image, &options).unwrap();
    dst_image.into_vec()
}

/// Relies on `image::codecs::jpeg::JpegEncoder::write_image` at the default
/// quality with `ColorType::Rgb8`: writing to an in-memory vector cannot
/// fail for dimensions that fit in 16 bits and a buffer of exactly
/// `3 * width * height` bytes, and the produced JPEG is one that image's
/// own decoder reads back with exactly the given dimensions. The buffer is
/// bounded by the decoder's 512 MiB allocation limit so that the read-back
/// claim holds.
#[verifier::external_body]
fn encode_jpeg_rgb(pixels: &Vec<u8>, width: u32, height: u32) -> (r: Vec<u8>)
    requires
        1 <= width <= MAX_DIM,
        1 <= height <= MAX_DIM,
        pixels@.len() == 3 * width * height,
        3 * width * height <= MAX_PIXEL_BYTES,
    ensures
        r@ == jpeg_encode_rgb(pixels@, width as nat, height as nat),
        jpeg_dims(r@) == Some((width as nat, height as nat)),
{
    let mut out: Vec<u8> = Vec::new();
    JpegEncoder::new(&mut out)
        .write_image(pixels.as_slice(), width, height, ColorType::Rgb8)
        .unwrap();
    out
}

/// Why a resize request produced no image.
#[derive(Clone, Copy, Debug, PartialEq, Eq, Structural)]
pub enum ResizeError {
    /// The input bytes are not a valid JPEG.
    Decode,
    /// A target dimension is zero or above `MAX_DIM`, or the target pixel
    /// buffer would exceed `MAX_PIXEL_BYTES`.
    Dimension,
    /// Re-encoding failed; unreachable under the dimension bounds, kept so
    /// that callers name every stage's failure.
    Encode,
}

/// Acceptable target dimensions: nonzero, at most `MAX_DIM` each, and a
/// pixel buffer within `MAX_PIXEL_BYTES`.
pub open spec fn dims_ok(width: u32, height: u32) -> bool {
    1 <= width <= MAX_DIM && 1 <= height <= MAX_DIM && 3 * (width as nat) * (height as nat)
        <= MAX_PIXEL_BYTES
}

/// Decodes `input_data` strictly as JPEG, resamples it to
/// `dst_width x dst_height` with a Lanczos-3 convolution, and re-encodes
/// the result as JPEG. Decoding comes first, so an undecodable input is
/// answered with the decode error even when a target dimension is also bad.
/// Resizing a decodable image to its own dimensions always succeeds, as
/// long as its pixel buffer is within the pixel budget.
pub fn resize_jpeg(input_data: Vec<u8>, dst_width: u32, dst_height: u32) -> (r: Result<
    Vec<u8>,
    ResizeError,
>)
    ensures
        match r {
            Ok(out) => jpeg_valid(input_data@) && dims_ok(dst_width, dst_height) && jpeg_valid(
                out@,
            ) && jpeg_width(out@) == dst_width && jpeg_height(out@) == dst_height,
            Err(e) => (e == ResizeError::Decode <==> !jpeg_valid(input_data@)) && (e
                == ResizeError::Dimension <==> jpeg_valid(input_data@) && !dims_ok(
                dst_width,
                dst_height,
            )) && e != ResizeError::Encode,
        },
        jpeg_valid(input_data@) && dst_width == jpeg_width(input_data@) && dst_height
            == jpeg_height(input_data@) && 3 * jpeg_width(input_data@) * jpeg_height(input_data@)
            <= MAX_PIXEL_BYTES ==> r is Ok,
{
    let src = match decode_jpeg_rgb(&input_data) {
        Some(img) => img,
        None => {
            return Err(ResizeError::Decode);
        },
    };
    if dst_width < 1 || dst_width > MAX_DIM || dst_height < 1 || dst_height > MAX_DIM {
        return Err(ResizeError::Dimension);
    }
    proof {
        assert(3 * (dst_width as int) * (dst_height as int) <= 3 * 65535 * 65535)
            by (nonlinear_arith)
            requires
                1 <= dst_width <= 65535,
                1 <= dst_height <= 65535,
        ;
    }
    if 3 * (dst_width as u64) * (dst_height as u64) > MAX_PIXEL_BYTES {
        return Err(ResizeError::Dimension);
    }
    let resampled = resample_rgb_lanczos3(src, dst_width, dst_height);
    Ok(encode_jpeg_rgb(&resampled, dst_width, dst_height))
}

} // verus!
