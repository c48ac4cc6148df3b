//! End-to-end tests of the resize pipeline on real JPEG bytes.

use image::ImageEncoder;
use kumori::request::{respond, transform};
use kumori::resize::{resize_jpeg, ResizeError, MAX_DIM};
use kumori::timing::parse_timing_header;

fn make_jpeg(w: u32, h: u32) -> Vec<u8> {
    let img = image::RgbImage::from_fn(w, h, |x, y| {
        image::Rgb([((x + y) % 256) as u8, (x % 256) as u8, (y % 256) as u8])
    });
    let mut out = Vec::new();
    image::codecs::jpeg::JpegEncoder::new(&mut out)
        .write_image(img.as_raw(), w, h, image::ColorType::Rgb8)
        .unwrap();
    out
}

fn decoded_dims(data: &[u8]) -> (u32, u32) {
    let img = image::load_from_memory_with_format(data, image::ImageFormat::Jpeg).unwrap();
    (img.width(), img.height())
}

#[test]
fn resize_produces_exact_target_dims() {
    let src = make_jpeg(64, 48);
    let out = resize_jpeg(src, 32, 16).unwrap();
    assert_eq!(decoded_dims(&out), (32, 16));
}

#[test]
fn resize_upscale_produces_exact_target_dims() {
    let src = make_jpeg(16, 16);
    let out = resize_jpeg(src, 33, 47).unwrap();
    assert_eq!(decoded_dims(&out), (33, 47));
}

#[test]
fn resize_to_source_dims_is_valid() {
    let src = make_jpeg(64, 48);
    let out = resize_jpeg(src, 64, 48).unwrap();
    assert_eq!(decoded_dims(&out), (64, 48));
}

#[test]
fn resize_zero_width_is_dimension_error() {
    let src = make_jpeg(8, 8);
    assert_eq!(resize_jpeg(src, 0, 8), Err(ResizeError::Dimension));
}

#[test]
fn resize_zero_height_is_dimension_error() {
    let src = make_jpeg(8, 8);
    assert_eq!(resize_jpeg(src, 8, 0), Err(ResizeError::Dimension));
}

#[test]
fn resize_oversized_target_is_dimension_error() {
    let src = make_jpeg(8, 8);
    assert_eq!(resize_jpeg(src, MAX_DIM + 1, 8), Err(ResizeError::Dimension));
}

#[test]
fn resize_garbage_is_decode_error() {
    let junk = b"definitely not a jpeg".to_vec();
    assert_eq!(resize_jpeg(junk, 8, 8), Err(ResizeError::Decode));
}

#[test]
fn decode_error_takes_precedence_over_bad_dims() {
    let junk = b"definitely not a jpeg".to_vec();
    assert_eq!(resize_jpeg(junk, 0, 0), Err(ResizeError::Decode));
}

#[test]
fn resize_beyond_pixel_budget_is_dimension_error() {
    // 3 * 65535 * 65535 bytes is far above the 512 MiB pixel budget.
    let src = make_jpeg(8, 8);
    assert_eq!(resize_jpeg(src, MAX_DIM, MAX_DIM), Err(ResizeError::Dimension));
}

#[test]
fn transform_without_dims_is_byte_identical() {
    let src = make_jpeg(32, 32);
    let out = transform(src.clone(), None).unwrap();
    assert_eq!(out, src);
}

#[test]
fn transform_with_dims_resizes() {
    let src = make_jpeg(32, 32);
    let out = transform(src, Some((10, 20))).unwrap();
    assert_eq!(decoded_dims(&out), (10, 20));
}

#[test]
fn scenario_resized_response() {
    // A 1200x800 source requested at width=300, height=200.
    let src = make_jpeg(1200, 800);
    let resized = transform(src, Some((300, 200))).unwrap();
    let r = respond(resized.clone(), 12_345, Some(6_789), 4);
    assert_eq!(r.status, 200);
    assert_eq!(r.content_type, b"image/jpeg".to_vec());
    assert!(r.is_base64_encoded);
    assert_eq!(decoded_dims(&r.body), (300, 200));
    let entries = parse_timing_header(&r.server_timing).unwrap();
    assert_eq!(entries.len(), 2);
    assert_eq!(entries[0].name, b"s3read".to_vec());
    assert_eq!(entries[0].us, 12_345);
    assert_eq!(entries[1].name, b"resize".to_vec());
    assert_eq!(entries[1].us, 6_789);
}

#[test]
fn scenario_passthrough_response() {
    // The same object requested with no width or height.
    let src = make_jpeg(1200, 800);
    let body = transform(src.clone(), None).unwrap();
    let r = respond(body, 12_345, None, 5);
    assert_eq!(r.body, src);
    let entries = parse_timing_header(&r.server_timing).unwrap();
    assert_eq!(entries.len(), 1);
    assert_eq!(entries[0].name, b"s3read".to_vec());
}
