//! Tests of decimal rendering and parsing, the server-timing header in both
//! directions, dimension-parameter parsing, the invocation counter, and
//! response assembly.

use kumori::decimal::{parse_decimal, parse_ms, render_decimal};
use kumori::request::{parse_dims, respond, DimQueryError, InvokeCounter};
use kumori::timing::{parse_timing_header, render_timing_header};

#[test]
fn render_decimal_zero() {
    assert_eq!(render_decimal(0), b"0".to_vec());
}

#[test]
fn render_decimal_large() {
    assert_eq!(render_decimal(1234567), b"1234567".to_vec());
    assert_eq!(render_decimal(u64::MAX), b"18446744073709551615".to_vec());
}

#[test]
fn parse_decimal_round_trip() {
    assert_eq!(parse_decimal(&b"42".to_vec()), Some(42));
    assert_eq!(parse_decimal(&b"0".to_vec()), Some(0));
    assert_eq!(parse_decimal(&b"18446744073709551615".to_vec()), Some(u64::MAX));
}

#[test]
fn parse_decimal_rejects() {
    assert_eq!(parse_decimal(&b"".to_vec()), None);
    assert_eq!(parse_decimal(&b"4a2".to_vec()), None);
    assert_eq!(parse_decimal(&b"-1".to_vec()), None);
    // One past u64::MAX.
    assert_eq!(parse_decimal(&b"18446744073709551616".to_vec()), None);
}

#[test]
fn parse_ms_forms() {
    assert_eq!(parse_ms(&b"12.345".to_vec()), Some(12_345));
    assert_eq!(parse_ms(&b"0.001".to_vec()), Some(1));
    assert_eq!(parse_ms(&b"7".to_vec()), Some(7_000));
    assert_eq!(parse_ms(&b"1.5".to_vec()), Some(1_500));
    assert_eq!(parse_ms(&b"1.25".to_vec()), Some(1_250));
    assert_eq!(parse_ms(&b".5".to_vec()), None);
    assert_eq!(parse_ms(&b"1.".to_vec()), None);
    assert_eq!(parse_ms(&b"1.2345".to_vec()), None);
    assert_eq!(parse_ms(&b"a.b".to_vec()), None);
}

#[test]
fn timing_header_without_resize() {
    let h = render_timing_header(1_234_567, None);
    assert_eq!(h, b"s3read;dur=1234.567".to_vec());
}

#[test]
fn timing_header_with_resize() {
    let h = render_timing_header(1_234_567, Some(2_500));
    assert_eq!(h, b"s3read;dur=1234.567,resize;dur=2.500".to_vec());
}

#[test]
fn timing_header_round_trip() {
    // The resize entry is present exactly when a resize duration was given.
    let h = render_timing_header(42, None);
    let es = parse_timing_header(&h).unwrap();
    assert_eq!(es.len(), 1);
    assert_eq!(es[0].name, b"s3read".to_vec());
    assert_eq!(es[0].us, 42);

    let h = render_timing_header(42, Some(9_001));
    let es = parse_timing_header(&h).unwrap();
    assert_eq!(es.len(), 2);
    assert_eq!(es[1].name, b"resize".to_vec());
    assert_eq!(es[1].us, 9_001);
}

#[test]
fn timing_parse_rejects_malformed() {
    assert!(parse_timing_header(&b"s3read".to_vec()).is_none());
    assert!(parse_timing_header(&b"s3read;dur=ab".to_vec()).is_none());
    assert!(parse_timing_header(&b"s3read;d=1.0".to_vec()).is_none());
    assert!(parse_timing_header(&b"s3read;dur=1.0,".to_vec()).is_none());
}

#[test]
fn parse_dims_both_absent() {
    assert_eq!(parse_dims(None, None), Ok(None));
}

#[test]
fn parse_dims_both_present() {
    let w = b"300".to_vec();
    let h = b"200".to_vec();
    assert_eq!(parse_dims(Some(&w), Some(&h)), Ok(Some((300, 200))));
}

#[test]
fn parse_dims_one_missing() {
    let w = b"300".to_vec();
    assert_eq!(parse_dims(Some(&w), None), Err(DimQueryError::OneMissing));
    assert_eq!(parse_dims(None, Some(&w)), Err(DimQueryError::OneMissing));
}

#[test]
fn parse_dims_bad_number() {
    let w = b"30x".to_vec();
    let h = b"200".to_vec();
    assert_eq!(parse_dims(Some(&w), Some(&h)), Err(DimQueryError::BadNumber));
    // One past u32::MAX.
    let w = b"4294967296".to_vec();
    assert_eq!(parse_dims(Some(&w), Some(&h)), Err(DimQueryError::BadNumber));
}

#[test]
fn invoke_counter_is_strictly_increasing() {
    let mut c = InvokeCounter::new();
    assert_eq!(c.fetch_add(), 0);
    assert_eq!(c.fetch_add(), 1);
    assert_eq!(c.fetch_add(), 2);
    assert_eq!(c.count, 3);
}

#[test]
fn respond_assembles_headers() {
    let body = b"\xff\xd8\xff\xd9".to_vec();
    let r = respond(body.clone(), 1_000, None, 7);
    assert_eq!(r.status, 200);
    assert_eq!(r.content_type, b"image/jpeg".to_vec());
    assert_eq!(r.server, b"kumori".to_vec());
    assert_eq!(r.server_timing, b"s3read;dur=1.000".to_vec());
    assert_eq!(r.invoke_count, b"7".to_vec());
    assert_eq!(r.body, body);
    assert!(r.is_base64_encoded);
}
