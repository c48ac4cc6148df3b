//! Tests of the harness's reduction logic: measurements from headers,
//! cold-start classification, series extraction, statistics, and endpoint
//! discovery.

use kumori::harness::{
    cold_count, measurement_from_parts, min_max_avg, select_endpoints, stage_series, timing_of,
    total_series, variant_of_url, HarnessError, Measurement, OutputEntry,
};
use kumori::timing::TimingEntry;

fn measurement(invoke_count: u64, total_us: u64, resize_us: Option<u64>) -> Measurement {
    let mut timings = vec![TimingEntry { name: b"s3read".to_vec(), us: 1_000 }];
    if let Some(us) = resize_us {
        timings.push(TimingEntry { name: b"resize".to_vec(), us });
    }
    Measurement { total_us, invoke_count, timings, size: 100 }
}

#[test]
fn measurement_from_good_headers() {
    let invoke = b"3".to_vec();
    let timing = b"s3read;dur=1.000,resize;dur=2.250".to_vec();
    let m = measurement_from_parts(5_000, 42, &invoke, &timing).unwrap();
    assert_eq!(m.invoke_count, 3);
    assert_eq!(m.total_us, 5_000);
    assert_eq!(m.size, 42);
    assert_eq!(timing_of(&m.timings, &b"s3read".to_vec()), Some(1_000));
    assert_eq!(timing_of(&m.timings, &b"resize".to_vec()), Some(2_250));
}

#[test]
fn measurement_bad_invoke_count() {
    let invoke = b"abc".to_vec();
    let timing = b"s3read;dur=1.000".to_vec();
    assert!(matches!(
        measurement_from_parts(0, 0, &invoke, &timing),
        Err(HarnessError::BadInvokeCount)
    ));
}

#[test]
fn measurement_bad_timing() {
    let invoke = b"1".to_vec();
    let timing = b"nonsense".to_vec();
    assert!(matches!(
        measurement_from_parts(0, 0, &invoke, &timing),
        Err(HarnessError::BadTiming)
    ));
}

#[test]
fn measurement_missing_s3read() {
    let invoke = b"1".to_vec();
    let timing = b"resize;dur=1.000".to_vec();
    assert!(matches!(
        measurement_from_parts(0, 0, &invoke, &timing),
        Err(HarnessError::MissingS3read)
    ));
}

#[test]
fn one_zero_count_is_one_cold_hit() {
    let ms = vec![
        measurement(5, 100, None),
        measurement(0, 100, None),
        measurement(6, 100, None),
    ];
    assert_eq!(cold_count(&ms), 1);
}

#[test]
fn no_zero_counts_is_all_warm() {
    let ms = vec![
        measurement(1, 100, None),
        measurement(2, 100, None),
        measurement(3, 100, None),
    ];
    assert_eq!(cold_count(&ms), 0);
}

#[test]
fn min_max_avg_exact() {
    assert_eq!(min_max_avg(&vec![3, 1, 2]), Some((1, 3, 2)));
    assert_eq!(min_max_avg(&vec![10, 20, 31]), Some((10, 31, 20)));
    assert_eq!(min_max_avg(&vec![7]), Some((7, 7, 7)));
}

#[test]
fn min_max_avg_empty_is_skipped() {
    assert_eq!(min_max_avg(&Vec::new()), None);
}

#[test]
fn resize_series_covers_only_resized_calls() {
    let ms = vec![
        measurement(1, 100, Some(10)),
        measurement(2, 100, None),
        measurement(3, 100, Some(30)),
    ];
    assert_eq!(stage_series(&ms, &b"resize".to_vec()), vec![10, 30]);
    assert_eq!(stage_series(&ms, &b"s3read".to_vec()), vec![1_000, 1_000, 1_000]);
    assert_eq!(total_series(&ms), vec![100, 100, 100]);
}

#[test]
fn select_endpoints_filters_by_prefix() {
    let es = vec![
        OutputEntry { key: b"EndpointUrlA".to_vec(), value: b"https://x/a/".to_vec() },
        OutputEntry { key: b"Other".to_vec(), value: b"zzz".to_vec() },
        OutputEntry { key: b"EndpointUrlB".to_vec(), value: b"https://x/b/".to_vec() },
    ];
    let urls = select_endpoints(es);
    assert_eq!(urls, vec![b"https://x/a/".to_vec(), b"https://x/b/".to_vec()]);
}

#[test]
fn variant_is_first_path_segment() {
    assert_eq!(variant_of_url(&b"https://host/befaf/".to_vec()), Some(b"befaf".to_vec()));
    assert_eq!(variant_of_url(&b"https://host/x?q=1".to_vec()), Some(b"x".to_vec()));
    assert_eq!(variant_of_url(&b"https://host".to_vec()), None);
    assert_eq!(variant_of_url(&b"no scheme here".to_vec()), None);
}
