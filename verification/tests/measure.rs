//! Segment sampling.

use hls_probe::double::Double;
use hls_probe::measure::{
    checked_byte_ranges, resolve_byte_ranges, sample_plan, Container, Measurement,
    OriginCacheability, SegmentRequest,
};
use hls_probe::playlist::{ByteRange, InitMap, Media, MediaSegment};
use reqwest::header::{HeaderMap, HeaderName, HeaderValue};

fn headers(pairs: &[(&str, &str)]) -> HeaderMap {
    let mut h = HeaderMap::new();
    for (k, v) in pairs {
        h.insert(k.parse::<HeaderName>().unwrap(), HeaderValue::from_str(v).unwrap());
    }
    h
}

fn seg(uri: &str, byte_range: Option<(u64, Option<u64>)>) -> MediaSegment {
    MediaSegment {
        uri: uri.to_string(),
        duration_bits: 0,
        byte_range: byte_range.map(|(length, offset)| ByteRange { length, offset }),
        discontinuity: false,
        map: None,
        program_date_time: None,
    }
}

fn media(segments: Vec<MediaSegment>) -> Media {
    Media { version: None, target_duration: 4, media_sequence: 0, segments, end_list: false }
}

fn of(x: f64) -> Double {
    Double { bits: x.to_bits() }
}

fn request(uri: &str, duration: f32) -> SegmentRequest {
    SegmentRequest { uri: uri.to_string(), duration_bits: duration.to_bits(), range: None }
}

#[test]
fn sniffs_mpeg_ts() {
    let mut bytes = vec![0u8; 376];
    bytes[0] = 0x47;
    bytes[188] = 0x47;
    assert_eq!(Container::sniff(&bytes), Container::MpegTs);
}

#[test]
fn sniffs_fmp4() {
    let mut bytes = vec![0u8; 16];
    bytes[4..8].copy_from_slice(b"styp");
    assert_eq!(Container::sniff(&bytes), Container::Fmp4);
}

#[test]
fn sniffs_every_leading_box_and_nothing_else() {
    for name in [b"ftyp", b"styp", b"moof", b"sidx", b"moov"] {
        let mut bytes = vec![0u8; 8];
        bytes[4..8].copy_from_slice(name);
        assert_eq!(Container::sniff(&bytes), Container::Fmp4);
        assert_eq!(Container::sniff(&bytes[..7]), Container::Unknown);
    }
    let mut bytes = vec![0u8; 188];
    bytes[0] = 0x47;
    assert_eq!(Container::sniff(&bytes), Container::Unknown);
    assert_eq!(Container::sniff(b"\0\0\0\0mdat"), Container::Unknown);
    assert_eq!(Container::sniff(&[]), Container::Unknown);
    assert_eq!(Container::MpegTs.label(), "MPEG-TS");
    assert_eq!(Container::Fmp4.label(), "fMP4/CMAF");
    assert_eq!(Container::Unknown.label(), "unknown");
}

#[test]
fn resolves_explicit_offsets() {
    let segments = vec![
        seg("main.mp4", Some((5874288, Some(721)))),
        seg("main.mp4", Some((5863101, Some(5875009)))),
    ];
    let ranges = resolve_byte_ranges(&segments);
    assert_eq!(ranges, vec![Some((721, 5874288)), Some((5875009, 5863101))]);
}

#[test]
fn resolves_omitted_offset_from_previous_range_same_uri() {
    // Per RFC 8216 4.3.2.2, a missing offset continues right after the
    // previous sub-range requested for the same URI.
    let segments = vec![
        seg("main.mp4", Some((1000, Some(0)))),
        seg("main.mp4", Some((500, None))),
        seg("other.mp4", Some((200, Some(50)))),
    ];
    let ranges = resolve_byte_ranges(&segments);
    assert_eq!(
        ranges,
        vec![Some((0, 1000)), Some((1000, 500)), Some((50, 200))]
    );
}

#[test]
fn segments_without_byte_range_pass_through() {
    let segments = vec![seg("a.ts", None), seg("b.ts", None)];
    assert_eq!(resolve_byte_ranges(&segments), vec![None, None]);
}

#[test]
fn omitted_offset_skips_other_segments() {
    let segments = vec![
        seg("x", Some((10, None))),
        seg("y", Some((7, Some(100)))),
        seg("x", None),
        seg("x", Some((5, None))),
        seg("y", Some((1, None))),
    ];
    assert_eq!(
        resolve_byte_ranges(&segments),
        vec![Some((0, 10)), Some((100, 7)), None, Some((10, 5)), Some((107, 1))]
    );
}

#[test]
fn ranges_beyond_the_last_byte_are_noticed() {
    let segments = vec![seg("x", Some((1, Some(u64::MAX))))];
    assert_eq!(checked_byte_ranges(&segments), None);
    assert!(sample_plan(&media(segments), 0).is_none());
    let segments = vec![seg("x", Some((0, Some(u64::MAX)))), seg("x", Some((1, None)))];
    assert_eq!(checked_byte_ranges(&segments), None);
    let segments = vec![seg("x", Some((0, Some(u64::MAX))))];
    assert_eq!(checked_byte_ranges(&segments), Some(vec![Some((u64::MAX, 0))]));
    // An empty range at the very start has no last byte to ask for.
    let segments = vec![seg("x", Some((0, None)))];
    assert!(sample_plan(&media(segments.clone()), 1).is_none());
    assert!(sample_plan(&media(segments), 0).is_some());
}

#[test]
fn plan_asks_for_the_newest_segments() {
    let mut segments = vec![
        seg("a.mp4", Some((100, Some(20)))),
        seg("a.mp4", Some((50, None))),
        seg("b.mp4", None),
    ];
    segments[0].map = Some(InitMap {
        uri: "init.mp4".to_string(),
        byte_range: Some(ByteRange { length: 20, offset: None }),
    });
    segments[2].duration_bits = 4.0f32.to_bits();
    let plan = sample_plan(&media(segments.clone()), 2).expect("a plan");
    let init = plan.init.expect("an init segment");
    assert_eq!(init.uri, "init.mp4");
    assert_eq!(init.range.as_deref(), Some("bytes=0-19"));
    assert_eq!(plan.segments.len(), 2);
    assert_eq!(plan.segments[0].uri, "a.mp4");
    assert_eq!(plan.segments[0].range.as_deref(), Some("bytes=120-169"));
    assert_eq!(plan.segments[1].uri, "b.mp4");
    assert_eq!(plan.segments[1].range, None);
    assert_eq!(plan.segments[1].duration_bits, 4.0f32.to_bits());
    let plan = sample_plan(&media(segments), 9).expect("a plan");
    assert_eq!(plan.segments.len(), 3);
    let plan = sample_plan(&media(Vec::new()), 3).expect("a plan");
    assert!(plan.init.is_none() && plan.segments.is_empty());
}

#[test]
fn weak_etag_is_not_strong() {
    let c = OriginCacheability {
        etag: Some("W/\"abc\"".to_string()),
        ..Default::default()
    };
    assert!(!c.etag_is_strong());
    assert!(c.has_validator());
}

#[test]
fn gcp_range_capability_needs_all_three() {
    let full = OriginCacheability {
        etag: Some("\"abc\"".to_string()),
        last_modified: Some("Mon, 01 Jun 2026 00:00:00 GMT".to_string()),
        accept_ranges_bytes: true,
        ..Default::default()
    };
    assert!(full.gcp_range_capable());
    for missing in [
        OriginCacheability { etag: None, ..full.clone() },
        OriginCacheability { last_modified: None, ..full.clone() },
        OriginCacheability { accept_ranges_bytes: false, ..full.clone() },
        OriginCacheability { etag: Some("W/\"abc\"".to_string()), ..full.clone() },
    ] {
        assert!(!missing.gcp_range_capable());
    }
}

#[test]
fn large_segments_without_validator_warn() {
    let c = OriginCacheability {
        cache_control: Some("max-age=1209600".to_string()),
        largest_segment_bytes: 3 * 1_048_576,
        ..Default::default()
    };
    let warnings = c.warnings();
    assert!(warnings.iter().any(|w| w.contains("Media CDN")));
    assert!(warnings.iter().any(|w| w.contains("Cloud CDN")));
    assert_eq!(
        warnings[0],
        "segments up to 3072 KiB carry no ETag or Last-Modified: Google Media CDN will not cache objects over 1 MiB without a validator"
    );
    assert_eq!(warnings.len(), 2);
}

#[test]
fn small_segments_with_validator_are_quiet() {
    let c = OriginCacheability {
        etag: Some("\"abc\"".to_string()),
        last_modified: Some("Mon, 01 Jun 2026 00:00:00 GMT".to_string()),
        cache_control: Some("max-age=14".to_string()),
        accept_ranges_bytes: true,
        largest_segment_bytes: 500_000,
    };
    assert!(c.warnings().is_empty());
}

#[test]
fn one_mebibyte_is_not_large() {
    let c = OriginCacheability {
        cache_control: Some("max-age=14".to_string()),
        largest_segment_bytes: 1_048_576,
        ..Default::default()
    };
    assert!(c.warnings().is_empty());
    let c = OriginCacheability { largest_segment_bytes: 1_048_577, ..c };
    assert_eq!(c.warnings().len(), 2);
    let nothing = OriginCacheability::default();
    assert_eq!(
        nothing.warnings(),
        vec!["no Cache-Control on segments: CDNs in honor-origin mode will not cache them at all"
            .to_string()]
    );
    assert!(!nothing.has_validator() && !nothing.etag_is_strong());
}

#[test]
fn observations_accumulate_over_responses() {
    let mut c = OriginCacheability::default();
    c.observe(&headers(&[("etag", "\"1\""), ("accept-ranges", "none")]), false, 700);
    assert_eq!(c.etag.as_deref(), Some("\"1\""));
    assert!(!c.accept_ranges_bytes);
    c.observe(&headers(&[("ETag", "\"2\""), ("cache-control", "max-age=2")]), true, 300);
    assert_eq!(c.etag.as_deref(), Some("\"2\""));
    assert!(c.accept_ranges_bytes);
    c.observe(&headers(&[("last-modified", "today")]), false, 400);
    assert_eq!(c.etag.as_deref(), Some("\"2\""));
    assert_eq!(c.last_modified.as_deref(), Some("today"));
    assert_eq!(c.cache_control.as_deref(), Some("max-age=2"));
    assert!(c.accept_ranges_bytes);
    assert_eq!(c.largest_segment_bytes, 700);
    let mut c = OriginCacheability::default();
    c.observe(&headers(&[("accept-ranges", "bytes")]), false, 0);
    assert!(c.accept_ranges_bytes);
}

#[test]
fn measurement_adds_up() {
    let mut m = Measurement::new();
    let mut init = vec![0u8; 16];
    init[4..8].copy_from_slice(b"ftyp");
    m.record_init(&init);
    let none = headers(&[]);
    assert!(m.record_segment(&request("a", 4.0), &none, false, &[0u8; 1000], 10_000_000, 50_000_000));
    assert!(m.record_segment(&request("b", 2.0), &none, true, &[0u8; 3000], 21_000_000, 100_000_000));
    let r = m.finish();
    assert_eq!(r.container, Container::Fmp4);
    assert!(r.init_segment);
    assert_eq!(r.segments.len(), 2);
    assert_eq!(r.segments[0].duration, of(4.0));
    assert_eq!(r.segments[0].ttfb_ms, of(10.0));
    assert_eq!(r.segments[0].total_ms, of(50.0));
    assert_eq!(r.segments[0].throughput_bps, of(160_000.0));
    assert_eq!(r.segments[0].bitrate_bps, of(2_000.0));
    assert_eq!(r.segments[1].bitrate_bps, of(12_000.0));
    assert_eq!(r.measured_bitrate_bps, of(32_000.0 / 6.0));
    assert_eq!(r.peak_bitrate_bps, of(12_000.0));
    assert_eq!(r.avg_ttfb_ms, of(15.5));
    assert!(r.cacheability.accept_ranges_bytes);
    assert_eq!(r.cacheability.largest_segment_bytes, 3000);
}

#[test]
fn container_comes_from_the_first_body_that_tells() {
    let none = headers(&[]);
    let mut m = Measurement::new();
    let mut ts = vec![0u8; 376];
    ts[0] = 0x47;
    ts[188] = 0x47;
    m.record_segment(&request("a", 1.0), &none, false, b"????", 1, 1);
    assert_eq!(m.container, Container::Unknown);
    m.record_segment(&request("b", 1.0), &none, false, &ts, 1, 1);
    assert_eq!(m.container, Container::MpegTs);
    m.record_segment(&request("c", 1.0), &none, false, b"\0\0\0\0moof", 1, 1);
    let r = m.finish();
    assert_eq!(r.container, Container::MpegTs);
    assert!(!r.init_segment);
}

#[test]
fn empty_sample_measures_nothing() {
    let r = Measurement::new().finish();
    assert_eq!(r.measured_bitrate_bps, of(0.0));
    assert_eq!(r.peak_bitrate_bps, of(0.0));
    assert_eq!(r.avg_ttfb_ms, of(0.0));
}

#[test]
fn odd_durations_are_measured_too() {
    let rate = |duration: f32| {
        let mut m = Measurement::new();
        m.record_segment(&request("s", duration), &headers(&[]), false, &[0u8; 7], 0, 0);
        m.finish()
    };
    for d in [3.0f32, 0.0, -2.0, 1e-12, f32::MAX, f32::INFINITY, f32::NEG_INFINITY, f32::NAN] {
        let expected = 56.0 / (d as f64).max(1e-9);
        let r = rate(d);
        assert_eq!(r.segments[0].bitrate_bps, of(expected), "{d}");
        assert_eq!(r.peak_bitrate_bps, of(0.0f64.max(expected)), "{d}");
        assert_eq!(r.segments[0].throughput_bps, of(56.0 / 1e-9));
    }
}

#[test]
fn measurements_agree_with_floating_point() {
    let none = headers(&[]);
    let mut state: u64 = 5;
    for _ in 0..200 {
        let mut m = Measurement::new();
        let (mut bytes, mut time, mut peak, mut ttfb) = (0u64, 0.0f64, 0.0f64, 0.0f64);
        for _ in 0..4 {
            state = state.wrapping_mul(6364136223846793005).wrapping_add(1442695040888963407);
            let body = vec![0u8; (state >> 50) as usize];
            let duration = ((state >> 20) % 9_000 + 1) as f32 / 1000.0;
            let (first, last) = ((state >> 12) % 900_000_000, (state >> 8) % 9_000_000_000);
            m.record_segment(&request("s", duration), &none, false, &body, first, last);
            let secs = std::time::Duration::from_nanos(last).as_secs_f64();
            let rate = body.len() as f64 * 8.0 / (duration as f64).max(1e-9);
            let s = &m.segments[m.segments.len() - 1];
            assert_eq!(s.total_ms, of(secs * 1000.0));
            assert_eq!(s.throughput_bps, of(body.len() as f64 * 8.0 / secs.max(1e-9)));
            assert_eq!(s.bitrate_bps, of(rate));
            bytes += body.len() as u64;
            time += duration as f64;
            peak = peak.max(rate);
            ttfb += std::time::Duration::from_nanos(first).as_secs_f64() * 1000.0;
        }
        let r = m.finish();
        assert_eq!(r.measured_bitrate_bps, of(bytes as f64 * 8.0 / time.max(1e-9)));
        assert_eq!(r.peak_bitrate_bps, of(peak));
        assert_eq!(r.avg_ttfb_ms, of(ttfb / 4.0));
    }
}

#[test]
fn no_segment_is_above_the_peak() {
    let mut m = Measurement::new();
    for (bytes, duration) in [(700usize, 2.0f32), (900, 1.5), (100, 0.0625), (5, f32::NAN)] {
        m.record_segment(&request("s", duration), &headers(&[]), false, &vec![0u8; bytes], 1, 1);
    }
    let r = m.finish();
    for s in &r.segments {
        assert!(!r.peak_bitrate_bps.less_than(s.bitrate_bps));
    }
    assert_eq!(r.peak_bitrate_bps, r.segments[3].bitrate_bps);
}
