//! The CDN edge test.

use hls_probe::double::Double;
use hls_probe::edge::{
    age_seconds, budget_exhausted, cache_label, cache_status, parse_edge_playlist, EdgeError,
    EdgeReport, EdgeTest, Next, Pair, Sample,
};
use hls_probe::playlist::{Media, MediaSegment};
use reqwest::header::{HeaderMap, HeaderName, HeaderValue};

fn headers(pairs: &[(&str, &str)]) -> HeaderMap {
    let mut h = HeaderMap::new();
    for (k, v) in pairs {
        h.insert(
            k.parse::<HeaderName>().unwrap(),
            HeaderValue::from_str(v).unwrap(),
        );
    }
    h
}

fn of(ms: f64) -> Double {
    Double { bits: ms.to_bits() }
}

fn millis(ms: f64) -> Sample {
    Sample {
        ttfb_ms: of(ms),
        total_ms: of(ms),
        bytes: 0,
        cache_status: None,
        age: None,
    }
}

fn pair(fresh: f64, warmed: f64) -> Pair {
    Pair { uri: "s.mp4".into(), fresh: millis(fresh), warmed: millis(warmed) }
}

fn playlist(sequence: u64, uris: &[&str], target: u64) -> Media {
    Media {
        version: None,
        target_duration: target,
        media_sequence: sequence,
        segments: uris
            .iter()
            .map(|u| MediaSegment {
                uri: u.to_string(),
                duration_bits: 0,
                byte_range: None,
                discontinuity: false,
                map: None,
                program_date_time: None,
            })
            .collect(),
        end_list: false,
    }
}

#[test]
fn reads_akamai_style_cache_header() {
    let h = headers(&[("x-cache", "TCP_HIT from a23-x-x (AkamaiGHost)"), ("age", "4")]);
    assert_eq!(
        cache_status(&h).as_deref(),
        Some("TCP_HIT from a23-x-x (AkamaiGHost)")
    );
    assert_eq!(age_seconds(&h), Some(4));
}

#[test]
fn missing_headers_yield_none() {
    let h = HeaderMap::new();
    assert_eq!(cache_status(&h), None);
    assert_eq!(age_seconds(&h), None);
}

#[test]
fn verdict_flags_consistent_penalty() {
    let report = EdgeReport {
        pairs: vec![pair(900.0, 120.0), pair(1100.0, 140.0), pair(800.0, 110.0)],
        avg_fresh_ttfb: of(933.0),
        avg_warmed_ttfb: of(123.0),
        avg_penalty_ms: of(810.0),
    };
    assert!(report.verdict().contains("consistent"));
}

#[test]
fn cache_headers_are_read_in_order() {
    let all = [
        ("x-cache", "one"),
        ("x-cache-status", "two"),
        ("cf-cache-status", "three"),
        ("x-cdn-cache-status", "four"),
    ];
    for i in 0..4 {
        assert_eq!(cache_status(&headers(&all[i..])).as_deref(), Some(all[i].1));
    }
    let mut h = headers(&[("x-cache-status", "HIT")]);
    h.insert("x-cache", HeaderValue::from_bytes(b"caf\xe9").unwrap());
    assert_eq!(cache_status(&h).as_deref(), Some("HIT"));
}

#[test]
fn age_is_a_trimmed_number() {
    assert_eq!(age_seconds(&headers(&[("age", " \t12 ")])), Some(12));
    assert_eq!(age_seconds(&headers(&[("Age", "+3")])), Some(3));
    assert_eq!(age_seconds(&headers(&[("age", "-3")])), None);
    assert_eq!(age_seconds(&headers(&[("age", "soon")])), None);
    assert_eq!(age_seconds(&headers(&[("age", "")])), None);
}

#[test]
fn labels_keep_the_decision_token() {
    let label = |status: Option<&str>, age: Option<u64>| {
        cache_label(&Sample {
            ttfb_ms: of(0.0),
            total_ms: of(0.0),
            bytes: 0,
            cache_status: status.map(str::to_string),
            age,
        })
    };
    assert_eq!(label(Some("TCP_MISS from a23"), Some(4)), " [TCP_MISS, age 4s]");
    assert_eq!(label(Some("  HIT"), None), " [HIT]");
    assert_eq!(label(None, Some(0)), " [age 0s]");
    assert_eq!(label(None, None), "");
    assert_eq!(label(Some("  "), None), " [  ]");
}

#[test]
fn sample_reads_its_headers() {
    let s = Sample::read(&headers(&[("cf-cache-status", "MISS"), ("age", "1")]), 58_500_000, 2_000_000_000, 3);
    assert_eq!((s.ttfb_ms, s.total_ms, s.bytes), (of(0.0585 * 1000.0), of(2000.0), 3));
    assert_eq!(s.cache_status.as_deref(), Some("MISS"));
    assert_eq!(s.age, Some(1));
}

#[test]
fn pair_line_shows_both_requests() {
    let mut p = pair(900.0, 120.0);
    p.fresh.cache_status = Some("TCP_MISS from x".to_string());
    p.warmed.age = Some(6);
    assert_eq!(p.penalty_ms(), of(780.0));
    assert_eq!(
        p.line(1, 5),
        "pair  1/5: fresh   900 ms [TCP_MISS]  warmed   120 ms [age 6s]  penalty +780 ms"
    );
    assert_eq!(
        pair(1.0, 20.0).line(10, 10),
        "pair 10/10: fresh     1 ms  warmed    20 ms  penalty -19 ms"
    );
}

#[test]
fn report_averages_the_pairs() {
    let report = EdgeReport::new(vec![pair(900.0, 120.0), pair(1100.0, 140.0), pair(800.0, 110.0)]);
    assert_eq!(report.avg_fresh_ttfb, of(2800.0 / 3.0));
    assert_eq!(report.avg_warmed_ttfb, of(370.0 / 3.0));
    assert_eq!(report.avg_penalty_ms, of(2800.0 / 3.0 - 370.0 / 3.0));
    let none = EdgeReport::new(Vec::new());
    assert!(none.avg_fresh_ttfb.is_nan() && none.avg_penalty_ms.is_nan());
    assert!(report.verdict().starts_with("consistent fresh-segment penalty: "));
}

#[test]
fn verdicts() {
    let verdict = |pairs: Vec<Pair>| EdgeReport::new(pairs).verdict();
    assert_eq!(verdict(vec![pair(900.0, 100.0)]), "too few pairs to conclude; rerun with more");
    assert_eq!(
        verdict(vec![pair(100.0, 80.0), pair(100.0, 120.0)]),
        "no meaningful fresh-segment penalty observed (cache already warm, or origin very close to the edge)"
    );
    let mixed = "mixed results; network jitter may dominate, rerun with more pairs";
    assert_eq!(verdict(vec![pair(900.0, 100.0), pair(90.0, 100.0)]), mixed);
    assert_eq!(verdict(vec![pair(200.0, 100.0), pair(200.0, 100.0)]), mixed);
    assert_eq!(verdict(vec![pair(100.0, 150.0), pair(100.0, 150.0)]), mixed);
    assert_eq!(
        verdict(vec![pair(201.0, 100.0), pair(201.0, 100.0)]),
        "consistent fresh-segment penalty: first request travels to the origin (CDN cache miss), the warmed one is served from the edge"
    );
}

#[test]
fn test_requests_segments_as_they_appear() {
    let mut t = EdgeTest::new(2);
    assert_eq!(t.inspect(&playlist(10, &["a", "b"], 4)), Ok(None));
    assert_eq!(t.budget, Some(2 * 6 * 4 + 30));
    assert_eq!(t.end_refresh(0), Next::Wait(2, false));
    assert_eq!(t.inspect(&playlist(10, &["a", "b"], 4)), Ok(None));
    assert_eq!(t.end_refresh(2_000_000_000), Next::Wait(2, false));
    assert_eq!(t.inspect(&playlist(11, &["b", "c"], 5)), Ok(Some("c".to_string())));
    assert_eq!(t.target, 5);
    assert!(!t.record(pair(9.0, 1.0)));
    assert_eq!(t.end_refresh(4_000_000_000), Next::Wait(2, true));
    assert_eq!(t.budget, Some(78));
    assert_eq!(t.inspect(&playlist(12, &["c", "d"], 5)), Ok(Some("d".to_string())));
    assert!(t.record(pair(8.0, 1.0)));
    assert_eq!(t.finish().pairs.len(), 2);
}

#[test]
fn time_budget_bounds_the_test() {
    let mut t = EdgeTest::new(1);
    assert_eq!(t.inspect(&playlist(0, &["a"], 0)), Ok(None));
    assert_eq!(t.budget, Some(36));
    assert_eq!(t.target, 1);
    assert_eq!(t.end_refresh(36_000_000_000), Next::Wait(1, false));
    assert_eq!(t.end_refresh(36_000_000_001), Next::GiveUp);
    assert_eq!(
        EdgeError::NoAdvance.message(),
        "playlist did not advance before the time budget ran out"
    );
    let mut t = EdgeTest::new(2);
    assert_eq!(t.inspect(&playlist(0, &["a"], 1)), Ok(None));
    t.end_refresh(0);
    assert_eq!(t.inspect(&playlist(1, &["b"], 1)), Ok(Some("b".to_string())));
    assert!(!t.record(pair(2.0, 1.0)));
    assert_eq!(t.end_refresh(u64::MAX), Next::Report);
    assert_eq!(budget_exhausted(1), "time budget exhausted, reporting 1 pair(s)");
}

#[test]
fn one_pair_is_taken_at_least() {
    let mut t = EdgeTest::new(0);
    assert_eq!(t.inspect(&playlist(0, &["a"], 1)), Ok(None));
    t.end_refresh(0);
    assert_eq!(t.inspect(&playlist(1, &["b"], 1)), Ok(Some("b".to_string())));
    assert!(t.record(pair(2.0, 1.0)));
}

#[test]
fn unusable_playlists_end_the_test() {
    let mut t = EdgeTest::new(1);
    let mut complete = playlist(0, &["a"], 1);
    complete.end_list = true;
    assert_eq!(t.inspect(&complete), Err(EdgeError::EndList));
    assert_eq!(t.budget, None);
    assert_eq!(t.inspect(&playlist(0, &[], u64::MAX)), Err(EdgeError::BudgetOverflow));
    assert_eq!(t.inspect(&playlist(u64::MAX, &["a"], 1)), Err(EdgeError::SequenceOverflow));
    assert_eq!(
        EdgeError::EndList.message(),
        "playlist has EXT-X-ENDLIST: not a live stream"
    );
    assert_eq!(EdgeError::BudgetOverflow.message(), "time budget out of range");
    assert_eq!(EdgeError::SequenceOverflow.message(), "media sequence number out of range");
}

#[test]
fn edge_test_needs_a_media_playlist() {
    let media = b"#EXTM3U\n#EXT-X-TARGETDURATION:4\n#EXTINF:4.0,\na.ts\n";
    assert_eq!(parse_edge_playlist(media).unwrap().target_duration, 4);
    let master = b"#EXTM3U\n#EXT-X-STREAM-INF:BANDWIDTH=1\na.m3u8\n";
    assert_eq!(
        parse_edge_playlist(master).unwrap_err(),
        "--edge-test needs a media playlist"
    );
    assert!(parse_edge_playlist(b"nothing")
        .unwrap_err()
        .starts_with("playlist no longer parses: "));
}

#[test]
fn standing_edge_is_not_sampled_again() {
    let mut t = EdgeTest::new(3);
    assert_eq!(t.inspect(&playlist(5, &["a", "b"], 2)), Ok(None));
    t.end_refresh(0);
    assert_eq!(t.inspect(&playlist(6, &["b"], 2)), Ok(None));
    t.end_refresh(0);
    assert_eq!(t.inspect(&playlist(4, &["x"], 2)), Ok(None));
    t.end_refresh(0);
    assert_eq!(t.inspect(&playlist(5, &["y"], 2)), Ok(Some("y".to_string())));
    t.end_refresh(0);
    assert_eq!(t.inspect(&playlist(9, &[], 2)), Ok(None));
}

#[test]
fn pair_line_rounds_the_milliseconds() {
    let sample = |nanos: u64| Sample::read(&headers(&[]), nanos, nanos, 0);
    for (fresh, warmed) in [(58_500_000, 1_500_000), (2_500_000, 57_000_001), (999_500_000, 1)] {
        let p = Pair { uri: "s".into(), fresh: sample(fresh), warmed: sample(warmed) };
        let ms = |n: u64| std::time::Duration::from_nanos(n).as_secs_f64() * 1000.0;
        let (f, w) = (ms(fresh), ms(warmed));
        assert_eq!(
            p.line(1, 1),
            format!("pair  1/1: fresh {f:>5.0} ms  warmed {w:>5.0} ms  penalty {:+.0} ms", f - w)
        );
    }
}
