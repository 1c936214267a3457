//! Live monitoring.

use hls_probe::clock::Timestamp;
use hls_probe::double::Double;
use hls_probe::live::{
    edge_lag, edge_sequence, parse_refresh, read_refresh, refresh_pause, Lag, LiveError, Monitor,
    Refresh,
};
use hls_probe::playlist::{Media, MediaSegment};

fn segment(duration: f32, date: Option<(i64, u32)>) -> MediaSegment {
    MediaSegment {
        uri: "s.ts".to_string(),
        duration_bits: duration.to_bits(),
        byte_range: None,
        discontinuity: false,
        map: None,
        program_date_time: date.map(|(secs, nanos)| Timestamp { secs, nanos }),
    }
}

fn playlist(sequence: u64, segments: Vec<MediaSegment>) -> Media {
    Media {
        version: Some(3),
        target_duration: 4,
        media_sequence: sequence,
        segments,
        end_list: false,
    }
}

fn of(secs: f64) -> Option<Double> {
    Some(Double { bits: secs.to_bits() })
}

fn at(secs: i64, nanos: u32) -> Timestamp {
    Timestamp { secs, nanos }
}

fn refresh(edge: u64, lag: Option<i64>) -> Refresh {
    Refresh { edge, segments: 3, lag }
}

#[test]
fn lag_counts_from_the_end_of_the_newest_segment() {
    let pl = playlist(
        7,
        vec![
            segment(4.0, Some((1_000, 0))),
            segment(4.0, Some((2_000, 500_000_000))),
            segment(4.0, None),
        ],
    );
    assert!(matches!(edge_lag(&pl, at(2_016, 0)), Lag::Millis(7_500)));
    assert!(matches!(edge_lag(&pl, at(2_008, 0)), Lag::Millis(-500)));
    assert!(matches!(edge_lag(&pl, at(2_008, 499_500_001)), Lag::Millis(0)));
    assert_eq!(edge_sequence(&pl), Some(10));
    let r = read_refresh(&pl, at(2_016, 0)).unwrap();
    assert_eq!(r, Refresh { edge: 10, segments: 3, lag: Some(7_500) });
    assert_eq!(
        r.line(1, 10),
        "refresh  1/10: edge seq 10, 3 segments, edge lag 7.5s"
    );
}

#[test]
fn lag_of_a_playlist_with_one_date() {
    let body = b"#EXTM3U\n#EXT-X-TARGETDURATION:4\n\
        #EXT-X-PROGRAM-DATE-TIME:2026-06-01T00:00:00Z\n#EXTINF:4.0,\na.ts\n#EXTINF:4.0,\nb.ts\n";
    let pl = parse_refresh(body, 0).unwrap();
    let start = pl.segments[0].program_date_time.unwrap();
    let mut m = Monitor::new(1);
    let r = m.observe(&pl, at(start.secs + 10, 0)).unwrap();
    assert_eq!(r.lag, Some(2_000));
    let stats = m.finish(0);
    let two = of(2.0);
    assert_eq!((stats.avg_latency, stats.min_latency, stats.max_latency), (two, two, two));
}

#[test]
fn durations_are_rounded_once() {
    let pl = playlist(
        0,
        vec![segment(1.0004, Some((0, 0))), segment(1.0004, None), segment(1.0004, None)],
    );
    assert!(matches!(edge_lag(&pl, at(10, 0)), Lag::Millis(6_999)));
}

#[test]
fn undated_playlist_has_no_lag() {
    let pl = playlist(0, vec![segment(4.0, None)]);
    assert!(matches!(edge_lag(&pl, at(0, 0)), Lag::Undated));
    let r = read_refresh(&pl, at(0, 0)).unwrap();
    assert_eq!(r.lag, None);
    assert_eq!(r.line(12, 120), "refresh 12/120: edge seq 1, 1 segments, no PDT");
}

#[test]
fn complete_playlist_is_no_live_stream() {
    let mut pl = playlist(0, vec![segment(4.0, None)]);
    pl.end_list = true;
    let mut m = Monitor::new(2);
    assert_eq!(m.observe(&pl, at(0, 0)), Err(LiveError::EndList));
    assert_eq!(
        LiveError::EndList.message(),
        "playlist has EXT-X-ENDLIST: not a live stream"
    );
    assert_eq!(m.round(), 0);
}

#[test]
fn numbers_out_of_range_are_errors() {
    let pl = playlist(u64::MAX, vec![segment(4.0, None)]);
    assert_eq!(edge_sequence(&pl), None);
    assert_eq!(read_refresh(&pl, at(0, 0)), Err(LiveError::SequenceOverflow));
    let pl = playlist(u64::MAX, Vec::new());
    assert_eq!(edge_sequence(&pl), Some(u64::MAX));
    let pl = playlist(0, vec![segment(f32::INFINITY, Some((0, 0)))]);
    assert_eq!(read_refresh(&pl, at(0, 0)), Err(LiveError::DateOutOfRange));
    let pl = playlist(0, vec![segment(4.0, Some((i64::MAX, 0)))]);
    assert_eq!(read_refresh(&pl, at(0, 0)), Err(LiveError::DateOutOfRange));
    assert_eq!(LiveError::SequenceOverflow.message(), "media sequence number out of range");
    assert_eq!(LiveError::DateOutOfRange.message(), "program date out of range");
}

#[test]
fn progress_resets_the_stale_count() {
    let mut m = Monitor::new(6);
    for edge in [100, 100, 100] {
        assert!(m.wants_more());
        m.record(refresh(edge, None));
    }
    assert_eq!(m.finish(0).stale_refreshes, 2);
    m.record(refresh(102, None));
    assert_eq!(m.finish(0).stale_refreshes, 0);
    m.record(refresh(102, None));
    assert_eq!(m.finish(0).stale_refreshes, 1);
    m.record(refresh(105, None));
    assert!(!m.wants_more());
    let stats = m.finish(14_000_000_000);
    assert_eq!(stats.stale_refreshes, 0);
    assert_eq!(stats.new_segments, 5);
    assert_eq!(stats.refreshes, 6);
    assert_eq!(Some(stats.observed_seconds), of(14.0));
    assert_eq!(stats.avg_latency, None);
}

#[test]
fn moved_playlist_is_not_stale() {
    let first = b"#EXTM3U\n#EXT-X-TARGETDURATION:2\n#EXT-X-MEDIA-SEQUENCE:10\n\
        #EXTINF:2.0,\na.ts\n#EXTINF:2.0,\nb.ts\n";
    let second = b"#EXTM3U\n#EXT-X-TARGETDURATION:2\n#EXT-X-MEDIA-SEQUENCE:11\n#EXTINF:2.0,\nb.ts\n";
    let mut m = Monitor::new(5);
    m.observe(&parse_refresh(first, 0).unwrap(), at(0, 0)).unwrap();
    m.observe(&parse_refresh(second, 1).unwrap(), at(0, 0)).unwrap();
    let stats = m.finish(0);
    assert_eq!((stats.stale_refreshes, stats.new_segments), (0, 0));
    m.observe(&parse_refresh(second, 2).unwrap(), at(0, 0)).unwrap();
    assert_eq!(m.finish(0).stale_refreshes, 1);
    // Back to where it was before: it moved, though not forward.
    m.observe(&parse_refresh(first, 3).unwrap(), at(0, 0)).unwrap();
    assert_eq!(m.finish(0).stale_refreshes, 0);
    m.record(Refresh { edge: 11, segments: 2, lag: None });
    let stats = m.finish(0);
    assert_eq!((stats.stale_refreshes, stats.new_segments), (0, 0));
}

#[test]
fn still_playlist_is_stale_throughout() {
    let mut m = Monitor::new(4);
    for _ in 0..4 {
        m.record(refresh(9, None));
    }
    let stats = m.finish(0);
    assert_eq!((stats.stale_refreshes, stats.new_segments), (3, 0));
}

#[test]
fn steady_edge_counts_every_segment() {
    let mut m = Monitor::new(4);
    for edge in [10, 11, 13, 13] {
        m.record(refresh(edge, None));
    }
    let stats = m.finish(0);
    assert_eq!(stats.new_segments, 3);
    assert_eq!(stats.stale_refreshes, 1);
}

#[test]
fn lags_are_averaged() {
    let mut m = Monitor::new(4);
    m.record(refresh(1, Some(9_400)));
    m.record(refresh(2, Some(14_100)));
    m.record(refresh(3, None));
    m.record(refresh(4, Some(-500)));
    let stats = m.finish(0);
    let lags = [9_400.0 / 1000.0, 14_100.0 / 1000.0, -500.0 / 1000.0];
    assert_eq!(stats.avg_latency, of((lags[0] + lags[1] + lags[2]) / 3.0));
    assert_eq!(stats.min_latency, of(-0.5));
    assert_eq!(stats.max_latency, of(14.1));
}

#[test]
fn observing_a_playlist_records_it() {
    let mut m = Monitor::new(2);
    let first = playlist(5, vec![segment(4.0, Some((100, 0)))]);
    let second = playlist(6, vec![segment(4.0, Some((104, 0)))]);
    assert_eq!(m.observe(&first, at(106, 0)).unwrap().lag, Some(2_000));
    assert_eq!(m.observe(&second, at(109, 0)).unwrap().edge, 7);
    assert_eq!(m.round(), 2);
    assert_eq!(m.finish(0).new_segments, 1);
}

#[test]
fn waits_half_the_target_but_at_least_a_second() {
    assert_eq!(refresh_pause(0), (1, false));
    assert_eq!(refresh_pause(1), (1, false));
    assert_eq!(refresh_pause(2), (1, false));
    assert_eq!(refresh_pause(3), (1, true));
    assert_eq!(refresh_pause(6), (3, false));
    assert_eq!(refresh_pause(u64::MAX), (u64::MAX / 2, true));
}

#[test]
fn refresh_must_be_a_media_playlist() {
    let media = b"#EXTM3U\n#EXT-X-TARGETDURATION:4\n#EXTINF:4.0,\na.ts\n";
    assert_eq!(parse_refresh(media, 0).unwrap().segments.len(), 1);
    let master = b"#EXTM3U\n#EXT-X-STREAM-INF:BANDWIDTH=1\na.m3u8\n";
    assert_eq!(parse_refresh(master, 0).unwrap_err(), "--live needs a media playlist");
    let error = parse_refresh(b"nothing", 3).unwrap_err();
    assert!(error.starts_with("refresh 3: playlist no longer parses: "));
    assert!(error.len() > "refresh 3: playlist no longer parses: ".len());
}

#[test]
fn lags_agree_with_floating_point() {
    let mut m = Monitor::new(500);
    let mut state: u64 = 11;
    let mut lags: Vec<f64> = Vec::new();
    for edge in 0..500 {
        state = state.wrapping_mul(6364136223846793005).wrapping_add(1442695040888963407);
        let millis = (state >> 40) as i64 - 8_000_000;
        lags.push(millis as f64 / 1000.0);
        m.record(refresh(edge, Some(millis)));
    }
    let stats = m.finish(0);
    assert_eq!(stats.avg_latency, of(lags.iter().sum::<f64>() / 500.0));
    assert_eq!(stats.min_latency, lags.iter().cloned().reduce(f64::min).and_then(of));
    assert_eq!(stats.max_latency, lags.iter().cloned().reduce(f64::max).and_then(of));
}

#[test]
fn far_lags_are_averaged() {
    let mut m = Monitor::new(4);
    for edge in 0..4 {
        m.record(refresh(edge, Some(i64::MAX)));
    }
    let stats = m.finish(0);
    let each = i64::MAX as f64 / 1000.0;
    assert_eq!(stats.avg_latency, of((each + each + each + each) / 4.0));
    assert_eq!((stats.min_latency, stats.max_latency), (of(each), of(each)));
}

#[test]
fn long_durations_cancel_out() {
    let pl = playlist(
        0,
        vec![segment(4.0, Some((0, 0))), segment(1e15, None), segment(-1e15, None)],
    );
    assert!(matches!(edge_lag(&pl, at(10, 0)), Lag::Millis(6_000)));
    let pl = playlist(0, vec![segment(-0.0625, Some((0, 0))), segment(-0.0634, None)]);
    assert!(matches!(edge_lag(&pl, at(0, 0)), Lag::Millis(125)));
    let pl = playlist(0, vec![segment(f32::NAN, Some((0, 0)))]);
    assert!(matches!(edge_lag(&pl, at(1, 0)), Lag::Millis(1_000)));
}
