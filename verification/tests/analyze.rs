//! Conformance checks on parsed playlists.

use hls_probe::analyze::{analyze_master, analyze_media, drift_issue, MediaReport, Severity};
use hls_probe::double::Double;
use hls_probe::playlist::{
    expect_media, expect_playlist, parse_playlist, Master, Media, MediaSegment, Playlist,
};

fn parse_media(src: &str) -> Media {
    match parse_playlist(src.as_bytes()).expect("parse") {
        Playlist::Media(p) => p,
        Playlist::Master(_) => panic!("expected media playlist"),
    }
}

fn parse_master(src: &str) -> Master {
    match parse_playlist(src.as_bytes()).expect("parse") {
        Playlist::Master(p) => p,
        Playlist::Media(_) => panic!("expected master playlist"),
    }
}

fn as_secs(s: Double) -> f64 {
    f64::from_bits(s.bits)
}

fn of(secs: f64) -> Double {
    Double { bits: secs.to_bits() }
}

fn lasting(durations: &[f32], target: u64) -> Media {
    Media {
        version: None,
        target_duration: target,
        media_sequence: 0,
        segments: durations
            .iter()
            .map(|d| MediaSegment {
                uri: "s.ts".to_string(),
                duration_bits: d.to_bits(),
                byte_range: None,
                discontinuity: false,
                map: None,
                program_date_time: None,
            })
            .collect(),
        end_list: true,
    }
}

fn messages(r: &MediaReport) -> Vec<String> {
    r.issues.iter().map(|i| i.message.clone()).collect()
}

#[test]
fn flags_segment_longer_than_target_duration() {
    let pl = parse_media(
        "#EXTM3U\n#EXT-X-VERSION:3\n#EXT-X-TARGETDURATION:4\n\
         #EXTINF:6.0,\nseg0.ts\n#EXT-X-ENDLIST\n",
    );
    let report = analyze_media(&pl);
    assert!(report
        .issues
        .iter()
        .any(|i| i.severity == Severity::Error && i.message.contains("exceeds")));
    assert_eq!(
        messages(&report),
        vec!["segment #0 duration 6.000s exceeds EXT-X-TARGETDURATION 4s".to_string()]
    );
}

#[test]
fn vod_with_endlist_is_not_live() {
    let pl = parse_media(
        "#EXTM3U\n#EXT-X-VERSION:3\n#EXT-X-TARGETDURATION:6\n\
         #EXTINF:5.0,\nseg0.ts\n#EXTINF:5.0,\nseg1.ts\n#EXT-X-ENDLIST\n",
    );
    let report = analyze_media(&pl);
    assert!(!report.is_live);
    assert_eq!(report.segment_count, 2);
    assert!((as_secs(report.total_duration) - 10.0).abs() < 1e-6);
    assert!(report.issues.is_empty());
}

#[test]
fn counts_discontinuities() {
    let pl = parse_media(
        "#EXTM3U\n#EXT-X-VERSION:3\n#EXT-X-TARGETDURATION:6\n\
         #EXTINF:5.0,\nseg0.ts\n#EXT-X-DISCONTINUITY\n#EXTINF:5.0,\nseg1.ts\n",
    );
    let report = analyze_media(&pl);
    assert_eq!(report.discontinuities, 1);
    assert!(report.is_live);
    assert_eq!(
        messages(&report),
        vec![
            "1 EXT-X-DISCONTINUITY tag(s) present".to_string(),
            "no EXT-X-PROGRAM-DATE-TIME tags: live-edge latency cannot be measured".to_string(),
        ]
    );
}

#[test]
fn half_a_second_rounds_up_against_the_target() {
    let source = |duration: &str| {
        format!("#EXTM3U\n#EXT-X-TARGETDURATION:4\n#EXTINF:{duration},\na.ts\n#EXT-X-ENDLIST\n")
    };
    assert!(analyze_media(&parse_media(&source("4.499"))).issues.is_empty());
    let report = analyze_media(&parse_media(&source("4.5")));
    assert_eq!(
        messages(&report),
        vec!["segment #0 duration 4.500s exceeds EXT-X-TARGETDURATION 4s".to_string()]
    );
}

#[test]
fn empty_playlist_is_an_error() {
    let pl = Media {
        version: None,
        target_duration: 4,
        media_sequence: 0,
        segments: Vec::new(),
        end_list: true,
    };
    let report = analyze_media(&pl);
    assert_eq!(messages(&report), vec!["playlist contains no segments".to_string()]);
    assert_eq!(report.issues[0].severity, Severity::Error);
    assert_eq!(report.avg_segment_duration, of(0.0));
    assert_eq!(report.total_duration, of(0.0));
    assert!(!report.has_program_date_time);
}

#[test]
fn dated_playlist_without_drift_is_clean() {
    let pl = parse_media(
        "#EXTM3U\n#EXT-X-VERSION:6\n#EXT-X-TARGETDURATION:6\n#EXT-X-MEDIA-SEQUENCE:77\n\
         #EXT-X-PROGRAM-DATE-TIME:2026-06-01T00:00:00.000Z\n#EXTINF:6.0,\na.ts\n\
         #EXT-X-PROGRAM-DATE-TIME:2026-06-01T02:00:06.000+02:00\n#EXTINF:6.0,\nb.ts\n",
    );
    let report = analyze_media(&pl);
    assert!(report.issues.is_empty());
    assert!(report.has_program_date_time);
    assert_eq!(report.version, Some(6));
    assert_eq!(report.media_sequence, 77);
    assert_eq!(report.target_duration, 6);
    assert_eq!(as_secs(report.avg_segment_duration), 6.0);
}

#[test]
fn drift_beyond_the_target_is_a_warning() {
    let source = |second: &str| {
        format!(
            "#EXTM3U\n#EXT-X-TARGETDURATION:6\n\
             #EXT-X-PROGRAM-DATE-TIME:2026-06-01T00:00:00.000Z\n#EXTINF:6.0,\na.ts\n\
             #EXTINF:6.0,\nb.ts\n\
             #EXT-X-PROGRAM-DATE-TIME:{second}\n#EXTINF:6.0,\nc.ts\n"
        )
    };
    // 18 s on the clock against 12 s of segments: exactly the target.
    let report = analyze_media(&parse_media(&source("2026-06-01T00:00:18.000Z")));
    assert!(report.issues.is_empty());
    let report = analyze_media(&parse_media(&source("2026-06-01T00:00:20.250Z")));
    assert_eq!(
        messages(&report),
        vec![
            "PDT span and summed segment durations drift by 8.2s \
             (possible timing gap or encoder clock issue)"
                .to_string()
        ]
    );
    assert_eq!(report.issues[0].severity, Severity::Warning);
    // The clock runs backwards: no span to compare with.
    let report = analyze_media(&parse_media(&source("2026-05-31T00:00:00.000Z")));
    assert!(report.issues.is_empty());
}

#[test]
fn drift_finding_goes_by_the_measured_span() {
    let twelve = of(12.0);
    assert!(drift_issue(None, twelve, 6).is_none());
    assert!(drift_issue(Some(18_000), twelve, 6).is_none());
    assert!(drift_issue(Some(-60_000), twelve, 6).is_none());
    let issue = drift_issue(Some(1_000), twelve, 6).expect("a drift");
    assert_eq!(
        issue.message,
        "PDT span and summed segment durations drift by -11.0s \
         (possible timing gap or encoder clock issue)"
    );
}

const MASTER: &str = "#EXTM3U\n\
    #EXT-X-MEDIA:TYPE=AUDIO,GROUP-ID=\"aac\",NAME=\"English\",LANGUAGE=\"en\",DEFAULT=YES,CHANNELS=\"2\",URI=\"a/en.m3u8\"\n\
    #EXT-X-MEDIA:TYPE=SUBTITLES,GROUP-ID=\"subs\",NAME=\"Deutsch\",LANGUAGE=\"de\",CHARACTERISTICS=\"public.easy-to-read\",URI=\"s/de.m3u8\"\n\
    #EXT-X-STREAM-INF:BANDWIDTH=800000,CODECS=\"avc1.64001f,mp4a.40.2\",RESOLUTION=640x360,AUDIO=\"aac\"\n\
    low.m3u8\n\
    #EXT-X-STREAM-INF:BANDWIDTH=5000000,AVERAGE-BANDWIDTH=4200000,CODECS=\"avc1.640028,mp4a.40.2\",RESOLUTION=1920x1080,FRAME-RATE=29.97,AUDIO=\"aac\",SUBTITLES=\"subs\"\n\
    high.m3u8\n\
    #EXT-X-STREAM-INF:BANDWIDTH=800000,CODECS=\"avc1.42c01e,mp4a.40.2\",RESOLUTION=640x360,AUDIO=\"aac\"\n\
    other.m3u8\n\
    #EXT-X-I-FRAME-STREAM-INF:BANDWIDTH=100000,CODECS=\"avc1.640028\",RESOLUTION=1920x1080,URI=\"iframe.m3u8\"\n";

#[test]
fn ladder_falls_and_keeps_the_order_of_equals() {
    let report = analyze_master(&parse_master(MASTER));
    let uris: Vec<&str> = report.variants.iter().map(|v| v.uri.as_str()).collect();
    assert_eq!(uris, vec!["high.m3u8", "low.m3u8", "other.m3u8"]);
    let top = &report.variants[0];
    assert_eq!(top.bandwidth, 5_000_000);
    assert_eq!(top.average_bandwidth, Some(4_200_000));
    assert_eq!(top.resolution.as_deref(), Some("1920x1080"));
    assert_eq!(top.codecs.as_deref(), Some("avc1.640028,mp4a.40.2"));
    assert_eq!(top.frame_rate.as_deref(), Some("29.97"));
    assert_eq!(top.audio_group.as_deref(), Some("aac"));
    assert_eq!(top.subtitles_group.as_deref(), Some("subs"));
    assert_eq!(report.iframe_variants.len(), 1);
    assert_eq!(report.iframe_variants[0].uri, "iframe.m3u8");
}

#[test]
fn renditions_are_listed_by_type() {
    let report = analyze_master(&parse_master(MASTER));
    assert_eq!(report.audio.len(), 1);
    let audio = &report.audio[0];
    assert_eq!(audio.group_id, "aac");
    assert_eq!(audio.name, "English");
    assert_eq!(audio.language.as_deref(), Some("en"));
    assert_eq!(audio.uri.as_deref(), Some("a/en.m3u8"));
    assert!(audio.default);
    assert_eq!(audio.channels.as_deref(), Some("2"));
    assert_eq!(report.subtitles.len(), 1);
    assert_eq!(
        report.subtitles[0].characteristics.as_deref(),
        Some("public.easy-to-read")
    );
    assert!(!report.subtitles[0].default);
}

#[test]
fn duplicate_bandwidth_is_reported_once_for_each_repetition() {
    let report = analyze_master(&parse_master(MASTER));
    let texts: Vec<&str> = report.issues.iter().map(|i| i.message.as_str()).collect();
    assert_eq!(texts, vec!["duplicate BANDWIDTH value 800000 across variants"]);
    assert_eq!(report.issues[0].severity, Severity::Warning);
}

#[test]
fn undeclared_groups_and_missing_attributes_are_reported() {
    let master = parse_master(
        "#EXTM3U\n\
         #EXT-X-MEDIA:TYPE=AUDIO,GROUP-ID=\"aac\",NAME=\"English\",URI=\"a/en.m3u8\"\n\
         #EXT-X-STREAM-INF:BANDWIDTH=1,AUDIO=\"aac\",VIDEO=\"v\",SUBTITLES=\"aac\",CLOSED-CAPTIONS=\"cc\"\n\
         one.m3u8\n\
         #EXT-X-STREAM-INF:BANDWIDTH=2,CODECS=\"avc1\",RESOLUTION=1x1,AUDIO=\"ac3\",CLOSED-CAPTIONS=NONE\n\
         two.m3u8\n",
    );
    let report = analyze_master(&master);
    let texts: Vec<(Severity, &str)> = report
        .issues
        .iter()
        .map(|i| (i.severity, i.message.as_str()))
        .collect();
    assert_eq!(
        texts,
        vec![
            (
                Severity::Warning,
                "variant 'one.m3u8' has no CODECS attribute (hurts player startup decisions)"
            ),
            (Severity::Warning, "variant 'one.m3u8' has no RESOLUTION attribute"),
            (Severity::Error, "variant 'one.m3u8' references undeclared VIDEO group 'v'"),
            (Severity::Error, "variant 'one.m3u8' references undeclared SUBTITLES group 'aac'"),
            (Severity::Error, "variant 'one.m3u8' references undeclared CLOSED-CAPTIONS group 'cc'"),
            (Severity::Error, "variant 'two.m3u8' references undeclared AUDIO group 'ac3'"),
        ]
    );
}

#[test]
fn master_without_variants_is_an_error() {
    let report = analyze_master(&Master { variants: Vec::new(), alternatives: Vec::new() });
    assert_eq!(report.issues.len(), 1);
    assert_eq!(report.issues[0].severity, Severity::Error);
    assert_eq!(report.issues[0].message, "master playlist declares no variant streams");
    assert!(report.variants.is_empty() && report.iframe_variants.is_empty());
}

#[test]
fn parse_errors_keep_the_parser_text() {
    let error = parse_playlist(b"this is no playlist").expect_err("no playlist");
    assert!(!error.is_empty());
}

#[test]
fn parser_results_become_messages() {
    let media = Media {
        version: None,
        target_duration: 4,
        media_sequence: 9,
        segments: Vec::new(),
        end_list: true,
    };
    let master = Master { variants: Vec::new(), alternatives: Vec::new() };
    let found = expect_media(Ok(Playlist::Media(media)), "M", "E: ").unwrap();
    assert_eq!(found.media_sequence, 9);
    let found = expect_media(Ok(Playlist::Master(master.clone())), "M", "E: ");
    assert_eq!(found.unwrap_err(), "M");
    let found = expect_media(Err("why".to_string()), "M", "E: ");
    assert_eq!(found.unwrap_err(), "E: why");
    let found = expect_playlist(Ok(Playlist::Master(master)), "E: ");
    assert!(matches!(found, Ok(Playlist::Master(_))));
    let found = expect_playlist(Err("why".to_string()), "E: ");
    assert_eq!(found.unwrap_err(), "E: why");
}

#[test]
fn severities_have_names() {
    assert_eq!(Severity::Warning.label(), "warning");
    assert_eq!(Severity::Error.label(), "error");
}

#[test]
fn drift_spans_the_first_and_the_last_dated_segment() {
    let pl = parse_media(
        "#EXTM3U\n#EXT-X-TARGETDURATION:4\n\
         #EXT-X-PROGRAM-DATE-TIME:2026-06-01T00:00:00Z\n#EXTINF:4.0,\na.ts\n\
         #EXT-X-PROGRAM-DATE-TIME:2026-06-01T00:00:04Z\n#EXTINF:4.0,\nb.ts\n\
         #EXTINF:4.0,\nc.ts\n\
         #EXT-X-PROGRAM-DATE-TIME:2026-06-01T00:00:04Z\n#EXTINF:4.0,\nd.ts\n#EXT-X-ENDLIST\n",
    );
    let report = analyze_media(&pl);
    assert_eq!(report.issues.len(), 1);
    assert_eq!(report.issues[0].severity, Severity::Warning);
    assert!(report.issues[0].message.contains("drift by -8.0s"));
}

#[test]
fn segments_outside_the_dates_do_not_count() {
    let pl = parse_media(
        "#EXTM3U\n#EXT-X-TARGETDURATION:4\n#EXTINF:4.0,\na.ts\n#EXTINF:4.0,\nb.ts\n\
         #EXT-X-PROGRAM-DATE-TIME:2026-06-01T00:00:00Z\n#EXTINF:4.0,\nc.ts\n\
         #EXT-X-PROGRAM-DATE-TIME:2026-06-01T00:00:04Z\n#EXTINF:4.0,\nd.ts\n\
         #EXTINF:4.0,\ne.ts\n#EXTINF:4.0,\nf.ts\n#EXT-X-ENDLIST\n",
    );
    assert!(analyze_media(&pl).issues.is_empty());
}

#[test]
fn sums_and_averages_are_rounded_as_they_go() {
    let mut durations = vec![6.0f32; 39];
    durations.push(7.0);
    let report = analyze_media(&lasting(&durations, 7));
    assert_eq!(as_secs(report.total_duration), 241.0);
    assert_eq!(as_secs(report.avg_segment_duration), 6.025);
    let tenths = analyze_media(&lasting(&[0.1; 10], 1));
    let mut total = 0.0f64;
    for _ in 0..10 {
        total += 0.1f32 as f64;
    }
    assert_eq!(tenths.total_duration, of(total));
    assert_eq!(tenths.avg_segment_duration, of(total / 10.0));
}

#[test]
fn very_long_segments_add_up() {
    let report = analyze_media(&lasting(&[18446744073709551616.0], u64::MAX));
    assert_eq!(as_secs(report.total_duration), 18446744073709551616.0);
    assert_eq!(as_secs(report.avg_segment_duration), 18446744073709551616.0);
    // The target is rounded to the same number.
    assert!(report.issues.is_empty());
    let report = analyze_media(&lasting(&[f32::MAX, f32::MAX], 1));
    assert_eq!(as_secs(report.total_duration), 2.0 * f32::MAX as f64);
    assert_eq!(
        messages(&report)[0],
        format!("segment #0 duration {:.3}s exceeds EXT-X-TARGETDURATION 1s", f32::MAX)
    );
}

#[test]
fn durations_that_are_no_numbers_carry_through() {
    let report = analyze_media(&lasting(&[4.0, f32::INFINITY], 4));
    assert_eq!(as_secs(report.total_duration), f64::INFINITY);
    assert_eq!(as_secs(report.avg_segment_duration), f64::INFINITY);
    assert_eq!(
        messages(&report),
        vec!["segment #1 duration infs exceeds EXT-X-TARGETDURATION 4s".to_string()]
    );
    let report = analyze_media(&lasting(&[f32::NAN, 4.0], 4));
    assert!(as_secs(report.total_duration).is_nan());
    assert!(as_secs(report.avg_segment_duration).is_nan());
    assert!(report.issues.is_empty());
    let report = analyze_media(&lasting(&[f32::INFINITY, f32::NEG_INFINITY], u64::MAX));
    assert!(as_secs(report.total_duration).is_nan());
}

#[test]
fn drift_is_rounded_before_it_is_held_against_the_target() {
    let drift = |millis: i64, duration: f64, target: u64| {
        drift_issue(Some(millis), of(duration), target).map(|i| i.message)
    };
    let message = |drift: f64| {
        Some(format!(
            "PDT span and summed segment durations drift by {drift:.1}s \
             (possible timing gap or encoder clock issue)"
        ))
    };
    assert_eq!(drift(50, 8.0, 4), message(-8.0));
    assert_eq!(drift(50, 8.0, 4), message(0.05 - 8.0));
    // 2^53 and one more are the same number.
    let target = 1u64 << 53;
    assert_eq!(drift(1_000, 9007199254740996.0, target + 1), message(-9007199254740995.0));
    assert_eq!(drift(1_000, 9007199254740993.0, target + 1), None);
    assert_eq!(drift(1_000, 9007199254740996.0, target), message(-9007199254740995.0));
    // Nothing can be said of what is no number.
    assert_eq!(drift(1_000, f64::NAN, 1), None);
    assert_eq!(drift(1_000, f64::INFINITY, 1), message(f64::NEG_INFINITY));
    let mut state: u64 = 9;
    for _ in 0..5_000 {
        state = state.wrapping_mul(6364136223846793005).wrapping_add(1442695040888963407);
        let millis = (state >> 40) as i64 - 4_000_000;
        let duration = (state % 20_000_000) as f64 / 1024.0;
        let span = millis as f64 / 1000.0;
        let expected = span - duration;
        let found = drift(millis, duration, 6);
        if span > 0.0 && expected.abs() > 6.0 {
            assert_eq!(found, message(expected));
        } else {
            assert_eq!(found, None);
        }
    }
}

#[test]
fn rounding_against_the_target_agrees_with_floating_point() {
    let mut state: u64 = 1;
    let mut list = vec![0.0f32, 0.5, 1.5, 2.5, 4.499, 4.5, 1e20, f32::MAX, f32::INFINITY, f32::NAN];
    for _ in 0..2_000 {
        state = state.wrapping_mul(6364136223846793005).wrapping_add(1442695040888963407);
        list.push((state >> 40) as f32 / 65536.0);
        list.push(f32::from_bits((state >> 33) as u32));
    }
    for d in list {
        for limit in [0u64, 1, 2, 4, 255, (1 << 53) + 1, u64::MAX] {
            for d in [d, -d] {
                let expected = (d as f64).round() > limit as f64;
                let found = analyze_media(&lasting(&[d], limit)).issues;
                assert_eq!(found.len(), expected as usize, "{d} {limit}");
                if expected {
                    assert_eq!(
                        found[0].message,
                        format!("segment #0 duration {d:.3}s exceeds EXT-X-TARGETDURATION {limit}s")
                    );
                }
            }
        }
    }
}
