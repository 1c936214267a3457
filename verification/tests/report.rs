//! Reports as text, and the decisions of the program.

use hls_probe::analyze::{analyze_master, analyze_media, Issue, RenditionInfo};
use hls_probe::double::Double;
use hls_probe::edge::{EdgeReport, Pair, Sample};
use hls_probe::live::LiveStats;
use hls_probe::measure::{Container, MeasureReport, OriginCacheability, SegmentMeasure};
use hls_probe::playlist::Playlist;
use hls_probe::report::{
    exit_code, live_refusal, master_plan, parse_input, parse_media, print_edge, print_issues,
    print_live, print_master, print_measure, print_media, print_rendition, print_variant_title,
    MasterPlan,
};
use hls_probe::timing::millis;

fn of(x: f64) -> Double {
    Double { bits: x.to_bits() }
}

fn warning() -> Issue {
    Issue::warn("odd".to_string())
}

fn error() -> Issue {
    Issue::error("bad".to_string())
}

#[test]
fn exit_code_is_two_for_errors_only() {
    assert_eq!(exit_code(&vec![]), 0);
    assert_eq!(exit_code(&vec![warning(), warning()]), 0);
    assert_eq!(exit_code(&vec![warning(), error(), warning()]), 2);
}

#[test]
fn exit_code_of_several_reports_is_the_highest() {
    let (quiet, loud) = (vec![warning()], vec![error()]);
    let mut both = quiet.clone();
    both.extend(loud.clone());
    assert_eq!(exit_code(&both), exit_code(&quiet).max(exit_code(&loud)));
    assert_eq!(exit_code(&both), 2);
}

#[test]
fn exit_code_of_a_media_playlist() {
    let code = |source: &str| exit_code(&analyze_media(&parse_media(source.as_bytes(), "u").unwrap()).issues);
    assert_eq!(code("#EXTM3U\n#EXT-X-TARGETDURATION:4\n#EXTINF:4.4,\na.ts\n"), 0);
    assert_eq!(code("#EXTM3U\n#EXT-X-TARGETDURATION:4\n#EXTINF:4.6,\na.ts\n"), 2);
    assert_eq!(code("#EXTM3U\n#EXT-X-TARGETDURATION:4\n#EXT-X-ENDLIST\n"), 2);
}

#[test]
fn findings_are_tagged() {
    assert_eq!(print_issues(&vec![]), vec!["  no issues found".to_string()]);
    assert_eq!(
        print_issues(&vec![warning(), error()]),
        vec!["  [warning] odd".to_string(), "  [ERROR] bad".to_string()]
    );
}

#[test]
fn media_report_lines() {
    let source = "#EXTM3U\n#EXT-X-VERSION:3\n#EXT-X-TARGETDURATION:6\n#EXT-X-MEDIA-SEQUENCE:9\n\
                  #EXTINF:5.0,\na.ts\n#EXTINF:4.5,\nb.ts\n#EXTINF:5.0,\nc.ts\n";
    let pl = parse_media(source.as_bytes(), "http://x/y").unwrap();
    assert_eq!(
        print_media(&analyze_media(&pl)),
        vec![
            "media playlist: LIVE (version 3)".to_string(),
            "  3 segments, 14.5s total, avg 4.83s, target duration 6s".to_string(),
            "  media sequence 9, 0 discontinuity(ies), PDT no".to_string(),
            "  [warning] no EXT-X-PROGRAM-DATE-TIME tags: live-edge latency cannot be measured"
                .to_string(),
        ]
    );
    let source = "#EXTM3U\n#EXT-X-TARGETDURATION:6\n\
                  #EXT-X-PROGRAM-DATE-TIME:2026-06-01T00:00:00Z\n#EXTINF:5.0,\na.ts\n#EXT-X-ENDLIST\n";
    let pl = parse_media(source.as_bytes(), "http://x/y").unwrap();
    assert_eq!(
        print_media(&analyze_media(&pl)),
        vec![
            "media playlist: VOD (version ?)".to_string(),
            "  1 segments, 5.0s total, avg 5.00s, target duration 6s".to_string(),
            "  media sequence 0, 0 discontinuity(ies), PDT yes".to_string(),
            "  no issues found".to_string(),
        ]
    );
}

#[test]
fn master_report_lines() {
    let source = "#EXTM3U\n\
        #EXT-X-STREAM-INF:BANDWIDTH=2149280,CODECS=\"mp4a.40.2,avc1.64001f\",RESOLUTION=1280x720\n\
        url_0/193039199_mp4_h264_aac_hd_7.m3u8\n\
        #EXT-X-STREAM-INF:BANDWIDTH=6221600,CODECS=\"mp4a.40.2,avc1.640028\",RESOLUTION=1920x1080\n\
        url_8/193039199_mp4_h264_aac_fhd_7.m3u8\n";
    let url = "https://test-streams.mux.dev/x36xhzz/x36xhzz.m3u8";
    let master = match parse_input(source.as_bytes()).unwrap() {
        Playlist::Master(m) => m,
        Playlist::Media(_) => panic!("expected a master playlist"),
    };
    assert_eq!(
        print_master(url, &analyze_master(&master)),
        vec![
            "master playlist: https://test-streams.mux.dev/x36xhzz/x36xhzz.m3u8".to_string(),
            "2 variant(s):".to_string(),
            "    6221600 bps  1920x1080   -      mp4a.40.2,avc1.640028".to_string(),
            "    2149280 bps  1280x720    -      mp4a.40.2,avc1.64001f".to_string(),
            "  no issues found".to_string(),
        ]
    );
}

#[test]
fn every_kind_of_playlist_has_its_section() {
    let source = "#EXTM3U\n\
        #EXT-X-MEDIA:TYPE=AUDIO,GROUP-ID=\"aac\",NAME=\"English\",LANGUAGE=\"en\",DEFAULT=YES,CHANNELS=\"2\",URI=\"a.m3u8\"\n\
        #EXT-X-MEDIA:TYPE=SUBTITLES,GROUP-ID=\"subs\",NAME=\"Deutsch\",CHARACTERISTICS=\"public.easy-to-read\",URI=\"s.m3u8\"\n\
        #EXT-X-STREAM-INF:BANDWIDTH=5000000,AVERAGE-BANDWIDTH=4200000,FRAME-RATE=29.97,AUDIO=\"aac\",SUBTITLES=\"subs\"\n\
        high.m3u8\n\
        #EXT-X-STREAM-INF:BANDWIDTH=64000,CODECS=\"mp4a.40.2\",RESOLUTION=2x2,AUDIO=\"aac\"\n\
        low.m3u8\n\
        #EXT-X-STREAM-INF:BANDWIDTH=63000,CODECS=\"mp4a.40.2\",RESOLUTION=2x2,SUBTITLES=\"subs\"\n\
        lower.m3u8\n\
        #EXT-X-I-FRAME-STREAM-INF:BANDWIDTH=100999,RESOLUTION=1920x1080,CODECS=\"avc1\",URI=\"i.m3u8\"\n";
    let master = match parse_input(source.as_bytes()).unwrap() {
        Playlist::Master(m) => m,
        Playlist::Media(_) => panic!("expected a master playlist"),
    };
    assert_eq!(
        print_master("u", &analyze_master(&master)),
        vec![
            "master playlist: u".to_string(),
            "3 variant(s):".to_string(),
            "    5000000 bps (avg 4200)  ?x?         29.97fps (no codecs)  [audio:aac subs:subs]"
                .to_string(),
            "      64000 bps  2x2         -      mp4a.40.2  [audio:aac]".to_string(),
            "      63000 bps  2x2         -      mp4a.40.2  [subs:subs]".to_string(),
            "audio renditions (1):".to_string(),
            "  aac            en   English              DEFAULT 2ch".to_string(),
            "subtitle renditions (1):".to_string(),
            "  subs           -    Deutsch              (public.easy-to-read)".to_string(),
            "i-frame trick-play playlists (1):".to_string(),
            "      100 kbps  1920x1080   avc1".to_string(),
            "  [warning] variant 'high.m3u8' has no CODECS attribute (hurts player startup decisions)"
                .to_string(),
            "  [warning] variant 'high.m3u8' has no RESOLUTION attribute".to_string(),
        ]
    );
    assert_eq!(
        print_variant_title("v.m3u8"),
        vec!["".to_string(), "--- variant: v.m3u8".to_string()]
    );
}

#[test]
fn rendition_line_pads_by_characters() {
    let r = RenditionInfo {
        group_id: "g".to_string(),
        name: "Fran\u{e7}ais".to_string(),
        language: None,
        uri: None,
        default: false,
        channels: None,
        characteristics: None,
    };
    assert_eq!(print_rendition(&r), format!("  {:<14} {:<4} {:<20}", "g", "-", "Fran\u{e7}ais"));
}

fn measured(peak: f64) -> MeasureReport {
    MeasureReport {
        container: Container::MpegTs,
        init_segment: false,
        segments: vec![SegmentMeasure {
            uri: "seg1.ts".to_string(),
            bytes: 1_048_576,
            duration: of(4.0),
            ttfb_ms: of(35.4),
            total_ms: of(250.0),
            throughput_bps: of(1_048_576.0 * 8.0 / 0.25),
            bitrate_bps: of(peak),
        }],
        measured_bitrate_bps: of(2_097_152.0),
        peak_bitrate_bps: of(peak),
        avg_ttfb_ms: of(35.4),
        cacheability: OriginCacheability::default(),
    }
}

#[test]
fn measurement_lines() {
    let peak = 2_097_152.0;
    let expected = vec![
        "measure: 1 segment(s) sampled, container MPEG-TS".to_string(),
        "  measured bitrate 2097 kbps (peak segment 2097 kbps), avg TTFB 35 ms".to_string(),
        "      1024 KiB in   250 ms (ttfb   35 ms) ->  33554 kbps throughput  seg1.ts".to_string(),
    ];
    assert_eq!(print_measure(&measured(peak), None), expected);
    assert_eq!(print_measure(&measured(peak), Some(2_097_152)), expected);
    let lines = print_measure(&measured(peak), Some(2_097_151));
    assert_eq!(
        lines[3],
        "  [warning] peak segment bitrate 2097 kbps exceeds declared BANDWIDTH 2097 kbps"
    );
    let above = 2_097_152.5;
    assert_eq!(print_measure(&measured(above), Some(2_097_152)).len(), 4);
    let mut m = measured(peak);
    m.container = Container::Fmp4;
    m.init_segment = true;
    assert_eq!(
        print_measure(&m, None)[0],
        "measure: 1 segment(s) sampled, container fMP4/CMAF (init segment present)"
    );
}

#[test]
fn live_lines() {
    let mut stats = LiveStats {
        refreshes: 10,
        stale_refreshes: 0,
        new_segments: 5,
        observed_seconds: of(14.2),
        avg_latency: Some(of(11.7)),
        min_latency: Some(of(9.4)),
        max_latency: Some(of(14.1)),
    };
    assert_eq!(
        print_live(&stats),
        vec![
            "live: 10 refreshes over 14s, 5 new segment(s), 0 stale refresh(es)".to_string(),
            "  edge lag: avg 11.7s, min 9.4s, max 14.1s (PDT-based)".to_string(),
        ]
    );
    stats.avg_latency = None;
    stats.min_latency = None;
    stats.max_latency = None;
    assert_eq!(
        print_live(&stats)[1],
        "  edge lag: unknown (stream has no EXT-X-PROGRAM-DATE-TIME)"
    );
}

#[test]
fn edge_lines() {
    let sample = |ms: u64| Sample {
        ttfb_ms: millis(ms * 1_000_000),
        total_ms: millis(ms * 1_000_000),
        bytes: 0,
        cache_status: None,
        age: None,
    };
    let report = EdgeReport::new(vec![
        Pair { uri: "a".to_string(), fresh: sample(60), warmed: sample(50) },
        Pair { uri: "b".to_string(), fresh: sample(40), warmed: sample(60) },
    ]);
    assert_eq!(
        print_edge(&report),
        vec![
            "edge test: 2 pair(s), avg fresh TTFB 50 ms, avg warmed TTFB 55 ms, avg penalty -5 ms"
                .to_string(),
            "  no meaningful fresh-segment penalty observed (cache already warm, or origin very close to the edge)"
                .to_string(),
        ]
    );
}

#[test]
fn unparsable_input_is_reported() {
    assert!(parse_input(b"<html>").unwrap_err().starts_with("not a valid M3U8 playlist: "));
    assert!(parse_media(b"<html>", "http://x/y")
        .unwrap_err()
        .starts_with("http://x/y: not a valid M3U8 playlist: "));
    let master = b"#EXTM3U\n#EXT-X-STREAM-INF:BANDWIDTH=1\na.m3u8\n";
    assert_eq!(
        parse_media(master, "http://x/y").unwrap_err(),
        "http://x/y is a master playlist, expected media"
    );
}

#[test]
fn plans_for_a_master_playlist() {
    assert_eq!(master_plan(true, true, true, 3), MasterPlan::FollowTop(true));
    assert_eq!(master_plan(true, false, false, 0), MasterPlan::FollowTop(false));
    assert_eq!(master_plan(false, true, true, 3), MasterPlan::Inventory(3));
    assert_eq!(master_plan(false, false, true, 3), MasterPlan::Inventory(1));
    assert_eq!(master_plan(false, false, true, 0), MasterPlan::Inventory(0));
    assert_eq!(master_plan(false, false, false, 3), MasterPlan::Inventory(0));
}

#[test]
fn only_live_playlists_are_monitored() {
    assert_eq!(live_refusal(false, false), None);
    assert_eq!(live_refusal(true, true), None);
    assert_eq!(
        live_refusal(true, false),
        Some("--live requested but the playlist has EXT-X-ENDLIST (VOD)")
    );
}

#[test]
fn averages_are_printed_as_rounded() {
    let segments = |durations: &[&str], target: &str| {
        let mut source = format!("#EXTM3U\n#EXT-X-TARGETDURATION:{target}\n");
        for d in durations {
            source.push_str(&format!("#EXTINF:{d},\ns.ts\n"));
        }
        source.push_str("#EXT-X-ENDLIST\n");
        print_media(&analyze_media(&parse_media(source.as_bytes(), "u").unwrap()))[1].clone()
    };
    let mut list = vec!["6"; 39];
    list.push("7");
    assert_eq!(
        segments(&list, "7"),
        format!("  40 segments, 241.0s total, avg {:.2}s, target duration 7s", 241.0 / 40.0)
    );
    assert_eq!(segments(&list, "7"), "  40 segments, 241.0s total, avg 6.03s, target duration 7s");
    assert_eq!(
        segments(&["18446744073709551616"], "9007199254740993"),
        "  1 segments, 18446744073709551616.0s total, avg 18446744073709551616.00s, \
         target duration 9007199254740992s"
    );
    assert_eq!(
        segments(&["4"], "18446744073709551615"),
        "  1 segments, 4.0s total, avg 4.00s, target duration 18446744073709552000s"
    );
}

#[test]
fn measurements_that_are_no_numbers_are_printed() {
    let mut m = measured(f64::INFINITY);
    m.avg_ttfb_ms = of(f64::NAN);
    let lines = print_measure(&m, Some(u64::MAX));
    assert_eq!(lines[1], "  measured bitrate 2097 kbps (peak segment inf kbps), avg TTFB NaN ms");
    assert_eq!(
        lines[3],
        "  [warning] peak segment bitrate inf kbps exceeds declared BANDWIDTH 18446744073709552 kbps"
    );
    let report = EdgeReport::new(Vec::new());
    assert_eq!(
        print_edge(&report)[0],
        "edge test: 0 pair(s), avg fresh TTFB NaN ms, avg warmed TTFB NaN ms, avg penalty NaN ms"
    );
}

#[test]
fn half_milliseconds_are_printed_as_rounded() {
    for n in [58_500_000u64, 500_000, 1_500_000, 2_500_000, 1_000_500_000] {
        let mut m = measured(1.0);
        m.segments[0].total_ms = millis(n);
        let ms = std::time::Duration::from_nanos(n).as_secs_f64() * 1000.0;
        assert!(print_measure(&m, None)[2].contains(&format!("KiB in {ms:>5.0} ms")), "{n}");
    }
}
