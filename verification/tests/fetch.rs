//! Request headers and URL resolution.

use hls_probe::fetch::{parse_headers, resolution, resolve, HeaderFault};

#[test]
fn parses_curl_style_headers() {
    let map = parse_headers(&[
        "Authorization: Bearer abc123".to_string(),
        "x-custom:  spaced value ".to_string(),
    ])
    .unwrap();
    assert_eq!(map["authorization"], "Bearer abc123");
    assert_eq!(map["x-custom"], "spaced value");
}

#[test]
fn default_user_agent_present_and_overridable() {
    let map = parse_headers(&[]).unwrap();
    assert!(map["user-agent"].to_str().unwrap().starts_with("hls-probe/"));
    assert_eq!(map["user-agent"], "hls-probe/0.1.0");

    let map = parse_headers(&["User-Agent: AppleCoreMedia/1.0".to_string()]).unwrap();
    assert_eq!(map["user-agent"], "AppleCoreMedia/1.0");
    assert_eq!(map.len(), 1);
}

#[test]
fn rejects_header_without_colon() {
    assert!(parse_headers(&["not-a-header".to_string()]).is_err());
    let error = parse_headers(&["not-a-header".to_string()]).unwrap_err();
    assert_eq!(error.fault, HeaderFault::MissingColon);
    assert_eq!(
        error.message(),
        "invalid header 'not-a-header': expected 'Name: value'"
    );
}

#[test]
fn value_may_contain_colons() {
    let map = parse_headers(&["X-Time: 12:34:56".to_string()]).unwrap();
    assert_eq!(map["x-time"], "12:34:56");
}

#[test]
fn rejects_bad_names_and_values() {
    let error = parse_headers(&["a: 1".to_string(), "bad name: x".to_string()]).unwrap_err();
    assert_eq!(error.fault, HeaderFault::InvalidName);
    assert_eq!(error.message(), "invalid header name in 'bad name: x'");
    let error = parse_headers(&[": x".to_string()]).unwrap_err();
    assert_eq!(error.fault, HeaderFault::InvalidName);
    let error = parse_headers(&["a: x\u{1}y".to_string(), "no-colon".to_string()]).unwrap_err();
    assert_eq!(error.fault, HeaderFault::InvalidValue);
    assert_eq!(error.message(), "invalid header value in 'a: x\u{1}y'");
}

#[test]
fn later_header_of_the_same_name_wins() {
    let map = parse_headers(&[
        "X-A: one".to_string(),
        "x-b:".to_string(),
        "x-a: two".to_string(),
    ])
    .unwrap();
    assert_eq!(map["x-a"], "two");
    assert_eq!(map["x-b"], "");
    assert_eq!(map.get_all("x-a").iter().count(), 1);
    assert_eq!(map.len(), 3);
}

#[test]
fn values_may_be_any_text() {
    let map = parse_headers(&["X-Text: caf\u{e9}\u{2003}".to_string()]).unwrap();
    assert_eq!(map["x-text"].as_bytes(), "caf\u{e9}".as_bytes());
}

#[test]
fn every_name_character_is_known() {
    for c in 0u8..128 {
        let raw = format!("{}: v", c as char);
        let expected = reqwest::header::HeaderName::from_bytes(&[c]).is_ok() && c != b':';
        let trimmed = (c as char).is_whitespace();
        let found = parse_headers(&[raw]).is_ok();
        assert_eq!(found, expected && !trimmed, "{c}");
    }
}

#[test]
fn resolves_relative_uris() {
    let base = "https://example.com/live/master.m3u8?token=1";
    assert_eq!(resolve(base, "v1/a.m3u8").unwrap(), "https://example.com/live/v1/a.m3u8");
    assert_eq!(resolve(base, "/root.ts").unwrap(), "https://example.com/root.ts");
    assert_eq!(resolve(base, "//cdn.example.com/x").unwrap(), "https://cdn.example.com/x");
    assert_eq!(resolve(base, "http://other/x").unwrap(), "http://other/x");
}

#[test]
fn unresolvable_uri_names_both_parts() {
    let error = resolve("https://example.com/a", "http://[bad").unwrap_err();
    assert_eq!(error.message, "resolving 'http://[bad' against https://example.com/a");
    assert!(!error.cause.is_empty());
}

#[test]
fn resolution_goes_by_the_joined_url() {
    let url = resolution("http://b/", "u", Ok("http://joined/".to_string()));
    assert_eq!(url.unwrap(), "http://joined/");
    let error = resolution("http://b/", "u", Err("why".to_string())).unwrap_err();
    assert_eq!(error.message, "resolving 'u' against http://b/");
    assert_eq!(error.cause, "why");
}

#[test]
fn many_headers_of_few_names_are_taken() {
    let extra: Vec<String> = (0..7000).map(|i| format!("X-{}: {}", i % 5, i)).collect();
    let map = parse_headers(&extra).unwrap();
    assert_eq!(map.len(), 6);
    assert_eq!(map["x-4"], "6999");
    assert_eq!(map["x-0"], "6995");
}

#[test]
fn one_more_header_sets_exactly_its_name() {
    let mut extra = vec!["a: 1".to_string(), "b: 2".to_string()];
    let before = parse_headers(&extra).unwrap();
    extra.push("A: 3".to_string());
    let after = parse_headers(&extra).unwrap();
    assert_eq!(after["a"], "3");
    for name in ["b", "user-agent"] {
        assert_eq!(after[name], before[name]);
    }
    assert_eq!(after.len(), before.len());
    extra.push("nothing".to_string());
    extra.push("c: 4".to_string());
    assert_eq!(parse_headers(&extra).unwrap_err().raw, "nothing");
}

#[test]
fn names_beyond_the_map_are_an_error() {
    let extra: Vec<String> = (0..6553).map(|i| format!("x-{i}: v")).collect();
    assert_eq!(parse_headers(&extra).unwrap().len(), 6554);
    let extra: Vec<String> = (0..40_000).map(|i| format!("x-{i}: v")).collect();
    let error = parse_headers(&extra).unwrap_err();
    assert_eq!(error.fault, HeaderFault::TooManyNames);
    assert_eq!(error.message(), format!("too many header names at '{}'", error.raw));
}
