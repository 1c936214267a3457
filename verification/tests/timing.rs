//! Elapsed time, held against the standard library.

use std::time::Duration;

use hls_probe::timing::{millis, millis_to_seconds, seconds};

fn nanos() -> Vec<u64> {
    let mut list = vec![0, 1, 499_999, 1_500_000, 58_500_000, 999_999_999, 1_000_000_000, u64::MAX];
    let mut state: u64 = 2;
    for _ in 0..20_000 {
        state = state.wrapping_mul(6364136223846793005).wrapping_add(1442695040888963407);
        list.push(state >> (state % 50));
    }
    list
}

#[test]
fn seconds_agree_with_durations() {
    for n in nanos() {
        let expected = Duration::from_nanos(n).as_secs_f64();
        assert_eq!(seconds(n).bits, expected.to_bits(), "{n}");
    }
}

#[test]
fn milliseconds_agree_with_durations() {
    for n in nanos() {
        let expected = Duration::from_nanos(n).as_secs_f64() * 1000.0;
        assert_eq!(millis(n).bits, expected.to_bits(), "{n}");
        let mut s = String::new();
        millis(n).push_text(&mut s, 0);
        assert_eq!(s, format!("{expected:.0}"));
    }
}

#[test]
fn seconds_of_milliseconds_agree() {
    for n in nanos() {
        for m in [n as i64, -((n >> 1) as i64)] {
            let expected = m as f64 / 1000.0;
            assert_eq!(millis_to_seconds(m).bits, expected.to_bits(), "{m}");
            let mut s = String::new();
            millis_to_seconds(m).push_text(&mut s, 1);
            assert_eq!(s, format!("{expected:.1}"));
        }
    }
}
