//! Points in time, and the arithmetic that the calendar library does on them.

use chrono::{DateTime, TimeDelta};
use vstd::prelude::*;

verus! {

/// A point in time: whole seconds since 1970-01-01T00:00:00Z and the
/// nanoseconds since the last whole second. During a leap second the
/// nanoseconds run on past one thousand million.
#[derive(Debug, Clone, Copy, PartialEq, Eq, Structural)]
pub struct Timestamp {
    pub secs: i64,
    pub nanos: u32,
}

/// An ordinary point in time, outside any leap second, in the years 0 to 9999.
pub open spec fn is_ordinary(t: Timestamp) -> bool {
    -62_167_219_200 <= t.secs <= 253_402_300_799 && t.nanos < 1_000_000_000
}

/// Nanoseconds since 1970 of an ordinary point in time.
pub open spec fn nanos_since_epoch(t: Timestamp) -> int {
    t.secs * 1_000_000_000 + t.nanos
}

/// `n` / `d`, rounded towards zero.
pub open spec fn toward_zero(n: int, d: int) -> int {
    if n < 0 {
        -((-n) / d)
    } else {
        n / d
    }
}

/// What chrono's `DateTime::signed_duration_since`, from the first point in time
/// to the second, comes to in whole milliseconds (`num_milliseconds`). `None`
/// where one of the two is no point in time to chrono.
pub uninterp spec fn chrono_elapsed_millis(
    from_secs: i64,
    from_nanos: u32,
    to_secs: i64,
    to_nanos: u32,
) -> Option<i64>;

/// What chrono's `DateTime::checked_add_signed` gives for a point in time and a
/// number of milliseconds: seconds and nanoseconds of the later point.
pub uninterp spec fn chrono_later(secs: i64, nanos: u32, millis: i64) -> Option<(i64, u32)>;

/// The milliseconds from `from` to `to`.
pub open spec fn elapsed(from: Timestamp, to: Timestamp) -> Option<i64> {
    chrono_elapsed_millis(from.secs, from.nanos, to.secs, to.nanos)
}

/// The point in time `millis` after `t`.
pub open spec fn later(t: Timestamp, millis: i64) -> Option<Timestamp> {
    match chrono_later(t.secs, t.nanos, millis) {
        Some(p) => Some(Timestamp { secs: p.0, nanos: p.1 }),
        None => None,
    }
}

/// Between ordinary points in time, the milliseconds are the distance on the line
/// of nanoseconds, rounded towards zero.
pub open spec fn elapsed_on_the_line(from: Timestamp, to: Timestamp) -> bool {
    is_ordinary(from) && is_ordinary(to) ==> elapsed(from, to) is Some && elapsed(from, to)->0
        == toward_zero(nanos_since_epoch(to) - nanos_since_epoch(from), 1_000_000)
}

/// `DateTime::signed_duration_since` between two points in time, in whole
/// milliseconds. Between ordinary points in time that is the distance on the
/// line of nanoseconds, rounded towards zero; for a leap second chrono has rules
/// of its own, which are not spelled out here.
#[verifier::external_body]
pub(crate) fn elapsed_millis(from: Timestamp, to: Timestamp) -> (r: Option<i64>)
    ensures
        r == chrono_elapsed_millis(from.secs, from.nanos, to.secs, to.nanos),
        is_ordinary(from) && is_ordinary(to) ==> r is Some && r->0 == toward_zero(
            nanos_since_epoch(to) - nanos_since_epoch(from),
            1_000_000,
        ),
{
    let from = DateTime::from_timestamp(from.secs, from.nanos)?;
    let to = DateTime::from_timestamp(to.secs, to.nanos)?;
    Some(to.signed_duration_since(from).num_milliseconds())
}

/// `DateTime::checked_add_signed` with a number of milliseconds. An ordinary
/// point in time moves along the line of nanoseconds as long as it stays
/// ordinary; for a leap second chrono has rules of its own, which are not
/// spelled out here.
#[verifier::external_body]
pub(crate) fn later_by(t: Timestamp, millis: i64) -> (r: Option<Timestamp>)
    ensures
        match r {
            Some(p) => chrono_later(t.secs, t.nanos, millis) == Some((p.secs, p.nanos)),
            None => chrono_later(t.secs, t.nanos, millis) is None,
        },
        is_ordinary(t) ==> forall|p: Timestamp|
            #![trigger is_ordinary(p)]
            is_ordinary(p) && nanos_since_epoch(p) == nanos_since_epoch(t) + millis * 1_000_000
                ==> r == Some(p),
{
    let start = DateTime::from_timestamp(t.secs, t.nanos)?;
    let end = start.checked_add_signed(TimeDelta::try_milliseconds(millis)?)?;
    Some(Timestamp { secs: end.timestamp(), nanos: end.timestamp_subsec_nanos() })
}

} // verus!
