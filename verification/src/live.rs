//! Live monitoring: how a playlist advances, and how far it lags real time.

use vstd::prelude::*;

use crate::clock;
use crate::clock::Timestamp;
use crate::double;
use crate::double::{Double, Float};
use crate::playlist;
use crate::playlist::{Media, MediaView, SegmentView};
use crate::single;
use crate::text;
use crate::text::push_decimal;
use crate::timing;

verus! {

// ---------------------------------------------------------------------------
// One refresh
// ---------------------------------------------------------------------------

/// The sequence number after the newest segment.
pub open spec fn edge_of(p: MediaView) -> int {
    p.media_sequence + p.segments.len()
}

/// How far the end of the newest segment lies behind a point in time.
pub enum Lag {
    /// No segment has a date.
    Undated,
    /// So many milliseconds.
    Millis(i64),
    /// A date is beyond what the calendar can express.
    OutOfRange,
}

/// The durations of the segments from `from` on, in parts of a millisecond.
pub open spec fn parts_from(segments: Seq<SegmentView>, from: int) -> int
    decreases segments.len() - from,
{
    if from < 0 || from >= segments.len() {
        0
    } else {
        parts_from(segments, from + 1) + single::pattern_parts(segments[from].duration_bits)
    }
}

/// The durations of the segments from `from` on, in milliseconds rounded towards
/// zero.
pub open spec fn millis_from(segments: Seq<SegmentView>, from: int) -> int {
    clock::toward_zero(parts_from(segments, from), single::PARTS_PER_MILLI as int)
}

/// The point in time so many milliseconds after `start`.
pub open spec fn end_after(start: Timestamp, millis: int) -> Option<Timestamp> {
    if i64::MIN <= millis <= i64::MAX {
        clock::later(start, millis as i64)
    } else {
        None
    }
}

/// How far the edge of a playlist lags `now`: from the end of the newest segment,
/// which is the date of the last dated segment and the durations of that and all
/// later segments on top.
pub open spec fn lag(p: MediaView, now: Timestamp) -> Lag {
    match playlist::last_dated(p.segments, p.segments.len()) {
        Some(i) => match end_after(
            p.segments[i as int].program_date_time->0,
            millis_from(p.segments, i as int),
        ) {
            Some(end) => match clock::elapsed(end, now) {
                Some(millis) => Lag::Millis(millis),
                None => Lag::OutOfRange,
            },
            None => Lag::OutOfRange,
        },
        None => Lag::Undated,
    }
}

/// For ordinary points in time the lag is the distance on the line of
/// nanoseconds from the end of the newest segment, in milliseconds rounded
/// towards zero.
pub open spec fn lag_on_the_line(p: MediaView, now: Timestamp, end: Timestamp) -> bool {
    match playlist::last_dated(p.segments, p.segments.len()) {
        Some(i) => {
            let start = p.segments[i as int].program_date_time->0;
            clock::is_ordinary(start) && clock::is_ordinary(end) && clock::is_ordinary(now)
                && clock::nanos_since_epoch(end) == clock::nanos_since_epoch(start) + millis_from(
                p.segments,
                i as int,
            ) * 1_000_000 ==> (lag(p, now) matches Lag::Millis(millis) && millis
                == clock::toward_zero(
                clock::nanos_since_epoch(now) - clock::nanos_since_epoch(end),
                1_000_000,
            ))
        },
        None => true,
    }
}

/// The sequence number after the newest segment, if it fits in `u64`.
pub fn edge_sequence(pl: &Media) -> (r: Option<u64>)
    ensures
        match r {
            Some(edge) => edge == edge_of(pl@),
            None => edge_of(pl@) > u64::MAX,
        },
{
    pl.media_sequence.checked_add(pl.segments.len() as u64)
}

/// Splits a number of parts that is within the milliseconds of `i64` into whole
/// milliseconds, rounded down, and the parts on top.
fn split(parts: i128) -> (r: (i64, u64))
    requires
        -0x8000_0000_0000_0000_0000_0000 <= parts <= 0x7fff_ffff_ffff_ffff_0000_0000,
    ensures
        parts == r.0 * 0x1_0000_0000 + r.1,
        r.1 < 0x1_0000_0000,
{
    let above: u128 = (parts + 0x8000_0000_0000_0000_0000_0000) as u128;
    let whole: i128 = (above / single::PARTS_PER_MILLI) as i128 - 0x8000_0000_0000_0000;
    (whole as i64, (above % single::PARTS_PER_MILLI) as u64)
}

/// Whole milliseconds in milliseconds and parts, rounded towards zero.
fn whole_millis(millis: i128, parts: u128) -> (r: i128)
    requires
        parts <= i128::MAX,
        i128::MIN <= millis,
        millis + parts / 0x1_0000_0000 <= i128::MAX,
    ensures
        r == clock::toward_zero(
            millis * 0x1_0000_0000 + parts,
            single::PARTS_PER_MILLI as int,
        ),
{
    let down: i128 = millis + (parts / single::PARTS_PER_MILLI) as i128;
    if down < 0 && parts % single::PARTS_PER_MILLI > 0 {
        down + 1
    } else {
        down
    }
}

/// How far the edge of a playlist lags `now`.
pub fn edge_lag(pl: &Media, now: Timestamp) -> (r: Lag)
    ensures
        r == lag(pl@, now),
        forall|end: Timestamp| #[trigger] lag_on_the_line(pl@, now, end),
{
    let ghost segments = pl@.segments;
    let mut whole: i128 = 0;
    let mut parts: u128 = 0;
    let mut i: usize = pl.segments.len();
    while i > 0
        invariant
            i <= pl.segments.len() <= u64::MAX,
            segments == pl@.segments,
            playlist::last_dated(segments, segments.len()) == playlist::last_dated(
                segments,
                i as nat,
            ),
            whole * 0x1_0000_0000 + parts == parts_from(segments, i as int),
            -(pl.segments.len() - i) * 0x8000_0000_0000_0000 <= whole,
            whole <= (pl.segments.len() - i) * 0x7fff_ffff_ffff_ffff,
            parts <= (pl.segments.len() - i) * 0xffff_ffff,
        decreases i,
    {
        i = i - 1;
        assert(segments[i as int] == pl.segments[i as int]@);
        let s = &pl.segments[i];
        let (more, rest) = split(single::milli_parts(s.duration_bits));
        whole = whole + more as i128;
        parts = parts + rest as u128;
        if let Some(start) = s.program_date_time {
            let millis: i128 = whole_millis(whole, parts);
            let later = if i64::MIN as i128 <= millis && millis <= i64::MAX as i128 {
                clock::later_by(start, millis as i64)
            } else {
                None
            };
            let elapsed = match later {
                Some(end) => clock::elapsed_millis(end, now),
                None => None,
            };
            assert forall|end: Timestamp| #[trigger] lag_on_the_line(pl@, now, end) by {
                if clock::is_ordinary(start) && clock::is_ordinary(end)
                    && clock::nanos_since_epoch(end) == clock::nanos_since_epoch(start) + millis
                    * 1_000_000 {
                    assert(later == Some(end));
                }
            }
            return match elapsed {
                Some(millis) => Lag::Millis(millis),
                None => Lag::OutOfRange,
            };
        }
    }
    Lag::Undated
}

/// Parses refresh `round`, counted from 0; an error is a message for the user.
pub fn parse_refresh(bytes: &[u8], round: u32) -> (r: Result<Media, String>)
    ensures
        playlist::media_view(r) == playlist::media_expected(
            playlist::parsed(bytes@),
            "--live needs a media playlist"@,
            "refresh "@ + text::decimal(round as nat) + ": playlist no longer parses: "@,
        ),
{
    let mut on_error = "refresh ".to_owned();
    push_decimal(&mut on_error, round as u128);
    on_error.append(": playlist no longer parses: ");
    playlist::expect_media(
        playlist::parse_playlist(bytes),
        "--live needs a media playlist",
        on_error.as_str(),
    )
}

/// Half the target duration, at least one second: whole seconds, and whether
/// another half comes on top.
pub open spec fn is_half_target(target: u64, pause: (u64, bool)) -> bool {
    2 * pause.0 + (if pause.1 {
        1int
    } else {
        0
    }) == if target < 2 {
        2
    } else {
        target as int
    }
}

/// How long to wait before the next refresh: half the target duration, the
/// reload interval RFC 8216 suggests for clients that have not yet seen a
/// change, but at least one second. Whole seconds, and whether another half
/// comes on top.
pub fn refresh_pause(target: u64) -> (r: (u64, bool))
    ensures
        is_half_target(target, r),
{
    if target < 2 {
        (1, false)
    } else {
        (target / 2, target % 2 == 1)
    }
}

// ---------------------------------------------------------------------------
// Many refreshes
// ---------------------------------------------------------------------------

/// Where a playlist stands: the sequence number after its newest segment, and how
/// many segments it lists.
#[derive(Debug, Clone, Copy, PartialEq, Eq, Structural)]
pub struct Position {
    pub edge: u64,
    pub segments: usize,
}

/// The edges of a list of positions.
pub open spec fn edges(positions: Seq<Position>) -> Seq<u64> {
    Seq::new(positions.len(), |i: int| positions[i].edge)
}

/// How many refreshes there were since the playlist last moved.
pub open spec fn stale_run(positions: Seq<Position>) -> nat
    decreases positions.len(),
{
    if positions.len() < 2 || positions.last() != positions[positions.len() - 2] {
        0
    } else {
        stale_run(positions.drop_last()) + 1
    }
}

/// How many segments were published between the first refresh and the last.
pub open spec fn published(edges: Seq<u64>) -> nat
    decreases edges.len(),
{
    if edges.len() < 2 {
        0
    } else {
        let before = edges[edges.len() - 2];
        let advance = if edges.last() > before {
            (edges.last() - before) as nat
        } else {
            0
        };
        published(edges.drop_last()) + advance
    }
}

/// What a monitor has seen: where the playlist stood at each refresh, and each
/// lag, in milliseconds.
#[verifier::ext_equal]
pub struct Seen {
    pub positions: Seq<Position>,
    pub lags: Seq<i64>,
}

/// A live playlist under observation.
///
/// A refresh is "stale" when the media sequence and segment count did not move at
/// all; a healthy origin should never be stale for more than two consecutive
/// polls. When EXT-X-PROGRAM-DATE-TIME is present, the distance between now and
/// the end of the newest segment estimates how far the playlist edge lags real
/// time.
pub struct Monitor {
    wanted: u32,
    refreshes: u32,
    last: Position,
    stale: u32,
    new_segments: u128,
    lags: Vec<i64>,
    positions: Ghost<Seq<Position>>,
}

impl View for Monitor {
    type V = Seen;

    closed spec fn view(&self) -> Seen {
        Seen { positions: self.positions@, lags: self.lags@ }
    }
}

/// Why a refresh cannot be taken into account.
#[derive(Debug, Clone, Copy, PartialEq, Eq, Structural)]
pub enum LiveError {
    /// The playlist is complete.
    EndList,
    /// A sequence number is beyond `u64`.
    SequenceOverflow,
    /// A date is beyond what the calendar can express.
    DateOutOfRange,
}

/// The message for an error.
pub open spec fn live_message(e: LiveError) -> Seq<char> {
    match e {
        LiveError::EndList => "playlist has EXT-X-ENDLIST: not a live stream"@,
        LiveError::SequenceOverflow => "media sequence number out of range"@,
        LiveError::DateOutOfRange => "program date out of range"@,
    }
}

impl LiveError {
    /// The message for the user.
    pub fn message(self) -> (r: &'static str)
        ensures
            r@ == live_message(self),
    {
        match self {
            LiveError::EndList => "playlist has EXT-X-ENDLIST: not a live stream",
            LiveError::SequenceOverflow => "media sequence number out of range",
            LiveError::DateOutOfRange => "program date out of range",
        }
    }
}

/// What one refresh showed.
#[derive(Debug, Clone, Copy, PartialEq, Eq, Structural)]
pub struct Refresh {
    pub edge: u64,
    pub segments: usize,
    /// How far the edge lags, in milliseconds.
    pub lag: Option<i64>,
}

/// What a refresh at `now` shows.
pub open spec fn refresh_of(p: MediaView, now: Timestamp) -> Result<Refresh, LiveError> {
    if p.end_list {
        Err(LiveError::EndList)
    } else if edge_of(p) > u64::MAX {
        Err(LiveError::SequenceOverflow)
    } else {
        let edge = edge_of(p) as u64;
        let segments = p.segments.len() as usize;
        match lag(p, now) {
            Lag::Undated => Ok(Refresh { edge, segments, lag: None }),
            Lag::Millis(millis) => Ok(Refresh { edge, segments, lag: Some(millis) }),
            Lag::OutOfRange => Err(LiveError::DateOutOfRange),
        }
    }
}

/// Where the playlist stood at a refresh.
pub open spec fn position_of(refresh: Refresh) -> Position {
    Position { edge: refresh.edge, segments: refresh.segments }
}

/// What one refresh adds to what was seen.
pub open spec fn after_refresh(seen: Seen, refresh: Refresh) -> Seen {
    Seen {
        positions: seen.positions.push(position_of(refresh)),
        lags: match refresh.lag {
            Some(millis) => seen.lags.push(millis),
            None => seen.lags,
        },
    }
}

/// The line that reports a refresh, counted from 1.
pub open spec fn refresh_line(refresh: Refresh, number: u32, wanted: u32) -> Seq<char> {
    "refresh "@ + text::right(text::decimal(number as nat), 2) + "/"@ + text::decimal(wanted as nat)
        + ": edge seq "@ + text::decimal(refresh.edge as nat) + ", "@ + text::decimal(
        refresh.segments as nat,
    ) + " segments, "@ + lag_text(refresh.lag)
}

/// A lag, in seconds with one decimal.
pub open spec fn lag_text(lag: Option<i64>) -> Seq<char> {
    match lag {
        Some(millis) => "edge lag "@ + double::text_of(timing::seconds_of_millis(millis), 1)
            + "s"@,
        None => "no PDT"@,
    }
}

/// What a refresh at `now` shows.
pub fn read_refresh(pl: &Media, now: Timestamp) -> (r: Result<Refresh, LiveError>)
    ensures
        r == refresh_of(pl@, now),
        !pl.end_list && edge_of(pl@) <= u64::MAX ==> forall|end: Timestamp| #[trigger]
            lag_on_the_line(pl@, now, end),
{
    if pl.end_list {
        return Err(LiveError::EndList);
    }
    let edge: u64 = match edge_sequence(pl) {
        Some(edge) => edge,
        None => return Err(LiveError::SequenceOverflow),
    };
    let lag = match edge_lag(pl, now) {
        Lag::Undated => None,
        Lag::Millis(millis) => Some(millis),
        Lag::OutOfRange => return Err(LiveError::DateOutOfRange),
    };
    Ok(Refresh { edge, segments: pl.segments.len(), lag })
}

impl Refresh {
    /// The line that reports the refresh, counted from 1.
    pub fn line(self, number: u32, wanted: u32) -> (r: String)
        ensures
            r@ == refresh_line(self, number, wanted),
    {
        let mut s = "refresh ".to_owned();
        text::push_right_decimal(&mut s, number as u128, 2);
        s.append("/");
        push_decimal(&mut s, wanted as u128);
        s.append(": edge seq ");
        push_decimal(&mut s, self.edge as u128);
        s.append(", ");
        push_decimal(&mut s, self.segments as u128);
        s.append(" segments, ");
        match self.lag {
            Some(millis) => {
                let ghost before = s@;
                s.append("edge lag ");
                timing::millis_to_seconds(millis).push_text(&mut s, 1);
                s.append("s");
                assert(s@ =~= before + lag_text(self.lag));
            },
            None => {
                s.append("no PDT");
            },
        }
        s
    }
}

/// The first `n` lags added up in order, in seconds.
pub open spec fn lag_sum(lags: Seq<i64>, n: nat) -> Float
    decreases n,
{
    if n == 0 {
        double::zero()
    } else {
        double::sum(lag_sum(lags, (n - 1) as nat), timing::seconds_of_millis(lags[n - 1]))
    }
}

/// The average lag in seconds.
pub open spec fn average_lag(lags: Seq<i64>) -> Float {
    double::quotient(lag_sum(lags, lags.len()), double::of_int(lags.len() as int))
}

/// The smallest of the first `n` lags, in seconds.
pub open spec fn smallest_lag(lags: Seq<i64>, n: nat) -> Float
    decreases n,
{
    if n <= 1 {
        timing::seconds_of_millis(lags[0])
    } else {
        double::lesser_of(
            smallest_lag(lags, (n - 1) as nat),
            timing::seconds_of_millis(lags[n - 1]),
        )
    }
}

/// The greatest of the first `n` lags, in seconds.
pub open spec fn greatest_lag(lags: Seq<i64>, n: nat) -> Float
    decreases n,
{
    if n <= 1 {
        timing::seconds_of_millis(lags[0])
    } else {
        double::greater_of(
            greatest_lag(lags, (n - 1) as nat),
            timing::seconds_of_millis(lags[n - 1]),
        )
    }
}

/// How a live playlist behaved.
#[derive(Debug, Clone, Copy, PartialEq, Eq, Structural)]
pub struct LiveStats {
    pub refreshes: u32,
    pub stale_refreshes: u32,
    pub new_segments: u128,
    pub observed_seconds: Double,
    pub avg_latency: Option<Double>,
    pub min_latency: Option<Double>,
    pub max_latency: Option<Double>,
}

/// `t` holds this number where there are lags, and nothing where there are none.
pub open spec fn holds(t: Option<Double>, lags: Seq<i64>, value: Float) -> bool {
    match t {
        Some(d) => lags.len() > 0 && d@ == value,
        None => lags.len() == 0,
    }
}

impl Monitor {
    /// How many refreshes are wanted.
    pub closed spec fn wanted(&self) -> u32 {
        self.wanted
    }

    /// The counters tell what was seen.
    pub closed spec fn wf(&self) -> bool {
        let positions = self.positions@;
        &&& positions.len() == self.refreshes <= self.wanted
        &&& positions.len() > 0 ==> positions.last() == self.last
        &&& self.stale == stale_run(positions)
        &&& self.stale <= self.refreshes
        &&& self.new_segments == published(edges(positions))
        &&& self.new_segments <= self.refreshes * u64::MAX
        &&& self.lags@.len() <= self.refreshes
    }

    /// Starts to observe `refreshes` refreshes.
    pub fn new(refreshes: u32) -> (r: Monitor)
        ensures
            r.wf(),
            r.wanted() == refreshes,
            r@ == (Seen { positions: Seq::empty(), lags: Seq::empty() }),
    {
        let r = Monitor {
            wanted: refreshes,
            refreshes: 0,
            last: Position { edge: 0, segments: 0 },
            stale: 0,
            new_segments: 0,
            lags: Vec::new(),
            positions: Ghost(Seq::empty()),
        };
        assert(r@ =~= (Seen { positions: Seq::empty(), lags: Seq::empty() }));
        r
    }

    /// Is another refresh wanted?
    pub fn wants_more(&self) -> (r: bool)
        requires
            self.wf(),
        ensures
            r == (self@.positions.len() < self.wanted()),
    {
        self.refreshes < self.wanted
    }

    /// How many refreshes there were.
    pub fn round(&self) -> (r: u32)
        requires
            self.wf(),
        ensures
            r == self@.positions.len(),
    {
        self.refreshes
    }

    /// Takes one more refresh into account.
    pub fn record(&mut self, refresh: Refresh)
        requires
            old(self).wf(),
            old(self)@.positions.len() < old(self).wanted(),
        ensures
            final(self).wf(),
            final(self).wanted() == old(self).wanted(),
            final(self)@ == after_refresh(old(self)@, refresh),
    {
        let position = Position { edge: refresh.edge, segments: refresh.segments };
        let ghost before = self.positions@;
        let ghost after = before.push(position);
        proof {
            assert(after.drop_last() =~= before);
            assert(edges(after).drop_last() =~= edges(before));
            assert(self.refreshes * u64::MAX + u64::MAX == (self.refreshes + 1) * u64::MAX)
                by (nonlinear_arith);
            assert((self.refreshes + 1) * u64::MAX <= u128::MAX) by (nonlinear_arith)
                requires
                    self.refreshes + 1 <= u32::MAX,
            ;
        }
        if self.refreshes > 0 {
            if position.edge > self.last.edge {
                self.new_segments = self.new_segments + (position.edge - self.last.edge) as u128;
            }
            if position == self.last {
                self.stale = self.stale + 1;
            } else {
                self.stale = 0;
            }
        }
        self.last = position;
        self.refreshes = self.refreshes + 1;
        if let Some(millis) = refresh.lag {
            self.lags.push(millis);
        }
        self.positions = Ghost(after);
        assert(self@ =~= after_refresh(old(self)@, refresh));
    }

    /// Takes a playlist fetched at `now` into account.
    pub fn observe(&mut self, pl: &Media, now: Timestamp) -> (r: Result<Refresh, LiveError>)
        requires
            old(self).wf(),
            old(self)@.positions.len() < old(self).wanted(),
        ensures
            final(self).wf(),
            final(self).wanted() == old(self).wanted(),
            r == refresh_of(pl@, now),
            !pl.end_list && edge_of(pl@) <= u64::MAX ==> forall|end: Timestamp| #[trigger]
                lag_on_the_line(pl@, now, end),
            match r {
                Ok(refresh) => final(self)@ == after_refresh(old(self)@, refresh),
                Err(_) => *final(self) == *old(self),
            },
    {
        match read_refresh(pl, now) {
            Ok(refresh) => {
                self.record(refresh);
                Ok(refresh)
            },
            Err(e) => Err(e),
        }
    }

    /// Sums up what was seen in so many nanoseconds.
    pub fn finish(&self, observed_nanos: u64) -> (r: LiveStats)
        requires
            self.wf(),
        ensures
            r.refreshes == self.wanted(),
            r.stale_refreshes == stale_run(self@.positions),
            r.new_segments == published(edges(self@.positions)),
            r.observed_seconds@ == timing::seconds_of(observed_nanos),
            holds(r.avg_latency, self@.lags, average_lag(self@.lags)),
            holds(r.min_latency, self@.lags, smallest_lag(self@.lags, self@.lags.len())),
            holds(r.max_latency, self@.lags, greatest_lag(self@.lags, self@.lags.len())),
    {
        let mut stats = LiveStats {
            refreshes: self.wanted,
            stale_refreshes: self.stale,
            new_segments: self.new_segments,
            observed_seconds: timing::seconds(observed_nanos),
            avg_latency: None,
            min_latency: None,
            max_latency: None,
        };
        if self.lags.len() == 0 {
            return stats;
        }
        let first = timing::millis_to_seconds(self.lags[0]);
        let mut sum = Double::zero(false).plus(first);
        let mut smallest = first;
        let mut greatest = first;
        let mut i: usize = 1;
        assert(lag_sum(self.lags@, 0) == double::zero());
        while i < self.lags.len()
            invariant
                1 <= i <= self.lags.len(),
                sum@ == lag_sum(self.lags@, i as nat),
                smallest@ == smallest_lag(self.lags@, i as nat),
                greatest@ == greatest_lag(self.lags@, i as nat),
            decreases self.lags.len() - i,
        {
            let lag = timing::millis_to_seconds(self.lags[i]);
            sum = sum.plus(lag);
            smallest = smallest.min(lag);
            greatest = greatest.max(lag);
            i = i + 1;
        }
        stats.avg_latency = Some(sum.over(Double::from_u64(self.lags.len() as u64)));
        stats.min_latency = Some(smallest);
        stats.max_latency = Some(greatest);
        stats
    }
}

/// A playlist stands where it stood exactly if neither its media sequence nor its
/// segment count has moved.
pub proof fn unmoved_playlist_keeps_sequence_and_count(p: MediaView, q: MediaView)
    requires
        edge_of(p) <= u64::MAX,
        edge_of(q) <= u64::MAX,
        p.segments.len() <= usize::MAX,
        q.segments.len() <= usize::MAX,
    ensures
        (Position { edge: edge_of(p) as u64, segments: p.segments.len() as usize }) == (Position {
            edge: edge_of(q) as u64,
            segments: q.segments.len() as usize,
        }) <==> p.media_sequence == q.media_sequence && p.segments.len() == q.segments.len(),
{
}

/// After each refresh, the refreshes since the playlist last moved: none if it
/// just has, or at the first one; else one more than before.
pub proof fn movement_resets_staleness(positions: Seq<Position>, position: Position)
    ensures
        stale_run(positions.push(position)) == if positions.len() == 0 || position
            != positions.last() {
            0
        } else {
            stale_run(positions) + 1
        },
{
    assert(positions.push(position).drop_last() =~= positions);
}

/// Progress ends a stale run.
pub proof fn progress_resets_staleness(positions: Seq<Position>, position: Position)
    requires
        positions.len() > 0,
        position.edge > positions.last().edge,
    ensures
        stale_run(positions.push(position)) == 0,
        published(edges(positions.push(position))) == published(edges(positions)) + (position.edge
            - positions.last().edge),
{
    assert(edges(positions.push(position)).drop_last() =~= edges(positions));
}

/// A stale run of `k` refreshes means just that: over the last `k` of them the
/// playlist did not move, and before that it did, or nothing was seen.
pub proof fn stale_run_is_a_run(positions: Seq<Position>)
    ensures
        positions.len() > 0 ==> stale_run(positions) < positions.len(),
        forall|i: int|
            positions.len() - stale_run(positions) <= i < positions.len() ==> 1 <= i && (
            #[trigger] positions[i]) == positions[i - 1],
        ({
            let first = positions.len() - stale_run(positions) - 1;
            first > 0 ==> positions[first] != positions[first - 1]
        }),
    decreases positions.len(),
{
    if positions.len() >= 2 && positions.last() == positions[positions.len() - 2] {
        let before = positions.drop_last();
        stale_run_is_a_run(before);
        assert forall|i: int|
            positions.len() - stale_run(positions) <= i < positions.len() implies 1 <= i && (
        #[trigger] positions[i]) == positions[i - 1] by {
            if i < before.len() {
                assert(before[i] == positions[i]);
            }
        }
    }
}

/// While the edge never moves back, the segments published are those between
/// the first edge and the last.
pub proof fn steady_edge_counts_all(edges: Seq<u64>)
    requires
        edges.len() > 0,
        forall|i: int, j: int| 0 <= i <= j < edges.len() ==> edges[i] <= edges[j],
    ensures
        published(edges) == edges.last() - edges.first(),
    decreases edges.len(),
{
    if edges.len() >= 2 {
        let before = edges.drop_last();
        assert forall|i: int, j: int| 0 <= i <= j < before.len() implies before[i] <= before[j] by {
            assert(before[i] == edges[i] && before[j] == edges[j]);
        }
        steady_edge_counts_all(before);
        assert(edges[edges.len() - 2] <= edges[edges.len() - 1]);
    }
}

/// No segment is published while the edge does not move on.
pub proof fn still_edge_counts_none(edges: Seq<u64>)
    requires
        forall|i: int| 1 <= i < edges.len() ==> (#[trigger] edges[i]) <= edges[i - 1],
    ensures
        published(edges) == 0,
    decreases edges.len(),
{
    if edges.len() >= 2 {
        let before = edges.drop_last();
        assert forall|i: int| 1 <= i < before.len() implies (#[trigger] before[i]) <= before[i
            - 1] by {
            assert(edges[i] <= edges[i - 1]);
        }
        still_edge_counts_none(before);
        assert(edges[edges.len() - 1] <= edges[edges.len() - 2]);
    }
}

/// While the playlist does not move, every refresh after the first is stale, and
/// no segment is published.
pub proof fn still_playlist_is_stale(positions: Seq<Position>)
    requires
        positions.len() > 0,
        forall|i: int| 1 <= i < positions.len() ==> (#[trigger] positions[i]) == positions[i - 1],
    ensures
        stale_run(positions) == positions.len() - 1,
        published(edges(positions)) == 0,
    decreases positions.len(),
{
    let line = edges(positions);
    assert forall|i: int| 1 <= i < line.len() implies (#[trigger] line[i]) <= line[i - 1] by {
        assert(positions[i] == positions[i - 1]);
    }
    still_edge_counts_none(line);
    if positions.len() >= 2 {
        let before = positions.drop_last();
        assert forall|i: int| 1 <= i < before.len() implies (#[trigger] before[i]) == before[i
            - 1] by {
            assert(positions[i] == positions[i - 1]);
        }
        still_playlist_is_stale(before);
        assert(positions[positions.len() - 1] == positions[positions.len() - 2]);
    }
}

/// No lag is below the smallest one or above the greatest one, and both are lags.
pub proof fn extremes_bound_the_lags(lags: Seq<i64>, n: nat)
    requires
        1 <= n <= lags.len(),
    ensures
        smallest_lag(lags, n) !is Nan,
        greatest_lag(lags, n) !is Nan,
        forall|i: int|
            0 <= i < n ==> !double::less(
                timing::seconds_of_millis(#[trigger] lags[i]),
                smallest_lag(lags, n),
            ) && !double::less(greatest_lag(lags, n), timing::seconds_of_millis(lags[i])),
        exists|i: int|
            0 <= i < n && smallest_lag(lags, n) == timing::seconds_of_millis(#[trigger] lags[i]),
        exists|i: int|
            0 <= i < n && greatest_lag(lags, n) == timing::seconds_of_millis(#[trigger] lags[i]),
    decreases n,
{
    timing::millis_are_numbers(lags[n - 1]);
    if n > 1 {
        extremes_bound_the_lags(lags, (n - 1) as nat);
    }
}

/// What was seen after these refreshes, the first one first.
pub open spec fn seen_after(refreshes: Seq<Refresh>) -> Seen {
    refreshes.fold_left(
        (Seen { positions: Seq::empty(), lags: Seq::empty() }),
        |seen: Seen, refresh: Refresh| after_refresh(seen, refresh),
    )
}

/// One more refresh adds its position and its lag, if it has one, whether the
/// playlist has moved or not; nothing that was seen before is dropped.
pub proof fn one_more_refresh_adds_its_lag(seen: Seen, refresh: Refresh)
    ensures
        ({
            let after = after_refresh(seen, refresh);
            &&& after.positions.len() == seen.positions.len() + 1
            &&& after.positions.drop_last() == seen.positions
            &&& after.positions.last().edge == refresh.edge
            &&& after.positions.last().segments == refresh.segments
            &&& refresh.lag is None ==> after.lags == seen.lags
            &&& refresh.lag matches Some(millis) ==> {
                &&& after.lags.len() == seen.lags.len() + 1
                &&& after.lags.drop_last() == seen.lags
                &&& after.lags.last() == millis
            }
        }),
{
    let after = after_refresh(seen, refresh);
    assert(after.positions.drop_last() =~= seen.positions);
    if refresh.lag is Some {
        assert(after.lags.drop_last() =~= seen.lags);
    }
}

/// After any refreshes, the lags that count are those of all refreshes that have
/// one, in order, and every refresh has left its position.
pub proof fn every_lag_counts(refreshes: Seq<Refresh>)
    ensures
        seen_after(refreshes).positions == refreshes.map_values(
            |r: Refresh| Position { edge: r.edge, segments: r.segments },
        ),
        seen_after(refreshes).lags == refreshes.filter(|r: Refresh| r.lag is Some).map_values(
            |r: Refresh| r.lag->0,
        ),
    decreases refreshes.len(),
{
    reveal(Seq::filter);
    if refreshes.len() > 0 {
        every_lag_counts(refreshes.drop_last());
        one_more_refresh_adds_its_lag(seen_after(refreshes.drop_last()), refreshes.last());
    }
    assert(seen_after(refreshes).positions =~= refreshes.map_values(
        |r: Refresh| Position { edge: r.edge, segments: r.segments },
    ));
    assert(seen_after(refreshes).lags =~= refreshes.filter(
        |r: Refresh| r.lag is Some,
    ).map_values(|r: Refresh| r.lag->0));
}

/// No refresh has a lag below the smallest one or above the greatest one.
pub proof fn no_refresh_is_beyond_the_extremes(refreshes: Seq<Refresh>, i: int)
    requires
        0 <= i < refreshes.len(),
        refreshes[i].lag is Some,
    ensures
        ({
            let lags = seen_after(refreshes).lags;
            let lag = double::quotient(
                double::of_int(refreshes[i].lag->0 as int),
                double::of_int(1000),
            );
            &&& lags.len() > 0
            &&& !double::less(greatest_lag(lags, lags.len()), lag)
            &&& !double::less(lag, smallest_lag(lags, lags.len()))
        }),
{
    let dated = refreshes.filter(|r: Refresh| r.lag is Some);
    let lags = seen_after(refreshes).lags;
    every_lag_counts(refreshes);
    refreshes.lemma_filter_contains(|r: Refresh| r.lag is Some, i);
    let k = choose|k: int| 0 <= k < dated.len() && dated[k] == refreshes[i];
    assert(lags[k] == refreshes[i].lag->0);
    extremes_bound_the_lags(lags, lags.len());
}

/// The average lag is the sum of all lags in seconds, added up in order, over
/// their number.
pub proof fn average_lag_is_sum_over_count(lags: Seq<i64>)
    ensures
        average_lag(lags) == double::quotient(
            lags.fold_left(
                double::zero(),
                |t: Float, millis: i64|
                    double::sum(
                        t,
                        double::quotient(double::of_int(millis as int), double::of_int(1000)),
                    ),
            ),
            double::of_int(lags.len() as int),
        ),
{
    lemma_lag_sum(lags, lags.len());
    assert(lags.take(lags.len() as int) =~= lags);
}

proof fn lemma_lag_sum(lags: Seq<i64>, n: nat)
    requires
        n <= lags.len(),
    ensures
        lag_sum(lags, n) == lags.take(n as int).fold_left(
            double::zero(),
            |t: Float, millis: i64|
                double::sum(
                    t,
                    double::quotient(double::of_int(millis as int), double::of_int(1000)),
                ),
        ),
    decreases n,
{
    if n > 0 {
        lemma_lag_sum(lags, (n - 1) as nat);
        assert(lags.take(n as int).drop_last() =~= lags.take(n - 1));
    }
}

/// A refresh publishes as many segments as the edge has moved on, and none if it
/// has moved back or not at all; the first one publishes none.
pub proof fn each_advance_counts(edges: Seq<u64>, edge: u64)
    ensures
        edges.len() == 0 ==> published(edges.push(edge)) == 0,
        edges.len() > 0 && edge > edges.last() ==> published(edges.push(edge)) == published(edges)
            + (edge - edges.last()),
        edges.len() > 0 && edge <= edges.last() ==> published(edges.push(edge)) == published(edges),
{
    assert(edges.push(edge).drop_last() =~= edges);
}

/// The edge that a refresh reports is the media sequence plus the number of
/// segments, it has a lag exactly if a segment has a date, and it fails exactly
/// for a complete playlist, an edge beyond `u64` or a date beyond the calendar.
pub proof fn refresh_is_read_off_the_playlist(p: MediaView, now: Timestamp)
    requires
        p.segments.len() <= usize::MAX,
    ensures
        refresh_of(p, now) == Err::<Refresh, LiveError>(LiveError::EndList) <==> p.end_list,
        refresh_of(p, now) == Err::<Refresh, LiveError>(LiveError::SequenceOverflow)
            <==> !p.end_list && p.media_sequence + p.segments.len() > u64::MAX,
        refresh_of(p, now) == Err::<Refresh, LiveError>(LiveError::DateOutOfRange)
            <==> !p.end_list && p.media_sequence + p.segments.len() <= u64::MAX && lag(p, now)
            is OutOfRange,
        refresh_of(p, now) matches Ok(r) ==> {
            &&& r.edge == p.media_sequence + p.segments.len()
            &&& r.segments == p.segments.len()
            &&& r.lag is Some <==> exists|k: int|
                0 <= k < p.segments.len() && (#[trigger] p.segments[k]).program_date_time is Some
            &&& r.lag matches Some(millis) ==> lag(p, now) == Lag::Millis(millis)
        },
{
    playlist::dated_segments_are_outermost(p.segments, p.segments.len());
}

/// The lag is taken from the last segment that has a date, plus the durations of
/// that one and of every segment after it, in milliseconds rounded towards zero
/// once. There is none exactly if no segment has a date.
pub proof fn lag_goes_by_the_last_date(p: MediaView, now: Timestamp, i: int)
    requires
        0 <= i < p.segments.len(),
        p.segments[i].program_date_time is Some,
        forall|k: int|
            i < k < p.segments.len() ==> (#[trigger] p.segments[k]).program_date_time is None,
    ensures
        ({
            let parts = p.segments.skip(i).fold_left(
                0int,
                |t: int, s: SegmentView| t + single::pattern_parts(s.duration_bits),
            );
            let millis = if parts < 0 {
                -((-parts) / 0x1_0000_0000)
            } else {
                parts / 0x1_0000_0000
            };
            let end = if i64::MIN <= millis <= i64::MAX {
                clock::later(p.segments[i].program_date_time->0, millis as i64)
            } else {
                None
            };
            lag(p, now) == match end {
                Some(end) => match clock::elapsed(end, now) {
                    Some(millis) => Lag::Millis(millis),
                    None => Lag::OutOfRange,
                },
                None => Lag::OutOfRange,
            }
        }),
{
    let segments = p.segments;
    playlist::dated_segments_are_outermost(segments, segments.len());
    assert(playlist::last_dated(segments, segments.len()) == Some(i as nat)) by {
        let k = playlist::last_dated(segments, segments.len())->0;
        assert(segments[i].program_date_time is Some);
        assert(segments[k as int].program_date_time is Some);
    }
    lemma_parts(segments, i, 0);
    segments.skip(i).lemma_fold_left_alt(
        0int,
        |t: int, s: SegmentView| t + single::pattern_parts(s.duration_bits),
    );
}

/// A playlist without dates has no lag.
pub proof fn undated_playlist_has_no_lag(p: MediaView, now: Timestamp)
    ensures
        lag(p, now) is Undated <==> forall|k: int|
            0 <= k < p.segments.len() ==> (#[trigger] p.segments[k]).program_date_time is None,
{
    playlist::dated_segments_are_outermost(p.segments, p.segments.len());
}

proof fn lemma_parts(segments: Seq<SegmentView>, from: int, sum: int)
    requires
        0 <= from <= segments.len(),
    ensures
        segments.skip(from).fold_left_alt(
            sum,
            |t: int, s: SegmentView| t + single::pattern_parts(s.duration_bits),
        ) == sum + parts_from(segments, from),
    decreases segments.len() - from,
{
    if from < segments.len() {
        let rest = segments.skip(from);
        assert(rest[0] == segments[from]);
        assert(rest.subrange(1, rest.len() as int) =~= segments.skip(from + 1));
        lemma_parts(
            segments,
            from + 1,
            sum + single::pattern_parts(segments[from].duration_bits),
        );
    }
}

/// The pause between refreshes is half the target duration, and a whole second
/// for targets of two seconds or less.
pub proof fn pause_is_half_the_target(target: u64, pause: (u64, bool))
    requires
        is_half_target(target, pause),
    ensures
        target <= 2 ==> pause == (1u64, false),
        target >= 2 ==> pause.0 == target / 2 && pause.1 == (target % 2 == 1),
{
}

/// The line on a refresh shows its number, the edge and the segments, and ends with
/// the lag in seconds with its sign, or with the mark that there is none.
pub proof fn refresh_line_ends_with_the_lag(refresh: Refresh, number: u32, wanted: u32)
    ensures
        ({
            let head = "refresh "@ + text::right(text::decimal(number as nat), 2) + "/"@
                + text::decimal(wanted as nat) + ": edge seq "@ + text::decimal(
                refresh.edge as nat,
            ) + ", "@ + text::decimal(refresh.segments as nat) + " segments, "@;
            &&& refresh.lag is None ==> refresh_line(refresh, number, wanted) == head + "no PDT"@
            &&& refresh.lag matches Some(millis) ==> refresh_line(refresh, number, wanted) == head
                + "edge lag "@ + double::text_of(
                double::quotient(double::of_int(millis as int), double::of_int(1000)),
                1,
            ) + "s"@
        }),
{
    if refresh.lag is Some {
        let head = "refresh "@ + text::right(text::decimal(number as nat), 2) + "/"@
            + text::decimal(wanted as nat) + ": edge seq "@ + text::decimal(refresh.edge as nat)
            + ", "@ + text::decimal(refresh.segments as nat) + " segments, "@;
        let lag = double::text_of(timing::seconds_of_millis(refresh.lag->0), 1);
        assert(head + ("edge lag "@ + lag + "s"@) =~= head + "edge lag "@ + lag + "s"@);
    }
}

/// A number on the lag is there exactly if some refresh had one, be it a single one.
pub proof fn one_lag_is_enough(t: Option<Double>, refreshes: Seq<Refresh>, value: Float)
    requires
        holds(t, seen_after(refreshes).lags, value),
    ensures
        t is Some <==> exists|i: int|
            0 <= i < refreshes.len() && (#[trigger] refreshes[i]).lag is Some,
        t matches Some(d) ==> d@ == value,
{
    let pred = |r: Refresh| r.lag is Some;
    let dated = refreshes.filter(pred);
    every_lag_counts(refreshes);
    if exists|i: int| 0 <= i < refreshes.len() && (#[trigger] refreshes[i]).lag is Some {
        let i = choose|i: int| 0 <= i < refreshes.len() && (#[trigger] refreshes[i]).lag is Some;
        refreshes.lemma_filter_contains(pred, i);
        assert(dated.len() > 0);
    }
    if dated.len() > 0 {
        refreshes.lemma_filter_pred(pred, 0);
        refreshes.lemma_filter_contains_rev(pred, dated[0]);
        let i = choose|i: int| 0 <= i < refreshes.len() && refreshes[i] == dated[0];
        assert(refreshes[i].lag is Some);
    }
}

} // verus!
