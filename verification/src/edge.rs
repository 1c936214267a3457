//! The CDN edge test: what the first viewer of a new segment pays.

use reqwest::header::{HeaderMap, HeaderValue};
use vstd::arithmetic::power2::*;
use vstd::prelude::*;

use crate::double;
use crate::double::{Double, Float};
use crate::fetch;
use crate::fetch::response_header;
use crate::live;
use crate::playlist;
use crate::playlist::{Media, MediaView};
use crate::text;
use crate::text::push_decimal;
use crate::timing;

verus! {

// ---------------------------------------------------------------------------
// Response headers
// ---------------------------------------------------------------------------

/// The cache decision in a response: the first of the common CDN headers that it
/// has (Akamai with debug Pragma, CloudFront, Cloudflare, Fastly/Varnish
/// flavours).
pub open spec fn cache_decision(headers: Map<Seq<char>, Seq<Seq<u8>>>) -> Option<Seq<char>> {
    if fetch::header_text(headers, "x-cache"@) is Some {
        fetch::header_text(headers, "x-cache"@)
    } else if fetch::header_text(headers, "x-cache-status"@) is Some {
        fetch::header_text(headers, "x-cache-status"@)
    } else if fetch::header_text(headers, "cf-cache-status"@) is Some {
        fetch::header_text(headers, "cf-cache-status"@)
    } else {
        fetch::header_text(headers, "x-cdn-cache-status"@)
    }
}

/// The cache decision in a response.
pub fn cache_status(headers: &HeaderMap<HeaderValue>) -> (r: Option<String>)
    ensures
        text::optional(r) == cache_decision(fetch::header_entries(*headers)),
{
    let first = response_header(headers, "x-cache");
    if first.is_some() {
        return first;
    }
    let second = response_header(headers, "x-cache-status");
    if second.is_some() {
        return second;
    }
    let third = response_header(headers, "cf-cache-status");
    if third.is_some() {
        return third;
    }
    response_header(headers, "x-cdn-cache-status")
}

/// The age in a response, in seconds.
pub open spec fn age_of(headers: Map<Seq<char>, Seq<Seq<u8>>>) -> Option<u64> {
    match fetch::header_text(headers, "age"@) {
        Some(s) => text::number(text::trim(s)),
        None => None,
    }
}

/// The age in a response, in seconds.
pub fn age_seconds(headers: &HeaderMap<HeaderValue>) -> (r: Option<u64>)
    ensures
        r == age_of(fetch::header_entries(*headers)),
{
    match response_header(headers, "age") {
        Some(s) => {
            let chars = text::chars_of(s.as_str());
            let t = text::trimmed(&chars, 0, chars.len());
            assert(chars@.subrange(0, chars@.len() as int) =~= s@);
            text::parse_number(t.as_str())
        },
        None => None,
    }
}

// ---------------------------------------------------------------------------
// Samples and pairs
// ---------------------------------------------------------------------------

/// One request for a segment.
#[derive(Debug, Clone)]
pub struct Sample {
    /// Time until the response headers arrived.
    pub ttfb_ms: Double,
    /// Time until the body was complete.
    pub total_ms: Double,
    pub bytes: u64,
    pub cache_status: Option<String>,
    pub age: Option<u64>,
}

impl Sample {
    /// A request's timings, the length of the body, and what the response
    /// headers tell of the cache.
    pub fn read(
        headers: &HeaderMap<HeaderValue>,
        ttfb_nanos: u64,
        total_nanos: u64,
        bytes: u64,
    ) -> (r: Sample)
        ensures
            r.ttfb_ms@ == timing::millis_of(ttfb_nanos),
            r.total_ms@ == timing::millis_of(total_nanos),
            r.bytes == bytes,
            text::optional(r.cache_status) == cache_decision(fetch::header_entries(*headers)),
            r.age == age_of(fetch::header_entries(*headers)),
    {
        Sample {
            ttfb_ms: timing::millis(ttfb_nanos),
            total_ms: timing::millis(total_nanos),
            bytes,
            cache_status: cache_status(headers),
            age: age_seconds(headers),
        }
    }
}

/// The decision token of a cache status: its first word, or all of it if it has
/// none.
pub open spec fn decision_token(s: Seq<char>) -> Seq<char> {
    let t = text::trim_start(s);
    if t.len() == 0 {
        s
    } else {
        text::first_word(t)
    }
}

/// How a sample's cache status and age are shown.
pub open spec fn label_of(status: Option<Seq<char>>, age: Option<u64>) -> Seq<char> {
    match (status, age) {
        (Some(c), Some(a)) => " ["@ + decision_token(c) + ", age "@ + text::decimal(a as nat)
            + "s]"@,
        (Some(c), None) => " ["@ + decision_token(c) + "]"@,
        (None, Some(a)) => " [age "@ + text::decimal(a as nat) + "s]"@,
        (None, None) => Seq::empty(),
    }
}

/// The decision token of a cache status.
fn token_of(s: &String) -> (r: String)
    ensures
        r@ == decision_token(s@),
{
    let word = text::leading_word(s.as_str());
    proof {
        text::trimmed_starts_with_a_word(s@);
    }
    if word.as_str().unicode_len() == 0 {
        s.clone()
    } else {
        word
    }
}

/// How a sample's cache status and age are shown: only the decision token
/// (TCP_MISS, TCP_HIT, ...) stands in the table.
pub fn cache_label(s: &Sample) -> (r: String)
    ensures
        r@ == label_of(text::optional(s.cache_status), s.age),
{
    match &s.cache_status {
        Some(c) => {
            let mut t = " [".to_owned();
            t.append(token_of(c).as_str());
            if let Some(a) = s.age {
                t.append(", age ");
                push_decimal(&mut t, a as u128);
                t.append("s]");
            } else {
                t.append("]");
            }
            t
        },
        None => match s.age {
            Some(a) => {
                let mut t = " [age ".to_owned();
                push_decimal(&mut t, a as u128);
                t.append("s]");
                t
            },
            None => String::new(),
        },
    }
}

/// Two requests for one segment: as soon as it was published, and again when the
/// edge had it cached.
#[derive(Debug, Clone)]
pub struct Pair {
    pub uri: String,
    pub fresh: Sample,
    pub warmed: Sample,
}

/// How much later the first byte of the fresh request came, in milliseconds.
pub open spec fn penalty(p: Pair) -> Float {
    double::difference(p.fresh.ttfb_ms@, p.warmed.ttfb_ms@)
}

/// The line that reports a pair, counted from 1.
pub open spec fn pair_line(p: Pair, number: usize, wanted: usize) -> Seq<char> {
    "pair "@ + text::right(text::decimal(number as nat), 2) + "/"@ + text::decimal(wanted as nat)
        + ": fresh "@ + text::right(double::text_of(p.fresh.ttfb_ms@, 0), 5) + " ms"@ + label_of(
        text::optional(p.fresh.cache_status),
        p.fresh.age,
    ) + "  warmed "@ + text::right(double::text_of(p.warmed.ttfb_ms@, 0), 5) + " ms"@ + label_of(
        text::optional(p.warmed.cache_status),
        p.warmed.age,
    ) + "  penalty "@ + double::signed_text_of(penalty(p), 0) + " ms"@
}

impl Pair {
    /// How much later the first byte of the fresh request came, in milliseconds.
    pub fn penalty_ms(&self) -> (r: Double)
        ensures
            r@ == penalty(*self),
    {
        self.fresh.ttfb_ms.minus(self.warmed.ttfb_ms)
    }

    /// The line that reports the pair, counted from 1.
    pub fn line(&self, number: usize, wanted: usize) -> (r: String)
        ensures
            r@ == pair_line(*self, number, wanted),
    {
        let mut s = "pair ".to_owned();
        text::push_right_decimal(&mut s, number as u128, 2);
        s.append("/");
        push_decimal(&mut s, wanted as u128);
        s.append(": fresh ");
        self.fresh.ttfb_ms.push_right(&mut s, 5);
        s.append(" ms");
        s.append(cache_label(&self.fresh).as_str());
        s.append("  warmed ");
        self.warmed.ttfb_ms.push_right(&mut s, 5);
        s.append(" ms");
        s.append(cache_label(&self.warmed).as_str());
        s.append("  penalty ");
        self.penalty_ms().push_signed_text(&mut s, 0);
        s.append(" ms");
        s
    }
}

// ---------------------------------------------------------------------------
// The report
// ---------------------------------------------------------------------------

/// What the pairs come to.
#[derive(Debug, Clone)]
pub struct EdgeReport {
    pub pairs: Vec<Pair>,
    pub avg_fresh_ttfb: Double,
    pub avg_warmed_ttfb: Double,
    pub avg_penalty_ms: Double,
}

/// The time to first byte of the first `n` fresh requests, added up in order.
pub open spec fn fresh_total(pairs: Seq<Pair>, n: nat) -> Float
    decreases n,
{
    if n == 0 {
        double::zero()
    } else {
        double::sum(fresh_total(pairs, (n - 1) as nat), pairs[n - 1].fresh.ttfb_ms@)
    }
}

/// The time to first byte of the first `n` warmed requests, added up in order.
pub open spec fn warmed_total(pairs: Seq<Pair>, n: nat) -> Float
    decreases n,
{
    if n == 0 {
        double::zero()
    } else {
        double::sum(warmed_total(pairs, (n - 1) as nat), pairs[n - 1].warmed.ttfb_ms@)
    }
}

/// The average time to first byte of the fresh requests.
pub open spec fn average_fresh(pairs: Seq<Pair>) -> Float {
    double::quotient(fresh_total(pairs, pairs.len()), double::of_int(pairs.len() as int))
}

/// The average time to first byte of the warmed requests.
pub open spec fn average_warmed(pairs: Seq<Pair>) -> Float {
    double::quotient(warmed_total(pairs, pairs.len()), double::of_int(pairs.len() as int))
}

/// `r` holds the averages of the pairs.
pub open spec fn averages(r: EdgeReport, pairs: Seq<Pair>) -> bool {
    &&& r.avg_fresh_ttfb@ == average_fresh(pairs)
    &&& r.avg_warmed_ttfb@ == average_warmed(pairs)
    &&& r.avg_penalty_ms@ == double::difference(average_fresh(pairs), average_warmed(pairs))
}

/// Every fresh request took longer than the warmed one.
pub open spec fn all_penalized(pairs: Seq<Pair>) -> bool {
    forall|i: int|
        0 <= i < pairs.len() ==> double::less(double::zero(), penalty(#[trigger] pairs[i]))
}

/// The verdict on fewer than two pairs.
pub const TOO_FEW: &'static str = "too few pairs to conclude; rerun with more";

/// The verdict on a clear penalty in every pair.
pub const CONSISTENT: &'static str = "consistent fresh-segment penalty: first request travels to the origin (CDN cache miss), the warmed one is served from the edge";

/// The verdict on a small average penalty.
pub const NO_PENALTY: &'static str = "no meaningful fresh-segment penalty observed (cache already warm, or origin very close to the edge)";

/// The verdict on anything else.
pub const MIXED: &'static str = "mixed results; network jitter may dominate, rerun with more pairs";

/// A one-line reading of the numbers.
pub open spec fn verdict_of(pairs: Seq<Pair>, average: Float) -> Seq<char> {
    if pairs.len() < 2 {
        TOO_FEW@
    } else if double::less(double::of_int(100), average) && all_penalized(pairs) {
        CONSISTENT@
    } else if double::less(double::magnitude(average), double::of_int(50)) {
        NO_PENALTY@
    } else {
        MIXED@
    }
}

impl EdgeReport {
    /// Averages the pairs.
    pub fn new(pairs: Vec<Pair>) -> (r: EdgeReport)
        ensures
            r.pairs == pairs,
            averages(r, pairs@),
    {
        let mut fresh = Double::zero(false);
        let mut warmed = Double::zero(false);
        let mut i: usize = 0;
        while i < pairs.len()
            invariant
                i <= pairs.len(),
                fresh@ == fresh_total(pairs@, i as nat),
                warmed@ == warmed_total(pairs@, i as nat),
            decreases pairs.len() - i,
        {
            fresh = fresh.plus(pairs[i].fresh.ttfb_ms);
            warmed = warmed.plus(pairs[i].warmed.ttfb_ms);
            i = i + 1;
        }
        let count = Double::from_u64(pairs.len() as u64);
        let avg_fresh_ttfb = fresh.over(count);
        let avg_warmed_ttfb = warmed.over(count);
        EdgeReport {
            pairs,
            avg_fresh_ttfb,
            avg_warmed_ttfb,
            avg_penalty_ms: avg_fresh_ttfb.minus(avg_warmed_ttfb),
        }
    }

    /// Did every fresh request take longer than the warmed one?
    fn penalized(&self) -> (r: bool)
        ensures
            r == all_penalized(self.pairs@),
    {
        let zero = Double::zero(false);
        let mut i: usize = 0;
        while i < self.pairs.len()
            invariant
                i <= self.pairs.len(),
                zero@ == double::zero(),
                forall|j: int|
                    0 <= j < i ==> double::less(double::zero(), penalty(#[trigger] self.pairs@[j])),
            decreases self.pairs.len() - i,
        {
            if !zero.less_than(self.pairs[i].penalty_ms()) {
                assert(!double::less(zero@, penalty(self.pairs@[i as int])));
                return false;
            }
            i = i + 1;
        }
        true
    }

    /// A one-line reading of the numbers, kept deliberately cautious.
    pub fn verdict(&self) -> (r: &'static str)
        ensures
            r@ == verdict_of(self.pairs@, self.avg_penalty_ms@),
    {
        if self.pairs.len() < 2 {
            TOO_FEW
        } else if Double::from_u64(100).less_than(self.avg_penalty_ms) && self.penalized() {
            CONSISTENT
        } else if self.avg_penalty_ms.abs().less_than(Double::from_u64(50)) {
            NO_PENALTY
        } else {
            MIXED
        }
    }
}

// ---------------------------------------------------------------------------
// The course of the test
// ---------------------------------------------------------------------------

/// Parses a refreshed playlist; an error is a message for the user.
pub fn parse_edge_playlist(bytes: &[u8]) -> (r: Result<Media, String>)
    ensures
        playlist::media_view(r) == playlist::media_expected(
            playlist::parsed(bytes@),
            "--edge-test needs a media playlist"@,
            "playlist no longer parses: "@,
        ),
{
    playlist::expect_media(
        playlist::parse_playlist(bytes),
        "--edge-test needs a media playlist",
        "playlist no longer parses: ",
    )
}

/// Why the test cannot go on.
#[derive(Debug, Clone, Copy, PartialEq, Eq, Structural)]
pub enum EdgeError {
    /// The playlist is complete.
    EndList,
    /// The time budget is beyond `u64` seconds.
    BudgetOverflow,
    /// A sequence number is beyond `u64`.
    SequenceOverflow,
    /// No segment was published in time.
    NoAdvance,
}

/// The message for an error.
pub open spec fn edge_message(e: EdgeError) -> Seq<char> {
    match e {
        EdgeError::EndList => "playlist has EXT-X-ENDLIST: not a live stream"@,
        EdgeError::BudgetOverflow => "time budget out of range"@,
        EdgeError::SequenceOverflow => "media sequence number out of range"@,
        EdgeError::NoAdvance => "playlist did not advance before the time budget ran out"@,
    }
}

impl EdgeError {
    /// The message for the user.
    pub fn message(self) -> (r: &'static str)
        ensures
            r@ == edge_message(self),
    {
        match self {
            EdgeError::EndList => "playlist has EXT-X-ENDLIST: not a live stream",
            EdgeError::BudgetOverflow => "time budget out of range",
            EdgeError::SequenceOverflow => "media sequence number out of range",
            EdgeError::NoAdvance => "playlist did not advance before the time budget ran out",
        }
    }
}

/// The target duration, at least one second.
pub open spec fn target_of(p: MediaView) -> u64 {
    if p.target_duration == 0 {
        1
    } else {
        p.target_duration
    }
}

/// A generous but bounded time for the whole test, in seconds.
pub open spec fn budget_for(wanted: usize, target: u64) -> int {
    wanted * 6 * target + 30
}

/// The segment to request: the newest one, if the edge has moved on since the
/// last refresh. It is then as fresh as it gets.
pub open spec fn fresh_segment(last_edge: Option<u64>, p: MediaView) -> Option<Seq<char>> {
    if last_edge is Some && p.segments.len() > 0 && live::edge_of(p) > last_edge->0 {
        Some(p.segments.last().uri)
    } else {
        None
    }
}

/// What comes after a refresh.
#[derive(Debug, Clone, Copy, PartialEq, Eq, Structural)]
pub enum Next {
    /// Refresh again, after so many seconds and maybe half a second more.
    Wait(u64, bool),
    /// The time is up: report the pairs there are.
    Report,
    /// The time is up, and there are no pairs.
    GiveUp,
}

/// An edge test in progress.
///
/// It watches the playlist until a segment is published, requests it immediately
/// ("fresh": on a cold edge this request must travel to the origin), then
/// requests the very same URL one target duration later ("warmed": the edge just
/// cached it for us). The TTFB difference, repeated over `wanted` pairs, is the
/// penalty the first viewer per edge node pays on every new segment.
#[derive(Debug)]
pub struct EdgeTest {
    pub wanted: usize,
    pub pairs: Vec<Pair>,
    /// The edge of the refresh before this one.
    pub last_edge: Option<u64>,
    /// The edge of this refresh.
    pub edge: u64,
    /// The target duration of this refresh, at least one second.
    pub target: u64,
    /// The time for the whole test, in seconds, from the first refresh on.
    pub budget: Option<u64>,
}

impl EdgeTest {
    /// There are no more pairs than wanted; one is always taken.
    pub open spec fn wf(&self) -> bool {
        self.pairs@.len() <= if self.wanted == 0 {
            1
        } else {
            self.wanted as int
        }
    }

    /// There are as many pairs as wanted.
    pub open spec fn complete(&self) -> bool {
        self.pairs@.len() > 0 && self.pairs@.len() >= self.wanted
    }

    /// Starts a test of `wanted` pairs.
    pub fn new(wanted: usize) -> (r: EdgeTest)
        ensures
            r.wf(),
            r.wanted == wanted,
            r.pairs@.len() == 0,
            r.last_edge is None,
            r.budget is None,
    {
        EdgeTest {
            wanted,
            pairs: Vec::new(),
            last_edge: None,
            edge: 0,
            target: 1,
            budget: None,
        }
    }

    /// Looks at a refreshed playlist: which segment to request, if any. The time
    /// budget goes by the first playlist.
    pub fn inspect(&mut self, pl: &Media) -> (r: Result<Option<String>, EdgeError>)
        ensures
            ({
                let budget = if old(self).budget is Some {
                    old(self).budget->0 as int
                } else {
                    budget_for(old(self).wanted, target_of(pl@))
                };
                match r {
                    Ok(uri) => {
                        &&& !pl@.end_list
                        &&& live::edge_of(pl@) == final(self).edge
                        &&& final(self).budget is Some
                        &&& final(self).budget->0 == budget
                        &&& final(self).target == target_of(pl@)
                        &&& text::optional(uri) == fresh_segment(old(self).last_edge, pl@)
                        &&& final(self).wanted == old(self).wanted
                        &&& final(self).pairs == old(self).pairs
                        &&& final(self).last_edge == old(self).last_edge
                    },
                    Err(e) => {
                        &&& *final(self) == *old(self)
                        &&& e == if pl@.end_list {
                            EdgeError::EndList
                        } else if budget > u64::MAX {
                            EdgeError::BudgetOverflow
                        } else {
                            EdgeError::SequenceOverflow
                        }
                        &&& pl@.end_list || budget > u64::MAX || live::edge_of(pl@) > u64::MAX
                    },
                }
            }),
    {
        if pl.end_list {
            return Err(EdgeError::EndList);
        }
        let target: u64 = if pl.target_duration == 0 {
            1
        } else {
            pl.target_duration
        };
        let budget: u64 = match self.budget {
            Some(budget) => budget,
            None => match time_budget(self.wanted, target) {
                Some(budget) => budget,
                None => return Err(EdgeError::BudgetOverflow),
            },
        };
        let edge: u64 = match live::edge_sequence(pl) {
            Some(edge) => edge,
            None => return Err(EdgeError::SequenceOverflow),
        };
        let count: usize = pl.segments.len();
        let uri = match self.last_edge {
            Some(last) if count > 0 && edge > last => {
                assert(pl@.segments[count - 1] == pl.segments[count - 1]@);
                Some(pl.segments[count - 1].uri.clone())
            },
            _ => None,
        };
        self.edge = edge;
        self.target = target;
        self.budget = Some(budget);
        Ok(uri)
    }

    /// Takes a pair into account: is the test complete?
    pub fn record(&mut self, pair: Pair) -> (complete: bool)
        requires
            old(self).wf(),
            !old(self).complete(),
        ensures
            final(self).wf(),
            final(self).pairs@ == old(self).pairs@.push(pair),
            final(self).wanted == old(self).wanted,
            final(self).last_edge == old(self).last_edge,
            final(self).edge == old(self).edge,
            final(self).target == old(self).target,
            final(self).budget == old(self).budget,
            complete == final(self).complete(),
    {
        self.pairs.push(pair);
        self.pairs.len() >= self.wanted
    }

    /// Ends a refresh, so many nanoseconds after the first one.
    pub fn end_refresh(&mut self, elapsed_nanos: u64) -> (r: Next)
        requires
            old(self).wf(),
            old(self).budget is Some,
        ensures
            final(self).wf(),
            final(self).last_edge == Some(old(self).edge),
            final(self).wanted == old(self).wanted,
            final(self).pairs == old(self).pairs,
            final(self).edge == old(self).edge,
            final(self).target == old(self).target,
            final(self).budget == old(self).budget,
            if elapsed_nanos > old(self).budget->0 * 1_000_000_000 {
                r == if old(self).pairs@.len() == 0 {
                    Next::GiveUp
                } else {
                    Next::Report
                }
            } else {
                r matches Next::Wait(secs, half) && live::is_half_target(
                    old(self).target,
                    (secs, half),
                )
            },
    {
        self.last_edge = Some(self.edge);
        let budget: u64 = self.budget.unwrap();
        if elapsed_nanos as u128 > budget as u128 * 1_000_000_000 {
            if self.pairs.len() == 0 {
                Next::GiveUp
            } else {
                Next::Report
            }
        } else {
            let (secs, half) = live::refresh_pause(self.target);
            Next::Wait(secs, half)
        }
    }

    /// Averages the pairs.
    pub fn finish(self) -> (r: EdgeReport)
        ensures
            r.pairs == self.pairs,
            averages(r, self.pairs@),
    {
        EdgeReport::new(self.pairs)
    }
}

/// A generous but bounded time for the whole test, in seconds.
fn time_budget(wanted: usize, target: u64) -> (r: Option<u64>)
    ensures
        match r {
            Some(budget) => budget == budget_for(wanted, target),
            None => budget_for(wanted, target) > u64::MAX,
        },
{
    proof {
        assert(0 <= wanted * 6 * target) by (nonlinear_arith)
            requires
                wanted >= 0,
                target >= 0,
        ;
    }
    let six: u128 = wanted as u128 * 6;
    match six.checked_mul(target as u128) {
        Some(secs) => if secs <= (u64::MAX - 30) as u128 {
            Some(secs as u64 + 30)
        } else {
            None
        },
        None => None,
    }
}

/// The line that reports an exhausted time budget.
pub open spec fn exhausted_line(pairs: usize) -> Seq<char> {
    "time budget exhausted, reporting "@ + text::decimal(pairs as nat) + " pair(s)"@
}

/// The line that reports an exhausted time budget.
pub fn budget_exhausted(pairs: usize) -> (r: String)
    ensures
        r@ == exhausted_line(pairs),
{
    let mut s = "time budget exhausted, reporting ".to_owned();
    push_decimal(&mut s, pairs as u128);
    s.append(" pair(s)");
    s
}

/// No segment is requested at the first refresh, nor while the edge has not moved
/// on since the last one; when it has, the newest segment is.
pub proof fn standing_edge_requests_nothing(p: MediaView, last_edge: u64)
    ensures
        fresh_segment(None, p) is None,
        live::edge_of(p) <= last_edge ==> fresh_segment(Some(last_edge), p) is None,
        live::edge_of(p) > last_edge && p.segments.len() > 0 ==> fresh_segment(Some(last_edge), p)
            == Some(p.segments.last().uri),
        p.segments.len() == 0 ==> fresh_segment(Some(last_edge), p) is None,
{
}

/// The verdict of a consistent penalty takes two pairs or more, a penalty in
/// every one of them, and an average of more than 100 ms.
pub proof fn consistent_verdict_is_cautious(pairs: Seq<Pair>, average: Float)
    requires
        verdict_of(pairs, average) == CONSISTENT@,
    ensures
        pairs.len() >= 2,
        all_penalized(pairs),
        double::less(double::of_int(100), average),
{
    reveal_strlit("too few pairs to conclude; rerun with more");
    reveal_strlit(
        "consistent fresh-segment penalty: first request travels to the origin (CDN cache miss), the warmed one is served from the edge",
    );
    reveal_strlit(
        "no meaningful fresh-segment penalty observed (cache already warm, or origin very close to the edge)",
    );
    reveal_strlit("mixed results; network jitter may dominate, rerun with more pairs");
    assert(TOO_FEW@[0] == 't' && CONSISTENT@[0] == 'c' && NO_PENALTY@[0] == 'n' && MIXED@[0] == 'm');
}

/// The verdicts differ.
proof fn lemma_verdicts_differ()
    ensures
        TOO_FEW@ != CONSISTENT@,
        TOO_FEW@ != NO_PENALTY@,
        TOO_FEW@ != MIXED@,
        CONSISTENT@ != NO_PENALTY@,
        CONSISTENT@ != MIXED@,
        NO_PENALTY@ != MIXED@,
{
    reveal_strlit("too few pairs to conclude; rerun with more");
    reveal_strlit(
        "consistent fresh-segment penalty: first request travels to the origin (CDN cache miss), the warmed one is served from the edge",
    );
    reveal_strlit(
        "no meaningful fresh-segment penalty observed (cache already warm, or origin very close to the edge)",
    );
    reveal_strlit("mixed results; network jitter may dominate, rerun with more pairs");
    assert(TOO_FEW@[0] == 't' && CONSISTENT@[0] == 'c' && NO_PENALTY@[0] == 'n' && MIXED@[0] == 'm');
}

/// Fewer than two pairs, and only those, are too few for a verdict, whatever the
/// numbers are.
pub proof fn two_pairs_give_a_verdict(pairs: Seq<Pair>, average: Float)
    ensures
        verdict_of(pairs, average) == TOO_FEW@ <==> pairs.len() < 2,
{
    lemma_verdicts_differ();
}

/// From two pairs on, an average within 50 ms of zero gives the verdict of no
/// meaningful penalty, whatever the signs of the single penalties, and nothing
/// else does.
pub proof fn small_average_is_no_penalty(pairs: Seq<Pair>, average: Float)
    ensures
        verdict_of(pairs, average) == NO_PENALTY@ <==> pairs.len() >= 2 && double::less(
            double::magnitude(average),
            double::of_int(50),
        ),
{
    lemma_verdicts_differ();
    lemma2_to64();
    lemma2_to64_rest();
    lemma_pow2_pos(1074);
    double::small_integers_are_exact(50);
    double::small_integers_are_exact(100);
    assert(50 * pow2(1074) < 100 * pow2(1074)) by (nonlinear_arith)
        requires
            pow2(1074) > 0,
    ;
}

/// From two pairs on, an average above 100 ms gives the verdict of a consistent
/// penalty exactly if in every pair the fresh request was answered later than the
/// warmed one.
pub proof fn clear_average_is_consistent_in_every_pair(pairs: Seq<Pair>, average: Float)
    requires
        pairs.len() >= 2,
        double::less(double::of_int(100), average),
    ensures
        verdict_of(pairs, average) == CONSISTENT@ <==> forall|i: int|
            0 <= i < pairs.len() ==> double::less(
                double::zero(),
                double::difference(
                    (#[trigger] pairs[i]).fresh.ttfb_ms@,
                    pairs[i].warmed.ttfb_ms@,
                ),
            ),
{
    lemma_verdicts_differ();
    small_average_is_no_penalty(pairs, average);
    if all_penalized(pairs) {
        assert forall|i: int| 0 <= i < pairs.len() implies double::less(
            double::zero(),
            double::difference((#[trigger] pairs[i]).fresh.ttfb_ms@, pairs[i].warmed.ttfb_ms@),
        ) by {
            assert(double::less(double::zero(), penalty(pairs[i])));
        }
    }
}

/// The mixed verdict takes two pairs, an average of 50 ms or more either way, and
/// no consistent penalty above 100 ms.
pub proof fn mixed_verdict_is_the_rest(pairs: Seq<Pair>, average: Float)
    ensures
        verdict_of(pairs, average) == MIXED@ ==> pairs.len() >= 2 && !double::less(
            double::magnitude(average),
            double::of_int(50),
        ),
        pairs.len() >= 2 && !double::less(double::magnitude(average), double::of_int(50))
            && !double::less(double::of_int(100), average) ==> verdict_of(pairs, average) == MIXED@,
        pairs.len() >= 2 && average is Nan ==> verdict_of(pairs, average) == MIXED@,
{
    lemma_verdicts_differ();
}

/// A pair has a penalty exactly if its fresh request was answered later than the
/// warmed one, and a negative one if it was answered sooner.
pub proof fn later_answer_is_a_penalty(p: Pair)
    requires
        p.fresh.ttfb_ms@ is Finite,
        p.warmed.ttfb_ms@ is Finite,
    ensures
        double::less(double::zero(), penalty(p)) <==> double::less(
            p.warmed.ttfb_ms@,
            p.fresh.ttfb_ms@,
        ),
        double::less(penalty(p), double::zero()) <==> double::less(
            p.fresh.ttfb_ms@,
            p.warmed.ttfb_ms@,
        ),
        penalty(p) == double::difference(p.fresh.ttfb_ms@, p.warmed.ttfb_ms@),
{
    double::difference_has_the_sign_of_the_order(p.fresh.ttfb_ms@, p.warmed.ttfb_ms@);
}

proof fn lemma_totals(pairs: Seq<Pair>, n: nat)
    requires
        n <= pairs.len(),
    ensures
        fresh_total(pairs, n) == pairs.take(n as int).fold_left(
            double::zero(),
            |t: Float, p: Pair| double::sum(t, p.fresh.ttfb_ms@),
        ),
        warmed_total(pairs, n) == pairs.take(n as int).fold_left(
            double::zero(),
            |t: Float, p: Pair| double::sum(t, p.warmed.ttfb_ms@),
        ),
    decreases n,
{
    if n > 0 {
        lemma_totals(pairs, (n - 1) as nat);
        assert(pairs.take(n as int).drop_last() =~= pairs.take(n - 1));
    }
}

/// Every pair goes into the averages: each is the sum over all pairs, in order,
/// over their number, and the average penalty is the difference of the two.
pub proof fn every_pair_is_averaged(r: EdgeReport, pairs: Seq<Pair>)
    requires
        averages(r, pairs),
    ensures
        ({
            let count = double::of_int(pairs.len() as int);
            let fresh = pairs.fold_left(
                double::zero(),
                |t: Float, p: Pair| double::sum(t, p.fresh.ttfb_ms@),
            );
            let warmed = pairs.fold_left(
                double::zero(),
                |t: Float, p: Pair| double::sum(t, p.warmed.ttfb_ms@),
            );
            &&& r.avg_fresh_ttfb@ == double::quotient(fresh, count)
            &&& r.avg_warmed_ttfb@ == double::quotient(warmed, count)
            &&& r.avg_penalty_ms@ == double::difference(r.avg_fresh_ttfb@, r.avg_warmed_ttfb@)
        }),
{
    lemma_totals(pairs, pairs.len());
    assert(pairs.take(pairs.len() as int) =~= pairs);
}

/// The cache decision is the text of the first of the four headers that has one;
/// there is none only if none of them has.
pub proof fn first_decision_header_counts(headers: Map<Seq<char>, Seq<Seq<u8>>>)
    ensures
        ({
            let first = fetch::header_text(headers, "x-cache"@);
            let second = fetch::header_text(headers, "x-cache-status"@);
            let third = fetch::header_text(headers, "cf-cache-status"@);
            let fourth = fetch::header_text(headers, "x-cdn-cache-status"@);
            let decision = cache_decision(headers);
            &&& first is Some ==> decision == first
            &&& first is None && second is Some ==> decision == second
            &&& first is None && second is None && third is Some ==> decision == third
            &&& first is None && second is None && third is None && fourth is Some ==> decision
                == fourth
            &&& decision is None <==> first is None && second is None && third is None && fourth
                is None
        }),
{
}

/// An age is read whatever white space stands around it; a response without the
/// header has none.
pub proof fn age_is_read_back(
    headers: Map<Seq<char>, Seq<Seq<u8>>>,
    before: Seq<char>,
    age: u64,
    after: Seq<char>,
)
    requires
        forall|k: int| 0 <= k < before.len() ==> text::is_space(#[trigger] before[k]),
        forall|k: int| 0 <= k < after.len() ==> text::is_space(#[trigger] after[k]),
    ensures
        fetch::header_text(headers, "age"@) == Some(before + text::decimal(age as nat) + after)
            ==> age_of(headers) == Some(age),
        fetch::header_text(headers, "age"@) is None ==> age_of(headers) is None,
{
    let s = text::decimal(age as nat);
    text::different_numbers_read_differently(age as nat, age as nat);
    assert(text::is_digit(s[0]) && text::is_digit(s[s.len() - 1]));
    text::padding_is_trimmed(before, s, after);
    text::written_number_reads_back(age);
}

/// What the table shows of a cache status is its first word: it has no white space
/// in it, stands in the status after white space alone, and ends at white space or
/// where the status ends. A status of nothing but white space is shown whole.
pub proof fn decision_token_is_the_first_word(s: Seq<char>) -> (from: int)
    ensures
        0 <= from <= s.len(),
        forall|k: int| 0 <= k < from ==> text::is_space(#[trigger] s[k]),
        from == s.len() ==> decision_token(s) == s,
        from < s.len() ==> {
            let to = from + decision_token(s).len();
            &&& from < to <= s.len()
            &&& decision_token(s) == s.subrange(from, to)
            &&& forall|k: int| from <= k < to ==> !text::is_space(#[trigger] s[k])
            &&& to < s.len() ==> text::is_space(s[to])
        },
{
    let rest = text::trim_start(s);
    let from = text::leading_white_space(s);
    text::trimmed_starts_with_a_word(s);
    text::first_word_ends_at_white_space(rest);
    if from < s.len() {
        let n = text::first_word(rest).len() as int;
        assert(rest.subrange(0, n) =~= s.subrange(from, from + n));
        assert forall|k: int| from <= k < from + n implies !text::is_space(#[trigger] s[k]) by {
            assert(rest[k - from] == s[k]);
        }
        if from + n < s.len() {
            assert(rest[n] == s[from + n]);
        }
    }
    from
}

/// A label shows the cache status and the age one by one: with neither it is
/// empty, and with both it is that of the status with the age put in before the
/// closing bracket.
pub proof fn label_shows_what_there_is(status: Seq<char>, age: u64)
    ensures
        label_of(None, None).len() == 0,
        label_of(Some(status), None) == " ["@ + decision_token(status) + "]"@,
        label_of(None, Some(age)) == " [age "@ + text::decimal(age as nat) + "s]"@,
        label_of(Some(status), Some(age)) == label_of(Some(status), None).drop_last() + ", age "@
            + text::decimal(age as nat) + "s]"@,
{
    reveal_strlit("]");
    assert(label_of(Some(status), None).drop_last() =~= " ["@ + decision_token(status));
}

/// The time budget is six target durations for each pair and half a minute; a
/// target duration counts as one second at least.
pub proof fn budget_goes_by_pairs_and_target(wanted: usize, p: MediaView)
    ensures
        p.target_duration >= 1 ==> budget_for(wanted, target_of(p)) == 6 * (wanted
            * p.target_duration) + 30,
        p.target_duration == 0 ==> budget_for(wanted, target_of(p)) == 6 * wanted + 30,
        p.target_duration >= 1 ==> target_of(p) == p.target_duration,
        target_of(p) >= 1,
{
    assert(wanted * 6 * p.target_duration == 6 * (wanted * p.target_duration)) by (nonlinear_arith);
    assert(wanted * 6 * 1 == 6 * wanted) by (nonlinear_arith);
}

/// A test is complete with as many pairs as wanted, and with one if none are.
pub proof fn complete_test_has_the_wanted_pairs(t: EdgeTest)
    requires
        t.wf(),
    ensures
        t.wanted > 0 ==> (t.complete() <==> t.pairs@.len() == t.wanted),
        t.wanted == 0 ==> (t.complete() <==> t.pairs@.len() == 1),
        t.pairs@.len() <= t.wanted || t.pairs@.len() == 1,
{
}

/// The line on a pair shows both requests alike, and then how much later the fresh
/// one was answered, always with a sign.
pub proof fn pair_line_shows_both_requests(p: Pair, number: usize, wanted: usize)
    ensures
        ({
            let shown = |s: Sample|
                text::right(double::text_of(s.ttfb_ms@, 0), 5) + " ms"@ + label_of(
                    text::optional(s.cache_status),
                    s.age,
                );
            pair_line(p, number, wanted) == "pair "@ + text::right(
                text::decimal(number as nat),
                2,
            ) + "/"@ + text::decimal(wanted as nat) + ": fresh "@ + shown(p.fresh) + "  warmed "@
                + shown(p.warmed) + "  penalty "@ + double::signed_text_of(
                double::difference(p.fresh.ttfb_ms@, p.warmed.ttfb_ms@),
                0,
            ) + " ms"@
        }),
{
    let shown = |s: Sample|
        text::right(double::text_of(s.ttfb_ms@, 0), 5) + " ms"@ + label_of(
            text::optional(s.cache_status),
            s.age,
        );
    assert(pair_line(p, number, wanted) =~= "pair "@ + text::right(text::decimal(number as nat), 2)
        + "/"@ + text::decimal(wanted as nat) + ": fresh "@ + shown(p.fresh) + "  warmed "@
        + shown(p.warmed) + "  penalty "@ + double::signed_text_of(penalty(p), 0) + " ms"@);
}

} // verus!
