//! Conformance checks on media and master playlists.

use std::collections::HashSet;
use vstd::prelude::*;

use crate::clock;
use crate::clock::Timestamp;
use crate::double;
use crate::double::{Double, Float};
use crate::playlist;
use crate::playlist::{
    AlternativeMedia, AlternativeView, ClosedCaptions, ClosedCaptionsView, Master, MasterView, Media,
    MediaView, Resolution, SegmentView, VariantStream, VariantView,
};
use crate::text;
use crate::text::push_decimal;
use crate::timing;

verus! {

/// How bad a finding is.
#[derive(Debug, Clone, Copy, PartialEq, Eq, Structural)]
pub enum Severity {
    Warning,
    Error,
}

impl Severity {
    /// The name of the severity.
    pub fn label(self) -> (r: &'static str)
        ensures
            r@ == match self {
                Severity::Warning => "warning"@,
                Severity::Error => "error"@,
            },
    {
        match self {
            Severity::Warning => "warning",
            Severity::Error => "error",
        }
    }
}

/// A conformance or sanity finding, with a severity.
#[derive(Debug, Clone)]
pub struct Issue {
    pub severity: Severity,
    pub message: String,
}

/// A finding, by its text.
pub struct IssueView {
    pub severity: Severity,
    pub message: Seq<char>,
}

impl View for Issue {
    type V = IssueView;

    open spec fn view(&self) -> IssueView {
        IssueView { severity: self.severity, message: self.message@ }
    }
}

/// The findings of a list, by their text.
pub open spec fn issue_views(s: Seq<Issue>) -> Seq<IssueView> {
    Seq::new(s.len(), |i: int| s[i]@)
}

/// A warning with the given text.
pub open spec fn warning(message: Seq<char>) -> IssueView {
    IssueView { severity: Severity::Warning, message }
}

/// An error with the given text.
pub open spec fn error(message: Seq<char>) -> IssueView {
    IssueView { severity: Severity::Error, message }
}

proof fn lemma_views_push(s: Seq<Issue>, x: Issue)
    ensures
        issue_views(s.push(x)) == issue_views(s).push(x@),
{
    assert(issue_views(s.push(x)) =~= issue_views(s).push(x@));
}

impl Issue {
    /// A warning.
    pub fn warn(message: String) -> (r: Issue)
        ensures
            r@ == warning(message@),
    {
        Issue { severity: Severity::Warning, message }
    }

    /// An error.
    pub fn error(message: String) -> (r: Issue)
        ensures
            r@ == error(message@),
    {
        Issue { severity: Severity::Error, message }
    }
}

// ---------------------------------------------------------------------------
// Media playlists
// ---------------------------------------------------------------------------

/// What the probe has to say of a media playlist.
#[derive(Debug, Clone)]
pub struct MediaReport {
    pub is_live: bool,
    pub version: Option<usize>,
    /// `EXT-X-TARGETDURATION` in seconds.
    pub target_duration: u64,
    pub media_sequence: u64,
    pub segment_count: usize,
    pub total_duration: Double,
    pub avg_segment_duration: Double,
    pub discontinuities: usize,
    pub has_program_date_time: bool,
    pub issues: Vec<Issue>,
}

/// The durations of the segments `from` up to but not `to`, added up in order, in
/// seconds.
pub open spec fn summed_durations(segments: Seq<SegmentView>, from: int, to: int) -> Float
    decreases to - from,
{
    if to <= from {
        double::zero()
    } else {
        double::sum(
            summed_durations(segments, from, to - 1),
            double::of_single(segments[to - 1].duration_bits),
        )
    }
}

/// The average of `count` durations that add up to `total`; zero of no segments.
pub open spec fn average_duration(total: Float, count: int) -> Float {
    if count == 0 {
        double::zero()
    } else {
        double::quotient(total, double::of_int(count))
    }
}

/// A duration, rounded to the nearest integer, is above the target duration.
pub open spec fn rounds_above(bits: u32, target: u64) -> bool {
    double::less(double::of_int(target as int), double::to_integer(double::of_single(bits)))
}

/// The finding of a segment that is longer than the target duration.
pub open spec fn too_long(index: int, bits: u32, target: u64) -> IssueView {
    error(
        "segment #"@ + text::decimal(index as nat) + " duration "@ + double::text_of(
            double::of_single(bits),
            3,
        ) + "s exceeds EXT-X-TARGETDURATION "@ + text::decimal(target as nat) + "s"@,
    )
}

/// One finding, in order, for each of the first `n` segments whose duration,
/// rounded to the nearest integer, is above the target duration.
pub open spec fn too_long_issues(segments: Seq<SegmentView>, target: u64, n: nat) -> Seq<IssueView>
    decreases n,
{
    if n == 0 {
        Seq::empty()
    } else {
        let before = too_long_issues(segments, target, (n - 1) as nat);
        let bits = segments[n - 1].duration_bits;
        if rounds_above(bits, target) {
            before.push(too_long(n - 1, bits, target))
        } else {
            before
        }
    }
}

/// How many of the first `n` segments start with a discontinuity.
pub open spec fn discontinuity_count(segments: Seq<SegmentView>, n: nat) -> nat
    decreases n,
{
    if n == 0 {
        0
    } else {
        discontinuity_count(segments, (n - 1) as nat) + if segments[n - 1].discontinuity {
            1nat
        } else {
            0nat
        }
    }
}

/// The seconds by which a wall-clock span is longer than the summed durations.
pub open spec fn drift(span_millis: i64, duration: Float) -> Float {
    double::difference(timing::seconds_of_millis(span_millis), duration)
}

/// A wall-clock span drifts from the summed durations by more than the target.
pub open spec fn drifts(span_millis: i64, duration: Float, target: u64) -> bool {
    double::less(double::zero(), timing::seconds_of_millis(span_millis)) && double::less(
        double::of_int(target as int),
        double::magnitude(drift(span_millis, duration)),
    )
}

/// The finding of a wall-clock drift.
pub open spec fn drift_warning(drift: Float) -> IssueView {
    warning(
        "PDT span and summed segment durations drift by "@ + double::text_of(drift, 1)
            + "s (possible timing gap or encoder clock issue)"@,
    )
}

/// The findings on a wall-clock span against the summed durations.
pub open spec fn drift_issues(span_millis: Option<i64>, duration: Float, target: u64) -> Seq<
    IssueView,
> {
    match span_millis {
        Some(span) if drifts(span, duration, target) => seq![drift_warning(drift(span, duration))],
        _ => Seq::empty(),
    }
}

/// The findings on the dates of a playlist: the time between those of the first
/// and the last dated segment, against the durations from the one up to the other.
pub open spec fn date_issues(segments: Seq<SegmentView>, target: u64) -> Seq<IssueView> {
    match (
        playlist::first_dated(segments, segments.len()),
        playlist::last_dated(segments, segments.len()),
    ) {
        (Some(first), Some(last)) => drift_issues(
            clock::elapsed(date_of(segments, first), date_of(segments, last)),
            summed_durations(segments, first as int, last as int),
            target,
        ),
        _ => Seq::empty(),
    }
}

/// The date of a dated segment.
pub open spec fn date_of(segments: Seq<SegmentView>, i: nat) -> Timestamp {
    segments[i as int].program_date_time->0
}

/// The findings before those on dates.
pub open spec fn structure_issues(p: MediaView) -> Seq<IssueView> {
    let n = p.segments.len();
    let empty = if n == 0 {
        seq![error("playlist contains no segments"@)]
    } else {
        Seq::empty()
    };
    let long = too_long_issues(p.segments, p.target_duration, n);
    let count = discontinuity_count(p.segments, n);
    let breaks = if count > 0 {
        seq![warning(text::decimal(count) + " EXT-X-DISCONTINUITY tag(s) present"@)]
    } else {
        Seq::empty()
    };
    let undated = if playlist::first_dated(p.segments, n) is None && !p.end_list {
        seq![
            warning(
                "no EXT-X-PROGRAM-DATE-TIME tags: live-edge latency cannot be measured"@,
            ),
        ]
    } else {
        Seq::empty()
    };
    empty + long + breaks + undated
}

/// Everything that is found in a media playlist, in order.
pub open spec fn media_issues(p: MediaView) -> Seq<IssueView> {
    structure_issues(p) + date_issues(p.segments, p.target_duration)
}

/// The finding of a segment that is longer than the target duration.
fn too_long_issue(index: usize, bits: u32, target: u64) -> (r: Issue)
    ensures
        r@ == too_long(index as int, bits, target),
{
    let mut message = "segment #".to_owned();
    push_decimal(&mut message, index as u128);
    message.append(" duration ");
    Double::from_single(bits).push_text(&mut message, 3);
    message.append("s exceeds EXT-X-TARGETDURATION ");
    push_decimal(&mut message, target as u128);
    message.append("s");
    Issue::error(message)
}

/// The finding on a wall-clock span of `span_millis` against the summed
/// durations, if there is one.
pub fn drift_issue(span_millis: Option<i64>, duration: Double, target: u64) -> (r: Option<Issue>)
    ensures
        drift_issues(span_millis, duration@, target) == match r {
            Some(i) => seq![i@],
            None => Seq::empty(),
        },
{
    match span_millis {
        Some(millis) => {
            let span = timing::millis_to_seconds(millis);
            let drift = span.minus(duration);
            if Double::zero(false).less_than(span) && Double::from_u64(target).less_than(
                drift.abs(),
            ) {
                let mut message = "PDT span and summed segment durations drift by ".to_owned();
                drift.push_text(&mut message, 1);
                message.append("s (possible timing gap or encoder clock issue)");
                Some(Issue::warn(message))
            } else {
                None
            }
        },
        None => None,
    }
}

/// Is a duration, rounded to the nearest integer, above the target duration?
fn exceeds(bits: u32, target: u64) -> (r: bool)
    ensures
        r == rounds_above(bits, target),
{
    Double::from_u64(target).less_than(Double::from_single(bits).rounded())
}

/// Appends a finding for each segment that is longer than the target duration.
fn push_too_long(pl: &Media, issues: &mut Vec<Issue>)
    ensures
        issue_views(final(issues)@) == issue_views(old(issues)@) + too_long_issues(
            pl@.segments,
            pl.target_duration,
            pl@.segments.len(),
        ),
{
    let ghost before = issue_views(issues@);
    let ghost segments = pl@.segments;
    let mut i: usize = 0;
    assert(issue_views(issues@) =~= before + too_long_issues(segments, pl.target_duration, 0));
    while i < pl.segments.len()
        invariant
            i <= pl.segments.len(),
            segments == pl@.segments,
            issue_views(issues@) == before + too_long_issues(
                segments,
                pl.target_duration,
                i as nat,
            ),
        decreases pl.segments.len() - i,
    {
        let bits: u32 = pl.segments[i].duration_bits;
        assert(segments[i as int].duration_bits == bits);
        if exceeds(bits, pl.target_duration) {
            let issue = too_long_issue(i, bits, pl.target_duration);
            proof {
                lemma_views_push(issues@, issue);
            }
            issues.push(issue);
            assert(issue_views(issues@) =~= before + too_long_issues(
                segments,
                pl.target_duration,
                (i + 1) as nat,
            ));
        }
        i = i + 1;
    }
}

/// The durations of the segments `from` up to but not `to`, added up in order.
fn span(pl: &Media, from: usize, to: usize) -> (r: Double)
    requires
        to <= pl.segments.len(),
    ensures
        r@ == summed_durations(pl@.segments, from as int, to as int),
{
    let mut sum = Double::zero(false);
    let mut i: usize = from;
    while i < to
        invariant
            from <= i,
            from <= to ==> i <= to,
            to <= pl.segments.len(),
            from <= to ==> sum@ == summed_durations(pl@.segments, from as int, i as int),
            from > to ==> sum@ == double::zero(),
        decreases to - i,
    {
        let bits: u32 = pl.segments[i].duration_bits;
        assert(pl@.segments[i as int].duration_bits == bits);
        sum = sum.plus(Double::from_single(bits));
        i = i + 1;
    }
    sum
}

/// Run RFC 8216 sanity checks on a media playlist.
pub fn analyze_media(pl: &Media) -> (r: MediaReport)
    ensures
        r.is_live == !pl.end_list,
        r.version == pl.version,
        r.target_duration == pl.target_duration,
        r.media_sequence == pl.media_sequence,
        r.segment_count == pl.segments.len(),
        r.total_duration@ == summed_durations(pl@.segments, 0, pl@.segments.len() as int),
        r.avg_segment_duration@ == average_duration(
            r.total_duration@,
            pl.segments.len() as int,
        ),
        r.discontinuities == discontinuity_count(pl@.segments, pl@.segments.len()),
        r.has_program_date_time <==> exists|i: int|
            0 <= i < pl.segments.len() && (#[trigger] pl.segments[i]).program_date_time is Some,
        issue_views(r.issues@) == media_issues(pl@),
        match (
            playlist::first_dated(pl@.segments, pl@.segments.len()),
            playlist::last_dated(pl@.segments, pl@.segments.len()),
        ) {
            (Some(first), Some(last)) => clock::elapsed_on_the_line(
                date_of(pl@.segments, first),
                date_of(pl@.segments, last),
            ),
            _ => true,
        },
{
    let ghost segments = pl@.segments;
    let count: usize = pl.segments.len();
    let mut issues: Vec<Issue> = Vec::new();
    if count == 0 {
        issues.push(Issue::error("playlist contains no segments".to_owned()));
    }
    assert(issue_views(issues@) =~= if count == 0 {
        seq![error("playlist contains no segments"@)]
    } else {
        Seq::empty()
    });
    push_too_long(pl, &mut issues);

    let mut discontinuities: usize = 0;
    let mut first: Option<usize> = None;
    let mut last: Option<usize> = None;
    let mut i: usize = 0;
    while i < count
        invariant
            i <= count == pl.segments.len(),
            segments == pl@.segments,
            discontinuities == discontinuity_count(segments, i as nat),
            discontinuities <= i,
            playlist::index_of(first) == playlist::first_dated(segments, i as nat),
            playlist::index_of(last) == playlist::last_dated(segments, i as nat),
            first is Some <==> last is Some,
            first is Some <==> exists|j: int|
                0 <= j < i && (#[trigger] pl.segments[j]).program_date_time is Some,
        decreases count - i,
    {
        let segment = &pl.segments[i];
        assert(segments[i as int] == segment@);
        if segment.discontinuity {
            discontinuities = discontinuities + 1;
        }
        if segment.program_date_time.is_some() {
            assert(pl.segments[i as int].program_date_time is Some);
            if first.is_none() {
                first = Some(i);
            }
            last = Some(i);
        }
        i = i + 1;
    }
    if discontinuities > 0 {
        let mut message = String::new();
        push_decimal(&mut message, discontinuities as u128);
        message.append(" EXT-X-DISCONTINUITY tag(s) present");
        let issue = Issue::warn(message);
        assert(issue@ == warning(
            text::decimal(discontinuities as nat) + " EXT-X-DISCONTINUITY tag(s) present"@,
        )) by {
            assert(Seq::<char>::empty() + text::decimal(discontinuities as nat) =~= text::decimal(
                discontinuities as nat,
            ));
        }
        proof {
            lemma_views_push(issues@, issue);
        }
        issues.push(issue);
    }
    if first.is_none() && !pl.end_list {
        let issue = Issue::warn(
            "no EXT-X-PROGRAM-DATE-TIME tags: live-edge latency cannot be measured".to_owned(),
        );
        proof {
            lemma_views_push(issues@, issue);
        }
        issues.push(issue);
    }
    assert(issue_views(issues@) =~= structure_issues(pl@));
    if let (Some(from), Some(to)) = (first, last) {
        proof {
            playlist::dated_segments_are_outermost(segments, count as nat);
            assert(segments[from as int] == pl.segments[from as int]@);
            assert(segments[to as int] == pl.segments[to as int]@);
        }
        let elapsed = clock::elapsed_millis(
            pl.segments[from].program_date_time.unwrap(),
            pl.segments[to].program_date_time.unwrap(),
        );
        let duration = span(pl, from, to);
        if let Some(issue) = drift_issue(elapsed, duration, pl.target_duration) {
            proof {
                lemma_views_push(issues@, issue);
            }
            issues.push(issue);
        }
    }
    assert(issue_views(issues@) =~= media_issues(pl@));

    let total_duration = span(pl, 0, count);
    let avg_segment_duration = if count > 0 {
        total_duration.over(Double::from_u64(count as u64))
    } else {
        Double::zero(false)
    };
    MediaReport {
        is_live: !pl.end_list,
        version: pl.version,
        target_duration: pl.target_duration,
        media_sequence: pl.media_sequence,
        segment_count: count,
        total_duration,
        avg_segment_duration,
        discontinuities,
        has_program_date_time: first.is_some(),
        issues,
    }
}

// ---------------------------------------------------------------------------
// Master playlists
// ---------------------------------------------------------------------------

/// One rung of the ABR ladder.
#[derive(Debug, Clone)]
pub struct VariantInfo {
    pub uri: String,
    pub bandwidth: u64,
    pub average_bandwidth: Option<u64>,
    /// Width and height, as in `1920x1080`.
    pub resolution: Option<String>,
    pub codecs: Option<String>,
    pub frame_rate: Option<String>,
    pub audio_group: Option<String>,
    pub subtitles_group: Option<String>,
}

/// A rung of the ladder, by its text.
pub struct VariantInfoView {
    pub uri: Seq<char>,
    pub bandwidth: u64,
    pub average_bandwidth: Option<u64>,
    pub resolution: Option<Seq<char>>,
    pub codecs: Option<Seq<char>>,
    pub frame_rate: Option<Seq<char>>,
    pub audio_group: Option<Seq<char>>,
    pub subtitles_group: Option<Seq<char>>,
}

impl View for VariantInfo {
    type V = VariantInfoView;

    open spec fn view(&self) -> VariantInfoView {
        VariantInfoView {
            uri: self.uri@,
            bandwidth: self.bandwidth,
            average_bandwidth: self.average_bandwidth,
            resolution: text::optional(self.resolution),
            codecs: text::optional(self.codecs),
            frame_rate: text::optional(self.frame_rate),
            audio_group: text::optional(self.audio_group),
            subtitles_group: text::optional(self.subtitles_group),
        }
    }
}

/// The rungs of a list, by their text.
pub open spec fn info_views(s: Seq<VariantInfo>) -> Seq<VariantInfoView> {
    Seq::new(s.len(), |i: int| s[i]@)
}

/// An audio or subtitle rendition.
#[derive(Debug, Clone)]
pub struct RenditionInfo {
    pub group_id: String,
    pub name: String,
    pub language: Option<String>,
    pub uri: Option<String>,
    pub default: bool,
    pub channels: Option<String>,
    pub characteristics: Option<String>,
}

/// A rendition, by its text.
pub struct RenditionInfoView {
    pub group_id: Seq<char>,
    pub name: Seq<char>,
    pub language: Option<Seq<char>>,
    pub uri: Option<Seq<char>>,
    pub default: bool,
    pub channels: Option<Seq<char>>,
    pub characteristics: Option<Seq<char>>,
}

impl View for RenditionInfo {
    type V = RenditionInfoView;

    open spec fn view(&self) -> RenditionInfoView {
        RenditionInfoView {
            group_id: self.group_id@,
            name: self.name@,
            language: text::optional(self.language),
            uri: text::optional(self.uri),
            default: self.default,
            channels: text::optional(self.channels),
            characteristics: text::optional(self.characteristics),
        }
    }
}

/// The renditions of a list, by their text.
pub open spec fn rendition_views(s: Seq<RenditionInfo>) -> Seq<RenditionInfoView> {
    Seq::new(s.len(), |i: int| s[i]@)
}

/// What the probe has to say of a master playlist.
#[derive(Debug, Clone)]
pub struct MasterReport {
    pub variants: Vec<VariantInfo>,
    pub iframe_variants: Vec<VariantInfo>,
    pub audio: Vec<RenditionInfo>,
    pub subtitles: Vec<RenditionInfo>,
    pub issues: Vec<Issue>,
}

/// A resolution as text.
pub open spec fn resolution_text(r: Resolution) -> Seq<char> {
    text::decimal(r.width as nat) + "x"@ + text::decimal(r.height as nat)
}

/// The rung that a variant stream makes.
pub open spec fn variant_info(v: VariantView) -> VariantInfoView {
    VariantInfoView {
        uri: v.uri,
        bandwidth: v.bandwidth,
        average_bandwidth: v.average_bandwidth,
        resolution: match v.resolution {
            Some(r) => Some(resolution_text(r)),
            None => None,
        },
        codecs: v.codecs,
        frame_rate: v.frame_rate,
        audio_group: v.audio,
        subtitles_group: v.subtitles,
    }
}

/// How many leading entries of `order` have at least the bandwidth `b`.
pub open spec fn rank(variants: Seq<VariantView>, order: Seq<int>, b: u64) -> nat
    decreases order.len(),
{
    if order.len() > 0 && variants[order[0]].bandwidth >= b {
        1 + rank(variants, order.drop_first(), b)
    } else {
        0
    }
}

/// The i-frame streams (or the others) among the first `n` variants, by their
/// index: each goes in after those with at least its bandwidth.
pub open spec fn ladder(variants: Seq<VariantView>, i_frame: bool, n: nat) -> Seq<int>
    decreases n,
{
    if n == 0 {
        Seq::empty()
    } else {
        let before = ladder(variants, i_frame, (n - 1) as nat);
        let v = variants[n - 1];
        if v.is_i_frame == i_frame {
            before.insert(rank(variants, before, v.bandwidth) as int, n - 1)
        } else {
            before
        }
    }
}

/// The rungs at the given indices.
pub open spec fn rungs(variants: Seq<VariantView>, order: Seq<int>) -> Seq<VariantInfoView> {
    Seq::new(order.len(), |i: int| variant_info(variants[order[i]]))
}

/// What is listed of a rendition.
pub open spec fn rendition_info(a: AlternativeView) -> RenditionInfoView {
    RenditionInfoView {
        group_id: a.group_id,
        name: a.name,
        language: a.language,
        uri: a.uri,
        default: a.default,
        channels: a.channels,
        characteristics: a.characteristics,
    }
}

/// The renditions of one type among the first `n`, in order.
pub open spec fn renditions_of(
    alternatives: Seq<AlternativeView>,
    media_type: Seq<char>,
    n: nat,
) -> Seq<RenditionInfoView>
    decreases n,
{
    if n == 0 {
        Seq::empty()
    } else {
        let before = renditions_of(alternatives, media_type, (n - 1) as nat);
        if alternatives[n - 1].media_type == media_type {
            before.push(rendition_info(alternatives[n - 1]))
        } else {
            before
        }
    }
}

/// The findings on missing attributes of one variant.
pub open spec fn attribute_issues(v: VariantView) -> Seq<IssueView> {
    let codecs = if v.codecs is None {
        seq![
            warning(
                "variant '"@ + v.uri
                    + "' has no CODECS attribute (hurts player startup decisions)"@,
            ),
        ]
    } else {
        Seq::empty()
    };
    let resolution = if v.resolution is None {
        seq![warning("variant '"@ + v.uri + "' has no RESOLUTION attribute"@)]
    } else {
        Seq::empty()
    };
    codecs + resolution
}

/// The findings on missing attributes of the first `n` variants.
pub open spec fn all_attribute_issues(variants: Seq<VariantView>, n: nat) -> Seq<IssueView>
    decreases n,
{
    if n == 0 {
        Seq::empty()
    } else {
        all_attribute_issues(variants, (n - 1) as nat) + attribute_issues(variants[n - 1])
    }
}

/// One of the first `n` variants has the bandwidth `b`.
pub open spec fn bandwidth_seen(variants: Seq<VariantView>, b: u64, n: int) -> bool {
    exists|j: int| 0 <= j < n && (#[trigger] variants[j]).bandwidth == b
}

/// One finding for each of the first `n` variants whose bandwidth an earlier one
/// has already.
pub open spec fn duplicate_issues(variants: Seq<VariantView>, n: nat) -> Seq<IssueView>
    decreases n,
{
    if n == 0 {
        Seq::empty()
    } else {
        let before = duplicate_issues(variants, (n - 1) as nat);
        let b = variants[n - 1].bandwidth;
        if bandwidth_seen(variants, b, n - 1) {
            before.push(
                warning(
                    "duplicate BANDWIDTH value "@ + text::decimal(b as nat) + " across variants"@,
                ),
            )
        } else {
            before
        }
    }
}

/// A rendition of the given type declares the group.
pub open spec fn group_declared(
    alternatives: Seq<AlternativeView>,
    media_type: Seq<char>,
    group: Seq<char>,
) -> bool {
    exists|i: int|
        0 <= i < alternatives.len() && (#[trigger] alternatives[i]).media_type == media_type
            && alternatives[i].group_id == group
}

/// The finding on a reference to a rendition group, if nothing declares it.
pub open spec fn group_issues(
    alternatives: Seq<AlternativeView>,
    uri: Seq<char>,
    media_type: Seq<char>,
    group: Option<Seq<char>>,
) -> Seq<IssueView> {
    match group {
        Some(g) if !group_declared(alternatives, media_type, g) => seq![
            error(
                "variant '"@ + uri + "' references undeclared "@ + media_type + " group '"@ + g
                    + "'"@,
            ),
        ],
        _ => Seq::empty(),
    }
}

/// The group that `CLOSED-CAPTIONS` refers to.
pub open spec fn captions_group(c: Option<ClosedCaptionsView>) -> Option<Seq<char>> {
    match c {
        Some(ClosedCaptionsView::GroupId(g)) => Some(g),
        _ => None,
    }
}

/// The findings on the rendition groups that one variant refers to.
pub open spec fn reference_issues(alternatives: Seq<AlternativeView>, v: VariantView) -> Seq<
    IssueView,
> {
    group_issues(alternatives, v.uri, "AUDIO"@, v.audio) + group_issues(
        alternatives,
        v.uri,
        "VIDEO"@,
        v.video,
    ) + group_issues(alternatives, v.uri, "SUBTITLES"@, v.subtitles) + group_issues(
        alternatives,
        v.uri,
        "CLOSED-CAPTIONS"@,
        captions_group(v.closed_captions),
    )
}

/// The findings on the rendition groups that the first `n` variants refer to.
pub open spec fn all_reference_issues(p: MasterView, n: nat) -> Seq<IssueView>
    decreases n,
{
    if n == 0 {
        Seq::empty()
    } else {
        all_reference_issues(p, (n - 1) as nat) + reference_issues(
            p.alternatives,
            p.variants[n - 1],
        )
    }
}

/// Everything that is found in a master playlist, in order.
pub open spec fn master_issues(p: MasterView) -> Seq<IssueView> {
    let n = p.variants.len();
    let empty = if n == 0 {
        seq![error("master playlist declares no variant streams"@)]
    } else {
        Seq::empty()
    };
    empty + all_attribute_issues(p.variants, n) + duplicate_issues(p.variants, n)
        + all_reference_issues(p, n)
}

/// The rung that a variant stream makes.
fn rung(v: &VariantStream) -> (r: VariantInfo)
    ensures
        r@ == variant_info(v@),
{
    let resolution = match v.resolution {
        Some(size) => {
            let mut s = String::new();
            push_decimal(&mut s, size.width as u128);
            s.append("x");
            push_decimal(&mut s, size.height as u128);
            assert(s@ =~= resolution_text(size));
            Some(s)
        },
        None => None,
    };
    VariantInfo {
        uri: v.uri.clone(),
        bandwidth: v.bandwidth,
        average_bandwidth: v.average_bandwidth,
        resolution,
        codecs: text::copy(&v.codecs),
        frame_rate: text::copy(&v.frame_rate),
        audio_group: text::copy(&v.audio),
        subtitles_group: text::copy(&v.subtitles),
    }
}

/// The i-frame streams (or the others) as rungs, by falling bandwidth; streams
/// of equal bandwidth stay in order.
fn rungs_of(variants: &Vec<VariantStream>, i_frame: bool) -> (r: Vec<VariantInfo>)
    ensures
        info_views(r@) == rungs(
            playlist::variant_views(variants@),
            ladder(playlist::variant_views(variants@), i_frame, variants@.len()),
        ),
{
    let ghost views = playlist::variant_views(variants@);
    let mut out: Vec<VariantInfo> = Vec::new();
    let ghost mut order: Seq<int> = Seq::empty();
    let mut i: usize = 0;
    assert(info_views(out@) =~= rungs(views, order));
    while i < variants.len()
        invariant
            i <= variants.len(),
            views == playlist::variant_views(variants@),
            order == ladder(views, i_frame, i as nat),
            info_views(out@) == rungs(views, order),
        decreases variants.len() - i,
    {
        let v = &variants[i];
        assert(views[i as int] == v@);
        if v.is_i_frame == i_frame {
            let mut p: usize = 0;
            assert(order.skip(0) =~= order);
            assert(info_views(out@).len() == out@.len() && rungs(views, order).len() == order.len());
            while p < out.len() && out[p].bandwidth >= v.bandwidth
                invariant
                    p <= out.len(),
                    out.len() == order.len(),
                    info_views(out@) == rungs(views, order),
                    rank(views, order, v.bandwidth) == p + rank(
                        views,
                        order.skip(p as int),
                        v.bandwidth,
                    ),
                decreases out.len() - p,
            {
                proof {
                    assert(info_views(out@)[p as int] == rungs(views, order)[p as int]);
                    assert(order.skip(p as int)[0] == order[p as int]);
                    assert(order.skip(p as int).drop_first() =~= order.skip(p + 1));
                }
                p = p + 1;
            }
            proof {
                if p < out.len() {
                    assert(info_views(out@)[p as int] == rungs(views, order)[p as int]);
                    assert(order.skip(p as int)[0] == order[p as int]);
                }
                assert(rank(views, order, v.bandwidth) == p);
            }
            let info = rung(v);
            let ghost before = out@;
            out.insert(p, info);
            proof {
                let grown = order.insert(p as int, i as int);
                assert(info_views(out@) =~= rungs(views, grown)) by {
                    assert forall|j: int| 0 <= j < out@.len() implies info_views(out@)[j] == rungs(
                        views,
                        grown,
                    )[j] by {
                        if j < p {
                            assert(info_views(before)[j] == rungs(views, order)[j]);
                        } else if j > p {
                            assert(info_views(before)[j - 1] == rungs(views, order)[j - 1]);
                        }
                    }
                }
                order = grown;
            }
        }
        i = i + 1;
    }
    out
}

/// The renditions of one type, in order.
fn list_renditions(alternatives: &Vec<AlternativeMedia>, media_type: &str) -> (r: Vec<
    RenditionInfo,
>)
    ensures
        rendition_views(r@) == renditions_of(
            playlist::alternative_views(alternatives@),
            media_type@,
            alternatives@.len(),
        ),
{
    let ghost views = playlist::alternative_views(alternatives@);
    let mut out: Vec<RenditionInfo> = Vec::new();
    let mut i: usize = 0;
    assert(rendition_views(out@) =~= renditions_of(views, media_type@, 0));
    while i < alternatives.len()
        invariant
            i <= alternatives.len(),
            views == playlist::alternative_views(alternatives@),
            rendition_views(out@) == renditions_of(views, media_type@, i as nat),
        decreases alternatives.len() - i,
    {
        let a = &alternatives[i];
        assert(views[i as int] == a@);
        if text::same(a.media_type.as_str(), media_type) {
            let info = RenditionInfo {
                group_id: a.group_id.clone(),
                name: a.name.clone(),
                language: text::copy(&a.language),
                uri: text::copy(&a.uri),
                default: a.default,
                channels: text::copy(&a.channels),
                characteristics: text::copy(&a.characteristics),
            };
            let ghost before = out@;
            out.push(info);
            assert(rendition_views(out@) =~= rendition_views(before).push(rendition_info(a@)));
        }
        i = i + 1;
    }
    out
}

/// Does a rendition of the given type declare the group?
fn is_declared(alternatives: &Vec<AlternativeMedia>, media_type: &str, group: &str) -> (r: bool)
    ensures
        r == group_declared(
            playlist::alternative_views(alternatives@),
            media_type@,
            group@,
        ),
{
    let ghost views = playlist::alternative_views(alternatives@);
    let mut i: usize = 0;
    while i < alternatives.len()
        invariant
            i <= alternatives.len(),
            views == playlist::alternative_views(alternatives@),
            forall|j: int|
                0 <= j < i ==> !((#[trigger] views[j]).media_type == media_type@
                    && views[j].group_id == group@),
        decreases alternatives.len() - i,
    {
        let a = &alternatives[i];
        assert(views[i as int] == a@);
        if text::same(a.media_type.as_str(), media_type) && text::same(a.group_id.as_str(), group) {
            return true;
        }
        i = i + 1;
    }
    false
}

/// Appends the finding on a reference to a rendition group, if nothing
/// declares it.
fn push_group_issue(
    issues: &mut Vec<Issue>,
    alternatives: &Vec<AlternativeMedia>,
    uri: &str,
    media_type: &str,
    group: &Option<String>,
)
    ensures
        issue_views(final(issues)@) == issue_views(old(issues)@) + group_issues(
            playlist::alternative_views(alternatives@),
            uri@,
            media_type@,
            text::optional(*group),
        ),
{
    let ghost before = issue_views(issues@);
    if let Some(g) = group {
        if !is_declared(alternatives, media_type, g.as_str()) {
            let mut message = "variant '".to_owned();
            message.append(uri);
            message.append("' references undeclared ");
            message.append(media_type);
            message.append(" group '");
            message.append(g.as_str());
            message.append("'");
            let issue = Issue::error(message);
            proof {
                lemma_views_push(issues@, issue);
            }
            issues.push(issue);
        }
    }
    assert(issue_views(issues@) =~= before + group_issues(
        playlist::alternative_views(alternatives@),
        uri@,
        media_type@,
        text::optional(*group),
    ));
}

/// Appends the findings on the rendition groups that a variant refers to.
fn push_reference_issues(
    issues: &mut Vec<Issue>,
    alternatives: &Vec<AlternativeMedia>,
    v: &VariantStream,
)
    ensures
        issue_views(final(issues)@) == issue_views(old(issues)@) + reference_issues(
            playlist::alternative_views(alternatives@),
            v@,
        ),
{
    let ghost before = issue_views(issues@);
    let uri = v.uri.as_str();
    push_group_issue(issues, alternatives, uri, "AUDIO", &v.audio);
    push_group_issue(issues, alternatives, uri, "VIDEO", &v.video);
    push_group_issue(issues, alternatives, uri, "SUBTITLES", &v.subtitles);
    let captions = match &v.closed_captions {
        Some(ClosedCaptions::GroupId(g)) => Some(g.clone()),
        _ => None,
    };
    push_group_issue(issues, alternatives, uri, "CLOSED-CAPTIONS", &captions);
    assert(issue_views(issues@) =~= before + reference_issues(
        playlist::alternative_views(alternatives@),
        v@,
    ));
}

/// Appends the findings on missing attributes of a variant.
fn push_attribute_issues(issues: &mut Vec<Issue>, v: &VariantStream)
    ensures
        issue_views(final(issues)@) == issue_views(old(issues)@) + attribute_issues(v@),
{
    let ghost before = issue_views(issues@);
    if v.codecs.is_none() {
        let mut message = "variant '".to_owned();
        message.append(v.uri.as_str());
        message.append("' has no CODECS attribute (hurts player startup decisions)");
        let issue = Issue::warn(message);
        proof {
            lemma_views_push(issues@, issue);
        }
        issues.push(issue);
    }
    if v.resolution.is_none() {
        let mut message = "variant '".to_owned();
        message.append(v.uri.as_str());
        message.append("' has no RESOLUTION attribute");
        let issue = Issue::warn(message);
        proof {
            lemma_views_push(issues@, issue);
        }
        issues.push(issue);
    }
    assert(issue_views(issues@) =~= before + attribute_issues(v@));
}

/// Appends a finding for each variant whose bandwidth an earlier one has already.
fn push_duplicate_issues(issues: &mut Vec<Issue>, variants: &Vec<VariantStream>)
    ensures
        issue_views(final(issues)@) == issue_views(old(issues)@) + duplicate_issues(
            playlist::variant_views(variants@),
            variants@.len(),
        ),
{
    broadcast use vstd::std_specs::hash::group_hash_axioms;

    let ghost before = issue_views(issues@);
    let ghost views = playlist::variant_views(variants@);
    let mut seen: HashSet<u64> = HashSet::new();
    let mut i: usize = 0;
    assert(issue_views(issues@) =~= before + duplicate_issues(views, 0));
    while i < variants.len()
        invariant
            i <= variants.len(),
            views == playlist::variant_views(variants@),
            issue_views(issues@) == before + duplicate_issues(views, i as nat),
            forall|b: u64| #[trigger] seen@.contains(b) <==> bandwidth_seen(views, b, i as int),
        decreases variants.len() - i,
    {
        let b: u64 = variants[i].bandwidth;
        assert(views[i as int].bandwidth == b);
        let ghost known = seen@;
        let fresh: bool = seen.insert(b);
        if !fresh {
            let mut message = "duplicate BANDWIDTH value ".to_owned();
            push_decimal(&mut message, b as u128);
            message.append(" across variants");
            let issue = Issue::warn(message);
            proof {
                lemma_views_push(issues@, issue);
            }
            issues.push(issue);
        }
        assert(issue_views(issues@) =~= before + duplicate_issues(views, (i + 1) as nat));
        assert forall|c: u64| #[trigger] seen@.contains(c) <==> bandwidth_seen(views, c, i + 1) by {
            if c != b && bandwidth_seen(views, c, i + 1) {
                assert(bandwidth_seen(views, c, i as int));
            }
            if bandwidth_seen(views, c, i as int) {
                assert(bandwidth_seen(views, c, i + 1));
            }
        }
        i = i + 1;
    }
}

/// Lists what a master playlist declares, and runs sanity checks on it.
pub fn analyze_master(pl: &Master) -> (r: MasterReport)
    ensures
        info_views(r.variants@) == rungs(
            pl@.variants,
            ladder(pl@.variants, false, pl@.variants.len()),
        ),
        info_views(r.iframe_variants@) == rungs(
            pl@.variants,
            ladder(pl@.variants, true, pl@.variants.len()),
        ),
        rendition_views(r.audio@) == renditions_of(
            pl@.alternatives,
            "AUDIO"@,
            pl@.alternatives.len(),
        ),
        rendition_views(r.subtitles@) == renditions_of(
            pl@.alternatives,
            "SUBTITLES"@,
            pl@.alternatives.len(),
        ),
        issue_views(r.issues@) == master_issues(pl@),
{
    let mut issues: Vec<Issue> = Vec::new();
    let count: usize = pl.variants.len();
    if count == 0 {
        issues.push(Issue::error("master playlist declares no variant streams".to_owned()));
    }
    let ghost start = issue_views(issues@);
    assert(start =~= if count == 0 {
        seq![error("master playlist declares no variant streams"@)]
    } else {
        Seq::empty()
    });
    let mut i: usize = 0;
    assert(issue_views(issues@) =~= start + all_attribute_issues(pl@.variants, 0));
    while i < count
        invariant
            i <= count == pl.variants.len(),
            issue_views(issues@) == start + all_attribute_issues(pl@.variants, i as nat),
        decreases count - i,
    {
        assert(pl@.variants[i as int] == pl.variants[i as int]@);
        push_attribute_issues(&mut issues, &pl.variants[i]);
        assert(issue_views(issues@) =~= start + all_attribute_issues(
            pl@.variants,
            (i + 1) as nat,
        ));
        i = i + 1;
    }
    push_duplicate_issues(&mut issues, &pl.variants);
    let ghost middle = issue_views(issues@);
    let mut k: usize = 0;
    assert(issue_views(issues@) =~= middle + all_reference_issues(pl@, 0));
    while k < count
        invariant
            k <= count == pl.variants.len(),
            issue_views(issues@) == middle + all_reference_issues(pl@, k as nat),
        decreases count - k,
    {
        assert(pl@.variants[k as int] == pl.variants[k as int]@);
        push_reference_issues(&mut issues, &pl.alternatives, &pl.variants[k]);
        assert(issue_views(issues@) =~= middle + all_reference_issues(pl@, (k + 1) as nat));
        k = k + 1;
    }
    assert(issue_views(issues@) =~= master_issues(pl@));
    MasterReport {
        variants: rungs_of(&pl.variants, false),
        iframe_variants: rungs_of(&pl.variants, true),
        audio: list_renditions(&pl.alternatives, "AUDIO"),
        subtitles: list_renditions(&pl.alternatives, "SUBTITLES"),
        issues,
    }
}

// ---------------------------------------------------------------------------
// What holds of the findings and of the ladder
// ---------------------------------------------------------------------------

/// One of the findings is an error.
pub open spec fn has_error(issues: Seq<IssueView>) -> bool {
    exists|i: int| 0 <= i < issues.len() && (#[trigger] issues[i]).severity == Severity::Error
}

/// Errors in either part are errors in the whole.
pub proof fn lemma_error_in_parts(a: Seq<IssueView>, b: Seq<IssueView>)
    ensures
        has_error(a + b) <==> has_error(a) || has_error(b),
{
    if has_error(a) {
        let i = choose|i: int|
            0 <= i < a.len() && (#[trigger] a[i]).severity == Severity::Error;
        assert((a + b)[i] == a[i]);
    }
    if has_error(b) {
        let i = choose|i: int|
            0 <= i < b.len() && (#[trigger] b[i]).severity == Severity::Error;
        assert((a + b)[a.len() + i] == b[i]);
    }
    if has_error(a + b) {
        let i = choose|i: int|
            0 <= i < (a + b).len() && (#[trigger] (a + b)[i]).severity == Severity::Error;
        if i < a.len() {
            assert(a[i].severity == Severity::Error);
        } else {
            assert(b[i - a.len()].severity == Severity::Error);
        }
    }
}

/// A segment is too long for the target duration.
pub open spec fn some_too_long(p: MediaView) -> bool {
    exists|i: int|
        0 <= i < p.segments.len() && rounds_above(
            (#[trigger] p.segments[i]).duration_bits,
            p.target_duration,
        )
}

proof fn lemma_too_long_issues(segments: Seq<SegmentView>, target: u64, n: nat)
    requires
        n <= segments.len(),
    ensures
        has_error(too_long_issues(segments, target, n)) <==> exists|i: int|
            0 <= i < n && rounds_above((#[trigger] segments[i]).duration_bits, target),
        too_long_issues(segments, target, n).len() == 0 <==> forall|i: int|
            0 <= i < n ==> !rounds_above((#[trigger] segments[i]).duration_bits, target),
    decreases n,
{
    if n > 0 {
        let before = too_long_issues(segments, target, (n - 1) as nat);
        lemma_too_long_issues(segments, target, (n - 1) as nat);
        if rounds_above(segments[n - 1].duration_bits, target) {
            let all = too_long_issues(segments, target, n);
            assert(all[before.len() as int].severity == Severity::Error);
        }
    }
}

/// A media playlist has an error-level finding exactly if it has no segments, or
/// a segment whose duration, rounded to the nearest integer, exceeds the target
/// duration.
pub proof fn media_errors(p: MediaView)
    ensures
        has_error(media_issues(p)) <==> p.segments.len() == 0 || some_too_long(p),
{
    let n = p.segments.len();
    let empty = if n == 0 {
        seq![error("playlist contains no segments"@)]
    } else {
        Seq::empty()
    };
    if n == 0 {
        assert(empty[0].severity == Severity::Error);
    }
    let long = too_long_issues(p.segments, p.target_duration, n);
    let count = discontinuity_count(p.segments, n);
    let breaks = if count > 0 {
        seq![warning(text::decimal(count) + " EXT-X-DISCONTINUITY tag(s) present"@)]
    } else {
        Seq::empty()
    };
    let undated = if playlist::first_dated(p.segments, n) is None && !p.end_list {
        seq![
            warning(
                "no EXT-X-PROGRAM-DATE-TIME tags: live-edge latency cannot be measured"@,
            ),
        ]
    } else {
        Seq::empty()
    };
    lemma_too_long_issues(p.segments, p.target_duration, n);
    lemma_error_in_parts(empty, long);
    lemma_error_in_parts(empty + long, breaks);
    lemma_error_in_parts(empty + long + breaks, undated);
    lemma_error_in_parts(structure_issues(p), date_issues(p.segments, p.target_duration));
}

/// A media playlist has no finding at all exactly if it has segments, none too
/// long and none after a discontinuity, if it is dated where it is live, and if
/// its dates do not drift.
pub proof fn clean_media(p: MediaView)
    ensures
        media_issues(p).len() == 0 <==> {
            &&& p.segments.len() > 0
            &&& !some_too_long(p)
            &&& discontinuity_count(p.segments, p.segments.len()) == 0
            &&& p.end_list || playlist::first_dated(p.segments, p.segments.len()) is Some
            &&& date_issues(p.segments, p.target_duration).len() == 0
        },
{
    lemma_too_long_issues(p.segments, p.target_duration, p.segments.len());
}

/// No drift is reported while the wall clock and the summed durations agree to
/// within the target duration.
pub proof fn small_drift_is_quiet(span_millis: i64, duration: Float, target: u64)
    requires
        !double::less(
            double::of_int(target as int),
            double::magnitude(drift(span_millis, duration)),
        ),
    ensures
        drift_issues(Some(span_millis), duration, target).len() == 0,
{
}

proof fn lemma_reference_errors(p: MasterView, n: nat)
    requires
        n <= p.variants.len(),
    ensures
        has_error(all_reference_issues(p, n)) <==> exists|i: int|
            0 <= i < n && reference_issues(p.alternatives, #[trigger] p.variants[i]).len() > 0,
    decreases n,
{
    if n > 0 {
        lemma_reference_errors(p, (n - 1) as nat);
        let last = reference_issues(p.alternatives, p.variants[n - 1]);
        lemma_error_in_parts(all_reference_issues(p, (n - 1) as nat), last);
        if last.len() > 0 {
            assert(last[0].severity == Severity::Error);
        }
    }
}

proof fn lemma_attribute_warnings(variants: Seq<VariantView>, n: nat)
    requires
        n <= variants.len(),
    ensures
        !has_error(all_attribute_issues(variants, n)),
        !has_error(duplicate_issues(variants, n)),
    decreases n,
{
    if n > 0 {
        lemma_attribute_warnings(variants, (n - 1) as nat);
        lemma_error_in_parts(
            all_attribute_issues(variants, (n - 1) as nat),
            attribute_issues(variants[n - 1]),
        );
        let before = duplicate_issues(variants, (n - 1) as nat);
        let all = duplicate_issues(variants, n);
        assert forall|i: int| 0 <= i < all.len() implies (#[trigger] all[i]).severity
            != Severity::Error by {
            if i < before.len() {
                assert(all[i] == before[i]);
            }
        }
    }
}

/// A master playlist has an error-level finding exactly if it declares no
/// variants, or one of them refers to a rendition group that nothing declares.
pub proof fn master_errors(p: MasterView)
    ensures
        has_error(master_issues(p)) <==> p.variants.len() == 0 || exists|i: int|
            0 <= i < p.variants.len() && reference_issues(
                p.alternatives,
                #[trigger] p.variants[i],
            ).len() > 0,
{
    let n = p.variants.len();
    let empty = if n == 0 {
        seq![error("master playlist declares no variant streams"@)]
    } else {
        Seq::empty()
    };
    if n == 0 {
        assert(empty[0].severity == Severity::Error);
    }
    let attributes = all_attribute_issues(p.variants, n);
    let duplicates = duplicate_issues(p.variants, n);
    lemma_attribute_warnings(p.variants, n);
    lemma_reference_errors(p, n);
    lemma_error_in_parts(empty, attributes);
    lemma_error_in_parts(empty + attributes, duplicates);
    lemma_error_in_parts(empty + attributes + duplicates, all_reference_issues(p, n));
}

/// Bandwidths are reported as duplicate exactly if two variants share one.
pub proof fn duplicates_are_reported(variants: Seq<VariantView>, n: nat)
    requires
        n <= variants.len(),
    ensures
        duplicate_issues(variants, n).len() > 0 <==> exists|i: int, j: int|
            0 <= i < j < n && (#[trigger] variants[i]).bandwidth == (
            #[trigger] variants[j]).bandwidth,
    decreases n,
{
    if n > 0 {
        duplicates_are_reported(variants, (n - 1) as nat);
        if bandwidth_seen(variants, variants[n - 1].bandwidth, n - 1) {
            let j = choose|j: int|
                0 <= j < n - 1 && (#[trigger] variants[j]).bandwidth == variants[n - 1].bandwidth;
            assert(variants[j].bandwidth == variants[n - 1].bandwidth);
        }
    }
}

/// The bandwidths fall along `order`, and those of equal bandwidth keep the order
/// of the playlist.
pub open spec fn falls(variants: Seq<VariantView>, order: Seq<int>) -> bool {
    forall|i: int, j: int|
        0 <= i < j < order.len() ==> {
            ||| variants[#[trigger] order[i]].bandwidth > variants[#[trigger] order[j]].bandwidth
            ||| variants[order[i]].bandwidth == variants[order[j]].bandwidth && order[i] < order[j]
        }
}

proof fn lemma_rank(variants: Seq<VariantView>, order: Seq<int>, b: u64)
    requires
        falls(variants, order),
    ensures
        rank(variants, order, b) <= order.len(),
        forall|i: int|
            0 <= i < rank(variants, order, b) ==> variants[#[trigger] order[i]].bandwidth >= b,
        forall|i: int|
            rank(variants, order, b) <= i < order.len() ==> variants[#[trigger] order[i]].bandwidth
                < b,
    decreases order.len(),
{
    if order.len() > 0 {
        let rest = order.drop_first();
        assert(falls(variants, rest)) by {
            assert forall|i: int, j: int| 0 <= i < j < rest.len() implies {
                ||| variants[#[trigger] rest[i]].bandwidth > variants[#[trigger] rest[j]].bandwidth
                ||| variants[rest[i]].bandwidth == variants[rest[j]].bandwidth && rest[i] < rest[j]
            } by {
                assert(rest[i] == order[i + 1] && rest[j] == order[j + 1]);
            }
        }
        lemma_rank(variants, rest, b);
        let r = rank(variants, order, b);
        assert forall|i: int| 0 <= i < r implies variants[#[trigger] order[i]].bandwidth >= b by {
            if i > 0 {
                assert(order[i] == rest[i - 1]);
            }
        }
        assert forall|i: int| r <= i < order.len() implies variants[#[trigger] order[i]].bandwidth
            < b by {
            if r == 0 {
                if i > 0 {
                    assert(variants[order[0]].bandwidth >= variants[order[i]].bandwidth);
                }
            } else {
                assert(order[i] == rest[i - 1]);
            }
        }
    }
}

/// The ladder holds each variant of its kind just once, the highest bandwidth
/// first, and those of equal bandwidth in the order of the playlist.
pub proof fn ladder_is_sorted(variants: Seq<VariantView>, i_frame: bool, n: nat)
    requires
        n <= variants.len(),
    ensures
        falls(variants, ladder(variants, i_frame, n)),
        forall|k: int|
            0 <= k < ladder(variants, i_frame, n).len() ==> 0 <= #[trigger] ladder(
                variants,
                i_frame,
                n,
            )[k] < n && variants[ladder(variants, i_frame, n)[k]].is_i_frame == i_frame,
        forall|v: int|
            0 <= v < n && (#[trigger] variants[v]).is_i_frame == i_frame ==> ladder(
                variants,
                i_frame,
                n,
            ).contains(v),
    decreases n,
{
    if n > 0 {
        let before = ladder(variants, i_frame, (n - 1) as nat);
        let after = ladder(variants, i_frame, n);
        let last = variants[n - 1];
        ladder_is_sorted(variants, i_frame, (n - 1) as nat);
        if last.is_i_frame == i_frame {
            lemma_rank(variants, before, last.bandwidth);
            let r = rank(variants, before, last.bandwidth) as int;
            assert(after == before.insert(r, n - 1));
            assert forall|k: int| 0 <= k < after.len() implies 0 <= #[trigger] after[k] < n
                && variants[after[k]].is_i_frame == i_frame by {
                if k < r {
                    assert(after[k] == before[k]);
                } else if k > r {
                    assert(after[k] == before[k - 1]);
                }
            }
            assert(falls(variants, after)) by {
                assert forall|i: int, j: int| 0 <= i < j < after.len() implies {
                    ||| variants[#[trigger] after[i]].bandwidth
                        > variants[#[trigger] after[j]].bandwidth
                    ||| variants[after[i]].bandwidth == variants[after[j]].bandwidth && after[i]
                        < after[j]
                } by {
                    let bi = if i < r {
                        before[i]
                    } else {
                        before[i - 1]
                    };
                    let bj = if j < r {
                        before[j]
                    } else {
                        before[j - 1]
                    };
                    assert(i != r ==> after[i] == bi);
                    assert(j != r ==> after[j] == bj);
                }
            }
            assert forall|v: int|
                0 <= v < n && (#[trigger] variants[v]).is_i_frame == i_frame implies after.contains(
                v,
            ) by {
                if v == n - 1 {
                    assert(after[r] == v);
                } else {
                    let k = choose|k: int| 0 <= k < before.len() && before[k] == v;
                    if k < r {
                        assert(after[k] == v);
                    } else {
                        assert(after[k + 1] == v);
                    }
                }
            }
        }
    }
}

/// Every variant is listed once: as a rung of the ladder or as an i-frame
/// playlist.
pub proof fn every_variant_is_listed(variants: Seq<VariantView>, n: nat)
    requires
        n <= variants.len(),
    ensures
        ladder(variants, false, n).len() + ladder(variants, true, n).len() == n,
    decreases n,
{
    if n > 0 {
        every_variant_is_listed(variants, (n - 1) as nat);
        ladder_is_sorted(variants, false, (n - 1) as nat);
        ladder_is_sorted(variants, true, (n - 1) as nat);
        let last = variants[n - 1];
        lemma_rank(
            variants,
            ladder(variants, last.is_i_frame, (n - 1) as nat),
            last.bandwidth,
        );
    }
}

// ---------------------------------------------------------------------------
// What the findings on a media playlist are
// ---------------------------------------------------------------------------

/// The findings of one severity, in order.
pub open spec fn of_severity(issues: Seq<IssueView>, severity: Severity) -> Seq<IssueView> {
    issues.filter(|i: IssueView| i.severity == severity)
}

/// The segments among the first `n`, by their index, whose duration, rounded to
/// the nearest integer, exceeds the target duration.
pub open spec fn long_segments(segments: Seq<SegmentView>, target: u64, n: nat) -> Seq<int> {
    Seq::new(n, |i: int| i).filter(
        |i: int|
            double::less(
                double::of_int(target as int),
                double::to_integer(double::of_single(segments[i].duration_bits)),
            ),
    )
}

/// The error that names segment `i` of a playlist as too long.
pub open spec fn names_long_segment(p: MediaView, i: int) -> IssueView {
    IssueView {
        severity: Severity::Error,
        message: "segment #"@ + text::decimal(i as nat) + " duration "@ + double::text_of(
            double::of_single(p.segments[i].duration_bits),
            3,
        ) + "s exceeds EXT-X-TARGETDURATION "@ + text::decimal(p.target_duration as nat) + "s"@,
    }
}

proof fn lemma_long_segments(p: MediaView, n: nat)
    requires
        n <= p.segments.len(),
    ensures
        too_long_issues(p.segments, p.target_duration, n) == long_segments(
            p.segments,
            p.target_duration,
            n,
        ).map_values(|i: int| names_long_segment(p, i)),
    decreases n,
{
    reveal(Seq::filter);
    let all = long_segments(p.segments, p.target_duration, n);
    if n > 0 {
        lemma_long_segments(p, (n - 1) as nat);
        assert(Seq::new(n, |i: int| i).drop_last() =~= Seq::new((n - 1) as nat, |i: int| i));
        assert(Seq::new(n, |i: int| i).last() == n - 1);
    }
    assert(too_long_issues(p.segments, p.target_duration, n) =~= all.map_values(
        |i: int| names_long_segment(p, i),
    ));
}

proof fn lemma_uniform(issues: Seq<IssueView>, severity: Severity)
    requires
        uniform(issues, severity),
    ensures
        of_severity(issues, severity) == issues,
        forall|other: Severity|
            other != severity ==> #[trigger] of_severity(issues, other) == Seq::<IssueView>::empty(),
    decreases issues.len(),
{
    reveal(Seq::filter);
    if issues.len() > 0 {
        lemma_uniform(issues.drop_last(), severity);
        assert(issues.drop_last().push(issues.last()) =~= issues);
    }
    assert forall|other: Severity| other != severity implies #[trigger] of_severity(issues, other)
        == Seq::<IssueView>::empty() by {
        if issues.len() > 0 {
            assert(of_severity(issues.drop_last(), other) == Seq::<IssueView>::empty());
        }
        assert(of_severity(issues, other) =~= Seq::<IssueView>::empty());
    }
}

proof fn lemma_severity_of_parts(a: Seq<IssueView>, b: Seq<IssueView>, severity: Severity)
    ensures
        of_severity(a + b, severity) == of_severity(a, severity) + of_severity(b, severity),
{
    Seq::filter_distributes_over_add(a, b, |i: IssueView| i.severity == severity);
}

/// All of the findings have one severity.
spec fn uniform(issues: Seq<IssueView>, severity: Severity) -> bool {
    forall|i: int| 0 <= i < issues.len() ==> (#[trigger] issues[i]).severity == severity
}

proof fn lemma_three_parts(a: Seq<IssueView>, b: Seq<IssueView>, c: Seq<IssueView>)
    requires
        uniform(a, Severity::Error),
        uniform(b, Severity::Warning),
        uniform(c, Severity::Error),
    ensures
        of_severity(a + b + c, Severity::Error) == a + c,
        of_severity(a + b + c, Severity::Warning) == b,
{
    lemma_uniform(a, Severity::Error);
    lemma_uniform(b, Severity::Warning);
    lemma_uniform(c, Severity::Error);
    lemma_severity_of_parts(a, b, Severity::Error);
    lemma_severity_of_parts(a + b, c, Severity::Error);
    lemma_severity_of_parts(a, b, Severity::Warning);
    lemma_severity_of_parts(a + b, c, Severity::Warning);
    let none = Seq::<IssueView>::empty();
    assert(a + none + c =~= a + c);
    assert(none + b + none =~= b);
}

/// The error on a playlist without segments.
spec fn no_segments(p: MediaView) -> Seq<IssueView> {
    if p.segments.len() == 0 {
        seq![error("playlist contains no segments"@)]
    } else {
        Seq::empty()
    }
}

/// The warning on discontinuities.
spec fn breaks(p: MediaView) -> Seq<IssueView> {
    if discontinuity_count(p.segments, p.segments.len()) > 0 {
        seq![
            warning(
                text::decimal(discontinuity_count(p.segments, p.segments.len()))
                    + " EXT-X-DISCONTINUITY tag(s) present"@,
            ),
        ]
    } else {
        Seq::empty()
    }
}

/// The warning on a live playlist without dates.
spec fn no_dates(p: MediaView) -> Seq<IssueView> {
    if playlist::first_dated(p.segments, p.segments.len()) is None && !p.end_list {
        seq![
            warning(
                "no EXT-X-PROGRAM-DATE-TIME tags: live-edge latency cannot be measured"@,
            ),
        ]
    } else {
        Seq::empty()
    }
}

proof fn lemma_long_are_errors(segments: Seq<SegmentView>, target: u64, n: nat)
    ensures
        uniform(too_long_issues(segments, target, n), Severity::Error),
    decreases n,
{
    if n > 0 {
        lemma_long_are_errors(segments, target, (n - 1) as nat);
    }
}

proof fn lemma_media_parts(p: MediaView)
    ensures
        ({
            let errors = no_segments(p) + too_long_issues(
                p.segments,
                p.target_duration,
                p.segments.len(),
            );
            let warnings = breaks(p) + no_dates(p) + date_issues(p.segments, p.target_duration);
            &&& uniform(errors, Severity::Error)
            &&& uniform(warnings, Severity::Warning)
            &&& media_issues(p) == errors + warnings + Seq::empty()
        }),
{
    lemma_long_are_errors(p.segments, p.target_duration, p.segments.len());
    let errors = no_segments(p) + too_long_issues(
        p.segments,
        p.target_duration,
        p.segments.len(),
    );
    let warnings = breaks(p) + no_dates(p) + date_issues(p.segments, p.target_duration);
    assert(media_issues(p) =~= errors + warnings + Seq::empty());
}

/// The errors on a playlist with segments are those that name its long segments,
/// one each and in order; a playlist without segments has one of its own.
pub proof fn media_errors_name_the_long_segments(p: MediaView)
    ensures
        of_severity(media_issues(p), Severity::Error) == if p.segments.len() == 0 {
            seq![error("playlist contains no segments"@)]
        } else {
            long_segments(p.segments, p.target_duration, p.segments.len()).map_values(
                |i: int| names_long_segment(p, i),
            )
        },
{
    let long = too_long_issues(p.segments, p.target_duration, p.segments.len());
    let named = long_segments(p.segments, p.target_duration, p.segments.len()).map_values(
        |i: int| names_long_segment(p, i),
    );
    lemma_errors_part(p);
    assert(long == named) by {
        lemma_long_segments(p, p.segments.len());
    }
}

proof fn lemma_errors_part(p: MediaView)
    ensures
        of_severity(media_issues(p), Severity::Error) == if p.segments.len() == 0 {
            seq![error("playlist contains no segments"@)]
        } else {
            too_long_issues(p.segments, p.target_duration, p.segments.len())
        },
{
    let long = too_long_issues(p.segments, p.target_duration, p.segments.len());
    let warnings = breaks(p) + no_dates(p) + date_issues(p.segments, p.target_duration);
    let none = Seq::<IssueView>::empty();
    lemma_media_parts(p);
    lemma_three_parts(no_segments(p) + long, warnings, none);
    if p.segments.len() == 0 {
        assert(no_segments(p) + long + none =~= no_segments(p));
    } else {
        assert(no_segments(p) + long + none =~= long);
    }
}

/// No error comes after a warning.
pub proof fn media_errors_come_first(p: MediaView, i: int, j: int)
    requires
        0 <= i < j < media_issues(p).len(),
        media_issues(p)[j].severity == Severity::Error,
    ensures
        media_issues(p)[i].severity == Severity::Error,
{
    lemma_media_parts(p);
}

proof fn lemma_names_differ(p: MediaView, i: int, j: int)
    requires
        0 <= i,
        0 <= j,
        names_long_segment(p, i) == names_long_segment(p, j),
    ensures
        i == j,
{
    reveal_strlit("segment #");
    reveal_strlit(" duration ");
    let a = names_long_segment(p, i).message;
    let b = names_long_segment(p, j).message;
    let x = text::decimal(i as nat);
    let y = text::decimal(j as nat);
    text::different_numbers_read_differently(i as nat, j as nat);
    text::different_numbers_read_differently(j as nat, i as nat);
    assert forall|k: int| 0 <= k < x.len() implies a[9 + k] == #[trigger] x[k] by {}
    assert forall|k: int| 0 <= k < y.len() implies b[9 + k] == #[trigger] y[k] by {}
    assert(a[9 + x.len() as int] == ' ');
    assert(b[9 + y.len() as int] == ' ');
    if x.len() < y.len() {
        assert(text::is_digit(y[x.len() as int]));
        assert(b[9 + x.len() as int] == y[x.len() as int]);
    } else if y.len() < x.len() {
        assert(text::is_digit(x[y.len() as int]));
        assert(a[9 + y.len() as int] == x[y.len() as int]);
    } else {
        assert forall|k: int| 0 <= k < x.len() implies x[k] == y[k] by {
            assert(a[9 + k] == x[k] && b[9 + k] == y[k]);
        }
        assert(x =~= y);
    }
}

proof fn lemma_among_indices(n: nat, pred: spec_fn(int) -> bool, i: int)
    ensures
        Seq::new(n, |k: int| k).filter(pred).contains(i) <==> 0 <= i < n && pred(i),
{
    let all = Seq::new(n, |k: int| k);
    if 0 <= i < n && pred(i) {
        assert(all[i] == i);
        all.lemma_filter_contains(pred, i);
    }
    if all.filter(pred).contains(i) {
        let k = choose|k: int| 0 <= k < all.filter(pred).len() && all.filter(pred)[k] == i;
        all.lemma_filter_pred(pred, k);
        all.lemma_filter_contains_rev(pred, i);
    }
}

proof fn lemma_among_errors(issues: Seq<IssueView>, issue: IssueView)
    requires
        issue.severity == Severity::Error,
    ensures
        issues.contains(issue) <==> of_severity(issues, Severity::Error).contains(issue),
{
    let pred = |i: IssueView| i.severity == Severity::Error;
    assert(of_severity(issues, Severity::Error) == issues.filter(pred));
    if issues.contains(issue) {
        let m = choose|m: int| 0 <= m < issues.len() && issues[m] == issue;
        issues.lemma_filter_contains(pred, m);
    }
    if issues.filter(pred).contains(issue) {
        issues.lemma_filter_contains_rev(pred, issue);
    }
}

proof fn lemma_named(p: MediaView, list: Seq<int>, i: int)
    requires
        0 <= i,
        forall|k: int| 0 <= k < list.len() ==> 0 <= #[trigger] list[k],
    ensures
        list.map_values(|k: int| names_long_segment(p, k)).contains(names_long_segment(p, i))
            <==> list.contains(i),
{
    let names = list.map_values(|k: int| names_long_segment(p, k));
    if list.contains(i) {
        let k = choose|k: int| 0 <= k < list.len() && list[k] == i;
        assert(names[k] == names_long_segment(p, i));
    }
    if names.contains(names_long_segment(p, i)) {
        let k = choose|k: int| 0 <= k < names.len() && names[k] == names_long_segment(p, i);
        lemma_names_differ(p, list[k], i);
        assert(list[k] == i);
    }
}

proof fn lemma_long_contains(segments: Seq<SegmentView>, target: u64, n: nat, i: int)
    ensures
        long_segments(segments, target, n).contains(i) <==> 0 <= i < n && double::less(
            double::of_int(target as int),
            double::to_integer(double::of_single(segments[i].duration_bits)),
        ),
        forall|k: int|
            0 <= k < long_segments(segments, target, n).len() ==> 0 <= #[trigger] long_segments(
                segments,
                target,
                n,
            )[k],
{
    let pred = |k: int|
        double::less(
            double::of_int(target as int),
            double::to_integer(double::of_single(segments[k].duration_bits)),
        );
    let long = long_segments(segments, target, n);
    assert(long == Seq::new(n, |k: int| k).filter(pred));
    lemma_among_indices(n, pred, i);
    assert forall|k: int| 0 <= k < long.len() implies 0 <= #[trigger] long[k] by {
        lemma_among_indices(n, pred, long[k]);
        assert(long.contains(long[k]));
    }
}

/// Each segment is held against the target duration by itself: it is named as too
/// long exactly if its own duration, rounded to the nearest integer, exceeds the
/// target, whatever the other segments are.
pub proof fn each_segment_is_judged_by_itself(p: MediaView, i: int)
    requires
        0 <= i < p.segments.len(),
    ensures
        media_issues(p).contains(names_long_segment(p, i)) <==> double::less(
            double::of_int(p.target_duration as int),
            double::to_integer(double::of_single(p.segments[i].duration_bits)),
        ),
{
    let long = long_segments(p.segments, p.target_duration, p.segments.len());
    media_errors_name_the_long_segments(p);
    lemma_among_errors(media_issues(p), names_long_segment(p, i));
    lemma_long_contains(p.segments, p.target_duration, p.segments.len(), i);
    lemma_named(p, long, i);
}

/// There are as many errors on a playlist with segments as it has long segments.
pub proof fn long_segments_are_counted(p: MediaView)
    requires
        p.segments.len() > 0,
    ensures
        of_severity(media_issues(p), Severity::Error).len() == p.segments.filter(
            |s: SegmentView|
                double::less(
                    double::of_int(p.target_duration as int),
                    double::to_integer(double::of_single(s.duration_bits)),
                ),
        ).len(),
{
    let errors = of_severity(media_issues(p), Severity::Error);
    let long = long_segments(p.segments, p.target_duration, p.segments.len());
    assert(errors.len() == long.len()) by {
        media_errors_name_the_long_segments(p);
    }
    assert(p.segments.take(p.segments.len() as int) =~= p.segments);
    lemma_long_count(p, p.segments.len());
}

proof fn lemma_long_count(p: MediaView, n: nat)
    requires
        n <= p.segments.len(),
    ensures
        long_segments(p.segments, p.target_duration, n).len() == p.segments.take(n as int).filter(
            |s: SegmentView|
                double::less(
                    double::of_int(p.target_duration as int),
                    double::to_integer(double::of_single(s.duration_bits)),
                ),
        ).len(),
    decreases n,
{
    reveal(Seq::filter);
    if n > 0 {
        lemma_long_count(p, (n - 1) as nat);
        assert(Seq::new(n, |i: int| i).drop_last() =~= Seq::new((n - 1) as nat, |i: int| i));
        assert(p.segments.take(n as int).drop_last() =~= p.segments.take(n - 1));
    }
}

/// The discontinuities are the segments that start with one.
pub proof fn discontinuities_are_counted(segments: Seq<SegmentView>, n: nat)
    requires
        n <= segments.len(),
    ensures
        discontinuity_count(segments, n) == segments.take(n as int).filter(
            |s: SegmentView| s.discontinuity,
        ).len(),
    decreases n,
{
    reveal(Seq::filter);
    if n > 0 {
        discontinuities_are_counted(segments, (n - 1) as nat);
        assert(segments.take(n as int).drop_last() =~= segments.take(n - 1));
    }
}

/// The warnings on a media playlist: one that counts the discontinuities if there
/// are any, one if a live playlist has no date at all, and what the dates give.
pub proof fn media_warnings_are_these(p: MediaView)
    ensures
        ({
            let breaks = p.segments.filter(|s: SegmentView| s.discontinuity).len();
            let undated = forall|k: int|
                0 <= k < p.segments.len() ==> (#[trigger] p.segments[k]).program_date_time is None;
            let first = if breaks > 0 {
                seq![warning(text::decimal(breaks) + " EXT-X-DISCONTINUITY tag(s) present"@)]
            } else {
                Seq::empty()
            };
            let second = if undated && !p.end_list {
                seq![
                    warning(
                        "no EXT-X-PROGRAM-DATE-TIME tags: live-edge latency cannot be measured"@,
                    ),
                ]
            } else {
                Seq::empty()
            };
            of_severity(media_issues(p), Severity::Warning) == first + second + date_issues(
                p.segments,
                p.target_duration,
            )
        }),
{
    let n = p.segments.len();
    let long = too_long_issues(p.segments, p.target_duration, n);
    let warnings = breaks(p) + no_dates(p) + date_issues(p.segments, p.target_duration);
    discontinuities_are_counted(p.segments, n);
    assert(p.segments.take(n as int) =~= p.segments);
    playlist::dated_segments_are_outermost(p.segments, n);
    lemma_media_parts(p);
    lemma_three_parts(no_segments(p) + long, warnings, Seq::empty());
}

/// Every duration from `from` up to `to` goes into the sum, in order.
pub proof fn every_duration_is_summed(segments: Seq<SegmentView>, from: int, to: int)
    requires
        0 <= from <= to <= segments.len(),
    ensures
        summed_durations(segments, from, to) == segments.subrange(from, to).fold_left(
            double::zero(),
            |t: Float, s: SegmentView| double::sum(t, double::of_single(s.duration_bits)),
        ),
    decreases to - from,
{
    if from < to {
        every_duration_is_summed(segments, from, to - 1);
        assert(segments.subrange(from, to).drop_last() =~= segments.subrange(from, to - 1));
    }
}

/// The average duration is the total over the number of segments, and zero of none.
pub proof fn average_is_total_over_count(total: Float, count: nat)
    ensures
        count == 0 ==> average_duration(total, count as int) == double::zero(),
        count > 0 ==> average_duration(total, count as int) == double::quotient(
            total,
            double::of_int(count as int),
        ),
{
}

/// The drift is what the clock shows between the first and the last date, less the
/// durations from the one segment up to the other. It is reported exactly if the
/// clock has moved on and the drift is beyond the target duration either way.
pub proof fn drift_is_between_the_outermost_dates(p: MediaView, first: int, last: int)
    requires
        0 <= first <= last < p.segments.len(),
        p.segments[first].program_date_time is Some,
        p.segments[last].program_date_time is Some,
        forall|k: int| 0 <= k < first ==> (#[trigger] p.segments[k]).program_date_time is None,
        forall|k: int|
            last < k < p.segments.len() ==> (#[trigger] p.segments[k]).program_date_time is None,
    ensures
        ({
            let elapsed = clock::elapsed(
                p.segments[first].program_date_time->0,
                p.segments[last].program_date_time->0,
            );
            let durations = p.segments.subrange(first, last).fold_left(
                double::zero(),
                |t: Float, s: SegmentView| double::sum(t, double::of_single(s.duration_bits)),
            );
            let span = double::quotient(double::of_int(elapsed->0 as int), double::of_int(1000));
            let drift = double::difference(span, durations);
            &&& elapsed is None ==> date_issues(p.segments, p.target_duration).len() == 0
            &&& elapsed is Some && double::less(double::zero(), span) && double::less(
                double::of_int(p.target_duration as int),
                double::magnitude(drift),
            ) ==> date_issues(p.segments, p.target_duration) == seq![
                warning(
                    "PDT span and summed segment durations drift by "@ + double::text_of(drift, 1)
                        + "s (possible timing gap or encoder clock issue)"@,
                ),
            ]
            &&& !double::less(double::zero(), span) || !double::less(
                double::of_int(p.target_duration as int),
                double::magnitude(drift),
            ) ==> date_issues(p.segments, p.target_duration).len() == 0
        }),
{
    let n = p.segments.len();
    playlist::dated_segments_are_outermost(p.segments, n);
    let i = playlist::first_dated(p.segments, n)->0;
    let j = playlist::last_dated(p.segments, n)->0;
    assert(p.segments[i as int].program_date_time is Some);
    assert(p.segments[j as int].program_date_time is Some);
    assert(i == first && j == last);
    every_duration_is_summed(p.segments, first, last);
}

/// Without dates there is no drift to report.
pub proof fn undated_playlist_has_no_drift(p: MediaView)
    requires
        forall|k: int|
            0 <= k < p.segments.len() ==> (#[trigger] p.segments[k]).program_date_time is None,
    ensures
        date_issues(p.segments, p.target_duration).len() == 0,
{
    playlist::dated_segments_are_outermost(p.segments, p.segments.len());
}

// ---------------------------------------------------------------------------
// What the inventory and the findings on a master playlist are
// ---------------------------------------------------------------------------

/// The renditions of a type are all the entries of that type, in the order of the
/// playlist, each with everything that it says.
pub proof fn every_rendition_is_listed(alternatives: Seq<AlternativeView>, media_type: Seq<char>)
    ensures
        renditions_of(alternatives, media_type, alternatives.len()) == alternatives.filter(
            |a: AlternativeView| a.media_type == media_type,
        ).map_values(
            |a: AlternativeView|
                RenditionInfoView {
                    group_id: a.group_id,
                    name: a.name,
                    language: a.language,
                    uri: a.uri,
                    default: a.default,
                    channels: a.channels,
                    characteristics: a.characteristics,
                },
        ),
{
    lemma_renditions(alternatives, media_type, alternatives.len());
    assert(alternatives.take(alternatives.len() as int) =~= alternatives);
}

proof fn lemma_renditions(alternatives: Seq<AlternativeView>, media_type: Seq<char>, n: nat)
    requires
        n <= alternatives.len(),
    ensures
        renditions_of(alternatives, media_type, n) == alternatives.take(n as int).filter(
            |a: AlternativeView| a.media_type == media_type,
        ).map_values(
            |a: AlternativeView|
                RenditionInfoView {
                    group_id: a.group_id,
                    name: a.name,
                    language: a.language,
                    uri: a.uri,
                    default: a.default,
                    channels: a.channels,
                    characteristics: a.characteristics,
                },
        ),
    decreases n,
{
    reveal(Seq::filter);
    if n > 0 {
        lemma_renditions(alternatives, media_type, (n - 1) as nat);
        assert(alternatives.take(n as int).drop_last() =~= alternatives.take(n - 1));
    }
    assert(renditions_of(alternatives, media_type, n) =~= alternatives.take(n as int).filter(
        |a: AlternativeView| a.media_type == media_type,
    ).map_values(
        |a: AlternativeView|
            RenditionInfoView {
                group_id: a.group_id,
                name: a.name,
                language: a.language,
                uri: a.uri,
                default: a.default,
                channels: a.channels,
                characteristics: a.characteristics,
            },
    ));
}

/// An entry of the type stands in the list right after those of the type that come
/// before it in the playlist, and the list is as long as there are such entries.
pub proof fn rendition_keeps_its_place(
    alternatives: Seq<AlternativeView>,
    media_type: Seq<char>,
    i: int,
)
    requires
        0 <= i < alternatives.len(),
        alternatives[i].media_type == media_type,
    ensures
        ({
            let list = renditions_of(alternatives, media_type, alternatives.len());
            let place = alternatives.take(i).filter(
                |a: AlternativeView| a.media_type == media_type,
            ).len() as int;
            &&& list.len() == alternatives.filter(
                |a: AlternativeView| a.media_type == media_type,
            ).len()
            &&& 0 <= place < list.len()
            &&& list[place].group_id == alternatives[i].group_id
            &&& list[place].name == alternatives[i].name
            &&& list[place].language == alternatives[i].language
            &&& list[place].uri == alternatives[i].uri
            &&& list[place].default == alternatives[i].default
            &&& list[place].channels == alternatives[i].channels
            &&& list[place].characteristics == alternatives[i].characteristics
        }),
{
    let pred = |a: AlternativeView| a.media_type == media_type;
    every_rendition_is_listed(alternatives, media_type);
    let head = alternatives.take(i);
    let tail = alternatives.skip(i + 1);
    assert(alternatives =~= head.push(alternatives[i]) + tail);
    assert(head.push(alternatives[i]).drop_last() =~= head);
    assert(head.push(alternatives[i]).filter(pred) == head.filter(pred).push(alternatives[i])) by {
        reveal(Seq::filter);
    }
    Seq::filter_distributes_over_add(head.push(alternatives[i]), tail, pred);
    assert(alternatives.filter(pred)[head.filter(pred).len() as int] == alternatives[i]);
}

/// A rung says of its variant all that the playlist does.
pub proof fn rung_describes_its_variant(variants: Seq<VariantView>, order: Seq<int>, k: int)
    requires
        0 <= k < order.len(),
    ensures
        ({
            let v = variants[order[k]];
            let r = rungs(variants, order)[k];
            &&& r.uri == v.uri
            &&& r.bandwidth == v.bandwidth
            &&& r.average_bandwidth == v.average_bandwidth
            &&& r.codecs == v.codecs
            &&& r.frame_rate == v.frame_rate
            &&& r.audio_group == v.audio
            &&& r.subtitles_group == v.subtitles
            &&& r.resolution is Some == v.resolution is Some
            &&& v.resolution matches Some(size) ==> r.resolution == Some(
                text::decimal(size.width as nat) + "x"@ + text::decimal(size.height as nat),
            )
        }),
        rungs(variants, order).len() == order.len(),
{
}

/// No rung has more bandwidth than the one before it, so the first has the most,
/// and every variant of the kind makes one rung.
pub proof fn first_rung_has_the_most_bandwidth(variants: Seq<VariantView>, i_frame: bool, v: int)
    requires
        0 <= v < variants.len(),
        variants[v].is_i_frame == i_frame,
    ensures
        ({
            let list = rungs(variants, ladder(variants, i_frame, variants.len()));
            &&& list.len() == variants.filter(|x: VariantView| x.is_i_frame == i_frame).len()
            &&& list.len() > 0
            &&& list[0].bandwidth >= variants[v].bandwidth
            &&& forall|i: int, j: int|
                0 <= i < j < list.len() ==> (#[trigger] list[i]).bandwidth >= (
                #[trigger] list[j]).bandwidth
            &&& exists|k: int|
                0 <= k < list.len() && (#[trigger] list[k]).uri == variants[v].uri
                    && list[k].bandwidth == variants[v].bandwidth
        }),
{
    let order = ladder(variants, i_frame, variants.len());
    let list = rungs(variants, order);
    ladder_is_sorted(variants, i_frame, variants.len());
    lemma_ladder_len(variants, i_frame, variants.len());
    assert(variants.take(variants.len() as int) =~= variants);
    let k = choose|k: int| 0 <= k < order.len() && order[k] == v;
    assert(list[k].bandwidth == variants[v].bandwidth && list[k].uri == variants[v].uri);
    if k > 0 {
        assert(variants[order[0]].bandwidth >= variants[order[k]].bandwidth);
    }
    assert forall|i: int, j: int| 0 <= i < j < list.len() implies (#[trigger] list[i]).bandwidth
        >= (#[trigger] list[j]).bandwidth by {
        assert(variants[order[i]].bandwidth >= variants[order[j]].bandwidth);
    }
}

proof fn lemma_ladder_len(variants: Seq<VariantView>, i_frame: bool, n: nat)
    requires
        n <= variants.len(),
    ensures
        ladder(variants, i_frame, n).len() == variants.take(n as int).filter(
            |x: VariantView| x.is_i_frame == i_frame,
        ).len(),
    decreases n,
{
    reveal(Seq::filter);
    if n > 0 {
        lemma_ladder_len(variants, i_frame, (n - 1) as nat);
        ladder_is_sorted(variants, i_frame, (n - 1) as nat);
        lemma_rank(
            variants,
            ladder(variants, i_frame, (n - 1) as nat),
            variants[n - 1].bandwidth,
        );
        assert(variants.take(n as int).drop_last() =~= variants.take(n - 1));
    }
}

/// The warnings on the attributes that a variant lacks.
pub open spec fn lacking_attributes(v: VariantView) -> Seq<IssueView> {
    let codecs = warning(
        "variant '"@ + v.uri + "' has no CODECS attribute (hurts player startup decisions)"@,
    );
    let resolution = warning("variant '"@ + v.uri + "' has no RESOLUTION attribute"@);
    match (v.codecs, v.resolution) {
        (None, None) => seq![codecs, resolution],
        (None, Some(_)) => seq![codecs],
        (Some(_), None) => seq![resolution],
        (Some(_), Some(_)) => seq![],
    }
}

/// The rendition groups that a variant refers to, by type.
pub open spec fn references(v: VariantView) -> Seq<(Seq<char>, Option<Seq<char>>)> {
    seq![
        ("AUDIO"@, v.audio),
        ("VIDEO"@, v.video),
        ("SUBTITLES"@, v.subtitles),
        (
            "CLOSED-CAPTIONS"@,
            match v.closed_captions {
                Some(ClosedCaptionsView::GroupId(g)) => Some(g),
                _ => None,
            },
        ),
    ]
}

/// Some entry of this type has this group.
pub open spec fn declares(
    alternatives: Seq<AlternativeView>,
    media_type: Seq<char>,
    group: Seq<char>,
) -> bool {
    alternatives.any(|a: AlternativeView| a.media_type == media_type && a.group_id == group)
}

/// The errors on the references of a variant that no entry declares.
pub open spec fn undeclared_references(
    alternatives: Seq<AlternativeView>,
    v: VariantView,
) -> Seq<IssueView> {
    references(v).filter(
        |r: (Seq<char>, Option<Seq<char>>)| r.1 is Some && !declares(alternatives, r.0, r.1->0),
    ).map_values(
        |r: (Seq<char>, Option<Seq<char>>)|
            error(
                "variant '"@ + v.uri + "' references undeclared "@ + r.0 + " group '"@ + r.1->0
                    + "'"@,
            ),
    )
}

/// The variants among the first `n`, by their index, whose bandwidth an earlier one
/// has already.
pub open spec fn repeated_bandwidths(variants: Seq<VariantView>, n: nat) -> Seq<int> {
    Seq::new(n, |i: int| i).filter(
        |i: int|
            exists|j: int|
                0 <= j < i && (#[trigger] variants[j]).bandwidth == variants[i].bandwidth,
    )
}

proof fn lemma_declares(alternatives: Seq<AlternativeView>, media_type: Seq<char>, group: Seq<char>)
    ensures
        group_declared(alternatives, media_type, group) <==> declares(
            alternatives,
            media_type,
            group,
        ),
{
    let pred = |a: AlternativeView| a.media_type == media_type && a.group_id == group;
    if group_declared(alternatives, media_type, group) {
        let i = choose|i: int|
            0 <= i < alternatives.len() && (#[trigger] alternatives[i]).media_type == media_type
                && alternatives[i].group_id == group;
        assert(pred(alternatives[i]));
    }
    if declares(alternatives, media_type, group) {
        let i = choose|i: int| 0 <= i < alternatives.len() && #[trigger] pred(alternatives[i]);
        assert(alternatives[i].media_type == media_type);
    }
}

proof fn lemma_references(alternatives: Seq<AlternativeView>, v: VariantView)
    ensures
        reference_issues(alternatives, v) == undeclared_references(alternatives, v),
{
    let all = references(v);
    let pred = |r: (Seq<char>, Option<Seq<char>>)|
        r.1 is Some && !declares(alternatives, r.0, r.1->0);
    let f = |r: (Seq<char>, Option<Seq<char>>)|
        error(
            "variant '"@ + v.uri + "' references undeclared "@ + r.0 + " group '"@ + r.1->0 + "'"@,
        );
    assert forall|k: int| 0 <= k < 4 implies (#[trigger] all[k]).1 is Some ==> (group_declared(
        alternatives,
        all[k].0,
        all[k].1->0,
    ) <==> declares(alternatives, all[k].0, all[k].1->0)) by {
        if all[k].1 is Some {
            lemma_declares(alternatives, all[k].0, all[k].1->0);
        }
    }
    let a = seq![all[0]];
    let b = seq![all[1]];
    let c = seq![all[2]];
    let d = seq![all[3]];
    assert(all =~= a + b + c + d);
    Seq::filter_distributes_over_add(a, b, pred);
    Seq::filter_distributes_over_add(a + b, c, pred);
    Seq::filter_distributes_over_add(a + b + c, d, pred);
    assert forall|k: int| 0 <= k < 4 implies seq![#[trigger] all[k]].filter(pred).map_values(f)
        == group_issues(alternatives, v.uri, all[k].0, all[k].1) by {
        reveal_with_fuel(Seq::filter, 2);
        let one = seq![all[k]];
        assert(one.drop_last() =~= Seq::<(Seq<char>, Option<Seq<char>>)>::empty());
        assert(one.last() == all[k]);
        assert(one.filter(pred).map_values(f) =~= group_issues(
            alternatives,
            v.uri,
            all[k].0,
            all[k].1,
        ));
    }
    let parts = a.filter(pred) + b.filter(pred) + c.filter(pred) + d.filter(pred);
    assert(all.filter(pred) == parts);
    assert(parts.map_values(f) =~= a.filter(pred).map_values(f) + b.filter(pred).map_values(f)
        + c.filter(pred).map_values(f) + d.filter(pred).map_values(f));
    assert(a.filter(pred).map_values(f) == group_issues(
        alternatives,
        v.uri,
        all[0].0,
        all[0].1,
    ));
    assert(b.filter(pred).map_values(f) == group_issues(
        alternatives,
        v.uri,
        all[1].0,
        all[1].1,
    ));
    assert(c.filter(pred).map_values(f) == group_issues(
        alternatives,
        v.uri,
        all[2].0,
        all[2].1,
    ));
    assert(d.filter(pred).map_values(f) == group_issues(
        alternatives,
        v.uri,
        all[3].0,
        all[3].1,
    ));
    assert(reference_issues(alternatives, v) =~= parts.map_values(f));
}

proof fn lemma_all_references(p: MasterView, n: nat)
    requires
        n <= p.variants.len(),
    ensures
        all_reference_issues(p, n) == p.variants.take(n as int).flat_map(
            |v: VariantView| undeclared_references(p.alternatives, v),
        ),
    decreases n,
{
    let f = |v: VariantView| undeclared_references(p.alternatives, v);
    if n > 0 {
        lemma_all_references(p, (n - 1) as nat);
        lemma_references(p.alternatives, p.variants[n - 1]);
        p.variants.lemma_flat_map_take_append(f, n - 1);
    } else {
        assert(p.variants.take(0).map_values(f) =~= Seq::<Seq<IssueView>>::empty());
    }
}

proof fn lemma_all_attributes(variants: Seq<VariantView>, n: nat)
    requires
        n <= variants.len(),
    ensures
        all_attribute_issues(variants, n) == variants.take(n as int).flat_map(
            |v: VariantView| lacking_attributes(v),
        ),
    decreases n,
{
    let f = |v: VariantView| lacking_attributes(v);
    if n > 0 {
        lemma_all_attributes(variants, (n - 1) as nat);
        assert(attribute_issues(variants[n - 1]) =~= lacking_attributes(variants[n - 1]));
        variants.lemma_flat_map_take_append(f, n - 1);
    } else {
        assert(variants.take(0).map_values(f) =~= Seq::<Seq<IssueView>>::empty());
    }
}

proof fn lemma_repeated(variants: Seq<VariantView>, n: nat)
    requires
        n <= variants.len(),
    ensures
        duplicate_issues(variants, n) == repeated_bandwidths(variants, n).map_values(
            |i: int|
                warning(
                    "duplicate BANDWIDTH value "@ + text::decimal(variants[i].bandwidth as nat)
                        + " across variants"@,
                ),
        ),
    decreases n,
{
    reveal(Seq::filter);
    if n > 0 {
        lemma_repeated(variants, (n - 1) as nat);
        assert(Seq::new(n, |i: int| i).drop_last() =~= Seq::new((n - 1) as nat, |i: int| i));
        assert(Seq::new(n, |i: int| i).last() == n - 1);
    }
    assert(duplicate_issues(variants, n) =~= repeated_bandwidths(variants, n).map_values(
        |i: int|
            warning(
                "duplicate BANDWIDTH value "@ + text::decimal(variants[i].bandwidth as nat)
                    + " across variants"@,
            ),
    ));
}

/// The warnings on a master playlist: for each variant the attributes that it
/// lacks, then each repetition of a bandwidth.
pub proof fn master_warnings_are_these(p: MasterView)
    ensures
        of_severity(master_issues(p), Severity::Warning) == p.variants.flat_map(
            |v: VariantView| lacking_attributes(v),
        ) + repeated_bandwidths(p.variants, p.variants.len()).map_values(
            |i: int|
                warning(
                    "duplicate BANDWIDTH value "@ + text::decimal(p.variants[i].bandwidth as nat)
                        + " across variants"@,
                ),
        ),
{
    lemma_master_parts(p);
}

/// The errors on a master playlist: one if it declares no variants, and for each
/// variant one for each of its references to a group that no entry declares.
pub proof fn master_errors_are_these(p: MasterView)
    ensures
        p.variants.len() == 0 ==> of_severity(master_issues(p), Severity::Error) == seq![
            error("master playlist declares no variant streams"@),
        ],
        p.variants.len() > 0 ==> of_severity(master_issues(p), Severity::Error)
            == p.variants.flat_map(
            |v: VariantView| undeclared_references(p.alternatives, v),
        ),
{
    lemma_master_parts(p);
    if p.variants.len() == 0 {
        let f = |v: VariantView| undeclared_references(p.alternatives, v);
        assert(p.variants.map_values(f) =~= Seq::<Seq<IssueView>>::empty());
    }
}

proof fn lemma_master_parts(p: MasterView)
    ensures
        of_severity(master_issues(p), Severity::Warning) == p.variants.flat_map(
            |v: VariantView| lacking_attributes(v),
        ) + repeated_bandwidths(p.variants, p.variants.len()).map_values(
            |i: int|
                warning(
                    "duplicate BANDWIDTH value "@ + text::decimal(p.variants[i].bandwidth as nat)
                        + " across variants"@,
                ),
        ),
        of_severity(master_issues(p), Severity::Error) == (if p.variants.len() == 0 {
            seq![error("master playlist declares no variant streams"@)]
        } else {
            Seq::empty()
        }) + p.variants.flat_map(|v: VariantView| undeclared_references(p.alternatives, v)),
{
    let n = p.variants.len();
    let empty = if n == 0 {
        seq![error("master playlist declares no variant streams"@)]
    } else {
        Seq::empty()
    };
    let warnings = all_attribute_issues(p.variants, n) + duplicate_issues(p.variants, n);
    let errors = all_reference_issues(p, n);
    lemma_all_attributes(p.variants, n);
    lemma_all_references(p, n);
    lemma_repeated(p.variants, n);
    assert(p.variants.take(n as int) =~= p.variants);
    assert(master_issues(p) =~= empty + warnings + errors);
    lemma_warnings_are_warnings(p.variants, n);
    lemma_references_are_errors(p, n);
    lemma_three_parts(empty, warnings, errors);
}

proof fn lemma_warnings_are_warnings(variants: Seq<VariantView>, n: nat)
    requires
        n <= variants.len(),
    ensures
        uniform(
            all_attribute_issues(variants, n) + duplicate_issues(variants, n),
            Severity::Warning,
        ),
{
    let warnings = all_attribute_issues(variants, n) + duplicate_issues(variants, n);
    lemma_attribute_warnings(variants, n);
    lemma_error_in_parts(all_attribute_issues(variants, n), duplicate_issues(variants, n));
    assert forall|i: int| 0 <= i < warnings.len() implies (#[trigger] warnings[i]).severity
        == Severity::Warning by {
        assert(warnings[i].severity != Severity::Error);
    }
}

proof fn lemma_references_are_errors(p: MasterView, n: nat)
    requires
        n <= p.variants.len(),
    ensures
        uniform(all_reference_issues(p, n), Severity::Error),
    decreases n,
{
    if n > 0 {
        lemma_references_are_errors(p, (n - 1) as nat);
        let before = all_reference_issues(p, (n - 1) as nat);
        let last = reference_issues(p.alternatives, p.variants[n - 1]);
        assert forall|i: int| 0 <= i < all_reference_issues(p, n).len() implies (
        #[trigger] all_reference_issues(p, n)[i]).severity == Severity::Error by {
            if i < before.len() {
                assert(all_reference_issues(p, n)[i] == before[i]);
            } else {
                assert(all_reference_issues(p, n)[i] == last[i - before.len()]);
            }
        }
    }
}

/// A master playlist's findings start with the lack of variants, and end with the
/// errors on references; the warnings stand between.
pub proof fn master_findings_keep_their_order(p: MasterView, i: int, j: int)
    requires
        0 <= i < j < master_issues(p).len(),
        p.variants.len() > 0,
        master_issues(p)[i].severity == Severity::Error,
    ensures
        master_issues(p)[j].severity == Severity::Error,
{
    let n = p.variants.len();
    let warnings = all_attribute_issues(p.variants, n) + duplicate_issues(p.variants, n);
    let errors = all_reference_issues(p, n);
    assert(master_issues(p) =~= warnings + errors);
    lemma_warnings_are_warnings(p.variants, n);
    lemma_references_are_errors(p, n);
    if i < warnings.len() {
        assert(master_issues(p)[i] == warnings[i]);
    }
    assert(master_issues(p)[j] == errors[j - warnings.len()]);
}

proof fn lemma_in_parts(a: Seq<IssueView>, b: Seq<IssueView>, x: IssueView)
    ensures
        (a + b).contains(x) <==> a.contains(x) || b.contains(x),
{
    let all = a + b;
    if a.contains(x) {
        let i = choose|i: int| 0 <= i < a.len() && a[i] == x;
        assert(all[i] == x);
    }
    if b.contains(x) {
        let i = choose|i: int| 0 <= i < b.len() && b[i] == x;
        assert(all[a.len() + i] == x);
    }
    if all.contains(x) {
        let i = choose|i: int| 0 <= i < all.len() && all[i] == x;
        if i < a.len() {
            assert(a[i] == x);
        } else {
            assert(b[i - a.len()] == x);
        }
    }
}

proof fn lemma_in_attributes(variants: Seq<VariantView>, n: nat, x: IssueView)
    requires
        n <= variants.len(),
    ensures
        all_attribute_issues(variants, n).contains(x) <==> exists|i: int|
            0 <= i < n && attribute_issues(#[trigger] variants[i]).contains(x),
    decreases n,
{
    if n > 0 {
        lemma_in_attributes(variants, (n - 1) as nat, x);
        lemma_in_parts(
            all_attribute_issues(variants, (n - 1) as nat),
            attribute_issues(variants[n - 1]),
            x,
        );
    }
}

proof fn lemma_in_references(p: MasterView, n: nat, x: IssueView)
    requires
        n <= p.variants.len(),
    ensures
        all_reference_issues(p, n).contains(x) <==> exists|i: int|
            0 <= i < n && reference_issues(p.alternatives, #[trigger] p.variants[i]).contains(x),
    decreases n,
{
    if n > 0 {
        lemma_in_references(p, (n - 1) as nat, x);
        lemma_in_parts(
            all_reference_issues(p, (n - 1) as nat),
            reference_issues(p.alternatives, p.variants[n - 1]),
            x,
        );
    }
}

proof fn lemma_in_duplicates(variants: Seq<VariantView>, n: nat, x: IssueView)
    requires
        n <= variants.len(),
    ensures
        duplicate_issues(variants, n).contains(x) <==> exists|i: int|
            0 <= i < n && bandwidth_seen(variants, (#[trigger] variants[i]).bandwidth, i) && x
                == warning(
                "duplicate BANDWIDTH value "@ + text::decimal(variants[i].bandwidth as nat)
                    + " across variants"@,
            ),
    decreases n,
{
    if n > 0 {
        lemma_in_duplicates(variants, (n - 1) as nat, x);
        let before = duplicate_issues(variants, (n - 1) as nat);
        let b = variants[n - 1].bandwidth;
        if bandwidth_seen(variants, b, n - 1) {
            let y = warning(
                "duplicate BANDWIDTH value "@ + text::decimal(b as nat) + " across variants"@,
            );
            assert(duplicate_issues(variants, n) =~= before + seq![y]);
            lemma_in_parts(before, seq![y], x);
            assert(seq![y].contains(x) <==> x == y) by {
                assert(seq![y][0] == y);
            }
        }
    }
}

proof fn lemma_in_master(p: MasterView, x: IssueView)
    requires
        x.severity == Severity::Warning,
    ensures
        master_issues(p).contains(x) <==> all_attribute_issues(
            p.variants,
            p.variants.len(),
        ).contains(x) || duplicate_issues(p.variants, p.variants.len()).contains(x),
{
    let n = p.variants.len();
    let empty = if n == 0 {
        seq![error("master playlist declares no variant streams"@)]
    } else {
        Seq::empty()
    };
    let attributes = all_attribute_issues(p.variants, n);
    let duplicates = duplicate_issues(p.variants, n);
    let references = all_reference_issues(p, n);
    lemma_in_parts(empty, attributes, x);
    lemma_in_parts(empty + attributes, duplicates, x);
    lemma_in_parts(empty + attributes + duplicates, references, x);
    lemma_references_are_errors(p, n);
}

proof fn lemma_quoted(
    before: Seq<char>,
    a: Seq<char>,
    b: Seq<char>,
    after: Seq<char>,
)
    requires
        before + a + after == before + b + after,
    ensures
        a == b,
{
    let s = before + a + after;
    assert(s.len() == before.len() + a.len() + after.len());
    assert(s.len() == before.len() + b.len() + after.len());
    assert forall|i: int| 0 <= i < a.len() implies a[i] == b[i] by {
        assert(s[before.len() + i] == a[i]);
        assert((before + b + after)[before.len() + i] == b[i]);
    }
    assert(a =~= b);
}

/// The lack of `CODECS` is warned of for a URI exactly if a variant with that URI
/// has none, whatever else it has or lacks.
pub proof fn missing_codecs_are_warned_of(p: MasterView, uri: Seq<char>)
    ensures
        master_issues(p).contains(
            (IssueView {
                severity: Severity::Warning,
                message: "variant '"@ + uri
                    + "' has no CODECS attribute (hurts player startup decisions)"@,
            }),
        ) <==> exists|i: int|
            0 <= i < p.variants.len() && (#[trigger] p.variants[i]).uri == uri
                && p.variants[i].codecs is None,
{
    lemma_attribute_texts(p, uri);
}

/// The lack of `RESOLUTION` is warned of for a URI exactly if a variant with that
/// URI has none, whatever else it has or lacks.
pub proof fn missing_resolution_is_warned_of(p: MasterView, uri: Seq<char>)
    ensures
        master_issues(p).contains(
            (IssueView {
                severity: Severity::Warning,
                message: "variant '"@ + uri + "' has no RESOLUTION attribute"@,
            }),
        ) <==> exists|i: int|
            0 <= i < p.variants.len() && (#[trigger] p.variants[i]).uri == uri
                && p.variants[i].resolution is None,
{
    lemma_attribute_texts(p, uri);
}

proof fn lemma_in_attributes_of_one(v: VariantView, uri: Seq<char>)
    ensures
        attribute_issues(v).contains(
            warning(
                "variant '"@ + uri + "' has no CODECS attribute (hurts player startup decisions)"@,
            ),
        ) <==> v.uri == uri && v.codecs is None,
        attribute_issues(v).contains(
            warning("variant '"@ + uri + "' has no RESOLUTION attribute"@),
        ) <==> v.uri == uri && v.resolution is None,
{
    reveal_strlit("' has no CODECS attribute (hurts player startup decisions)");
    reveal_strlit("' has no RESOLUTION attribute");
    let start = "variant '"@;
    let codecs = "' has no CODECS attribute (hurts player startup decisions)"@;
    let resolution = "' has no RESOLUTION attribute"@;
    assert(codecs.last() == ')');
    assert(resolution.last() == 'e');
    assert((start + v.uri + codecs).last() == ')' && (start + uri + codecs).last() == ')');
    assert((start + v.uri + resolution).last() == 'e' && (start + uri + resolution).last() == 'e');
    if start + v.uri + codecs == start + uri + codecs {
        lemma_quoted(start, v.uri, uri, codecs);
    }
    if start + v.uri + resolution == start + uri + resolution {
        lemma_quoted(start, v.uri, uri, resolution);
    }
    let all = attribute_issues(v);
    if v.codecs is None {
        assert(all[0] == warning(start + v.uri + codecs));
    }
    if v.resolution is None {
        assert(all[all.len() - 1] == warning(start + v.uri + resolution));
    }
}

proof fn lemma_not_duplicate(variants: Seq<VariantView>, n: nat, uri: Seq<char>, end: Seq<char>)
    requires
        n <= variants.len(),
    ensures
        !duplicate_issues(variants, n).contains(warning("variant '"@ + uri + end)),
{
    reveal_strlit("variant '");
    reveal_strlit("duplicate BANDWIDTH value ");
    let x = warning("variant '"@ + uri + end);
    assert(x.message[0] == 'v');
    lemma_in_duplicates(variants, n, x);
    if duplicate_issues(variants, n).contains(x) {
        let i = choose|i: int|
            0 <= i < n && bandwidth_seen(variants, (#[trigger] variants[i]).bandwidth, i) && x
                == warning(
                "duplicate BANDWIDTH value "@ + text::decimal(variants[i].bandwidth as nat)
                    + " across variants"@,
            );
        assert(("duplicate BANDWIDTH value "@ + text::decimal(variants[i].bandwidth as nat)
            + " across variants"@)[0] == 'd');
    }
}

proof fn lemma_attribute_texts(p: MasterView, uri: Seq<char>)
    ensures
        master_issues(p).contains(
            warning(
                "variant '"@ + uri + "' has no CODECS attribute (hurts player startup decisions)"@,
            ),
        ) <==> exists|i: int|
            0 <= i < p.variants.len() && (#[trigger] p.variants[i]).uri == uri
                && p.variants[i].codecs is None,
        master_issues(p).contains(
            warning("variant '"@ + uri + "' has no RESOLUTION attribute"@),
        ) <==> exists|i: int|
            0 <= i < p.variants.len() && (#[trigger] p.variants[i]).uri == uri
                && p.variants[i].resolution is None,
{
    let n = p.variants.len();
    let codecs = warning(
        "variant '"@ + uri + "' has no CODECS attribute (hurts player startup decisions)"@,
    );
    let resolution = warning("variant '"@ + uri + "' has no RESOLUTION attribute"@);
    lemma_in_master(p, codecs);
    lemma_in_master(p, resolution);
    lemma_not_duplicate(
        p.variants,
        n,
        uri,
        "' has no CODECS attribute (hurts player startup decisions)"@,
    );
    lemma_not_duplicate(p.variants, n, uri, "' has no RESOLUTION attribute"@);
    lemma_in_attributes(p.variants, n, codecs);
    lemma_in_attributes(p.variants, n, resolution);
    assert forall|i: int| 0 <= i < n implies (attribute_issues(#[trigger] p.variants[i]).contains(
        codecs,
    ) <==> p.variants[i].uri == uri && p.variants[i].codecs is None) && (attribute_issues(
        p.variants[i],
    ).contains(resolution) <==> p.variants[i].uri == uri && p.variants[i].resolution is None) by {
        lemma_in_attributes_of_one(p.variants[i], uri);
    }
}

/// A bandwidth is reported as duplicate exactly if two variants share it, wherever
/// they stand.
pub proof fn shared_bandwidth_is_warned_of(p: MasterView, bandwidth: u64)
    ensures
        master_issues(p).contains(
            (IssueView {
                severity: Severity::Warning,
                message: "duplicate BANDWIDTH value "@ + text::decimal(bandwidth as nat)
                    + " across variants"@,
            }),
        ) <==> exists|i: int, j: int|
            0 <= i < j < p.variants.len() && (#[trigger] p.variants[i]).bandwidth == bandwidth && (
            #[trigger] p.variants[j]).bandwidth == bandwidth,
{
    let n = p.variants.len();
    let start = "duplicate BANDWIDTH value "@;
    let end = " across variants"@;
    let x = warning(start + text::decimal(bandwidth as nat) + end);
    reveal_strlit("variant '");
    reveal_strlit("duplicate BANDWIDTH value ");
    lemma_in_master(p, x);
    lemma_in_attributes(p.variants, n, x);
    assert(x.message[0] == 'd');
    assert forall|i: int| 0 <= i < n implies !attribute_issues(
        #[trigger] p.variants[i],
    ).contains(x) by {
        let all = attribute_issues(p.variants[i]);
        assert forall|k: int| 0 <= k < all.len() implies (#[trigger] all[k]).message[0] == 'v' by {}
    }
    lemma_in_duplicates(p.variants, n, x);
    if duplicate_issues(p.variants, n).contains(x) {
        let j = choose|j: int|
            0 <= j < n && bandwidth_seen(p.variants, (#[trigger] p.variants[j]).bandwidth, j) && x
                == warning(start + text::decimal(p.variants[j].bandwidth as nat) + end);
        lemma_quoted(
            start,
            text::decimal(bandwidth as nat),
            text::decimal(p.variants[j].bandwidth as nat),
            end,
        );
        text::different_numbers_read_differently(
            bandwidth as nat,
            p.variants[j].bandwidth as nat,
        );
        let i = choose|i: int|
            0 <= i < j && (#[trigger] p.variants[i]).bandwidth == p.variants[j].bandwidth;
        assert(p.variants[i].bandwidth == bandwidth && p.variants[j].bandwidth == bandwidth);
    }
    if exists|i: int, j: int|
        0 <= i < j < n && (#[trigger] p.variants[i]).bandwidth == bandwidth && (
        #[trigger] p.variants[j]).bandwidth == bandwidth {
        let (i, j) = choose|i: int, j: int|
            0 <= i < j < n && (#[trigger] p.variants[i]).bandwidth == bandwidth && (
            #[trigger] p.variants[j]).bandwidth == bandwidth;
        assert(bandwidth_seen(p.variants, p.variants[j].bandwidth, j));
    }
}

proof fn lemma_in_group_issues(
    alternatives: Seq<AlternativeView>,
    v: VariantView,
    x: IssueView,
)
    ensures
        reference_issues(alternatives, v).contains(x) <==> {
            ||| group_issues(alternatives, v.uri, "AUDIO"@, v.audio).contains(x)
            ||| group_issues(alternatives, v.uri, "VIDEO"@, v.video).contains(x)
            ||| group_issues(alternatives, v.uri, "SUBTITLES"@, v.subtitles).contains(x)
            ||| group_issues(
                alternatives,
                v.uri,
                "CLOSED-CAPTIONS"@,
                captions_group(v.closed_captions),
            ).contains(x)
        },
{
    let a = group_issues(alternatives, v.uri, "AUDIO"@, v.audio);
    let b = group_issues(alternatives, v.uri, "VIDEO"@, v.video);
    let c = group_issues(alternatives, v.uri, "SUBTITLES"@, v.subtitles);
    let d = group_issues(
        alternatives,
        v.uri,
        "CLOSED-CAPTIONS"@,
        captions_group(v.closed_captions),
    );
    lemma_in_parts(a, b, x);
    lemma_in_parts(a + b, c, x);
    lemma_in_parts(a + b + c, d, x);
}

proof fn lemma_reference_in_master(p: MasterView, i: int, x: IssueView)
    requires
        0 <= i < p.variants.len(),
        reference_issues(p.alternatives, p.variants[i]).contains(x),
    ensures
        master_issues(p).contains(x),
{
    let n = p.variants.len();
    let empty = if n == 0 {
        seq![error("master playlist declares no variant streams"@)]
    } else {
        Seq::empty()
    };
    lemma_in_references(p, n, x);
    lemma_in_parts(
        empty + all_attribute_issues(p.variants, n) + duplicate_issues(p.variants, n),
        all_reference_issues(p, n),
        x,
    );
}

/// Each of the four kinds of groups that a variant refers to is looked for by
/// itself, among the entries of its own type: what no entry of that type declares is
/// an error.
pub proof fn undeclared_group_is_an_error(p: MasterView, i: int, group: Seq<char>)
    requires
        0 <= i < p.variants.len(),
    ensures
        ({
            let v = p.variants[i];
            let absent = |kind: Seq<char>|
                forall|k: int|
                    0 <= k < p.alternatives.len() && (#[trigger] p.alternatives[k]).media_type
                        == kind ==> p.alternatives[k].group_id != group;
            let message = |kind: Seq<char>|
                IssueView {
                    severity: Severity::Error,
                    message: "variant '"@ + v.uri + "' references undeclared "@ + kind + " group '"@
                        + group + "'"@,
                };
            &&& v.audio == Some(group) && absent("AUDIO"@) ==> master_issues(p).contains(
                message("AUDIO"@),
            )
            &&& v.video == Some(group) && absent("VIDEO"@) ==> master_issues(p).contains(
                message("VIDEO"@),
            )
            &&& v.subtitles == Some(group) && absent("SUBTITLES"@) ==> master_issues(p).contains(
                message("SUBTITLES"@),
            )
            &&& v.closed_captions == Some(ClosedCaptionsView::GroupId(group)) && absent(
                "CLOSED-CAPTIONS"@,
            ) ==> master_issues(p).contains(message("CLOSED-CAPTIONS"@))
        }),
{
    let v = p.variants[i];
    lemma_one_group(p, i, "AUDIO"@, group);
    lemma_one_group(p, i, "VIDEO"@, group);
    lemma_one_group(p, i, "SUBTITLES"@, group);
    lemma_one_group(p, i, "CLOSED-CAPTIONS"@, group);
}

proof fn lemma_one_group(p: MasterView, i: int, kind: Seq<char>, group: Seq<char>)
    requires
        0 <= i < p.variants.len(),
    ensures
        ({
            let v = p.variants[i];
            (forall|k: int|
                0 <= k < p.alternatives.len() && (#[trigger] p.alternatives[k]).media_type == kind
                    ==> p.alternatives[k].group_id != group) && (kind == "AUDIO"@ && v.audio
                == Some(group) || kind == "VIDEO"@ && v.video == Some(group) || kind
                == "SUBTITLES"@ && v.subtitles == Some(group) || kind == "CLOSED-CAPTIONS"@
                && v.closed_captions == Some(ClosedCaptionsView::GroupId(group)))
                ==> master_issues(p).contains(
                error(
                    "variant '"@ + v.uri + "' references undeclared "@ + kind + " group '"@ + group
                        + "'"@,
                ),
            )
        }),
{
    let v = p.variants[i];
    let x = error(
        "variant '"@ + v.uri + "' references undeclared "@ + kind + " group '"@ + group + "'"@,
    );
    let list = group_issues(p.alternatives, v.uri, kind, Some(group));
    lemma_in_group_issues(p.alternatives, v, x);
    if forall|k: int|
        0 <= k < p.alternatives.len() && (#[trigger] p.alternatives[k]).media_type == kind
            ==> p.alternatives[k].group_id != group {
        assert(!group_declared(p.alternatives, kind, group));
        assert(list[0] == x);
        if reference_issues(p.alternatives, v).contains(x) {
            lemma_reference_in_master(p, i, x);
        }
    }
}

/// Every error on a master playlist with variants is about a group that one of them
/// refers to and no entry of the type declares.
pub proof fn errors_are_about_undeclared_groups(p: MasterView, k: int)
    requires
        0 <= k < master_issues(p).len(),
        master_issues(p)[k].severity == Severity::Error,
        p.variants.len() > 0,
    ensures
        exists|i: int, kind: Seq<char>, group: Seq<char>|
            {
                let v = p.variants[i];
                &&& 0 <= i < p.variants.len()
                &&& kind == "AUDIO"@ && v.audio == Some(group) || kind == "VIDEO"@ && v.video
                    == Some(group) || kind == "SUBTITLES"@ && v.subtitles == Some(group) || kind
                    == "CLOSED-CAPTIONS"@ && v.closed_captions == Some(
                    ClosedCaptionsView::GroupId(group),
                )
                &&& !(exists|j: int|
                    0 <= j < p.alternatives.len() && (#[trigger] p.alternatives[j]).media_type
                        == kind && p.alternatives[j].group_id == group)
                &&& master_issues(p)[k] == error(
                    #[trigger] undeclared_message(p.variants[i].uri, kind, group),
                )
            },
{
    let n = p.variants.len();
    let x = master_issues(p)[k];
    let warnings = all_attribute_issues(p.variants, n) + duplicate_issues(p.variants, n);
    assert(master_issues(p) =~= warnings + all_reference_issues(p, n));
    lemma_warnings_are_warnings(p.variants, n);
    if k < warnings.len() {
        assert(x == warnings[k]);
    }
    assert(all_reference_issues(p, n)[k - warnings.len()] == x);
    lemma_in_references(p, n, x);
    let i = choose|i: int|
        0 <= i < n && reference_issues(p.alternatives, #[trigger] p.variants[i]).contains(x);
    let v = p.variants[i];
    lemma_in_group_issues(p.alternatives, v, x);
    if group_issues(p.alternatives, v.uri, "AUDIO"@, v.audio).contains(x) {
        assert(x == error(undeclared_message(v.uri, "AUDIO"@, v.audio->0)));
    } else if group_issues(p.alternatives, v.uri, "VIDEO"@, v.video).contains(x) {
        assert(x == error(undeclared_message(v.uri, "VIDEO"@, v.video->0)));
    } else if group_issues(p.alternatives, v.uri, "SUBTITLES"@, v.subtitles).contains(x) {
        assert(x == error(undeclared_message(v.uri, "SUBTITLES"@, v.subtitles->0)));
    } else {
        assert(x == error(
            undeclared_message(
                v.uri,
                "CLOSED-CAPTIONS"@,
                captions_group(v.closed_captions)->0,
            ),
        ));
    }
}

/// The text on a reference to a group that nothing declares.
pub open spec fn undeclared_message(uri: Seq<char>, kind: Seq<char>, group: Seq<char>) -> Seq<char> {
    "variant '"@ + uri + "' references undeclared "@ + kind + " group '"@ + group + "'"@
}

} // verus!
