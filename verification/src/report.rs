//! Reports as lines of text, and what the program decides on them.

use vstd::prelude::*;

use crate::analyze;
use crate::analyze::{
    Issue, IssueView, MasterReport, MediaReport, RenditionInfo, RenditionInfoView, Severity,
    VariantInfo, VariantInfoView,
};
use crate::double;
use crate::double::{Double, Float};
use crate::edge;
use crate::edge::EdgeReport;
use crate::live::LiveStats;
use crate::measure;
use crate::measure::{MeasureReport, SegmentMeasure};
use crate::playlist;
use crate::playlist::{Media, MediaView, Playlist};
use crate::text;
use crate::text::{push_decimal, push_left, push_right_decimal};

verus! {

/// Appends a line.
fn push_line(lines: &mut Vec<String>, line: String)
    ensures
        text::texts(final(lines)@) == text::texts(old(lines)@).push(line@),
{
    lines.push(line);
    assert(text::texts(lines@) =~= text::texts(old(lines)@).push(line@));
}

/// The text there is, or else another.
pub open spec fn or_else(s: Option<Seq<char>>, other: Seq<char>) -> Seq<char> {
    match s {
        Some(t) => t,
        None => other,
    }
}

/// Text before and after an optional text; nothing if there is none.
pub open spec fn around(before: Seq<char>, s: Option<Seq<char>>, after: Seq<char>) -> Seq<char> {
    match s {
        Some(t) => before + t + after,
        None => Seq::empty(),
    }
}

/// The text there is, or else another.
fn text_or(s: &Option<String>, other: &str) -> (r: String)
    ensures
        r@ == or_else(text::optional(*s), other@),
{
    match s {
        Some(t) => t.clone(),
        None => other.to_owned(),
    }
}

/// Appends text before and after an optional text; nothing if there is none.
fn push_around(line: &mut String, before: &str, s: &Option<String>, after: &str)
    ensures
        final(line)@ == old(line)@ + around(before@, text::optional(*s), after@),
{
    let ghost start = line@;
    if let Some(t) = s {
        line.append(before);
        line.append(t.as_str());
        line.append(after);
    }
    assert(line@ =~= start + around(before@, text::optional(*s), after@));
}

// ---------------------------------------------------------------------------
// Findings
// ---------------------------------------------------------------------------

/// The line for a finding.
pub open spec fn issue_line(i: IssueView) -> Seq<char> {
    "  ["@ + (match i.severity {
        Severity::Warning => "warning"@,
        Severity::Error => "ERROR"@,
    }) + "] "@ + i.message
}

/// The lines for the findings.
pub open spec fn issue_lines(issues: Seq<IssueView>) -> Seq<Seq<char>> {
    if issues.len() == 0 {
        seq!["  no issues found"@]
    } else {
        Seq::new(issues.len(), |k: int| issue_line(issues[k]))
    }
}

/// The lines for the findings.
pub fn print_issues(issues: &Vec<Issue>) -> (r: Vec<String>)
    ensures
        text::texts(r@) == issue_lines(analyze::issue_views(issues@)),
{
    let ghost views = analyze::issue_views(issues@);
    let mut lines: Vec<String> = Vec::new();
    if issues.len() == 0 {
        push_line(&mut lines, "  no issues found".to_owned());
        assert(text::texts(lines@) =~= issue_lines(views));
        return lines;
    }
    let mut i: usize = 0;
    while i < issues.len()
        invariant
            i <= issues.len(),
            views == analyze::issue_views(issues@),
            text::texts(lines@) =~= Seq::new(i as nat, |k: int| issue_line(views[k])),
        decreases issues.len() - i,
    {
        assert(views[i as int] == issues[i as int]@);
        let mut line = "  [".to_owned();
        line.append(
            match issues[i].severity {
                Severity::Warning => "warning",
                Severity::Error => "ERROR",
            },
        );
        line.append("] ");
        line.append(issues[i].message.as_str());
        push_line(&mut lines, line);
        i = i + 1;
    }
    lines
}

/// The exit code: 0 if there are warnings at most, 2 if there is an error-level
/// finding.
pub open spec fn exit_code_for(issues: Seq<IssueView>) -> int {
    if analyze::has_error(issues) {
        2
    } else {
        0
    }
}

/// The exit code that the findings call for: non-zero when any error-level issue
/// was found, so the probe can sit in monitoring scripts and CI checks.
pub fn exit_code(issues: &Vec<Issue>) -> (r: i32)
    ensures
        r == exit_code_for(analyze::issue_views(issues@)),
{
    let ghost views = analyze::issue_views(issues@);
    let mut i: usize = 0;
    while i < issues.len()
        invariant
            i <= issues.len(),
            views == analyze::issue_views(issues@),
            forall|j: int| 0 <= j < i ==> (#[trigger] views[j]).severity != Severity::Error,
        decreases issues.len() - i,
    {
        assert(views[i as int] == issues[i as int]@);
        if issues[i].severity == Severity::Error {
            return 2;
        }
        i = i + 1;
    }
    0
}

/// The exit code for several reports is the highest that one of them calls for.
pub proof fn exit_codes_combine(a: Seq<IssueView>, b: Seq<IssueView>)
    ensures
        exit_code_for(a + b) == if exit_code_for(a) > exit_code_for(b) {
            exit_code_for(a)
        } else {
            exit_code_for(b)
        },
{
    analyze::lemma_error_in_parts(a, b);
}

/// The probe of a media playlist exits with 2 exactly if the playlist has no
/// segments or one that is too long for the target duration, and with 0 else.
pub proof fn media_exit_code(p: MediaView)
    ensures
        exit_code_for(analyze::media_issues(p)) == if p.segments.len() == 0
            || analyze::some_too_long(p) {
            2int
        } else {
            0
        },
{
    analyze::media_errors(p);
}

// ---------------------------------------------------------------------------
// Media playlists
// ---------------------------------------------------------------------------

/// The first line on a media playlist.
pub open spec fn media_title(r: MediaReport) -> Seq<char> {
    "media playlist: "@ + (if r.is_live {
        "LIVE"@
    } else {
        "VOD"@
    }) + " (version "@ + (match r.version {
        Some(v) => text::decimal(v as nat),
        None => "?"@,
    }) + ")"@
}

/// The line on the segments of a media playlist.
pub open spec fn segments_line(r: MediaReport) -> Seq<char> {
    "  "@ + text::decimal(r.segment_count as nat) + " segments, "@ + double::text_of(
        r.total_duration@,
        1,
    ) + "s total, avg "@ + double::text_of(r.avg_segment_duration@, 2) + "s, target duration "@
        + double::integer_text(r.target_duration) + "s"@
}

/// The line on the sequence of a media playlist.
pub open spec fn sequence_line(r: MediaReport) -> Seq<char> {
    "  media sequence "@ + text::decimal(r.media_sequence as nat) + ", "@ + text::decimal(
        r.discontinuities as nat,
    ) + " discontinuity(ies), PDT "@ + (if r.has_program_date_time {
        "yes"@
    } else {
        "no"@
    })
}

/// The lines on a media playlist.
pub open spec fn media_lines(r: MediaReport) -> Seq<Seq<char>> {
    seq![media_title(r), segments_line(r), sequence_line(r)] + issue_lines(
        analyze::issue_views(r.issues@),
    )
}

/// The lines on a media playlist.
pub fn print_media(r: &MediaReport) -> (lines: Vec<String>)
    ensures
        text::texts(lines@) == media_lines(*r),
{
    let mut title = "media playlist: ".to_owned();
    title.append(
        if r.is_live {
            "LIVE"
        } else {
            "VOD"
        },
    );
    title.append(" (version ");
    match r.version {
        Some(v) => push_decimal(&mut title, v as u128),
        None => title.append("?"),
    }
    title.append(")");

    let mut segments = "  ".to_owned();
    push_decimal(&mut segments, r.segment_count as u128);
    segments.append(" segments, ");
    r.total_duration.push_text(&mut segments, 1);
    segments.append("s total, avg ");
    r.avg_segment_duration.push_text(&mut segments, 2);
    segments.append("s, target duration ");
    double::push_integer(&mut segments, r.target_duration);
    segments.append("s");

    let mut sequence = "  media sequence ".to_owned();
    push_decimal(&mut sequence, r.media_sequence as u128);
    sequence.append(", ");
    push_decimal(&mut sequence, r.discontinuities as u128);
    sequence.append(" discontinuity(ies), PDT ");
    sequence.append(
        if r.has_program_date_time {
            "yes"
        } else {
            "no"
        },
    );

    let mut lines: Vec<String> = Vec::new();
    push_line(&mut lines, title);
    push_line(&mut lines, segments);
    push_line(&mut lines, sequence);
    append_lines(&mut lines, print_issues(&r.issues));
    assert(text::texts(lines@) =~= media_lines(*r));
    lines
}

/// Appends lines.
fn append_lines(lines: &mut Vec<String>, more: Vec<String>)
    ensures
        text::texts(final(lines)@) == text::texts(old(lines)@) + text::texts(more@),
{
    let ghost before = lines@;
    let mut more = more;
    let ghost added = more@;
    lines.append(&mut more);
    assert(text::texts(lines@) =~= text::texts(before) + text::texts(added));
}

// ---------------------------------------------------------------------------
// Master playlists
// ---------------------------------------------------------------------------

/// The rendition groups of a variant.
pub open spec fn groups_text(audio: Option<Seq<char>>, subtitles: Option<Seq<char>>) -> Seq<char> {
    match (audio, subtitles) {
        (Some(a), Some(s)) => "  [audio:"@ + a + " subs:"@ + s + "]"@,
        (Some(a), None) => "  [audio:"@ + a + "]"@,
        (None, Some(s)) => "  [subs:"@ + s + "]"@,
        (None, None) => Seq::empty(),
    }
}

/// The average bandwidth of a variant, in thousands.
pub open spec fn average_text(average: Option<u64>) -> Seq<char> {
    match average {
        Some(a) => " (avg "@ + text::decimal((a / 1000) as nat) + ")"@,
        None => Seq::empty(),
    }
}

/// A frame rate.
pub open spec fn rate_text(rate: Option<Seq<char>>) -> Seq<char> {
    match rate {
        Some(f) => f + "fps"@,
        None => "-"@,
    }
}

/// The line for a variant.
pub open spec fn rung_line(v: VariantInfoView) -> Seq<char> {
    "  "@ + text::right(text::decimal(v.bandwidth as nat), 9) + " bps"@ + average_text(
        v.average_bandwidth,
    ) + "  "@ + text::left(or_else(v.resolution, "?x?"@), 11) + " "@ + text::left(
        rate_text(v.frame_rate),
        6,
    ) + " "@ + or_else(v.codecs, "(no codecs)"@) + groups_text(v.audio_group, v.subtitles_group)
}

/// The line for an i-frame playlist.
pub open spec fn iframe_line(v: VariantInfoView) -> Seq<char> {
    "  "@ + text::right(text::decimal((v.bandwidth / 1000) as nat), 7) + " kbps  "@ + text::left(
        or_else(v.resolution, "?x?"@),
        11,
    ) + " "@ + or_else(v.codecs, Seq::empty())
}

/// The line for a rendition.
pub open spec fn rendition_line(a: RenditionInfoView) -> Seq<char> {
    "  "@ + text::left(a.group_id, 14) + " "@ + text::left(or_else(a.language, "-"@), 4) + " "@
        + text::left(a.name, 20) + (if a.default {
        " DEFAULT"@
    } else {
        Seq::empty()
    }) + around(" "@, a.channels, "ch"@) + around(" ("@, a.characteristics, ")"@)
}

/// A title with a count, and a line for each rendition; nothing for none.
pub open spec fn rendition_section(title: Seq<char>, list: Seq<RenditionInfoView>) -> Seq<
    Seq<char>,
> {
    if list.len() == 0 {
        Seq::empty()
    } else {
        seq![title + " ("@ + text::decimal(list.len()) + "):"@] + Seq::new(
            list.len(),
            |k: int| rendition_line(list[k]),
        )
    }
}

/// A title with a count, and a line for each i-frame playlist; nothing for none.
pub open spec fn iframe_section(list: Seq<VariantInfoView>) -> Seq<Seq<char>> {
    if list.len() == 0 {
        Seq::empty()
    } else {
        seq!["i-frame trick-play playlists"@ + " ("@ + text::decimal(list.len()) + "):"@]
            + Seq::new(list.len(), |k: int| iframe_line(list[k]))
    }
}

/// The lines on a master playlist: the ABR ladder, audio renditions, subtitle
/// renditions, i-frame playlists, and what was found.
pub open spec fn master_lines(url: Seq<char>, r: MasterReport) -> Seq<Seq<char>> {
    let variants = analyze::info_views(r.variants@);
    seq!["master playlist: "@ + url, text::decimal(variants.len()) + " variant(s):"@] + Seq::new(
        variants.len(),
        |k: int| rung_line(variants[k]),
    ) + rendition_section("audio renditions"@, analyze::rendition_views(r.audio@))
        + rendition_section("subtitle renditions"@, analyze::rendition_views(r.subtitles@))
        + iframe_section(analyze::info_views(r.iframe_variants@)) + issue_lines(
        analyze::issue_views(r.issues@),
    )
}

/// The line for a variant.
fn print_rung(v: &VariantInfo) -> (line: String)
    ensures
        line@ == rung_line(v@),
{
    let mut line = "  ".to_owned();
    push_right_decimal(&mut line, v.bandwidth as u128, 9);
    line.append(" bps");
    let ghost before = line@;
    if let Some(a) = v.average_bandwidth {
        line.append(" (avg ");
        push_decimal(&mut line, (a / 1000) as u128);
        line.append(")");
    }
    assert(line@ =~= before + average_text(v.average_bandwidth));
    line.append("  ");
    push_left(&mut line, text_or(&v.resolution, "?x?").as_str(), 11);
    line.append(" ");
    let rate = match &v.frame_rate {
        Some(f) => {
            let mut t = f.clone();
            t.append("fps");
            t
        },
        None => "-".to_owned(),
    };
    push_left(&mut line, rate.as_str(), 6);
    line.append(" ");
    line.append(text_or(&v.codecs, "(no codecs)").as_str());
    let ghost before = line@;
    match (&v.audio_group, &v.subtitles_group) {
        (Some(a), Some(s)) => {
            line.append("  [audio:");
            line.append(a.as_str());
            line.append(" subs:");
            line.append(s.as_str());
            line.append("]");
        },
        (Some(a), None) => {
            line.append("  [audio:");
            line.append(a.as_str());
            line.append("]");
        },
        (None, Some(s)) => {
            line.append("  [subs:");
            line.append(s.as_str());
            line.append("]");
        },
        (None, None) => {},
    }
    assert(line@ =~= before + groups_text(v@.audio_group, v@.subtitles_group));
    line
}

/// The line for an i-frame playlist.
fn print_iframe(v: &VariantInfo) -> (line: String)
    ensures
        line@ == iframe_line(v@),
{
    let mut line = "  ".to_owned();
    push_right_decimal(&mut line, (v.bandwidth / 1000) as u128, 7);
    line.append(" kbps  ");
    push_left(&mut line, text_or(&v.resolution, "?x?").as_str(), 11);
    line.append(" ");
    let ghost before = line@;
    if let Some(c) = &v.codecs {
        line.append(c.as_str());
    }
    assert(line@ =~= before + or_else(v@.codecs, Seq::empty()));
    line
}

/// The line for a rendition.
pub fn print_rendition(a: &RenditionInfo) -> (line: String)
    ensures
        line@ == rendition_line(a@),
{
    let mut line = "  ".to_owned();
    push_left(&mut line, a.group_id.as_str(), 14);
    line.append(" ");
    push_left(&mut line, text_or(&a.language, "-").as_str(), 4);
    line.append(" ");
    push_left(&mut line, a.name.as_str(), 20);
    let ghost before = line@;
    if a.default {
        line.append(" DEFAULT");
    }
    assert(line@ =~= before + if a.default {
        " DEFAULT"@
    } else {
        Seq::empty()
    });
    push_around(&mut line, " ", &a.channels, "ch");
    push_around(&mut line, " (", &a.characteristics, ")");
    line
}

/// A title with a count.
fn titled(title: &str, count: usize) -> (line: String)
    ensures
        line@ == title@ + " ("@ + text::decimal(count as nat) + "):"@,
{
    let mut line = title.to_owned();
    line.append(" (");
    push_decimal(&mut line, count as u128);
    line.append("):");
    line
}

/// Appends a title with a count, and a line for each rendition; nothing for
/// none.
fn push_renditions(lines: &mut Vec<String>, title: &str, list: &Vec<RenditionInfo>)
    ensures
        text::texts(final(lines)@) == text::texts(old(lines)@) + rendition_section(
            title@,
            analyze::rendition_views(list@),
        ),
{
    let ghost before = text::texts(lines@);
    let ghost views = analyze::rendition_views(list@);
    if list.len() == 0 {
        assert(before + rendition_section(title@, views) =~= before);
        return ;
    }
    push_line(lines, titled(title, list.len()));
    let ghost head = text::texts(lines@);
    let mut i: usize = 0;
    while i < list.len()
        invariant
            i <= list.len(),
            views == analyze::rendition_views(list@),
            text::texts(lines@) =~= head + Seq::new(i as nat, |k: int| rendition_line(views[k])),
        decreases list.len() - i,
    {
        assert(views[i as int] == list[i as int]@);
        push_line(lines, print_rendition(&list[i]));
        i = i + 1;
    }
    assert(text::texts(lines@) =~= before + rendition_section(title@, views));
}

/// The lines on a master playlist.
pub fn print_master(url: &str, r: &MasterReport) -> (lines: Vec<String>)
    ensures
        text::texts(lines@) == master_lines(url@, *r),
{
    let ghost variants = analyze::info_views(r.variants@);
    let ghost iframes = analyze::info_views(r.iframe_variants@);
    let mut lines: Vec<String> = Vec::new();
    let mut title = "master playlist: ".to_owned();
    title.append(url);
    push_line(&mut lines, title);
    let mut count = String::new();
    push_decimal(&mut count, r.variants.len() as u128);
    count.append(" variant(s):");
    assert(count@ =~= text::decimal(variants.len()) + " variant(s):"@);
    push_line(&mut lines, count);
    let ghost head = text::texts(lines@);
    assert(head =~= seq![
        "master playlist: "@ + url@,
        text::decimal(variants.len()) + " variant(s):"@,
    ]);
    let mut i: usize = 0;
    while i < r.variants.len()
        invariant
            i <= r.variants.len(),
            variants == analyze::info_views(r.variants@),
            text::texts(lines@) =~= head + Seq::new(i as nat, |k: int| rung_line(variants[k])),
        decreases r.variants.len() - i,
    {
        assert(variants[i as int] == r.variants[i as int]@);
        push_line(&mut lines, print_rung(&r.variants[i]));
        i = i + 1;
    }
    push_renditions(&mut lines, "audio renditions", &r.audio);
    push_renditions(&mut lines, "subtitle renditions", &r.subtitles);
    let ghost before = text::texts(lines@);
    if r.iframe_variants.len() > 0 {
        push_line(&mut lines, titled("i-frame trick-play playlists", r.iframe_variants.len()));
        let ghost head = text::texts(lines@);
        let mut i: usize = 0;
        while i < r.iframe_variants.len()
            invariant
                i <= r.iframe_variants.len(),
                iframes == analyze::info_views(r.iframe_variants@),
                text::texts(lines@) =~= head + Seq::new(i as nat, |k: int| iframe_line(iframes[k])),
            decreases r.iframe_variants.len() - i,
        {
            assert(iframes[i as int] == r.iframe_variants[i as int]@);
            push_line(&mut lines, print_iframe(&r.iframe_variants[i]));
            i = i + 1;
        }
    }
    assert(text::texts(lines@) =~= before + iframe_section(iframes));
    append_lines(&mut lines, print_issues(&r.issues));
    lines
}

/// The lines that introduce the report on one variant.
pub fn print_variant_title(uri: &str) -> (lines: Vec<String>)
    ensures
        text::texts(lines@) == seq![Seq::<char>::empty(), "--- variant: "@ + uri@],
{
    let mut title = "--- variant: ".to_owned();
    title.append(uri);
    let mut lines: Vec<String> = Vec::new();
    push_line(&mut lines, String::new());
    push_line(&mut lines, title);
    assert(text::texts(lines@) =~= seq![Seq::<char>::empty(), "--- variant: "@ + uri@]);
    lines
}

// ---------------------------------------------------------------------------
// Measurements
// ---------------------------------------------------------------------------

/// The first line on a measurement.
pub open spec fn measure_title(m: MeasureReport) -> Seq<char> {
    "measure: "@ + text::decimal(m.segments@.len()) + " segment(s) sampled, container "@
        + measure::container_label(m.container) + (if m.init_segment {
        " (init segment present)"@
    } else {
        Seq::empty()
    })
}

/// A bit rate in thousands, without decimals.
pub open spec fn kilobits_text(rate: Float) -> Seq<char> {
    double::text_of(double::quotient(rate, double::of_int(1000)), 0)
}

/// The line on the measured bit rates.
pub open spec fn rates_line(m: MeasureReport) -> Seq<char> {
    "  measured bitrate "@ + kilobits_text(m.measured_bitrate_bps@) + " kbps (peak segment "@
        + kilobits_text(m.peak_bitrate_bps@) + " kbps), avg TTFB "@ + double::text_of(
        m.avg_ttfb_ms@,
        0,
    ) + " ms"@
}

/// The line for a sampled segment.
pub open spec fn sample_line(s: SegmentMeasure) -> Seq<char> {
    "  "@ + text::right(text::decimal((s.bytes / 1024) as nat), 8) + " KiB in "@ + text::right(
        double::text_of(s.total_ms@, 0),
        5,
    ) + " ms (ttfb "@ + text::right(double::text_of(s.ttfb_ms@, 0), 4) + " ms) -> "@
        + text::right(kilobits_text(s.throughput_bps@), 6) + " kbps throughput  "@ + s.uri@
}

/// The declared bandwidth is exceeded.
pub open spec fn bandwidth_exceeded(m: MeasureReport, declared: Option<u64>) -> bool {
    declared is Some && double::less(double::of_int(declared->0 as int), m.peak_bitrate_bps@)
}

/// The line on a peak above the declared bandwidth.
pub open spec fn exceeded_line(m: MeasureReport, declared: u64) -> Seq<char> {
    "  [warning] peak segment bitrate "@ + kilobits_text(m.peak_bitrate_bps@)
        + " kbps exceeds declared BANDWIDTH "@ + kilobits_text(double::of_int(declared as int))
        + " kbps"@
}

/// The lines on a measurement. A sampled segment that exceeds the declared
/// bandwidth is a conformance issue: RFC 8216 §4.3.4.2 makes BANDWIDTH an upper
/// bound of the peak segment bit rate.
pub open spec fn measure_lines(m: MeasureReport, declared: Option<u64>) -> Seq<Seq<char>> {
    seq![measure_title(m), rates_line(m)] + Seq::new(
        m.segments@.len(),
        |k: int| sample_line(m.segments@[k]),
    ) + if bandwidth_exceeded(m, declared) {
        seq![exceeded_line(m, declared->0)]
    } else {
        Seq::empty()
    }
}

/// A bit rate in thousands.
fn kilobits(rate: Double) -> (r: Double)
    ensures
        r@ == double::quotient(rate@, double::of_int(1000)),
{
    rate.over(Double::from_u64(1000))
}

/// The line for a sampled segment.
fn print_sample(s: &SegmentMeasure) -> (line: String)
    ensures
        line@ == sample_line(*s),
{
    let mut line = "  ".to_owned();
    push_right_decimal(&mut line, (s.bytes / 1024) as u128, 8);
    line.append(" KiB in ");
    s.total_ms.push_right(&mut line, 5);
    line.append(" ms (ttfb ");
    s.ttfb_ms.push_right(&mut line, 4);
    line.append(" ms) -> ");
    kilobits(s.throughput_bps).push_right(&mut line, 6);
    line.append(" kbps throughput  ");
    line.append(s.uri.as_str());
    line
}

/// The lines on a measurement, with the bandwidth that the master playlist
/// declares for the variant.
pub fn print_measure(m: &MeasureReport, declared_bandwidth: Option<u64>) -> (lines: Vec<String>)
    ensures
        text::texts(lines@) == measure_lines(*m, declared_bandwidth),
{
    let mut title = "measure: ".to_owned();
    push_decimal(&mut title, m.segments.len() as u128);
    title.append(" segment(s) sampled, container ");
    title.append(m.container.label());
    let ghost before = title@;
    if m.init_segment {
        title.append(" (init segment present)");
    }
    assert(title@ =~= before + if m.init_segment {
        " (init segment present)"@
    } else {
        Seq::empty()
    });

    let mut rates = "  measured bitrate ".to_owned();
    kilobits(m.measured_bitrate_bps).push_text(&mut rates, 0);
    rates.append(" kbps (peak segment ");
    kilobits(m.peak_bitrate_bps).push_text(&mut rates, 0);
    rates.append(" kbps), avg TTFB ");
    m.avg_ttfb_ms.push_text(&mut rates, 0);
    rates.append(" ms");

    let mut lines: Vec<String> = Vec::new();
    push_line(&mut lines, title);
    push_line(&mut lines, rates);
    let ghost head = text::texts(lines@);
    assert(head =~= seq![measure_title(*m), rates_line(*m)]);
    let mut i: usize = 0;
    while i < m.segments.len()
        invariant
            i <= m.segments.len(),
            text::texts(lines@) =~= head + Seq::new(
                i as nat,
                |k: int| sample_line(m.segments@[k]),
            ),
        decreases m.segments.len() - i,
    {
        push_line(&mut lines, print_sample(&m.segments[i]));
        i = i + 1;
    }
    let ghost before = text::texts(lines@);
    if let Some(declared) = declared_bandwidth {
        if Double::from_u64(declared).less_than(m.peak_bitrate_bps) {
            let mut line = "  [warning] peak segment bitrate ".to_owned();
            kilobits(m.peak_bitrate_bps).push_text(&mut line, 0);
            line.append(" kbps exceeds declared BANDWIDTH ");
            kilobits(Double::from_u64(declared)).push_text(&mut line, 0);
            line.append(" kbps");
            push_line(&mut lines, line);
        }
    }
    assert(text::texts(lines@) =~= measure_lines(*m, declared_bandwidth));
    lines
}

// ---------------------------------------------------------------------------
// Live monitoring and the edge test
// ---------------------------------------------------------------------------

/// The first line on a monitored playlist.
pub open spec fn live_title(s: LiveStats) -> Seq<char> {
    "live: "@ + text::decimal(s.refreshes as nat) + " refreshes over "@ + double::text_of(
        s.observed_seconds@,
        0,
    ) + "s, "@ + text::decimal(s.new_segments as nat) + " new segment(s), "@ + text::decimal(
        s.stale_refreshes as nat,
    ) + " stale refresh(es)"@
}

/// The line on the lag of a monitored playlist.
pub open spec fn lag_line(s: LiveStats) -> Seq<char> {
    match (s.avg_latency, s.min_latency, s.max_latency) {
        (Some(avg), Some(min), Some(max)) => "  edge lag: avg "@ + double::text_of(avg@, 1)
            + "s, min "@ + double::text_of(min@, 1) + "s, max "@ + double::text_of(max@, 1)
            + "s (PDT-based)"@,
        _ => "  edge lag: unknown (stream has no EXT-X-PROGRAM-DATE-TIME)"@,
    }
}

/// The lines on a monitored playlist.
pub fn print_live(s: &LiveStats) -> (lines: Vec<String>)
    ensures
        text::texts(lines@) == seq![live_title(*s), lag_line(*s)],
{
    let mut title = "live: ".to_owned();
    push_decimal(&mut title, s.refreshes as u128);
    title.append(" refreshes over ");
    s.observed_seconds.push_text(&mut title, 0);
    title.append("s, ");
    push_decimal(&mut title, s.new_segments);
    title.append(" new segment(s), ");
    push_decimal(&mut title, s.stale_refreshes as u128);
    title.append(" stale refresh(es)");
    let lag = match (s.avg_latency, s.min_latency, s.max_latency) {
        (Some(avg), Some(min), Some(max)) => {
            let mut t = "  edge lag: avg ".to_owned();
            avg.push_text(&mut t, 1);
            t.append("s, min ");
            min.push_text(&mut t, 1);
            t.append("s, max ");
            max.push_text(&mut t, 1);
            t.append("s (PDT-based)");
            t
        },
        _ => "  edge lag: unknown (stream has no EXT-X-PROGRAM-DATE-TIME)".to_owned(),
    };
    let mut lines: Vec<String> = Vec::new();
    push_line(&mut lines, title);
    push_line(&mut lines, lag);
    assert(text::texts(lines@) =~= seq![live_title(*s), lag_line(*s)]);
    lines
}

/// The first line on an edge test.
pub open spec fn edge_title(r: EdgeReport) -> Seq<char> {
    "edge test: "@ + text::decimal(r.pairs@.len()) + " pair(s), avg fresh TTFB "@ + double::text_of(
        r.avg_fresh_ttfb@,
        0,
    ) + " ms, avg warmed TTFB "@ + double::text_of(r.avg_warmed_ttfb@, 0) + " ms, avg penalty "@
        + double::signed_text_of(r.avg_penalty_ms@, 0) + " ms"@
}

/// The lines on an edge test.
pub fn print_edge(r: &EdgeReport) -> (lines: Vec<String>)
    ensures
        text::texts(lines@) == seq![
            edge_title(*r),
            "  "@ + edge::verdict_of(r.pairs@, r.avg_penalty_ms@),
        ],
{
    let mut title = "edge test: ".to_owned();
    push_decimal(&mut title, r.pairs.len() as u128);
    title.append(" pair(s), avg fresh TTFB ");
    r.avg_fresh_ttfb.push_text(&mut title, 0);
    title.append(" ms, avg warmed TTFB ");
    r.avg_warmed_ttfb.push_text(&mut title, 0);
    title.append(" ms, avg penalty ");
    r.avg_penalty_ms.push_signed_text(&mut title, 0);
    title.append(" ms");
    let mut verdict = "  ".to_owned();
    verdict.append(r.verdict());
    let mut lines: Vec<String> = Vec::new();
    push_line(&mut lines, title);
    push_line(&mut lines, verdict);
    assert(text::texts(lines@) =~= seq![
        edge_title(*r),
        "  "@ + edge::verdict_of(r.pairs@, r.avg_penalty_ms@),
    ]);
    lines
}

// ---------------------------------------------------------------------------
// Decisions
// ---------------------------------------------------------------------------

/// Parses the playlist that the user asked for; an error is a message for the
/// user.
pub fn parse_input(bytes: &[u8]) -> (r: Result<Playlist, String>)
    ensures
        playlist::result_view(r) == playlist::playlist_expected(
            playlist::parsed(bytes@),
            "not a valid M3U8 playlist: "@,
        ),
{
    playlist::expect_playlist(playlist::parse_playlist(bytes), "not a valid M3U8 playlist: ")
}

/// Parses the media playlist at `url`; an error is a message for the user.
pub fn parse_media(bytes: &[u8], url: &str) -> (r: Result<Media, String>)
    ensures
        playlist::media_view(r) == playlist::media_expected(
            playlist::parsed(bytes@),
            url@ + " is a master playlist, expected media"@,
            url@ + ": not a valid M3U8 playlist: "@,
        ),
{
    let mut on_master = url.to_owned();
    on_master.append(" is a master playlist, expected media");
    let mut on_error = url.to_owned();
    on_error.append(": not a valid M3U8 playlist: ");
    playlist::expect_media(
        playlist::parse_playlist(bytes),
        on_master.as_str(),
        on_error.as_str(),
    )
}

/// What is done with a master playlist.
#[derive(Debug, Clone, Copy, PartialEq, Eq, Structural)]
pub enum MasterPlan {
    /// Follow the top-bandwidth variant only, if there is one.
    FollowTop(bool),
    /// List the playlist, after so many variants from the top have been analyzed.
    Inventory(usize),
}

/// What is done with a master playlist of so many variants.
pub open spec fn plan_for(follow: bool, all: bool, measure: bool, variants: usize) -> MasterPlan {
    if follow {
        MasterPlan::FollowTop(variants > 0)
    } else if all {
        MasterPlan::Inventory(variants)
    } else if measure && variants > 0 {
        MasterPlan::Inventory(1)
    } else {
        MasterPlan::Inventory(0)
    }
}

/// What is done with a master playlist of so many variants: monitoring follows
/// the top one alone; else `all` has every one analyzed, and `measure` at least
/// the top one.
pub fn master_plan(follow: bool, all: bool, measure: bool, variants: usize) -> (r: MasterPlan)
    ensures
        r == plan_for(follow, all, measure, variants),
{
    if follow {
        MasterPlan::FollowTop(variants > 0)
    } else if all {
        MasterPlan::Inventory(variants)
    } else if measure && variants > 0 {
        MasterPlan::Inventory(1)
    } else {
        MasterPlan::Inventory(0)
    }
}

/// Why a playlist cannot be monitored: one that is complete is no live stream.
pub fn live_refusal(live: bool, is_live: bool) -> (r: Option<&'static str>)
    ensures
        r is Some == (live && !is_live),
        r matches Some(t) ==> t@
            == "--live requested but the playlist has EXT-X-ENDLIST (VOD)"@,
{
    if live && !is_live {
        Some("--live requested but the playlist has EXT-X-ENDLIST (VOD)")
    } else {
        None
    }
}

// ---------------------------------------------------------------------------
// What the lines show
// ---------------------------------------------------------------------------

/// Every finding has a line of its own, in order, with its severity and its whole
/// message; the absence of findings is said in one line.
pub proof fn every_finding_has_its_line(issues: Seq<IssueView>, k: int)
    requires
        0 <= k < issues.len(),
    ensures
        issue_lines(issues).len() == issues.len(),
        issues[k].severity == Severity::Error ==> issue_lines(issues)[k] == "  [ERROR] "@
            + issues[k].message,
        issues[k].severity == Severity::Warning ==> issue_lines(issues)[k] == "  [warning] "@
            + issues[k].message,
        issue_lines(Seq::empty()) == seq!["  no issues found"@],
{
    reveal_strlit("  [");
    reveal_strlit("] ");
    reveal_strlit("ERROR");
    reveal_strlit("warning");
    reveal_strlit("  [ERROR] ");
    reveal_strlit("  [warning] ");
    assert("  ["@ + "ERROR"@ + "] "@ =~= "  [ERROR] "@);
    assert("  ["@ + "warning"@ + "] "@ =~= "  [warning] "@);
}

/// The exit code is 2 exactly if some finding is an error, and else 0, however
/// many warnings there are.
pub proof fn exit_code_tells_errors(issues: Seq<IssueView>)
    ensures
        exit_code_for(issues) == 2 <==> exists|i: int|
            0 <= i < issues.len() && (#[trigger] issues[i]).severity == Severity::Error,
        exit_code_for(issues) == 0 <==> forall|i: int|
            0 <= i < issues.len() ==> (#[trigger] issues[i]).severity == Severity::Warning,
{
    if exit_code_for(issues) == 0 {
        assert forall|i: int| 0 <= i < issues.len() implies (#[trigger] issues[i]).severity
            == Severity::Warning by {
            assert(issues[i].severity != Severity::Error);
        }
    }
}

/// A rung's line is that of a variant without average bandwidth and groups, with
/// the average bandwidth in thousands put in after the bandwidth, and the groups
/// added at the end.
pub proof fn rung_line_shows_what_there_is(v: VariantInfoView)
    ensures
        ({
            let bare = VariantInfoView {
                average_bandwidth: None,
                audio_group: None,
                subtitles_group: None,
                ..v
            };
            let average = match v.average_bandwidth {
                Some(a) => " (avg "@ + text::decimal((a / 1000) as nat) + ")"@,
                None => Seq::empty(),
            };
            let head = "  "@ + text::right(text::decimal(v.bandwidth as nat), 9) + " bps"@;
            let groups = match (v.audio_group, v.subtitles_group) {
                (Some(a), Some(s)) => "  [audio:"@ + a + " subs:"@ + s + "]"@,
                (Some(a), None) => "  [audio:"@ + a + "]"@,
                (None, Some(s)) => "  [subs:"@ + s + "]"@,
                (None, None) => Seq::empty(),
            };
            &&& head.is_prefix_of(rung_line(bare))
            &&& rung_line(v) == head + average + rung_line(bare).skip(head.len() as int) + groups
        }),
{
    let bare = VariantInfoView {
        average_bandwidth: None,
        audio_group: None,
        subtitles_group: None,
        ..v
    };
    let head = "  "@ + text::right(text::decimal(v.bandwidth as nat), 9) + " bps"@;
    let rest = "  "@ + text::left(or_else(v.resolution, "?x?"@), 11) + " "@ + text::left(
        rate_text(v.frame_rate),
        6,
    ) + " "@ + or_else(v.codecs, "(no codecs)"@);
    assert(rung_line(bare) =~= head + rest);
    assert(rung_line(bare).skip(head.len() as int) =~= rest);
    assert(rung_line(bare).subrange(0, head.len() as int) =~= head);
    assert(rung_line(v) =~= head + average_text(v.average_bandwidth) + rest + groups_text(
        v.audio_group,
        v.subtitles_group,
    ));
}

/// What the playlist does not say of a variant stands in its line as a mark of its
/// own; what it says stands there as it is.
pub proof fn rung_line_marks_what_is_missing(v: VariantInfoView)
    requires
        v.average_bandwidth is None,
        v.audio_group is None,
        v.subtitles_group is None,
    ensures
        ({
            let resolution = if v.resolution is Some {
                v.resolution->0
            } else {
                "?x?"@
            };
            let rate = if v.frame_rate is Some {
                v.frame_rate->0 + "fps"@
            } else {
                "-"@
            };
            let codecs = if v.codecs is Some {
                v.codecs->0
            } else {
                "(no codecs)"@
            };
            rung_line(v) == "  "@ + text::right(text::decimal(v.bandwidth as nat), 9) + " bps  "@
                + text::left(resolution, 11) + " "@ + text::left(rate, 6) + " "@ + codecs
        }),
{
    reveal_strlit(" bps");
    reveal_strlit("  ");
    reveal_strlit(" bps  ");
    assert(" bps"@ + "  "@ =~= " bps  "@);
    let resolution = or_else(v.resolution, "?x?"@);
    assert(rung_line(v) =~= "  "@ + text::right(text::decimal(v.bandwidth as nat), 9) + (" bps"@
        + "  "@) + text::left(resolution, 11) + " "@ + text::left(rate_text(v.frame_rate), 6)
        + " "@ + or_else(v.codecs, "(no codecs)"@));
}

/// A rendition's line is that of a plain one with the default mark, the channels
/// and the characteristics added, each of them if it is there and no matter what
/// the others are.
pub proof fn rendition_line_adds_each_mark(a: RenditionInfoView)
    ensures
        ({
            let plain = RenditionInfoView {
                default: false,
                channels: None,
                characteristics: None,
                ..a
            };
            let language = if a.language is Some {
                a.language->0
            } else {
                "-"@
            };
            let mark = if a.default {
                " DEFAULT"@
            } else {
                Seq::empty()
            };
            let channels = if a.channels is Some {
                " "@ + a.channels->0 + "ch"@
            } else {
                Seq::empty()
            };
            let characteristics = if a.characteristics is Some {
                " ("@ + a.characteristics->0 + ")"@
            } else {
                Seq::empty()
            };
            &&& rendition_line(plain) == "  "@ + text::left(a.group_id, 14) + " "@ + text::left(
                language,
                4,
            ) + " "@ + text::left(a.name, 20)
            &&& rendition_line(a) == rendition_line(plain) + mark + channels + characteristics
        }),
{
    let plain = RenditionInfoView { default: false, channels: None, characteristics: None, ..a };
    let base = "  "@ + text::left(a.group_id, 14) + " "@ + text::left(or_else(a.language, "-"@), 4)
        + " "@ + text::left(a.name, 20);
    assert(rendition_line(plain) =~= base);
    assert(rendition_line(a) =~= base + (if a.default {
        " DEFAULT"@
    } else {
        Seq::empty()
    }) + around(" "@, a.channels, "ch"@) + around(" ("@, a.characteristics, ")"@));
}

/// An i-frame playlist's line shows its bandwidth in thousands, rounded down.
pub proof fn iframe_line_is_in_thousands(v: VariantInfoView)
    ensures
        ({
            let resolution = if v.resolution is Some {
                v.resolution->0
            } else {
                "?x?"@
            };
            let codecs = if v.codecs is Some {
                v.codecs->0
            } else {
                Seq::empty()
            };
            iframe_line(v) == "  "@ + text::right(text::decimal((v.bandwidth / 1000) as nat), 7)
                + " kbps  "@ + text::left(resolution, 11) + " "@ + codecs
        }),
{
}

/// Each kind of playlist has its own section with a line for each entry; a kind
/// without entries has none.
pub proof fn section_lists_every_rendition(
    title: Seq<char>,
    list: Seq<RenditionInfoView>,
    others: Seq<VariantInfoView>,
)
    ensures
        list.len() == 0 ==> rendition_section(title, list).len() == 0,
        others.len() == 0 ==> iframe_section(others).len() == 0,
        list.len() > 0 ==> {
            &&& rendition_section(title, list).len() == list.len() + 1
            &&& rendition_section(title, list)[0] == title + " ("@ + text::decimal(list.len())
                + "):"@
            &&& forall|k: int|
                0 <= k < list.len() ==> #[trigger] rendition_section(title, list)[k + 1]
                    == rendition_line(list[k])
        },
        others.len() > 0 ==> {
            &&& iframe_section(others).len() == others.len() + 1
            &&& iframe_section(others)[0] == "i-frame trick-play playlists ("@ + text::decimal(
                others.len(),
            ) + "):"@
            &&& forall|k: int|
                0 <= k < others.len() ==> #[trigger] iframe_section(others)[k + 1] == iframe_line(
                    others[k],
                )
        },
{
    reveal_strlit("i-frame trick-play playlists");
    reveal_strlit(" (");
    reveal_strlit("i-frame trick-play playlists (");
    assert("i-frame trick-play playlists"@ + " ("@ =~= "i-frame trick-play playlists ("@);
}

/// The lines on a master playlist are the title, a line for each rung, and then the
/// sections on audio, subtitles, i-frame playlists and findings: nothing that the
/// report holds is left out.
pub proof fn master_lines_show_the_whole_report(url: Seq<char>, r: MasterReport, k: int)
    requires
        0 <= k < r.variants@.len(),
    ensures
        ({
            let lines = master_lines(url, r);
            let audio = rendition_section(
                "audio renditions"@,
                analyze::rendition_views(r.audio@),
            );
            let subtitles = rendition_section(
                "subtitle renditions"@,
                analyze::rendition_views(r.subtitles@),
            );
            let others = iframe_section(analyze::info_views(r.iframe_variants@));
            let findings = issue_lines(analyze::issue_views(r.issues@));
            let n = 2 + r.variants@.len() as int;
            &&& lines[0] == "master playlist: "@ + url
            &&& lines[1] == text::decimal(r.variants@.len()) + " variant(s):"@
            &&& lines[2 + k] == rung_line(r.variants@[k]@)
            &&& lines.skip(n) == audio + subtitles + others + findings
        }),
{
    let lines = master_lines(url, r);
    let audio = rendition_section("audio renditions"@, analyze::rendition_views(r.audio@));
    let subtitles = rendition_section(
        "subtitle renditions"@,
        analyze::rendition_views(r.subtitles@),
    );
    let others = iframe_section(analyze::info_views(r.iframe_variants@));
    let findings = issue_lines(analyze::issue_views(r.issues@));
    assert(lines.skip(2 + r.variants@.len() as int) =~= audio + subtitles + others + findings);
}

/// A measurement has a line for each sampled segment, and one more exactly if a
/// bandwidth is declared and the peak exceeds it.
pub proof fn measure_lines_show_every_segment(m: MeasureReport, declared: Option<u64>)
    ensures
        ({
            let lines = measure_lines(m, declared);
            let n = m.segments@.len();
            let exceeded = declared is Some && double::less(
                double::of_int(declared->0 as int),
                m.peak_bitrate_bps@,
            );
            &&& lines.len() == n + (if exceeded {
                3int
            } else {
                2
            })
            &&& forall|k: int|
                0 <= k < n ==> #[trigger] lines[k + 2] == sample_line(m.segments@[k])
            &&& exceeded ==> lines.last() == "  [warning] peak segment bitrate "@ + double::text_of(
                double::quotient(m.peak_bitrate_bps@, double::of_int(1000)),
                0,
            ) + " kbps exceeds declared BANDWIDTH "@ + double::text_of(
                double::quotient(double::of_int(declared->0 as int), double::of_int(1000)),
                0,
            ) + " kbps"@
        }),
{
}

/// The lag of a monitored playlist is unknown exactly if one of the three numbers
/// is; else they are shown in seconds with one decimal.
pub proof fn lag_line_shows_all_three(s: LiveStats)
    ensures
        s.avg_latency is None || s.min_latency is None || s.max_latency is None ==> lag_line(s)
            == "  edge lag: unknown (stream has no EXT-X-PROGRAM-DATE-TIME)"@,
        s.avg_latency is Some && s.min_latency is Some && s.max_latency is Some ==> lag_line(s)
            == "  edge lag: avg "@ + double::text_of(s.avg_latency->0@, 1) + "s, min "@
            + double::text_of(s.min_latency->0@, 1) + "s, max "@ + double::text_of(
            s.max_latency->0@,
            1,
        ) + "s (PDT-based)"@,
{
}

/// Monitoring follows one variant, and only if there is one; else all variants are
/// analyzed if that was asked for, and to measure takes at least the top one.
pub proof fn plan_covers_what_was_asked_for(
    follow: bool,
    all: bool,
    measure: bool,
    variants: usize,
)
    ensures
        plan_for(follow, all, measure, variants) is FollowTop <==> follow,
        plan_for(follow, all, measure, variants) matches MasterPlan::FollowTop(found) ==> found == (
        variants > 0),
        plan_for(follow, all, measure, variants) matches MasterPlan::Inventory(count) ==> {
            &&& count <= variants
            &&& all ==> count == variants
            &&& !all && measure && variants > 0 ==> count == 1
            &&& !all && !measure ==> count == 0
        },
{
}

/// The lines on a media playlist tell whether it is live, its version, its numbers
/// and all findings.
pub proof fn media_lines_show_the_whole_report(r: MediaReport)
    ensures
        ({
            let lines = media_lines(r);
            &&& lines.skip(3) == issue_lines(analyze::issue_views(r.issues@))
            &&& lines[0] == "media playlist: "@ + (if r.is_live {
                "LIVE"@
            } else {
                "VOD"@
            }) + " (version "@ + (if r.version is Some {
                text::decimal(r.version->0 as nat)
            } else {
                "?"@
            }) + ")"@
            &&& lines[1] == "  "@ + text::decimal(r.segment_count as nat) + " segments, "@
                + double::text_of(r.total_duration@, 1) + "s total, avg "@ + double::text_of(
                r.avg_segment_duration@,
                2,
            ) + "s, target duration "@ + double::integer_text(r.target_duration) + "s"@
            &&& lines[2] == "  media sequence "@ + text::decimal(r.media_sequence as nat) + ", "@
                + text::decimal(r.discontinuities as nat) + " discontinuity(ies), PDT "@ + (
            if r.has_program_date_time {
                "yes"@
            } else {
                "no"@
            })
        }),
{
    assert(media_lines(r).skip(3) =~= issue_lines(analyze::issue_views(r.issues@)));
}

/// The first lines on a measurement, and the line for a segment, show its numbers:
/// times in milliseconds, rates in thousands of bits, sizes in KiB rounded down.
pub proof fn measure_lines_show_the_numbers(m: MeasureReport, s: SegmentMeasure)
    ensures
        ({
            let kilo = |rate: Float| double::text_of(double::quotient(rate, double::of_int(1000)), 0);
            &&& measure_lines(m, None)[0] == measure_title(m)
            &&& measure_title(m) == "measure: "@ + text::decimal(m.segments@.len())
                + " segment(s) sampled, container "@ + measure::container_label(m.container) + (
            if m.init_segment {
                " (init segment present)"@
            } else {
                Seq::empty()
            })
            &&& measure_lines(m, None)[1] == "  measured bitrate "@ + kilo(m.measured_bitrate_bps@)
                + " kbps (peak segment "@ + kilo(m.peak_bitrate_bps@) + " kbps), avg TTFB "@
                + double::text_of(m.avg_ttfb_ms@, 0) + " ms"@
            &&& sample_line(s) == "  "@ + text::right(
                text::decimal((s.bytes / 1024) as nat),
                8,
            ) + " KiB in "@ + text::right(double::text_of(s.total_ms@, 0), 5) + " ms (ttfb "@
                + text::right(double::text_of(s.ttfb_ms@, 0), 4) + " ms) -> "@ + text::right(
                kilo(s.throughput_bps@),
                6,
            ) + " kbps throughput  "@ + s.uri@
        }),
{
}

/// The first lines on a monitored playlist and on an edge test show the numbers of
/// the report.
pub proof fn titles_show_the_numbers(s: LiveStats, r: EdgeReport)
    ensures
        live_title(s) == "live: "@ + text::decimal(s.refreshes as nat) + " refreshes over "@
            + double::text_of(s.observed_seconds@, 0) + "s, "@ + text::decimal(
            s.new_segments as nat,
        ) + " new segment(s), "@ + text::decimal(s.stale_refreshes as nat) + " stale refresh(es)"@,
        edge_title(r) == "edge test: "@ + text::decimal(r.pairs@.len())
            + " pair(s), avg fresh TTFB "@ + double::text_of(r.avg_fresh_ttfb@, 0)
            + " ms, avg warmed TTFB "@ + double::text_of(r.avg_warmed_ttfb@, 0)
            + " ms, avg penalty "@ + double::signed_text_of(r.avg_penalty_ms@, 0) + " ms"@,
{
}

} // verus!
