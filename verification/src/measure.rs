//! Segment sampling: what to request, and what the responses tell.

use reqwest::header::{HeaderMap, HeaderValue};
use vstd::prelude::*;

use crate::double;
use crate::double::{Double, Float};
use crate::fetch;
use crate::fetch::response_header;
use crate::playlist;
use crate::playlist::{ByteRange, InitMapView, Media, MediaSegment, MediaView, SegmentView};
use crate::text;
use crate::text::push_decimal;
use crate::timing;

verus! {

// ---------------------------------------------------------------------------
// Byte ranges
// ---------------------------------------------------------------------------

/// Where the latest sub-range of `uri` among the first `n` segments ends, and so
/// where the next one starts if it gives no offset; 0 if there is none.
pub open spec fn next_offset(segments: Seq<SegmentView>, n: nat, uri: Seq<char>) -> nat
    decreases n,
{
    if n == 0 {
        0
    } else {
        let s = segments[n - 1];
        match s.byte_range {
            Some(r) => if s.uri != uri {
                next_offset(segments, (n - 1) as nat, uri)
            } else {
                match r.offset {
                    Some(offset) => (offset + r.length) as nat,
                    None => next_offset(segments, (n - 1) as nat, uri) + r.length as nat,
                }
            },
            None => next_offset(segments, (n - 1) as nat, uri),
        }
    }
}

/// Where the sub-range `r` of segment `i` starts.
pub open spec fn range_start(segments: Seq<SegmentView>, i: int, r: ByteRange) -> nat {
    match r.offset {
        Some(offset) => offset as nat,
        None => next_offset(segments, i as nat, segments[i].uri),
    }
}

/// The sub-range of segment `i`: offset and length.
pub open spec fn resolved(segments: Seq<SegmentView>, i: int) -> Option<(nat, nat)> {
    match segments[i].byte_range {
        Some(r) => Some((range_start(segments, i, r), r.length as nat)),
        None => None,
    }
}

/// The sub-range of segment `i`, if it has one, ends within `u64`.
pub open spec fn range_fits(segments: Seq<SegmentView>, i: int) -> bool {
    match resolved(segments, i) {
        Some((offset, length)) => offset + length <= u64::MAX,
        None => true,
    }
}

/// All sub-ranges end within `u64`.
pub open spec fn ranges_fit(segments: Seq<SegmentView>) -> bool {
    forall|i: int| 0 <= i < segments.len() ==> #[trigger] range_fits(segments, i)
}

/// `r` holds the sub-range of segment `i`.
pub open spec fn is_resolved(
    segments: Seq<SegmentView>,
    i: int,
    r: Option<(u64, u64)>,
) -> bool {
    resolved(segments, i) == match r {
        Some((offset, length)) => Some((offset as nat, length as nat)),
        None => None,
    }
}

/// `ranges` holds the sub-ranges of the first segments, one each.
pub open spec fn are_resolved(segments: Seq<SegmentView>, ranges: Seq<Option<(u64, u64)>>) -> bool {
    forall|i: int| 0 <= i < ranges.len() ==> is_resolved(segments, i, #[trigger] ranges[i])
}

/// Where a sub-range of segment `i`'s URI starts that gives no offset.
fn continuation(
    segments: &[MediaSegment],
    ranges: &Vec<Option<(u64, u64)>>,
    i: usize,
) -> (r: u64)
    requires
        i < segments.len(),
        ranges.len() == i,
        are_resolved(playlist::segment_views(segments@), ranges@),
        forall|j: int| 0 <= j < i ==> #[trigger] range_fits(playlist::segment_views(segments@), j),
    ensures
        r == next_offset(
            playlist::segment_views(segments@),
            i as nat,
            segments[i as int].uri@,
        ),
{
    let ghost views = playlist::segment_views(segments@);
    let mut j: usize = i;
    while j > 0
        invariant
            j <= i < segments.len(),
            ranges.len() == i,
            views == playlist::segment_views(segments@),
            next_offset(views, i as nat, segments[i as int].uri@) == next_offset(
                views,
                j as nat,
                segments[i as int].uri@,
            ),
            are_resolved(views, ranges@),
            forall|k: int| 0 <= k < i ==> #[trigger] range_fits(views, k),
        decreases j,
    {
        j = j - 1;
        assert(is_resolved(views, j as int, ranges@[j as int]));
        assert(range_fits(views, j as int));
        if let Some((offset, length)) = ranges[j] {
            if segments[j].uri == segments[i].uri {
                return offset + length;
            }
        }
    }
    0
}

/// Resolve each segment's `#EXT-X-BYTERANGE` to an absolute (offset, length)
/// pair; `None` if one of them ends beyond `u64`. Per RFC 8216 §4.3.2.2, an
/// omitted offset means "immediately after the previous sub-range requested for
/// the same URI", so this has to walk the whole playlist in order rather than
/// just the sampled tail.
pub fn checked_byte_ranges(segments: &[MediaSegment]) -> (r: Option<Vec<Option<(u64, u64)>>>)
    ensures
        r is Some == ranges_fit(playlist::segment_views(segments@)),
        match r {
            Some(ranges) => ranges.len() == segments.len() && are_resolved(
                playlist::segment_views(segments@),
                ranges@,
            ),
            None => true,
        },
{
    let ghost views = playlist::segment_views(segments@);
    let mut ranges: Vec<Option<(u64, u64)>> = Vec::new();
    let mut i: usize = 0;
    while i < segments.len()
        invariant
            i <= segments.len(),
            ranges.len() == i,
            views == playlist::segment_views(segments@),
            are_resolved(views, ranges@),
            forall|j: int| 0 <= j < i ==> #[trigger] range_fits(views, j),
        decreases segments.len() - i,
    {
        assert(views[i as int] == segments[i as int]@);
        let range = match segments[i].byte_range {
            Some(r) => {
                let offset: u64 = match r.offset {
                    Some(offset) => offset,
                    None => continuation(segments, &ranges, i),
                };
                if offset.checked_add(r.length).is_none() {
                    assert(!range_fits(views, i as int));
                    return None;
                }
                Some((offset, r.length))
            },
            None => None,
        };
        assert(is_resolved(views, i as int, range));
        assert(range_fits(views, i as int));
        ranges.push(range);
        i = i + 1;
    }
    Some(ranges)
}

/// Resolve each segment's `#EXT-X-BYTERANGE` to an absolute (offset, length)
/// pair.
pub fn resolve_byte_ranges(segments: &[MediaSegment]) -> (r: Vec<Option<(u64, u64)>>)
    requires
        ranges_fit(playlist::segment_views(segments@)),
    ensures
        r.len() == segments.len(),
        are_resolved(playlist::segment_views(segments@), r@),
{
    checked_byte_ranges(segments).unwrap()
}

/// A sub-range without an offset starts right where the previous sub-range of
/// the same URI ends, whatever other segments stand between the two.
pub proof fn omitted_offset_continues(segments: Seq<SegmentView>, i: int, j: int)
    requires
        0 <= i < j < segments.len(),
        segments[i].byte_range is Some,
        segments[j].byte_range is Some,
        segments[j].byte_range->0.offset is None,
        segments[i].uri == segments[j].uri,
        forall|k: int|
            i < k < j ==> (#[trigger] segments[k]).byte_range is None || segments[k].uri
                != segments[j].uri,
    ensures
        (resolved(segments, j)->0).0 == (resolved(segments, i)->0).0 + (resolved(segments, i)->0).1,
{
    lemma_skips(segments, i, j as nat, segments[j].uri);
}

/// Segments without a sub-range of `uri` leave its next offset alone.
proof fn lemma_skips(segments: Seq<SegmentView>, i: int, n: nat, uri: Seq<char>)
    requires
        0 <= i < n <= segments.len(),
        forall|k: int|
            i < k < n ==> (#[trigger] segments[k]).byte_range is None || segments[k].uri != uri,
    ensures
        next_offset(segments, n, uri) == next_offset(segments, (i + 1) as nat, uri),
    decreases n,
{
    if n > i + 1 {
        assert(segments[n - 1].byte_range is None || segments[n - 1].uri != uri);
        lemma_skips(segments, i, (n - 1) as nat, uri);
    }
}

/// The first sub-range of a URI starts at the beginning if it gives no offset.
pub proof fn first_range_starts_at_zero(segments: Seq<SegmentView>, j: int)
    requires
        0 <= j < segments.len(),
        segments[j].byte_range is Some,
        segments[j].byte_range->0.offset is None,
        forall|k: int|
            0 <= k < j ==> (#[trigger] segments[k]).byte_range is None || segments[k].uri
                != segments[j].uri,
    ensures
        (resolved(segments, j)->0).0 == 0,
{
    if j > 0 {
        lemma_skips(segments, 0, j as nat, segments[j].uri);
        assert(segments[0].byte_range is None || segments[0].uri != segments[j].uri);
        reveal_with_fuel(next_offset, 2);
    }
}

// ---------------------------------------------------------------------------
// What to request
// ---------------------------------------------------------------------------

/// The `Range` header for `length` bytes from `offset` on.
pub open spec fn range_header(offset: nat, length: nat) -> Seq<char> {
    "bytes="@ + text::decimal(offset) + "-"@ + text::decimal((offset + length - 1) as nat)
}

/// There is a last byte for [`range_header`] to name, and it fits.
pub open spec fn can_be_requested(range: Option<(nat, nat)>) -> bool {
    match range {
        Some((offset, length)) => 1 <= offset + length <= u64::MAX,
        None => true,
    }
}

/// The `Range` header of a request, if it has one.
pub open spec fn range_text(range: Option<(nat, nat)>) -> Option<Seq<char>> {
    match range {
        Some((offset, length)) => Some(range_header(offset, length)),
        None => None,
    }
}

/// The sub-range of an init segment; without an offset it starts at 0.
pub open spec fn init_range(range: Option<ByteRange>) -> Option<(nat, nat)> {
    match range {
        Some(r) => match r.offset {
            Some(offset) => Some((offset as nat, r.length as nat)),
            None => Some((0, r.length as nat)),
        },
        None => None,
    }
}

/// The first `EXT-X-MAP` from segment `from` on.
pub open spec fn first_map(segments: Seq<SegmentView>, from: int) -> Option<InitMapView>
    decreases segments.len() - from,
{
    if from < 0 || from >= segments.len() {
        None
    } else if segments[from].map is Some {
        segments[from].map
    } else {
        first_map(segments, from + 1)
    }
}

/// How many segments are sampled.
pub open spec fn sampled(p: MediaView, count: usize) -> int {
    if count <= p.segments.len() {
        count as int
    } else {
        p.segments.len() as int
    }
}

/// The first of the segments that are sampled.
pub open spec fn first_sampled(p: MediaView, count: usize) -> int {
    p.segments.len() - sampled(p, count)
}

/// All the requests for a sample can be written down.
pub open spec fn can_be_sampled(p: MediaView, count: usize) -> bool {
    &&& ranges_fit(p.segments)
    &&& forall|i: int|
        first_sampled(p, count) <= i < p.segments.len() ==> can_be_requested(
            #[trigger] resolved(p.segments, i),
        )
    &&& first_map(p.segments, 0) matches Some(m) ==> can_be_requested(init_range(m.byte_range))
}

/// A request for the init segment.
#[derive(Debug, Clone)]
pub struct InitRequest {
    pub uri: String,
    /// The `Range` header.
    pub range: Option<String>,
}

/// A request for a sampled segment.
#[derive(Debug, Clone)]
pub struct SegmentRequest {
    pub uri: String,
    pub duration_bits: u32,
    /// The `Range` header.
    pub range: Option<String>,
}

/// The requests for a sample, in order.
#[derive(Debug, Clone)]
pub struct SamplePlan {
    pub init: Option<InitRequest>,
    pub segments: Vec<SegmentRequest>,
}

/// `r` asks for segment `i`.
pub open spec fn asks_for(r: SegmentRequest, segments: Seq<SegmentView>, i: int) -> bool {
    &&& r.uri@ == segments[i].uri
    &&& r.duration_bits == segments[i].duration_bits
    &&& text::optional(r.range) == range_text(resolved(segments, i))
}

/// `plan` asks for the init segment, if there is one, and for the `count` newest
/// segments, oldest first.
pub open spec fn is_plan(plan: SamplePlan, p: MediaView, count: usize) -> bool {
    &&& match (plan.init, first_map(p.segments, 0)) {
        (Some(r), Some(m)) => r.uri@ == m.uri && text::optional(r.range) == range_text(
            init_range(m.byte_range),
        ),
        (None, None) => true,
        _ => false,
    }
    &&& plan.segments.len() == sampled(p, count)
    &&& forall|k: int|
        0 <= k < plan.segments.len() ==> asks_for(
            #[trigger] plan.segments[k],
            p.segments,
            first_sampled(p, count) + k,
        )
}

/// The `Range` header for a sub-range; `None` if it has no last byte within
/// `u64`.
fn range_request(offset: u64, length: u64) -> (r: Option<String>)
    ensures
        r is Some == can_be_requested(Some((offset as nat, length as nat))),
        r matches Some(t) ==> t@ == range_header(offset as nat, length as nat),
{
    match offset.checked_add(length) {
        Some(end) if end > 0 => {
            let mut s = "bytes=".to_owned();
            push_decimal(&mut s, offset as u128);
            s.append("-");
            push_decimal(&mut s, end as u128 - 1);
            Some(s)
        },
        _ => None,
    }
}

/// The request for the init segment of the first `EXT-X-MAP`: nothing if there
/// is none, an error if its sub-range cannot be requested.
///
/// The parser attaches the tag to the segment that follows it, which is usually
/// the oldest one still in the playlist, so all of them are searched.
fn init_request(pl: &Media) -> (r: Result<Option<InitRequest>, ()>)
    ensures
        match first_map(pl@.segments, 0) {
            Some(m) => match r {
                Ok(Some(q)) => q.uri@ == m.uri && text::optional(q.range) == range_text(
                    init_range(m.byte_range),
                ) && can_be_requested(init_range(m.byte_range)),
                Ok(None) => false,
                Err(_) => !can_be_requested(init_range(m.byte_range)),
            },
            None => r matches Ok(None),
        },
{
    let mut i: usize = 0;
    while i < pl.segments.len()
        invariant
            i <= pl.segments.len(),
            first_map(pl@.segments, 0) == first_map(pl@.segments, i as int),
        decreases pl.segments.len() - i,
    {
        assert(pl@.segments[i as int] == pl.segments[i as int]@);
        if let Some(m) = &pl.segments[i].map {
            return match m.byte_range {
                Some(r) => {
                    let offset: u64 = match r.offset {
                        Some(offset) => offset,
                        None => 0,
                    };
                    match range_request(offset, r.length) {
                        Some(t) => Ok(Some(InitRequest { uri: m.uri.clone(), range: Some(t) })),
                        None => Err(()),
                    }
                },
                None => Ok(Some(InitRequest { uri: m.uri.clone(), range: None })),
            };
        }
        i = i + 1;
    }
    Ok(None)
}

/// Plans a sample of the `count` newest segments; `None` if a sub-range does not
/// end within `u64`, or a request would have to name a byte before the first.
pub fn sample_plan(pl: &Media, count: usize) -> (r: Option<SamplePlan>)
    ensures
        r is Some == can_be_sampled(pl@, count),
        r matches Some(plan) ==> is_plan(plan, pl@, count),
{
    let ghost views = pl@.segments;
    let ranges = match checked_byte_ranges(pl.segments.as_slice()) {
        Some(ranges) => ranges,
        None => return None,
    };
    let init = match init_request(pl) {
        Ok(init) => init,
        Err(_) => return None,
    };
    let take: usize = if count <= pl.segments.len() {
        count
    } else {
        pl.segments.len()
    };
    let first: usize = pl.segments.len() - take;
    let mut segments: Vec<SegmentRequest> = Vec::new();
    let mut i: usize = first;
    while i < pl.segments.len()
        invariant
            first <= i <= pl.segments.len(),
            views == pl@.segments,
            ranges.len() == pl.segments.len(),
            are_resolved(views, ranges@),
            first == first_sampled(pl@, count),
            segments.len() == i - first,
            forall|j: int|
                first <= j < i ==> can_be_requested(#[trigger] resolved(views, j)),
            forall|k: int|
                0 <= k < segments.len() ==> asks_for(
                    #[trigger] segments[k],
                    views,
                    first_sampled(pl@, count) + k,
                ),
        decreases pl.segments.len() - i,
    {
        assert(views[i as int] == pl.segments[i as int]@);
        assert(is_resolved(views, i as int, ranges@[i as int]));
        let segment = &pl.segments[i];
        let range = match ranges[i] {
            Some((offset, length)) => match range_request(offset, length) {
                Some(t) => Some(t),
                None => {
                    assert(!can_be_requested(resolved(views, i as int)));
                    return None;
                },
            },
            None => None,
        };
        let request = SegmentRequest {
            uri: segment.uri.clone(),
            duration_bits: segment.duration_bits,
            range,
        };
        assert(asks_for(request, views, i as int));
        segments.push(request);
        i = i + 1;
    }
    Some(SamplePlan { init, segments })
}

// ---------------------------------------------------------------------------
// Container formats
// ---------------------------------------------------------------------------

/// The container format of a segment.
#[derive(Debug, Clone, Copy, PartialEq, Eq, Structural)]
pub enum Container {
    MpegTs,
    Fmp4,
    Unknown,
}

/// The types of the boxes that a fragmented MP4 file starts with: `ftyp`,
/// `styp`, `moof`, `sidx` or `moov`.
pub open spec fn is_leading_box(name: Seq<u8>) -> bool {
    ||| name == seq![0x66u8, 0x74, 0x79, 0x70]
    ||| name == seq![0x73u8, 0x74, 0x79, 0x70]
    ||| name == seq![0x6du8, 0x6f, 0x6f, 0x66]
    ||| name == seq![0x73u8, 0x69, 0x64, 0x78]
    ||| name == seq![0x6du8, 0x6f, 0x6f, 0x76]
}

/// What the first bytes of a segment tell of its container: a transport stream
/// has a sync byte at the start of each of its 188-byte packets, a fragmented
/// MP4 file a box type after the first four bytes.
pub open spec fn container_of(bytes: Seq<u8>) -> Container {
    if bytes.len() >= 189 && bytes[0] == 0x47 && bytes[188] == 0x47 {
        Container::MpegTs
    } else if bytes.len() >= 8 && is_leading_box(bytes.subrange(4, 8)) {
        Container::Fmp4
    } else {
        Container::Unknown
    }
}

/// The name of a container format.
pub open spec fn container_label(c: Container) -> Seq<char> {
    match c {
        Container::MpegTs => "MPEG-TS"@,
        Container::Fmp4 => "fMP4/CMAF"@,
        Container::Unknown => "unknown"@,
    }
}

/// Does the first box have this type?
fn first_box_is(bytes: &[u8], a: u8, b: u8, c: u8, d: u8) -> (r: bool)
    requires
        bytes@.len() >= 8,
    ensures
        r == (bytes@.subrange(4, 8) == seq![a, b, c, d]),
{
    let r = bytes[4] == a && bytes[5] == b && bytes[6] == c && bytes[7] == d;
    proof {
        let name = bytes@.subrange(4, 8);
        assert(name[0] == bytes@[4] && name[1] == bytes@[5] && name[2] == bytes@[6] && name[3]
            == bytes@[7]);
        if r {
            assert(name =~= seq![a, b, c, d]);
        }
    }
    r
}

impl Container {
    /// Tells the container from the first bytes of a segment.
    pub fn sniff(bytes: &[u8]) -> (r: Container)
        ensures
            r == container_of(bytes@),
    {
        if bytes.len() >= 189 && bytes[0] == 0x47 && bytes[188] == 0x47 {
            return Container::MpegTs;
        }
        if bytes.len() >= 8 && (first_box_is(bytes, 0x66, 0x74, 0x79, 0x70) || first_box_is(
            bytes,
            0x73,
            0x74,
            0x79,
            0x70,
        ) || first_box_is(bytes, 0x6d, 0x6f, 0x6f, 0x66) || first_box_is(
            bytes,
            0x73,
            0x69,
            0x64,
            0x78,
        ) || first_box_is(bytes, 0x6d, 0x6f, 0x6f, 0x76)) {
            return Container::Fmp4;
        }
        Container::Unknown
    }

    /// The name of the format.
    pub fn label(self) -> (r: &'static str)
        ensures
            r@ == container_label(self),
    {
        match self {
            Container::MpegTs => "MPEG-TS",
            Container::Fmp4 => "fMP4/CMAF",
            Container::Unknown => "unknown",
        }
    }
}

// ---------------------------------------------------------------------------
// Origin cacheability
// ---------------------------------------------------------------------------

/// Cache-relevant response headers observed on the sampled segments.
///
/// CDNs disagree on what an origin must send before they will cache large
/// objects. Google Cloud CDN only performs chunked cache fill (required for
/// objects over 1 MiB, and for anything over 10 MiB at all) when the origin
/// answers with `Accept-Ranges: bytes`, `Content-Length`, *and* both
/// `Last-Modified` and a strong `ETag`. Google Media CDN refuses to cache
/// objects over 1 MiB without a validator and byte-range support. CloudFront
/// needs none of this and caches on `Cache-Control` alone, which is why an
/// origin that looks healthy behind CloudFront can stop caching behind GCP.
#[derive(Debug, Clone)]
pub struct OriginCacheability {
    pub etag: Option<String>,
    pub last_modified: Option<String>,
    pub cache_control: Option<String>,
    pub accept_ranges_bytes: bool,
    /// Largest single sampled segment, to compare against the 1 MiB rule.
    pub largest_segment_bytes: u64,
}

/// Cache-relevant response headers, by their text.
#[verifier::ext_equal]
pub struct CacheabilityView {
    pub etag: Option<Seq<char>>,
    pub last_modified: Option<Seq<char>>,
    pub cache_control: Option<Seq<char>>,
    pub accept_ranges_bytes: bool,
    pub largest_segment_bytes: u64,
}

impl View for OriginCacheability {
    type V = CacheabilityView;

    open spec fn view(&self) -> CacheabilityView {
        CacheabilityView {
            etag: text::optional(self.etag),
            last_modified: text::optional(self.last_modified),
            cache_control: text::optional(self.cache_control),
            accept_ranges_bytes: self.accept_ranges_bytes,
            largest_segment_bytes: self.largest_segment_bytes,
        }
    }
}

/// Nothing observed yet.
pub open spec fn nothing_observed() -> CacheabilityView {
    CacheabilityView {
        etag: None,
        last_modified: None,
        cache_control: None,
        accept_ranges_bytes: false,
        largest_segment_bytes: 0,
    }
}

impl Default for OriginCacheability {
    fn default() -> (r: OriginCacheability)
        ensures
            r@ == nothing_observed(),
    {
        OriginCacheability {
            etag: None,
            last_modified: None,
            cache_control: None,
            accept_ranges_bytes: false,
            largest_segment_bytes: 0,
        }
    }
}

/// The mark of a weak entity tag.
pub open spec fn is_weak(etag: Seq<char>) -> bool {
    etag.len() >= 2 && etag[0] == 'W' && etag[1] == '/'
}

/// There is an entity tag, and it is strong.
pub open spec fn strong_etag(c: CacheabilityView) -> bool {
    c.etag is Some && !is_weak(c.etag->0)
}

/// There is an entity tag or a modification date.
pub open spec fn validator(c: CacheabilityView) -> bool {
    c.etag is Some || c.last_modified is Some
}

/// Google Cloud CDN would treat the origin as supporting byte ranges.
pub open spec fn range_capable(c: CacheabilityView) -> bool {
    c.accept_ranges_bytes && strong_etag(c) && c.last_modified is Some
}

/// One mebibyte.
pub const MEBIBYTE: u64 = 1_048_576;

/// The warning for large segments without a validator.
pub open spec fn no_validator_warning(largest: u64) -> Seq<char> {
    "segments up to "@ + text::decimal((largest / 1024) as nat)
        + " KiB carry no ETag or Last-Modified: Google Media CDN will not cache objects over 1 MiB without a validator"@
}

/// The warning for large segments that cannot be fetched in ranges.
pub open spec fn no_ranges_warning() -> Seq<char> {
    "origin fails Google Cloud CDN's byte-range test (needs Accept-Ranges: bytes + strong ETag + Last-Modified): no chunked cache fill, cacheable size capped at 10 MiB"@
}

/// The warning for segments without `Cache-Control`.
pub open spec fn no_cache_control_warning() -> Seq<char> {
    "no Cache-Control on segments: CDNs in honor-origin mode will not cache them at all"@
}

/// `s` alone if `condition` holds, else nothing.
pub open spec fn only_if(condition: bool, s: Seq<char>) -> Seq<Seq<char>> {
    if condition {
        seq![s]
    } else {
        Seq::empty()
    }
}

/// The warnings that the observed headers give.
pub open spec fn cache_warnings(c: CacheabilityView) -> Seq<Seq<char>> {
    let large = c.largest_segment_bytes > MEBIBYTE;
    only_if(large && !validator(c), no_validator_warning(c.largest_segment_bytes)) + only_if(
        large && !range_capable(c),
        no_ranges_warning(),
    ) + only_if(c.cache_control is None, no_cache_control_warning())
}

impl OriginCacheability {
    /// Is there a strong entity tag?
    pub fn etag_is_strong(&self) -> (r: bool)
        ensures
            r == strong_etag(self@),
    {
        match &self.etag {
            Some(v) => {
                let s = v.as_str();
                !(s.unicode_len() >= 2 && s.get_char(0) == 'W' && s.get_char(1) == '/')
            },
            None => false,
        }
    }

    /// Is there an entity tag or a modification date?
    pub fn has_validator(&self) -> (r: bool)
        ensures
            r == validator(self@),
    {
        self.etag.is_some() || self.last_modified.is_some()
    }

    /// Would Google Cloud CDN treat this origin as supporting byte ranges?
    pub fn gcp_range_capable(&self) -> (r: bool)
        ensures
            r == range_capable(self@),
    {
        self.accept_ranges_bytes && self.etag_is_strong() && self.last_modified.is_some()
    }

    /// What keeps CDNs from caching the segments.
    pub fn warnings(&self) -> (r: Vec<String>)
        ensures
            text::texts(r@) == cache_warnings(self@),
    {
        let mut w: Vec<String> = Vec::new();
        let over_1mib = self.largest_segment_bytes > MEBIBYTE;
        if over_1mib && !self.has_validator() {
            let mut s = "segments up to ".to_owned();
            push_decimal(&mut s, self.largest_segment_bytes as u128 / 1024);
            s.append(
                " KiB carry no ETag or Last-Modified: Google Media CDN will not cache objects over 1 MiB without a validator",
            );
            w.push(s);
        }
        if over_1mib && !self.gcp_range_capable() {
            w.push(
                "origin fails Google Cloud CDN's byte-range test (needs Accept-Ranges: bytes + strong ETag + Last-Modified): no chunked cache fill, cacheable size capped at 10 MiB".to_owned(),
            );
        }
        if self.cache_control.is_none() {
            w.push(
                "no Cache-Control on segments: CDNs in honor-origin mode will not cache them at all".to_owned(),
            );
        }
        assert(text::texts(w@) =~= cache_warnings(self@));
        w
    }
}

/// A later value, or else the one there was.
pub open spec fn or_earlier(later: Option<Seq<char>>, earlier: Option<Seq<char>>) -> Option<
    Seq<char>,
> {
    if later is Some {
        later
    } else {
        earlier
    }
}

/// What has been observed after one more response with these headers and this
/// many bytes. A partial answer to a range request proves range support even
/// without an `Accept-Ranges` header.
pub open spec fn observed(
    c: CacheabilityView,
    headers: Map<Seq<char>, Seq<Seq<u8>>>,
    partial: bool,
    bytes: u64,
) -> CacheabilityView {
    CacheabilityView {
        etag: or_earlier(fetch::header_text(headers, "etag"@), c.etag),
        last_modified: or_earlier(fetch::header_text(headers, "last-modified"@), c.last_modified),
        cache_control: or_earlier(fetch::header_text(headers, "cache-control"@), c.cache_control),
        accept_ranges_bytes: c.accept_ranges_bytes || fetch::header_text(
            headers,
            "accept-ranges"@,
        ) == Some("bytes"@) || partial,
        largest_segment_bytes: if bytes > c.largest_segment_bytes {
            bytes
        } else {
            c.largest_segment_bytes
        },
    }
}

/// The header's text, or else what there was.
fn header_or(
    headers: &HeaderMap<HeaderValue>,
    name: &str,
    earlier: &Option<String>,
) -> (r: Option<String>)
    ensures
        text::optional(r) == or_earlier(
            fetch::header_text(fetch::header_entries(*headers), name@),
            text::optional(*earlier),
        ),
{
    match response_header(headers, name) {
        Some(v) => Some(v),
        None => text::copy(earlier),
    }
}

impl OriginCacheability {
    /// Takes one more response into account.
    pub fn observe(&mut self, headers: &HeaderMap<HeaderValue>, partial: bool, bytes: u64)
        ensures
            final(self)@ == observed(old(self)@, fetch::header_entries(*headers), partial, bytes),
    {
        self.etag = header_or(headers, "etag", &self.etag);
        self.last_modified = header_or(headers, "last-modified", &self.last_modified);
        self.cache_control = header_or(headers, "cache-control", &self.cache_control);
        let bytes_accepted = match response_header(headers, "accept-ranges") {
            Some(v) => text::same(v.as_str(), "bytes"),
            None => false,
        };
        self.accept_ranges_bytes = self.accept_ranges_bytes || bytes_accepted || partial;
        if bytes > self.largest_segment_bytes {
            self.largest_segment_bytes = bytes;
        }
    }
}

// ---------------------------------------------------------------------------
// Measuring
// ---------------------------------------------------------------------------

/// One nanosecond, the shortest time that a rate is taken over.
pub open spec fn shortest_time() -> Float {
    double::quotient(double::of_int(1), double::of_int(1_000_000_000))
}

/// The bits per second of so many bytes over so many seconds.
pub open spec fn bit_rate(bytes: u64, time: Float) -> Float {
    double::quotient(
        double::product(double::of_int(bytes as int), double::of_int(8)),
        double::greater_of(time, shortest_time()),
    )
}

/// The bits per second of so many bytes over so many seconds.
fn rate_over(bytes: u64, time: Double) -> (r: Double)
    ensures
        r@ == bit_rate(bytes, time@),
{
    let least = Double::from_u64(1).over(Double::from_u64(1_000_000_000));
    Double::from_u64(bytes).times(Double::from_u64(8)).over(time.max(least))
}

/// One downloaded segment.
#[derive(Debug, Clone)]
pub struct SegmentMeasure {
    pub uri: String,
    pub bytes: u64,
    /// The `EXTINF` duration in seconds.
    pub duration: Double,
    /// Time until the response headers arrived.
    pub ttfb_ms: Double,
    /// Time until the body was complete.
    pub total_ms: Double,
    /// Download throughput over the whole request, in bits per second.
    pub throughput_bps: Double,
    /// Actual media bitrate: payload bits over declared segment duration.
    pub bitrate_bps: Double,
}

/// `m` measures this request, this many bytes and these times.
pub open spec fn measures(
    m: SegmentMeasure,
    request: SegmentRequest,
    bytes: u64,
    ttfb_nanos: u64,
    total_nanos: u64,
) -> bool {
    &&& m.uri@ == request.uri@
    &&& m.bytes == bytes
    &&& m.duration@ == double::of_single(request.duration_bits)
    &&& m.ttfb_ms@ == timing::millis_of(ttfb_nanos)
    &&& m.total_ms@ == timing::millis_of(total_nanos)
    &&& m.throughput_bps@ == bit_rate(bytes, timing::seconds_of(total_nanos))
    &&& m.bitrate_bps@ == bit_rate(bytes, double::of_single(request.duration_bits))
}

/// The bytes of the first `n` segments.
pub open spec fn total_bytes(s: Seq<SegmentMeasure>, n: nat) -> nat
    decreases n,
{
    if n == 0 {
        0
    } else {
        total_bytes(s, (n - 1) as nat) + s[n - 1].bytes as nat
    }
}

/// The most bytes in one of the first `n` segments.
pub open spec fn most_bytes(s: Seq<SegmentMeasure>, n: nat) -> u64
    decreases n,
{
    if n == 0 {
        0
    } else {
        let before = most_bytes(s, (n - 1) as nat);
        if s[n - 1].bytes > before {
            s[n - 1].bytes
        } else {
            before
        }
    }
}

/// The seconds of the first `n` segments, added up in order.
pub open spec fn total_duration(s: Seq<SegmentMeasure>, n: nat) -> Float
    decreases n,
{
    if n == 0 {
        double::zero()
    } else {
        double::sum(total_duration(s, (n - 1) as nat), s[n - 1].duration@)
    }
}

/// The time to first byte of the first `n` segments, added up in order.
pub open spec fn total_ttfb(s: Seq<SegmentMeasure>, n: nat) -> Float
    decreases n,
{
    if n == 0 {
        double::zero()
    } else {
        double::sum(total_ttfb(s, (n - 1) as nat), s[n - 1].ttfb_ms@)
    }
}

/// The average time to first byte; that of no segments is zero.
pub open spec fn average_ttfb(s: Seq<SegmentMeasure>) -> Float {
    if s.len() == 0 {
        double::zero()
    } else {
        double::quotient(total_ttfb(s, s.len()), double::of_int(s.len() as int))
    }
}

/// The highest bit rate among the first `n` segments.
pub open spec fn peak(s: Seq<SegmentMeasure>, n: nat) -> Float
    decreases n,
{
    if n == 0 {
        double::zero()
    } else {
        double::greater_of(peak(s, (n - 1) as nat), s[n - 1].bitrate_bps@)
    }
}

/// What a sample of segments showed.
#[derive(Debug, Clone)]
pub struct MeasureReport {
    pub container: Container,
    pub init_segment: bool,
    pub segments: Vec<SegmentMeasure>,
    /// Aggregate measured bitrate across all sampled segments.
    pub measured_bitrate_bps: Double,
    /// Highest single-segment bitrate seen.
    pub peak_bitrate_bps: Double,
    pub avg_ttfb_ms: Double,
    pub cacheability: OriginCacheability,
}

/// A sample in the making.
///
/// TTFB is the time until response headers arrive; throughput is computed over
/// the full body download. The actual media bitrate (bytes against the declared
/// EXTINF duration) is what should be compared with the variant's BANDWIDTH
/// attribute: RFC 8216 §4.3.4.2 defines BANDWIDTH as an upper bound of the peak
/// segment bit rate.
#[derive(Debug)]
pub struct Measurement {
    pub container: Container,
    pub init_segment: bool,
    pub segments: Vec<SegmentMeasure>,
    pub bytes: u64,
    pub cacheability: OriginCacheability,
}

impl Measurement {
    /// `bytes` are those of the segments, and the largest segment is known.
    pub open spec fn wf(&self) -> bool {
        &&& self.bytes == total_bytes(self.segments@, self.segments@.len())
        &&& self.cacheability.largest_segment_bytes == most_bytes(
            self.segments@,
            self.segments@.len(),
        )
    }

    /// Nothing downloaded yet.
    pub fn new() -> (r: Measurement)
        ensures
            r.wf(),
            r.container == Container::Unknown,
            !r.init_segment,
            r.segments@.len() == 0,
            r.cacheability@ == nothing_observed(),
    {
        Measurement {
            container: Container::Unknown,
            init_segment: false,
            segments: Vec::new(),
            bytes: 0,
            cacheability: OriginCacheability::default(),
        }
    }

    /// Takes the init segment into account.
    pub fn record_init(&mut self, body: &[u8])
        requires
            old(self).wf(),
        ensures
            final(self).wf(),
            final(self).container == container_of(body@),
            final(self).init_segment,
            final(self).segments == old(self).segments,
            final(self).cacheability == old(self).cacheability,
    {
        self.init_segment = true;
        self.container = Container::sniff(body);
    }

    /// Takes a segment into account; not if the bytes of all segments would no
    /// longer fit in `u64`.
    pub fn record_segment(
        &mut self,
        request: &SegmentRequest,
        headers: &HeaderMap<HeaderValue>,
        partial: bool,
        body: &[u8],
        ttfb_nanos: u64,
        total_nanos: u64,
    ) -> (recorded: bool)
        requires
            old(self).wf(),
        ensures
            final(self).wf(),
            recorded == (old(self).bytes + body@.len() <= u64::MAX),
            !recorded ==> *final(self) == *old(self),
            recorded ==> {
                &&& final(self).container == if old(self).container == Container::Unknown {
                    container_of(body@)
                } else {
                    old(self).container
                }
                &&& final(self).init_segment == old(self).init_segment
                &&& final(self).segments@.len() == old(self).segments@.len() + 1
                &&& final(self).segments@.drop_last() == old(self).segments@
                &&& measures(
                    final(self).segments@.last(),
                    *request,
                    body@.len() as u64,
                    ttfb_nanos,
                    total_nanos,
                )
                &&& final(self).cacheability@ == observed(
                    old(self).cacheability@,
                    fetch::header_entries(*headers),
                    partial,
                    body@.len() as u64,
                )
            },
    {
        let bytes: u64 = body.len() as u64;
        let sum: u64 = match self.bytes.checked_add(bytes) {
            Some(sum) => sum,
            None => return false,
        };
        self.cacheability.observe(headers, partial, bytes);
        if self.container == Container::Unknown {
            self.container = Container::sniff(body);
        }
        let measured = SegmentMeasure {
            uri: request.uri.clone(),
            bytes,
            duration: Double::from_single(request.duration_bits),
            ttfb_ms: timing::millis(ttfb_nanos),
            total_ms: timing::millis(total_nanos),
            throughput_bps: rate_over(bytes, timing::seconds(total_nanos)),
            bitrate_bps: rate_over(bytes, Double::from_single(request.duration_bits)),
        };
        let ghost before = self.segments@;
        self.segments.push(measured);
        self.bytes = sum;
        proof {
            lemma_prefix_bytes(before, self.segments@, before.len());
            assert(self.segments@.drop_last() =~= before);
        }
        true
    }

    /// Sums the sample up.
    pub fn finish(self) -> (r: MeasureReport)
        requires
            self.wf(),
        ensures
            r.container == self.container,
            r.init_segment == self.init_segment,
            r.segments == self.segments,
            r.measured_bitrate_bps@ == bit_rate(
                self.bytes,
                total_duration(self.segments@, self.segments@.len()),
            ),
            r.peak_bitrate_bps@ == peak(self.segments@, self.segments@.len()),
            r.avg_ttfb_ms@ == average_ttfb(self.segments@),
            r.cacheability == self.cacheability,
    {
        let mut time = Double::zero(false);
        let mut highest = Double::zero(false);
        let mut ttfb = Double::zero(false);
        let mut i: usize = 0;
        while i < self.segments.len()
            invariant
                i <= self.segments.len(),
                time@ == total_duration(self.segments@, i as nat),
                highest@ == peak(self.segments@, i as nat),
                ttfb@ == total_ttfb(self.segments@, i as nat),
            decreases self.segments.len() - i,
        {
            let s = &self.segments[i];
            time = time.plus(s.duration);
            highest = highest.max(s.bitrate_bps);
            ttfb = ttfb.plus(s.ttfb_ms);
            i = i + 1;
        }
        let avg_ttfb_ms = if self.segments.len() == 0 {
            ttfb
        } else {
            ttfb.over(Double::from_u64(self.segments.len() as u64))
        };
        MeasureReport {
            container: self.container,
            init_segment: self.init_segment,
            measured_bitrate_bps: rate_over(self.bytes, time),
            peak_bitrate_bps: highest,
            avg_ttfb_ms,
            segments: self.segments,
            cacheability: self.cacheability,
        }
    }
}

/// Segments added at the end leave the bytes of those before alone.
proof fn lemma_prefix_bytes(a: Seq<SegmentMeasure>, b: Seq<SegmentMeasure>, n: nat)
    requires
        n <= a.len() <= b.len(),
        forall|i: int| 0 <= i < n ==> a[i] == b[i],
    ensures
        total_bytes(a, n) == total_bytes(b, n),
        most_bytes(a, n) == most_bytes(b, n),
    decreases n,
{
    if n > 0 {
        lemma_prefix_bytes(a, b, (n - 1) as nat);
    }
}

/// The peak is a number, no segment has a higher bit rate, and one has just that
/// unless the peak is zero.
pub proof fn peak_is_highest(s: Seq<SegmentMeasure>, n: nat)
    requires
        n <= s.len(),
    ensures
        peak(s, n) !is Nan,
        forall|i: int| 0 <= i < n ==> !double::less(peak(s, n), (#[trigger] s[i]).bitrate_bps@),
        peak(s, n) == double::zero() || exists|i: int|
            0 <= i < n && (#[trigger] s[i]).bitrate_bps@ == peak(s, n),
    decreases n,
{
    if n > 0 {
        peak_is_highest(s, (n - 1) as nat);
        if double::less(peak(s, (n - 1) as nat), s[n - 1].bitrate_bps@) {
            assert(s[n - 1].bitrate_bps@ == peak(s, n));
        }
    }
}

/// Where segments are at most 1 MiB and carry `Cache-Control`, there is nothing
/// to warn of; nor where large ones pass the byte-range test as well.
pub proof fn healthy_origin_is_quiet(c: CacheabilityView)
    requires
        c.cache_control is Some,
        c.largest_segment_bytes <= MEBIBYTE || range_capable(c),
    ensures
        cache_warnings(c) == Seq::<Seq<char>>::empty(),
{
    assert(cache_warnings(c) =~= Seq::<Seq<char>>::empty());
}

/// An origin that passes the byte-range test has a validator.
pub proof fn range_capable_has_validator(c: CacheabilityView)
    requires
        range_capable(c),
    ensures
        validator(c),
        strong_etag(c),
        c.accept_ranges_bytes,
        c.last_modified is Some,
{
}

/// Large segments without a validator are warned of twice: for Google Media CDN
/// and for Google Cloud CDN.
pub proof fn missing_validator_warns_twice(c: CacheabilityView)
    requires
        c.largest_segment_bytes > MEBIBYTE,
        !validator(c),
    ensures
        cache_warnings(c).len() >= 2,
        cache_warnings(c)[0] == no_validator_warning(c.largest_segment_bytes),
        cache_warnings(c)[1] == no_ranges_warning(),
{
}

/// What one response has shown, later ones do not take back: a header that was
/// seen stays present, range support stays, and the largest segment does not
/// shrink.
pub proof fn observations_accumulate(
    c: CacheabilityView,
    headers: Map<Seq<char>, Seq<Seq<u8>>>,
    partial: bool,
    bytes: u64,
)
    ensures
        ({
            let after = observed(c, headers, partial, bytes);
            &&& c.etag is Some ==> after.etag is Some
            &&& c.last_modified is Some ==> after.last_modified is Some
            &&& c.cache_control is Some ==> after.cache_control is Some
            &&& c.accept_ranges_bytes ==> after.accept_ranges_bytes
            &&& validator(c) ==> validator(after)
            &&& c.largest_segment_bytes <= after.largest_segment_bytes
            &&& bytes <= after.largest_segment_bytes
        }),
{
}

/// The three warnings differ.
proof fn lemma_warnings_differ(largest: u64)
    ensures
        no_validator_warning(largest) != no_ranges_warning(),
        no_validator_warning(largest) != no_cache_control_warning(),
        no_ranges_warning() != no_cache_control_warning(),
{
    reveal_strlit("segments up to ");
    reveal_strlit(
        "origin fails Google Cloud CDN's byte-range test (needs Accept-Ranges: bytes + strong ETag + Last-Modified): no chunked cache fill, cacheable size capped at 10 MiB",
    );
    reveal_strlit(
        "no Cache-Control on segments: CDNs in honor-origin mode will not cache them at all",
    );
    assert(no_validator_warning(largest)[0] == 's');
    assert(no_ranges_warning()[0] == 'o');
    assert(no_cache_control_warning()[0] == 'n');
}

/// Google Cloud CDN's byte-range test is warned of exactly if a segment is over
/// 1 MiB and the origin lacks range support, a strong entity tag or a
/// modification date, no matter what else it has.
pub proof fn failed_range_test_is_warned_of(c: CacheabilityView)
    ensures
        cache_warnings(c).contains(no_ranges_warning()) <==> c.largest_segment_bytes > 1_048_576
            && (!c.accept_ranges_bytes || c.etag is None || "W/"@.is_prefix_of(c.etag->0)
            || c.last_modified is None),
{
    lemma_warnings_differ(c.largest_segment_bytes);
    if c.etag is Some {
        lemma_weak(c);
    }
    lemma_parts_of_warnings(c);
}

/// Large segments without a validator are warned of exactly if a segment is over
/// 1 MiB and the origin sends neither an entity tag nor a modification date.
pub proof fn missing_validator_is_warned_of(c: CacheabilityView)
    ensures
        cache_warnings(c).contains(no_validator_warning(c.largest_segment_bytes))
            <==> c.largest_segment_bytes > 1_048_576 && c.etag is None && c.last_modified is None,
{
    lemma_warnings_differ(c.largest_segment_bytes);
    lemma_parts_of_warnings(c);
}

/// A missing `Cache-Control` is warned of, however large the segments are and
/// whatever else the origin sends.
pub proof fn missing_cache_control_is_warned_of(c: CacheabilityView)
    ensures
        cache_warnings(c).contains(no_cache_control_warning()) <==> c.cache_control is None,
{
    lemma_warnings_differ(c.largest_segment_bytes);
    lemma_parts_of_warnings(c);
}

/// There are no other warnings, and none is given twice.
pub proof fn warnings_are_given_once(c: CacheabilityView)
    ensures
        cache_warnings(c).no_duplicates(),
        forall|k: int|
            0 <= k < cache_warnings(c).len() ==> {
                ||| #[trigger] cache_warnings(c)[k] == no_validator_warning(c.largest_segment_bytes)
                ||| cache_warnings(c)[k] == no_ranges_warning()
                ||| cache_warnings(c)[k] == no_cache_control_warning()
            },
{
    lemma_warnings_differ(c.largest_segment_bytes);
}

proof fn lemma_weak(c: CacheabilityView)
    requires
        c.etag is Some,
    ensures
        is_weak(c.etag->0) <==> "W/"@.is_prefix_of(c.etag->0),
{
    reveal_strlit("W/");
    let tag = c.etag->0;
    if tag.len() >= 2 {
        assert(tag.subrange(0, 2)[0] == tag[0] && tag.subrange(0, 2)[1] == tag[1]);
        if is_weak(tag) {
            assert("W/"@ =~= tag.subrange(0, 2));
        }
    }
}

proof fn lemma_parts_of_warnings(c: CacheabilityView)
    ensures
        forall|s: Seq<char>| #[trigger]
            cache_warnings(c).contains(s) <==> {
                let large = c.largest_segment_bytes > MEBIBYTE;
                ||| large && !validator(c) && s == no_validator_warning(c.largest_segment_bytes)
                ||| large && !range_capable(c) && s == no_ranges_warning()
                ||| c.cache_control is None && s == no_cache_control_warning()
            },
{
    let large = c.largest_segment_bytes > MEBIBYTE;
    let a = only_if(large && !validator(c), no_validator_warning(c.largest_segment_bytes));
    let b = only_if(large && !range_capable(c), no_ranges_warning());
    let d = only_if(c.cache_control is None, no_cache_control_warning());
    let all = cache_warnings(c);
    assert(all == a + b + d);
    if large && !validator(c) {
        assert(all[0] == no_validator_warning(c.largest_segment_bytes));
    }
    if large && !range_capable(c) {
        assert(all[a.len() as int] == no_ranges_warning());
    }
    if c.cache_control is None {
        assert(all[(a.len() + b.len()) as int] == no_cache_control_warning());
    }
}

/// A response header replaces what earlier responses had of it, and a response
/// without it leaves that alone; the largest segment is the larger of the two.
pub proof fn latest_header_counts(
    c: CacheabilityView,
    headers: Map<Seq<char>, Seq<Seq<u8>>>,
    partial: bool,
    bytes: u64,
)
    ensures
        ({
            let after = observed(c, headers, partial, bytes);
            let etag = fetch::header_text(headers, "etag"@);
            let modified = fetch::header_text(headers, "last-modified"@);
            let control = fetch::header_text(headers, "cache-control"@);
            &&& etag is Some ==> after.etag == etag
            &&& etag is None ==> after.etag == c.etag
            &&& modified is Some ==> after.last_modified == modified
            &&& modified is None ==> after.last_modified == c.last_modified
            &&& control is Some ==> after.cache_control == control
            &&& control is None ==> after.cache_control == c.cache_control
            &&& after.accept_ranges_bytes <==> c.accept_ranges_bytes || partial
                || fetch::header_text(headers, "accept-ranges"@) == Some("bytes"@)
            &&& after.largest_segment_bytes == bytes || after.largest_segment_bytes
                == c.largest_segment_bytes
            &&& after.largest_segment_bytes >= bytes
            &&& after.largest_segment_bytes >= c.largest_segment_bytes
        }),
{
}

/// A sub-range starts where its offset says, whatever came before, and has the
/// length that the playlist gives; a segment without one is taken whole.
pub proof fn explicit_offset_counts(segments: Seq<SegmentView>, i: int)
    requires
        0 <= i < segments.len(),
    ensures
        segments[i].byte_range is None <==> resolved(segments, i) is None,
        segments[i].byte_range matches Some(r) ==> (resolved(segments, i)->0).1 == r.length,
        segments[i].byte_range matches Some(r) ==> (r.offset matches Some(offset) ==> (resolved(
            segments,
            i,
        )->0).0 == offset),
{
}

/// A plan asks for the newest segments, as many as were asked for or as there are,
/// oldest first, each with its own URI, duration and sub-range.
pub proof fn newest_segments_are_sampled(plan: SamplePlan, p: MediaView, count: usize, k: int)
    requires
        is_plan(plan, p, count),
        0 <= k < plan.segments.len(),
    ensures
        count <= p.segments.len() ==> plan.segments.len() == count,
        count > p.segments.len() ==> plan.segments.len() == p.segments.len(),
        ({
            let i = p.segments.len() - plan.segments.len() + k;
            let r = plan.segments[k];
            &&& r.uri@ == p.segments[i].uri
            &&& r.duration_bits == p.segments[i].duration_bits
            &&& r.range is None <==> p.segments[i].byte_range is None
            &&& resolved(p.segments, i) matches Some((offset, length)) ==> text::optional(r.range)
                == Some(
                "bytes="@ + text::decimal(offset) + "-"@ + text::decimal(
                    (offset + length - 1) as nat,
                ),
            )
        }),
{
    assert(asks_for(plan.segments[k], p.segments, first_sampled(p, count) + k));
}

/// A plan asks for as many segments as there are, but no more than `count`.
pub proof fn plan_has_the_wanted_size(plan: SamplePlan, p: MediaView, count: usize)
    requires
        is_plan(plan, p, count),
    ensures
        plan.segments.len() <= count,
        plan.segments.len() <= p.segments.len(),
        plan.segments.len() == count || plan.segments.len() == p.segments.len(),
{
}

/// The init segment is that of the first segment that has one, wherever it stands
/// in the playlist, from its offset or from the beginning.
pub proof fn first_init_segment_is_requested(plan: SamplePlan, p: MediaView, count: usize, i: int)
    requires
        is_plan(plan, p, count),
        0 <= i < p.segments.len(),
        p.segments[i].map is Some,
        forall|k: int| 0 <= k < i ==> (#[trigger] p.segments[k]).map is None,
    ensures
        plan.init is Some,
        plan.init->0.uri@ == p.segments[i].map->0.uri,
        p.segments[i].map->0.byte_range is None ==> plan.init->0.range is None,
        p.segments[i].map->0.byte_range matches Some(r) ==> {
            let offset = if r.offset is Some {
                r.offset->0
            } else {
                0
            };
            text::optional(plan.init->0.range) == Some(
                "bytes="@ + text::decimal(offset as nat) + "-"@ + text::decimal(
                    (offset + r.length - 1) as nat,
                ),
            )
        },
{
    lemma_first_map(p.segments, 0, i);
}

/// Without an `EXT-X-MAP` no init segment is requested.
pub proof fn no_init_segment_without_a_map(plan: SamplePlan, p: MediaView, count: usize)
    requires
        is_plan(plan, p, count),
    ensures
        plan.init is None <==> forall|k: int|
            0 <= k < p.segments.len() ==> (#[trigger] p.segments[k]).map is None,
{
    lemma_no_map(p.segments, 0);
}

proof fn lemma_first_map(segments: Seq<SegmentView>, from: int, i: int)
    requires
        0 <= from <= i < segments.len(),
        segments[i].map is Some,
        forall|k: int| 0 <= k < i ==> (#[trigger] segments[k]).map is None,
    ensures
        first_map(segments, from) == segments[i].map,
    decreases i - from,
{
    if from < i {
        assert(segments[from].map is None);
        lemma_first_map(segments, from + 1, i);
    }
}

proof fn lemma_no_map(segments: Seq<SegmentView>, from: int)
    requires
        0 <= from <= segments.len(),
    ensures
        first_map(segments, from) is None <==> forall|k: int|
            from <= k < segments.len() ==> (#[trigger] segments[k]).map is None,
    decreases segments.len() - from,
{
    if from < segments.len() {
        lemma_no_map(segments, from + 1);
    }
}

/// A body is a transport stream exactly if it has sync bytes 188 bytes apart; else
/// a fragmented MP4 file exactly if bytes 4 to 7 name one of the five boxes.
pub proof fn container_is_told_by_its_marks(bytes: Seq<u8>)
    ensures
        container_of(bytes) is MpegTs <==> bytes.len() > 188 && bytes[0] == 0x47 && bytes[188]
            == 0x47,
        container_of(bytes) is Fmp4 <==> !(container_of(bytes) is MpegTs) && bytes.len() >= 8 && {
            let name = (bytes[4], bytes[5], bytes[6], bytes[7]);
            ||| name == (0x66u8, 0x74u8, 0x79u8, 0x70u8)
            ||| name == (0x73u8, 0x74u8, 0x79u8, 0x70u8)
            ||| name == (0x6du8, 0x6fu8, 0x6fu8, 0x66u8)
            ||| name == (0x73u8, 0x69u8, 0x64u8, 0x78u8)
            ||| name == (0x6du8, 0x6fu8, 0x6fu8, 0x76u8)
        },
{
    if bytes.len() >= 8 {
        let name = bytes.subrange(4, 8);
        assert(name[0] == bytes[4] && name[1] == bytes[5] && name[2] == bytes[6] && name[3]
            == bytes[7]);
        assert(name =~= seq![bytes[4], bytes[5], bytes[6], bytes[7]]);
        let a = seq![0x66u8, 0x74, 0x79, 0x70];
        let b = seq![0x73u8, 0x74, 0x79, 0x70];
        let c = seq![0x6du8, 0x6f, 0x6f, 0x66];
        let d = seq![0x73u8, 0x69, 0x64, 0x78];
        let e = seq![0x6du8, 0x6f, 0x6f, 0x76];
        assert(a[0] == 0x66 && a[1] == 0x74 && a[2] == 0x79 && a[3] == 0x70);
        assert(b[0] == 0x73 && b[1] == 0x74 && b[2] == 0x79 && b[3] == 0x70);
        assert(c[0] == 0x6d && c[1] == 0x6f && c[2] == 0x6f && c[3] == 0x66);
        assert(d[0] == 0x73 && d[1] == 0x69 && d[2] == 0x64 && d[3] == 0x78);
        assert(e[0] == 0x6d && e[1] == 0x6f && e[2] == 0x6f && e[3] == 0x76);
    }
}

/// A bit rate is eight bits for each byte over the time, and over a nanosecond if
/// the time is shorter than that or no number.
pub proof fn bit_rate_is_bits_over_time(bytes: u64, time: Float)
    ensures
        ({
            let bits = double::product(double::of_int(bytes as int), double::of_int(8));
            let least = double::quotient(double::of_int(1), double::of_int(1_000_000_000));
            &&& time is Nan || double::less(time, least) ==> bit_rate(bytes, time)
                == double::quotient(bits, least)
            &&& time !is Nan && !double::less(time, least) ==> bit_rate(bytes, time)
                == double::quotient(bits, time)
        }),
{
}

/// The throughput goes by the time that the download took, the bit rate by the
/// duration that the playlist declares.
pub proof fn throughput_and_bit_rate_differ_in_time(
    m: SegmentMeasure,
    request: SegmentRequest,
    bytes: u64,
    ttfb_nanos: u64,
    total_nanos: u64,
)
    requires
        measures(m, request, bytes, ttfb_nanos, total_nanos),
    ensures
        m.uri@ == request.uri@,
        m.bytes == bytes,
        m.duration@ == double::of_single(request.duration_bits),
        m.throughput_bps@ == bit_rate(m.bytes, timing::seconds_of(total_nanos)),
        m.bitrate_bps@ == bit_rate(m.bytes, m.duration@),
        m.ttfb_ms@ == double::product(timing::seconds_of(ttfb_nanos), double::of_int(1000)),
        m.total_ms@ == double::product(timing::seconds_of(total_nanos), double::of_int(1000)),
{
}

/// Every segment goes into the sums, in order.
pub proof fn every_segment_is_summed(s: Seq<SegmentMeasure>, n: nat)
    requires
        n <= s.len(),
    ensures
        total_bytes(s, n) == s.take(n as int).fold_left(
            0int,
            |t: int, m: SegmentMeasure| t + m.bytes,
        ),
        total_duration(s, n) == s.take(n as int).fold_left(
            double::zero(),
            |t: Float, m: SegmentMeasure| double::sum(t, m.duration@),
        ),
        total_ttfb(s, n) == s.take(n as int).fold_left(
            double::zero(),
            |t: Float, m: SegmentMeasure| double::sum(t, m.ttfb_ms@),
        ),
    decreases n,
{
    if n > 0 {
        every_segment_is_summed(s, (n - 1) as nat);
        assert(s.take(n as int).drop_last() =~= s.take(n - 1));
    }
}

/// The average time to first byte is that of all segments, over their number.
pub proof fn average_ttfb_is_sum_over_count(s: Seq<SegmentMeasure>)
    ensures
        s.len() == 0 ==> average_ttfb(s) == double::zero(),
        s.len() > 0 ==> average_ttfb(s) == double::quotient(
            s.fold_left(
                double::zero(),
                |t: Float, m: SegmentMeasure| double::sum(t, m.ttfb_ms@),
            ),
            double::of_int(s.len() as int),
        ),
{
    every_segment_is_summed(s, s.len());
    assert(s.take(s.len() as int) =~= s);
}

/// No segment is larger than the largest one, and one is just as large.
pub proof fn largest_segment_bounds_all(s: Seq<SegmentMeasure>, n: nat)
    requires
        n <= s.len(),
    ensures
        forall|i: int| 0 <= i < n ==> (#[trigger] s[i]).bytes <= most_bytes(s, n),
        n == 0 ==> most_bytes(s, n) == 0,
        n > 0 ==> exists|i: int| 0 <= i < n && (#[trigger] s[i]).bytes == most_bytes(s, n),
    decreases n,
{
    if n > 0 {
        largest_segment_bounds_all(s, (n - 1) as nat);
        if n > 1 && s[n - 1].bytes <= most_bytes(s, (n - 1) as nat) {
            let i = choose|i: int|
                0 <= i < n - 1 && (#[trigger] s[i]).bytes == most_bytes(s, (n - 1) as nat);
            assert(s[i].bytes == most_bytes(s, n));
        } else {
            assert(s[n - 1].bytes == most_bytes(s, n));
        }
    }
}

/// A sample can be taken exactly if every sub-range of the playlist ends within
/// `u64`, and those that are asked for, with that of the init segment, have a last
/// byte.
pub proof fn sample_fails_only_for_ranges(p: MediaView, count: usize)
    ensures
        can_be_sampled(p, count) <==> {
            let first = if count <= p.segments.len() {
                p.segments.len() - count
            } else {
                0
            };
            &&& forall|i: int|
                0 <= i < p.segments.len() ==> ((#[trigger] resolved(p.segments, i)) matches Some(r)
                    ==> r.0 + r.1 <= u64::MAX)
            &&& forall|i: int|
                first <= i < p.segments.len() ==> ((#[trigger] resolved(p.segments, i)) matches Some(
                    r,
                ) ==> r.0 + r.1 >= 1)
            &&& first_map(p.segments, 0) matches Some(m) ==> (m.byte_range matches Some(r) ==> 1
                <= (if r.offset is Some {
                r.offset->0
            } else {
                0
            }) + r.length <= u64::MAX)
        },
{
    if can_be_sampled(p, count) {
        assert forall|i: int| 0 <= i < p.segments.len() implies ((#[trigger] resolved(
            p.segments,
            i,
        )) matches Some(r) ==> r.0 + r.1 <= u64::MAX) by {
            assert(range_fits(p.segments, i));
        }
        assert forall|i: int| first_sampled(p, count) <= i < p.segments.len() implies ((
        #[trigger] resolved(p.segments, i)) matches Some(r) ==> r.0 + r.1 >= 1) by {
            assert(can_be_requested(resolved(p.segments, i)));
        }
    }
}

/// The sub-ranges that are handed out are those of the segments, one each: a segment
/// has one exactly if the playlist gives it one.
pub proof fn ranges_belong_to_their_segments(
    segments: Seq<SegmentView>,
    ranges: Seq<Option<(u64, u64)>>,
    i: int,
)
    requires
        are_resolved(segments, ranges),
        0 <= i < ranges.len() <= segments.len(),
    ensures
        ranges[i] is Some <==> segments[i].byte_range is Some,
        ranges[i] matches Some(r) ==> {
            &&& r.1 == segments[i].byte_range->0.length
            &&& segments[i].byte_range->0.offset matches Some(offset) ==> r.0 == offset
            &&& r.0 == (resolved(segments, i)->0).0
        },
{
    assert(is_resolved(segments, i, ranges[i]));
}

} // verus!
