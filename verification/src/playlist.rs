//! Playlists as the probe sees them, and their parser.

use chrono::{DateTime, FixedOffset};
use vstd::prelude::*;

use crate::clock::Timestamp;
use crate::text;

verus! {

/// `EXT-X-BYTERANGE`: a sub-range of a resource.
#[derive(Debug, Clone, Copy, PartialEq, Eq, Structural)]
pub struct ByteRange {
    pub length: u64,
    pub offset: Option<u64>,
}

/// `EXT-X-MAP`: where the init segment is.
#[derive(Debug, Clone)]
pub struct InitMap {
    pub uri: String,
    pub byte_range: Option<ByteRange>,
}

/// One media segment.
#[derive(Debug, Clone)]
pub struct MediaSegment {
    pub uri: String,
    /// The `EXTINF` duration in seconds, as a binary32 pattern.
    pub duration_bits: u32,
    pub byte_range: Option<ByteRange>,
    pub discontinuity: bool,
    pub map: Option<InitMap>,
    pub program_date_time: Option<Timestamp>,
}

/// A media playlist.
#[derive(Debug, Clone)]
pub struct Media {
    pub version: Option<usize>,
    pub target_duration: u64,
    pub media_sequence: u64,
    pub segments: Vec<MediaSegment>,
    pub end_list: bool,
}

/// `RESOLUTION`, in pixels.
#[derive(Debug, Clone, Copy, PartialEq, Eq, Structural)]
pub struct Resolution {
    pub width: u64,
    pub height: u64,
}

/// `CLOSED-CAPTIONS`: none, a rendition group, or something else.
#[derive(Debug, Clone)]
pub enum ClosedCaptions {
    Absent,
    GroupId(String),
    Other(String),
}

/// `EXT-X-STREAM-INF` or `EXT-X-I-FRAME-STREAM-INF`.
#[derive(Debug, Clone)]
pub struct VariantStream {
    pub is_i_frame: bool,
    pub uri: String,
    pub bandwidth: u64,
    pub average_bandwidth: Option<u64>,
    pub codecs: Option<String>,
    pub resolution: Option<Resolution>,
    /// `FRAME-RATE` in decimal notation.
    pub frame_rate: Option<String>,
    pub audio: Option<String>,
    pub video: Option<String>,
    pub subtitles: Option<String>,
    pub closed_captions: Option<ClosedCaptions>,
}

/// `EXT-X-MEDIA`: one rendition.
#[derive(Debug, Clone)]
pub struct AlternativeMedia {
    /// `TYPE`, such as `AUDIO` or `SUBTITLES`.
    pub media_type: String,
    pub uri: Option<String>,
    pub group_id: String,
    pub language: Option<String>,
    pub name: String,
    pub default: bool,
    pub characteristics: Option<String>,
    pub channels: Option<String>,
}

/// A master playlist.
#[derive(Debug, Clone)]
pub struct Master {
    pub variants: Vec<VariantStream>,
    pub alternatives: Vec<AlternativeMedia>,
}

/// A playlist of either kind.
#[derive(Debug, Clone)]
pub enum Playlist {
    Master(Master),
    Media(Media),
}

// ---------------------------------------------------------------------------
// Views
// ---------------------------------------------------------------------------

/// An init segment, by its text.
pub struct InitMapView {
    pub uri: Seq<char>,
    pub byte_range: Option<ByteRange>,
}

impl View for InitMap {
    type V = InitMapView;

    open spec fn view(&self) -> InitMapView {
        InitMapView { uri: self.uri@, byte_range: self.byte_range }
    }
}

/// A segment, by its text.
pub struct SegmentView {
    pub uri: Seq<char>,
    pub duration_bits: u32,
    pub byte_range: Option<ByteRange>,
    pub discontinuity: bool,
    pub map: Option<InitMapView>,
    pub program_date_time: Option<Timestamp>,
}

impl View for MediaSegment {
    type V = SegmentView;

    open spec fn view(&self) -> SegmentView {
        SegmentView {
            uri: self.uri@,
            duration_bits: self.duration_bits,
            byte_range: self.byte_range,
            discontinuity: self.discontinuity,
            map: match self.map {
                Some(m) => Some(m@),
                None => None,
            },
            program_date_time: self.program_date_time,
        }
    }
}

/// The segments of a list, by their text.
pub open spec fn segment_views(s: Seq<MediaSegment>) -> Seq<SegmentView> {
    Seq::new(s.len(), |i: int| s[i]@)
}

/// The first of the first `n` segments that has a date.
pub open spec fn first_dated(segments: Seq<SegmentView>, n: nat) -> Option<nat>
    decreases n,
{
    if n == 0 {
        None
    } else if first_dated(segments, (n - 1) as nat) is Some {
        first_dated(segments, (n - 1) as nat)
    } else if segments[n - 1].program_date_time is Some {
        Some((n - 1) as nat)
    } else {
        None
    }
}

/// The last of the first `n` segments that has a date.
pub open spec fn last_dated(segments: Seq<SegmentView>, n: nat) -> Option<nat>
    decreases n,
{
    if n == 0 {
        None
    } else if segments[n - 1].program_date_time is Some {
        Some((n - 1) as nat)
    } else {
        last_dated(segments, (n - 1) as nat)
    }
}

/// The dated segments that are found have a date, and no segment before the
/// first or after the last has one; there are none only if no segment has a date.
pub proof fn dated_segments_are_outermost(segments: Seq<SegmentView>, n: nat)
    requires
        n <= segments.len(),
    ensures
        first_dated(segments, n) is Some <==> last_dated(segments, n) is Some,
        first_dated(segments, n) is None <==> forall|k: int|
            0 <= k < n ==> (#[trigger] segments[k]).program_date_time is None,
        first_dated(segments, n) matches Some(i) ==> i < n && segments[i as int].program_date_time
            is Some && forall|k: int|
            0 <= k < i ==> (#[trigger] segments[k]).program_date_time is None,
        last_dated(segments, n) matches Some(i) ==> i < n && segments[i as int].program_date_time
            is Some && forall|k: int|
            i < k < n ==> (#[trigger] segments[k]).program_date_time is None,
    decreases n,
{
    if n > 0 {
        dated_segments_are_outermost(segments, (n - 1) as nat);
    }
}

/// An index, if there is one.
pub open spec fn index_of(i: Option<usize>) -> Option<nat> {
    match i {
        Some(k) => Some(k as nat),
        None => None,
    }
}

/// A media playlist, by its text.
#[verifier::ext_equal]
pub struct MediaView {
    pub version: Option<usize>,
    pub target_duration: u64,
    pub media_sequence: u64,
    pub segments: Seq<SegmentView>,
    pub end_list: bool,
}

impl View for Media {
    type V = MediaView;

    open spec fn view(&self) -> MediaView {
        MediaView {
            version: self.version,
            target_duration: self.target_duration,
            media_sequence: self.media_sequence,
            segments: segment_views(self.segments@),
            end_list: self.end_list,
        }
    }
}

/// `CLOSED-CAPTIONS`, by its text.
pub enum ClosedCaptionsView {
    Absent,
    GroupId(Seq<char>),
    Other(Seq<char>),
}

impl View for ClosedCaptions {
    type V = ClosedCaptionsView;

    open spec fn view(&self) -> ClosedCaptionsView {
        match self {
            ClosedCaptions::Absent => ClosedCaptionsView::Absent,
            ClosedCaptions::GroupId(s) => ClosedCaptionsView::GroupId(s@),
            ClosedCaptions::Other(s) => ClosedCaptionsView::Other(s@),
        }
    }
}

/// A variant stream, by its text.
pub struct VariantView {
    pub is_i_frame: bool,
    pub uri: Seq<char>,
    pub bandwidth: u64,
    pub average_bandwidth: Option<u64>,
    pub codecs: Option<Seq<char>>,
    pub resolution: Option<Resolution>,
    pub frame_rate: Option<Seq<char>>,
    pub audio: Option<Seq<char>>,
    pub video: Option<Seq<char>>,
    pub subtitles: Option<Seq<char>>,
    pub closed_captions: Option<ClosedCaptionsView>,
}

impl View for VariantStream {
    type V = VariantView;

    open spec fn view(&self) -> VariantView {
        VariantView {
            is_i_frame: self.is_i_frame,
            uri: self.uri@,
            bandwidth: self.bandwidth,
            average_bandwidth: self.average_bandwidth,
            codecs: text::optional(self.codecs),
            resolution: self.resolution,
            frame_rate: text::optional(self.frame_rate),
            audio: text::optional(self.audio),
            video: text::optional(self.video),
            subtitles: text::optional(self.subtitles),
            closed_captions: match self.closed_captions {
                Some(c) => Some(c@),
                None => None,
            },
        }
    }
}

/// The variants of a list, by their text.
pub open spec fn variant_views(s: Seq<VariantStream>) -> Seq<VariantView> {
    Seq::new(s.len(), |i: int| s[i]@)
}

/// A rendition, by its text.
pub struct AlternativeView {
    pub media_type: Seq<char>,
    pub uri: Option<Seq<char>>,
    pub group_id: Seq<char>,
    pub language: Option<Seq<char>>,
    pub name: Seq<char>,
    pub default: bool,
    pub characteristics: Option<Seq<char>>,
    pub channels: Option<Seq<char>>,
}

impl View for AlternativeMedia {
    type V = AlternativeView;

    open spec fn view(&self) -> AlternativeView {
        AlternativeView {
            media_type: self.media_type@,
            uri: text::optional(self.uri),
            group_id: self.group_id@,
            language: text::optional(self.language),
            name: self.name@,
            default: self.default,
            characteristics: text::optional(self.characteristics),
            channels: text::optional(self.channels),
        }
    }
}

/// The renditions of a list, by their text.
pub open spec fn alternative_views(s: Seq<AlternativeMedia>) -> Seq<AlternativeView> {
    Seq::new(s.len(), |i: int| s[i]@)
}

/// A master playlist, by its text.
#[verifier::ext_equal]
pub struct MasterView {
    pub variants: Seq<VariantView>,
    pub alternatives: Seq<AlternativeView>,
}

impl View for Master {
    type V = MasterView;

    open spec fn view(&self) -> MasterView {
        MasterView {
            variants: variant_views(self.variants@),
            alternatives: alternative_views(self.alternatives@),
        }
    }
}

/// A playlist of either kind, by its text.
pub enum PlaylistView {
    Master(MasterView),
    Media(MediaView),
}

impl View for Playlist {
    type V = PlaylistView;

    open spec fn view(&self) -> PlaylistView {
        match self {
            Playlist::Master(p) => PlaylistView::Master(p@),
            Playlist::Media(p) => PlaylistView::Media(p@),
        }
    }
}

// ---------------------------------------------------------------------------
// Parsing
// ---------------------------------------------------------------------------

/// m3u8-rs's media playlist.
#[verifier::external_type_specification]
#[verifier::external_body]
pub struct ExMediaPlaylist(m3u8_rs::MediaPlaylist);

/// m3u8-rs's master playlist.
#[verifier::external_type_specification]
#[verifier::external_body]
pub struct ExMasterPlaylist(m3u8_rs::MasterPlaylist);

/// What an m3u8-rs media playlist holds.
pub uninterp spec fn media_contents(p: m3u8_rs::MediaPlaylist) -> MediaView;

/// What an m3u8-rs master playlist holds.
pub uninterp spec fn master_contents(p: m3u8_rs::MasterPlaylist) -> MasterView;

/// What `m3u8_rs::parse_playlist_res` makes of some bytes: a playlist, or the
/// text of its error. (A version number that does not fit in `usize` reads as 0,
/// so versions beyond 32 bits read differently on machines of 32 and 64 bits.)
pub uninterp spec fn parsed(bytes: Seq<u8>) -> Result<PlaylistView, Seq<char>>;

/// A playlist as the parser hands it over.
enum Raw {
    Master(m3u8_rs::MasterPlaylist),
    Media(m3u8_rs::MediaPlaylist),
}

/// `m3u8_rs::parse_playlist_res`, its error as text. The result depends on the
/// bytes alone.
#[verifier::external_body]
fn parse_raw(bytes: &[u8]) -> (r: Result<Raw, String>)
    ensures
        match r {
            Ok(Raw::Master(p)) => parsed(bytes@) == Ok::<PlaylistView, Seq<char>>(
                PlaylistView::Master(master_contents(p)),
            ),
            Ok(Raw::Media(p)) => parsed(bytes@) == Ok::<PlaylistView, Seq<char>>(
                PlaylistView::Media(media_contents(p)),
            ),
            Err(e) => parsed(bytes@) == Err::<PlaylistView, Seq<char>>(e@),
        },
{
    match m3u8_rs::parse_playlist_res(bytes) {
        Ok(m3u8_rs::Playlist::MasterPlaylist(p)) => Ok(Raw::Master(p)),
        Ok(m3u8_rs::Playlist::MediaPlaylist(p)) => Ok(Raw::Media(p)),
        Err(e) => Err(e.to_string()),
    }
}

/// Hands out the segments of an m3u8-rs media playlist. A duration becomes its
/// bit pattern, a point in time its UNIX timestamp.
#[verifier::external_body]
fn media_segments(p: &m3u8_rs::MediaPlaylist) -> (r: Vec<MediaSegment>)
    ensures
        segment_views(r@) == media_contents(*p).segments,
{
    let range = |b: m3u8_rs::ByteRange| ByteRange { length: b.length, offset: b.offset };
    let init = |m: m3u8_rs::Map| InitMap { uri: m.uri, byte_range: m.byte_range.map(range) };
    let time = |t: DateTime<FixedOffset>| Timestamp {
        secs: t.timestamp(), nanos: t.timestamp_subsec_nanos()
    };
    p.segments.clone().into_iter().map(|s| MediaSegment {
        uri: s.uri,
        duration_bits: s.duration.to_bits(),
        byte_range: s.byte_range.map(range),
        discontinuity: s.discontinuity,
        map: s.map.map(init),
        program_date_time: s.program_date_time.map(time),
    }).collect()
}

/// Hands out the version, the target duration, the media sequence and the end
/// mark of an m3u8-rs media playlist.
#[verifier::external_body]
fn media_header(p: &m3u8_rs::MediaPlaylist) -> (r: (Option<usize>, u64, u64, bool))
    ensures
        r.0 == media_contents(*p).version,
        r.1 == media_contents(*p).target_duration,
        r.2 == media_contents(*p).media_sequence,
        r.3 == media_contents(*p).end_list,
{
    (p.version, p.target_duration, p.media_sequence, p.end_list)
}

/// Hands out the variant streams of an m3u8-rs master playlist.
#[verifier::external_body]
fn master_variants(p: &m3u8_rs::MasterPlaylist) -> (r: Vec<VariantStream>)
    ensures
        variant_views(r@) == master_contents(*p).variants,
{
    let captions = |c| match c {
        m3u8_rs::ClosedCaptionGroupId::None => ClosedCaptions::Absent,
        m3u8_rs::ClosedCaptionGroupId::GroupId(s) => ClosedCaptions::GroupId(s),
        m3u8_rs::ClosedCaptionGroupId::Other(s) => ClosedCaptions::Other(s),
    };
    let size = |r: m3u8_rs::Resolution| Resolution { width: r.width, height: r.height };
    p.variants.clone().into_iter().map(|v| VariantStream {
        is_i_frame: v.is_i_frame, uri: v.uri, bandwidth: v.bandwidth, average_bandwidth: v.average_bandwidth,
        codecs: v.codecs, resolution: v.resolution.map(size), frame_rate: v.frame_rate.map(|f| f.to_string()),
        audio: v.audio, video: v.video, subtitles: v.subtitles, closed_captions: v.closed_captions.map(captions),
    }).collect()
}

/// Hands out the renditions of an m3u8-rs master playlist; `TYPE` as it is
/// written in a playlist.
#[verifier::external_body]
fn master_alternatives(p: &m3u8_rs::MasterPlaylist) -> (r: Vec<AlternativeMedia>)
    ensures
        alternative_views(r@) == master_contents(*p).alternatives,
{
    p.alternatives.clone().into_iter().map(|a| AlternativeMedia {
        media_type: a.media_type.to_string(),
        uri: a.uri,
        group_id: a.group_id,
        language: a.language,
        name: a.name,
        default: a.default,
        characteristics: a.characteristics,
        channels: a.channels,
    }).collect()
}

/// Parses a playlist of either kind; an error is the parser's text.
pub fn parse_playlist(bytes: &[u8]) -> (r: Result<Playlist, String>)
    ensures
        match r {
            Ok(p) => parsed(bytes@) == Ok::<PlaylistView, Seq<char>>(p@),
            Err(e) => parsed(bytes@) == Err::<PlaylistView, Seq<char>>(e@),
        },
{
    match parse_raw(bytes) {
        Ok(Raw::Media(p)) => {
            let segments = media_segments(&p);
            let (version, target_duration, media_sequence, end_list) = media_header(&p);
            let r = Media { version, target_duration, media_sequence, segments, end_list };
            assert(r@ =~= media_contents(p));
            Ok(Playlist::Media(r))
        },
        Ok(Raw::Master(p)) => {
            let variants = master_variants(&p);
            let alternatives = master_alternatives(&p);
            let r = Master { variants, alternatives };
            assert(r@ =~= master_contents(p));
            Ok(Playlist::Master(r))
        },
        Err(e) => Err(e),
    }
}

/// What a parser's result is to a caller that needs a media playlist: the
/// playlist, or a message for a master playlist and one for a parse error, which
/// the parser's text ends.
pub open spec fn media_expected(
    result: Result<PlaylistView, Seq<char>>,
    on_master: Seq<char>,
    on_error: Seq<char>,
) -> Result<MediaView, Seq<char>> {
    match result {
        Ok(PlaylistView::Media(p)) => Ok(p),
        Ok(PlaylistView::Master(_)) => Err(on_master),
        Err(e) => Err(on_error + e),
    }
}

/// A parser's result, by its text.
pub open spec fn result_view(r: Result<Playlist, String>) -> Result<PlaylistView, Seq<char>> {
    match r {
        Ok(p) => Ok(p@),
        Err(e) => Err(e@),
    }
}

/// A media playlist or a message, by its text.
pub open spec fn media_view(r: Result<Media, String>) -> Result<MediaView, Seq<char>> {
    match r {
        Ok(p) => Ok(p@),
        Err(e) => Err(e@),
    }
}

/// What a parser's result is to a caller that takes either kind of playlist: the
/// playlist, or a message that the parser's text ends.
pub open spec fn playlist_expected(
    result: Result<PlaylistView, Seq<char>>,
    on_error: Seq<char>,
) -> Result<PlaylistView, Seq<char>> {
    match result {
        Ok(p) => Ok(p),
        Err(e) => Err(on_error + e),
    }
}

/// The playlist in a parser's result, or a message: `on_error` and the parser's
/// text.
pub fn expect_playlist(result: Result<Playlist, String>, on_error: &str) -> (r: Result<
    Playlist,
    String,
>)
    ensures
        result_view(r) == playlist_expected(result_view(result), on_error@),
{
    match result {
        Ok(p) => Ok(p),
        Err(e) => {
            let mut message = on_error.to_owned();
            message.append(e.as_str());
            Err(message)
        },
    }
}

/// The media playlist in a parser's result, or a message: `on_master` for a
/// master playlist, `on_error` and the parser's text for a parse error.
pub fn expect_media(result: Result<Playlist, String>, on_master: &str, on_error: &str) -> (r: Result<
    Media,
    String,
>)
    ensures
        media_view(r) == media_expected(result_view(result), on_master@, on_error@),
{
    match result {
        Ok(Playlist::Media(p)) => Ok(p),
        Ok(Playlist::Master(_)) => Err(on_master.to_owned()),
        Err(e) => {
            let mut message = on_error.to_owned();
            message.append(e.as_str());
            Err(message)
        },
    }
}

/// A parser's result is taken exactly if it is a playlist of the kind that is
/// expected; an error keeps the parser's text at its end.
pub proof fn only_expected_playlists_are_taken(
    result: Result<PlaylistView, Seq<char>>,
    on_master: Seq<char>,
    on_error: Seq<char>,
    p: MediaView,
)
    ensures
        media_expected(result, on_master, on_error) == Ok::<MediaView, Seq<char>>(p) <==> result
            == Ok::<PlaylistView, Seq<char>>(PlaylistView::Media(p)),
        result matches Ok(PlaylistView::Master(_)) ==> media_expected(result, on_master, on_error)
            == Err::<MediaView, Seq<char>>(on_master),
        result matches Err(e) ==> media_expected(result, on_master, on_error) == Err::<
            MediaView,
            Seq<char>,
        >(on_error + e),
        result is Ok ==> playlist_expected(result, on_error) == result,
        result matches Err(e) ==> playlist_expected(result, on_error) == Err::<
            PlaylistView,
            Seq<char>,
        >(on_error + e),
{
}

} // verus!
