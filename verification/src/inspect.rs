//! Inspection: a report on the canonical segments of a wrapper, and its text.

use vstd::prelude::*;
use vstd::utf8::{decode_utf8, encode_utf8, encode_utf8_decode_utf8, is_char_boundary};

use crate::catalog::{AudioConfig, Catalog, VideoConfig};
use crate::error::Error;
use crate::keymap::texts;
use crate::reader::{
    decoded, splits, unwrap, unwrap_fails, wrapped_segments, Segment,
};
use crate::text::{
    begins_with, chars_of, decimal, decimal_string, has_prefix_ignoring_case, join_texts, joined,
    lines_from, push_decimal, text_lines,
};

verus! {

/// What a report holds, and in which form it comes.
#[derive(Clone, Copy, Debug, Default)]
pub struct InspectOptions {
    /// As JSON, not as text.
    pub json: bool,
    /// With the manifests of the segments.
    pub manifests: bool,
}

/// A video track of a segment.
#[derive(Debug)]
pub struct VideoReport {
    pub codec: String,
    pub friendly: Option<String>,
    pub coded_width: u32,
    pub coded_height: u32,
    pub framerate: Option<String>,
    pub display_aspect_width: Option<u32>,
    pub display_aspect_height: Option<u32>,
    pub bitrate: Option<u64>,
    pub timescale: u32,
    pub description_bytes: usize,
}

/// An audio track of a segment.
#[derive(Debug)]
pub struct AudioReport {
    pub codec: String,
    pub friendly: Option<String>,
    pub sample_rate: u32,
    pub channels: u32,
    pub bitrate: Option<u64>,
    pub timescale: u32,
    pub description_bytes: usize,
}

/// Something that a segment was made of.
#[derive(Debug)]
pub struct IngredientReport {
    pub relationship: String,
    pub title: String,
    pub hash: Option<String>,
}

/// Whether a segment is signed, and whether its signature holds.
#[derive(Clone, Copy, Debug, PartialEq, Eq, Structural)]
pub enum SigningState {
    Unsigned,
    NoActiveManifest,
    Trusted,
    Valid,
    Invalid,
}

/// The signature of a segment.
#[derive(Debug)]
pub struct SigningReport {
    pub state: SigningState,
    pub failure_codes: Vec<String>,
    pub title: Option<String>,
    pub alg: Option<String>,
    pub when: Option<String>,
    pub signer: Option<String>,
    /// Public key of the leaf certificate in hexadecimal.
    pub pubkey: Option<String>,
    pub dc_creator: Option<String>,
    pub dc_date: Option<String>,
    pub actions: Vec<String>,
    pub ingredients: Vec<IngredientReport>,
}

/// A segment.
#[derive(Debug)]
pub struct SegmentReport {
    /// Position in the wrapper, counted from 1.
    pub index: usize,
    pub track_id: u32,
    pub bytes: usize,
    pub video: Vec<VideoReport>,
    pub audio: Vec<AudioReport>,
    pub signing: SigningReport,
    /// The manifest store as indented JSON, where it is wanted and there is one.
    pub manifests: Option<String>,
}

/// A wrapper.
#[derive(Debug)]
pub struct Report {
    pub file: String,
    pub bytes: usize,
    pub segment_count: usize,
    pub segments: Vec<SegmentReport>,
}

/// A report of nothing but the state.
pub fn state_report(state: SigningState) -> (r: SigningReport)
    ensures
        r.state == state,
        r.failure_codes@.len() == 0 && r.actions@.len() == 0 && r.ingredients@.len() == 0,
        r.title is None && r.alg is None && r.when is None && r.signer is None,
        r.pubkey is None && r.dc_creator is None && r.dc_date is None,
{
    SigningReport {
        state,
        failure_codes: Vec::new(),
        title: None,
        alg: None,
        when: None,
        signer: None,
        pubkey: None,
        dc_creator: None,
        dc_date: None,
        actions: Vec::new(),
        ingredients: Vec::new(),
    }
}

/// The everyday name of a codec.
pub open spec fn friendly(codec: Seq<char>) -> Option<Seq<char>> {
    if begins_with(codec, "avc1."@) || begins_with(codec, "avc3."@) {
        Some("H.264 / AVC"@)
    } else if begins_with(codec, "hev1."@) || begins_with(codec, "hvc1."@) {
        Some("H.265 / HEVC"@)
    } else if begins_with(codec, "av01."@) {
        Some("AV1"@)
    } else if begins_with(codec, "vp09."@) || is_codec(codec, "vp9"@) {
        Some("VP9"@)
    } else if begins_with(codec, "vp08."@) || is_codec(codec, "vp8"@) {
        Some("VP8"@)
    } else if begins_with(codec, "mp4a.40."@) {
        Some("AAC"@)
    } else if is_codec(codec, "opus"@) {
        Some("Opus"@)
    } else if is_codec(codec, "flac"@) {
        Some("FLAC"@)
    } else {
        None
    }
}

/// Whether `codec` is `name`, an ASCII case aside.
pub open spec fn is_codec(codec: Seq<char>, name: Seq<char>) -> bool {
    begins_with(codec, name) && codec.len() == name.len()
}

fn same_codec(codec: &[char], name: &str) -> (r: bool)
    ensures
        r == is_codec(codec@, name@),
{
    has_prefix_ignoring_case(codec, name) && codec.len() == chars_of(name).len()
}

/// Looks up the everyday name of a codec.
pub fn friendly_codec(codec: &str) -> (r: Option<String>)
    ensures
        match r {
            Some(s) => friendly(codec@) == Some(s@),
            None => friendly(codec@) is None,
        },
{
    let cs = chars_of(codec);
    let c = cs.as_slice();
    let name: &str = if has_prefix_ignoring_case(c, "avc1.") || has_prefix_ignoring_case(
        c,
        "avc3.",
    ) {
        "H.264 / AVC"
    } else if has_prefix_ignoring_case(c, "hev1.") || has_prefix_ignoring_case(c, "hvc1.") {
        "H.265 / HEVC"
    } else if has_prefix_ignoring_case(c, "av01.") {
        "AV1"
    } else if has_prefix_ignoring_case(c, "vp09.") || same_codec(c, "vp9") {
        "VP9"
    } else if has_prefix_ignoring_case(c, "vp08.") || same_codec(c, "vp8") {
        "VP8"
    } else if has_prefix_ignoring_case(c, "mp4a.40.") {
        "AAC"
    } else if same_codec(c, "opus") {
        "Opus"
    } else if same_codec(c, "flac") {
        "FLAC"
    } else {
        return None;
    };
    Some(name.to_string())
}

/// The contents of a text that may be missing.
pub open spec fn text_opt(s: Option<String>) -> Option<Seq<char>> {
    match s {
        Some(t) => Some(t@),
        None => None,
    }
}

/// Whether `r` reports the video track `v`.
pub open spec fn reports_video(v: VideoConfig, r: VideoReport) -> bool {
    &&& r.codec@ == v.codec@
    &&& text_opt(r.friendly) == friendly(v.codec@)
    &&& r.coded_width == v.coded_width
    &&& r.coded_height == v.coded_height
    &&& text_opt(r.framerate) == text_opt(v.framerate)
    &&& r.display_aspect_width == v.display_aspect_width
    &&& r.display_aspect_height == v.display_aspect_height
    &&& r.bitrate == v.bitrate
    &&& r.timescale == v.timescale
    &&& r.description_bytes == v.description@.len()
}

/// Whether `r` reports the audio track `a`.
pub open spec fn reports_audio(a: AudioConfig, r: AudioReport) -> bool {
    &&& r.codec@ == a.codec@
    &&& text_opt(r.friendly) == friendly(a.codec@)
    &&& r.sample_rate == a.sample_rate
    &&& r.channels == a.number_of_channels
    &&& r.bitrate == a.bitrate
    &&& r.timescale == a.timescale
    &&& r.description_bytes == a.description@.len()
}

fn copy_text(s: &Option<String>) -> (r: Option<String>)
    ensures
        text_opt(r) == text_opt(*s),
{
    match s {
        Some(t) => Some(t.clone()),
        None => None,
    }
}

/// Reports a video track.
pub fn video_report(v: &VideoConfig) -> (r: VideoReport)
    ensures
        reports_video(*v, r),
{
    VideoReport {
        codec: v.codec.clone(),
        friendly: friendly_codec(v.codec.as_str()),
        coded_width: v.coded_width,
        coded_height: v.coded_height,
        framerate: copy_text(&v.framerate),
        display_aspect_width: v.display_aspect_width,
        display_aspect_height: v.display_aspect_height,
        bitrate: v.bitrate,
        timescale: v.timescale(),
        description_bytes: v.description.len(),
    }
}

/// Reports an audio track.
pub fn audio_report(a: &AudioConfig) -> (r: AudioReport)
    ensures
        reports_audio(*a, r),
{
    AudioReport {
        codec: a.codec.clone(),
        friendly: friendly_codec(a.codec.as_str()),
        sample_rate: a.sample_rate,
        channels: a.number_of_channels,
        bitrate: a.bitrate,
        timescale: a.timescale(),
        description_bytes: a.description.len(),
    }
}

/// Whether `video` and `audio` report the tracks of `c`, in the catalog's order.
pub open spec fn reports_tracks(
    c: Catalog,
    video: Seq<VideoReport>,
    audio: Seq<AudioReport>,
) -> bool {
    &&& match c.video {
        None => video.len() == 0,
        Some(v) => video.len() == v.renditions.order().len() && forall|i: int|
            0 <= i < video.len() ==> reports_video(v.renditions.nth(i), #[trigger] video[i]),
    }
    &&& match c.audio {
        None => audio.len() == 0,
        Some(a) => audio.len() == a.renditions.order().len() && forall|i: int|
            0 <= i < audio.len() ==> reports_audio(a.renditions.nth(i), #[trigger] audio[i]),
    }
}

fn track_reports(c: &Catalog) -> (r: (Vec<VideoReport>, Vec<AudioReport>))
    ensures
        reports_tracks(*c, r.0@, r.1@),
{
    let mut video: Vec<VideoReport> = Vec::new();
    let mut audio: Vec<AudioReport> = Vec::new();
    if let Some(v) = &c.video {
        let n: usize = v.renditions.len();
        let mut i: usize = 0;
        while i < n
            invariant
                i <= n,
                n == v.renditions.order().len(),
                video@.len() == i,
                forall|j: int|
                    0 <= j < i ==> reports_video(v.renditions.nth(j), #[trigger] video@[j]),
            decreases n - i,
        {
            video.push(video_report(v.renditions.value(i)));
            i += 1;
        }
    }
    if let Some(a) = &c.audio {
        let n: usize = a.renditions.len();
        let mut i: usize = 0;
        while i < n
            invariant
                i <= n,
                n == a.renditions.order().len(),
                audio@.len() == i,
                forall|j: int|
                    0 <= j < i ==> reports_audio(a.renditions.nth(j), #[trigger] audio@[j]),
            decreases n - i,
        {
            audio.push(audio_report(a.renditions.value(i)));
            i += 1;
        }
    }
    (video, audio)
}

/// The signature of a segment, and its manifests as indented JSON.
#[derive(Debug)]
pub struct Analysis {
    pub signing: SigningReport,
    pub manifests: Option<String>,
}

/// Whether `r` reports the segment `seg` at position `i`, as `analyze` saw it.
pub open spec fn reports_segment<A: Fn(&[u8], bool) -> Analysis>(
    analyze: A,
    want_manifests: bool,
    seg: Segment,
    i: int,
    r: SegmentReport,
) -> bool {
    &&& r.index == i + 1
    &&& r.track_id == seg.track_id
    &&& r.bytes == seg.data@.len()
    &&& reports_tracks(seg.catalog, r.video@, r.audio@)
    &&& call_ensures(
        analyze,
        (seg.data, want_manifests),
        Analysis { signing: r.signing, manifests: r.manifests },
    )
}

/// The bytes of the segments in `segs`.
pub open spec fn data_of(segs: Seq<Segment>) -> Seq<Seq<u8>> {
    segs.map_values(|s: Segment| s.data@)
}

/// Whether `r` reports the wrapper `bytes` named `file`: every segment, as
/// `decode` and `analyze` saw it.
pub open spec fn reports<D: Fn(&[u8]) -> Result<Catalog, Error>, A: Fn(&[u8], bool) -> Analysis>(
    decode: D,
    analyze: A,
    want_manifests: bool,
    bytes: Seq<u8>,
    file: Seq<char>,
    r: Report,
) -> bool {
    &&& splits(bytes)
    &&& r.file@ == file
    &&& r.bytes == bytes.len()
    &&& r.segment_count == r.segments@.len()
    &&& exists|segs: Seq<Segment>|
        {
            &&& #[trigger] data_of(segs) == wrapped_segments(bytes)
            &&& r.segments@.len() == segs.len()
            &&& forall|i: int| 0 <= i < segs.len() ==> decoded(decode, #[trigger] segs[i])
            &&& forall|i: int|
                0 <= i < segs.len() ==> reports_segment(
                    analyze,
                    want_manifests,
                    segs[i],
                    i,
                    #[trigger] r.segments@[i],
                )
        }
}

/// Reports a wrapper. `decode` reads the catalog out of a segment, and `analyze`
/// checks its signature.
pub fn build_report<
    D: Fn(&[u8]) -> Result<Catalog, Error>,
    A: Fn(&[u8], bool) -> Analysis,
>(bytes: &[u8], file: &str, opts: InspectOptions, decode: &D, analyze: &A) -> (r: Result<
    Report,
    Error,
>)
    requires
        forall|d: &[u8]| #[trigger] call_requires(*decode, (d,)),
        forall|d: &[u8], m: bool| #[trigger] call_requires(*analyze, (d, m)),
    ensures
        match r {
            Ok(report) => reports(*decode, *analyze, opts.manifests, bytes@, file@, report),
            Err(e) => unwrap_fails(bytes@, *decode, e),
        },
{
    let segs = match unwrap(bytes, decode) {
        Ok(s) => s,
        Err(e) => {
            return Err(e);
        },
    };
    let mut out: Vec<SegmentReport> = Vec::new();
    let mut i: usize = 0;
    while i < segs.len()
        invariant
            i <= segs@.len(),
            out@.len() == i,
            forall|d: &[u8], m: bool| #[trigger] call_requires(*analyze, (d, m)),
            forall|j: int|
                0 <= j < i ==> reports_segment(
                    *analyze,
                    opts.manifests,
                    segs@[j],
                    j,
                    #[trigger] out@[j],
                ),
        decreases segs@.len() - i,
    {
        let seg = &segs[i];
        let (video, audio) = track_reports(&seg.catalog);
        let Analysis { signing, manifests } = (*analyze)(seg.data, opts.manifests);
        out.push(
            SegmentReport {
                index: i + 1,
                track_id: seg.track_id,
                bytes: seg.data.len(),
                video,
                audio,
                signing,
                manifests,
            },
        );
        i += 1;
    }
    let report = Report {
        file: file.to_string(),
        bytes: bytes.len(),
        segment_count: segs.len(),
        segments: out,
    };
    assert(data_of(segs@) =~= wrapped_segments(bytes@));
    Ok(report)
}

/// How a text is set off: with a terminal code, or not at all.
#[derive(Clone, Copy, Debug)]
pub struct Style {
    pub color: bool,
}

/// `s` set off by the terminal code `code`.
pub open spec fn styled(st: Style, code: Seq<char>, s: Seq<char>) -> Seq<char> {
    if st.color {
        "\x1b["@ + code + "m"@ + s + "\x1b[0m"@
    } else {
        s
    }
}

impl Style {
    fn wrap(&self, code: &str, s: &str) -> (r: String)
        ensures
            r@ == styled(*self, code@, s@),
    {
        if self.color {
            let mut out = "\x1b[".to_string();
            out.push_str(code);
            out.push_str("m");
            out.push_str(s);
            out.push_str("\x1b[0m");
            out
        } else {
            s.to_string()
        }
    }
}

/// `s` in bold.
pub open spec fn bold(st: Style, s: Seq<char>) -> Seq<char> {
    styled(st, "1"@, s)
}

/// `s` dimmed.
pub open spec fn dim(st: Style, s: Seq<char>) -> Seq<char> {
    styled(st, "2"@, s)
}

/// A line of a segment, behind `out`: a label and a text.
pub open spec fn field_line(out: Seq<char>, st: Style, label: Seq<char>, s: Seq<char>) -> Seq<char> {
    out + "  "@ + dim(st, label) + " "@ + s + "\n"@
}

fn push_field(out: &mut String, st: &Style, label: &str, s: &str)
    ensures
        final(out)@ == field_line(old(out)@, *st, label@, s@),
{
    out.push_str("  ");
    out.push_str(st.wrap("2", label).as_str());
    out.push_str(" ");
    out.push_str(s);
    out.push_str("\n");
}

/// A line of a segment where there is something to say.
pub open spec fn field_opt(
    out: Seq<char>,
    st: Style,
    label: Seq<char>,
    s: Option<String>,
) -> Seq<char> {
    match s {
        Some(t) => field_line(out, st, label, t@),
        None => out,
    }
}

fn push_field_opt(out: &mut String, st: &Style, label: &str, s: &Option<String>)
    ensures
        final(out)@ == field_opt(old(out)@, *st, label@, *s),
{
    match s {
        Some(t) => push_field(out, st, label, t.as_str()),
        None => {},
    }
}

/// A codec and its everyday name.
pub open spec fn codec_text(st: Style, codec: Seq<char>, name: Option<String>) -> Seq<char> {
    bold(st, codec) + " "@ + dim(
        st,
        match name {
            Some(n) => "("@ + n@ + ")"@,
            None => ""@,
        },
    )
}

fn make_codec_text(st: &Style, codec: &str, name: &Option<String>) -> (r: String)
    ensures
        r@ == codec_text(*st, codec@, *name),
{
    let inner = match name {
        Some(n) => {
            let mut t = "(".to_string();
            t.push_str(n.as_str());
            t.push_str(")");
            t
        },
        None => "".to_string(),
    };
    let mut out = st.wrap("1", codec);
    out.push_str(" ");
    out.push_str(st.wrap("2", inner.as_str()).as_str());
    out
}

/// The timescale and the size of the decoder configuration.
pub open spec fn cmaf_text(timescale: u32, description_bytes: usize) -> Seq<char> {
    "timescale "@ + decimal(timescale as nat) + ", "@ + decimal(description_bytes as nat)
        + " desc bytes"@
}

fn make_cmaf_text(timescale: u32, description_bytes: usize) -> (r: String)
    ensures
        r@ == cmaf_text(timescale, description_bytes),
{
    let mut out = "timescale ".to_string();
    push_decimal(&mut out, timescale as u64);
    out.push_str(", ");
    push_decimal(&mut out, description_bytes as u64);
    out.push_str(" desc bytes");
    out
}

/// The line of a bit rate.
pub open spec fn rate_line(out: Seq<char>, st: Style, bitrate: Option<u64>) -> Seq<char> {
    match bitrate {
        Some(b) => field_line(out, st, "rate:  "@, decimal(b as nat) + " bps"@),
        None => out,
    }
}

fn push_rate(out: &mut String, st: &Style, bitrate: Option<u64>)
    ensures
        final(out)@ == rate_line(old(out)@, *st, bitrate),
{
    match bitrate {
        Some(b) => {
            let mut t = decimal_string(b);
            t.push_str(" bps");
            push_field(out, st, "rate:  ", t.as_str());
        },
        None => {},
    }
}

/// The dimensions of a video track.
pub open spec fn dims_text(v: VideoReport) -> Seq<char> {
    decimal(v.coded_width as nat) + "×"@ + decimal(v.coded_height as nat) + match v.framerate {
        Some(f) => " @ "@ + f@ + " fps"@,
        None => ""@,
    }
}

fn make_dims_text(v: &VideoReport) -> (r: String)
    ensures
        r@ == dims_text(*v),
{
    let rate = match &v.framerate {
        Some(f) => {
            let mut t = " @ ".to_string();
            t.push_str(f.as_str());
            t.push_str(" fps");
            t
        },
        None => "".to_string(),
    };
    let mut out = decimal_string(v.coded_width as u64);
    out.push_str("×");
    push_decimal(&mut out, v.coded_height as u64);
    out.push_str(rate.as_str());
    out
}

/// The line of a display aspect ratio.
pub open spec fn aspect_line(out: Seq<char>, st: Style, v: VideoReport) -> Seq<char> {
    match (v.display_aspect_width, v.display_aspect_height) {
        (Some(w), Some(h)) => field_line(
            out,
            st,
            "dar:   "@,
            decimal(w as nat) + ":"@ + decimal(h as nat),
        ),
        _ => out,
    }
}

/// The lines of a video track, behind `out`.
pub open spec fn video_text(out: Seq<char>, st: Style, v: VideoReport) -> Seq<char> {
    let a = field_line(out, st, "video:"@, codec_text(st, v.codec@, v.friendly));
    let b = field_line(a, st, "dims:  "@, dims_text(v));
    let c = aspect_line(b, st, v);
    let d = rate_line(c, st, v.bitrate);
    field_line(d, st, "cmaf:  "@, cmaf_text(v.timescale, v.description_bytes))
}

fn render_video(out: &mut String, st: &Style, v: &VideoReport)
    ensures
        final(out)@ == video_text(old(out)@, *st, *v),
{
    push_field(out, st, "video:", make_codec_text(st, v.codec.as_str(), &v.friendly).as_str());
    push_field(out, st, "dims:  ", make_dims_text(v).as_str());
    match (v.display_aspect_width, v.display_aspect_height) {
        (Some(w), Some(h)) => {
            let mut t = decimal_string(w as u64);
            t.push_str(":");
            push_decimal(&mut t, h as u64);
            push_field(out, st, "dar:   ", t.as_str());
        },
        _ => {},
    }
    push_rate(out, st, v.bitrate);
    push_field(out, st, "cmaf:  ", make_cmaf_text(v.timescale, v.description_bytes).as_str());
}

/// The lines of an audio track, behind `out`.
pub open spec fn audio_text(out: Seq<char>, st: Style, a: AudioReport) -> Seq<char> {
    let x = field_line(out, st, "audio:"@, codec_text(st, a.codec@, a.friendly));
    let y = field_line(
        x,
        st,
        "fmt:   "@,
        decimal(a.sample_rate as nat) + " Hz, "@ + decimal(a.channels as nat) + " ch"@,
    );
    let z = rate_line(y, st, a.bitrate);
    field_line(z, st, "cmaf:  "@, cmaf_text(a.timescale, a.description_bytes))
}

fn render_audio(out: &mut String, st: &Style, a: &AudioReport)
    ensures
        final(out)@ == audio_text(old(out)@, *st, *a),
{
    push_field(out, st, "audio:", make_codec_text(st, a.codec.as_str(), &a.friendly).as_str());
    let mut t = decimal_string(a.sample_rate as u64);
    t.push_str(" Hz, ");
    push_decimal(&mut t, a.channels as u64);
    t.push_str(" ch");
    push_field(out, st, "fmt:   ", t.as_str());
    push_rate(out, st, a.bitrate);
    push_field(out, st, "cmaf:  ", make_cmaf_text(a.timescale, a.description_bytes).as_str());
}

/// Whether `s` can be abbreviated: it takes no more than 24 bytes in UTF-8, or a
/// character ends behind its first 16 bytes and another begins before its last 4.
pub open spec fn can_shorten(s: Seq<char>) -> bool {
    let b = encode_utf8(s);
    b.len() <= 24 || (is_char_boundary(b, 16) && is_char_boundary(b, b.len() - 4))
}

/// An identifier of more than 24 bytes in UTF-8, abbreviated in the middle: its first
/// 16 bytes and its last 4.
pub open spec fn shortened(s: Seq<char>) -> Seq<char> {
    let b = encode_utf8(s);
    if b.len() <= 24 {
        s
    } else {
        decode_utf8(b.subrange(0, 16)) + "…"@ + decode_utf8(
            b.subrange(b.len() - 4, b.len() as int),
        )
    }
}

/// Whether a text can be abbreviated.
fn fits_short(s: &str) -> (r: bool)
    ensures
        r == can_shorten(s@),
{
    let n: usize = s.as_bytes().len();
    n <= 24 || (s.is_char_boundary(16) && s.is_char_boundary(n - 4))
}

/// Abbreviates a long identifier in the middle.
pub fn short_str(s: &str) -> (r: String)
    requires
        can_shorten(s@),
    ensures
        r@ == shortened(s@),
{
    let n: usize = s.as_bytes().len();
    if n <= 24 {
        return s.to_string();
    }
    let (head, _) = s.split_at(16);
    let (_, tail) = s.split_at(n - 4);
    proof {
        encode_utf8_decode_utf8(head@);
        encode_utf8_decode_utf8(tail@);
    }
    let mut out = head.to_string();
    out.push_str("…");
    out.push_str(tail);
    out
}

/// Whether the identifiers that are abbreviated in the lines of a signature can be.
pub open spec fn signing_fits(sig: SigningReport) -> bool {
    sig.state == SigningState::Unsigned || sig.state == SigningState::NoActiveManifest || {
        &&& sig.pubkey matches Some(pk) ==> can_shorten(pk@)
        &&& forall|i: int|
            0 <= i < sig.ingredients@.len() ==> ingredient_fits(#[trigger] sig.ingredients@[i])
    }
}

/// Whether the hash of an ingredient can be abbreviated.
pub open spec fn ingredient_fits(ing: IngredientReport) -> bool {
    ing.hash matches Some(h) ==> can_shorten(h@)
}

/// Whether a signature can be written as text.
pub fn can_render(sig: &SigningReport) -> (r: bool)
    ensures
        r == signing_fits(*sig),
{
    match sig.state {
        SigningState::Unsigned => return true,
        SigningState::NoActiveManifest => return true,
        _ => {},
    }
    if let Some(pk) = &sig.pubkey {
        if !fits_short(pk.as_str()) {
            return false;
        }
    }
    let mut i: usize = 0;
    while i < sig.ingredients.len()
        invariant
            i <= sig.ingredients@.len(),
            forall|j: int| 0 <= j < i ==> ingredient_fits(#[trigger] sig.ingredients@[j]),
            sig.pubkey matches Some(pk) ==> can_shorten(pk@),
            sig.state != SigningState::Unsigned,
            sig.state != SigningState::NoActiveManifest,
        decreases sig.ingredients@.len() - i,
    {
        if let Some(h) = &sig.ingredients[i].hash {
            if !fits_short(h.as_str()) {
                assert(!ingredient_fits(sig.ingredients@[i as int]));
                return false;
            }
        }
        i += 1;
    }
    true
}

/// The line of an ingredient, behind `out`.
pub open spec fn ingredient_line(out: Seq<char>, st: Style, ing: IngredientReport) -> Seq<char> {
    out + "    "@ + dim(st, "- "@ + ing.relationship@) + " "@ + ing.title@ + (match ing.hash {
        Some(h) => "  "@ + dim(st, shortened(h@)),
        None => ""@,
    }) + "\n"@
}

/// The lines of the first `n` ingredients.
pub open spec fn ingredient_lines(
    out: Seq<char>,
    st: Style,
    ings: Seq<IngredientReport>,
    n: int,
) -> Seq<char>
    decreases n,
{
    if n <= 0 {
        out
    } else {
        ingredient_line(ingredient_lines(out, st, ings, n - 1), st, ings[n - 1])
    }
}

/// The verdict on a signature.
pub open spec fn badge(st: Style, sig: SigningReport) -> Seq<char> {
    if sig.state == SigningState::Trusted {
        styled(st, "32"@, "✓ trusted"@)
    } else if sig.state == SigningState::Valid {
        styled(st, "32"@, "✓ valid"@)
    } else {
        styled(st, "31"@, "✗ invalid"@) + if sig.failure_codes@.len() == 0 {
            ""@
        } else {
            " ("@ + joined(texts(sig.failure_codes@), ", "@) + ")"@
        }
    }
}

/// The lines of the ingredients, behind `out`, where there are any.
pub open spec fn ingredients_text(out: Seq<char>, st: Style, ings: Seq<IngredientReport>) -> Seq<char> {
    if ings.len() == 0 {
        out
    } else {
        ingredient_lines(out + "  "@ + dim(st, "ingr:  "@) + "\n"@, st, ings, ings.len() as int)
    }
}

/// The lines of a signature, behind `out`.
pub open spec fn signing_text(out: Seq<char>, st: Style, sig: SigningReport) -> Seq<char> {
    if sig.state == SigningState::Unsigned {
        field_line(out, st, "sign:  "@, dim(st, "(unsigned)"@))
    } else if sig.state == SigningState::NoActiveManifest {
        field_line(out, st, "sign:  "@, dim(st, "(no active manifest)"@))
    } else {
        let a = field_line(out, st, "sign:  "@, badge(st, sig));
        let b = field_opt(a, st, "title: "@, sig.title);
        let c = field_opt(b, st, "alg:   "@, sig.alg);
        let d = field_opt(c, st, "when:  "@, sig.when);
        let e = field_opt(d, st, "signer:"@, sig.signer);
        let f = match sig.pubkey {
            Some(pk) => field_line(e, st, "pubkey:"@, shortened(pk@)),
            None => e,
        };
        let g = field_opt(f, st, "dc:cr: "@, sig.dc_creator);
        let h = field_opt(g, st, "dc:dt: "@, sig.dc_date);
        let i = if sig.actions@.len() == 0 {
            h
        } else {
            field_line(h, st, "acts:  "@, joined(texts(sig.actions@), ", "@))
        };
        ingredients_text(i, st, sig.ingredients@)
    }
}

fn make_badge(st: &Style, sig: &SigningReport) -> (r: String)
    ensures
        r@ == badge(*st, *sig),
{
    match sig.state {
        SigningState::Trusted => st.wrap("32", "✓ trusted"),
        SigningState::Valid => st.wrap("32", "✓ valid"),
        _ => {
            let extra = if sig.failure_codes.len() == 0 {
                "".to_string()
            } else {
                let mut t = " (".to_string();
                t.push_str(join_texts(&sig.failure_codes, ", ").as_str());
                t.push_str(")");
                t
            };
            let mut out = st.wrap("31", "✗ invalid");
            out.push_str(extra.as_str());
            out
        },
    }
}

fn push_ingredient(out: &mut String, st: &Style, ing: &IngredientReport)
    requires
        ingredient_fits(*ing),
    ensures
        final(out)@ == ingredient_line(old(out)@, *st, *ing),
{
    let suffix = match &ing.hash {
        Some(h) => {
            let mut t = "  ".to_string();
            t.push_str(st.wrap("2", short_str(h.as_str()).as_str()).as_str());
            t
        },
        None => "".to_string(),
    };
    let mut rel = "- ".to_string();
    rel.push_str(ing.relationship.as_str());
    out.push_str("    ");
    out.push_str(st.wrap("2", rel.as_str()).as_str());
    out.push_str(" ");
    out.push_str(ing.title.as_str());
    out.push_str(suffix.as_str());
    out.push_str("\n");
}

fn render_ingredients(out: &mut String, st: &Style, ings: &Vec<IngredientReport>)
    requires
        forall|i: int| 0 <= i < ings@.len() ==> ingredient_fits(#[trigger] ings@[i]),
    ensures
        final(out)@ == ingredients_text(old(out)@, *st, ings@),
{
    if ings.len() == 0 {
        return;
    }
    out.push_str("  ");
    out.push_str(st.wrap("2", "ingr:  ").as_str());
    out.push_str("\n");
    let ghost start = out@;
    let mut i: usize = 0;
    while i < ings.len()
        invariant
            i <= ings@.len(),
            forall|i: int| 0 <= i < ings@.len() ==> ingredient_fits(#[trigger] ings@[i]),
            out@ == ingredient_lines(start, *st, ings@, i as int),
        decreases ings@.len() - i,
    {
        push_ingredient(out, st, &ings[i]);
        i += 1;
    }
}

fn render_signing(out: &mut String, st: &Style, sig: &SigningReport)
    requires
        signing_fits(*sig),
    ensures
        final(out)@ == signing_text(old(out)@, *st, *sig),
{
    match sig.state {
        SigningState::Unsigned => {
            push_field(out, st, "sign:  ", st.wrap("2", "(unsigned)").as_str());
            return;
        },
        SigningState::NoActiveManifest => {
            push_field(out, st, "sign:  ", st.wrap("2", "(no active manifest)").as_str());
            return;
        },
        _ => {},
    }
    push_field(out, st, "sign:  ", make_badge(st, sig).as_str());
    push_field_opt(out, st, "title: ", &sig.title);
    push_field_opt(out, st, "alg:   ", &sig.alg);
    push_field_opt(out, st, "when:  ", &sig.when);
    push_field_opt(out, st, "signer:", &sig.signer);
    match &sig.pubkey {
        Some(pk) => push_field(out, st, "pubkey:", short_str(pk.as_str()).as_str()),
        None => {},
    }
    push_field_opt(out, st, "dc:cr: ", &sig.dc_creator);
    push_field_opt(out, st, "dc:dt: ", &sig.dc_date);
    if sig.actions.len() > 0 {
        push_field(out, st, "acts:  ", join_texts(&sig.actions, ", ").as_str());
    }
    render_ingredients(out, st, &sig.ingredients);
}

/// The first `n` lines of the manifests, behind `out`.
pub open spec fn manifest_lines(
    out: Seq<char>,
    st: Style,
    lines: Seq<Seq<char>>,
    n: int,
) -> Seq<char>
    decreases n,
{
    if n <= 0 {
        out
    } else {
        manifest_lines(out, st, lines, n - 1) + "    "@ + dim(st, lines[n - 1]) + "\n"@
    }
}

/// The manifests of a segment, behind `out`.
pub open spec fn manifests_text(out: Seq<char>, st: Style, json: Seq<char>) -> Seq<char> {
    let lines = lines_from(json, 0);
    manifest_lines(
        out + "  "@ + dim(st, "manifest store:"@) + "\n"@,
        st,
        lines,
        lines.len() as int,
    )
}

fn render_manifests(out: &mut String, st: &Style, json: &str)
    ensures
        final(out)@ == manifests_text(old(out)@, *st, json@),
{
    out.push_str("  ");
    out.push_str(st.wrap("2", "manifest store:").as_str());
    out.push_str("\n");
    let ghost start = out@;
    let lines = text_lines(json);
    let ghost all = lines_from(json@, 0);
    let mut i: usize = 0;
    while i < lines.len()
        invariant
            i <= lines@.len(),
            all == lines@.map_values(|t: String| t@),
            out@ == manifest_lines(start, *st, all, i as int),
        decreases lines@.len() - i,
    {
        out.push_str("    ");
        out.push_str(st.wrap("2", lines[i].as_str()).as_str());
        out.push_str("\n");
        i += 1;
    }
}

/// The lines of the first `n` video tracks.
pub open spec fn videos_text(out: Seq<char>, st: Style, vs: Seq<VideoReport>, n: int) -> Seq<char>
    decreases n,
{
    if n <= 0 {
        out
    } else {
        video_text(videos_text(out, st, vs, n - 1), st, vs[n - 1])
    }
}

/// The lines of the first `n` audio tracks.
pub open spec fn audios_text(out: Seq<char>, st: Style, a: Seq<AudioReport>, n: int) -> Seq<char>
    decreases n,
{
    if n <= 0 {
        out
    } else {
        audio_text(audios_text(out, st, a, n - 1), st, a[n - 1])
    }
}

/// The lines of a segment, behind `out`, out of `total` segments.
pub open spec fn segment_text(out: Seq<char>, st: Style, seg: SegmentReport, total: usize) -> Seq<char> {
    let head = out + "\n"@ + bold(
        st,
        styled(
            st,
            "36"@,
            "── segment "@ + decimal(seg.index as nat) + "/"@ + decimal(total as nat) + " ──"@,
        ),
    ) + " "@ + dim(
        st,
        "track "@ + decimal(seg.track_id as nat) + " · "@ + decimal(seg.bytes as nat)
            + " bytes"@,
    ) + "\n"@;
    let v = videos_text(head, st, seg.video@, seg.video@.len() as int);
    let a = audios_text(v, st, seg.audio@, seg.audio@.len() as int);
    let s = signing_text(a, st, seg.signing);
    match seg.manifests {
        Some(m) => manifests_text(s, st, m@),
        None => s,
    }
}

/// The lines of the first `n` segments.
pub open spec fn segments_text(
    out: Seq<char>,
    st: Style,
    segs: Seq<SegmentReport>,
    total: usize,
    n: int,
) -> Seq<char>
    decreases n,
{
    if n <= 0 {
        out
    } else {
        segment_text(segments_text(out, st, segs, total, n - 1), st, segs[n - 1], total)
    }
}

/// The text of a report.
pub open spec fn human_text(st: Style, r: Report) -> Seq<char> {
    let head = bold(st, styled(st, "36"@, "file:"@)) + " "@ + r.file@ + " "@ + dim(
        st,
        "("@ + decimal(r.bytes as nat) + " bytes, "@ + decimal(r.segment_count as nat)
            + " segments)"@,
    ) + "\n"@;
    if r.segments@.len() == 0 {
        head + "  "@ + styled(st, "33"@, "no canonical segments found"@) + "\n"@
    } else {
        segments_text(head, st, r.segments@, r.segment_count, r.segments@.len() as int)
    }
}

fn render_segment(out: &mut String, st: &Style, seg: &SegmentReport, total: usize)
    requires
        signing_fits(seg.signing),
    ensures
        final(out)@ == segment_text(old(out)@, *st, *seg, total),
{
    let mut title = "── segment ".to_string();
    push_decimal(&mut title, seg.index as u64);
    title.push_str("/");
    push_decimal(&mut title, total as u64);
    title.push_str(" ──");
    let mut note = "track ".to_string();
    push_decimal(&mut note, seg.track_id as u64);
    note.push_str(" · ");
    push_decimal(&mut note, seg.bytes as u64);
    note.push_str(" bytes");
    out.push_str("\n");
    out.push_str(st.wrap("1", st.wrap("36", title.as_str()).as_str()).as_str());
    out.push_str(" ");
    out.push_str(st.wrap("2", note.as_str()).as_str());
    out.push_str("\n");
    let ghost head = out@;
    let mut i: usize = 0;
    while i < seg.video.len()
        invariant
            i <= seg.video@.len(),
            out@ == videos_text(head, *st, seg.video@, i as int),
        decreases seg.video@.len() - i,
    {
        render_video(out, st, &seg.video[i]);
        i += 1;
    }
    let ghost v = out@;
    let mut j: usize = 0;
    while j < seg.audio.len()
        invariant
            j <= seg.audio@.len(),
            out@ == audios_text(v, *st, seg.audio@, j as int),
        decreases seg.audio@.len() - j,
    {
        render_audio(out, st, &seg.audio[j]);
        j += 1;
    }
    render_signing(out, st, &seg.signing);
    match &seg.manifests {
        Some(m) => render_manifests(out, st, m.as_str()),
        None => {},
    }
}

/// Whether every signature of a report can be written as text.
pub open spec fn report_fits(report: Report) -> bool {
    forall|i: int|
        0 <= i < report.segments@.len() ==> signing_fits((#[trigger] report.segments@[i]).signing)
}

/// Writes a report as text.
pub fn render_human(report: &Report, st: &Style) -> (r: String)
    requires
        report_fits(*report),
    ensures
        r@ == human_text(*st, *report),
{
    let mut note = "(".to_string();
    push_decimal(&mut note, report.bytes as u64);
    note.push_str(" bytes, ");
    push_decimal(&mut note, report.segment_count as u64);
    note.push_str(" segments)");
    let mut out = st.wrap("1", st.wrap("36", "file:").as_str());
    out.push_str(" ");
    out.push_str(report.file.as_str());
    out.push_str(" ");
    out.push_str(st.wrap("2", note.as_str()).as_str());
    out.push_str("\n");
    if report.segments.len() == 0 {
        out.push_str("  ");
        out.push_str(st.wrap("33", "no canonical segments found").as_str());
        out.push_str("\n");
        return out;
    }
    let ghost head = out@;
    let mut i: usize = 0;
    while i < report.segments.len()
        invariant
            i <= report.segments@.len(),
            report_fits(*report),
            out@ == segments_text(head, *st, report.segments@, report.segment_count, i as int),
        decreases report.segments@.len() - i,
    {
        render_segment(&mut out, st, &report.segments[i], report.segment_count);
        i += 1;
    }
    out
}

/// Reports the wrapper `bytes` named `file`, as text or as JSON.
///
/// `decode` reads the catalog out of a segment, `analyze` checks its signature,
/// and `to_json` writes a report as JSON.
pub fn inspect_to<
    D: Fn(&[u8]) -> Result<Catalog, Error>,
    A: Fn(&[u8], bool) -> Analysis,
    J: Fn(&Report) -> Result<String, Error>,
>(
    bytes: &[u8],
    file: &str,
    color: bool,
    opts: InspectOptions,
    decode: &D,
    analyze: &A,
    to_json: &J,
) -> (r: Result<String, Error>)
    requires
        forall|d: &[u8]| #[trigger] call_requires(*decode, (d,)),
        forall|d: &[u8], m: bool| #[trigger] call_requires(*analyze, (d, m)),
        forall|p: &Report| #[trigger] call_requires(*to_json, (p,)),
        !opts.json ==> forall|d: &[u8], m: bool, a: Analysis| #[trigger]
            call_ensures(*analyze, (d, m), a) ==> signing_fits(a.signing),
    ensures
        match r {
            Ok(text) => exists|report: Report| #[trigger]
                reports(*decode, *analyze, opts.manifests, bytes@, file@, report) && if opts.json {
                    exists|json: String| #[trigger]
                        call_ensures(*to_json, (&report,), Ok::<String, Error>(json)) && text@
                            == json@ + "\n"@
                } else {
                    text@ == human_text(Style { color }, report)
                },
            Err(e) => {
                ||| unwrap_fails(bytes@, *decode, e)
                ||| opts.json && exists|report: Report| #[trigger]
                    reports(*decode, *analyze, opts.manifests, bytes@, file@, report)
                        && call_ensures(*to_json, (&report,), Err::<String, Error>(e))
            },
        },
{
    match build_report(bytes, file, opts, decode, analyze) {
        Err(e) => Err(e),
        Ok(report) => {
            assert(reports(*decode, *analyze, opts.manifests, bytes@, file@, report));
            assert(!opts.json ==> report_fits(report));
            if opts.json {
                match (*to_json)(&report) {
                    Err(e) => Err(e),
                    Ok(json) => {
                        let ghost j = json;
                        let mut text = json;
                        text.push_str("\n");
                        assert(call_ensures(*to_json, (&report,), Ok::<String, Error>(j)));
                        Ok(text)
                    },
                }
            } else {
                Ok(render_human(&report, &Style { color }))
            }
        },
    }
}

} // verus!
