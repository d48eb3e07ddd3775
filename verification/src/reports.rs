//! What the text of a report says.
//!
//! The text has one block for every segment. In it stand, under their labels, the figures
//! that the catalog of the segment gives, and what was found of its signature.

use vstd::prelude::*;

use crate::catalog::{AudioConfig, Catalog, VideoConfig};
use crate::error::Error;
use crate::inspect::{
    aspect_line, audio_text, audios_text, badge, bold, cmaf_text, codec_text, data_of, dim,
    dims_text, field_line, field_opt, friendly, human_text, ingredient_line, ingredient_lines,
    ingredients_text, manifest_lines, manifests_text, rate_line, reports, reports_audio,
    reports_segment, reports_video, segment_text, segments_text, shortened,
    signing_text, styled, video_text, videos_text, Analysis, AudioReport,
    IngredientReport, Report, SegmentReport, SigningReport, SigningState, Style, VideoReport,
};
use crate::keymap::texts;
use crate::reader::{decoded, wrapped_segments, Segment};
use crate::text::{ascii_lower, begins_with, decimal, joined, lines_from};

verus! {

/// Whether `part` stands in `t` from position `i` on.
pub open spec fn stands_at(t: Seq<char>, i: int, part: Seq<char>) -> bool {
    0 <= i && i + part.len() <= t.len() && t.subrange(i, i + part.len()) == part
}

/// Whether `part` stands somewhere in `t`.
pub open spec fn has_part(t: Seq<char>, part: Seq<char>) -> bool {
    exists|i: int| #[trigger] stands_at(t, i, part)
}

pub(crate) proof fn lemma_has_wider(a: Seq<char>, t: Seq<char>, b: Seq<char>, part: Seq<char>)
    requires
        has_part(t, part),
    ensures
        has_part(a + t + b, part),
{
    let i = choose|i: int| #[trigger] stands_at(t, i, part);
    let s = a + t + b;
    let j = a.len() + i;
    assert(s.subrange(j, j + part.len()) =~= t.subrange(i, i + part.len()));
    assert(stands_at(s, j, part));
}

pub(crate) proof fn lemma_has_itself(part: Seq<char>)
    ensures
        has_part(part, part),
{
    assert(part.subrange(0, part.len() as int) =~= part);
    assert(stands_at(part, 0, part));
}

/// What is in the first of two texts, or in the second, is in both joined.
pub(crate) proof fn lemma_has_joined(a: Seq<char>, b: Seq<char>, part: Seq<char>)
    requires
        has_part(a, part) || has_part(b, part),
    ensures
        has_part(a + b, part),
{
    let none: Seq<char> = seq![];
    if has_part(a, part) {
        lemma_has_wider(none, a, b, part);
        assert(none + a + b =~= a + b);
    } else {
        lemma_has_wider(a, b, none, part);
        assert(a + b + none =~= a + b);
    }
}

/// `s` between the terminal code `code` and the one that ends it, or as it is.
pub open spec fn set_off(color: bool, code: Seq<char>, s: Seq<char>) -> Seq<char> {
    if color {
        "\x1b["@ + code + "m"@ + s + "\x1b[0m"@
    } else {
        s
    }
}

/// A line of a block: two blanks, the label, dimmed on a terminal, a blank and a value.
pub open spec fn line(color: bool, label: Seq<char>, value: Seq<char>) -> Seq<char> {
    "  "@ + set_off(color, "2"@, label) + " "@ + value + "\n"@
}

/// Whether the block `b` has the line of `label` and `value`.
pub open spec fn has_line(b: Seq<char>, color: bool, label: Seq<char>, value: Seq<char>) -> bool {
    has_part(b, line(color, label, value))
}

proof fn lemma_field(out: Seq<char>, st: Style, label: Seq<char>, s: Seq<char>)
    ensures
        field_line(out, st, label, s) == out + line(st.color, label, s),
        has_line(field_line(out, st, label, s), st.color, label, s),
{
    assert(field_line(out, st, label, s) =~= out + line(st.color, label, s));
    lemma_has_itself(line(st.color, label, s));
    lemma_has_joined(out, line(st.color, label, s), line(st.color, label, s));
}

/// Whether the block `b` says of the video track `v` what the catalog does.
pub open spec fn tells_video(b: Seq<char>, color: bool, v: VideoConfig) -> bool {
    let name = friendly(v.codec@);
    &&& has_line(
        b,
        color,
        "video:"@,
        set_off(color, "1"@, v.codec@) + " "@ + set_off(
            color,
            "2"@,
            match name {
                Some(n) => "("@ + n + ")"@,
                None => ""@,
            },
        ),
    )
    &&& has_line(
        b,
        color,
        "dims:  "@,
        decimal(v.coded_width as nat) + "×"@ + decimal(v.coded_height as nat) + (
        match v.framerate {
            Some(f) => " @ "@ + f@ + " fps"@,
            None => ""@,
        }),
    )
    &&& v.display_aspect_width is Some && v.display_aspect_height is Some ==> has_line(
        b,
        color,
        "dar:   "@,
        decimal(v.display_aspect_width->Some_0 as nat) + ":"@ + decimal(
            v.display_aspect_height->Some_0 as nat,
        ),
    )
    &&& v.bitrate is Some ==> has_line(
        b,
        color,
        "rate:  "@,
        decimal(v.bitrate->Some_0 as nat) + " bps"@,
    )
    &&& has_line(
        b,
        color,
        "cmaf:  "@,
        "timescale "@ + decimal(v.timescale as nat) + ", "@ + decimal(v.description@.len())
            + " desc bytes"@,
    )
}

/// Whether the block `b` says of the audio track `a` what the catalog does: before "Hz"
/// stands its sample rate, and before "ch" how many channels it has.
pub open spec fn tells_audio(b: Seq<char>, color: bool, a: AudioConfig) -> bool {
    let name = friendly(a.codec@);
    &&& has_line(
        b,
        color,
        "audio:"@,
        set_off(color, "1"@, a.codec@) + " "@ + set_off(
            color,
            "2"@,
            match name {
                Some(n) => "("@ + n + ")"@,
                None => ""@,
            },
        ),
    )
    &&& has_line(
        b,
        color,
        "fmt:   "@,
        decimal(a.sample_rate as nat) + " Hz, "@ + decimal(a.number_of_channels as nat) + " ch"@,
    )
    &&& a.bitrate is Some ==> has_line(
        b,
        color,
        "rate:  "@,
        decimal(a.bitrate->Some_0 as nat) + " bps"@,
    )
    &&& has_line(
        b,
        color,
        "cmaf:  "@,
        "timescale "@ + decimal(a.timescale as nat) + ", "@ + decimal(a.description@.len())
            + " desc bytes"@,
    )
}

/// Whether the block `b` has the line of a text that may be missing.
pub open spec fn tells_opt(
    b: Seq<char>,
    color: bool,
    label: Seq<char>,
    value: Option<String>,
) -> bool {
    value matches Some(t) ==> has_line(b, color, label, t@)
}

/// Whether the block `b` says of a signature what was found of it.
pub open spec fn tells_signing(b: Seq<char>, color: bool, sig: SigningReport) -> bool {
    &&& sig.state == SigningState::Unsigned ==> has_line(
        b,
        color,
        "sign:  "@,
        set_off(color, "2"@, "(unsigned)"@),
    )
    &&& sig.state == SigningState::NoActiveManifest ==> has_line(
        b,
        color,
        "sign:  "@,
        set_off(color, "2"@, "(no active manifest)"@),
    )
    &&& sig.state == SigningState::Trusted ==> has_line(
        b,
        color,
        "sign:  "@,
        set_off(color, "32"@, "✓ trusted"@),
    )
    &&& sig.state == SigningState::Valid ==> has_line(
        b,
        color,
        "sign:  "@,
        set_off(color, "32"@, "✓ valid"@),
    )
    &&& sig.state == SigningState::Invalid ==> has_line(
        b,
        color,
        "sign:  "@,
        set_off(color, "31"@, "✗ invalid"@) + if sig.failure_codes@.len() == 0 {
            ""@
        } else {
            " ("@ + joined(texts(sig.failure_codes@), ", "@) + ")"@
        },
    )
    &&& sig.state != SigningState::Unsigned && sig.state != SigningState::NoActiveManifest ==> {
        &&& tells_opt(b, color, "title: "@, sig.title)
        &&& tells_opt(b, color, "alg:   "@, sig.alg)
        &&& tells_opt(b, color, "when:  "@, sig.when)
        &&& tells_opt(b, color, "signer:"@, sig.signer)
        &&& sig.pubkey matches Some(pk) ==> has_line(b, color, "pubkey:"@, shortened(pk@))
        &&& tells_opt(b, color, "dc:cr: "@, sig.dc_creator)
        &&& tells_opt(b, color, "dc:dt: "@, sig.dc_date)
        &&& sig.actions@.len() > 0 ==> has_line(
            b,
            color,
            "acts:  "@,
            joined(texts(sig.actions@), ", "@),
        )
        &&& forall|i: int|
            0 <= i < sig.ingredients@.len() ==> has_part(
                b,
                #[trigger] ingredient_words(color, sig.ingredients@[i]),
            )
    }
}

/// What a block says of something that a segment was made of: how it is related, its title
/// and, where there is one, its hash in short.
pub open spec fn ingredient_words(color: bool, ing: IngredientReport) -> Seq<char> {
    "    "@ + set_off(color, "2"@, "- "@ + ing.relationship@) + " "@ + ing.title@ + (match ing.hash {
        Some(h) => "  "@ + set_off(color, "2"@, shortened(h@)),
        None => ""@,
    }) + "\n"@
}

/// The first line of the block of segment `index` out of `total`.
pub open spec fn block_title(
    color: bool,
    index: nat,
    total: nat,
    track_id: u32,
    bytes: nat,
) -> Seq<char> {
    "\n"@ + set_off(
        color,
        "1"@,
        set_off(
            color,
            "36"@,
            "── segment "@ + decimal(index) + "/"@ + decimal(total) + " ──"@,
        ),
    ) + " "@ + set_off(
        color,
        "2"@,
        "track "@ + decimal(track_id as nat) + " · "@ + decimal(bytes) + " bytes"@,
    ) + "\n"@
}

// What is behind the text so far does not depend on it.

pub(crate) proof fn lemma_one_adds(out: Seq<char>, t: Seq<char>, a: Seq<char>)
    ensures
        (out + t) + a == out + (t + a),
{
    assert((out + t) + a =~= out + (t + a));
}

pub(crate) proof fn lemma_five_adds(
    out: Seq<char>,
    a: Seq<char>,
    b: Seq<char>,
    c: Seq<char>,
    d: Seq<char>,
    e: Seq<char>,
)
    ensures
        out + a + b + c + d + e == out + (Seq::<char>::empty() + a + b + c + d + e),
{
    let none = Seq::<char>::empty();
    assert(out + none =~= out);
    lemma_one_adds(out, none, a);
    lemma_one_adds(out, none + a, b);
    lemma_one_adds(out, none + a + b, c);
    lemma_one_adds(out, none + a + b + c, d);
    lemma_one_adds(out, none + a + b + c + d, e);
}

proof fn lemma_video_adds(out: Seq<char>, st: Style, v: VideoReport)
    ensures
        video_text(out, st, v) == out + video_text(seq![], st, v),
{
    let none: Seq<char> = seq![];
    let c = st.color;
    let l1 = line(c, "video:"@, codec_text(st, v.codec@, v.friendly));
    let l2 = line(c, "dims:  "@, dims_text(v));
    let l3 = aspect_line(none, st, v);
    let l4 = rate_line(none, st, v.bitrate);
    let l5 = line(c, "cmaf:  "@, cmaf_text(v.timescale, v.description_bytes));
    lemma_video_is(out, st, v);
    lemma_video_is(none, st, v);
    lemma_five_adds(out, l1, l2, l3, l4, l5);
}

/// The lines of a video track, one by one.
#[verifier::spinoff_prover]
proof fn lemma_video_is(out: Seq<char>, st: Style, v: VideoReport)
    ensures
        ({
            let none: Seq<char> = seq![];
            let c = st.color;
            video_text(out, st, v) == out + line(
                c,
                "video:"@,
                codec_text(st, v.codec@, v.friendly),
            ) + line(c, "dims:  "@, dims_text(v)) + aspect_line(none, st, v) + rate_line(
                none,
                st,
                v.bitrate,
            ) + line(c, "cmaf:  "@, cmaf_text(v.timescale, v.description_bytes))
        }),
{
    let none: Seq<char> = seq![];
    lemma_field(out, st, "video:"@, codec_text(st, v.codec@, v.friendly));
    let a = field_line(out, st, "video:"@, codec_text(st, v.codec@, v.friendly));
    lemma_field(a, st, "dims:  "@, dims_text(v));
    let b = field_line(a, st, "dims:  "@, dims_text(v));
    lemma_aspect_adds(b, st, v);
    let c = aspect_line(b, st, v);
    lemma_rate_adds(c, st, v.bitrate);
    let d = rate_line(c, st, v.bitrate);
    lemma_field(d, st, "cmaf:  "@, cmaf_text(v.timescale, v.description_bytes));
}

proof fn lemma_aspect_adds(out: Seq<char>, st: Style, v: VideoReport)
    ensures
        aspect_line(out, st, v) == out + aspect_line(seq![], st, v),
        v.display_aspect_width is Some && v.display_aspect_height is Some ==> has_line(
            aspect_line(seq![], st, v),
            st.color,
            "dar:   "@,
            decimal(v.display_aspect_width->Some_0 as nat) + ":"@ + decimal(
                v.display_aspect_height->Some_0 as nat,
            ),
        ),
{
    let none: Seq<char> = seq![];
    if let (Some(w), Some(h)) = (v.display_aspect_width, v.display_aspect_height) {
        let s = decimal(w as nat) + ":"@ + decimal(h as nat);
        lemma_field(out, st, "dar:   "@, s);
        lemma_field(none, st, "dar:   "@, s);
        assert(none + line(st.color, "dar:   "@, s) =~= line(st.color, "dar:   "@, s));
    } else {
        assert(out + none =~= out);
    }
}

proof fn lemma_rate_adds(out: Seq<char>, st: Style, bitrate: Option<u64>)
    ensures
        rate_line(out, st, bitrate) == out + rate_line(seq![], st, bitrate),
        bitrate matches Some(b) ==> has_line(
            rate_line(seq![], st, bitrate),
            st.color,
            "rate:  "@,
            decimal(b as nat) + " bps"@,
        ),
{
    let none: Seq<char> = seq![];
    match bitrate {
        Some(b) => {
            let s = decimal(b as nat) + " bps"@;
            lemma_field(out, st, "rate:  "@, s);
            lemma_field(none, st, "rate:  "@, s);
            assert(none + line(st.color, "rate:  "@, s) =~= line(st.color, "rate:  "@, s));
        },
        None => {
            assert(out + none =~= out);
        },
    }
}

proof fn lemma_tells_video(st: Style, v: VideoConfig, r: VideoReport)
    requires
        reports_video(v, r),
    ensures
        tells_video(video_text(seq![], st, r), st.color, v),
{
    let none: Seq<char> = seq![];
    let c = st.color;
    let l1 = line(c, "video:"@, codec_text(st, r.codec@, r.friendly));
    let l2 = line(c, "dims:  "@, dims_text(r));
    let l3 = aspect_line(none, st, r);
    let l4 = rate_line(none, st, r.bitrate);
    let l5 = line(c, "cmaf:  "@, cmaf_text(r.timescale, r.description_bytes));
    lemma_video_is(none, st, r);
    lemma_aspect_adds(none, st, r);
    lemma_rate_adds(none, st, r.bitrate);
    lemma_has_itself(l1);
    lemma_has_itself(l2);
    lemma_has_itself(l5);
    lemma_five(none, l1, l2, l3, l4, l5, l1);
    lemma_five(none, l1, l2, l3, l4, l5, l2);
    lemma_five(none, l1, l2, l3, l4, l5, l5);
    if let (Some(w), Some(h)) = (v.display_aspect_width, v.display_aspect_height) {
        lemma_five(
            none,
            l1,
            l2,
            l3,
            l4,
            l5,
            line(c, "dar:   "@, decimal(w as nat) + ":"@ + decimal(h as nat)),
        );
    }
    if let Some(b) = v.bitrate {
        lemma_five(none, l1, l2, l3, l4, l5, line(c, "rate:  "@, decimal(b as nat) + " bps"@));
    }
}

proof fn lemma_five(
    z: Seq<char>,
    a: Seq<char>,
    b: Seq<char>,
    c: Seq<char>,
    d: Seq<char>,
    e: Seq<char>,
    part: Seq<char>,
)
    requires
        has_part(a, part) || has_part(b, part) || has_part(c, part) || has_part(d, part)
            || has_part(e, part),
    ensures
        has_part(z + a + b + c + d + e, part),
{
    if has_part(a, part) {
        lemma_has_joined(z, a, part);
    }
    if has_part(z + a, part) || has_part(b, part) {
        lemma_has_joined(z + a, b, part);
    }
    if has_part(z + a + b, part) || has_part(c, part) {
        lemma_has_joined(z + a + b, c, part);
    }
    if has_part(z + a + b + c, part) || has_part(d, part) {
        lemma_has_joined(z + a + b + c, d, part);
    }
    lemma_has_joined(z + a + b + c + d, e, part);
}

/// The lines of an audio track, one by one.
#[verifier::spinoff_prover]
proof fn lemma_audio_is(out: Seq<char>, st: Style, a: AudioReport)
    ensures
        ({
            let none: Seq<char> = seq![];
            let c = st.color;
            audio_text(out, st, a) == out + line(
                c,
                "audio:"@,
                codec_text(st, a.codec@, a.friendly),
            ) + line(
                c,
                "fmt:   "@,
                decimal(a.sample_rate as nat) + " Hz, "@ + decimal(a.channels as nat) + " ch"@,
            ) + none + rate_line(none, st, a.bitrate) + line(
                c,
                "cmaf:  "@,
                cmaf_text(a.timescale, a.description_bytes),
            )
        }),
{
    let none: Seq<char> = seq![];
    let fmt = decimal(a.sample_rate as nat) + " Hz, "@ + decimal(a.channels as nat) + " ch"@;
    lemma_field(out, st, "audio:"@, codec_text(st, a.codec@, a.friendly));
    let x = field_line(out, st, "audio:"@, codec_text(st, a.codec@, a.friendly));
    lemma_field(x, st, "fmt:   "@, fmt);
    let y = field_line(x, st, "fmt:   "@, fmt);
    assert(y + none =~= y);
    lemma_rate_adds(y, st, a.bitrate);
    let z = rate_line(y, st, a.bitrate);
    lemma_field(z, st, "cmaf:  "@, cmaf_text(a.timescale, a.description_bytes));
}

proof fn lemma_audio_adds(out: Seq<char>, st: Style, a: AudioReport)
    ensures
        audio_text(out, st, a) == out + audio_text(seq![], st, a),
{
    let none: Seq<char> = seq![];
    let c = st.color;
    let l1 = line(c, "audio:"@, codec_text(st, a.codec@, a.friendly));
    let l2 = line(
        c,
        "fmt:   "@,
        decimal(a.sample_rate as nat) + " Hz, "@ + decimal(a.channels as nat) + " ch"@,
    );
    let l4 = rate_line(none, st, a.bitrate);
    let l5 = line(c, "cmaf:  "@, cmaf_text(a.timescale, a.description_bytes));
    lemma_audio_is(out, st, a);
    lemma_audio_is(none, st, a);
    lemma_five_adds(out, l1, l2, none, l4, l5);
}

proof fn lemma_tells_audio(st: Style, a: AudioConfig, r: AudioReport)
    requires
        reports_audio(a, r),
    ensures
        tells_audio(audio_text(seq![], st, r), st.color, a),
{
    let none: Seq<char> = seq![];
    let c = st.color;
    let l1 = line(c, "audio:"@, codec_text(st, r.codec@, r.friendly));
    let l2 = line(
        c,
        "fmt:   "@,
        decimal(r.sample_rate as nat) + " Hz, "@ + decimal(r.channels as nat) + " ch"@,
    );
    let l4 = rate_line(none, st, r.bitrate);
    let l5 = line(c, "cmaf:  "@, cmaf_text(r.timescale, r.description_bytes));
    lemma_audio_is(none, st, r);
    lemma_rate_adds(none, st, r.bitrate);
    lemma_has_itself(l1);
    lemma_has_itself(l2);
    lemma_has_itself(l5);
    lemma_five(none, l1, l2, none, l4, l5, l1);
    lemma_five(none, l1, l2, none, l4, l5, l2);
    lemma_five(none, l1, l2, none, l4, l5, l5);
    if let Some(b) = a.bitrate {
        lemma_five(none, l1, l2, none, l4, l5, line(c, "rate:  "@, decimal(b as nat) + " bps"@));
    }
}

/// Whether `t` begins with `out`.
pub open spec fn goes_on(out: Seq<char>, t: Seq<char>) -> bool {
    out.len() <= t.len() && t.take(out.len() as int) == out
}

/// What `t` has behind `out`.
pub open spec fn behind(out: Seq<char>, t: Seq<char>) -> Seq<char> {
    t.skip(out.len() as int)
}

/// Whether all that stands in `b` stands in `t`.
pub open spec fn within(b: Seq<char>, t: Seq<char>) -> bool {
    forall|part: Seq<char>| #[trigger] has_part(b, part) ==> has_part(t, part)
}

pub(crate) proof fn lemma_behind_joined(out: Seq<char>, more: Seq<char>)
    ensures
        goes_on(out, out + more),
        behind(out, out + more) == more,
{
    assert((out + more).take(out.len() as int) =~= out);
    assert(behind(out, out + more) =~= more);
}

pub(crate) proof fn lemma_behind_both(out: Seq<char>, a: Seq<char>, b: Seq<char>)
    requires
        goes_on(out, a),
        goes_on(a, b),
    ensures
        goes_on(out, b),
        within(behind(out, a), behind(out, b)),
        within(behind(a, b), behind(out, b)),
        behind(out, b) == behind(out, a) + behind(a, b),
{
    assert(b.take(out.len() as int) =~= a.take(out.len() as int));
    assert(a =~= out + behind(out, a));
    assert(b =~= a + behind(a, b));
    assert(behind(out, b) =~= behind(out, a) + behind(a, b));
    assert forall|part: Seq<char>|
        has_part(behind(out, a), part) implies #[trigger] has_part(behind(out, b), part) by {
        lemma_has_joined(behind(out, a), behind(a, b), part);
    }
    assert forall|part: Seq<char>|
        has_part(behind(a, b), part) implies #[trigger] has_part(behind(out, b), part) by {
        lemma_has_joined(behind(out, a), behind(a, b), part);
    }
}

pub(crate) proof fn lemma_behind_itself(out: Seq<char>)
    ensures
        goes_on(out, out),
{
    assert(out.take(out.len() as int) =~= out);
}

proof fn lemma_field_behind(out: Seq<char>, st: Style, label: Seq<char>, s: Seq<char>)
    ensures
        goes_on(out, field_line(out, st, label, s)),
        has_line(behind(out, field_line(out, st, label, s)), st.color, label, s),
{
    lemma_field(out, st, label, s);
    lemma_behind_joined(out, line(st.color, label, s));
    lemma_has_itself(line(st.color, label, s));
}

proof fn lemma_opt_behind(out: Seq<char>, st: Style, label: Seq<char>, s: Option<String>)
    ensures
        goes_on(out, field_opt(out, st, label, s)),
        tells_opt(behind(out, field_opt(out, st, label, s)), st.color, label, s),
{
    lemma_behind_itself(out);
    match s {
        Some(t) => {
            lemma_field_behind(out, st, label, t@);
        },
        None => {},
    }
}

proof fn lemma_ingredient_behind(out: Seq<char>, st: Style, ing: IngredientReport)
    ensures
        goes_on(out, ingredient_line(out, st, ing)),
        has_part(behind(out, ingredient_line(out, st, ing)), ingredient_words(st.color, ing)),
{
    let w = ingredient_words(st.color, ing);
    let tail = match ing.hash {
        Some(h) => "  "@ + dim(st, shortened(h@)),
        None => ""@,
    };
    let a = "    "@;
    let b = dim(st, "- "@ + ing.relationship@);
    let none = Seq::<char>::empty();
    lemma_five_adds(out, a, b, " "@, ing.title@, tail);
    assert(none + a =~= a);
    lemma_one_adds(out, a + b + " "@ + ing.title@ + tail, "\n"@);
    assert(ingredient_line(out, st, ing) == out + w);
    lemma_behind_joined(out, w);
    lemma_has_itself(w);
}

proof fn lemma_ingredients_behind(
    out: Seq<char>,
    st: Style,
    ings: Seq<IngredientReport>,
    n: int,
)
    requires
        0 <= n <= ings.len(),
    ensures
        goes_on(out, ingredient_lines(out, st, ings, n)),
        forall|i: int|
            0 <= i < n ==> has_part(
                behind(out, ingredient_lines(out, st, ings, n)),
                #[trigger] ingredient_words(st.color, ings[i]),
            ),
    decreases n,
{
    lemma_behind_itself(out);
    if n > 0 {
        lemma_ingredients_behind(out, st, ings, n - 1);
        let a = ingredient_lines(out, st, ings, n - 1);
        lemma_ingredient_behind(a, st, ings[n - 1]);
        let b = ingredient_line(a, st, ings[n - 1]);
        lemma_behind_both(out, a, b);
        assert forall|i: int| 0 <= i < n implies has_part(
            behind(out, ingredient_lines(out, st, ings, n)),
            #[trigger] ingredient_words(st.color, ings[i]),
        ) by {
            if i < n - 1 {
                assert(has_part(behind(out, a), ingredient_words(st.color, ings[i])));
            } else {
                assert(has_part(behind(a, b), ingredient_words(st.color, ings[i])));
            }
        }
    }
}

proof fn lemma_made_of_behind(out: Seq<char>, st: Style, ings: Seq<IngredientReport>)
    ensures
        goes_on(out, ingredients_text(out, st, ings)),
        forall|i: int|
            0 <= i < ings.len() ==> has_part(
                behind(out, ingredients_text(out, st, ings)),
                #[trigger] ingredient_words(st.color, ings[i]),
            ),
{
    lemma_behind_itself(out);
    if ings.len() > 0 {
        let more = "  "@ + dim(st, "ingr:  "@) + "\n"@;
        let a = out + "  "@ + dim(st, "ingr:  "@) + "\n"@;
        assert(a =~= out + more);
        lemma_behind_joined(out, more);
        lemma_ingredients_behind(a, st, ings, ings.len() as int);
        let b = ingredients_text(out, st, ings);
        lemma_behind_both(out, a, b);
        assert forall|i: int| 0 <= i < ings.len() implies has_part(
            behind(out, b),
            #[trigger] ingredient_words(st.color, ings[i]),
        ) by {
            assert(has_part(behind(a, b), ingredient_words(st.color, ings[i])));
        }
    }
}

proof fn lemma_signing_behind(out: Seq<char>, st: Style, sig: SigningReport)
    ensures
        goes_on(out, signing_text(out, st, sig)),
        tells_signing(behind(out, signing_text(out, st, sig)), st.color, sig),
{
    let col = st.color;
    if sig.state == SigningState::Unsigned {
        lemma_field_behind(out, st, "sign:  "@, dim(st, "(unsigned)"@));
    } else if sig.state == SigningState::NoActiveManifest {
        lemma_field_behind(out, st, "sign:  "@, dim(st, "(no active manifest)"@));
    } else {
        let a = field_line(out, st, "sign:  "@, badge(st, sig));
        lemma_field_behind(out, st, "sign:  "@, badge(st, sig));
        let b = field_opt(a, st, "title: "@, sig.title);
        lemma_opt_behind(a, st, "title: "@, sig.title);
        let c = field_opt(b, st, "alg:   "@, sig.alg);
        lemma_opt_behind(b, st, "alg:   "@, sig.alg);
        let d = field_opt(c, st, "when:  "@, sig.when);
        lemma_opt_behind(c, st, "when:  "@, sig.when);
        let e = field_opt(d, st, "signer:"@, sig.signer);
        lemma_opt_behind(d, st, "signer:"@, sig.signer);
        let f = match sig.pubkey {
            Some(pk) => field_line(e, st, "pubkey:"@, shortened(pk@)),
            None => e,
        };
        lemma_behind_itself(e);
        if let Some(pk) = sig.pubkey {
            lemma_field_behind(e, st, "pubkey:"@, shortened(pk@));
        }
        let g = field_opt(f, st, "dc:cr: "@, sig.dc_creator);
        lemma_opt_behind(f, st, "dc:cr: "@, sig.dc_creator);
        let h = field_opt(g, st, "dc:dt: "@, sig.dc_date);
        lemma_opt_behind(g, st, "dc:dt: "@, sig.dc_date);
        let i = if sig.actions@.len() == 0 {
            h
        } else {
            field_line(h, st, "acts:  "@, joined(texts(sig.actions@), ", "@))
        };
        lemma_behind_itself(h);
        if sig.actions@.len() > 0 {
            lemma_field_behind(h, st, "acts:  "@, joined(texts(sig.actions@), ", "@));
        }
        let j = ingredients_text(i, st, sig.ingredients@);
        lemma_made_of_behind(i, st, sig.ingredients@);
        lemma_behind_both(h, i, j);
        lemma_behind_both(g, h, j);
        lemma_behind_both(f, g, j);
        lemma_behind_both(e, f, j);
        lemma_behind_both(d, e, j);
        lemma_behind_both(c, d, j);
        lemma_behind_both(b, c, j);
        lemma_behind_both(a, b, j);
        lemma_behind_both(out, a, j);
        let t = behind(out, j);
        assert(within(behind(a, j), t));
        assert(within(behind(b, j), t));
        assert(within(behind(c, j), t));
        assert(within(behind(d, j), t));
        assert(within(behind(e, j), t));
        assert(within(behind(f, j), t));
        assert(within(behind(g, j), t));
        assert(within(behind(h, j), t));
        assert(within(behind(i, j), t));
        assert(has_line(t, col, "sign:  "@, badge(st, sig)));
        assert(tells_opt(t, col, "title: "@, sig.title));
        assert(tells_opt(t, col, "alg:   "@, sig.alg));
        assert(tells_opt(t, col, "when:  "@, sig.when));
        assert(tells_opt(t, col, "signer:"@, sig.signer));
        assert(sig.pubkey matches Some(pk) ==> has_line(t, col, "pubkey:"@, shortened(pk@)));
        assert(tells_opt(t, col, "dc:cr: "@, sig.dc_creator));
        assert(tells_opt(t, col, "dc:dt: "@, sig.dc_date));
        assert(sig.actions@.len() > 0 ==> has_line(
            t,
            col,
            "acts:  "@,
            joined(texts(sig.actions@), ", "@),
        ));
        assert forall|k: int| 0 <= k < sig.ingredients@.len() implies has_part(
            t,
            #[trigger] ingredient_words(col, sig.ingredients@[k]),
        ) by {
            assert(has_part(behind(i, j), ingredient_words(col, sig.ingredients@[k])));
        }
    }
}

proof fn lemma_videos_behind(out: Seq<char>, st: Style, vs: Seq<VideoReport>, n: int)
    requires
        0 <= n <= vs.len(),
    ensures
        goes_on(out, videos_text(out, st, vs, n)),
        forall|i: int|
            0 <= i < n ==> within(
                video_text(seq![], st, #[trigger] vs[i]),
                behind(out, videos_text(out, st, vs, n)),
            ),
    decreases n,
{
    lemma_behind_itself(out);
    if n > 0 {
        lemma_videos_behind(out, st, vs, n - 1);
        let a = videos_text(out, st, vs, n - 1);
        let b = video_text(a, st, vs[n - 1]);
        lemma_video_adds(a, st, vs[n - 1]);
        lemma_behind_joined(a, video_text(seq![], st, vs[n - 1]));
        lemma_behind_both(out, a, b);
    }
}

proof fn lemma_audios_behind(out: Seq<char>, st: Style, vs: Seq<AudioReport>, n: int)
    requires
        0 <= n <= vs.len(),
    ensures
        goes_on(out, audios_text(out, st, vs, n)),
        forall|i: int|
            0 <= i < n ==> within(
                audio_text(seq![], st, #[trigger] vs[i]),
                behind(out, audios_text(out, st, vs, n)),
            ),
    decreases n,
{
    lemma_behind_itself(out);
    if n > 0 {
        lemma_audios_behind(out, st, vs, n - 1);
        let a = audios_text(out, st, vs, n - 1);
        let b = audio_text(a, st, vs[n - 1]);
        lemma_audio_adds(a, st, vs[n - 1]);
        lemma_behind_joined(a, audio_text(seq![], st, vs[n - 1]));
        lemma_behind_both(out, a, b);
    }
}

/// A line of the manifest store: four blanks and the line, dimmed on a terminal.
pub open spec fn store_line(color: bool, s: Seq<char>) -> Seq<char> {
    "    "@ + set_off(color, "2"@, s) + "\n"@
}

proof fn lemma_store_behind(out: Seq<char>, st: Style, lines: Seq<Seq<char>>, n: int)
    requires
        0 <= n <= lines.len(),
    ensures
        goes_on(out, manifest_lines(out, st, lines, n)),
        forall|i: int|
            0 <= i < n ==> has_part(
                behind(out, manifest_lines(out, st, lines, n)),
                store_line(st.color, #[trigger] lines[i]),
            ),
    decreases n,
{
    lemma_behind_itself(out);
    if n > 0 {
        lemma_store_behind(out, st, lines, n - 1);
        let a = manifest_lines(out, st, lines, n - 1);
        let b = manifest_lines(out, st, lines, n);
        let w = store_line(st.color, lines[n - 1]);
        assert(b =~= a + w);
        lemma_behind_joined(a, w);
        lemma_has_itself(w);
        lemma_behind_both(out, a, b);
    }
}

proof fn lemma_manifests_behind(out: Seq<char>, st: Style, json: Seq<char>)
    ensures
        goes_on(out, manifests_text(out, st, json)),
        forall|i: int|
            0 <= i < lines_from(json, 0).len() ==> has_part(
                behind(out, manifests_text(out, st, json)),
                store_line(st.color, #[trigger] lines_from(json, 0)[i]),
            ),
{
    let lines = lines_from(json, 0);
    let more = "  "@ + dim(st, "manifest store:"@) + "\n"@;
    let a = out + "  "@ + dim(st, "manifest store:"@) + "\n"@;
    assert(a =~= out + more);
    lemma_behind_joined(out, more);
    lemma_store_behind(a, st, lines, lines.len() as int);
    lemma_behind_both(out, a, manifests_text(out, st, json));
}

/// Whether the block `b` is that of the segment `seg`, which comes at `index` out of `total`:
/// it opens with the title, says of each track what the catalog does, and says what was
/// found of the signature.
pub open spec fn tells_segment(
    b: Seq<char>,
    color: bool,
    seg: Segment,
    found: Analysis,
    index: nat,
    total: nat,
) -> bool {
    &&& stands_at(b, 0, block_title(color, index, total, seg.track_id, seg.data@.len()))
    &&& seg.catalog.video matches Some(v) ==> forall|i: int|
        0 <= i < v.renditions.order().len() ==> tells_video(
            b,
            color,
            #[trigger] v.renditions.nth(i),
        )
    &&& seg.catalog.audio matches Some(a) ==> forall|i: int|
        0 <= i < a.renditions.order().len() ==> tells_audio(
            b,
            color,
            #[trigger] a.renditions.nth(i),
        )
    &&& tells_signing(b, color, found.signing)
    &&& found.manifests matches Some(json) ==> forall|i: int|
        0 <= i < lines_from(json@, 0).len() ==> has_part(
            b,
            store_line(color, #[trigger] lines_from(json@, 0)[i]),
        )
}

proof fn lemma_title_behind(out: Seq<char>, st: Style, r: SegmentReport, total: usize)
    ensures
        ({
            let title = block_title(
                st.color,
                r.index as nat,
                total as nat,
                r.track_id,
                r.bytes as nat,
            );
            &&& segment_text(out, st, r, total) == body_text(out + title, st, r)
            &&& goes_on(out, out + title)
            &&& behind(out, out + title) == title
        }),
{
    let title = block_title(st.color, r.index as nat, total as nat, r.track_id, r.bytes as nat);
    let x = bold(
        st,
        styled(
            st,
            "36"@,
            "── segment "@ + decimal(r.index as nat) + "/"@ + decimal(total as nat) + " ──"@,
        ),
    );
    let y = dim(
        st,
        "track "@ + decimal(r.track_id as nat) + " · "@ + decimal(r.bytes as nat) + " bytes"@,
    );
    assert(title == "\n"@ + x + " "@ + y + "\n"@);
    let none = Seq::<char>::empty();
    lemma_five_adds(out, "\n"@, x, " "@, y, "\n"@);
    assert(none + "\n"@ =~= "\n"@);
    assert(out + "\n"@ + x + " "@ + y + "\n"@ == out + title);
    lemma_behind_joined(out, title);
}

/// What a block has behind its title.
spec fn body_text(head: Seq<char>, st: Style, r: SegmentReport) -> Seq<char> {
    let v = videos_text(head, st, r.video@, r.video@.len() as int);
    let a = audios_text(v, st, r.audio@, r.audio@.len() as int);
    let s = signing_text(a, st, r.signing);
    match r.manifests {
        Some(m) => manifests_text(s, st, m@),
        None => s,
    }
}

/// What stands in a block of a segment, taken part by part.
spec fn tells_parts(b: Seq<char>, st: Style, r: SegmentReport) -> bool {
    &&& forall|i: int|
        0 <= i < r.video@.len() ==> within(video_text(seq![], st, #[trigger] r.video@[i]), b)
    &&& forall|i: int|
        0 <= i < r.audio@.len() ==> within(audio_text(seq![], st, #[trigger] r.audio@[i]), b)
    &&& tells_signing(b, st.color, r.signing)
    &&& r.manifests matches Some(json) ==> forall|i: int|
        0 <= i < lines_from(json@, 0).len() ==> has_part(
            b,
            store_line(st.color, #[trigger] lines_from(json@, 0)[i]),
        )
}

proof fn lemma_within_both(a: Seq<char>, b: Seq<char>, c: Seq<char>)
    requires
        within(a, b),
        within(b, c),
    ensures
        within(a, c),
{
}

proof fn lemma_parts_wider(b: Seq<char>, t: Seq<char>, st: Style, r: SegmentReport)
    requires
        tells_parts(b, st, r),
        within(b, t),
    ensures
        tells_parts(t, st, r),
{
    assert forall|i: int| 0 <= i < r.video@.len() implies within(
        video_text(seq![], st, #[trigger] r.video@[i]),
        t,
    ) by {
        lemma_within_both(video_text(seq![], st, r.video@[i]), b, t);
    }
    assert forall|i: int| 0 <= i < r.audio@.len() implies within(
        audio_text(seq![], st, #[trigger] r.audio@[i]),
        t,
    ) by {
        lemma_within_both(audio_text(seq![], st, r.audio@[i]), b, t);
    }
    lemma_signing_wider(b, t, st.color, r.signing);
}

proof fn lemma_body_behind(head: Seq<char>, st: Style, r: SegmentReport)
    ensures
        goes_on(head, body_text(head, st, r)),
        tells_parts(behind(head, body_text(head, st, r)), st, r),
{
    let v = videos_text(head, st, r.video@, r.video@.len() as int);
    lemma_videos_behind(head, st, r.video@, r.video@.len() as int);
    let a = audios_text(v, st, r.audio@, r.audio@.len() as int);
    lemma_audios_behind(v, st, r.audio@, r.audio@.len() as int);
    let s = signing_text(a, st, r.signing);
    lemma_signing_behind(a, st, r.signing);
    let m = body_text(head, st, r);
    lemma_behind_itself(s);
    if let Some(json) = r.manifests {
        lemma_manifests_behind(s, st, json@);
    }
    lemma_behind_both(a, s, m);
    lemma_behind_both(v, a, m);
    lemma_behind_both(head, v, m);
    let b = behind(head, m);
    lemma_within_both(behind(v, a), behind(v, m), b);
    lemma_within_both(behind(a, m), behind(v, m), b);
    lemma_within_both(behind(a, s), behind(a, m), b);
    lemma_within_both(behind(s, m), behind(a, m), b);
    assert forall|i: int| 0 <= i < r.video@.len() implies within(
        video_text(seq![], st, #[trigger] r.video@[i]),
        b,
    ) by {
        lemma_within_both(video_text(seq![], st, r.video@[i]), behind(head, v), b);
    }
    assert forall|i: int| 0 <= i < r.audio@.len() implies within(
        audio_text(seq![], st, #[trigger] r.audio@[i]),
        b,
    ) by {
        lemma_within_both(audio_text(seq![], st, r.audio@[i]), behind(v, a), b);
    }
    lemma_signing_wider(behind(a, s), b, st.color, r.signing);
}

proof fn lemma_video_wider(b: Seq<char>, t: Seq<char>, color: bool, v: VideoConfig)
    requires
        tells_video(b, color, v),
        within(b, t),
    ensures
        tells_video(t, color, v),
{
}

proof fn lemma_audio_wider(b: Seq<char>, t: Seq<char>, color: bool, v: AudioConfig)
    requires
        tells_audio(b, color, v),
        within(b, t),
    ensures
        tells_audio(t, color, v),
{
}

proof fn lemma_parts_tell<A: Fn(&[u8], bool) -> Analysis>(
    b: Seq<char>,
    st: Style,
    analyze: A,
    want_manifests: bool,
    seg: Segment,
    i: int,
    r: SegmentReport,
    total: usize,
)
    requires
        0 <= i,
        reports_segment(analyze, want_manifests, seg, i, r),
        tells_parts(b, st, r),
        stands_at(
            b,
            0,
            block_title(st.color, (i + 1) as nat, total as nat, seg.track_id, seg.data@.len()),
        ),
    ensures
        tells_segment(
            b,
            st.color,
            seg,
            Analysis { signing: r.signing, manifests: r.manifests },
            (i + 1) as nat,
            total as nat,
        ),
{
    let col = st.color;
    if let Some(vs) = seg.catalog.video {
        assert forall|k: int| 0 <= k < vs.renditions.order().len() implies tells_video(
            b,
            col,
            #[trigger] vs.renditions.nth(k),
        ) by {
            lemma_tells_video(st, vs.renditions.nth(k), r.video@[k]);
            lemma_video_wider(
                video_text(seq![], st, r.video@[k]),
                b,
                col,
                vs.renditions.nth(k),
            );
        }
    }
    if let Some(au) = seg.catalog.audio {
        assert forall|k: int| 0 <= k < au.renditions.order().len() implies tells_audio(
            b,
            col,
            #[trigger] au.renditions.nth(k),
        ) by {
            lemma_tells_audio(st, au.renditions.nth(k), r.audio@[k]);
            lemma_audio_wider(
                audio_text(seq![], st, r.audio@[k]),
                b,
                col,
                au.renditions.nth(k),
            );
        }
    }
}

proof fn lemma_segment_behind<A: Fn(&[u8], bool) -> Analysis>(
    out: Seq<char>,
    st: Style,
    analyze: A,
    want_manifests: bool,
    seg: Segment,
    i: int,
    r: SegmentReport,
    total: usize,
)
    requires
        0 <= i,
        reports_segment(analyze, want_manifests, seg, i, r),
    ensures
        goes_on(out, segment_text(out, st, r, total)),
        tells_segment(
            behind(out, segment_text(out, st, r, total)),
            st.color,
            seg,
            Analysis { signing: r.signing, manifests: r.manifests },
            (i + 1) as nat,
            total as nat,
        ),
{
    let title = block_title(
        st.color,
        (i + 1) as nat,
        total as nat,
        seg.track_id,
        seg.data@.len(),
    );
    let head = out + title;
    let m = segment_text(out, st, r, total);
    lemma_title_behind(out, st, r, total);
    lemma_body_behind(head, st, r);
    lemma_behind_both(out, head, m);
    let b = behind(out, m);
    assert(b.subrange(0, title.len() as int) =~= title);
    lemma_parts_wider(behind(head, m), b, st, r);
    lemma_parts_tell(b, st, analyze, want_manifests, seg, i, r, total);
}

proof fn lemma_signing_wider(b: Seq<char>, t: Seq<char>, color: bool, sig: SigningReport)
    requires
        tells_signing(b, color, sig),
        within(b, t),
    ensures
        tells_signing(t, color, sig),
{
}

/// The first line of a report: the file, how many bytes it has and how many segments.
pub open spec fn report_title(color: bool, file: Seq<char>, bytes: nat, segments: nat) -> Seq<char> {
    set_off(color, "1"@, set_off(color, "36"@, "file:"@)) + " "@ + file + " "@ + set_off(
        color,
        "2"@,
        "("@ + decimal(bytes) + " bytes, "@ + decimal(segments) + " segments)"@,
    ) + "\n"@
}

/// Whether the cuts `cuts` part a text that opens with `title` into that and `n` blocks.
pub open spec fn parted(text: Seq<char>, title: Seq<char>, cuts: Seq<int>, n: nat) -> bool {
    &&& stands_at(text, 0, title)
    &&& cuts.len() == n + 1
    &&& cuts[0] == title.len()
    &&& cuts[n as int] == text.len()
    &&& forall|i: int| 0 <= i < n ==> in_order(cuts, text.len(), i)
}

/// Whether block `i` begins and ends within a text of `len` characters.
pub open spec fn in_order(cuts: Seq<int>, len: nat, i: int) -> bool {
    0 <= cuts[i] && cuts[i] <= cuts[i + 1] && cuts[i + 1] <= len
}

/// Block `i` of a text that is parted at `cuts`.
pub open spec fn block(text: Seq<char>, cuts: Seq<int>, i: int) -> Seq<char> {
    text.subrange(cuts[i], cuts[i + 1])
}

/// The text of a report opens with the file and the figures of the whole, and is then one
/// block for each wrapped segment of the input, in their order. A block says of every audio
/// track its sample rate, in front of " Hz", and its number of channels, in front of " ch",
/// and of every video track its width and height, its frame rate and its aspect, as the
/// catalog has them that `decode` gave for the segment. It gives the state of the signature
/// and what is known of the signer as `analyze` found them.
#[verifier::spinoff_prover]
#[verifier::rlimit(60)]
pub proof fn law_report_tells_each_segment<
    'a,
    D: Fn(&[u8]) -> Result<Catalog, Error>,
    A: Fn(&[u8], bool) -> Analysis,
>(
    decode: D,
    analyze: A,
    want_manifests: bool,
    bytes: Seq<u8>,
    file: Seq<char>,
    report: Report,
    color: bool,
) -> (r: (Seq<Segment<'a>>, Seq<int>))
    requires
        reports(decode, analyze, want_manifests, bytes, file, report),
        report.segments@.len() > 0,
    ensures
        ({
            let (segs, cuts) = r;
            let text = human_text(Style { color }, report);
            let n = wrapped_segments(bytes).len();
            &&& data_of(segs) == wrapped_segments(bytes)
            &&& forall|i: int| 0 <= i < n ==> decoded(decode, #[trigger] segs[i])
            &&& parted(text, report_title(color, file, bytes.len(), n), cuts, n)
            &&& forall|i: int| 0 <= i < n ==> {
                let found = Analysis {
                    signing: report.segments@[i].signing,
                    manifests: report.segments@[i].manifests,
                };
                &&& call_ensures(analyze, (#[trigger] segs[i].data, want_manifests), found)
                &&& tells_segment(block(text, cuts, i), color, segs[i], found, (i + 1) as nat, n)
            }
        }),
{
    let st = Style { color };
    let segs = choose|segs: Seq<Segment>|
        {
            &&& #[trigger] data_of(segs) == wrapped_segments(bytes)
            &&& report.segments@.len() == segs.len()
            &&& forall|i: int| 0 <= i < segs.len() ==> decoded(decode, #[trigger] segs[i])
            &&& forall|i: int|
                0 <= i < segs.len() ==> reports_segment(
                    analyze,
                    want_manifests,
                    segs[i],
                    i,
                    #[trigger] report.segments@[i],
                )
        };
    assert(data_of(segs).len() == segs.len());
    let n = segs.len();
    let rs = report.segments@;
    let total = report.segment_count;
    let title = report_title(color, file, bytes.len(), n);
    let text = human_text(st, report);
    let cuts = Seq::new(n + 1, |i: int| segments_text(title, st, rs, total, i).len() as int);
    assert(text == segments_text(title, st, rs, total, n as int));
    assert(segments_text(title, st, rs, total, 0) == title);
    assert forall|i: int| 0 <= i <= n implies goes_on(
        #[trigger] segments_text(title, st, rs, total, i),
        text,
    ) by {
        lemma_blocks_go_on(title, st, analyze, want_manifests, segs, rs, total, i, n as int);
    }
    assert(title == segments_text(title, st, rs, total, 0));
    assert(text.subrange(0, title.len() as int) =~= text.take(title.len() as int));
    assert forall|i: int| 0 <= i < n implies {
        &&& in_order(cuts, text.len(), i)
        &&& reports_segment(analyze, want_manifests, #[trigger] segs[i], i, rs[i])
        &&& tells_segment(
            block(text, cuts, i),
            color,
            segs[i],
            Analysis { signing: rs[i].signing, manifests: rs[i].manifests },
            (i + 1) as nat,
            n,
        )
    } by {
        let a = segments_text(title, st, rs, total, i);
        let b = segments_text(title, st, rs, total, i + 1);
        assert(reports_segment(analyze, want_manifests, segs[i], i, rs[i]));
        assert(b == segment_text(a, st, rs[i], total));
        lemma_segment_behind(a, st, analyze, want_manifests, segs[i], i, rs[i], total);
        assert(goes_on(b, text));
        assert(block(text, cuts, i) =~= behind(a, b));
    }
    assert forall|i: int| 0 <= i < n implies in_order(cuts, text.len(), i) by {
        assert(decoded(decode, segs[i]));
    }
    (segs, cuts)
}

proof fn lemma_blocks_go_on<A: Fn(&[u8], bool) -> Analysis>(
    title: Seq<char>,
    st: Style,
    analyze: A,
    want_manifests: bool,
    segs: Seq<Segment>,
    rs: Seq<SegmentReport>,
    total: usize,
    i: int,
    n: int,
)
    requires
        0 <= i <= n <= rs.len(),
        segs.len() == rs.len(),
        forall|k: int|
            0 <= k < segs.len() ==> reports_segment(
                analyze,
                want_manifests,
                segs[k],
                k,
                #[trigger] rs[k],
            ),
    ensures
        goes_on(
            segments_text(title, st, rs, total, i),
            segments_text(title, st, rs, total, n),
        ),
    decreases n - i,
{
    if i == n {
        lemma_behind_itself(segments_text(title, st, rs, total, i));
    } else {
        lemma_blocks_go_on(title, st, analyze, want_manifests, segs, rs, total, i, n - 1);
        let b = segments_text(title, st, rs, total, n - 1);
        lemma_segment_behind(
            b,
            st,
            analyze,
            want_manifests,
            segs[n - 1],
            n - 1,
            rs[n - 1],
            total,
        );
        lemma_behind_both(
            segments_text(title, st, rs, total, i),
            b,
            segments_text(title, st, rs, total, n),
        );
    }
}

/// The text of a report on an input without a wrapped segment is its first line, with
/// no segment counted, and a line that says that none was found.
pub proof fn law_report_tells_of_no_segment<
    D: Fn(&[u8]) -> Result<Catalog, Error>,
    A: Fn(&[u8], bool) -> Analysis,
>(
    decode: D,
    analyze: A,
    want_manifests: bool,
    bytes: Seq<u8>,
    file: Seq<char>,
    report: Report,
    color: bool,
)
    requires
        reports(decode, analyze, want_manifests, bytes, file, report),
        wrapped_segments(bytes).len() == 0,
    ensures
        human_text(Style { color }, report) == report_title(color, file, bytes.len(), 0)
            + "  "@ + set_off(color, "33"@, "no canonical segments found"@) + "\n"@,
{
    assert forall|segs: Seq<Segment>| #[trigger] data_of(segs).len() == segs.len() by {}
    assert(report.segments@.len() == 0);
}

proof fn lemma_begins(name: Seq<char>, rest: Seq<char>)
    requires
        forall|i: int| 0 <= i < name.len() ==> ascii_lower(#[trigger] name[i]) == name[i],
    ensures
        begins_with(name + rest, name),
{
    let t = (name + rest).take(name.len() as int).map_values(|c: char| ascii_lower(c));
    assert(t =~= name);
}

proof fn lemma_begins_not(s: Seq<char>, name: Seq<char>, i: int)
    requires
        0 <= i < name.len(),
        i < s.len() ==> ascii_lower(s[i]) != name[i],
    ensures
        !begins_with(s, name),
{
    if begins_with(s, name) {
        let t = s.take(name.len() as int).map_values(|c: char| ascii_lower(c));
        assert(t[i] == ascii_lower(s[i]));
    }
}

/// The name of a video codec is that of its family, whatever follows the four characters and
/// the dot that tell the family.
pub proof fn law_codecs_are_named_by_family(rest: Seq<char>)
    ensures
        friendly("avc1."@ + rest) == Some("H.264 / AVC"@),
        friendly("avc3."@ + rest) == Some("H.264 / AVC"@),
        friendly("hev1."@ + rest) == Some("H.265 / HEVC"@),
        friendly("hvc1."@ + rest) == Some("H.265 / HEVC"@),
        friendly("av01."@ + rest) == Some("AV1"@),
        friendly("vp09."@ + rest) == Some("VP9"@),
        friendly("vp08."@ + rest) == Some("VP8"@),
        friendly("mp4a.40."@ + rest) == Some("AAC"@),
{
    reveal_strlit("avc1.");
    reveal_strlit("avc3.");
    reveal_strlit("hev1.");
    reveal_strlit("hvc1.");
    reveal_strlit("av01.");
    reveal_strlit("vp09.");
    reveal_strlit("vp08.");
    reveal_strlit("vp9");
    reveal_strlit("vp8");
    reveal_strlit("mp4a.40.");
    lemma_begins("avc1."@, rest);
    lemma_begins("avc3."@, rest);
    lemma_begins("hev1."@, rest);
    lemma_begins("hvc1."@, rest);
    lemma_begins("av01."@, rest);
    lemma_begins("vp09."@, rest);
    lemma_begins("vp08."@, rest);
    lemma_begins("mp4a.40."@, rest);
    lemma_begins_not("hev1."@ + rest, "avc1."@, 0);
    lemma_begins_not("hev1."@ + rest, "avc3."@, 0);
    lemma_begins_not("hvc1."@ + rest, "avc1."@, 0);
    lemma_begins_not("hvc1."@ + rest, "avc3."@, 0);
    lemma_other_family("av01."@ + rest);
    lemma_begins_not("av01."@ + rest, "hev1."@, 0);
    lemma_begins_not("av01."@ + rest, "hvc1."@, 0);
    lemma_other_family("vp09."@ + rest);
    lemma_begins_not("vp09."@ + rest, "hev1."@, 0);
    lemma_begins_not("vp09."@ + rest, "hvc1."@, 0);
    lemma_begins_not("vp09."@ + rest, "av01."@, 0);
    lemma_other_family("vp08."@ + rest);
    lemma_begins_not("vp08."@ + rest, "hev1."@, 0);
    lemma_begins_not("vp08."@ + rest, "hvc1."@, 0);
    lemma_begins_not("vp08."@ + rest, "av01."@, 0);
    lemma_begins_not("vp08."@ + rest, "vp09."@, 3);
    lemma_begins_not("vp08."@ + rest, "vp9"@, 2);
    let m = "mp4a.40."@ + rest;
    lemma_other_family(m);
    lemma_begins_not(m, "hev1."@, 0);
    lemma_begins_not(m, "hvc1."@, 0);
    lemma_begins_not(m, "av01."@, 0);
    lemma_begins_not(m, "vp09."@, 0);
    lemma_begins_not(m, "vp9"@, 0);
    lemma_begins_not(m, "vp08."@, 0);
    lemma_begins_not(m, "vp8"@, 0);
}

proof fn lemma_other_family(s: Seq<char>)
    requires
        s.len() > 2 && ascii_lower(s[2]) != 'c',
    ensures
        !begins_with(s, "avc1."@),
        !begins_with(s, "avc3."@),
{
    reveal_strlit("avc1.");
    reveal_strlit("avc3.");
    lemma_begins_not(s, "avc1."@, 2);
    lemma_begins_not(s, "avc3."@, 2);
}

/// Two codecs that differ in the case of ASCII letters alone have one name.
pub proof fn law_codec_case_does_not_matter(a: Seq<char>, b: Seq<char>)
    requires
        a.len() == b.len(),
        forall|i: int| 0 <= i < a.len() ==> ascii_lower(#[trigger] a[i]) == ascii_lower(b[i]),
    ensures
        friendly(a) == friendly(b),
{
    assert forall|name: Seq<char>| #[trigger] begins_with(a, name) == begins_with(b, name) by {
        if a.len() >= name.len() {
            let n = name.len() as int;
            assert(a.take(n).map_values(|c: char| ascii_lower(c)) =~= b.take(n).map_values(
                |c: char| ascii_lower(c),
            ));
        }
    }
}

} // verus!
