//! What the playlists say.
//!
//! A media playlist lists the byte range of every segment. A master playlist names for every
//! rendition the file that its media playlist is written to.

use vstd::prelude::*;

use crate::catalog::{AudioConfig, Catalog, VideoConfig};
use crate::hls::{
    aac_from, audio_at, audio_from, audio_line, audio_lines, default_audio, described, is_aac,
    is_audio, is_video, master_text, media_name, media_text, segment_lines, video_at, video_line,
    video_lines, BlobSegment, BlobTrackView, Rate, TrackEntry,
};
use crate::keymap::KeyMap;
use crate::reports::{
    behind, block, goes_on, has_part, in_order, lemma_behind_both, lemma_behind_itself,
    lemma_behind_joined, lemma_five_adds, lemma_has_itself, lemma_has_joined, lemma_one_adds, parted,     within,
};
use crate::text::decimal;

verus! {

/// What a media playlist says of a segment of the flat MP4 `blob`: how long it lasts, in
/// seconds, how many bytes it has, and behind "@" the offset of the first of them.
pub open spec fn byte_range(blob: Seq<char>, s: BlobSegment, seconds: Seq<char>) -> Seq<char> {
    "#EXTINF:"@ + seconds + ",\n#EXT-X-BYTERANGE:"@ + (decimal(s.size as nat) + "@"@ + decimal(
        s.offset as nat,
    )) + "\n"@ + (blob + ".mp4\n"@)
}

/// What a media playlist opens with: how long a segment lasts at most, and the file of the
/// init segment.
pub open spec fn playlist_head(target: nat, init: Seq<char>) -> Seq<char> {
    "#EXTM3U\n#EXT-X-VERSION:6\n#EXT-X-PLAYLIST-TYPE:VOD\n#EXT-X-INDEPENDENT-SEGMENTS\n#EXT-X-TARGETDURATION:"@
        + decimal(target) + "\n#EXT-X-MEDIA-SEQUENCE:0\n#EXT-X-MAP:URI=\""@ + init + ".mp4\"\n\n"@
}

proof fn lemma_segment_line(out: Seq<char>, t: BlobTrackView, durations: Seq<String>, n: int)
    requires
        n > 0,
    ensures
        segment_lines(out, t, durations, n) == segment_lines(out, t, durations, n - 1)
            + byte_range(t.blob_cid, t.segments[n - 1], durations[n - 1]@),
{
    let before = segment_lines(out, t, durations, n - 1);
    let s = t.segments[n - 1];
    let a = "#EXTINF:"@;
    let b = durations[n - 1]@;
    let c = ",\n#EXT-X-BYTERANGE:"@;
    let size = decimal(s.size as nat);
    let offset = decimal(s.offset as nat);
    let none = Seq::<char>::empty();
    let mid = size + "@"@ + offset;
    let x = before + a + b + c;
    assert(x + size + "@"@ + offset =~= x + mid);
    let y = x + mid + "\n"@;
    assert(y + t.blob_cid + ".mp4\n"@ =~= y + (t.blob_cid + ".mp4\n"@));
    lemma_five_adds(before, a, b, c, mid, "\n"@);
    assert(none + a =~= a);
    lemma_one_adds(before, a + b + c + mid + "\n"@, t.blob_cid + ".mp4\n"@);
}

proof fn lemma_lines_go_on(
    out: Seq<char>,
    t: BlobTrackView,
    durations: Seq<String>,
    i: int,
    n: int,
)
    requires
        0 <= i <= n,
    ensures
        goes_on(segment_lines(out, t, durations, i), segment_lines(out, t, durations, n)),
    decreases n - i,
{
    let a = segment_lines(out, t, durations, i);
    if i == n {
        lemma_behind_itself(a);
    } else {
        lemma_lines_go_on(out, t, durations, i, n - 1);
        let b = segment_lines(out, t, durations, n - 1);
        lemma_segment_line(out, t, durations, n);
        lemma_behind_joined(b, byte_range(t.blob_cid, t.segments[n - 1], durations[n - 1]@));
        lemma_behind_both(a, b, segment_lines(out, t, durations, n));
    }
}

proof fn lemma_block(head: Seq<char>, t: BlobTrackView, durations: Seq<String>, i: int)
    requires
        0 <= i < t.segments.len(),
    ensures
        ({
            let n = t.segments.len() as int;
            let from = segment_lines(head, t, durations, i).len();
            let to = segment_lines(head, t, durations, i + 1).len();
            let all = segment_lines(head, t, durations, n);
            let text = all + "#EXT-X-ENDLIST\n"@;
            &&& from <= to <= all.len()
            &&& text.subrange(from as int, to as int) == byte_range(
                t.blob_cid,
                t.segments[i],
                durations[i]@,
            )
        }),
{
    let n = t.segments.len() as int;
    let a = segment_lines(head, t, durations, i);
    let b = segment_lines(head, t, durations, i + 1);
    let all = segment_lines(head, t, durations, n);
    let text = all + "#EXT-X-ENDLIST\n"@;
    let w = byte_range(t.blob_cid, t.segments[i], durations[i]@);
    lemma_segment_line(head, t, durations, i + 1);
    lemma_lines_go_on(head, t, durations, i + 1, n);
    lemma_subrange(a, w, all, "#EXT-X-ENDLIST\n"@);
}

proof fn lemma_subrange(a: Seq<char>, w: Seq<char>, all: Seq<char>, tail: Seq<char>)
    requires
        goes_on(a + w, all),
    ensures
        (all + tail).subrange(a.len() as int, (a + w).len() as int) == w,
{
    let b = a + w;
    assert(all.take(b.len() as int) == b);
    assert forall|k: int| 0 <= k < w.len() implies (all + tail)[a.len() + k] == w[k] by {
        assert(all[a.len() + k] == all.take(b.len() as int)[a.len() + k]);
    }
    assert((all + tail).subrange(a.len() as int, b.len() as int) =~= w);
}

/// A media playlist opens with the target duration and the file of the init segment, has
/// the byte range of every segment in their order, in the track's flat MP4, and then ends.
pub proof fn law_media_playlist_lists_the_segments(
    t: BlobTrackView,
    target: u64,
    durations: Seq<String>,
) -> (cuts: Seq<int>)
    requires
        durations.len() == t.segments.len(),
    ensures
        ({
            let text = media_text(t, target, durations);
            let n = t.segments.len();
            let end = text.len() - "#EXT-X-ENDLIST\n"@.len();
            &&& 0 <= end
            &&& text.skip(end) == "#EXT-X-ENDLIST\n"@
            &&& parted(text.take(end), playlist_head(target as nat, t.init_cid), cuts, n)
            &&& forall|i: int|
                0 <= i < n ==> block(text, cuts, i) == byte_range(
                    t.blob_cid,
                    #[trigger] t.segments[i],
                    durations[i]@,
                )
        }),
{
    let n = t.segments.len();
    let head = playlist_head(target as nat, t.init_cid);
    let all = segment_lines(head, t, durations, n as int);
    let text = media_text(t, target, durations);
    let len = all.len();
    let end = len as int;
    assert(text == all + "#EXT-X-ENDLIST\n"@);
    assert(text.take(end) =~= all);
    assert(text.skip(end) =~= "#EXT-X-ENDLIST\n"@);
    let cuts = Seq::new(n + 1, |i: int| segment_lines(head, t, durations, i).len() as int);
    assert(segment_lines(head, t, durations, 0) == head);
    lemma_lines_go_on(head, t, durations, 0, n as int);
    assert(all.subrange(0, head.len() as int) =~= all.take(head.len() as int));
    assert forall|i: int| 0 <= i < n implies {
        &&& #[trigger] in_order(cuts, len, i)
        &&& block(text, cuts, i) == byte_range(t.blob_cid, t.segments[i], durations[i]@)
    } by {
        lemma_block(head, t, durations, i);
    }
    assert forall|i: int| 0 <= i < n implies block(text, cuts, i) == byte_range(
        t.blob_cid,
        #[trigger] t.segments[i],
        durations[i]@,
    ) by {
        assert(in_order(cuts, len, i));
    }
    cuts
}

/// The default audio track is an audio track. It is an AAC track where there is any, and
/// none of the kind that was looked for comes before it. There is none only where there is
/// no audio.
pub proof fn law_default_audio_is_aac_first(es: Seq<TrackEntry>)
    ensures
        match default_audio(es) {
            Some(k) => {
                &&& 0 <= k < es.len()
                &&& is_audio(es[k])
                &&& (exists|i: int| 0 <= i < es.len() && is_aac(#[trigger] es[i])) ==> is_aac(
                    es[k],
                )
                &&& forall|i: int|
                    0 <= i < k ==> if is_aac(es[k]) {
                        !is_aac(#[trigger] es[i])
                    } else {
                        !is_audio(es[i])
                    }
            },
            None => forall|i: int| 0 <= i < es.len() ==> !is_audio(#[trigger] es[i]),
        },
{
    lemma_aac_from(es, 0);
    lemma_audio_from(es, 0);
}

proof fn lemma_aac_from(es: Seq<TrackEntry>, i: int)
    requires
        0 <= i <= es.len(),
    ensures
        match aac_from(es, i) {
            Some(k) => i <= k < es.len() && is_aac(es[k]) && forall|j: int|
                i <= j < k ==> !is_aac(#[trigger] es[j]),
            None => forall|j: int| i <= j < es.len() ==> !is_aac(#[trigger] es[j]),
        },
    decreases es.len() - i,
{
    if i < es.len() && !is_aac(es[i]) {
        lemma_aac_from(es, i + 1);
    }
}

proof fn lemma_audio_from(es: Seq<TrackEntry>, i: int)
    requires
        0 <= i <= es.len(),
    ensures
        match audio_from(es, i) {
            Some(k) => i <= k < es.len() && is_audio(es[k]) && forall|j: int|
                i <= j < k ==> !is_audio(#[trigger] es[j]),
            None => forall|j: int| i <= j < es.len() ==> !is_audio(#[trigger] es[j]),
        },
    decreases es.len() - i,
{
    if i < es.len() && !is_audio(es[i]) {
        lemma_audio_from(es, i + 1);
    }
}

/// What a master playlist says of an audio rendition whose media playlist is in `file`.
pub open spec fn audio_words(
    file: Seq<char>,
    codec: Seq<char>,
    channels: nat,
    is_default: bool,
) -> Seq<char> {
    "#EXT-X-MEDIA:TYPE=AUDIO,GROUP-ID=\"audio\",NAME=\""@ + codec + ("\",DEFAULT="@ + (if is_default {
        "YES"@
    } else {
        "NO"@
    }) + ",AUTOSELECT=YES"@) + (",CHANNELS=\""@ + decimal(channels) + "\""@) + (",URI=\""@ + file
        + "\"\n"@)
}

/// What a master playlist says of a video rendition whose media playlist is in `file`.
pub open spec fn video_words(
    file: Seq<char>,
    codec: Seq<char>,
    audio_codec: Seq<char>,
    width: nat,
    height: nat,
    bandwidth: nat,
    frame_rate: Seq<char>,
) -> Seq<char> {
    "#EXT-X-STREAM-INF:AUDIO=\"audio\",BANDWIDTH="@ + decimal(bandwidth) + (",CODECS=\""@ + codec
        + ","@ + audio_codec + "\""@) + (",RESOLUTION="@ + decimal(width) + "x"@ + decimal(height))
        + (",FRAME-RATE="@ + frame_rate + "\n"@ + file + "\n"@)
}

proof fn lemma_names_split()
    ensures
        ".m3u8\"\n"@ == ".m3u8"@ + "\"\n"@,
        ".m3u8\n"@ == ".m3u8"@ + "\n"@,
{
    reveal_strlit(".m3u8\"\n");
    reveal_strlit(".m3u8\n");
    reveal_strlit(".m3u8");
    reveal_strlit("\"\n");
    reveal_strlit("\n");
    assert(".m3u8\"\n"@ =~= ".m3u8"@ + "\"\n"@);
    assert(".m3u8\n"@ =~= ".m3u8"@ + "\n"@);
}

proof fn lemma_media_split()
    ensures
        ",AUTOSELECT=YES,CHANNELS=\""@ == ",AUTOSELECT=YES"@ + ",CHANNELS=\""@,
        "\",URI=\""@ == "\""@ + ",URI=\""@,
{
    reveal_strlit(",AUTOSELECT=YES,CHANNELS=\"");
    reveal_strlit(",AUTOSELECT=YES");
    reveal_strlit(",CHANNELS=\"");
    reveal_strlit("\",URI=\"");
    reveal_strlit("\"");
    reveal_strlit(",URI=\"");
    assert(",AUTOSELECT=YES,CHANNELS=\""@ =~= ",AUTOSELECT=YES"@ + ",CHANNELS=\""@);
    assert("\",URI=\""@ =~= "\""@ + ",URI=\""@);
}

proof fn lemma_stream_split()
    ensures
        "\",RESOLUTION="@ == "\""@ + ",RESOLUTION="@,
{
    reveal_strlit("\",RESOLUTION=");
    reveal_strlit("\"");
    reveal_strlit(",RESOLUTION=");
    assert("\",RESOLUTION="@ =~= "\""@ + ",RESOLUTION="@);
}

proof fn lemma_join3(x: Seq<char>, a: Seq<char>, b: Seq<char>, c: Seq<char>)
    ensures
        x + a + b + c == x + (a + b + c),
{
    assert(x + a + b + c =~= x + (a + b + c));
}

proof fn lemma_join2(x: Seq<char>, a: Seq<char>, b: Seq<char>)
    ensures
        x + a + b == x + (a + b),
{
    assert(x + a + b =~= x + (a + b));
}

proof fn lemma_audio_line(out: Seq<char>, cid: Seq<char>, e: TrackEntry, is_default: bool)
    requires
        is_audio(e),
    ensures
        audio_line(out, cid, e, is_default) == out + audio_words(
            media_name(cid, e),
            e.track.codec@,
            e.track.channels as nat,
            is_default,
        ),
{
    lemma_names_split();
    lemma_media_split();
    reveal_strlit("audio");
    reveal_strlit("video");
    assert("audio"@[0] == 'a' && "video"@[0] == 'v');
    assert(!is_video(e));
    let a = "#EXT-X-MEDIA:TYPE=AUDIO,GROUP-ID=\"audio\",NAME=\""@;
    let codec = e.track.codec@;
    let d = "\",DEFAULT="@;
    let y = if is_default {
        "YES"@
    } else {
        "NO"@
    };
    let f = ",AUTOSELECT=YES"@;
    let g = ",CHANNELS=\""@;
    let ch = decimal(e.track.channels as nat);
    let q = "\""@;
    let u = ",URI=\""@;
    let k = e.key@;
    let file = media_name(cid, e);
    let x1 = out + a + codec;
    lemma_join2(x1 + d + y, f, g);
    lemma_join3(x1, d, y, f);
    let x2 = x1 + (d + y + f);
    lemma_join2(x2 + g + ch, q, u);
    lemma_join3(x2, g, ch, q);
    let x3 = x2 + (g + ch + q);
    lemma_join2(x3 + u + cid + ".audio-"@ + k, ".m3u8"@, "\"\n"@);
    let file2 = cid + ".audio-"@ + k + ".m3u8"@;
    assert(file == file2);
    assert(x3 + u + cid + ".audio-"@ + k + ".m3u8"@ =~= x3 + u + file2);
    lemma_join3(x3, u, file, "\"\n"@);
    let none = Seq::<char>::empty();
    lemma_five_adds(out, a, codec, d + y + f, g + ch + q, u + file + "\"\n"@);
    assert(none + a =~= a);
}

proof fn lemma_video_line(
    out: Seq<char>,
    cid: Seq<char>,
    e: TrackEntry,
    audio_codec: Seq<char>,
    rate: Rate,
)
    requires
        is_video(e),
    ensures
        video_line(out, cid, e, audio_codec, rate) == out + video_words(
            media_name(cid, e),
            e.track.codec@,
            audio_codec,
            e.track.width as nat,
            e.track.height as nat,
            rate.bandwidth as nat,
            rate.frame_rate@,
        ),
{
    lemma_names_split();
    lemma_stream_split();
    let a = "#EXT-X-STREAM-INF:AUDIO=\"audio\",BANDWIDTH="@;
    let bw = decimal(rate.bandwidth as nat);
    let c = ",CODECS=\""@;
    let codec = e.track.codec@;
    let q = "\""@;
    let r = ",RESOLUTION="@;
    let w = decimal(e.track.width as nat);
    let h = decimal(e.track.height as nat);
    let fr = ",FRAME-RATE="@;
    let k = e.key@;
    let file = media_name(cid, e);
    let x1 = out + a + bw;
    let codecs = c + codec + ","@ + audio_codec + q;
    lemma_join2(x1 + c + codec + ","@ + audio_codec, q, r);
    assert(x1 + c + codec + ","@ + audio_codec + q =~= x1 + codecs);
    let x2 = x1 + codecs;
    let size = r + w + "x"@ + h;
    assert(x2 + r + w + "x"@ + h =~= x2 + size);
    let x3 = x2 + size;
    let x4 = x3 + fr + rate.frame_rate@ + "\n"@;
    let file2 = cid + ".video-"@ + k + ".m3u8"@;
    assert(file == file2);
    lemma_join2(x4 + cid + ".video-"@ + k, ".m3u8"@, "\n"@);
    assert(x4 + cid + ".video-"@ + k + ".m3u8"@ =~= x4 + file2);
    let tail = fr + rate.frame_rate@ + "\n"@ + file + "\n"@;
    assert(x3 + fr + rate.frame_rate@ + "\n"@ + file + "\n"@ =~= x3 + tail);
    let none = Seq::<char>::empty();
    lemma_five_adds(out, a, bw, codecs, size, tail);
    assert(none + a =~= a);
}

proof fn lemma_audio_lines(
    out: Seq<char>,
    cid: Seq<char>,
    es: Seq<TrackEntry>,
    default_key: Option<Seq<char>>,
    n: int,
)
    requires
        0 <= n <= es.len(),
    ensures
        goes_on(out, audio_lines(out, cid, es, default_key, n)),
        forall|i: int|
            0 <= i < n && is_audio(#[trigger] es[i]) ==> has_part(
                behind(out, audio_lines(out, cid, es, default_key, n)),
                audio_words(
                    media_name(cid, es[i]),
                    es[i].track.codec@,
                    es[i].track.channels as nat,
                    default_key == Some(es[i].key@),
                ),
            ),
    decreases n,
{
    lemma_behind_itself(out);
    if n > 0 {
        lemma_audio_lines(out, cid, es, default_key, n - 1);
        let a = audio_lines(out, cid, es, default_key, n - 1);
        let e = es[n - 1];
        if is_audio(e) {
            let w = audio_words(
                media_name(cid, e),
                e.track.codec@,
                e.track.channels as nat,
                default_key == Some(e.key@),
            );
            lemma_audio_line(a, cid, e, default_key == Some(e.key@));
            lemma_behind_joined(a, w);
            lemma_has_itself(w);
            lemma_behind_both(out, a, a + w);
        }
    }
}

proof fn lemma_video_lines(
    out: Seq<char>,
    cid: Seq<char>,
    es: Seq<TrackEntry>,
    audio_codec: Seq<char>,
    rates: Seq<Rate>,
    n: int,
)
    requires
        0 <= n <= es.len(),
        rates.len() == es.len(),
    ensures
        goes_on(out, video_lines(out, cid, es, audio_codec, rates, n)),
        forall|i: int|
            0 <= i < n && is_video(#[trigger] es[i]) ==> has_part(
                behind(out, video_lines(out, cid, es, audio_codec, rates, n)),
                video_words(
                    media_name(cid, es[i]),
                    es[i].track.codec@,
                    audio_codec,
                    es[i].track.width as nat,
                    es[i].track.height as nat,
                    rates[i].bandwidth as nat,
                    rates[i].frame_rate@,
                ),
            ),
    decreases n,
{
    lemma_behind_itself(out);
    if n > 0 {
        lemma_video_lines(out, cid, es, audio_codec, rates, n - 1);
        let a = video_lines(out, cid, es, audio_codec, rates, n - 1);
        let e = es[n - 1];
        if is_video(e) {
            let w = video_words(
                media_name(cid, e),
                e.track.codec@,
                audio_codec,
                e.track.width as nat,
                e.track.height as nat,
                rates[n - 1].bandwidth as nat,
                rates[n - 1].frame_rate@,
            );
            lemma_video_line(a, cid, e, audio_codec, rates[n - 1]);
            lemma_behind_joined(a, w);
            lemma_has_itself(w);
            lemma_behind_both(out, a, a + w);
        }
    }
}

/// A master playlist names every audio rendition, with its codec, how many channels it has
/// and the file that its media playlist is written to, and every video rendition, with its
/// width and height, its rates, its codec and that of the default audio track. The default
/// audio track is marked, and so is no track with another key.
pub proof fn law_master_playlist_names_the_renditions(
    cid: Seq<char>,
    es: Seq<TrackEntry>,
    rates: Seq<Rate>,
)
    requires
        rates.len() == es.len(),
    ensures
        ({
            let text = master_text(cid, es, rates);
            &&& goes_on("#EXTM3U\n#EXT-X-VERSION:6\n\n"@, text)
            &&& forall|i: int|
                0 <= i < es.len() && is_audio(#[trigger] es[i]) ==> has_part(
                    text,
                    audio_words(
                        media_name(cid, es[i]),
                        es[i].track.codec@,
                        es[i].track.channels as nat,
                        default_audio(es) matches Some(k) && es[k].key@ == es[i].key@,
                    ),
                )
            &&& forall|i: int|
                0 <= i < es.len() && is_video(#[trigger] es[i]) ==> has_part(
                    text,
                    video_words(
                        media_name(cid, es[i]),
                        es[i].track.codec@,
                        match default_audio(es) {
                            Some(k) => es[k].track.codec@,
                            None => "mp4a.40.2"@,
                        },
                        es[i].track.width as nat,
                        es[i].track.height as nat,
                        rates[i].bandwidth as nat,
                        rates[i].frame_rate@,
                    ),
                )
        }),
{
    let lead = default_audio(es);
    let default_key = match lead {
        Some(i) => Some(es[i].key@),
        None => None,
    };
    let audio_codec = match lead {
        Some(i) => es[i].track.codec@,
        None => "mp4a.40.2"@,
    };
    let n = es.len() as int;
    let head = "#EXTM3U\n#EXT-X-VERSION:6\n\n"@;
    let a = audio_lines(head, cid, es, default_key, n);
    lemma_audio_lines(head, cid, es, default_key, n);
    let b = a + "\n"@;
    lemma_behind_joined(a, "\n"@);
    let text = master_text(cid, es, rates);
    lemma_video_lines(b, cid, es, audio_codec, rates, n);
    lemma_behind_both(a, b, text);
    lemma_behind_both(head, a, text);
    lemma_behind_both(head, a, b);
    lemma_behind_both(head, b, text);
    assert(text =~= head + behind(head, text));
    assert forall|part: Seq<char>| has_part(behind(head, text), part) implies #[trigger] has_part(
        text,
        part,
    ) by {
        lemma_has_joined(head, behind(head, text), part);
    }
    assert(within(behind(head, a), behind(head, text)));
    assert(within(behind(b, text), behind(head, text)));
    assert forall|i: int| 0 <= i < es.len() && is_audio(#[trigger] es[i]) implies has_part(
        text,
        audio_words(
            media_name(cid, es[i]),
            es[i].track.codec@,
            es[i].track.channels as nat,
            lead matches Some(k) && es[k].key@ == es[i].key@,
        ),
    ) by {
        assert((default_key == Some(es[i].key@)) == (lead matches Some(k) && es[k].key@
            == es[i].key@));
    }
}

/// The figures of a track are those of the first video rendition with its id, or else those
/// of the first audio rendition.
pub proof fn law_track_is_described_as_listed(c: &Catalog, tid: u32)
    ensures
        ({
            let d = described(c, tid);
            &&& c.video matches Some(v) ==> forall|i: int|
                #[trigger] is_first_video(v.renditions, tid, i) ==> {
                    let f = v.renditions.nth(i);
                    &&& d.track_type == "video"@ && d.codec == f.codec@
                    &&& d.width == f.coded_width && d.height == f.coded_height
                    &&& d.channels == 0 && d.sample_rate == 0
                }
            &&& no_video(c, tid) ==> (c.audio matches Some(a) ==> forall|i: int|
                #[trigger] is_first_audio(a.renditions, tid, i) ==> {
                    let f = a.renditions.nth(i);
                    &&& d.track_type == "audio"@ && d.codec == f.codec@
                    &&& d.channels == f.number_of_channels && d.sample_rate == f.sample_rate
                    &&& d.width == 0 && d.height == 0
                })
            &&& no_video(c, tid) && no_audio(c, tid) ==> d.track_type == "unknown"@ && d.codec
                == ""@
        }),
{
    if let Some(v) = c.video {
        lemma_video_at(v.renditions, tid, 0);
        assert forall|i: int| #[trigger] is_first_video(v.renditions, tid, i) implies video_at(
            v.renditions,
            tid,
            0,
        ) == Some(i) by {
            let k = video_at(v.renditions, tid, 0)->Some_0;
            assert(v.renditions.nth(i).track_id == tid);
            if k < i {
                assert(v.renditions.nth(k).track_id == tid);
            }
        }
    }
    if let Some(a) = c.audio {
        lemma_audio_at(a.renditions, tid, 0);
        assert forall|i: int| #[trigger] is_first_audio(a.renditions, tid, i) implies audio_at(
            a.renditions,
            tid,
            0,
        ) == Some(i) by {
            let k = audio_at(a.renditions, tid, 0)->Some_0;
            assert(a.renditions.nth(i).track_id == tid);
            if k < i {
                assert(a.renditions.nth(k).track_id == tid);
            }
        }
    }
}

/// Whether rendition `i` is the first of the track `tid`.
pub open spec fn is_first_video(m: KeyMap<VideoConfig>, tid: u32, i: int) -> bool {
    &&& 0 <= i < m.order().len()
    &&& m.nth(i).track_id == tid
    &&& forall|j: int| 0 <= j < i ==> #[trigger] m.nth(j).track_id != tid
}

/// Whether rendition `i` is the first of the track `tid`.
pub open spec fn is_first_audio(m: KeyMap<AudioConfig>, tid: u32, i: int) -> bool {
    &&& 0 <= i < m.order().len()
    &&& m.nth(i).track_id == tid
    &&& forall|j: int| 0 <= j < i ==> #[trigger] m.nth(j).track_id != tid
}

/// Whether no video rendition is of the track `tid`.
pub open spec fn no_video(c: &Catalog, tid: u32) -> bool {
    c.video matches Some(v) ==> forall|j: int|
        0 <= j < v.renditions.order().len() ==> #[trigger] v.renditions.nth(j).track_id != tid
}

/// Whether no audio rendition is of the track `tid`.
pub open spec fn no_audio(c: &Catalog, tid: u32) -> bool {
    c.audio matches Some(a) ==> forall|j: int|
        0 <= j < a.renditions.order().len() ==> #[trigger] a.renditions.nth(j).track_id != tid
}

proof fn lemma_video_at(m: KeyMap<VideoConfig>, tid: u32, i: int)
    requires
        0 <= i <= m.order().len(),
    ensures
        match video_at(m, tid, i) {
            Some(k) => i <= k < m.order().len() && m.nth(k).track_id == tid && forall|j: int|
                i <= j < k ==> #[trigger] m.nth(j).track_id != tid,
            None => forall|j: int|
                i <= j < m.order().len() ==> #[trigger] m.nth(j).track_id != tid,
        },
    decreases m.order().len() - i,
{
    if i < m.order().len() && m.nth(i).track_id != tid {
        lemma_video_at(m, tid, i + 1);
    }
}

proof fn lemma_audio_at(m: KeyMap<AudioConfig>, tid: u32, i: int)
    requires
        0 <= i <= m.order().len(),
    ensures
        match audio_at(m, tid, i) {
            Some(k) => i <= k < m.order().len() && m.nth(k).track_id == tid && forall|j: int|
                i <= j < k ==> #[trigger] m.nth(j).track_id != tid,
            None => forall|j: int|
                i <= j < m.order().len() ==> #[trigger] m.nth(j).track_id != tid,
        },
    decreases m.order().len() - i,
{
    if i < m.order().len() && m.nth(i).track_id != tid {
        lemma_audio_at(m, tid, i + 1);
    }
}

} // verus!
