//! What the names and the lines about segments tell apart, and what they say.

use vstd::prelude::*;

use crate::catalog::{AudioConfig, Catalog, VideoConfig};
use crate::cid::{blake3_digest, cid_text};
use crate::cli::{
    audio_lines, by_track, cid_line, count_of, fmp4_line, gop_line, init_line, init_name, ordinal,
    part_line, remap_pair, remapping, segment_line, segment_name, space_padded, video_lines,
    wrapped_line, zero_padded,
};
use crate::reports::{goes_on, has_part, lemma_has_itself, lemma_has_wider};
use crate::segment::{gop_size, GopView};
use crate::sign::signed_line;
use crate::text::{
    char_from, decimal, digits_value, is_digit, law_decimal_injective,
    law_decimal_parses, parsed_u32, trimmed, white_after, white_before, NumberFault,
};

verus! {

/// The segments of a track are counted from 0, one by one: the first has no other before
/// it, and each is one above the one before it of its track.
pub proof fn law_ordinals_count_up(ids: Seq<u32>, i: int, j: int)
    requires
        0 <= i < j < ids.len(),
        ids[i] == ids[j],
    ensures
        ordinal(ids, i) < ordinal(ids, j),
        (forall|k: int| i < k < j ==> #[trigger] ids[k] != ids[j]) ==> ordinal(ids, j) == ordinal(
            ids,
            i,
        ) + 1,
        (forall|k: int| 0 <= k < i ==> #[trigger] ids[k] != ids[i]) ==> ordinal(ids, i) == 0,
{
    let t = ids[i];
    lemma_counts(ids, t, i + 1, j);
    lemma_counts(ids, t, 0, i);
    assert(ids.take(i + 1).drop_last() =~= ids.take(i));
    assert(ids.take(0) =~= seq![]);
}

proof fn lemma_counts(ids: Seq<u32>, t: u32, i: int, j: int)
    requires
        0 <= i <= j <= ids.len(),
    ensures
        count_of(ids.take(i), t) <= count_of(ids.take(j), t),
        (forall|k: int| i <= k < j ==> #[trigger] ids[k] != t) ==> count_of(ids.take(i), t)
            == count_of(ids.take(j), t),
    decreases j - i,
{
    if i < j {
        lemma_counts(ids, t, i, j - 1);
        assert(ids.take(j).drop_last() =~= ids.take(j - 1));
        assert(ids.take(j).last() == ids[j - 1]);
    }
}

proof fn lemma_all_digits(n: nat)
    ensures
        decimal(n).len() > 0,
        forall|i: int| 0 <= i < decimal(n).len() ==> is_digit(#[trigger] decimal(n)[i]),
    decreases n,
{
    if n >= 10 {
        lemma_all_digits(n / 10);
    }
}

/// Two texts with digits and then something else in front begin with the same digits.
proof fn lemma_same_digits(a: Seq<char>, x: Seq<char>, b: Seq<char>, y: Seq<char>)
    requires
        forall|i: int| 0 <= i < a.len() ==> is_digit(#[trigger] a[i]),
        forall|i: int| 0 <= i < b.len() ==> is_digit(#[trigger] b[i]),
        x.len() > 0 && !is_digit(x[0]),
        y.len() > 0 && !is_digit(y[0]),
        a + x == b + y,
    ensures
        a == b,
        x == y,
{
    let s = a + x;
    if a.len() < b.len() {
        assert(s[a.len() as int] == x[0]);
        assert((b + y)[a.len() as int] == b[a.len() as int]);
    }
    if b.len() < a.len() {
        assert((b + y)[b.len() as int] == y[0]);
        assert(s[b.len() as int] == a[b.len() as int]);
    }
    assert(a =~= s.take(a.len() as int));
    assert(b =~= (b + y).take(b.len() as int));
    assert(x =~= s.skip(a.len() as int));
    assert(y =~= (b + y).skip(b.len() as int));
}

proof fn lemma_zero_in_front(s: Seq<char>)
    requires
        s.len() > 0,
    ensures
        digits_value(0, seq!['0'] + s) == digits_value(0, s),
{
    let t = seq!['0'] + s;
    assert(t.skip(1) =~= s);
    assert(t[0] == '0');
}

proof fn lemma_zero_padded(n: u32)
    ensures
        digits_value(0, zero_padded(n as nat)) == Ok::<u32, NumberFault>(n),
        forall|i: int|
            0 <= i < zero_padded(n as nat).len() ==> is_digit(#[trigger] zero_padded(n as nat)[i]),
{
    let d = decimal(n as nat);
    lemma_all_digits(n as nat);
    law_decimal_parses(n);
    assert(is_digit(d[0]));
    reveal_strlit("000");
    reveal_strlit("00");
    reveal_strlit("0");
    let z = seq!['0'];
    assert("0"@ =~= z);
    assert("00"@ =~= z + z);
    assert("000"@ =~= z + (z + z));
    lemma_zero_in_front(d);
    lemma_zero_in_front(z + d);
    lemma_zero_in_front(z + (z + d));
    assert((z + z) + d =~= z + (z + d));
    assert((z + (z + z)) + d =~= z + (z + (z + d)));
}

/// No two segments have one file name: the name gives the track and the number of the
/// segment.
pub proof fn law_segment_names_differ(t: u32, n: u32, u: u32, m: u32)
    requires
        segment_name(t as nat, n as nat) == segment_name(u as nat, m as nat),
    ensures
        t == u,
        n == m,
{
    let a = zero_padded(n as nat) + ".m4s"@;
    let b = zero_padded(m as nat) + ".m4s"@;
    let x = "/segment_"@ + a;
    let y = "/segment_"@ + b;
    reveal_strlit("track");
    reveal_strlit("/segment_");
    reveal_strlit(".m4s");
    let whole = segment_name(t as nat, n as nat);
    assert(whole.skip(5) =~= decimal(t as nat) + x);
    assert(segment_name(u as nat, m as nat).skip(5) =~= decimal(u as nat) + y);
    lemma_all_digits(t as nat);
    lemma_all_digits(u as nat);
    assert(x[0] == '/' && y[0] == '/');
    lemma_same_digits(decimal(t as nat), x, decimal(u as nat), y);
    law_decimal_injective(t, u);
    assert(x.skip(9) =~= a);
    assert(y.skip(9) =~= b);
    lemma_zero_padded(n);
    lemma_zero_padded(m);
    assert(".m4s"@[0] == '.');
    lemma_same_digits(zero_padded(n as nat), ".m4s"@, zero_padded(m as nat), ".m4s"@);
}

/// The number of a segment has at least four digits in its file name.
pub proof fn law_numbers_fill_four_digits(n: u32)
    ensures
        zero_padded(n as nat).len() >= 4,
        space_padded(n as nat).len() == zero_padded(n as nat).len(),
        n < 10000 ==> zero_padded(n as nat).len() == 4,
{
    reveal_strlit("000");
    reveal_strlit("00");
    reveal_strlit("0");
    reveal_strlit("   ");
    reveal_strlit("  ");
    reveal_strlit(" ");
    reveal_with_fuel(decimal, 5);
    if n >= 10000 {
        lemma_all_digits((n as nat) / 10000);
    }
}

/// The file of an init segment is that of no segment, and of no other track.
pub proof fn law_init_names_differ(t: u32, u: u32, n: u32)
    ensures
        init_name(t as nat) == init_name(u as nat) ==> t == u,
        init_name(t as nat) != segment_name(u as nat, n as nat),
{
    reveal_strlit("track");
    reveal_strlit("/init.mp4");
    reveal_strlit("/segment_");
    lemma_all_digits(t as nat);
    lemma_all_digits(u as nat);
    let x = "/init.mp4"@;
    let y = "/segment_"@ + (zero_padded(n as nat) + ".m4s"@);
    assert(init_name(t as nat).skip(5) =~= decimal(t as nat) + x);
    assert(init_name(u as nat).skip(5) =~= decimal(u as nat) + x);
    assert(segment_name(u as nat, n as nat).skip(5) =~= decimal(u as nat) + y);
    if init_name(t as nat) == init_name(u as nat) {
        lemma_same_digits(decimal(t as nat), x, decimal(u as nat), x);
        law_decimal_injective(t, u);
    }
    if init_name(t as nat) == segment_name(u as nat, n as nat) {
        lemma_same_digits(decimal(t as nat), x, decimal(u as nat), y);
        assert(x[1] == 'i' && y[1] == 's');
    }
}

/// A table of new ids has for each id the last new one that was asked for, and nothing for
/// an id that was not.
pub proof fn law_last_remapping_counts(pairs: Seq<(u32, u32)>, i: int, t: u32)
    ensures
        0 <= i < pairs.len() && (forall|k: int|
            i < k < pairs.len() ==> (#[trigger] pairs[k]).0 != pairs[i].0) ==> remapping(
            pairs,
        ).contains_key(pairs[i].0) && remapping(pairs)[pairs[i].0] == pairs[i].1,
        (forall|k: int| 0 <= k < pairs.len() ==> (#[trigger] pairs[k]).0 != t) ==> !remapping(
            pairs,
        ).contains_key(t),
    decreases pairs.len(),
{
    if pairs.len() > 0 {
        let rest = pairs.drop_last();
        law_last_remapping_counts(rest, i, t);
        assert(pairs.last() == pairs[pairs.len() - 1]);
        assert forall|k: int| 0 <= k < rest.len() implies #[trigger] rest[k] == pairs[k] by {}
    }
}

proof fn lemma_nothing_to_trim(n: nat)
    ensures
        trimmed(decimal(n)) == decimal(n),
{
    lemma_all_digits(n);
    let d = decimal(n);
    assert(is_digit(d[0]) && is_digit(d[d.len() - 1]));
    assert(white_before(d, 0) == 0);
    assert(white_after(d, 0, d.len() as int) == d.len());
    assert(d.subrange(0, d.len() as int) =~= d);
}

/// A pair of ids that is written as `OLD:NEW` is read back in this order.
pub proof fn law_remap_pair_is_read_back(a: u32, b: u32)
    ensures
        remap_pair(decimal(a as nat) + ":"@ + decimal(b as nat)) == Ok::<(u32, u32), Seq<char>>(
            (a, b),
        ),
{
    let x = decimal(a as nat);
    let y = decimal(b as nat);
    reveal_strlit(":");
    let s = x + ":"@ + y;
    lemma_all_digits(a as nat);
    lemma_all_digits(b as nat);
    lemma_colon(s, 0, x.len() as int);
    assert(s.subrange(0, x.len() as int) =~= x);
    assert(s.subrange(x.len() as int + 1, s.len() as int) =~= y);
    lemma_nothing_to_trim(a as nat);
    lemma_nothing_to_trim(b as nat);
    law_decimal_parses(a);
    law_decimal_parses(b);
}

proof fn lemma_colon(s: Seq<char>, i: int, k: int)
    requires
        0 <= i <= k < s.len(),
        s[k] == ':',
        forall|j: int| 0 <= j < k ==> is_digit(#[trigger] s[j]),
    ensures
        char_from(s, ':', i) == Some(k),
    decreases k - i,
{
    if i < k {
        assert(is_digit(s[i]));
        lemma_colon(s, i + 1, k);
    }
}

/// What stands under a key that is a track id is found under the id; the last counts where
/// two keys write one id.
pub proof fn law_values_are_found_by_track<V>(keys: Seq<Seq<char>>, vals: Seq<V>, i: int, id: u32)
    requires
        keys.len() == vals.len(),
        by_track(keys, vals) is Ok,
        0 <= i < keys.len(),
        parsed_u32(keys[i]) == Ok::<u32, NumberFault>(id),
        forall|k: int|
            i < k < keys.len() ==> parsed_u32(#[trigger] keys[k]) != Ok::<u32, NumberFault>(id),
    ensures
        by_track(keys, vals)->Ok_0.contains_key(id),
        by_track(keys, vals)->Ok_0[id] == vals[i],
    decreases keys.len(),
{
    let rest = keys.drop_last();
    if i < keys.len() - 1 {
        assert(keys[keys.len() - 1] == keys.last());
        assert forall|k: int| i < k < rest.len() implies parsed_u32(#[trigger] rest[k]) != Ok::<
            u32,
            NumberFault,
        >(id) by {
            assert(rest[k] == keys[k]);
        }
        law_values_are_found_by_track(rest, vals.drop_last(), i, id);
    }
}

/// What is said of a video rendition in a list of renditions.
pub open spec fn video_figures(v: VideoConfig) -> Seq<char> {
    v.codec@ + " "@ + decimal(v.coded_width as nat) + "x"@ + decimal(v.coded_height as nat)
        + " (track "@ + decimal(v.track_id as nat) + ", "@
}

/// What is said of an audio rendition in a list of renditions: its sample rate in front of
/// "Hz" and how many channels it has in front of "ch".
pub open spec fn audio_figures(a: AudioConfig) -> Seq<char> {
    a.codec@ + " "@ + decimal(a.sample_rate as nat) + "Hz "@ + decimal(a.number_of_channels as nat)
        + "ch (track "@ + decimal(a.track_id as nat) + ", "@
}

/// A list of renditions has a line for each, the video renditions first, with its codec and
/// its figures as the catalog has them.
pub proof fn law_lines_tell_the_renditions(c: Catalog, i: int)
    ensures
        c.video matches Some(v) ==> video_lines(c).len() == v.renditions.order().len() && (0 <= i
            < v.renditions.order().len() ==> has_part(
            video_lines(c)[i],
            video_figures(v.renditions.nth(i)),
        ) && has_part(video_lines(c)[i], v.renditions.order()[i])),
        c.audio matches Some(a) ==> audio_lines(c).len() == a.renditions.order().len() && (0 <= i
            < a.renditions.order().len() ==> has_part(
            audio_lines(c)[i],
            audio_figures(a.renditions.nth(i)),
        ) && has_part(audio_lines(c)[i], a.renditions.order()[i])),
{
    if let Some(v) = c.video {
        if 0 <= i < v.renditions.order().len() {
            let x = v.renditions.nth(i);
            let name = v.renditions.order()[i];
            let before = "video \""@ + name + "\": "@;
            let after = decimal(x.description@.len()) + " desc bytes)"@;
            lemma_video_parts(before, x, after);
            lemma_within(before, video_figures(x), after);
            lemma_within("video \""@, name, "\": "@ + video_figures(x) + after);
            assert("video \""@ + name + ("\": "@ + video_figures(x) + after) =~= before
                + video_figures(x) + after);
        }
    }
    if let Some(a) = c.audio {
        if 0 <= i < a.renditions.order().len() {
            let x = a.renditions.nth(i);
            let name = a.renditions.order()[i];
            let before = "audio \""@ + name + "\": "@;
            let after = decimal(x.description@.len()) + " desc bytes)"@;
            lemma_audio_parts(before, x, after);
            lemma_within(before, audio_figures(x), after);
            lemma_within("audio \""@, name, "\": "@ + audio_figures(x) + after);
            assert("audio \""@ + name + ("\": "@ + audio_figures(x) + after) =~= before
                + audio_figures(x) + after);
        }
    }
}

proof fn lemma_within(a: Seq<char>, t: Seq<char>, b: Seq<char>)
    ensures
        has_part(a + t + b, t),
{
    lemma_has_itself(t);
    lemma_has_wider(a, t, b, t);
}

proof fn lemma_video_parts(before: Seq<char>, x: VideoConfig, after: Seq<char>)
    ensures
        before + x.codec@ + " "@ + decimal(x.coded_width as nat) + "x"@ + decimal(
            x.coded_height as nat,
        ) + " (track "@ + decimal(x.track_id as nat) + ", "@ + decimal(x.description@.len())
            + " desc bytes)"@ == before + video_figures(x) + (decimal(x.description@.len())
            + " desc bytes)"@),
{
    let a = before + x.codec@ + " "@ + decimal(x.coded_width as nat) + "x"@ + decimal(
        x.coded_height as nat,
    ) + " (track "@ + decimal(x.track_id as nat) + ", "@;
    assert(a =~= before + video_figures(x));
    let d = decimal(x.description@.len());
    assert(a + d + " desc bytes)"@ =~= a + (d + " desc bytes)"@));
}

proof fn lemma_audio_parts(before: Seq<char>, x: AudioConfig, after: Seq<char>)
    ensures
        before + x.codec@ + " "@ + decimal(x.sample_rate as nat) + "Hz "@ + decimal(
            x.number_of_channels as nat,
        ) + "ch (track "@ + decimal(x.track_id as nat) + ", "@ + decimal(x.description@.len())
            + " desc bytes)"@ == before + audio_figures(x) + (decimal(x.description@.len())
            + " desc bytes)"@),
{
    let a = before + x.codec@ + " "@ + decimal(x.sample_rate as nat) + "Hz "@ + decimal(
        x.number_of_channels as nat,
    ) + "ch (track "@ + decimal(x.track_id as nat) + ", "@;
    assert(a =~= before + audio_figures(x));
    let d = decimal(x.description@.len());
    assert(a + d + " desc bytes)"@ =~= a + (d + " desc bytes)"@));
}

/// What is said of a segment names its place, its track and how many bytes it has, each
/// behind or before its own word.
pub proof fn law_lines_tell_the_segment(i: nat, track: u32, data: Seq<u8>, n: nat)
    ensures
        has_part(segment_line(i as int, track, data.len()), "segment "@ + decimal(i) + ":"@),
        has_part(
            segment_line(i as int, track, data.len()),
            " track "@ + decimal(track as nat) + " ("@,
        ),
        has_part(
            segment_line(i as int, track, data.len()),
            " ("@ + decimal(data.len()) + " bytes)"@,
        ),
        has_part(cid_line(data, track, n), "track"@ + decimal(track as nat) + " "@),
        has_part(cid_line(data, track, n), " seg"@ + decimal(n) + "\t"@),
        has_part(cid_line(data, track, n), "\t"@ + decimal(data.len()) + " bytes"@),
{
    lemma_segment_line(i, track, data.len());
    lemma_cid_line(data, track, n);
}

proof fn lemma_segment_line(i: nat, track: u32, size: nat)
    ensures
        has_part(segment_line(i as int, track, size), "segment "@ + decimal(i) + ":"@),
        has_part(segment_line(i as int, track, size), " track "@ + decimal(track as nat) + " ("@),
        has_part(segment_line(i as int, track, size), " ("@ + decimal(size) + " bytes)"@),
{
    let l = segment_line(i as int, track, size);
    let none = Seq::<char>::empty();
    let a = decimal(i);
    let t = decimal(track as nat);
    let z = decimal(size);
    reveal_strlit(": track ");
    reveal_strlit(" track ");
    reveal_strlit(":");
    assert(": track "@ =~= ":"@ + " track "@);
    let p = "segment "@ + a + ":"@;
    let q = " track "@ + t + " ("@;
    let r = " ("@ + z + " bytes)"@;
    assert(l =~= none + p + (q + z + " bytes)"@));
    lemma_within(none, p, q + z + " bytes)"@);
    assert(l =~= p + q + (z + " bytes)"@));
    lemma_within(p, q, z + " bytes)"@);
    let before = p + (" track "@ + t);
    assert(l =~= before + r + none);
    lemma_within(before, r, none);
}

proof fn lemma_cid_line(data: Seq<u8>, track: u32, n: nat)
    ensures
        has_part(cid_line(data, track, n), "track"@ + decimal(track as nat) + " "@),
        has_part(cid_line(data, track, n), " seg"@ + decimal(n) + "\t"@),
        has_part(cid_line(data, track, n), "\t"@ + decimal(data.len()) + " bytes"@),
{
    let l = cid_line(data, track, n);
    let none = Seq::<char>::empty();
    let c = cid_text(blake3_digest(data));
    let t = decimal(track as nat);
    let m = decimal(n);
    let z = decimal(data.len());
    reveal_strlit("\ttrack");
    reveal_strlit("track");
    reveal_strlit("\t");
    reveal_strlit(" seg");
    reveal_strlit("seg");
    reveal_strlit(" ");
    assert("\ttrack"@ =~= "\t"@ + "track"@);
    assert(" seg"@ =~= " "@ + "seg"@);
    let p = "track"@ + t + " "@;
    let q = " seg"@ + m + "\t"@;
    let r = "\t"@ + z + " bytes"@;
    let head = c + "\t"@;
    let rest = "seg"@ + m + "\t"@ + z + " bytes"@;
    assert(l =~= head + p + rest);
    lemma_within(head, p, rest);
    let before = head + ("track"@ + t);
    assert(l =~= before + q + (z + " bytes"@));
    lemma_within(before, q, z + " bytes"@);
    let front = before + (" seg"@ + m);
    assert(l =~= front + r + none);
    lemma_within(front, r, none);
}

/// What is said of a GOP tells how many tracks it has and how many bytes; that of one track
/// names the track, the GOP and the size. Of a signed GOP the size of the prefix is told.
pub proof fn law_lines_tell_the_gop(
    g: GopView,
    number: Seq<char>,
    prefix: nat,
    track: u32,
    size: nat,
)
    ensures
        has_part(
            gop_line(number, g),
            "segment "@ + number + ": "@ + decimal(g.tracks.dom().len()) + " tracks, "@,
        ),
        has_part(gop_line(number, g), ", "@ + decimal(gop_size(g) as nat) + " bytes"@),
        has_part(
            part_line(track, g.number, size),
            "track "@ + decimal(track as nat) + " segment "@ + space_padded(g.number as nat) + ": "@,
        ),
        has_part(part_line(track, g.number, size), ": "@ + decimal(size) + " bytes"@),
        has_part(
            signed_line(g, prefix),
            "signed segment "@ + decimal(g.number as nat) + ": "@ + decimal(g.tracks.dom().len())
                + " canonical segments, "@,
        ),
        has_part(
            signed_line(g, prefix),
            decimal(gop_size(g) as nat) + " bytes (c2pa prefix "@ + decimal(prefix)
                + " bytes/track)"@,
        ),
{
    let none = Seq::<char>::empty();
    let n = decimal(g.tracks.dom().len());
    let z = decimal(gop_size(g) as nat);
    lemma_gop_line(g, number);
    let x = part_line(track, g.number, size);
    let a = "track "@ + decimal(track as nat) + " segment "@ + space_padded(g.number as nat);
    let b = a + ": "@;
    assert(x =~= none + b + (decimal(size) + " bytes"@));
    lemma_within(none, b, decimal(size) + " bytes"@);
    let c = ": "@ + decimal(size) + " bytes"@;
    assert(x =~= a + c + none);
    lemma_within(a, c, none);
    let y = signed_line(g, prefix);
    let p = "signed segment "@ + decimal(g.number as nat) + ": "@ + n + " canonical segments, "@;
    let q = z + " bytes (c2pa prefix "@ + decimal(prefix) + " bytes/track)"@;
    assert(y =~= p + q);
    assert(p + q =~= none + p + q);
    assert(p + q =~= p + q + none);
    lemma_within(none, p, q);
    lemma_within(p, q, none);
}

proof fn lemma_gop_line(g: GopView, number: Seq<char>)
    ensures
        has_part(
            gop_line(number, g),
            "segment "@ + number + ": "@ + decimal(g.tracks.dom().len()) + " tracks, "@,
        ),
        has_part(gop_line(number, g), ", "@ + decimal(gop_size(g) as nat) + " bytes"@),
{
    let none = Seq::<char>::empty();
    let l = gop_line(number, g);
    let n = decimal(g.tracks.dom().len());
    let z = decimal(gop_size(g) as nat);
    reveal_strlit(" tracks, ");
    reveal_strlit(" tracks");
    reveal_strlit(", ");
    assert(" tracks, "@ =~= " tracks"@ + ", "@);
    let p = "segment "@ + number + ": "@ + n + " tracks, "@;
    assert(l =~= none + p + (z + " bytes"@));
    lemma_within(none, p, z + " bytes"@);
    let front = "segment "@ + number + ": "@ + n + " tracks"@;
    let q = ", "@ + z + " bytes"@;
    assert(l =~= front + q + none);
    lemma_within(front, q, none);
}

/// What is said of a container tells its segments and inputs, or its size, GOPs and tracks,
/// each before its own word.
pub proof fn law_lines_tell_the_container(label: Seq<char>, n: nat, inputs: nat, size: nat)
    ensures
        has_part(
            wrapped_line(label, n, inputs),
            ": wrapped "@ + decimal(n) + " segments from "@ + decimal(inputs) + " input(s)"@,
        ),
        goes_on(label, wrapped_line(label, n, inputs)),
        has_part(init_line(size, n, inputs), "init segment: "@ + decimal(size) + " bytes"@),
        has_part(
            init_line(size, n, inputs),
            "(from "@ + decimal(n) + " segments across "@ + decimal(inputs) + " input(s))"@,
        ),
        has_part(fmp4_line(size, n, inputs), "fMP4: "@ + decimal(size) + " bytes ("@),
        has_part(
            fmp4_line(size, n, inputs),
            "("@ + decimal(n) + " GOPs, "@ + decimal(inputs) + " tracks)"@,
        ),
{
    let none = Seq::<char>::empty();
    let a = decimal(n);
    let b = decimal(inputs);
    let z = decimal(size);
    let x = ": wrapped "@ + a + " segments from "@ + b + " input(s)"@;
    assert(wrapped_line(label, n, inputs) =~= label + x + none);
    lemma_within(label, x, none);
    assert(wrapped_line(label, n, inputs).take(label.len() as int) =~= label);
    lemma_init_line(size, n, inputs);
    let l = fmp4_line(size, n, inputs);
    let p = "fMP4: "@ + z + " bytes ("@;
    assert(l =~= none + p + (a + " GOPs, "@ + b + " tracks)"@));
    lemma_within(none, p, a + " GOPs, "@ + b + " tracks)"@);
    reveal_strlit(" bytes (");
    reveal_strlit(" bytes ");
    reveal_strlit("(");
    assert(" bytes ("@ =~= " bytes "@ + "("@);
    let front = "fMP4: "@ + z + " bytes "@;
    let q = "("@ + a + " GOPs, "@ + b + " tracks)"@;
    assert(l =~= front + q + none);
    lemma_within(front, q, none);
}

proof fn lemma_init_line(size: nat, n: nat, inputs: nat)
    ensures
        has_part(init_line(size, n, inputs), "init segment: "@ + decimal(size) + " bytes"@),
        has_part(
            init_line(size, n, inputs),
            "(from "@ + decimal(n) + " segments across "@ + decimal(inputs) + " input(s))"@,
        ),
{
    let none = Seq::<char>::empty();
    let l = init_line(size, n, inputs);
    let a = decimal(n);
    let b = decimal(inputs);
    let z = decimal(size);
    reveal_strlit(" bytes (from ");
    reveal_strlit(" bytes");
    reveal_strlit(" ");
    reveal_strlit("(from ");
    assert(" bytes (from "@ =~= " bytes"@ + " "@ + "(from "@);
    let p = "init segment: "@ + z + " bytes"@;
    let q = "(from "@ + a + " segments across "@ + b + " input(s))"@;
    assert(l =~= none + p + (" "@ + q));
    lemma_within(none, p, " "@ + q);
    let front = p + " "@;
    assert(l =~= front + q + none);
    lemma_within(front, q, none);
}

} // verus!
