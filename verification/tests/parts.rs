use std::collections::BTreeMap;

use muxl::bench::{bench_input, bench_sentinel};
use muxl::catalog::{merge_segment_catalog, AudioConfig, Catalog, VideoConfig};
use muxl::cbor::{ByteString, CborEvent, CborTrackSamples, SegmenterEvent, SignedEvent};
use muxl::cid::{cid_from_digest, from_bytes};
use muxl::cli::{
    catalog_lines, cmd_hls, decode_hex, parse_remap_pair, parse_track_id, parse_track_keyed_map,
    remap_table, say_event, segment_mode, synth_metadata, HlsArgs, Presentation, SegmentArgs,
    SegmentMode, SynthSegment,
};
use muxl::dates::{civil_from_days, now_rfc3339_utc, rfc3339_from_unix};
use muxl::encode::{base32_lower_encode, base58btc_encode, base64_encode, hex_lower};
use muxl::error::{invalid_mp4, Error, IoError, IoKind};
use muxl::fmp4::{fmp4_tracks, written_line, TrackBody};
use muxl::hls::{
    blob_tracks, group_fragments_audio, group_fragments_video, master_playlist,
    master_playlist_name, media_playlist, media_playlist_name, primary_blob, track_entries,
    track_totals, BlobSegment, FlatFragment, FlatTrackInfo, HlsOpts, Rate,
};
use muxl::io::{ReadAt, ReadAtCursor, SeekFrom};
use muxl::keymap::KeyMap;
use muxl::mailbox::{
    ask, event_data, file_size, frame_inits, give, read_size, set_status, take_answer, taken,
    BUF_SIZE, STATUS_ERROR, STATUS_RESPONSE,
};
use muxl::metadata::blob_metadata;
use muxl::segment::{GopSegment, TrackSamples};
use muxl::text::{compare_text, parse_u32, NumberFault, Order};

#[test]
fn test_slice_read_at() {
    let data = b"hello world";
    let mut buf = [0u8; 5];
    assert_eq!(data.as_slice().read_at(0, &mut buf).unwrap(), 5);
    assert_eq!(&buf, b"hello");
    assert_eq!(data.as_slice().read_at(6, &mut buf).unwrap(), 5);
    assert_eq!(&buf, b"world");
    assert_eq!(data.as_slice().read_at(11, &mut buf).unwrap(), 0);
}

#[test]
fn test_read_exact_at_eof() {
    let data = b"hi";
    let mut buf = [0u8; 5];
    assert!(data.as_slice().read_exact_at(0, &mut buf).is_err());
    let e = data.as_slice().read_exact_at(0, &mut buf).unwrap_err();
    assert_eq!(e.kind, IoKind::UnexpectedEof);
}

/// An input that serves a byte at a time, and fails behind `good`.
struct Trickle {
    data: Vec<u8>,
    good: u64,
}

impl ReadAt for Trickle {
    fn size(&self) -> Result<u64, IoError> {
        Ok(self.data.len() as u64)
    }

    fn read_at(&self, offset: u64, buf: &mut [u8]) -> Result<usize, IoError> {
        if offset >= self.good {
            return Err(IoError { kind: IoKind::Other, message: "worn out".to_string() });
        }
        match (buf.first_mut(), self.data.get(offset as usize)) {
            (Some(b), Some(d)) => {
                *b = *d;
                Ok(1)
            }
            _ => Ok(0),
        }
    }
}

#[test]
fn short_reads_are_put_together() {
    let input = Trickle { data: b"abcdef".to_vec(), good: 100 };
    let mut buf = [0u8; 4];
    input.read_exact_at(1, &mut buf).unwrap();
    assert_eq!(&buf, b"bcde");
    let e = input.read_exact_at(4, &mut buf).unwrap_err();
    assert_eq!(e.message, "read_exact_at: wanted 4 bytes at offset 4, got 2");
    let worn = Trickle { data: b"abcdef".to_vec(), good: 3 };
    assert_eq!(worn.read_exact_at(0, &mut buf).unwrap_err().message, "worn out");
    let mut cursor = ReadAtCursor::new(&input).unwrap();
    assert_eq!(cursor.read(&mut buf).unwrap(), 1);
    cursor.read_exact(&mut buf).unwrap();
    assert_eq!(&buf, b"bcde");
}

#[test]
fn test_cursor_read_seek() {
    let data = b"abcdefghij";
    let cursor_result = ReadAtCursor::new(data.as_slice());
    let mut cursor = cursor_result.unwrap();

    let mut buf = [0u8; 3];
    cursor.read_exact(&mut buf).unwrap();
    assert_eq!(&buf, b"abc");

    cursor.seek(SeekFrom::Start(7)).unwrap();
    cursor.read_exact(&mut buf).unwrap();
    assert_eq!(&buf, b"hij");

    cursor.seek(SeekFrom::Current(-3)).unwrap();
    cursor.read_exact(&mut buf).unwrap();
    assert_eq!(&buf, b"hij");

    cursor.seek(SeekFrom::End(-2)).unwrap();
    let mut buf2 = [0u8; 2];
    cursor.read_exact(&mut buf2).unwrap();
    assert_eq!(&buf2, b"ij");

    assert_eq!(cursor.seek(SeekFrom::Current(-11)).unwrap_err().kind, IoKind::InvalidInput);
    assert_eq!(cursor.seek(SeekFrom::End(5)).unwrap(), 15);
    assert_eq!(cursor.read(&mut buf).unwrap(), 0);
}

#[test]
fn rfc3339_known_values() {
    assert_eq!(rfc3339_from_unix(0, 0), "1970-01-01T00:00:00.000Z");
    assert_eq!(rfc3339_from_unix(0, 123), "1970-01-01T00:00:00.123Z");
    // Unix billennium.
    assert_eq!(rfc3339_from_unix(1_000_000_000, 0), "2001-09-09T01:46:40.000Z");
    // Leap day.
    assert_eq!(rfc3339_from_unix(1_582_934_400, 0), "2020-02-29T00:00:00.000Z");
}

#[test]
fn dates_before_the_epoch_and_after_leap_days() {
    assert_eq!(rfc3339_from_unix(-1, 999), "1969-12-31T23:59:59.999Z");
    assert_eq!(rfc3339_from_unix(951_868_800, 0), "2000-03-01T00:00:00.000Z");
    let c = civil_from_days(-719_468);
    assert_eq!((c.year, c.month, c.day), (0, 3, 1));
    let now = now_rfc3339_utc();
    assert_eq!(now.len(), 24);
    assert!(now.starts_with("20") && now.ends_with('Z'), "{now}");
}

#[test]
fn encodings_of_known_bytes() {
    assert_eq!(hex_lower(&[0x00, 0xff, 0x1a]), "00ff1a");
    assert_eq!(base64_encode(b""), "");
    assert_eq!(base64_encode(b"f"), "Zg==");
    assert_eq!(base64_encode(b"fo"), "Zm8=");
    assert_eq!(base64_encode(b"foobar"), "Zm9vYmFy");
    assert_eq!(base58btc_encode(b"hello world"), "StV1DL6CwTryKyV");
    assert_eq!(base58btc_encode(&[0, 0, 1]), "112");
    let mut out = "x".to_string();
    base32_lower_encode(b"foobar", &mut out);
    assert_eq!(out, "xmzxw6ytboi");
}

#[test]
fn content_identifiers() {
    let empty = "bafkr4ifpcne3t5pzugtkaqcn5i3nzskjtpfslsnnyejlpte2spfoihzsmi";
    assert_eq!(from_bytes(b""), empty);
    assert_ne!(from_bytes(b"a"), empty);
    assert_eq!(cid_from_digest(&[0; 32]).len(), 59);
}

#[test]
fn hexadecimal_is_decoded() {
    for bytes in [vec![], vec![0u8], vec![0xde, 0xad, 0xbe, 0xef]] {
        let text = hex_lower(&bytes);
        assert_eq!(decode_hex(&text).unwrap(), bytes);
        assert_eq!(decode_hex(&format!("0x{text}")).unwrap(), bytes);
        assert_eq!(decode_hex(&text.to_uppercase()).unwrap(), bytes);
    }
    assert!(decode_hex("+f").is_err());
    assert_eq!(decode_hex("abc").unwrap_err().message(), "hex string has an odd length");
    assert_eq!(
        decode_hex("zz").unwrap_err().message(),
        "bad hex: invalid digit found in string"
    );
    assert_eq!(
        decode_hex("\u{e9}\u{e9}").unwrap_err().message(),
        "bad hex: invalid digit found in string"
    );
    assert_eq!(decode_hex("\u{20ac}").unwrap_err().message(), "hex string has an odd length");
}

#[test]
fn remap_pairs() {
    assert_eq!(parse_remap_pair("1:2"), Ok((1, 2)));
    assert_eq!(parse_remap_pair(" 10 : 4294967295 "), Ok((10, u32::MAX)));
    assert_eq!(parse_remap_pair("12"), Err("expected OLD:NEW, got \"12\"".to_string()));
    assert_eq!(
        parse_remap_pair("x:2"),
        Err("invalid source track id \"x\": invalid digit found in string".to_string())
    );
    assert_eq!(
        parse_remap_pair("1:"),
        Err("invalid target track id \"\": cannot parse integer from empty string".to_string())
    );
    assert_eq!(
        parse_remap_pair("1:4294967296"),
        Err("invalid target track id \"4294967296\": number too large to fit in target type"
            .to_string())
    );
    let table = remap_table(&vec![(1, 5), (2, 6), (1, 7)]);
    assert_eq!(table, BTreeMap::from([(1, 7), (2, 6)]));
}

#[test]
fn numbers_and_the_order_of_texts() {
    assert_eq!(parse_u32("+7"), Ok(7));
    assert_eq!(parse_u32(""), Err(NumberFault::Empty));
    assert_eq!(parse_u32("-1"), Err(NumberFault::InvalidDigit));
    assert_eq!(parse_u32("99999999999"), Err(NumberFault::TooLarge));
    assert!(matches!(compare_text("10", "9"), Order::Before));
    assert!(matches!(compare_text("a", "a"), Order::Same));
    assert!(matches!(compare_text("ab", "a"), Order::After));
}

fn segment_args(input: &str) -> SegmentArgs {
    SegmentArgs {
        input: input.to_string(),
        dir: None,
        fmp4: None,
        stdout: false,
        flat: None,
        remap_track: vec![],
    }
}

#[test]
fn segment_modes() {
    assert!(segment_mode(segment_args("a")).is_none());
    let flat = SegmentArgs { flat: Some("o".into()), fmp4: Some("p".into()), ..segment_args("-") };
    assert!(matches!(segment_mode(flat), Some(SegmentMode::Whole(o, Presentation::Flat)) if o == "o"));
    let file = SegmentArgs { fmp4: Some("o".into()), ..segment_args("a") };
    assert!(matches!(segment_mode(file), Some(SegmentMode::Whole(_, Presentation::Fmp4))));
    let pipe = SegmentArgs { fmp4: Some("o".into()), ..segment_args("-") };
    assert!(matches!(segment_mode(pipe), Some(SegmentMode::Stream(_))));
    let dir = SegmentArgs { dir: Some("d".into()), ..segment_args("-") };
    assert!(matches!(segment_mode(dir), Some(SegmentMode::Directory(d)) if d == "d"));
    let events = SegmentArgs { stdout: true, ..segment_args("a") };
    assert!(matches!(segment_mode(events), Some(SegmentMode::Events)));
}

#[test]
fn hls_arguments_are_handed_on() {
    fn emit(input: &String, out: &String, opts: &HlsOpts) -> Result<(), Error> {
        Err(invalid_mp4(&format!("{input} {out} {:?} {}", opts.sidecars, opts.write_playlists)))
    }
    let args = HlsArgs {
        input: "in".into(),
        output_dir: "out".into(),
        sidecars: vec!["s".into()],
        playlists: true,
    };
    assert_eq!(cmd_hls(args, &emit).unwrap_err().message(), "in out [\"s\"] true");
}

fn video(tid: u32) -> VideoConfig {
    VideoConfig {
        codec: "avc1.64001f".to_string(),
        coded_width: 1280,
        coded_height: 720,
        framerate: None,
        display_aspect_width: None,
        display_aspect_height: None,
        bitrate: None,
        description: vec![1, 2, 3],
        track_id: tid,
        timescale: 30_000,
    }
}

fn audio(tid: u32, codec: &str) -> AudioConfig {
    AudioConfig {
        codec: codec.to_string(),
        sample_rate: 48_000,
        number_of_channels: 2,
        bitrate: None,
        description: vec![],
        track_id: tid,
        timescale: 48_000,
    }
}

#[test]
fn catalogs_are_listed_and_merged() {
    let mut a = Catalog::default();
    a.insert_audio("opus".into(), audio(2, "opus"));
    let mut v = Catalog::default();
    v.insert_video("hd".into(), video(1));
    merge_segment_catalog(&mut a, &v);
    merge_segment_catalog(&mut a, &v);
    assert_eq!(a.lead_track(), Some(1));
    assert_eq!(
        catalog_lines(&a),
        vec![
            "video \"hd\": avc1.64001f 1280x720 (track 1, 3 desc bytes)".to_string(),
            "audio \"opus\": opus 48000Hz 2ch (track 2, 0 desc bytes)".to_string(),
        ]
    );
    assert_eq!(Catalog::default().lead_track(), None);
}

#[test]
fn key_maps_keep_the_order_of_texts() {
    let mut m: KeyMap<u32> = KeyMap::new();
    for k in [10u32, 9, 1] {
        m.insert(k.to_string(), k);
    }
    m.insert("9".to_string(), 90);
    assert_eq!(m.len(), 3);
    assert_eq!(m.key(0), "1");
    assert_eq!(m.key(1), "10");
    assert_eq!(*m.value(2), 90);
    assert_eq!(m.get("2"), None);
}

#[test]
fn track_keyed_maps() {
    let mut m: KeyMap<u64> = KeyMap::new();
    m.insert("+1".to_string(), 5);
    m.insert("1".to_string(), 6);
    m.insert("2".to_string(), 7);
    assert_eq!(parse_track_keyed_map(&m).unwrap(), BTreeMap::from([(1, 6), (2, 7)]));
    m.insert("x".to_string(), 8);
    assert_eq!(
        parse_track_keyed_map(&m).unwrap_err().message(),
        "non-numeric track id \"x\""
    );
    assert_eq!(parse_track_id("12").unwrap(), 12);
}

#[test]
fn synth_metadata_fills_in_offsets() {
    let mut samples = KeyMap::new();
    samples.insert(
        "1".to_string(),
        CborTrackSamples {
            durations: vec![10, 20],
            sizes: vec![1, 2],
            cts_offsets: vec![],
            sync_indices: vec![1],
            offsets: vec![100, 200],
        },
    );
    let mut sizes = KeyMap::new();
    sizes.insert("1".to_string(), 300u64);
    let s = SynthSegment {
        track_byte_sizes: sizes,
        samples,
        first_decode_times: KeyMap::new(),
    };
    let m = synth_metadata(&s).unwrap();
    assert_eq!(m.track_byte_sizes, BTreeMap::from([(1, 300)]));
    assert_eq!(m.samples[&1].cts_offsets, vec![0, 0]);
    assert_eq!(m.samples[&1].offsets_in_track, vec![100, 200]);
    assert!(m.first_decode_times.is_empty());
}

fn gop() -> GopSegment {
    let mut s = TrackSamples::new();
    s.push(1000, 3, 0, true, 108);
    GopSegment {
        number: 4,
        tracks: BTreeMap::from([(1, vec![1, 2, 3]), (10, vec![4])]),
        durations: BTreeMap::from([(1, 1000)]),
        sample_counts: BTreeMap::from([(1, 1)]),
        samples: BTreeMap::from([(1, s)]),
        first_decode_times: BTreeMap::new(),
        body_size: 4,
        duration_us: 33_333,
    }
}

fn no_inits(_: &Catalog) -> Result<BTreeMap<u32, Vec<u8>>, Error> {
    Err(invalid_mp4("none"))
}

#[test]
fn events_are_keyed_by_text() {
    match CborEvent::from_event(&SegmenterEvent::Segment(gop()), &no_inits) {
        CborEvent::Segment { tracks, samples, body_size, duration_us, .. } => {
            assert_eq!(tracks.get("10").unwrap().0, vec![4]);
            assert_eq!(samples.get("1").unwrap().offsets, vec![108]);
            assert_eq!((body_size, duration_us), (4, 33_333));
        }
        _ => panic!("no segment"),
    }
    let init = SegmenterEvent::InitSegment { catalog: Catalog::default(), data: vec![9] };
    match CborEvent::from_event_owned(init, &no_inits) {
        CborEvent::Init { version, data, track_inits, .. } => {
            assert_eq!((version, data), (1, vec![9]));
            assert_eq!(track_inits.len(), 0);
        }
        _ => panic!("no init"),
    }
    match SignedEvent::signed_from_gop(gop()) {
        SignedEvent::SignedSegment { number, tracks, first_decode_times, .. } => {
            assert_eq!(number, 4);
            assert_eq!(tracks.get("1").map(|b| &b.0), Some(&vec![1, 2, 3]));
            assert_eq!(first_decode_times.len(), 0);
        }
        _ => panic!("no signed segment"),
    }
    assert_eq!(say_event(&SegmenterEvent::Segment(gop())), "segment 4: 2 tracks, 4 bytes");
    assert_eq!(
        say_event(&SegmenterEvent::InitSegment { catalog: Catalog::default(), data: vec![0; 12] }),
        "init: 12 bytes"
    );
    assert_eq!(ByteString(vec![1]).0.len(), 1);
}

#[test]
fn samples_convert_both_ways() {
    let mut s = TrackSamples::new();
    s.push(10, 20, -5, true, 30);
    s.push(11, 21, 5, false, 31);
    let c = CborTrackSamples::from(s);
    assert_eq!(c.sync_indices, vec![1]);
    let back = TrackSamples::from(c);
    assert_eq!(back.durations, vec![10, 11]);
    assert_eq!(back.cts_offsets, vec![-5, 5]);
    assert_eq!(back.offsets_in_track, vec![30, 31]);
}

fn fragments() -> Vec<FlatFragment> {
    (0..5u64)
        .map(|i| FlatFragment {
            offset: 100 + i * 10,
            size: 10,
            duration: 1000,
            is_sync: i == 0 || i == 3,
        })
        .collect()
}

#[test]
fn fragments_are_grouped() {
    let v = group_fragments_video(&fragments());
    assert_eq!(
        v,
        vec![
            BlobSegment { offset: 100, size: 30, duration_ticks: 3000, sample_count: 3 },
            BlobSegment { offset: 130, size: 20, duration_ticks: 2000, sample_count: 2 },
        ]
    );
    let a = group_fragments_audio(&fragments(), 1000);
    assert_eq!(a.len(), 3);
    assert_eq!(a[2], BlobSegment { offset: 140, size: 10, duration_ticks: 1000, sample_count: 1 });
    let t = track_totals(&v);
    assert_eq!((t.bytes, t.ticks, t.samples), (50, 5000, 5));
}

#[test]
fn playlists() {
    let mut c = Catalog::default();
    c.insert_video("v".into(), video(1));
    c.insert_audio("a".into(), audio(2, "opus"));
    let mut infos = BTreeMap::new();
    for (tid, is_video) in [(1, true), (2, false)] {
        infos.insert(tid, FlatTrackInfo { is_video, timescale: 1000, fragments: fragments() });
    }
    let inits = BTreeMap::from([(1, vec![1u8])]);
    let tracks = blob_tracks(&c, &infos, &inits, "blobcid", 999);
    assert_eq!(tracks[0].track_type, "video");
    assert_eq!(tracks[0].init_cid, from_bytes(&[1]));
    assert_eq!(tracks[1].init_cid, from_bytes(b""));
    assert_eq!((tracks[1].channels, tracks[1].sample_rate), (2, 48_000));
    let primary = primary_blob(&tracks);
    assert_eq!((primary.cid.as_str(), primary.size), ("blobcid", 999));
    let entries = track_entries(tracks, &primary.cid);
    assert_eq!(primary_blob(&Vec::new()).cid, "");
    assert_eq!((entries[0].key.as_str(), entries[1].key.as_str()), ("1", "2"));
    let sidecar = blob_tracks(&c, &infos, &inits, "sidecar-blob-0123456", 7);
    assert_eq!(track_entries(sidecar, &primary.cid)[0].key, "sidecar-blob-012.1");
    let text = blob_metadata(&primary, &entries);
    let doc: serde_json::Value = serde_json::from_str(&text).unwrap();
    assert_eq!(text, serde_json::to_string_pretty(&doc).unwrap());
    assert_eq!(doc["blobCid"], "blobcid");
    assert_eq!(doc["blobSize"], 999);
    let (video, audio) = (&doc["tracks"]["1"], &doc["tracks"]["2"]);
    assert_eq!((&video["type"], &video["codec"]), (&"video".into(), &"avc1.64001f".into()));
    assert_eq!((&video["width"], &video["height"]), (&1280.into(), &720.into()));
    assert!(video.get("channels").is_none());
    assert_eq!((&audio["channels"], &audio["sampleRate"]), (&2.into(), &48_000.into()));
    assert_eq!(video["initCid"], entries[0].track.init_cid.as_str());
    let first = &video["segments"][0];
    assert_eq!(first["size"], entries[0].track.segments[0].size);
    assert_eq!(first["durationTicks"], entries[0].track.segments[0].duration_ticks);
    assert_eq!(first["sampleCount"], entries[0].track.segments[0].sample_count);
    assert_eq!(video["segments"].as_array().unwrap().len(), entries[0].track.segments.len());
    let rates: Vec<Rate> = entries
        .iter()
        .map(|_| Rate { bandwidth: 80, frame_rate: "1.000".to_string() })
        .collect();
    let (kv, ka) = (entries[0].key.clone(), entries[1].key.clone());
    assert_eq!(
        master_playlist("blobcid", &entries, &rates),
        format!(
            "#EXTM3U\n#EXT-X-VERSION:6\n\n#EXT-X-MEDIA:TYPE=AUDIO,GROUP-ID=\"audio\",NAME=\"opus\",DEFAULT=YES,AUTOSELECT=YES,CHANNELS=\"2\",URI=\"blobcid.audio-{ka}.m3u8\"\n\n#EXT-X-STREAM-INF:AUDIO=\"audio\",BANDWIDTH=80,CODECS=\"avc1.64001f,opus\",RESOLUTION=1280x720,FRAME-RATE=1.000\nblobcid.video-{kv}.m3u8\n"
        )
    );
    let durations = vec!["3.000000".to_string(), "2.000000".to_string()];
    assert_eq!(
        media_playlist(&entries[0].track, 3, &durations),
        format!(
            "#EXTM3U\n#EXT-X-VERSION:6\n#EXT-X-PLAYLIST-TYPE:VOD\n#EXT-X-INDEPENDENT-SEGMENTS\n#EXT-X-TARGETDURATION:3\n#EXT-X-MEDIA-SEQUENCE:0\n#EXT-X-MAP:URI=\"{}.mp4\"\n\n#EXTINF:3.000000,\n#EXT-X-BYTERANGE:30@100\nblobcid.mp4\n#EXTINF:2.000000,\n#EXT-X-BYTERANGE:20@130\nblobcid.mp4\n#EXT-X-ENDLIST\n",
            from_bytes(&[1])
        )
    );
    assert_eq!(media_playlist_name("blobcid", &entries[1]), format!("blobcid.audio-{ka}.m3u8"));
    assert_eq!(master_playlist_name("blobcid"), "blobcid.m3u8");
}

#[test]
fn fragmented_files_are_told_of() {
    let mut c = Catalog::default();
    c.insert_video("v".into(), video(1));
    let body = TrackBody { timescale: 30_000, segments: group_fragments_video(&fragments()) };
    let bodies = BTreeMap::from([(1, body)]);
    let tracks = fmp4_tracks(&c, &bodies, &BTreeMap::new());
    assert_eq!(tracks[0].codec, "avc1.64001f");
    assert_eq!((tracks[0].blob_cid.as_str(), tracks[0].blob_size), ("", 0));
    assert_eq!(written_line(&tracks, 1234), "fMP4 written (2 GOPs, 1234 bytes)");
}

#[test]
fn the_benchmark_is_the_same_every_time() {
    let a = bench_input(11);
    assert_eq!(a, vec![75, 40, 4, 45, 27, 92, 220, 39, 219, 82, 235]);
    assert_eq!(bench_input(4), a[..4].to_vec());
    assert_eq!(bench_sentinel(b"", 3), 0xe3);
    assert_eq!(bench_sentinel(b"", 4), 0);
}

#[test]
fn buffers_pass_requests_and_answers() {
    let mut buf = vec![0u8; BUF_SIZE];
    let e = file_size(&buf).unwrap_err();
    assert_eq!(e.message, "file_size not set in read buffer");
    assert_eq!(e.kind, IoKind::InvalidInput);
    buf[16..24].copy_from_slice(&5_000_000u64.to_le_bytes());
    assert_eq!(file_size(&buf).unwrap(), 5_000_000);
    assert_eq!(read_size(10, 10, 3), 0);
    assert_eq!(read_size(10, 9, 3), 3);
    assert_eq!(read_size(10, 0, 9_000_000), 1_048_576);

    ask(&mut buf, 0x0102_0304_0506, 7);
    assert_eq!(&buf[..16], &[1, 0, 0, 0, 6, 5, 4, 3, 2, 1, 0, 0, 7, 0, 0, 0]);
    buf[24..28].copy_from_slice(&3u32.to_le_bytes());
    buf[32..35].copy_from_slice(b"abc");
    set_status(&mut buf, STATUS_RESPONSE);
    assert_eq!(take_answer(&mut buf, 2).unwrap(), b"ab".to_vec());
    assert_eq!(buf[0], 0);
    set_status(&mut buf, STATUS_ERROR);
    assert_eq!(taken(&buf).unwrap_err().message, "JS write consumer error");
    assert_eq!(take_answer(&mut buf, 2).unwrap_err().message, "JS read error");
    assert!(taken(&buf).is_ok());

    let data: Vec<u8> = (0..1_048_580u32).map(|i| i as u8).collect();
    let mut total = 0;
    let mut sent = Vec::new();
    let mut at = 0;
    while at < data.len() {
        let n = give(&mut buf, &data[at..], &mut total);
        sent.extend_from_slice(&buf[32..32 + n]);
        assert_eq!(&buf[24..28], &(n as u32).to_le_bytes());
        at += n;
        assert_eq!(&buf[16..24], &(at as u64).to_le_bytes());
    }
    assert_eq!(sent, data);
    assert_eq!(give(&mut buf, &[], &mut total), 0);
    assert_eq!(total, 1_048_580);

    assert_eq!(event_data(&SegmenterEvent::Segment(gop())), vec![1, 2, 3, 4]);
    let mut c = Catalog::default();
    c.insert_video("v".into(), video(1));
    let body = TrackBody { timescale: 1, segments: vec![] };
    let tracks =
        fmp4_tracks(&c, &BTreeMap::from([(1, body)]), &BTreeMap::from([(1, vec![7, 8])]));
    assert_eq!(frame_inits(&tracks), vec![2, 0, 0, 0, 7, 8]);
}

#[test]
fn in_memory_inputs_serve_all_they_hold() {
    let data: Vec<u8> = (0..10).collect();
    for (offset, room, want) in [(0u64, 4usize, 4usize), (7, 4, 3), (10, 4, 0), (99, 4, 0), (3, 0, 0)] {
        let mut buf = vec![0xffu8; room];
        assert_eq!(data.read_at(offset, &mut buf).unwrap(), want);
        let mut other = vec![0xffu8; room];
        assert_eq!(data.as_slice().read_at(offset, &mut other).unwrap(), want);
        assert_eq!(buf, other);
        for i in 0..room {
            assert_eq!(buf[i], if i < want { (offset as usize + i) as u8 } else { 0xff });
        }
    }
}

#[test]
fn times_sort_as_their_texts() {
    let times = [
        (-62_167_219_200i64, 0u32),
        (-1, 999),
        (0, 0),
        (0, 1),
        (86_399, 999),
        (86_400, 0),
        (951_782_399, 5),
        (951_782_400, 4),
        (1_700_000_000, 0),
        (253_402_300_799, 999),
    ];
    let texts: Vec<String> = times.iter().map(|(s, ms)| rfc3339_from_unix(*s, *ms)).collect();
    for pair in texts.windows(2) {
        assert!(pair[0] < pair[1]);
    }
    let now = now_rfc3339_utc();
    assert!(texts[8] < now && now < texts[9]);
}

#[test]
fn white_space_is_trimmed() {
    for space in ['\t', '\r', ' ', '\u{85}', '\u{a0}', '\u{1680}', '\u{2005}', '\u{2028}', '\u{3000}'] {
        assert_eq!(parse_remap_pair(&format!("{space}1{space}:{space}2{space}")), Ok((1, 2)));
    }
    for other in ['\u{8}', '\u{200b}', '\u{feff}'] {
        assert!(parse_remap_pair(&format!("{other}1:2")).is_err());
    }
}
