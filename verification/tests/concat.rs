use std::collections::{BTreeMap, BTreeSet};

use muxl::catalog::{AudioConfig, Catalog, VideoConfig};
use muxl::cbor::SegmenterEvent;
use muxl::concat::{Clock, ConcatHost, Concatenator, Minted};
use muxl::error::{invalid_mp4, Error};
use muxl::events::catalog_track_ids;
use muxl::moof::segment_index;
use muxl::segment::{segment_fmp4, Frame, GopSegment};

fn boxed(kind: &[u8], body: &[u8]) -> Vec<u8> {
    let mut b = Vec::new();
    b.extend_from_slice(&((body.len() + 8) as u32).to_be_bytes());
    b.extend_from_slice(kind);
    b.extend_from_slice(body);
    b
}

fn uuid_box(user_type: &[u8], body: &[u8]) -> Vec<u8> {
    let mut b = user_type.to_vec();
    b.extend_from_slice(body);
    boxed(b"uuid", &b)
}

/// A `moof` of one sample.
fn moof(seq: u32, tid: u32, dts: u64, duration: u32, size: u32, sync: bool) -> Vec<u8> {
    let mut mfhd = vec![0, 0, 0, 0];
    mfhd.extend_from_slice(&seq.to_be_bytes());
    let mut tfhd = vec![0, 0x02, 0, 0];
    tfhd.extend_from_slice(&tid.to_be_bytes());
    let mut tfdt = vec![1, 0, 0, 0];
    tfdt.extend_from_slice(&dts.to_be_bytes());
    let mut trun = vec![0, 0, 0x07, 0x01];
    trun.extend_from_slice(&1u32.to_be_bytes());
    trun.extend_from_slice(&108u32.to_be_bytes());
    trun.extend_from_slice(&duration.to_be_bytes());
    trun.extend_from_slice(&size.to_be_bytes());
    let flags: u32 = if sync { 0x0200_0000 } else { 0x0101_0000 };
    trun.extend_from_slice(&flags.to_be_bytes());
    let mut traf = boxed(b"tfhd", &tfhd);
    traf.extend_from_slice(&boxed(b"tfdt", &tfdt));
    traf.extend_from_slice(&boxed(b"trun", &trun));
    let mut body = boxed(b"mfhd", &mfhd);
    body.extend_from_slice(&boxed(b"traf", &traf));
    boxed(b"moof", &body)
}

fn frame(seq: u32, tid: u32, dts: u64, duration: u32, sync: bool) -> Frame {
    let payload: Vec<u8> = (0..(seq * 3 + tid)).map(|i| (i + seq) as u8).collect();
    let head = moof(seq, tid, dts, duration, payload.len() as u32, sync);
    let mut data = head.clone();
    data.extend_from_slice(&boxed(b"mdat", &payload));
    Frame {
        track_id: tid,
        data,
        moof_size: head.len() as u32,
        duration,
        size: payload.len() as u32,
        cts_offset: 0,
        is_sync: sync,
        decode_time: dts,
    }
}

/// The frames of `gops` groups, video on track 1 and audio on track 2.
fn frames(gops: u32) -> Vec<Frame> {
    let mut out = Vec::new();
    let mut seq = 0;
    for g in 0..gops {
        for i in 0..3u32 {
            seq += 1;
            out.push(frame(seq, 1, (g * 3 + i) as u64 * 1001, 1001, i == 0));
        }
        for i in 0..2u32 {
            seq += 1;
            out.push(frame(seq, 2, (g * 2 + i) as u64 * 960, 960, true));
        }
    }
    out
}

fn catalog_of(tids: &[u32]) -> Catalog {
    let mut c = Catalog::default();
    for &tid in tids {
        if tid == 1 {
            c.insert_video(
                "video0".to_string(),
                VideoConfig {
                    codec: "avc1.64001f".to_string(),
                    coded_width: 1280,
                    coded_height: 720,
                    framerate: None,
                    display_aspect_width: None,
                    display_aspect_height: None,
                    bitrate: None,
                    description: vec![1, 2, 3],
                    track_id: 1,
                    timescale: 30_000,
                },
            );
        } else {
            c.insert_audio(
                format!("audio{tid}"),
                AudioConfig {
                    codec: "opus".to_string(),
                    sample_rate: 48_000,
                    number_of_channels: 2,
                    bitrate: None,
                    description: vec![4, 5],
                    track_id: tid,
                    timescale: 48_000,
                },
            );
        }
    }
    c
}

fn init_of(c: &Catalog) -> Result<Vec<u8>, Error> {
    let ids: Vec<u8> = catalog_track_ids(c).iter().map(|&t| t as u8).collect();
    let mut out = boxed(b"ftyp", b"muxl0000");
    out.extend_from_slice(&boxed(b"moov", &ids));
    Ok(out)
}

fn read_catalog(moov: &[u8]) -> Result<Catalog, Error> {
    let ids: Vec<u32> = moov[8..].iter().map(|&b| b as u32).collect();
    Ok(catalog_of(&ids))
}

fn check_moof(moof: &[u8]) -> Result<(), Error> {
    if moof.len() == 8 {
        return Err(invalid_mp4("empty moof"));
    }
    Ok(())
}

fn mint(
    _moov: &[u8],
    moof: &[u8],
    payload: &[u8],
    clocks: &BTreeMap<u32, Clock>,
) -> Result<Minted, Error> {
    let mut data = moof.to_vec();
    data.extend_from_slice(&boxed(b"mdat", payload));
    let index = segment_index(&data)?;
    let s = &index.samples;
    let made = Frame {
        track_id: index.track_id,
        data: data.clone(),
        moof_size: moof.len() as u32,
        duration: s.durations[0],
        size: s.sizes[0],
        cts_offset: s.cts_offsets[0],
        is_sync: !s.sync_indices.is_empty(),
        decode_time: index.first_decode_time,
    };
    Ok(Minted { frames: vec![made], clocks: clocks.clone() })
}

fn fed(concat: &mut Concatenator, data: &[u8]) -> Vec<SegmenterEvent> {
    let host = ConcatHost { read_catalog, build_init: init_of, check_moof, mint };
    concat.feed(data, &host).unwrap()
}

fn all_of(data: &[u8]) -> Vec<SegmenterEvent> {
    let mut concat = Concatenator::new();
    let mut events = fed(&mut concat, data);
    events.extend(concat.flush().unwrap());
    events
}

fn gops_in(events: &[SegmenterEvent]) -> Vec<&GopSegment> {
    events
        .iter()
        .filter_map(|e| match e {
            SegmenterEvent::Segment(s) => Some(s),
            _ => None,
        })
        .collect()
}

fn init_count(events: &[SegmenterEvent]) -> usize {
    events.iter().filter(|e| matches!(e, SegmenterEvent::InitSegment { .. })).count()
}

/// A fragmented MP4 with `uuid_atom` between `ftyp` and `moov`, and its GOPs.
fn build_streamplace_fmp4(uuid_atom: &[u8]) -> (Vec<u8>, Vec<GopSegment>) {
    let catalog = catalog_of(&[1, 2]);
    let init = init_of(&catalog).unwrap();
    let gops = segment_fmp4(&catalog, &frames(3));
    let mut fmp4 = init[..16].to_vec();
    fmp4.extend_from_slice(uuid_atom);
    fmp4.extend_from_slice(&init[16..]);
    for gop in &gops {
        for data in gop.tracks.values() {
            fmp4.extend_from_slice(data);
        }
    }
    (fmp4, gops)
}

fn flat_mp4() -> Vec<u8> {
    let catalog = catalog_of(&[1, 2]);
    let mut body = Vec::new();
    for gop in segment_fmp4(&catalog, &frames(3)) {
        for data in gop.tracks.values() {
            body.extend_from_slice(data);
        }
    }
    let mut out = init_of(&catalog).unwrap();
    out.extend_from_slice(&boxed(b"mdat", &body));
    out
}

/// A frame of 0.4 seconds of the audio track `tid`.
fn audio_frame(tid: u32, n: u64) -> Frame {
    let m = moof(1, tid, n * 19_200, 19_200, 2, true);
    let mut data = m.clone();
    data.extend_from_slice(&boxed(b"mdat", &[tid as u8, n as u8]));
    Frame {
        track_id: tid,
        data,
        moof_size: m.len() as u32,
        duration: 19_200,
        size: 2,
        cts_offset: 0,
        is_sync: true,
        decode_time: n * 19_200,
    }
}

#[test]
fn audio_only_streams_are_cut_at_every_second() {
    let catalog = catalog_of(&[2, 3]);
    let mut frames = Vec::new();
    for n in 0..8 {
        frames.push(audio_frame(2, n));
        frames.push(audio_frame(3, n));
    }
    let gops = segment_fmp4(&catalog, &frames);
    let counts: Vec<u32> = gops.iter().map(|g| g.sample_counts[&2]).collect();
    assert_eq!(counts, [3, 2, 3]);
    assert_eq!(gops.iter().map(|g| g.number).collect::<Vec<_>>(), [1, 2, 3]);
    assert_eq!(gops[1].first_decode_times[&3], 3 * 19_200);

    let mut fmp4 = init_of(&catalog).unwrap();
    for gop in &gops {
        for data in gop.tracks.values() {
            fmp4.extend_from_slice(data);
        }
    }
    let events = all_of(&fmp4);
    let again = gops_in(&events);
    assert_eq!(again.len(), 3);
    for (a, b) in again.iter().zip(&gops) {
        assert_eq!(a.tracks, b.tracks);
    }
}

#[test]
fn test_concat_single_fmp4_no_uuid() {
    let (fmp4, original_gops) = build_streamplace_fmp4(&[]);
    let events = all_of(&fmp4);
    assert_eq!(init_count(&events), 1);
    let gops = gops_in(&events);
    assert_eq!(gops.len(), original_gops.len());
    for (concat_gop, orig_gop) in gops.iter().zip(original_gops.iter()) {
        assert_eq!(
            concat_gop.tracks, orig_gop.tracks,
            "GOP {} tracks should match",
            concat_gop.number
        );
    }
}

#[test]
fn test_concat_uuid_prepended_to_segments() {
    let test_uuid: [u8; 16] = [0xDE, 0xAD, 0xBE, 0xEF, 0, 0, 0, 0, 0, 0, 0, 0, 0, 0, 0, 1];
    let uuid_atom = uuid_box(&test_uuid, b"s2pa-payload");
    let (fmp4, original_gops) = build_streamplace_fmp4(&uuid_atom);
    let events = all_of(&fmp4);
    let gops = gops_in(&events);
    assert_eq!(gops.len(), original_gops.len());
    for (concat_gop, orig_gop) in gops.iter().zip(original_gops.iter()) {
        for (tid, concat_data) in &concat_gop.tracks {
            let orig_data = orig_gop.tracks.get(tid).expect("missing track");
            assert!(
                concat_data.starts_with(&uuid_atom),
                "GOP {} track {} should start with UUID atom",
                concat_gop.number,
                tid
            );
            assert_eq!(
                &concat_data[uuid_atom.len()..],
                orig_data.as_slice(),
                "GOP {} track {} data should match after UUID",
                concat_gop.number,
                tid
            );
        }
    }
}

#[test]
fn test_concat_duplicate_fmp4_single_init() {
    let uuid_atom = uuid_box(&[0x01; 16], &[]);
    let (fmp4, _) = build_streamplace_fmp4(&uuid_atom);
    let mut doubled = fmp4.clone();
    doubled.extend_from_slice(&fmp4);
    let events = all_of(&doubled);
    assert_eq!(init_count(&events), 1, "identical fMP4s should emit init only once");
    let gops = gops_in(&events);
    assert_eq!(gops.len(), 6);
    for gop in &gops {
        for (tid, data) in &gop.tracks {
            assert!(
                data.starts_with(&uuid_atom),
                "GOP {} track {} should have UUID prefix",
                gop.number,
                tid
            );
        }
    }
}

#[test]
fn test_concat_byte_at_a_time() {
    let uuid_atom = uuid_box(&[0xAB; 16], b"test");
    let (fmp4, _) = build_streamplace_fmp4(&uuid_atom);
    let whole_events = all_of(&fmp4);

    let mut concat_byte = Concatenator::new();
    let mut byte_events = Vec::new();
    for b in &fmp4 {
        byte_events.extend(fed(&mut concat_byte, &[*b]));
    }
    byte_events.extend(concat_byte.flush().unwrap());

    let whole_gops = gops_in(&whole_events);
    let byte_gops = gops_in(&byte_events);
    assert_eq!(whole_gops.len(), byte_gops.len());
    for (w, b) in whole_gops.iter().zip(byte_gops.iter()) {
        assert_eq!(w.tracks, b.tracks, "GOP {} mismatch", w.number);
    }
}

#[test]
fn test_concat_segments_match_segmenter() {
    let uuid_atom = uuid_box(&[0x42; 16], &[]);
    let (fmp4, original_gops) = build_streamplace_fmp4(&uuid_atom);
    let events = all_of(&fmp4);
    let concat_gops = gops_in(&events);
    assert_eq!(concat_gops.len(), original_gops.len());
    for (concat_gop, orig_gop) in concat_gops.iter().zip(original_gops.iter()) {
        for (tid, concat_data) in &concat_gop.tracks {
            let orig_data = orig_gop.tracks.get(tid).expect("missing track");
            let after_uuid = &concat_data[uuid_atom.len()..];
            assert_eq!(
                after_uuid,
                orig_data.as_slice(),
                "GOP {} track {} content mismatch",
                concat_gop.number,
                tid
            );
        }
    }
}

#[test]
fn test_concat_flat_mp4_input() {
    let events = all_of(&flat_mp4());
    assert_eq!(init_count(&events), 1, "expected one init segment");
    let gops = gops_in(&events);
    assert!(!gops.is_empty(), "concat must emit segments from flat MP4 input");
    let mut seen_tracks = BTreeSet::new();
    for gop in &gops {
        for tid in gop.tracks.keys() {
            seen_tracks.insert(*tid);
        }
    }
    let expected: BTreeSet<u32> = BTreeSet::from([1, 2]);
    assert_eq!(seen_tracks, expected, "expected all catalog tracks across emitted segments");
}

#[test]
fn test_concat_flushes_at_envelope_end_without_flush_call() {
    let flat = flat_mp4();
    let mut concat = Concatenator::new();
    let mut events = Vec::new();
    for _ in 0..3 {
        events.extend(fed(&mut concat, &flat));
    }
    let segs = gops_in(&events);
    assert!(
        segs.len() >= 3,
        "expected at least 3 segments without flush() (one per envelope), got {}",
        segs.len(),
    );
}

#[test]
fn test_concat_flat_mp4_byte_at_a_time() {
    let mut concat = Concatenator::new();
    let mut events = Vec::new();
    for b in &flat_mp4() {
        events.extend(fed(&mut concat, &[*b]));
    }
    events.extend(concat.flush().unwrap());
    assert!(
        !gops_in(&events).is_empty(),
        "byte-at-a-time flat MP4 input must produce segments"
    );
}

#[test]
fn concat_starts_anew_with_another_catalog() {
    let mut other = init_of(&catalog_of(&[1])).unwrap();
    let f = frame(1, 1, 0, 1001, true);
    other.extend_from_slice(&f.data);
    let (mut fmp4, _) = build_streamplace_fmp4(&[]);
    fmp4.extend_from_slice(&other);
    let events = all_of(&fmp4);
    assert_eq!(init_count(&events), 2);
    assert_eq!(gops_in(&events).len(), 4);
}

#[test]
fn concat_hands_on_what_the_host_refuses() {
    let host = ConcatHost { read_catalog, build_init: init_of, check_moof, mint };
    let mut concat = Concatenator::default();
    let mut data = init_of(&catalog_of(&[1])).unwrap();
    data.extend_from_slice(&boxed(b"moof", &[]));
    let e = concat.feed(&data, &host).unwrap_err();
    assert_eq!(e.message(), "empty moof");
}

#[test]
fn how_the_input_is_cut_does_not_matter() {
    let (fmp4, _) = build_streamplace_fmp4(&boxed(b"uuid", &[7; 20]));
    let whole = format!("{:?}", all_of(&fmp4));
    for size in [1usize, 3, 100] {
        let mut concat = Concatenator::new();
        let mut events = Vec::new();
        for piece in fmp4.chunks(size) {
            events.extend(fed(&mut concat, piece));
        }
        events.extend(concat.flush().unwrap());
        assert_eq!(format!("{events:?}"), whole);
    }
}

#[test]
fn the_same_file_twice_gives_one_init() {
    for file in [build_streamplace_fmp4(&[]).0, flat_mp4()] {
        let n = gops_in(&all_of(&file)).len();
        let mut twice = file.clone();
        twice.extend_from_slice(&file);
        let events = all_of(&twice);
        assert!(matches!(events[0], SegmenterEvent::InitSegment { .. }));
        assert_eq!(init_count(&events), 1);
        let numbers: Vec<u32> = gops_in(&events).iter().map(|g| g.number).collect();
        assert_eq!(numbers, (1..=2 * n as u32).collect::<Vec<_>>());
    }
}

#[test]
fn a_uuid_box_goes_before_every_track_and_changes_nothing_else() {
    let uuid = boxed(b"uuid", &[9; 16]);
    let plain = all_of(&build_streamplace_fmp4(&[]).0);
    let marked = all_of(&build_streamplace_fmp4(&uuid).0);
    let (plain, marked) = (gops_in(&plain), gops_in(&marked));
    assert_eq!(plain.len(), marked.len());
    for (p, m) in plain.iter().zip(&marked) {
        assert_eq!(p.durations, m.durations);
        assert_eq!(p.sample_counts, m.sample_counts);
        for (tid, data) in &p.tracks {
            let mut want = uuid.clone();
            want.extend_from_slice(data);
            assert_eq!(m.tracks[tid], want);
        }
    }
}

/// The header of a box with a long size of 0.
fn empty_large(kind: &[u8]) -> Vec<u8> {
    let mut b = vec![0, 0, 0, 1];
    b.extend_from_slice(kind);
    b.extend_from_slice(&[0; 8]);
    b
}

#[test]
fn boxes_without_bytes_are_refused() {
    let host = ConcatHost { read_catalog, build_init: init_of, check_moof, mint };
    let mut concat = Concatenator::new();
    let e = concat.feed(&empty_large(b"moov"), &host).unwrap_err();
    assert!(e.message().contains("empty moov header"));
    let mut concat = Concatenator::new();
    concat.feed(&build_streamplace_fmp4(&[]).0, &host).unwrap();
    let e = concat.feed(&empty_large(b"moof"), &host).unwrap_err();
    assert!(e.message().contains("empty moof header"));
    let mut concat = Concatenator::new();
    assert!(concat.feed(&empty_large(b"moof"), &host).unwrap().is_empty());
}

#[test]
fn a_moov_ends_the_envelope() {
    let moov = boxed(b"moov", &[1]);
    let (a, b) = (frame(1, 1, 0, 1001, true).data, frame(2, 1, 1001, 1001, false).data);
    let mut input = boxed(b"ftyp", b"muxl0000");
    input.extend_from_slice(&moov);
    input.extend_from_slice(&((8 + moov.len() + a.len()) as u32).to_be_bytes());
    input.extend_from_slice(b"mdat");
    for part in [&moov, &a, &b] {
        input.extend_from_slice(part);
    }
    let mut concat = Concatenator::new();
    let events = fed(&mut concat, &input);
    assert_eq!(init_count(&events), 1);
    assert_eq!(gops_in(&events).len(), 0);
    let rest = concat.flush().unwrap();
    assert_eq!(gops_in(&rest).len(), 1);
    assert_eq!(gops_in(&rest)[0].tracks[&1], [a, b].concat());
}
