use std::cell::{Cell, RefCell};
use std::collections::BTreeMap;

use muxl::boxes::MUXL_UUID;
use muxl::catalog::{AudioConfig, Catalog, VideoConfig};
use muxl::cbor::CborEvent;
use muxl::cli::{unwrap_all, wrap_buffers, wrap_plan, WrapArgs, WrapFormat};
use muxl::error::{invalid_mp4, Error};
use muxl::events::{
    catalog_track_ids, segment_events, segment_events_stream, segment_events_streaming,
    EventBuilder,
};
use muxl::metafile::{metafiles_stream, segment_metafile, synthesize_flat_header, MetafileSegment};
use muxl::moof::segment_index;
use muxl::present::{write_flat, write_flat_from_m4s, write_fmp4, SegmentMetadata};
use muxl::reader::{
    aggregate_catalog, locate_segment_stream, read_segments_at, scan_segments,
    segment_stream_start, unwrap, SegmentOffset,
};
use muxl::segment::{segment_fmp4, Frame, GopSegment};
use muxl::stream::{scan_wrapper_stream, SegmentScanner};

fn boxed(kind: &[u8], body: &[u8]) -> Vec<u8> {
    let mut b = Vec::new();
    b.extend_from_slice(&((body.len() + 8) as u32).to_be_bytes());
    b.extend_from_slice(kind);
    b.extend_from_slice(body);
    b
}

fn uuid_box(user_type: &[u8], body: &[u8]) -> Vec<u8> {
    let mut b = user_type.to_vec();
    b.extend_from_slice(body);
    boxed(b"uuid", &b)
}

fn fake_c2pa(body: &[u8]) -> Vec<u8> {
    uuid_box(&[0xd8u8; 16], body)
}

/// A `moof` of one sample.
fn moof(seq: u32, tid: u32, dts: u64, duration: u32, size: u32, sync: bool) -> Vec<u8> {
    let mut mfhd = vec![0, 0, 0, 0];
    mfhd.extend_from_slice(&seq.to_be_bytes());
    let mut tfhd = vec![0, 0x02, 0, 0];
    tfhd.extend_from_slice(&tid.to_be_bytes());
    let mut tfdt = vec![1, 0, 0, 0];
    tfdt.extend_from_slice(&dts.to_be_bytes());
    let mut trun = vec![0, 0, 0x07, 0x01];
    trun.extend_from_slice(&1u32.to_be_bytes());
    trun.extend_from_slice(&108u32.to_be_bytes());
    trun.extend_from_slice(&duration.to_be_bytes());
    trun.extend_from_slice(&size.to_be_bytes());
    let flags: u32 = if sync { 0x0200_0000 } else { 0x0101_0000 };
    trun.extend_from_slice(&flags.to_be_bytes());
    let mut traf = boxed(b"tfhd", &tfhd);
    traf.extend_from_slice(&boxed(b"tfdt", &tfdt));
    traf.extend_from_slice(&boxed(b"trun", &trun));
    let mut body = boxed(b"mfhd", &mfhd);
    body.extend_from_slice(&boxed(b"traf", &traf));
    boxed(b"moof", &body)
}

fn frame(seq: u32, tid: u32, dts: u64, duration: u32, sync: bool) -> Frame {
    let payload: Vec<u8> = (0..(seq * 3 + tid)).map(|i| (i + seq) as u8).collect();
    let head = moof(seq, tid, dts, duration, payload.len() as u32, sync);
    let mut data = head.clone();
    data.extend_from_slice(&boxed(b"mdat", &payload));
    Frame {
        track_id: tid,
        data,
        moof_size: head.len() as u32,
        duration,
        size: payload.len() as u32,
        cts_offset: 0,
        is_sync: sync,
        decode_time: dts,
    }
}

/// The frames of `gops` groups, video on track 1 and audio on track 2.
fn frames(gops: u32) -> Vec<Frame> {
    let mut out = Vec::new();
    let mut seq = 0;
    for g in 0..gops {
        for i in 0..3u32 {
            seq += 1;
            out.push(frame(seq, 1, (g * 3 + i) as u64 * 1001, 1001, i == 0));
        }
        for i in 0..2u32 {
            seq += 1;
            out.push(frame(seq, 2, (g * 2 + i) as u64 * 960, 960, true));
        }
    }
    out
}

fn catalog_of(tids: &[u32]) -> Catalog {
    let mut c = Catalog::default();
    for &tid in tids {
        if tid == 1 {
            c.insert_video(
                "video0".to_string(),
                VideoConfig {
                    codec: "avc1.64001f".to_string(),
                    coded_width: 1280,
                    coded_height: 720,
                    framerate: None,
                    display_aspect_width: None,
                    display_aspect_height: None,
                    bitrate: None,
                    description: vec![1, 2, 3],
                    track_id: 1,
                    timescale: 30_000,
                },
            );
        } else {
            c.insert_audio(
                format!("audio{tid}"),
                AudioConfig {
                    codec: "opus".to_string(),
                    sample_rate: 48_000,
                    number_of_channels: 2,
                    bitrate: None,
                    description: vec![4, 5],
                    track_id: tid,
                    timescale: 48_000,
                },
            );
        }
    }
    c
}

/// Reads the catalog of a segment: the byte behind the user type is the track id.
fn decode(data: &[u8]) -> Result<Catalog, Error> {
    let at = data.windows(16).position(|w| w == MUXL_UUID);
    match at {
        Some(i) if i + 16 < data.len() => match data[i + 16] {
            0 => Ok(Catalog::default()),
            tid => Ok(catalog_of(&[tid as u32])),
        },
        _ => Err(invalid_mp4("no catalog")),
    }
}

fn build_init(c: &Catalog) -> Result<Vec<u8>, Error> {
    let ids: Vec<u8> = catalog_track_ids(c).iter().map(|&t| t as u8).collect();
    let mut out = boxed(b"ftyp", b"muxl0000");
    out.extend_from_slice(&boxed(b"moov", &ids));
    Ok(out)
}

fn build_track_inits(c: &Catalog) -> Result<BTreeMap<u32, Vec<u8>>, Error> {
    Ok(catalog_track_ids(c).iter().map(|&t| (t, boxed(b"moov", &[t as u8]))).collect())
}

/// A flat header: what it knows of the GOPs, where the first of them begins, and the
/// header of the `mdat` around the body.
fn build_header(c: &Catalog, metas: &Vec<SegmentMetadata>) -> Result<Vec<u8>, Error> {
    let mut facts = Vec::new();
    let mut total = 8u64;
    for (i, m) in metas.iter().enumerate() {
        facts.extend_from_slice(format!("{:?}{:?}", m.track_byte_sizes, m.samples).as_bytes());
        if i == 0 {
            facts.extend_from_slice(format!("{:?}", m.first_decode_times).as_bytes());
        }
        total += m.track_byte_sizes.values().sum::<u64>();
    }
    facts.extend_from_slice(format!("{:?}", catalog_track_ids(c)).as_bytes());
    let mut out = boxed(b"ftyp", b"muxl0000");
    out.extend_from_slice(&boxed(b"moov", &facts));
    out.extend_from_slice(&(total as u32).to_be_bytes());
    out.extend_from_slice(b"mdat");
    Ok(out)
}

/// The GOPs of a fixture, each track headed by the box with its catalog.
fn canonical_gops(gops: u32) -> Vec<GopSegment> {
    let mut out = segment_fmp4(&catalog_of(&[1, 2]), &frames(gops));
    for gop in &mut out {
        let ids: Vec<u32> = gop.tracks.keys().copied().collect();
        for tid in ids {
            let mut data = uuid_box(&MUXL_UUID, &[tid as u8]);
            data.extend_from_slice(&gop.tracks[&tid]);
            let index = segment_index(&data).unwrap();
            assert_eq!(index.track_id, tid);
            gop.samples.insert(tid, index.samples);
            gop.tracks.insert(tid, data);
        }
    }
    out
}

fn gops_of(fixture: &str) -> u32 {
    match fixture {
        "h264-aac.mp4" => 2,
        _ => 3,
    }
}

/// The canonical segments of a fixture, in interleave order.
fn segments_in_order(fixture: &str) -> (Catalog, Vec<(u32, Vec<u8>)>) {
    let mut ordered = Vec::new();
    for gop in canonical_gops(gops_of(fixture)) {
        for (tid, bytes) in gop.tracks {
            ordered.push((tid, bytes));
        }
    }
    (catalog_of(&[1, 2]), ordered)
}

/// The flat MP4 that the writer of GOPs makes of a fixture.
fn flat_wrapper(fixture: &str) -> Vec<u8> {
    let gops = canonical_gops(gops_of(fixture));
    let first: BTreeMap<u32, u64> = [(1, 0), (2, 0)].into_iter().collect();
    let mut out = Vec::new();
    write_flat(&catalog_of(&[1, 2]), &gops, &first, &build_header, &mut out).unwrap();
    out
}

fn fmp4_wrapper(fixture: &str) -> Vec<u8> {
    let (catalog, ordered) = segments_in_order(fixture);
    let mut fmp4 = build_init(&catalog).unwrap();
    for (_, seg) in &ordered {
        fmp4.extend_from_slice(seg);
    }
    fmp4
}

fn text_of(e: Error) -> String {
    e.message()
}

#[test]
fn unwrap_fmp4_recovers_segments_verbatim() {
    let (catalog, ordered) = segments_in_order("h264-opus-frag.mp4");
    let mut fmp4 = build_init(&catalog).unwrap();
    for (_, seg) in &ordered {
        fmp4.extend_from_slice(seg);
    }
    let recovered = unwrap(&fmp4, &decode).unwrap();
    assert_eq!(recovered.len(), ordered.len(), "segment count mismatch");
    for (rec, (tid, seg)) in recovered.iter().zip(ordered.iter()) {
        assert_eq!(rec.track_id, *tid, "track id mismatch");
        assert_eq!(rec.data, seg.as_slice(), "segment bytes must be verbatim");
    }
}

#[test]
fn unwrap_bare_m4s_stream_recovers_segments() {
    let (_catalog, ordered) = segments_in_order("h264-opus-frag.mp4");
    let mut stream = Vec::new();
    for (_, seg) in &ordered {
        stream.extend_from_slice(seg);
    }
    let recovered = unwrap(&stream, &decode).unwrap();
    assert_eq!(recovered.len(), ordered.len());
    for (rec, (tid, seg)) in recovered.iter().zip(ordered.iter()) {
        assert_eq!(rec.track_id, *tid);
        assert_eq!(rec.data, seg.as_slice());
    }
}

#[test]
fn unwrap_flat_mp4_descends_envelope() {
    let flat = flat_wrapper("h264-opus-frag.mp4");
    let recovered = unwrap(&flat, &decode).unwrap();
    assert!(!recovered.is_empty(), "should recover segments from flat MP4");

    let payload = locate_segment_stream(&flat).unwrap();
    let envelope = &flat[payload.start..];
    let joined: Vec<u8> = recovered.iter().flat_map(|s| s.data.iter().copied()).collect();
    assert_eq!(joined.as_slice(), envelope, "segments must reconstruct the mdat envelope verbatim");
    for s in &recovered {
        assert_eq!(format!("{:?}", decode(s.data).unwrap()), format!("{:?}", s.catalog));
    }
}

#[test]
fn unwrap_keeps_c2pa_prefix_with_segment() {
    let (_catalog, ordered) = segments_in_order("h264-opus-frag.mp4");
    let mut stream = Vec::new();
    let mut signed = Vec::new();
    for (i, (_, seg)) in ordered.iter().enumerate() {
        let prefix = fake_c2pa(format!("manifest {i}").as_bytes());
        let mut s = prefix.clone();
        s.extend_from_slice(seg);
        stream.extend_from_slice(&s);
        signed.push(s);
    }
    let recovered = unwrap(&stream, &decode).unwrap();
    assert_eq!(recovered.len(), ordered.len());
    for (rec, expected) in recovered.iter().zip(signed.iter()) {
        assert_eq!(rec.data, expected.as_slice(), "c2pa prefix must stay with its segment");
        assert!(rec.data.starts_with(&[0, 0, 0]), "segment should start with the c2pa uuid box");
    }
}

#[test]
fn unwrap_skips_wrapper_c2pa_before_moov() {
    let flat = flat_wrapper("h264-opus-frag.mp4");
    let baseline = unwrap(&flat, &decode).unwrap();

    let ftyp_end = 16;
    assert_eq!(&flat[4..8], b"ftyp");
    let wrapper = fake_c2pa(b"fake wrapper manifest");
    let mut wrapped = Vec::new();
    wrapped.extend_from_slice(&flat[..ftyp_end]);
    wrapped.extend_from_slice(&wrapper);
    wrapped.extend_from_slice(&flat[ftyp_end..]);

    let recovered = unwrap(&wrapped, &decode).unwrap();
    assert_eq!(
        recovered.len(),
        baseline.len(),
        "wrapper uuid must not change the recovered segment count"
    );
    for (r, b) in recovered.iter().zip(baseline.iter()) {
        assert_eq!(r.data, b.data, "segments recovered verbatim past the wrapper box");
    }
}

#[test]
fn segment_events_reconstructs_event_stream() {
    let (_catalog, ordered) = segments_in_order("h264-opus-frag.mp4");
    let fmp4 = fmp4_wrapper("h264-opus-frag.mp4");

    let events = segment_events(&fmp4, &decode, &build_init, &build_track_inits).unwrap();
    assert!(matches!(events[0], CborEvent::Init { .. }), "first event is Init");

    let mut seg_count = 0;
    let mut byte_total = 0u64;
    for e in &events {
        if let CborEvent::Segment { durations, sample_counts, body_size, .. } = e {
            seg_count += 1;
            byte_total += body_size;
            assert!(durations.len() != 0, "segment has tracks");
            for i in 0..durations.len() {
                assert!(*durations.value(i) > 0, "duration must be non-zero");
            }
            for i in 0..sample_counts.len() {
                assert!(*sample_counts.value(i) > 0, "sample count must be non-zero");
            }
        }
    }
    assert!(seg_count >= 2, "fixture should yield multiple GoPs, got {seg_count}");
    let expected: u64 = ordered.iter().map(|(_, b)| b.len() as u64).sum();
    assert_eq!(byte_total, expected, "verbatim segment bytes preserved");
}

#[test]
fn events_carry_exact_figures() {
    let fmp4 = fmp4_wrapper("h264-opus-frag.mp4");
    let events = segment_events(&fmp4, &decode, &build_init, &build_track_inits).unwrap();
    assert_eq!(events.len(), 4);
    match &events[0] {
        CborEvent::Init { version, data, track_inits, .. } => {
            assert_eq!(*version, 1);
            assert_eq!(data, &build_init(&catalog_of(&[1, 2])).unwrap());
            assert_eq!(track_inits.len(), 2);
            assert_eq!(track_inits.get("2").unwrap().0, boxed(b"moov", &[2]));
        }
        _ => panic!("no init"),
    }
    match &events[2] {
        CborEvent::Segment { durations, sample_counts, first_decode_times, duration_us, .. } => {
            assert_eq!(durations.get("1"), Some(&3003));
            assert_eq!(durations.get("2"), Some(&1920));
            assert_eq!(sample_counts.get("1"), Some(&3));
            assert_eq!(first_decode_times.get("1"), Some(&3003));
            assert_eq!(first_decode_times.get("2"), Some(&1920));
            assert_eq!(*duration_us, 100_100);
        }
        _ => panic!("no segment"),
    }
}

fn told_slurp(wrapper: &[u8]) -> String {
    let out = RefCell::new(Vec::new());
    segment_events_streaming(wrapper, &decode, &build_init, &build_track_inits, &|e| {
        out.borrow_mut().push(e);
        Ok(())
    })
    .unwrap();
    format!("{:?}", out.into_inner())
}

fn told_stream(wrapper: &[u8], chunk: usize) -> String {
    let chunks: Vec<Vec<u8>> = wrapper.chunks(chunk).map(|c| c.to_vec()).collect();
    let out = RefCell::new(Vec::new());
    segment_events_stream(&chunks, &decode, &build_init, &build_track_inits, &|e| {
        out.borrow_mut().push(e);
        Ok(())
    })
    .unwrap();
    format!("{:?}", out.into_inner())
}

#[test]
fn stream_events_match_slurp_fmp4() {
    let fmp4 = fmp4_wrapper("h264-opus-frag.mp4");
    let slurp = told_slurp(&fmp4);
    assert!(!slurp.is_empty(), "fixture must produce events");
    for chunk in [1usize, 7, 4096, usize::MAX] {
        assert_eq!(
            told_stream(&fmp4, chunk),
            slurp,
            "stream (chunk={chunk}) must equal slurp for fMP4"
        );
    }
}

#[test]
fn events_are_sent_as_segments_arrive() {
    let fmp4 = fmp4_wrapper("h264-opus-frag.mp4");
    let mut scanner = SegmentScanner::new();
    let mut builder = EventBuilder::new();
    let mut out = Vec::new();
    let mut counts = Vec::new();
    for piece in fmp4.chunks(64) {
        let found = scanner.feed(piece);
        assert!(found.error.is_none());
        for segment in &found.segments {
            builder.take(segment, &decode, &build_init, &build_track_inits, &mut out).unwrap();
            counts.push(out.len());
        }
    }
    for segment in &scanner.finish().segments {
        builder.take(segment, &decode, &build_init, &build_track_inits, &mut out).unwrap();
        counts.push(out.len());
    }
    builder.end(&build_init, &build_track_inits, &mut out).unwrap();
    assert_eq!(counts[..4], [0, 0, 2, 2]);
    assert_eq!(format!("{out:?}"), told_slurp(&fmp4));
    let mut none = Vec::new();
    let refused = builder.take(b"\0\0\0\x08moof", &decode, &build_init, &build_track_inits, &mut none);
    assert!(refused.is_err());
    assert!(none.is_empty());
}

#[test]
fn stream_events_match_slurp_bare_m4s() {
    let (_catalog, ordered) = segments_in_order("h264-opus-frag.mp4");
    let mut stream = Vec::new();
    for (_, seg) in &ordered {
        stream.extend_from_slice(seg);
    }
    assert_eq!(told_stream(&stream, 5), told_slurp(&stream));
}

#[test]
fn stream_events_match_slurp_flat() {
    let flat = flat_wrapper("h264-opus-frag.mp4");
    assert_eq!(told_stream(&flat, 3), told_slurp(&flat));
}

#[test]
fn stream_events_match_slurp_signed_segments() {
    let (catalog, ordered) = segments_in_order("h264-opus-frag.mp4");
    let mut fmp4 = build_init(&catalog).unwrap();
    for (i, (_, seg)) in ordered.iter().enumerate() {
        fmp4.extend_from_slice(&fake_c2pa(format!("manifest {i}").as_bytes()));
        fmp4.extend_from_slice(seg);
    }
    assert_eq!(told_stream(&fmp4, 9), told_slurp(&fmp4));
}

#[test]
fn unwrap_rejects_non_segment_stream() {
    // A moof with no preceding uuid is not a canonical segment stream.
    let bytes = b"\x00\x00\x00\x08moof".to_vec();
    assert!(unwrap(&bytes, &decode).is_err());
}

#[test]
fn unwrap_reports_what_it_cannot_take() {
    let mut no_track = uuid_box(&MUXL_UUID, &[0]);
    no_track.extend_from_slice(&frame(1, 1, 0, 1, true).data);
    match unwrap(&no_track, &decode) {
        Err(e) => assert_eq!(text_of(e), "segment catalog describes no track"),
        Ok(_) => panic!("taken"),
    }
    let no_catalog = uuid_box(&MUXL_UUID, &[]);
    match unwrap(&no_catalog, &decode) {
        Err(e) => assert_eq!(text_of(e), "no catalog"),
        Ok(_) => panic!("taken"),
    }
    assert!(locate_segment_stream(b"not an mp4 at all").is_err());
}

#[test]
fn scanning_and_splitting_agree() {
    let flat = flat_wrapper("h264-aac.mp4");
    let span = locate_segment_stream(&flat).unwrap();
    let split = scan_segments(&flat[span.start..span.end]);
    assert!(split.error.is_none());
    let want: Vec<Vec<u8>> = split
        .segments
        .iter()
        .map(|s| flat[span.start + s.start..span.start + s.end].to_vec())
        .collect();
    assert_eq!(want.len(), 4);

    let whole = scan_wrapper_stream(&vec![flat.clone()]);
    assert!(whole.error.is_none());
    assert_eq!(whole.segments, want);

    let mut scanner = SegmentScanner::new();
    let mut got = Vec::new();
    for b in &flat {
        let out = scanner.feed(&[*b]);
        assert!(out.error.is_none());
        got.extend(out.segments);
    }
    let out = scanner.finish();
    assert!(out.error.is_none());
    got.extend(out.segments);
    assert_eq!(got, want);
}

fn flat_with_offsets(fixture: &str) -> (Vec<u8>, Vec<(Vec<u8>, u64)>) {
    let (catalog, ordered) = segments_in_order(fixture);
    let slices: Vec<&[u8]> = ordered.iter().map(|(_, s)| s.as_slice()).collect();
    let mut flat = Vec::new();
    write_flat_from_m4s(&catalog, &slices, &build_header, &mut flat).unwrap();

    let mut offsets = Vec::new();
    let mut running = 0u64;
    for (_, seg) in &ordered {
        offsets.push((seg.clone(), running));
        running += seg.len() as u64;
    }
    (flat, offsets)
}

#[test]
fn read_segments_at_indexes_a_flat_blob_by_fragment_offset() {
    let (flat, offsets) = flat_with_offsets("h264-opus-frag.mp4");

    let base = segment_stream_start(&flat).unwrap();
    assert!(base > 0, "a flat MP4 displaces its fragments");
    assert_eq!(
        base as usize + offsets.iter().map(|(s, _)| s.len()).sum::<usize>(),
        flat.len(),
        "fragments must fill the mdat envelope exactly"
    );

    for (want, offset) in &offsets {
        let got = read_segments_at(&flat, SegmentOffset::Stream(*offset), Some(1)).unwrap();
        assert_eq!(&got, want, "segment at fragment offset {offset}");
    }

    let first_three: Vec<u8> = offsets[..3].iter().flat_map(|(s, _)| s.clone()).collect();
    assert_eq!(read_segments_at(&flat, SegmentOffset::Stream(0), Some(3)).unwrap(), first_three);

    let all: Vec<u8> = offsets.iter().flat_map(|(s, _)| s.clone()).collect();
    assert_eq!(read_segments_at(&flat, SegmentOffset::Stream(0), None).unwrap(), all);
}

#[test]
fn read_segments_at_rejects_offsets_that_are_not_fragment_relative() {
    let (flat, offsets) = flat_with_offsets("h264-opus-frag.mp4");
    let base = segment_stream_start(&flat).unwrap();

    let (_, mid) = &offsets[offsets.len() / 2];
    assert!(
        read_segments_at(&flat, SegmentOffset::Stream(base + mid), Some(1)).is_err(),
        "an absolute offset must not be mistaken for a fragment offset"
    );
    assert_eq!(
        read_segments_at(&flat, SegmentOffset::File(base + mid), Some(1)).unwrap(),
        offsets[offsets.len() / 2].0,
        "SegmentOffset::File must not add the stream base"
    );
    assert!(read_segments_at(&flat, SegmentOffset::Stream(4), Some(1)).is_err());
    assert!(
        read_segments_at(&flat, SegmentOffset::Stream(0), Some(offsets.len() as u64 + 1)).is_err()
    );
}

#[test]
fn read_segments_at_says_what_is_wrong() {
    let (flat, offsets) = flat_with_offsets("h264-aac.mp4");
    let base = segment_stream_start(&flat).unwrap();
    let at_moof = offsets[0].0[..4].iter().fold(0u64, |n, b| n * 256 + *b as u64);
    match read_segments_at(&flat, SegmentOffset::Stream(at_moof), Some(1)) {
        Err(e) => assert_eq!(
            text_of(e),
            format!(
                "offset {at_moof} does not land on a segment boundary (found a moof box, expected uuid)"
            )
        ),
        Ok(_) => panic!("taken"),
    }
    let total = flat.len() as u64;
    match read_segments_at(&flat, SegmentOffset::Stream(total), Some(1)) {
        Err(e) => assert_eq!(
            text_of(e),
            format!(
                "segment offset {total} runs past the end of the input (segment stream starts at {base}, input is {total} bytes)"
            )
        ),
        Ok(_) => panic!("taken"),
    }
}

#[test]
fn segment_stream_start_handles_64bit_mdat_largesize() {
    let (flat, offsets) = flat_with_offsets("h264-opus-frag.mp4");
    let base = segment_stream_start(&flat).unwrap() as usize;
    let body = &flat[base..];

    let mut blob = Vec::new();
    blob.extend_from_slice(b"\x00\x00\x00\x10ftypmuxltest");
    blob.extend_from_slice(&1u32.to_be_bytes()); // size == 1: the size follows in 64 bits
    blob.extend_from_slice(b"mdat");
    blob.extend_from_slice(&((body.len() + 16) as u64).to_be_bytes());
    let header_len = blob.len() as u64;
    blob.extend_from_slice(body);

    assert_eq!(
        segment_stream_start(&blob).unwrap(),
        header_len,
        "largesize mdat payload starts 16 bytes past the box start"
    );
    let (want, offset) = &offsets[offsets.len() / 2];
    assert_eq!(&read_segments_at(&blob, SegmentOffset::Stream(*offset), Some(1)).unwrap(), want);
}

#[test]
fn write_fmp4_then_unwrap_round_trips() {
    let (catalog, ordered) = segments_in_order("h264-opus-frag.mp4");
    let slices: Vec<&[u8]> = ordered.iter().map(|(_, s)| s.as_slice()).collect();
    let mut fmp4 = Vec::new();
    write_fmp4(&catalog, &slices, &build_init, &mut fmp4).unwrap();
    assert!(fmp4.starts_with(&build_init(&catalog).unwrap()));

    let recovered = unwrap(&fmp4, &decode).unwrap();
    assert_eq!(recovered.len(), ordered.len());
    for (rec, (_, seg)) in recovered.iter().zip(ordered.iter()) {
        assert_eq!(rec.data, seg.as_slice(), "segment bytes must survive wrap and unwrap");
    }
}

#[test]
fn write_flat_from_m4s_matches_source_based_flat_writer() {
    let flat_ref = flat_wrapper("h264-opus-frag.mp4");
    let segs = unwrap(&flat_ref, &decode).unwrap();
    let catalog = aggregate_catalog(&segs);
    let slices: Vec<&[u8]> = segs.iter().map(|s| s.data).collect();
    let mut flat_mine = Vec::new();
    write_flat_from_m4s(&catalog, &slices, &build_header, &mut flat_mine).unwrap();
    assert_eq!(flat_mine, flat_ref, "write_flat_from_m4s must match the flat writer byte-for-byte");
}

#[test]
fn a_failing_host_leaves_the_output_alone() {
    fn no_init(_: &Catalog) -> Result<Vec<u8>, Error> {
        Err(invalid_mp4("no init"))
    }
    let mut out = vec![7];
    let r = write_fmp4(&catalog_of(&[1]), &[], &no_init, &mut out);
    assert_eq!(text_of(r.unwrap_err()), "no init");
    assert_eq!(out, vec![7]);
    let r = write_flat_from_m4s(&catalog_of(&[1]), &[b"junk"], &build_header, &mut out);
    assert!(r.is_err());
    assert_eq!(out, vec![7]);
}

fn metas_of(flat: &[u8]) -> Vec<MetafileSegment> {
    unwrap(flat, &decode)
        .unwrap()
        .iter()
        .map(|s| segment_metafile(s.data, &decode).unwrap())
        .collect()
}

fn assert_metafile_synth_matches_direct_flat(fixture: &str) {
    let flat = flat_wrapper(fixture);
    let segs = unwrap(&flat, &decode).unwrap();
    let metas = metas_of(&flat);
    let header = synthesize_flat_header(&metas, &build_header).unwrap();

    let mut assembled = header.bytes.clone();
    for s in &segs {
        assembled.extend_from_slice(s.data);
    }
    assert_eq!(
        assembled, flat,
        "metafile-synthesized flat MP4 must be byte-identical to the direct flat writer ({fixture})"
    );

    let body: u64 = segs.iter().map(|s| s.data.len() as u64).sum();
    assert_eq!(header.total_body, body);
    assert_eq!(header.segments.len(), segs.len());
    let mut expect = 0u64;
    for (lay, s) in header.segments.iter().zip(&segs) {
        assert_eq!(lay.body_offset, expect);
        assert_eq!(lay.body_size, s.data.len() as u64);
        expect += s.data.len() as u64;
    }
}

#[test]
fn metafile_synth_matches_direct_flat_h264_aac() {
    assert_metafile_synth_matches_direct_flat("h264-aac.mp4");
}

#[test]
fn metafile_synth_matches_direct_flat_h264_opus_frag() {
    assert_metafile_synth_matches_direct_flat("h264-opus-frag.mp4");
}

#[test]
fn metafiles_stream_matches_unwrap() {
    let flat = flat_wrapper("h264-opus-frag.mp4");
    let expected = metas_of(&flat);
    let chunks: Vec<Vec<u8>> = flat.chunks(11).map(|c| c.to_vec()).collect();
    let mut got = Vec::new();
    metafiles_stream(&chunks, &decode, &mut got).unwrap();
    assert_eq!(format!("{got:?}"), format!("{expected:?}"));
}

#[test]
fn a_metafile_holds_what_the_segment_says() {
    let (_c, ordered) = segments_in_order("h264-aac.mp4");
    let m = segment_metafile(&ordered[0].1, &decode).unwrap();
    assert_eq!(m.kind, "segment");
    assert_eq!(m.version, 1);
    assert_eq!(m.track_byte_sizes.get("1"), Some(&(ordered[0].1.len() as u64)));
    assert_eq!(m.durations.get("1"), Some(&3003));
    assert_eq!(m.sample_counts.get("1"), Some(&3));
    let s = m.samples.get("1").unwrap();
    assert_eq!(s.durations, vec![1001, 1001, 1001]);
    assert_eq!(s.sizes, vec![4, 7, 10]);
    assert_eq!(s.sync_indices, vec![1]);
    assert_eq!(ordered[0].1[s.offsets[0] as usize], 1);
    assert_eq!(ordered[0].1[s.offsets[1] as usize], 2);
    assert!(synthesize_flat_header(&[], &build_header).is_err());
}

#[test]
fn test_segment_fmp4_produces_bundled_gop_segments() {
    let catalog = catalog_of(&[1, 2]);
    let gops = segment_fmp4(&catalog, &frames(3));
    let num_tracks = catalog_track_ids(&catalog).len();
    assert!(num_tracks > 1, "fixture should have multiple tracks");
    assert!(!gops.is_empty(), "should produce GOP segments");
    for (i, gop) in gops.iter().enumerate() {
        assert_eq!(gop.number, (i + 1) as u32);
        assert_eq!(gop.tracks.len(), num_tracks, "GOP {} should have all tracks", gop.number);
        let track_ids: Vec<u32> = gop.tracks.keys().copied().collect();
        let mut sorted = track_ids.clone();
        sorted.sort();
        assert_eq!(track_ids, sorted);
    }
}

#[test]
fn test_segment_data_is_all_frame_data() {
    let all = frames(3);
    let frame_total: usize = all.iter().map(|f| f.data.len()).sum();
    let gops = segment_fmp4(&catalog_of(&[1, 2]), &all);
    let segment_total: usize =
        gops.iter().map(|g| g.tracks.values().map(|d| d.len()).sum::<usize>()).sum();
    assert_eq!(segment_total, frame_total, "segment bytes should equal total frame bytes");
}

#[test]
fn test_video_segments_start_with_keyframe() {
    for gop in segment_fmp4(&catalog_of(&[1, 2]), &frames(3)) {
        let mut data = uuid_box(&MUXL_UUID, &[1]);
        data.extend_from_slice(&gop.tracks[&1]);
        let index = segment_index(&data).unwrap();
        assert_eq!(
            index.samples.sync_indices.first(),
            Some(&1),
            "video segment (GOP {}, track {}) first frame should be sync",
            gop.number,
            1
        );
    }
}

#[test]
fn test_each_track_data_has_single_track() {
    for gop in segment_fmp4(&catalog_of(&[1, 2]), &frames(3)) {
        for (&track_id, track_data) in &gop.tracks {
            let index = segment_index(track_data).unwrap();
            assert_eq!(
                index.track_id, track_id,
                "GOP {} track {} data contains data for track {}",
                gop.number, track_id, index.track_id
            );
            assert_eq!(index.samples.durations.len() as u32, gop.sample_counts[&track_id]);
        }
    }
}

#[test]
fn a_segment_without_a_moof_is_refused() {
    let e = segment_index(&uuid_box(&MUXL_UUID, &[1])).unwrap_err();
    assert_eq!(text_of(e), "segment contains no moof");
}

fn wrapped(inputs: &Vec<Vec<u8>>, format: WrapFormat, init_only: bool) -> Result<Vec<u8>, Error> {
    let mut out = Vec::new();
    wrap_buffers(inputs, format, init_only, &decode, &build_init, &build_header, &mut out)?;
    Ok(out)
}

#[test]
fn wrap_concatenates_multiple_m4s_in_argument_order() {
    let (_catalog, segs) = segments_in_order("h264-opus-frag.mp4");
    assert!(
        segs.len() >= 3,
        "fixture must yield several segments to meaningfully test ordering (got {})",
        segs.len()
    );
    let inputs: Vec<Vec<u8>> = segs.iter().map(|(_, s)| s.clone()).collect();
    let out = wrapped(&inputs, WrapFormat::Fmp4, false).unwrap();
    let recovered = unwrap(&out, &decode).unwrap();
    assert_eq!(
        recovered.len(),
        segs.len(),
        "every input segment must appear in the wrapped output"
    );
    for (i, seg) in recovered.iter().enumerate() {
        assert_eq!(seg.track_id, segs[i].0, "segment {i}: track-id / order mismatch");
        assert_eq!(
            seg.data,
            segs[i].1.as_slice(),
            "segment {i}: bytes must be carried through verbatim and in input order"
        );
    }
    let backwards: Vec<Vec<u8>> = inputs.iter().rev().cloned().collect();
    let spliced = unwrap_all(&backwards, &decode).unwrap();
    assert_eq!(spliced[0].data, segs[segs.len() - 1].1.as_slice());
}

#[test]
fn wrap_multi_input_equals_wrapping_the_whole_fmp4() {
    let (_catalog, segs) = segments_in_order("h264-opus-frag.mp4");
    let whole = fmp4_wrapper("h264-opus-frag.mp4");
    let inputs: Vec<Vec<u8>> = segs.iter().map(|(_, s)| s.clone()).collect();
    for format in [WrapFormat::Fmp4, WrapFormat::Flat] {
        let single = wrapped(&vec![whole.clone()], format, false).unwrap();
        let multi = wrapped(&inputs, format, false).unwrap();
        assert_eq!(
            single, multi,
            "wrapping the per-track .m4s files must match wrapping the whole fMP4 ({format:?})"
        );
    }
}

fn plan(files: &[&str], format: WrapFormat, flat: Option<&str>, fmp4: Option<&str>) -> WrapArgs {
    WrapArgs {
        files: files.iter().map(|f| f.to_string()).collect(),
        format,
        flat: flat.map(|f| f.to_string()),
        fmp4: fmp4.map(|f| f.to_string()),
        init_only: false,
    }
}

#[test]
fn wrap_output_flag_shorthand_matches_tar_style() {
    for (flat, fmp4, format) in
        [(Some("out"), None, WrapFormat::Flat), (None, Some("out"), WrapFormat::Fmp4)]
    {
        let tar = wrap_plan(plan(&["out", "a", "b"], format, None, None)).unwrap();
        let short = wrap_plan(plan(&["a", "b"], WrapFormat::Fmp4, flat, fmp4)).unwrap();
        assert_eq!(
            (tar.output, tar.inputs, tar.format),
            (short.output, short.inputs, short.format),
            "--flat/--fmp4 shorthand must match the tar-style --format form ({format:?})"
        );
    }
    let none = wrap_plan(plan(&["out"], WrapFormat::Fmp4, None, None)).unwrap_err();
    assert_eq!(text_of(none), "wrap needs an output and at least one input");
    assert!(wrap_plan(plan(&[], WrapFormat::Fmp4, Some("out"), None)).is_err());
}

#[test]
fn wrap_says_what_it_did() {
    let (_catalog, segs) = segments_in_order("h264-aac.mp4");
    let inputs: Vec<Vec<u8>> = segs.iter().map(|(_, s)| s.clone()).collect();
    let mut out = Vec::new();
    let say = |format, init_only, out: &mut Vec<u8>| {
        wrap_buffers(&inputs, format, init_only, &decode, &build_init, &build_header, out)
    };
    assert_eq!(
        say(WrapFormat::Fmp4, false, &mut out).unwrap(),
        "fMP4: wrapped 4 segments from 4 input(s)"
    );
    out.clear();
    assert_eq!(
        say(WrapFormat::Flat, false, &mut out).unwrap(),
        "flat MP4: wrapped 4 segments from 4 input(s)"
    );
    out.clear();
    assert_eq!(
        say(WrapFormat::Fmp4, true, &mut out).unwrap(),
        "init segment: 26 bytes (from 4 segments across 4 input(s))"
    );
    assert_eq!(out, build_init(&catalog_of(&[1, 2])).unwrap());
    let e = say(WrapFormat::Flat, true, &mut out).unwrap_err();
    assert_eq!(text_of(e), "--init-only requires --format fmp4");
    assert!(wrapped(&vec![b"\x00\x00\x00\x08moof".to_vec()], WrapFormat::Fmp4, false).is_err());
}

#[test]
fn segment_fmp4_interleaves_per_gop_not_per_track() {
    let gops = canonical_gops(3);
    let init = build_init(&catalog_of(&[1, 2])).unwrap();
    let made = muxl::cli::streamed_fmp4(init, &gops);
    let tids: Vec<u32> =
        unwrap(&made.bytes, &decode).unwrap().iter().map(|s| s.track_id).collect();
    assert!(tids.len() >= 4, "need >=2 GoPs x 2 tracks; got {tids:?}");
    assert_ne!(tids[0], tids[1], "GoP 0's tracks must be adjacent (per-GoP), got {tids:?}");
    assert_eq!(tids[0], tids[2], "GoP 1 must restart at track 0 (per-GoP), got {tids:?}");
    assert_eq!(tids[1], tids[3], "per-GoP cycle expected, got {tids:?}");
    assert_eq!(made.line, format!("fMP4: {} bytes (3 GOPs, 2 tracks)", made.bytes.len()));
    assert_eq!(made.bytes, fmp4_wrapper("h264-opus-frag.mp4"));
}

#[test]
fn files_and_identifiers_count_within_their_track() {
    let flat = flat_wrapper("h264-aac.mp4");
    let segs = unwrap(&flat, &decode).unwrap();
    let (names, tracks) = muxl::cli::unwrap_names(&segs);
    assert_eq!(tracks, 2);
    assert_eq!(names[0].init.as_deref(), Some("track1/init.mp4"));
    assert_eq!(names[0].segment, "track1/segment_0000.m4s");
    assert_eq!(names[1].init.as_deref(), Some("track2/init.mp4"));
    assert_eq!(names[3].init, None);
    assert_eq!(names[3].segment, "track2/segment_0001.m4s");
    assert_eq!(muxl::cli::say_unwrapped(4, tracks), "unwrapped 4 segments across 2 tracks");

    let lines = muxl::cli::list_segments(&segs);
    assert_eq!(lines[0], format!("segment 0: track 1 ({} bytes)", segs[0].data.len()));
    assert_eq!(lines[4], "4 segments total");

    let cids = muxl::cli::cid_lines(&segs);
    assert_eq!(
        cids[2],
        format!(
            "{}\ttrack1 seg1\t{} bytes",
            muxl::cid::from_bytes(segs[2].data),
            segs[2].data.len()
        )
    );
}

#[test]
fn gops_are_named_and_told_of() {
    let gops = canonical_gops(2);
    let files = muxl::cli::gop_files(&gops[1]);
    assert_eq!(files.len(), 2);
    assert_eq!(files[1].name, "track2/segment_0002.m4s");
    assert_eq!(
        files[1].line,
        format!("track 2 segment    2: {} bytes", gops[1].tracks[&2].len())
    );
    let total: usize = gops[1].tracks.values().map(|d| d.len()).sum();
    assert_eq!(
        muxl::cli::say_streamed(&gops[1]),
        format!("segment    2: 2 tracks, {total} bytes")
    );
}

/// The least segment: its MUXL `uuid` box alone.
fn least_segment() -> Vec<u8> {
    uuid_box(&MUXL_UUID, &[])
}

#[test]
fn framing_alone_holds_no_segment() {
    let fmp4 = b"\x00\x00\x00\x08ftyp\x00\x00\x00\x08moov";
    assert!(unwrap(fmp4, &decode).unwrap().is_empty());
    assert!(unwrap(&[], &decode).unwrap().is_empty());
    let stream = locate_segment_stream(fmp4).unwrap();
    assert_eq!((stream.start, stream.end), (16, 16));
    assert_eq!(segment_stream_start(fmp4.as_slice()).unwrap(), 16);
    let (_, ordered) = segments_in_order("h264-aac.mp4");
    let mut grown = fmp4.to_vec();
    for (i, (_, seg)) in ordered.iter().enumerate() {
        grown.extend_from_slice(seg);
        assert_eq!(unwrap(&grown, &decode).unwrap().len(), i + 1);
    }
}

#[test]
fn no_segments_are_read_where_none_are_wanted() {
    let one = least_segment();
    assert_eq!(one.len(), 24);
    assert!(read_segments_at(&one, SegmentOffset::Stream(0), Some(0)).unwrap().is_empty());
    assert_eq!(read_segments_at(&one, SegmentOffset::Stream(0), Some(1)).unwrap(), one);
    assert!(read_segments_at(&one, SegmentOffset::Stream(0), Some(2)).is_err());
    assert!(read_segments_at(&one, SegmentOffset::Stream(24), None).unwrap().is_empty());
}

#[test]
fn segments_are_not_read_from_inside_a_box() {
    let one = least_segment();
    assert!(read_segments_at(&one, SegmentOffset::Stream(20), None).is_err());
    assert!(read_segments_at(&one, SegmentOffset::File(20), None).is_err());
}

#[test]
fn segments_are_read_to_the_end_of_the_stream() {
    let one = least_segment();
    let mut flat = boxed(b"mdat", &one);
    flat.extend_from_slice(&boxed(b"free", &[]));
    assert_eq!(read_segments_at(&flat, SegmentOffset::Stream(0), None).unwrap(), one);
    assert_eq!(read_segments_at(&flat, SegmentOffset::File(8), None).unwrap(), one);
    assert!(read_segments_at(&flat, SegmentOffset::File(33), None).is_err());
}

#[test]
fn a_framing_box_without_a_size_ends_the_scan() {
    let mut input = vec![0, 0, 0, 0];
    input.extend_from_slice(b"free");
    input.extend_from_slice(&least_segment());
    let found = scan_wrapper_stream(&vec![input.clone()]);
    assert!(found.segments.is_empty() && found.error.is_none());
    assert!(unwrap(&input, &decode).unwrap().is_empty());
}

/// One GOP: a second of video, and of audio as many seconds as tracks before.
fn lopsided_fmp4(tids: &[u32]) -> (Vec<u8>, Vec<GopSegment>) {
    let catalog = catalog_of(tids);
    let mut frames = Vec::new();
    for &tid in tids {
        frames.push(if tid == 1 {
            frame(1, 1, 0, 30_000, true)
        } else {
            frame(tid, tid, 0, 48_000 * (tid - 1), true)
        });
    }
    let gops = segment_fmp4(&catalog, &frames);
    let mut out = build_init(&catalog).unwrap();
    for gop in &gops {
        for (tid, data) in &gop.tracks {
            out.extend_from_slice(&uuid_box(&MUXL_UUID, &[*tid as u8]));
            out.extend_from_slice(data);
        }
    }
    (out, gops)
}

fn durations_us(fmp4: &[u8]) -> Vec<u64> {
    segment_events(fmp4, &decode, &build_init, &build_track_inits)
        .unwrap()
        .iter()
        .filter_map(|e| match e {
            CborEvent::Segment { duration_us, .. } => Some(*duration_us),
            _ => None,
        })
        .collect()
}

#[test]
fn a_gop_lasts_as_its_video() {
    let (fmp4, gops) = lopsided_fmp4(&[1, 3]);
    assert_eq!(gops.iter().map(|g| g.duration_us).collect::<Vec<_>>(), [1_000_000]);
    assert_eq!(durations_us(&fmp4), [1_000_000]);
    let (fmp4, gops) = lopsided_fmp4(&[2, 3]);
    assert_eq!(gops.iter().map(|g| g.duration_us).collect::<Vec<_>>(), [2_000_000]);
    assert_eq!(durations_us(&fmp4), [2_000_000]);
    let gops = canonical_gops(3);
    let rebuilt = durations_us(&fmp4_wrapper("h264-opus-frag.mp4"));
    assert_eq!(rebuilt, gops.iter().map(|g| g.duration_us).collect::<Vec<_>>());
}

#[test]
fn an_init_comes_again_with_a_new_track() {
    let mut stream = Vec::new();
    for tids in [vec![1u8], vec![1], vec![1, 2], vec![1, 2], vec![2]] {
        for tid in tids {
            stream.extend_from_slice(&uuid_box(&MUXL_UUID, &[tid]));
            stream.extend_from_slice(&frame(1, tid as u32, 0, 10, true).data);
        }
    }
    let events = segment_events(&stream, &decode, &build_init, &build_track_inits).unwrap();
    let inits: Vec<bool> = events.iter().map(|e| matches!(e, CborEvent::Init { .. })).collect();
    assert_eq!(inits, [true, false, false, true, false, false, false]);
    let total: u64 = events
        .iter()
        .map(|e| match e {
            CborEvent::Segment { body_size, .. } => *body_size,
            _ => 0,
        })
        .sum();
    assert_eq!(total, stream.len() as u64);
}

#[test]
fn gops_hold_the_bytes_of_all_frames() {
    let all = frames(3);
    let gops = segment_fmp4(&catalog_of(&[1, 2]), &all);
    for tid in [1u32, 2] {
        let joined: Vec<u8> = gops.iter().flat_map(|g| g.tracks[&tid].clone()).collect();
        let wanted: Vec<u8> =
            all.iter().filter(|f| f.track_id == tid).flat_map(|f| f.data.clone()).collect();
        assert_eq!(joined, wanted);
    }
}

#[test]
fn aggregating_again_changes_nothing() {
    let fmp4 = fmp4_wrapper("h264-aac.mp4");
    let mut twice = fmp4.clone();
    twice.extend_from_slice(&fmp4[build_init(&catalog_of(&[1, 2])).unwrap().len()..]);
    let once = aggregate_catalog(&unwrap(&fmp4, &decode).unwrap());
    let again = aggregate_catalog(&unwrap(&twice, &decode).unwrap());
    assert_eq!(format!("{once:?}"), format!("{again:?}"));
    assert_eq!(format!("{once:?}"), format!("{:?}", catalog_of(&[1, 2])));
}

#[test]
fn segments_are_read_behind_the_envelope() {
    let one = least_segment();
    let mut input = boxed(b"mdat", &one);
    input.extend_from_slice(&one);
    assert_eq!(input.len(), 56);
    assert_eq!(read_segments_at(&input, SegmentOffset::File(32), Some(1)).unwrap(), one);
    assert_eq!(read_segments_at(&input, SegmentOffset::File(8), None).unwrap(), one);
    assert!(read_segments_at(&input, SegmentOffset::File(57), None).is_err());
}

#[test]
fn a_refused_event_ends_the_sending() {
    let fmp4 = fmp4_wrapper("h264-opus-frag.mp4");
    let all = segment_events(&fmp4, &decode, &build_init, &build_track_inits).unwrap().len();
    assert_eq!(all, 4);
    for k in 1..=all {
        let calls = Cell::new(0usize);
        let emit = |_: CborEvent| {
            calls.set(calls.get() + 1);
            if calls.get() == k {
                Err(invalid_mp4("no more"))
            } else {
                Ok(())
            }
        };
        let r = segment_events_streaming(&fmp4, &decode, &build_init, &build_track_inits, &emit);
        assert_eq!(text_of(r.unwrap_err()), text_of(invalid_mp4("no more")));
        assert_eq!(calls.get(), k);
        calls.set(0);
        let chunks = vec![fmp4.clone()];
        let r = segment_events_stream(&chunks, &decode, &build_init, &build_track_inits, &emit);
        assert!(r.is_err());
        assert_eq!(calls.get(), k);
    }
}

#[test]
fn nothing_is_sent_where_a_segment_is_not_decoded() {
    let mut stream = Vec::new();
    for (_, seg) in segments_in_order("h264-aac.mp4").1 {
        stream.extend_from_slice(&seg);
    }
    let count = Cell::new(0);
    let picky = |data: &[u8]| {
        count.set(count.get() + 1);
        if count.get() == 4 {
            Err(invalid_mp4("undecodable"))
        } else {
            decode(data)
        }
    };
    let calls = Cell::new(0);
    let emit = |_: CborEvent| {
        calls.set(calls.get() + 1);
        Ok(())
    };
    let r = segment_events_streaming(&stream, &picky, &build_init, &build_track_inits, &emit);
    assert_eq!(text_of(r.unwrap_err()), text_of(invalid_mp4("undecodable")));
    assert_eq!(calls.get(), 0);
}

/// Segments of one frame, of the tracks of each group.
fn one_frame_segments(groups: &[&[u8]]) -> Vec<Vec<u8>> {
    let mut out = Vec::new();
    for &tid in groups.iter().copied().flatten() {
        let mut seg = uuid_box(&MUXL_UUID, &[tid]);
        seg.extend_from_slice(&frame(out.len() as u32, tid as u32, 0, 10, true).data);
        out.push(seg);
    }
    out
}

#[test]
fn an_init_describes_the_tracks_so_far() {
    let segs = one_frame_segments(&[&[1], &[1], &[1, 2], &[1, 2, 3], &[2]]);
    let events = segment_events(&segs.concat(), &decode, &build_init, &build_track_inits).unwrap();
    let mut described = Vec::new();
    for e in &events {
        if let CborEvent::Init { version, catalog, .. } = e {
            assert_eq!(*version, 1);
            described.push(catalog_track_ids(catalog.as_ref().unwrap()));
        }
    }
    assert_eq!(described, [vec![1u32], vec![1, 2], vec![1, 2, 3]]);
}

#[test]
fn what_an_event_says_agrees() {
    let segs = one_frame_segments(&[&[1, 2, 3], &[1], &[1, 10]]);
    let events = segment_events(&segs.concat(), &decode, &build_init, &build_track_inits).unwrap();
    let mut found = Vec::new();
    for e in &events {
        if let CborEvent::Segment {
            tracks,
            durations,
            sample_counts,
            samples,
            track_byte_sizes,
            first_decode_times,
            body_size,
            ..
        } = e
        {
            let n = tracks.len();
            assert_eq!([durations.len(), sample_counts.len(), samples.len()], [n; 3]);
            assert_eq!([track_byte_sizes.len(), first_decode_times.len()], [n; 2]);
            let mut total = 0;
            for tid in 1..=10u32 {
                let key = tid.to_string();
                if let Some(data) = tracks.get(&key) {
                    let s = samples.get(&key).unwrap();
                    assert_eq!(sample_counts.get(&key), Some(&(s.durations.len() as u32)));
                    let ticks: u64 = s.durations.iter().map(|&d| d as u64).sum();
                    assert_eq!(durations.get(&key), Some(&ticks));
                    assert_eq!(ticks, 10);
                    assert_eq!(track_byte_sizes.get(&key), Some(&(data.0.len() as u64)));
                    assert!(first_decode_times.get(&key).is_some());
                    total += data.0.len() as u64;
                    found.push(data.0.clone());
                }
            }
            assert_eq!(*body_size, total);
        }
    }
    assert_eq!(found, segs);
}

#[test]
fn boxes_that_the_parser_does_not_know_are_passed_over() {
    let data = frame(1, 1, 7, 10, true).data;
    let size = u32::from_be_bytes([data[0], data[1], data[2], data[3]]) as usize;
    let with = |kind: &[u8]| {
        let mut body = data[8..size].to_vec();
        body.extend_from_slice(&boxed(kind, &[9; 5]));
        let mut out = uuid_box(&MUXL_UUID, &[1]);
        out.extend_from_slice(&boxed(b"moof", &body));
        out.extend_from_slice(&data[size..]);
        segment_index(&out)
    };
    for kind in [b"pssh", b"uuid", b"free", b"abcd"] {
        let index = with(kind).unwrap();
        assert_eq!((index.track_id, index.first_decode_time), (1, 7));
        assert_eq!(index.samples.durations, [10]);
    }
    let e = with(b"meta").err().unwrap();
    assert_eq!(text_of(e), text_of(invalid_mp4("unexpected box in moof")));
}

#[test]
fn video_is_shown_as_first_told() {
    let segs = one_frame_segments(&[&[1], &[1], &[1]]);
    let count = Cell::new(0u64);
    let turned = |data: &[u8]| {
        let mut c = decode(data)?;
        if let Some(v) = &mut c.video {
            v.rotation = if count.get() == 0 { None } else { Some(90 * count.get()) };
            v.flip = Some(count.get() == 0);
        }
        count.set(count.get() + 1);
        Ok(c)
    };
    let stream = segs.concat();
    let found = unwrap(&stream, &turned).unwrap();
    let video = aggregate_catalog(&found).video.unwrap();
    assert_eq!((video.rotation, video.flip), (Some(90), Some(true)));
    assert!(video.display.is_none());
}
