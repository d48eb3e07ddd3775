//! Movie fragments: what the `moof` boxes of a segment say of its samples.

use mp4_atom::{Header, Moof, ReadAtom, ReadFrom, Traf, TrunEntry};
use std::io::Cursor;
use vstd::prelude::*;
use vstd::slice::slice_subrange;

use crate::boxes::{box_at, box_error_text, read_box_header, MOOF};
use crate::error::{invalid_mp4, Error, ErrorView};
use crate::segment::{no_samples, sat64, with_sample, SamplesView, TrackSamples};

verus! {

/// Box type `traf`.
pub const TRAF: u32 = 0x74726166;

/// One entry of a track run. A field that is not there is inherited.
#[derive(Clone, Copy, Debug, PartialEq, Eq, Structural)]
pub struct RunEntry {
    pub duration: Option<u32>,
    pub size: Option<u32>,
    pub flags: Option<u32>,
    pub cts: Option<i32>,
}

/// One track fragment of a `moof`.
#[derive(Debug)]
pub struct TrackFragment {
    pub track_id: u32,
    pub default_duration: Option<u32>,
    pub default_size: Option<u32>,
    pub default_flags: Option<u32>,
    /// Decode time of the first sample.
    pub base_decode_time: Option<u64>,
    /// The entries of each track run.
    pub runs: Vec<Vec<RunEntry>>,
}

/// Contents of a [`TrackFragment`].
pub struct FragmentView {
    pub track_id: u32,
    pub default_duration: Option<u32>,
    pub default_size: Option<u32>,
    pub default_flags: Option<u32>,
    pub base_decode_time: Option<u64>,
    pub runs: Seq<Seq<RunEntry>>,
}

impl View for TrackFragment {
    type V = FragmentView;

    open spec fn view(&self) -> FragmentView {
        FragmentView {
            track_id: self.track_id,
            default_duration: self.default_duration,
            default_size: self.default_size,
            default_flags: self.default_flags,
            base_decode_time: self.base_decode_time,
            runs: self.runs@.map_values(|r: Vec<RunEntry>| r@),
        }
    }
}

/// Contents of the fragments in `v`.
pub open spec fn fragments_view(v: Seq<TrackFragment>) -> Seq<FragmentView> {
    v.map_values(|f: TrackFragment| f@)
}

/// Whether `kind` is a box type that the parser of `moof` boxes decodes wherever it meets
/// it, but that is of another place than a canonical movie fragment.
///
/// Of a file: `ftyp`, `styp`, `moov`, `moof`, `mdat`, `emsg`, `sidx`, `prft`, `mfra`,
/// `tfra`, `mfro`. Of items: `meta`, `hdlr`, `pitm`, `iloc`, `iinf`, `iprp`, `ipco`,
/// `auxC`, `clap`, `imir`, `irot`, `iscl`, `ispe`, `pixi`, `rref`, `ipma`, `iref`, `idat`,
/// `ilst`, `covr`, `desc`, `\xa9too`, `name`, `day `. Of a movie: `mvhd`, `udta`, `cprt`,
/// `kind`, `trak`, `tkhd`, `edts`, `elst`, `mdia`, `mdhd`, `minf`, `mvex`, `mehd`, `trex`,
/// `dinf`, `dref`, `nmhd`, `smhd`, `sthd`, `vmhd`. Of video and text samples: `stsd`,
/// `avc1`, `avcC`, `btrt`, `ccst`, `colr`, `pasp`, `taic`, `fiel`, `hev1`, `hvc1`, `hvcC`,
/// `vp08`, `vp09`, `vpcC`, `av01`, `av1C`, `uncv`, `cmpd`, `uncC`, `tx3g`, `ftab`. Of audio
/// samples: `mp4a`, `esds`, `Opus`, `dOps`, `fLaC`, `dfLa`, `ac-3`, `dac3`, `ec-3`, `dec3`,
/// `sowt`, `twos`, `lpcm`, `ipcm`, `fpcm`, `in24`, `in32`, `fl32`, `fl64`, `s16l`, `pcmC`,
/// `chnl`. Of sample tables: `stbl`, `stts`, `stsc`, `stsz`, `stss`, `stco`, `co64`,
/// `cslg`, `ctts`, `sgpd`, `subs`, `saio`, `saiz`.
pub open spec fn decoded_elsewhere(kind: u32) -> bool {
    match kind {
        0x66747970 | 0x73747970 | 0x6d6f6f76 | 0x6d6f6f66 | 0x6d646174 | 0x656d7367
        | 0x73696478 | 0x70726674 | 0x6d667261 | 0x74667261 | 0x6d66726f
        | 0x6d657461 | 0x68646c72 | 0x7069746d | 0x696c6f63 | 0x69696e66 | 0x69707270
        | 0x6970636f | 0x61757843 | 0x636c6170 | 0x696d6972 | 0x69726f74 | 0x6973636c
        | 0x69737065 | 0x70697869 | 0x72726566 | 0x69706d61 | 0x69726566 | 0x69646174
        | 0x696c7374 | 0x636f7672 | 0x64657363 | 0xa9746f6f | 0x6e616d65 | 0x64617920
        | 0x6d766864 | 0x75647461 | 0x63707274 | 0x6b696e64 | 0x7472616b | 0x746b6864
        | 0x65647473 | 0x656c7374 | 0x6d646961 | 0x6d646864 | 0x6d696e66 | 0x6d766578
        | 0x6d656864 | 0x74726578 | 0x64696e66 | 0x64726566 | 0x6e6d6864 | 0x736d6864
        | 0x73746864 | 0x766d6864
        | 0x73747364 | 0x61766331 | 0x61766343 | 0x62747274 | 0x63637374 | 0x636f6c72
        | 0x70617370 | 0x74616963 | 0x6669656c | 0x68657631 | 0x68766331 | 0x68766343
        | 0x76703038 | 0x76703039 | 0x76706343 | 0x61763031 | 0x61763143 | 0x756e6376
        | 0x636d7064 | 0x756e6343 | 0x74783367 | 0x66746162
        | 0x6d703461 | 0x65736473 | 0x4f707573 | 0x644f7073 | 0x664c6143 | 0x64664c61
        | 0x61632d33 | 0x64616333 | 0x65632d33 | 0x64656333 | 0x736f7774 | 0x74776f73
        | 0x6c70636d | 0x6970636d | 0x6670636d | 0x696e3234 | 0x696e3332 | 0x666c3332
        | 0x666c3634 | 0x7331366c | 0x70636d43 | 0x63686e6c
        | 0x7374626c | 0x73747473 | 0x73747363 | 0x7374737a | 0x73747373 | 0x7374636f
        | 0x636f3634 | 0x63736c67 | 0x63747473 | 0x73677064 | 0x73756273 | 0x7361696f
        | 0x7361697a => true,
        _ => false,
    }
}

/// Whether `kind` is a box type of another place that the parser decodes.
fn is_decoded_elsewhere(kind: u32) -> (r: bool)
    ensures
        r == decoded_elsewhere(kind),
{
    match kind {
        0x66747970 | 0x73747970 | 0x6d6f6f76 | 0x6d6f6f66 | 0x6d646174 | 0x656d7367
        | 0x73696478 | 0x70726674 | 0x6d667261 | 0x74667261 | 0x6d66726f
        | 0x6d657461 | 0x68646c72 | 0x7069746d | 0x696c6f63 | 0x69696e66 | 0x69707270
        | 0x6970636f | 0x61757843 | 0x636c6170 | 0x696d6972 | 0x69726f74 | 0x6973636c
        | 0x69737065 | 0x70697869 | 0x72726566 | 0x69706d61 | 0x69726566 | 0x69646174
        | 0x696c7374 | 0x636f7672 | 0x64657363 | 0xa9746f6f | 0x6e616d65 | 0x64617920
        | 0x6d766864 | 0x75647461 | 0x63707274 | 0x6b696e64 | 0x7472616b | 0x746b6864
        | 0x65647473 | 0x656c7374 | 0x6d646961 | 0x6d646864 | 0x6d696e66 | 0x6d766578
        | 0x6d656864 | 0x74726578 | 0x64696e66 | 0x64726566 | 0x6e6d6864 | 0x736d6864
        | 0x73746864 | 0x766d6864
        | 0x73747364 | 0x61766331 | 0x61766343 | 0x62747274 | 0x63637374 | 0x636f6c72
        | 0x70617370 | 0x74616963 | 0x6669656c | 0x68657631 | 0x68766331 | 0x68766343
        | 0x76703038 | 0x76703039 | 0x76706343 | 0x61763031 | 0x61763143 | 0x756e6376
        | 0x636d7064 | 0x756e6343 | 0x74783367 | 0x66746162
        | 0x6d703461 | 0x65736473 | 0x4f707573 | 0x644f7073 | 0x664c6143 | 0x64664c61
        | 0x61632d33 | 0x64616333 | 0x65632d33 | 0x64656333 | 0x736f7774 | 0x74776f73
        | 0x6c70636d | 0x6970636d | 0x6670636d | 0x696e3234 | 0x696e3332 | 0x666c3332
        | 0x666c3634 | 0x7331366c | 0x70636d43 | 0x63686e6c
        | 0x7374626c | 0x73747473 | 0x73747363 | 0x7374737a | 0x73747373 | 0x7374636f
        | 0x636f3634 | 0x63736c67 | 0x63747473 | 0x73677064 | 0x73756273 | 0x7361696f
        | 0x7361697a => true,
        _ => false,
    }
}

/// Whether a box of type `kind` can stand in a `moof`, or, with `inner`, in its `traf`:
/// one that the parser reads there, or one that it passes over.
pub open spec fn readable_kind(kind: u32, inner: bool) -> bool {
    &&& !decoded_elsewhere(kind)
    &&& kind == TRAF ==> !inner
}

/// Whether the boxes of `t` from `pos` on can stand in a `moof`, or, with `inner`, in its
/// `traf`.
pub open spec fn readable_children(t: Seq<u8>, pos: int, inner: bool) -> bool
    decreases t.len(), t.len() - pos,
{
    pos < 0 || pos + 8 > t.len() || match box_at(t, pos) {
        Err(_) => true,
        Ok(b) => {
            &&& readable_kind(b.kind as u32, inner)
            &&& b.kind == TRAF ==> readable_children(t.subrange(b.body, b.end), 0, true)
            &&& readable_children(t, b.end, inner)
        },
    }
}

/// Whether `bytes` is one `moof` box that holds only boxes that can stand in one.
pub open spec fn readable_moof(bytes: Seq<u8>) -> bool {
    box_at(bytes, 0) matches Ok(b) && b.kind == MOOF && b.end == bytes.len() && readable_children(
        bytes.subrange(b.body, b.end),
        0,
        false,
    )
}

fn children_are_readable(t: &[u8], inner: bool) -> (r: bool)
    ensures
        r == readable_children(t@, 0, inner),
    decreases t@.len(),
{
    let len: usize = t.len();
    let mut pos: usize = 0;
    while len >= 8 && pos <= len - 8
        invariant
            len == t@.len(),
            pos <= len,
            readable_children(t@, 0, inner) == readable_children(t@, pos as int, inner),
        decreases len - pos,
    {
        match read_box_header(t, pos) {
            Err(_) => {
                return true;
            },
            Ok(h) => {
                if is_decoded_elsewhere(h.kind) || (h.kind == TRAF && inner) {
                    return false;
                }
                if h.kind == TRAF {
                    let body = slice_subrange(t, h.body, h.end);
                    if !children_are_readable(body, true) {
                        return false;
                    }
                }
                pos = h.end;
            },
        }
    }
    true
}

/// Whether `bytes` is a `moof` box of boxes that can stand in one.
fn moof_is_readable(bytes: &[u8]) -> (r: bool)
    ensures
        r == readable_moof(bytes@),
{
    match read_box_header(bytes, 0) {
        Err(_) => false,
        Ok(h) => {
            if h.kind != MOOF || h.end != bytes.len() {
                return false;
            }
            children_are_readable(slice_subrange(bytes, h.body, h.end), false)
        },
    }
}

/// The track fragments that `mp4_atom` reads out of the `moof` box `bytes`, or
/// the message of its error.
pub uninterp spec fn parsed_moof(bytes: Seq<u8>) -> Result<Seq<FragmentView>, Seq<char>>;

/// `mp4_atom::Header::read_from`, then `mp4_atom::Moof::read_atom`: parses a
/// `moof` box and lists its track fragments. What comes out is a function of the
/// bytes, which [`parsed_moof`] names. The parser passes over the box types that it does
/// not know. It can abort on some that it knows and that do not belong into a movie
/// fragment, so those are left out.
#[verifier::external_body]
fn read_moof(bytes: &[u8]) -> (r: Result<Vec<TrackFragment>, String>)
    requires
        readable_moof(bytes@),
    ensures
        match r {
            Ok(v) => parsed_moof(bytes@) == Ok::<Seq<FragmentView>, Seq<char>>(fragments_view(v@)),
            Err(t) => parsed_moof(bytes@) == Err::<Seq<FragmentView>, Seq<char>>(t@),
        },
{
    let mut cur = Cursor::new(bytes);
    let read = Header::read_from(&mut cur).and_then(|h| Moof::read_atom(&h, &mut cur));
    let entry = |TrunEntry { duration, size, flags, cts }| RunEntry { duration, size, flags, cts };
    let fragment = |t: Traf| TrackFragment {
        track_id: t.tfhd.track_id,
        default_duration: t.tfhd.default_sample_duration,
        default_size: t.tfhd.default_sample_size,
        default_flags: t.tfhd.default_sample_flags,
        base_decode_time: t.tfdt.map(|d| d.base_media_decode_time),
        runs: t.trun.into_iter().map(|r| r.entries.into_iter().map(entry).collect()).collect(),
    };
    read.map(|m| m.traf.into_iter().map(fragment).collect()).map_err(|e| e.to_string())
}

/// A sample with every inherited value resolved.
#[derive(Clone, Copy, Debug, PartialEq, Eq, Structural)]
pub struct Sample {
    pub duration: u32,
    pub size: u32,
    pub cts_offset: i32,
    pub is_sync: bool,
}

/// `a`, else `b`, else 0.
pub open spec fn inherited(a: Option<u32>, b: Option<u32>) -> u32 {
    match a {
        Some(x) => x,
        None => match b {
            Some(y) => y,
            None => 0,
        },
    }
}

/// The sample that a run entry describes: what it leaves out comes from the
/// track fragment. It is a sync sample unless the non-sync flag is set.
pub open spec fn resolved(e: RunEntry, f: FragmentView) -> Sample {
    Sample {
        duration: inherited(e.duration, f.default_duration),
        size: inherited(e.size, f.default_size),
        cts_offset: match e.cts {
            Some(c) => c,
            None => 0,
        },
        is_sync: inherited(e.flags, f.default_flags) & 0x0001_0000u32 == 0,
    }
}

fn inherit(a: Option<u32>, b: Option<u32>) -> (r: u32)
    ensures
        r == inherited(a, b),
{
    match a {
        Some(x) => x,
        None => match b {
            Some(y) => y,
            None => 0,
        },
    }
}

/// Resolves a run entry against its track fragment.
pub fn resolve_sample(e: &RunEntry, f: &TrackFragment) -> (r: Sample)
    ensures
        r == resolved(*e, f@),
{
    Sample {
        duration: inherit(e.duration, f.default_duration),
        size: inherit(e.size, f.default_size),
        cts_offset: match e.cts {
            Some(c) => c,
            None => 0,
        },
        is_sync: inherit(e.flags, f.default_flags) & 0x0001_0000u32 == 0,
    }
}

/// The samples of a canonical segment, its track, and when it starts.
#[derive(Debug)]
pub struct SegmentIndex {
    pub track_id: u32,
    pub samples: TrackSamples,
    /// Decode time of the first sample.
    pub first_decode_time: u64,
}

/// What is known of a segment after some of its boxes. `first` is there once a
/// `moof` was read.
#[verifier::ext_equal]
pub struct IndexView {
    pub track_id: u32,
    pub samples: SamplesView,
    pub first: Option<u64>,
}

/// Before the first box.
pub open spec fn index_start() -> IndexView {
    IndexView { track_id: 0, samples: no_samples(), first: None }
}

/// `acc` with a `moof` that ends at `end` and holds the fragments `fs`: its
/// sample is the first entry of the first run of the first fragment, and lies 8
/// bytes past the `moof`.
pub open spec fn with_moof(acc: IndexView, fs: Seq<FragmentView>, end: int) -> Result<
    IndexView,
    Seq<char>,
> {
    if fs.len() == 0 {
        Err("moof without traf"@)
    } else if fs[0].runs.len() == 0 || fs[0].runs[0].len() == 0 {
        Err("moof without trun entry"@)
    } else {
        let s = resolved(fs[0].runs[0][0], fs[0]);
        Ok(
            IndexView {
                track_id: fs[0].track_id,
                samples: with_sample(
                    acc.samples,
                    s.duration,
                    s.size,
                    s.cts_offset,
                    s.is_sync,
                    sat64(end + 8),
                ),
                first: match acc.first {
                    Some(_) => acc.first,
                    None => Some(
                        match fs[0].base_decode_time {
                            Some(t) => t,
                            None => 0,
                        },
                    ),
                },
            },
        )
    }
}

/// The index of `data` from the box at `pos` on.
pub open spec fn index_from(data: Seq<u8>, pos: int, acc: IndexView) -> Result<IndexView, Seq<char>>
    decreases data.len() - pos,
{
    if pos + 8 > data.len() {
        if acc.first is None {
            Err("segment contains no moof"@)
        } else {
            Ok(acc)
        }
    } else {
        match box_at(data, pos) {
            Err(e) => Err(box_error_text(e)),
            Ok(b) => if b.kind == MOOF {
                let moof = data.subrange(pos, b.end);
                if !readable_moof(moof) {
                    Err("unexpected box in moof"@)
                } else {
                    match parsed_moof(moof) {
                        Err(t) => Err(t),
                        Ok(fs) => match with_moof(acc, fs, b.end) {
                            Err(t) => Err(t),
                            Ok(next) => index_from(data, b.end, next),
                        },
                    }
                }
            } else {
                index_from(data, b.end, acc)
            },
        }
    }
}

/// The index of the canonical segment `data`, or the message of the failure.
pub open spec fn indexed(data: Seq<u8>) -> Result<IndexView, Seq<char>> {
    index_from(data, 0, index_start())
}

/// Adds the fragments of a `moof` that ends at `end` to an index. `first` is
/// there once a `moof` was read.
pub fn index_moof(
    index: &mut SegmentIndex,
    first: &mut Option<u64>,
    fragments: &Vec<TrackFragment>,
    end: usize,
) -> (r: Result<(), Error>)
    ensures
        ({
            let acc = IndexView {
                track_id: old(index).track_id,
                samples: old(index).samples@,
                first: *old(first),
            };
            match r {
                Ok(_) => with_moof(acc, fragments_view(fragments@), end as int) == Ok::<
                    IndexView,
                    Seq<char>,
                >(
                    IndexView {
                        track_id: final(index).track_id,
                        samples: final(index).samples@,
                        first: *final(first),
                    },
                ),
                Err(e) => with_moof(acc, fragments_view(fragments@), end as int) matches Err(t)
                    && e@ == ErrorView::InvalidMp4(t),
            }
        }),
{
    if fragments.len() == 0 {
        return Err(invalid_mp4("moof without traf"));
    }
    let fragment = &fragments[0];
    assert(fragments_view(fragments@)[0] == fragment@);
    if fragment.runs.len() == 0 {
        return Err(invalid_mp4("moof without trun entry"));
    }
    let run = &fragment.runs[0];
    assert(fragment@.runs[0] == run@);
    if run.len() == 0 {
        return Err(invalid_mp4("moof without trun entry"));
    }
    let sample = resolve_sample(&run[0], fragment);
    index.track_id = fragment.track_id;
    let offset: u64 = (end as u64).saturating_add(8);
    index.samples.push(
        sample.duration,
        sample.size,
        sample.cts_offset,
        sample.is_sync,
        offset,
    );
    if first.is_none() {
        *first = Some(
            match fragment.base_decode_time {
                Some(t) => t,
                None => 0,
            },
        );
    }
    Ok(())
}

/// Reads the samples of one canonical segment out of its `moof` boxes, past the
/// `uuid` boxes at its front. Offsets count from the start of the segment.
pub fn segment_index(data: &[u8]) -> (r: Result<SegmentIndex, Error>)
    ensures
        match r {
            Ok(x) => indexed(data@) == Ok::<IndexView, Seq<char>>(
                IndexView {
                    track_id: x.track_id,
                    samples: x.samples@,
                    first: Some(x.first_decode_time),
                },
            ),
            Err(e) => indexed(data@) matches Err(t) && e@ == ErrorView::InvalidMp4(t),
        },
{
    let mut index = SegmentIndex {
        track_id: 0,
        samples: TrackSamples::new(),
        first_decode_time: 0,
    };
    let mut first: Option<u64> = None;
    let len: usize = data.len();
    let mut pos: usize = 0;
    while len >= 8 && pos <= len - 8
        invariant
            len == data@.len(),
            pos <= len,
            indexed(data@) == index_from(
                data@,
                pos as int,
                IndexView { track_id: index.track_id, samples: index.samples@, first },
            ),
        decreases len - pos,
    {
        match read_box_header(data, pos) {
            Err(e) => {
                return Err(e.to_error());
            },
            Ok(h) => {
                if h.kind == MOOF {
                    let moof = slice_subrange(data, pos, h.end);
                    if !moof_is_readable(moof) {
                        return Err(invalid_mp4("unexpected box in moof"));
                    }
                    match read_moof(moof) {
                        Err(t) => {
                            return Err(Error::InvalidMp4(t));
                        },
                        Ok(fragments) => {
                            match index_moof(&mut index, &mut first, &fragments, h.end) {
                                Err(e) => {
                                    return Err(e);
                                },
                                Ok(()) => {},
                            }
                        },
                    }
                }
                pos = h.end;
            },
        }
    }
    match first {
        None => Err(invalid_mp4("segment contains no moof")),
        Some(t) => {
            index.first_decode_time = t;
            Ok(index)
        },
    }
}

} // verus!
