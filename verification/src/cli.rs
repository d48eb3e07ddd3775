//! The command line: what its arguments ask for, and what it says.
//!
//! Reading and writing files belongs to the caller. What is to be read, what is
//! made of it and under which names it is written is decided here.

use std::collections::BTreeMap;
use vstd::prelude::*;
use vstd::slice::{slice_subrange, slice_to_vec};
use vstd::utf8::{decode_utf8, valid_utf8};

use crate::catalog::{AudioConfig, Catalog, VideoConfig};
use crate::cbor::{CborTrackSamples, SegmenterEvent};
use crate::cert::{pkcs8_scalar, SecretKey};
use crate::cid::{blake3_digest, cid_text, from_bytes};
use crate::encode::{hex, hex_value, law_unhex_hex, nibble, unhex};
use crate::error::{invalid_mp4, Error, ErrorView, IoError, IoKind};
use crate::hls::HlsOpts;
use crate::inspect::data_of;
use crate::keymap::{texts, KeyMap};
use crate::present::{
    append_gops, flat_body, gops_of, index_all, metas_view, regrouped, slices, write_flat_from_m4s,
    write_fmp4, MetaView, SegmentMetadata,
};
use crate::reader::{
    aggregate_catalog, aggregated, catalogs, decoded, splits, unwrap, unwrap_fails,
    wrapped_segments, Segment,
};
use crate::roundtrip::{
    all_canonical, canonical_segment, framing, law_unwrap_bare, law_unwrap_flat, law_unwrap_fmp4,
    mdat_header,
};
use crate::segment::{gop_size, size_of_gop, GopSegment, GopView, SamplesView, TrackSamples};
use crate::stream::{contents, join};
use crate::tracks::{ascending, insert_sorted, keys_of, lists, sorted};
use crate::text::{
    char_from, chars_of, decimal, find_char, has_prefix, lemma_char_from, parse_u32, parsed_u32,
    push_decimal, read_utf8, same_text, starts, string_of, trim_chars, trimmed, NumberFault,
};

verus! {

/// Form in which a catalog is printed.
#[derive(Clone, Copy, Debug, PartialEq, Eq, Structural)]
pub enum CatalogFormat {
    /// Deterministic CBOR.
    Drisl,
    /// JSON.
    Json,
}

/// Container around wrapped segments.
#[derive(Clone, Copy, Debug, PartialEq, Eq, Structural)]
pub enum WrapFormat {
    /// Fragmented MP4.
    Fmp4,
    /// Flat MP4.
    Flat,
}

/// Arguments of `catalog`.
#[derive(Debug)]
pub struct CatalogArgs {
    pub input: String,
    /// None for a summary.
    pub format: Option<CatalogFormat>,
}

/// Arguments of `segment`. One of `dir`, `fmp4`, `stdout` and `flat` is given.
#[derive(Debug)]
pub struct SegmentArgs {
    /// A path, or `-` for the standard input.
    pub input: String,
    pub dir: Option<String>,
    pub fmp4: Option<String>,
    pub stdout: bool,
    pub flat: Option<String>,
    /// Track ids to be replaced, with what replaces them.
    pub remap_track: Vec<(u32, u32)>,
}

/// Arguments of `wrap`.
#[derive(Debug)]
pub struct WrapArgs {
    /// The output and the inputs, or the inputs alone where `flat` or `fmp4` names
    /// the output.
    pub files: Vec<String>,
    pub format: WrapFormat,
    pub flat: Option<String>,
    pub fmp4: Option<String>,
    /// Whether nothing but the init segment is written.
    pub init_only: bool,
}

/// Arguments of `unwrap`.
#[derive(Debug)]
pub struct UnwrapArgs {
    pub input: String,
    /// Whether the segments are told as events.
    pub events: bool,
    pub dir: Option<String>,
}

/// Arguments of `hls`.
#[derive(Debug)]
pub struct HlsArgs {
    pub input: String,
    pub output_dir: String,
    pub sidecars: Vec<String>,
    pub playlists: bool,
}

/// Arguments of `cid`.
#[derive(Debug)]
pub struct CidArgs {
    pub input: String,
    /// Whether each segment is identified, not the whole file.
    pub segments: bool,
}

/// Container that a whole input is made into.
#[derive(Clone, Copy, Debug, PartialEq, Eq, Structural)]
pub enum Presentation {
    Flat,
    Fmp4,
}

/// What `segment` does.
#[derive(Debug)]
pub enum SegmentMode {
    /// Reads the input at random and writes one file.
    Whole(String, Presentation),
    /// Writes a file for each segment into a directory.
    Directory(String),
    /// Reads the input front to back and writes one fragmented MP4.
    Stream(String),
    /// Tells the segments as events.
    Events,
}

/// What `args` ask `segment` to do: a flat MP4 before all else; a fragmented MP4
/// of a file, which can be read at random; and of the standard input, front to
/// back, a directory, a fragmented MP4 or events.
pub open spec fn asked_mode(args: SegmentArgs) -> Option<SegmentMode> {
    match (args.flat, args.fmp4, args.dir) {
        (Some(out), _, _) => Some(SegmentMode::Whole(out, Presentation::Flat)),
        (None, Some(out), _) if args.input@ != "-"@ => Some(
            SegmentMode::Whole(out, Presentation::Fmp4),
        ),
        (None, _, Some(dir)) => Some(SegmentMode::Directory(dir)),
        (None, Some(out), None) => Some(SegmentMode::Stream(out)),
        (None, None, None) => if args.stdout {
            Some(SegmentMode::Events)
        } else {
            None
        },
    }
}

/// What `args` ask `segment` to do; none where they ask for nothing.
pub fn segment_mode(args: SegmentArgs) -> (r: Option<SegmentMode>)
    ensures
        r == asked_mode(args),
{
    let from_stdin = same_text(args.input.as_str(), "-");
    if let Some(out) = args.flat {
        return Some(SegmentMode::Whole(out, Presentation::Flat));
    }
    match args.fmp4 {
        Some(out) => {
            if !from_stdin {
                Some(SegmentMode::Whole(out, Presentation::Fmp4))
            } else {
                match args.dir {
                    Some(dir) => Some(SegmentMode::Directory(dir)),
                    None => Some(SegmentMode::Stream(out)),
                }
            }
        },
        None => match args.dir {
            Some(dir) => Some(SegmentMode::Directory(dir)),
            None => if args.stdout {
                Some(SegmentMode::Events)
            } else {
                None
            },
        },
    }
}

/// The replacements in `pairs`: of two for one track, the last holds.
pub open spec fn remapping(pairs: Seq<(u32, u32)>) -> Map<u32, u32>
    decreases pairs.len(),
{
    if pairs.len() == 0 {
        Map::empty()
    } else {
        remapping(pairs.drop_last()).insert(pairs.last().0, pairs.last().1)
    }
}

/// The replacements in `pairs`, by track.
pub fn remap_table(pairs: &Vec<(u32, u32)>) -> (r: BTreeMap<u32, u32>)
    ensures
        r@ == remapping(pairs@),
{
    let mut out: BTreeMap<u32, u32> = BTreeMap::new();
    let mut i: usize = 0;
    assert(pairs@.take(0) =~= seq![]);
    assert(out@ =~= remapping(pairs@.take(0)));
    while i < pairs.len()
        invariant
            i <= pairs@.len(),
            out@ == remapping(pairs@.take(i as int)),
        decreases pairs@.len() - i,
    {
        let (from, to): (u32, u32) = pairs[i];
        out.insert(from, to);
        i += 1;
        proof {
            let t = pairs@.take(i as int);
            assert(t.drop_last() =~= pairs@.take(i - 1));
            assert(t.last() == (from, to));
        }
    }
    assert(pairs@.take(i as int) =~= pairs@);
    out
}

/// What `wrap` reads and writes.
#[derive(Debug)]
pub struct WrapPlan {
    pub output: String,
    pub inputs: Vec<String>,
    pub format: WrapFormat,
}

/// What is said where `wrap` is not given enough files.
pub open spec fn too_few_files() -> ErrorView {
    ErrorView::InvalidMp4("wrap needs an output and at least one input"@)
}

/// What `args` ask `wrap` to read and write. Where `flat` or `fmp4` names the
/// output, all files are inputs; otherwise the first file is the output, as with
/// `tar`.
pub fn wrap_plan(args: WrapArgs) -> (r: Result<WrapPlan, Error>)
    ensures
        match (args.flat, args.fmp4) {
            (Some(out), _) => if args.files@.len() == 0 {
                r matches Err(e) && e@ == too_few_files()
            } else {
                r matches Ok(p) && p.output == out && p.inputs@ == args.files@ && p.format
                    == WrapFormat::Flat
            },
            (None, Some(out)) => if args.files@.len() == 0 {
                r matches Err(e) && e@ == too_few_files()
            } else {
                r matches Ok(p) && p.output == out && p.inputs@ == args.files@ && p.format
                    == WrapFormat::Fmp4
            },
            (None, None) => if args.files@.len() < 2 {
                r matches Err(e) && e@ == too_few_files()
            } else {
                r matches Ok(p) && p.output == args.files@[0] && p.inputs@ == args.files@.skip(1)
                    && p.format == args.format
            },
        },
{
    let mut inputs = args.files;
    let (output, format): (String, WrapFormat) = match (args.flat, args.fmp4) {
        (Some(out), _) => (out, WrapFormat::Flat),
        (None, Some(out)) => (out, WrapFormat::Fmp4),
        (None, None) => {
            if inputs.len() == 0 {
                return Err(invalid_mp4("wrap needs an output and at least one input"));
            }
            let first = inputs.remove(0);
            assert(inputs@ =~= args.files@.skip(1));
            (first, args.format)
        },
    };
    if inputs.len() == 0 {
        return Err(invalid_mp4("wrap needs an output and at least one input"));
    }
    Ok(WrapPlan { output, inputs, format })
}

/// The segments of the wrappers `bufs`, one wrapper after the other.
pub open spec fn spliced(bufs: Seq<Seq<u8>>) -> Seq<Seq<u8>>
    decreases bufs.len(),
{
    if bufs.len() == 0 {
        Seq::empty()
    } else {
        spliced(bufs.drop_last()) + wrapped_segments(bufs.last())
    }
}

/// Splicing two lists of wrappers is splicing the one and then the other.
pub proof fn law_inputs_are_spliced_in_order(a: Seq<Seq<u8>>, b: Seq<Seq<u8>>)
    ensures
        spliced(a + b) == spliced(a) + spliced(b),
    decreases b.len(),
{
    if b.len() == 0 {
        assert(a + b =~= a);
        assert(spliced(a) + spliced(b) =~= spliced(a));
    } else {
        law_inputs_are_spliced_in_order(a, b.drop_last());
        assert((a + b).drop_last() =~= a + b.drop_last());
        assert((a + b).last() == b.last());
        assert(spliced(a) + (spliced(b.drop_last()) + wrapped_segments(b.last())) =~= spliced(a)
            + spliced(b.drop_last()) + wrapped_segments(b.last()));
    }
}

/// Wrapping canonical segments one by one is wrapping a file that holds them all:
/// either way these are the segments, verbatim and in order.
pub proof fn law_wrapping_parts_is_wrapping_the_whole(f: Seq<u8>, segs: Seq<Seq<u8>>)
    requires
        framing(f, 0),
        all_canonical(segs),
        segs.len() > 0,
    ensures
        spliced(segs) == segs,
        spliced(seq![f + join(segs)]) == segs,
{
    assert forall|i: int| 0 <= i < segs.len() implies wrapped_segments(#[trigger] segs[i])
        == seq![segs[i]] by {
        lemma_single(segs[i]);
    }
    lemma_spliced_singles(segs);
    law_unwrap_fmp4(f, segs);
    lemma_spliced_one(f + join(segs));
}

proof fn lemma_single(g: Seq<u8>)
    requires
        canonical_segment(g),
    ensures
        wrapped_segments(g) == seq![g],
{
    let one = seq![g];
    assert(all_canonical(one));
    law_unwrap_bare(one);
    lemma_join_one(g);
}

proof fn lemma_join_one(g: Seq<u8>)
    ensures
        join(seq![g]) == g,
{
    let one = seq![g];
    reveal_with_fuel(join, 2);
    assert(one.drop_last() =~= Seq::<Seq<u8>>::empty());
    assert(join(one) =~= g);
}

proof fn lemma_spliced_one(b: Seq<u8>)
    ensures
        spliced(seq![b]) == wrapped_segments(b),
{
    let one = seq![b];
    reveal_with_fuel(spliced, 2);
    assert(one.drop_last() =~= Seq::<Seq<u8>>::empty());
    assert(spliced(one) =~= wrapped_segments(b));
}

proof fn lemma_spliced_singles(segs: Seq<Seq<u8>>)
    requires
        forall|i: int| 0 <= i < segs.len() ==> wrapped_segments(#[trigger] segs[i]) == seq![segs[i]],
    ensures
        spliced(segs) == segs,
    decreases segs.len(),
{
    if segs.len() > 0 {
        lemma_spliced_singles(segs.drop_last());
        assert(segs.last() == segs[segs.len() - 1]);
        assert(segs =~= segs.drop_last() + seq![segs.last()]);
    }
}

/// The segments of the wrappers in `buffers`, one wrapper after the other.
pub fn unwrap_all<'a, F: Fn(&[u8]) -> Result<Catalog, Error>>(
    buffers: &'a Vec<Vec<u8>>,
    decode: &F,
) -> (r: Result<Vec<Segment<'a>>, Error>)
    requires
        forall|d: &[u8]| call_requires(*decode, (d,)),
    ensures
        match r {
            Ok(segs) => {
                &&& forall|i: int| 0 <= i < buffers@.len() ==> splits(#[trigger] buffers@[i]@)
                &&& data_of(segs@) == spliced(contents(buffers@))
                &&& forall|i: int| 0 <= i < segs@.len() ==> decoded(*decode, #[trigger] segs@[i])
            },
            Err(e) => exists|i: int|
                0 <= i < buffers@.len() && unwrap_fails(#[trigger] buffers@[i]@, *decode, e),
        },
{
    let mut all: Vec<Segment<'a>> = Vec::new();
    let ghost bufs = contents(buffers@);
    let mut i: usize = 0;
    assert(bufs.take(0) =~= seq![]);
    assert(data_of(all@) =~= spliced(bufs.take(0)));
    while i < buffers.len()
        invariant
            i <= buffers@.len(),
            bufs == contents(buffers@),
            forall|d: &[u8]| call_requires(*decode, (d,)),
            forall|j: int| 0 <= j < i ==> splits(#[trigger] buffers@[j]@),
            data_of(all@) == spliced(bufs.take(i as int)),
            forall|j: int| 0 <= j < all@.len() ==> decoded(*decode, #[trigger] all@[j]),
        decreases buffers@.len() - i,
    {
        let mut segs = match unwrap(buffers[i].as_slice(), decode) {
            Ok(s) => s,
            Err(e) => {
                assert(unwrap_fails(buffers@[i as int]@, *decode, e));
                return Err(e);
            },
        };
        let ghost before = all@;
        let ghost more = segs@;
        all.append(&mut segs);
        proof {
            let t = bufs.take(i + 1);
            assert(t.drop_last() =~= bufs.take(i as int));
            assert(t.last() == buffers@[i as int]@);
            assert(data_of(all@) =~= data_of(before) + data_of(more));
            assert(data_of(more) =~= wrapped_segments(t.last()));
            assert forall|j: int| 0 <= j < all@.len() implies decoded(*decode, #[trigger] all@[j]) by {
                if j >= before.len() {
                    assert(all@[j] == more[j - before.len()]);
                } else {
                    assert(all@[j] == before[j]);
                }
            }
        }
        i += 1;
    }
    assert(bufs.take(i as int) =~= bufs);
    Ok(all)
}

/// The line about a container `label` around `n` segments of `inputs` inputs.
pub open spec fn wrapped_line(label: Seq<char>, n: nat, inputs: nat) -> Seq<char> {
    label + ": wrapped "@ + decimal(n) + " segments from "@ + decimal(inputs) + " input(s)"@
}

fn say_wrapped(label: &str, n: usize, inputs: usize) -> (r: String)
    ensures
        r@ == wrapped_line(label@, n as nat, inputs as nat),
{
    let mut out = label.to_string();
    out.push_str(": wrapped ");
    push_decimal(&mut out, n as u64);
    out.push_str(" segments from ");
    push_decimal(&mut out, inputs as u64);
    out.push_str(" input(s)");
    out
}

/// The line about an init segment of `size` bytes.
pub open spec fn init_line(size: nat, n: nat, inputs: nat) -> Seq<char> {
    "init segment: "@ + decimal(size) + " bytes (from "@ + decimal(n) + " segments across "@
        + decimal(inputs) + " input(s))"@
}

fn say_init(size: usize, n: usize, inputs: usize) -> (r: String)
    ensures
        r@ == init_line(size as nat, n as nat, inputs as nat),
{
    let mut out = "init segment: ".to_string();
    push_decimal(&mut out, size as u64);
    out.push_str(" bytes (from ");
    push_decimal(&mut out, n as u64);
    out.push_str(" segments across ");
    push_decimal(&mut out, inputs as u64);
    out.push_str(" input(s))");
    out
}

fn slices_of<'a>(segments: &Vec<Segment<'a>>) -> (r: Vec<&'a [u8]>)
    ensures
        slices(r@) == data_of(segments@),
{
    let mut out: Vec<&'a [u8]> = Vec::new();
    let mut i: usize = 0;
    while i < segments.len()
        invariant
            i <= segments@.len(),
            out@.len() == i,
            forall|j: int| 0 <= j < i ==> (#[trigger] out@[j])@ == segments@[j].data@,
        decreases segments@.len() - i,
    {
        out.push(segments[i].data);
        i += 1;
    }
    assert(slices(out@) =~= data_of(segments@));
    out
}

/// Whether writing the init segment of `catalog` behind `before` gives `after` and
/// says `r`.
pub open spec fn init_written<B: Fn(&Catalog) -> Result<Vec<u8>, Error>>(
    catalog: &Catalog,
    n: nat,
    inputs: nat,
    build_init: B,
    before: Seq<u8>,
    after: Seq<u8>,
    r: Result<String, Error>,
) -> bool {
    match r {
        Ok(line) => exists|init: Vec<u8>| #[trigger]
            call_ensures(build_init, (catalog,), Ok::<Vec<u8>, Error>(init)) && after == before
                + init@ && line@ == init_line(init@.len(), n, inputs),
        Err(e) => call_ensures(build_init, (catalog,), Err::<Vec<u8>, Error>(e)) && after
            == before,
    }
}

/// Whether writing a fragmented MP4 around `segs` behind `before` gives `after` and
/// says `r`.
pub open spec fn fmp4_written<B: Fn(&Catalog) -> Result<Vec<u8>, Error>>(
    catalog: &Catalog,
    segs: Seq<Seq<u8>>,
    inputs: nat,
    build_init: B,
    before: Seq<u8>,
    after: Seq<u8>,
    r: Result<String, Error>,
) -> bool {
    match r {
        Ok(line) => line@ == wrapped_line("fMP4"@, segs.len(), inputs) && exists|init: Vec<u8>|
            #[trigger]
            call_ensures(build_init, (catalog,), Ok::<Vec<u8>, Error>(init)) && after == before
                + init@ + join(segs),
        Err(e) => call_ensures(build_init, (catalog,), Err::<Vec<u8>, Error>(e)) && after
            == before,
    }
}

/// Whether writing a flat MP4 around `segs` behind `before` gives `after` and says
/// `r`.
pub open spec fn flat_written<H: Fn(&Catalog, &Vec<SegmentMetadata>) -> Result<Vec<u8>, Error>>(
    catalog: &Catalog,
    segs: Seq<Seq<u8>>,
    inputs: nat,
    build_header: H,
    before: Seq<u8>,
    after: Seq<u8>,
    r: Result<String, Error>,
) -> bool {
    match index_all(segs) {
        Err(t) => r matches Err(e) && e@ == ErrorView::InvalidMp4(t) && after == before,
        Ok(items) => exists|metas: Vec<SegmentMetadata>|
            metas_view(metas@) == regrouped(items) && #[trigger] flat_header_written(
                catalog,
                metas,
                segs,
                inputs,
                build_header,
                before,
                after,
                r,
            ),
    }
}

/// Whether writing the header of `metas`, and then `segs`, behind `before` gives
/// `after` and says `r`.
pub open spec fn flat_header_written<
    H: Fn(&Catalog, &Vec<SegmentMetadata>) -> Result<Vec<u8>, Error>,
>(
    catalog: &Catalog,
    metas: Vec<SegmentMetadata>,
    segs: Seq<Seq<u8>>,
    inputs: nat,
    build_header: H,
    before: Seq<u8>,
    after: Seq<u8>,
    r: Result<String, Error>,
) -> bool {
    match r {
        Ok(line) => line@ == wrapped_line("flat MP4"@, segs.len(), inputs) && exists|
            header: Vec<u8>,
        | #[trigger]
            call_ensures(build_header, (catalog, &metas), Ok::<Vec<u8>, Error>(header)) && after
                == before + header@ + join(segs),
        Err(e) => call_ensures(build_header, (catalog, &metas), Err::<Vec<u8>, Error>(e)) && after
            == before,
    }
}

/// Whether presenting `segs` behind `before` gives `after` and says `r`.
pub open spec fn presented<
    B: Fn(&Catalog) -> Result<Vec<u8>, Error>,
    H: Fn(&Catalog, &Vec<SegmentMetadata>) -> Result<Vec<u8>, Error>,
>(
    catalog: &Catalog,
    segs: Seq<Seq<u8>>,
    inputs: nat,
    format: WrapFormat,
    init_only: bool,
    build_init: B,
    build_header: H,
    before: Seq<u8>,
    after: Seq<u8>,
    r: Result<String, Error>,
) -> bool {
    match format {
        WrapFormat::Fmp4 => if init_only {
            init_written(catalog, segs.len(), inputs, build_init, before, after, r)
        } else {
            fmp4_written(catalog, segs, inputs, build_init, before, after, r)
        },
        WrapFormat::Flat => if init_only {
            r matches Err(e) && e@ == ErrorView::InvalidMp4("--init-only requires --format fmp4"@)
                && after == before
        } else {
            flat_written(catalog, segs, inputs, build_header, before, after, r)
        },
    }
}

/// Appends to `out` the container of the given format around the segments, or its
/// init segment alone, and says so in a line. Any failure leaves `out` as it was.
pub fn present_segments<
    B: Fn(&Catalog) -> Result<Vec<u8>, Error>,
    H: Fn(&Catalog, &Vec<SegmentMetadata>) -> Result<Vec<u8>, Error>,
>(
    catalog: &Catalog,
    segments: &Vec<Segment>,
    inputs: usize,
    format: WrapFormat,
    init_only: bool,
    build_init: &B,
    build_header: &H,
    out: &mut Vec<u8>,
) -> (r: Result<String, Error>)
    requires
        call_requires(*build_init, (catalog,)),
        forall|metas: &Vec<SegmentMetadata>| #[trigger]
            call_requires(*build_header, (catalog, metas)),
    ensures
        presented(
            catalog,
            data_of(segments@),
            inputs as nat,
            format,
            init_only,
            *build_init,
            *build_header,
            old(out)@,
            final(out)@,
            r,
        ),
{
    let parts = slices_of(segments);
    match format {
        WrapFormat::Fmp4 => {
            if init_only {
                let init = match (*build_init)(catalog) {
                    Ok(init) => init,
                    Err(e) => return Err(e),
                };
                out.extend_from_slice(init.as_slice());
                assert(out@ =~= old(out)@ + init@);
                return Ok(say_init(init.len(), segments.len(), inputs));
            }
            match write_fmp4(catalog, parts.as_slice(), build_init, out) {
                Ok(_) => Ok(say_wrapped("fMP4", segments.len(), inputs)),
                Err(e) => Err(e),
            }
        },
        WrapFormat::Flat => {
            if init_only {
                return Err(invalid_mp4("--init-only requires --format fmp4"));
            }
            let ghost segs = slices(parts@);
            let ghost before = out@;
            let written = write_flat_from_m4s(catalog, parts.as_slice(), build_header, out);
            let ghost given = written;
            let r = match written {
                Ok(_) => Ok(say_wrapped("flat MP4", segments.len(), inputs)),
                Err(e) => Err(e),
            };
            proof {
                match index_all(segs) {
                    Err(_) => {},
                    Ok(items) => {
                        let metas = choose|metas: Vec<SegmentMetadata>|
                            metas_view(metas@) == regrouped(items) && match given {
                                Ok(_) => exists|header: Vec<u8>| #[trigger]
                                    call_ensures(
                                        *build_header,
                                        (catalog, &metas),
                                        Ok::<Vec<u8>, Error>(header),
                                    ) && out@ == before + header@ + join(segs),
                                Err(e) => call_ensures(
                                    *build_header,
                                    (catalog, &metas),
                                    Err::<Vec<u8>, Error>(e),
                                ) && out@ == before,
                            };
                        assert(flat_header_written(
                            catalog,
                            metas,
                            segs,
                            inputs as nat,
                            *build_header,
                            before,
                            out@,
                            r,
                        ));
                    },
                }
            }
            r
        },
    }
}

/// Whether wrapping the contents `bufs` behind `before` gives `after` and says `r`:
/// the segments of all of them, in order, under the catalog of all of them.
pub open spec fn wraps<
    D: Fn(&[u8]) -> Result<Catalog, Error>,
    B: Fn(&Catalog) -> Result<Vec<u8>, Error>,
    H: Fn(&Catalog, &Vec<SegmentMetadata>) -> Result<Vec<u8>, Error>,
>(
    bufs: Seq<Seq<u8>>,
    segs: Seq<Segment>,
    catalog: &Catalog,
    format: WrapFormat,
    init_only: bool,
    decode: D,
    build_init: B,
    build_header: H,
    before: Seq<u8>,
    after: Seq<u8>,
    r: Result<String, Error>,
) -> bool {
    &&& forall|i: int| 0 <= i < bufs.len() ==> splits(#[trigger] bufs[i])
    &&& data_of(segs) == spliced(bufs)
    &&& forall|i: int| 0 <= i < segs.len() ==> decoded(decode, #[trigger] segs[i])
    &&& catalog@ == aggregated(catalogs(segs))
    &&& presented(
        catalog,
        spliced(bufs),
        bufs.len(),
        format,
        init_only,
        build_init,
        build_header,
        before,
        after,
        r,
    )
}

/// Unwraps the buffers, and appends to `out` the container around their segments,
/// in order. Any failure leaves `out` as it was.
pub fn wrap_buffers<
    D: Fn(&[u8]) -> Result<Catalog, Error>,
    B: Fn(&Catalog) -> Result<Vec<u8>, Error>,
    H: Fn(&Catalog, &Vec<SegmentMetadata>) -> Result<Vec<u8>, Error>,
>(
    buffers: &Vec<Vec<u8>>,
    format: WrapFormat,
    init_only: bool,
    decode: &D,
    build_init: &B,
    build_header: &H,
    out: &mut Vec<u8>,
) -> (r: Result<String, Error>)
    requires
        forall|d: &[u8]| call_requires(*decode, (d,)),
        forall|c: &Catalog| #[trigger] call_requires(*build_init, (c,)),
        forall|c: &Catalog, metas: &Vec<SegmentMetadata>| #[trigger]
            call_requires(*build_header, (c, metas)),
    ensures
        (r matches Err(e) && final(out)@ == old(out)@ && exists|i: int|
            0 <= i < buffers@.len() && unwrap_fails(#[trigger] buffers@[i]@, *decode, e)) || exists|
            segs: Seq<Segment>,
            catalog: Catalog,
        | #[trigger]
            wraps(
                contents(buffers@),
                segs,
                &catalog,
                format,
                init_only,
                *decode,
                *build_init,
                *build_header,
                old(out)@,
                final(out)@,
                r,
            ),
{
    let segments = match unwrap_all(buffers, decode) {
        Ok(s) => s,
        Err(e) => return Err(e),
    };
    let catalog = aggregate_catalog(segments.as_slice());
    let r = present_segments(
        &catalog,
        &segments,
        buffers.len(),
        format,
        init_only,
        build_init,
        build_header,
        out,
    );
    proof {
        let bufs = contents(buffers@);
        assert forall|i: int| 0 <= i < bufs.len() implies splits(#[trigger] bufs[i]) by {
            assert(bufs[i] == buffers@[i]@);
        }
        assert(wraps(
            bufs,
            segments@,
            &catalog,
            format,
            init_only,
            *decode,
            *build_init,
            *build_header,
            old(out)@,
            out@,
            r,
        ));
    }
    r
}

/// Whether `header` opens a flat MP4 around `n` bytes of segments: framing, then the
/// header of the `mdat` envelope.
pub open spec fn opens_flat(header: Seq<u8>, n: int) -> bool {
    exists|f: Seq<u8>, h: Seq<u8>| #[trigger]
        header_parts(header, f, h) && framing(f, 0) && mdat_header(h, n)
}

/// Whether `header` is the framing `f` and then `h`.
pub open spec fn header_parts(header: Seq<u8>, f: Seq<u8>, h: Seq<u8>) -> bool {
    header == f + h
}

/// Whether every init segment that is built is framing.
pub open spec fn inits_frame<B: Fn(&Catalog) -> Result<Vec<u8>, Error>>(build_init: B) -> bool {
    forall|c: &Catalog, init: Vec<u8>| #[trigger]
        call_ensures(build_init, (c,), Ok::<Vec<u8>, Error>(init)) ==> framing(init@, 0)
}

/// Whether every header that is built for the segments `segs` opens a flat MP4 around
/// them.
pub open spec fn headers_open<
    H: Fn(&Catalog, &Vec<SegmentMetadata>) -> Result<Vec<u8>, Error>,
>(build_header: H, segs: Seq<Seq<u8>>) -> bool {
    forall|c: &Catalog, metas: Vec<SegmentMetadata>, header: Vec<u8>|
        #[trigger] call_ensures(build_header, (c, &metas), Ok::<Vec<u8>, Error>(header)) && (
        index_all(segs) matches Ok(items) && metas_view(metas@) == regrouped(items)) ==> opens_flat(
            header@,
            join(segs).len() as int,
        )
}

/// What is wrapped is read back: the container around the segments of several wrappers
/// holds these segments, verbatim and in order.
pub proof fn law_wrapped_is_read_back<
    D: Fn(&[u8]) -> Result<Catalog, Error>,
    B: Fn(&Catalog) -> Result<Vec<u8>, Error>,
    H: Fn(&Catalog, &Vec<SegmentMetadata>) -> Result<Vec<u8>, Error>,
>(
    bufs: Seq<Seq<u8>>,
    segs: Seq<Segment>,
    catalog: &Catalog,
    format: WrapFormat,
    decode: D,
    build_init: B,
    build_header: H,
    written: Seq<u8>,
    line: String,
)
    requires
        all_canonical(spliced(bufs)),
        inits_frame(build_init),
        headers_open(build_header, spliced(bufs)),
        wraps(
            bufs,
            segs,
            catalog,
            format,
            false,
            decode,
            build_init,
            build_header,
            seq![],
            written,
            Ok(line),
        ),
    ensures
        splits(written),
        wrapped_segments(written) == spliced(bufs),
{
    let all = spliced(bufs);
    match format {
        WrapFormat::Fmp4 => {
            lemma_fmp4_read_back(catalog, all, bufs.len(), build_init, written, line);
        },
        WrapFormat::Flat => {
            let items = index_all(all)->Ok_0;
            let metas = choose|metas: Vec<SegmentMetadata>|
                metas_view(metas@) == regrouped(items) && #[trigger] flat_header_written(
                    catalog,
                    metas,
                    all,
                    bufs.len(),
                    build_header,
                    seq![],
                    written,
                    Ok(line),
                );
            lemma_flat_read_back(catalog, metas, all, bufs.len(), build_header, written, line);
        },
    }
}

proof fn lemma_fmp4_read_back<B: Fn(&Catalog) -> Result<Vec<u8>, Error>>(
    catalog: &Catalog,
    all: Seq<Seq<u8>>,
    inputs: nat,
    build_init: B,
    written: Seq<u8>,
    line: String,
)
    requires
        all_canonical(all),
        inits_frame(build_init),
        fmp4_written(catalog, all, inputs, build_init, seq![], written, Ok(line)),
    ensures
        splits(written),
        wrapped_segments(written) == all,
{
    let none: Seq<u8> = seq![];
    let init = choose|init: Vec<u8>| #[trigger]
        call_ensures(build_init, (catalog,), Ok::<Vec<u8>, Error>(init)) && written == none + init@
            + join(all);
    assert(framing(init@, 0));
    assert(written =~= init@ + join(all));
    law_unwrap_fmp4(init@, all);
}

proof fn lemma_flat_read_back<
    H: Fn(&Catalog, &Vec<SegmentMetadata>) -> Result<Vec<u8>, Error>,
>(
    catalog: &Catalog,
    metas: Vec<SegmentMetadata>,
    all: Seq<Seq<u8>>,
    inputs: nat,
    build_header: H,
    written: Seq<u8>,
    line: String,
)
    requires
        all_canonical(all),
        headers_open(build_header, all),
        index_all(all) matches Ok(items) && metas_view(metas@) == regrouped(items),
        flat_header_written(catalog, metas, all, inputs, build_header, seq![], written, Ok(line)),
    ensures
        splits(written),
        wrapped_segments(written) == all,
{
    let none: Seq<u8> = seq![];
    let body = join(all);
    let header = choose|header: Vec<u8>| #[trigger]
        call_ensures(build_header, (catalog, &metas), Ok::<Vec<u8>, Error>(header)) && written
            == none + header@ + body;
    assert(opens_flat(header@, body.len() as int));
    let (f, h) = choose|f: Seq<u8>, h: Seq<u8>| #[trigger]
        header_parts(header@, f, h) && framing(f, 0) && mdat_header(h, body.len() as int);
    assert(written =~= f + (h + body + none));
    law_unwrap_flat(f, h, all, none);
}

/// How often `t` occurs in `ids`.
pub open spec fn count_of(ids: Seq<u32>, t: u32) -> nat
    decreases ids.len(),
{
    if ids.len() == 0 {
        0
    } else if ids.last() == t {
        count_of(ids.drop_last(), t) + 1
    } else {
        count_of(ids.drop_last(), t)
    }
}

/// How many segments of its track stand before the segment `i`, `ids` being the
/// tracks of the segments.
pub open spec fn ordinal(ids: Seq<u32>, i: int) -> nat {
    count_of(ids.take(i), ids[i])
}

proof fn lemma_count_bound(ids: Seq<u32>, t: u32)
    ensures
        count_of(ids, t) <= ids.len(),
        count_of(ids, t) > 0 <==> ids.contains(t),
    decreases ids.len(),
{
    if ids.len() > 0 {
        lemma_count_bound(ids.drop_last(), t);
        if ids.drop_last().contains(t) {
            let i = ids.drop_last().index_of(t);
            assert(ids[i] == t);
        }
        if ids.contains(t) && ids.last() != t {
            let i = ids.index_of(t);
            assert(ids[i] == t);
            assert(ids.drop_last()[i] == t);
        }
        if ids.last() == t {
            assert(ids[ids.len() - 1] == t);
        }
    }
}

/// The ordinal of each segment within its track, and how many tracks there are,
/// `ids` being the tracks of the segments.
pub fn ordinals(ids: &Vec<u32>) -> (r: (Vec<u64>, usize))
    ensures
        r.0@.len() == ids@.len(),
        forall|i: int| 0 <= i < ids@.len() ==> (#[trigger] r.0@[i]) as nat == ordinal(ids@, i),
        r.1 == ids@.to_set().len(),
{
    let mut counters: BTreeMap<u32, u64> = BTreeMap::new();
    let mut out: Vec<u64> = Vec::new();
    let mut i: usize = 0;
    assert(ids@.take(0) =~= seq![]);
    while i < ids.len()
        invariant
            i <= ids@.len(),
            out@.len() == i,
            forall|t: u32| #[trigger]
                counters@.contains_key(t) == (count_of(ids@.take(i as int), t) > 0),
            forall|t: u32| #[trigger]
                counters@.contains_key(t) ==> counters@[t] == count_of(ids@.take(i as int), t),
            forall|j: int| 0 <= j < i ==> (#[trigger] out@[j]) as nat == ordinal(ids@, j),
        decreases ids@.len() - i,
    {
        let t: u32 = ids[i];
        proof {
            lemma_count_bound(ids@.take(i as int), t);
        }
        let n: u64 = match counters.get(&t) {
            Some(n) => *n,
            None => 0,
        };
        assert(n == count_of(ids@.take(i as int), t));
        out.push(n);
        assert(n < u64::MAX);
        counters.insert(t, n + 1);
        i += 1;
        proof {
            let now = ids@.take(i as int);
            assert(now.drop_last() =~= ids@.take(i - 1));
            assert(now.last() == t);
        }
    }
    assert(ids@.take(i as int) =~= ids@);
    proof {
        assert forall|t: u32| counters@.dom().contains(t) == ids@.to_set().contains(t) by {
            lemma_count_bound(ids@, t);
            assert(counters@.contains_key(t) == (count_of(ids@, t) > 0));
        }
        assert(counters@.dom() =~= ids@.to_set());
    }
    let tracks: usize = counters.len();
    (out, tracks)
}

/// The name of the file of the `n`-th segment of a track.
pub open spec fn segment_name(track: nat, n: nat) -> Seq<char> {
    "track"@ + decimal(track) + "/segment_"@ + zero_padded(n) + ".m4s"@
}

/// The name of the init segment of a track.
pub open spec fn init_name(track: nat) -> Seq<char> {
    "track"@ + decimal(track) + "/init.mp4"@
}

/// `n` in decimal, with zeros before it to four digits.
pub open spec fn zero_padded(n: nat) -> Seq<char> {
    if n < 10 {
        "000"@ + decimal(n)
    } else if n < 100 {
        "00"@ + decimal(n)
    } else if n < 1000 {
        "0"@ + decimal(n)
    } else {
        decimal(n)
    }
}

/// `n` in decimal, with spaces before it to four places.
pub open spec fn space_padded(n: nat) -> Seq<char> {
    if n < 10 {
        "   "@ + decimal(n)
    } else if n < 100 {
        "  "@ + decimal(n)
    } else if n < 1000 {
        " "@ + decimal(n)
    } else {
        decimal(n)
    }
}

fn zero_padded_text(n: u64) -> (r: String)
    ensures
        r@ == zero_padded(n as nat),
{
    let mut out = String::new();
    if n < 10 {
        out.push_str("000");
    } else if n < 100 {
        out.push_str("00");
    } else if n < 1000 {
        out.push_str("0");
    }
    push_decimal(&mut out, n);
    assert(out@ =~= zero_padded(n as nat));
    out
}

fn space_padded_text(n: u64) -> (r: String)
    ensures
        r@ == space_padded(n as nat),
{
    let mut out = String::new();
    if n < 10 {
        out.push_str("   ");
    } else if n < 100 {
        out.push_str("  ");
    } else if n < 1000 {
        out.push_str(" ");
    }
    push_decimal(&mut out, n);
    assert(out@ =~= space_padded(n as nat));
    out
}

/// The name of the file of the `n`-th segment of a track.
pub fn segment_file(track: u32, n: u64) -> (r: String)
    ensures
        r@ == segment_name(track as nat, n as nat),
{
    let mut out = "track".to_string();
    push_decimal(&mut out, track as u64);
    out.push_str("/segment_");
    let digits = zero_padded_text(n);
    out.push_str(digits.as_str());
    out.push_str(".m4s");
    out
}

/// The name of the init segment of a track.
pub fn init_file(track: u32) -> (r: String)
    ensures
        r@ == init_name(track as nat),
{
    let mut out = "track".to_string();
    push_decimal(&mut out, track as u64);
    out.push_str("/init.mp4");
    out
}

/// Under which names a segment is written.
#[derive(Debug)]
pub struct SegmentNames {
    /// Where the init segment goes, with the first segment of a track.
    pub init: Option<String>,
    pub segment: String,
}

/// The tracks of `segs`.
pub open spec fn track_ids(segs: Seq<Segment>) -> Seq<u32> {
    segs.map_values(|s: Segment| s.track_id)
}

fn ids_of(segments: &Vec<Segment>) -> (r: Vec<u32>)
    ensures
        r@ == track_ids(segments@),
{
    let mut out: Vec<u32> = Vec::new();
    let mut i: usize = 0;
    while i < segments.len()
        invariant
            i <= segments@.len(),
            out@.len() == i,
            forall|j: int| 0 <= j < i ==> #[trigger] out@[j] == segments@[j].track_id,
        decreases segments@.len() - i,
    {
        out.push(segments[i].track_id);
        i += 1;
    }
    assert(out@ =~= track_ids(segments@));
    out
}

/// Under which names the segments `i` of `ids` are written.
pub open spec fn names_for(ids: Seq<u32>, i: int, n: SegmentNames) -> bool {
    &&& n.segment@ == segment_name(ids[i] as nat, ordinal(ids, i))
    &&& match n.init {
        Some(t) => ordinal(ids, i) == 0 && t@ == init_name(ids[i] as nat),
        None => ordinal(ids, i) > 0,
    }
}

/// Under which names the segments are written, each track in a directory of its
/// own, and how many tracks there are.
pub fn unwrap_names(segments: &Vec<Segment>) -> (r: (Vec<SegmentNames>, usize))
    ensures
        r.0@.len() == segments@.len(),
        forall|i: int|
            0 <= i < segments@.len() ==> names_for(track_ids(segments@), i, #[trigger] r.0@[i]),
        r.1 == track_ids(segments@).to_set().len(),
{
    let ids = ids_of(segments);
    let (counts, tracks) = ordinals(&ids);
    let mut out: Vec<SegmentNames> = Vec::new();
    let mut i: usize = 0;
    while i < ids.len()
        invariant
            i <= ids@.len(),
            counts@.len() == ids@.len(),
            forall|j: int|
                0 <= j < ids@.len() ==> (#[trigger] counts@[j]) as nat == ordinal(ids@, j),
            out@.len() == i,
            forall|j: int| 0 <= j < i ==> names_for(ids@, j, #[trigger] out@[j]),
        decreases ids@.len() - i,
    {
        let n: u64 = counts[i];
        let init = if n == 0 {
            Some(init_file(ids[i]))
        } else {
            None
        };
        out.push(SegmentNames { init, segment: segment_file(ids[i], n) });
        i += 1;
    }
    (out, tracks)
}

/// The line about segments written to a directory.
pub open spec fn unwrapped_line(n: nat, tracks: nat) -> Seq<char> {
    "unwrapped "@ + decimal(n) + " segments across "@ + decimal(tracks) + " tracks"@
}

/// The line about segments written to a directory.
pub fn say_unwrapped(n: usize, tracks: usize) -> (r: String)
    ensures
        r@ == unwrapped_line(n as nat, tracks as nat),
{
    let mut out = "unwrapped ".to_string();
    push_decimal(&mut out, n as u64);
    out.push_str(" segments across ");
    push_decimal(&mut out, tracks as u64);
    out.push_str(" tracks");
    out
}

/// The line about the segment `i`.
pub open spec fn segment_line(i: int, track: u32, size: nat) -> Seq<char> {
    "segment "@ + decimal(i as nat) + ": track "@ + decimal(track as nat) + " ("@ + decimal(size)
        + " bytes)"@
}

/// The lines about `segs`, and their number.
pub open spec fn listing(segs: Seq<Segment>) -> Seq<Seq<char>> {
    Seq::new(
        segs.len(),
        |i: int| segment_line(i, segs[i].track_id, segs[i].data@.len()),
    ).push(decimal(segs.len()) + " segments total"@)
}

fn say_segment(i: usize, track: u32, size: usize) -> (r: String)
    ensures
        r@ == segment_line(i as int, track, size as nat),
{
    let mut out = "segment ".to_string();
    push_decimal(&mut out, i as u64);
    out.push_str(": track ");
    push_decimal(&mut out, track as u64);
    out.push_str(" (");
    push_decimal(&mut out, size as u64);
    out.push_str(" bytes)");
    out
}

/// The lines about the segments, and their number.
pub fn list_segments(segments: &Vec<Segment>) -> (r: Vec<String>)
    ensures
        texts(r@) == listing(segments@),
{
    let mut out: Vec<String> = Vec::new();
    let mut i: usize = 0;
    while i < segments.len()
        invariant
            i <= segments@.len(),
            out@.len() == i,
            forall|j: int|
                0 <= j < i ==> (#[trigger] out@[j])@ == segment_line(
                    j,
                    segments@[j].track_id,
                    segments@[j].data@.len(),
                ),
        decreases segments@.len() - i,
    {
        out.push(say_segment(i, segments[i].track_id, segments[i].data.len()));
        i += 1;
    }
    let mut total = String::new();
    push_decimal(&mut total, segments.len() as u64);
    total.push_str(" segments total");
    assert(total@ =~= decimal(segments@.len()) + " segments total"@);
    out.push(total);
    assert(texts(out@) =~= listing(segments@));
    out
}

/// The line with the identifier of a segment.
pub open spec fn cid_line(data: Seq<u8>, track: u32, n: nat) -> Seq<char> {
    cid_text(blake3_digest(data)) + "\ttrack"@ + decimal(track as nat) + " seg"@ + decimal(n)
        + "\t"@ + decimal(data.len()) + " bytes"@
}

fn say_cid(data: &[u8], track: u32, n: u64) -> (r: String)
    ensures
        r@ == cid_line(data@, track, n as nat),
{
    let mut out = from_bytes(data);
    out.push_str("\ttrack");
    push_decimal(&mut out, track as u64);
    out.push_str(" seg");
    push_decimal(&mut out, n);
    out.push_str("\t");
    push_decimal(&mut out, data.len() as u64);
    out.push_str(" bytes");
    out
}

/// The lines with the identifiers of the segments, each with its track and its
/// ordinal within the track.
pub fn cid_lines(segments: &Vec<Segment>) -> (r: Vec<String>)
    ensures
        r@.len() == segments@.len(),
        forall|i: int|
            0 <= i < segments@.len() ==> (#[trigger] r@[i])@ == cid_line(
                segments@[i].data@,
                segments@[i].track_id,
                ordinal(track_ids(segments@), i),
            ),
{
    let ids = ids_of(segments);
    let (counts, _tracks) = ordinals(&ids);
    let mut out: Vec<String> = Vec::new();
    let mut i: usize = 0;
    while i < segments.len()
        invariant
            i <= segments@.len(),
            ids@ == track_ids(segments@),
            counts@.len() == ids@.len(),
            forall|j: int|
                0 <= j < ids@.len() ==> (#[trigger] counts@[j]) as nat == ordinal(ids@, j),
            out@.len() == i,
            forall|j: int|
                0 <= j < i ==> (#[trigger] out@[j])@ == cid_line(
                    segments@[j].data@,
                    segments@[j].track_id,
                    ordinal(ids@, j),
                ),
        decreases segments@.len() - i,
    {
        out.push(say_cid(segments[i].data, segments[i].track_id, counts[i]));
        i += 1;
    }
    out
}

/// The line about a video rendition.
pub open spec fn video_line(name: Seq<char>, v: VideoConfig) -> Seq<char> {
    "video \""@ + name + "\": "@ + v.codec@ + " "@ + decimal(v.coded_width as nat) + "x"@
        + decimal(v.coded_height as nat) + " (track "@ + decimal(v.track_id as nat) + ", "@
        + decimal(v.description@.len()) + " desc bytes)"@
}

/// The line about an audio rendition.
pub open spec fn audio_line(name: Seq<char>, a: AudioConfig) -> Seq<char> {
    "audio \""@ + name + "\": "@ + a.codec@ + " "@ + decimal(a.sample_rate as nat) + "Hz "@
        + decimal(a.number_of_channels as nat) + "ch (track "@ + decimal(a.track_id as nat) + ", "@
        + decimal(a.description@.len()) + " desc bytes)"@
}

fn say_video(name: &str, v: &VideoConfig) -> (r: String)
    ensures
        r@ == video_line(name@, *v),
{
    let mut out = "video \"".to_string();
    out.push_str(name);
    out.push_str("\": ");
    out.push_str(v.codec.as_str());
    out.push_str(" ");
    push_decimal(&mut out, v.coded_width as u64);
    out.push_str("x");
    push_decimal(&mut out, v.coded_height as u64);
    out.push_str(" (track ");
    push_decimal(&mut out, v.track_id as u64);
    out.push_str(", ");
    push_decimal(&mut out, v.description.len() as u64);
    out.push_str(" desc bytes)");
    out
}

fn say_audio(name: &str, a: &AudioConfig) -> (r: String)
    ensures
        r@ == audio_line(name@, *a),
{
    let mut out = "audio \"".to_string();
    out.push_str(name);
    out.push_str("\": ");
    out.push_str(a.codec.as_str());
    out.push_str(" ");
    push_decimal(&mut out, a.sample_rate as u64);
    out.push_str("Hz ");
    push_decimal(&mut out, a.number_of_channels as u64);
    out.push_str("ch (track ");
    push_decimal(&mut out, a.track_id as u64);
    out.push_str(", ");
    push_decimal(&mut out, a.description.len() as u64);
    out.push_str(" desc bytes)");
    out
}

/// The lines about the video renditions of `c`.
pub open spec fn video_lines(c: Catalog) -> Seq<Seq<char>> {
    match c.video {
        Some(v) => Seq::new(
            v.renditions.order().len(),
            |i: int| video_line(v.renditions.order()[i], v.renditions.nth(i)),
        ),
        None => Seq::empty(),
    }
}

/// The lines about the audio renditions of `c`.
pub open spec fn audio_lines(c: Catalog) -> Seq<Seq<char>> {
    match c.audio {
        Some(a) => Seq::new(
            a.renditions.order().len(),
            |i: int| audio_line(a.renditions.order()[i], a.renditions.nth(i)),
        ),
        None => Seq::empty(),
    }
}

/// The lines about the renditions in a catalog, video before audio, each in the
/// order of the names.
pub fn catalog_lines(catalog: &Catalog) -> (r: Vec<String>)
    ensures
        texts(r@) == video_lines(*catalog) + audio_lines(*catalog),
{
    let mut out: Vec<String> = Vec::new();
    if let Some(video) = &catalog.video {
        let n: usize = video.renditions.len();
        let mut i: usize = 0;
        while i < n
            invariant
                i <= n,
                n == video.renditions.order().len(),
                catalog.video == Some(*video),
                out@.len() == i,
                forall|j: int| 0 <= j < i ==> (#[trigger] out@[j])@ == video_lines(*catalog)[j],
            decreases n - i,
        {
            out.push(say_video(video.renditions.key(i).as_str(), video.renditions.value(i)));
            i += 1;
        }
    }
    assert(texts(out@) =~= video_lines(*catalog));
    let ghost first = out@;
    if let Some(audio) = &catalog.audio {
        let n: usize = audio.renditions.len();
        let mut i: usize = 0;
        while i < n
            invariant
                i <= n,
                n == audio.renditions.order().len(),
                catalog.audio == Some(*audio),
                out@.len() == first.len() + i,
                out@.take(first.len() as int) == first,
                forall|j: int|
                    first.len() <= j < out@.len() ==> (#[trigger] out@[j])@ == audio_lines(
                        *catalog,
                    )[j - first.len()],
            decreases n - i,
        {
            let ghost before = out@;
            out.push(say_audio(audio.renditions.key(i).as_str(), audio.renditions.value(i)));
            assert(out@.take(first.len() as int) =~= before.take(first.len() as int));
            i += 1;
        }
    }
    proof {
        assert(out@.take(first.len() as int) =~= first);
        assert forall|j: int| 0 <= j < out@.len() implies (#[trigger] texts(out@)[j]) == (
        video_lines(*catalog) + audio_lines(*catalog))[j] by {
            if j < first.len() {
                assert(out@[j] == out@.take(first.len() as int)[j]);
                assert(texts(first)[j] == video_lines(*catalog)[j]);
            }
        }
        assert(texts(out@) =~= video_lines(*catalog) + audio_lines(*catalog));
    }
    out
}

/// The line about an event of the segmenter.
pub open spec fn event_line(e: SegmenterEvent) -> Seq<char> {
    match e {
        SegmenterEvent::InitSegment { data, .. } => "init: "@ + decimal(data@.len()) + " bytes"@,
        SegmenterEvent::Segment(g) => gop_line(decimal(g.number as nat), g@),
    }
}

/// The line about a GOP with the given number.
pub open spec fn gop_line(number: Seq<char>, g: GopView) -> Seq<char> {
    "segment "@ + number + ": "@ + decimal(g.tracks.dom().len()) + " tracks, "@ + decimal(
        gop_size(g) as nat,
    ) + " bytes"@
}

fn say_gop(number: &str, gop: &GopSegment) -> (r: String)
    ensures
        r@ == gop_line(number@, gop@),
{
    let mut out = "segment ".to_string();
    out.push_str(number);
    out.push_str(": ");
    let n: usize = gop.tracks.len();
    assert(gop@.tracks.dom() =~= gop.tracks@.dom());
    push_decimal(&mut out, n as u64);
    out.push_str(" tracks, ");
    push_decimal(&mut out, size_of_gop(gop));
    out.push_str(" bytes");
    out
}

/// The line about an event of the segmenter.
pub fn say_event(event: &SegmenterEvent) -> (r: String)
    ensures
        r@ == event_line(*event),
{
    match event {
        SegmenterEvent::InitSegment { data, .. } => {
            let mut out = "init: ".to_string();
            push_decimal(&mut out, data.len() as u64);
            out.push_str(" bytes");
            out
        },
        SegmenterEvent::Segment(gop) => {
            let mut number = String::new();
            push_decimal(&mut number, gop.number as u64);
            assert(number@ =~= decimal(gop.number as nat));
            say_gop(number.as_str(), gop)
        },
    }
}

/// The line about a GOP on its way into a fragmented MP4.
pub fn say_streamed(gop: &GopSegment) -> (r: String)
    ensures
        r@ == gop_line(space_padded(gop.number as nat), gop@),
{
    let number = space_padded_text(gop.number as u64);
    say_gop(number.as_str(), gop)
}

/// A track's part of a GOP, on its way into a directory.
#[derive(Debug)]
pub struct GopFile {
    pub track_id: u32,
    pub name: String,
    /// What is said of it.
    pub line: String,
}

/// The line about a track's part of a GOP.
pub open spec fn part_line(track: u32, number: u32, size: nat) -> Seq<char> {
    "track "@ + decimal(track as nat) + " segment "@ + space_padded(number as nat) + ": "@
        + decimal(size) + " bytes"@
}

/// The files that a GOP is written to, one for each track, ascending.
pub fn gop_files(gop: &GopSegment) -> (r: Vec<GopFile>)
    ensures
        r@.len() == sorted(gop@.tracks.dom()).len(),
        forall|i: int|
            0 <= i < r@.len() ==> {
                let t = sorted(gop@.tracks.dom())[i];
                &&& (#[trigger] r@[i]).track_id == t
                &&& r@[i].name@ == segment_name(t as nat, gop.number as nat)
                &&& r@[i].line@ == part_line(t, gop.number, gop@.tracks[t].len())
            },
{
    let ids = keys_of(&gop.tracks);
    assert(gop@.tracks.dom() =~= gop.tracks@.dom());
    let mut out: Vec<GopFile> = Vec::new();
    let mut i: usize = 0;
    while i < ids.len()
        invariant
            i <= ids@.len(),
            lists(ids@, gop.tracks@.dom()),
            out@.len() == i,
            forall|j: int|
                0 <= j < i ==> {
                    &&& (#[trigger] out@[j]).track_id == ids@[j]
                    &&& out@[j].name@ == segment_name(ids@[j] as nat, gop.number as nat)
                    &&& out@[j].line@ == part_line(
                        ids@[j],
                        gop.number,
                        gop@.tracks[ids@[j]].len(),
                    )
                },
        decreases ids@.len() - i,
    {
        let track_id: u32 = ids[i];
        assert(ids@.contains(track_id)) by {
            assert(ids@[i as int] == track_id);
        }
        let size: usize = match gop.tracks.get(&track_id) {
            Some(data) => data.len(),
            None => 0,
        };
        let mut line = "track ".to_string();
        push_decimal(&mut line, track_id as u64);
        line.push_str(" segment ");
        let number = space_padded_text(gop.number as u64);
        line.push_str(number.as_str());
        line.push_str(": ");
        push_decimal(&mut line, size as u64);
        line.push_str(" bytes");
        out.push(GopFile { track_id, name: segment_file(track_id, gop.number as u64), line });
        i += 1;
    }
    out
}

/// The tracks that occur in `gops`.
pub open spec fn tracks_in(gops: Seq<GopView>) -> Set<u32>
    decreases gops.len(),
{
    if gops.len() == 0 {
        Set::empty()
    } else {
        tracks_in(gops.drop_last()).union(gops.last().tracks.dom())
    }
}

fn collect_tracks(gops: &[GopSegment]) -> (r: Vec<u32>)
    ensures
        lists(r@, tracks_in(gops_of(gops@))),
{
    let mut all: Vec<u32> = Vec::new();
    let ghost views = gops_of(gops@);
    let mut i: usize = 0;
    assert(views.take(0) =~= seq![]);
    while i < gops.len()
        invariant
            i <= gops@.len(),
            views == gops_of(gops@),
            ascending(all@),
            forall|q: u32| #[trigger]
                all@.contains(q) == tracks_in(views.take(i as int)).contains(q),
        decreases gops@.len() - i,
    {
        let ids = keys_of(&gops[i].tracks);
        let ghost before = all@;
        let mut k: usize = 0;
        while k < ids.len()
            invariant
                k <= ids@.len(),
                ascending(all@),
                forall|q: u32| #[trigger]
                    all@.contains(q) == (before.contains(q) || ids@.take(k as int).contains(q)),
            decreases ids@.len() - k,
        {
            let ghost prior = all@;
            insert_sorted(&mut all, ids[k]);
            proof {
                let t = ids@.take(k + 1);
                assert forall|q: u32| t.contains(q) == (ids@.take(k as int).contains(q) || q
                    == ids@[k as int]) by {
                    assert(t =~= ids@.take(k as int).push(ids@[k as int]));
                    if ids@.take(k as int).contains(q) {
                        let x = ids@.take(k as int).index_of(q);
                        assert(t[x] == q);
                    }
                    if q == ids@[k as int] {
                        assert(t[k as int] == q);
                    }
                }
            }
            k += 1;
        }
        proof {
            assert(ids@.take(k as int) =~= ids@);
            let t = views.take(i + 1);
            assert(t.drop_last() =~= views.take(i as int));
            assert(t.last() == gops@[i as int]@);
            assert(t.last().tracks.dom() =~= gops@[i as int].tracks@.dom());
        }
        i += 1;
    }
    assert(views.take(i as int) =~= views);
    all
}

/// A fragmented MP4, and what is said of it.
#[derive(Debug)]
pub struct StreamedFmp4 {
    pub bytes: Vec<u8>,
    pub line: String,
}

/// The line about a fragmented MP4.
pub open spec fn fmp4_line(size: nat, gops: nat, tracks: nat) -> Seq<char> {
    "fMP4: "@ + decimal(size) + " bytes ("@ + decimal(gops) + " GOPs, "@ + decimal(tracks)
        + " tracks)"@
}

/// The fragmented MP4 of an init segment and GOPs: GOP after GOP, the tracks of
/// each ascending.
pub fn streamed_fmp4(init: Vec<u8>, gops: &[GopSegment]) -> (r: StreamedFmp4)
    ensures
        r.bytes@ == init@ + flat_body(gops_of(gops@)),
        exists|ids: Seq<u32>| #[trigger]
            lists(ids, tracks_in(gops_of(gops@))) && r.line@ == fmp4_line(
                r.bytes@.len(),
                gops@.len(),
                ids.len(),
            ),
{
    let ids = collect_tracks(gops);
    let mut bytes = init;
    append_gops(&mut bytes, gops);
    let mut line = "fMP4: ".to_string();
    push_decimal(&mut line, bytes.len() as u64);
    line.push_str(" bytes (");
    push_decimal(&mut line, gops.len() as u64);
    line.push_str(" GOPs, ");
    push_decimal(&mut line, ids.len() as u64);
    line.push_str(" tracks)");
    StreamedFmp4 { bytes, line }
}

/// Hands the input, the output directory and the options in `args` to `emit`.
pub fn cmd_hls<E: Fn(&String, &String, &HlsOpts) -> Result<(), Error>>(
    args: HlsArgs,
    emit: &E,
) -> (r: Result<(), Error>)
    requires
        forall|i: &String, o: &String, opts: &HlsOpts| #[trigger]
            call_requires(*emit, (i, o, opts)),
    ensures
        call_ensures(
            *emit,
            (
                &args.input,
                &args.output_dir,
                &HlsOpts { sidecars: args.sidecars, write_playlists: args.playlists },
            ),
            r,
        ),
{
    let opts = HlsOpts { sidecars: args.sidecars, write_playlists: args.playlists };
    (*emit)(&args.input, &args.output_dir, &opts)
}

/// What is said of a text that is no number.
pub open spec fn number_fault_text(f: NumberFault) -> Seq<char> {
    match f {
        NumberFault::Empty => "cannot parse integer from empty string"@,
        NumberFault::InvalidDigit => "invalid digit found in string"@,
        NumberFault::TooLarge => "number too large to fit in target type"@,
    }
}

fn say_fault(f: NumberFault) -> (r: String)
    ensures
        r@ == number_fault_text(f),
{
    match f {
        NumberFault::Empty => "cannot parse integer from empty string".to_string(),
        NumberFault::InvalidDigit => "invalid digit found in string".to_string(),
        NumberFault::TooLarge => "number too large to fit in target type".to_string(),
    }
}

/// `s` as `Debug` prints it, in quotes and with escapes.
pub uninterp spec fn debug_text(s: Seq<char>) -> Seq<char>;

/// Calls the `Debug` formatting of `str`. The result depends on the text alone; it
/// is not stated here.
#[verifier::external_body]
fn quoted(s: &str) -> (r: String)
    ensures
        r@ == debug_text(s@),
{
    format!("{s:?}")
}

/// The pair of numbers that `s` writes as `OLD:NEW`, spaces around either number
/// aside; or what is wrong with it.
pub open spec fn remap_pair(s: Seq<char>) -> Result<(u32, u32), Seq<char>> {
    match char_from(s, ':', 0) {
        None => Err("expected OLD:NEW, got "@ + debug_text(s)),
        Some(i) => {
            let old_part = trimmed(s.subrange(0, i));
            let new_part = trimmed(s.subrange(i + 1, s.len() as int));
            match (parsed_u32(old_part), parsed_u32(new_part)) {
                (Err(f), _) => Err(
                    "invalid source track id "@ + debug_text(old_part) + ": "@ + number_fault_text(
                        f,
                    ),
                ),
                (Ok(_), Err(f)) => Err(
                    "invalid target track id "@ + debug_text(new_part) + ": "@ + number_fault_text(
                        f,
                    ),
                ),
                (Ok(a), Ok(b)) => Ok((a, b)),
            }
        },
    }
}

fn bad_id(head: &str, part: &str, f: NumberFault) -> (r: String)
    ensures
        r@ == head@ + debug_text(part@) + ": "@ + number_fault_text(f),
{
    let mut out = head.to_string();
    let shown = quoted(part);
    out.push_str(shown.as_str());
    out.push_str(": ");
    let why = say_fault(f);
    out.push_str(why.as_str());
    out
}

/// The pair of track ids that `s` writes as `OLD:NEW`, or what is wrong with it.
pub fn parse_remap_pair(s: &str) -> (r: Result<(u32, u32), String>)
    ensures
        match r {
            Ok(p) => remap_pair(s@) == Ok::<(u32, u32), Seq<char>>(p),
            Err(t) => remap_pair(s@) == Err::<(u32, u32), Seq<char>>(t@),
        },
{
    let cs = chars_of(s);
    proof {
        lemma_char_from(s@, ':', 0);
    }
    let at: usize = match find_char(cs.as_slice(), ':', 0) {
        Some(i) => i,
        None => {
            let mut out = "expected OLD:NEW, got ".to_string();
            let shown = quoted(s);
            out.push_str(shown.as_str());
            return Err(out);
        },
    };
    let before = trim_chars(slice_subrange(cs.as_slice(), 0, at));
    let old_part = string_of(before.as_slice());
    let after = trim_chars(slice_subrange(cs.as_slice(), at + 1, cs.len()));
    let new_part = string_of(after.as_slice());
    let from: u32 = match parse_u32(old_part.as_str()) {
        Ok(n) => n,
        Err(f) => return Err(bad_id("invalid source track id ", old_part.as_str(), f)),
    };
    let to: u32 = match parse_u32(new_part.as_str()) {
        Ok(n) => n,
        Err(f) => return Err(bad_id("invalid target track id ", new_part.as_str(), f)),
    };
    Ok((from, to))
}

/// How many bytes `c` takes in UTF-8.
pub open spec fn utf8_width(c: char) -> nat {
    let n = c as int;
    if n < 0x80 {
        1
    } else if n < 0x800 {
        2
    } else if n < 0x10000 {
        3
    } else {
        4
    }
}

/// Whether `s` takes an odd number of bytes in UTF-8.
pub open spec fn odd_length(s: Seq<char>) -> bool
    decreases s.len(),
{
    if s.len() == 0 {
        false
    } else {
        odd_length(s.drop_last()) != (utf8_width(s.last()) % 2 == 1)
    }
}

/// The byte that two hexadecimal digits of either case write.
pub open spec fn hex_pair(a: char, b: char) -> Option<u8> {
    match (hex_value(a), hex_value(b)) {
        (Some(x), Some(y)) => Some((x * 16 + y) as u8),
        _ => None,
    }
}

/// Whether `s` is made of pairs that write bytes.
pub open spec fn hex_pairs(s: Seq<char>) -> bool {
    s.len() % 2 == 0 && forall|i: int|
        0 <= i < s.len() / 2 ==> #[trigger] hex_pair(s[2 * i], s[2 * i + 1]) is Some
}

/// `s` without a leading `0x`.
pub open spec fn without_0x(s: Seq<char>) -> Seq<char> {
    if starts(s, "0x"@) {
        s.skip(2)
    } else {
        s
    }
}

/// The bytes that the hexadecimal text `s` writes, or what is wrong with it.
pub open spec fn decoded_hex(s: Seq<char>) -> Result<Seq<u8>, ErrorView> {
    let t = without_0x(s);
    if odd_length(t) {
        Err(ErrorView::Io(IoKind::InvalidData, "hex string has an odd length"@))
    } else if !hex_pairs(t) {
        Err(ErrorView::Io(IoKind::InvalidData, "bad hex: invalid digit found in string"@))
    } else {
        Ok(Seq::new(t.len() / 2, |i: int| hex_pair(t[2 * i], t[2 * i + 1])->Some_0))
    }
}

fn invalid_data(message: &str) -> (r: Error)
    ensures
        r@ == ErrorView::Io(IoKind::InvalidData, message@),
{
    Error::Io(IoError { kind: IoKind::InvalidData, message: message.to_string() })
}

fn is_odd_width(c: char) -> (r: bool)
    ensures
        r == (utf8_width(c) % 2 == 1),
{
    let n: u32 = c as u32;
    n < 0x80 || (0x800 <= n && n < 0x10000)
}

fn is_odd(cs: &[char]) -> (r: bool)
    ensures
        r == odd_length(cs@),
{
    let mut odd = false;
    let mut i: usize = 0;
    assert(cs@.take(0) =~= seq![]);
    while i < cs.len()
        invariant
            i <= cs@.len(),
            odd == odd_length(cs@.take(i as int)),
        decreases cs@.len() - i,
    {
        if is_odd_width(cs[i]) {
            odd = !odd;
        }
        i += 1;
        proof {
            let t = cs@.take(i as int);
            assert(t.drop_last() =~= cs@.take(i - 1));
            assert(t.last() == cs@[i - 1]);
        }
    }
    assert(cs@.take(i as int) =~= cs@);
    odd
}

fn read_pair(a: char, b: char) -> (r: Option<u8>)
    ensures
        r == hex_pair(a, b),
{
    match (nibble(a), nibble(b)) {
        (Some(x), Some(y)) => Some(x * 16 + y),
        _ => None,
    }
}

/// The bytes that the hexadecimal text `s` writes, with or without a leading `0x`.
pub fn decode_hex(s: &str) -> (r: Result<Vec<u8>, Error>)
    ensures
        match r {
            Ok(b) => decoded_hex(s@) == Ok::<Seq<u8>, ErrorView>(b@),
            Err(e) => decoded_hex(s@) == Err::<Seq<u8>, ErrorView>(e@),
        },
{
    let all = chars_of(s);
    proof {
        reveal_strlit("0x");
    }
    let start: usize = if has_prefix(all.as_slice(), "0x") {
        2
    } else {
        0
    };
    let cs = slice_subrange(all.as_slice(), start, all.len());
    let ghost t = without_0x(s@);
    assert(cs@ =~= t);
    if is_odd(cs) {
        return Err(invalid_data("hex string has an odd length"));
    }
    if cs.len() % 2 != 0 {
        return Err(invalid_data("bad hex: invalid digit found in string"));
    }
    let mut out: Vec<u8> = Vec::new();
    let n: usize = cs.len() / 2;
    let mut i: usize = 0;
    while i < n
        invariant
            i <= n,
            n == cs@.len() / 2,
            2 * n <= usize::MAX,
            cs@ == t,
            t == without_0x(s@),
            t.len() % 2 == 0,
            !odd_length(t),
            out@.len() == i,
            forall|j: int|
                0 <= j < i ==> #[trigger] hex_pair(t[2 * j], t[2 * j + 1]) is Some && out@[j]
                    == hex_pair(t[2 * j], t[2 * j + 1])->Some_0,
        decreases n - i,
    {
        match read_pair(cs[2 * i], cs[2 * i + 1]) {
            Some(b) => {
                out.push(b);
            },
            None => {
                assert(hex_pair(t[2 * i as int], t[2 * i + 1]) is None);
                assert(!hex_pairs(t));
                return Err(invalid_data("bad hex: invalid digit found in string"));
            },
        }
        i += 1;
    }
    assert(hex_pairs(t));
    assert(out@ =~= Seq::new(t.len() / 2, |i: int| hex_pair(t[2 * i], t[2 * i + 1])->Some_0));
    Ok(out)
}

proof fn lemma_even_ascii(s: Seq<char>)
    requires
        forall|i: int| 0 <= i < s.len() ==> hex_value(#[trigger] s[i]) is Some,
    ensures
        odd_length(s) == (s.len() % 2 == 1),
    decreases s.len(),
{
    if s.len() > 0 {
        assert(hex_value(s[s.len() - 1]) is Some);
        assert forall|i: int| 0 <= i < s.drop_last().len() implies hex_value(
            #[trigger] s.drop_last()[i],
        ) is Some by {
            assert(s.drop_last()[i] == s[i]);
        }
        lemma_even_ascii(s.drop_last());
    }
}

/// Bytes that were written in hexadecimal are decoded to themselves, with and
/// without a leading `0x`.
pub proof fn law_hex_is_decoded(bytes: Seq<u8>)
    ensures
        decoded_hex(hex(bytes)) == Ok::<Seq<u8>, ErrorView>(bytes),
        decoded_hex("0x"@ + hex(bytes)) == Ok::<Seq<u8>, ErrorView>(bytes),
{
    let s = hex(bytes);
    law_unhex_hex(bytes);
    lemma_even_ascii(s);
    reveal_strlit("0x");
    if starts(s, "0x"@) {
        assert(s.take(2)[1] == "0x"@[1]);
        assert(hex_value(s[1]) is Some);
    }
    let p = "0x"@ + s;
    assert(p.take(2) =~= "0x"@);
    assert(p.skip(2) =~= s);
    assert forall|i: int| 0 <= i < s.len() / 2 implies #[trigger] hex_pair(s[2 * i], s[2 * i + 1])
        == Some(unhex(s)[i]) by {
        assert(hex_value(s[2 * i]) is Some && hex_value(s[2 * i + 1]) is Some);
    }
    assert(Seq::new(s.len() / 2, |i: int| hex_pair(s[2 * i], s[2 * i + 1])->Some_0) =~= bytes);
}

/// What a flat header is told of one GOP, keyed by the texts of the track ids.
#[derive(Debug)]
pub struct SynthSegment {
    pub track_byte_sizes: KeyMap<u64>,
    pub samples: KeyMap<CborTrackSamples>,
    pub first_decode_times: KeyMap<u64>,
}

/// The track id that `k` writes, or what is wrong with it.
pub open spec fn track_id_text(k: Seq<char>) -> Result<u32, ErrorView> {
    match parsed_u32(k) {
        Ok(id) => Ok(id),
        Err(_) => Err(
            ErrorView::Io(IoKind::InvalidData, "non-numeric track id "@ + debug_text(k)),
        ),
    }
}

/// The track id that `k` writes.
pub fn parse_track_id(k: &str) -> (r: Result<u32, Error>)
    ensures
        match r {
            Ok(id) => track_id_text(k@) == Ok::<u32, ErrorView>(id),
            Err(e) => track_id_text(k@) == Err::<u32, ErrorView>(e@),
        },
{
    match parse_u32(k) {
        Ok(id) => Ok(id),
        Err(_) => {
            let mut message = "non-numeric track id ".to_string();
            let shown = quoted(k);
            message.push_str(shown.as_str());
            Err(Error::Io(IoError { kind: IoKind::InvalidData, message }))
        },
    }
}

/// The values `vals` by the track ids that `keys` write; of two keys for one track,
/// the last holds. Or the failure of the first key that writes none.
pub open spec fn by_track<V>(keys: Seq<Seq<char>>, vals: Seq<V>) -> Result<Map<u32, V>, ErrorView>
    decreases keys.len(),
{
    if keys.len() == 0 {
        Ok(Map::empty())
    } else {
        match by_track(keys.drop_last(), vals.drop_last()) {
            Err(e) => Err(e),
            Ok(m) => match track_id_text(keys.last()) {
                Err(e) => Err(e),
                Ok(id) => Ok(m.insert(id, vals.last())),
            },
        }
    }
}

/// The contents of the values in `m`, in the order of the keys.
pub open spec fn values_in_order<V: View>(m: KeyMap<V>) -> Seq<V::V> {
    Seq::new(m.order().len(), |i: int| m.nth(i)@)
}

proof fn lemma_by_track_fails<V>(keys: Seq<Seq<char>>, vals: Seq<V>, n: int)
    requires
        keys.len() == vals.len(),
        0 <= n <= keys.len(),
        by_track(keys.take(n), vals.take(n)) is Err,
    ensures
        by_track(keys, vals) == by_track(keys.take(n), vals.take(n)),
    decreases keys.len() - n,
{
    if n < keys.len() {
        let k = keys.take(n + 1);
        let v = vals.take(n + 1);
        assert(k.drop_last() =~= keys.take(n));
        assert(v.drop_last() =~= vals.take(n));
        lemma_by_track_fails(keys, vals, n + 1);
    } else {
        assert(keys.take(n) =~= keys);
        assert(vals.take(n) =~= vals);
    }
}

/// The values of `m`, by track id.
pub fn parse_track_keyed_map(m: &KeyMap<u64>) -> (r: Result<BTreeMap<u32, u64>, Error>)
    ensures
        match r {
            Ok(t) => by_track(m.order(), values_in_order(*m)) == Ok::<Map<u32, u64>, ErrorView>(
                t@,
            ),
            Err(e) => by_track(m.order(), values_in_order(*m)) == Err::<
                Map<u32, u64>,
                ErrorView,
            >(e@),
        },
{
    let mut out: BTreeMap<u32, u64> = BTreeMap::new();
    let n: usize = m.len();
    let ghost keys = m.order();
    let ghost vals = values_in_order(*m);
    let mut i: usize = 0;
    assert(keys.take(0) =~= seq![]);
    assert(out@ =~= Map::empty());
    while i < n
        invariant
            i <= n,
            n == m.order().len(),
            keys == m.order(),
            vals == values_in_order(*m),
            by_track(keys.take(i as int), vals.take(i as int)) == Ok::<Map<u32, u64>, ErrorView>(
                out@,
            ),
        decreases n - i,
    {
        proof {
            assert(keys.take(i + 1).drop_last() =~= keys.take(i as int));
            assert(vals.take(i + 1).drop_last() =~= vals.take(i as int));
        }
        let id: u32 = match parse_track_id(m.key(i).as_str()) {
            Ok(id) => id,
            Err(e) => {
                proof {
                    lemma_by_track_fails(keys, vals, i + 1);
                }
                return Err(e);
            },
        };
        out.insert(id, *m.value(i));
        i += 1;
    }
    assert(keys.take(i as int) =~= keys);
    assert(vals.take(i as int) =~= vals);
    Ok(out)
}

/// `s`, with composition offsets of zero where there are none.
pub open spec fn with_offsets(s: SamplesView) -> SamplesView {
    if s.cts_offsets.len() == 0 {
        SamplesView { cts_offsets: Seq::new(s.durations.len(), |i: int| 0i32), ..s }
    } else {
        s
    }
}

fn synth_samples(s: &CborTrackSamples) -> (r: TrackSamples)
    ensures
        r@ == with_offsets(s@),
{
    let mut cts_offsets: Vec<i32> = slice_to_vec(s.cts_offsets.as_slice());
    if cts_offsets.len() == 0 {
        let mut i: usize = 0;
        while i < s.durations.len()
            invariant
                i <= s.durations@.len(),
                cts_offsets@.len() == i,
                forall|j: int| 0 <= j < i ==> #[trigger] cts_offsets@[j] == 0i32,
            decreases s.durations@.len() - i,
        {
            cts_offsets.push(0);
            i += 1;
        }
    }
    let r = TrackSamples {
        durations: slice_to_vec(s.durations.as_slice()),
        sizes: slice_to_vec(s.sizes.as_slice()),
        cts_offsets,
        sync_indices: slice_to_vec(s.sync_indices.as_slice()),
        offsets_in_track: slice_to_vec(s.offsets.as_slice()),
    };
    assert(r@ =~= with_offsets(s@));
    r
}

/// The samples in `m`, by the texts of the track ids in order.
pub open spec fn synth_values(m: KeyMap<CborTrackSamples>) -> Seq<SamplesView> {
    Seq::new(m.order().len(), |i: int| with_offsets(m.nth(i)@))
}

/// The contents of the samples in `m`.
pub open spec fn samples_of(m: Map<u32, TrackSamples>) -> Map<u32, SamplesView> {
    m.map_values(|s: TrackSamples| s@)
}

fn parse_samples(m: &KeyMap<CborTrackSamples>) -> (r: Result<BTreeMap<u32, TrackSamples>, Error>)
    ensures
        match r {
            Ok(t) => by_track(m.order(), synth_values(*m)) == Ok::<
                Map<u32, SamplesView>,
                ErrorView,
            >(samples_of(t@)),
            Err(e) => by_track(m.order(), synth_values(*m)) == Err::<
                Map<u32, SamplesView>,
                ErrorView,
            >(e@),
        },
{
    let mut out: BTreeMap<u32, TrackSamples> = BTreeMap::new();
    let n: usize = m.len();
    let ghost keys = m.order();
    let ghost vals = synth_values(*m);
    let mut i: usize = 0;
    assert(keys.take(0) =~= seq![]);
    assert(samples_of(out@) =~= Map::empty());
    while i < n
        invariant
            i <= n,
            n == m.order().len(),
            keys == m.order(),
            vals == synth_values(*m),
            by_track(keys.take(i as int), vals.take(i as int)) == Ok::<
                Map<u32, SamplesView>,
                ErrorView,
            >(samples_of(out@)),
        decreases n - i,
    {
        proof {
            assert(keys.take(i + 1).drop_last() =~= keys.take(i as int));
            assert(vals.take(i + 1).drop_last() =~= vals.take(i as int));
        }
        let id: u32 = match parse_track_id(m.key(i).as_str()) {
            Ok(id) => id,
            Err(e) => {
                proof {
                    lemma_by_track_fails(keys, vals, i + 1);
                }
                return Err(e);
            },
        };
        let ghost before = out@;
        let samples = synth_samples(m.value(i));
        let ghost added = samples@;
        out.insert(id, samples);
        assert(samples_of(out@) =~= samples_of(before).insert(id, added));
        i += 1;
    }
    assert(keys.take(i as int) =~= keys);
    assert(vals.take(i as int) =~= vals);
    Ok(out)
}

/// What a flat header needs to know of the GOP `s`, or the failure of the first
/// track id that is none: of the sizes, of the decode times, of the samples.
pub open spec fn synth_view(s: SynthSegment) -> Result<MetaView, ErrorView> {
    match by_track(s.track_byte_sizes.order(), values_in_order(s.track_byte_sizes)) {
        Err(e) => Err(e),
        Ok(sizes) => match by_track(
            s.first_decode_times.order(),
            values_in_order(s.first_decode_times),
        ) {
            Err(e) => Err(e),
            Ok(first) => match by_track(s.samples.order(), synth_values(s.samples)) {
                Err(e) => Err(e),
                Ok(samples) => Ok(MetaView { sizes, samples, first }),
            },
        },
    }
}

/// What a flat header needs to know of the GOP `s`.
pub fn synth_metadata(s: &SynthSegment) -> (r: Result<SegmentMetadata, Error>)
    ensures
        match r {
            Ok(m) => synth_view(*s) == Ok::<MetaView, ErrorView>(m@),
            Err(e) => synth_view(*s) == Err::<MetaView, ErrorView>(e@),
        },
{
    let track_byte_sizes = match parse_track_keyed_map(&s.track_byte_sizes) {
        Ok(m) => m,
        Err(e) => return Err(e),
    };
    let first_decode_times = match parse_track_keyed_map(&s.first_decode_times) {
        Ok(m) => m,
        Err(e) => return Err(e),
    };
    let samples = match parse_samples(&s.samples) {
        Ok(m) => m,
        Err(e) => return Err(e),
    };
    Ok(SegmentMetadata { track_byte_sizes, samples, first_decode_times })
}

/// What a certificate is issued with.
#[derive(Debug)]
pub enum CertSource {
    /// For this public key, signed by the host.
    Host(Vec<u8>),
    /// With the private key in this file.
    Key(String),
}

/// What a certificate is issued with, given a private key's file, the hexadecimal
/// text of a public key, and whether the host signs. A public key needs the host.
/// None where neither key is given.
pub fn cert_source(key: Option<String>, pubkey: Option<String>, host_sign: bool) -> (r: Result<
    Option<CertSource>,
    Error,
>)
    ensures
        match pubkey {
            Some(p) => if !host_sign {
                r matches Err(e) && e@ == ErrorView::Io(
                    IoKind::InvalidData,
                    "--pubkey requires --host-sign"@,
                )
            } else {
                match decoded_hex(p@) {
                    Ok(b) => r matches Ok(Some(CertSource::Host(h))) && h@ == b,
                    Err(t) => r matches Err(e) && e@ == t,
                }
            },
            None => match key {
                Some(path) => r == Ok::<Option<CertSource>, Error>(Some(CertSource::Key(path))),
                None => r == Ok::<Option<CertSource>, Error>(None),
            },
        },
{
    match pubkey {
        Some(p) => {
            if !host_sign {
                return Err(invalid_data("--pubkey requires --host-sign"));
            }
            match decode_hex(p.as_str()) {
                Ok(b) => Ok(Some(CertSource::Host(b))),
                Err(e) => Err(e),
            }
        },
        None => match key {
            Some(path) => Ok(Some(CertSource::Key(path))),
            None => Ok(None),
        },
    }
}

/// The private key in a PKCS#8 file.
pub fn read_private_key(file: &[u8]) -> (r: Result<SecretKey, Error>)
    ensures
        match r {
            Ok(k) => valid_utf8(file@) && pkcs8_scalar(decode_utf8(file@)) == Ok::<
                Seq<u8>,
                Seq<char>,
            >(k@),
            Err(e) => if valid_utf8(file@) {
                pkcs8_scalar(decode_utf8(file@)) matches Err(t) && e@ == ErrorView::Io(
                    IoKind::InvalidData,
                    "parsing PKCS#8 PEM key: "@ + t,
                )
            } else {
                e@ == ErrorView::Io(IoKind::InvalidData, "key file is not UTF-8 PEM"@)
            },
        },
{
    let pem = match read_utf8(file) {
        Some(t) => t,
        None => {
            let message = "key file is not UTF-8 PEM".to_string();
            return Err(Error::Io(IoError { kind: IoKind::InvalidData, message }));
        },
    };
    match SecretKey::from_pkcs8_pem(pem.as_str()) {
        Ok(k) => Ok(k),
        Err(t) => {
            let mut message = "parsing PKCS#8 PEM key: ".to_string();
            message.push_str(t.as_str());
            Err(Error::Io(IoError { kind: IoKind::InvalidData, message }))
        },
    }
}

} // verus!
