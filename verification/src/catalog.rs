//! Catalogs: what a segment's `uuid` box says of its track.

use vstd::prelude::*;
use vstd::slice::slice_to_vec;

use crate::keymap::{Duplicate, KeyMap, Same};

verus! {

/// Configuration of a video track.
#[derive(Debug)]
pub struct VideoConfig {
    /// Codec string, as in WebCodecs.
    pub codec: String,
    pub coded_width: u32,
    pub coded_height: u32,
    /// Frames per second, as printed.
    pub framerate: Option<String>,
    pub display_aspect_width: Option<u32>,
    pub display_aspect_height: Option<u32>,
    /// Bits per second.
    pub bitrate: Option<u64>,
    /// Decoder configuration.
    pub description: Vec<u8>,
    pub track_id: u32,
    pub timescale: u32,
}

/// Configuration of an audio track.
#[derive(Debug)]
pub struct AudioConfig {
    /// Codec string, as in WebCodecs.
    pub codec: String,
    pub sample_rate: u32,
    pub number_of_channels: u32,
    /// Bits per second.
    pub bitrate: Option<u64>,
    /// Decoder configuration.
    pub description: Vec<u8>,
    pub track_id: u32,
    pub timescale: u32,
}

/// Contents of a [`VideoConfig`].
pub struct VideoConfigView {
    pub codec: Seq<char>,
    pub coded_width: u32,
    pub coded_height: u32,
    pub framerate: Option<Seq<char>>,
    pub display_aspect_width: Option<u32>,
    pub display_aspect_height: Option<u32>,
    pub bitrate: Option<u64>,
    pub description: Seq<u8>,
    pub track_id: u32,
    pub timescale: u32,
}

/// Contents of an [`AudioConfig`].
pub struct AudioConfigView {
    pub codec: Seq<char>,
    pub sample_rate: u32,
    pub number_of_channels: u32,
    pub bitrate: Option<u64>,
    pub description: Seq<u8>,
    pub track_id: u32,
    pub timescale: u32,
}

impl View for VideoConfig {
    type V = VideoConfigView;

    open spec fn view(&self) -> VideoConfigView {
        VideoConfigView {
            codec: self.codec@,
            coded_width: self.coded_width,
            coded_height: self.coded_height,
            framerate: match self.framerate {
                Some(t) => Some(t@),
                None => None,
            },
            display_aspect_width: self.display_aspect_width,
            display_aspect_height: self.display_aspect_height,
            bitrate: self.bitrate,
            description: self.description@,
            track_id: self.track_id,
            timescale: self.timescale,
        }
    }
}

impl View for AudioConfig {
    type V = AudioConfigView;

    open spec fn view(&self) -> AudioConfigView {
        AudioConfigView {
            codec: self.codec@,
            sample_rate: self.sample_rate,
            number_of_channels: self.number_of_channels,
            bitrate: self.bitrate,
            description: self.description@,
            track_id: self.track_id,
            timescale: self.timescale,
        }
    }
}

impl VideoConfig {
    /// The track that this configures.
    pub fn track_id(&self) -> (id: u32)
        ensures
            id == self.track_id,
    {
        self.track_id
    }

    /// Ticks per second of the track.
    pub fn timescale(&self) -> (t: u32)
        ensures
            t == self.timescale,
    {
        self.timescale
    }
}

impl AudioConfig {
    /// The track that this configures.
    pub fn track_id(&self) -> (id: u32)
        ensures
            id == self.track_id,
    {
        self.track_id
    }

    /// Ticks per second of the track.
    pub fn timescale(&self) -> (t: u32)
        ensures
            t == self.timescale,
    {
        self.timescale
    }
}

impl Duplicate for VideoConfig {
    fn duplicate(&self) -> (r: Self) {
        VideoConfig {
            codec: self.codec.clone(),
            coded_width: self.coded_width,
            coded_height: self.coded_height,
            framerate: match &self.framerate {
                Some(t) => Some(t.clone()),
                None => None,
            },
            display_aspect_width: self.display_aspect_width,
            display_aspect_height: self.display_aspect_height,
            bitrate: self.bitrate,
            description: slice_to_vec(self.description.as_slice()),
            track_id: self.track_id,
            timescale: self.timescale,
        }
    }
}

impl Duplicate for AudioConfig {
    fn duplicate(&self) -> (r: Self) {
        AudioConfig {
            codec: self.codec.clone(),
            sample_rate: self.sample_rate,
            number_of_channels: self.number_of_channels,
            bitrate: self.bitrate,
            description: slice_to_vec(self.description.as_slice()),
            track_id: self.track_id,
            timescale: self.timescale,
        }
    }
}

/// Compares two byte strings.
pub fn same_bytes(a: &[u8], b: &[u8]) -> (r: bool)
    ensures
        r == (a@ == b@),
{
    if a.len() != b.len() {
        return false;
    }
    let mut i: usize = 0;
    while i < a.len()
        invariant
            i <= a@.len(),
            a@.len() == b@.len(),
            a@.take(i as int) == b@.take(i as int),
        decreases a@.len() - i,
    {
        if a[i] != b[i] {
            return false;
        }
        assert(a@.take(i + 1) =~= a@.take(i as int).push(a@[i as int]));
        assert(b@.take(i + 1) =~= b@.take(i as int).push(b@[i as int]));
        i += 1;
    }
    assert(a@.take(i as int) =~= a@);
    assert(b@.take(i as int) =~= b@);
    true
}

fn same_option_text(a: &Option<String>, b: &Option<String>) -> (r: bool)
    ensures
        r == (match (a, b) {
            (Some(x), Some(y)) => x@ == y@,
            (None, None) => true,
            _ => false,
        }),
{
    match (a, b) {
        (Some(x), Some(y)) => *x == *y,
        (None, None) => true,
        _ => false,
    }
}

fn same_u32(a: Option<u32>, b: Option<u32>) -> (r: bool)
    ensures
        r == (a == b),
{
    match (a, b) {
        (Some(x), Some(y)) => x == y,
        (None, None) => true,
        _ => false,
    }
}

fn same_u64(a: Option<u64>, b: Option<u64>) -> (r: bool)
    ensures
        r == (a == b),
{
    match (a, b) {
        (Some(x), Some(y)) => x == y,
        (None, None) => true,
        _ => false,
    }
}

impl Same for VideoConfig {
    fn same(&self, other: &Self) -> (r: bool) {
        self.codec == other.codec && self.coded_width == other.coded_width && self.coded_height
            == other.coded_height && same_option_text(&self.framerate, &other.framerate) && same_u32(
            self.display_aspect_width,
            other.display_aspect_width,
        ) && same_u32(self.display_aspect_height, other.display_aspect_height) && same_u64(
            self.bitrate,
            other.bitrate,
        ) && same_bytes(self.description.as_slice(), other.description.as_slice())
            && self.track_id == other.track_id && self.timescale == other.timescale
    }
}

impl Same for AudioConfig {
    fn same(&self, other: &Self) -> (r: bool) {
        self.codec == other.codec && self.sample_rate == other.sample_rate
            && self.number_of_channels == other.number_of_channels && same_u64(
            self.bitrate,
            other.bitrate,
        ) && same_bytes(self.description.as_slice(), other.description.as_slice())
            && self.track_id == other.track_id && self.timescale == other.timescale
    }
}

/// Size at which a video is shown.
#[derive(Clone, Copy, Debug, PartialEq, Eq, Structural)]
pub struct Display {
    pub width: u32,
    pub height: u32,
}

/// The video tracks of a catalog, by rendition name.
#[derive(Debug)]
pub struct VideoTracks {
    pub renditions: KeyMap<VideoConfig>,
    pub display: Option<Display>,
    /// Rotation, as the bit pattern of the number on the wire.
    pub rotation: Option<u64>,
    pub flip: Option<bool>,
}

/// The audio tracks of a catalog, by rendition name.
#[derive(Debug)]
pub struct AudioTracks {
    pub renditions: KeyMap<AudioConfig>,
}

/// Track configuration of a segment, or of several merged.
#[derive(Debug)]
pub struct Catalog {
    pub video: Option<VideoTracks>,
    pub audio: Option<AudioTracks>,
}

/// Contents of [`VideoTracks`].
#[verifier::ext_equal]
pub struct VideoTracksView {
    pub renditions: Map<Seq<char>, VideoConfigView>,
    pub display: Option<Display>,
    pub rotation: Option<u64>,
    pub flip: Option<bool>,
}

/// Contents of a [`Catalog`].
#[verifier::ext_equal]
pub struct CatalogView {
    pub video: Option<VideoTracksView>,
    pub audio: Option<Map<Seq<char>, AudioConfigView>>,
}

impl View for VideoTracks {
    type V = VideoTracksView;

    open spec fn view(&self) -> VideoTracksView {
        VideoTracksView {
            renditions: self.renditions@,
            display: self.display,
            rotation: self.rotation,
            flip: self.flip,
        }
    }
}

impl View for Catalog {
    type V = CatalogView;

    open spec fn view(&self) -> CatalogView {
        CatalogView {
            video: match self.video {
                Some(v) => Some(v@),
                None => None,
            },
            audio: match self.audio {
                Some(a) => Some(a.renditions@),
                None => None,
            },
        }
    }
}

/// The catalog of no track.
pub open spec fn empty_catalog() -> CatalogView {
    CatalogView { video: None, audio: None }
}

/// Video tracks without a rendition.
pub open spec fn no_video() -> VideoTracksView {
    VideoTracksView { renditions: Map::empty(), display: None, rotation: None, flip: None }
}

impl Default for Catalog {
    fn default() -> (r: Self)
        ensures
            r@ == empty_catalog(),
    {
        Catalog { video: None, audio: None }
    }
}

impl Duplicate for Catalog {
    fn duplicate(&self) -> (r: Self) {
        Catalog {
            video: match &self.video {
                Some(v) => Some(
                    VideoTracks {
                        renditions: v.renditions.duplicate_map(),
                        display: v.display,
                        rotation: v.rotation,
                        flip: v.flip,
                    },
                ),
                None => None,
            },
            audio: match &self.audio {
                Some(a) => Some(AudioTracks { renditions: a.renditions.duplicate_map() }),
                None => None,
            },
        }
    }
}

fn same_display(a: Option<Display>, b: Option<Display>) -> (r: bool)
    ensures
        r == (a == b),
{
    match (a, b) {
        (Some(x), Some(y)) => x == y,
        (None, None) => true,
        _ => false,
    }
}

fn same_flip(a: Option<bool>, b: Option<bool>) -> (r: bool)
    ensures
        r == (a == b),
{
    match (a, b) {
        (Some(x), Some(y)) => x == y,
        (None, None) => true,
        _ => false,
    }
}

impl Same for Catalog {
    fn same(&self, other: &Self) -> (r: bool) {
        let video = match (&self.video, &other.video) {
            (Some(a), Some(b)) => a.renditions.same_map(&b.renditions) && same_display(
                a.display,
                b.display,
            ) && same_u64(a.rotation, b.rotation) && same_flip(a.flip, b.flip),
            (None, None) => true,
            _ => false,
        };
        let audio = match (&self.audio, &other.audio) {
            (Some(a), Some(b)) => a.renditions.same_map(&b.renditions),
            (None, None) => true,
            _ => false,
        };
        video && audio
    }
}

impl Catalog {
    /// The track of the first rendition, video before audio, each by name.
    pub open spec fn first_track(&self) -> Option<u32> {
        if self.video matches Some(v) && v.renditions.order().len() > 0 {
            Some(self.video->Some_0.renditions.nth(0).track_id)
        } else if self.audio matches Some(a) && a.renditions.order().len() > 0 {
            Some(self.audio->Some_0.renditions.nth(0).track_id)
        } else {
            None
        }
    }

    /// Executable form of [`Catalog::first_track`].
    pub fn lead_track(&self) -> (r: Option<u32>)
        ensures
            r == self.first_track(),
    {
        if let Some(v) = &self.video {
            if v.renditions.len() > 0 {
                return Some(v.renditions.value(0).track_id());
            }
        }
        if let Some(a) = &self.audio {
            if a.renditions.len() > 0 {
                return Some(a.renditions.value(0).track_id());
            }
        }
        None
    }

    /// Adds or replaces a video rendition.
    pub fn insert_video(&mut self, name: String, config: VideoConfig)
        ensures
            ({
                let v = match old(self)@.video {
                    Some(v) => v,
                    None => no_video(),
                };
                final(self)@ == (CatalogView {
                    video: Some(
                        VideoTracksView { renditions: v.renditions.insert(name@, config@), ..v },
                    ),
                    ..old(self)@
                })
            }),
    {
        let mut video: Option<VideoTracks> = None;
        std::mem::swap(&mut video, &mut self.video);
        let mut v = match video {
            Some(v) => v,
            None => VideoTracks {
                renditions: KeyMap::new(),
                display: None,
                rotation: None,
                flip: None,
            },
        };
        v.renditions.insert(name, config);
        self.video = Some(v);
    }

    /// Adds or replaces an audio rendition.
    pub fn insert_audio(&mut self, name: String, config: AudioConfig)
        ensures
            ({
                let a = match old(self)@.audio {
                    Some(a) => a,
                    None => Map::empty(),
                };
                final(self)@ == (CatalogView {
                    audio: Some(a.insert(name@, config@)),
                    ..old(self)@
                })
            }),
    {
        let mut audio: Option<AudioTracks> = None;
        std::mem::swap(&mut audio, &mut self.audio);
        let mut a = match audio {
            Some(a) => a,
            None => AudioTracks { renditions: KeyMap::new() },
        };
        a.renditions.insert(name, config);
        self.audio = Some(a);
    }
}

/// The first of two optional values that is there.
pub open spec fn first_of<T>(a: Option<T>, b: Option<T>) -> Option<T> {
    match a {
        Some(_) => a,
        None => b,
    }
}

/// The renditions of `v` added to those of `agg`, by name. What is shown of a
/// video (size, rotation, flip) stays as first given.
pub open spec fn merged_video(
    agg: Option<VideoTracksView>,
    cat: Option<VideoTracksView>,
) -> Option<VideoTracksView> {
    match cat {
        None => agg,
        Some(v) => if agg is None && v.renditions.dom() == Set::<Seq<char>>::empty() {
            None
        } else {
            let a = match agg {
                Some(a) => a,
                None => no_video(),
            };
            Some(
                VideoTracksView {
                    renditions: a.renditions.union_prefer_right(v.renditions),
                    display: first_of(a.display, v.display),
                    rotation: first_of(a.rotation, v.rotation),
                    flip: first_of(a.flip, v.flip),
                },
            )
        },
    }
}

/// The renditions of `cat` added to those of `agg`, by name.
pub open spec fn merged_audio(
    agg: Option<Map<Seq<char>, AudioConfigView>>,
    cat: Option<Map<Seq<char>, AudioConfigView>>,
) -> Option<Map<Seq<char>, AudioConfigView>> {
    match cat {
        None => agg,
        Some(v) => if agg is None && v.dom() == Set::<Seq<char>>::empty() {
            None
        } else {
            let a = match agg {
                Some(a) => a,
                None => Map::empty(),
            };
            Some(a.union_prefer_right(v))
        },
    }
}

/// `cat` folded into `agg`.
pub open spec fn merged(agg: CatalogView, cat: CatalogView) -> CatalogView {
    CatalogView {
        video: merged_video(agg.video, cat.video),
        audio: merged_audio(agg.audio, cat.audio),
    }
}

/// Whether `cur` is `base` with the entries of `from` under `keys` put over it.
spec fn overlaid<V>(
    base: Map<Seq<char>, V>,
    from: Map<Seq<char>, V>,
    keys: Seq<Seq<char>>,
    cur: Map<Seq<char>, V>,
) -> bool {
    &&& forall|k: Seq<char>|
        #[trigger] cur.contains_key(k) == (base.contains_key(k) || keys.contains(k))
    &&& forall|k: Seq<char>|
        cur.contains_key(k) ==> #[trigger] cur[k] == if keys.contains(k) {
            from[k]
        } else {
            base[k]
        }
}

proof fn lemma_overlay_step<V>(
    base: Map<Seq<char>, V>,
    from: Map<Seq<char>, V>,
    keys: Seq<Seq<char>>,
    cur: Map<Seq<char>, V>,
    k: Seq<char>,
)
    requires
        overlaid(base, from, keys, cur),
    ensures
        overlaid(base, from, keys.push(k), cur.insert(k, from[k])),
{
    let more = keys.push(k);
    assert forall|q: Seq<char>| more.contains(q) == (keys.contains(q) || q == k) by {
        if keys.contains(q) {
            let i = keys.index_of(q);
            assert(more[i] == q);
        }
        assert(more[keys.len() as int] == k);
        if more.contains(q) && q != k {
            let i = more.index_of(q);
            assert(keys[i] == q);
        }
    }
}

/// Folds the catalog of one segment into a running aggregate. Renditions are
/// told apart by name; what is shown of a video stays as first given.
pub fn merge_segment_catalog(agg: &mut Catalog, cat: &Catalog)
    ensures
        final(agg)@ == merged(old(agg)@, cat@),
{
    if let Some(v) = &cat.video {
        let ghost from = v.renditions@;
        let ghost order = v.renditions.order();
        let ghost base_opt = agg@.video;
        let ghost base = match agg@.video {
            Some(a) => a,
            None => no_video(),
        };
        let n: usize = v.renditions.len();
        let mut i: usize = 0;
        assert(order.take(0) =~= seq![]);
        while i < n
            invariant
                i <= n,
                n == order.len(),
                order == v.renditions.order(),
                from == v.renditions@,
                forall|j: int|
                    0 <= j < order.len() ==> from.contains_key(#[trigger] order[j])
                        && from[order[j]] == v.renditions.nth(j)@,
                agg@.audio == old(agg)@.audio,
                i == 0 ==> agg@.video == base_opt,
                i > 0 ==> agg@.video is Some,
                ({
                    let cur = match agg@.video {
                        Some(a) => a,
                        None => no_video(),
                    };
                    &&& overlaid(base.renditions, from, order.take(i as int), cur.renditions)
                    &&& cur.display == base.display
                    &&& cur.rotation == base.rotation
                    &&& cur.flip == base.flip
                }),
            decreases n - i,
        {
            proof {
                let cur = match agg@.video {
                    Some(a) => a,
                    None => no_video(),
                };
                lemma_overlay_step(
                    base.renditions,
                    from,
                    order.take(i as int),
                    cur.renditions,
                    order[i as int],
                );
                assert(order.take(i + 1) =~= order.take(i as int).push(order[i as int]));
            }
            agg.insert_video(v.renditions.key(i).clone(), v.renditions.value(i).duplicate());
            i += 1;
        }
        assert(order.take(n as int) =~= order);
        let mut video: Option<VideoTracks> = None;
        std::mem::swap(&mut video, &mut agg.video);
        if let Some(mut av) = video {
            if av.display.is_none() {
                av.display = v.display;
            }
            if av.rotation.is_none() {
                av.rotation = v.rotation;
            }
            if av.flip.is_none() {
                av.flip = v.flip;
            }
            proof {
                assert(av.renditions@ =~= base.renditions.union_prefer_right(from)) by {
                    assert forall|k: Seq<char>| from.contains_key(k) == order.contains(k) by {}
                }
                if n > 0 {
                    assert(from.dom().contains(order[0]));
                }
            }
            agg.video = Some(av);
        } else {
            proof {
                assert(from.dom() =~= Set::<Seq<char>>::empty());
            }
        }
    }
    let ghost mid = agg@;
    if let Some(a) = &cat.audio {
        let ghost from = a.renditions@;
        let ghost order = a.renditions.order();
        let ghost base_opt = agg@.audio;
        let ghost base = match agg@.audio {
            Some(m) => m,
            None => Map::empty(),
        };
        let n: usize = a.renditions.len();
        let mut i: usize = 0;
        assert(order.take(0) =~= seq![]);
        while i < n
            invariant
                i <= n,
                n == order.len(),
                order == a.renditions.order(),
                from == a.renditions@,
                forall|j: int|
                    0 <= j < order.len() ==> from.contains_key(#[trigger] order[j])
                        && from[order[j]] == a.renditions.nth(j)@,
                agg@.video == mid.video,
                i == 0 ==> agg@.audio == base_opt,
                i > 0 ==> agg@.audio is Some,
                ({
                    let cur = match agg@.audio {
                        Some(m) => m,
                        None => Map::empty(),
                    };
                    overlaid(base, from, order.take(i as int), cur)
                }),
            decreases n - i,
        {
            proof {
                let cur = match agg@.audio {
                    Some(m) => m,
                    None => Map::empty(),
                };
                lemma_overlay_step(base, from, order.take(i as int), cur, order[i as int]);
                assert(order.take(i + 1) =~= order.take(i as int).push(order[i as int]));
            }
            agg.insert_audio(a.renditions.key(i).clone(), a.renditions.value(i).duplicate());
            i += 1;
        }
        proof {
            assert(order.take(n as int) =~= order);
            assert forall|k: Seq<char>| from.contains_key(k) == order.contains(k) by {}
            if let Some(m) = agg@.audio {
                assert(m =~= base.union_prefer_right(from));
                if n > 0 {
                    assert(from.dom().contains(order[0]));
                }
            } else {
                assert(from.dom() =~= Set::<Seq<char>>::empty());
            }
        }
    }
}

} // verus!
