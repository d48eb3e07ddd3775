//! MUXL: canonical, content-addressed media segments and the storage wrappers
//! around them.
//!
//! A canonical segment is one track's fragments for one group of pictures,
//! headed by a `uuid` box that carries the track's catalog. The library splits
//! any storage wrapper back into its canonical segments, byte for byte, and
//! plans the wrappers, event streams, metafiles and playlists built over them.

use vstd::prelude::*;

pub mod asset;
pub mod bench;
pub mod boxes;
pub mod catalog;
pub mod cbor;
pub mod cert;
pub mod cid;
pub mod cli;
pub mod clocks;
pub mod concat;
pub mod cuts;
pub mod dates;
pub mod digits;
pub mod documents;
pub mod encode;
pub mod envelopes;
pub mod error;
pub mod events;
pub mod evidence;
pub mod fmp4;
pub mod gops;
pub mod hls;
pub mod inspect;
pub mod io;
pub mod json;
pub mod keymap;
pub mod layouts;
pub mod listings;
pub mod mailbox;
pub mod metadata;
pub mod metafile;
pub mod moof;
pub mod playlists;
pub mod present;
pub mod reader;
pub mod replay;
pub mod reports;
pub mod roundtrip;
pub mod runs;
pub mod segment;
pub mod sign;
pub mod stream;
pub mod tables;
pub mod text;
pub mod tracks;
pub mod verify;

verus! {

} // verus!
