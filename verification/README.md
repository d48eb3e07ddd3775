# muxl

MUXL is a canonical form for media segments. A canonical segment is one track's
fragments for one group of pictures, headed by a `uuid` box with the track's
catalog. Segments are addressed by their contents, and each can be signed on its
own; a storage wrapper (a bare stream of segments, a fragmented MP4 or a flat
MP4) holds them byte for byte.

The library in `src/` is written in Verus, and every function in it is proved to
meet its contract:

| modules | what they hold |
| --- | --- |
| `boxes`, `moof`, `catalog`, `segment` | boxes, fragments, catalogs, and cutting frames into GOPs |
| `reader`, `stream`, `roundtrip` | splitting a wrapper, whole or in pieces, back into its segments |
| `present`, `metafile`, `fmp4`, `concat`, `runs` | making wrappers, metafiles and headers, and joining streams |
| `events`, `replay`, `gops`, `cbor`, `mailbox` | events of a stream of segments, and the buffer they are passed through |
| `hls`, `metadata`, `cid`, `encode`, `dates`, `text`, `keymap`, `tracks`, `io` | playlists, identifiers, encodings and tables |
| `cert`, `sign`, `verify`, `asset`, `inspect`, `json` | keys and certificates, signing, verifying and reporting |
| `cli`, `bench`, `error` | what the commands decide and say |

Outside crates are called behind small functions marked
`#[verifier::external_body]`; the comment on each says what is relied on.

`app/` is the command line around the library. It is generic in a `Codec`, which
reads and writes the codec boxes of an MP4. `tests/` runs the library.
