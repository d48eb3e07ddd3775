//! ISO base media file format boxes: big-endian integers and box headers.

use vstd::prelude::*;

use crate::error::{invalid_mp4, Error, ErrorView};

verus! {

/// User type of the MUXL catalog `uuid` box,
/// `6d75786c-0001-0000-0000-000000000001`.
pub const MUXL_UUID: [u8; 16] = [
    0x6d,
    0x75,
    0x78,
    0x6c,
    0x00,
    0x01,
    0x00,
    0x00,
    0x00,
    0x00,
    0x00,
    0x00,
    0x00,
    0x00,
    0x00,
    0x01,
];

/// Box type `mdat`.
pub const MDAT: u32 = 0x6d646174;

/// Box type `moof`.
pub const MOOF: u32 = 0x6d6f6f66;

/// Box type `moov`.
pub const MOOV: u32 = 0x6d6f6f76;

/// Box type `ftyp`.
pub const FTYP: u32 = 0x66747970;

/// Box type `uuid`.
pub const UUID: u32 = 0x75756964;

/// The big-endian 32-bit integer at `pos`.
pub open spec fn be32(s: Seq<u8>, pos: int) -> int {
    s[pos] * 0x100_0000 + s[pos + 1] * 0x1_0000 + s[pos + 2] * 0x100 + s[pos + 3]
}

/// The big-endian 64-bit integer at `pos`.
pub open spec fn be64(s: Seq<u8>, pos: int) -> int {
    be32(s, pos) * 0x1_0000_0000 + be32(s, pos + 4)
}

/// Reads the big-endian 32-bit integer at `pos`.
pub fn read_be32(bytes: &[u8], pos: usize) -> (n: u32)
    requires
        pos + 4 <= bytes.len(),
    ensures
        n == be32(bytes@, pos as int),
{
    bytes[pos] as u32 * 0x100_0000 + bytes[pos + 1] as u32 * 0x1_0000 + bytes[pos + 2] as u32
        * 0x100 + bytes[pos + 3] as u32
}

/// Reads the big-endian 64-bit integer at `pos`.
pub fn read_be64(bytes: &[u8], pos: usize) -> (n: u64)
    requires
        pos + 8 <= bytes.len(),
    ensures
        n == be64(bytes@, pos as int),
{
    read_be32(bytes, pos) as u64 * 0x1_0000_0000 + read_be32(bytes, pos + 4) as u64
}

/// Why a box header cannot be read.
#[derive(Clone, Copy, Debug, PartialEq, Eq, Structural)]
pub enum BoxError {
    /// Fewer than 8 bytes are left.
    Truncated,
    /// A 64-bit size is announced and fewer than 16 bytes are left.
    TruncatedLarge,
    /// The size is smaller than the header or runs past the end.
    SizeOutOfRange,
}

/// Message of a [`BoxError`].
pub open spec fn box_error_text(e: BoxError) -> Seq<char> {
    match e {
        BoxError::Truncated => "truncated box header"@,
        BoxError::TruncatedLarge => "truncated 64-bit box header"@,
        BoxError::SizeOutOfRange => "box size out of range"@,
    }
}

impl BoxError {
    /// The library error for this header failure.
    pub fn to_error(self) -> (e: Error)
        ensures
            e@ == ErrorView::InvalidMp4(box_error_text(self)),
    {
        match self {
            BoxError::Truncated => invalid_mp4("truncated box header"),
            BoxError::TruncatedLarge => invalid_mp4("truncated 64-bit box header"),
            BoxError::SizeOutOfRange => invalid_mp4("box size out of range"),
        }
    }
}

/// A box inside a byte string: its type, where its body starts, and the
/// position one past its end.
#[derive(Clone, Copy, Debug, PartialEq, Eq, Structural)]
pub struct BoxHeader {
    pub kind: u32,
    pub body: usize,
    pub end: usize,
}

/// Position of a box in a sequence of bytes.
pub struct BoxSpan {
    pub kind: int,
    pub body: int,
    pub end: int,
}

impl View for BoxHeader {
    type V = BoxSpan;

    open spec fn view(&self) -> BoxSpan {
        BoxSpan { kind: self.kind as int, body: self.body as int, end: self.end as int }
    }
}

/// The box whose header starts at `pos`, in any of the three size forms:
/// 32-bit, 64-bit (size field 1) and to the end of the input (size field 0).
pub open spec fn box_at(s: Seq<u8>, pos: int) -> Result<BoxSpan, BoxError> {
    if pos + 8 > s.len() {
        Err(BoxError::Truncated)
    } else {
        let kind = be32(s, pos + 4);
        let size = be32(s, pos);
        if size == 0 {
            Ok(BoxSpan { kind, body: pos + 8, end: s.len() as int })
        } else if size == 1 {
            if pos + 16 > s.len() {
                Err(BoxError::TruncatedLarge)
            } else if be64(s, pos + 8) < 16 || pos + be64(s, pos + 8) > s.len() {
                Err(BoxError::SizeOutOfRange)
            } else {
                Ok(BoxSpan { kind, body: pos + 16, end: pos + be64(s, pos + 8) })
            }
        } else if size < 8 || pos + size > s.len() {
            Err(BoxError::SizeOutOfRange)
        } else {
            Ok(BoxSpan { kind, body: pos + 8, end: pos + size })
        }
    }
}

/// Reads the box header at `pos`.
pub fn read_box_header(bytes: &[u8], pos: usize) -> (r: Result<BoxHeader, BoxError>)
    ensures
        match r {
            Ok(h) => box_at(bytes@, pos as int) == Ok::<BoxSpan, BoxError>(h@),
            Err(e) => box_at(bytes@, pos as int) == Err::<BoxSpan, BoxError>(e),
        },
{
    let len = bytes.len();
    if len < 8 || pos > len - 8 {
        return Err(BoxError::Truncated);
    }
    let size: u32 = read_be32(bytes, pos);
    let kind: u32 = read_be32(bytes, pos + 4);
    if size == 0 {
        Ok(BoxHeader { kind, body: pos + 8, end: len })
    } else if size == 1 {
        if len < 16 || pos > len - 16 {
            return Err(BoxError::TruncatedLarge);
        }
        let large: u64 = read_be64(bytes, pos + 8);
        if large < 16 || large > (len - pos) as u64 {
            return Err(BoxError::SizeOutOfRange);
        }
        Ok(BoxHeader { kind, body: pos + 16, end: pos + large as usize })
    } else {
        if size < 8 || size as u64 > (len - pos) as u64 {
            return Err(BoxError::SizeOutOfRange);
        }
        Ok(BoxHeader { kind, body: pos + 8, end: pos + size as usize })
    }
}

/// Whether the 16 bytes at `pos` are [`MUXL_UUID`].
pub open spec fn is_muxl_uuid(s: Seq<u8>, pos: int) -> bool {
    s.subrange(pos, pos + 16) == MUXL_UUID@
}

/// Compares the 16 bytes at `pos` with [`MUXL_UUID`].
pub fn muxl_uuid_at(bytes: &[u8], pos: usize) -> (r: bool)
    requires
        pos + 16 <= bytes.len(),
    ensures
        r == is_muxl_uuid(bytes@, pos as int),
{
    let mut i: usize = 0;
    while i < 16
        invariant
            i <= 16,
            pos + 16 <= bytes.len(),
            forall|j: int| 0 <= j < i ==> bytes@[pos + j] == MUXL_UUID@[j],
        decreases 16 - i,
    {
        if bytes[pos + i] != MUXL_UUID[i] {
            proof {
                assert(bytes@.subrange(pos as int, pos + 16)[i as int] != MUXL_UUID@[i as int]);
            }
            return false;
        }
        i += 1;
    }
    assert(bytes@.subrange(pos as int, pos + 16) =~= MUXL_UUID@);
    true
}

/// Whether `b` is a `uuid` box of the MUXL user type.
pub open spec fn is_muxl_box(s: Seq<u8>, b: BoxSpan) -> bool {
    b.kind == UUID && b.body + 16 <= b.end && is_muxl_uuid(s, b.body)
}

/// Whether a box that `read_box_header` found is a MUXL `uuid` box.
pub fn muxl_box(bytes: &[u8], h: &BoxHeader) -> (r: bool)
    requires
        h.body <= h.end <= bytes@.len(),
    ensures
        r == is_muxl_box(bytes@, h@),
{
    h.kind == UUID && h.end - h.body >= 16 && muxl_uuid_at(bytes, h.body)
}

} // verus!
