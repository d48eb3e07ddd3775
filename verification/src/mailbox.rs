//! The buffers through which a browser's worker and its host pass bytes.
//!
//! A buffer is a header of 32 bytes and a data region. One side fills it in and sets
//! the status; the other waits for the status, takes the contents and answers. How
//! the two wait for one another belongs to the caller.
//!
//! ```text
//! [0..4]   status
//! [4..12]  where to read
//! [12..16] how many bytes are asked for
//! [16..24] size of the file, or how many bytes were written
//! [24..28] how many bytes the data region holds
//! [28..32] reserved
//! [32..]   data region
//! ```

use vstd::prelude::*;
use vstd::slice::{slice_subrange, slice_to_vec};

use crate::cbor::SegmenterEvent;
use crate::encode::{law_le_value, le_bytes, le_value, push_le, read_le, two};
use crate::error::{IoError, IoKind};
use crate::hls::BlobTrack;
use crate::present::{append_gop, gop_body};
use crate::segment::sat64;
use crate::stream::join;

verus! {

/// How many bytes the data region has.
pub const DATA_SIZE: usize = 1_048_576;

/// Where the data region begins.
pub const OFF_DATA: usize = 32;

/// How many bytes a buffer has.
pub const BUF_SIZE: usize = 1_048_608;

/// Nothing is under way.
pub const STATUS_IDLE: u32 = 0;

/// One side has filled the buffer in.
pub const STATUS_REQUEST: u32 = 1;

/// The other side has answered.
pub const STATUS_RESPONSE: u32 = 2;

/// The other side has failed.
pub const STATUS_ERROR: u32 = 3;

/// Nothing more will come.
pub const STATUS_DONE: u32 = 4;

/// `s` with `p` in place of what stands at `pos`.
pub open spec fn patched(s: Seq<u8>, pos: int, p: Seq<u8>) -> Seq<u8> {
    s.take(pos) + p + s.skip(pos + p.len())
}

/// The number of `n` bytes at `pos`.
pub open spec fn field(s: Seq<u8>, pos: int, n: int) -> nat {
    le_value(s.subrange(pos, pos + n))
}

proof fn lemma_patched(s: Seq<u8>, pos: int, p: Seq<u8>)
    requires
        0 <= pos,
        pos + p.len() <= s.len(),
    ensures
        patched(s, pos, p).len() == s.len(),
        patched(s, pos, p).subrange(pos, pos + p.len()) == p,
        forall|a: int, n: int|
            0 <= a && 0 <= n && a + n <= s.len() && (a + n <= pos || pos + p.len() <= a)
                ==> #[trigger] patched(s, pos, p).subrange(a, a + n) == s.subrange(a, a + n),
{
    let t = patched(s, pos, p);
    assert(t.subrange(pos, pos + p.len()) =~= p);
    assert forall|a: int, n: int|
        0 <= a && 0 <= n && a + n <= s.len() && (a + n <= pos || pos + p.len() <= a) implies
        #[trigger] t.subrange(a, a + n) == s.subrange(a, a + n) by {
        assert(t.subrange(a, a + n) =~= s.subrange(a, a + n));
    }
}

fn put(buf: &mut Vec<u8>, pos: usize, p: &[u8])
    requires
        pos + p@.len() <= old(buf)@.len(),
    ensures
        final(buf)@ == patched(old(buf)@, pos as int, p@),
        final(buf)@.len() == old(buf)@.len(),
{
    let ghost start = buf@;
    let len: usize = buf.len();
    let mut i: usize = 0;
    while i < p.len()
        invariant
            i <= p@.len(),
            pos + p@.len() <= len,
            buf@.len() == len,
            buf@.len() == start.len(),
            forall|j: int| 0 <= j < i ==> buf@[pos + j] == #[trigger] p@[j],
            forall|j: int|
                0 <= j < start.len() && !(pos <= j < pos + i) ==> #[trigger] buf@[j] == start[j],
        decreases p@.len() - i,
    {
        let at: usize = pos + i;
        let b: u8 = p[i];
        buf.set(at, b);
        i += 1;
    }
    proof {
        let want = patched(start, pos as int, p@);
        assert forall|j: int| 0 <= j < start.len() implies buf@[j] == #[trigger] want[j] by {
            if pos <= j < pos + p@.len() {
                assert(buf@[pos + (j - pos)] == p@[j - pos]);
            }
        }
        assert(buf@ =~= want);
    }
}

fn le(value: u64, n: usize) -> (r: Vec<u8>)
    ensures
        r@ == le_bytes(value, n as nat),
{
    let mut out: Vec<u8> = Vec::new();
    push_le(&mut out, value, n);
    assert(out@ =~= le_bytes(value, n as nat));
    out
}

proof fn lemma_le_len(value: u64, n: nat)
    ensures
        le_bytes(value, n).len() == n,
    decreases n,
{
    if n > 0 {
        lemma_le_len(value / 256, (n - 1) as nat);
    }
}

/// The status of a buffer.
pub open spec fn status_of(s: Seq<u8>) -> nat {
    field(s, 0, 4)
}

/// `s` with another status.
pub open spec fn with_status(s: Seq<u8>, status: u32) -> Seq<u8> {
    patched(s, 0, le_bytes(status as u64, 4))
}

/// Sets the status of a buffer.
pub fn set_status(buf: &mut Vec<u8>, status: u32)
    requires
        old(buf)@.len() == BUF_SIZE,
    ensures
        final(buf)@ == with_status(old(buf)@, status),
        final(buf)@.len() == BUF_SIZE,
{
    let p = le(status as u64, 4);
    proof {
        lemma_le_len(status as u64, 4);
    }
    put(buf, 0, p.as_slice());
}

/// The size of the file that the host has put into the header. Zero stands for none.
pub fn file_size(buf: &Vec<u8>) -> (r: Result<u64, IoError>)
    requires
        buf@.len() == BUF_SIZE,
    ensures
        match r {
            Ok(n) => n == field(buf@, 16, 8) && n > 0,
            Err(e) => field(buf@, 16, 8) == 0 && e@ == (
                IoKind::InvalidInput,
                "file_size not set in read buffer"@,
            ),
        },
{
    let n: u64 = read_le(buf.as_slice(), 16, 8);
    if n == 0 {
        return Err(
            IoError {
                kind: IoKind::InvalidInput,
                message: "file_size not set in read buffer".to_string(),
            },
        );
    }
    Ok(n)
}

/// How many bytes to ask for, of a file of `file_size` bytes at `offset`, where `want`
/// are wanted: no more than the data region holds, and none past the end.
pub fn read_size(file_size: u64, offset: u64, want: usize) -> (r: usize)
    ensures
        r == if offset >= file_size {
            0
        } else if want < DATA_SIZE {
            want as int
        } else {
            DATA_SIZE as int
        },
{
    if offset >= file_size {
        0
    } else if want < DATA_SIZE {
        want
    } else {
        DATA_SIZE
    }
}

/// The buffer `s` with a request for `size` bytes at `offset`.
pub open spec fn asked(s: Seq<u8>, offset: u64, size: u32) -> Seq<u8> {
    with_status(
        patched(patched(s, 4, le_bytes(offset, 8)), 12, le_bytes(size as u64, 4)),
        STATUS_REQUEST,
    )
}

/// Asks for `size` bytes at `offset`.
pub fn ask(buf: &mut Vec<u8>, offset: u64, size: u32)
    requires
        old(buf)@.len() == BUF_SIZE,
    ensures
        final(buf)@ == asked(old(buf)@, offset, size),
        final(buf)@.len() == BUF_SIZE,
{
    let at = le(offset, 8);
    let n = le(size as u64, 4);
    proof {
        lemma_le_len(offset, 8);
        lemma_le_len(size as u64, 4);
    }
    put(buf, 4, at.as_slice());
    put(buf, 12, n.as_slice());
    set_status(buf, STATUS_REQUEST);
}

proof fn lemma_two_bounds()
    ensures
        two(32) == 0x1_0000_0000,
        two(64) == 0x1_0000_0000_0000_0000,
{
    reveal_with_fuel(two, 65);
}

/// A request is read as it was written: its status, where to read and how much. What
/// else stands in the buffer stays.
pub proof fn law_request_is_read_back(s: Seq<u8>, offset: u64, size: u32)
    requires
        s.len() == BUF_SIZE,
    ensures
        ({
            let t = asked(s, offset, size);
            &&& t.len() == BUF_SIZE
            &&& status_of(t) == STATUS_REQUEST
            &&& field(t, 4, 8) == offset
            &&& field(t, 12, 4) == size
            &&& field(t, 16, 8) == field(s, 16, 8)
            &&& field(t, 24, 4) == field(s, 24, 4)
            &&& t.skip(OFF_DATA as int) == s.skip(OFF_DATA as int)
        }),
{
    lemma_two_bounds();
    law_le_value(offset, 8);
    law_le_value(size as u64, 4);
    law_le_value(STATUS_REQUEST as u64, 4);
    let a = patched(s, 4, le_bytes(offset, 8));
    lemma_patched(s, 4, le_bytes(offset, 8));
    let b = patched(a, 12, le_bytes(size as u64, 4));
    lemma_patched(a, 12, le_bytes(size as u64, 4));
    let t = with_status(b, STATUS_REQUEST);
    lemma_patched(b, 0, le_bytes(STATUS_REQUEST as u64, 4));
    assert(t.subrange(0, 0int + 4) == le_bytes(STATUS_REQUEST as u64, 4));
    assert(t.subrange(4, 4int + 8) == b.subrange(4, 4int + 8));
    assert(b.subrange(4, 4int + 8) == a.subrange(4, 4int + 8));
    assert(t.subrange(12, 12int + 4) == b.subrange(12, 12int + 4));
    assert(t.subrange(16, 16int + 8) == b.subrange(16, 16int + 8));
    assert(b.subrange(16, 16int + 8) == a.subrange(16, 16int + 8));
    assert(a.subrange(16, 16int + 8) == s.subrange(16, 16int + 8));
    assert(t.subrange(24, 24int + 4) == b.subrange(24, 24int + 4));
    assert(b.subrange(24, 24int + 4) == a.subrange(24, 24int + 4));
    assert(a.subrange(24, 24int + 4) == s.subrange(24, 24int + 4));
    assert(t.skip(OFF_DATA as int) =~= s.skip(OFF_DATA as int));
}

/// How many bytes of an answer are taken where `want` are wanted.
pub open spec fn answer_size(s: Seq<u8>, want: int) -> int {
    let n = field(s, 24, 4) as int;
    let m = if n < want {
        n
    } else {
        want
    };
    if m < DATA_SIZE {
        m
    } else {
        DATA_SIZE as int
    }
}

/// Takes the answer to a request out of the buffer, no more than `want` bytes, and
/// frees the buffer.
pub fn take_answer(buf: &mut Vec<u8>, want: usize) -> (r: Result<Vec<u8>, IoError>)
    requires
        old(buf)@.len() == BUF_SIZE,
    ensures
        final(buf)@ == with_status(old(buf)@, STATUS_IDLE),
        final(buf)@.len() == BUF_SIZE,
        match r {
            Ok(data) => status_of(old(buf)@) != STATUS_ERROR && data@ == old(buf)@.subrange(
                OFF_DATA as int,
                OFF_DATA + answer_size(old(buf)@, want as int),
            ),
            Err(e) => status_of(old(buf)@) == STATUS_ERROR && e@ == (
                IoKind::Other,
                "JS read error"@,
            ),
        },
{
    let status: u64 = read_le(buf.as_slice(), 0, 4);
    if status == STATUS_ERROR as u64 {
        set_status(buf, STATUS_IDLE);
        return Err(IoError { kind: IoKind::Other, message: "JS read error".to_string() });
    }
    let told: u64 = read_le(buf.as_slice(), 24, 4);
    let m: u64 = if told < want as u64 {
        told
    } else {
        want as u64
    };
    let n: usize = if m < DATA_SIZE as u64 {
        m as usize
    } else {
        DATA_SIZE
    };
    let part = slice_subrange(buf.as_slice(), OFF_DATA, OFF_DATA + n);
    let data = slice_to_vec(part);
    set_status(buf, STATUS_IDLE);
    Ok(data)
}

/// The size of the next piece of `n` bytes.
pub open spec fn piece_size(n: int) -> int {
    if n < DATA_SIZE {
        n
    } else {
        DATA_SIZE as int
    }
}

/// The buffer `s` with the next piece of `data`, `total` bytes having been written
/// with it.
pub open spec fn given(s: Seq<u8>, data: Seq<u8>, total: u64) -> Seq<u8> {
    let piece = data.take(piece_size(data.len() as int));
    with_status(
        patched(
            patched(
                patched(s, OFF_DATA as int, piece),
                24,
                le_bytes(piece.len() as u64, 4),
            ),
            16,
            le_bytes(total, 8),
        ),
        STATUS_REQUEST,
    )
}

/// Hands on the next piece of `data`, and returns how many bytes that is. `total`
/// counts what was written. There is no piece of nothing.
pub fn give(buf: &mut Vec<u8>, data: &[u8], total: &mut u64) -> (r: usize)
    requires
        old(buf)@.len() == BUF_SIZE,
    ensures
        r == piece_size(data@.len() as int),
        final(buf)@.len() == BUF_SIZE,
        *final(total) == sat64(*old(total) + r),
        final(buf)@ == if data@.len() == 0 {
            old(buf)@
        } else {
            given(old(buf)@, data@, *final(total))
        },
{
    if data.len() == 0 {
        return 0;
    }
    let n: usize = if data.len() < DATA_SIZE {
        data.len()
    } else {
        DATA_SIZE
    };
    let piece = slice_subrange(data, 0, n);
    *total = total.saturating_add(n as u64);
    assert(piece@ =~= data@.take(n as int));
    let size = le(n as u64, 4);
    let sum = le(*total, 8);
    proof {
        lemma_le_len(n as u64, 4);
        lemma_le_len(*total, 8);
    }
    put(buf, OFF_DATA, piece);
    put(buf, 24, size.as_slice());
    put(buf, 16, sum.as_slice());
    set_status(buf, STATUS_REQUEST);
    n
}

/// Whether the other side has taken a piece, or failed.
pub fn taken(buf: &Vec<u8>) -> (r: Result<(), IoError>)
    requires
        buf@.len() == BUF_SIZE,
    ensures
        match r {
            Ok(_) => status_of(buf@) != STATUS_ERROR,
            Err(e) => status_of(buf@) == STATUS_ERROR && e@ == (
                IoKind::Other,
                "JS write consumer error"@,
            ),
        },
{
    let status: u64 = read_le(buf.as_slice(), 0, 4);
    if status == STATUS_ERROR as u64 {
        return Err(IoError { kind: IoKind::Other, message: "JS write consumer error".to_string() });
    }
    Ok(())
}

/// The pieces that `data` is handed on in.
pub open spec fn pieces(data: Seq<u8>) -> Seq<Seq<u8>>
    decreases data.len(),
{
    if data.len() == 0 {
        Seq::empty()
    } else {
        let n = piece_size(data.len() as int);
        seq![data.take(n)] + pieces(data.skip(n))
    }
}

proof fn lemma_join_front(first: Seq<u8>, rest: Seq<Seq<u8>>)
    ensures
        join(seq![first] + rest) == first + join(rest),
    decreases rest.len(),
{
    let all = seq![first] + rest;
    if rest.len() == 0 {
        reveal_with_fuel(join, 2);
        assert(all =~= seq![first]);
        assert(all.drop_last() =~= Seq::<Seq<u8>>::empty());
        assert(join(all) =~= first + join(rest));
    } else {
        lemma_join_front(first, rest.drop_last());
        assert(all.drop_last() =~= seq![first] + rest.drop_last());
        assert(all.last() == rest.last());
        assert(join(all) =~= first + join(rest));
    }
}

/// Bytes that are handed on piece by piece arrive whole and in order, and each piece
/// fits the data region.
pub proof fn law_pieces_arrive_whole(data: Seq<u8>)
    ensures
        join(pieces(data)) == data,
        forall|i: int|
            0 <= i < pieces(data).len() ==> 0 < (#[trigger] pieces(data)[i]).len() <= DATA_SIZE,
    decreases data.len(),
{
    if data.len() == 0 {
        assert(join(pieces(data)) =~= data);
    } else {
        let n = piece_size(data.len() as int);
        law_pieces_arrive_whole(data.skip(n));
        lemma_join_front(data.take(n), pieces(data.skip(n)));
        assert(data.take(n) + data.skip(n) =~= data);
        let ps = pieces(data);
        assert forall|i: int| 0 <= i < ps.len() implies 0 < (#[trigger] ps[i]).len() <= DATA_SIZE by {
            if i > 0 {
                assert(ps[i] == pieces(data.skip(n))[i - 1]);
            }
        }
    }
}

/// A piece is read as it was written: the status, how much was written in all, and
/// the bytes themselves.
pub proof fn law_piece_is_read_back(s: Seq<u8>, data: Seq<u8>, total: u64)
    requires
        s.len() == BUF_SIZE,
        data.len() > 0,
    ensures
        ({
            let t = given(s, data, total);
            let n = piece_size(data.len() as int);
            &&& t.len() == BUF_SIZE
            &&& status_of(t) == STATUS_REQUEST
            &&& field(t, 16, 8) == total
            &&& field(t, 24, 4) == n
            &&& t.subrange(OFF_DATA as int, OFF_DATA + n) == data.take(n)
        }),
{
    let n = piece_size(data.len() as int);
    let piece = data.take(n);
    lemma_two_bounds();
    law_le_value(n as u64, 4);
    law_le_value(total, 8);
    law_le_value(STATUS_REQUEST as u64, 4);
    let a = patched(s, OFF_DATA as int, piece);
    lemma_patched(s, OFF_DATA as int, piece);
    let b = patched(a, 24, le_bytes(n as u64, 4));
    lemma_patched(a, 24, le_bytes(n as u64, 4));
    let c = patched(b, 16, le_bytes(total, 8));
    lemma_patched(b, 16, le_bytes(total, 8));
    let t = with_status(c, STATUS_REQUEST);
    lemma_patched(c, 0, le_bytes(STATUS_REQUEST as u64, 4));
    assert(t.subrange(0, 0int + 4) == le_bytes(STATUS_REQUEST as u64, 4));
    assert(t.subrange(16, 16int + 8) == c.subrange(16, 16int + 8));
    assert(t.subrange(24, 24int + 4) == c.subrange(24, 24int + 4));
    assert(c.subrange(24, 24int + 4) == b.subrange(24, 24int + 4));
    assert(t.subrange(OFF_DATA as int, OFF_DATA + n) == c.subrange(OFF_DATA as int, OFF_DATA + n));
    assert(c.subrange(OFF_DATA as int, OFF_DATA + n) == b.subrange(OFF_DATA as int, OFF_DATA + n));
    assert(b.subrange(OFF_DATA as int, OFF_DATA + n) == a.subrange(OFF_DATA as int, OFF_DATA + n));
}

/// The init segments of the first `n` tracks, each behind its length in four bytes.
pub open spec fn init_frames(tracks: Seq<BlobTrack>, n: int) -> Seq<u8>
    decreases n,
{
    if n <= 0 {
        Seq::empty()
    } else {
        let data = tracks[n - 1].init_data@;
        init_frames(tracks, n - 1) + le_bytes(data.len() as u64, 4) + data
    }
}

/// The init segments of the tracks, each behind its length in four bytes, little
/// endian.
pub fn frame_inits(tracks: &Vec<BlobTrack>) -> (r: Vec<u8>)
    ensures
        r@ == init_frames(tracks@, tracks@.len() as int),
{
    let mut out: Vec<u8> = Vec::new();
    let mut i: usize = 0;
    assert(out@ =~= init_frames(tracks@, 0));
    while i < tracks.len()
        invariant
            i <= tracks@.len(),
            out@ == init_frames(tracks@, i as int),
        decreases tracks@.len() - i,
    {
        push_le(&mut out, tracks[i].init_data.len() as u64, 4);
        out.extend_from_slice(tracks[i].init_data.as_slice());
        i += 1;
        assert(out@ =~= init_frames(tracks@, i as int));
    }
    out
}

/// The bytes that an event is handed on with: the init segment, or the tracks of the
/// GOP, ascending.
pub fn event_data(event: &SegmenterEvent) -> (r: Vec<u8>)
    ensures
        r@ == match *event {
            SegmenterEvent::InitSegment { data, .. } => data@,
            SegmenterEvent::Segment(gop) => gop_body(gop@),
        },
{
    match event {
        SegmenterEvent::InitSegment { data, .. } => slice_to_vec(data.as_slice()),
        SegmenterEvent::Segment(gop) => {
            let mut out: Vec<u8> = Vec::new();
            append_gop(&mut out, gop);
            assert(out@ =~= gop_body(gop@));
            out
        },
    }
}

} // verus!
