//! Platform-agnostic random access input.
//!
//! [`ReadAt`] is the minimal interface a platform binding implements:
//! positional reads and a size query. [`ReadAtCursor`] adds a position to it.

use vstd::prelude::*;

use crate::error::{IoError, IoKind};
use crate::text::{decimal, push_decimal};

verus! {

/// Stateless positional read interface.
///
/// There is no cursor: a read at one position does not affect another. What is
/// proved of an input is proved of one that serves the same bytes at every read;
/// an implementation in plain Rust is relied on to do so.
pub trait ReadAt {
    /// The bytes behind the input: some, where an implementation does not say
    /// which.
    closed spec fn contents(&self) -> Seq<u8> {
        choose|s: Seq<u8>| s.len() >= 0
    }

    /// Whether the platform never fails to serve a read.
    closed spec fn reliable(&self) -> bool {
        false
    }

    /// Total size of the underlying data in bytes.
    fn size(&self) -> (r: Result<u64, IoError>)
        ensures
            r matches Ok(n) ==> n == self.contents().len(),
            self.reliable() ==> r is Ok,
    ;

    /// Reads up to `buf.len()` bytes starting at `offset`, and returns how many
    /// were read: none only at the end of the input or for an empty buffer.
    fn read_at(&self, offset: u64, buf: &mut [u8]) -> (r: Result<usize, IoError>)
        ensures
            final(buf)@.len() == old(buf)@.len(),
            r matches Ok(n) ==> {
                &&& n <= old(buf)@.len()
                &&& n > 0 ==> offset + n <= self.contents().len() <= u64::MAX
                &&& n == 0 ==> old(buf)@.len() == 0 || offset >= self.contents().len()
                &&& forall|i: int| 0 <= i < n ==> #[trigger] final(buf)@[i]
                    == self.contents()[offset + i]
                &&& forall|i: int| n <= i < old(buf)@.len() ==> #[trigger] final(buf)@[i]
                    == old(buf)@[i]
            },
            self.reliable() ==> r is Ok,
    ;

    /// Reads exactly `buf.len()` bytes starting at `offset`, or fails with
    /// [`IoKind::UnexpectedEof`] where fewer are available.
    fn read_exact_at(&self, offset: u64, buf: &mut [u8]) -> (r: Result<(), IoError>)
        ensures
            final(buf)@.len() == old(buf)@.len(),
            r is Ok ==> old(buf)@.len() == 0 || (offset + old(buf)@.len() <= self.contents().len()
                && final(buf)@ == self.contents().subrange(offset as int, offset + old(buf)@.len())),
            self.reliable() && (old(buf)@.len() == 0 || offset + old(buf)@.len()
                <= self.contents().len()) ==> r is Ok,
            self.reliable() ==> (r matches Err(e) ==> e.kind == IoKind::UnexpectedEof),
    {
        let len: usize = buf.len();
        let mut pos: usize = 0;
        while pos < len
            invariant
                len == buf@.len(),
                len == old(buf)@.len(),
                pos <= len,
                pos > 0 ==> offset + pos <= self.contents().len() <= u64::MAX,
                forall|i: int| 0 <= i < pos ==> #[trigger] buf@[i] == self.contents()[offset + i],
            decreases len - pos,
        {
            let ghost before = buf@;
            let (head, tail) = buf.split_at_mut(pos);
            let ghost tail_len = tail@.len();
            match self.read_at(offset + pos as u64, tail) {
                Ok(n) => {
                    if n == 0 {
                        return Err(short_read(len, offset, pos));
                    }
                    proof {
                        assert forall|i: int| 0 <= i < pos + n implies #[trigger] buf@[i]
                            == self.contents()[offset + i] by {
                            if i < pos {
                                assert(buf@[i] == before[i]);
                            } else {
                                let j = i - pos;
                                assert(self.contents()[offset + pos + j] == self.contents()[offset
                                    + i]);
                            }
                        }
                    }
                    pos = pos + n;
                },
                Err(e) => {
                    return Err(e);
                },
            }
        }
        assert(len > 0 ==> buf@ =~= self.contents().subrange(offset as int, offset + len));
        Ok(())
    }
}

/// Text of the failure of [`ReadAt::read_exact_at`] at the end of the input.
pub open spec fn short_read_text(wanted: nat, offset: nat, got: nat) -> Seq<char> {
    "read_exact_at: wanted "@ + decimal(wanted) + " bytes at offset "@ + decimal(offset) + ", got "@
        + decimal(got)
}

fn short_read(wanted: usize, offset: u64, got: usize) -> (e: IoError)
    ensures
        e.kind == IoKind::UnexpectedEof,
        e.message@ == short_read_text(wanted as nat, offset as nat, got as nat),
{
    let mut m = "read_exact_at: wanted ".to_string();
    push_decimal(&mut m, wanted as u64);
    m.push_str(" bytes at offset ");
    push_decimal(&mut m, offset);
    m.push_str(", got ");
    push_decimal(&mut m, got as u64);
    IoError { kind: IoKind::UnexpectedEof, message: m }
}

/// How many bytes of an input of `len` bytes from `offset` on fit into `room` bytes.
pub open spec fn served(len: nat, offset: u64, room: nat) -> int {
    if offset >= len {
        0
    } else if len - offset < room {
        len - offset
    } else {
        room as int
    }
}

/// Copies what `data` holds from `offset` on to the front of `buf`.
fn copy_at(data: &[u8], offset: u64, buf: &mut [u8]) -> (n: usize)
    ensures
        final(buf)@.len() == old(buf)@.len(),
        n == served(data@.len(), offset, old(buf)@.len()),
        forall|i: int| 0 <= i < n ==> #[trigger] final(buf)@[i] == data@[offset + i],
        forall|i: int| n <= i < old(buf)@.len() ==> #[trigger] final(buf)@[i] == old(buf)@[i],
{
    let len: usize = data.len();
    if offset >= len as u64 {
        return 0;
    }
    let start: usize = offset as usize;
    let room: usize = buf.len();
    let n: usize = if len - start < room {
        len - start
    } else {
        room
    };
    let mut i: usize = 0;
    while i < n
        invariant
            i <= n <= room,
            buf@.len() == room,
            room == old(buf)@.len(),
            start + n <= len,
            len == data@.len(),
            forall|j: int| 0 <= j < i ==> #[trigger] buf@[j] == data@[start + j],
            forall|j: int| i <= j < room ==> #[trigger] buf@[j] == old(buf)@[j],
        decreases n - i,
    {
        buf[i] = data[start + i];
        i += 1;
    }
    n
}

/// In-memory input.
impl ReadAt for [u8] {
    open spec fn contents(&self) -> Seq<u8> {
        self@
    }

    open spec fn reliable(&self) -> bool {
        true
    }

    fn size(&self) -> (r: Result<u64, IoError>) {
        Ok(self.len() as u64)
    }

    /// Reads as many bytes as there are and as `buf` takes: none past the end.
    fn read_at(&self, offset: u64, buf: &mut [u8]) -> (r: Result<usize, IoError>)
        ensures
            r matches Ok(n) && n == served(self@.len(), offset, old(buf)@.len()),
    {
        assert(self.len() == self@.len());
        Ok(copy_at(self, offset, buf))
    }
}

impl ReadAt for Vec<u8> {
    open spec fn contents(&self) -> Seq<u8> {
        self@
    }

    open spec fn reliable(&self) -> bool {
        true
    }

    fn size(&self) -> (r: Result<u64, IoError>) {
        Ok(self.len() as u64)
    }

    /// Reads as many bytes as there are and as `buf` takes: none past the end.
    fn read_at(&self, offset: u64, buf: &mut [u8]) -> (r: Result<usize, IoError>)
        ensures
            r matches Ok(n) && n == served(self@.len(), offset, old(buf)@.len()),
    {
        assert(self.len() == self@.len());
        Ok(copy_at(self.as_slice(), offset, buf))
    }
}

/// Target of [`ReadAtCursor::seek`].
#[derive(Clone, Copy, Debug, PartialEq, Eq, Structural)]
pub enum SeekFrom {
    Start(u64),
    End(i64),
    Current(i64),
}

/// A [`ReadAt`] with a position: sequential reads and seeks.
pub struct ReadAtCursor<'a, R: ReadAt + ?Sized> {
    inner: &'a R,
    pos: u64,
    size: u64,
}

impl<'a, R: ReadAt + ?Sized> ReadAtCursor<'a, R> {
    /// The input that the cursor reads.
    pub closed spec fn input(&self) -> &'a R {
        self.inner
    }

    /// Where the next read starts.
    pub closed spec fn position(&self) -> u64 {
        self.pos
    }

    /// The size of the input when the cursor was made.
    pub closed spec fn end(&self) -> u64 {
        self.size
    }

    /// Positions and sizes stay within `i64`, in which seeks compute, and reads
    /// do not move past the end of the input.
    pub open spec fn wf(&self) -> bool {
        &&& self.end() == self.input().contents().len()
        &&& self.end() <= i64::MAX
        &&& self.position() <= i64::MAX
    }

    /// A cursor at the start of `inner`.
    pub fn new(inner: &'a R) -> (r: Result<Self, IoError>)
        ensures
            r matches Ok(c) ==> {
                &&& c.input() == inner
                &&& c.position() == 0
                &&& c.end() == inner.contents().len()
            },
            inner.reliable() ==> r is Ok,
    {
        match inner.size() {
            Ok(size) => Ok(ReadAtCursor { inner, pos: 0, size }),
            Err(e) => Err(e),
        }
    }

    /// Reads from the position on and moves past what was read.
    pub fn read(&mut self, buf: &mut [u8]) -> (r: Result<usize, IoError>)
        requires
            old(self).wf(),
        ensures
            final(self).wf(),
            final(self).input() == old(self).input(),
            final(self).end() == old(self).end(),
            final(buf)@.len() == old(buf)@.len(),
            match r {
                Ok(n) => {
                    &&& n <= old(buf)@.len()
                    &&& final(self).position() == old(self).position() + n
                    &&& n == 0 ==> old(buf)@.len() == 0 || old(self).position() >= old(self).end()
                    &&& forall|i: int| 0 <= i < n ==> #[trigger] final(buf)@[i]
                        == old(self).input().contents()[old(self).position() + i]
                },
                Err(_) => final(self).position() == old(self).position(),
            },
            old(self).input().reliable() ==> r is Ok,
    {
        match self.inner.read_at(self.pos, buf) {
            Ok(n) => {
                self.pos = self.pos + n as u64;
                Ok(n)
            },
            Err(e) => Err(e),
        }
    }

    /// Fills `buf` from the position on, or fails with
    /// [`IoKind::UnexpectedEof`].
    pub fn read_exact(&mut self, buf: &mut [u8]) -> (r: Result<(), IoError>)
        requires
            old(self).wf(),
        ensures
            final(self).wf(),
            final(self).input() == old(self).input(),
            final(self).end() == old(self).end(),
            final(buf)@.len() == old(buf)@.len(),
            r is Ok ==> {
                &&& final(self).position() == old(self).position() + old(buf)@.len()
                &&& old(buf)@.len() > 0 ==> final(buf)@ == old(self).input().contents().subrange(
                    old(self).position() as int,
                    old(self).position() + old(buf)@.len(),
                )
            },
            r is Err ==> final(self).position() == old(self).position(),
            old(self).input().reliable() && old(self).position() + old(buf)@.len()
                <= old(self).end() ==> r is Ok,
    {
        let n: usize = buf.len();
        match self.inner.read_exact_at(self.pos, buf) {
            Ok(()) => {
                self.pos = self.pos + n as u64;
                Ok(())
            },
            Err(e) => Err(e),
        }
    }

    /// Moves the position. A target that is negative, or past `i64::MAX`, is
    /// refused, and the position kept.
    pub fn seek(&mut self, to: SeekFrom) -> (r: Result<u64, IoError>)
        requires
            old(self).wf(),
            to is Start || seek_target(to, old(self).position() as int, old(self).end() as int)
                <= i64::MAX,
        ensures
            final(self).wf(),
            final(self).input() == old(self).input(),
            final(self).end() == old(self).end(),
            ({
                let target = seek_target(to, old(self).position() as int, old(self).end() as int);
                match r {
                    Ok(n) => 0 <= target <= i64::MAX && n == target && final(self).position() == target,
                    Err(e) => {
                        &&& target < 0 || target > i64::MAX
                        &&& final(self).position() == old(self).position()
                        &&& e.kind == IoKind::InvalidInput
                        &&& e.message@ == "seek to negative position"@
                    },
                }
            }),
    {
        let target: i64 = match to {
            SeekFrom::Start(offset) => if offset > i64::MAX as u64 {
                -1
            } else {
                offset as i64
            },
            SeekFrom::End(offset) => self.size as i64 + offset,
            SeekFrom::Current(offset) => self.pos as i64 + offset,
        };
        if target < 0 {
            return Err(
                IoError {
                    kind: IoKind::InvalidInput,
                    message: "seek to negative position".to_string(),
                },
            );
        }
        self.pos = target as u64;
        Ok(self.pos)
    }
}

/// The absolute position that a seek asks for.
pub open spec fn seek_target(to: SeekFrom, position: int, size: int) -> int {
    match to {
        SeekFrom::Start(offset) => offset as int,
        SeekFrom::End(offset) => size + offset,
        SeekFrom::Current(offset) => position + offset,
    }
}

} // verus!
