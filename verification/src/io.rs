//! Byte streams held in memory, and the reading and copying on them.

use crate::error::IoErrorKind;
use crate::smallbuf::{buffer_as_mut_slice, buffer_bytes, buffer_zeroed, ByteBuf};
use vstd::prelude::*;
use vstd::slice::slice_subrange;

verus! {

/// Where a seek goes: an absolute position, or an offset from the end of the
/// stream or from the current position.
#[derive(Debug, Clone, Copy, PartialEq, Eq)]
pub enum SeekFrom {
    Start(u64),
    End(i64),
    Current(i64),
}

/// A stream of bytes with a current position.
pub trait Stream {
    /// The bytes of the whole stream, as a reader of this stream sees them.
    spec fn content(&self) -> Seq<u8>;

    /// The absolute position of the next read or write.
    spec fn position(&self) -> nat;

    /// The machine limits on a stream.
    proof fn lemma_stream_bounds(&self)
        ensures
            self.content().len() <= usize::MAX,
            self.position() <= u64::MAX,
    ;
}

/// How many bytes a read of `want` bytes at `pos` yields.
pub open spec fn read_count(content: Seq<u8>, pos: nat, want: nat) -> nat {
    if pos >= content.len() {
        0
    } else if content.len() - pos < want {
        (content.len() - pos) as nat
    } else {
        want
    }
}

/// The bytes of a stream from `pos` to its end.
pub open spec fn remaining(content: Seq<u8>, pos: nat) -> Seq<u8> {
    if pos >= content.len() {
        Seq::empty()
    } else {
        content.subrange(pos as int, content.len() as int)
    }
}

/// The `n` bytes of a stream from `pos` on.
pub open spec fn span(content: Seq<u8>, pos: nat, n: nat) -> Seq<u8>
    recommends
        n <= remaining(content, pos).len(),
{
    remaining(content, pos).subrange(0, n as int)
}

/// A buffer after a read at `pos`: the bytes read, then the rest of the
/// buffer as it was.
pub open spec fn read_into(buf: Seq<u8>, content: Seq<u8>, pos: nat) -> Seq<u8> {
    let n = read_count(content, pos, buf.len());
    if n == 0 {
        buf
    } else {
        span(content, pos, n) + buf.subrange(n as int, buf.len() as int)
    }
}

/// A stream after `data` was written at `pos`: the bytes there are replaced,
/// and the stream grows where `data` reaches past its end.
pub open spec fn write_at(content: Seq<u8>, pos: nat, data: Seq<u8>) -> Seq<u8>
    recommends
        pos <= content.len(),
{
    let end = pos + data.len();
    content.subrange(0, pos as int) + data + if end < content.len() {
        content.subrange(end as int, content.len() as int)
    } else {
        Seq::empty()
    }
}

/// The position that a seek from `pos` in a stream of `len` bytes arrives
/// at, if it is neither negative nor beyond 64 bits.
pub open spec fn seek_target(len: nat, pos: nat, to: SeekFrom) -> Option<u64> {
    let target: int = match to {
        SeekFrom::Start(n) => n as int,
        SeekFrom::End(n) => len + n,
        SeekFrom::Current(n) => pos + n,
    };
    if 0 <= target <= u64::MAX {
        Some(target as u64)
    } else {
        None
    }
}

/// A stream that can be read from its current position.
pub trait ByteRead: Stream {
    /// Fills the front of `buf` with the bytes at the current position, as
    /// many as the buffer holds or as are left, and moves past them.
    fn read(&mut self, buf: &mut [u8]) -> (r: Result<usize, IoErrorKind>)
        ensures
            r matches Ok(n) && n == read_count(
                old(self).content(),
                old(self).position(),
                old(buf)@.len(),
            ),
            final(buf)@ == read_into(old(buf)@, old(self).content(), old(self).position()),
            final(self).content() == old(self).content(),
            final(self).position() == old(self).position() + read_count(
                old(self).content(),
                old(self).position(),
                old(buf)@.len(),
            ),
    ;
}

/// A stream that can be written at its current position.
pub trait ByteWrite: Stream {
    /// Writes all of `buf` at the current position and moves past it. A
    /// write that would start past the end of the stream is refused.
    fn write(&mut self, buf: &[u8]) -> (r: Result<usize, IoErrorKind>)
        ensures
            old(self).position() <= old(self).content().len() ==> {
                &&& r matches Ok(n) && n == buf@.len()
                &&& final(self).content() == write_at(
                    old(self).content(),
                    old(self).position(),
                    buf@,
                )
                &&& final(self).position() == old(self).position() + buf@.len()
            },
            old(self).position() > old(self).content().len() ==> {
                &&& r == Err::<usize, IoErrorKind>(IoErrorKind::InvalidInput)
                &&& final(self).content() == old(self).content()
                &&& final(self).position() == old(self).position()
            },
    ;

    /// Nothing is held back by a stream, so there is nothing to flush.
    fn flush(&mut self) -> (r: Result<(), IoErrorKind>)
        ensures
            r == Ok::<(), IoErrorKind>(()),
            final(self).content() == old(self).content(),
            final(self).position() == old(self).position(),
    ;
}

/// A stream whose position can be moved.
pub trait ByteSeek: Stream {
    /// Moves the position. A target that is negative or does not fit in 64
    /// bits is refused and the position stays.
    fn seek(&mut self, to: SeekFrom) -> (r: Result<u64, IoErrorKind>)
        ensures
            final(self).content() == old(self).content(),
            match seek_target(old(self).content().len(), old(self).position(), to) {
                Some(p) => r == Ok::<u64, IoErrorKind>(p) && final(self).position() == p,
                None => {
                    &&& r == Err::<u64, IoErrorKind>(IoErrorKind::InvalidInput)
                    &&& final(self).position() == old(self).position()
                },
            },
    ;

    /// The current position.
    fn stream_position(&mut self) -> (r: Result<u64, IoErrorKind>)
        ensures
            r matches Ok(p) && p == old(self).position(),
            final(self).content() == old(self).content(),
            final(self).position() == old(self).position(),
    ;
}

/// A readable, writable, seekable stream over a growable byte vector.
#[derive(Debug, Clone, PartialEq, Eq)]
pub struct ByteStream {
    pub data: Vec<u8>,
    pub pos: u64,
}

impl ByteStream {
    /// A stream over `data`, positioned at its start.
    pub fn new(data: Vec<u8>) -> (s: ByteStream)
        ensures
            s.data == data,
            s.pos == 0,
    {
        ByteStream { data, pos: 0 }
    }

    /// The bytes of the stream.
    pub fn into_inner(self) -> (data: Vec<u8>)
        ensures
            data == self.data,
    {
        self.data
    }
}

impl Stream for ByteStream {
    open spec fn content(&self) -> Seq<u8> {
        self.data@
    }

    open spec fn position(&self) -> nat {
        self.pos as nat
    }

    proof fn lemma_stream_bounds(&self) {
        assert(self.data.len() <= usize::MAX);
    }
}

impl ByteRead for ByteStream {
    fn read(&mut self, buf: &mut [u8]) -> (r: Result<usize, IoErrorKind>) {
        let len = self.data.len();
        if self.pos >= len as u64 {
            return Ok(0);
        }
        let start = self.pos as usize;
        let avail = len - start;
        let n = if avail < buf.len() {
            avail
        } else {
            buf.len()
        };
        let mut i: usize = 0;
        while i < n
            invariant
                i <= n,
                n <= buf@.len(),
                buf@.len() == old(buf)@.len(),
                start + n <= self.data@.len() <= usize::MAX,
                self.data@ == old(self).data@,
                self.pos == old(self).pos,
                buf@ == span(self.data@, start as nat, i as nat) + old(buf)@.subrange(
                    i as int,
                    old(buf)@.len() as int,
                ),
            decreases n - i,
        {
            buf[i] = self.data[start + i];
            i += 1;
        }
        assert(old(buf)@.subrange(0, old(buf)@.len() as int) =~= old(buf)@);
        self.pos = self.pos + n as u64;
        Ok(n)
    }
}

impl ByteWrite for ByteStream {
    fn write(&mut self, buf: &[u8]) -> (r: Result<usize, IoErrorKind>) {
        let len = self.data.len();
        if self.pos > len as u64 {
            return Err(IoErrorKind::InvalidInput);
        }
        let start = self.pos as usize;
        let mut i: usize = 0;
        while i < buf.len()
            invariant
                i <= buf@.len(),
                start <= old(self).data@.len(),
                self.pos == old(self).pos,
                start == self.pos,
                start + i <= self.data@.len(),
                self.data@ == write_at(old(self).data@, start as nat, buf@.subrange(0, i as int)),
            decreases buf@.len() - i,
        {
            let cur = self.data.len();
            if start + i < cur {
                self.data[start + i] = buf[i];
            } else {
                self.data.push(buf[i]);
            }
            i += 1;
            assert(self.data@ =~= write_at(
                old(self).data@,
                start as nat,
                buf@.subrange(0, i as int),
            ));
        }
        assert(buf@.subrange(0, i as int) =~= buf@);
        assert(self.data.len() <= usize::MAX);
        self.pos = self.pos + buf.len() as u64;
        Ok(buf.len())
    }

    fn flush(&mut self) -> (r: Result<(), IoErrorKind>) {
        Ok(())
    }
}

impl ByteSeek for ByteStream {
    fn seek(&mut self, to: SeekFrom) -> (r: Result<u64, IoErrorKind>) {
        let (base, offset): (u64, i64) = match to {
            SeekFrom::Start(n) => {
                self.pos = n;
                return Ok(n);
            },
            SeekFrom::End(n) => (self.data.len() as u64, n),
            SeekFrom::Current(n) => (self.pos, n),
        };
        match base.checked_add_signed(offset) {
            Some(n) => {
                self.pos = n;
                Ok(n)
            },
            None => Err(IoErrorKind::InvalidInput),
        }
    }

    fn stream_position(&mut self) -> (r: Result<u64, IoErrorKind>) {
        Ok(self.pos)
    }
}

/// Writing `a` and then `b` behind it is writing `a + b`.
pub proof fn lemma_write_at_twice(content: Seq<u8>, pos: nat, a: Seq<u8>, b: Seq<u8>)
    requires
        pos <= content.len(),
    ensures
        write_at(write_at(content, pos, a), pos + a.len(), b) == write_at(content, pos, a + b),
{
    assert(write_at(write_at(content, pos, a), pos + a.len(), b) =~= write_at(
        content,
        pos,
        a + b,
    ));
}

/// What has a length that can be asked for.
pub trait StreamLen<T: ByteSeek> {
    /// The length of the stream. The position is where it was.
    fn stream_len(&mut self) -> (r: Result<u64, IoErrorKind>);
}

impl<T: ByteSeek> StreamLen<T> for T {
    fn stream_len(&mut self) -> (r: Result<u64, IoErrorKind>)
        ensures
            r matches Ok(len) && len == old(self).content().len(),
            final(self).content() == old(self).content(),
            final(self).position() == old(self).position(),
    {
        proof {
            self.lemma_stream_bounds();
        }
        let prev_pos = self.stream_position()?;
        let len = self.seek(SeekFrom::End(0))?;
        if prev_pos != len {
            self.seek(SeekFrom::Start(prev_pos))?;
        }
        Ok(len)
    }
}

/// Fills all of `buf` from the stream, or fails with `UnexpectedEof` where
/// the stream holds fewer bytes than that; the stream is then at its end.
pub fn read_exact<R: ByteRead>(bytes: &mut R, buf: &mut [u8]) -> (r: Result<(), IoErrorKind>)
    ensures
        final(bytes).content() == old(bytes).content(),
        final(buf)@ == read_into(old(buf)@, old(bytes).content(), old(bytes).position()),
        final(bytes).position() == old(bytes).position() + read_count(
            old(bytes).content(),
            old(bytes).position(),
            old(buf)@.len(),
        ),
        r == if remaining(old(bytes).content(), old(bytes).position()).len() >= old(buf)@.len() {
            Ok::<(), IoErrorKind>(())
        } else {
            Err::<(), IoErrorKind>(IoErrorKind::UnexpectedEof)
        },
{
    let want = buf.len();
    let n = bytes.read(buf)?;
    if n < want {
        Err(IoErrorKind::UnexpectedEof)
    } else {
        Ok(())
    }
}

/// Writes all of `buf` at the current position, or fails with
/// `InvalidInput` where the position is past the end of the stream. An
/// empty `buf` is always written.
pub fn write_all<W: ByteWrite>(file: &mut W, buf: &[u8]) -> (r: Result<(), IoErrorKind>)
    ensures
        buf@.len() == 0 ==> {
            &&& r == Ok::<(), IoErrorKind>(())
            &&& final(file).content() == old(file).content()
            &&& final(file).position() == old(file).position()
        },
        buf@.len() > 0 && old(file).position() <= old(file).content().len() ==> {
            &&& r == Ok::<(), IoErrorKind>(())
            &&& final(file).content() == write_at(old(file).content(), old(file).position(), buf@)
            &&& final(file).position() == old(file).position() + buf@.len()
        },
        buf@.len() > 0 && old(file).position() > old(file).content().len() ==> {
            &&& r == Err::<(), IoErrorKind>(IoErrorKind::InvalidInput)
            &&& final(file).content() == old(file).content()
            &&& final(file).position() == old(file).position()
        },
{
    if buf.len() == 0 {
        return Ok(());
    }
    file.write(buf)?;
    Ok(())
}

/// The most bytes that a copy holds in memory at a time.
pub const CHUNK_SIZE: usize = 1048576;

/// The smaller of two numbers.
pub open spec fn min_nat(a: nat, b: nat) -> nat {
    if a < b {
        a
    } else {
        b
    }
}

/// How a copy of `count` bytes ends: well where the source holds that many
/// bytes and the target can be written at its position, or where there is
/// nothing to copy.
pub open spec fn copy_result(
    src: Seq<u8>,
    spos: nat,
    dst: Seq<u8>,
    dpos: nat,
    count: nat,
) -> Result<(), IoErrorKind> {
    let avail = remaining(src, spos).len();
    if count == 0 {
        Ok(())
    } else if avail == 0 {
        Err(IoErrorKind::UnexpectedEof)
    } else if dpos > dst.len() {
        Err(IoErrorKind::InvalidInput)
    } else if avail < count {
        Err(IoErrorKind::UnexpectedEof)
    } else {
        Ok(())
    }
}

/// How many bytes a copy of `count` bytes writes: all that the source has
/// of them, unless the target cannot be written at its position.
pub open spec fn copy_written(src: Seq<u8>, spos: nat, dst: Seq<u8>, dpos: nat, count: nat) -> nat {
    if dpos > dst.len() {
        0
    } else {
        min_nat(count, remaining(src, spos).len())
    }
}

/// How many bytes a copy of `count` bytes reads: all that the source has of
/// them, or the first chunk alone where the target cannot be written.
pub open spec fn copy_consumed(
    src: Seq<u8>,
    spos: nat,
    dst: Seq<u8>,
    dpos: nat,
    count: nat,
) -> nat {
    let most = min_nat(count, remaining(src, spos).len());
    if dpos > dst.len() {
        min_nat(most, CHUNK_SIZE as nat)
    } else {
        most
    }
}

/// Copies `count` bytes from one stream to another, at most `CHUNK_SIZE`
/// of them at a time.
pub fn chunked_copy<R: ByteRead, W: ByteWrite>(bytes: &mut R, file: &mut W, count: usize) -> (r:
    Result<(), IoErrorKind>)
    ensures
        r == copy_result(
            old(bytes).content(),
            old(bytes).position(),
            old(file).content(),
            old(file).position(),
            count as nat,
        ),
        final(bytes).content() == old(bytes).content(),
        final(bytes).position() == old(bytes).position() + copy_consumed(
            old(bytes).content(),
            old(bytes).position(),
            old(file).content(),
            old(file).position(),
            count as nat,
        ),
        final(file).position() == old(file).position() + copy_written(
            old(bytes).content(),
            old(bytes).position(),
            old(file).content(),
            old(file).position(),
            count as nat,
        ),
        final(file).content() == ({
            let n = copy_written(
                old(bytes).content(),
                old(bytes).position(),
                old(file).content(),
                old(file).position(),
                count as nat,
            );
            if n == 0 {
                old(file).content()
            } else {
                write_at(
                    old(file).content(),
                    old(file).position(),
                    span(old(bytes).content(), old(bytes).position(), n),
                )
            }
        }),
{
    let mut buf: Vec<u8> = vec![0u8; CHUNK_SIZE];
    let mut written: usize = 0;
    let ghost src = bytes.content();
    let ghost spos = bytes.position();
    let ghost dst = file.content();
    let ghost dpos = file.position();
    let ghost avail = remaining(src, spos).len();

    while written < count
        invariant
            written <= count,
            0 < buf@.len() <= CHUNK_SIZE,
            buf@.len() == CHUNK_SIZE || buf@.len() >= count - written,
            written <= avail,
            written > 0 ==> dpos <= dst.len(),
            src == old(bytes).content(),
            spos == old(bytes).position(),
            dst == old(file).content(),
            dpos == old(file).position(),
            avail == remaining(src, spos).len(),
            bytes.content() == src,
            bytes.position() == spos + written,
            file.position() == dpos + written,
            file.content() == if written == 0 {
                dst
            } else {
                write_at(dst, dpos, span(src, spos, written as nat))
            },
        decreases count - written,
    {
        if count - written < buf.len() {
            buf.truncate(count - written);
        }
        let n = match bytes.read(buf.as_mut_slice()) {
            Ok(n) => n,
            Err(e) => {
                return Err(e);
            },
        };
        if n == 0 {
            return Err(IoErrorKind::UnexpectedEof);
        }
        proof {
            let done = span(src, spos, written as nat);
            let chunk = buf@.subrange(0, n as int);
            assert(chunk =~= span(src, (spos + written) as nat, n as nat));
            if written > 0 {
                lemma_write_at_twice(dst, dpos, done, chunk);
            }
            assert(done + chunk =~= span(src, spos, (written + n) as nat));
            assert(written == 0 ==> chunk =~= span(src, spos, n as nat));
        }
        match write_all(file, slice_subrange(buf.as_slice(), 0, n)) {
            Ok(()) => {},
            Err(e) => {
                return Err(e);
            },
        }
        written += n;
    }
    Ok(())
}

/// Reads exactly `S` bytes.
pub fn read_fixed<const S: usize, R: ByteRead>(bytes: &mut R) -> (r: Result<[u8; S], IoErrorKind>)
    ensures
        final(bytes).content() == old(bytes).content(),
        final(bytes).position() == old(bytes).position() + read_count(
            old(bytes).content(),
            old(bytes).position(),
            S as nat,
        ),
        match r {
            Ok(buffer) => {
                &&& remaining(old(bytes).content(), old(bytes).position()).len() >= S
                &&& buffer@ == span(old(bytes).content(), old(bytes).position(), S as nat)
            },
            Err(e) => {
                &&& remaining(old(bytes).content(), old(bytes).position()).len() < S
                &&& e == IoErrorKind::UnexpectedEof
            },
        },
{
    let mut buffer: [u8; S] = [0u8;S];
    read_exact(bytes, &mut buffer)?;
    assert(buffer@ =~= span(old(bytes).content(), old(bytes).position(), S as nat));
    Ok(buffer)
}

/// Reads exactly `size` bytes into a short buffer.
pub fn read<R: ByteRead>(bytes: &mut R, size: usize) -> (r: Result<ByteBuf, IoErrorKind>)
    ensures
        final(bytes).content() == old(bytes).content(),
        final(bytes).position() == old(bytes).position() + read_count(
            old(bytes).content(),
            old(bytes).position(),
            size as nat,
        ),
        match r {
            Ok(buffer) => {
                &&& remaining(old(bytes).content(), old(bytes).position()).len() >= size
                &&& buffer_bytes(buffer) == span(
                    old(bytes).content(),
                    old(bytes).position(),
                    size as nat,
                )
            },
            Err(e) => {
                &&& remaining(old(bytes).content(), old(bytes).position()).len() < size
                &&& e == IoErrorKind::UnexpectedEof
            },
        },
{
    let mut buffer = buffer_zeroed(size);
    read_exact(bytes, buffer_as_mut_slice(&mut buffer))?;
    assert(buffer_bytes(buffer) =~= span(old(bytes).content(), old(bytes).position(), size as nat));
    Ok(buffer)
}

/// A run of bytes of a stream is its first part followed by the rest of
/// it.
pub proof fn lemma_span_split(content: Seq<u8>, pos: nat, a: nat, b: nat)
    requires
        pos + a + b <= content.len(),
    ensures
        span(content, pos, a + b) == span(content, pos, a) + span(content, pos + a, b),
        span(content, pos, a) == span(content, pos, a + b).subrange(0, a as int),
        span(content, pos + a, b) == span(content, pos, a + b).subrange(a as int, (a + b) as int),
{
    assert(span(content, pos, a + b) =~= span(content, pos, a) + span(content, pos + a, b));
    assert(span(content, pos, a) =~= span(content, pos, a + b).subrange(0, a as int));
    assert(span(content, pos + a, b) =~= span(content, pos, a + b).subrange(
        a as int,
        (a + b) as int,
    ));
}

} // verus!
