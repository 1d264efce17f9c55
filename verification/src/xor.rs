//! The obfuscation filter: every byte of a stream is XORed with the low
//! eight bits of its absolute position.

use crate::error::IoErrorKind;
use crate::io::{
    read_count, read_into, span, write_at, ByteRead, ByteSeek, ByteWrite, SeekFrom, Stream,
};
use vstd::prelude::*;

verus! {

/// The key for the byte at absolute position `pos`.
pub open spec fn keystream(pos: nat) -> u8 {
    (pos % 256) as u8
}

/// The bytes `s`, which stand at absolute position `pos`, after the filter.
pub open spec fn xor_seq(s: Seq<u8>, pos: nat) -> Seq<u8> {
    Seq::new(s.len(), |i: int| s[i] ^ keystream((pos + i) as nat))
}

/// The filter is its own inverse: applied twice at the same position, it
/// gives back the bytes it started from, whatever the position and the
/// length.
pub proof fn lemma_xor_involution(s: Seq<u8>, pos: nat)
    ensures
        xor_seq(xor_seq(s, pos), pos) == s,
{
    assert forall|i: int| 0 <= i < s.len() implies xor_seq(xor_seq(s, pos), pos)[i] == s[i] by {
        let b = s[i];
        let k = keystream((pos + i) as nat);
        assert((b ^ k) ^ k == b) by (bit_vector);
    }
    assert(xor_seq(xor_seq(s, pos), pos) =~= s);
}

/// A part of a filtered stream is the filtered part, keyed by where the
/// part starts.
pub proof fn lemma_xor_subrange(s: Seq<u8>, pos: nat, from: int, to: int)
    requires
        0 <= from <= to <= s.len(),
    ensures
        xor_seq(s, pos).subrange(from, to) == xor_seq(s.subrange(from, to), (pos + from) as nat),
{
    assert(xor_seq(s, pos).subrange(from, to) =~= xor_seq(
        s.subrange(from, to),
        (pos + from) as nat,
    ));
}

/// The key for the byte `idx` places after stream position `spos`.
pub fn key_at(spos: u64, idx: usize) -> (k: u8)
    ensures
        k == keystream((spos + idx) as nat),
{
    (((spos % 256) + (idx % 256) as u64) % 256) as u8
}

/// The filter applied to the first `n` bytes of `buf`, or to all of it
/// where it has fewer: they stand at absolute position `pos`, and the rest
/// of the buffer stays.
pub open spec fn xor_front(buf: Seq<u8>, n: nat, pos: nat) -> Seq<u8> {
    let m = if n < buf.len() {
        n
    } else {
        buf.len()
    };
    xor_seq(buf.subrange(0, m as int), pos) + buf.subrange(m as int, buf.len() as int)
}

/// Applies the filter to the first `n` bytes of `buf`, or to all of it
/// where it has fewer. They stand at stream position `spos`. The rest of
/// the buffer stays.
pub fn xor_in_place(buf: &mut [u8], n: usize, spos: u64)
    ensures
        final(buf)@ == xor_front(old(buf)@, n as nat, spos as nat),
{
    let m = if n < buf.len() {
        n
    } else {
        buf.len()
    };
    let mut i: usize = 0;
    while i < m
        invariant
            i <= m <= buf@.len(),
            buf@.len() == old(buf)@.len(),
            buf@ == xor_seq(old(buf)@.subrange(0, i as int), spos as nat) + old(buf)@.subrange(
                i as int,
                old(buf)@.len() as int,
            ),
        decreases m - i,
    {
        let b = buf[i];
        buf[i] = b ^ key_at(spos, i);
        i += 1;
        assert(buf@ =~= xor_seq(old(buf)@.subrange(0, i as int), spos as nat) + old(
            buf,
        )@.subrange(i as int, old(buf)@.len() as int));
    }
}

/// The bytes of `buf`, which are to stand at stream position `spos`, after
/// the filter.
pub fn xor_encode(buf: &[u8], spos: u64) -> (out: Vec<u8>)
    ensures
        out@ == xor_seq(buf@, spos as nat),
{
    let mut out: Vec<u8> = Vec::new();
    let mut i: usize = 0;
    while i < buf.len()
        invariant
            i <= buf@.len(),
            out@ == xor_seq(buf@.subrange(0, i as int), spos as nat),
        decreases buf@.len() - i,
    {
        out.push(buf[i] ^ key_at(spos, i));
        i += 1;
        assert(out@ =~= xor_seq(buf@.subrange(0, i as int), spos as nat));
    }
    assert(buf@.subrange(0, i as int) =~= buf@);
    out
}

/// A reader that takes the filter off the bytes of the stream under it.
pub struct XorRead<T: ByteRead + ByteSeek> {
    pub inner: T,
}

impl<T: ByteRead + ByteSeek> Stream for XorRead<T> {
    open spec fn content(&self) -> Seq<u8> {
        xor_seq(self.inner.content(), 0)
    }

    open spec fn position(&self) -> nat {
        self.inner.position()
    }

    proof fn lemma_stream_bounds(&self) {
        self.inner.lemma_stream_bounds();
    }
}

impl<T: ByteRead + ByteSeek> ByteRead for XorRead<T> {
    fn read(&mut self, buf: &mut [u8]) -> (r: Result<usize, IoErrorKind>) {
        let spos = self.inner.stream_position()?;
        let n = self.inner.read(buf)?;
        let ghost got = buf@;
        xor_in_place(buf, n, spos);
        proof {
            let under = old(self).inner.content();
            assert(got == read_into(old(buf)@, under, spos as nat));
            assert(n == read_count(xor_seq(under, 0), spos as nat, old(buf)@.len()));
            if n > 0 {
                lemma_xor_subrange(under, 0, spos as int, spos + n);
                assert(got.subrange(0, n as int) =~= under.subrange(spos as int, spos + n));
                assert(xor_seq(under, 0).subrange(spos as int, spos + n) == span(
                    xor_seq(under, 0),
                    spos as nat,
                    n as nat,
                ));
                assert(got.subrange(n as int, got.len() as int) =~= old(buf)@.subrange(
                    n as int,
                    old(buf)@.len() as int,
                ));
            } else {
                assert(buf@ =~= old(buf)@);
            }
        }
        Ok(n)
    }
}

impl<T: ByteRead + ByteSeek> ByteSeek for XorRead<T> {
    fn seek(&mut self, to: SeekFrom) -> (r: Result<u64, IoErrorKind>) {
        self.inner.seek(to)
    }

    fn stream_position(&mut self) -> (r: Result<u64, IoErrorKind>) {
        self.inner.stream_position()
    }
}

/// A writer that puts the filter on the bytes it hands to the stream under
/// it.
pub struct XorWrite<T: ByteWrite + ByteSeek> {
    pub inner: T,
}

impl<T: ByteWrite + ByteSeek> Stream for XorWrite<T> {
    open spec fn content(&self) -> Seq<u8> {
        xor_seq(self.inner.content(), 0)
    }

    open spec fn position(&self) -> nat {
        self.inner.position()
    }

    proof fn lemma_stream_bounds(&self) {
        self.inner.lemma_stream_bounds();
    }
}

/// Writing filtered bytes under the filter is writing the bytes themselves.
pub proof fn lemma_xor_write_at(under: Seq<u8>, pos: nat, data: Seq<u8>)
    requires
        pos <= under.len(),
    ensures
        xor_seq(write_at(under, pos, xor_seq(data, pos)), 0) == write_at(
            xor_seq(under, 0),
            pos,
            data,
        ),
{
    let lhs = xor_seq(write_at(under, pos, xor_seq(data, pos)), 0);
    let rhs = write_at(xor_seq(under, 0), pos, data);
    assert(lhs.len() == rhs.len());
    assert forall|i: int| 0 <= i < lhs.len() implies lhs[i] == rhs[i] by {
        if pos <= i < pos + data.len() {
            let b = data[i - pos];
            let k = keystream(i as nat);
            assert((b ^ k) ^ k == b) by (bit_vector);
        }
    }
    assert(lhs =~= rhs);
}

/// What is written through the filter is read back through it, whatever
/// the position: the stream under the writer holds the filtered bytes, and
/// a reader that takes the filter off at the same position gets the bytes
/// that were written.
pub proof fn lemma_written_is_read(under: Seq<u8>, pos: nat, data: Seq<u8>)
    requires
        pos <= under.len(),
    ensures
        span(write_at(under, pos, xor_seq(data, pos)), pos, data.len()) == xor_seq(data, pos),
        span(xor_seq(write_at(under, pos, xor_seq(data, pos)), 0), pos, data.len()) == data,
{
    lemma_xor_write_at(under, pos, data);
    let stored = write_at(under, pos, xor_seq(data, pos));
    assert(span(stored, pos, data.len()) =~= xor_seq(data, pos));
    assert(span(write_at(xor_seq(under, 0), pos, data), pos, data.len()) =~= data);
}

impl<T: ByteWrite + ByteSeek> ByteWrite for XorWrite<T> {
    fn write(&mut self, buf: &[u8]) -> (r: Result<usize, IoErrorKind>) {
        let spos = self.inner.stream_position()?;
        let coded = xor_encode(buf, spos);
        proof {
            if spos <= old(self).inner.content().len() {
                lemma_xor_write_at(old(self).inner.content(), spos as nat, buf@);
            }
        }
        let n = self.inner.write(coded.as_slice())?;
        Ok(n)
    }

    fn flush(&mut self) -> (r: Result<(), IoErrorKind>) {
        self.inner.flush()
    }
}

impl<T: ByteWrite + ByteSeek> ByteSeek for XorWrite<T> {
    fn seek(&mut self, to: SeekFrom) -> (r: Result<u64, IoErrorKind>) {
        self.inner.seek(to)
    }

    fn stream_position(&mut self) -> (r: Result<u64, IoErrorKind>) {
        self.inner.stream_position()
    }
}

/// What can be read through the filter.
pub trait XorReadable<T: ByteRead + ByteSeek> {
    /// A reader that takes the filter off this stream.
    fn xor_read(self) -> (r: XorRead<T>);
}

impl<T: ByteRead + ByteSeek> XorReadable<T> for T {
    fn xor_read(self) -> (r: XorRead<T>)
        ensures
            r.inner == self,
    {
        XorRead { inner: self }
    }
}

/// What can be written through the filter.
pub trait XorWritable<T: ByteWrite + ByteSeek> {
    /// A writer that puts the filter on what goes into this stream.
    fn xor_write(self) -> (r: XorWrite<T>);
}

impl<T: ByteWrite + ByteSeek> XorWritable<T> for T {
    fn xor_write(self) -> (r: XorWrite<T>)
        ensures
            r.inner == self,
    {
        XorWrite { inner: self }
    }
}

} // verus!
