//! A byte buffer that lives on the stack while it is short: a `SmallVec`
//! of the crate `smallvec`. What is said here of its methods is taken on
//! trust from their source.

use smallvec::SmallVec;
use vstd::prelude::*;

verus! {

/// A byte buffer that holds up to 128 bytes without allocating: a
/// `smallvec::SmallVec<[u8; 128]>`, which the verifier does not look into.
#[verifier::external_body]
pub struct ByteBuf {
    inner: SmallVec<[u8; 128]>,
}

/// The bytes that a buffer holds, in order: the elements of the `SmallVec`.
pub uninterp spec fn buffer_bytes(buf: ByteBuf) -> Seq<u8>;

/// `SmallVec::from_elem` with a zero byte: a buffer that holds `size` zero
/// bytes.
#[verifier::external_body]
pub(crate) fn buffer_zeroed(size: usize) -> (buf: ByteBuf)
    ensures
        buffer_bytes(buf) == Seq::new(size as nat, |i: int| 0u8),
{
    ByteBuf { inner: SmallVec::from_elem(0u8, size) }
}

/// `SmallVec::as_mut_slice`: the bytes that the buffer holds, open to
/// change in place. The buffer holds afterwards what the slice holds when
/// it is given back.
#[verifier::external_body]
pub(crate) fn buffer_as_mut_slice(buf: &mut ByteBuf) -> (bytes: &mut [u8])
    ensures
        bytes@ == buffer_bytes(*old(buf)),
        buffer_bytes(*final(buf)) == final(bytes)@,
{
    buf.inner.as_mut_slice()
}

/// `SmallVec::as_slice`: the bytes that the buffer holds.
#[verifier::external_body]
pub(crate) fn buffer_as_slice(buf: &ByteBuf) -> (bytes: &[u8])
    ensures
        bytes@ == buffer_bytes(*buf),
{
    buf.inner.as_slice()
}

impl ByteBuf {
    /// The bytes of the buffer, copied out.
    pub fn to_vec(&self) -> (v: Vec<u8>)
        ensures
            v@ == buffer_bytes(*self),
    {
        vstd::slice::slice_to_vec(buffer_as_slice(self))
    }
}

} // verus!
