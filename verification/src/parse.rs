//! Reading a run of bytes and handing it to a decoder in one step.

use crate::error::{ErrorView, IoErrorKind, RepackerError};
use crate::io::{read, read_count, read_fixed, remaining, span, ByteRead};
use crate::smallbuf::buffer_as_slice;
use vstd::prelude::*;

verus! {

/// Reads exactly `S` bytes and hands them to `op`, which decodes and checks
/// them. Where the stream holds fewer bytes, `op` is not called.
pub fn parse_fixed<T, const S: usize, R, O>(bytes: &mut R, op: O) -> (r: Result<T, RepackerError>)
    where R: ByteRead, O: FnOnce([u8; S]) -> Result<T, RepackerError>
    requires
        forall|buffer: [u8; S]|
            buffer@ == span(old(bytes).content(), old(bytes).position(), S as nat)
                ==> op.requires((buffer,)),
    ensures
        final(bytes).content() == old(bytes).content(),
        final(bytes).position() == old(bytes).position() + read_count(
            old(bytes).content(),
            old(bytes).position(),
            S as nat,
        ),
        if remaining(old(bytes).content(), old(bytes).position()).len() < S {
            r matches Err(e) && e@ == ErrorView::Io(IoErrorKind::UnexpectedEof)
        } else {
            exists|buffer: [u8; S]|
                buffer@ == span(old(bytes).content(), old(bytes).position(), S as nat)
                    && op.ensures((buffer,), r)
        },
{
    let buffer = match read_fixed::<S, R>(bytes) {
        Ok(buffer) => buffer,
        Err(e) => {
            return Err(RepackerError::Io(e));
        },
    };
    op(buffer)
}

/// Reads exactly `size` bytes and hands them to `op`, which decodes and
/// checks them. Where the stream holds fewer bytes, `op` is not called.
pub fn parse<T, R, O>(bytes: &mut R, size: usize, op: O) -> (r: Result<T, RepackerError>)
    where R: ByteRead, O: FnOnce(&[u8]) -> Result<T, RepackerError>
    requires
        forall|buffer: &[u8]|
            buffer@ == span(old(bytes).content(), old(bytes).position(), size as nat)
                ==> op.requires((buffer,)),
    ensures
        final(bytes).content() == old(bytes).content(),
        final(bytes).position() == old(bytes).position() + read_count(
            old(bytes).content(),
            old(bytes).position(),
            size as nat,
        ),
        if remaining(old(bytes).content(), old(bytes).position()).len() < size {
            r matches Err(e) && e@ == ErrorView::Io(IoErrorKind::UnexpectedEof)
        } else {
            exists|buffer: &[u8]|
                buffer@ == span(old(bytes).content(), old(bytes).position(), size as nat)
                    && op.ensures((buffer,), r)
        },
{
    let buffer = match read(bytes, size) {
        Ok(buffer) => buffer,
        Err(e) => {
            return Err(RepackerError::Io(e));
        },
    };
    op(buffer_as_slice(&buffer))
}

} // verus!
