//! Big-endian encodings of the fixed-width integers of the archive format.

use vstd::prelude::*;

verus! {

/// The two bytes of `x`, most significant first.
pub open spec fn u16_be(x: u16) -> Seq<u8> {
    seq![(x / 0x100) as u8, (x % 0x100) as u8]
}

/// The value that two bytes stand for, most significant first.
pub open spec fn be_u16(b: Seq<u8>) -> u16
    recommends
        b.len() == 2,
{
    (b[0] as int * 0x100 + b[1] as int) as u16
}

/// The four bytes of `x`, most significant first.
pub open spec fn u32_be(x: u32) -> Seq<u8> {
    seq![
        (x / 0x100_0000) as u8,
        (x / 0x1_0000 % 0x100) as u8,
        (x / 0x100 % 0x100) as u8,
        (x % 0x100) as u8,
    ]
}

/// The value that four bytes stand for, most significant first.
pub open spec fn be_u32(b: Seq<u8>) -> u32
    recommends
        b.len() == 4,
{
    (b[0] as int * 0x100_0000 + b[1] as int * 0x1_0000 + b[2] as int * 0x100 + b[3] as int) as u32
}

/// The eight bytes of `x`, most significant first.
pub open spec fn u64_be(x: u64) -> Seq<u8> {
    u32_be((x / 0x1_0000_0000) as u32) + u32_be((x % 0x1_0000_0000) as u32)
}

/// The value that eight bytes stand for, most significant first.
pub open spec fn be_u64(b: Seq<u8>) -> u64
    recommends
        b.len() == 8,
{
    (be_u32(b.subrange(0, 4)) as int * 0x1_0000_0000 + be_u32(b.subrange(4, 8)) as int) as u64
}

/// Decoding undoes encoding of a 16-bit value.
pub proof fn lemma_be_u16_decode_encode(x: u16)
    ensures
        u16_be(x).len() == 2,
        be_u16(u16_be(x)) == x,
{
}

/// Encoding undoes decoding of two bytes.
pub proof fn lemma_be_u16_encode_decode(b: Seq<u8>)
    requires
        b.len() == 2,
    ensures
        u16_be(be_u16(b)) == b,
{
    let x = be_u16(b);
    assert(x == b[0] as int * 0x100 + b[1] as int);
    assert(x / 0x100 == b[0] as int);
    assert(u16_be(x) =~= b);
}

/// Decoding undoes encoding of a 32-bit value.
pub proof fn lemma_be_u32_decode_encode(x: u32)
    ensures
        u32_be(x).len() == 4,
        be_u32(u32_be(x)) == x,
{
    let b = u32_be(x);
    let x0 = x / 0x100_0000;
    let x1 = x / 0x1_0000 % 0x100;
    let x2 = x / 0x100 % 0x100;
    let x3 = x % 0x100;
    assert(x0 * 0x100_0000 + x1 * 0x1_0000 + x2 * 0x100 + x3 == x) by (bit_vector)
        requires
            x0 == x / 0x100_0000,
            x1 == x / 0x1_0000 % 0x100,
            x2 == x / 0x100 % 0x100,
            x3 == x % 0x100,
    ;
    assert(b[0] == x0 && b[1] == x1 && b[2] == x2 && b[3] == x3);
}

/// Encoding undoes decoding of four bytes.
pub proof fn lemma_be_u32_encode_decode(b: Seq<u8>)
    requires
        b.len() == 4,
    ensures
        u32_be(be_u32(b)) == b,
{
    let x = be_u32(b);
    let (b0, b1, b2, b3) = (b[0], b[1], b[2], b[3]);
    assert(x == b0 as int * 0x100_0000 + b1 as int * 0x1_0000 + b2 as int * 0x100 + b3 as int);
    assert(x / 0x100_0000 == b0 as int);
    assert(x / 0x1_0000 == b0 as int * 0x100 + b1 as int);
    assert(x / 0x100 == b0 as int * 0x1_0000 + b1 as int * 0x100 + b2 as int);
    assert(u32_be(x) =~= b);
}

/// Decoding undoes encoding of a 64-bit value.
pub proof fn lemma_be_u64_decode_encode(x: u64)
    ensures
        u64_be(x).len() == 8,
        be_u64(u64_be(x)) == x,
{
    let hi = (x / 0x1_0000_0000) as u32;
    let lo = (x % 0x1_0000_0000) as u32;
    lemma_be_u32_decode_encode(hi);
    lemma_be_u32_decode_encode(lo);
    assert(u64_be(x).subrange(0, 4) =~= u32_be(hi));
    assert(u64_be(x).subrange(4, 8) =~= u32_be(lo));
}

/// Encoding undoes decoding of eight bytes.
pub proof fn lemma_be_u64_encode_decode(b: Seq<u8>)
    requires
        b.len() == 8,
    ensures
        u64_be(be_u64(b)) == b,
{
    let hi = b.subrange(0, 4);
    let lo = b.subrange(4, 8);
    lemma_be_u32_encode_decode(hi);
    lemma_be_u32_encode_decode(lo);
    let x = be_u64(b);
    assert(x == be_u32(hi) as int * 0x1_0000_0000 + be_u32(lo) as int);
    assert(x / 0x1_0000_0000 == be_u32(hi) as int);
    assert(x % 0x1_0000_0000 == be_u32(lo) as int);
    assert(u64_be(x) =~= hi + lo);
    assert(hi + lo =~= b);
}

/// Encodes a 16-bit value, most significant byte first.
pub fn u16_to_be_bytes(x: u16) -> (b: [u8; 2])
    ensures
        b@ == u16_be(x),
{
    let b: [u8; 2] = [(x / 0x100) as u8, (x % 0x100) as u8];
    assert(b@ =~= u16_be(x));
    b
}

/// Decodes a 16-bit value, most significant byte first.
pub fn u16_from_be_bytes(b: [u8; 2]) -> (x: u16)
    ensures
        x == be_u16(b@),
{
    (b[0] as u16) * 0x100 + (b[1] as u16)
}

/// Encodes a 32-bit value, most significant byte first.
pub fn u32_to_be_bytes(x: u32) -> (b: [u8; 4])
    ensures
        b@ == u32_be(x),
{
    let b: [u8; 4] = [
        (x / 0x100_0000) as u8,
        (x / 0x1_0000 % 0x100) as u8,
        (x / 0x100 % 0x100) as u8,
        (x % 0x100) as u8,
    ];
    assert(b@ =~= u32_be(x));
    b
}

/// Decodes a 32-bit value, most significant byte first.
pub fn u32_from_be_bytes(b: [u8; 4]) -> (x: u32)
    ensures
        x == be_u32(b@),
{
    (b[0] as u32) * 0x100_0000 + (b[1] as u32) * 0x1_0000 + (b[2] as u32) * 0x100 + (b[3] as u32)
}

/// Encodes a 64-bit value, most significant byte first.
pub fn u64_to_be_bytes(x: u64) -> (b: [u8; 8])
    ensures
        b@ == u64_be(x),
{
    let hi = u32_to_be_bytes((x / 0x1_0000_0000) as u32);
    let lo = u32_to_be_bytes((x % 0x1_0000_0000) as u32);
    let b: [u8; 8] = [hi[0], hi[1], hi[2], hi[3], lo[0], lo[1], lo[2], lo[3]];
    assert(b@ =~= u64_be(x));
    b
}

/// Decodes a 64-bit value, most significant byte first.
pub fn u64_from_be_bytes(b: [u8; 8]) -> (x: u64)
    ensures
        x == be_u64(b@),
{
    let hi = u32_from_be_bytes([b[0], b[1], b[2], b[3]]);
    let lo = u32_from_be_bytes([b[4], b[5], b[6], b[7]]);
    assert([b[0], b[1], b[2], b[3]]@ =~= b@.subrange(0, 4));
    assert([b[4], b[5], b[6], b[7]]@ =~= b@.subrange(4, 8));
    (hi as u64) * 0x1_0000_0000 + (lo as u64)
}

} // verus!
