//! UTF-16, the encoding of entry names in an archive.

use std::string::FromUtf16Error;
use vstd::prelude::*;

verus! {

/// The code units of one character: itself where it fits in 16 bits, else a
/// high and a low surrogate that share the 20 bits above `0x10000`.
pub open spec fn char_units(c: char) -> Seq<u16> {
    let v = c as int;
    if v < 0x1_0000 {
        seq![v as u16]
    } else {
        seq![(0xD800 + (v - 0x1_0000) / 0x400) as u16, (0xDC00 + (v - 0x1_0000) % 0x400) as u16]
    }
}

/// The UTF-16 encoding of a text: the code units of its characters, in
/// order.
pub open spec fn utf16_encode(s: Seq<char>) -> Seq<u16>
    decreases s.len(),
{
    if s.len() == 0 {
        Seq::empty()
    } else {
        utf16_encode(s.drop_last()) + char_units(s.last())
    }
}

/// Whether the code units are the encoding of some text.
pub open spec fn utf16_valid(units: Seq<u16>) -> bool {
    exists|s: Seq<char>| #[trigger] utf16_encode(s) == units
}

/// The text that the code units encode, where they encode one.
pub open spec fn utf16_decode(units: Seq<u16>) -> Seq<char>
    recommends
        utf16_valid(units),
{
    choose|s: Seq<char>| #[trigger] utf16_encode(s) == units
}

/// Whether a code unit is the second half of a surrogate pair.
pub open spec fn is_low_surrogate(u: u16) -> bool {
    0xDC00 <= u <= 0xDFFF
}

/// A character has one code unit or two, and only the second of two is a
/// low surrogate.
pub proof fn lemma_char_units(c: char)
    ensures
        char_units(c).len() == 1 || char_units(c).len() == 2,
        char_units(c).len() == 1 ==> !is_low_surrogate(char_units(c)[0]),
        char_units(c).len() == 2 ==> is_low_surrogate(char_units(c)[1]) && !is_low_surrogate(
            char_units(c)[0],
        ),
        is_low_surrogate(char_units(c).last()) <==> char_units(c).len() == 2,
        char_units(c).len() == 1 ==> char_units(c)[0] as int == c as int,
{
}

/// Two characters with the same code units are the same character.
pub proof fn lemma_char_units_injective(a: char, b: char)
    requires
        char_units(a) == char_units(b),
    ensures
        a == b,
{
    let va = a as int;
    let vb = b as int;
    if va < 0x1_0000 {
        assert(char_units(a).len() == 1);
        assert(char_units(a)[0] == va);
        assert(char_units(b)[0] == vb);
    } else {
        assert(char_units(a).len() == 2);
        assert(char_units(b).len() == 2);
        let xa = va - 0x1_0000;
        let xb = vb - 0x1_0000;
        assert(char_units(a)[0] == 0xD800 + xa / 0x400);
        assert(char_units(b)[0] == 0xD800 + xb / 0x400);
        assert(char_units(a)[1] == 0xDC00 + xa % 0x400);
        assert(char_units(b)[1] == 0xDC00 + xb % 0x400);
        assert(xa == xb);
    }
}

/// The encoding of two texts in a row is their encodings in a row.
pub proof fn lemma_utf16_concat(a: Seq<char>, b: Seq<char>)
    ensures
        utf16_encode(a + b) == utf16_encode(a) + utf16_encode(b),
    decreases b.len(),
{
    if b.len() == 0 {
        assert(a + b =~= a);
        assert(utf16_encode(a) + utf16_encode(b) =~= utf16_encode(a));
    } else {
        lemma_utf16_concat(a, b.drop_last());
        assert((a + b).drop_last() =~= a + b.drop_last());
        assert((a + b).last() == b.last());
        assert(utf16_encode(a + b) =~= utf16_encode(a) + utf16_encode(b));
    }
}

/// A text has at least as many code units as characters, so the empty
/// encoding is that of the empty text.
pub proof fn lemma_utf16_len(s: Seq<char>)
    ensures
        s.len() <= utf16_encode(s).len() <= 2 * s.len(),
    decreases s.len(),
{
    if s.len() > 0 {
        lemma_utf16_len(s.drop_last());
        lemma_char_units(s.last());
    }
}

/// Two texts with the same encoding are the same text.
pub proof fn lemma_utf16_injective(a: Seq<char>, b: Seq<char>)
    requires
        utf16_encode(a) == utf16_encode(b),
    ensures
        a == b,
    decreases a.len(),
{
    lemma_utf16_len(a);
    lemma_utf16_len(b);
    if a.len() == 0 || b.len() == 0 {
        assert(a =~= b);
    } else {
        let ua = char_units(a.last());
        let ub = char_units(b.last());
        let pa = utf16_encode(a.drop_last());
        let pb = utf16_encode(b.drop_last());
        let whole = utf16_encode(a);
        lemma_char_units(a.last());
        lemma_char_units(b.last());
        assert(whole == pa + ua);
        assert(whole == pb + ub);
        assert(whole.last() == ua.last());
        assert(whole.last() == ub.last());
        assert(ua.len() == ub.len());
        assert(ua =~= whole.subrange(whole.len() - ua.len(), whole.len() as int));
        assert(ub =~= whole.subrange(whole.len() - ub.len(), whole.len() as int));
        assert(pa =~= whole.subrange(0, whole.len() - ua.len()));
        assert(pb =~= whole.subrange(0, whole.len() - ub.len()));
        lemma_char_units_injective(a.last(), b.last());
        lemma_utf16_injective(a.drop_last(), b.drop_last());
        assert(a =~= a.drop_last().push(a.last()));
        assert(b =~= b.drop_last().push(b.last()));
    }
}

/// Decoding the encoding of a text gives the text back.
pub proof fn lemma_utf16_decode_encode(s: Seq<char>)
    ensures
        utf16_valid(utf16_encode(s)),
        utf16_decode(utf16_encode(s)) == s,
{
    lemma_utf16_injective(utf16_decode(utf16_encode(s)), s);
}

/// `std::string::FromUtf16Error`, the error of `String::from_utf16`. It is
/// carried through and never looked into.
#[verifier::external_type_specification]
#[verifier::external_body]
pub struct ExFromUtf16Error(FromUtf16Error);

/// `String::from_utf16`: the text whose UTF-16 encoding the code units are,
/// or an error where they are the encoding of no text (a surrogate without
/// its partner). This is taken on trust from the documentation of the
/// standard library.
#[verifier::external_body]
pub(crate) fn string_from_utf16(units: &[u16]) -> (r: Result<String, FromUtf16Error>)
    ensures
        match r {
            Ok(s) => utf16_encode(s@) == units@,
            Err(_) => !utf16_valid(units@),
        },
{
    String::from_utf16(units)
}

/// `str::encode_utf16`, collected: the code units of the text's UTF-16
/// encoding, in order. This is taken on trust from the documentation of the
/// standard library.
#[verifier::external_body]
pub(crate) fn str_encode_utf16(s: &str) -> (units: Vec<u16>)
    ensures
        units@ == utf16_encode(s@),
{
    s.encode_utf16().collect()
}

} // verus!
