//! Byte- and character-level helpers: ASCII case folding, whitespace
//! trimming, and the conversion of raw bytes into text.
//!
//! The wire format is a byte stream, so all parsing decisions are made on
//! bytes; text values handed to the caller are built from those bytes, one
//! character per byte.

use vstd::prelude::*;

verus! {

/// ASCII case folding of one byte: `A`..`Z` map to `a`..`z`.
pub open spec fn lower_byte(b: u8) -> u8 {
    if 65 <= b && b <= 90 {
        (b + 32) as u8
    } else {
        b
    }
}

/// ASCII case folding of one character: `A`..`Z` map to `a`..`z`, every
/// other character is unchanged.
pub open spec fn lower_char(c: char) -> char {
    if 65 <= c as u32 && c as u32 <= 90 {
        ((c as u32) + 32) as char
    } else {
        c
    }
}

/// ASCII case folding of a byte sequence.
pub open spec fn lower_bytes(s: Seq<u8>) -> Seq<u8> {
    s.map_values(|b: u8| lower_byte(b))
}

/// ASCII case folding of a character sequence.
pub open spec fn lower_chars(s: Seq<char>) -> Seq<char> {
    s.map_values(|c: char| lower_char(c))
}

/// The characters denoted by a byte sequence: each byte becomes the
/// character with that code point. No charset decoding is performed.
pub open spec fn decode(s: Seq<u8>) -> Seq<char> {
    s.map_values(|b: u8| b as char)
}

/// Characters read off bytes are already case folded once the bytes are.
pub proof fn lemma_decode_lower_commutes(s: Seq<u8>)
    ensures
        decode(lower_bytes(s)) =~= lower_chars(decode(s)),
{
    assert forall|i: int| 0 <= i < s.len() implies (lower_bytes(s)[i] as char) == lower_char(
        s[i] as char,
    ) by {
        let b = s[i];
        assert(b as char as u32 == b as u32);
        assert(lower_byte(b) as char as u32 == lower_byte(b) as u32);
    }
}

/// Case folding characters is idempotent.
pub proof fn lemma_lower_chars_idempotent(s: Seq<char>)
    ensures
        lower_chars(lower_chars(s)) =~= lower_chars(s),
{
    assert forall|i: int| 0 <= i < s.len() implies lower_char(lower_chars(s)[i]) == lower_chars(
        s,
    )[i] by {
        let c = s[i];
        if 65 <= c as u32 && c as u32 <= 90 {
            assert(lower_char(c) as u32 == c as u32 + 32);
        }
    }
}

/// Case folding bytes is idempotent.
pub proof fn lemma_lower_bytes_idempotent(s: Seq<u8>)
    ensures
        lower_bytes(lower_bytes(s)) =~= lower_bytes(s),
{
    assert forall|i: int| 0 <= i < s.len() implies lower_byte(lower_bytes(s)[i]) == lower_bytes(
        s,
    )[i] by {
        assert(lower_bytes(s)[i] == lower_byte(s[i]));
    }
}

/// Relies on `u8 as char` (each byte maps to the character with the same
/// code point) and on collecting characters into a `String`.
#[verifier::external_body]
pub(crate) fn bytes_to_string(v: &[u8]) -> (r: String)
    ensures
        r@ == decode(v@),
{
    v.iter().map(|&b| b as char).collect()
}

/// Relies on `str::to_ascii_lowercase`: characters `A`..`Z` are mapped to
/// their lowercase counterparts, all other characters are unchanged.
#[verifier::external_body]
pub(crate) fn ascii_lowercase(s: &str) -> (r: String)
    ensures
        r@ == lower_chars(s@),
{
    s.to_ascii_lowercase()
}

/// Case fold a byte sequence.
pub fn lower_bytes_vec(v: &[u8]) -> (r: Vec<u8>)
    ensures
        r@ =~= lower_bytes(v@),
{
    let mut r: Vec<u8> = Vec::new();
    let mut i: usize = 0;
    while i < v.len()
        invariant
            i <= v@.len(),
            r@ =~= lower_bytes(v@.subrange(0, i as int)),
        decreases v@.len() - i,
    {
        let b = v[i];
        if 65 <= b && b <= 90 {
            r.push(b + 32);
        } else {
            r.push(b);
        }
        assert(lower_bytes(v@.subrange(0, i + 1 as int)) =~= lower_bytes(
            v@.subrange(0, i as int),
        ).push(lower_byte(v@[i as int])));
        i = i + 1;
    }
    assert(v@.subrange(0, v@.len() as int) =~= v@);
    r
}

} // verus!
