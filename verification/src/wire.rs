//! The record grammar, stated over the raw byte stream.
//!
//! A record is one version line, a block of header lines closed by an exact
//! CRLF line, a content block of the declared length, and a four-byte
//! trailer. These functions define what one attempt to read a record at a
//! given position of the stream yields, and are the specification that the
//! executable parser is proved against.

use vstd::prelude::*;

use crate::lines::{find_byte, line_end, trim_end_eol, trim_end_ws, trim_start_ws, trim_ws};
use crate::lines::lemma_line_end_bounds;
use crate::text::{decode, lower_bytes};

verus! {

/// A decimal digit byte.
pub open spec fn is_digit(b: u8) -> bool {
    48 <= b && b <= 57
}

/// The number a digit string denotes, most significant digit first.
pub open spec fn digits_value(v: Seq<u8>) -> int
    decreases v.len(),
{
    if v.len() == 0 {
        0
    } else {
        digits_value(v.drop_last()) * 10 + (v.last() - 48)
    }
}

pub open spec fn all_digits(v: Seq<u8>) -> bool {
    forall|i: int| 0 <= i < v.len() ==> is_digit(v[i])
}

/// The digit part of a declared length: one leading plus sign is accepted.
pub open spec fn length_digits(v: Seq<u8>) -> Seq<u8> {
    if v.len() > 0 && v[0] == 43 {
        v.drop_first()
    } else {
        v
    }
}

/// The length a header value declares: a non-negative decimal integer that
/// fits the machine's size type, or nothing when the value is not numeric.
pub open spec fn parse_length(v: Seq<u8>) -> Option<int> {
    let d = length_digits(v);
    if d.len() > 0 && all_digits(d) && digits_value(d) <= usize::MAX as int {
        Some(digits_value(d))
    } else {
        None
    }
}

pub proof fn lemma_digits_value_nonneg(v: Seq<u8>)
    requires
        all_digits(v),
    ensures
        digits_value(v) >= 0,
    decreases v.len(),
{
    if v.len() > 0 {
        assert(all_digits(v.drop_last()));
        lemma_digits_value_nonneg(v.drop_last());
    }
}

/// A digit string is worth at least any of its prefixes.
pub proof fn lemma_digits_prefix_le(v: Seq<u8>, i: int)
    requires
        all_digits(v),
        0 <= i <= v.len(),
    ensures
        digits_value(v.subrange(0, i)) <= digits_value(v),
    decreases v.len() - i,
{
    if i < v.len() {
        lemma_digits_prefix_le(v, i + 1);
        let p = v.subrange(0, i);
        let q = v.subrange(0, i + 1);
        assert(q.drop_last() =~= p);
        assert(all_digits(p));
        lemma_digits_value_nonneg(p);
    } else {
        assert(v.subrange(0, i) =~= v);
    }
}

/// The exact line that closes a header block.
pub open spec fn crlf() -> Seq<u8> {
    seq![13u8, 10u8]
}

/// The mandatory separator after a record's content.
pub open spec fn trailer() -> Seq<u8> {
    seq![13u8, 10u8, 13u8, 10u8]
}

/// The required start of a version line, the bytes of `WARC/1.`.
pub open spec fn version_prefix() -> Seq<u8> {
    seq![87u8, 65u8, 82u8, 67u8, 47u8, 49u8, 46u8]
}

pub open spec fn has_version_prefix(v: Seq<u8>) -> bool {
    v.len() >= 7 && v.subrange(0, 7) == version_prefix()
}

/// The normalized name of the mandatory length header, as bytes.
pub open spec fn content_length_key() -> Seq<u8> {
    seq![99u8, 111u8, 110u8, 116u8, 101u8, 110u8, 116u8, 45u8, 108u8, 101u8, 110u8, 103u8, 116u8, 104u8]
}

/// What reading the header block yields.
pub ghost enum HeaderOutcome {
    /// The block was closed by an exact CRLF line; `fields` maps each
    /// normalized key to its value and `end` is the position after the
    /// closing line.
    Fields { fields: Map<Seq<u8>, Seq<u8>>, end: int },
    /// A continuation line arrived with no field to continue.
    BadBlock,
    /// A field line without a colon, or the stream ended inside the block.
    BadField,
}

/// Fold a pending (key, value) pair into the accumulated fields.
pub open spec fn flush_pending(
    pending: Option<(Seq<u8>, Seq<u8>)>,
    acc: Map<Seq<u8>, Seq<u8>>,
) -> Map<Seq<u8>, Seq<u8>> {
    match pending {
        Some(kv) => acc.insert(kv.0, kv.1),
        None => acc,
    }
}

/// Read header lines from `pos` until the closing CRLF line.
///
/// Each field line is split at its first colon into a key (lowercased) and
/// a value, both trimmed; a line that begins with space or tab continues
/// the pending field's value with a newline and the trimmed remainder. The
/// pending pair is flushed when the next field starts and when the block
/// closes, so a later write to the same key wins.
pub open spec fn parse_header_lines(
    s: Seq<u8>,
    pos: int,
    pending: Option<(Seq<u8>, Seq<u8>)>,
    acc: Map<Seq<u8>, Seq<u8>>,
) -> HeaderOutcome
    decreases s.len() - pos
        when 0 <= pos <= s.len()
        via parse_header_lines_dec
{
    if pos >= s.len() {
        HeaderOutcome::BadField
    } else {
        let e = line_end(s, pos);
        let line = s.subrange(pos, e);
        if line == crlf() {
            HeaderOutcome::Fields { fields: flush_pending(pending, acc), end: e }
        } else {
            let t = trim_end_ws(line);
            if t.len() > 0 && (t[0] == 32 || t[0] == 9) {
                match pending {
                    Some(kv) => parse_header_lines(
                        s,
                        e,
                        Some((kv.0, kv.1 + seq![10u8] + trim_start_ws(t))),
                        acc,
                    ),
                    None => HeaderOutcome::BadBlock,
                }
            } else {
                let acc2 = flush_pending(pending, acc);
                match find_byte(t, 58) {
                    Some(ci) => {
                        let key = lower_bytes(trim_ws(t.subrange(0, ci)));
                        let val = trim_ws(t.subrange(ci + 1, t.len() as int));
                        parse_header_lines(s, e, Some((key, val)), acc2)
                    },
                    None => HeaderOutcome::BadField,
                }
            }
        }
    }
}

#[via_fn]
proof fn parse_header_lines_dec(
    s: Seq<u8>,
    pos: int,
    pending: Option<(Seq<u8>, Seq<u8>)>,
    acc: Map<Seq<u8>, Seq<u8>>,
) {
    if 0 <= pos <= s.len() && pos < s.len() {
        lemma_line_end_bounds(s, pos);
    }
}

/// A header block that closes does so past its starting position and
/// within the stream.
pub proof fn lemma_header_lines_end_bounds(
    s: Seq<u8>,
    pos: int,
    pending: Option<(Seq<u8>, Seq<u8>)>,
    acc: Map<Seq<u8>, Seq<u8>>,
)
    requires
        0 <= pos <= s.len(),
    ensures
        parse_header_lines(s, pos, pending, acc) matches HeaderOutcome::Fields { end, .. } ==> pos
            < end <= s.len(),
    decreases s.len() - pos,
{
    if pos < s.len() {
        lemma_line_end_bounds(s, pos);
        let e = line_end(s, pos);
        let line = s.subrange(pos, e);
        if line == crlf() {
        } else {
            let t = trim_end_ws(line);
            if t.len() > 0 && (t[0] == 32 || t[0] == 9) {
                match pending {
                    Some(kv) => {
                        lemma_header_lines_end_bounds(
                            s,
                            e,
                            Some((kv.0, kv.1 + seq![10u8] + trim_start_ws(t))),
                            acc,
                        );
                    },
                    None => {},
                }
            } else {
                match find_byte(t, 58) {
                    Some(ci) => {
                        let key = lower_bytes(trim_ws(t.subrange(0, ci)));
                        let val = trim_ws(t.subrange(ci + 1, t.len() as int));
                        lemma_header_lines_end_bounds(
                            s,
                            e,
                            Some((key, val)),
                            flush_pending(pending, acc),
                        );
                    },
                    None => {},
                }
            }
        }
    }
}

/// The characters denoted by a byte-keyed field map: every key and value
/// is read as text, one character per byte.
pub open spec fn str_bytes(s: Seq<char>) -> Seq<u8> {
    s.map_values(|c: char| (c as u32) as u8)
}

pub open spec fn decode_fields(m: Map<Seq<u8>, Seq<u8>>) -> Map<Seq<char>, Seq<char>> {
    Map::new(
        |k: Seq<char>|
            (forall|i: int| 0 <= i < k.len() ==> (k[i] as u32) < 256) && m.contains_key(
                str_bytes(k),
            ),
        |k: Seq<char>| decode(m[str_bytes(k)]),
    )
}

/// Reading bytes as text loses nothing: the bytes can be read back off the
/// characters.
pub proof fn lemma_str_bytes_decode(b: Seq<u8>)
    ensures
        str_bytes(decode(b)) =~= b,
        forall|i: int| 0 <= i < decode(b).len() ==> (decode(b)[i] as u32) < 256,
{
    assert forall|i: int| 0 <= i < b.len() implies ((b[i] as char) as u32) as u8 == b[i] && ((b[i]
        as char) as u32) < 256 by {
        let v = b[i];
        assert(v as char as u32 == v as u32);
        assert((v as u32) as u8 == v) by (bit_vector);
    }
}

/// Text whose characters fit one byte each reads back to the bytes it came
/// from.
pub proof fn lemma_decode_str_bytes(k: Seq<char>)
    requires
        forall|i: int| 0 <= i < k.len() ==> (k[i] as u32) < 256,
    ensures
        decode(str_bytes(k)) =~= k,
{
    assert forall|i: int| 0 <= i < k.len() implies ((k[i] as u32) as u8) as char == k[i] by {
        let c = k[i];
        let u = c as u32;
        assert(u < 256);
        assert((u as u8) as u32 == u) by (bit_vector)
            requires
                u < 256,
        ;
        let w = (u as u8) as char;
        assert(w as u32 == (u as u8) as u32);
        vstd::utf8::char_u32_cast(c, u);
        vstd::utf8::char_u32_cast(w, u);
    }
}

/// Reading a field map as text commutes with writing one field.
pub proof fn lemma_decode_fields_insert(m: Map<Seq<u8>, Seq<u8>>, kb: Seq<u8>, vb: Seq<u8>)
    ensures
        decode_fields(m.insert(kb, vb)) =~= decode_fields(m).insert(decode(kb), decode(vb)),
{
    lemma_str_bytes_decode(kb);
    lemma_str_bytes_decode(vb);
    assert forall|k: Seq<char>|
        (forall|i: int| 0 <= i < k.len() ==> (k[i] as u32) < 256) && str_bytes(k)
            == kb implies k =~= decode(kb) by {
        lemma_decode_str_bytes(k);
    }
}

/// What one attempt to read a record yields.
pub ghost enum SpecOutcome {
    /// A well-formed record; `len` is its full on-wire length, from the
    /// first byte of the version line to the last trailer byte.
    Record { rec: SpecRecord, len: int },
    /// A structural violation, with its reason.
    Malformed { reason: Seq<char> },
    /// The stream ended inside the content block or the trailer.
    TruncatedInput,
    /// The stream was already at its end: no record data at all.
    EndOfInput,
}

/// The parsed form of one record.
pub ghost struct SpecRecord {
    /// The version line, trailing line terminators removed.
    pub version: Seq<char>,
    /// The header fields, keyed by normalized (lowercased) name.
    pub headers: Map<Seq<char>, Seq<char>>,
    /// The content block, exactly as long as the declared length.
    pub content: Seq<u8>,
}

/// Read one record at `pos`: the version line, the header block, the
/// declared amount of content, and the trailer, in that order. Every
/// failure is attributed: a version line that does not start with
/// `WARC/1.`, a broken header block, a missing or non-numeric declared
/// length, a stream too short for content or trailer, or trailer bytes
/// that are not CR LF CR LF.
pub open spec fn spec_parse(s: Seq<u8>, pos: int) -> SpecOutcome
    recommends
        0 <= pos <= s.len(),
{
    if pos >= s.len() {
        SpecOutcome::EndOfInput
    } else {
        let ve = line_end(s, pos);
        let vline = trim_end_eol(s.subrange(pos, ve));
        if !has_version_prefix(vline) {
            SpecOutcome::Malformed { reason: "Unknown WARC version"@ }
        } else {
            match parse_header_lines(s, ve, None, Map::empty()) {
                HeaderOutcome::BadBlock => SpecOutcome::Malformed {
                    reason: "Invalid header block"@,
                },
                HeaderOutcome::BadField => SpecOutcome::Malformed {
                    reason: "Invalid header field"@,
                },
                HeaderOutcome::Fields { fields, end } => {
                    if !fields.contains_key(content_length_key()) {
                        SpecOutcome::Malformed { reason: "Content-Length is missing"@ }
                    } else {
                        match parse_length(fields[content_length_key()]) {
                            None => SpecOutcome::Malformed {
                                reason: "Content-Length is not a number"@,
                            },
                            Some(n) => {
                                if end + n + 4 > s.len() {
                                    SpecOutcome::TruncatedInput
                                } else if s.subrange(end + n, end + n + 4) == trailer() {
                                    SpecOutcome::Record {
                                        rec: SpecRecord {
                                            version: decode(vline),
                                            headers: decode_fields(fields),
                                            content: s.subrange(end, end + n),
                                        },
                                        len: end + n + 4 - pos,
                                    }
                                } else {
                                    SpecOutcome::Malformed {
                                        reason: "No double linefeed after record content"@,
                                    }
                                }
                            },
                        }
                    }
                },
            }
        }
    }
}

/// A successful read consumes exactly the record's on-wire extent: a
/// positive number of bytes that ends with the content block followed by
/// the four trailer bytes, all within the stream.
pub proof fn lemma_record_extent(s: Seq<u8>, pos: int)
    requires
        0 <= pos <= s.len(),
        spec_parse(s, pos) is Record,
    ensures
        spec_parse(s, pos) matches SpecOutcome::Record { rec, len } ==> {
            &&& 0 < len
            &&& pos + len <= s.len()
            &&& rec.content.len() <= len - 4
            &&& rec.content =~= s.subrange(pos + len - 4 - rec.content.len(), pos + len - 4)
            &&& s.subrange(pos + len - 4, pos + len) == trailer()
        },
{
    let ve = line_end(s, pos);
    lemma_line_end_bounds(s, pos);
    match parse_header_lines(s, ve, None, Map::empty()) {
        HeaderOutcome::Fields { fields, end } => {
            lemma_header_lines_end_bounds(s, ve, None, Map::empty());
            match parse_length(fields[content_length_key()]) {
                Some(n) => {
                    let d = length_digits(fields[content_length_key()]);
                    lemma_digits_value_nonneg(d);
                },
                None => {},
            }
        },
        _ => {},
    }
}

} // verus!
