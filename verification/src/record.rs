//! The record type and the parser that reads one record off the stream.

use vstd::prelude::*;
use vstd::slice::{slice_subrange, slice_to_vec};
use vstd::string::StringExecFns;

use crate::case_string::CaseString;
use crate::error::WarcError;
use crate::header::HeaderMap;
use crate::lines::{find_byte_in, find_line_end, line_end, trim_end_eol_idx, trim_end_ws_idx,
    trim_start_ws_idx};
use crate::text::{bytes_to_string, decode, lower_bytes, lower_bytes_vec,
    lemma_decode_lower_commutes, lemma_lower_chars_idempotent};
use crate::wire::{content_length_key, decode_fields, flush_pending, parse_length,
    lemma_decode_fields_insert, lemma_digits_prefix_le, all_digits, digits_value, length_digits,
    spec_parse, HeaderOutcome, SpecOutcome, SpecRecord, parse_header_lines, crlf, trailer,
    has_version_prefix, version_prefix};

verus! {

/// One WARC record: the version line, the header fields, and the raw
/// content block.
pub struct WarcRecord {
    /// The declared version line (for example `WARC/1.1`), trailing line
    /// terminators removed.
    pub version: String,
    /// The header fields, looked up by case-insensitive name.
    pub header: HeaderMap,
    /// The content block, exactly as long as the declared `Content-Length`.
    pub content: Vec<u8>,
}

impl View for WarcRecord {
    type V = SpecRecord;

    open spec fn view(&self) -> SpecRecord {
        SpecRecord { version: self.version@, headers: self.header@, content: self.content@ }
    }
}

/// How the parser's answer renders what a read of the stream yields: a
/// record together with the exact count of bytes it occupied on the wire,
/// or the error the stream deserved.
pub open spec fn outcome_matches(o: SpecOutcome, r: Result<(WarcRecord, usize), WarcError>) -> bool {
    match o {
        SpecOutcome::Record { rec, len } => r matches Ok(p) && p.0@ == rec && p.1 as int == len,
        SpecOutcome::Malformed { reason } => r matches Err(WarcError::Malformed(m)) && m@
            == reason,
        SpecOutcome::TruncatedInput => r matches Err(WarcError::IO),
        SpecOutcome::EndOfInput => r matches Err(WarcError::EOF),
    }
}

/// The ghost image of the pending (key, value) pair.
pub open spec fn pending_view(p: Option<(Vec<u8>, Vec<u8>)>) -> Option<(Seq<u8>, Seq<u8>)> {
    match p {
        Some(kv) => Some((kv.0@, kv.1@)),
        None => None,
    }
}

/// The exec-side copy of the declared-length value agrees with the
/// accumulated fields.
pub open spec fn cl_inv(cl: Option<Vec<u8>>, acc: Map<Seq<u8>, Seq<u8>>) -> bool {
    match cl {
        Some(v) => acc.contains_key(content_length_key()) && acc[content_length_key()] == v@,
        None => !acc.contains_key(content_length_key()),
    }
}

/// Is this the (normalized) name of the mandatory length header?
fn is_content_length_key(k: &Vec<u8>) -> (r: bool)
    ensures
        r == (k@ == content_length_key()),
{
    if k.len() != 14 {
        proof {
            if k@ == content_length_key() {
                assert(k@.len() == 14);
            }
        }
        return false;
    }
    let ok = k[0] == 99 && k[1] == 111 && k[2] == 110 && k[3] == 116 && k[4] == 101 && k[5] == 110
        && k[6] == 116 && k[7] == 45 && k[8] == 108 && k[9] == 101 && k[10] == 110 && k[11] == 103
        && k[12] == 116 && k[13] == 104;
    proof {
        if ok {
            assert(k@ =~= content_length_key());
        }
    }
    ok
}

/// Fold the pending pair into the header map, remembering the value of the
/// length header as bytes.
fn flush_into(
    hm: &mut HeaderMap,
    cl_val: &mut Option<Vec<u8>>,
    pending: Option<(Vec<u8>, Vec<u8>)>,
    Ghost(acc): Ghost<Map<Seq<u8>, Seq<u8>>>,
)
    requires
        old(hm)@ == decode_fields(acc),
        cl_inv(*old(cl_val), acc),
        pending matches Some(kv) ==> lower_bytes(kv.0@) == kv.0@,
    ensures
        final(hm)@ == decode_fields(flush_pending(pending_view(pending), acc)),
        cl_inv(*final(cl_val), flush_pending(pending_view(pending), acc)),
{
    match pending {
        Some((kb, vb)) => {
            let vstr = bytes_to_string(vb.as_slice());
            let kstr = bytes_to_string(kb.as_slice());
            proof {
                lemma_decode_lower_commutes(kb@);
                lemma_lower_chars_idempotent(decode(kb@));
                lemma_decode_fields_insert(acc, kb@, vb@);
            }
            if is_content_length_key(&kb) {
                *cl_val = Some(vb);
            }
            let key = CaseString::from(kstr.as_str());
            assert(key@ == decode(kb@));
            hm.insert(key, vstr);
        },
        None => {},
    }
}

/// Read a declared length: one optional plus sign, then decimal digits,
/// rejected when empty, non-numeric, or too large for the machine.
#[verifier::loop_isolation(false)]
fn read_length(v: &Vec<u8>) -> (r: Option<usize>)
    ensures
        match r {
            Some(u) => parse_length(v@) == Some(u as int),
            None => parse_length(v@) is None,
        },
{
    let n = v.len();
    let mut i: usize = 0;
    if n > 0 && v[0] == 43 {
        i = 1;
    }
    let ghost d = length_digits(v@);
    proof {
        assert(d =~= v@.subrange(i as int, n as int));
    }
    if i == n {
        return None;
    }
    let start = i;
    let mut acc: usize = 0;
    while i < n
        invariant
            start <= i <= n,
            n == v@.len(),
            d =~= v@.subrange(start as int, n as int),
            all_digits(d.subrange(0, i - start)),
            acc as int == digits_value(d.subrange(0, i - start)),
        decreases n - i,
    {
        let b = v[i];
        proof {
            assert(d[i - start] == v@[i as int]);
        }
        if !(48 <= b && b <= 57) {
            assert(!all_digits(d));
            return None;
        }
        let digit = (b - 48) as usize;
        let limit = (usize::MAX - digit) / 10;
        proof {
            let p = d.subrange(0, i - start);
            let q = d.subrange(0, i - start + 1);
            assert(q.drop_last() =~= p);
            assert(digits_value(q) == digits_value(p) * 10 + digit);
        }
        if acc > limit {
            proof {
                let q = d.subrange(0, i - start + 1);
                assert(acc as int * 10 + digit > usize::MAX as int) by (nonlinear_arith)
                    requires
                        acc as int > (usize::MAX as int - digit) / 10,
                        0 <= digit <= 9,
                        usize::MAX as int >= 9,
                ;
                if all_digits(d) {
                    lemma_digits_prefix_le(d, i - start + 1);
                    assert(digits_value(d) > usize::MAX as int);
                }
            }
            return None;
        }
        proof {
            assert(acc as int * 10 + digit <= usize::MAX as int) by (nonlinear_arith)
                requires
                    acc as int <= (usize::MAX as int - digit) / 10,
                    0 <= digit <= 9,
            ;
        }
        acc = acc * 10 + digit;
        i = i + 1;
    }
    proof {
        assert(d.subrange(0, (n - start) as int) =~= d);
    }
    Some(acc)
}

impl WarcRecord {
    /// Read one record beginning at `pos`, yielding the record and the
    /// exact number of stream bytes it occupied, or the error the stream
    /// deserved: `EOF` when no byte is left, `Malformed` for a structural
    /// violation, `IO` when the stream ends inside content or trailer.
    /// The answer is exactly what the wire grammar says of `input` at
    /// `pos`.
    pub fn parse(input: &[u8], pos: usize) -> (r: Result<(WarcRecord, usize), WarcError>)
        requires
            pos <= input@.len(),
        ensures
            outcome_matches(spec_parse(input@, pos as int), r),
    {
        let n = input.len();
        if pos == n {
            return Err(WarcError::EOF);
        }
        let ve = find_line_end(input, pos);
        let vend = trim_end_eol_idx(input, pos, ve);
        let ghost vline = input@.subrange(pos as int, vend as int);

        let version_ok = vend - pos >= 7 && input[pos] == 87 && input[pos + 1] == 65 && input[pos
            + 2] == 82 && input[pos + 3] == 67 && input[pos + 4] == 47 && input[pos + 5] == 49
            && input[pos + 6] == 46;
        proof {
            if version_ok {
                assert(vline.subrange(0, 7) =~= version_prefix());
            } else if has_version_prefix(vline) {
                assert(vline.subrange(0, 7) == version_prefix());
                assert(vline[0] == 87 && vline[1] == 65 && vline[2] == 82 && vline[3] == 67
                    && vline[4] == 47 && vline[5] == 49 && vline[6] == 46);
                assert(false);
            }
        }
        if !version_ok {
            return Err(WarcError::Malformed(String::from_str("Unknown WARC version")));
        }

        let mut hm = HeaderMap::new();
        let mut cl_val: Option<Vec<u8>> = None;
        let mut pending: Option<(Vec<u8>, Vec<u8>)> = None;
        let ghost mut acc: Map<Seq<u8>, Seq<u8>> = Map::empty();
        let mut cur: usize = ve;
        let mut end_pos: usize = 0;
        loop
            invariant_except_break
                ve <= cur <= n,
                n == input@.len(),
                pos < n,
                pos as int <= ve,
                ve == line_end(input@, pos as int),
                vline == crate::lines::trim_end_eol(input@.subrange(pos as int, ve as int)),
                has_version_prefix(vline),
                parse_header_lines(input@, ve as int, None, Map::empty()) == parse_header_lines(
                    input@,
                    cur as int,
                    pending_view(pending),
                    acc,
                ),
                hm@ == decode_fields(acc),
                cl_inv(cl_val, acc),
                pending matches Some(kv) ==> lower_bytes(kv.0@) == kv.0@,
            ensures
                ve <= end_pos <= n,
                n == input@.len(),
                parse_header_lines(input@, ve as int, None, Map::empty())
                    == (HeaderOutcome::Fields { fields: acc, end: end_pos as int }),
                hm@ == decode_fields(acc),
                cl_inv(cl_val, acc),
            decreases n - cur,
        {
            if cur == n {
                return Err(WarcError::Malformed(String::from_str("Invalid header field")));
            }
            let le = find_line_end(input, cur);
            let ghost line = input@.subrange(cur as int, le as int);
            if le - cur == 2 && input[cur] == 13 && input[cur + 1] == 10 {
                proof {
                    assert(line =~= crlf());
                }
                let ghost pv = pending_view(pending);
                flush_into(&mut hm, &mut cl_val, pending, Ghost(acc));
                proof {
                    acc = flush_pending(pv, acc);
                }
                end_pos = le;
                break ;
            }
            proof {
                if line == crlf() {
                    assert(line.len() == 2 && line[0] == 13 && line[1] == 10);
                    assert(false);
                }
            }
            let te = trim_end_ws_idx(input, cur, le);
            let ghost t = input@.subrange(cur as int, te as int);
            if te > cur && (input[cur] == 32 || input[cur] == 9) {
                match &mut pending {
                    Some(kv) => {
                        let ghost oldval = kv.1@;
                        kv.1.push(10);
                        let vs = trim_start_ws_idx(input, cur, te);
                        kv.1.extend_from_slice(slice_subrange(input, vs, te));
                        proof {
                            assert(kv.1@ =~= oldval + seq![10u8] + crate::lines::trim_start_ws(t));
                        }
                        cur = le;
                    },
                    None => {
                        return Err(WarcError::Malformed(
                            String::from_str("Invalid header block"),
                        ));
                    },
                }
            } else {
                let ghost pv = pending_view(pending);
                flush_into(&mut hm, &mut cl_val, pending, Ghost(acc));
                proof {
                    acc = flush_pending(pv, acc);
                }
                match find_byte_in(input, cur, te, 58) {
                    Some(ci) => {
                        let ke = trim_end_ws_idx(input, cur, ci);
                        let ks = trim_start_ws_idx(input, cur, ke);
                        let key = lower_bytes_vec(slice_subrange(input, ks, ke));
                        let vte = trim_end_ws_idx(input, ci + 1, te);
                        let vs = trim_start_ws_idx(input, ci + 1, vte);
                        let val = slice_to_vec(slice_subrange(input, vs, vte));
                        proof {
                            let ci_rel = ci - cur;
                            assert(t.subrange(0, ci_rel) =~= input@.subrange(
                                cur as int,
                                ci as int,
                            ));
                            assert(t.subrange(ci_rel + 1, t.len() as int) =~= input@.subrange(
                                ci + 1,
                                te as int,
                            ));
                            crate::text::lemma_lower_bytes_idempotent(
                                crate::lines::trim_ws(t.subrange(0, ci_rel)),
                            );
                        }
                        pending = Some((key, val));
                        cur = le;
                    },
                    None => {
                        return Err(WarcError::Malformed(
                            String::from_str("Invalid header field"),
                        ));
                    },
                }
            }
        }

        let end = end_pos;
        match cl_val {
            None => Err(WarcError::Malformed(String::from_str("Content-Length is missing"))),
            Some(v) => {
                match read_length(&v) {
                    None => Err(WarcError::Malformed(
                        String::from_str("Content-Length is not a number"),
                    )),
                    Some(clen) => {
                        if clen > n - end || n - end - clen < 4 {
                            return Err(WarcError::IO);
                        }
                        let cstart = end;
                        let cend = end + clen;
                        let trailer_ok = input[cend] == 13 && input[cend + 1] == 10 && input[cend
                            + 2] == 13 && input[cend + 3] == 10;
                        proof {
                            let tr = input@.subrange(cend as int, cend + 4);
                            if trailer_ok {
                                assert(tr =~= trailer());
                            } else if tr == trailer() {
                                assert(tr[0] == 13 && tr[1] == 10 && tr[2] == 13 && tr[3] == 10);
                                assert(false);
                            }
                        }
                        if !trailer_ok {
                            return Err(WarcError::Malformed(
                                String::from_str("No double linefeed after record content"),
                            ));
                        }
                        let content = slice_to_vec(slice_subrange(input, cstart, cend));
                        let version = bytes_to_string(slice_subrange(input, pos, vend));
                        let record = WarcRecord { version, header: hm, content };
                        Ok((record, cend + 4 - pos))
                    },
                }
            },
        }
    }
}

} // verus!

