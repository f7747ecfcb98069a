//! Line-oriented views of a byte stream: finding the end of the current
//! line, trimming whitespace, and locating a separator byte.

use vstd::prelude::*;

verus! {

/// An ASCII whitespace byte: space, tab, or one of the line-control bytes.
pub open spec fn is_ws(b: u8) -> bool {
    b == 32 || (9 <= b && b <= 13)
}

/// The position one past the first line feed at or after `pos`, or the end
/// of the stream when no line feed follows. The bytes `s[pos..line_end]`
/// are what one read of a line consumes.
pub open spec fn line_end(s: Seq<u8>, pos: int) -> int
    decreases s.len() - pos when 0 <= pos <= s.len()
{
    if pos >= s.len() {
        pos
    } else if s[pos] == 10 {
        pos + 1
    } else {
        line_end(s, pos + 1)
    }
}

pub proof fn lemma_line_end_bounds(s: Seq<u8>, pos: int)
    requires
        0 <= pos <= s.len(),
    ensures
        pos <= line_end(s, pos) <= s.len(),
        pos < s.len() ==> pos < line_end(s, pos),
    decreases s.len() - pos,
{
    if pos < s.len() && s[pos] != 10 {
        lemma_line_end_bounds(s, pos + 1);
    }
}

/// A byte sequence with its trailing whitespace removed.
pub open spec fn trim_end_ws(l: Seq<u8>) -> Seq<u8>
    decreases l.len(),
{
    if l.len() > 0 && is_ws(l.last()) {
        trim_end_ws(l.drop_last())
    } else {
        l
    }
}

/// A byte sequence with its leading whitespace removed.
pub open spec fn trim_start_ws(l: Seq<u8>) -> Seq<u8>
    decreases l.len(),
{
    if l.len() > 0 && is_ws(l.first()) {
        trim_start_ws(l.drop_first())
    } else {
        l
    }
}

/// A byte sequence with whitespace removed from both ends.
pub open spec fn trim_ws(l: Seq<u8>) -> Seq<u8> {
    trim_start_ws(trim_end_ws(l))
}

/// A byte sequence with its trailing line terminators removed.
pub open spec fn trim_end_eol(l: Seq<u8>) -> Seq<u8>
    decreases l.len(),
{
    if l.len() > 0 && (l.last() == 10 || l.last() == 13) {
        trim_end_eol(l.drop_last())
    } else {
        l
    }
}

/// The first position of byte `b` in `l`, if any.
pub open spec fn find_byte(l: Seq<u8>, b: u8) -> Option<int>
    decreases l.len(),
{
    if l.len() == 0 {
        None
    } else if l.first() == b {
        Some(0int)
    } else {
        match find_byte(l.drop_first(), b) {
            Some(i) => Some(i + 1),
            None => None,
        }
    }
}

pub proof fn lemma_find_byte_spec(l: Seq<u8>, b: u8)
    ensures
        match find_byte(l, b) {
            Some(i) => 0 <= i < l.len() && l[i] == b && forall|j: int| 0 <= j < i ==> l[j] != b,
            None => forall|j: int| 0 <= j < l.len() ==> l[j] != b,
        },
    decreases l.len(),
{
    if l.len() > 0 && l.first() != b {
        let t = l.drop_first();
        lemma_find_byte_spec(t, b);
        assert(forall|j: int| 0 <= j < t.len() ==> t[j] == l[j + 1]);
        match find_byte(t, b) {
            Some(i) => {
                assert(find_byte(l, b) == Some(i + 1));
                assert forall|j: int| 0 <= j < i + 1 implies l[j] != b by {
                    if j > 0 {
                        assert(t[j - 1] != b);
                    }
                }
            },
            None => {
                assert forall|j: int| 0 <= j < l.len() implies l[j] != b by {
                    if j > 0 {
                        assert(t[j - 1] != b);
                    }
                }
            },
        }
    }
}

/// Find the end of the line that starts at `pos`.
pub fn find_line_end(input: &[u8], pos: usize) -> (r: usize)
    requires
        pos <= input@.len(),
    ensures
        r == line_end(input@, pos as int),
        pos <= r <= input@.len(),
        pos < input@.len() ==> pos < r,
{
    let n = input.len();
    let mut i: usize = pos;
    loop
        invariant
            pos <= i <= n,
            n == input@.len(),
            line_end(input@, pos as int) == line_end(input@, i as int),
        decreases n - i,
    {
        if i == n {
            proof {
                lemma_line_end_bounds(input@, pos as int);
            }
            return i;
        }
        if input[i] == 10 {
            proof {
                lemma_line_end_bounds(input@, pos as int);
            }
            return i + 1;
        }
        i = i + 1;
    }
}

/// Position after the last trailing whitespace byte of the window `[a, b)`.
pub fn trim_end_ws_idx(input: &[u8], a: usize, b: usize) -> (r: usize)
    requires
        a <= b <= input@.len(),
    ensures
        a <= r <= b,
        input@.subrange(a as int, r as int) =~= trim_end_ws(input@.subrange(a as int, b as int)),
        r > a ==> !is_ws(input@[r - 1]),
{
    let mut j: usize = b;
    loop
        invariant
            a <= j <= b <= input@.len(),
            trim_end_ws(input@.subrange(a as int, b as int)) == trim_end_ws(
                input@.subrange(a as int, j as int),
            ),
        decreases j,
    {
        if j == a {
            return j;
        }
        let c = input[j - 1];
        if !(c == 32 || (9 <= c && c <= 13)) {
            return j;
        }
        proof {
            let w = input@.subrange(a as int, j as int);
            assert(w.last() == input@[j - 1]);
            assert(w.drop_last() =~= input@.subrange(a as int, j - 1));
        }
        j = j - 1;
    }
}

/// Position of the first non-whitespace byte of the window `[a, b)`.
pub fn trim_start_ws_idx(input: &[u8], a: usize, b: usize) -> (r: usize)
    requires
        a <= b <= input@.len(),
    ensures
        a <= r <= b,
        input@.subrange(r as int, b as int) =~= trim_start_ws(input@.subrange(a as int, b as int)),
        r < b ==> !is_ws(input@[r as int]),
{
    let mut j: usize = a;
    loop
        invariant
            a <= j <= b <= input@.len(),
            trim_start_ws(input@.subrange(a as int, b as int)) == trim_start_ws(
                input@.subrange(j as int, b as int),
            ),
        decreases b - j,
    {
        if j == b {
            return j;
        }
        let c = input[j];
        if !(c == 32 || (9 <= c && c <= 13)) {
            return j;
        }
        proof {
            let w = input@.subrange(j as int, b as int);
            assert(w.first() == input@[j as int]);
            assert(w.drop_first() =~= input@.subrange(j + 1, b as int));
        }
        j = j + 1;
    }
}

/// Position after the last trailing line-terminator byte of `[a, b)`.
pub fn trim_end_eol_idx(input: &[u8], a: usize, b: usize) -> (r: usize)
    requires
        a <= b <= input@.len(),
    ensures
        a <= r <= b,
        input@.subrange(a as int, r as int) =~= trim_end_eol(input@.subrange(a as int, b as int)),
{
    let mut j: usize = b;
    loop
        invariant
            a <= j <= b <= input@.len(),
            trim_end_eol(input@.subrange(a as int, b as int)) == trim_end_eol(
                input@.subrange(a as int, j as int),
            ),
        decreases j,
    {
        if j == a {
            return j;
        }
        let c = input[j - 1];
        if !(c == 10 || c == 13) {
            return j;
        }
        proof {
            let w = input@.subrange(a as int, j as int);
            assert(w.last() == input@[j - 1]);
            assert(w.drop_last() =~= input@.subrange(a as int, j - 1));
        }
        j = j - 1;
    }
}

/// First position of byte `b` in the window `[a, e)`, if any.
pub fn find_byte_in(input: &[u8], a: usize, e: usize, b: u8) -> (r: Option<usize>)
    requires
        a <= e <= input@.len(),
    ensures
        match r {
            Some(i) => a <= i < e && find_byte(input@.subrange(a as int, e as int), b) == Some(
                i - a,
            ),
            None => find_byte(input@.subrange(a as int, e as int), b) is None,
        },
{
    proof {
        let sub = input@.subrange(a as int, e as int);
        lemma_find_byte_spec(sub, b);
        match find_byte(sub, b) {
            Some(i) => {
                assert(sub[i] == input@[a + i]);
                assert forall|k: int| a <= k < a + i implies input@[k] != b by {
                    assert(sub[k - a] != b);
                }
            },
            None => {
                assert forall|k: int| a <= k < e implies input@[k] != b by {
                    assert(sub[k - a] != b);
                }
            },
        }
    }
    let mut j: usize = a;
    loop
        invariant
            a <= j <= e <= input@.len(),
            forall|k: int| a <= k < j ==> input@[k] != b,
            match find_byte(input@.subrange(a as int, e as int), b) {
                Some(i) => 0 <= i < e - a && input@[a + i] == b && forall|k: int|
                    a <= k < a + i ==> input@[k] != b,
                None => forall|k: int| a <= k < e ==> input@[k] != b,
            },
        decreases e - j,
    {
        if j == e {
            return None;
        }
        if input[j] == b {
            return Some(j);
        }
        j = j + 1;
    }
}

} // verus!
