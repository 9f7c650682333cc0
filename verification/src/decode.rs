//! Decoding JSON text into structured values.
//!
//! The grammar is stated once, as ghost parsing functions over byte
//! sequences; the executable decoder is proved to return exactly what the
//! ghost parser says, errors and positions included.

use vstd::prelude::*;
use crate::value::{Value, JVal, jval_of, jvals_of, jmembers_of, utf8_step};
use crate::encode::{QUOTE, BACKSLASH};

verus! {

/// A decoding failure, carrying the byte position it is attributed to.
#[derive(Debug, PartialEq, Eq, Clone, Copy)]
pub enum DecodeError {
    /// Malformed JSON text or malformed UTF-8, including a truncated
    /// buffer.
    FormatError(usize),
    /// An integer literal outside the representable 64-bit signed range.
    RangeError(usize),
}

/// The outcome of parsing one construct: a value and the position just
/// after it, or a failure position.
pub enum PRes {
    Val(JVal, int),
    Fmt(int),
    Rng(int),
}

/// The outcome of parsing string contents.
pub enum SRes {
    SOk(Seq<u8>, int),
    SErr(int),
}

/// The outcome of decoding a whole buffer.
pub enum PDone {
    Val(JVal),
    Fmt(int),
    Rng(int),
}

/// Insignificant whitespace between JSON tokens.
pub open spec fn is_ws(b: u8) -> bool {
    b == 32 || b == 9 || b == 10 || b == 13
}

/// An ASCII decimal digit.
pub open spec fn is_digit(b: u8) -> bool {
    48 <= b <= 57
}

/// The first position at or after `i` that does not hold whitespace.
pub open spec fn skip_ws(s: Seq<u8>, i: int) -> int
    decreases s.len() - i,
{
    if 0 <= i < s.len() && is_ws(s[i]) {
        skip_ws(s, i + 1)
    } else {
        i
    }
}

/// The first position at or after `i` that does not hold a digit.
pub open spec fn digits_end(s: Seq<u8>, i: int) -> int
    decreases s.len() - i,
{
    if 0 <= i < s.len() && is_digit(s[i]) {
        digits_end(s, i + 1)
    } else {
        i
    }
}

/// The value of the digit run `s[i..j)`, most significant digit first.
pub open spec fn dval(s: Seq<u8>, i: int, j: int) -> nat
    decreases j - i,
{
    if i >= j {
        0
    } else {
        dval(s, i, j - 1) * 10 + (s[j - 1] - 48) as nat
    }
}

/// The value of an ASCII hex digit, or -1 for any other byte.
pub open spec fn hex_val(b: u8) -> int {
    if 48 <= b <= 57 {
        b - 48
    } else if 97 <= b <= 102 {
        b - 87
    } else if 65 <= b <= 70 {
        b - 55
    } else {
        -1
    }
}

/// `k`, but never below `lo`.
pub open spec fn at_least(lo: int, k: int) -> int {
    if k > lo {
        k
    } else {
        lo
    }
}

/// The position after one parsed construct, kept inside the buffer: at
/// least `lo` and at most the buffer length.
pub open spec fn step_pos(s: Seq<u8>, lo: int, k: int) -> int {
    let k2 = at_least(lo, k);
    if k2 > s.len() {
        s.len() as int
    } else {
        k2
    }
}

/// The UTF-8 encoding of the code point `cp`.
pub open spec fn utf8_enc(cp: int) -> Seq<u8> {
    if cp < 0x80 {
        seq![cp as u8]
    } else if cp < 0x800 {
        seq![(0xC0 + cp / 64) as u8, (0x80 + cp % 64) as u8]
    } else if cp < 0x10000 {
        seq![(0xE0 + cp / 4096) as u8, (0x80 + (cp / 64) % 64) as u8, (0x80 + cp % 64) as u8]
    } else {
        seq![
            (0xF0 + cp / 262144) as u8,
            (0x80 + (cp / 4096) % 64) as u8,
            (0x80 + (cp / 64) % 64) as u8,
            (0x80 + cp % 64) as u8,
        ]
    }
}

/// The code point of the four hex digits at `i`, or -1 when one is not a
/// hex digit.
pub open spec fn hex4(s: Seq<u8>, i: int) -> int {
    if hex_val(s[i]) < 0 || hex_val(s[i + 1]) < 0 || hex_val(s[i + 2]) < 0 || hex_val(
        s[i + 3],
    ) < 0 {
        -1
    } else {
        hex_val(s[i]) * 4096 + hex_val(s[i + 1]) * 256 + hex_val(s[i + 2]) * 16 + hex_val(s[i + 3])
    }
}

/// Parses string contents from `i` (just after the opening quote), with
/// `acc` holding the bytes already read: plain ASCII bytes stand for
/// themselves, raw bytes above 127 must form well-formed UTF-8 sequences
/// and are kept as they stand, the short escapes are decoded, and a
/// `\uXXXX` escape - as a surrogate pair for code points beyond the basic
/// plane - is decoded to the UTF-8 bytes of its code point. Raw control
/// bytes and malformed UTF-8 are malformed.
pub open spec fn p_str(s: Seq<u8>, i: int, acc: Seq<u8>) -> SRes
    decreases s.len() - i,
{
    if !(0 <= i < s.len()) {
        SRes::SErr(s.len() as int)
    } else if s[i] == 34 {
        SRes::SOk(acc, i + 1)
    } else if s[i] == 92 {
        if i + 1 >= s.len() {
            SRes::SErr(s.len() as int)
        } else if s[i + 1] == 34 {
            p_str(s, i + 2, acc.push(34))
        } else if s[i + 1] == 92 {
            p_str(s, i + 2, acc.push(92))
        } else if s[i + 1] == 47 {
            p_str(s, i + 2, acc.push(47))
        } else if s[i + 1] == 98 {
            p_str(s, i + 2, acc.push(8))
        } else if s[i + 1] == 102 {
            p_str(s, i + 2, acc.push(12))
        } else if s[i + 1] == 110 {
            p_str(s, i + 2, acc.push(10))
        } else if s[i + 1] == 114 {
            p_str(s, i + 2, acc.push(13))
        } else if s[i + 1] == 116 {
            p_str(s, i + 2, acc.push(9))
        } else if s[i + 1] == 117 {
            if i + 6 > s.len() {
                SRes::SErr(s.len() as int)
            } else {
                let u = hex4(s, i + 2);
                if u < 0 {
                    SRes::SErr(i + 1)
                } else if u < 0xD800 || u >= 0xE000 {
                    p_str(s, i + 6, acc + utf8_enc(u))
                } else if u < 0xDC00 {
                    if i + 12 > s.len() {
                        SRes::SErr(s.len() as int)
                    } else if s[i + 6] != 92 || s[i + 7] != 117 {
                        SRes::SErr(i + 6)
                    } else {
                        let u2 = hex4(s, i + 8);
                        if u2 < 0 {
                            SRes::SErr(i + 7)
                        } else if 0xDC00 <= u2 < 0xE000 {
                            p_str(
                                s,
                                i + 12,
                                acc + utf8_enc(0x10000 + (u - 0xD800) * 1024 + (u2 - 0xDC00)),
                            )
                        } else {
                            SRes::SErr(i + 7)
                        }
                    }
                } else {
                    SRes::SErr(i + 1)
                }
            }
        } else {
            SRes::SErr(i + 1)
        }
    } else if s[i] < 32 {
        SRes::SErr(i)
    } else if s[i] < 0x80 {
        p_str(s, i + 1, acc.push(s[i]))
    } else {
        let l = utf8_step(s, i);
        if l == 2 {
            p_str(s, i + 2, acc.push(s[i]).push(s[i + 1]))
        } else if l == 3 {
            p_str(s, i + 3, acc.push(s[i]).push(s[i + 1]).push(s[i + 2]))
        } else if l == 4 {
            p_str(s, i + 4, acc.push(s[i]).push(s[i + 1]).push(s[i + 2]).push(s[i + 3]))
        } else {
            SRes::SErr(i)
        }
    }
}

/// Parses an integer literal at `i`: an optional minus sign, then digits
/// with no superfluous leading zero; a value outside the 64-bit signed
/// range is a range failure at `i`.
pub open spec fn p_num(s: Seq<u8>, i: int) -> PRes {
    let st = if 0 <= i < s.len() && s[i] == 45 {
        i + 1
    } else {
        i
    };
    if !(0 <= st < s.len() && is_digit(s[st])) {
        PRes::Fmt(i)
    } else {
        let e = digits_end(s, st);
        if s[st] == 48 && e > st + 1 {
            PRes::Fmt(i)
        } else {
            let m = dval(s, st, e) as int;
            let val = if st > i {
                -m
            } else {
                m
            };
            if val < -9223372036854775808 || val > 9223372036854775807 {
                PRes::Rng(i)
            } else {
                PRes::Val(JVal::Int(val), e)
            }
        }
    }
}

/// Parses one JSON value whose first byte stands at `i` (no leading
/// whitespace).
pub open spec fn p_value(s: Seq<u8>, i: int) -> PRes
    decreases s.len() - i, 0nat, 0nat,
{
    if !(0 <= i < s.len()) {
        PRes::Fmt(s.len() as int)
    } else if s[i] == 110 {
        if i + 4 <= s.len() && s[i + 1] == 117 && s[i + 2] == 108 && s[i + 3] == 108 {
            PRes::Val(JVal::Absent, i + 4)
        } else {
            PRes::Fmt(i)
        }
    } else if s[i] == 116 {
        if i + 4 <= s.len() && s[i + 1] == 114 && s[i + 2] == 117 && s[i + 3] == 101 {
            PRes::Val(JVal::Bool(true), i + 4)
        } else {
            PRes::Fmt(i)
        }
    } else if s[i] == 102 {
        if i + 5 <= s.len() && s[i + 1] == 97 && s[i + 2] == 108 && s[i + 3] == 115 && s[i + 4]
            == 101 {
            PRes::Val(JVal::Bool(false), i + 5)
        } else {
            PRes::Fmt(i)
        }
    } else if s[i] == 34 {
        match p_str(s, i + 1, Seq::empty()) {
            SRes::SOk(t, k) => PRes::Val(JVal::Str(t), k),
            SRes::SErr(p) => PRes::Fmt(p),
        }
    } else if s[i] == 45 || is_digit(s[i]) {
        p_num(s, i)
    } else if s[i] == 91 {
        p_elems(s, i + 1, Seq::empty(), true)
    } else if s[i] == 123 {
        p_membs(s, i + 1, Seq::empty(), true)
    } else {
        PRes::Fmt(i)
    }
}

/// Parses the rest of an array from `i` (just after `[` or after `,`),
/// expecting an element, or `]` when no element has been read yet.
pub open spec fn p_elems(s: Seq<u8>, i: int, acc: Seq<JVal>, first: bool) -> PRes
    decreases s.len() - i, 1nat, 0nat,
{
    let j = at_least(i, skip_ws(s, i));
    if j >= s.len() {
        PRes::Fmt(s.len() as int)
    } else if first && s[j] == 93 {
        PRes::Val(JVal::Arr(acc), j + 1)
    } else {
        match p_value(s, j) {
            PRes::Val(v, k) => p_elems_rest(s, step_pos(s, j + 1, k), acc.push(v)),
            e => e,
        }
    }
}

/// Parses what follows an array element: `,` and another element, or `]`.
pub open spec fn p_elems_rest(s: Seq<u8>, i: int, acc: Seq<JVal>) -> PRes
    decreases s.len() - i, 2nat, 0nat,
{
    let j = at_least(i, skip_ws(s, i));
    if j >= s.len() {
        PRes::Fmt(s.len() as int)
    } else if s[j] == 93 {
        PRes::Val(JVal::Arr(acc), j + 1)
    } else if s[j] == 44 {
        p_elems(s, j + 1, acc, false)
    } else {
        PRes::Fmt(j)
    }
}

/// Parses the rest of a mapping from `i` (just after `{` or after `,`),
/// expecting a member, or `}` when no member has been read yet.
pub open spec fn p_membs(s: Seq<u8>, i: int, acc: Seq<(Seq<u8>, JVal)>, first: bool) -> PRes
    decreases s.len() - i, 1nat, 0nat,
{
    let j = at_least(i, skip_ws(s, i));
    if j >= s.len() {
        PRes::Fmt(s.len() as int)
    } else if first && s[j] == 125 {
        PRes::Val(JVal::Obj(acc), j + 1)
    } else if s[j] != 34 {
        PRes::Fmt(j)
    } else {
        match p_str(s, j + 1, Seq::empty()) {
            SRes::SOk(key, k) => {
                let j2 = at_least(j + 1, skip_ws(s, at_least(j + 1, k)));
                if j2 >= s.len() {
                    PRes::Fmt(s.len() as int)
                } else if s[j2] != 58 {
                    PRes::Fmt(j2)
                } else {
                    let j3 = at_least(j2 + 1, skip_ws(s, j2 + 1));
                    if j3 >= s.len() {
                        PRes::Fmt(s.len() as int)
                    } else {
                        match p_value(s, j3) {
                            PRes::Val(v, k3) => p_membs_rest(
                                s,
                                step_pos(s, j3 + 1, k3),
                                acc.push((key, v)),
                            ),
                            e => e,
                        }
                    }
                }
            },
            SRes::SErr(p) => PRes::Fmt(p),
        }
    }
}

/// Parses what follows a mapping member: `,` and another member, or `}`.
pub open spec fn p_membs_rest(s: Seq<u8>, i: int, acc: Seq<(Seq<u8>, JVal)>) -> PRes
    decreases s.len() - i, 2nat, 0nat,
{
    let j = at_least(i, skip_ws(s, i));
    if j >= s.len() {
        PRes::Fmt(s.len() as int)
    } else if s[j] == 125 {
        PRes::Val(JVal::Obj(acc), j + 1)
    } else if s[j] == 44 {
        p_membs(s, j + 1, acc, false)
    } else {
        PRes::Fmt(j)
    }
}

/// Decodes a whole buffer: optional whitespace, one value, optional
/// whitespace, end of input.
pub open spec fn spec_decode(s: Seq<u8>) -> PDone {
    let j = at_least(0, skip_ws(s, 0));
    match p_value(s, j) {
        PRes::Val(v, k) => {
            let e = at_least(k, skip_ws(s, k));
            if e == s.len() {
                PDone::Val(v)
            } else {
                PDone::Fmt(e)
            }
        },
        PRes::Fmt(p) => PDone::Fmt(p),
        PRes::Rng(p) => PDone::Rng(p),
    }
}

/// The executable outcome `r` is exactly the ghost outcome `pr`.
pub open spec fn res_matches(r: Result<(Value, usize), DecodeError>, pr: PRes) -> bool {
    match r {
        Ok((v, k)) => pr == PRes::Val(jval_of(v), k as int),
        Err(DecodeError::FormatError(p)) => pr == PRes::Fmt(p as int),
        Err(DecodeError::RangeError(p)) => pr == PRes::Rng(p as int),
    }
}

/// Ten to the `k`.
pub open spec fn pow10(k: nat) -> nat
    decreases k,
{
    if k == 0 {
        1
    } else {
        10 * pow10((k - 1) as nat)
    }
}

proof fn lemma_pow10_pos(k: nat)
    ensures
        pow10(k) >= 1,
    decreases k,
{
    if k > 0 {
        lemma_pow10_pos((k - 1) as nat);
    }
}

proof fn lemma_pow10_mono(a: nat, b: nat)
    requires
        a <= b,
    ensures
        pow10(a) <= pow10(b),
    decreases b,
{
    lemma_pow10_pos(a);
    if a < b {
        lemma_pow10_mono(a, (b - 1) as nat);
        lemma_pow10_pos((b - 1) as nat);
    }
}

proof fn lemma_dval_upper(s: Seq<u8>, i: int, j: int)
    requires
        i <= j,
        forall|k: int| i <= k < j ==> is_digit(#[trigger] s[k]),
    ensures
        dval(s, i, j) < pow10((j - i) as nat),
    decreases j - i,
{
    if i < j {
        lemma_dval_upper(s, i, j - 1);
    }
}

proof fn lemma_dval_lower(s: Seq<u8>, i: int, j: int)
    requires
        i < j,
        forall|k: int| i <= k < j ==> is_digit(#[trigger] s[k]),
        s[i] >= 49,
    ensures
        dval(s, i, j) >= pow10((j - i - 1) as nat),
    decreases j - i,
{
    if i + 1 < j {
        lemma_dval_lower(s, i, j - 1);
    }
}

/// Advances past insignificant whitespace.
#[verifier::loop_isolation(false)]
fn skip_ws_e(s: &[u8], i: usize) -> (j: usize)
    requires
        i <= s@.len(),
    ensures
        i <= j <= s@.len(),
        j as int == skip_ws(s@, i as int),
{
    let n = s.len();
    let mut j = i;
    while j < n && (s[j] == 32 || s[j] == 9 || s[j] == 10 || s[j] == 13)
        invariant
            i <= j <= n,
            skip_ws(s@, i as int) == skip_ws(s@, j as int),
        decreases n - j,
    {
        j = j + 1;
    }
    j
}

/// Advances past decimal digits.
#[verifier::loop_isolation(false)]
fn digits_end_e(s: &[u8], i: usize) -> (j: usize)
    requires
        i <= s@.len(),
    ensures
        i <= j <= s@.len(),
        j as int == digits_end(s@, i as int),
        forall|k: int| i <= k < j ==> is_digit(#[trigger] s@[k]),
        j == s@.len() || !is_digit(s@[j as int]),
{
    let n = s.len();
    let mut j = i;
    while j < n && 48 <= s[j] && s[j] <= 57
        invariant
            i <= j <= n,
            digits_end(s@, i as int) == digits_end(s@, j as int),
            forall|k: int| i <= k < j ==> is_digit(#[trigger] s@[k]),
        decreases n - j,
    {
        j = j + 1;
    }
    j
}

/// The length of the well-formed UTF-8 sequence starting at `i`, or 0.
fn utf8_step_e(s: &[u8], i: usize) -> (l: usize)
    requires
        i < s@.len(),
    ensures
        l as int == utf8_step(s@, i as int),
{
    let n = s.len();
    let b = s[i];
    if b < 0x80 {
        1
    } else if 0xC2 <= b && b <= 0xDF {
        if n - i > 1 && 0x80 <= s[i + 1] && s[i + 1] < 0xC0 {
            2
        } else {
            0
        }
    } else if b == 0xE0 {
        if n - i > 2 && 0xA0 <= s[i + 1] && s[i + 1] <= 0xBF && 0x80 <= s[i + 2] && s[i + 2]
            < 0xC0 {
            3
        } else {
            0
        }
    } else if (0xE1 <= b && b <= 0xEC) || b == 0xEE || b == 0xEF {
        if n - i > 2 && 0x80 <= s[i + 1] && s[i + 1] < 0xC0 && 0x80 <= s[i + 2] && s[i + 2]
            < 0xC0 {
            3
        } else {
            0
        }
    } else if b == 0xED {
        if n - i > 2 && 0x80 <= s[i + 1] && s[i + 1] <= 0x9F && 0x80 <= s[i + 2] && s[i + 2]
            < 0xC0 {
            3
        } else {
            0
        }
    } else if b == 0xF0 {
        if n - i > 3 && 0x90 <= s[i + 1] && s[i + 1] <= 0xBF && 0x80 <= s[i + 2] && s[i + 2]
            < 0xC0 && 0x80 <= s[i + 3] && s[i + 3] < 0xC0 {
            4
        } else {
            0
        }
    } else if 0xF1 <= b && b <= 0xF3 {
        if n - i > 3 && 0x80 <= s[i + 1] && s[i + 1] < 0xC0 && 0x80 <= s[i + 2] && s[i + 2] < 0xC0
            && 0x80 <= s[i + 3] && s[i + 3] < 0xC0 {
            4
        } else {
            0
        }
    } else if b == 0xF4 {
        if n - i > 3 && 0x80 <= s[i + 1] && s[i + 1] <= 0x8F && 0x80 <= s[i + 2] && s[i + 2]
            < 0xC0 && 0x80 <= s[i + 3] && s[i + 3] < 0xC0 {
            4
        } else {
            0
        }
    } else {
        0
    }
}

/// Appends the UTF-8 encoding of the code point `cp`.
fn push_utf8_e(t: &mut Vec<u8>, cp: u32)
    requires
        cp <= 0x10FFFF,
    ensures
        final(t)@ == old(t)@ + utf8_enc(cp as int),
{
    if cp < 0x80 {
        t.push(cp as u8);
    } else if cp < 0x800 {
        t.push((0xC0 + cp / 64) as u8);
        t.push((0x80 + cp % 64) as u8);
    } else if cp < 0x10000 {
        t.push((0xE0 + cp / 4096) as u8);
        t.push((0x80 + (cp / 64) % 64) as u8);
        t.push((0x80 + cp % 64) as u8);
    } else {
        t.push((0xF0 + cp / 262144) as u8);
        t.push((0x80 + (cp / 4096) % 64) as u8);
        t.push((0x80 + (cp / 64) % 64) as u8);
        t.push((0x80 + cp % 64) as u8);
    }
    proof {
        assert(t@ =~= old(t)@ + utf8_enc(cp as int));
    }
}

/// The value of an ASCII hex digit, or -1.
fn hex_val_e(b: u8) -> (h: i8)
    ensures
        h as int == hex_val(b),
{
    if 48 <= b && b <= 57 {
        (b - 48) as i8
    } else if 97 <= b && b <= 102 {
        (b - 87) as i8
    } else if 65 <= b && b <= 70 {
        (b - 55) as i8
    } else {
        -1
    }
}

/// Parses string contents from `i`, just after the opening quote.
#[verifier::loop_isolation(false)]
fn parse_str_e(s: &[u8], i: usize) -> (r: Result<(Vec<u8>, usize), DecodeError>)
    requires
        i <= s@.len(),
    ensures
        match r {
            Ok((t, k)) => p_str(s@, i as int, Seq::empty()) == SRes::SOk(t@, k as int) && i < k
                <= s@.len(),
            Err(DecodeError::FormatError(p)) => p_str(s@, i as int, Seq::empty()) == SRes::SErr(
                p as int,
            ),
            Err(DecodeError::RangeError(_)) => false,
        },
{
    let n = s.len();
    let mut t: Vec<u8> = Vec::new();
    let mut j = i;
    while j < n
        invariant
            i <= j <= n,
            p_str(s@, i as int, Seq::empty()) == p_str(s@, j as int, t@),
        decreases n - j,
    {
        let b = s[j];
        if b == QUOTE {
            return Ok((t, j + 1));
        } else if b == BACKSLASH {
            if n - j < 2 {
                return Err(DecodeError::FormatError(n));
            }
            let c = s[j + 1];
            if c == 34 {
                t.push(34);
            } else if c == 92 {
                t.push(92);
            } else if c == 47 {
                t.push(47);
            } else if c == 98 {
                t.push(8);
            } else if c == 102 {
                t.push(12);
            } else if c == 110 {
                t.push(10);
            } else if c == 114 {
                t.push(13);
            } else if c == 116 {
                t.push(9);
            } else if c == 117 {
                if n - j < 6 {
                    return Err(DecodeError::FormatError(n));
                }
                let h1 = hex_val_e(s[j + 2]);
                let h2 = hex_val_e(s[j + 3]);
                let h3 = hex_val_e(s[j + 4]);
                let h4 = hex_val_e(s[j + 5]);
                if h1 < 0 || h2 < 0 || h3 < 0 || h4 < 0 {
                    return Err(DecodeError::FormatError(j + 1));
                }
                let u: u32 = (h1 as u32) * 4096 + (h2 as u32) * 256 + (h3 as u32) * 16 + (
                h4 as u32);
                proof {
                    assert(hex4(s@, j + 2) == u as int);
                }
                if u < 0xD800 || u >= 0xE000 {
                    push_utf8_e(&mut t, u);
                    j = j + 6;
                } else if u < 0xDC00 {
                    if n - j < 12 {
                        return Err(DecodeError::FormatError(n));
                    }
                    if s[j + 6] != 92 || s[j + 7] != 117 {
                        return Err(DecodeError::FormatError(j + 6));
                    }
                    let g1 = hex_val_e(s[j + 8]);
                    let g2 = hex_val_e(s[j + 9]);
                    let g3 = hex_val_e(s[j + 10]);
                    let g4 = hex_val_e(s[j + 11]);
                    if g1 < 0 || g2 < 0 || g3 < 0 || g4 < 0 {
                        return Err(DecodeError::FormatError(j + 7));
                    }
                    let u2: u32 = (g1 as u32) * 4096 + (g2 as u32) * 256 + (g3 as u32) * 16 + (
                    g4 as u32);
                    proof {
                        assert(hex4(s@, j + 8) == u2 as int);
                    }
                    if 0xDC00 <= u2 && u2 < 0xE000 {
                        let cp: u32 = 0x10000 + (u - 0xD800) * 1024 + (u2 - 0xDC00);
                        push_utf8_e(&mut t, cp);
                        j = j + 12;
                    } else {
                        return Err(DecodeError::FormatError(j + 7));
                    }
                } else {
                    return Err(DecodeError::FormatError(j + 1));
                }
                continue ;
            } else {
                return Err(DecodeError::FormatError(j + 1));
            }
            j = j + 2;
        } else if b < 32 {
            return Err(DecodeError::FormatError(j));
        } else if b < 0x80 {
            t.push(b);
            j = j + 1;
        } else {
            let l = utf8_step_e(s, j);
            if l == 0 {
                return Err(DecodeError::FormatError(j));
            }
            t.push(s[j]);
            t.push(s[j + 1]);
            if l >= 3 {
                t.push(s[j + 2]);
            }
            if l >= 4 {
                t.push(s[j + 3]);
            }
            j = j + l;
        }
    }
    Err(DecodeError::FormatError(n))
}

/// Parses an integer literal at `i`.
#[verifier::loop_isolation(false)]
#[verifier::rlimit(60)]
fn parse_num_e(s: &[u8], i: usize) -> (r: Result<(Value, usize), DecodeError>)
    requires
        i <= s@.len(),
    ensures
        res_matches(r, p_num(s@, i as int)),
        r matches Ok(p) ==> i < p.1 <= s@.len(),
{
    let n = s.len();
    let neg = i < n && s[i] == 45;
    let st = if neg {
        i + 1
    } else {
        i
    };
    if !(st < n && 48 <= s[st] && s[st] <= 57) {
        return Err(DecodeError::FormatError(i));
    }
    let e = digits_end_e(s, st);
    if s[st] == 48 && e > st + 1 {
        return Err(DecodeError::FormatError(i));
    }
    if e - st > 19 {
        proof {
            lemma_dval_lower(s@, st as int, e as int);
            lemma_pow10_mono(19nat, (e - st - 1) as nat);
            reveal_with_fuel(pow10, 21);
            assert(pow10(19) == 10000000000000000000);
        }
        return Err(DecodeError::RangeError(i));
    }
    let mut acc: u64 = 0;
    let mut j = st;
    proof {
        reveal_with_fuel(pow10, 21);
        assert(pow10(18) == 1000000000000000000);
    }
    while j < e
        invariant
            st <= j <= e,
            acc as nat == dval(s@, st as int, j as int),
            (acc as nat) < pow10((j - st) as nat),
            e - st <= 19,
            pow10(18) == 1000000000000000000,
        decreases e - j,
    {
        proof {
            lemma_pow10_mono((j - st) as nat, 18nat);
        }
        let d = s[j] - 48;
        acc = acc * 10 + (d as u64);
        j = j + 1;
    }
    proof {
        assert(e > st);
        assert(acc as nat == dval(s@, st as int, e as int));
    }
    if neg {
        if acc > 9223372036854775808 {
            return Err(DecodeError::RangeError(i));
        }
        let v: i64 = if acc == 9223372036854775808 {
            i64::MIN
        } else {
            -(acc as i64)
        };
        proof {
            assert(v as int == -(dval(s@, st as int, e as int) as int));
        }
        Ok((Value::Int(v), e))
    } else {
        if acc > 9223372036854775807 {
            return Err(DecodeError::RangeError(i));
        }
        Ok((Value::Int(acc as i64), e))
    }
}

/// Parses one JSON value whose first byte stands at `i`.
fn parse_value_e(s: &[u8], i: usize) -> (r: Result<(Value, usize), DecodeError>)
    requires
        i <= s@.len(),
    ensures
        res_matches(r, p_value(s@, i as int)),
        r matches Ok(p) ==> i < p.1 <= s@.len(),
    decreases s@.len() - i, 0nat, 0nat,
{
    let n = s.len();
    if i >= n {
        return Err(DecodeError::FormatError(n));
    }
    let b = s[i];
    if b == 110 {
        if n - i >= 4 && s[i + 1] == 117 && s[i + 2] == 108 && s[i + 3] == 108 {
            Ok((Value::Absent, i + 4))
        } else {
            Err(DecodeError::FormatError(i))
        }
    } else if b == 116 {
        if n - i >= 4 && s[i + 1] == 114 && s[i + 2] == 117 && s[i + 3] == 101 {
            Ok((Value::Bool(true), i + 4))
        } else {
            Err(DecodeError::FormatError(i))
        }
    } else if b == 102 {
        if n - i >= 5 && s[i + 1] == 97 && s[i + 2] == 108 && s[i + 3] == 115 && s[i + 4] == 101 {
            Ok((Value::Bool(false), i + 5))
        } else {
            Err(DecodeError::FormatError(i))
        }
    } else if b == QUOTE {
        match parse_str_e(s, i + 1) {
            Ok((t, k)) => Ok((Value::Str(t), k)),
            Err(err) => Err(err),
        }
    } else if b == 45 || (48 <= b && b <= 57) {
        parse_num_e(s, i)
    } else if b == 91 {
        let acc: Vec<Value> = Vec::new();
        parse_elems_e(s, i + 1, acc, true)
    } else if b == 123 {
        let acc: Vec<(Vec<u8>, Value)> = Vec::new();
        parse_membs_e(s, i + 1, acc, true)
    } else {
        Err(DecodeError::FormatError(i))
    }
}

/// Parses the rest of an array from `i`, expecting an element, or `]`
/// when `first` says no element has been read yet.
fn parse_elems_e(s: &[u8], i: usize, acc: Vec<Value>, first: bool) -> (r: Result<
    (Value, usize),
    DecodeError,
>)
    requires
        i <= s@.len(),
    ensures
        res_matches(r, p_elems(s@, i as int, jvals_of(acc@), first)),
        r matches Ok(p) ==> i < p.1 <= s@.len(),
    decreases s@.len() - i, 1nat, 0nat,
{
    let n = s.len();
    let j = skip_ws_e(s, i);
    if j == n {
        return Err(DecodeError::FormatError(n));
    }
    if first && s[j] == 93 {
        return Ok((Value::Arr(acc), j + 1));
    }
    match parse_value_e(s, j) {
        Ok((v, k)) => {
            let ghost acc0: Seq<Value> = acc@;
            let ghost v0: Value = v;
            let mut acc2 = acc;
            acc2.push(v);
            proof {
                crate::value::lemma_jvals_of_push(acc0, v0);
            }
            parse_elems_rest_e(s, k, acc2)
        },
        Err(err) => Err(err),
    }
}

/// Parses what follows an array element: `,` and another element, or `]`.
fn parse_elems_rest_e(s: &[u8], i: usize, acc: Vec<Value>) -> (r: Result<
    (Value, usize),
    DecodeError,
>)
    requires
        i <= s@.len(),
    ensures
        res_matches(r, p_elems_rest(s@, i as int, jvals_of(acc@))),
        r matches Ok(p) ==> i < p.1 <= s@.len(),
    decreases s@.len() - i, 2nat, 0nat,
{
    let n = s.len();
    let j = skip_ws_e(s, i);
    if j == n {
        return Err(DecodeError::FormatError(n));
    }
    if s[j] == 93 {
        return Ok((Value::Arr(acc), j + 1));
    }
    if s[j] == 44 {
        parse_elems_e(s, j + 1, acc, false)
    } else {
        Err(DecodeError::FormatError(j))
    }
}

/// Parses the rest of a mapping from `i`, expecting a member, or `}`
/// when `first` says no member has been read yet.
fn parse_membs_e(s: &[u8], i: usize, acc: Vec<(Vec<u8>, Value)>, first: bool) -> (r: Result<
    (Value, usize),
    DecodeError,
>)
    requires
        i <= s@.len(),
    ensures
        res_matches(r, p_membs(s@, i as int, jmembers_of(acc@), first)),
        r matches Ok(p) ==> i < p.1 <= s@.len(),
    decreases s@.len() - i, 1nat, 0nat,
{
    let n = s.len();
    let j = skip_ws_e(s, i);
    if j == n {
        return Err(DecodeError::FormatError(n));
    }
    if first && s[j] == 125 {
        return Ok((Value::Obj(acc), j + 1));
    }
    if s[j] != QUOTE {
        return Err(DecodeError::FormatError(j));
    }
    match parse_str_e(s, j + 1) {
        Ok((key, k)) => {
            let j2 = skip_ws_e(s, k);
            if j2 == n {
                return Err(DecodeError::FormatError(n));
            }
            if s[j2] != 58 {
                return Err(DecodeError::FormatError(j2));
            }
            let j3 = skip_ws_e(s, j2 + 1);
            if j3 == n {
                return Err(DecodeError::FormatError(n));
            }
            match parse_value_e(s, j3) {
                Ok((v, k3)) => {
                    let ghost acc0: Seq<(Vec<u8>, Value)> = acc@;
                    let ghost m0: (Vec<u8>, Value) = (key, v);
                    let mut acc2 = acc;
                    acc2.push((key, v));
                    proof {
                        crate::value::lemma_jmembers_of_push(acc0, m0);
                    }
                    parse_membs_rest_e(s, k3, acc2)
                },
                Err(err) => Err(err),
            }
        },
        Err(err) => Err(err),
    }
}

/// Parses what follows a mapping member: `,` and another member, or `}`.
fn parse_membs_rest_e(s: &[u8], i: usize, acc: Vec<(Vec<u8>, Value)>) -> (r: Result<
    (Value, usize),
    DecodeError,
>)
    requires
        i <= s@.len(),
    ensures
        res_matches(r, p_membs_rest(s@, i as int, jmembers_of(acc@))),
        r matches Ok(p) ==> i < p.1 <= s@.len(),
    decreases s@.len() - i, 2nat, 0nat,
{
    let n = s.len();
    let j = skip_ws_e(s, i);
    if j == n {
        return Err(DecodeError::FormatError(n));
    }
    if s[j] == 125 {
        return Ok((Value::Obj(acc), j + 1));
    }
    if s[j] == 44 {
        parse_membs_e(s, j + 1, acc, false)
    } else {
        Err(DecodeError::FormatError(j))
    }
}

/// Parses JSON text into a structured value: optional whitespace, one
/// value, optional whitespace, end of input. String contents are
/// UTF-8-validated, and `\uXXXX` escapes - surrogate pairs included -
/// decode to the UTF-8 bytes of their code point. Malformed JSON or
/// malformed UTF-8 fails with `FormatError` and an integer beyond the
/// 64-bit signed range with `RangeError`, each carrying the byte
/// position of the failure; no partial value is ever returned.
pub fn decode(bytes: &[u8]) -> (r: Result<Value, DecodeError>)
    ensures
        match r {
            Ok(v) => spec_decode(bytes@) == PDone::Val(jval_of(v)),
            Err(DecodeError::FormatError(p)) => spec_decode(bytes@) == PDone::Fmt(p as int),
            Err(DecodeError::RangeError(p)) => spec_decode(bytes@) == PDone::Rng(p as int),
        },
{
    let n = bytes.len();
    let j = skip_ws_e(bytes, 0);
    match parse_value_e(bytes, j) {
        Ok((v, k)) => {
            let e = skip_ws_e(bytes, k);
            if e == n {
                Ok(v)
            } else {
                Err(DecodeError::FormatError(e))
            }
        },
        Err(err) => Err(err),
    }
}

} // verus!
