//! Round-trip laws: decoding inverts encoding.

use vstd::prelude::*;
use crate::value::{JVal, wf, utf8, utf8_from, utf8_step};
use crate::encode::{
    enc, enc_int, enc_str, enc_elems, enc_members, encp, encp_elems, encp_members, esc_byte,
    esc_from, dec_digits, hex_digit, ind, QUOTE, BACKSLASH, LBRACKET, RBRACKET, LBRACE, RBRACE,
    COMMA, COLON, SPACE, NEWLINE,
};
use crate::decode::{
    p_value, p_str, p_num, p_elems, p_elems_rest, p_membs, p_membs_rest, spec_decode, skip_ws,
    digits_end, dval, hex_val, hex4, utf8_enc, is_ws, is_digit, PRes, SRes, PDone,
};

verus! {

/// The bytes `t` stand in `s` at position `i`.
pub open spec fn fits(s: Seq<u8>, i: int, t: Seq<u8>) -> bool {
    0 <= i && i + t.len() <= s.len() && (forall|k: int| 0 <= k < t.len() ==> s[i + k] == t[k])
}

/// Decimal digit runs: at least one byte, all digits, a leading zero only
/// for zero itself.
proof fn lemma_dec_digits_props(m: nat)
    ensures
        dec_digits(m).len() >= 1,
        forall|k: int| 0 <= k < dec_digits(m).len() ==> is_digit(#[trigger] dec_digits(m)[k]),
        (dec_digits(m)[0] == 48) == (m == 0),
    decreases m,
{
    if m >= 10 {
        lemma_dec_digits_props(m / 10);
        assert forall|k: int| 0 <= k < dec_digits(m).len() implies is_digit(
            #[trigger] dec_digits(m)[k],
        ) by {
            if k < dec_digits(m / 10).len() {
                assert(dec_digits(m)[k] == dec_digits(m / 10)[k]);
            }
        }
    }
}

/// A digit run bounded by a non-digit ends exactly at its end.
proof fn lemma_digits_end_run(s: Seq<u8>, a: int, b: int)
    requires
        0 <= a <= b <= s.len(),
        forall|k: int| a <= k < b ==> is_digit(#[trigger] s[k]),
        b == s.len() || !is_digit(s[b]),
    ensures
        digits_end(s, a) == b,
    decreases b - a,
{
    if a < b {
        lemma_digits_end_run(s, a + 1, b);
    }
}

/// A whitespace run bounded by a non-whitespace byte is skipped exactly.
proof fn lemma_skip_ws_run(s: Seq<u8>, a: int, b: int)
    requires
        0 <= a <= b <= s.len(),
        forall|k: int| a <= k < b ==> is_ws(#[trigger] s[k]),
        b == s.len() || !is_ws(s[b]),
    ensures
        skip_ws(s, a) == b,
    decreases b - a,
{
    if a < b {
        lemma_skip_ws_run(s, a + 1, b);
    }
}

/// The digit run standing for `m` reads back as `m`.
proof fn lemma_dval_run(s: Seq<u8>, a: int, m: nat)
    requires
        fits(s, a, dec_digits(m)),
    ensures
        dval(s, a, a + dec_digits(m).len()) == m,
    decreases m,
{
    lemma_dec_digits_props(m);
    if m < 10 {
        assert(s[a] == dec_digits(m)[0]);
        assert(dval(s, a, a + 1) == dval(s, a, a) * 10 + (s[a] - 48) as nat);
    } else {
        let dq = dec_digits(m / 10);
        assert forall|k: int| 0 <= k < dq.len() implies s[a + k] == dq[k] by {
            assert(dec_digits(m)[k] == dq[k]);
        }
        lemma_dval_run(s, a, m / 10);
        let b = a + dec_digits(m).len();
        assert(s[b - 1] == dec_digits(m)[dec_digits(m).len() - 1]);
        assert(dval(s, a, b) == dval(s, a, b - 1) * 10 + (s[b - 1] - 48) as nat);
    }
}

/// The first byte of an encoded value: never whitespace, never a comma or
/// a closing bracket, and a minus sign or digit exactly for integers.
proof fn lemma_enc_first(v: JVal)
    ensures
        enc(v).len() >= 1,
        !is_ws(enc(v)[0]),
        enc(v)[0] != 44 && enc(v)[0] != 93 && enc(v)[0] != 125 && enc(v)[0] != 58,
        enc(v)[0] == 110 <==> v is Absent,
        enc(v)[0] == 116 <==> v == JVal::Bool(true),
        enc(v)[0] == 102 <==> v == JVal::Bool(false),
        enc(v)[0] == 34 <==> v is Str,
        enc(v)[0] == 91 <==> v is Arr,
        enc(v)[0] == 123 <==> v is Obj,
        (enc(v)[0] == 45 || is_digit(enc(v)[0])) <==> v is Int,
{
    match v {
        JVal::Int(n) => {
            if n < 0 {
                lemma_dec_digits_props((-n) as nat);
            } else {
                lemma_dec_digits_props(n as nat);
                assert(enc(v)[0] == dec_digits(n as nat)[0]);
            }
        }
        _ => {}
    }
}

/// Splitting a fit of concatenated text into fits of its parts.
proof fn lemma_fits_cat(s: Seq<u8>, i: int, t1: Seq<u8>, t2: Seq<u8>)
    requires
        fits(s, i, t1 + t2),
    ensures
        fits(s, i, t1),
        fits(s, i + t1.len(), t2),
{
    assert forall|k: int| 0 <= k < t1.len() implies s[i + k] == t1[k] by {
        assert((t1 + t2)[k] == t1[k]);
    }
    assert forall|k: int| 0 <= k < t2.len() implies s[i + t1.len() + k] == t2[k] by {
        assert((t1 + t2)[t1.len() + k] == t2[k]);
    }
}

/// String contents read back exactly: parsing the escaped form of
/// `t[q..]` followed by a closing quote yields the remaining bytes,
/// provided those bytes are well-formed UTF-8 from `q` on.
#[verifier::rlimit(100)]
#[verifier::spinoff_prover]
proof fn lemma_p_str_run(s: Seq<u8>, a: int, t: Seq<u8>, q: int, acc: Seq<u8>)
    requires
        0 <= q <= t.len(),
        utf8_from(t, q),
        fits(s, a, esc_from(t, q) + seq![QUOTE]),
    ensures
        p_str(s, a, acc) == SRes::SOk(
            acc + t.subrange(q, t.len() as int),
            a + esc_from(t, q).len() + 1,
        ),
    decreases t.len() - q,
{
    if q == t.len() {
        assert(s[a] == (esc_from(t, q) + seq![QUOTE])[0]);
        assert(acc + t.subrange(q, t.len() as int) =~= acc);
    } else {
        let b = t[q];
        let l = utf8_step(t, q);
        assert(l > 0);
        if b < 0x80 {
            let eb = esc_byte(b);
            let rest = esc_from(t, q + 1);
            assert(esc_from(t, q) =~= eb + rest);
            assert(esc_from(t, q) + seq![QUOTE] =~= eb + (rest + seq![QUOTE]));
            lemma_fits_cat(s, a, eb, rest + seq![QUOTE]);
            lemma_p_str_run(s, a + eb.len(), t, q + 1, acc.push(b));
            assert(acc.push(b) + t.subrange(q + 1, t.len() as int) =~= acc + t.subrange(
                q,
                t.len() as int,
            ));
            if b == QUOTE {
                assert(s[a] == eb[0] && s[a + 1] == eb[1]);
            } else if b == BACKSLASH {
                assert(s[a] == eb[0] && s[a + 1] == eb[1]);
            } else if b < 32 {
                assert(s[a] == eb[0] && s[a + 1] == eb[1] && s[a + 2] == eb[2] && s[a + 3] == eb[3]
                    && s[a + 4] == eb[4] && s[a + 5] == eb[5]);
                assert(hex_val(hex_digit(b as int / 16)) == b as int / 16);
                assert(hex_val(hex_digit(b as int % 16)) == b as int % 16);
                assert(hex4(s, a + 2) == b as int);
                assert(utf8_enc(b as int) =~= seq![b]);
                assert(acc + utf8_enc(b as int) =~= acc.push(b));
            } else {
                assert(s[a] == eb[0]);
            }
        } else {
            let chunk = t.subrange(q, q + l);
            assert(esc_byte(t[q]) =~= seq![t[q]]);
            assert(esc_byte(t[q + 1]) =~= seq![t[q + 1]]);
            assert(esc_from(t, q) =~= seq![t[q]] + esc_from(t, q + 1));
            assert(esc_from(t, q + 1) =~= seq![t[q + 1]] + esc_from(t, q + 2));
            if l == 2 {
                assert(esc_from(t, q) =~= chunk + esc_from(t, q + 2));
            } else if l == 3 {
                assert(esc_byte(t[q + 2]) =~= seq![t[q + 2]]);
                assert(esc_from(t, q + 2) =~= seq![t[q + 2]] + esc_from(t, q + 3));
                assert(esc_from(t, q) =~= chunk + esc_from(t, q + 3));
            } else {
                assert(l == 4);
                assert(esc_byte(t[q + 2]) =~= seq![t[q + 2]]);
                assert(esc_byte(t[q + 3]) =~= seq![t[q + 3]]);
                assert(esc_from(t, q + 2) =~= seq![t[q + 2]] + esc_from(t, q + 3));
                assert(esc_from(t, q + 3) =~= seq![t[q + 3]] + esc_from(t, q + 4));
                assert(esc_from(t, q) =~= chunk + esc_from(t, q + 4));
            }
            assert(esc_from(t, q) + seq![QUOTE] =~= chunk + (esc_from(t, q + l) + seq![QUOTE]));
            lemma_fits_cat(s, a, chunk, esc_from(t, q + l) + seq![QUOTE]);
            assert(s[a + 0] == chunk[0] && s[a + 1] == chunk[1]);
            if l >= 3 {
                assert(s[a + 2] == chunk[2]);
            }
            if l >= 4 {
                assert(s[a + 3] == chunk[3]);
            }
            assert(utf8_step(s, a) == l);
            let acc2 = if l == 2 {
                acc.push(t[q]).push(t[q + 1])
            } else if l == 3 {
                acc.push(t[q]).push(t[q + 1]).push(t[q + 2])
            } else {
                acc.push(t[q]).push(t[q + 1]).push(t[q + 2]).push(t[q + 3])
            };
            lemma_p_str_run(s, a + l, t, q + l, acc2);
            assert(acc2 + t.subrange(q + l, t.len() as int) =~= acc + t.subrange(
                q,
                t.len() as int,
            ));
        }
    }
}

/// An encoded integer literal reads back as that integer, provided no
/// digit follows directly.
proof fn lemma_parse_int_run(n: int, s: Seq<u8>, i: int)
    requires
        i64::MIN <= n <= i64::MAX,
        fits(s, i, enc_int(n)),
        i + enc_int(n).len() == s.len() || !is_digit(s[i + enc_int(n).len()]),
    ensures
        p_num(s, i) == PRes::Val(JVal::Int(n), i + enc_int(n).len()),
    decreases 0nat,
{
    let m: nat = if n < 0 {
        (-n) as nat
    } else {
        n as nat
    };
    let dd = dec_digits(m);
    let st: int = if n < 0 {
        i + 1
    } else {
        i
    };
    lemma_dec_digits_props(m);
    assert forall|k: int| 0 <= k < dd.len() implies s[st + k] == dd[k] by {
        if n < 0 {
            assert(enc_int(n)[1 + k] == dd[k]);
        } else {
            assert(enc_int(n)[k] == dd[k]);
        }
    }
    assert(fits(s, st, dd));
    assert forall|k: int| st <= k < st + dd.len() implies is_digit(#[trigger] s[k]) by {
        assert(s[st + (k - st)] == dd[k - st]);
    }
    lemma_digits_end_run(s, st, st + dd.len());
    lemma_dval_run(s, st, m);
    assert(s[i + 0] == enc_int(n)[0]);
    if n < 0 {
        assert(s[i] == 45);
        assert(is_digit(s[st]));
    } else {
        assert(s[i] == dd[0]);
        assert(s[i] != 45);
    }
}

/// An encoded string literal reads back as its contents.
proof fn lemma_parse_str_enc(t: Seq<u8>, s: Seq<u8>, i: int)
    requires
        utf8(t),
        fits(s, i, enc_str(t)),
    ensures
        p_str(s, i + 1, Seq::empty()) == SRes::SOk(t, i + enc_str(t).len()),
{
    assert(enc_str(t) =~= seq![QUOTE] + (esc_from(t, 0) + seq![QUOTE]));
    lemma_fits_cat(s, i, seq![QUOTE], esc_from(t, 0) + seq![QUOTE]);
    lemma_p_str_run(s, i + 1, t, 0, Seq::empty());
    assert(Seq::<u8>::empty() + t.subrange(0, t.len() as int) =~= t);
}

/// Parsing the compact encoding of a well-formed value, in any buffer and
/// at any position, yields that value and stops just after it, provided
/// no digit follows directly.
#[verifier::rlimit(100)]
#[verifier::spinoff_prover]
pub proof fn lemma_parse_enc(v: JVal, s: Seq<u8>, i: int)
    requires
        wf(v),
        fits(s, i, enc(v)),
        i + enc(v).len() == s.len() || !is_digit(s[i + enc(v).len()]),
    ensures
        p_value(s, i) == PRes::Val(v, i + enc(v).len()),
    decreases v, 0nat, 0nat,
{
    lemma_enc_first(v);
    assert(s[i] == enc(v)[0]);
    match v {
        JVal::Absent => {
            assert(s[i + 1] == enc(v)[1] && s[i + 2] == enc(v)[2] && s[i + 3] == enc(v)[3]);
            assert(p_value(s, i) == PRes::Val(v, i + enc(v).len()));
        }
        JVal::Bool(b) => {
            if b {
                assert(s[i + 1] == enc(v)[1] && s[i + 2] == enc(v)[2] && s[i + 3] == enc(v)[3]);
            } else {
                assert(s[i + 1] == enc(v)[1] && s[i + 2] == enc(v)[2] && s[i + 3] == enc(v)[3]
                    && s[i + 4] == enc(v)[4]);
            }
            assert(p_value(s, i) == PRes::Val(v, i + enc(v).len()));
        }
        JVal::Int(n) => {
            lemma_parse_int_run(n, s, i);
            assert(p_value(s, i) == PRes::Val(v, i + enc(v).len()));
        }
        JVal::Str(t) => {
            lemma_parse_str_enc(t, s, i);
            assert(p_value(s, i) == PRes::Val(v, i + enc(v).len()));
        }
        JVal::Arr(es) => {
            assert(enc(v) =~= seq![LBRACKET] + (enc_elems(es, 0) + seq![RBRACKET]));
            lemma_fits_cat(s, i, seq![LBRACKET], enc_elems(es, 0) + seq![RBRACKET]);
            if es.len() == 0 {
                assert(s[i + 1] == (enc_elems(es, 0) + seq![RBRACKET])[0]);
                assert(skip_ws(s, i + 1) == i + 1);
                assert(p_elems(s, i + 1, Seq::empty(), true) == PRes::Val(
                    JVal::Arr(Seq::<JVal>::empty()),
                    i + 2,
                ));
                assert(es =~= Seq::<JVal>::empty());
            } else {
                assert(enc_elems(es, 0) + seq![RBRACKET] =~= enc(es[0]) + (enc_elems(es, 1)
                    + seq![RBRACKET]));
                lemma_parse_elems_at(es, 0, s, i + 1, Seq::empty(), true);
                assert(Seq::<JVal>::empty() + es.subrange(0, es.len() as int) =~= es);
                assert(enc(v).len() == 2 + enc_elems(es, 0).len());
                assert(enc_elems(es, 0).len() == enc(es[0]).len() + enc_elems(es, 1).len());
                assert(p_elems(s, i + 1, Seq::empty(), true) == PRes::Val(v, i + enc(v).len()));
            }
            assert(p_value(s, i) == p_elems(s, i + 1, Seq::empty(), true));
            assert(p_value(s, i) == PRes::Val(v, i + enc(v).len()));
        }
        JVal::Obj(ms) => {
            assert(enc(v) =~= seq![LBRACE] + (enc_members(ms, 0) + seq![RBRACE]));
            lemma_fits_cat(s, i, seq![LBRACE], enc_members(ms, 0) + seq![RBRACE]);
            if ms.len() == 0 {
                assert(s[i + 1] == (enc_members(ms, 0) + seq![RBRACE])[0]);
                assert(skip_ws(s, i + 1) == i + 1);
                assert(p_membs(s, i + 1, Seq::empty(), true) == PRes::Val(
                    JVal::Obj(Seq::<(Seq<u8>, JVal)>::empty()),
                    i + 2,
                ));
                assert(ms =~= Seq::<(Seq<u8>, JVal)>::empty());
            } else {
                assert(enc_members(ms, 0) + seq![RBRACE] =~= (enc_str(ms[0].0) + seq![COLON]
                    + enc(ms[0].1)) + (enc_members(ms, 1) + seq![RBRACE]));
                assert forall|k: int| 0 <= k < ms.len() implies utf8((#[trigger] ms[k]).0) by {
                    assert(wf(ms[k].1) && utf8(ms[k].0));
                }
                lemma_parse_membs_at(ms, 0, s, i + 1, Seq::empty(), true);
                assert(Seq::<(Seq<u8>, JVal)>::empty() + ms.subrange(0, ms.len() as int) =~= ms);
                assert(enc(v).len() == 2 + enc_members(ms, 0).len());
                assert(enc_members(ms, 0).len() == enc_str(ms[0].0).len() + 1 + enc(ms[0].1).len()
                    + enc_members(ms, 1).len());
                assert(p_membs(s, i + 1, Seq::empty(), true) == PRes::Val(v, i + enc(v).len()));
            }
            assert(p_value(s, i) == p_membs(s, i + 1, Seq::empty(), true));
            assert(p_value(s, i) == PRes::Val(v, i + enc(v).len()));
        }
    }
}

/// Parsing array elements `q..` when the text at `i` starts directly with
/// element `q`'s encoding.
proof fn lemma_parse_elems_at(es: Seq<JVal>, q: int, s: Seq<u8>, i: int, acc: Seq<JVal>, first: bool)
    requires
        0 <= q < es.len(),
        forall|k: int| q <= k < es.len() ==> wf(#[trigger] es[k]),
        fits(s, i, enc(es[q]) + (enc_elems(es, q + 1) + seq![RBRACKET])),
    ensures
        p_elems(s, i, acc, first) == PRes::Val(
            JVal::Arr(acc + es.subrange(q, es.len() as int)),
            i + enc(es[q]).len() + enc_elems(es, q + 1).len() + 1,
        ),
    decreases es, es.len() - q, 0nat,
{
    lemma_enc_first(es[q]);
    lemma_fits_cat(s, i, enc(es[q]), enc_elems(es, q + 1) + seq![RBRACKET]);
    assert(s[i] == enc(es[q])[0]);
    assert(skip_ws(s, i) == i);
    let k = i + enc(es[q]).len();
    assert(s[k] == (enc_elems(es, q + 1) + seq![RBRACKET])[0]);
    if q + 1 < es.len() {
        assert(s[k] == COMMA);
    } else {
        assert(s[k] == RBRACKET);
    }
    lemma_parse_enc(es[q], s, i);
    lemma_parse_elems_rest(es, q + 1, s, k, acc.push(es[q]));
    assert(acc.push(es[q]) + es.subrange(q + 1, es.len() as int) =~= acc + es.subrange(
        q,
        es.len() as int,
    ));
}

/// Parsing the continuation of an array: the text at `i` is the comma-led
/// encodings of elements `q..` and the closing bracket.
proof fn lemma_parse_elems_rest(es: Seq<JVal>, q: int, s: Seq<u8>, i: int, acc: Seq<JVal>)
    requires
        0 <= q <= es.len(),
        q >= 1 || es.len() == 0,
        forall|k: int| q <= k < es.len() ==> wf(#[trigger] es[k]),
        fits(s, i, enc_elems(es, q) + seq![RBRACKET]),
    ensures
        p_elems_rest(s, i, acc) == PRes::Val(
            JVal::Arr(acc + es.subrange(q, es.len() as int)),
            i + enc_elems(es, q).len() + 1,
        ),
    decreases es, es.len() - q, 1nat,
{
    if q == es.len() {
        assert(s[i] == (enc_elems(es, q) + seq![RBRACKET])[0]);
        assert(skip_ws(s, i) == i);
        assert(acc + es.subrange(q, es.len() as int) =~= acc);
    } else {
        assert(enc_elems(es, q) + seq![RBRACKET] =~= seq![COMMA] + (enc(es[q]) + (enc_elems(
            es,
            q + 1,
        ) + seq![RBRACKET])));
        lemma_fits_cat(s, i, seq![COMMA], enc(es[q]) + (enc_elems(es, q + 1) + seq![RBRACKET]));
        assert(s[i + 0] == seq![COMMA][0]);
        assert(s[i] == COMMA);
        assert(skip_ws(s, i) == i);
        lemma_parse_elems_at(es, q, s, i + 1, acc, false);
    }
}

/// Parsing mapping members `q..` when the text at `i` starts directly
/// with member `q`'s key.
#[verifier::rlimit(100)]
#[verifier::spinoff_prover]
proof fn lemma_parse_membs_at(
    ms: Seq<(Seq<u8>, JVal)>,
    q: int,
    s: Seq<u8>,
    i: int,
    acc: Seq<(Seq<u8>, JVal)>,
    first: bool,
)
    requires
        0 <= q < ms.len(),
        forall|k: int| q <= k < ms.len() ==> wf(#[trigger] ms[k].1),
        forall|k: int| q <= k < ms.len() ==> utf8((#[trigger] ms[k]).0),
        fits(
            s,
            i,
            (enc_str(ms[q].0) + seq![COLON] + enc(ms[q].1)) + (enc_members(ms, q + 1)
                + seq![RBRACE]),
        ),
    ensures
        p_membs(s, i, acc, first) == PRes::Val(
            JVal::Obj(acc + ms.subrange(q, ms.len() as int)),
            i + enc_str(ms[q].0).len() + 1 + enc(ms[q].1).len() + enc_members(ms, q + 1).len() + 1,
        ),
    decreases ms, ms.len() - q, 0nat,
{
    let key = ms[q].0;
    let w = ms[q].1;
    assert(enc_str(key) == seq![QUOTE] + esc_from(key, 0) + seq![QUOTE]);
    lemma_fits_cat(
        s,
        i,
        enc_str(key) + seq![COLON] + enc(w),
        enc_members(ms, q + 1) + seq![RBRACE],
    );
    assert(enc_str(key) + seq![COLON] + enc(w) =~= seq![QUOTE] + ((esc_from(key, 0)
        + seq![QUOTE]) + (seq![COLON] + enc(w))));
    lemma_fits_cat(s, i, seq![QUOTE], (esc_from(key, 0) + seq![QUOTE]) + (seq![COLON] + enc(w)));
    lemma_fits_cat(s, i + 1, esc_from(key, 0) + seq![QUOTE], seq![COLON] + enc(w));
    assert(s[i + 0] == seq![QUOTE][0]);
    assert(s[i] == QUOTE);
    assert(skip_ws(s, i) == i);
    lemma_p_str_run(s, i + 1, key, 0, Seq::empty());
    assert(Seq::<u8>::empty() + key.subrange(0, key.len() as int) =~= key);
    let k1 = i + 1 + esc_from(key, 0).len() + 1;
    assert(s[k1] == (seq![COLON] + enc(w))[0]);
    assert(skip_ws(s, k1) == k1);
    let j3 = k1 + 1;
    lemma_enc_first(w);
    lemma_fits_cat(s, k1, seq![COLON], enc(w));
    assert(s[j3] == enc(w)[0]);
    assert(skip_ws(s, j3) == j3);
    let k3 = j3 + enc(w).len();
    lemma_fits_cat(
        s,
        i + (enc_str(key) + seq![COLON] + enc(w)).len(),
        enc_members(ms, q + 1),
        seq![RBRACE],
    );
    assert(s[k3] == (enc_members(ms, q + 1) + seq![RBRACE])[0]);
    if q + 1 < ms.len() {
        assert(s[k3] == COMMA);
    } else {
        assert(s[k3] == RBRACE);
    }
    lemma_parse_enc(w, s, j3);
    lemma_parse_membs_rest(ms, q + 1, s, k3, acc.push((key, w)));
    assert(acc.push((key, w)) + ms.subrange(q + 1, ms.len() as int) =~= acc + ms.subrange(
        q,
        ms.len() as int,
    ));
}

/// Parsing the continuation of a mapping: the text at `i` is the
/// comma-led encodings of members `q..` and the closing brace.
proof fn lemma_parse_membs_rest(
    ms: Seq<(Seq<u8>, JVal)>,
    q: int,
    s: Seq<u8>,
    i: int,
    acc: Seq<(Seq<u8>, JVal)>,
)
    requires
        0 <= q <= ms.len(),
        q >= 1 || ms.len() == 0,
        forall|k: int| q <= k < ms.len() ==> wf(#[trigger] ms[k].1),
        forall|k: int| q <= k < ms.len() ==> utf8((#[trigger] ms[k]).0),
        fits(s, i, enc_members(ms, q) + seq![RBRACE]),
    ensures
        p_membs_rest(s, i, acc) == PRes::Val(
            JVal::Obj(acc + ms.subrange(q, ms.len() as int)),
            i + enc_members(ms, q).len() + 1,
        ),
    decreases ms, ms.len() - q, 1nat,
{
    if q == ms.len() {
        assert(s[i] == (enc_members(ms, q) + seq![RBRACE])[0]);
        assert(skip_ws(s, i) == i);
        assert(acc + ms.subrange(q, ms.len() as int) =~= acc);
    } else {
        assert(enc_members(ms, q) + seq![RBRACE] =~= seq![COMMA] + ((enc_str(ms[q].0)
            + seq![COLON] + enc(ms[q].1)) + (enc_members(ms, q + 1) + seq![RBRACE])));
        lemma_fits_cat(
            s,
            i,
            seq![COMMA],
            (enc_str(ms[q].0) + seq![COLON] + enc(ms[q].1)) + (enc_members(ms, q + 1)
                + seq![RBRACE]),
        );
        assert(s[i + 0] == seq![COMMA][0]);
        assert(s[i] == COMMA);
        assert(skip_ws(s, i) == i);
        lemma_parse_membs_at(ms, q, s, i + 1, acc, false);
    }
}

/// Indentation bytes: two spaces per level, all whitespace.
proof fn lemma_ind_ws(d: nat)
    ensures
        ind(d).len() == 2 * d,
        forall|k: int| 0 <= k < ind(d).len() ==> is_ws(#[trigger] ind(d)[k]),
    decreases d,
{
    if d > 0 {
        lemma_ind_ws((d - 1) as nat);
        assert forall|k: int| 0 <= k < ind(d).len() implies is_ws(#[trigger] ind(d)[k]) by {
            if k < ind((d - 1) as nat).len() {
                assert(ind(d)[k] == ind((d - 1) as nat)[k]);
            }
        }
    }
}

/// The pretty text of a value begins with the same byte as its compact
/// text.
proof fn lemma_encp_first(v: JVal, d: nat)
    ensures
        encp(v, d).len() >= 1,
        encp(v, d)[0] == enc(v)[0],
{
    lemma_enc_first(v);
}

/// Skipping the whitespace run `pad` standing at `a` lands on the first
/// byte after it, provided that byte is not whitespace.
proof fn lemma_skip_pad(s: Seq<u8>, a: int, pad: Seq<u8>)
    requires
        fits(s, a, pad),
        forall|k: int| 0 <= k < pad.len() ==> is_ws(#[trigger] pad[k]),
        a + pad.len() == s.len() || !is_ws(s[a + pad.len()]),
    ensures
        skip_ws(s, a) == a + pad.len(),
{
    assert forall|k: int| a <= k < a + pad.len() implies is_ws(#[trigger] s[k]) by {
        assert(s[a + (k - a)] == pad[k - a]);
    }
    lemma_skip_ws_run(s, a, a + pad.len());
}

/// Parsing the pretty encoding of a well-formed value, in any buffer and
/// at any position, yields that value and stops just after it, provided
/// no digit follows directly.
#[verifier::rlimit(100)]
#[verifier::spinoff_prover]
pub proof fn lemma_parse_encp(v: JVal, d: nat, s: Seq<u8>, i: int)
    requires
        wf(v),
        fits(s, i, encp(v, d)),
        i + encp(v, d).len() == s.len() || !is_digit(s[i + encp(v, d).len()]),
    ensures
        p_value(s, i) == PRes::Val(v, i + encp(v, d).len()),
    decreases v, 0nat, 0nat,
{
    lemma_enc_first(v);
    lemma_encp_first(v, d);
    assert(s[i] == encp(v, d)[0]);
    match v {
        JVal::Absent => {
            lemma_parse_enc(v, s, i);
        }
        JVal::Bool(_) => {
            lemma_parse_enc(v, s, i);
        }
        JVal::Int(_) => {
            lemma_parse_enc(v, s, i);
        }
        JVal::Str(_) => {
            lemma_parse_enc(v, s, i);
        }
        JVal::Arr(es) => {
            if es.len() == 0 {
                assert(s[i + 1] == encp(v, d)[1]);
                assert(skip_ws(s, i + 1) == i + 1);
                assert(p_elems(s, i + 1, Seq::empty(), true) == PRes::Val(
                    JVal::Arr(Seq::<JVal>::empty()),
                    i + 2,
                ));
                assert(es =~= Seq::<JVal>::empty());
            } else {
                assert(encp(v, d) =~= seq![LBRACKET] + ((seq![NEWLINE] + ind((d + 1) as nat)
                    + encp(es[0], (d + 1) as nat) + encp_elems(es, 1, (d + 1) as nat)) + (
                seq![NEWLINE] + ind(d) + seq![RBRACKET])));
                lemma_fits_cat(
                    s,
                    i,
                    seq![LBRACKET],
                    (seq![NEWLINE] + ind((d + 1) as nat) + encp(es[0], (d + 1) as nat)
                        + encp_elems(es, 1, (d + 1) as nat)) + (seq![NEWLINE] + ind(d)
                        + seq![RBRACKET]),
                );
                lemma_parse_pretty_elems_at(es, 0, d, s, i + 1, Seq::empty(), true);
                assert(Seq::<JVal>::empty() + es.subrange(0, es.len() as int) =~= es);
            }
            assert(p_value(s, i) == p_elems(s, i + 1, Seq::empty(), true));
        }
        JVal::Obj(ms) => {
            if ms.len() == 0 {
                assert(s[i + 1] == encp(v, d)[1]);
                assert(skip_ws(s, i + 1) == i + 1);
                assert(p_membs(s, i + 1, Seq::empty(), true) == PRes::Val(
                    JVal::Obj(Seq::<(Seq<u8>, JVal)>::empty()),
                    i + 2,
                ));
                assert(ms =~= Seq::<(Seq<u8>, JVal)>::empty());
            } else {
                assert(encp(v, d) =~= seq![LBRACE] + ((seq![NEWLINE] + ind((d + 1) as nat)
                    + enc_str(ms[0].0) + seq![COLON, SPACE] + encp(ms[0].1, (d + 1) as nat)
                    + encp_members(ms, 1, (d + 1) as nat)) + (seq![NEWLINE] + ind(d)
                    + seq![RBRACE])));
                lemma_fits_cat(
                    s,
                    i,
                    seq![LBRACE],
                    (seq![NEWLINE] + ind((d + 1) as nat) + enc_str(ms[0].0) + seq![COLON, SPACE]
                        + encp(ms[0].1, (d + 1) as nat) + encp_members(ms, 1, (d + 1) as nat)) + (
                    seq![NEWLINE] + ind(d) + seq![RBRACE]),
                );
                assert forall|k: int| 0 <= k < ms.len() implies utf8((#[trigger] ms[k]).0) by {
                    assert(wf(ms[k].1) && utf8(ms[k].0));
                }
                lemma_parse_pretty_membs_at(ms, 0, d, s, i + 1, Seq::empty(), true);
                assert(Seq::<(Seq<u8>, JVal)>::empty() + ms.subrange(0, ms.len() as int) =~= ms);
            }
            assert(p_value(s, i) == p_membs(s, i + 1, Seq::empty(), true));
        }
    }
}

/// Parsing pretty array elements `q..` when the text at `i` starts with
/// the newline and indentation that precede element `q`.
#[verifier::rlimit(100)]
#[verifier::spinoff_prover]
proof fn lemma_parse_pretty_elems_at(
    es: Seq<JVal>,
    q: int,
    d: nat,
    s: Seq<u8>,
    i: int,
    acc: Seq<JVal>,
    first: bool,
)
    requires
        0 <= q < es.len(),
        forall|k: int| q <= k < es.len() ==> wf(#[trigger] es[k]),
        fits(
            s,
            i,
            (seq![NEWLINE] + ind((d + 1) as nat) + encp(es[q], (d + 1) as nat) + encp_elems(
                es,
                q + 1,
                (d + 1) as nat,
            )) + (seq![NEWLINE] + ind(d) + seq![RBRACKET]),
        ),
    ensures
        p_elems(s, i, acc, first) == PRes::Val(
            JVal::Arr(acc + es.subrange(q, es.len() as int)),
            i + 1 + ind((d + 1) as nat).len() + encp(es[q], (d + 1) as nat).len() + encp_elems(
                es,
                q + 1,
                (d + 1) as nat,
            ).len() + 1 + ind(d).len() + 1,
        ),
    decreases es, es.len() - q, 0nat,
{
    let d1 = (d + 1) as nat;
    let pad = seq![NEWLINE] + ind(d1);
    let tail = seq![NEWLINE] + ind(d) + seq![RBRACKET];
    lemma_ind_ws(d1);
    lemma_ind_ws(d);
    lemma_enc_first(es[q]);
    lemma_encp_first(es[q], d1);
    assert((seq![NEWLINE] + ind(d1) + encp(es[q], d1) + encp_elems(es, q + 1, d1)) + tail =~= pad
        + (encp(es[q], d1) + (encp_elems(es, q + 1, d1) + tail)));
    lemma_fits_cat(s, i, pad, encp(es[q], d1) + (encp_elems(es, q + 1, d1) + tail));
    let j = i + pad.len();
    assert forall|k: int| 0 <= k < pad.len() implies is_ws(#[trigger] pad[k]) by {
        if k > 0 {
            assert(pad[k] == ind(d1)[k - 1]);
        }
    }
    assert(s[j + 0] == (encp(es[q], d1) + (encp_elems(es, q + 1, d1) + tail))[0]);
    assert(s[j] == encp(es[q], d1)[0]);
    lemma_skip_pad(s, i, pad);
    lemma_fits_cat(s, j, encp(es[q], d1), encp_elems(es, q + 1, d1) + tail);
    let k = j + encp(es[q], d1).len();
    assert(s[k + 0] == (encp_elems(es, q + 1, d1) + tail)[0]);
    if q + 1 < es.len() {
        assert(s[k] == COMMA);
    } else {
        assert(s[k] == NEWLINE);
    }
    lemma_parse_encp(es[q], d1, s, j);
    lemma_parse_pretty_elems_rest(es, q + 1, d, s, k, acc.push(es[q]));
    assert(acc.push(es[q]) + es.subrange(q + 1, es.len() as int) =~= acc + es.subrange(
        q,
        es.len() as int,
    ));
}

/// Parsing the continuation of a pretty array from the position just
/// after element `q - 1`.
#[verifier::rlimit(100)]
proof fn lemma_parse_pretty_elems_rest(es: Seq<JVal>, q: int, d: nat, s: Seq<u8>, i: int, acc: Seq<JVal>)
    requires
        0 <= q <= es.len(),
        q >= 1 || es.len() == 0,
        forall|k: int| q <= k < es.len() ==> wf(#[trigger] es[k]),
        fits(
            s,
            i,
            encp_elems(es, q, (d + 1) as nat) + (seq![NEWLINE] + ind(d) + seq![RBRACKET]),
        ),
    ensures
        p_elems_rest(s, i, acc) == PRes::Val(
            JVal::Arr(acc + es.subrange(q, es.len() as int)),
            i + encp_elems(es, q, (d + 1) as nat).len() + 1 + ind(d).len() + 1,
        ),
    decreases es, es.len() - q, 1nat,
{
    let d1 = (d + 1) as nat;
    let tail = seq![NEWLINE] + ind(d) + seq![RBRACKET];
    lemma_ind_ws(d);
    if q == es.len() {
        assert(encp_elems(es, q, d1) + tail =~= (seq![NEWLINE] + ind(d)) + seq![RBRACKET]);
        lemma_fits_cat(s, i, seq![NEWLINE] + ind(d), seq![RBRACKET]);
        let pad = seq![NEWLINE] + ind(d);
        assert forall|k: int| 0 <= k < pad.len() implies is_ws(#[trigger] pad[k]) by {
            if k > 0 {
                assert(pad[k] == ind(d)[k - 1]);
            }
        }
        let b = i + pad.len();
        assert(s[b + 0] == seq![RBRACKET][0]);
        lemma_skip_pad(s, i, pad);
        assert(acc + es.subrange(q, es.len() as int) =~= acc);
    } else {
        assert(encp_elems(es, q, d1) + tail =~= seq![COMMA] + ((seq![NEWLINE] + ind(d1) + encp(
            es[q],
            d1,
        ) + encp_elems(es, q + 1, d1)) + tail));
        lemma_fits_cat(
            s,
            i,
            seq![COMMA],
            (seq![NEWLINE] + ind(d1) + encp(es[q], d1) + encp_elems(es, q + 1, d1)) + tail,
        );
        assert(s[i + 0] == seq![COMMA][0]);
        assert(skip_ws(s, i) == i);
        lemma_parse_pretty_elems_at(es, q, d, s, i + 1, acc, false);
    }
}

/// Parsing pretty mapping members `q..` when the text at `i` starts with
/// the newline and indentation that precede member `q`.
#[verifier::rlimit(100)]
#[verifier::spinoff_prover]
proof fn lemma_parse_pretty_membs_at(
    ms: Seq<(Seq<u8>, JVal)>,
    q: int,
    d: nat,
    s: Seq<u8>,
    i: int,
    acc: Seq<(Seq<u8>, JVal)>,
    first: bool,
)
    requires
        0 <= q < ms.len(),
        forall|k: int| q <= k < ms.len() ==> wf(#[trigger] ms[k].1),
        forall|k: int| q <= k < ms.len() ==> utf8((#[trigger] ms[k]).0),
        fits(
            s,
            i,
            (seq![NEWLINE] + ind((d + 1) as nat) + enc_str(ms[q].0) + seq![COLON, SPACE] + encp(
                ms[q].1,
                (d + 1) as nat,
            ) + encp_members(ms, q + 1, (d + 1) as nat)) + (seq![NEWLINE] + ind(d)
                + seq![RBRACE]),
        ),
    ensures
        p_membs(s, i, acc, first) == PRes::Val(
            JVal::Obj(acc + ms.subrange(q, ms.len() as int)),
            i + 1 + ind((d + 1) as nat).len() + enc_str(ms[q].0).len() + 2 + encp(
                ms[q].1,
                (d + 1) as nat,
            ).len() + encp_members(ms, q + 1, (d + 1) as nat).len() + 1 + ind(d).len() + 1,
        ),
    decreases ms, ms.len() - q, 0nat,
{
    let d1 = (d + 1) as nat;
    let key = ms[q].0;
    let w = ms[q].1;
    let pad = seq![NEWLINE] + ind(d1);
    let tail = seq![NEWLINE] + ind(d) + seq![RBRACE];
    lemma_ind_ws(d1);
    lemma_ind_ws(d);
    lemma_enc_first(w);
    lemma_encp_first(w, d1);
    assert(enc_str(key) == seq![QUOTE] + esc_from(key, 0) + seq![QUOTE]);
    assert((seq![NEWLINE] + ind(d1) + enc_str(key) + seq![COLON, SPACE] + encp(w, d1)
        + encp_members(ms, q + 1, d1)) + tail =~= pad + (seq![QUOTE] + ((esc_from(key, 0)
        + seq![QUOTE]) + (seq![COLON] + (seq![SPACE] + (encp(w, d1) + (encp_members(ms, q + 1, d1)
        + tail)))))));
    lemma_fits_cat(
        s,
        i,
        pad,
        seq![QUOTE] + ((esc_from(key, 0) + seq![QUOTE]) + (seq![COLON] + (seq![SPACE] + (encp(
            w,
            d1,
        ) + (encp_members(ms, q + 1, d1) + tail))))),
    );
    assert forall|k: int| 0 <= k < pad.len() implies is_ws(#[trigger] pad[k]) by {
        if k > 0 {
            assert(pad[k] == ind(d1)[k - 1]);
        }
    }
    let j = i + pad.len();
    assert(s[j + 0] == (seq![QUOTE] + ((esc_from(key, 0) + seq![QUOTE]) + (seq![COLON] + (
    seq![SPACE] + (encp(w, d1) + (encp_members(ms, q + 1, d1) + tail))))))[0]);
    lemma_skip_pad(s, i, pad);
    lemma_fits_cat(
        s,
        j,
        seq![QUOTE],
        (esc_from(key, 0) + seq![QUOTE]) + (seq![COLON] + (seq![SPACE] + (encp(w, d1) + (
        encp_members(ms, q + 1, d1) + tail)))),
    );
    lemma_fits_cat(
        s,
        j + 1,
        esc_from(key, 0) + seq![QUOTE],
        seq![COLON] + (seq![SPACE] + (encp(w, d1) + (encp_members(ms, q + 1, d1) + tail))),
    );
    lemma_p_str_run(s, j + 1, key, 0, Seq::empty());
    assert(Seq::<u8>::empty() + key.subrange(0, key.len() as int) =~= key);
    let k1 = j + 1 + esc_from(key, 0).len() + 1;
    assert(s[k1 + 0] == (seq![COLON] + (seq![SPACE] + (encp(w, d1) + (encp_members(ms, q + 1, d1)
        + tail))))[0]);
    assert(skip_ws(s, k1) == k1);
    lemma_fits_cat(
        s,
        k1,
        seq![COLON],
        seq![SPACE] + (encp(w, d1) + (encp_members(ms, q + 1, d1) + tail)),
    );
    lemma_fits_cat(s, k1 + 1, seq![SPACE], encp(w, d1) + (encp_members(ms, q + 1, d1) + tail));
    let j3 = k1 + 2;
    assert(s[k1 + 1] == seq![SPACE][0]);
    assert(s[j3 + 0] == (encp(w, d1) + (encp_members(ms, q + 1, d1) + tail))[0]);
    assert(s[j3] == encp(w, d1)[0]);
    assert(skip_ws(s, k1 + 1) == j3) by {
        assert(is_ws(s[k1 + 1]));
        assert(!is_ws(s[j3]));
        assert(skip_ws(s, j3) == j3);
        assert(skip_ws(s, k1 + 1) == skip_ws(s, k1 + 2));
    }
    lemma_fits_cat(s, j3, encp(w, d1), encp_members(ms, q + 1, d1) + tail);
    let k3 = j3 + encp(w, d1).len();
    assert(s[k3 + 0] == (encp_members(ms, q + 1, d1) + tail)[0]);
    if q + 1 < ms.len() {
        assert(s[k3] == COMMA);
    } else {
        assert(s[k3] == NEWLINE);
    }
    lemma_parse_encp(w, d1, s, j3);
    lemma_parse_pretty_membs_rest(ms, q + 1, d, s, k3, acc.push((key, w)));
    assert(acc.push((key, w)) + ms.subrange(q + 1, ms.len() as int) =~= acc + ms.subrange(
        q,
        ms.len() as int,
    ));
}

/// Parsing the continuation of a pretty mapping from the position just
/// after member `q - 1`.
#[verifier::rlimit(100)]
proof fn lemma_parse_pretty_membs_rest(
    ms: Seq<(Seq<u8>, JVal)>,
    q: int,
    d: nat,
    s: Seq<u8>,
    i: int,
    acc: Seq<(Seq<u8>, JVal)>,
)
    requires
        0 <= q <= ms.len(),
        q >= 1 || ms.len() == 0,
        forall|k: int| q <= k < ms.len() ==> wf(#[trigger] ms[k].1),
        forall|k: int| q <= k < ms.len() ==> utf8((#[trigger] ms[k]).0),
        fits(
            s,
            i,
            encp_members(ms, q, (d + 1) as nat) + (seq![NEWLINE] + ind(d) + seq![RBRACE]),
        ),
    ensures
        p_membs_rest(s, i, acc) == PRes::Val(
            JVal::Obj(acc + ms.subrange(q, ms.len() as int)),
            i + encp_members(ms, q, (d + 1) as nat).len() + 1 + ind(d).len() + 1,
        ),
    decreases ms, ms.len() - q, 1nat,
{
    let d1 = (d + 1) as nat;
    let tail = seq![NEWLINE] + ind(d) + seq![RBRACE];
    lemma_ind_ws(d);
    if q == ms.len() {
        assert(encp_members(ms, q, d1) + tail =~= (seq![NEWLINE] + ind(d)) + seq![RBRACE]);
        lemma_fits_cat(s, i, seq![NEWLINE] + ind(d), seq![RBRACE]);
        let pad = seq![NEWLINE] + ind(d);
        assert forall|k: int| 0 <= k < pad.len() implies is_ws(#[trigger] pad[k]) by {
            if k > 0 {
                assert(pad[k] == ind(d)[k - 1]);
            }
        }
        let b = i + pad.len();
        assert(s[b + 0] == seq![RBRACE][0]);
        lemma_skip_pad(s, i, pad);
        assert(acc + ms.subrange(q, ms.len() as int) =~= acc);
    } else {
        assert(encp_members(ms, q, d1) + tail =~= seq![COMMA] + ((seq![NEWLINE] + ind(d1)
            + enc_str(ms[q].0) + seq![COLON, SPACE] + encp(ms[q].1, d1) + encp_members(
            ms,
            q + 1,
            d1,
        )) + tail));
        lemma_fits_cat(
            s,
            i,
            seq![COMMA],
            (seq![NEWLINE] + ind(d1) + enc_str(ms[q].0) + seq![COLON, SPACE] + encp(ms[q].1, d1)
                + encp_members(ms, q + 1, d1)) + tail,
        );
        assert(s[i + 0] == seq![COMMA][0]);
        assert(skip_ws(s, i) == i);
        lemma_parse_pretty_membs_at(ms, q, d, s, i + 1, acc, false);
    }
}

/// Round trip for pretty text: decoding the pretty encoding of any
/// well-formed value yields exactly that value.
pub proof fn lemma_round_trip_pretty(v: JVal)
    requires
        wf(v),
    ensures
        spec_decode(encp(v, 0)) == PDone::Val(v),
{
    let s = encp(v, 0);
    lemma_enc_first(v);
    lemma_encp_first(v, 0);
    assert(fits(s, 0, encp(v, 0)));
    assert(skip_ws(s, 0) == 0);
    lemma_parse_encp(v, 0, s, 0);
    assert(skip_ws(s, s.len() as int) == s.len() as int);
}

/// Round trip for compact text: decoding the compact encoding of any
/// well-formed value yields exactly that value.
pub proof fn lemma_round_trip_compact(v: JVal)
    requires
        wf(v),
    ensures
        spec_decode(enc(v)) == PDone::Val(v),
{
    let s = enc(v);
    lemma_enc_first(v);
    assert(fits(s, 0, enc(v)));
    assert(skip_ws(s, 0) == 0);
    lemma_parse_enc(v, s, 0);
    assert(skip_ws(s, s.len() as int) == s.len() as int);
}

/// Whitespace invariance: insignificant whitespace inserted before or
/// after a JSON document does not change the decoded value.
pub proof fn lemma_ws_padding(v: JVal, w1: Seq<u8>, w2: Seq<u8>)
    requires
        wf(v),
        forall|k: int| 0 <= k < w1.len() ==> is_ws(#[trigger] w1[k]),
        forall|k: int| 0 <= k < w2.len() ==> is_ws(#[trigger] w2[k]),
    ensures
        spec_decode(w1 + enc(v) + w2) == PDone::Val(v),
{
    let s = w1 + enc(v) + w2;
    let a = w1.len() as int;
    let b = a + enc(v).len();
    lemma_enc_first(v);
    assert forall|k: int| 0 <= k < enc(v).len() implies s[a + k] == enc(v)[k] by {
        assert((w1 + enc(v))[a + k] == enc(v)[k]);
    }
    assert(fits(s, a, enc(v)));
    assert forall|k: int| 0 <= k < a implies is_ws(#[trigger] s[k]) by {
        assert(s[k] == w1[k]);
    }
    assert(s[a] == enc(v)[0]);
    lemma_skip_ws_run(s, 0, a);
    assert forall|k: int| b <= k < s.len() implies is_ws(#[trigger] s[k]) by {
        assert(s[k] == w2[k - b]);
    }
    if b < s.len() {
        assert(s[b] == w2[0]);
    }
    lemma_parse_enc(v, s, a);
    lemma_skip_ws_run(s, b, s.len() as int);
}

/// Re-encoding is idempotent: whatever value the compact encoding of a
/// well-formed value decodes to, it re-encodes to the same compact text.
pub proof fn lemma_reencode_idempotent(v: JVal)
    requires
        wf(v),
    ensures
        spec_decode(enc(v)) matches PDone::Val(w) && enc(w) == enc(v),
{
    lemma_round_trip_compact(v);
}

} // verus!
