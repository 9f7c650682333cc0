//! Encoding structured values to JSON text, compact and pretty.

use vstd::prelude::*;
use crate::value::{Value, JVal, jval_of, jvals_of, jmembers_of};

verus! {

pub const QUOTE: u8 = 34;

pub const BACKSLASH: u8 = 92;

pub const LBRACKET: u8 = 91;

pub const RBRACKET: u8 = 93;

pub const LBRACE: u8 = 123;

pub const RBRACE: u8 = 125;

pub const COMMA: u8 = 44;

pub const COLON: u8 = 58;

pub const SPACE: u8 = 32;

pub const NEWLINE: u8 = 10;

pub const MINUS: u8 = 45;

/// The ASCII digit for `d` when `d < 10`, else the lower-case hex letter.
pub open spec fn hex_digit(d: int) -> u8 {
    if d < 10 {
        (48 + d) as u8
    } else {
        (87 + d) as u8
    }
}

/// The decimal digits of `n`, most significant first.
pub open spec fn dec_digits(n: nat) -> Seq<u8>
    decreases n,
{
    if n < 10 {
        seq![(48 + n) as u8]
    } else {
        dec_digits(n / 10) + seq![(48 + n % 10) as u8]
    }
}

/// The JSON text of the integer `n`: an optional minus sign and decimal digits.
pub open spec fn enc_int(n: int) -> Seq<u8> {
    if n < 0 {
        seq![MINUS] + dec_digits((-n) as nat)
    } else {
        dec_digits(n as nat)
    }
}

/// The JSON escape of one string byte: quotes and backslashes get a
/// two-byte escape, control bytes a six-byte `\u00XX` escape, and every
/// other byte stands for itself.
pub open spec fn esc_byte(b: u8) -> Seq<u8> {
    if b == QUOTE {
        seq![BACKSLASH, QUOTE]
    } else if b == BACKSLASH {
        seq![BACKSLASH, BACKSLASH]
    } else if b < 32 {
        seq![BACKSLASH, 117u8, 48u8, 48u8, hex_digit(b as int / 16), hex_digit(b as int % 16)]
    } else {
        seq![b]
    }
}

/// The escaped form of the string bytes from position `i` on.
pub open spec fn esc_from(s: Seq<u8>, i: int) -> Seq<u8>
    decreases s.len() - i,
{
    if i < 0 || i >= s.len() {
        Seq::empty()
    } else {
        esc_byte(s[i]) + esc_from(s, i + 1)
    }
}

/// The JSON text of a string: its escaped bytes between double quotes.
pub open spec fn enc_str(s: Seq<u8>) -> Seq<u8> {
    seq![QUOTE] + esc_from(s, 0) + seq![QUOTE]
}

/// The compact JSON text of a value: no whitespace between tokens.
pub open spec fn enc(v: JVal) -> Seq<u8>
    decreases v, 0nat, 0nat,
{
    match v {
        JVal::Absent => seq![110u8, 117u8, 108u8, 108u8],
        JVal::Bool(b) => if b {
            seq![116u8, 114u8, 117u8, 101u8]
        } else {
            seq![102u8, 97u8, 108u8, 115u8, 101u8]
        },
        JVal::Int(n) => enc_int(n),
        JVal::Str(s) => enc_str(s),
        JVal::Arr(es) => seq![LBRACKET] + enc_elems(es, 0) + seq![RBRACKET],
        JVal::Obj(ms) => seq![LBRACE] + enc_members(ms, 0) + seq![RBRACE],
    }
}

/// The compact JSON text of the array elements from index `i` on, with a
/// leading comma before every element but the first of the array.
pub open spec fn enc_elems(es: Seq<JVal>, i: int) -> Seq<u8>
    decreases es, es.len() - i, 1nat,
{
    if i < 0 || i >= es.len() {
        Seq::empty()
    } else {
        (if i > 0 {
            seq![COMMA]
        } else {
            Seq::empty()
        }) + enc(es[i]) + enc_elems(es, i + 1)
    }
}

/// The compact JSON text of the mapping members from index `i` on.
pub open spec fn enc_members(ms: Seq<(Seq<u8>, JVal)>, i: int) -> Seq<u8>
    decreases ms, ms.len() - i, 1nat,
{
    if i < 0 || i >= ms.len() {
        Seq::empty()
    } else {
        (if i > 0 {
            seq![COMMA]
        } else {
            Seq::empty()
        }) + enc_str(ms[i].0) + seq![COLON] + enc(ms[i].1) + enc_members(ms, i + 1)
    }
}

/// Two spaces of indentation per nesting level.
pub open spec fn ind(d: nat) -> Seq<u8>
    decreases d,
{
    if d == 0 {
        Seq::empty()
    } else {
        ind((d - 1) as nat) + seq![SPACE, SPACE]
    }
}

/// The pretty JSON text of a value at nesting depth `d`: scalars as in the
/// compact form, non-empty containers with one element per line and
/// two-space indentation.
pub open spec fn encp(v: JVal, d: nat) -> Seq<u8>
    decreases v, 0nat, 0nat,
{
    match v {
        JVal::Absent => enc(v),
        JVal::Bool(_) => enc(v),
        JVal::Int(_) => enc(v),
        JVal::Str(_) => enc(v),
        JVal::Arr(es) => if es.len() == 0 {
            seq![LBRACKET, RBRACKET]
        } else {
            seq![LBRACKET, NEWLINE] + encp_elems(es, 0, (d + 1) as nat) + seq![NEWLINE] + ind(d)
                + seq![RBRACKET]
        },
        JVal::Obj(ms) => if ms.len() == 0 {
            seq![LBRACE, RBRACE]
        } else {
            seq![LBRACE, NEWLINE] + encp_members(ms, 0, (d + 1) as nat) + seq![NEWLINE] + ind(d)
                + seq![RBRACE]
        },
    }
}

/// The pretty JSON text of the array elements from index `i` on, each on
/// its own line at depth `d`.
pub open spec fn encp_elems(es: Seq<JVal>, i: int, d: nat) -> Seq<u8>
    decreases es, es.len() - i, 1nat,
{
    if i < 0 || i >= es.len() {
        Seq::empty()
    } else {
        (if i > 0 {
            seq![COMMA, NEWLINE]
        } else {
            Seq::empty()
        }) + ind(d) + encp(es[i], d) + encp_elems(es, i + 1, d)
    }
}

/// The pretty JSON text of the mapping members from index `i` on, each on
/// its own line at depth `d`, with a space after the colon.
pub open spec fn encp_members(ms: Seq<(Seq<u8>, JVal)>, i: int, d: nat) -> Seq<u8>
    decreases ms, ms.len() - i, 1nat,
{
    if i < 0 || i >= ms.len() {
        Seq::empty()
    } else {
        (if i > 0 {
            seq![COMMA, NEWLINE]
        } else {
            Seq::empty()
        }) + ind(d) + enc_str(ms[i].0) + seq![COLON, SPACE] + encp(ms[i].1, d) + encp_members(
            ms,
            i + 1,
            d,
        )
    }
}

/// Appends the decimal digits of `m`.
fn push_uint(out: &mut Vec<u8>, m: u64)
    ensures
        final(out)@ == old(out)@ + dec_digits(m as nat),
    decreases m,
{
    if m < 10 {
        out.push(48 + m as u8);
    } else {
        push_uint(out, m / 10);
        out.push(48 + (m % 10) as u8);
        proof {
            assert(out@ =~= old(out)@ + dec_digits(m as nat));
        }
    }
}

/// Appends the JSON text of the integer `n`.
fn push_int(out: &mut Vec<u8>, n: i64)
    ensures
        final(out)@ == old(out)@ + enc_int(n as int),
{
    if n < 0 {
        out.push(MINUS);
        let m: u64 = ((-(n as i128)) as u64);
        assert(m as nat == (-(n as int)) as nat);
        push_uint(out, m);
        proof {
            assert(out@ =~= old(out)@ + enc_int(n as int));
        }
    } else {
        push_uint(out, n as u64);
    }
}

/// Appends the JSON text of the string bytes `s`, quotes and escapes included.
#[verifier::loop_isolation(false)]
fn push_str(out: &mut Vec<u8>, s: &Vec<u8>)
    ensures
        final(out)@ == old(out)@ + enc_str(s@),
{
    out.push(QUOTE);
    let ghost base: Seq<u8> = out@;
    let n = s.len();
    let mut i: usize = 0;
    while i < n
        invariant
            n == s@.len(),
            i <= n,
            base + esc_from(s@, 0) == out@ + esc_from(s@, i as int),
        decreases n - i,
    {
        let b = s[i];
        if b == QUOTE {
            out.push(BACKSLASH);
            out.push(QUOTE);
        } else if b == BACKSLASH {
            out.push(BACKSLASH);
            out.push(BACKSLASH);
        } else if b < 32 {
            out.push(BACKSLASH);
            out.push(117);
            out.push(48);
            out.push(48);
            let hi = b / 16;
            let lo = b % 16;
            out.push(if hi < 10 { 48 + hi } else { 87 + hi });
            out.push(if lo < 10 { 48 + lo } else { 87 + lo });
        } else {
            out.push(b);
        }
        proof {
            assert(base + esc_from(s@, 0) =~= out@ + esc_from(s@, i + 1));
        }
        i = i + 1;
    }
    out.push(QUOTE);
    proof {
        assert(out@ =~= old(out)@ + enc_str(s@));
    }
}

/// Appends the compact JSON text of `v`.
#[verifier::loop_isolation(false)]
fn push_value(out: &mut Vec<u8>, v: &Value)
    ensures
        final(out)@ == old(out)@ + enc(v@),
    decreases v,
{
    match v {
        Value::Absent => {
            out.push(110);
            out.push(117);
            out.push(108);
            out.push(108);
            proof {
                assert(out@ =~= old(out)@ + enc(v@));
            }
        }
        Value::Bool(b) => {
            if *b {
                out.push(116);
                out.push(114);
                out.push(117);
                out.push(101);
            } else {
                out.push(102);
                out.push(97);
                out.push(108);
                out.push(115);
                out.push(101);
            }
            proof {
                assert(out@ =~= old(out)@ + enc(v@));
            }
        }
        Value::Int(n) => {
            push_int(out, *n);
        }
        Value::Str(s) => {
            push_str(out, s);
        }
        Value::Arr(vs) => {
            out.push(LBRACKET);
            let ghost esv: Seq<JVal> = jvals_of(vs@);
            let ghost base: Seq<u8> = out@;
            proof {
                crate::value::lemma_jvals_of(vs@);
            }
            let n = vs.len();
            let mut i: usize = 0;
            while i < n
                invariant
                    n == vs@.len(),
                    i <= n,
                    esv == jvals_of(vs@),
                    esv.len() == n,
                    forall|j: int| 0 <= j < n ==> esv[j] == jval_of(#[trigger] vs@[j]),
                    base + enc_elems(esv, 0) == out@ + enc_elems(esv, i as int),
                decreases n - i,
            {
                if i > 0 {
                    out.push(COMMA);
                }
                proof {
                    assert(decreases_to!(*v => v->Arr_0));
                    assert(v->Arr_0 == *vs);
                    assert(decreases_to!(*vs => vs@));
                    assert(decreases_to!(vs@ => vs@[i as int]));
                    assert(decreases_to!(*v => vs@[i as int]));
                }
                push_value(out, &vs[i]);
                proof {
                    assert(base + enc_elems(esv, 0) =~= out@ + enc_elems(esv, i + 1));
                }
                i = i + 1;
            }
            out.push(RBRACKET);
            proof {
                assert(out@ =~= old(out)@ + enc(v@));
            }
        }
        Value::Obj(ms) => {
            out.push(LBRACE);
            let ghost msv: Seq<(Seq<u8>, JVal)> = jmembers_of(ms@);
            let ghost base: Seq<u8> = out@;
            proof {
                crate::value::lemma_jmembers_of(ms@);
            }
            let n = ms.len();
            let mut i: usize = 0;
            while i < n
                invariant
                    n == ms@.len(),
                    i <= n,
                    msv == jmembers_of(ms@),
                    msv.len() == n,
                    forall|j: int| 0 <= j < n ==> msv[j] == ((#[trigger] ms@[j]).0@, jval_of(
                        ms@[j].1,
                    )),
                    base + enc_members(msv, 0) == out@ + enc_members(msv, i as int),
                decreases n - i,
            {
                if i > 0 {
                    out.push(COMMA);
                }
                push_str(out, &ms[i].0);
                out.push(COLON);
                proof {
                    assert(decreases_to!(*v => v->Obj_0));
                    assert(v->Obj_0 == *ms);
                    assert(decreases_to!(*ms => ms@));
                    assert(decreases_to!(ms@ => ms@[i as int]));
                    assert(decreases_to!(ms@[i as int] => ms@[i as int].1));
                    assert(decreases_to!(*v => ms@[i as int].1));
                }
                push_value(out, &ms[i].1);
                proof {
                    assert(base + enc_members(msv, 0) =~= out@ + enc_members(msv, i + 1));
                }
                i = i + 1;
            }
            out.push(RBRACE);
            proof {
                assert(out@ =~= old(out)@ + enc(v@));
            }
        }
    }
}

/// Serializes a structured value to minimal JSON text.
pub fn encode_compact(v: &Value) -> (out: Vec<u8>)
    ensures
        out@ == enc(v@),
{
    let mut out: Vec<u8> = Vec::new();
    push_value(&mut out, v);
    out
}

/// Appends a copy of the indentation bytes `pad`.
#[verifier::loop_isolation(false)]
fn push_pad(out: &mut Vec<u8>, pad: &Vec<u8>)
    ensures
        final(out)@ == old(out)@ + pad@,
{
    let n = pad.len();
    let mut i: usize = 0;
    while i < n
        invariant
            i <= n,
            out@ == old(out)@ + pad@.subrange(0, i as int),
        decreases n - i,
    {
        out.push(pad[i]);
        proof {
            assert(pad@.subrange(0, i + 1) =~= pad@.subrange(0, i as int) + seq![pad@[i as int]]);
        }
        i = i + 1;
    }
    proof {
        assert(pad@.subrange(0, n as int) =~= pad@);
    }
}

/// Appends the pretty JSON text of `v` at the nesting depth whose
/// indentation bytes are `pad`.
#[verifier::loop_isolation(false)]
#[verifier::rlimit(60)]
fn push_value_pretty(out: &mut Vec<u8>, v: &Value, pad: &Vec<u8>, Ghost(d): Ghost<nat>)
    requires
        pad@ == ind(d),
    ensures
        final(out)@ == old(out)@ + encp(v@, d),
    decreases v,
{
    match v {
        Value::Absent => {
            push_value(out, v);
        }
        Value::Bool(_) => {
            push_value(out, v);
        }
        Value::Int(_) => {
            push_value(out, v);
        }
        Value::Str(_) => {
            push_value(out, v);
        }
        Value::Arr(vs) => {
            if vs.len() == 0 {
                out.push(LBRACKET);
                out.push(RBRACKET);
                proof {
                    assert(out@ =~= old(out)@ + encp(v@, d));
                }
            } else {
                out.push(LBRACKET);
                out.push(NEWLINE);
                let mut pad2: Vec<u8> = Vec::new();
                push_pad(&mut pad2, pad);
                pad2.push(SPACE);
                pad2.push(SPACE);
                proof {
                    assert(pad2@ =~= ind(d + 1));
                }
                let ghost esv: Seq<JVal> = jvals_of(vs@);
                let ghost base: Seq<u8> = out@;
                proof {
                    crate::value::lemma_jvals_of(vs@);
                }
                let n = vs.len();
                let mut i: usize = 0;
                while i < n
                    invariant
                        i <= n,
                        pad2@ == ind(d + 1),
                        base + encp_elems(esv, 0, (d + 1) as nat) == out@ + encp_elems(
                            esv,
                            i as int,
                            (d + 1) as nat,
                        ),
                    decreases n - i,
                {
                    if i > 0 {
                        out.push(COMMA);
                        out.push(NEWLINE);
                    }
                    push_pad(out, &pad2);
                    proof {
                        assert(decreases_to!(*v => v->Arr_0));
                        assert(decreases_to!(*vs => vs@));
                        assert(decreases_to!(vs@ => vs@[i as int]));
                        assert(decreases_to!(*v => vs@[i as int]));
                    }
                    push_value_pretty(out, &vs[i], &pad2, Ghost((d + 1) as nat));
                    proof {
                        assert(base + encp_elems(esv, 0, (d + 1) as nat) =~= out@ + encp_elems(
                            esv,
                            i + 1,
                            (d + 1) as nat,
                        ));
                    }
                    i = i + 1;
                }
                out.push(NEWLINE);
                push_pad(out, pad);
                out.push(RBRACKET);
                proof {
                    assert(out@ =~= old(out)@ + encp(v@, d));
                }
            }
        }
        Value::Obj(ms) => {
            if ms.len() == 0 {
                out.push(LBRACE);
                out.push(RBRACE);
                proof {
                    assert(out@ =~= old(out)@ + encp(v@, d));
                }
            } else {
                out.push(LBRACE);
                out.push(NEWLINE);
                let mut pad2: Vec<u8> = Vec::new();
                push_pad(&mut pad2, pad);
                pad2.push(SPACE);
                pad2.push(SPACE);
                proof {
                    assert(pad2@ =~= ind(d + 1));
                }
                let ghost msv: Seq<(Seq<u8>, JVal)> = jmembers_of(ms@);
                let ghost base: Seq<u8> = out@;
                proof {
                    crate::value::lemma_jmembers_of(ms@);
                }
                let n = ms.len();
                let mut i: usize = 0;
                while i < n
                    invariant
                        i <= n,
                        pad2@ == ind(d + 1),
                        base + encp_members(msv, 0, (d + 1) as nat) == out@ + encp_members(
                            msv,
                            i as int,
                            (d + 1) as nat,
                        ),
                    decreases n - i,
                {
                    if i > 0 {
                        out.push(COMMA);
                        out.push(NEWLINE);
                    }
                    push_pad(out, &pad2);
                    push_str(out, &ms[i].0);
                    out.push(COLON);
                    out.push(SPACE);
                    proof {
                        assert(decreases_to!(*v => v->Obj_0));
                        assert(decreases_to!(*ms => ms@));
                        assert(decreases_to!(ms@ => ms@[i as int]));
                        assert(decreases_to!(ms@[i as int] => ms@[i as int].1));
                        assert(decreases_to!(*v => ms@[i as int].1));
                    }
                    push_value_pretty(out, &ms[i].1, &pad2, Ghost((d + 1) as nat));
                    proof {
                        assert(base + encp_members(msv, 0, (d + 1) as nat) =~= out@ + encp_members(
                            msv,
                            i + 1,
                            (d + 1) as nat,
                        ));
                    }
                    i = i + 1;
                }
                out.push(NEWLINE);
                push_pad(out, pad);
                out.push(RBRACE);
                proof {
                    assert(out@ =~= old(out)@ + encp(v@, d));
                }
            }
        }
    }
}

/// Serializes a structured value to JSON text with a fixed, deterministic
/// two-space indentation per nesting level.
pub fn encode_pretty(v: &Value) -> (out: Vec<u8>)
    ensures
        out@ == encp(v@, 0),
{
    let mut out: Vec<u8> = Vec::new();
    let pad: Vec<u8> = Vec::new();
    push_value_pretty(&mut out, v, &pad, Ghost(0nat));
    out
}

} // verus!
