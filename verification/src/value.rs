//! The structured value model: JSON-representable host terms.

use vstd::prelude::*;

verus! {

/// A structured value as the host runtime sees it: the absent marker,
/// booleans, 64-bit signed integers, text (held as its UTF-8 bytes),
/// ordered sequences, and key-ordered mappings.
#[derive(Debug, PartialEq, Eq)]
pub enum Value {
    /// The absent/unit marker; corresponds to JSON `null`.
    Absent,
    /// A boolean.
    Bool(bool),
    /// A signed integer of the native width.
    Int(i64),
    /// Text, held as its UTF-8 bytes.
    Str(Vec<u8>),
    /// An ordered sequence of values.
    Arr(Vec<Value>),
    /// A mapping; key order is preserved as inserted.
    Obj(Vec<(Vec<u8>, Value)>),
}

/// The mathematical model of a [`Value`].
pub enum JVal {
    Absent,
    Bool(bool),
    Int(int),
    Str(Seq<u8>),
    Arr(Seq<JVal>),
    Obj(Seq<(Seq<u8>, JVal)>),
}

/// The model of an executable value.
pub open spec fn jval_of(v: Value) -> JVal
    decreases v,
{
    match v {
        Value::Absent => JVal::Absent,
        Value::Bool(b) => JVal::Bool(b),
        Value::Int(n) => JVal::Int(n as int),
        Value::Str(s) => JVal::Str(s@),
        Value::Arr(vs) => JVal::Arr(jvals_of(vs@)),
        Value::Obj(ms) => JVal::Obj(jmembers_of(ms@)),
    }
}

/// The models of a sequence of executable values, elementwise.
pub open spec fn jvals_of(s: Seq<Value>) -> Seq<JVal>
    decreases s,
{
    if s.len() == 0 {
        Seq::empty()
    } else {
        seq![jval_of(s[0])] + jvals_of(s.drop_first())
    }
}

/// The models of a sequence of executable members, elementwise.
pub open spec fn jmembers_of(s: Seq<(Vec<u8>, Value)>) -> Seq<(Seq<u8>, JVal)>
    decreases s,
{
    if s.len() == 0 {
        Seq::empty()
    } else {
        seq![(s[0].0@, jval_of(s[0].1))] + jmembers_of(s.drop_first())
    }
}

impl View for Value {
    type V = JVal;

    open spec fn view(&self) -> JVal {
        jval_of(*self)
    }
}

/// `jvals_of` maps elementwise.
pub proof fn lemma_jvals_of(s: Seq<Value>)
    ensures
        jvals_of(s).len() == s.len(),
        forall|i: int| 0 <= i < s.len() ==> jvals_of(s)[i] == jval_of(#[trigger] s[i]),
    decreases s.len(),
{
    if s.len() > 0 {
        lemma_jvals_of(s.drop_first());
        assert forall|i: int| 0 <= i < s.len() implies jvals_of(s)[i] == jval_of(
            #[trigger] s[i],
        ) by {
            if i > 0 {
                assert(s.drop_first()[i - 1] == s[i]);
            }
        }
    }
}

/// `jmembers_of` maps elementwise.
pub proof fn lemma_jmembers_of(s: Seq<(Vec<u8>, Value)>)
    ensures
        jmembers_of(s).len() == s.len(),
        forall|i: int| 0 <= i < s.len() ==> jmembers_of(s)[i] == ((#[trigger] s[i]).0@,
        jval_of(s[i].1)),
    decreases s.len(),
{
    if s.len() > 0 {
        lemma_jmembers_of(s.drop_first());
        assert forall|i: int| 0 <= i < s.len() implies jmembers_of(s)[i] == ((#[trigger] s[i]).0@,
        jval_of(s[i].1)) by {
            if i > 0 {
                assert(s.drop_first()[i - 1] == s[i]);
            }
        }
    }
}

/// Appending an executable value appends its model.
pub proof fn lemma_jvals_of_push(s: Seq<Value>, v: Value)
    ensures
        jvals_of(s.push(v)) == jvals_of(s).push(jval_of(v)),
{
    lemma_jvals_of(s.push(v));
    lemma_jvals_of(s);
    assert forall|i: int| 0 <= i < s.len() + 1 implies jvals_of(s.push(v))[i] == jvals_of(s).push(
        jval_of(v),
    )[i] by {
        if i < s.len() {
            assert(s.push(v)[i] == s[i]);
        } else {
            assert(s.push(v)[i] == v);
        }
    }
    assert(jvals_of(s.push(v)) =~= jvals_of(s).push(jval_of(v)));
}

/// Appending an executable member appends its model.
pub proof fn lemma_jmembers_of_push(s: Seq<(Vec<u8>, Value)>, m: (Vec<u8>, Value))
    ensures
        jmembers_of(s.push(m)) == jmembers_of(s).push((m.0@, jval_of(m.1))),
{
    lemma_jmembers_of(s.push(m));
    lemma_jmembers_of(s);
    assert forall|i: int| 0 <= i < s.len() + 1 implies jmembers_of(s.push(m))[i] == jmembers_of(
        s,
    ).push((m.0@, jval_of(m.1)))[i] by {
        if i < s.len() {
            assert(s.push(m)[i] == s[i]);
        } else {
            assert(s.push(m)[i] == m);
        }
    }
    assert(jmembers_of(s.push(m)) =~= jmembers_of(s).push((m.0@, jval_of(m.1))));
}

/// A UTF-8 continuation byte.
pub open spec fn is_cont(b: u8) -> bool {
    0x80 <= b < 0xC0
}

/// The length of the well-formed UTF-8 sequence starting at `i`, or 0
/// when the bytes at `i` start none: overlong forms, surrogate code
/// points, code points above U+10FFFF and truncated sequences all
/// yield 0.
pub open spec fn utf8_step(s: Seq<u8>, i: int) -> int {
    if !(0 <= i < s.len()) {
        0
    } else {
        let b = s[i];
        if b < 0x80 {
            1
        } else if 0xC2 <= b <= 0xDF {
            if i + 1 < s.len() && is_cont(s[i + 1]) {
                2
            } else {
                0
            }
        } else if b == 0xE0 {
            if i + 2 < s.len() && 0xA0 <= s[i + 1] <= 0xBF && is_cont(s[i + 2]) {
                3
            } else {
                0
            }
        } else if (0xE1 <= b <= 0xEC) || b == 0xEE || b == 0xEF {
            if i + 2 < s.len() && is_cont(s[i + 1]) && is_cont(s[i + 2]) {
                3
            } else {
                0
            }
        } else if b == 0xED {
            if i + 2 < s.len() && 0x80 <= s[i + 1] <= 0x9F && is_cont(s[i + 2]) {
                3
            } else {
                0
            }
        } else if b == 0xF0 {
            if i + 3 < s.len() && 0x90 <= s[i + 1] <= 0xBF && is_cont(s[i + 2]) && is_cont(
                s[i + 3],
            ) {
                4
            } else {
                0
            }
        } else if 0xF1 <= b <= 0xF3 {
            if i + 3 < s.len() && is_cont(s[i + 1]) && is_cont(s[i + 2]) && is_cont(s[i + 3]) {
                4
            } else {
                0
            }
        } else if b == 0xF4 {
            if i + 3 < s.len() && 0x80 <= s[i + 1] <= 0x8F && is_cont(s[i + 2]) && is_cont(
                s[i + 3],
            ) {
                4
            } else {
                0
            }
        } else {
            0
        }
    }
}

/// The bytes from `i` on are a sequence of well-formed UTF-8 sequences.
pub open spec fn utf8_from(s: Seq<u8>, i: int) -> bool
    decreases s.len() - i,
{
    if i >= s.len() {
        true
    } else {
        let l = utf8_step(s, i);
        l > 0 && utf8_from(s, i + l)
    }
}

/// The bytes are well-formed UTF-8 text.
pub open spec fn utf8(s: Seq<u8>) -> bool {
    utf8_from(s, 0)
}

/// A model value is well formed when every integer in it fits the native
/// 64-bit signed width and every string and key holds well-formed UTF-8
/// text.
pub open spec fn wf(v: JVal) -> bool
    decreases v,
{
    match v {
        JVal::Absent => true,
        JVal::Bool(_) => true,
        JVal::Int(n) => i64::MIN <= n <= i64::MAX,
        JVal::Str(s) => utf8(s),
        JVal::Arr(es) => forall|i: int| 0 <= i < es.len() ==> wf(#[trigger] es[i]),
        JVal::Obj(ms) => forall|i: int|
            0 <= i < ms.len() ==> wf(#[trigger] ms[i].1) && utf8(ms[i].0),
    }
}

} // verus!
