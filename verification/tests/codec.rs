use term_json::decode::{decode, DecodeError};
use term_json::encode::{encode_compact, encode_pretty};
use term_json::value::Value;

fn bytes(x: &str) -> Vec<u8> {
    x.as_bytes().to_vec()
}

fn obj(ms: Vec<(&str, Value)>) -> Value {
    Value::Obj(ms.into_iter().map(|(k, v)| (bytes(k), v)).collect())
}

#[test]
fn decode_scalars() {
    assert_eq!(decode(b"null"), Ok(Value::Absent));
    assert_eq!(decode(b"true"), Ok(Value::Bool(true)));
    assert_eq!(decode(b"false"), Ok(Value::Bool(false)));
    assert_eq!(decode(b"0"), Ok(Value::Int(0)));
    assert_eq!(decode(b"-12"), Ok(Value::Int(-12)));
    assert_eq!(decode(b"\"x\""), Ok(Value::Str(bytes("x"))));
}

#[test]
fn decode_containers() {
    assert_eq!(decode(b"[]"), Ok(Value::Arr(vec![])));
    assert_eq!(decode(b"{}"), Ok(Value::Obj(vec![])));
    assert_eq!(
        decode(b"[1,[2],{}]"),
        Ok(Value::Arr(vec![
            Value::Int(1),
            Value::Arr(vec![Value::Int(2)]),
            Value::Obj(vec![]),
        ]))
    );
}

#[test]
fn scenario_mapping_round_trip() {
    // input {"a":1,"b":[true,null,"x"]} decodes to the expected mapping,
    // with key order preserved as inserted, and re-encodes byte-identically
    let text = b"{\"a\":1,\"b\":[true,null,\"x\"]}";
    let expected = obj(vec![
        ("a", Value::Int(1)),
        (
            "b",
            Value::Arr(vec![Value::Bool(true), Value::Absent, Value::Str(bytes("x"))]),
        ),
    ]);
    let v = decode(text).unwrap();
    assert_eq!(v, expected);
    assert_eq!(encode_compact(&v), text.to_vec());
}

#[test]
fn scenario_pretty_exact_bytes() {
    // [1,2,3] pretty-prints to pinned, deterministic multi-line output
    let v = Value::Arr(vec![Value::Int(1), Value::Int(2), Value::Int(3)]);
    assert_eq!(encode_pretty(&v), b"[\n  1,\n  2,\n  3\n]".to_vec());
}

#[test]
fn pretty_nested_exact_bytes() {
    let v = obj(vec![
        ("a", Value::Int(1)),
        ("b", Value::Arr(vec![Value::Bool(true), Value::Absent])),
        ("c", Value::Obj(vec![])),
    ]);
    assert_eq!(
        encode_pretty(&v),
        b"{\n  \"a\": 1,\n  \"b\": [\n    true,\n    null\n  ],\n  \"c\": {}\n}".to_vec()
    );
}

#[test]
fn round_trip_compact_nested() {
    let v = obj(vec![
        ("k", Value::Arr(vec![Value::Int(-5), Value::Str(bytes("a\"b\\c"))])),
        ("m", obj(vec![("inner", Value::Bool(false))])),
    ]);
    assert_eq!(decode(&encode_compact(&v)), Ok(v));
}

#[test]
fn round_trip_pretty_nested() {
    let v = Value::Arr(vec![
        Value::Absent,
        obj(vec![("x", Value::Int(7))]),
        Value::Str(bytes("line\nfeed")),
        Value::Arr(vec![]),
    ]);
    assert_eq!(decode(&encode_pretty(&v)), Ok(v));
}

#[test]
fn reencode_idempotent() {
    let v = obj(vec![
        ("a", Value::Int(1)),
        ("b", Value::Arr(vec![Value::Bool(true), Value::Absent, Value::Str(bytes("x"))])),
    ]);
    let once = encode_compact(&v);
    let again = encode_compact(&decode(&once).unwrap());
    assert_eq!(again, once);
}

#[test]
fn whitespace_invariance() {
    let compact = decode(b"{\"a\":1,\"b\":[true,null]}").unwrap();
    let padded = decode(b" \t{ \"a\" : 1 ,\r\n \"b\" : [ true , null ] } \n").unwrap();
    assert_eq!(compact, padded);
}

#[test]
fn truncated_buffer_fails_with_format_error() {
    // a truncated document fails and never yields a partial value
    assert_eq!(decode(b"{\"a\":"), Err(DecodeError::FormatError(5)));
    assert_eq!(decode(b""), Err(DecodeError::FormatError(0)));
    assert_eq!(decode(b"[1,2"), Err(DecodeError::FormatError(4)));
    assert_eq!(decode(b"\"unterminated"), Err(DecodeError::FormatError(13)));
    assert_eq!(decode(b"tru"), Err(DecodeError::FormatError(0)));
}

#[test]
fn malformed_text_fails_with_format_error() {
    assert_eq!(decode(b"01"), Err(DecodeError::FormatError(0)));
    assert_eq!(decode(b"[1,]"), Err(DecodeError::FormatError(3)));
    assert_eq!(decode(b"{\"a\" 1}"), Err(DecodeError::FormatError(5)));
    assert_eq!(decode(b"1 x"), Err(DecodeError::FormatError(2)));
    assert_eq!(decode(b"nul"), Err(DecodeError::FormatError(0)));
    assert_eq!(decode(b"+1"), Err(DecodeError::FormatError(0)));
}

#[test]
fn range_boundary_round_trips_exactly() {
    // the extreme representable integers round-trip exactly
    let max = Value::Int(i64::MAX);
    let min = Value::Int(i64::MIN);
    assert_eq!(encode_compact(&max), b"9223372036854775807".to_vec());
    assert_eq!(encode_compact(&min), b"-9223372036854775808".to_vec());
    assert_eq!(decode(b"9223372036854775807"), Ok(max));
    assert_eq!(decode(b"-9223372036854775808"), Ok(min));
}

#[test]
fn one_beyond_range_fails_with_range_error() {
    assert_eq!(decode(b"9223372036854775808"), Err(DecodeError::RangeError(0)));
    assert_eq!(decode(b"-9223372036854775809"), Err(DecodeError::RangeError(0)));
    assert_eq!(decode(b"123456789012345678901234567890"), Err(DecodeError::RangeError(0)));
}

#[test]
fn string_escapes_decode() {
    assert_eq!(
        decode(b"\"a\\nb\\tc\\\\d\\\"e\\/f\\u0041\""),
        Ok(Value::Str(bytes("a\nb\tc\\d\"e/fA")))
    );
    assert_eq!(decode(b"\"\\u0000\""), Ok(Value::Str(vec![0])));
}

#[test]
fn string_escapes_encode() {
    let v = Value::Str(bytes("a\"b\\c\ncontrol:\x01"));
    assert_eq!(
        encode_compact(&v),
        b"\"a\\\"b\\\\c\\u000acontrol:\\u0001\"".to_vec()
    );
    assert_eq!(decode(&encode_compact(&v)), Ok(v));
}

#[test]
fn string_rejects_raw_control_and_unknown_escape() {
    assert_eq!(decode(b"\"\x01\""), Err(DecodeError::FormatError(1)));
    assert_eq!(decode(b"\"\\q\""), Err(DecodeError::FormatError(2)));
}

#[test]
fn unicode_escapes_decode_to_utf8() {
    // \uXXXX escapes decode to the UTF-8 bytes of the code point
    assert_eq!(decode(b"\"\\u00e9\""), Ok(Value::Str(bytes("\u{e9}"))));
    assert_eq!(decode(b"\"\\u00ff\""), Ok(Value::Str(bytes("\u{ff}"))));
    assert_eq!(decode(b"\"\\u20ac\""), Ok(Value::Str(bytes("\u{20ac}"))));
    // a surrogate pair decodes to one code point beyond the basic plane
    assert_eq!(decode(b"\"\\ud83d\\ude00\""), Ok(Value::Str(bytes("\u{1F600}"))));
    // re-encoding emits the raw UTF-8 bytes, unescaped
    let v = decode(b"\"\\u00e9\"").unwrap();
    assert_eq!(encode_compact(&v), "\"\u{e9}\"".as_bytes().to_vec());
}

#[test]
fn lone_or_misordered_surrogates_fail() {
    assert_eq!(decode(b"\"\\udc00\""), Err(DecodeError::FormatError(2)));
    assert_eq!(decode(b"\"\\ud800\""), Err(DecodeError::FormatError(8)));
    assert_eq!(decode(b"\"\\ud800\\u0041\""), Err(DecodeError::FormatError(8)));
}

#[test]
fn malformed_utf8_in_strings_fails() {
    // an invalid byte, an overlong form, a truncated sequence, and a raw
    // surrogate each fail at the start of the offending sequence
    assert_eq!(decode(b"\"\xff\""), Err(DecodeError::FormatError(1)));
    assert_eq!(decode(b"\"\xc0\x80\""), Err(DecodeError::FormatError(1)));
    assert_eq!(decode(b"\"\xc3\""), Err(DecodeError::FormatError(1)));
    assert_eq!(decode(b"\"\xed\xa0\x80\""), Err(DecodeError::FormatError(1)));
    assert_eq!(decode(b"\"a\xf5b\""), Err(DecodeError::FormatError(2)));
}

#[test]
fn valid_multibyte_utf8_is_kept() {
    // 2-, 3- and 4-byte sequences pass through and round-trip
    let text = "\u{e9}\u{20ac}\u{1F600}";
    let enc = format!("\"{}\"", text).into_bytes();
    assert_eq!(decode(&enc), Ok(Value::Str(bytes(text))));
}

#[test]
fn duplicate_and_ordered_keys_kept_as_inserted() {
    let v = decode(b"{\"b\":1,\"a\":2,\"b\":3}").unwrap();
    assert_eq!(
        v,
        obj(vec![("b", Value::Int(1)), ("a", Value::Int(2)), ("b", Value::Int(3))])
    );
    assert_eq!(encode_compact(&v), b"{\"b\":1,\"a\":2,\"b\":3}".to_vec());
}

#[test]
fn non_ascii_text_passes_through() {
    let text = "caf\u{e9}\u{1F600}";
    let v = Value::Str(bytes(text));
    let enc = encode_compact(&v);
    assert_eq!(enc, format!("\"{}\"", text).into_bytes());
    assert_eq!(decode(&enc), Ok(v));
}

#[test]
fn fractions_and_exponents_are_malformed_here() {
    // this codec models integers only; a fraction stops the number token
    assert_eq!(decode(b"1.5"), Err(DecodeError::FormatError(1)));
    assert_eq!(decode(b"1e3"), Err(DecodeError::FormatError(1)));
}

#[test]
fn pretty_scalars_and_empty_containers_exact_bytes() {
    assert_eq!(encode_pretty(&Value::Int(1)), b"1".to_vec());
    assert_eq!(encode_pretty(&Value::Absent), b"null".to_vec());
    assert_eq!(encode_pretty(&Value::Arr(vec![])), b"[]".to_vec());
    assert_eq!(encode_pretty(&Value::Obj(vec![])), b"{}".to_vec());
    assert_eq!(encode_pretty(&Value::Str(bytes("x"))), b"\"x\"".to_vec());
}

#[test]
fn encode_compact_scalars_exact_bytes() {
    assert_eq!(encode_compact(&Value::Absent), b"null".to_vec());
    assert_eq!(encode_compact(&Value::Bool(true)), b"true".to_vec());
    assert_eq!(encode_compact(&Value::Bool(false)), b"false".to_vec());
    assert_eq!(encode_compact(&Value::Int(0)), b"0".to_vec());
    assert_eq!(encode_compact(&Value::Int(-7)), b"-7".to_vec());
    assert_eq!(encode_compact(&Value::Str(vec![])), b"\"\"".to_vec());
}

#[test]
fn outer_padding_is_insignificant() {
    assert_eq!(decode(b" \t\r\n null \t\r\n"), Ok(Value::Absent));
    assert_eq!(decode(b"\n[1]\n"), Ok(Value::Arr(vec![Value::Int(1)])));
}

#[test]
fn deeply_nested_round_trip() {
    let mut v = Value::Int(1);
    for _ in 0..40 {
        v = Value::Arr(vec![v]);
    }
    let enc = encode_compact(&v);
    assert_eq!(decode(&enc), Ok(v));
}

#[test]
fn pretty_and_compact_decode_alike() {
    let v = obj(vec![
        ("list", Value::Arr(vec![Value::Int(10), Value::Int(-20)])),
        ("flag", Value::Bool(true)),
    ]);
    assert_eq!(decode(&encode_pretty(&v)), decode(&encode_compact(&v)));
}
