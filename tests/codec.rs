use torrent_announce::codec::{decode, decode_at, encode, ParseErrorKind, DEFAULT_MAX_DEPTH};
use torrent_announce::value::{dict_insert, Value};

fn bytes(s: &str) -> Value {
    Value::Bytes(s.as_bytes().to_vec())
}

fn dict(pairs: Vec<(&str, Value)>) -> Value {
    let mut d = Vec::new();
    for (k, v) in pairs {
        dict_insert(&mut d, k.as_bytes().to_vec(), v);
    }
    Value::Dict(d)
}

#[test]
fn truncated_string_is_a_parse_error() {
    let r = decode(b"5:ab", DEFAULT_MAX_DEPTH);
    let e = r.unwrap_err();
    assert_eq!(e.kind, ParseErrorKind::LengthPastEnd);
}

#[test]
fn decodes_each_variant() {
    assert_eq!(decode(b"i42e", 8).unwrap(), Value::Integer(42));
    assert_eq!(decode(b"i-7e", 8).unwrap(), Value::Integer(-7));
    assert_eq!(decode(b"i0e", 8).unwrap(), Value::Integer(0));
    assert_eq!(decode(b"4:spam", 8).unwrap(), bytes("spam"));
    assert_eq!(decode(b"0:", 8).unwrap(), bytes(""));
    assert_eq!(
        decode(b"l4:spami3ee", 8).unwrap(),
        Value::List(vec![bytes("spam"), Value::Integer(3)])
    );
    assert_eq!(decode(b"d3:cow3:moo4:spam4:eggse", 8).unwrap(), dict(vec![("cow", bytes("moo")), ("spam", bytes("eggs"))]));
}

#[test]
fn integer_limits() {
    assert_eq!(decode(b"i9223372036854775807e", 8).unwrap(), Value::Integer(i64::MAX));
    assert_eq!(decode(b"i-9223372036854775808e", 8).unwrap(), Value::Integer(i64::MIN));
    assert_eq!(decode(b"i9223372036854775808e", 8).unwrap_err().kind, ParseErrorKind::IntegerOutOfRange);
    assert_eq!(decode(b"i-9223372036854775809e", 8).unwrap_err().kind, ParseErrorKind::IntegerOutOfRange);
}

#[test]
fn leading_zeros_and_negative_zero_are_refused() {
    assert_eq!(decode(b"i03e", 8).unwrap_err().kind, ParseErrorKind::LeadingZero);
    assert_eq!(decode(b"i-0e", 8).unwrap_err().kind, ParseErrorKind::LeadingZero);
    assert_eq!(decode(b"03:abc", 8).unwrap_err().kind, ParseErrorKind::LeadingZero);
}

#[test]
fn malformed_inputs_are_refused() {
    assert_eq!(decode(b"", 8).unwrap_err().kind, ParseErrorKind::UnexpectedEnd);
    assert_eq!(decode(b"ie", 8).unwrap_err().kind, ParseErrorKind::UnexpectedByte);
    assert_eq!(decode(b"i12", 8).unwrap_err().kind, ParseErrorKind::UnexpectedEnd);
    assert_eq!(decode(b"x", 8).unwrap_err().kind, ParseErrorKind::UnexpectedByte);
    assert_eq!(decode(b"l4:spam", 8).unwrap_err().kind, ParseErrorKind::UnexpectedEnd);
    assert_eq!(decode(b"d3:cowi1e", 8).unwrap_err().kind, ParseErrorKind::UnexpectedEnd);
    assert_eq!(decode(b"di1ei2ee", 8).unwrap_err().kind, ParseErrorKind::UnexpectedByte);
    assert_eq!(decode(b"i1ei2e", 8).unwrap_err().kind, ParseErrorKind::TrailingData);
    assert_eq!(decode(b"4:ab:", 8).unwrap_err().kind, ParseErrorKind::LengthPastEnd);
    assert_eq!(decode(b"99999999999999999999999:a", 8).unwrap_err().kind, ParseErrorKind::LengthPastEnd);
}

#[test]
fn duplicate_keys_are_refused() {
    assert_eq!(decode(b"d1:ai1e1:ai2ee", 8).unwrap_err().kind, ParseErrorKind::DuplicateKey);
}

#[test]
fn nesting_beyond_the_limit_is_refused() {
    assert_eq!(decode(b"llee", 2).unwrap(), Value::List(vec![Value::List(vec![])]));
    assert_eq!(decode(b"llee", 1).unwrap_err().kind, ParseErrorKind::TooDeep);
    let deep: Vec<u8> = std::iter::repeat(b'l').take(100_000).collect();
    assert!(decode(&deep, DEFAULT_MAX_DEPTH).is_err());
}

#[test]
fn decode_at_reports_bytes_consumed() {
    let buf = b"xxi42eyy";
    let (v, n) = decode_at(buf, 2, 8).unwrap();
    assert_eq!(v, Value::Integer(42));
    assert_eq!(n, 4);
    assert!(decode_at(buf, 9, 8).is_err());
}

#[test]
fn unsorted_mapping_is_read_and_written_sorted() {
    let v = decode(b"d4:spami1e3:cowi2ee", 8).unwrap();
    assert_eq!(encode(&v), b"d3:cowi2e4:spami1ee".to_vec());
}

#[test]
fn round_trip_of_values() {
    let values = vec![
        Value::Integer(0),
        Value::Integer(-123456789),
        Value::Bytes(vec![0, 255, 10, 58]),
        Value::List(vec![]),
        dict(vec![]),
        dict(vec![
            ("zeta", Value::List(vec![Value::Integer(1), bytes("x")])),
            ("alpha", dict(vec![("b", bytes("")), ("a", Value::Integer(-1))])),
            ("", Value::Bytes(vec![1, 2, 3])),
        ]),
    ];
    for v in values {
        let e = encode(&v);
        assert_eq!(decode(&e, DEFAULT_MAX_DEPTH).unwrap(), v);
    }
}

#[test]
fn insertion_order_does_not_change_the_encoding() {
    let a = dict(vec![("b", Value::Integer(2)), ("a", Value::Integer(1)), ("ab", Value::Integer(3))]);
    let b = dict(vec![("ab", Value::Integer(3)), ("b", Value::Integer(2)), ("a", Value::Integer(1))]);
    assert_eq!(a, b);
    assert_eq!(encode(&a), encode(&b));
    assert_eq!(encode(&a), b"d1:ai1e2:abi3e1:bi2ee".to_vec());
}

#[test]
fn keys_sort_by_raw_byte_value() {
    let mut d = Vec::new();
    dict_insert(&mut d, vec![0xff], Value::Integer(1));
    dict_insert(&mut d, vec![b'Z'], Value::Integer(2));
    dict_insert(&mut d, vec![b'a'], Value::Integer(3));
    dict_insert(&mut d, vec![b'a'], Value::Integer(4));
    let keys: Vec<Vec<u8>> = d.iter().map(|(k, _)| k.clone()).collect();
    assert_eq!(keys, vec![vec![b'Z'], vec![b'a'], vec![0xff]]);
    assert_eq!(d[1].1, Value::Integer(4));
}

#[test]
fn encoding_matches_serde_bencode() {
    let v = dict(vec![
        ("name", bytes("test.txt")),
        ("length", Value::Integer(1024)),
        ("list", Value::List(vec![Value::Integer(-5), bytes("q")])),
    ]);
    let ours = encode(&v);
    let theirs_value: serde_bencode::value::Value = serde_bencode::from_bytes(&ours).unwrap();
    let theirs = serde_bencode::to_bytes(&theirs_value).unwrap();
    assert_eq!(ours, theirs);
}

#[test]
fn unsorted_mapping_built_by_hand_is_written_sorted() {
    let v = Value::Dict(vec![
        (b"zz".to_vec(), Value::Integer(1)),
        (b"a".to_vec(), Value::List(vec![Value::Dict(vec![(b"y".to_vec(), Value::Integer(2)), (b"x".to_vec(), Value::Integer(3))])])),
    ]);
    assert_eq!(encode(&v), b"d1:ald1:xi3e1:yi2eee2:zzi1ee".to_vec());
}

#[test]
fn repeated_key_built_by_hand_keeps_the_last_binding() {
    let v = Value::Dict(vec![(b"k".to_vec(), Value::Integer(1)), (b"k".to_vec(), Value::Integer(2))]);
    assert_eq!(encode(&v), b"d1:ki2ee".to_vec());
}
