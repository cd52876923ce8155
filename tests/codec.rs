use redis_starter_rust::{RespError, RespValue};

fn bulk(s: &[u8]) -> RespValue {
    RespValue::BulkString(Some(s.to_vec()))
}

fn round_trip(v: RespValue) {
    let bytes = v.encode();
    let (back, used) = RespValue::decode(&bytes).expect("decodes");
    assert_eq!(used, bytes.len());
    assert_eq!(back, v);
}

#[test]
fn encodes_simple_string() {
    assert_eq!(RespValue::SimpleString("OK".to_string()).encode(), b"+OK\r\n".to_vec());
}

#[test]
fn encodes_error() {
    assert_eq!(RespValue::Error("bad".to_string()).encode(), b"-bad\r\n".to_vec());
}

#[test]
fn encodes_integers() {
    assert_eq!(RespValue::Integer(0).encode(), b":0\r\n".to_vec());
    assert_eq!(RespValue::Integer(-42).encode(), b":-42\r\n".to_vec());
    assert_eq!(RespValue::Integer(i64::MIN).encode(), b":-9223372036854775808\r\n".to_vec());
    assert_eq!(RespValue::Integer(i64::MAX).encode(), b":9223372036854775807\r\n".to_vec());
}

#[test]
fn encodes_bulk_strings() {
    assert_eq!(bulk(b"hello").encode(), b"$5\r\nhello\r\n".to_vec());
    assert_eq!(bulk(b"").encode(), b"$0\r\n\r\n".to_vec());
    assert_eq!(RespValue::BulkString(None).encode(), b"$-1\r\n".to_vec());
}

#[test]
fn encodes_arrays() {
    let v = RespValue::Array(vec![bulk(b"GET"), bulk(b"k")]);
    assert_eq!(v.encode(), b"*2\r\n$3\r\nGET\r\n$1\r\nk\r\n".to_vec());
    assert_eq!(RespValue::Array(vec![]).encode(), b"*0\r\n".to_vec());
}

#[test]
fn round_trips_every_kind() {
    round_trip(RespValue::SimpleString("PONG".to_string()));
    round_trip(RespValue::SimpleString(String::new()));
    round_trip(RespValue::Error("ERR something".to_string()));
    round_trip(RespValue::Integer(12345));
    round_trip(RespValue::Integer(i64::MIN));
    round_trip(bulk(b"binary\r\n\x00\xff"));
    round_trip(RespValue::BulkString(None));
    round_trip(RespValue::Array(vec![]));
    round_trip(RespValue::Array(vec![
        RespValue::Integer(-1),
        RespValue::Array(vec![bulk(b"a"), RespValue::BulkString(None)]),
        RespValue::SimpleString("x".to_string()),
        bulk(b""),
    ]));
}

#[test]
fn decodes_utf8_text() {
    let (v, used) = RespValue::decode("+héllo\r\n".as_bytes()).unwrap();
    assert_eq!(v, RespValue::SimpleString("héllo".to_string()));
    assert_eq!(used, 9);
}

#[test]
fn leaves_trailing_bytes() {
    let (v, used) = RespValue::decode(b"+OK\r\n:5\r\n").unwrap();
    assert_eq!(v, RespValue::SimpleString("OK".to_string()));
    assert_eq!(used, 5);
    let (w, used2) = RespValue::decode(&b"+OK\r\n:5\r\n"[used..]).unwrap();
    assert_eq!(w, RespValue::Integer(5));
    assert_eq!(used2, 4);
}

#[test]
fn decodes_number_forms() {
    assert_eq!(RespValue::decode(b":+7\r\n").unwrap().0, RespValue::Integer(7));
    assert_eq!(RespValue::decode(b":-0\r\n").unwrap().0, RespValue::Integer(0));
    assert_eq!(RespValue::decode(b"$-1\r\n").unwrap(), (RespValue::BulkString(None), 5));
}

#[test]
fn empty_input_is_incomplete() {
    assert_eq!(RespValue::decode(b""), Err(RespError::Incomplete));
}

#[test]
fn unknown_type_byte_is_malformed() {
    assert!(matches!(RespValue::decode(b"?x\r\n"), Err(RespError::Parse(_))));
    assert!(matches!(RespValue::decode(b"hello"), Err(RespError::Parse(_))));
}

#[test]
fn non_numeric_length_is_malformed() {
    assert!(matches!(RespValue::decode(b"$abc\r\nxyz\r\n"), Err(RespError::Parse(_))));
    assert!(matches!(RespValue::decode(b"*x\r\n"), Err(RespError::Parse(_))));
    assert!(matches!(RespValue::decode(b"$\r\n"), Err(RespError::Parse(_))));
    assert!(matches!(RespValue::decode(b"*-2\r\n"), Err(RespError::Parse(_))));
    assert!(matches!(RespValue::decode(b"$-2\r\n"), Err(RespError::Parse(_))));
}

#[test]
fn truncated_bulk_string_is_incomplete() {
    let full = b"$5\r\nhello\r\n";
    for k in 0..full.len() {
        assert_eq!(RespValue::decode(&full[..k]), Err(RespError::Incomplete), "prefix {}", k);
    }
    assert!(RespValue::decode(full).is_ok());
}

#[test]
fn truncated_array_is_incomplete() {
    assert_eq!(RespValue::decode(b"*2\r\n$1\r\na\r\n"), Err(RespError::Incomplete));
}

#[test]
fn bad_bulk_terminator_is_malformed() {
    assert!(matches!(RespValue::decode(b"$2\r\nabXY"), Err(RespError::Parse(_))));
}

#[test]
fn line_without_line_feed_is_malformed() {
    assert!(matches!(RespValue::decode(b"+OK\rX"), Err(RespError::Parse(_))));
}

#[test]
fn invalid_utf8_text_is_malformed() {
    assert!(matches!(RespValue::decode(b"+\xff\xfe\r\n"), Err(RespError::Parse(_))));
    assert!(matches!(RespValue::decode(b"-\xc3\r\n"), Err(RespError::Parse(_))));
}

#[test]
fn integer_out_of_range_is_malformed() {
    assert!(matches!(RespValue::decode(b":9223372036854775808\r\n"), Err(RespError::Parse(_))));
    assert_eq!(
        RespValue::decode(b":-9223372036854775808\r\n").unwrap().0,
        RespValue::Integer(i64::MIN)
    );
    assert!(matches!(RespValue::decode(b":12a\r\n"), Err(RespError::Parse(_))));
}
