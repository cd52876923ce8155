use redis_starter_rust::{dispatch, error_reply, interpret, Command, RespError, RespValue, Store};

fn bulk(s: &str) -> RespValue {
    RespValue::BulkString(Some(s.as_bytes().to_vec()))
}

fn req(words: &[&str]) -> RespValue {
    RespValue::Array(words.iter().map(|w| bulk(w)).collect())
}

fn is_error(v: &RespValue) -> bool {
    matches!(v, RespValue::Error(_))
}

#[test]
fn ping_without_argument_is_pong() {
    let mut s = Store::new();
    let r = dispatch(&mut s, &req(&["PING"]), 0);
    assert_eq!(r.encode(), b"+PONG\r\n".to_vec());
}

#[test]
fn ping_with_argument_echoes_it() {
    let mut s = Store::new();
    assert_eq!(dispatch(&mut s, &req(&["PING", "abc"]), 0), bulk("abc"));
}

#[test]
fn verbs_ignore_case() {
    let mut s = Store::new();
    assert_eq!(
        dispatch(&mut s, &req(&["pInG"]), 0),
        RespValue::SimpleString("PONG".to_string())
    );
    assert_eq!(dispatch(&mut s, &req(&["echo", "x"]), 0), bulk("x"));
}

#[test]
fn echo_without_argument_is_an_error() {
    let mut s = Store::new();
    let r = dispatch(&mut s, &req(&["ECHO"]), 0);
    assert_eq!(r, RespValue::Error("Invalid ECHO command format".to_string()));
    assert_eq!(dispatch(&mut s, &req(&["ECHO", "hi"]), 0), bulk("hi"));
}

#[test]
fn unknown_verb_is_an_error() {
    let mut s = Store::new();
    let r = dispatch(&mut s, &req(&["FOO", "bar"]), 0);
    assert_eq!(r, RespValue::Error("Unknown command".to_string()));
    assert_eq!(
        dispatch(&mut s, &req(&["PING"]), 0),
        RespValue::SimpleString("PONG".to_string())
    );
}

#[test]
fn get_unwritten_is_null() {
    let mut s = Store::new();
    assert_eq!(dispatch(&mut s, &req(&["GET", "k"]), 0), RespValue::BulkString(None));
}

#[test]
fn set_then_get_returns_value() {
    let mut s = Store::new();
    assert_eq!(
        dispatch(&mut s, &req(&["SET", "k", "v"]), 0),
        RespValue::SimpleString("OK".to_string())
    );
    assert_eq!(dispatch(&mut s, &req(&["GET", "k"]), 5), bulk("v"));
}

#[test]
fn set_with_px_expires() {
    let mut s = Store::new();
    assert_eq!(
        dispatch(&mut s, &req(&["SET", "k", "v", "px", "100"]), 1000),
        RespValue::SimpleString("OK".to_string())
    );
    assert_eq!(dispatch(&mut s, &req(&["GET", "k"]), 1000), bulk("v"));
    assert_eq!(dispatch(&mut s, &req(&["GET", "k"]), 1100), bulk("v"));
    assert_eq!(dispatch(&mut s, &req(&["GET", "k"]), 1101), RespValue::BulkString(None));
}

#[test]
fn set_without_px_clears_earlier_expiry() {
    let mut s = Store::new();
    dispatch(&mut s, &req(&["SET", "k", "v1", "PX", "10"]), 0);
    dispatch(&mut s, &req(&["SET", "k", "v2"]), 1);
    assert_eq!(dispatch(&mut s, &req(&["GET", "k"]), 100_000), bulk("v2"));
}

#[test]
fn set_px_saturates_at_clock_end() {
    let mut s = Store::new();
    dispatch(&mut s, &req(&["SET", "k", "v", "PX", "18446744073709551615"]), 10);
    assert_eq!(dispatch(&mut s, &req(&["GET", "k"]), u64::MAX), bulk("v"));
}

#[test]
fn set_shape_errors() {
    let mut s = Store::new();
    assert!(is_error(&dispatch(&mut s, &req(&["SET", "k"]), 0)));
    assert!(is_error(&dispatch(&mut s, &req(&["SET", "k", "v", "PX"]), 0)));
    assert!(is_error(&dispatch(&mut s, &req(&["SET", "k", "v", "EX", "5"]), 0)));
    assert!(is_error(&dispatch(&mut s, &req(&["SET", "k", "v", "PX", "5", "x"]), 0)));
    assert_eq!(
        dispatch(&mut s, &req(&["SET", "k", "v", "PX", "-5"]), 0),
        RespValue::Error("Invalid PX value".to_string())
    );
    assert!(is_error(&dispatch(&mut s, &req(&["SET", "k", "v", "PX", "abc"]), 0)));
    assert_eq!(dispatch(&mut s, &req(&["GET", "k"]), 0), RespValue::BulkString(None));
}

#[test]
fn get_shape_errors() {
    let mut s = Store::new();
    assert_eq!(
        dispatch(&mut s, &req(&["GET"]), 0),
        RespValue::Error("Invalid GET command format".to_string())
    );
    assert!(is_error(&dispatch(&mut s, &req(&["GET", "a", "b"]), 0)));
}

#[test]
fn request_shape_errors() {
    let mut s = Store::new();
    assert_eq!(
        dispatch(&mut s, &RespValue::SimpleString("PING".to_string()), 0),
        RespValue::Error("Invalid request format".to_string())
    );
    assert_eq!(
        dispatch(&mut s, &RespValue::Array(vec![]), 0),
        RespValue::Error("Invalid command format".to_string())
    );
    assert_eq!(
        dispatch(&mut s, &RespValue::Array(vec![RespValue::Integer(1)]), 0),
        RespValue::Error("Invalid command format".to_string())
    );
}

#[test]
fn interpret_reads_set_with_px() {
    assert_eq!(
        interpret(&req(&["set", "k", "v", "Px", "+250"])),
        Ok(Command::SetKey(b"k".to_vec(), b"v".to_vec(), Some(250)))
    );
}

#[test]
fn error_reply_carries_the_text() {
    assert_eq!(
        error_reply(RespError::Parse("Parse error: x".to_string())),
        RespValue::Error("Parse error: x".to_string())
    );
}
