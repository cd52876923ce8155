use redis_starter_rust::{Connection, RespError, RespValue};

fn bulk(s: &str) -> RespValue {
    RespValue::BulkString(Some(s.as_bytes().to_vec()))
}

#[test]
fn waits_for_a_complete_request() {
    let mut c = Connection::new();
    c.receive(b"*1\r\n$4\r\nPI");
    assert_eq!(c.next_request(), None);
    c.receive(b"NG\r\n");
    assert_eq!(c.next_request(), Some(Ok(RespValue::Array(vec![bulk("PING")]))));
    assert_eq!(c.next_request(), None);
}

#[test]
fn reads_pipelined_requests_in_order() {
    let mut c = Connection::new();
    c.receive(b"*1\r\n$4\r\nPING\r\n*2\r\n$4\r\nECHO\r\n$2\r\nhi\r\n*1");
    assert_eq!(c.next_request(), Some(Ok(RespValue::Array(vec![bulk("PING")]))));
    assert_eq!(
        c.next_request(),
        Some(Ok(RespValue::Array(vec![bulk("ECHO"), bulk("hi")])))
    );
    assert_eq!(c.next_request(), None);
}

#[test]
fn malformed_bytes_are_reported_and_dropped() {
    let mut c = Connection::new();
    c.receive(b"!garbage\r\n");
    assert!(matches!(c.next_request(), Some(Err(RespError::Parse(_)))));
    assert_eq!(c.next_request(), None);
    c.receive(b"*1\r\n$4\r\nPING\r\n");
    assert_eq!(c.next_request(), Some(Ok(RespValue::Array(vec![bulk("PING")]))));
}
