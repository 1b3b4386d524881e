use minikv::resp::Array;
use minikv::resp::BulkString;
use minikv::resp::Payload;
use minikv::resp::SimpleString;

#[test]
fn test_serialize_simple() {
    let ss = Payload::Simple(SimpleString(String::from("ping")));
    assert_eq!(ss.to_string(), String::from("+ping\r\n"));
}

#[test]
fn test_serialize_bulk() {
    let bs = Payload::Bulk(BulkString(String::from("ping")));
    assert_eq!(bs.to_string(), String::from("$4\r\nping\r\n"));
}

#[test]
fn test_serialize_null() {
    assert_eq!(Payload::Null.to_string(), String::from("$-1\r\n"));
}

#[test]
fn test_serialize_array() {
    let arr = Payload::Array(Array::new(vec![
        BulkString(String::from("echo")),
        BulkString(String::from("hey")),
    ]));
    assert_eq!(arr.to_string(), String::from("*2\r\n$4\r\necho\r\n$3\r\nhey\r\n"));
}

#[test]
fn test_serialize_empty_array() {
    let arr = Payload::Array(Array::new(vec![]));
    assert_eq!(arr.to_string(), String::from("*0\r\n"));
}

#[test]
fn test_serialize_empty_bulk() {
    let bs = Payload::Bulk(BulkString(String::new()));
    assert_eq!(bs.to_string(), String::from("$0\r\n\r\n"));
}

#[test]
fn test_serialize_bytes() {
    let bs = Payload::Bulk(BulkString(String::from("hey")));
    assert_eq!(bs.serialize(), b"$3\r\nhey\r\n".to_vec());
}

#[test]
fn test_from_str_splits_on_whitespace() {
    let p = Payload::from_str("REPLCONF listening-port 6380");
    let expected = Payload::Array(Array::new(vec![
        BulkString(String::from("REPLCONF")),
        BulkString(String::from("listening-port")),
        BulkString(String::from("6380")),
    ]));
    assert_eq!(p, expected);
}

#[test]
fn test_from_str_unicode_whitespace() {
    // Words separate on any Unicode White_Space character, not only ASCII.
    let p = Payload::from_str("ping\u{a0}pong\u{2003}end");
    let expected = Payload::Array(Array::new(vec![
        BulkString(String::from("ping")),
        BulkString(String::from("pong")),
        BulkString(String::from("end")),
    ]));
    assert_eq!(p, expected);
}

#[test]
fn test_from_str_collapses_runs() {
    let p = Payload::from_str("  ping  ");
    let expected = Payload::Array(Array::new(vec![BulkString(String::from("ping"))]));
    assert_eq!(p, expected);
}
