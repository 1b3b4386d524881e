use minikv::parser::Parser;
use minikv::resp::Array;
use minikv::resp::BulkString;
use minikv::resp::Payload;
use minikv::resp::RespError;
use minikv::server::Role;
use minikv::server::Server;

#[test]
fn test_extract_until_clrf() {
    let str = "192\r\n";
    assert_eq!(Parser::new().extract_until_clrf(str), ("192", 3));
}

#[test]
fn test_parse_bulk_string() {
    let str = "$10\r\nheyheyhey1\r\n";
    let expected = (BulkString(String::from("heyheyhey1")), str.chars().count());
    let actual = Parser::new().parse_bulk_string(str);
    assert_eq!(actual.unwrap(), expected);
}

#[test]
fn test_parse() {
    let str = "*2\r\n$4\r\necho\r\n$3\r\nhey\r\n";
    let expected = Array::new(vec![
        BulkString(String::from("echo")),
        BulkString(String::from("hey")),
    ]);

    let actual = Parser::new().parse(str);
    assert_eq!(actual.unwrap(), expected);
}

#[test]
fn test_parse_empty_array() {
    let actual = Parser::new().parse("*0\r\n");
    assert_eq!(actual.unwrap(), Array::new(vec![]));
}

#[test]
fn test_parse_wrong_array_sigil() {
    // A frame whose leading byte is not `*` is a frame error.
    let actual = Parser::new().parse("+2\r\n$4\r\necho\r\n$3\r\nhey\r\n");
    assert_eq!(actual, Err(RespError::Frame));
}

#[test]
fn test_parse_wrong_bulk_sigil() {
    // A bulk header whose leading byte is not `$` is a frame error.
    let actual = Parser::new().parse("*2\r\n#4\r\necho\r\n$3\r\nhey\r\n");
    assert_eq!(actual, Err(RespError::Frame));
}

#[test]
fn test_parse_bad_count() {
    let actual = Parser::new().parse("*x\r\n$4\r\necho\r\n");
    assert_eq!(actual, Err(RespError::Frame));
}

#[test]
fn test_parse_bad_length() {
    let actual = Parser::new().parse("*1\r\n$four\r\necho\r\n");
    assert_eq!(actual, Err(RespError::Frame));
}

#[test]
fn test_parse_truncated_body() {
    // The declared length runs past the end of the buffer.
    let actual = Parser::new().parse("*1\r\n$10\r\nhey\r\n");
    assert_eq!(actual, Err(RespError::Frame));
    let single = Parser::new().parse_bulk_string("$10\r\nhey");
    assert_eq!(single, Err(RespError::Frame));
}

#[test]
fn test_parse_missing_elements() {
    // Fewer bulk strings than the count declares.
    let actual = Parser::new().parse("*3\r\n$4\r\necho\r\n$3\r\nhey\r\n");
    assert_eq!(actual, Err(RespError::Frame));
}

#[test]
fn test_extract_without_clrf() {
    // With no CRLF the whole input comes back, with its character count.
    assert_eq!(Parser::new().extract_until_clrf("192"), ("192", 3));
}

#[test]
fn test_parse_count_overflow() {
    // A count too large for the machine is a frame error, not a panic.
    let actual = Parser::new().parse("*99999999999999999999\r\n$4\r\necho\r\n");
    assert_eq!(actual, Err(RespError::Frame));
}

#[test]
fn test_round_trip_array() {
    // Encoding an array and decoding the result yields the array back.
    let payload = Payload::Array(Array::new(vec![
        BulkString(String::from("set")),
        BulkString(String::from("some key")),
        BulkString(String::from("a value\r\nwith a line break")),
    ]));
    let wire = payload.to_string();
    let decoded = Parser::new().parse(&wire).unwrap();
    let expected = Array::new(vec![
        BulkString(String::from("set")),
        BulkString(String::from("some key")),
        BulkString(String::from("a value\r\nwith a line break")),
    ]);
    assert_eq!(decoded, expected);
}

#[test]
fn test_from_array_unsupported_command() {
    let mut server = Server::new(Role::Master);
    let request = Array::new(vec![BulkString(String::from("flushall"))]);
    let reply = Parser::from_array(request, &mut server, 0);
    assert_eq!(reply, Err(RespError::UnsupportedCommand));
}

#[test]
fn test_from_array_dispatch_ignores_case() {
    let mut server = Server::new(Role::Master);
    let request = Array::new(vec![BulkString(String::from("PiNg"))]);
    let reply = Parser::from_array(request, &mut server, 0).unwrap();
    assert_eq!(reply.serialize(), b"+PONG\r\n".to_vec());
}
