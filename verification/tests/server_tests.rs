use minikv::parser::Parser;
use minikv::resp::Array;
use minikv::resp::BulkString;
use minikv::resp::Payload;
use minikv::server::HandshakeState;
use minikv::server::Role;
use minikv::server::Server;

fn req(words: &[&str]) -> Array {
    let mut contents = Vec::new();
    for w in words {
        contents.push(BulkString(String::from(*w)));
    }
    Array::new(contents)
}

fn run(server: &mut Server, words: &[&str], now_ms: u64) -> Vec<u8> {
    let reply = Parser::from_array(req(words), server, now_ms).unwrap();
    reply.serialize()
}

#[test]
fn test_ping_replies_pong() {
    let mut server = Server::new(Role::Master);
    assert_eq!(run(&mut server, &["ping"], 0), b"+PONG\r\n".to_vec());
}

#[test]
fn test_echo_single_word() {
    let mut server = Server::new(Role::Master);
    assert_eq!(run(&mut server, &["echo", "hi"], 0), b"$2\r\nhi\r\n".to_vec());
}

#[test]
fn test_echo_joins_with_spaces() {
    let mut server = Server::new(Role::Master);
    assert_eq!(run(&mut server, &["echo", "a", "b"], 0), b"$3\r\na b\r\n".to_vec());
}

#[test]
fn test_set_then_get() {
    let mut server = Server::new(Role::Master);
    assert_eq!(run(&mut server, &["set", "foo", "bar"], 0), b"+OK\r\n".to_vec());
    assert_eq!(run(&mut server, &["get", "foo"], 0), b"$3\r\nbar\r\n".to_vec());
}

#[test]
fn test_get_missing_key() {
    let mut server = Server::new(Role::Master);
    assert_eq!(run(&mut server, &["get", "missingkey"], 0), b"$-1\r\n".to_vec());
}

#[test]
fn test_set_with_expiry() {
    let mut server = Server::new(Role::Master);
    assert_eq!(run(&mut server, &["set", "foo", "bar", "px", "50"], 1000), b"+OK\r\n".to_vec());
    // Still live right away ...
    assert_eq!(run(&mut server, &["get", "foo"], 1000), b"$3\r\nbar\r\n".to_vec());
    // ... and at the expiry instant itself ...
    assert_eq!(run(&mut server, &["get", "foo"], 1050), b"$3\r\nbar\r\n".to_vec());
    // ... but masked once the expiry has passed.
    assert_eq!(run(&mut server, &["get", "foo"], 1060), b"$-1\r\n".to_vec());
}

#[test]
fn test_overwrite_clears_expiry() {
    let mut server = Server::new(Role::Master);
    assert_eq!(run(&mut server, &["set", "foo", "bar", "px", "50"], 1000), b"+OK\r\n".to_vec());
    assert_eq!(run(&mut server, &["set", "foo", "baz"], 1010), b"+OK\r\n".to_vec());
    // No residual expiry from the first SET leaks into the new entry.
    assert_eq!(run(&mut server, &["get", "foo"], 5000), b"$3\r\nbaz\r\n".to_vec());
}

#[test]
fn test_info_master() {
    let mut server = Server::new(Role::Master);
    let reply = Parser::from_array(req(&["info"]), &mut server, 0).unwrap();
    let text = match reply {
        Payload::Bulk(BulkString(s)) => s,
        other => panic!("INFO must reply with a bulk string, got {:?}", other),
    };
    assert!(text.starts_with("role:master"));
    assert!(text.contains("master_replid:"));
    assert!(text.ends_with("master_repl_offset:0"));
    // role line + replid label + 40-character id + offset label and value
    assert_eq!(text.len(), "role:master".len() + "master_replid:".len() + 40
        + "master_repl_offset:0".len());
}

#[test]
fn test_info_slave() {
    let mut server = Server::new(Role::Slave);
    let reply = Parser::from_array(req(&["info"]), &mut server, 0).unwrap();
    let text = match reply {
        Payload::Bulk(BulkString(s)) => s,
        other => panic!("INFO must reply with a bulk string, got {:?}", other),
    };
    // A replica reports its role and omits the replication id and offset.
    assert_eq!(text, String::from("role:slave"));
}

#[test]
fn test_replication_id_is_alphanumeric() {
    let server = Server::new(Role::Master);
    let text = server.info();
    let id = &text["role:master".len() + "master_replid:".len()..][..40];
    assert!(id.chars().all(|c| c.is_ascii_alphanumeric()));
}

#[test]
fn test_reply_psync_shape() {
    let server = Server::new(Role::Master);
    let line = server.reply_psync();
    assert!(line.starts_with("FULLRESYNC "));
    assert!(line.ends_with(" 0"));
    assert_eq!(line.len(), "FULLRESYNC ".len() + 40 + " 0".len());
}

#[test]
fn test_empty_rdb_framing() {
    let server = Server::new(Role::Master);
    let rdb = server.empty_rdb();
    // 88 snapshot bytes framed as `$88\r\n<bytes>`, no trailing CRLF.
    assert_eq!(rdb.len(), 5 + 88);
    assert_eq!(rdb[..5].to_vec(), b"$88\r\n".to_vec());
    assert_eq!(rdb[5..14].to_vec(), b"REDIS0011".to_vec());
    assert_eq!(rdb[90..].to_vec(), vec![0xffu8, 0x5au8, 0xa2u8]);
}

#[test]
fn test_payload_splits_command_line() {
    let server = Server::new(Role::Slave);
    let p = server.payload("REPLCONF capa psync2").unwrap();
    let expected = Payload::Array(Array::new(vec![
        BulkString(String::from("REPLCONF")),
        BulkString(String::from("capa")),
        BulkString(String::from("psync2")),
    ]));
    assert_eq!(p, expected);
}

#[test]
fn test_handshake_sequence() {
    // The four outbound messages, in order; the caller reads one reply
    // between each send before advancing.
    let mut state = HandshakeState::Init;
    let mut wire: Vec<Vec<u8>> = Vec::new();
    while let Some(message) = state.message(6380) {
        wire.push(message.serialize());
        state = state.advance();
    }
    assert_eq!(state, HandshakeState::SentPsync);
    assert_eq!(state.advance(), HandshakeState::Done);
    let expected: Vec<Vec<u8>> = vec![
        b"*1\r\n$4\r\nping\r\n".to_vec(),
        b"*3\r\n$8\r\nREPLCONF\r\n$14\r\nlistening-port\r\n$4\r\n6380\r\n".to_vec(),
        b"*3\r\n$8\r\nREPLCONF\r\n$4\r\ncapa\r\n$6\r\npsync2\r\n".to_vec(),
        b"*3\r\n$5\r\nPSYNC\r\n$1\r\n?\r\n$2\r\n-1\r\n".to_vec(),
    ];
    assert_eq!(wire, expected);
}
