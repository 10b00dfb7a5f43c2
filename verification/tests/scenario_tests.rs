//! End-to-end request scenarios: wire bytes in, reply bytes out, driven
//! line by line through the connection step exactly as a connection loop
//! would.
use redis_starter_rust::builder::RespBuilder;
use redis_starter_rust::driver::process_line;
use redis_starter_rust::engine::run_cmd_at;
use redis_starter_rust::resp::RespData;
use redis_starter_rust::store::RedisInternalState;

/// Splits a wire stream into stripped line fragments.
fn lines(input: &[u8]) -> Vec<Vec<u8>> {
    let mut out = Vec::new();
    let mut cur = Vec::new();
    let mut i = 0;
    while i < input.len() {
        if i + 1 < input.len() && input[i] == 13 && input[i + 1] == 10 {
            out.push(cur);
            cur = Vec::new();
            i += 2;
        } else {
            cur.push(input[i]);
            i += 1;
        }
    }
    assert!(cur.is_empty(), "unterminated trailing line");
    out
}

/// Feeds a whole wire stream to one connection's builder and store and
/// collects every reply's bytes, concatenated.
fn drive(state: &mut RedisInternalState, input: &[u8]) -> Vec<u8> {
    let mut builder = RespBuilder::NotInitialized;
    let mut replies = Vec::new();
    for line in lines(input) {
        let (next, action) = process_line(builder, line, state);
        builder = next;
        match action {
            Ok(Some(mut bytes)) => replies.append(&mut bytes),
            Ok(None) => {}
            Err(e) => panic!("request failed: {:?}", e),
        }
    }
    replies
}

#[test]
fn respond_to_a_ping() {
    let mut state = RedisInternalState::new();
    assert_eq!(drive(&mut state, b"+PING\r\n"), b"+PONG\r\n".to_vec());
}

#[test]
fn respond_to_multiple_pings() {
    let mut state = RedisInternalState::new();
    assert_eq!(
        drive(&mut state, b"+PING\r\n+PING\r\n"),
        b"+PONG\r\n+PONG\r\n".to_vec()
    );
}

#[test]
fn implement_the_echo_command() {
    let mut state = RedisInternalState::new();
    assert_eq!(
        drive(&mut state, b"*2\r\n$4\r\nECHO\r\n$3\r\nhey\r\n"),
        b"$3\r\nhey\r\n".to_vec()
    );
}

#[test]
fn implement_the_set_get_commands() {
    let mut state = RedisInternalState::new();
    assert_eq!(
        drive(&mut state, b"*3\r\n$3\r\nSET\r\n$3\r\nhey\r\n$2\r\nho\r\n"),
        b"+OK\r\n".to_vec()
    );
    assert_eq!(
        drive(&mut state, b"*2\r\n$3\r\nGET\r\n$3\r\nhey\r\n"),
        b"$2\r\nho\r\n".to_vec()
    );
    assert_eq!(
        drive(&mut state, b"*2\r\n$3\r\nGET\r\n$12\r\nnon_existing\r\n"),
        b"$-1\r\n".to_vec()
    );
    assert_eq!(
        drive(&mut state, b"*3\r\n$3\r\nSET\r\n$3\r\nhey\r\n$5\r\nhello\r\n"),
        b"+OK\r\n".to_vec()
    );
    assert_eq!(
        drive(&mut state, b"*2\r\n$3\r\nGET\r\n$3\r\nhey\r\n"),
        b"$5\r\nhello\r\n".to_vec()
    );
}

#[test]
fn expiry() {
    // Explicit instants stand in for the clock: SET ... PX 100 at t=1000
    // keeps the key until t=1100 and loses it strictly after.
    let mut state = RedisInternalState::new();
    let args = vec![
        RespData::BulkString(b"hey".to_vec()),
        RespData::BulkString(b"ho".to_vec()),
        RespData::BulkString(b"PX".to_vec()),
        RespData::BulkString(b"100".to_vec()),
    ];
    let reply = run_cmd_at(&b"SET".to_vec(), args, &mut state, 1000).unwrap();
    assert_eq!(reply.to_u8_vec(), b"+OK\r\n".to_vec());

    let get_args = || vec![RespData::BulkString(b"hey".to_vec())];
    let reply = run_cmd_at(&b"GET".to_vec(), get_args(), &mut state, 1050).unwrap();
    assert_eq!(reply.to_u8_vec(), b"$2\r\nho\r\n".to_vec());
    let reply = run_cmd_at(&b"GET".to_vec(), get_args(), &mut state, 1100).unwrap();
    assert_eq!(reply.to_u8_vec(), b"$2\r\nho\r\n".to_vec());
    let reply = run_cmd_at(&b"GET".to_vec(), get_args(), &mut state, 1101).unwrap();
    assert_eq!(reply.to_u8_vec(), b"$-1\r\n".to_vec());
    // The entry was physically removed: a read back at an early instant
    // still finds nothing.
    let reply = run_cmd_at(&b"GET".to_vec(), get_args(), &mut state, 0).unwrap();
    assert_eq!(reply.to_u8_vec(), b"$-1\r\n".to_vec());
}

#[test]
fn handle_concurrent_clients() {
    // Three independent connections, each with its own builder and store,
    // see no cross-talk.
    let mut states = [
        RedisInternalState::new(),
        RedisInternalState::new(),
        RedisInternalState::new(),
    ];
    for state in states.iter_mut() {
        assert_eq!(drive(state, b"+PING\r\n"), b"+PONG\r\n".to_vec());
    }
}

#[test]
fn parse_error_discards_builder_state() {
    // A malformed request surfaces its error and resets the builder; the
    // next request on the same connection is served normally.
    let mut state = RedisInternalState::new();
    let mut builder = RespBuilder::NotInitialized;
    let (next, action) = process_line(builder, b"?what".to_vec(), &mut state);
    builder = next;
    assert!(action.is_err());
    let (_, action) = process_line(builder, b"+PING".to_vec(), &mut state);
    assert_eq!(action.unwrap().unwrap(), b"+PONG\r\n".to_vec());
}
