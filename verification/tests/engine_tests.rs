//! The command engine: dispatch, case-insensitive names, argument
//! validation, and every rejection it can produce.
use redis_starter_rust::engine::{run_array_at, run_cmd, run_cmd_at, run_simple_cmd};
use redis_starter_rust::resp::{RespData, RespError};
use redis_starter_rust::store::RedisInternalState;

fn bulk(s: &[u8]) -> RespData {
    RespData::BulkString(s.to_vec())
}

#[test]
fn ping_is_case_insensitive() {
    let mut s = RedisInternalState::new();
    for name in [&b"PING"[..], b"ping", b"PiNg"] {
        let r = run_cmd_at(&name.to_vec(), vec![], &mut s, 0).unwrap();
        assert_eq!(r.to_u8_vec(), b"+PONG\r\n".to_vec());
    }
    let r = run_simple_cmd(&b"ping".to_vec()).unwrap();
    assert_eq!(r.to_u8_vec(), b"+PONG\r\n".to_vec());
}

#[test]
fn unknown_commands_are_rejected() {
    let mut s = RedisInternalState::new();
    let r = run_cmd_at(&b"FLUSH".to_vec(), vec![], &mut s, 0);
    assert_eq!(r.unwrap_err(), RespError::UnknownCommand);
    let r = run_simple_cmd(&b"ECHO".to_vec());
    assert_eq!(r.unwrap_err(), RespError::UnknownCommand);
}

#[test]
fn echo_returns_first_argument_or_null() {
    let mut s = RedisInternalState::new();
    let r = run_cmd_at(&b"echo".to_vec(), vec![bulk(b"hey")], &mut s, 0).unwrap();
    assert_eq!(r.to_u8_vec(), b"$3\r\nhey\r\n".to_vec());
    let r = run_cmd_at(&b"ECHO".to_vec(), vec![], &mut s, 0).unwrap();
    assert_eq!(r.to_u8_vec(), b"$-1\r\n".to_vec());
    // ECHO hands back any value, even an aggregate.
    let arr = RespData::Array(vec![RespData::Integer(1), bulk(b"x")]);
    let r = run_cmd_at(&b"ECHO".to_vec(), vec![arr], &mut s, 0).unwrap();
    assert_eq!(r.to_u8_vec(), b"*2\r\n:1\r\n$1\r\nx\r\n".to_vec());
}

#[test]
fn set_validates_key_and_value() {
    let mut s = RedisInternalState::new();
    let r = run_cmd_at(&b"SET".to_vec(), vec![], &mut s, 0);
    assert_eq!(r.unwrap_err(), RespError::KeyNotString);
    let r = run_cmd_at(&b"SET".to_vec(), vec![RespData::Integer(1), bulk(b"v")], &mut s, 0);
    assert_eq!(r.unwrap_err(), RespError::KeyNotString);
    let r = run_cmd_at(&b"SET".to_vec(), vec![bulk(b"k")], &mut s, 0);
    assert_eq!(r.unwrap_err(), RespError::ValueNotString);
    let r = run_cmd_at(&b"SET".to_vec(), vec![bulk(b"k"), RespData::Null], &mut s, 0);
    assert_eq!(r.unwrap_err(), RespError::ValueNotString);
    // Simple strings serve as keys and values too.
    let args = vec![
        RespData::SimpleString(b"k".to_vec()),
        RespData::SimpleString(b"v".to_vec()),
    ];
    let r = run_cmd_at(&b"SET".to_vec(), args, &mut s, 0).unwrap();
    assert_eq!(r.to_u8_vec(), b"+OK\r\n".to_vec());
}

#[test]
fn set_expiry_arguments() {
    let mut s = RedisInternalState::new();
    // A third argument of any content demands a fourth.
    let args = vec![bulk(b"k"), bulk(b"v"), bulk(b"anything")];
    let r = run_cmd_at(&b"SET".to_vec(), args, &mut s, 0);
    assert_eq!(r.unwrap_err(), RespError::ExpiryNotInteger);
    // The span may be a native integer.
    let args = vec![bulk(b"k"), bulk(b"v"), bulk(b"PX"), RespData::Integer(100)];
    let r = run_cmd_at(&b"SET".to_vec(), args, &mut s, 1000).unwrap();
    assert_eq!(r.to_u8_vec(), b"+OK\r\n".to_vec());
    // An unparsable span is rejected.
    let args = vec![bulk(b"k"), bulk(b"v"), bulk(b"PX"), bulk(b"ten")];
    let r = run_cmd_at(&b"SET".to_vec(), args, &mut s, 0);
    assert_eq!(r.unwrap_err(), RespError::ExpiryNotInteger);
    // So is a span of the wrong type.
    let args = vec![bulk(b"k"), bulk(b"v"), bulk(b"PX"), RespData::Null];
    let r = run_cmd_at(&b"SET".to_vec(), args, &mut s, 0);
    assert_eq!(r.unwrap_err(), RespError::ExpiryNotInteger);
    // A negative span fails validation and the binding is untouched.
    let args = vec![bulk(b"k"), bulk(b"w"), bulk(b"PX"), bulk(b"-1")];
    let r = run_cmd_at(&b"SET".to_vec(), args, &mut s, 0);
    assert_eq!(r.unwrap_err(), RespError::NegativeExpiry);
    let r = run_cmd_at(&b"GET".to_vec(), vec![bulk(b"k")], &mut s, 1001).unwrap();
    assert_eq!(r.to_u8_vec(), b"$1\r\nv\r\n".to_vec());
}

#[test]
fn get_validates_key() {
    let mut s = RedisInternalState::new();
    let r = run_cmd_at(&b"GET".to_vec(), vec![], &mut s, 0);
    assert_eq!(r.unwrap_err(), RespError::KeyNotString);
    let r = run_cmd_at(&b"GET".to_vec(), vec![RespData::Integer(3)], &mut s, 0);
    assert_eq!(r.unwrap_err(), RespError::KeyNotString);
}

#[test]
fn array_requests_name_their_command_first() {
    let mut s = RedisInternalState::new();
    let r = run_array_at(vec![], &mut s, 0);
    assert_eq!(r.unwrap_err(), RespError::EmptyArray);
    let r = run_array_at(vec![RespData::Integer(1)], &mut s, 0);
    assert_eq!(r.unwrap_err(), RespError::CommandNotString);
    let r = run_array_at(vec![bulk(b"PING")], &mut s, 0).unwrap();
    assert_eq!(r.to_u8_vec(), b"+PONG\r\n".to_vec());
}

#[test]
fn top_level_shapes() {
    let mut s = RedisInternalState::new();
    let r = RespData::SimpleString(b"PING".to_vec()).run_at(&mut s, 0).unwrap();
    assert_eq!(r.to_u8_vec(), b"+PONG\r\n".to_vec());
    let r = RespData::BulkString(b"ping".to_vec()).run_at(&mut s, 0).unwrap();
    assert_eq!(r.to_u8_vec(), b"+PONG\r\n".to_vec());
    let r = RespData::Integer(7).run_at(&mut s, 0);
    assert_eq!(r.unwrap_err(), RespError::UnsupportedRequest);
    let r = RespData::Null.run_at(&mut s, 0);
    assert_eq!(r.unwrap_err(), RespError::UnsupportedRequest);
}

#[test]
fn clock_backed_run_cmd() {
    let mut s = RedisInternalState::new();
    let r = run_cmd(&b"SET".to_vec(), vec![bulk(b"k"), bulk(b"v")], &mut s).unwrap();
    assert_eq!(r.to_u8_vec(), b"+OK\r\n".to_vec());
    let r = run_cmd(&b"GET".to_vec(), vec![bulk(b"k")], &mut s).unwrap();
    assert_eq!(r.to_u8_vec(), b"$1\r\nv\r\n".to_vec());
}
