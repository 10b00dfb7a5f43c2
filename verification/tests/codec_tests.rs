//! The wire encoding, byte for byte, and the encode-then-rebuild round
//! trip on concrete values.
use redis_starter_rust::builder::{FeedResult, RespBuilder};
use redis_starter_rust::resp::RespData;

#[test]
fn encoding_is_byte_exact() {
    assert_eq!(
        RespData::SimpleString(b"OK".to_vec()).to_u8_vec(),
        b"+OK\r\n".to_vec()
    );
    assert_eq!(RespData::Integer(0).to_u8_vec(), b":0\r\n".to_vec());
    assert_eq!(RespData::Integer(-42).to_u8_vec(), b":-42\r\n".to_vec());
    assert_eq!(
        RespData::Integer(i64::MIN).to_u8_vec(),
        b":-9223372036854775808\r\n".to_vec()
    );
    assert_eq!(
        RespData::BulkString(b"hey".to_vec()).to_u8_vec(),
        b"$3\r\nhey\r\n".to_vec()
    );
    assert_eq!(
        RespData::BulkString(Vec::new()).to_u8_vec(),
        b"$0\r\n\r\n".to_vec()
    );
    assert_eq!(RespData::Null.to_u8_vec(), b"$-1\r\n".to_vec());
    assert_eq!(RespData::Array(Vec::new()).to_u8_vec(), b"*0\r\n".to_vec());
    let nested = RespData::Array(vec![
        RespData::Integer(7),
        RespData::Array(vec![RespData::SimpleString(b"hi".to_vec())]),
        RespData::BulkString(b"ab\r\ncd".to_vec()),
    ]);
    assert_eq!(
        nested.to_u8_vec(),
        b"*3\r\n:7\r\n*1\r\n+hi\r\n$6\r\nab\r\ncd\r\n".to_vec()
    );
}

/// Splits a wire stream into stripped line fragments.
fn lines(input: &[u8]) -> Vec<Vec<u8>> {
    let mut out = Vec::new();
    let mut cur = Vec::new();
    let mut i = 0;
    while i < input.len() {
        if i + 1 < input.len() && input[i] == 13 && input[i + 1] == 10 {
            out.push(cur);
            cur = Vec::new();
            i += 2;
        } else {
            cur.push(input[i]);
            i += 1;
        }
    }
    assert!(cur.is_empty());
    out
}

/// Feeds a value's own encoding back through a fresh builder and returns
/// what it rebuilds.
fn round_trip(v: RespData) -> RespData {
    let encoded = v.to_u8_vec();
    let mut b = RespBuilder::NotInitialized;
    let fragments = lines(&encoded);
    for (i, f) in fragments.iter().enumerate() {
        match b.feed_string(f.clone()).unwrap() {
            FeedResult::Next(next) => {
                assert!(i + 1 < fragments.len());
                b = next;
            }
            FeedResult::Done(rebuilt) => {
                assert_eq!(i + 1, fragments.len());
                return rebuilt;
            }
        }
    }
    unreachable!()
}

#[test]
fn encode_then_build_reproduces_the_value() {
    let cases = [
        RespData::SimpleString(b"PONG".to_vec()),
        RespData::Integer(-123),
        RespData::BulkString(b"hello".to_vec()),
        RespData::BulkString(b"with\r\nbreak".to_vec()),
        RespData::BulkString(Vec::new()),
        RespData::Array(Vec::new()),
        RespData::Array(vec![
            RespData::BulkString(b"SET".to_vec()),
            RespData::BulkString(b"hey".to_vec()),
            RespData::Integer(9),
            RespData::Array(vec![RespData::SimpleString(b"in".to_vec())]),
        ]),
    ];
    for v in cases {
        let encoded = v.to_u8_vec();
        let rebuilt = round_trip(v);
        // Structural equality, observed through the injective encoding.
        assert_eq!(rebuilt.to_u8_vec(), encoded);
    }
}
