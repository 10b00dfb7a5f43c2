//! The incremental builder, fragment by fragment: completions, nested
//! aggregates, and every parse error.
use redis_starter_rust::builder::{FeedResult, RespBuilder};
use redis_starter_rust::resp::{RespData, RespError};

/// Feeds fragments until the builder completes a value.
fn build(fragments: &[&[u8]]) -> Result<RespData, RespError> {
    let mut b = RespBuilder::NotInitialized;
    for (i, f) in fragments.iter().enumerate() {
        match b.feed_string(f.to_vec())? {
            FeedResult::Next(next) => {
                assert!(i + 1 < fragments.len(), "builder still waiting for input");
                b = next;
            }
            FeedResult::Done(v) => {
                assert_eq!(i + 1, fragments.len(), "value completed early");
                return Ok(v);
            }
        }
    }
    unreachable!()
}

fn wire(fragments: &[&[u8]]) -> Vec<u8> {
    build(fragments).unwrap().to_u8_vec()
}

#[test]
fn simple_string_completes_at_once() {
    assert_eq!(wire(&[b"+PING"]), b"+PING\r\n".to_vec());
    assert_eq!(wire(&[b"+"]), b"+\r\n".to_vec());
}

#[test]
fn integers_parse_signed() {
    assert_eq!(wire(&[b":42"]), b":42\r\n".to_vec());
    assert_eq!(wire(&[b":-5"]), b":-5\r\n".to_vec());
    assert_eq!(wire(&[b":+7"]), b":7\r\n".to_vec());
    assert_eq!(
        wire(&[b":9223372036854775807"]),
        b":9223372036854775807\r\n".to_vec()
    );
    assert_eq!(
        wire(&[b":-9223372036854775808"]),
        b":-9223372036854775808\r\n".to_vec()
    );
}

#[test]
fn bulk_string_accumulates_to_declared_size() {
    assert_eq!(wire(&[b"$3", b"hey"]), b"$3\r\nhey\r\n".to_vec());
    // An empty payload completes on the first (empty) fragment.
    assert_eq!(wire(&[b"$0", b""]), b"$0\r\n\r\n".to_vec());
    // A payload holding a line terminator spans several fragments.
    assert_eq!(wire(&[b"$6", b"ab", b"cd"]), b"$6\r\nab\r\ncd\r\n".to_vec());
}

#[test]
fn arrays_collect_children_in_order() {
    assert_eq!(
        wire(&[b"*2", b"$4", b"ECHO", b"$3", b"hey"]),
        b"*2\r\n$4\r\nECHO\r\n$3\r\nhey\r\n".to_vec()
    );
    // A zero-length array is complete the moment its header arrives.
    assert_eq!(wire(&[b"*0"]), b"*0\r\n".to_vec());
    // Mixed and nested children.
    assert_eq!(
        wire(&[b"*3", b":1", b"*2", b"+a", b"+b", b"$1", b"c"]),
        b"*3\r\n:1\r\n*2\r\n+a\r\n+b\r\n$1\r\nc\r\n".to_vec()
    );
}

#[test]
fn empty_fragment_is_rejected() {
    assert_eq!(build(&[b""]).unwrap_err(), RespError::EmptyInput);
}

#[test]
fn unknown_prefix_is_rejected() {
    assert_eq!(build(&[b"?hm"]).unwrap_err(), RespError::UnsupportedPrefix);
}

#[test]
fn malformed_integer_is_rejected() {
    assert_eq!(build(&[b":abc"]).unwrap_err(), RespError::InvalidInteger);
    assert_eq!(build(&[b":"]).unwrap_err(), RespError::InvalidInteger);
    assert_eq!(
        build(&[b":9223372036854775808"]).unwrap_err(),
        RespError::InvalidInteger
    );
}

#[test]
fn malformed_size_is_rejected() {
    assert_eq!(build(&[b"*x"]).unwrap_err(), RespError::InvalidSize);
    assert_eq!(build(&[b"$-1"]).unwrap_err(), RespError::InvalidSize);
    assert_eq!(build(&[b"$"]).unwrap_err(), RespError::InvalidSize);
}

#[test]
fn bulk_size_mismatch_is_rejected() {
    assert_eq!(
        build(&[b"$2", b"abc"]).unwrap_err(),
        RespError::BulkSizeMismatch
    );
}

#[test]
fn error_inside_array_surfaces() {
    assert_eq!(
        build(&[b"*2", b":bad"]).unwrap_err(),
        RespError::InvalidInteger
    );
}
