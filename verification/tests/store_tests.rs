//! The key-value store: replacement, lazy expiry at exact instants, and
//! expiry validation.
use redis_starter_rust::resp::RespError;
use redis_starter_rust::store::RedisInternalState;

#[test]
fn get_on_absent_key_is_none() {
    let mut s = RedisInternalState::new();
    assert_eq!(s.get_at(&b"missing".to_vec(), 0), None);
}

#[test]
fn set_then_get_round_trips() {
    let mut s = RedisInternalState::new();
    s.set_at(b"k".to_vec(), b"v".to_vec(), None, 10).unwrap();
    assert_eq!(s.get_at(&b"k".to_vec(), 10), Some(b"v".to_vec()));
    // A key without expiry outlives any instant.
    assert_eq!(s.get_at(&b"k".to_vec(), u64::MAX), Some(b"v".to_vec()));
}

#[test]
fn set_replaces_wholesale() {
    let mut s = RedisInternalState::new();
    s.set_at(b"k".to_vec(), b"old".to_vec(), Some(5), 100).unwrap();
    s.set_at(b"k".to_vec(), b"new".to_vec(), None, 100).unwrap();
    // The old expiry is gone along with the old value.
    assert_eq!(s.get_at(&b"k".to_vec(), 10_000), Some(b"new".to_vec()));
}

#[test]
fn expiry_is_strict_and_lazy() {
    let mut s = RedisInternalState::new();
    s.set_at(b"k".to_vec(), b"v".to_vec(), Some(100), 1000).unwrap();
    // The binding lives through instant 1100 exactly.
    assert_eq!(s.get_at(&b"k".to_vec(), 1100), Some(b"v".to_vec()));
    // One instant later it is expired: read as absent and removed.
    assert_eq!(s.get_at(&b"k".to_vec(), 1101), None);
    // Removed physically: even an earlier instant finds nothing now.
    assert_eq!(s.get_at(&b"k".to_vec(), 0), None);
}

#[test]
fn zero_expiry_lives_for_its_own_instant() {
    let mut s = RedisInternalState::new();
    s.set_at(b"k".to_vec(), b"v".to_vec(), Some(0), 50).unwrap();
    assert_eq!(s.get_at(&b"k".to_vec(), 50), Some(b"v".to_vec()));
    assert_eq!(s.get_at(&b"k".to_vec(), 51), None);
}

#[test]
fn negative_expiry_is_rejected_and_store_unchanged() {
    let mut s = RedisInternalState::new();
    s.set_at(b"k".to_vec(), b"v".to_vec(), None, 0).unwrap();
    let r = s.set_at(b"k".to_vec(), b"other".to_vec(), Some(-1), 0);
    assert_eq!(r.unwrap_err(), RespError::NegativeExpiry);
    assert_eq!(s.get_at(&b"k".to_vec(), 0), Some(b"v".to_vec()));
}

#[test]
fn clock_backed_set_and_get() {
    let mut s = RedisInternalState::new();
    s.set(b"k".to_vec(), b"v".to_vec(), None).unwrap();
    assert_eq!(s.get(&b"k".to_vec()), Some(b"v".to_vec()));
    assert_eq!(
        s.set(b"k".to_vec(), b"w".to_vec(), Some(-3)).unwrap_err(),
        RespError::NegativeExpiry
    );
    assert_eq!(s.get(&b"k".to_vec()), Some(b"v".to_vec()));
}
