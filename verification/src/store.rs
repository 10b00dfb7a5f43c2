//! The key-value store: a mapping from byte-string key to value and
//! optional absolute expiry instant (milliseconds), with lazy deletion of
//! expired entries on the read path. Its ghost state is a `Map`, and the
//! effect of each operation is pinned by the spec functions `spec_set` and
//! `spec_get`.
use vstd::prelude::*;

use crate::resp::{clone_bytes, RespError};

verus! {

broadcast use vstd::std_specs::vec::group_vec_axioms, vstd::seq::group_seq_axioms;

/// The ghost state of the store: key to (expiry, value).
pub type StoreModel = Map<Seq<u8>, (Option<u128>, Seq<u8>)>;

/// One stored binding.
struct Entry {
    key: Vec<u8>,
    expiry: Option<u128>,
    value: Vec<u8>,
}

/// The map denoted by a sequence of entries; later entries shadow earlier
/// ones, though the store keeps keys unique.
spec fn map_of(s: Seq<Entry>) -> StoreModel
    decreases s.len(),
{
    if s.len() == 0 {
        Map::empty()
    } else {
        map_of(s.drop_last()).insert(
            s.last().key@,
            (s.last().expiry, s.last().value@),
        )
    }
}

/// No two entries share a key.
spec fn keys_unique(s: Seq<Entry>) -> bool {
    forall|i: int, j: int|
        0 <= i < j < s.len() ==> #[trigger] s[i].key@ != #[trigger] s[j].key@
}

/// A key is in the map exactly when some entry holds it.
proof fn lemma_map_of_contains(s: Seq<Entry>, k: Seq<u8>)
    ensures
        map_of(s).contains_key(k) <==> exists|i: int| 0 <= i < s.len() && s[i].key@ == k,
    decreases s.len(),
{
    if s.len() > 0 {
        lemma_map_of_contains(s.drop_last(), k);
        if s.last().key@ == k {
            assert(s[s.len() - 1].key@ == k);
        } else if map_of(s).contains_key(k) {
            let i = choose|i: int| 0 <= i < s.len() - 1 && s.drop_last()[i].key@ == k;
            assert(s[i].key@ == k);
        } else {
            assert forall|i: int| 0 <= i < s.len() implies s[i].key@ != k by {
                if i < s.len() - 1 {
                    assert(s.drop_last()[i].key@ == s[i].key@);
                }
            }
        }
    }
}

/// With unique keys, the map's binding for an entry's key is that entry.
proof fn lemma_map_of_get(s: Seq<Entry>, i: int)
    requires
        keys_unique(s),
        0 <= i < s.len(),
    ensures
        map_of(s).contains_key(s[i].key@),
        map_of(s)[s[i].key@] == (s[i].expiry, s[i].value@),
    decreases s.len(),
{
    if i == s.len() - 1 {
    } else {
        assert(keys_unique(s.drop_last())) by {
            assert(forall|a: int, b: int|
                0 <= a < b < s.len() - 1
                    ==> #[trigger] s.drop_last()[a].key@ != #[trigger] s.drop_last()[b].key@);
        }
        assert(s.drop_last()[i].key@ == s[i].key@);
        lemma_map_of_get(s.drop_last(), i);
        assert(s[i].key@ != s.last().key@);
    }
}

/// With unique keys, removing the entry that holds `k` removes `k` from the
/// map and nothing else.
proof fn lemma_map_of_remove(s: Seq<Entry>, i: int, k: Seq<u8>)
    requires
        keys_unique(s),
        0 <= i < s.len(),
        s[i].key@ == k,
    ensures
        map_of(s.remove(i)) =~= map_of(s).remove(k),
    decreases s.len(),
{
    assert(keys_unique(s.drop_last())) by {
        assert(forall|a: int, b: int|
            0 <= a < b < s.len() - 1
                ==> #[trigger] s.drop_last()[a].key@ != #[trigger] s.drop_last()[b].key@);
    }
    if i == s.len() - 1 {
        assert(s.remove(i) =~= s.drop_last());
        lemma_map_of_contains(s.drop_last(), k);
        assert forall|a: int| 0 <= a < s.len() - 1 implies s.drop_last()[a].key@ != k by {
            assert(s[a].key@ != s[i].key@);
        }
        assert(!map_of(s.drop_last()).contains_key(k));
        assert(map_of(s.drop_last()).insert(k, (s.last().expiry, s.last().value@)).remove(k)
            =~= map_of(s.drop_last()));
    } else {
        assert(s.remove(i).drop_last() =~= s.drop_last().remove(i));
        assert(s.remove(i).last() == s.last());
        assert(s.drop_last()[i].key@ == k);
        lemma_map_of_remove(s.drop_last(), i, k);
        assert(s.last().key@ != k) by {
            assert(s[i].key@ != s[s.len() - 1].key@);
        }
    }
}

/// The absolute expiry instant demanded by a `SET`: now plus the given
/// non-negative span, or none.
pub open spec fn abs_expiry(expiry: Option<i64>, now: u64) -> Option<u128> {
    match expiry {
        None => None,
        Some(e) => Some((now + e) as u128),
    }
}

/// The effect of `set`: a negative expiry is rejected and the store is
/// untouched; otherwise the key's binding is replaced wholesale.
pub open spec fn spec_set(
    m: StoreModel,
    key: Seq<u8>,
    value: Seq<u8>,
    expiry: Option<i64>,
    now: u64,
) -> (Result<(), RespError>, StoreModel) {
    if expiry matches Some(e) && e < 0 {
        (Err(RespError::NegativeExpiry), m)
    } else {
        (Ok(()), m.insert(key, (abs_expiry(expiry, now), value)))
    }
}

/// The effect of `get`: an absent key reads as nothing; a binding whose
/// expiry lies strictly in the past is deleted and reads as nothing; any
/// other binding is returned and the store is untouched.
pub open spec fn spec_get(m: StoreModel, key: Seq<u8>, now: u64) -> (Option<Seq<u8>>, StoreModel) {
    if !m.contains_key(key) {
        (None, m)
    } else {
        let (exp, v) = m[key];
        if exp matches Some(t) && t < now as u128 {
            (None, m.remove(key))
        } else {
            (Some(v), m)
        }
    }
}

/// Compares two byte strings.
pub fn bytes_eq(a: &Vec<u8>, b: &Vec<u8>) -> (r: bool)
    ensures
        r == (a@ == b@),
{
    if a.len() != b.len() {
        return false;
    }
    let mut i: usize = 0;
    while i < a.len()
        invariant
            i <= a@.len() == b@.len(),
            forall|j: int| 0 <= j < i ==> a@[j] == b@[j],
        decreases a@.len() - i,
    {
        if a[i] != b[i] {
            return false;
        }
        i = i + 1;
    }
    proof {
        assert(a@ =~= b@);
    }
    true
}

/// The in-memory key-value store.
pub struct RedisInternalState {
    entries: Vec<Entry>,
}

impl View for RedisInternalState {
    type V = StoreModel;

    closed spec fn view(&self) -> StoreModel {
        map_of(self.entries@)
    }
}

impl RedisInternalState {
    /// Well-formedness: stored keys are unique.
    pub closed spec fn inv(&self) -> bool {
        keys_unique(self.entries@)
    }

    /// An empty store.
    pub fn new() -> (s: Self)
        ensures
            s.inv(),
            s@ == StoreModel::empty(),
    {
        RedisInternalState { entries: Vec::new() }
    }

    /// The index of the entry holding `key`, if any.
    fn find(&self, key: &Vec<u8>) -> (r: Option<usize>)
        ensures
            match r {
                Some(i) => i < self.entries@.len() && self.entries@[i as int].key@ == key@,
                None => forall|j: int|
                    0 <= j < self.entries@.len() ==> #[trigger] self.entries@[j].key@ != key@,
            },
    {
        let mut i: usize = 0;
        while i < self.entries.len()
            invariant
                i <= self.entries@.len(),
                forall|j: int| 0 <= j < i ==> #[trigger] self.entries@[j].key@ != key@,
            decreases self.entries@.len() - i,
        {
            if bytes_eq(&self.entries[i].key, key) {
                return Some(i);
            }
            i = i + 1;
        }
        None
    }

    /// Replaces `key`'s binding with `value` and the absolute expiry
    /// `now + expiry` milliseconds, rejecting a negative expiry; exactly
    /// `spec_set` on the store's ghost state.
    pub fn set_at(
        &mut self,
        key: Vec<u8>,
        value: Vec<u8>,
        expiry: Option<i64>,
        now: u64,
    ) -> (r: Result<(), RespError>)
        requires
            old(self).inv(),
        ensures
            final(self).inv(),
            r == spec_set(old(self)@, key@, value@, expiry, now).0,
            final(self)@ == spec_set(old(self)@, key@, value@, expiry, now).1,
    {
        let exp: Option<u128> = match expiry {
            None => None,
            Some(e) => {
                if e < 0 {
                    return Err(RespError::NegativeExpiry);
                }
                Some(now as u128 + e as u128)
            }
        };
        let ghost m0 = self@;
        if let Some(i) = self.find(&key) {
            proof {
                lemma_map_of_remove(self.entries@, i as int, key@);
            }
            self.entries.remove(i);
            proof {
                assert(keys_unique(self.entries@)) by {
                    assert(forall|a: int, b: int|
                        0 <= a < b < self.entries@.len()
                            ==> #[trigger] self.entries@[a].key@
                                != #[trigger] self.entries@[b].key@);
                }
            }
        }
        let ghost m1 = self@;
        let ghost s1 = self.entries@;
        proof {
            lemma_map_of_contains(s1, key@);
        }
        self.entries.push(Entry { key, expiry: exp, value });
        proof {
            assert(self.entries@.drop_last() =~= s1);
            assert(final(self)@ == m1.insert(key@, (exp, value@)));
            assert(m1.insert(key@, (exp, value@))
                =~= m0.insert(key@, (abs_expiry(expiry, now), value@)));
            assert forall|a: int, b: int|
                0 <= a < b < self.entries@.len()
                    implies #[trigger] self.entries@[a].key@
                        != #[trigger] self.entries@[b].key@ by {
                if b == self.entries@.len() - 1 {
                    assert(s1[a].key@ != key@);
                }
            }
        }
        Ok(())
    }

    /// Reads `key`'s value at instant `now`, deleting it first when its
    /// expiry lies strictly in the past; exactly `spec_get` on the store's
    /// ghost state.
    pub fn get_at(&mut self, key: &Vec<u8>, now: u64) -> (r: Option<Vec<u8>>)
        requires
            old(self).inv(),
        ensures
            final(self).inv(),
            match r {
                Some(v) => Some(v@) == spec_get(old(self)@, key@, now).0,
                None => spec_get(old(self)@, key@, now).0 is None,
            },
            final(self)@ == spec_get(old(self)@, key@, now).1,
    {
        proof {
            lemma_map_of_contains(self.entries@, key@);
        }
        match self.find(key) {
            None => None,
            Some(i) => {
                proof {
                    lemma_map_of_get(self.entries@, i as int);
                }
                let expired = match self.entries[i].expiry {
                    Some(t) => t < now as u128,
                    None => false,
                };
                if expired {
                    proof {
                        lemma_map_of_remove(self.entries@, i as int, key@);
                    }
                    self.entries.remove(i);
                    proof {
                        assert(keys_unique(self.entries@)) by {
                            assert(forall|a: int, b: int|
                                0 <= a < b < self.entries@.len()
                                    ==> #[trigger] self.entries@[a].key@
                                        != #[trigger] self.entries@[b].key@);
                        }
                    }
                    None
                } else {
                    let v = clone_bytes(&self.entries[i].value);
                    Some(v)
                }
            }
        }
    }

    /// Replaces `key`'s binding, reading the clock for the expiry base.
    /// A negative expiry is rejected with the store untouched; otherwise
    /// the binding is `value` with some absolute expiry instant.
    pub fn set(&mut self, key: Vec<u8>, value: Vec<u8>, expiry: Option<i64>) -> (r: Result<
        (),
        RespError,
    >)
        requires
            old(self).inv(),
        ensures
            final(self).inv(),
            expiry matches Some(e) && e < 0 ==> r == Err::<(), RespError>(
                RespError::NegativeExpiry,
            ) && final(self)@ == old(self)@,
            !(expiry matches Some(e) && e < 0) ==> r is Ok && exists|now: u64|
                final(self)@ == #[trigger] spec_set(old(self)@, key@, value@, expiry, now).1,
    {
        let now = now_millis();
        let r = self.set_at(key, value, expiry, now);
        proof {
            if !(expiry matches Some(e) && e < 0) {
                assert(self@ == spec_set(old(self)@, key@, value@, expiry, now).1);
            }
        }
        r
    }

    /// Reads `key`'s value against the clock, deleting it first when it has
    /// expired. An absent key reads as nothing and leaves the store
    /// untouched; a key without expiry always reads as its value; a key
    /// with an expiry either reads as its value, or has expired, in which
    /// case it is removed and reads as nothing.
    pub fn get(&mut self, key: &Vec<u8>) -> (r: Option<Vec<u8>>)
        requires
            old(self).inv(),
        ensures
            final(self).inv(),
            !old(self)@.contains_key(key@) ==> r is None && final(self)@ == old(self)@,
            old(self)@.contains_key(key@) && old(self)@[key@].0 is None ==> (
                r matches Some(v) && v@ == old(self)@[key@].1
            ) && final(self)@ == old(self)@,
            old(self)@.contains_key(key@) && old(self)@[key@].0 is Some ==> (
                ((r matches Some(v) && v@ == old(self)@[key@].1) && final(self)@ == old(self)@)
                || (r is None && final(self)@ == old(self)@.remove(key@))
            ),
    {
        let now = now_millis();
        self.get_at(key, now)
    }
}

/// Relies on `std::time::SystemTime::now`, `SystemTime::duration_since`
/// and `Duration::as_millis` for the instant the store measures expiries
/// against: the milliseconds from the Unix epoch to now, truncated to 64
/// bits. The result depends on the clock, so nothing is promised of it.
#[verifier::external_body]
pub(crate) fn now_millis() -> (r: u64) {
    std::time::SystemTime::now()
        .duration_since(std::time::UNIX_EPOCH)
        .map(|d| d.as_millis() as u64)
        .unwrap_or(0)
}

} // verus!
