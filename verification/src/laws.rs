//! The protocol's global guarantees, stated and proved over the ghost
//! models: how a wire byte stream falls apart into line fragments, what a
//! builder makes of a fragment stream, and the round trip — a value's own
//! encoding, fed back fragment by fragment, rebuilds exactly that value,
//! and a completed request leaves the following bytes untouched for the
//! next one.
use vstd::prelude::*;

use crate::builder::{spec_feed, spec_init, spec_feed_bulk, BuilderModel, FeedModel};
use crate::engine::{cmd_echo, cmd_get, cmd_ping, cmd_set, ok_bytes, spec_run_cmd, upper};
use crate::store::StoreModel;
use crate::num::{
    dec_digits, dec_int, is_digit, lemma_dec_digits_are_digits, lemma_dec_int_value, num_digits,
    SIGN_MINUS,
};
use crate::resp::{crlf, encode, encode_items, RespError, RespModel, CR, LF};

verus! {

broadcast use vstd::seq::group_seq_axioms;

/// Whether the two bytes at `i` are a line terminator.
pub open spec fn has_crlf_at(s: Seq<u8>, i: int) -> bool {
    0 <= i && i + 2 <= s.len() && s[i] == CR && s[i + 1] == LF
}

/// Whether `s` holds no line terminator at all.
pub open spec fn crlf_free(s: Seq<u8>) -> bool {
    forall|j: int| !has_crlf_at(s, j)
}

/// Whether `s` ends in a line terminator.
pub open spec fn ends_with_crlf(s: Seq<u8>) -> bool {
    s.len() >= 2 && s[s.len() - 2] == CR && s[s.len() - 1] == LF
}

/// The position of the first line terminator in `s`, or -1.
pub open spec fn find_crlf(s: Seq<u8>) -> int
    decreases s.len(),
{
    if s.len() < 2 {
        -1
    } else if s[0] == CR && s[1] == LF {
        0
    } else {
        let r = find_crlf(s.drop_first());
        if r < 0 {
            -1
        } else {
            r + 1
        }
    }
}

/// How a byte stream falls apart into line fragments: each terminator
/// closes one fragment; a trailing unterminated piece stands as its own
/// fragment.
pub open spec fn split_lines(s: Seq<u8>) -> Seq<Seq<u8>>
    decreases s.len(),
{
    if s.len() == 0 {
        Seq::empty()
    } else {
        let p = find_crlf(s);
        if p < 0 || p + 2 > s.len() {
            seq![s]
        } else {
            seq![s.take(p)] + split_lines(s.skip(p + 2))
        }
    }
}

/// `find_crlf` finds the first terminator: a hit is a terminator with none
/// before it, and a miss means there is none.
pub proof fn lemma_find_crlf(s: Seq<u8>)
    ensures
        find_crlf(s) >= 0 ==> has_crlf_at(s, find_crlf(s)) && (forall|j: int|
            0 <= j < find_crlf(s) ==> !has_crlf_at(s, j)),
        find_crlf(s) < 0 ==> crlf_free(s),
    decreases s.len(),
{
    if s.len() < 2 {
        assert forall|j: int| !has_crlf_at(s, j) by {}
    } else if s[0] == CR && s[1] == LF {
    } else {
        let t = s.drop_first();
        lemma_find_crlf(t);
        assert(forall|j: int|
            0 <= j && j + 2 <= t.len() ==> #[trigger] t[j] == s[j + 1] && t[j + 1] == s[j + 2]);
        let r = find_crlf(t);
        if r >= 0 {
            assert(has_crlf_at(s, r + 1));
            assert forall|j: int| 0 <= j < r + 1 implies !has_crlf_at(s, j) by {
                if j > 0 && has_crlf_at(s, j) {
                    assert(has_crlf_at(t, j - 1));
                }
            }
        } else {
            assert forall|j: int| !has_crlf_at(s, j) by {
                if j > 0 && has_crlf_at(s, j) {
                    assert(has_crlf_at(t, j - 1));
                }
            }
        }
    }
}

/// A terminator-free fragment followed by a terminator is split off whole.
pub proof fn lemma_split_lines_line(x: Seq<u8>, z: Seq<u8>)
    requires
        crlf_free(x),
    ensures
        split_lines(x + crlf() + z) == seq![x] + split_lines(z),
{
    let w = x + crlf() + z;
    assert(w.len() == x.len() + 2 + z.len());
    assert(has_crlf_at(w, x.len() as int)) by {
        assert(w[x.len() as int] == CR);
        assert(w[x.len() as int + 1] == LF);
    }
    lemma_find_crlf(w);
    let p = find_crlf(w);
    assert(p >= 0);
    assert forall|j: int| 0 <= j < x.len() implies !has_crlf_at(w, j) by {
        if has_crlf_at(w, j) {
            if j + 1 < x.len() {
                assert(w[j] == x[j] && w[j + 1] == x[j + 1]);
                assert(has_crlf_at(x, j));
            } else {
                assert(j + 1 == x.len());
                assert(w[j + 1] == CR);
            }
        }
    }
    assert(p == x.len()) by {
        if p < x.len() {
            assert(!has_crlf_at(w, p));
        } else if p > x.len() {
            assert(!has_crlf_at(w, x.len() as int));
        }
    }
    assert(w.take(p) =~= x);
    assert(w.skip(p + 2) =~= z);
    assert(split_lines(w) == seq![x] + split_lines(z));
}

/// A byte string with no carriage return holds no terminator.
pub proof fn lemma_no_cr_crlf_free(s: Seq<u8>)
    requires
        forall|j: int| 0 <= j < s.len() ==> #[trigger] s[j] != CR,
    ensures
        crlf_free(s),
{
    assert forall|j: int| !has_crlf_at(s, j) by {
        if 0 <= j && j + 2 <= s.len() {
            assert(s[j] != CR);
        }
    }
}

/// Prefixing one non-carriage-return byte keeps a string terminator-free.
pub proof fn lemma_crlf_free_cons(c: u8, s: Seq<u8>)
    requires
        c != CR,
        crlf_free(s),
    ensures
        crlf_free(seq![c] + s),
{
    let x = seq![c] + s;
    assert forall|j: int| !has_crlf_at(x, j) by {
        if 0 <= j && j + 2 <= x.len() {
            if j == 0 {
                assert(x[0] == c);
            } else {
                assert(x[j] == s[j - 1] && x[j + 1] == s[j]);
                assert(!has_crlf_at(s, j - 1));
            }
        }
    }
}

/// The decimal rendering of an integer holds no terminator.
pub proof fn lemma_dec_int_crlf_free(i: int)
    ensures
        crlf_free(dec_int(i)),
{
    lemma_dec_int_value(i);
    let d = dec_int(i);
    assert forall|j: int| 0 <= j < d.len() implies #[trigger] d[j] != CR by {
        if i < 0 {
            if j == 0 {
                assert(d[0] == SIGN_MINUS);
            } else {
                assert(d[j] == num_digits(d)[j - 1]);
                assert(is_digit(num_digits(d)[j - 1]));
            }
        } else {
            lemma_dec_digits_are_digits(i as nat);
            assert(d == dec_digits(i as nat));
            assert(is_digit(d[j]));
        }
    }
    lemma_no_cr_crlf_free(d);
}

/// The decimal rendering of a length holds no terminator.
pub proof fn lemma_dec_digits_crlf_free(n: nat)
    ensures
        crlf_free(dec_digits(n)),
{
    lemma_dec_digits_are_digits(n);
    assert forall|j: int| 0 <= j < dec_digits(n).len() implies #[trigger] dec_digits(n)[j]
        != CR by {
        assert(is_digit(dec_digits(n)[j]));
    }
    lemma_no_cr_crlf_free(dec_digits(n));
}

/// What a builder makes of a whole fragment stream: the completed value
/// and the fragments left over, a state still waiting for input, or the
/// first failure.
pub enum ConsumeModel {
    Done(RespModel, Seq<Seq<u8>>),
    Partial(BuilderModel),
    Fail(RespError),
}

/// Feeds fragments to a builder until it completes a value, fails, or runs
/// out of input.
pub open spec fn consume(b: BuilderModel, ls: Seq<Seq<u8>>) -> ConsumeModel
    decreases ls.len(),
{
    if ls.len() == 0 {
        ConsumeModel::Partial(b)
    } else {
        match spec_feed(b, ls[0]) {
            FeedModel::Next(b2) => consume(b2, ls.drop_first()),
            FeedModel::Done(v) => ConsumeModel::Done(v, ls.drop_first()),
            FeedModel::Fail(e) => ConsumeModel::Fail(e),
        }
    }
}

/// A builder wrapped as the child of an array state consumes fragments
/// just as it would alone; when the child completes, the array appends the
/// value and either completes or awaits the next element.
pub proof fn lemma_lift_child(
    size: int,
    done: Seq<RespModel>,
    cb: BuilderModel,
    ls: Seq<Seq<u8>>,
    v: RespModel,
    rem: Seq<Seq<u8>>,
)
    requires
        consume(cb, ls) == ConsumeModel::Done(v, rem),
    ensures
        consume(BuilderModel::ArrayBuilder { size, done, child: Box::new(cb) }, ls) == if done.len()
            + 1 == size {
            ConsumeModel::Done(RespModel::Array(done.push(v)), rem)
        } else {
            consume(
                BuilderModel::ArrayBuilder {
                    size,
                    done: done.push(v),
                    child: Box::new(BuilderModel::NotInitialized),
                },
                rem,
            )
        },
    decreases ls.len(),
{
    let ab = BuilderModel::ArrayBuilder { size, done, child: Box::new(cb) };
    match spec_feed(cb, ls[0]) {
        FeedModel::Next(c2) => {
            assert(spec_feed(ab, ls[0]) == FeedModel::Next(BuilderModel::ArrayBuilder {
                size,
                done,
                child: Box::new(c2),
            }));
            lemma_lift_child(size, done, c2, ls.drop_first(), v, rem);
        }
        FeedModel::Done(v0) => {
            assert(v0 == v);
            assert(rem == ls.drop_first());
        }
        FeedModel::Fail(_) => {}
    }
}

/// The values whose encodings travel the wire unchanged: no terminator
/// inside a simple string, no terminator at the end of a bulk payload,
/// integers within 64 signed bits, sizes representable on the machine —
/// and no nulls, whose encoding is not a parseable size.
pub open spec fn wire_safe(v: RespModel) -> bool
    decreases v,
{
    match v {
        RespModel::SimpleString(s) => crlf_free(s),
        RespModel::Integer(i) => i64::MIN <= i <= i64::MAX,
        RespModel::BulkString(s) => !ends_with_crlf(s) && s.len() <= usize::MAX,
        RespModel::Array(items) => items.len() <= usize::MAX && wire_safe_items(items, 0),
        RespModel::Null => false,
    }
}

/// Whether every element of `items[i..]` is wire-safe.
pub open spec fn wire_safe_items(items: Seq<RespModel>, i: int) -> bool
    decreases items, items.len() - i,
{
    if i < 0 || i >= items.len() {
        true
    } else {
        wire_safe(items[i]) && wire_safe_items(items, i + 1)
    }
}

/// A bulk-string state consumes exactly the fragments of its remaining
/// payload, terminator by terminator, and completes with the whole
/// payload.
pub proof fn lemma_bulk_consume(acc: Seq<u8>, s2: Seq<u8>, size: int, restbytes: Seq<u8>)
    requires
        acc.len() + s2.len() == size,
        !ends_with_crlf(s2),
    ensures
        consume(
            BuilderModel::BulkStringBuilder { size, text: acc },
            split_lines(s2 + crlf() + restbytes),
        ) == ConsumeModel::Done(RespModel::BulkString(acc + s2), split_lines(restbytes)),
    decreases s2.len(),
{
    let b = BuilderModel::BulkStringBuilder { size, text: acc };
    lemma_find_crlf(s2);
    let p = find_crlf(s2);
    if p < 0 {
        lemma_split_lines_line(s2, restbytes);
        let ls = seq![s2] + split_lines(restbytes);
        assert(split_lines(s2 + crlf() + restbytes) == ls);
        assert(ls[0] == s2);
        assert(spec_feed(b, s2) == spec_feed_bulk(size, acc, s2));
        assert(acc.len() + s2.len() == size);
        assert(spec_feed_bulk(size, acc, s2) == FeedModel::Done(
            RespModel::BulkString(acc + s2),
        ));
        assert(ls.drop_first() =~= split_lines(restbytes));
    } else {
        let f = s2.take(p);
        let s3 = s2.skip(p + 2);
        assert(crlf_free(f)) by {
            assert forall|j: int| !has_crlf_at(f, j) by {
                if 0 <= j && j + 2 <= f.len() {
                    assert(f[j] == s2[j] && f[j + 1] == s2[j + 1]);
                    assert(!has_crlf_at(s2, j));
                }
            }
        }
        assert(s3.len() > 0) by {
            if p + 2 == s2.len() {
                assert(s2[s2.len() - 2] == CR && s2[s2.len() - 1] == LF);
            }
        }
        assert(s2 + crlf() + restbytes =~= f + crlf() + (s3 + crlf() + restbytes));
        lemma_split_lines_line(f, s3 + crlf() + restbytes);
        let ls = seq![f] + split_lines(s3 + crlf() + restbytes);
        assert(split_lines(s2 + crlf() + restbytes) == ls);
        assert(ls[0] == f);
        assert(acc.len() + f.len() + 2 < size) by {
            assert(f.len() + 2 + s3.len() == s2.len());
        }
        let acc2 = acc + f + crlf();
        assert(spec_feed(b, f) == FeedModel::Next(BuilderModel::BulkStringBuilder {
            size,
            text: acc2,
        }));
        assert(!ends_with_crlf(s3)) by {
            if s3.len() >= 2 {
                assert(s3[s3.len() - 2] == s2[s2.len() - 2]);
                assert(s3[s3.len() - 1] == s2[s2.len() - 1]);
            }
        }
        lemma_bulk_consume(acc2, s3, size, restbytes);
        assert(ls.drop_first() =~= split_lines(s3 + crlf() + restbytes));
        assert(acc2 + s3 =~= acc + s2);
    }
}

/// The fragments of a wire-safe value's encoding, followed by anything,
/// feed a fresh builder to completion: the value comes back exactly, and
/// exactly the trailing bytes' fragments are left.
pub proof fn lemma_encode_consume(v: RespModel, restbytes: Seq<u8>)
    requires
        wire_safe(v),
    ensures
        consume(BuilderModel::NotInitialized, split_lines(encode(v) + restbytes))
            == ConsumeModel::Done(v, split_lines(restbytes)),
    decreases v,
{
    let b0 = BuilderModel::NotInitialized;
    match v {
        RespModel::SimpleString(s) => {
            let x = seq![crate::resp::PREFIX_SIMPLE] + s;
            lemma_crlf_free_cons(crate::resp::PREFIX_SIMPLE, s);
            assert(encode(v) + restbytes =~= x + crlf() + restbytes);
            lemma_split_lines_line(x, restbytes);
            let ls = seq![x] + split_lines(restbytes);
            assert(split_lines(encode(v) + restbytes) == ls);
            assert(ls[0] == x);
            assert(x.subrange(1, x.len() as int) =~= s);
            assert(spec_init(x) == FeedModel::Done(v));
            assert(ls.drop_first() =~= split_lines(restbytes));
        }
        RespModel::Integer(i) => {
            let x = seq![crate::resp::PREFIX_INT] + dec_int(i);
            lemma_dec_int_crlf_free(i);
            lemma_crlf_free_cons(crate::resp::PREFIX_INT, dec_int(i));
            assert(encode(v) + restbytes =~= x + crlf() + restbytes);
            lemma_split_lines_line(x, restbytes);
            let ls = seq![x] + split_lines(restbytes);
            assert(ls[0] == x);
            assert(x.subrange(1, x.len() as int) =~= dec_int(i));
            lemma_dec_int_value(i);
            assert(spec_init(x) == FeedModel::Done(RespModel::Integer(i)));
            assert(ls.drop_first() =~= split_lines(restbytes));
        }
        RespModel::BulkString(s) => {
            let x = seq![crate::resp::PREFIX_BULK] + dec_digits(s.len());
            lemma_dec_digits_crlf_free(s.len());
            lemma_crlf_free_cons(crate::resp::PREFIX_BULK, dec_digits(s.len()));
            assert(encode(v) + restbytes =~= x + crlf() + (s + crlf() + restbytes));
            lemma_split_lines_line(x, s + crlf() + restbytes);
            let ls = seq![x] + split_lines(s + crlf() + restbytes);
            assert(split_lines(encode(v) + restbytes) == ls);
            assert(ls[0] == x);
            assert(x.subrange(1, x.len() as int) =~= dec_digits(s.len()));
            lemma_dec_digits_are_digits(s.len());
            crate::num::lemma_dec_digits_value(s.len());
            assert(num_digits(dec_digits(s.len())) == dec_digits(s.len()));
            assert(spec_init(x) == FeedModel::Next(BuilderModel::BulkStringBuilder {
                size: s.len() as int,
                text: Seq::empty(),
            }));
            lemma_bulk_consume(Seq::empty(), s, s.len() as int, restbytes);
            assert(ls.drop_first() =~= split_lines(s + crlf() + restbytes));
            assert(Seq::<u8>::empty() + s =~= s);
        }
        RespModel::Array(items) => {
            let n = items.len();
            let x = seq![crate::resp::PREFIX_ARRAY] + dec_digits(n);
            lemma_dec_digits_crlf_free(n);
            lemma_crlf_free_cons(crate::resp::PREFIX_ARRAY, dec_digits(n));
            assert(encode(v) + restbytes =~= x + crlf() + (encode_items(items, 0) + restbytes));
            lemma_split_lines_line(x, encode_items(items, 0) + restbytes);
            let ls = seq![x] + split_lines(encode_items(items, 0) + restbytes);
            assert(split_lines(encode(v) + restbytes) == ls);
            assert(ls[0] == x);
            assert(x.subrange(1, x.len() as int) =~= dec_digits(n));
            lemma_dec_digits_are_digits(n);
            crate::num::lemma_dec_digits_value(n);
            assert(num_digits(dec_digits(n)) == dec_digits(n));
            assert(ls.drop_first() =~= split_lines(encode_items(items, 0) + restbytes));
            if n == 0 {
                assert(spec_init(x) == FeedModel::Done(RespModel::Array(Seq::empty())));
                assert(items =~= Seq::<RespModel>::empty());
                assert(encode_items(items, 0) =~= Seq::<u8>::empty());
                assert(encode_items(items, 0) + restbytes =~= restbytes);
            } else {
                assert(spec_init(x) == FeedModel::Next(BuilderModel::ArrayBuilder {
                    size: n as int,
                    done: Seq::empty(),
                    child: Box::new(BuilderModel::NotInitialized),
                }));
                assert(items.take(0) =~= Seq::<RespModel>::empty());
                lemma_array_consume(items, 0, restbytes);
            }
        }
        RespModel::Null => {}
    }
}

/// An array state with `k` children done consumes the remaining children's
/// fragments one value at a time and completes with the whole array.
pub proof fn lemma_array_consume(items: Seq<RespModel>, k: int, restbytes: Seq<u8>)
    requires
        0 <= k < items.len() <= usize::MAX,
        wire_safe_items(items, k),
    ensures
        consume(
            BuilderModel::ArrayBuilder {
                size: items.len() as int,
                done: items.take(k),
                child: Box::new(BuilderModel::NotInitialized),
            },
            split_lines(encode_items(items, k) + restbytes),
        ) == ConsumeModel::Done(RespModel::Array(items), split_lines(restbytes)),
    decreases items, items.len() - k,
{
    let n = items.len() as int;
    let tailbytes = encode_items(items, k + 1) + restbytes;
    assert(encode_items(items, k) + restbytes =~= encode(items[k]) + tailbytes);
    lemma_encode_consume(items[k], tailbytes);
    let ls = split_lines(encode(items[k]) + tailbytes);
    assert(consume(BuilderModel::NotInitialized, ls) == ConsumeModel::Done(
        items[k],
        split_lines(tailbytes),
    ));
    lemma_lift_child(
        n,
        items.take(k),
        BuilderModel::NotInitialized,
        ls,
        items[k],
        split_lines(tailbytes),
    );
    assert(items.take(k).push(items[k]) =~= items.take(k + 1));
    if k + 1 == n {
        assert(items.take(k + 1) =~= items);
        assert(encode_items(items, k + 1) =~= Seq::<u8>::empty());
        assert(tailbytes =~= restbytes);
    } else {
        lemma_array_consume(items, k + 1, restbytes);
    }
}

/// A wire-safe value's encoding, split into line fragments exactly as it
/// travels the wire and fed one by one to a fresh builder, rebuilds a
/// value equal to the original, with nothing left over.
pub proof fn lemma_round_trip(v: RespModel)
    requires
        wire_safe(v),
    ensures
        consume(BuilderModel::NotInitialized, split_lines(encode(v))) == ConsumeModel::Done(
            v,
            Seq::<Seq<u8>>::empty(),
        ),
{
    lemma_encode_consume(v, Seq::empty());
    assert(encode(v) + Seq::<u8>::empty() =~= encode(v));
    assert(split_lines(Seq::<u8>::empty()) =~= Seq::<Seq<u8>>::empty());
}

/// Once a request's value completes, the bytes that follow are handed
/// over exactly as they arrived, so the fresh builder that takes over
/// sees the next request untouched by anything that came before — here,
/// two back-to-back encoded requests complete one after the other.
pub proof fn lemma_reset_independence(v1: RespModel, v2: RespModel)
    requires
        wire_safe(v1),
        wire_safe(v2),
    ensures
        consume(BuilderModel::NotInitialized, split_lines(encode(v1) + encode(v2)))
            == ConsumeModel::Done(v1, split_lines(encode(v2))),
        consume(BuilderModel::NotInitialized, split_lines(encode(v2))) == ConsumeModel::Done(
            v2,
            Seq::<Seq<u8>>::empty(),
        ),
{
    lemma_encode_consume(v1, encode(v2));
    lemma_round_trip(v2);
}

/// Upper-casing an already-upper-case command name changes nothing; holds
/// for each supported name.
proof fn lemma_cmd_upper()
    ensures
        upper(cmd_ping()) == cmd_ping(),
        upper(cmd_echo()) == cmd_echo(),
        upper(cmd_set()) == cmd_set(),
        upper(cmd_get()) == cmd_get(),
{
    assert(upper(cmd_ping()) =~= cmd_ping());
    assert(upper(cmd_echo()) =~= cmd_echo());
    assert(upper(cmd_set()) =~= cmd_set());
    assert(upper(cmd_get()) =~= cmd_get());
}

/// `GET` on an absent key replies null and leaves the store untouched;
/// after `SET key value`, `GET key` replies exactly that value, whatever
/// instants the two commands run at.
pub proof fn lemma_set_then_get(
    key: Seq<u8>,
    value: Seq<u8>,
    m: StoreModel,
    now1: u64,
    now2: u64,
)
    ensures
        !m.contains_key(key) ==> spec_run_cmd(
            cmd_get(),
            seq![RespModel::BulkString(key)],
            m,
            now1,
        ) == (Ok::<RespModel, RespError>(RespModel::Null), m),
        ({
            let set = spec_run_cmd(
                cmd_set(),
                seq![RespModel::BulkString(key), RespModel::BulkString(value)],
                m,
                now1,
            );
            let got = spec_run_cmd(cmd_get(), seq![RespModel::BulkString(key)], set.1, now2);
            set.0 == Ok::<RespModel, RespError>(RespModel::SimpleString(ok_bytes()))
                && got.0 == Ok::<RespModel, RespError>(RespModel::BulkString(value))
                && got.1 == set.1
        }),
{
    lemma_cmd_upper();
    assert(cmd_get() != cmd_ping() && cmd_get() != cmd_echo() && cmd_get() != cmd_set()) by {
        assert(cmd_get()[0] != cmd_ping()[0]);
        assert(cmd_get()[0] != cmd_echo()[0]);
        assert(cmd_get()[0] != cmd_set()[0]);
    }
    assert(cmd_set() != cmd_ping() && cmd_set() != cmd_echo()) by {
        assert(cmd_set()[0] != cmd_ping()[0]);
        assert(cmd_set()[0] != cmd_echo()[0]);
    }
    let m1 = m.insert(key, (None, value));
    assert(m1.contains_key(key) && m1[key] == (None::<u128>, value));
}

/// Expiry: `SET key value` with a non-negative span `e` binds the key
/// until instant `now0 + e`; a `GET` at or before that instant replies the
/// value and changes nothing, and a `GET` strictly after it replies null
/// and physically removes the binding. The third argument's content is
/// never inspected — any value at all enables expiry parsing.
pub proof fn lemma_expiry(
    key: Seq<u8>,
    value: Seq<u8>,
    m: StoreModel,
    marker: RespModel,
    e: i64,
    now0: u64,
    now_before: u64,
    now_after: u64,
)
    requires
        e >= 0,
        now_before <= now0 + e,
        now_after > now0 + e,
    ensures
        ({
            let set = spec_run_cmd(
                cmd_set(),
                seq![
                    RespModel::BulkString(key),
                    RespModel::BulkString(value),
                    marker,
                    RespModel::Integer(e as int),
                ],
                m,
                now0,
            );
            let live = spec_run_cmd(cmd_get(), seq![RespModel::BulkString(key)], set.1, now_before);
            let dead = spec_run_cmd(cmd_get(), seq![RespModel::BulkString(key)], set.1, now_after);
            set.0 == Ok::<RespModel, RespError>(RespModel::SimpleString(ok_bytes()))
                && set.1 == m.insert(key, (Some((now0 + e) as u128), value))
                && live.0 == Ok::<RespModel, RespError>(RespModel::BulkString(value))
                && live.1 == set.1
                && dead.0 == Ok::<RespModel, RespError>(RespModel::Null)
                && dead.1 == set.1.remove(key)
        }),
{
    lemma_cmd_upper();
    assert(cmd_get() != cmd_ping() && cmd_get() != cmd_echo() && cmd_get() != cmd_set()) by {
        assert(cmd_get()[0] != cmd_ping()[0]);
        assert(cmd_get()[0] != cmd_echo()[0]);
        assert(cmd_get()[0] != cmd_set()[0]);
    }
    assert(cmd_set() != cmd_ping() && cmd_set() != cmd_echo()) by {
        assert(cmd_set()[0] != cmd_ping()[0]);
        assert(cmd_set()[0] != cmd_echo()[0]);
    }
    let t = (now0 + e) as u128;
    let m1 = m.insert(key, (Some(t), value));
    assert(m1.contains_key(key) && m1[key] == (Some(t), value));
    assert(!(t < now_before as u128));
    assert(t < now_after as u128);
}

/// A negative expiry is rejected and the store is unchanged, whatever the
/// marker argument holds.
pub proof fn lemma_negative_expiry(
    key: Seq<u8>,
    value: Seq<u8>,
    m: StoreModel,
    marker: RespModel,
    e: i64,
    now: u64,
)
    requires
        e < 0,
    ensures
        spec_run_cmd(
            cmd_set(),
            seq![
                RespModel::BulkString(key),
                RespModel::BulkString(value),
                marker,
                RespModel::Integer(e as int),
            ],
            m,
            now,
        ) == (Err::<RespModel, RespError>(RespError::NegativeExpiry), m),
{
    lemma_cmd_upper();
    assert(cmd_set() != cmd_ping() && cmd_set() != cmd_echo()) by {
        assert(cmd_set()[0] != cmd_ping()[0]);
        assert(cmd_set()[0] != cmd_echo()[0]);
    }
}

} // verus!
