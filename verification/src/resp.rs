//! The protocol value model: the tagged union of wire values, its ghost
//! mirror over mathematical sequences, the error type shared by the parsing
//! and dispatch layers, and the byte-exact wire encoding.
use vstd::prelude::*;

use crate::num::{dec_digits, dec_int, i64_to_dec, usize_to_dec, SIGN_MINUS};

verus! {

broadcast use vstd::std_specs::vec::group_vec_axioms, vstd::seq::group_seq_axioms;

/// ASCII carriage return, first byte of the line terminator.
pub const CR: u8 = 13;

/// ASCII line feed, second byte of the line terminator.
pub const LF: u8 = 10;

/// '+', the simple-string type prefix.
pub const PREFIX_SIMPLE: u8 = 43;

/// ':', the integer type prefix.
pub const PREFIX_INT: u8 = 58;

/// '*', the array type prefix.
pub const PREFIX_ARRAY: u8 = 42;

/// '$', the bulk-string type prefix.
pub const PREFIX_BULK: u8 = 36;

/// The `\r\n` line terminator.
pub open spec fn crlf() -> Seq<u8> {
    seq![CR, LF]
}

/// Everything that can go wrong while parsing a request or running a
/// command. A value of this type names exactly one rejection rule.
#[derive(Clone, Copy, Debug, PartialEq, Eq, Structural)]
pub enum RespError {
    /// A fragment with no bytes at all was fed to a fresh builder.
    EmptyInput,
    /// A fragment began with a byte that is not one of the four prefixes.
    UnsupportedPrefix,
    /// The text after ':' is not an integer that fits in 64 signed bits.
    InvalidInteger,
    /// The text after '*' or '$' is not a size that fits in `usize`.
    InvalidSize,
    /// A bulk string's payload did not land exactly on its declared size.
    BulkSizeMismatch,
    /// The command name is none of the supported ones.
    UnknownCommand,
    /// A command arrived as an empty array.
    EmptyArray,
    /// The first element of a command array is not a string.
    CommandNotString,
    /// The request's top-level shape is neither a string nor an array.
    UnsupportedRequest,
    /// A key argument is missing or not a string.
    KeyNotString,
    /// A value argument is missing or not a string.
    ValueNotString,
    /// An expiry argument is missing or not an integer.
    ExpiryNotInteger,
    /// An expiry argument is negative.
    NegativeExpiry,
}

/// A fully formed protocol value. An `Array`'s children keep protocol order;
/// only these five variants exist on the wire.
#[derive(Debug, PartialEq, Eq)]
pub enum RespData {
    SimpleString(Vec<u8>),
    Integer(i64),
    BulkString(Vec<u8>),
    Array(Vec<RespData>),
    Null,
}

/// The ghost mirror of `RespData`, over unbounded sequences.
pub enum RespModel {
    SimpleString(Seq<u8>),
    Integer(int),
    BulkString(Seq<u8>),
    Array(Seq<RespModel>),
    Null,
}

impl RespData {
    /// The ghost value this executable value stands for.
    pub open spec fn model(self) -> RespModel
        decreases self,
    {
        match self {
            RespData::SimpleString(s) => RespModel::SimpleString(s@),
            RespData::Integer(i) => RespModel::Integer(i as int),
            RespData::BulkString(s) => RespModel::BulkString(s@),
            RespData::Array(items) => RespModel::Array(models_of(items@, 0)),
            RespData::Null => RespModel::Null,
        }
    }
}

/// The ghost values of `items[i..]`, in order.
pub open spec fn models_of(items: Seq<RespData>, i: int) -> Seq<RespModel>
    decreases items, items.len() - i,
{
    if i < 0 || i >= items.len() {
        Seq::empty()
    } else {
        seq![items[i].model()] + models_of(items, i + 1)
    }
}

/// `models_of(items, i)` is the elementwise ghost image of `items[i..]`.
pub proof fn lemma_models_of(items: Seq<RespData>, i: int)
    requires
        0 <= i <= items.len(),
    ensures
        models_of(items, i).len() == items.len() - i,
        forall|k: int|
            0 <= k < items.len() - i
                ==> #[trigger] models_of(items, i)[k] == items[i + k].model(),
    decreases items.len() - i,
{
    if i < items.len() {
        lemma_models_of(items, i + 1);
    }
}

/// The exact wire bytes of a value: `+text`, `:int`, `$len` then payload,
/// `*count` then each child in order, or the null bulk string `$-1`, each
/// line closed by `\r\n`.
pub open spec fn encode(v: RespModel) -> Seq<u8>
    decreases v,
{
    match v {
        RespModel::SimpleString(s) => seq![PREFIX_SIMPLE] + s + crlf(),
        RespModel::Integer(i) => seq![PREFIX_INT] + dec_int(i) + crlf(),
        RespModel::BulkString(s) => seq![PREFIX_BULK] + dec_digits(s.len()) + crlf() + s
            + crlf(),
        RespModel::Array(items) => seq![PREFIX_ARRAY] + dec_digits(items.len()) + crlf()
            + encode_items(items, 0),
        RespModel::Null => seq![PREFIX_BULK, SIGN_MINUS, 49u8] + crlf(),
    }
}

/// The concatenated encodings of `items[i..]`.
pub open spec fn encode_items(items: Seq<RespModel>, i: int) -> Seq<u8>
    decreases items, items.len() - i,
{
    if i < 0 || i >= items.len() {
        Seq::empty()
    } else {
        encode(items[i]) + encode_items(items, i + 1)
    }
}

/// Copies `src` onto the end of `dst`.
pub fn push_bytes(dst: &mut Vec<u8>, src: &Vec<u8>)
    ensures
        final(dst)@ == old(dst)@ + src@,
{
    let mut i: usize = 0;
    while i < src.len()
        invariant
            i <= src@.len(),
            dst@ == old(dst)@ + src@.take(i as int),
        decreases src@.len() - i,
    {
        let b = src[i];
        dst.push(b);
        proof {
            assert(old(dst)@ + src@.take(i as int) + seq![b]
                =~= old(dst)@ + src@.take(i + 1));
        }
        i = i + 1;
    }
    proof {
        assert(src@.take(src@.len() as int) =~= src@);
    }
}

/// A fresh copy of a byte vector.
pub fn clone_bytes(src: &Vec<u8>) -> (r: Vec<u8>)
    ensures
        r@ == src@,
{
    let mut r: Vec<u8> = Vec::new();
    push_bytes(&mut r, src);
    proof {
        assert(Seq::<u8>::empty() + src@ =~= src@);
    }
    r
}

/// A fresh copy of the bytes of `src` from index `from` to the end.
pub fn suffix_bytes(src: &Vec<u8>, from: usize) -> (r: Vec<u8>)
    requires
        from <= src@.len(),
    ensures
        r@ == src@.subrange(from as int, src@.len() as int),
{
    let mut r: Vec<u8> = Vec::new();
    let mut i = from;
    while i < src.len()
        invariant
            from <= i <= src@.len(),
            r@ == src@.subrange(from as int, i as int),
        decreases src@.len() - i,
    {
        let b = src[i];
        r.push(b);
        proof {
            assert(src@.subrange(from as int, i as int) + seq![b]
                =~= src@.subrange(from as int, i + 1));
        }
        i = i + 1;
    }
    r
}

impl RespData {
    /// Serializes this value to its exact wire bytes.
    pub fn to_u8_vec(&self) -> (r: Vec<u8>)
        ensures
            r@ == encode(self.model()),
        decreases *self,
    {
        match self {
            RespData::SimpleString(s) => {
                let mut r: Vec<u8> = Vec::new();
                r.push(PREFIX_SIMPLE);
                push_bytes(&mut r, s);
                r.push(CR);
                r.push(LF);
                proof {
                    assert(r@ =~= encode(self.model()));
                }
                r
            }
            RespData::Integer(i) => {
                let mut r: Vec<u8> = Vec::new();
                r.push(PREFIX_INT);
                let mut digits = i64_to_dec(*i);
                r.append(&mut digits);
                r.push(CR);
                r.push(LF);
                proof {
                    assert(r@ =~= encode(self.model()));
                }
                r
            }
            RespData::BulkString(s) => {
                let mut r: Vec<u8> = Vec::new();
                r.push(PREFIX_BULK);
                let mut digits = usize_to_dec(s.len());
                r.append(&mut digits);
                r.push(CR);
                r.push(LF);
                push_bytes(&mut r, s);
                r.push(CR);
                r.push(LF);
                proof {
                    assert(r@ =~= encode(self.model()));
                }
                r
            }
            RespData::Array(items) => {
                let ghost m = models_of(items@, 0);
                proof {
                    lemma_models_of(items@, 0);
                }
                let mut r: Vec<u8> = Vec::new();
                r.push(PREFIX_ARRAY);
                let mut digits = usize_to_dec(items.len());
                r.append(&mut digits);
                r.push(CR);
                r.push(LF);
                let ghost header = r@;
                let mut j: usize = 0;
                while j < items.len()
                    invariant
                        *self == RespData::Array(*items),
                        j <= items@.len(),
                        m == models_of(items@, 0),
                        m.len() == items@.len(),
                        header + encode_items(m, 0) =~= r@ + encode_items(m, j as int),
                    decreases items@.len() - j,
                {
                    proof {
                        assert(*self == RespData::Array(*items));
                        assert((*self)->Array_0 == *items);
                        assert(decreases_to!(*self => (*self)->Array_0));
                        assert(decreases_to!(*self => *items));
                        assert(decreases_to!(*items => items@));
                        assert(decreases_to!(items@ => items@[j as int]));
                        assert(decreases_to!(*self => items@[j as int]));
                    }
                    let mut enc = items[j].to_u8_vec();
                    proof {
                        lemma_models_of(items@, 0);
                        assert(items@[j as int].model() == m[j as int]);
                        assert(encode_items(m, j as int)
                            == encode(m[j as int]) + encode_items(m, j + 1));
                    }
                    r.append(&mut enc);
                    proof {
                        assert(header + encode_items(m, 0) =~= r@ + encode_items(m, j + 1));
                    }
                    j = j + 1;
                }
                proof {
                    assert(encode_items(m, m.len() as int) =~= Seq::<u8>::empty());
                    assert(r@ + Seq::<u8>::empty() =~= r@);
                    assert(self.model() == RespModel::Array(m));
                    assert(r@ =~= encode(self.model()));
                }
                r
            }
            RespData::Null => {
                let mut r: Vec<u8> = Vec::new();
                r.push(PREFIX_BULK);
                r.push(SIGN_MINUS);
                r.push(49u8);
                r.push(CR);
                r.push(LF);
                proof {
                    assert(r@ =~= encode(self.model()));
                }
                r
            }
        }
    }
}

} // verus!
