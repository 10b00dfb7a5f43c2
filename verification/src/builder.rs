//! The incremental builder: a resumable state machine that reassembles one
//! protocol value from a stream of line fragments (each fragment is one wire
//! line with its trailing `\r\n` already stripped). Feeding a fragment
//! consumes the old state and yields either the next state, a completed
//! value, or a parse error; the exact transition relation is the spec
//! function `spec_feed`.
use vstd::prelude::*;

use crate::num::{is_signed_num, is_unsigned_num, num_value, parse_i64, parse_usize};
use crate::resp::{
    crlf, models_of, suffix_bytes, RespData, RespError, RespModel, PREFIX_ARRAY, PREFIX_BULK,
    PREFIX_INT, PREFIX_SIMPLE,
};

verus! {

broadcast use vstd::std_specs::vec::group_vec_axioms, vstd::seq::group_seq_axioms;

/// The state of the incremental builder between fragments.
#[allow(inconsistent_fields)]
#[derive(Debug)]
pub enum RespBuilder {
    /// No fragment of the next value has arrived yet.
    NotInitialized,
    /// An array of `size` elements is being collected: `data` holds the
    /// completed children, `building` the child under construction.
    ArrayBuilder { size: usize, data: Vec<RespData>, building: Box<RespBuilder> },
    /// A bulk string of `size` payload bytes is being accumulated.
    BulkStringBuilder { size: usize, data: Vec<u8> },
}

/// The ghost mirror of `RespBuilder`.
#[allow(inconsistent_fields)]
pub enum BuilderModel {
    NotInitialized,
    ArrayBuilder { size: int, done: Seq<RespModel>, child: Box<BuilderModel> },
    BulkStringBuilder { size: int, text: Seq<u8> },
}

/// What one feed step yields when it does not fail: the next builder state,
/// or the completed value.
pub enum FeedResult {
    Next(RespBuilder),
    Done(RespData),
}

/// The ghost outcome of one feed step.
pub enum FeedModel {
    Next(BuilderModel),
    Done(RespModel),
    Fail(RespError),
}

impl RespBuilder {
    /// The ghost state this builder stands for.
    pub open spec fn model(self) -> BuilderModel
        decreases self,
    {
        match self {
            RespBuilder::NotInitialized => BuilderModel::NotInitialized,
            RespBuilder::ArrayBuilder { size, data, building } => BuilderModel::ArrayBuilder {
                size: size as int,
                done: models_of(data@, 0),
                child: Box::new((*building).model()),
            },
            RespBuilder::BulkStringBuilder { size, data } => BuilderModel::BulkStringBuilder {
                size: size as int,
                text: data@,
            },
        }
    }

    /// Well-formedness: an array in progress still misses children, and a
    /// bulk string never holds more text than its declared size.
    pub open spec fn inv(self) -> bool
        decreases self,
    {
        match self {
            RespBuilder::NotInitialized => true,
            RespBuilder::ArrayBuilder { size, data, building } => data@.len() < size
                && (*building).inv(),
            RespBuilder::BulkStringBuilder { size, data } => data@.len() <= size,
        }
    }
}

impl Default for RespBuilder {
    /// A fresh builder awaits the first fragment of the next value.
    fn default() -> (r: Self)
        ensures
            r == RespBuilder::NotInitialized,
    {
        RespBuilder::NotInitialized
    }
}

/// The ghost outcome of an executable feed step.
pub open spec fn feed_res_model(r: Result<FeedResult, RespError>) -> FeedModel {
    match r {
        Ok(FeedResult::Next(b)) => FeedModel::Next(b.model()),
        Ok(FeedResult::Done(v)) => FeedModel::Done(v.model()),
        Err(e) => FeedModel::Fail(e),
    }
}

/// What a fresh builder does with a fragment: the first byte selects the
/// value's type; simple strings and integers complete at once, arrays and
/// bulk strings open an aggregate state — except the empty array, which is
/// already complete.
pub open spec fn spec_init(line: Seq<u8>) -> FeedModel {
    if line.len() == 0 {
        FeedModel::Fail(RespError::EmptyInput)
    } else {
        let rest = line.subrange(1, line.len() as int);
        if line[0] == PREFIX_SIMPLE {
            FeedModel::Done(RespModel::SimpleString(rest))
        } else if line[0] == PREFIX_INT {
            if is_signed_num(rest) && i64::MIN <= num_value(rest) <= i64::MAX {
                FeedModel::Done(RespModel::Integer(num_value(rest)))
            } else {
                FeedModel::Fail(RespError::InvalidInteger)
            }
        } else if line[0] == PREFIX_ARRAY {
            if is_unsigned_num(rest) && num_value(rest) <= usize::MAX {
                if num_value(rest) == 0 {
                    FeedModel::Done(RespModel::Array(Seq::empty()))
                } else {
                    FeedModel::Next(BuilderModel::ArrayBuilder {
                        size: num_value(rest),
                        done: Seq::empty(),
                        child: Box::new(BuilderModel::NotInitialized),
                    })
                }
            } else {
                FeedModel::Fail(RespError::InvalidSize)
            }
        } else if line[0] == PREFIX_BULK {
            if is_unsigned_num(rest) && num_value(rest) <= usize::MAX {
                FeedModel::Next(BuilderModel::BulkStringBuilder {
                    size: num_value(rest),
                    text: Seq::empty(),
                })
            } else {
                FeedModel::Fail(RespError::InvalidSize)
            }
        } else {
            FeedModel::Fail(RespError::UnsupportedPrefix)
        }
    }
}

/// What a bulk string in progress does with a fragment: while the text plus
/// the fragment plus a line terminator stays short of the declared size the
/// fragment and a terminator are appended; landing exactly on the size
/// completes the string; anything else is a size mismatch.
pub open spec fn spec_feed_bulk(size: int, text: Seq<u8>, line: Seq<u8>) -> FeedModel {
    if text.len() + line.len() + 2 < size {
        FeedModel::Next(BuilderModel::BulkStringBuilder {
            size,
            text: text + line + crlf(),
        })
    } else if text.len() + line.len() == size {
        FeedModel::Done(RespModel::BulkString(text + line))
    } else {
        FeedModel::Fail(RespError::BulkSizeMismatch)
    }
}

/// The builder's full transition relation: one fragment fed to one state.
/// An array state forwards the fragment to its child; a completed child is
/// appended, and completing the last child completes the array.
pub open spec fn spec_feed(b: BuilderModel, line: Seq<u8>) -> FeedModel
    decreases b,
{
    match b {
        BuilderModel::NotInitialized => spec_init(line),
        BuilderModel::ArrayBuilder { size, done, child } => match spec_feed(*child, line) {
            FeedModel::Next(c2) => FeedModel::Next(BuilderModel::ArrayBuilder {
                size,
                done,
                child: Box::new(c2),
            }),
            FeedModel::Done(v) => if done.len() + 1 == size {
                FeedModel::Done(RespModel::Array(done.push(v)))
            } else {
                FeedModel::Next(BuilderModel::ArrayBuilder {
                    size,
                    done: done.push(v),
                    child: Box::new(BuilderModel::NotInitialized),
                })
            },
            FeedModel::Fail(e) => FeedModel::Fail(e),
        },
        BuilderModel::BulkStringBuilder { size, text } => spec_feed_bulk(size, text, line),
    }
}

/// Appending an element appends its ghost value.
pub proof fn lemma_models_of_push(items: Seq<RespData>, v: RespData)
    ensures
        models_of(items.push(v), 0) == models_of(items, 0).push(v.model()),
{
    crate::resp::lemma_models_of(items, 0);
    crate::resp::lemma_models_of(items.push(v), 0);
    assert(models_of(items.push(v), 0) =~= models_of(items, 0).push(v.model()));
}

impl RespBuilder {
    /// Feeds one fragment to this builder, consuming it; the outcome is
    /// exactly `spec_feed` on the builder's ghost state.
    pub fn feed_string(self, s: Vec<u8>) -> (r: Result<FeedResult, RespError>)
        requires
            self.inv(),
        ensures
            feed_res_model(r) == spec_feed(self.model(), s@),
            r matches Ok(FeedResult::Next(b2)) ==> b2.inv(),
        decreases self, 0int,
    {
        match self {
            RespBuilder::NotInitialized => Self::initialize(s),
            RespBuilder::ArrayBuilder { size, data, building } => Self::feed_string_to_array_builder(
                size,
                data,
                *building,
                s,
            ),
            RespBuilder::BulkStringBuilder { size, data } => Self::feed_string_to_bulk_string_builder(
                size,
                data,
                s,
            ),
        }
    }

    /// Starts a fresh value from its first fragment.
    pub fn initialize(s: Vec<u8>) -> (r: Result<FeedResult, RespError>)
        ensures
            feed_res_model(r) == spec_init(s@),
            r matches Ok(FeedResult::Next(b2)) ==> b2.inv(),
    {
        if s.len() == 0 {
            return Err(RespError::EmptyInput);
        }
        let ghost rest = s@.subrange(1, s@.len() as int);
        let first = s[0];
        if first == PREFIX_SIMPLE {
            let tail = suffix_bytes(&s, 1);
            let r = FeedResult::Done(RespData::SimpleString(tail));
            proof {
                assert(feed_res_model(Ok(r)) == FeedModel::Done(RespModel::SimpleString(rest)));
            }
            Ok(r)
        } else if first == PREFIX_INT {
            match parse_i64(&s, 1) {
                Some(n) => Ok(FeedResult::Done(RespData::Integer(n))),
                None => Err(RespError::InvalidInteger),
            }
        } else if first == PREFIX_ARRAY {
            match parse_usize(&s, 1) {
                Some(n) => {
                    if n == 0 {
                        let items: Vec<RespData> = Vec::new();
                        let r = FeedResult::Done(RespData::Array(items));
                        proof {
                            assert(models_of(items@, 0) =~= Seq::<RespModel>::empty());
                            assert(feed_res_model(Ok(r))
                                == FeedModel::Done(RespModel::Array(Seq::empty())));
                        }
                        Ok(r)
                    } else {
                        let data: Vec<RespData> = Vec::new();
                        let b2 = RespBuilder::ArrayBuilder {
                            size: n,
                            data,
                            building: Box::new(RespBuilder::NotInitialized),
                        };
                        proof {
                            assert(models_of(data@, 0) =~= Seq::<RespModel>::empty());
                            assert(RespBuilder::NotInitialized.inv());
                            assert(b2.inv());
                            assert(b2.model() == BuilderModel::ArrayBuilder {
                                size: n as int,
                                done: Seq::empty(),
                                child: Box::new(BuilderModel::NotInitialized),
                            });
                        }
                        Ok(FeedResult::Next(b2))
                    }
                }
                None => Err(RespError::InvalidSize),
            }
        } else if first == PREFIX_BULK {
            match parse_usize(&s, 1) {
                Some(n) => {
                    let b2 = RespBuilder::BulkStringBuilder { size: n, data: Vec::new() };
                    proof {
                        assert(b2.inv());
                        assert(b2.model() == BuilderModel::BulkStringBuilder {
                            size: n as int,
                            text: Seq::empty(),
                        });
                    }
                    Ok(FeedResult::Next(b2))
                }
                None => Err(RespError::InvalidSize),
            }
        } else {
            Err(RespError::UnsupportedPrefix)
        }
    }

    /// Forwards a fragment to an array's child builder and folds the
    /// child's outcome back into the array state.
    #[verifier::rlimit(50)]
    pub fn feed_string_to_array_builder(
        size: usize,
        data: Vec<RespData>,
        building: RespBuilder,
        s: Vec<u8>,
    ) -> (r: Result<FeedResult, RespError>)
        requires
            data@.len() < size,
            building.inv(),
        ensures
            feed_res_model(r) == spec_feed(
                BuilderModel::ArrayBuilder {
                    size: size as int,
                    done: models_of(data@, 0),
                    child: Box::new(building.model()),
                },
                s@,
            ),
            r matches Ok(FeedResult::Next(b2)) ==> b2.inv(),
        decreases building, 1int,
    {
        let ghost done = models_of(data@, 0);
        let ghost ab = BuilderModel::ArrayBuilder {
            size: size as int,
            done,
            child: Box::new(building.model()),
        };
        proof {
            crate::resp::lemma_models_of(data@, 0);
            assert(*ab->ArrayBuilder_child == building.model());
        }
        match building.feed_string(s) {
            Err(e) => {
                proof {
                    assert(spec_feed(ab, s@) == FeedModel::Fail(e));
                }
                Err(e)
            }
            Ok(FeedResult::Next(next)) => {
                let b2 = RespBuilder::ArrayBuilder { size, data, building: Box::new(next) };
                proof {
                    assert(b2.inv());
                    assert(spec_feed(ab, s@) == FeedModel::Next(b2.model()));
                }
                Ok(FeedResult::Next(b2))
            }
            Ok(FeedResult::Done(v)) => {
                let mut data = data;
                proof {
                    lemma_models_of_push(data@, v);
                }
                data.push(v);
                if size == data.len() {
                    let r = FeedResult::Done(RespData::Array(data));
                    proof {
                        assert(feed_res_model(Ok(r))
                            == FeedModel::Done(RespModel::Array(done.push(v.model()))));
                        assert(spec_feed(ab, s@)
                            == FeedModel::Done(RespModel::Array(done.push(v.model()))));
                    }
                    Ok(r)
                } else {
                    let b2 = RespBuilder::ArrayBuilder {
                        size,
                        data,
                        building: Box::new(RespBuilder::NotInitialized),
                    };
                    proof {
                        assert(RespBuilder::NotInitialized.inv());
                        assert(b2.inv());
                        assert(spec_feed(ab, s@) == FeedModel::Next(b2.model()));
                    }
                    Ok(FeedResult::Next(b2))
                }
            }
        }
    }

    /// Accumulates one payload fragment of a bulk string.
    pub fn feed_string_to_bulk_string_builder(
        size: usize,
        data: Vec<u8>,
        s: Vec<u8>,
    ) -> (r: Result<FeedResult, RespError>)
        ensures
            feed_res_model(r) == spec_feed_bulk(size as int, data@, s@),
            r matches Ok(FeedResult::Next(b2)) ==> b2.inv(),
    {
        let ghost text = data@;
        let ghost line = s@;
        let have: u128 = data.len() as u128 + s.len() as u128;
        let mut data = data;
        let mut s = s;
        if have + 2 < size as u128 {
            data.append(&mut s);
            data.push(crate::resp::CR);
            data.push(crate::resp::LF);
            proof {
                assert(data@ =~= text + line + crlf());
            }
            Ok(FeedResult::Next(RespBuilder::BulkStringBuilder { size, data }))
        } else if have == size as u128 {
            data.append(&mut s);
            proof {
                assert(data@ =~= text + line);
            }
            Ok(FeedResult::Done(RespData::BulkString(data)))
        } else {
            Err(RespError::BulkSizeMismatch)
        }
    }
}

} // verus!
