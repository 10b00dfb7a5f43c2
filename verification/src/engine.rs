//! The command engine: pure dispatch from a parsed request value and a
//! store handle to a reply value. Command names match case-insensitively;
//! the exact semantics of every command, including each rejection, is the
//! spec function `spec_run`.
use vstd::prelude::*;

use crate::num::{is_signed_num, num_value, parse_i64};
use crate::resp::{clone_bytes, models_of, RespData, RespError, RespModel};
use crate::store::{spec_get, spec_set, RedisInternalState, StoreModel};

verus! {

broadcast use vstd::std_specs::vec::group_vec_axioms, vstd::seq::group_seq_axioms;

/// The bytes of "PING".
pub open spec fn cmd_ping() -> Seq<u8> {
    seq![80u8, 73u8, 78u8, 71u8]
}

/// The bytes of "ECHO".
pub open spec fn cmd_echo() -> Seq<u8> {
    seq![69u8, 67u8, 72u8, 79u8]
}

/// The bytes of "SET".
pub open spec fn cmd_set() -> Seq<u8> {
    seq![83u8, 69u8, 84u8]
}

/// The bytes of "GET".
pub open spec fn cmd_get() -> Seq<u8> {
    seq![71u8, 69u8, 84u8]
}

/// The bytes of "PONG".
pub open spec fn pong_bytes() -> Seq<u8> {
    seq![80u8, 79u8, 78u8, 71u8]
}

/// The bytes of "OK".
pub open spec fn ok_bytes() -> Seq<u8> {
    seq![79u8, 75u8]
}

/// An ASCII letter folded to upper case; any other byte unchanged.
pub open spec fn upper_byte(b: u8) -> u8 {
    if 97 <= b <= 122 {
        (b - 32) as u8
    } else {
        b
    }
}

/// A byte string folded to upper case.
pub open spec fn upper(s: Seq<u8>) -> Seq<u8> {
    Seq::new(s.len(), |i: int| upper_byte(s[i]))
}

/// The text of a string-typed value; aggregates, integers and null have
/// none.
pub open spec fn string_arg(v: RespModel) -> Option<Seq<u8>> {
    match v {
        RespModel::SimpleString(s) => Some(s),
        RespModel::BulkString(s) => Some(s),
        _ => None,
    }
}

/// The expiry demanded by a `SET`'s arguments. Any third argument at all
/// (its content is not inspected) makes a fourth mandatory: an integer
/// span, given either as an integer value or as its decimal text.
pub open spec fn spec_expiry_arg(args: Seq<RespModel>) -> Result<Option<i64>, RespError> {
    if args.len() <= 2 {
        Ok(None)
    } else if args.len() == 3 {
        Err(RespError::ExpiryNotInteger)
    } else {
        match args[3] {
            RespModel::SimpleString(s) => spec_parse_expiry(s),
            RespModel::BulkString(s) => spec_parse_expiry(s),
            RespModel::Integer(i) => Ok(Some(i as i64)),
            _ => Err(RespError::ExpiryNotInteger),
        }
    }
}

/// A decimal expiry text must be a signed 64-bit integer.
pub open spec fn spec_parse_expiry(s: Seq<u8>) -> Result<Option<i64>, RespError> {
    if is_signed_num(s) && i64::MIN <= num_value(s) <= i64::MAX {
        Ok(Some(num_value(s) as i64))
    } else {
        Err(RespError::ExpiryNotInteger)
    }
}

/// The effect of `SET key value [marker span]`: both key and value must be
/// strings; the reply is "OK" and the binding is replaced, unless the
/// expiry arguments are malformed or negative.
pub open spec fn spec_set_cmd(args: Seq<RespModel>, m: StoreModel, now: u64) -> (Result<
    RespModel,
    RespError,
>, StoreModel) {
    if !(args.len() >= 1 && string_arg(args[0]) is Some) {
        (Err(RespError::KeyNotString), m)
    } else if !(args.len() >= 2 && string_arg(args[1]) is Some) {
        (Err(RespError::ValueNotString), m)
    } else {
        match spec_expiry_arg(args) {
            Err(e) => (Err(e), m),
            Ok(expiry) => {
                let key = string_arg(args[0])->Some_0;
                let value = string_arg(args[1])->Some_0;
                let set = spec_set(m, key, value, expiry, now);
                match set.0 {
                    Ok(_) => (Ok(RespModel::SimpleString(ok_bytes())), set.1),
                    Err(e) => (Err(e), set.1),
                }
            }
        }
    }
}

/// The effect of `GET key`: the key must be a string; the reply is the
/// value as a bulk string, or null when the key is absent or expired.
pub open spec fn spec_get_cmd(args: Seq<RespModel>, m: StoreModel, now: u64) -> (Result<
    RespModel,
    RespError,
>, StoreModel) {
    if !(args.len() >= 1 && string_arg(args[0]) is Some) {
        (Err(RespError::KeyNotString), m)
    } else {
        let key = string_arg(args[0])->Some_0;
        let got = spec_get(m, key, now);
        match got.0 {
            None => (Ok(RespModel::Null), got.1),
            Some(v) => (Ok(RespModel::BulkString(v)), got.1),
        }
    }
}

/// What a bare string command replies: only "PING" is supported.
pub open spec fn spec_run_simple(cmd: Seq<u8>) -> Result<RespModel, RespError> {
    if upper(cmd) == cmd_ping() {
        Ok(RespModel::SimpleString(pong_bytes()))
    } else {
        Err(RespError::UnknownCommand)
    }
}

/// The full command table, dispatched on the upper-cased name.
pub open spec fn spec_run_cmd(cmd: Seq<u8>, args: Seq<RespModel>, m: StoreModel, now: u64) -> (
    Result<RespModel, RespError>,
    StoreModel,
) {
    let u = upper(cmd);
    if u == cmd_ping() {
        (Ok(RespModel::SimpleString(pong_bytes())), m)
    } else if u == cmd_echo() {
        (
            Ok(if args.len() > 0 {
                args[0]
            } else {
                RespModel::Null
            }),
            m,
        )
    } else if u == cmd_set() {
        spec_set_cmd(args, m, now)
    } else if u == cmd_get() {
        spec_get_cmd(args, m, now)
    } else {
        (Err(RespError::UnknownCommand), m)
    }
}

/// The effect of an array request: its first element names the command,
/// the rest are the arguments.
pub open spec fn spec_run_array(items: Seq<RespModel>, m: StoreModel, now: u64) -> (Result<
    RespModel,
    RespError,
>, StoreModel) {
    if items.len() == 0 {
        (Err(RespError::EmptyArray), m)
    } else {
        match string_arg(items[0]) {
            Some(c) => spec_run_cmd(c, items.subrange(1, items.len() as int), m, now),
            None => (Err(RespError::CommandNotString), m),
        }
    }
}

/// The effect of a whole request: a bare string is a zero-argument
/// command, an array carries command and arguments, and any other
/// top-level shape is rejected.
pub open spec fn spec_run(v: RespModel, m: StoreModel, now: u64) -> (Result<
    RespModel,
    RespError,
>, StoreModel) {
    match v {
        RespModel::SimpleString(s) => (spec_run_simple(s), m),
        RespModel::BulkString(s) => (spec_run_simple(s), m),
        RespModel::Array(items) => spec_run_array(items, m, now),
        _ => (Err(RespError::UnsupportedRequest), m),
    }
}

/// The ghost value of an executable reply.
pub open spec fn res_model(r: Result<RespData, RespError>) -> Result<RespModel, RespError> {
    match r {
        Ok(v) => Ok(v.model()),
        Err(e) => Err(e),
    }
}

/// An ASCII letter folded to upper case.
fn upper_byte_x(b: u8) -> (r: u8)
    ensures
        r == upper_byte(b),
{
    if 97 <= b && b <= 122 {
        b - 32
    } else {
        b
    }
}

/// Whether `a`, upper-cased, equals `lit` (which is already upper case).
fn eq_ignore_case(a: &Vec<u8>, lit: &Vec<u8>) -> (r: bool)
    ensures
        r == (upper(a@) == lit@),
{
    if a.len() != lit.len() {
        proof {
            assert(upper(a@).len() == a@.len());
        }
        return false;
    }
    let mut i: usize = 0;
    while i < a.len()
        invariant
            i <= a@.len() == lit@.len(),
            forall|j: int| 0 <= j < i ==> upper_byte(a@[j]) == lit@[j],
        decreases a@.len() - i,
    {
        let ab = a[i];
        let lb = lit[i];
        if upper_byte_x(ab) != lb {
            proof {
                assert(upper(a@)[i as int] != lit@[i as int]);
            }
            return false;
        }
        i = i + 1;
    }
    proof {
        assert(upper(a@) =~= lit@);
    }
    true
}

/// Runs a bare string command: "PING", case-insensitively, replies "PONG".
pub fn run_simple_cmd(cmd: &Vec<u8>) -> (r: Result<RespData, RespError>)
    ensures
        res_model(r) == spec_run_simple(cmd@),
{
    let ping: Vec<u8> = vec![80u8, 73u8, 78u8, 71u8];
    proof {
        assert(ping@ =~= cmd_ping());
    }
    if eq_ignore_case(cmd, &ping) {
        let pong: Vec<u8> = vec![80u8, 79u8, 78u8, 71u8];
        proof {
            assert(pong@ =~= pong_bytes());
        }
        Ok(RespData::SimpleString(pong))
    } else {
        Err(RespError::UnknownCommand)
    }
}

/// Runs one named command against the store at instant `now`; exactly
/// `spec_run_cmd` on the ghost states.
pub fn run_cmd_at(
    cmd: &Vec<u8>,
    args: Vec<RespData>,
    state: &mut RedisInternalState,
    now: u64,
) -> (r: Result<RespData, RespError>)
    requires
        old(state).inv(),
    ensures
        final(state).inv(),
        res_model(r) == spec_run_cmd(cmd@, models_of(args@, 0), old(state)@, now).0,
        final(state)@ == spec_run_cmd(cmd@, models_of(args@, 0), old(state)@, now).1,
{
    let ghost margs = models_of(args@, 0);
    proof {
        crate::resp::lemma_models_of(args@, 0);
    }
    let ping: Vec<u8> = vec![80u8, 73u8, 78u8, 71u8];
    let echo: Vec<u8> = vec![69u8, 67u8, 72u8, 79u8];
    let setw: Vec<u8> = vec![83u8, 69u8, 84u8];
    let getw: Vec<u8> = vec![71u8, 69u8, 84u8];
    proof {
        assert(ping@ =~= cmd_ping());
        assert(echo@ =~= cmd_echo());
        assert(setw@ =~= cmd_set());
        assert(getw@ =~= cmd_get());
    }
    if eq_ignore_case(cmd, &ping) {
        let pong: Vec<u8> = vec![80u8, 79u8, 78u8, 71u8];
        proof {
            assert(pong@ =~= pong_bytes());
        }
        Ok(RespData::SimpleString(pong))
    } else if eq_ignore_case(cmd, &echo) {
        let mut args = args;
        if args.len() > 0 {
            let first = args.remove(0);
            proof {
                assert(first.model() == margs[0]);
            }
            Ok(first)
        } else {
            Ok(RespData::Null)
        }
    } else if eq_ignore_case(cmd, &setw) {
        if args.len() == 0 {
            return Err(RespError::KeyNotString);
        }
        let key = match &args[0] {
            RespData::SimpleString(s) => clone_bytes(s),
            RespData::BulkString(s) => clone_bytes(s),
            _ => {
                return Err(RespError::KeyNotString);
            }
        };
        proof {
            assert(string_arg(margs[0]) == Some(key@));
        }
        if args.len() == 1 {
            return Err(RespError::ValueNotString);
        }
        let value = match &args[1] {
            RespData::SimpleString(s) => clone_bytes(s),
            RespData::BulkString(s) => clone_bytes(s),
            _ => {
                return Err(RespError::ValueNotString);
            }
        };
        proof {
            assert(string_arg(margs[1]) == Some(value@));
        }
        let expiry: Option<i64> = if args.len() <= 2 {
            None
        } else if args.len() == 3 {
            return Err(RespError::ExpiryNotInteger);
        } else {
            match &args[3] {
                RespData::SimpleString(s) => {
                    proof {
                        assert(s@.subrange(0, s@.len() as int) =~= s@);
                    }
                    match parse_i64(s, 0) {
                        Some(n) => Some(n),
                        None => {
                            return Err(RespError::ExpiryNotInteger);
                        }
                    }
                }
                RespData::BulkString(s) => {
                    proof {
                        assert(s@.subrange(0, s@.len() as int) =~= s@);
                    }
                    match parse_i64(s, 0) {
                        Some(n) => Some(n),
                        None => {
                            return Err(RespError::ExpiryNotInteger);
                        }
                    }
                }
                RespData::Integer(i) => Some(*i),
                _ => {
                    return Err(RespError::ExpiryNotInteger);
                }
            }
        };
        proof {
            assert(spec_expiry_arg(margs) == Ok::<Option<i64>, RespError>(expiry));
        }
        match state.set_at(key, value, expiry, now) {
            Ok(_) => {
                let okw: Vec<u8> = vec![79u8, 75u8];
                proof {
                    assert(okw@ =~= ok_bytes());
                }
                Ok(RespData::SimpleString(okw))
            }
            Err(e) => Err(e),
        }
    } else if eq_ignore_case(cmd, &getw) {
        if args.len() == 0 {
            return Err(RespError::KeyNotString);
        }
        let key = match &args[0] {
            RespData::SimpleString(s) => clone_bytes(s),
            RespData::BulkString(s) => clone_bytes(s),
            _ => {
                return Err(RespError::KeyNotString);
            }
        };
        proof {
            assert(string_arg(margs[0]) == Some(key@));
        }
        match state.get_at(&key, now) {
            None => Ok(RespData::Null),
            Some(v) => Ok(RespData::BulkString(v)),
        }
    } else {
        Err(RespError::UnknownCommand)
    }
}

/// Runs an array request against the store at instant `now`; exactly
/// `spec_run_array` on the ghost states.
pub fn run_array_at(data: Vec<RespData>, state: &mut RedisInternalState, now: u64) -> (r: Result<
    RespData,
    RespError,
>)
    requires
        old(state).inv(),
    ensures
        final(state).inv(),
        res_model(r) == spec_run_array(models_of(data@, 0), old(state)@, now).0,
        final(state)@ == spec_run_array(models_of(data@, 0), old(state)@, now).1,
{
    let ghost mitems = models_of(data@, 0);
    proof {
        crate::resp::lemma_models_of(data@, 0);
    }
    if data.len() == 0 {
        return Err(RespError::EmptyArray);
    }
    let mut data = data;
    let first = data.remove(0);
    proof {
        assert(first.model() == mitems[0]);
        crate::resp::lemma_models_of(data@, 0);
        assert(models_of(data@, 0) =~= mitems.subrange(1, mitems.len() as int));
    }
    match first {
        RespData::SimpleString(s) => run_cmd_at(&s, data, state, now),
        RespData::BulkString(s) => run_cmd_at(&s, data, state, now),
        _ => Err(RespError::CommandNotString),
    }
}

/// Runs one named command against the store, reading the clock once.
pub fn run_cmd(cmd: &Vec<u8>, args: Vec<RespData>, state: &mut RedisInternalState) -> (r: Result<
    RespData,
    RespError,
>)
    requires
        old(state).inv(),
    ensures
        final(state).inv(),
        exists|now: u64|
            res_model(r) == #[trigger] spec_run_cmd(cmd@, models_of(args@, 0), old(state)@, now).0
                && final(state)@ == spec_run_cmd(cmd@, models_of(args@, 0), old(state)@, now).1,
{
    let now = crate::store::now_millis();
    let r = run_cmd_at(cmd, args, state, now);
    proof {
        assert(res_model(r) == spec_run_cmd(cmd@, models_of(args@, 0), old(state)@, now).0);
    }
    r
}

/// Runs an array request against the store, reading the clock once.
pub fn run_array(data: Vec<RespData>, state: &mut RedisInternalState) -> (r: Result<
    RespData,
    RespError,
>)
    requires
        old(state).inv(),
    ensures
        final(state).inv(),
        exists|now: u64|
            res_model(r) == #[trigger] spec_run_array(models_of(data@, 0), old(state)@, now).0
                && final(state)@ == spec_run_array(models_of(data@, 0), old(state)@, now).1,
{
    let now = crate::store::now_millis();
    let r = run_array_at(data, state, now);
    proof {
        assert(res_model(r) == spec_run_array(models_of(data@, 0), old(state)@, now).0);
    }
    r
}

impl RespData {
    /// Runs a whole request against the store at instant `now`; exactly
    /// `spec_run` on the ghost states.
    pub fn run_at(self, state: &mut RedisInternalState, now: u64) -> (r: Result<
        RespData,
        RespError,
    >)
        requires
            old(state).inv(),
        ensures
            final(state).inv(),
            res_model(r) == spec_run(self.model(), old(state)@, now).0,
            final(state)@ == spec_run(self.model(), old(state)@, now).1,
    {
        match self {
            RespData::SimpleString(s) => run_simple_cmd(&s),
            RespData::BulkString(s) => run_simple_cmd(&s),
            RespData::Array(items) => run_array_at(items, state, now),
            _ => Err(RespError::UnsupportedRequest),
        }
    }

    /// Runs a whole request against the store, reading the clock once.
    pub fn run(self, state: &mut RedisInternalState) -> (r: Result<RespData, RespError>)
        requires
            old(state).inv(),
        ensures
            final(state).inv(),
            exists|now: u64|
                res_model(r) == #[trigger] spec_run(self.model(), old(state)@, now).0
                    && final(state)@ == spec_run(self.model(), old(state)@, now).1,
    {
        let ghost me = self.model();
        let now = crate::store::now_millis();
        let r = self.run_at(state, now);
        proof {
            assert(res_model(r) == spec_run(me, old(state)@, now).0);
        }
        r
    }
}

} // verus!
