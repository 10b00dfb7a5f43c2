//! The per-connection decision step: one stripped line fragment goes in,
//! and out come the next builder state and the action — wait for more
//! input, write a reply, or report an error with the malformed builder
//! state discarded. The surrounding loop only reads lines and writes the
//! bytes this function hands back.
use vstd::prelude::*;

use crate::builder::{spec_feed, FeedModel, FeedResult, RespBuilder};
use crate::engine::{res_model, spec_run};
use crate::resp::{encode, RespError};
use crate::store::RedisInternalState;

verus! {

/// Feeds one line fragment to the builder; a completed request runs
/// against the store (reading the clock once) and its reply is returned
/// as wire bytes, a failed parse or command resets the builder and
/// surfaces the error, and an incomplete request just advances the
/// builder.
pub fn process_line(builder: RespBuilder, line: Vec<u8>, state: &mut RedisInternalState) -> (r: (
    RespBuilder,
    Result<Option<Vec<u8>>, RespError>,
))
    requires
        builder.inv(),
        old(state).inv(),
    ensures
        final(state).inv(),
        r.0.inv(),
        match spec_feed(builder.model(), line@) {
            FeedModel::Next(b2) => r.0.model() == b2 && r.1 == Ok::<Option<Vec<u8>>, RespError>(
                None,
            ) && final(state)@ == old(state)@,
            FeedModel::Done(v) => r.0 is NotInitialized && exists|now: u64|
                {
                    let out = #[trigger] spec_run(v, old(state)@, now);
                    &&& final(state)@ == out.1
                    &&& match out.0 {
                        Ok(reply) => r.1 matches Ok(Some(bytes)) && bytes@ == encode(reply),
                        Err(e) => r.1 == Err::<Option<Vec<u8>>, RespError>(e),
                    }
                },
            FeedModel::Fail(e) => r.0 is NotInitialized && r.1 == Err::<Option<Vec<u8>>, RespError>(
                e,
            ) && final(state)@ == old(state)@,
        },
{
    match builder.feed_string(line) {
        Err(e) => (RespBuilder::NotInitialized, Err(e)),
        Ok(FeedResult::Next(b2)) => (b2, Ok(None)),
        Ok(FeedResult::Done(v)) => {
            let ghost vm = v.model();
            match v.run(state) {
                Ok(reply) => {
                    let bytes = reply.to_u8_vec();
                    proof {
                        let now = choose|now: u64|
                            Ok::<crate::resp::RespModel, RespError>(reply.model()) == #[trigger] spec_run(
                                vm,
                                old(state)@,
                                now,
                            ).0 && state@ == spec_run(vm, old(state)@, now).1;
                        assert(res_model(Ok(reply)) == spec_run(vm, old(state)@, now).0);
                    }
                    (RespBuilder::NotInitialized, Ok(Some(bytes)))
                }
                Err(e) => (RespBuilder::NotInitialized, Err(e)),
            }
        }
    }
}

} // verus!
