//! Extracting values from the request-local storage.

use vstd::prelude::*;
use crate::input::{map_get, Input};
use crate::lifecycle::HandlerError;

verus! {

/// The server error that reports an absent request-local value.
pub fn missing_local_value() -> (r: HandlerError)
    ensures
        r.status == 500,
{
    HandlerError { status: 500, message: String::from_str("missing local value") }
}

/// Takes the request-local value stored under `tag` out of the storage.
pub fn remove(input: &mut Input, tag: u64) -> (r: Result<String, HandlerError>)
    ensures
        match r {
            Ok(v) => map_get(old(input).locals.model(), tag) is Some,
            Err(e) => map_get(old(input).locals.model(), tag) is None && e.status == 500
                && final(input).locals.model() == old(input).locals.model(),
        },
        final(input).method == old(input).method,
        final(input).path == old(input).path,
        final(input).headers == old(input).headers,
    {
    match input.locals.remove(tag) {
        Some(v) => {
            proof {
                let m = old(input).locals.model();
                let k = choose|k: int| {
                    &&& 0 <= k < m.len()
                    &&& (#[trigger] m[k]).0 == tag
                    &&& forall|t: int| 0 <= t < k ==> (#[trigger] m[t]).0 != tag
                    &&& v@ == m[k].1
                    &&& input.locals.model() == m.remove(k)
                };
                crate::input::lemma_map_get_present(m, k, tag);
            }
            Ok(v)
        },
        None => Err(missing_local_value()),
    }
}

/// A copy of the request-local value stored under `tag`.
pub fn clone(input: &Input, tag: u64) -> (r: Result<String, HandlerError>)
    ensures
        match r {
            Ok(v) => map_get(input.locals.model(), tag) == Some::<Seq<char>>(v@),
            Err(e) => map_get(input.locals.model(), tag) is None && e.status == 500,
        },
{
    match input.locals.get(tag) {
        Some(v) => Ok(v.clone()),
        None => Err(missing_local_value()),
    }
}

} // verus!
