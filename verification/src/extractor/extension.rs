//! Extracting values from the protocol extensions.

use vstd::prelude::*;
use crate::input::{map_get, Input};
use crate::lifecycle::HandlerError;

verus! {

/// A copy of the protocol extension stored under `tag`, or the server
/// error that reports it missing.
pub fn clone(input: &Input, tag: u64) -> (r: Result<String, HandlerError>)
    ensures
        match r {
            Ok(v) => map_get(
                input.extensions@.map_values(|e: (u64, String)| (e.0, e.1@)),
                tag,
            ) == Some::<Seq<char>>(v@),
            Err(e) => map_get(
                input.extensions@.map_values(|e: (u64, String)| (e.0, e.1@)),
                tag,
            ) is None && e.status == 500,
        },
{
    match input.extensions(tag) {
        Some(v) => Ok(v.clone()),
        None => Err(HandlerError {
            status: 500,
            message: String::from_str("missing extension"),
        }),
    }
}

} // verus!
