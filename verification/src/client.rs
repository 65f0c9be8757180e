//! Client core: how a response from the daemon is turned into the text
//! the caller sees.  The socket round trip itself lives outside the
//! library; it hands the decoded response in.

use crate::codec::{ResMemMsg, ResModel};
use vstd::prelude::*;

verus! {

/// The text shown when the daemon's answer is not one the operation
/// expects.
pub open spec fn problem_msg() -> Seq<char> {
    "some problem"@
}

/// The text a fetch shows: the fetched value, the daemon's not-found
/// message, or a fixed complaint for any other response.
pub fn fetch_result(resp: ResMemMsg) -> (r: String)
    ensures
        r@ == match resp@ {
            ResModel::KeyNotFound(m) => m,
            ResModel::KeyValue(v) => v,
            _ => problem_msg(),
        },
{
    match resp {
        ResMemMsg::KeyNotFound(m) => m,
        ResMemMsg::KeyValue(v) => v,
        _ => "some problem".to_owned(),
    }
}

/// The text a store shows: the daemon's confirmation, or a fixed
/// complaint for any other response.
pub fn store_result(resp: ResMemMsg) -> (r: String)
    ensures
        r@ == match resp@ {
            ResModel::KeySaved(m) => m,
            _ => problem_msg(),
        },
{
    match resp {
        ResMemMsg::KeySaved(m) => m,
        _ => "some problem".to_owned(),
    }
}

} // verus!
