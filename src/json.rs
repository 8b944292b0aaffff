//! The one outside parse the protocol needs: a proposal id in the DAO
//! contract's JSON answer.
use vstd::prelude::*;

verus! {

/// What `serde_json` reads from `bytes` as a `u64`, if it reads one.
pub uninterp spec fn json_u64_of(bytes: Seq<u8>) -> Option<u64>;

/// Relies on `near_sdk::serde_json::from_slice::<u64>`: its result depends on
/// the bytes alone.
#[verifier::external_body]
pub(crate) fn parse_u64_json(bytes: &Vec<u8>) -> (r: Option<u64>)
    ensures
        r == json_u64_of(bytes@),
{
    near_sdk::serde_json::from_slice::<u64>(bytes).ok()
}

} // verus!
