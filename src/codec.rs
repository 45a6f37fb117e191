//! The sparse index as text: a JSON list of `[key bytes, offset]` pairs.

use vstd::prelude::*;
use crate::format::index_view;

verus! {

/// The JSON text of an index.
pub uninterp spec fn index_to_json(idx: Seq<(Seq<u8>, u64)>) -> Seq<char>;

/// The index a JSON text decodes to, if it decodes.
pub uninterp spec fn index_from_json(text: Seq<char>) -> Option<Seq<(Seq<u8>, u64)>>;

/// Relies on `serde_json::to_string`: the JSON text of the entries, which
/// depends on the entries alone.
#[verifier::external_body]
pub(crate) fn encode_index(idx: &Vec<(Vec<u8>, u64)>) -> (r: Result<String, serde_json::Error>)
    ensures
        r matches Ok(s) ==> s@ == index_to_json(index_view(idx@)),
{
    serde_json::to_string(idx)
}

/// Relies on `serde_json::from_str`: decodes a JSON list of `[key bytes,
/// offset]` pairs; whether it decodes, and to what, depends on the text alone.
#[verifier::external_body]
pub(crate) fn decode_index(text: &str) -> (r: Result<Vec<(Vec<u8>, u64)>, serde_json::Error>)
    ensures
        r matches Ok(v) ==> index_from_json(text@) == Some(index_view(v@)),
        r is Err ==> index_from_json(text@) is None,
{
    serde_json::from_str(text)
}

} // verus!
