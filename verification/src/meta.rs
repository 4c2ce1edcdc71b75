//! Validity of attribute bags. A node's or edge's `meta` field holds JSON
//! text; whether that text parses as structured data is decided by the JSON
//! parser and given a name here.

use vstd::prelude::*;

verus! {

/// Whether a text parses as a JSON document. The parse outcome is a function
/// of the characters alone.
pub uninterp spec fn json_ok(s: Seq<char>) -> bool;

/// Relies on serde_json::from_str::<serde_json::Value>: whether the text is
/// a well-formed JSON document depends only on the text.
#[verifier::external_body]
pub fn meta_is_valid(s: &str) -> (r: bool)
    ensures
        r == json_ok(s@),
{
    serde_json::from_str::<serde_json::Value>(s).is_ok()
}

} // verus!
