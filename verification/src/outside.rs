//! Trusted bindings to outside crates and to std functions that vstd does
//! not specify. Each function here is `external_body`: its contract is
//! believed, not proved, and its body does nothing but make the outside
//! call and convert values.

use rand::seq::SliceRandom;
use rand::SeedableRng;
use vstd::prelude::*;

use crate::unit::CognitiveUnitPair;

verus! {

/// The `(rule, state)` string pair that a JSON document describes, when it
/// is an object whose `rule` and `state` members are strings; `None` for
/// every other document. A function of the text alone.
pub uninterp spec fn json_pair_of(s: Seq<char>) -> Option<(Seq<char>, Seq<char>)>;

/// Relies on serde_json: `from_str` parses the document (or fails), `get`
/// looks up an object member, `as_str` accepts exactly the string values.
/// Parsing is pure, so the outcome depends on the text alone.
#[verifier::external_body]
pub(crate) fn parse_unit_pair(s: &str) -> (r: Option<CognitiveUnitPair>)
    ensures
        match r {
            Some(p) => json_pair_of(s@) == Some((p.rule@, p.state@)),
            None => json_pair_of(s@) is None,
        },
{
    let value: serde_json::Value = match serde_json::from_str(s) {
        Ok(value) => value,
        Err(_) => return None,
    };
    match (
        value.get("rule").and_then(|r| r.as_str()),
        value.get("state").and_then(|st| st.as_str()),
    ) {
        (Some(rule), Some(state)) => Some(
            CognitiveUnitPair { rule: rule.to_string(), state: state.to_string() },
        ),
        _ => None,
    }
}

/// Relies on rand: `SliceRandom::shuffle` permutes the slice in place by
/// element swaps, so the multiset of elements is kept; the resulting order
/// is random and nothing more is promised of it.
#[verifier::external_body]
pub(crate) fn shuffle_indices(order: &mut Vec<usize>)
    ensures
        final(order)@.to_multiset() == old(order)@.to_multiset(),
{
    let mut rng = rand::rngs::StdRng::from_entropy();
    order.shuffle(&mut rng);
}

/// The 32 lowercase hex digits of md5's digest of a byte string: a function
/// of the bytes alone.
pub uninterp spec fn md5_hex_of(bytes: Seq<u8>) -> Seq<char>;

/// Relies on md5: `compute` digests the bytes into a 16-byte digest that
/// depends on the bytes alone, and its `LowerHex` form prints two hex
/// digits per digest byte.
#[verifier::external_body]
pub(crate) fn md5_hex(bytes: &Vec<u8>) -> (r: String)
    ensures
        r@ == md5_hex_of(bytes@),
{
    format!("{:x}", md5::compute(bytes.as_slice()))
}

/// Relies on std's `String::from_utf8`: it succeeds exactly on valid UTF-8
/// input and then returns the string whose byte encoding is that input.
#[verifier::external_body]
pub(crate) fn string_from_utf8(bytes: Vec<u8>) -> (r: Option<String>)
    ensures
        r is Some <==> vstd::utf8::valid_utf8(bytes@),
        r matches Some(s) ==> vstd::utf8::encode_utf8(s@) == bytes@,
{
    String::from_utf8(bytes).ok()
}

} // verus!
