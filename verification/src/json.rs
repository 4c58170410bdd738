//! What the library has from `serde_json`: the JSON value type, which it
//! carries through unread, and the reading and writing of a dictionary file.

use crate::sorted::keys_ascend;
use serde_json::Value;
use std::collections::BTreeMap;
use vstd::prelude::*;

verus! {

/// A JSON value of `serde_json`. The library never looks inside one.
#[verifier::external_type_specification]
#[verifier::external_body]
pub struct ExValue(serde_json::Value);

/// Why `serde_json` refused to read or write a text.
#[verifier::external_type_specification]
#[verifier::external_body]
pub struct ExJsonError(serde_json::Error);

/// The JSON string value that holds `text`.
pub uninterp spec fn json_string(text: Seq<char>) -> Value;

/// The members that `serde_json` reads from `text`, where `text` spells one
/// JSON object, and `None` where it does not.
pub uninterp spec fn json_object(text: Seq<u8>) -> Option<Seq<(Seq<char>, Value)>>;

/// The pretty-printed JSON object with the given members, or `None` where
/// `serde_json` cannot write it.
pub uninterp spec fn pretty_object(members: Seq<(Seq<char>, Value)>) -> Option<Seq<char>>;

/// The members of a vector of pairs, each key taken by its view.
pub open spec fn members_of(pairs: Seq<(String, Value)>) -> Seq<(Seq<char>, Value)> {
    Seq::new(pairs.len(), |i: int| (pairs[i].0@, pairs[i].1))
}

/// `Value::from(&str)`: builds the JSON string value that holds `text`.
#[verifier::external_body]
pub(crate) fn string_value(text: &str) -> (value: Value)
    ensures
        value == json_string(text@),
{
    Value::from(text)
}

/// `serde_json::from_slice` at `BTreeMap<String, Value>`: reads `text` as one
/// JSON object and hands out its members as the map iterates them. It fails
/// exactly where `json_object` is `None`.
#[verifier::external_body]
pub(crate) fn read_object(text: &[u8]) -> (r: Result<Vec<(String, Value)>, serde_json::Error>)
    ensures
        r is Ok <==> json_object(text@) is Some,
        r matches Ok(pairs) ==> Some(members_of(pairs@)) == json_object(text@),
{
    let map: BTreeMap<String, Value> = serde_json::from_slice(text)?;
    Ok(map.into_iter().collect())
}

/// `serde_json::to_string_pretty` at `BTreeMap<String, Value>`: writes the
/// object with the given members, pretty-printed. The keys must ascend, so
/// that the map holds the members one for one and in their order. It fails
/// exactly where `pretty_object` is `None`.
#[verifier::external_body]
pub(crate) fn write_object(pairs: &Vec<(String, Value)>) -> (r: Result<String, serde_json::Error>)
    requires
        keys_ascend(pairs@),
    ensures
        r is Ok <==> pretty_object(members_of(pairs@)) is Some,
        r matches Ok(text) ==> Some(text@) == pretty_object(members_of(pairs@)),
{
    let map: BTreeMap<&String, &Value> = pairs.iter().map(|pair| (&pair.0, &pair.1)).collect();
    serde_json::to_string_pretty(&map)
}

/// `ToString::to_string` of a `serde_json::Error`: what the error says of
/// itself. Nothing is claimed of the text.
#[verifier::external_body]
pub(crate) fn json_error_text(error: &serde_json::Error) -> String {
    error.to_string()
}

} // verus!
