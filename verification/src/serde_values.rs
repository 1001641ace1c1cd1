//! The library's JSON values and `serde_json`'s, one for one, for the
//! parsers and printers of the serde crates.

use vstd::prelude::*;
use crate::value::{wf_json, JsonValue};

verus! {

#[verifier::external_type_specification]
#[verifier::external_body]
pub struct ExSerdeValue(serde_json::Value);

/// Trusted: the library's value of the same shape as a `serde_json` value:
/// null, booleans, strings and arrays alike, a number as the text its
/// `Display` writes, an object's members in their order with each key
/// beside its value. Keys and values are collected together, so every
/// object has as many keys as values.
#[verifier::external_body]
pub(crate) fn json_of(v: serde_json::Value) -> (r: JsonValue)
    ensures
        wf_json(r@),
{
    match v {
        serde_json::Value::Null => JsonValue::Null,
        serde_json::Value::Bool(b) => JsonValue::Bool(b),
        serde_json::Value::Number(n) => JsonValue::Number(n.to_string()),
        serde_json::Value::String(s) => JsonValue::Str(s),
        serde_json::Value::Array(a) => JsonValue::Array(a.into_iter().map(json_of).collect()),
        serde_json::Value::Object(m) => {
            let (k, v): (Vec<String>, Vec<JsonValue>) = m.into_iter().map(|(k, v)| (k, json_of(v))).unzip();
            JsonValue::Object(k, v)
        },
    }
}

/// Trusted: the `serde_json` value of the same shape as a library value:
/// a number text that `serde_json::Number` reads becomes that number, and
/// one it does not read (no text its own parsers give) is kept as a
/// string; an object's members are kept in order.
#[verifier::external_body]
pub(crate) fn value_of(v: &JsonValue) -> serde_json::Value {
    match v {
        JsonValue::Null => serde_json::Value::Null,
        JsonValue::Bool(b) => serde_json::Value::Bool(*b),
        JsonValue::Number(s) => match s.parse::<serde_json::Number>() {
            Ok(n) => serde_json::Value::Number(n),
            Err(_) => serde_json::Value::String(s.clone()),
        },
        JsonValue::Str(s) => serde_json::Value::String(s.clone()),
        JsonValue::Array(a) => serde_json::Value::Array(a.iter().map(value_of).collect()),
        JsonValue::Object(k, v) => serde_json::Value::Object(k.iter().cloned().zip(v.iter().map(value_of)).collect()),
    }
}

} // verus!
