//! Trusted declarations for the JSON values the resource loader walks.
//! Each item names the `serde_json` function it relies on; everything
//! downstream of these calls is verified against plain values.

use vstd::prelude::*;

verus! {

#[verifier::external_type_specification]
#[verifier::external_body]
pub struct ExValue(serde_json::Value);

#[verifier::external_type_specification]
#[verifier::external_body]
#[verifier::reject_recursive_types(K)]
#[verifier::reject_recursive_types(V)]
pub struct ExMap<K, V>(serde_json::Map<K, V>);

#[verifier::external_type_specification]
#[verifier::external_body]
pub struct ExError(serde_json::Error);

/// Relies on `serde_json::from_str::<serde_json::Value>`: parses a JSON
/// document into a value tree. Nothing is assumed about which result
/// comes back; the callers handle every outcome.
#[verifier::external_body]
pub(crate) fn parse_json(s: &str) -> Result<serde_json::Value, serde_json::Error> {
    serde_json::from_str(s)
}

/// Relies on `serde_json::Value::as_object`: `Some` exactly when the
/// value is a JSON object.
#[verifier::external_body]
pub(crate) fn value_as_object(v: &serde_json::Value) -> Option<
    &serde_json::Map<String, serde_json::Value>,
> {
    v.as_object()
}

/// Relies on `serde_json::Value::as_array`: `Some` exactly when the
/// value is a JSON array.
#[verifier::external_body]
pub(crate) fn value_as_array(v: &serde_json::Value) -> Option<&Vec<serde_json::Value>> {
    v.as_array()
}

/// Relies on `serde_json::Map::iter`: yields each entry once, and a JSON
/// object's keys are distinct.
#[verifier::external_body]
pub(crate) fn object_entries(m: &serde_json::Map<String, serde_json::Value>) -> (r: Vec<
    (String, serde_json::Value),
>)
    ensures
        forall|i: int, j: int|
            0 <= i < j < r@.len() ==> (#[trigger] r@[i].0)@ != (#[trigger] r@[j].0)@,
{
    m.iter().map(|(k, v)| (k.clone(), v.clone())).collect()
}

/// Relies on `serde_json::Number`'s display form: a JSON number prints as
/// a decimal literal (optionally signed, with an optional fraction or
/// exponent). Returns `None` for any value that is not a number.
#[verifier::external_body]
pub(crate) fn number_string(v: &serde_json::Value) -> Option<String> {
    match v {
        serde_json::Value::Number(n) => Some(n.to_string()),
        _ => None,
    }
}

} // verus!
