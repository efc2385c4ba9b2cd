use vstd::prelude::*;

use serde_json::Value;

verus! {

#[verifier::external_type_specification]
#[verifier::external_body]
pub struct ExValue(serde_json::Value);

/// Whether two JSON values are equal under `Value`'s `PartialEq`.
pub uninterp spec fn json_equal(a: Value, b: Value) -> bool;

/// The structural difference that `JsonDiff::diff` finds between two values.
pub uninterp spec fn json_diff(a: Value, b: Value) -> Option<Value>;

/// Whether a JSON value is `null`.
pub uninterp spec fn json_is_null(v: Value) -> bool;

/// Relies on the `Clone` that serde_json derives for `Value`: the copy holds
/// the same JSON value.
#[verifier::external_body]
pub(crate) fn clone_json(v: &Value) -> (r: Value)
    ensures
        r == *v,
{
    v.clone()
}

/// Relies on the `PartialEq` that serde_json derives for `Value`: the answer
/// depends on the two values alone, and every value equals itself.
#[verifier::external_body]
pub(crate) fn json_eq(a: &Value, b: &Value) -> (r: bool)
    ensures
        r == json_equal(*a, *b),
        *a == *b ==> r,
{
    a == b
}

/// Relies on `json_structural_diff::JsonDiff::diff`, comparing keys and
/// values: its result depends on the two values alone.
#[verifier::external_body]
pub(crate) fn structural_diff(a: &Value, b: &Value) -> (r: Option<Value>)
    ensures
        r == json_diff(*a, *b),
{
    json_structural_diff::JsonDiff::diff(a, b, false).diff
}

/// Relies on `serde_json::Value::is_null`: true exactly for `Value::Null`.
pub assume_specification[ serde_json::Value::is_null ](v: &Value) -> (r: bool)
    ensures
        r == json_is_null(*v),
;

} // verus!
