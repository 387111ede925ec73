//! JSON values, as `serde_json` builds and prints them.
use serde_json::Value;
use vstd::prelude::*;
use vstd::string::*;
use crate::text::decimal;

verus! {

/// `serde_json::Value`, a JSON value.
#[verifier::external_type_specification]
#[verifier::external_body]
pub struct ExValue(serde_json::Value);

/// What a JSON value holds. A number is held by the text it is printed as.
pub enum JsonView {
    Null,
    Bool(bool),
    Number(Seq<char>),
    Text(Seq<char>),
    List(Seq<JsonView>),
    Object(Map<Seq<char>, JsonView>),
}

/// What a `serde_json::Value` holds.
pub uninterp spec fn json_view(v: Value) -> JsonView;

/// What each of the values holds.
pub open spec fn json_views(v: Seq<Value>) -> Seq<JsonView> {
    v.map_values(|x: Value| json_view(x))
}

/// The compact text that `serde_json` prints for a value with these contents.
pub uninterp spec fn json_text(v: JsonView) -> Seq<char>;

/// `Value::from(bool)`: the JSON literal for `b`.
#[verifier::external_body]
pub(crate) fn json_bool(b: bool) -> (r: Value)
    ensures
        json_view(r) == JsonView::Bool(b),
{
    Value::from(b)
}

/// `Value::from(u64)`: the JSON number `n`, printed in decimal.
#[verifier::external_body]
pub(crate) fn json_uint(n: u64) -> (r: Value)
    ensures
        json_view(r) == JsonView::Number(decimal(n as nat)),
{
    Value::from(n)
}

/// `Value::from(&str)`: the JSON string with this text.
#[verifier::external_body]
pub(crate) fn json_string(s: &str) -> (r: Value)
    ensures
        json_view(r) == JsonView::Text(s@),
{
    Value::from(s)
}

/// `Value::from(Vec<Value>)`: the JSON array with these elements in order.
#[verifier::external_body]
pub(crate) fn json_array(items: Vec<Value>) -> (r: Value)
    ensures
        json_view(r) == JsonView::List(json_views(items@)),
{
    Value::from(items)
}

/// `Value::from(Map)` of `Map::new()`: the JSON object without members.
#[verifier::external_body]
pub(crate) fn json_object() -> (r: Value)
    ensures
        json_view(r) == JsonView::Object(Map::empty()),
{
    Value::from(serde_json::Map::new())
}

/// `Value`'s assignment by key: an object gets the member, which replaces one
/// with the same key.
#[verifier::external_body]
pub(crate) fn json_set(object: Value, key: &str, value: Value) -> (r: Value)
    requires
        json_view(object) is Object,
    ensures
        json_view(r) == JsonView::Object(json_view(object)->Object_0.insert(key@, json_view(value))),
{
    let mut object = object;
    object[key] = value;
    object
}

/// `Value::clone`: a value with the same contents.
#[verifier::external_body]
pub(crate) fn json_copy(value: &Value) -> (r: Value)
    ensures
        json_view(r) == json_view(*value),
{
    value.clone()
}

/// `Value::to_string`: the compact text of the value, a function of its
/// contents.
#[verifier::external_body]
pub(crate) fn json_to_string(value: &Value) -> (r: String)
    ensures
        r@ == json_text(json_view(*value)),
{
    value.to_string()
}

} // verus!
