//! JSON values, as `serde_json` holds them.

use vstd::prelude::*;

verus! {

/// `serde_json::Value`: a JSON value.
#[verifier::external_type_specification]
#[verifier::external_body]
pub struct ExValue(serde_json::Value);

/// A JSON value. An object has no order of its own.
pub enum JsonModel {
    Text(Seq<char>),
    Number(nat),
    List(Seq<JsonModel>),
    Object(Map<Seq<char>, JsonModel>),
}

/// What a JSON value is.
pub uninterp spec fn json_of(value: serde_json::Value) -> JsonModel;

/// What a list of JSON values is.
pub open spec fn json_list(s: Seq<serde_json::Value>) -> Seq<JsonModel> {
    s.map_values(|v: serde_json::Value| json_of(v))
}

/// `serde_json::Value::from` makes a JSON string of a text.
#[verifier::external_body]
pub(crate) fn text_value(s: &str) -> (r: serde_json::Value)
    ensures
        json_of(r) == JsonModel::Text(s@),
{
    serde_json::Value::from(s)
}

/// `serde_json::Value::from` makes a JSON number of a number.
#[verifier::external_body]
pub(crate) fn number_value(n: usize) -> (r: serde_json::Value)
    ensures
        json_of(r) == JsonModel::Number(n as nat),
{
    serde_json::Value::from(n)
}

/// `serde_json::Value::from` makes a JSON array of values, in their order.
#[verifier::external_body]
pub(crate) fn list_value(items: Vec<serde_json::Value>) -> (r: serde_json::Value)
    ensures
        json_of(r) == JsonModel::List(json_list(items@)),
{
    serde_json::Value::from(items)
}

/// `serde_json::Map::new` makes an empty JSON object.
#[verifier::external_body]
pub(crate) fn empty_object() -> (r: serde_json::Value)
    ensures
        json_of(r) == JsonModel::Object(Map::empty()),
{
    serde_json::Value::Object(serde_json::Map::new())
}

/// `serde_json::Map::insert` puts a member into a JSON object, in place of one with its name.
#[verifier::external_body]
pub(crate) fn insert_member(object: &mut serde_json::Value, name: &str, value: serde_json::Value)
    requires
        json_of(*old(object)) is Object,
    ensures
        json_of(*final(object)) == JsonModel::Object(
            json_of(*old(object))->Object_0.insert(name@, json_of(value)),
        ),
{
    if let serde_json::Value::Object(members) = object {
        members.insert(name.to_string(), value);
    }
}

/// A JSON value as indented text.
pub uninterp spec fn pretty_json(value: JsonModel) -> Seq<char>;

/// `serde_json::to_string_pretty` writes a JSON value as indented text, which depends on the
/// value alone: an object's members are kept and written in the order of their names. It
/// cannot fail on a value that is in memory already.
#[verifier::external_body]
pub(crate) fn pretty(value: &serde_json::Value) -> (r: String)
    ensures
        r@ == pretty_json(json_of(*value)),
{
    serde_json::to_string_pretty(value).expect("a JSON value serializes")
}

} // verus!
