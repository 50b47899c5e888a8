//! JSON values, as the `serde_json` crate holds them. Nothing in this file is
//! proved: each function states what the called code does to the
//! mathematical content of a value.

use vstd::prelude::*;

verus! {

/// The JSON value of `serde_json`, whose inside is not looked into.
#[verifier::external_type_specification]
#[verifier::external_body]
pub struct ExValue(serde_json::Value);

/// The mathematical content of a JSON value.
pub enum JsonView {
    Null,
    Bool(bool),
    /// A number that is a non-negative integer below 2^64.
    Number(u64),
    /// Any other number, by the text in which it is printed.
    OtherNumber(Seq<char>),
    Text(Seq<char>),
    Array(Seq<JsonView>),
    Object(Map<Seq<char>, JsonView>),
}

/// The content of a `serde_json::Value`.
pub uninterp spec fn json_view(value: serde_json::Value) -> JsonView;

/// The value that a text parses to under `serde_json::from_str`, or `None`
/// where the text is no JSON.
pub uninterp spec fn parsed_json(text: Seq<char>) -> Option<JsonView>;

/// The compact text that `serde_json` prints for a value.
pub uninterp spec fn rendered_json(value: JsonView) -> Seq<char>;

/// The contents of several values, in order.
pub open spec fn json_views(values: Seq<serde_json::Value>) -> Seq<JsonView> {
    values.map_values(|value: serde_json::Value| json_view(value))
}

/// Calls `serde_json::from_str` for a `Value`; an error becomes `None`.
#[verifier::external_body]
pub(crate) fn parse(text: &str) -> (value: Option<serde_json::Value>)
    ensures
        match value {
            Some(parsed) => parsed_json(text@) == Some(json_view(parsed)),
            None => parsed_json(text@) is None,
        },
{
    serde_json::from_str(text).ok()
}

/// Prints a value in compact form, as `Value`'s `Display` does.
#[verifier::external_body]
pub(crate) fn render(value: &serde_json::Value) -> (text: String)
    ensures
        text@ == rendered_json(json_view(*value)),
{
    value.to_string()
}

/// Calls `Value::as_array`: the elements of an array, `None` for any other
/// value.
#[verifier::external_body]
pub(crate) fn items_of(value: &serde_json::Value) -> (items: Option<&Vec<serde_json::Value>>)
    ensures
        match items {
            Some(list) => json_view(*value) == JsonView::Array(json_views(list@)),
            None => !(json_view(*value) is Array),
        },
{
    value.as_array()
}

/// Calls `Value::as_u64`: the number where the value is a non-negative
/// integer that fits, `None` for any other value.
#[verifier::external_body]
pub(crate) fn number_of(value: &serde_json::Value) -> (number: Option<u64>)
    ensures
        number == match json_view(*value) {
            JsonView::Number(n) => Some(n),
            _ => None,
        },
{
    value.as_u64()
}

/// Calls `Value::as_str`: the text of a string, `None` for any other value.
#[verifier::external_body]
pub(crate) fn text_of(value: &serde_json::Value) -> (text: Option<&str>)
    ensures
        match text {
            Some(held) => json_view(*value) == JsonView::Text(held@),
            None => !(json_view(*value) is Text),
        },
{
    value.as_str()
}

/// Calls `Value::get` with a name: the value under that name in an object,
/// `None` where the value is no object or holds no such name.
#[verifier::external_body]
pub(crate) fn field_of<'a>(value: &'a serde_json::Value, name: &str) -> (field: Option<
    &'a serde_json::Value,
>)
    ensures
        match field {
            Some(held) => json_view(*value) matches JsonView::Object(fields) && fields.contains_key(
                name@,
            ) && fields[name@] == json_view(*held),
            None => !(json_view(*value) matches JsonView::Object(fields) && fields.contains_key(
                name@,
            )),
        },
{
    value.get(name)
}

/// Makes a number with `Value::from`.
#[verifier::external_body]
pub(crate) fn number_value(number: u64) -> (value: serde_json::Value)
    ensures
        json_view(value) == JsonView::Number(number),
{
    serde_json::Value::from(number)
}

/// Makes a string with `Value::from`.
#[verifier::external_body]
pub(crate) fn text_value(text: &str) -> (value: serde_json::Value)
    ensures
        json_view(value) == JsonView::Text(text@),
{
    serde_json::Value::from(text)
}

/// Makes an array of the given values with `Value::from`.
#[verifier::external_body]
pub(crate) fn array_value(items: Vec<serde_json::Value>) -> (value: serde_json::Value)
    ensures
        json_view(value) == JsonView::Array(json_views(items@)),
{
    serde_json::Value::from(items)
}

/// Makes an object without fields, from `Map::new`.
#[verifier::external_body]
pub(crate) fn object_value() -> (value: serde_json::Value)
    ensures
        json_view(value) == JsonView::Object(Map::empty()),
{
    serde_json::Value::from(serde_json::Map::new())
}

/// Puts a value under a name in an object, with `Map::insert`; a value that
/// is no object is handed back as it is.
#[verifier::external_body]
pub(crate) fn with_field(object: serde_json::Value, name: &str, value: serde_json::Value) -> (made:
    serde_json::Value)
    ensures
        json_view(made) == match json_view(object) {
            JsonView::Object(fields) => JsonView::Object(fields.insert(name@, json_view(value))),
            other => other,
        },
{
    let mut made = object;
    if let serde_json::Value::Object(fields) = &mut made {
        fields.insert(name.to_owned(), value);
    }
    made
}

} // verus!
