//! JSON documents, as `serde_json` holds them: generic values that keep every
//! field, known or not.

use vstd::prelude::*;

verus! {

/// `serde_json::Value`, one JSON value.
#[verifier::external_type_specification]
#[verifier::external_body]
pub struct ExValue(serde_json::Value);

/// `serde_json::Map`, the members of a JSON object.
#[verifier::external_type_specification]
#[verifier::external_body]
#[verifier::reject_recursive_types(K)]
#[verifier::reject_recursive_types(V)]
pub struct ExMap<K, V>(serde_json::Map<K, V>);

/// What the members of an object are, by name.
pub uninterp spec fn members(map: serde_json::Map<String, serde_json::Value>) -> Map<
    Seq<char>,
    serde_json::Value,
>;

/// The members of a value that is an object.
pub uninterp spec fn object_members(value: serde_json::Value) -> Option<
    Map<Seq<char>, serde_json::Value>,
>;

/// The object with the given members.
pub uninterp spec fn object_value(members: Map<Seq<char>, serde_json::Value>) -> serde_json::Value;

/// The JSON string that holds a text.
pub uninterp spec fn string_value(text: Seq<char>) -> serde_json::Value;

/// The text of a value that is a string.
pub uninterp spec fn string_text(value: serde_json::Value) -> Option<Seq<char>>;

/// The JSON value of a truth value.
pub uninterp spec fn bool_value(value: bool) -> serde_json::Value;

/// Whether a value is null.
pub uninterp spec fn is_null_value(value: serde_json::Value) -> bool;

/// The value that a text reads as, or the error's words.
pub uninterp spec fn read_value(text: Seq<char>) -> Result<serde_json::Value, Seq<char>>;

/// The text that a value is written as.
pub uninterp spec fn written_value(value: serde_json::Value) -> Seq<char>;

/// No members.
pub open spec fn nothing() -> Map<Seq<char>, serde_json::Value> {
    Map::empty()
}

/// `serde_json::from_str` into a generic value. What it reads, and how its error
/// shows itself, is named after the text that it is given.
#[verifier::external_body]
pub(crate) fn read_json(text: &str) -> (r: Result<serde_json::Value, String>)
    ensures
        match (r, read_value(text@)) {
            (Ok(value), Ok(v)) => value == v,
            (Err(error), Err(words)) => error@ == words,
            _ => false,
        },
{
    match serde_json::from_str::<serde_json::Value>(text) {
        Ok(value) => Ok(value),
        Err(error) => Err(error.to_string()),
    }
}

/// `serde_json::to_string` of a generic value. It writes to memory, names are
/// strings and numbers finite, so that nothing of a generic value can fail to be
/// written; the text is named after the value.
#[verifier::external_body]
pub(crate) fn write_json(value: &serde_json::Value) -> (r: Result<String, String>)
    ensures
        match r {
            Ok(text) => text@ == written_value(*value),
            Err(_) => false,
        },
{
    match serde_json::to_string(value) {
        Ok(text) => Ok(text),
        Err(error) => Err(error.to_string()),
    }
}

/// `serde_json::Value::is_null`.
#[verifier::external_body]
pub(crate) fn is_null(value: &serde_json::Value) -> (r: bool)
    ensures
        r == is_null_value(*value),
{
    value.is_null()
}

/// Takes a `serde_json::Value` apart: the members of an object, or the value as
/// it was where it is none.
#[verifier::external_body]
pub(crate) fn into_members(value: serde_json::Value) -> (r: Result<
    serde_json::Map<String, serde_json::Value>,
    serde_json::Value,
>)
    ensures
        match r {
            Ok(map) => object_members(value) == Some(members(map)),
            Err(other) => other == value && object_members(value) is None,
        },
{
    match value {
        serde_json::Value::Object(map) => Ok(map),
        other => Err(other),
    }
}

/// `serde_json::Value::Object`: the object with these members, which it gives
/// back. A map keeps its members sorted by name, so that nothing but the members
/// tells two objects apart.
#[verifier::external_body]
pub(crate) fn object(map: serde_json::Map<String, serde_json::Value>) -> (r: serde_json::Value)
    ensures
        r == object_value(members(map)),
        object_members(r) == Some(members(map)),
{
    serde_json::Value::Object(map)
}

/// `serde_json::Value::String`: the string that holds the text, which it gives
/// back.
#[verifier::external_body]
pub(crate) fn string(text: &str) -> (r: serde_json::Value)
    ensures
        r == string_value(text@),
        string_text(r) == Some(text@),
{
    serde_json::Value::String(text.to_owned())
}

/// `serde_json::Value::Bool`.
#[verifier::external_body]
pub(crate) fn boolean(value: bool) -> (r: serde_json::Value)
    ensures
        r == bool_value(value),
{
    serde_json::Value::Bool(value)
}

/// `serde_json::Map::new`: no members.
#[verifier::external_body]
pub(crate) fn no_members() -> (r: serde_json::Map<String, serde_json::Value>)
    ensures
        members(r) == nothing(),
{
    serde_json::Map::new()
}

/// `serde_json::Map::insert`: the member is set, whether or not it was there, and
/// all others stay.
#[verifier::external_body]
pub(crate) fn set_member(
    map: &mut serde_json::Map<String, serde_json::Value>,
    name: &str,
    value: serde_json::Value,
)
    ensures
        members(*final(map)) == members(*old(map)).insert(name@, value),
{
    map.insert(name.to_owned(), value);
}

/// `serde_json::Map::remove`: the member is taken out where it was there, and all
/// others stay.
#[verifier::external_body]
pub(crate) fn take_member(
    map: &mut serde_json::Map<String, serde_json::Value>,
    name: &str,
) -> (r: Option<serde_json::Value>)
    ensures
        members(*final(map)) == members(*old(map)).remove(name@),
        match r {
            Some(value) => members(*old(map)).dom().contains(name@) && members(*old(map))[name@]
                == value,
            None => !members(*old(map)).dom().contains(name@),
        },
{
    map.remove(name)
}

/// An object with a single member.
pub open spec fn single(name: Seq<char>, value: serde_json::Value) -> serde_json::Value {
    object_value(nothing().insert(name, value))
}

/// An object with a single member.
pub(crate) fn with_member(name: &str, value: serde_json::Value) -> (r: serde_json::Value)
    ensures
        r == single(name@, value),
        object_members(r) == Some(nothing().insert(name@, value)),
{
    let mut map: serde_json::Map<String, serde_json::Value> = no_members();
    set_member(&mut map, name, value);
    object(map)
}

} // verus!
