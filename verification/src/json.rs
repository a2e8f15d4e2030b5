//! JSON values, as `serde_json` parses them.

use serde_json::Value;
use vstd::prelude::*;

verus! {

/// `serde_json::Value`: a parsed JSON value.
#[verifier::external_type_specification]
#[verifier::external_body]
pub struct ExValue(serde_json::Value);

/// What a JSON value holds. A number is known by the 64-bit integer that it is,
/// if it is one; an object by its entries in the order in which it is walked.
pub ghost enum Json {
    Null,
    Bool(bool),
    Number(Option<i64>),
    Text(Seq<char>),
    Array(Seq<Json>),
    Object(Seq<(Seq<char>, Json)>),
}

/// What a `Value` holds.
pub uninterp spec fn content(v: Value) -> Json;

/// What a text is parsed to, or the words of the error.
pub uninterp spec fn parsed(text: Seq<char>) -> Result<Json, Seq<char>>;

/// What each value of a list holds.
pub open spec fn contents(v: Seq<Value>) -> Seq<Json> {
    Seq::new(v.len(), |i: int| content(v[i]))
}

/// The value that an object's entries give a key.
pub open spec fn lookup(entries: Seq<(Seq<char>, Json)>, key: Seq<char>) -> Option<Json>
    decreases entries.len(),
{
    if entries.len() == 0 {
        None
    } else if entries[0].0 == key {
        Some(entries[0].1)
    } else {
        lookup(entries.drop_first(), key)
    }
}

/// The value that a JSON value gives a key: none where it is no object.
pub open spec fn member(j: Json, key: Seq<char>) -> Option<Json> {
    match j {
        Json::Object(entries) => lookup(entries, key),
        _ => None,
    }
}

/// What a parse came to.
pub open spec fn result_view(r: Result<Value, String>) -> Result<Json, Seq<char>> {
    match r {
        Ok(v) => Ok(content(v)),
        Err(e) => Err(e@),
    }
}

/// `serde_json::from_str` into a `Value`: what the text is parsed to depends on
/// the text alone, and so do the words of the error.
#[verifier::external_body]
pub(crate) fn parse_json(text: &str) -> (r: Result<Value, String>)
    ensures
        result_view(r) == parsed(text@),
{
    serde_json::from_str::<Value>(text).map_err(|e| e.to_string())
}

/// `Value::as_array`: the items of an array, in order; none where the value is
/// no array.
pub assume_specification[ Value::as_array ](v: &Value) -> (r: Option<&Vec<Value>>)
    ensures
        match r {
            Some(items) => content(*v) == Json::Array(contents(items@)),
            None => !(content(*v) is Array),
        },
;

/// `Value::as_i64`: the 64-bit integer that a number is; none where the value
/// is no such number.
pub assume_specification[ Value::as_i64 ](v: &Value) -> (r: Option<i64>)
    ensures
        match r {
            Some(n) => content(*v) == Json::Number(Some(n)),
            None => !(content(*v) matches Json::Number(Some(_))),
        },
;

/// `Value::as_str`: the characters of a string; none where the value is no
/// string.
pub assume_specification[ Value::as_str ](v: &Value) -> (r: Option<&str>)
    ensures
        match r {
            Some(s) => content(*v) == Json::Text(s@),
            None => !(content(*v) is Text),
        },
;

/// `Value::is_object`: whether the value is an object.
pub assume_specification[ Value::is_object ](v: &Value) -> (r: bool)
    ensures
        r == (content(*v) is Object),
;

/// `Value::get` with a string key: the value under the key, where the value is
/// an object that has it.
#[verifier::external_body]
pub(crate) fn json_member<'a>(v: &'a Value, key: &str) -> (r: Option<&'a Value>)
    ensures
        match r {
            Some(x) => member(content(*v), key@) == Some(content(*x)),
            None => member(content(*v), key@) is None,
        },
{
    v.get(key)
}

/// The values of an object's entries, in the order in which it is walked.
pub open spec fn entry_values(entries: Seq<(Seq<char>, Json)>) -> Seq<Json> {
    Seq::new(entries.len(), |i: int| entries[i].1)
}

/// What each value of a list of references holds.
pub open spec fn ref_contents(v: Seq<&Value>) -> Seq<Json> {
    Seq::new(v.len(), |i: int| content(*v[i]))
}

/// `Value::as_object` and `Map::values`: the values of an object's entries in
/// the order in which it is walked; none where the value is no object.
#[verifier::external_body]
pub(crate) fn json_values<'a>(v: &'a Value) -> (r: Option<Vec<&'a Value>>)
    ensures
        match r {
            Some(vs) => content(*v) matches Json::Object(es) && ref_contents(vs@) == entry_values(es),
            None => !(content(*v) is Object),
        },
{
    v.as_object().map(|m| m.values().collect())
}

} // verus!
