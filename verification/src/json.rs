//! JSON records as `serde_json` reads them. The parser and the two accessors
//! are called, not restated: what each returns is given a name, and the
//! contracts of the library speak of those names.

use serde_json::Value;
use vstd::prelude::*;

verus! {

/// A JSON value of `serde_json`, carried through as it is.
#[verifier::external_type_specification]
#[verifier::external_body]
pub struct ExValue(serde_json::Value);

/// The value that `serde_json::from_str` reads from `text`, or none where it
/// reports an error.
pub uninterp spec fn json_document(text: Seq<char>) -> Option<Value>;

/// The member that `Value::get` finds under `key` in `value`: the value of
/// that key where `value` is an object that has it, else none.
pub uninterp spec fn json_member(value: Value, key: Seq<char>) -> Option<Value>;

/// The text that `Value::as_str` finds in `value`: its characters where
/// `value` is a JSON string, else none.
pub uninterp spec fn json_text(value: Value) -> Option<Seq<char>>;

/// The text of the member of `value` under `key`, where there is such a
/// member and it is a JSON string.
pub open spec fn json_text_member(value: Value, key: Seq<char>) -> Option<Seq<char>> {
    match json_member(value, key) {
        Some(member) => json_text(member),
        None => None,
    }
}

/// Calls `serde_json::from_str` for a `Value`. The result is the named
/// document of the text; a parse error becomes `None`.
#[verifier::external_body]
pub(crate) fn parse_document(text: &str) -> (doc: Option<Value>)
    ensures
        doc == json_document(text@),
{
    serde_json::from_str::<Value>(text).ok()
}

/// Calls `Value::get` with a string key. The result is the named member.
#[verifier::external_body]
pub(crate) fn member<'a>(value: &'a Value, key: &str) -> (found: Option<&'a Value>)
    ensures
        match found {
            Some(m) => json_member(*value, key@) == Some(*m),
            None => json_member(*value, key@) is None,
        },
{
    value.get(key)
}

/// Calls `Value::as_str`. The result is the named text of the value.
#[verifier::external_body]
pub(crate) fn text_of<'a>(value: &'a Value) -> (found: Option<&'a str>)
    ensures
        match found {
            Some(s) => json_text(*value) == Some(s@),
            None => json_text(*value) is None,
        },
{
    value.as_str()
}

/// The text of the member of `value` under `key`, copied out.
pub(crate) fn text_member(value: &Value, key: &str) -> (found: Option<String>)
    ensures
        match found {
            Some(s) => json_text_member(*value, key@) == Some(s@),
            None => json_text_member(*value, key@) is None,
        },
{
    match member(value, key) {
        Some(m) => match text_of(m) {
            Some(s) => Some(s.to_owned()),
            None => None,
        },
        None => None,
    }
}

} // verus!
