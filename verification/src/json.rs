//! What the crate asks of `serde_json`.

use serde_json::Value;
use vstd::prelude::*;

verus! {

/// `serde_json::Value`: a JSON value.
#[verifier::external_type_specification]
#[verifier::external_body]
pub struct ExValue(serde_json::Value);

/// A JSON value, as far as it is looked into.
pub enum JsonView {
    Text(Seq<char>),
    Object(Map<Seq<char>, JsonView>),
    Other,
}

/// What a JSON value is.
pub uninterp spec fn json_view(v: Value) -> JsonView;

/// The JSON value that a text is, or why it is none.
pub uninterp spec fn json_value(text: Seq<char>) -> Result<JsonView, Seq<char>>;

/// `serde_json::from_str` into a `serde_json::Value`.
#[verifier::external_body]
fn json_read(text: &str) -> (r: Result<Value, String>)
    ensures
        match r {
            Ok(v) => json_value(text@) == Ok::<JsonView, Seq<char>>(json_view(v)),
            Err(e) => json_value(text@) == Err::<JsonView, Seq<char>>(e@),
        },
{
    serde_json::from_str::<Value>(text).map_err(|e| e.to_string())
}

/// `serde_json::Value::get` by a name: a member of an object.
#[verifier::external_body]
fn json_get<'a>(v: &'a Value, key: &str) -> (r: Option<&'a Value>)
    ensures
        match json_view(*v) {
            JsonView::Object(m) => match r {
                Some(x) => m.contains_key(key@) && json_view(*x) == m[key@],
                None => !m.contains_key(key@),
            },
            _ => r is None,
        },
{
    v.get(key)
}

/// `serde_json::Value::as_str`: the text of a string.
#[verifier::external_body]
fn json_text(v: &Value) -> (r: Option<&str>)
    ensures
        match json_view(*v) {
            JsonView::Text(s) => r is Some && r->0@ == s,
            _ => r is None,
        },
{
    v.as_str()
}

/// The text that a member of a value is, if it is one.
pub open spec fn text_member(v: JsonView, key: Seq<char>) -> Option<Seq<char>> {
    match v {
        JsonView::Object(m) => if m.contains_key(key) {
            match m[key] {
                JsonView::Text(s) => Some(s),
                _ => None,
            }
        } else {
            None
        },
        _ => None,
    }
}

/// The string member `key` of the JSON value that `text` is: the error's
/// message where `text` is no JSON, and nothing where the value is no object,
/// has no such member, or has one that is no string.
pub open spec fn json_member(text: Seq<char>, key: Seq<char>) -> Result<
    Option<Seq<char>>,
    Seq<char>,
> {
    match json_value(text) {
        Ok(v) => Ok(text_member(v, key)),
        Err(e) => Err(e),
    }
}

/// The view of a looked-up member.
pub open spec fn member_view(r: Result<Option<String>, String>) -> Result<
    Option<Seq<char>>,
    Seq<char>,
> {
    match r {
        Ok(Some(s)) => Ok(Some(s@)),
        Ok(None) => Ok(None),
        Err(e) => Err(e@),
    }
}

/// The string member `key` of the JSON value that `text` is.
pub fn json_string_member(text: &str, key: &str) -> (r: Result<Option<String>, String>)
    ensures
        member_view(r) == json_member(text@, key@),
{
    match json_read(text) {
        Err(e) => Err(e),
        Ok(v) => match json_get(&v, key) {
            None => Ok(None),
            Some(x) => match json_text(x) {
                None => Ok(None),
                Some(s) => Ok(Some(crate::text::owned(s))),
            },
        },
    }
}

} // verus!
