//! What the crate asks of `toml`.

use toml::{Table, Value};
use vstd::prelude::*;

verus! {

/// `toml::Value`: a TOML value.
#[verifier::external_type_specification]
#[verifier::external_body]
pub struct ExTomlValue(toml::Value);

/// A TOML value, as far as it is looked into.
pub enum TomlView {
    Text(Seq<char>),
    Array(Seq<TomlView>),
    Table(Map<Seq<char>, TomlView>),
    Other,
}

/// What a TOML value is.
pub uninterp spec fn toml_view(v: Value) -> TomlView;

/// The TOML document that a text is, or why it is none.
pub uninterp spec fn toml_value(text: Seq<char>) -> Result<TomlView, Seq<char>>;

/// What TOML values are.
pub open spec fn toml_views(v: Seq<Value>) -> Seq<TomlView> {
    v.map_values(|x: Value| toml_view(x))
}

/// `toml::from_str` into a `toml::Table`, which is a table among the values.
#[verifier::external_body]
fn toml_read(text: &str) -> (r: Result<Value, String>)
    ensures
        match r {
            Ok(v) => toml_value(text@) == Ok::<TomlView, Seq<char>>(toml_view(v)),
            Err(e) => toml_value(text@) == Err::<TomlView, Seq<char>>(e@),
        },
{
    toml::from_str::<Table>(text).map(Value::Table).map_err(|e| e.to_string())
}

/// `toml::Value::get` by a name: a member of a table.
#[verifier::external_body]
fn toml_get<'a>(v: &'a Value, key: &str) -> (r: Option<&'a Value>)
    ensures
        match toml_view(*v) {
            TomlView::Table(m) => match r {
                Some(x) => m.contains_key(key@) && toml_view(*x) == m[key@],
                None => !m.contains_key(key@),
            },
            _ => r is None,
        },
{
    v.get(key)
}

/// `toml::Value::as_array`: the items of an array.
#[verifier::external_body]
fn toml_items(v: &Value) -> (r: Option<&Vec<Value>>)
    ensures
        match toml_view(*v) {
            TomlView::Array(items) => r is Some && toml_views(r->0@) == items,
            _ => r is None,
        },
{
    v.as_array()
}

/// `toml::Value::as_str`: the text of a string.
#[verifier::external_body]
fn toml_text(v: &Value) -> (r: Option<&str>)
    ensures
        match toml_view(*v) {
            TomlView::Text(s) => r is Some && r->0@ == s,
            _ => r is None,
        },
{
    v.as_str()
}

/// The member of a value by that name, if it has one.
pub open spec fn member(v: TomlView, key: Seq<char>) -> Option<TomlView> {
    match v {
        TomlView::Table(m) => if m.contains_key(key) {
            Some(m[key])
        } else {
            None
        },
        _ => None,
    }
}

/// The text that a member of a value is, if it is one.
pub open spec fn text_member(v: TomlView, key: Seq<char>) -> Option<Seq<char>> {
    match member(v, key) {
        Some(TomlView::Text(s)) => Some(s),
        _ => None,
    }
}

/// The rows of the array `table` in the TOML document that `text` is: of
/// each its string members `first` and `second`; nothing where the document
/// has no such array, and the error's message where `text` is no TOML.
pub open spec fn toml_rows(
    text: Seq<char>,
    table: Seq<char>,
    first: Seq<char>,
    second: Seq<char>,
) -> Result<Option<Seq<(Option<Seq<char>>, Option<Seq<char>>)>>, Seq<char>> {
    match toml_value(text) {
        Err(e) => Err(e),
        Ok(v) => match member(v, table) {
            Some(TomlView::Array(items)) => Ok(
                Some(
                    Seq::new(
                        items.len(),
                        |i: int| (text_member(items[i], first), text_member(items[i], second)),
                    ),
                ),
            ),
            _ => Ok(None),
        },
    }
}

/// The view of a list of rows.
pub open spec fn rows_view(v: Seq<(Option<String>, Option<String>)>) -> Seq<
    (Option<Seq<char>>, Option<Seq<char>>),
> {
    Seq::new(v.len(), |i: int| (crate::text::opt_text(v[i].0), crate::text::opt_text(v[i].1)))
}

/// The view of what was found.
pub open spec fn found_rows_view(
    r: Result<Option<Vec<(Option<String>, Option<String>)>>, String>,
) -> Result<Option<Seq<(Option<Seq<char>>, Option<Seq<char>>)>>, Seq<char>> {
    match r {
        Ok(Some(v)) => Ok(Some(rows_view(v@))),
        Ok(None) => Ok(None),
        Err(e) => Err(e@),
    }
}

fn member_text(v: &Value, key: &str) -> (r: Option<String>)
    ensures
        crate::text::opt_text(r) == text_member(toml_view(*v), key@),
{
    match toml_get(v, key) {
        None => None,
        Some(x) => match toml_text(x) {
            None => None,
            Some(s) => Some(crate::text::owned(s)),
        },
    }
}

/// The rows of the array `table` in the TOML document that `text` is.
pub fn toml_string_rows(text: &str, table: &str, first: &str, second: &str) -> (r: Result<
    Option<Vec<(Option<String>, Option<String>)>>,
    String,
>)
    ensures
        found_rows_view(r) == toml_rows(text@, table@, first@, second@),
{
    let document = match toml_read(text) {
        Ok(v) => v,
        Err(e) => return Err(e),
    };
    let items = match toml_get(&document, table) {
        None => return Ok(None),
        Some(x) => match toml_items(x) {
            None => return Ok(None),
            Some(items) => items,
        },
    };
    let ghost all = toml_views(items@);
    let ghost rows = Seq::new(
        all.len(),
        |i: int| (text_member(all[i], first@), text_member(all[i], second@)),
    );
    let mut r: Vec<(Option<String>, Option<String>)> = Vec::new();
    let mut i: usize = 0;
    assert(rows_view(r@) =~= rows.take(0));
    while i < items.len()
        invariant
            i <= items@.len(),
            all == toml_views(items@),
            rows == Seq::new(
                all.len(),
                |i: int| (text_member(all[i], first@), text_member(all[i], second@)),
            ),
            rows_view(r@) == rows.take(i as int),
        decreases items.len() - i,
    {
        assert(all[i as int] == toml_view(items@[i as int]));
        let ghost before = r@;
        let row = (member_text(&items[i], first), member_text(&items[i], second));
        let ghost shown = (crate::text::opt_text(row.0), crate::text::opt_text(row.1));
        r.push(row);
        assert(rows_view(r@) =~= rows_view(before).push(shown));
        assert(rows.take(i + 1) =~= rows.take(i as int).push(rows[i as int]));
        i += 1;
    }
    assert(rows.take(i as int) =~= rows);
    Ok(Some(r))
}

} // verus!
