//! JSON as the Debug Adapter Protocol carries it: read with `serde_json` into
//! a value of the library's own, written back the same way.

use vstd::prelude::*;

verus! {

broadcast use vstd::std_specs::vec::group_vec_axioms;

/// A JSON value. A number that is no `i64` keeps its text, so no value read
/// is lost and none is a float.
#[derive(Debug, PartialEq)]
pub enum Json {
    Null,
    Bool(bool),
    Int(i64),
    Number(String),
    Text(String),
    List(Vec<Json>),
    Object(Vec<(String, Json)>),
}

/// A JSON value as a mathematical one.
pub enum JsonView {
    Null,
    Bool(bool),
    Int(int),
    Number(Seq<char>),
    Text(Seq<char>),
    List(Seq<JsonView>),
    Object(Seq<(Seq<char>, JsonView)>),
}

pub open spec fn view_of(j: Json) -> JsonView
    decreases j,
{
    match j {
        Json::Null => JsonView::Null,
        Json::Bool(b) => JsonView::Bool(b),
        Json::Int(n) => JsonView::Int(n as int),
        Json::Number(t) => JsonView::Number(t@),
        Json::Text(t) => JsonView::Text(t@),
        Json::List(items) => JsonView::List(
            Seq::new(items.len() as nat, |i: int| if 0 <= i < items.len() { view_of(items[i]) } else { JsonView::Null }),
        ),
        Json::Object(entries) => JsonView::Object(
            Seq::new(
                entries.len() as nat,
                |i: int| if 0 <= i < entries.len() { (entries[i].0@, view_of(entries[i].1)) } else { (Seq::empty(), JsonView::Null) },
            ),
        ),
    }
}

impl View for Json {
    type V = JsonView;

    open spec fn view(&self) -> JsonView {
        view_of(*self)
    }
}

#[verifier::external_type_specification]
#[verifier::external_body]
pub struct ExValue(serde_json::Value);

/// What `serde_json` reads a text as, where it reads it at all.
pub uninterp spec fn parsed(text: Seq<char>) -> Option<JsonView>;

/// What `serde_json` writes a value as.
pub uninterp spec fn written(value: JsonView) -> Seq<char>;

/// `serde_json::from_str::<serde_json::Value>`, the value converted one for
/// one: nothing where the text is not JSON, and otherwise the value its text
/// is, as `parsed` names it. Which texts are JSON, and how an object's keys
/// come out ordered, is `serde_json`'s and is not stated.
#[verifier::external_body]
pub fn parse(text: &str) -> (j: Option<Json>)
    ensures
        match j {
            Some(value) => parsed(text@) == Some(value@),
            None => parsed(text@) is None,
        },
{
    serde_json::from_str::<serde_json::Value>(text).ok().map(|value| from_value(&value))
}

/// `serde_json::to_string` on the value converted one for one: the text
/// `written` names. What that text is, is `serde_json`'s and is not stated.
#[verifier::external_body]
pub fn to_text(value: &Json) -> (text: String)
    ensures
        text@ == written(value@),
{
    serde_json::to_string(&to_value(value)).unwrap_or_default()
}

/// `serde_json::Value` to `Json`, variant for variant; used only by `parse`.
#[verifier::external_body]
fn from_value(value: &serde_json::Value) -> Json {
    match value {
        serde_json::Value::Null => Json::Null,
        serde_json::Value::Bool(b) => Json::Bool(*b),
        serde_json::Value::Number(n) => n.as_i64().map_or_else(|| Json::Number(n.to_string()), Json::Int),
        serde_json::Value::String(s) => Json::Text(s.clone()),
        serde_json::Value::Array(items) => Json::List(items.iter().map(from_value).collect()),
        serde_json::Value::Object(map) => Json::Object(map.iter().map(|(k, v)| (k.clone(), from_value(v))).collect()),
    }
}

/// `Json` to `serde_json::Value`, variant for variant; used only by `to_text`.
#[verifier::external_body]
fn to_value(value: &Json) -> serde_json::Value {
    match value {
        Json::Null => serde_json::Value::Null,
        Json::Bool(b) => serde_json::Value::Bool(*b),
        Json::Int(n) => serde_json::Value::from(*n),
        Json::Number(t) => t.parse::<serde_json::Number>().map_or(serde_json::Value::Null, serde_json::Value::Number),
        Json::Text(s) => serde_json::Value::String(s.clone()),
        Json::List(items) => serde_json::Value::Array(items.iter().map(to_value).collect()),
        Json::Object(entries) => serde_json::Value::Object(entries.iter().map(|(k, v)| (k.clone(), to_value(v))).collect()),
    }
}

} // verus!
