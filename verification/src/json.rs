//! JSON values and their text, as `serde_json` has them.

use serde_json::Value;
use vstd::prelude::*;

verus! {

/// What a JSON value holds.
pub enum Document {
    Null,
    Bool(bool),
    Unsigned(nat),
    Negative(int),
    /// A number that is no integer, by its bit pattern.
    Fraction(u64),
    Text(Seq<char>),
    List(Seq<Document>),
    Object(Map<Seq<char>, Document>),
}

/// A JSON value of `serde_json`.
#[verifier::external_type_specification]
#[verifier::external_body]
pub struct ExValue(serde_json::Value);

/// What `value` holds.
pub uninterp spec fn document(value: Value) -> Document;

/// A document over several lines, indented, where it can be written.
pub uninterp spec fn pretty_text(d: Document) -> Option<Seq<char>>;

/// A document on one line.
pub uninterp spec fn compact_text(d: Document) -> Seq<char>;

/// What some values hold, in their order.
pub open spec fn documents(values: Seq<Value>) -> Seq<Document> {
    values.map_values(|v: Value| document(v))
}

/// Whether no two members have the same name.
pub open spec fn names_differ(entries: Seq<(String, Value)>) -> bool {
    forall|i: int, j: int|
        0 <= i < j < entries.len() ==> (#[trigger] entries[i]).0@ != (#[trigger] entries[j]).0@
}

/// What the members of an object hold, by name.
pub open spec fn members(entries: Seq<(String, Value)>) -> Map<Seq<char>, Document>
    decreases entries.len(),
{
    if entries.len() == 0 {
        Map::empty()
    } else {
        members(entries.drop_last()).insert(entries.last().0@, document(entries.last().1))
    }
}

/// The text of a document over several lines, or nothing.
pub open spec fn pretty_or_empty(d: Document) -> Seq<char> {
    match pretty_text(d) {
        Some(text) => text,
        None => Seq::empty(),
    }
}

/// `serde_json::Value::from` a string slice: claims that the value is that string.
#[verifier::external_body]
pub(crate) fn text_value(s: &str) -> (v: Value)
    ensures
        document(v) == Document::Text(s@),
{
    Value::from(s)
}

/// `serde_json::Value::from` a `usize`: claims that the value is that number.
#[verifier::external_body]
pub(crate) fn count_value(n: usize) -> (v: Value)
    ensures
        document(v) == Document::Unsigned(n as nat),
{
    Value::from(n)
}

/// `serde_json::Value::from` a `bool`: claims that the value is that truth value.
#[verifier::external_body]
pub(crate) fn bool_value(b: bool) -> (v: Value)
    ensures
        document(v) == Document::Bool(b),
{
    Value::from(b)
}

/// `serde_json::Value::from` a vector of values: claims that the value is the array
/// of them, in their order.
#[verifier::external_body]
pub(crate) fn list_value(items: Vec<Value>) -> (v: Value)
    ensures
        document(v) == Document::List(documents(items@)),
{
    Value::from(items)
}

/// `serde_json::Map::from_iter`: claims that the value is the object with these
/// members. Of members with one name nothing is claimed: the names have to differ.
#[verifier::external_body]
pub(crate) fn object_value(entries: Vec<(String, Value)>) -> (v: Value)
    requires
        names_differ(entries@),
    ensures
        document(v) == Document::Object(members(entries@)),
{
    Value::Object(serde_json::Map::from_iter(entries))
}

/// `serde_json::to_string_pretty`: names its text, and claims that it depends on
/// what the value holds alone. The members of an object are written in the order of
/// their names, the crate's feature `preserve_order` being off.
#[verifier::external_body]
fn to_pretty(v: &Value) -> (r: Option<String>)
    ensures
        match r {
            Some(s) => pretty_text(document(*v)) == Some(s@),
            None => pretty_text(document(*v)) is None,
        },
{
    serde_json::to_string_pretty(v).ok()
}

/// `Display` of `serde_json::Value`: names its text, and claims that it depends on
/// what the value holds alone, as for the text over several lines.
#[verifier::external_body]
pub(crate) fn to_compact(v: &Value) -> (r: String)
    ensures
        r@ == compact_text(document(*v)),
{
    v.to_string()
}

/// The text of a value over several lines, or nothing where it has none.
pub fn pretty(v: &Value) -> (r: String)
    ensures
        r@ == pretty_or_empty(document(*v)),
{
    match to_pretty(v) {
        Some(s) => s,
        None => String::new(),
    }
}

} // verus!
