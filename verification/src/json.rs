//! JSON documents as serde_json reads them.

use serde_json::Value as JsonDocument;
use vstd::prelude::*;

verus! {

/// The kind of a JSON value.
pub enum JsonKind {
    Null,
    Bool,
    Number,
    String,
    Array,
    Object,
}

#[verifier::external_type_specification]
#[verifier::external_body]
pub struct ExJsonDocument(JsonDocument);

/// What the library reads of a serde_json value, as plain values.
pub enum JsonView {
    Null,
    Bool(bool),
    /// A number: its value where it fits an `i64` (what `as_i64` gives), and
    /// its JSON text.
    Number(Option<int>, Seq<char>),
    String(Seq<char>),
    Array(Seq<JsonView>),
    /// An object: its members, each name with its value, in the order the
    /// map hands them out.
    Object(Seq<(Seq<char>, JsonView)>),
}

/// What a serde_json value holds (its variant and, for arrays and objects,
/// the values in it).
pub uninterp spec fn json_view(j: JsonDocument) -> JsonView;

/// What serde_json reads from JSON text: the document, or the text of the
/// error it refuses the text with.
pub uninterp spec fn json_text_read(text: Seq<char>) -> Result<JsonView, Seq<char>>;

/// What serde_json reads from JSON bytes: the document, or the text of the
/// error it refuses the bytes with.
pub uninterp spec fn json_bytes_read(data: Seq<u8>) -> Result<JsonView, Seq<char>>;

/// Whether `text` is JSON that serde_json accepts.
pub open spec fn json_parses(text: Seq<char>) -> bool {
    json_text_read(text) is Ok
}

/// Whether `data` is JSON that serde_json accepts.
pub open spec fn json_bytes_parse(data: Seq<u8>) -> bool {
    json_bytes_read(data) is Ok
}

/// The kind of a document.
pub open spec fn kind_of(v: JsonView) -> JsonKind {
    match v {
        JsonView::Null => JsonKind::Null,
        JsonView::Bool(_) => JsonKind::Bool,
        JsonView::Number(_, _) => JsonKind::Number,
        JsonView::String(_) => JsonKind::String,
        JsonView::Array(_) => JsonKind::Array,
        JsonView::Object(_) => JsonKind::Object,
    }
}

/// Parses JSON text into a serde_json value (`serde_json::from_str`). The
/// claim is that what comes out depends on the text alone: the document
/// named by [`json_text_read`], or the text (`Display`) of serde_json's
/// error.
#[verifier::external_body]
pub(crate) fn parse_json(text: &str) -> (r: Result<JsonDocument, String>)
    ensures
        match r {
            Ok(j) => json_text_read(text@) == Ok::<JsonView, Seq<char>>(json_view(j)),
            Err(m) => json_text_read(text@) == Err::<JsonView, Seq<char>>(m@),
        },
{
    match serde_json::from_str::<JsonDocument>(text) {
        Ok(j) => Ok(j),
        Err(e) => Err(e.to_string()),
    }
}

/// Parses JSON bytes into a serde_json value (`serde_json::from_slice`).
/// The claim is that what comes out depends on the bytes alone: the
/// document named by [`json_bytes_read`], or the text (`Display`) of
/// serde_json's error.
#[verifier::external_body]
pub(crate) fn parse_json_bytes(data: &[u8]) -> (r: Result<JsonDocument, String>)
    ensures
        match r {
            Ok(j) => json_bytes_read(data@) == Ok::<JsonView, Seq<char>>(json_view(j)),
            Err(m) => json_bytes_read(data@) == Err::<JsonView, Seq<char>>(m@),
        },
{
    match serde_json::from_slice::<JsonDocument>(data) {
        Ok(j) => Ok(j),
        Err(e) => Err(e.to_string()),
    }
}

/// Tells the variants of a serde_json value apart: the kind of the
/// document it holds.
#[verifier::external_body]
pub(crate) fn json_kind(j: &JsonDocument) -> (r: JsonKind)
    ensures
        r == kind_of(json_view(*j)),
{
    match j {
        JsonDocument::Null => JsonKind::Null,
        JsonDocument::Bool(_) => JsonKind::Bool,
        JsonDocument::Number(_) => JsonKind::Number,
        JsonDocument::String(_) => JsonKind::String,
        JsonDocument::Array(_) => JsonKind::Array,
        JsonDocument::Object(_) => JsonKind::Object,
    }
}

/// serde_json's `Value::as_bool`: the boolean of a `Bool`, `None` for any
/// other variant.
#[verifier::external_body]
pub(crate) fn json_as_bool(j: &JsonDocument) -> (r: Option<bool>)
    ensures
        r == (match json_view(*j) {
            JsonView::Bool(b) => Some(b),
            _ => None,
        }),
{
    j.as_bool()
}

/// serde_json's `Value::as_i64`: for a number, the value where it fits an
/// `i64` (the first part of its [`JsonView::Number`]); `None` for any other
/// variant.
#[verifier::external_body]
pub(crate) fn json_as_i64(j: &JsonDocument) -> (r: Option<i64>)
    ensures
        match json_view(*j) {
            JsonView::Number(n, _) => (r is None <==> n is None) && (r matches Some(i) ==> n == Some(i as int)),
            _ => r is None,
        },
{
    j.as_i64()
}

/// The JSON text of a serde_json value (its `Display`), used for numbers
/// that are not `i64`: for a number, the text part of its
/// [`JsonView::Number`]. Nothing is stated of other variants.
#[verifier::external_body]
pub(crate) fn json_to_text(j: &JsonDocument) -> (r: String)
    ensures
        json_view(*j) matches JsonView::Number(_, t) ==> r@ == t,
{
    j.to_string()
}

/// serde_json's `Value::as_str`, copied: the text of a `String`, `None`
/// for any other variant.
#[verifier::external_body]
pub(crate) fn json_as_str(j: &JsonDocument) -> (r: Option<String>)
    ensures
        match json_view(*j) {
            JsonView::String(t) => r matches Some(x) && x@ == t,
            _ => r is None,
        },
{
    match j.as_str() {
        Some(s) => Some(s.to_string()),
        None => None,
    }
}

/// serde_json's `Value::as_array`, copied: the items of an `Array` in
/// order; empty for any other variant.
#[verifier::external_body]
pub(crate) fn json_as_array(j: &JsonDocument) -> (r: Vec<JsonDocument>)
    ensures
        match json_view(*j) {
            JsonView::Array(xs) => r@.len() == xs.len() && forall|i: int| 0 <= i < xs.len() ==> #[trigger] json_view(r@[i]) == xs[i],
            _ => r@.len() == 0,
        },
{
    match j.as_array() {
        Some(a) => a.clone(),
        None => Vec::new(),
    }
}

/// serde_json's `Value::as_object`, copied into (name, value) pairs in the
/// map's order: the members of an `Object`; empty for any other variant.
#[verifier::external_body]
pub(crate) fn json_as_object(j: &JsonDocument) -> (r: Vec<(String, JsonDocument)>)
    ensures
        match json_view(*j) {
            JsonView::Object(ps) => r@.len() == ps.len() && forall|i: int|
                #![trigger r@[i]]
                0 <= i < ps.len() ==> r@[i].0@ == ps[i].0 && json_view(r@[i].1) == ps[i].1,
            _ => r@.len() == 0,
        },
{
    match j.as_object() {
        Some(m) => m.iter().map(|(k, v)| (k.clone(), v.clone())).collect(),
        None => Vec::new(),
    }
}

} // verus!
