//! What the classifier reads of a line of JSON. Parsing is left to
//! `serde_json`; nothing in this module is proved of it.

use vstd::prelude::*;

verus! {

/// `serde_json::Value`, a parsed JSON value, which stays opaque here.
#[verifier::external_type_specification]
#[verifier::external_body]
pub struct ExValue(serde_json::Value);

/// `serde_json::Map`, the members of a JSON object, which stays opaque here.
#[verifier::external_type_specification]
#[verifier::external_body]
#[verifier::reject_recursive_types(K)]
#[verifier::reject_recursive_types(V)]
pub struct ExMap<K, V>(serde_json::Map<K, V>);

/// The text members of a JSON object: the name of each member whose value
/// is a string, with that string. Members that hold anything else are left
/// out.
pub uninterp spec fn text_members(object: serde_json::Map<String, serde_json::Value>) -> Map<
    Seq<char>,
    Seq<char>,
>;

/// A line of text read as JSON.
pub enum Document {
    /// The text is not JSON.
    Malformed,
    /// The text is JSON, but not an object.
    NotObject,
    /// The text is a JSON object with these members.
    Object(serde_json::Map<String, serde_json::Value>),
}

/// What a document is to the classifier.
pub enum Shape {
    Malformed,
    NotObject,
    /// An object, with its text members.
    Object(Map<Seq<char>, Seq<char>>),
}

impl View for Document {
    type V = Shape;

    open spec fn view(&self) -> Shape {
        match *self {
            Document::Malformed => Shape::Malformed,
            Document::NotObject => Shape::NotObject,
            Document::Object(members) => Shape::Object(text_members(members)),
        }
    }
}

/// The shape of the document that `serde_json::from_str` reads in a text.
pub uninterp spec fn json_shape(text: Seq<char>) -> Shape;

/// Reads `text` with `serde_json::from_str`, as a `serde_json::Value`, and
/// tells an object from any other value and from a failure. Trusted: that
/// the outcome depends on the text alone, so that `json_shape` can name it.
#[verifier::external_body]
pub(crate) fn parse_document(text: &str) -> (document: Document)
    ensures
        document@ == json_shape(text@),
{
    match serde_json::from_str::<serde_json::Value>(text) {
        Ok(serde_json::Value::Object(members)) => Document::Object(members),
        Ok(_) => Document::NotObject,
        Err(_) => Document::Malformed,
    }
}

/// Looks `name` up with `serde_json::Map::get`. Trusted: that the result is
/// `Some` exactly where the object has a member of that name which holds a
/// string, and is then the text of that string.
#[verifier::external_body]
pub(crate) fn text_member(
    object: &serde_json::Map<String, serde_json::Value>,
    name: &str,
) -> (text: Option<String>)
    ensures
        text is Some <==> text_members(*object).contains_key(name@),
        text matches Some(t) ==> t@ == text_members(*object)[name@],
{
    match object.get(name) {
        Some(serde_json::Value::String(text)) => Some(text.clone()),
        _ => None,
    }
}

} // verus!
