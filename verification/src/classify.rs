//! The record classifier: one category for every line.

use vstd::prelude::*;
use crate::json::{json_shape, parse_document, text_member, Document, Shape};
use crate::line::RawLine;

verus! {

/// The member of a record that names its category.
pub const TYPE_FIELD: &'static str = "type";

/// The category of a line that could not be read.
pub const UNREADABLE_LINE: &'static str = "unreadable-line";

/// The category of a line that is not JSON.
pub const INVALID_JSON: &'static str = "invalid-json";

/// The category of a line that is JSON, but not an object.
pub const NON_JSON_OBJECT: &'static str = "non-json-object";

/// The category of an object that lacks the designated member, or holds
/// something other than a string in it.
pub const MISSING_TYPE: &'static str = "missing-type";

/// The category of a document, by its member `field`.
pub open spec fn shape_category(shape: Shape, field: Seq<char>) -> Seq<char> {
    match shape {
        Shape::Malformed => INVALID_JSON@,
        Shape::NotObject => NON_JSON_OBJECT@,
        Shape::Object(texts) => if texts.contains_key(field) {
            texts[field]
        } else {
            MISSING_TYPE@
        },
    }
}

/// The category of a line, by the member `field` of the record it holds.
pub open spec fn line_category(line: RawLine, field: Seq<char>) -> Seq<char> {
    match line {
        RawLine::Unreadable(_) => UNREADABLE_LINE@,
        RawLine::Text(text) => shape_category(json_shape(text@), field),
    }
}

/// The category of a document that has been read, by its member `field`.
pub fn document_category(document: &Document, field: &str) -> (category: String)
    ensures
        category@ == shape_category(document@, field@),
{
    match document {
        Document::Malformed => INVALID_JSON.to_owned(),
        Document::NotObject => NON_JSON_OBJECT.to_owned(),
        Document::Object(members) => match text_member(members, field) {
            Some(text) => text,
            None => MISSING_TYPE.to_owned(),
        },
    }
}

/// Classifies a line by the member `field` of the record it holds.
pub fn classify_by(line: &RawLine, field: &str) -> (category: String)
    ensures
        category@ == line_category(*line, field@),
{
    match line {
        RawLine::Unreadable(_) => UNREADABLE_LINE.to_owned(),
        RawLine::Text(text) => {
            let document = parse_document(text.as_str());
            document_category(&document, field)
        },
    }
}

/// Classifies a line by the member `type` of the record it holds.
pub fn classify(line: &RawLine) -> (category: String)
    ensures
        category@ == line_category(*line, TYPE_FIELD@),
{
    classify_by(line, TYPE_FIELD)
}

} // verus!
