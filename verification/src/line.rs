//! Raw input lines.

use vstd::prelude::*;
use vstd::utf8::*;

verus! {

/// The byte that ends a line.
pub const LINE_FEED: u8 = 10;

/// The byte that may precede a line feed.
pub const CARRIAGE_RETURN: u8 = 13;

/// One line of input, without its terminator.
pub enum RawLine {
    /// A line whose bytes are valid UTF-8.
    Text(String),
    /// A line that could not be decoded; only its length in bytes is kept.
    Unreadable(usize),
}

/// The bytes of a line without its terminator: a trailing line feed is
/// dropped, and a carriage return that stood directly before it.
pub open spec fn without_terminator(raw: Seq<u8>) -> Seq<u8> {
    if raw.len() > 0 && raw.last() == LINE_FEED {
        let body = raw.drop_last();
        if body.len() > 0 && body.last() == CARRIAGE_RETURN {
            body.drop_last()
        } else {
            body
        }
    } else {
        raw
    }
}

/// `String::from_utf8`: succeeds exactly on valid UTF-8, and the text it
/// gives has the bytes it was given.
#[verifier::external_body]
fn decode(bytes: Vec<u8>) -> (text: Option<String>)
    ensures
        text is Some <==> valid_utf8(bytes@),
        text matches Some(t) ==> encode_utf8(t@) == bytes@,
{
    match String::from_utf8(bytes) {
        Ok(text) => Some(text),
        Err(_) => None,
    }
}

impl RawLine {
    /// The length of the line in bytes.
    pub open spec fn byte_count(self) -> nat {
        match self {
            RawLine::Text(text) => encode_utf8(text@).len(),
            RawLine::Unreadable(bytes) => bytes as nat,
        }
    }

    /// Whether this is the line that the bytes `body` hold.
    pub open spec fn holds(self, body: Seq<u8>) -> bool {
        match self {
            RawLine::Text(text) => valid_utf8(body) && text@ == decode_utf8(body),
            RawLine::Unreadable(bytes) => !valid_utf8(body) && bytes == body.len(),
        }
    }

    /// The length of the line in bytes, terminator excluded.
    pub fn byte_len(&self) -> (bytes: usize)
        ensures
            bytes == self.byte_count(),
    {
        match self {
            RawLine::Text(text) => text.as_str().as_bytes().len(),
            RawLine::Unreadable(bytes) => *bytes,
        }
    }

    /// Makes a line of the bytes read up to and including a line feed, or up
    /// to the end of the input.
    pub fn from_bytes(raw: Vec<u8>) -> (line: RawLine)
        ensures
            line.holds(without_terminator(raw@)),
            line.byte_count() == without_terminator(raw@).len(),
    {
        let mut body = raw;
        let n = body.len();
        if n > 0 && body[n - 1] == LINE_FEED {
            body.pop();
            let m = body.len();
            if m > 0 && body[m - 1] == CARRIAGE_RETURN {
                body.pop();
            }
        }
        assert(body@ == without_terminator(raw@));
        let bytes = body.len();
        match decode(body) {
            Some(text) => {
                proof {
                    encode_utf8_decode_utf8(text@);
                }
                RawLine::Text(text)
            },
            None => RawLine::Unreadable(bytes),
        }
    }
}

} // verus!
