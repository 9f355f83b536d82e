use vstd::prelude::*;
use crate::value::{Val, LogValue};

verus! {

#[verifier::external_type_specification]
#[verifier::external_body]
pub struct ExJsonValue(serde_json::Value);

/// The value that strict JSON text denotes, if the text is JSON.
pub uninterp spec fn json_parse(s: Seq<char>) -> Option<Val>;

pub open spec fn hex_digit(n: int) -> char {
    seq!['0', '1', '2', '3', '4', '5', '6', '7', '8', '9', 'a', 'b', 'c', 'd', 'e', 'f'][n]
}

/// How one character stands inside a JSON string: `"` and `\` escaped,
/// backspace, tab, line feed, form feed and carriage return by a letter, other
/// control characters as `\u00XX`, everything else as it is.
pub open spec fn json_escape_char(c: char) -> Seq<char> {
    if c == '"' {
        seq!['\\', '"']
    } else if c == '\\' {
        seq!['\\', '\\']
    } else if c == '\x08' {
        seq!['\\', 'b']
    } else if c == '\t' {
        seq!['\\', 't']
    } else if c == '\n' {
        seq!['\\', 'n']
    } else if c == '\x0c' {
        seq!['\\', 'f']
    } else if c == '\r' {
        seq!['\\', 'r']
    } else if (c as int) < 0x20 {
        seq!['\\', 'u', '0', '0', hex_digit((c as int) / 16), hex_digit((c as int) % 16)]
    } else {
        seq![c]
    }
}

pub open spec fn json_escape(s: Seq<char>) -> Seq<char>
    decreases s.len(),
{
    if s.len() == 0 {
        Seq::empty()
    } else {
        json_escape(s.drop_last()) + json_escape_char(s.last())
    }
}

/// The JSON string literal of a text: quotes around its escaped characters.
pub open spec fn json_quote(s: Seq<char>) -> Seq<char> {
    seq!['"'] + json_escape(s) + seq!['"']
}

/// Relies on `serde_json::from_str` (with `arbitrary_precision`, so that numbers
/// keep their text): the value of the whole text, surrounding whitespace allowed.
#[verifier::external_body]
pub(crate) fn parse_json(s: &str) -> (r: Option<LogValue>)
    ensures
        r is Some <==> json_parse(s@) is Some,
        r is Some ==> r->0@ == json_parse(s@)->0,
{
    match serde_json::from_str::<serde_json::Value>(s) {
        Ok(v) => Some(from_json(v)),
        Err(_) => None,
    }
}

/// Moves a `serde_json::Value` into a `LogValue`, variant for variant.
#[verifier::external_body]
fn from_json(v: serde_json::Value) -> LogValue {
    match v {
        serde_json::Value::Null => LogValue::Null,
        serde_json::Value::Bool(b) => LogValue::Bool(b),
        serde_json::Value::Number(n) => LogValue::Number(n.to_string()),
        serde_json::Value::String(s) => LogValue::String(s),
        serde_json::Value::Array(a) => LogValue::Array(a.into_iter().map(from_json).collect()),
        serde_json::Value::Object(m) => LogValue::Object(
            m.into_iter().map(|(k, x)| (k, from_json(x))).collect(),
        ),
    }
}

/// Relies on `serde_json::to_string` on a `str`: its JSON string literal, with
/// the escapes of serde_json's table (`ser.rs`, `ESCAPE` and `write_char_escape`).
/// Serialising a `str` into memory does not fail.
#[verifier::external_body]
pub(crate) fn quote_json(s: &str) -> (r: String)
    ensures
        r@ == json_quote(s@),
{
    serde_json::to_string(s).unwrap_or_default()
}

} // verus!
