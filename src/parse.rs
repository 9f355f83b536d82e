use vstd::prelude::*;
use crate::json::parse_json;
use crate::logfmt::{parse_logfmt, parse_spec};
use crate::value::LogValue;

verus! {

/// Why a line could not be read as a record.
#[derive(Clone, Copy, Debug, PartialEq, Eq, Structural)]
pub enum ParseError {
    /// The line is neither strict JSON nor a sequence of `key=value` tokens.
    MalformedInput,
}

/// Reads a line as strict JSON, and failing that as `key=value` tokens.
pub fn parse_line(line: &str) -> (r: Result<LogValue, ParseError>)
    ensures
        match r {
            Ok(v) => parse_spec(line@) == Some(v@),
            Err(e) => parse_spec(line@) is None && e == ParseError::MalformedInput,
        },
{
    match parse_json(line) {
        Some(v) => Ok(v),
        None => match parse_logfmt(line) {
            Some(v) => Ok(v),
            None => Err(ParseError::MalformedInput),
        },
    }
}

} // verus!
