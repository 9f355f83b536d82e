//! Turns one structured log record (a JSON value or a `key=value` line) into
//! one readable, optionally coloured text line: timestamp, level and message
//! first, then the other fields as `key=value` in key order.

mod color;
mod compact;
mod formatter;
mod json;
mod laws;
mod level;
mod logfmt;
mod order;
mod parse;
mod render;
mod roundtrip;
mod text;
mod value;

pub use color::Hue;
pub use formatter::Formatter;
pub use level::canonical_level;
pub use logfmt::parse_logfmt;
pub use parse::{ParseError, parse_line};
pub use value::{LogValue, Val};
