use vstd::prelude::*;

verus! {

/// The foreground colours that records are painted with.
#[derive(Clone, Copy, Debug, PartialEq, Eq, Structural)]
pub enum Hue {
    Red,
    Green,
    Yellow,
    Blue,
    White,
}

/// The ANSI foreground code of each colour.
pub open spec fn hue_code(h: Hue) -> Seq<char> {
    match h {
        Hue::Red => "31"@,
        Hue::Green => "32"@,
        Hue::Yellow => "33"@,
        Hue::Blue => "34"@,
        Hue::White => "37"@,
    }
}

/// Relies on `colored::Color::to_fg_str`: the foreground code of each colour.
#[verifier::external_body]
pub(crate) fn fg_code(h: Hue) -> (r: String)
    ensures
        r@ == hue_code(h),
{
    let c = match h {
        Hue::Red => colored::Color::Red,
        Hue::Green => colored::Color::Green,
        Hue::Yellow => colored::Color::Yellow,
        Hue::Blue => colored::Color::Blue,
        Hue::White => colored::Color::White,
    };
    c.to_fg_str().to_string()
}

/// `s` wrapped in the select-graphic-rendition sequence `code` and a reset.
pub open spec fn sgr(code: Seq<char>, s: Seq<char>) -> Seq<char> {
    "\u{1b}["@ + code + "m"@ + s + "\u{1b}[0m"@
}

/// Codes of the key style: dim and underlined, or yellow and underlined when highlighted.
pub open spec fn key_code(highlighted: bool) -> Seq<char> {
    if highlighted {
        "4;"@ + hue_code(Hue::Yellow)
    } else {
        "2;4"@
    }
}

/// Codes of the timestamp style: bold blue.
pub open spec fn timestamp_code() -> Seq<char> {
    "1;"@ + hue_code(Hue::Blue)
}

/// Codes of the field value style: white.
pub open spec fn value_code() -> Seq<char> {
    hue_code(Hue::White)
}

/// Wraps `s` in the sequence `code` and a reset.
pub fn paint(code: &str, s: &str) -> (r: String)
    ensures
        r@ == sgr(code@, s@),
{
    let mut r = String::new();
    r.append("\u{1b}[");
    r.append(code);
    r.append("m");
    r.append(s);
    r.append("\u{1b}[0m");
    r
}

pub fn key_style(highlighted: bool) -> (r: String)
    ensures
        r@ == key_code(highlighted),
{
    if highlighted {
        let mut r = String::new();
        r.append("4;");
        let c = fg_code(Hue::Yellow);
        r.append(c.as_str());
        r
    } else {
        String::from_str("2;4")
    }
}

pub fn timestamp_style() -> (r: String)
    ensures
        r@ == timestamp_code(),
{
    let mut r = String::new();
    r.append("1;");
    let c = fg_code(Hue::Blue);
    r.append(c.as_str());
    r
}

} // verus!
