use vstd::prelude::*;
use crate::color::Hue;
use crate::text::text_eq;

verus! {

/// What `str::to_lowercase` gives for a text.
pub uninterp spec fn lower_of(s: Seq<char>) -> Seq<char>;

/// What `str::to_uppercase` gives for a text.
pub uninterp spec fn upper_of(s: Seq<char>) -> Seq<char>;

/// Relies on `str::to_lowercase`: the result depends on the characters alone.
#[verifier::external_body]
pub(crate) fn lowercase(s: &str) -> (r: String)
    ensures
        r@ == lower_of(s@),
{
    s.to_lowercase()
}

/// Relies on `str::to_uppercase`: the result depends on the characters alone.
#[verifier::external_body]
pub(crate) fn uppercase(s: &str) -> (r: String)
    ensures
        r@ == upper_of(s@),
{
    s.to_uppercase()
}

/// Width of every level token.
pub const LEVEL_WIDTH: usize = 5;

pub open spec fn spaces(n: nat) -> Seq<char> {
    Seq::new(n, |i: int| ' ')
}

/// The token of a level with no promotion: five blanks.
pub open spec fn blank_level() -> Seq<char> {
    spaces(LEVEL_WIDTH as nat)
}

/// A text cut to its first five characters, or right-aligned in five.
pub open spec fn fit_level(upper: Seq<char>) -> Seq<char> {
    if upper.len() >= LEVEL_WIDTH {
        upper.take(LEVEL_WIDTH as int)
    } else {
        spaces((LEVEL_WIDTH - upper.len()) as nat) + upper
    }
}

/// The five-character token of a level, from its lowercase and uppercase forms.
pub open spec fn level_token(lower: Seq<char>, upper: Seq<char>) -> Seq<char> {
    if lower == "trace"@ {
        "TRACE"@
    } else if lower == "debug"@ {
        "DEBUG"@
    } else if lower == "info"@ {
        " INFO"@
    } else if lower == "warn"@ {
        " WARN"@
    } else if lower == "error"@ {
        "ERROR"@
    } else if lower == "fatal"@ {
        "FATAL"@
    } else {
        fit_level(upper)
    }
}

/// The colour of a level's token; trace and unknown levels have none.
pub open spec fn level_hue(lower: Seq<char>) -> Option<Hue> {
    if lower == "trace"@ {
        None
    } else if lower == "debug"@ {
        Some(Hue::Green)
    } else if lower == "info"@ {
        Some(Hue::Blue)
    } else if lower == "warn"@ {
        Some(Hue::Yellow)
    } else if lower == "error"@ || lower == "fatal"@ {
        Some(Hue::Red)
    } else {
        None
    }
}

fn fit_to_width(upper: &str) -> (r: String)
    ensures
        r@ == fit_level(upper@),
{
    let n = upper.unicode_len();
    if n >= LEVEL_WIDTH {
        upper.substring_char(0, LEVEL_WIDTH).to_owned()
    } else {
        let mut r = String::new();
        let mut i: usize = n;
        while i < LEVEL_WIDTH
            invariant
                n <= i <= LEVEL_WIDTH,
                n == upper@.len(),
                r@ == spaces((i - n) as nat),
            decreases LEVEL_WIDTH - i,
        {
            crate::text::push_char(&mut r, ' ');
            assert(r@ =~= spaces((i + 1 - n) as nat));
            i = i + 1;
        }
        r.append(upper);
        r
    }
}

/// The token and colour of a level, given its lowercase and uppercase forms.
pub fn canonical_level(lower: &str, upper: &str) -> (r: (String, Option<Hue>))
    ensures
        r.0@ == level_token(lower@, upper@),
        r.1 == level_hue(lower@),
{
    if text_eq(lower, "trace") {
        (String::from_str("TRACE"), None)
    } else if text_eq(lower, "debug") {
        (String::from_str("DEBUG"), Some(Hue::Green))
    } else if text_eq(lower, "info") {
        (String::from_str(" INFO"), Some(Hue::Blue))
    } else if text_eq(lower, "warn") {
        (String::from_str(" WARN"), Some(Hue::Yellow))
    } else if text_eq(lower, "error") {
        (String::from_str("ERROR"), Some(Hue::Red))
    } else if text_eq(lower, "fatal") {
        (String::from_str("FATAL"), Some(Hue::Red))
    } else {
        (fit_to_width(upper), None)
    }
}

} // verus!
