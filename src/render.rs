use vstd::prelude::*;
use crate::color::{Hue, hue_code, key_code, sgr, timestamp_code, value_code};
use crate::json::json_quote;
use crate::level::{blank_level, level_hue, level_token, lower_of, upper_of};
use crate::text::{concat, join, sorted_texts, trim_last};
use crate::value::Val;

verus! {

/// Whether a text is an ISO 8601 date and time, as the `iso8601` crate reads it.
pub uninterp spec fn iso_datetime_ok(s: Seq<char>) -> bool;

/// Relies on `iso8601::datetime`: whether it reads the text as a date and time.
#[verifier::external_body]
pub(crate) fn is_iso_datetime(s: &str) -> (r: bool)
    ensures
        r == iso_datetime_ok(s@),
{
    iso8601::datetime(s).is_ok()
}

/// The rendering options, as values.
pub struct Cfg {
    pub no_colors: bool,
    pub no_level: bool,
    pub depth: nat,
    pub ts_field: Seq<char>,
    pub highlight: Seq<Seq<char>>,
}

/// The fields of an object, in the order they were read.
pub type Fields = Seq<(Seq<char>, Val)>;

pub open spec fn has_key(f: Fields, k: Seq<char>) -> bool {
    exists|i: int| 0 <= i < f.len() && f[i].0 == k
}

/// `i` is the first field with key `k`.
pub open spec fn is_first(f: Fields, k: Seq<char>, i: int) -> bool {
    &&& 0 <= i < f.len()
    &&& f[i].0 == k
    &&& forall|j: int| 0 <= j < i ==> f[j].0 != k
}

/// Where the key `k` first occurs, or -1.
pub open spec fn first_index(f: Fields, k: Seq<char>) -> int {
    if has_key(f, k) {
        choose|i: int| is_first(f, k, i)
    } else {
        -1
    }
}

/// The value of a key: that of its first occurrence.
pub open spec fn lookup(f: Fields, k: Seq<char>) -> Option<Val> {
    if has_key(f, k) {
        Some(f[first_index(f, k)].1)
    } else {
        None
    }
}

pub open spec fn text_value(o: Option<Val>) -> Option<Seq<char>> {
    match o {
        Some(Val::Str(s)) => Some(s),
        _ => None,
    }
}

pub open spec fn key_set(f: Fields) -> Set<Seq<char>> {
    Set::new(|k: Seq<char>| has_key(f, k))
}

/// The key holds a text that is an ISO 8601 date and time.
pub open spec fn is_timestamp(f: Fields, k: Seq<char>) -> bool {
    match text_value(lookup(f, k)) {
        Some(s) => iso_datetime_ok(s),
        None => false,
    }
}

/// The key promoted to the timestamp: the configured one, else `time`, else `timestamp`.
pub open spec fn timestamp_key(f: Fields, cfg: Cfg) -> Option<Seq<char>> {
    if cfg.ts_field.len() > 0 {
        if is_timestamp(f, cfg.ts_field) {
            Some(cfg.ts_field)
        } else {
            None
        }
    } else if is_timestamp(f, "time"@) {
        Some("time"@)
    } else if is_timestamp(f, "timestamp"@) {
        Some("timestamp"@)
    } else {
        None
    }
}

/// The text of the promoted level; a level whose token is blank is not promoted.
pub open spec fn level_text(f: Fields, cfg: Cfg) -> Option<Seq<char>> {
    if cfg.no_level || timestamp_key(f, cfg) == Some("level"@) {
        None
    } else {
        match text_value(lookup(f, "level"@)) {
            Some(s) => if level_token(lower_of(s), upper_of(s)) == blank_level() {
                None
            } else {
                Some(s)
            },
            None => None,
        }
    }
}

/// The key promoted to the message: `message`, else `msg`, holding a text.
pub open spec fn message_key(f: Fields, cfg: Cfg) -> Option<Seq<char>> {
    if timestamp_key(f, cfg) != Some("message"@) && text_value(lookup(f, "message"@)) is Some {
        Some("message"@)
    } else if timestamp_key(f, cfg) != Some("msg"@) && text_value(lookup(f, "msg"@)) is Some {
        Some("msg"@)
    } else {
        None
    }
}

pub open spec fn promoted(f: Fields, cfg: Cfg, k: Seq<char>) -> bool {
    ||| timestamp_key(f, cfg) == Some(k)
    ||| (k == "level"@ && level_text(f, cfg) is Some)
    ||| message_key(f, cfg) == Some(k)
}

pub open spec fn ordinary_set(f: Fields, cfg: Cfg) -> Set<Seq<char>> {
    Set::new(|k: Seq<char>| has_key(f, k) && !promoted(f, cfg, k))
}

/// The keys that are not promoted, in increasing order.
pub open spec fn ordinary_keys(f: Fields, cfg: Cfg) -> Seq<Seq<char>> {
    sorted_texts(ordinary_set(f, cfg))
}

/// How an object's fields are laid out on the line.
pub struct Layout {
    pub timestamp: Option<Seq<char>>,
    pub level: Option<Seq<char>>,
    pub message: Option<Seq<char>>,
    pub ordinary: Seq<Seq<char>>,
}

pub open spec fn classify(f: Fields, cfg: Cfg) -> Layout {
    Layout {
        timestamp: timestamp_key(f, cfg),
        level: level_text(f, cfg),
        message: message_key(f, cfg),
        ordinary: ordinary_keys(f, cfg),
    }
}

pub open spec fn highlighted(cfg: Cfg, k: Seq<char>) -> bool {
    cfg.highlight.contains(k)
}

pub open spec fn paint_key(cfg: Cfg, k: Seq<char>) -> Seq<char> {
    if cfg.no_colors {
        k
    } else {
        sgr(key_code(highlighted(cfg, k)), k)
    }
}

pub open spec fn paint_value(cfg: Cfg, s: Seq<char>) -> Seq<char> {
    if cfg.no_colors {
        s
    } else {
        sgr(value_code(), s)
    }
}

pub open spec fn paint_timestamp(cfg: Cfg, s: Seq<char>) -> Seq<char> {
    if cfg.no_colors {
        s
    } else {
        sgr(timestamp_code(), s)
    }
}

pub open spec fn paint_level(cfg: Cfg, token: Seq<char>, hue: Option<Hue>) -> Seq<char> {
    match hue {
        Some(h) => if cfg.no_colors {
            token
        } else {
            sgr(hue_code(h), token)
        },
        None => token,
    }
}

/// The level as shown: its token, painted, then a colon and a space.
pub open spec fn level_segment(cfg: Cfg, s: Seq<char>) -> Seq<char> {
    paint_level(cfg, level_token(lower_of(s), upper_of(s)), level_hue(lower_of(s))) + ": "@
}

pub open spec fn timestamp_part(f: Fields, cfg: Cfg) -> Seq<Seq<char>> {
    match timestamp_key(f, cfg) {
        Some(k) => seq!["["@ + paint_timestamp(cfg, text_value(lookup(f, k))->0) + "] "@],
        None => seq![],
    }
}

pub open spec fn level_part(f: Fields, cfg: Cfg) -> Seq<Seq<char>> {
    match level_text(f, cfg) {
        Some(s) => seq![level_segment(cfg, s)],
        None => seq![],
    }
}

pub open spec fn message_part(f: Fields, cfg: Cfg) -> Seq<Seq<char>> {
    match message_key(f, cfg) {
        Some(k) => seq![text_value(lookup(f, k))->0 + " "@],
        None => seq![],
    }
}

/// `key=value ` for each ordinary key, with `rv` the rendered value of each field.
pub open spec fn field_part(f: Fields, rv: Seq<Seq<char>>, cfg: Cfg) -> Seq<Seq<char>> {
    ordinary_keys(f, cfg).map_values(|k: Seq<char>| field_segment(cfg, k, rv[first_index(f, k)]))
}

/// One ordinary field as shown, with its trailing space.
pub open spec fn field_segment(cfg: Cfg, k: Seq<char>, rendered: Seq<char>) -> Seq<char> {
    paint_key(cfg, k) + "="@ + paint_value(cfg, rendered) + " "@
}

/// The pieces of an object's line, each ending in one space: timestamp, level,
/// message, then the ordinary fields.
pub open spec fn segments(f: Fields, rv: Seq<Seq<char>>, cfg: Cfg) -> Seq<Seq<char>> {
    timestamp_part(f, cfg) + level_part(f, cfg) + message_part(f, cfg) + field_part(f, rv, cfg)
}

/// An object's line: its pieces one after the other, the last space trimmed.
pub open spec fn assemble(f: Fields, rv: Seq<Seq<char>>, cfg: Cfg) -> Seq<char> {
    trim_last(concat(segments(f, rv, cfg)))
}

pub open spec fn bool_text(b: bool) -> Seq<char> {
    if b {
        "true"@
    } else {
        "false"@
    }
}

/// Compact JSON text of a value, keys in increasing order.
pub open spec fn compact(v: Val) -> Seq<char>
    decreases v,
{
    match v {
        Val::Null => "null"@,
        Val::Bool(b) => bool_text(b),
        Val::Num(t) => t,
        Val::Str(s) => json_quote(s),
        Val::Arr(items) => "["@ + join(compact_items(items), ","@) + "]"@,
        Val::Obj(f) => "{"@ + join(compact_members(f, compact_fields(f)), ","@) + "}"@,
    }
}

pub open spec fn compact_items(items: Seq<Val>) -> Seq<Seq<char>>
    decreases items,
{
    if items.len() == 0 {
        Seq::empty()
    } else {
        compact_items(items.drop_last()).push(compact(items.last()))
    }
}

pub open spec fn compact_fields(f: Fields) -> Seq<Seq<char>>
    decreases f,
{
    if f.len() == 0 {
        Seq::empty()
    } else {
        compact_fields(f.drop_last()).push(compact(f.last().1))
    }
}

/// `"key":value` for each key in increasing order, with `cv` the compact value of each field.
pub open spec fn compact_members(f: Fields, cv: Seq<Seq<char>>) -> Seq<Seq<char>> {
    sorted_texts(key_set(f)).map_values(
        |k: Seq<char>| json_quote(k) + ":"@ + cv[first_index(f, k)],
    )
}

/// A value rendered at nesting `depth`: expanded while `depth` is under the
/// configured depth, compact JSON from there on.
pub open spec fn render(v: Val, depth: nat, cfg: Cfg) -> Seq<char>
    decreases v,
{
    if depth >= cfg.depth {
        compact(v)
    } else {
        match v {
            Val::Null => "null"@,
            Val::Bool(b) => bool_text(b),
            Val::Num(t) => t,
            Val::Str(s) => s,
            Val::Arr(items) => "["@ + join(render_items(items, depth + 1, cfg), " "@) + "]"@,
            Val::Obj(f) => assemble(f, render_fields(f, depth + 1, cfg), cfg),
        }
    }
}

pub open spec fn render_items(items: Seq<Val>, depth: nat, cfg: Cfg) -> Seq<Seq<char>>
    decreases items,
{
    if items.len() == 0 {
        Seq::empty()
    } else {
        render_items(items.drop_last(), depth, cfg).push(render(items.last(), depth, cfg))
    }
}

pub open spec fn render_fields(f: Fields, depth: nat, cfg: Cfg) -> Seq<Seq<char>>
    decreases f,
{
    if f.len() == 0 {
        Seq::empty()
    } else {
        render_fields(f.drop_last(), depth, cfg).push(render(f.last().1, depth, cfg))
    }
}

pub proof fn lemma_render_items(items: Seq<Val>, depth: nat, cfg: Cfg)
    ensures
        render_items(items, depth, cfg).len() == items.len(),
        forall|i: int|
            0 <= i < items.len() ==> #[trigger] render_items(items, depth, cfg)[i] == render(
                items[i],
                depth,
                cfg,
            ),
    decreases items.len(),
{
    if items.len() > 0 {
        lemma_render_items(items.drop_last(), depth, cfg);
    }
}

pub proof fn lemma_render_fields(f: Fields, depth: nat, cfg: Cfg)
    ensures
        render_fields(f, depth, cfg).len() == f.len(),
        forall|i: int|
            0 <= i < f.len() ==> #[trigger] render_fields(f, depth, cfg)[i] == render(
                f[i].1,
                depth,
                cfg,
            ),
    decreases f.len(),
{
    if f.len() > 0 {
        lemma_render_fields(f.drop_last(), depth, cfg);
    }
}

pub proof fn lemma_compact_items(items: Seq<Val>)
    ensures
        compact_items(items).len() == items.len(),
        forall|i: int|
            0 <= i < items.len() ==> #[trigger] compact_items(items)[i] == compact(items[i]),
    decreases items.len(),
{
    if items.len() > 0 {
        lemma_compact_items(items.drop_last());
    }
}

pub proof fn lemma_compact_fields(f: Fields)
    ensures
        compact_fields(f).len() == f.len(),
        forall|i: int| 0 <= i < f.len() ==> #[trigger] compact_fields(f)[i] == compact(f[i].1),
    decreases f.len(),
{
    if f.len() > 0 {
        lemma_compact_fields(f.drop_last());
    }
}

/// The first occurrence of a key is where `first_index` points.
pub proof fn lemma_first_index(f: Fields, k: Seq<char>, i: int)
    requires
        is_first(f, k, i),
    ensures
        first_index(f, k) == i,
        lookup(f, k) == Some(f[i].1),
{
    let j = first_index(f, k);
    assert(is_first(f, k, j));
    if j < i {
        assert(f[j].0 == k);
    }
    if i < j {
        assert(f[i].0 == k);
    }
}

/// A key that occurs has a first occurrence.
pub proof fn lemma_has_first(f: Fields, k: Seq<char>, i: int)
    requires
        0 <= i < f.len(),
        f[i].0 == k,
    ensures
        is_first(f, k, first_index(f, k)),
        lookup(f, k) == Some(f[first_index(f, k)].1),
    decreases i,
{
    if exists|j: int| 0 <= j < i && f[j].0 == k {
        let j = choose|j: int| 0 <= j < i && f[j].0 == k;
        lemma_has_first(f, k, j);
    } else {
        lemma_first_index(f, k, i);
    }
}

} // verus!
