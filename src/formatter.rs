use vstd::prelude::*;
use crate::color::{fg_code, key_style, paint, timestamp_style, value_code};
use crate::level::{blank_level, canonical_level, level_token, lower_of, lowercase, upper_of, uppercase};
use crate::order::{all_first, distinct_keys, find_field, keys_at, kept_keys, lemma_first_same, sort_by_key};
use crate::render::{
    Cfg, assemble, field_part, first_index, has_key, highlighted, is_first, is_iso_datetime,
    is_timestamp, lemma_first_index, lemma_has_first, level_part, level_segment, level_text, lookup,
    message_key, message_part, ordinary_keys, ordinary_set, paint_key, paint_timestamp,
    paint_value, promoted, segments, field_segment, text_value, timestamp_key, timestamp_part, render,
    render_items, render_fields, lemma_render_items, lemma_render_fields,
};
use crate::logfmt::parse_spec;
use crate::parse::{ParseError, parse_line};
use crate::text::{concat_all, without_last, join_with, lemma_sorted_texts, text_eq, texts};
use crate::value::{LogValue, lemma_view_fields, lemma_view_items, view_fields, view_items};

verus! {

/// The rendering options. They stay the same for every record.
#[derive(Clone)]
pub struct Formatter {
    /// No ANSI colour sequences at all.
    pub no_colors: bool,
    /// No promotion of the `level` field.
    pub no_level: bool,
    /// How many levels of arrays and objects are expanded before compact JSON.
    pub parse_depth: u32,
    /// The one key to read the timestamp from; when empty, `time` then `timestamp`.
    pub timestamp_prop: String,
    /// Keys whose name is painted to catch the eye.
    pub highlight_properties: Vec<String>,
}

impl View for Formatter {
    type V = Cfg;

    open spec fn view(&self) -> Cfg {
        Cfg {
            no_colors: self.no_colors,
            no_level: self.no_level,
            depth: self.parse_depth as nat,
            ts_field: self.timestamp_prop@,
            highlight: texts(self.highlight_properties@),
        }
    }
}

impl Formatter {
    pub fn new_with_params(
        no_colors: bool,
        no_level: bool,
        parse_depth: u32,
        timestamp_prop: String,
        highlight_properties: Vec<String>,
    ) -> (r: Formatter)
        ensures
            r.no_colors == no_colors,
            r.no_level == no_level,
            r.parse_depth == parse_depth,
            r.timestamp_prop == timestamp_prop,
            r.highlight_properties == highlight_properties,
    {
        Formatter { no_colors, no_level, parse_depth, timestamp_prop, highlight_properties }
    }

    fn is_highlighted(&self, key: &str) -> (r: bool)
        ensures
            r == highlighted(self@, key@),
    {
        let hs = &self.highlight_properties;
        let mut i: usize = 0;
        while i < hs.len()
            invariant
                i <= hs.len(),
                self@.highlight == texts(hs@),
                forall|j: int| 0 <= j < i ==> hs[j]@ != key@,
            decreases hs.len() - i,
        {
            if text_eq(hs[i].as_str(), key) {
                assert(texts(hs@)[i as int] == key@);
                assert(texts(hs@).contains(key@));
                return true;
            }
            i = i + 1;
        }
        assert(!texts(hs@).contains(key@)) by {
            if texts(hs@).contains(key@) {
                let j = choose|j: int| 0 <= j < hs.len() && texts(hs@)[j] == key@;
                assert(hs[j]@ == key@);
            }
        }
        false
    }

    /// The timestamp, bold blue unless colours are off.
    pub fn format_timestamp(&self, timestamp: &str) -> (r: String)
        ensures
            r@ == paint_timestamp(self@, timestamp@),
    {
        if self.no_colors {
            return timestamp.to_owned();
        }
        let code = timestamp_style();
        paint(code.as_str(), timestamp)
    }

    /// A key, dim and underlined, or yellow and underlined when highlighted.
    pub fn colorize_obj_key(&self, key: &str) -> (r: String)
        ensures
            r@ == paint_key(self@, key@),
    {
        if self.no_colors {
            return key.to_owned();
        }
        let code = key_style(self.is_highlighted(key));
        paint(code.as_str(), key)
    }

    /// A field's rendered value, white unless colours are off.
    pub fn colorize_obj_value(&self, val: &str) -> (r: String)
        ensures
            r@ == paint_value(self@, val@),
    {
        if self.no_colors {
            return val.to_owned();
        }
        let code = fg_code(crate::color::Hue::White);
        assert(code@ == value_code());
        paint(code.as_str(), val)
    }

    /// The level as shown before the message, or nothing when its token is blank.
    pub fn format_level(&self, level: &str) -> (r: Option<String>)
        ensures
            level_token(lower_of(level@), upper_of(level@)) == blank_level() ==> r is None,
            level_token(lower_of(level@), upper_of(level@)) != blank_level() ==> r is Some
                && r->0@ == level_segment(self@, level@),
    {
        let lower = lowercase(level);
        let upper = uppercase(level);
        let (token, hue) = canonical_level(lower.as_str(), upper.as_str());
        proof {
            reveal_strlit("     ");
            assert(blank_level() =~= "     "@);
        }
        if text_eq(token.as_str(), "     ") {
            return None;
        }
        let mut r = match hue {
            Some(h) => if self.no_colors {
                token
            } else {
                let code = fg_code(h);
                paint(code.as_str(), token.as_str())
            },
            None => token,
        };
        r.append(": ");
        Some(r)
    }

    /// The first field with the key, when it holds an ISO 8601 date and time.
    fn timestamp_at(&self, fields: &Vec<(String, LogValue)>, key: &str) -> (r: Option<usize>)
        ensures
            match r {
                Some(i) => i < fields.len() && is_first(view_fields(fields@), key@, i as int)
                    && view_fields(fields@)[i as int].1 is Str && is_timestamp(
                    view_fields(fields@),
                    key@,
                ),
                None => !is_timestamp(view_fields(fields@), key@),
            },
    {
        proof {
            lemma_view_fields(fields@);
        }
        match find_field(fields, key) {
            Some(i) => {
                proof {
                    lemma_first_index(view_fields(fields@), key@, i as int);
                }
                match &fields[i].1 {
                    LogValue::String(s) => if is_iso_datetime(s.as_str()) {
                        Some(i)
                    } else {
                        None
                    },
                    _ => None,
                }
            },
            None => None,
        }
    }

    /// Where the promoted timestamp is, if any.
    fn timestamp_index(&self, fields: &Vec<(String, LogValue)>) -> (r: Option<usize>)
        ensures
            match r {
                Some(i) => i < fields.len() && timestamp_key(view_fields(fields@), self@) == Some(
                    view_fields(fields@)[i as int].0,
                ) && is_first(view_fields(fields@), view_fields(fields@)[i as int].0, i as int)
                    && view_fields(fields@)[i as int].1 is Str,
                None => timestamp_key(view_fields(fields@), self@) is None,
            },
    {
        if !self.timestamp_prop.as_str().is_empty() {
            self.timestamp_at(fields, self.timestamp_prop.as_str())
        } else {
            match self.timestamp_at(fields, "time") {
                Some(i) => Some(i),
                None => self.timestamp_at(fields, "timestamp"),
            }
        }
    }

    /// Where the promoted level is, with the level as shown.
    fn level_index(&self, fields: &Vec<(String, LogValue)>, ts: Option<usize>) -> (r: Option<
        (usize, String),
    >)
        requires
            ts_facts(view_fields(fields@), self@, ts),
        ensures
            match r {
                Some((i, seg)) => i < fields.len() && is_first(
                    view_fields(fields@),
                    "level"@,
                    i as int,
                ) && level_text(view_fields(fields@), self@) == text_value(
                    Some(view_fields(fields@)[i as int].1),
                ) && level_text(view_fields(fields@), self@) is Some && seg@ == level_segment(
                    self@,
                    level_text(view_fields(fields@), self@)->0,
                ),
                None => level_text(view_fields(fields@), self@) is None,
            },
    {
        let ghost f = view_fields(fields@);
        proof {
            lemma_view_fields(fields@);
        }
        if self.no_level {
            return None;
        }
        match find_field(fields, "level") {
            Some(i) => {
                proof {
                    lemma_first_index(f, "level"@, i as int);
                    if ts is Some {
                        if f[ts->0 as int].0 == "level"@ {
                            lemma_first_same(f, ts->0 as int, i as int);
                        }
                    }
                }
                if ts == Some(i) {
                    return None;
                }
                match &fields[i].1 {
                    LogValue::String(s) => match self.format_level(s.as_str()) {
                        Some(seg) => Some((i, seg)),
                        None => None,
                    },
                    _ => None,
                }
            },
            None => None,
        }
    }

    /// The first field with the key, when it holds a text and is not the timestamp.
    fn message_at(&self, fields: &Vec<(String, LogValue)>, key: &str, ts: Option<usize>) -> (r:
        Option<usize>)
        requires
            ts_facts(view_fields(fields@), self@, ts),
        ensures
            match r {
                Some(i) => i < fields.len() && is_first(view_fields(fields@), key@, i as int)
                    && view_fields(fields@)[i as int].1 is Str,
                None => !(timestamp_key(view_fields(fields@), self@) != Some(key@) && text_value(
                    lookup(view_fields(fields@), key@),
                ) is Some),
            },
            r is Some ==> timestamp_key(view_fields(fields@), self@) != Some(key@),
    {
        let ghost f = view_fields(fields@);
        proof {
            lemma_view_fields(fields@);
        }
        match find_field(fields, key) {
            Some(i) => {
                proof {
                    lemma_first_index(f, key@, i as int);
                    if ts is Some {
                        if f[ts->0 as int].0 == key@ {
                            lemma_first_same(f, ts->0 as int, i as int);
                        }
                    }
                }
                if ts == Some(i) {
                    return None;
                }
                match &fields[i].1 {
                    LogValue::String(_) => Some(i),
                    _ => None,
                }
            },
            None => None,
        }
    }

    /// Where the promoted message is, if any.
    fn message_index(&self, fields: &Vec<(String, LogValue)>, ts: Option<usize>) -> (r: Option<
        usize,
    >)
        requires
            ts_facts(view_fields(fields@), self@, ts),
        ensures
            match r {
                Some(i) => i < fields.len() && message_key(view_fields(fields@), self@) == Some(
                    view_fields(fields@)[i as int].0,
                ) && is_first(view_fields(fields@), view_fields(fields@)[i as int].0, i as int)
                    && view_fields(fields@)[i as int].1 is Str,
                None => message_key(view_fields(fields@), self@) is None,
            },
    {
        match self.message_at(fields, "message", ts) {
            Some(i) => Some(i),
            None => self.message_at(fields, "msg", ts),
        }
    }
}

impl Formatter {
    /// The line of an object, from the rendered value of each of its fields.
    fn format_object(&self, fields: &Vec<(String, LogValue)>, rv: &Vec<String>) -> (r: String)
        requires
            rv.len() == fields.len(),
        ensures
            r@ == assemble(view_fields(fields@), texts(rv@), self@),
    {
        let ghost f = view_fields(fields@);
        let ghost cfg = self@;
        proof {
            lemma_view_fields(fields@);
        }
        let ts = self.timestamp_index(fields);
        let lvl = self.level_index(fields, ts);
        let msg = self.message_index(fields, ts);
        let lvl_at: Option<usize> = match &lvl {
            Some((i, _)) => Some(*i),
            None => None,
        };
        let mut segs: Vec<String> = Vec::new();
        let mut skip: Vec<usize> = Vec::new();
        if let Some(i) = ts {
            if let LogValue::String(t) = &fields[i].1 {
                proof {
                    lemma_first_index(f, f[i as int].0, i as int);
                }
                let mut seg = String::from_str("[");
                let painted = self.format_timestamp(t.as_str());
                seg.append(painted.as_str());
                seg.append("] ");
                segs.push(seg);
            }
            skip.push(i);
        }
        assert(texts(segs@) =~= timestamp_part(f, cfg));
        if let Some((i, seg)) = lvl {
            segs.push(seg);
            skip.push(i);
        }
        assert(texts(segs@) =~= timestamp_part(f, cfg) + level_part(f, cfg));
        if let Some(i) = msg {
            if let LogValue::String(m) = &fields[i].1 {
                proof {
                    lemma_first_index(f, f[i as int].0, i as int);
                }
                let mut seg = m.clone();
                seg.append(" ");
                segs.push(seg);
            }
            skip.push(i);
        }
        let ghost head = timestamp_part(f, cfg) + level_part(f, cfg) + message_part(f, cfg);
        assert(skip@ =~= opt_seq(ts) + opt_seq(lvl_at) + opt_seq(msg));
        assert(texts(segs@) =~= head);
        let kept = distinct_keys(fields, &skip);
        let order = sort_by_key(fields, &kept);
        proof {
            assert forall|k: Seq<char>| #[trigger] kept_keys(f, skip@).contains(k) <==> ordinary_set(
                f,
                cfg,
            ).contains(k) by {
                if has_key(f, k) {
                    let j = choose|j: int| 0 <= j < f.len() && f[j].0 == k;
                    lemma_has_first(f, k, j);
                    let fi = first_index(f, k);
                    if ts is Some && f[ts->0 as int].0 == k {
                        lemma_first_same(f, ts->0 as int, fi);
                    }
                    if lvl_at is Some && k == "level"@ {
                        lemma_first_same(f, lvl_at->0 as int, fi);
                    }
                    if msg is Some && f[msg->0 as int].0 == k {
                        lemma_first_same(f, msg->0 as int, fi);
                    }
                    let a = opt_seq(ts);
                    let b = opt_seq(lvl_at);
                    let c = opt_seq(msg);
                    if ts == Some(fi as usize) {
                        assert(skip@[0] == fi);
                    }
                    if lvl_at == Some(fi as usize) {
                        assert(skip@[a.len() as int] == fi);
                    }
                    if msg == Some(fi as usize) {
                        assert(skip@[(a.len() + b.len()) as int] == fi);
                    }
                    assert(skip@.contains(fi as usize) <==> promoted(f, cfg, k));
                }
            }
            assert(kept_keys(f, skip@) =~= ordinary_set(f, cfg));
            lemma_sorted_texts(keys_at(f, order@));
            assert(keys_at(f, order@) == ordinary_keys(f, cfg));
        }
        let n0 = segs.len();
        for j in 0..order.len()
            invariant
                f == view_fields(fields@),
                cfg == self@,
                f.len() == fields.len(),
                rv.len() == fields.len(),
                forall|t: int| 0 <= t < fields.len() ==> #[trigger] f[t] == (fields[t].0@, fields[t].1@),
                forall|t: int| 0 <= t < order.len() ==> order[t] < fields.len(),
                n0 == head.len(),
                segs.len() == n0 + j,
                texts(segs@).take(n0 as int) == head,
                forall|t: int|
                    0 <= t < j ==> #[trigger] segs[n0 + t]@ == field_segment(
                        cfg,
                        f[order[t] as int].0,
                        rv[order[t] as int]@,
                    ),
        {
            let i = order[j];
            let mut seg = self.colorize_obj_key(fields[i].0.as_str());
            seg.append("=");
            let v = self.colorize_obj_value(rv[i].as_str());
            seg.append(v.as_str());
            seg.append(" ");
            let ghost before = texts(segs@);
            segs.push(seg);
            assert(texts(segs@).take(n0 as int) =~= before.take(n0 as int));
        }
        proof {
            let tail = field_part(f, texts(rv@), cfg);
            assert forall|t: int| 0 <= t < order.len() implies #[trigger] tail[t] == texts(segs@)[n0 + t] by {
                assert(all_first(f, order@));
                assert(crate::order::is_first_at(f, order@, t));
                lemma_first_index(f, f[order[t] as int].0, order[t] as int);
            }
            assert(texts(segs@) =~= head + tail);
            assert(texts(segs@) == segments(f, texts(rv@), cfg));
        }
        let line = concat_all(&segs);
        without_last(line.as_str())
    }
}

impl Formatter {
    /// A value rendered at nesting `depth`: expanded while `depth` is under
    /// `parse_depth`, compact JSON from there on.
    pub fn format_value(&self, v: &LogValue, depth: u32) -> (r: String)
        ensures
            r@ == render(v@, depth as nat, self@),
        decreases v,
    {
        if depth >= self.parse_depth {
            return v.to_json();
        }
        match v {
            LogValue::Null => String::from_str("null"),
            LogValue::Bool(b) => if *b {
                String::from_str("true")
            } else {
                String::from_str("false")
            },
            LogValue::Number(t) => t.clone(),
            LogValue::String(s) => s.clone(),
            LogValue::Array(items) => {
                let parts = self.format_items(items, depth + 1);
                let mut r = String::from_str("[");
                let inner = join_with(&parts, " ");
                r.append(inner.as_str());
                r.append("]");
                r
            },
            LogValue::Object(fields) => {
                let rv = self.format_fields(fields, depth + 1);
                self.format_object(fields, &rv)
            },
        }
    }

    fn format_items(&self, items: &Vec<LogValue>, depth: u32) -> (r: Vec<String>)
        ensures
            texts(r@) == render_items(view_items(items@), depth as nat, self@),
        decreases items,
    {
        proof {
            lemma_view_items(items@);
            lemma_render_items(view_items(items@), depth as nat, self@);
        }
        let mut r: Vec<String> = Vec::new();
        for i in 0..items.len()
            invariant
                r.len() == i,
                forall|t: int| 0 <= t < i ==> #[trigger] r[t]@ == render(items[t]@, depth as nat, self@),
        {
            let s = self.format_value(&items[i], depth);
            r.push(s);
        }
        proof {
            assert(texts(r@) =~= render_items(view_items(items@), depth as nat, self@));
        }
        r
    }

    fn format_fields(&self, fields: &Vec<(String, LogValue)>, depth: u32) -> (r: Vec<String>)
        ensures
            r.len() == fields.len(),
            texts(r@) == render_fields(view_fields(fields@), depth as nat, self@),
        decreases fields,
    {
        proof {
            lemma_view_fields(fields@);
            lemma_render_fields(view_fields(fields@), depth as nat, self@);
        }
        let mut r: Vec<String> = Vec::new();
        for i in 0..fields.len()
            invariant
                r.len() == i,
                forall|t: int| 0 <= t < i ==> #[trigger] r[t]@ == render(fields[t].1@, depth as nat, self@),
        {
            let s = self.format_value(&fields[i].1, depth);
            r.push(s);
        }
        proof {
            assert(texts(r@) =~= render_fields(view_fields(fields@), depth as nat, self@));
        }
        r
    }
}

impl Formatter {
    /// One input line as one output line: the record read from the line, rendered.
    pub fn reformat_str(&self, input: &str) -> (r: Result<String, ParseError>)
        ensures
            match r {
                Ok(s) => parse_spec(input@) is Some && s@ == render(
                    parse_spec(input@)->0,
                    0,
                    self@,
                ),
                Err(e) => parse_spec(input@) is None && e == ParseError::MalformedInput,
            },
    {
        match parse_line(input) {
            Ok(v) => Ok(self.format_value(&v, 0)),
            Err(e) => Err(e),
        }
    }
}

pub open spec fn opt_seq(o: Option<usize>) -> Seq<usize> {
    match o {
        Some(i) => seq![i],
        None => seq![],
    }
}

/// What `timestamp_index` tells of the position it found.
pub open spec fn ts_facts(f: crate::render::Fields, cfg: Cfg, ts: Option<usize>) -> bool {
    match ts {
        Some(i) => i < f.len() && timestamp_key(f, cfg) == Some(f[i as int].0) && is_first(
            f,
            f[i as int].0,
            i as int,
        ) && f[i as int].1 is Str,
        None => timestamp_key(f, cfg) is None,
    }
}

} // verus!
