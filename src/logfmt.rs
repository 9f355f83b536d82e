use vstd::prelude::*;
use crate::json::{json_parse, parse_json};
use crate::order::find_field;
use crate::render::{Fields, first_index, has_key};
use crate::text::push_char;
use crate::value::{LogValue, Val, lemma_view_fields, view_fields};

verus! {

pub open spec fn is_space(c: char) -> bool {
    c == ' ' || c == '\t' || c == '\n' || c == '\r' || c == '\x0b' || c == '\x0c'
}

/// Where the tokenizer stands after a prefix of the line.
pub struct Scan {
    /// The tokens completed so far.
    pub tokens: Seq<Seq<char>>,
    /// The token being read; empty between tokens.
    pub cur: Seq<char>,
    /// Inside a double-quoted span.
    pub quoted: bool,
    /// Just after a backslash inside a quoted span.
    pub escaped: bool,
}

pub open spec fn scan_start() -> Scan {
    Scan { tokens: Seq::empty(), cur: Seq::empty(), quoted: false, escaped: false }
}

/// One character read: whitespace outside quotes ends a token; a quote opens or
/// closes a span; a backslash in a span keeps the next character from closing it.
pub open spec fn scan_step(st: Scan, c: char) -> Scan {
    if st.quoted {
        if st.escaped {
            Scan { tokens: st.tokens, cur: st.cur.push(c), quoted: true, escaped: false }
        } else if c == '\\' {
            Scan { tokens: st.tokens, cur: st.cur.push(c), quoted: true, escaped: true }
        } else if c == '"' {
            Scan { tokens: st.tokens, cur: st.cur.push(c), quoted: false, escaped: false }
        } else {
            Scan { tokens: st.tokens, cur: st.cur.push(c), quoted: true, escaped: false }
        }
    } else if is_space(c) {
        if st.cur.len() > 0 {
            Scan { tokens: st.tokens.push(st.cur), cur: Seq::empty(), quoted: false, escaped: false }
        } else {
            st
        }
    } else if c == '"' {
        Scan { tokens: st.tokens, cur: st.cur.push(c), quoted: true, escaped: false }
    } else {
        Scan { tokens: st.tokens, cur: st.cur.push(c), quoted: false, escaped: false }
    }
}

pub open spec fn scan(s: Seq<char>) -> Scan
    decreases s.len(),
{
    if s.len() == 0 {
        scan_start()
    } else {
        scan_step(scan(s.drop_last()), s.last())
    }
}

/// The whitespace-separated tokens of a line, or nothing when a quote is left open.
pub open spec fn tokens_of(s: Seq<char>) -> Option<Seq<Seq<char>>> {
    let st = scan(s);
    if st.quoted {
        None
    } else if st.cur.len() > 0 {
        Some(st.tokens.push(st.cur))
    } else {
        Some(st.tokens)
    }
}

/// `i` is the first `=` of the token.
pub open spec fn is_first_eq(t: Seq<char>, i: int) -> bool {
    0 <= i < t.len() && t[i] == '=' && forall|j: int| 0 <= j < i ==> t[j] != '='
}

/// A token split at its first `=` into a non-empty key and the raw value.
pub open spec fn split_token(t: Seq<char>) -> Option<(Seq<char>, Seq<char>)> {
    if exists|i: int| is_first_eq(t, i) && i > 0 {
        let i = choose|i: int| is_first_eq(t, i) && i > 0;
        Some((t.take(i), t.skip(i + 1)))
    } else {
        None
    }
}

pub open spec fn is_quoted(v: Seq<char>) -> bool {
    v.len() >= 2 && v[0] == '"' && v.last() == '"'
}

/// The text of a quoted span: `\"` stands for `"` and `\\` for `\`.
pub open spec fn unescape(s: Seq<char>) -> Seq<char>
    decreases s.len(),
{
    if s.len() == 0 {
        Seq::empty()
    } else if s.len() >= 2 && s[0] == '\\' && (s[1] == '"' || s[1] == '\\') {
        seq![s[1]] + unescape(s.skip(2))
    } else {
        seq![s[0]] + unescape(s.skip(1))
    }
}

pub open spec fn is_scalar(v: Val) -> bool {
    v is Null || v is Bool || v is Num
}

/// The value of a raw token value: a quoted text, a JSON scalar, or the raw text.
pub open spec fn token_value(raw: Seq<char>) -> Val {
    if is_quoted(raw) {
        Val::Str(unescape(raw.subrange(1, raw.len() - 1)))
    } else {
        match json_parse(raw) {
            Some(v) => if is_scalar(v) {
                v
            } else {
                Val::Str(raw)
            },
            None => Val::Str(raw),
        }
    }
}

/// The fields with `k` set to `v`: a key already present keeps its place and
/// takes the new value.
pub open spec fn put(f: Fields, k: Seq<char>, v: Val) -> Fields {
    if has_key(f, k) {
        f.update(first_index(f, k), (k, v))
    } else {
        f.push((k, v))
    }
}

/// Key-value pairs of all tokens, or nothing when one is not `key=value`.
pub open spec fn pairs_of(tokens: Seq<Seq<char>>) -> Option<Seq<(Seq<char>, Val)>>
    decreases tokens.len(),
{
    if tokens.len() == 0 {
        Some(Seq::empty())
    } else {
        match (pairs_of(tokens.drop_last()), split_token(tokens.last())) {
            (Some(ps), Some(kv)) => Some(ps.push((kv.0, token_value(kv.1)))),
            _ => None,
        }
    }
}

/// The fields that a sequence of pairs sets, a later pair winning over an earlier one.
pub open spec fn fields_of(pairs: Seq<(Seq<char>, Val)>) -> Fields
    decreases pairs.len(),
{
    if pairs.len() == 0 {
        Seq::empty()
    } else {
        put(fields_of(pairs.drop_last()), pairs.last().0, pairs.last().1)
    }
}

/// The object that a `key=value` line denotes. A line with no token is an
/// empty object only when it is empty.
pub open spec fn logfmt_parse(s: Seq<char>) -> Option<Val> {
    match tokens_of(s) {
        None => None,
        Some(ts) => if ts.len() == 0 && s.len() > 0 {
            None
        } else {
            match pairs_of(ts) {
                Some(ps) => Some(Val::Obj(fields_of(ps))),
                None => None,
            }
        },
    }
}

/// A line read as JSON, and failing that as `key=value` tokens.
pub open spec fn parse_spec(s: Seq<char>) -> Option<Val> {
    match json_parse(s) {
        Some(v) => Some(v),
        None => logfmt_parse(s),
    }
}

/// The characters of a text, one by one.
pub fn chars_of(s: &str) -> (r: Vec<char>)
    ensures
        r@ == s@,
{
    let mut r: Vec<char> = Vec::new();
    for c in it: s.chars()
        invariant
            r@ == it.seq().take(it.index() as int),
    {
        r.push(c);
    }
    assert(r@ =~= s@);
    r
}

/// The text of the characters from `from` to `to`.
pub fn text_of(cs: &Vec<char>, from: usize, to: usize) -> (r: String)
    requires
        from <= to <= cs.len(),
    ensures
        r@ == cs@.subrange(from as int, to as int),
{
    let mut r = String::new();
    let mut i = from;
    while i < to
        invariant
            from <= i <= to <= cs.len(),
            r@ == cs@.subrange(from as int, i as int),
        decreases to - i,
    {
        push_char(&mut r, cs[i]);
        assert(r@ =~= cs@.subrange(from as int, i + 1));
        i = i + 1;
    }
    r
}

pub open spec fn char_seqs(v: Seq<Vec<char>>) -> Seq<Seq<char>> {
    v.map_values(|t: Vec<char>| t@)
}

/// The tokens of a line, split on whitespace outside double-quoted spans.
pub fn tokenize(cs: &Vec<char>) -> (r: Option<Vec<Vec<char>>>)
    ensures
        match r {
            Some(ts) => tokens_of(cs@) == Some(char_seqs(ts@)),
            None => tokens_of(cs@) is None,
        },
{
    let mut tokens: Vec<Vec<char>> = Vec::new();
    let mut cur: Vec<char> = Vec::new();
    let mut quoted = false;
    let mut escaped = false;
    let mut i: usize = 0;
    assert(char_seqs(tokens@) =~= Seq::<Seq<char>>::empty());
    assert(cs@.take(0) =~= Seq::<char>::empty());
    while i < cs.len()
        invariant
            i <= cs.len(),
            escaped ==> quoted,
            scan(cs@.take(i as int)) == (Scan {
                tokens: char_seqs(tokens@),
                cur: cur@,
                quoted,
                escaped,
            }),
        decreases cs.len() - i,
    {
        let c = cs[i];
        let ghost st = scan(cs@.take(i as int));
        assert(cs@.take(i + 1).drop_last() =~= cs@.take(i as int));
        assert(cs@.take(i + 1).last() == c);
        assert(scan(cs@.take(i + 1)) == scan_step(st, c));
        if quoted {
            cur.push(c);
            if escaped {
                escaped = false;
            } else if c == '\\' {
                escaped = true;
            } else if c == '"' {
                quoted = false;
            }
        } else if c == ' ' || c == '\t' || c == '\n' || c == '\r' || c == '\x0b' || c == '\x0c' {
            if cur.len() > 0 {
                let ghost before = tokens@;
                tokens.push(cur);
                cur = Vec::new();
                assert(char_seqs(tokens@) =~= char_seqs(before).push(st.cur));
                assert(cur@ =~= Seq::<char>::empty());
            }
        } else {
            cur.push(c);
            if c == '"' {
                quoted = true;
            }
        }
        i = i + 1;
    }
    assert(cs@.take(i as int) =~= cs@);
    if quoted {
        return None;
    }
    if cur.len() > 0 {
        let ghost before = tokens@;
        let ghost last = cur@;
        tokens.push(cur);
        assert(char_seqs(tokens@) =~= char_seqs(before).push(last));
    }
    Some(tokens)
}

/// Where a token's key ends: its first `=`, when the key before it is not empty.
pub fn split_at_eq(t: &Vec<char>) -> (r: Option<usize>)
    ensures
        match r {
            Some(i) => i < t.len() && split_token(t@) == Some((t@.take(i as int), t@.skip(i + 1))),
            None => split_token(t@) is None,
        },
{
    let mut i: usize = 0;
    while i < t.len()
        invariant
            i <= t.len(),
            forall|j: int| 0 <= j < i ==> t@[j] != '=',
        decreases t.len() - i,
    {
        if t[i] == '=' {
            assert(is_first_eq(t@, i as int));
            assert forall|j: int| is_first_eq(t@, j) implies j == i by {
                if j < i {
                    assert(t@[j] != '=');
                }
                if j > i {
                    assert(t@[i as int] == '=');
                }
            }
            if i == 0 {
                return None;
            }
            return Some(i);
        }
        i = i + 1;
    }
    None
}

/// The text of a quoted span's inside, from `from` to `to`, with its escapes undone.
pub fn unescaped(cs: &Vec<char>, from: usize, to: usize) -> (r: String)
    requires
        from <= to <= cs.len(),
    ensures
        r@ == unescape(cs@.subrange(from as int, to as int)),
{
    let ghost whole = cs@.subrange(from as int, to as int);
    let mut r = String::new();
    let mut i = from;
    while i < to
        invariant
            from <= i <= to <= cs.len(),
            whole == cs@.subrange(from as int, to as int),
            r@ + unescape(cs@.subrange(i as int, to as int)) == unescape(whole),
        decreases to - i,
    {
        let ghost rest = cs@.subrange(i as int, to as int);
        if cs[i] == '\\' && i + 1 < to && (cs[i + 1] == '"' || cs[i + 1] == '\\') {
            assert(rest.skip(2) =~= cs@.subrange(i + 2, to as int));
            let ghost r0 = r@;
            push_char(&mut r, cs[i + 1]);
            assert(r@ + unescape(cs@.subrange(i + 2, to as int)) =~= r0 + unescape(rest));
            i = i + 2;
        } else {
            assert(rest.skip(1) =~= cs@.subrange(i + 1, to as int));
            let ghost r0 = r@;
            push_char(&mut r, cs[i]);
            assert(r@ + unescape(cs@.subrange(i + 1, to as int)) =~= r0 + unescape(rest));
            i = i + 1;
        }
    }
    assert(unescape(cs@.subrange(i as int, to as int)) =~= Seq::<char>::empty());
    assert(r@ + Seq::<char>::empty() =~= r@);
    r
}

/// The value of a token's raw value, from `start` to the token's end.
pub fn value_of(t: &Vec<char>, start: usize) -> (r: LogValue)
    requires
        start <= t.len(),
    ensures
        r@ == token_value(t@.skip(start as int)),
{
    let n = t.len();
    let ghost raw = t@.skip(start as int);
    if n - start >= 2 && t[start] == '"' && t[n - 1] == '"' {
        assert(raw.subrange(1, raw.len() - 1) =~= t@.subrange(start + 1, n - 1));
        return LogValue::String(unescaped(t, start + 1, n - 1));
    }
    let text = text_of(t, start, n);
    assert(text@ =~= raw);
    match parse_json(text.as_str()) {
        Some(v) => match v {
            LogValue::Null => v,
            LogValue::Bool(_) => v,
            LogValue::Number(_) => v,
            _ => LogValue::String(text),
        },
        None => LogValue::String(text),
    }
}

/// Sets the field `k` to `v`: a key already present keeps its place and takes
/// the new value.
pub fn put_field(fields: &mut Vec<(String, LogValue)>, k: String, v: LogValue)
    ensures
        view_fields(final(fields)@) == put(view_fields(old(fields)@), k@, v@),
{
    let ghost f0 = view_fields(fields@);
    let ghost kv = (k@, v@);
    proof {
        lemma_view_fields(fields@);
    }
    match find_field(fields, k.as_str()) {
        Some(i) => {
            fields.set(i, (k, v));
            proof {
                lemma_view_fields(fields@);
                assert(view_fields(fields@) =~= f0.update(i as int, kv));
            }
        },
        None => {
            fields.push((k, v));
            proof {
                lemma_view_fields(fields@);
                assert(view_fields(fields@) =~= f0.push(kv));
            }
        },
    }
}

/// A prefix of tokens that is not all `key=value` spoils the whole line.
pub proof fn lemma_pairs_prefix(ts: Seq<Seq<char>>, j: int)
    requires
        0 <= j <= ts.len(),
        pairs_of(ts.take(j)) is None,
    ensures
        pairs_of(ts) is None,
    decreases ts.len() - j,
{
    if j < ts.len() {
        assert(ts.take(j + 1).drop_last() =~= ts.take(j));
        lemma_pairs_prefix(ts, j + 1);
    } else {
        assert(ts.take(j) =~= ts);
    }
}

/// The object of a `key=value` line, or nothing when the line is not one.
pub fn parse_logfmt(line: &str) -> (r: Option<LogValue>)
    ensures
        match r {
            Some(v) => logfmt_parse(line@) == Some(v@),
            None => logfmt_parse(line@) is None,
        },
{
    let cs = chars_of(line);
    let ts = match tokenize(&cs) {
        Some(ts) => ts,
        None => return None,
    };
    if ts.len() == 0 && !line.is_empty() {
        return None;
    }
    let ghost tv = char_seqs(ts@);
    if ts.len() == 0 {
        assert(pairs_of(tv) == Some(Seq::<(Seq<char>, Val)>::empty()));
        let none: Vec<(String, LogValue)> = Vec::new();
        assert(view_fields(none@) =~= Seq::<(Seq<char>, Val)>::empty());
        return Some(LogValue::Object(none));
    }
    let mut fields: Vec<(String, LogValue)> = Vec::new();
    let ghost mut ps: Seq<(Seq<char>, Val)> = Seq::empty();
    proof {
        assert(tv.take(0) =~= Seq::<Seq<char>>::empty());
        assert(view_fields(fields@) =~= Seq::<(Seq<char>, Val)>::empty());
    }
    let mut j: usize = 0;
    while j < ts.len()
        invariant
            j <= ts.len(),
            tv == char_seqs(ts@),
            tokens_of(line@) == Some(tv),
            ts.len() > 0,
            pairs_of(tv.take(j as int)) == Some(ps),
            view_fields(fields@) == fields_of(ps),
        decreases ts.len() - j,
    {
        let t = &ts[j];
        assert(tv.take(j + 1).drop_last() =~= tv.take(j as int));
        assert(tv.take(j + 1).last() == t@);
        match split_at_eq(t) {
            Some(i) => {
                let key = text_of(t, 0, i);
                let value = value_of(t, i + 1);
                let ghost ps0 = ps;
                proof {
                    assert(key@ =~= t@.take(i as int));
                    ps = ps.push((key@, value@));
                    assert(ps.drop_last() =~= ps0);
                }
                put_field(&mut fields, key, value);
            },
            None => {
                proof {
                    assert(pairs_of(tv.take(j + 1)) is None);
                    lemma_pairs_prefix(tv, j + 1);
                }
                return None;
            },
        }
        j = j + 1;
    }
    assert(tv.take(j as int) =~= tv);
    Some(LogValue::Object(fields))
}

} // verus!
