use vstd::prelude::*;
use crate::laws::unique_keys;
use crate::logfmt::{
    Scan, fields_of, is_first_eq, is_quoted, is_space, logfmt_parse, pairs_of, scan,
    scan_start, scan_step, split_token, token_value, tokens_of, unescape,
};
use crate::render::{Cfg, Fields, has_key, render};
use crate::text::join;
use crate::value::Val;

verus! {

/// A key that can stand bare before `=` in a `key=value` token.
pub open spec fn plain_key(k: Seq<char>) -> bool {
    &&& k.len() > 0
    &&& forall|i: int| 0 <= i < k.len() ==> !is_space(#[trigger] k[i]) && k[i] != '=' && k[i] != '"'
}

pub open spec fn escape_char(c: char) -> Seq<char> {
    if c == '"' || c == '\\' {
        seq!['\\', c]
    } else {
        seq![c]
    }
}

/// A text with `"` and `\\` escaped by a backslash.
pub open spec fn escape(s: Seq<char>) -> Seq<char>
    decreases s.len(),
{
    if s.len() == 0 {
        Seq::empty()
    } else {
        escape_char(s[0]) + escape(s.drop_first())
    }
}

/// The token `key="text"` of a field that holds a text.
pub open spec fn logfmt_token(k: Seq<char>, s: Seq<char>) -> Seq<char> {
    k + seq!['='] + seq!['"'] + escape(s) + seq!['"']
}

pub open spec fn logfmt_tokens(f: Fields) -> Seq<Seq<char>> {
    f.map_values(|e: (Seq<char>, Val)| logfmt_token(e.0, e.1->Str_0))
}

/// The `key=value` line of a record of texts, its fields in the given order.
pub open spec fn logfmt_line(f: Fields) -> Seq<char> {
    join(logfmt_tokens(f), " "@)
}

/// A record whose keys can stand bare and whose values are all texts.
pub open spec fn text_record(f: Fields) -> bool {
    &&& unique_keys(f)
    &&& forall|i: int| 0 <= i < f.len() ==> plain_key(#[trigger] f[i].0) && f[i].1 is Str
}

/// The tokenizer run on from a given state.
pub open spec fn scan_from(st: Scan, s: Seq<char>) -> Scan
    decreases s.len(),
{
    if s.len() == 0 {
        st
    } else {
        scan_step(scan_from(st, s.drop_last()), s.last())
    }
}

proof fn lemma_scan_is_from_start(s: Seq<char>)
    ensures
        scan(s) == scan_from(scan_start(), s),
    decreases s.len(),
{
    if s.len() > 0 {
        lemma_scan_is_from_start(s.drop_last());
    }
}

proof fn lemma_scan_from_concat(st: Scan, a: Seq<char>, b: Seq<char>)
    ensures
        scan_from(st, a + b) == scan_from(scan_from(st, a), b),
    decreases b.len(),
{
    if b.len() == 0 {
        assert(a + b =~= a);
    } else {
        assert((a + b).drop_last() =~= a + b.drop_last());
        assert((a + b).last() == b.last());
        lemma_scan_from_concat(st, a, b.drop_last());
    }
}

proof fn lemma_scan_one(st: Scan, c: char)
    ensures
        scan_from(st, seq![c]) == scan_step(st, c),
{
    assert(seq![c].drop_last() =~= Seq::<char>::empty());
    assert(scan_from(st, Seq::<char>::empty()) == st);
}

/// Outside quotes, characters other than blanks and quotes just extend the token.
proof fn lemma_scan_bare(st: Scan, t: Seq<char>)
    requires
        !st.quoted,
        !st.escaped,
        forall|i: int| 0 <= i < t.len() ==> !is_space(#[trigger] t[i]) && t[i] != '"',
    ensures
        scan_from(st, t) == (Scan { tokens: st.tokens, cur: st.cur + t, quoted: false, escaped: false }),
    decreases t.len(),
{
    if t.len() == 0 {
        assert(st.cur + t =~= st.cur);
    } else {
        lemma_scan_bare(st, t.drop_last());
        assert((st.cur + t.drop_last()).push(t.last()) =~= st.cur + t);
        assert(t.last() == t[t.len() - 1]);
        assert(!is_space(t.last()) && t.last() != '"');
    }
}

/// Inside quotes, an escaped text extends the token and leaves the quote open.
proof fn lemma_scan_escaped(st: Scan, s: Seq<char>)
    requires
        st.quoted,
        !st.escaped,
    ensures
        scan_from(st, escape(s)) == (Scan {
            tokens: st.tokens,
            cur: st.cur + escape(s),
            quoted: true,
            escaped: false,
        }),
    decreases s.len(),
{
    if s.len() == 0 {
        assert(st.cur + escape(s) =~= st.cur);
    } else {
        let c = s[0];
        let e = escape_char(c);
        lemma_scan_from_concat(st, e, escape(s.drop_first()));
        let mid = Scan { tokens: st.tokens, cur: st.cur + e, quoted: true, escaped: false };
        if c == '"' || c == '\\' {
            let b = Scan { tokens: st.tokens, cur: st.cur.push('\\'), quoted: true, escaped: true };
            lemma_scan_one(st, '\\');
            lemma_scan_one(b, c);
            assert(e =~= seq!['\\'] + seq![c]);
            lemma_scan_from_concat(st, seq!['\\'], seq![c]);
            assert(st.cur.push('\\').push(c) =~= st.cur + e);
            assert(scan_from(st, e) == mid);
        } else {
            lemma_scan_one(st, c);
            assert(st.cur.push(c) =~= st.cur + e);
            assert(scan_from(st, e) == mid);
        }
        lemma_scan_escaped(mid, s.drop_first());
        assert(st.cur + e + escape(s.drop_first()) =~= st.cur + escape(s));
    }
}

/// A whole token, read from between tokens, becomes the token being read.
proof fn lemma_scan_token(st: Scan, k: Seq<char>, s: Seq<char>)
    requires
        !st.quoted,
        !st.escaped,
        plain_key(k),
    ensures
        scan_from(st, logfmt_token(k, s)) == (Scan {
            tokens: st.tokens,
            cur: st.cur + logfmt_token(k, s),
            quoted: false,
            escaped: false,
        }),
{
    let head = k + seq!['='];
    let q = seq!['"'];
    assert forall|i: int| 0 <= i < head.len() implies !is_space(#[trigger] head[i]) && head[i] != '"' by {
        if i < k.len() {
            assert(head[i] == k[i]);
        }
    }
    lemma_scan_bare(st, head);
    let s1 = Scan { tokens: st.tokens, cur: st.cur + head, quoted: false, escaped: false };
    lemma_scan_one(s1, '"');
    let s2 = Scan { tokens: st.tokens, cur: st.cur + head + q, quoted: true, escaped: false };
    assert((st.cur + head).push('"') =~= st.cur + head + q);
    assert(scan_from(s1, q) == s2);
    lemma_scan_escaped(s2, s);
    let s3 = Scan { tokens: st.tokens, cur: st.cur + head + q + escape(s), quoted: true, escaped: false };
    assert(scan_from(s2, escape(s)) == s3);
    lemma_scan_one(s3, '"');
    assert((st.cur + head + q + escape(s)).push('"') =~= st.cur + logfmt_token(k, s));
    assert(logfmt_token(k, s) =~= head + q + escape(s) + q);
    lemma_scan_from_concat(st, head, q);
    lemma_scan_from_concat(st, head + q, escape(s));
    lemma_scan_from_concat(st, head + q + escape(s), q);
}

/// After the first `n` tokens of a record's line, the last of them is still being read.
proof fn lemma_scan_line(f: Fields, n: int)
    requires
        text_record(f),
        1 <= n <= f.len(),
    ensures
        scan(join(logfmt_tokens(f).take(n), " "@)) == (Scan {
            tokens: logfmt_tokens(f).take(n - 1),
            cur: logfmt_tokens(f)[n - 1],
            quoted: false,
            escaped: false,
        }),
    decreases n,
{
    let ts = logfmt_tokens(f);
    let tok = ts[n - 1];
    assert(tok == logfmt_token(f[n - 1].0, f[n - 1].1->Str_0));
    assert(plain_key(f[n - 1].0));
    if n == 1 {
        assert(ts.take(1) =~= seq![tok]);
        lemma_scan_is_from_start(tok);
        lemma_scan_token(scan_start(), f[0].0, f[0].1->Str_0);
        assert(Seq::<char>::empty() + tok =~= tok);
        assert(ts.take(0) =~= Seq::<Seq<char>>::empty());
    } else {
        lemma_scan_line(f, n - 1);
        let prev = join(ts.take(n - 1), " "@);
        assert(ts.take(n).drop_last() =~= ts.take(n - 1));
        assert(join(ts.take(n), " "@) == prev + " "@ + tok);
        let st = scan(prev);
        let p = ts[n - 2];
        assert(p == logfmt_token(f[n - 2].0, f[n - 2].1->Str_0));
        assert(p.len() > 0);
        reveal_strlit(" ");
        assert(" "@ =~= seq![' ']);
        lemma_scan_one(st, ' ');
        let after = Scan { tokens: ts.take(n - 2).push(p), cur: Seq::empty(), quoted: false, escaped: false };
        assert(scan_from(st, " "@) == after);
        assert(ts.take(n - 2).push(p) =~= ts.take(n - 1));
        lemma_scan_token(after, f[n - 1].0, f[n - 1].1->Str_0);
        assert(Seq::<char>::empty() + tok =~= tok);
        lemma_scan_is_from_start(prev + " "@ + tok);
        lemma_scan_is_from_start(prev);
        lemma_scan_from_concat(scan_start(), prev, " "@);
        lemma_scan_from_concat(scan_start(), prev + " "@, tok);
    }
}

proof fn lemma_unescape_escape(s: Seq<char>)
    ensures
        unescape(escape(s)) == s,
    decreases s.len(),
{
    if s.len() > 0 {
        let c = s[0];
        let rest = escape(s.drop_first());
        lemma_unescape_escape(s.drop_first());
        let e = escape(s);
        assert(e == escape_char(c) + rest);
        if c == '"' || c == '\\' {
            assert(e.skip(2) =~= rest);
        } else {
            assert(e.skip(1) =~= rest);
        }
        assert(s =~= seq![c] + s.drop_first());
    }
}

/// A field's token splits into its key and its quoted text, which reads back as the text.
proof fn lemma_token_reads_back(k: Seq<char>, s: Seq<char>)
    requires
        plain_key(k),
    ensures
        split_token(logfmt_token(k, s)) is Some,
        (split_token(logfmt_token(k, s))->0).0 == k,
        token_value((split_token(logfmt_token(k, s))->0).1) == Val::Str(s),
{
    let t = logfmt_token(k, s);
    let n = k.len() as int;
    assert(t[n] == '=');
    assert forall|j: int| 0 <= j < n implies t[j] != '=' by {
        assert(t[j] == k[j]);
    }
    assert(is_first_eq(t, n));
    assert forall|i: int| is_first_eq(t, i) implies i == n by {
        if i < n {
            assert(t[i] == k[i]);
        }
    }
    assert(t.take(n) =~= k);
    let raw = t.skip(n + 1);
    assert(raw =~= seq!['"'] + escape(s) + seq!['"']);
    assert(is_quoted(raw));
    assert(raw.subrange(1, raw.len() - 1) =~= escape(s));
    lemma_unescape_escape(s);
}

proof fn lemma_pairs_of_record(f: Fields, n: int)
    requires
        text_record(f),
        0 <= n <= f.len(),
    ensures
        pairs_of(logfmt_tokens(f).take(n)) == Some(f.take(n)),
    decreases n,
{
    let ts = logfmt_tokens(f);
    if n == 0 {
        assert(ts.take(0) =~= Seq::<Seq<char>>::empty());
        assert(f.take(0) =~= Seq::<(Seq<char>, Val)>::empty());
    } else {
        lemma_pairs_of_record(f, n - 1);
        assert(ts.take(n).drop_last() =~= ts.take(n - 1));
        assert(plain_key(f[n - 1].0));
        lemma_token_reads_back(f[n - 1].0, f[n - 1].1->Str_0);
        assert(f.take(n) =~= f.take(n - 1).push(f[n - 1]));
    }
}

proof fn lemma_fields_of_record(f: Fields, n: int)
    requires
        unique_keys(f),
        0 <= n <= f.len(),
    ensures
        fields_of(f.take(n)) == f.take(n),
    decreases n,
{
    if n == 0 {
        assert(f.take(0) =~= Seq::<(Seq<char>, Val)>::empty());
    } else {
        lemma_fields_of_record(f, n - 1);
        assert(f.take(n).drop_last() =~= f.take(n - 1));
        assert(!has_key(f.take(n - 1), f[n - 1].0));
        assert(f.take(n) =~= f.take(n - 1).push((f[n - 1].0, f[n - 1].1)));
    }
}

/// The `key=value` line of a record of texts reads back as that record.
pub proof fn law_logfmt_reads_back(f: Fields)
    requires
        text_record(f),
    ensures
        logfmt_parse(logfmt_line(f)) == Some(Val::Obj(f)),
{
    let ts = logfmt_tokens(f);
    let line = logfmt_line(f);
    assert(ts.take(f.len() as int) =~= ts);
    assert(f.take(f.len() as int) =~= f);
    lemma_pairs_of_record(f, f.len() as int);
    lemma_fields_of_record(f, f.len() as int);
    if f.len() == 0 {
        assert(line =~= Seq::<char>::empty());
        assert(ts =~= Seq::<Seq<char>>::empty());
    } else {
        lemma_scan_line(f, f.len() as int);
        let last = ts[f.len() - 1];
        assert(last == logfmt_token(f[f.len() - 1].0, f[f.len() - 1].1->Str_0));
        assert(last.len() > 0);
        assert(ts.take(f.len() - 1).push(last) =~= ts);
        assert(tokens_of(line) == Some(ts));
    }
}

/// A record of texts written as a `key=value` line renders exactly as the
/// same record read from JSON, whatever order the JSON object lists it in.
pub proof fn law_logfmt_renders_as_json(f: Fields, g: Fields, cfg: Cfg)
    requires
        text_record(f),
        unique_keys(g),
        f.to_set() == g.to_set(),
    ensures
        logfmt_parse(logfmt_line(f)) is Some,
        render(logfmt_parse(logfmt_line(f))->0, 0, cfg) == render(Val::Obj(g), 0, cfg),
{
    law_logfmt_reads_back(f);
    crate::laws::law_render_ignores_field_order(f, g, 0, cfg);
}

} // verus!
