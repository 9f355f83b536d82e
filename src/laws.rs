use vstd::prelude::*;
use vstd::set_lib::lemma_set_empty_equivalency_len;
use crate::order::lemma_insert_sorted;
use crate::render::{
    Cfg, Fields, assemble, classify, compact, compact_fields, compact_members, first_index,
    has_key, is_first, key_set, lemma_compact_fields, lemma_has_first, lemma_render_fields,
    level_text, lookup, message_key, ordinary_set, promoted, render,
    render_fields, segments, field_part, timestamp_key, timestamp_part, message_part, level_part,
    field_segment, paint_key, paint_value,
};
use crate::text::{
    concat, trim_last, lemma_text_lt_total, lemma_text_lt_transitive, sorted_texts, strictly_sorted, text_lt,
};
use crate::value::Val;

verus! {

/// Where a key not in an increasing sequence goes to keep it increasing.
proof fn lemma_insert_point(s: Seq<Seq<char>>, x: Seq<char>) -> (p: int)
    requires
        strictly_sorted(s),
        !s.contains(x),
    ensures
        0 <= p <= s.len(),
        forall|q: int| 0 <= q < p ==> text_lt(#[trigger] s[q], x),
        forall|q: int| p <= q < s.len() ==> text_lt(x, #[trigger] s[q]),
    decreases s.len(),
{
    if s.len() == 0 {
        0
    } else if text_lt(s.last(), x) {
        assert forall|q: int| 0 <= q < s.len() implies text_lt(#[trigger] s[q], x) by {
            if q < s.len() - 1 {
                lemma_text_lt_transitive(s[q], s.last(), x);
            }
        }
        s.len() as int
    } else {
        assert(s.last() != x);
        lemma_text_lt_total(s.last(), x);
        let t = s.drop_last();
        assert(!t.contains(x)) by {
            if t.contains(x) {
                let q = choose|q: int| 0 <= q < t.len() && t[q] == x;
                assert(s[q] == x);
            }
        }
        let p = lemma_insert_point(t, x);
        assert forall|q: int| 0 <= q < p implies text_lt(#[trigger] s[q], x) by {
            assert(s[q] == t[q]);
        }
        assert forall|q: int| p <= q < s.len() implies text_lt(x, #[trigger] s[q]) by {
            if q < s.len() - 1 {
                assert(s[q] == t[q]);
            }
        }
        p
    }
}

/// Every finite set of keys has its increasing sequence.
pub proof fn lemma_sorted_texts_exists(ks: Set<Seq<char>>)
    requires
        ks.finite(),
    ensures
        strictly_sorted(sorted_texts(ks)),
        sorted_texts(ks).to_set() == ks,
    decreases ks.len(),
{
    if ks.len() == 0 {
        lemma_set_empty_equivalency_len(ks);
        let e = Seq::<Seq<char>>::empty();
        assert(e.to_set() =~= ks);
        assert(strictly_sorted(e));
    } else {
        let x = ks.choose();
        let rest = ks.remove(x);
        lemma_sorted_texts_exists(rest);
        let s = sorted_texts(rest);
        assert(!s.contains(x)) by {
            if s.contains(x) {
                assert(s.to_set().contains(x));
            }
        }
        let p = lemma_insert_point(s, x);
        lemma_insert_sorted(s, p, x);
        let t = s.insert(p, x);
        assert forall|y: Seq<char>| #[trigger] t.to_set().contains(y) <==> ks.contains(y) by {
            if t.contains(y) {
                let q = choose|q: int| 0 <= q < t.len() && t[q] == y;
                if q != p {
                    let u = if q < p { q } else { q - 1 };
                    assert(s[u] == y);
                    assert(s.to_set().contains(y));
                }
            }
            if ks.contains(y) {
                if y == x {
                    assert(t[p] == y);
                } else {
                    assert(rest.contains(y));
                    assert(s.to_set().contains(y));
                    let q = choose|q: int| 0 <= q < s.len() && s[q] == y;
                    let u = if q < p { q } else { q + 1 };
                    assert(t[u] == y);
                }
            }
        }
        assert(t.to_set() =~= ks);
    }
}

pub proof fn lemma_key_set_finite(f: Fields)
    ensures
        key_set(f).finite(),
{
    let ks = f.map_values(|e: (Seq<char>, Val)| e.0);
    assert forall|k: Seq<char>| #[trigger] key_set(f).contains(k) implies ks.to_set().contains(k) by {
        let i = choose|i: int| 0 <= i < f.len() && f[i].0 == k;
        assert(ks[i] == k);
    }
    assert(key_set(f).subset_of(ks.to_set()));
    vstd::set_lib::lemma_set_subset_finite(ks.to_set(), key_set(f));
}

/// The ordinary keys are increasing and are exactly the keys left after promotion.
pub proof fn law_ordinary_keys_sorted(f: Fields, cfg: Cfg)
    ensures
        strictly_sorted(classify(f, cfg).ordinary),
        classify(f, cfg).ordinary.to_set() == ordinary_set(f, cfg),
{
    lemma_key_set_finite(f);
    assert(ordinary_set(f, cfg).subset_of(key_set(f)));
    vstd::set_lib::lemma_set_subset_finite(key_set(f), ordinary_set(f, cfg));
    lemma_sorted_texts_exists(ordinary_set(f, cfg));
}

/// Two field lists that give every key the same value.
pub open spec fn same_lookups(f1: Fields, f2: Fields) -> bool {
    forall|k: Seq<char>| #[trigger] lookup(f1, k) == lookup(f2, k)
}

pub proof fn lemma_has_key_lookup(f: Fields, k: Seq<char>)
    ensures
        has_key(f, k) <==> lookup(f, k) is Some,
{
}

/// Classification reads an object only through the value of each key.
pub proof fn lemma_classify_by_lookup(f1: Fields, f2: Fields, cfg: Cfg)
    requires
        same_lookups(f1, f2),
    ensures
        classify(f1, cfg) == classify(f2, cfg),
{
    assert(lookup(f1, "level"@) == lookup(f2, "level"@));
    assert(lookup(f1, "time"@) == lookup(f2, "time"@));
    assert(lookup(f1, "timestamp"@) == lookup(f2, "timestamp"@));
    assert(lookup(f1, cfg.ts_field) == lookup(f2, cfg.ts_field));
    assert(lookup(f1, "message"@) == lookup(f2, "message"@));
    assert(lookup(f1, "msg"@) == lookup(f2, "msg"@));
    assert(timestamp_key(f1, cfg) == timestamp_key(f2, cfg));
    assert(level_text(f1, cfg) == level_text(f2, cfg));
    assert(message_key(f1, cfg) == message_key(f2, cfg));
    assert forall|k: Seq<char>| #[trigger] ordinary_set(f1, cfg).contains(k) <==> ordinary_set(
        f2,
        cfg,
    ).contains(k) by {
        lemma_has_key_lookup(f1, k);
        lemma_has_key_lookup(f2, k);
        assert(lookup(f1, k) == lookup(f2, k));
    }
    assert(ordinary_set(f1, cfg) =~= ordinary_set(f2, cfg));
}

/// A field list whose entries all carry the value `f` gives their key, and which
/// holds every key of `f`, gives every key the value `f` gives it.
pub proof fn lemma_lookups_from_entries(g: Fields, f: Fields)
    requires
        forall|i: int|
            0 <= i < g.len() ==> has_key(f, #[trigger] g[i].0) && g[i].1 == lookup(f, g[i].0)->0,
        forall|k: Seq<char>| has_key(f, k) ==> #[trigger] has_key(g, k),
    ensures
        same_lookups(g, f),
{
    assert forall|k: Seq<char>| #[trigger] lookup(g, k) == lookup(f, k) by {
        if has_key(g, k) {
            let i = choose|i: int| 0 <= i < g.len() && g[i].0 == k;
            lemma_has_first(g, k, i);
            let j = first_index(g, k);
            assert(has_key(f, g[j].0));
        }
    }
}

pub open spec fn entry(f: Fields, k: Seq<char>) -> (Seq<char>, Val) {
    (k, lookup(f, k)->0)
}

pub open spec fn opt_entry(f: Fields, k: Option<Seq<char>>) -> Fields {
    match k {
        Some(k) => seq![entry(f, k)],
        None => seq![],
    }
}

/// An object's fields in the order a layout shows them: timestamp, level,
/// message, then the ordinary keys in order.
pub open spec fn laid_out(f: Fields, cfg: Cfg) -> Fields {
    let l = classify(f, cfg);
    let level_key = if l.level is Some {
        Some("level"@)
    } else {
        None
    };
    opt_entry(f, l.timestamp) + opt_entry(f, level_key) + opt_entry(f, l.message)
        + l.ordinary.map_values(|k: Seq<char>| entry(f, k))
}

/// Classifying an object again, with its fields laid out as the first
/// classification showed them, gives the same timestamp, level, message and
/// ordinary keys.
pub proof fn law_classify_idempotent(f: Fields, cfg: Cfg)
    ensures
        classify(laid_out(f, cfg), cfg) == classify(f, cfg),
{
    let l = classify(f, cfg);
    let g = laid_out(f, cfg);
    let a = opt_entry(f, l.timestamp);
    let b = opt_entry(f, if l.level is Some { Some("level"@) } else { None });
    let c = opt_entry(f, l.message);
    let d = l.ordinary.map_values(|k: Seq<char>| entry(f, k));
    law_ordinary_keys_sorted(f, cfg);
    assert(g == a + b + c + d);
    assert forall|i: int| 0 <= i < g.len() implies has_key(f, #[trigger] g[i].0) && g[i].1 == lookup(
        f,
        g[i].0,
    )->0 by {
        if i >= a.len() + b.len() + c.len() {
            let q = i - a.len() - b.len() - c.len();
            assert(g[i] == d[q]);
            assert(l.ordinary.to_set().contains(l.ordinary[q]));
        } else if i >= a.len() + b.len() {
            assert(g[i] == c[i - a.len() - b.len()]);
        } else if i >= a.len() {
            assert(g[i] == b[i - a.len()]);
        } else {
            assert(g[i] == a[i]);
        }
    }
    assert forall|k: Seq<char>| has_key(f, k) implies #[trigger] has_key(g, k) by {
        if l.timestamp == Some(k) {
            assert(g[0] == entry(f, k));
        } else if k == "level"@ && l.level is Some {
            assert(g[a.len() as int] == entry(f, k));
        } else if l.message == Some(k) {
            assert(g[(a.len() + b.len()) as int] == entry(f, k));
        } else {
            assert(!promoted(f, cfg, k));
            assert(ordinary_set(f, cfg).contains(k));
            assert(l.ordinary.to_set().contains(k));
            let q = choose|q: int| 0 <= q < l.ordinary.len() && l.ordinary[q] == k;
            assert(g[a.len() + b.len() + c.len() + q] == d[q]);
        }
    }
    lemma_lookups_from_entries(g, f);
    lemma_classify_by_lookup(g, f, cfg);
}

/// The value of a present key, seen through the per-field renderings.
proof fn lemma_rendered_at_first(f: Fields, k: Seq<char>, depth: nat, cfg: Cfg)
    requires
        has_key(f, k),
    ensures
        0 <= first_index(f, k) < f.len(),
        render_fields(f, depth, cfg)[first_index(f, k)] == render(lookup(f, k)->0, depth, cfg),
        compact_fields(f)[first_index(f, k)] == compact(lookup(f, k)->0),
{
    let i = choose|i: int| 0 <= i < f.len() && f[i].0 == k;
    lemma_has_first(f, k, i);
    lemma_render_fields(f, depth, cfg);
    lemma_compact_fields(f);
}

/// Rendering an object, expanded or compact, reads it only through the value
/// of each key: two field lists that give every key the same value render
/// alike, whatever order their fields come in. (Where a key repeats, its first
/// occurrence is its value, so reordering repeated keys can change the line.)
pub proof fn law_render_by_key_values(f1: Fields, f2: Fields, depth: nat, cfg: Cfg)
    requires
        same_lookups(f1, f2),
    ensures
        render(Val::Obj(f1), depth, cfg) == render(Val::Obj(f2), depth, cfg),
{
    lemma_classify_by_lookup(f1, f2, cfg);
    assert(key_set(f1) =~= key_set(f2)) by {
        assert forall|k: Seq<char>| key_set(f1).contains(k) <==> key_set(f2).contains(k) by {
            assert(lookup(f1, k) == lookup(f2, k));
        }
    }
    if depth >= cfg.depth {
        let m1 = compact_members(f1, compact_fields(f1));
        let m2 = compact_members(f2, compact_fields(f2));
        lemma_key_set_finite(f1);
        lemma_sorted_texts_exists(key_set(f1));
        assert forall|t: int| 0 <= t < m1.len() implies m1[t] == m2[t] by {
            let k = sorted_texts(key_set(f1))[t];
            assert(sorted_texts(key_set(f1)).to_set().contains(k));
            assert(lookup(f1, k) == lookup(f2, k));
            lemma_rendered_at_first(f1, k, 0, cfg);
            lemma_rendered_at_first(f2, k, 0, cfg);
        }
        assert(m1 =~= m2);
    } else {
        let r1 = render_fields(f1, depth + 1, cfg);
        let r2 = render_fields(f2, depth + 1, cfg);
        let l = classify(f1, cfg);
        assert(timestamp_part(f1, cfg) == timestamp_part(f2, cfg)) by {
            if l.timestamp is Some {
                assert(lookup(f1, l.timestamp->0) == lookup(f2, l.timestamp->0));
            }
        }
        assert(message_part(f1, cfg) == message_part(f2, cfg)) by {
            if l.message is Some {
                assert(lookup(f1, l.message->0) == lookup(f2, l.message->0));
            }
        }
        let left = field_part(f1, r1, cfg);
        let right = field_part(f2, r2, cfg);
        law_ordinary_keys_sorted(f1, cfg);
        assert forall|t: int| 0 <= t < left.len() implies left[t] == right[t] by {
            let k = l.ordinary[t];
            assert(l.ordinary.to_set().contains(k));
            assert(lookup(f1, k) == lookup(f2, k));
            lemma_rendered_at_first(f1, k, depth + 1, cfg);
            lemma_rendered_at_first(f2, k, depth + 1, cfg);
        }
        assert(left =~= right);
        assert(segments(f1, r1, cfg) == segments(f2, r2, cfg));
    }
}

/// Each key occurs once.
pub open spec fn unique_keys(f: Fields) -> bool {
    forall|i: int, j: int| 0 <= i < f.len() && 0 <= j < f.len() && i != j ==> f[i].0 != f[j].0
}

/// The order in which an object's fields were read does not change its line:
/// two lists of the same fields, each key once, render alike at every depth,
/// and the ordinary keys come out in increasing order.
pub proof fn law_render_ignores_field_order(f1: Fields, f2: Fields, depth: nat, cfg: Cfg)
    requires
        unique_keys(f1),
        unique_keys(f2),
        f1.to_set() == f2.to_set(),
    ensures
        render(Val::Obj(f1), depth, cfg) == render(Val::Obj(f2), depth, cfg),
        strictly_sorted(classify(f1, cfg).ordinary),
{
    assert forall|k: Seq<char>| #[trigger] lookup(f1, k) == lookup(f2, k) by {
        lemma_same_entries_lookup(f1, f2, k);
        lemma_same_entries_lookup(f2, f1, k);
    }
    law_render_by_key_values(f1, f2, depth, cfg);
    law_ordinary_keys_sorted(f1, cfg);
}

proof fn lemma_same_entries_lookup(f1: Fields, f2: Fields, k: Seq<char>)
    requires
        unique_keys(f2),
        f1.to_set() == f2.to_set(),
    ensures
        has_key(f1, k) ==> lookup(f1, k) == lookup(f2, k),
{
    if has_key(f1, k) {
        let i0 = choose|i: int| 0 <= i < f1.len() && f1[i].0 == k;
        lemma_has_first(f1, k, i0);
        let i = first_index(f1, k);
        assert(f1.to_set().contains(f1[i]));
        assert(f2.to_set().contains(f1[i]));
        let j = choose|j: int| 0 <= j < f2.len() && f2[j] == f1[i];
        assert(is_first(f2, k, j));
        crate::render::lemma_first_index(f2, k, j);
    }
}

/// The depth boundary, for a field of a top-level object whose value is an
/// object `g`: at depth 1 it shows as compact JSON; at depth 2 its own fields
/// expand as `key=value`, and their values in turn show as compact JSON.
pub proof fn law_depth_boundary(f: Fields, i: int, g: Fields, cfg: Cfg)
    requires
        0 <= i < f.len(),
        f[i].1 == Val::Obj(g),
    ensures
        cfg.depth == 1 ==> render_fields(f, 1, cfg)[i] == compact(Val::Obj(g)),
        cfg.depth == 2 ==> render_fields(f, 1, cfg)[i] == assemble(g, render_fields(g, 2, cfg), cfg),
        cfg.depth == 2 ==> forall|j: int|
            0 <= j < g.len() ==> #[trigger] render_fields(g, 2, cfg)[j] == compact(g[j].1),
{
    lemma_render_fields(f, 1, cfg);
    lemma_render_fields(g, 2, cfg);
}

proof fn lemma_concat_split(parts: Seq<Seq<char>>, t: int)
    requires
        0 <= t < parts.len(),
    ensures
        concat(parts) == concat(parts.take(t)) + parts[t] + concat(parts.skip(t + 1)),
    decreases parts.len(),
{
    if t == parts.len() - 1 {
        assert(parts.take(t) =~= parts.drop_last());
        assert(parts.skip(t + 1) =~= Seq::<Seq<char>>::empty());
        assert(concat(parts.take(t)) + parts[t] + Seq::<char>::empty() =~= concat(parts));
    } else {
        let d = parts.drop_last();
        lemma_concat_split(d, t);
        assert(d.take(t) =~= parts.take(t));
        assert(d.skip(t + 1) =~= parts.skip(t + 1).drop_last());
        assert(parts.skip(t + 1).last() == parts.last());
        assert(concat(parts.take(t)) + parts[t] + concat(d.skip(t + 1)) + parts.last()
            =~= concat(parts.take(t)) + parts[t] + concat(parts.skip(t + 1)));
    }
}

/// The depth boundary on the line itself: at depth 1, an ordinary field `k` of
/// a top-level object whose value is an object `g` shows on the line as the
/// key, `=`, and `g` as compact JSON, none of `g`'s own fields expanded.
pub proof fn law_nested_object_shown_compact(f: Fields, k: Seq<char>, g: Fields, cfg: Cfg)
    requires
        cfg.depth == 1,
        ordinary_set(f, cfg).contains(k),
        lookup(f, k) == Some(Val::Obj(g)),
    ensures
        ({
            let line = render(Val::Obj(f), 0, cfg);
            let shown = paint_key(cfg, k) + "="@ + paint_value(cfg, compact(Val::Obj(g)));
            exists|i: int|
                0 <= i && i + shown.len() <= line.len() && #[trigger] line.subrange(
                    i,
                    i + shown.len(),
                ) == shown
        }),
{
    let rv = render_fields(f, 1, cfg);
    let segs = segments(f, rv, cfg);
    let line = render(Val::Obj(f), 0, cfg);
    let shown = paint_key(cfg, k) + "="@ + paint_value(cfg, compact(Val::Obj(g)));
    law_ordinary_keys_sorted(f, cfg);
    let ord = classify(f, cfg).ordinary;
    assert(ord.to_set().contains(k));
    let q = choose|q: int| 0 <= q < ord.len() && ord[q] == k;
    lemma_rendered_at_first(f, k, 1, cfg);
    let head = timestamp_part(f, cfg) + level_part(f, cfg) + message_part(f, cfg);
    let t = head.len() + q;
    assert(segs[t] == field_part(f, rv, cfg)[q]);
    assert(segs[t] == field_segment(cfg, k, compact(Val::Obj(g))));
    reveal_strlit(" ");
    assert(segs[t] =~= shown + " "@);
    assert(segs[t].len() == shown.len() + 1);
    lemma_concat_split(segs, t);
    let a = concat(segs.take(t));
    let whole = concat(segs);
    assert(line == trim_last(whole));
    assert(whole.len() >= a.len() + shown.len() + 1);
    assert(line.subrange(a.len() as int, (a.len() + shown.len()) as int) =~= shown);
}

} // verus!
