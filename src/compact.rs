use vstd::prelude::*;
use crate::json::{json_quote, quote_json};
use crate::order::{all_first, is_first_at, distinct_keys, keys_at, kept_keys, sort_by_key};
use crate::render::{
    compact, compact_fields, compact_items, compact_members, key_set,
    lemma_compact_fields, lemma_compact_items, lemma_first_index,
};
use crate::text::{join_with, lemma_sorted_texts, sorted_texts, texts};
use crate::value::{LogValue, lemma_view_fields, lemma_view_items, view_fields, view_items};

verus! {

/// `"key":value` for each key in increasing order, from the compact value of each field.
fn json_members(fields: &Vec<(String, LogValue)>, cv: &Vec<String>) -> (r: Vec<String>)
    requires
        cv.len() == fields.len(),
    ensures
        texts(r@) == compact_members(view_fields(fields@), texts(cv@)),
{
    let ghost f = view_fields(fields@);
    proof {
        lemma_view_fields(fields@);
    }
    let none: Vec<usize> = Vec::new();
    let kept = distinct_keys(fields, &none);
    let order = sort_by_key(fields, &kept);
    proof {
        assert(kept_keys(f, none@) =~= key_set(f));
        lemma_sorted_texts(keys_at(f, order@));
    }
    let mut r: Vec<String> = Vec::new();
    for j in 0..order.len()
        invariant
            f == view_fields(fields@),
            f.len() == fields.len(),
            cv.len() == fields.len(),
            forall|t: int| 0 <= t < fields.len() ==> #[trigger] f[t] == (fields[t].0@, fields[t].1@),
            forall|t: int| 0 <= t < order.len() ==> order[t] < fields.len(),
            r.len() == j,
            forall|t: int|
                0 <= t < j ==> #[trigger] r[t]@ == json_quote(f[order[t] as int].0) + ":"@ + cv[order[t] as int]@,
    {
        let i = order[j];
        let mut m = quote_json(fields[i].0.as_str());
        m.append(":");
        m.append(cv[i].as_str());
        r.push(m);
    }
    proof {
        let ks = sorted_texts(key_set(f));
        assert(ks == keys_at(f, order@));
        assert forall|t: int| 0 <= t < r.len() implies #[trigger] texts(r@)[t] == compact_members(
            f,
            texts(cv@),
        )[t] by {
            assert(all_first(f, order@));
            assert(is_first_at(f, order@, t));
            lemma_first_index(f, f[order[t] as int].0, order[t] as int);
        }
        assert(texts(r@) =~= compact_members(f, texts(cv@)));
    }
    r
}

fn json_items(items: &Vec<LogValue>) -> (r: Vec<String>)
    ensures
        texts(r@) == compact_items(view_items(items@)),
    decreases items,
{
    proof {
        lemma_view_items(items@);
        lemma_compact_items(view_items(items@));
    }
    let mut r: Vec<String> = Vec::new();
    for i in 0..items.len()
        invariant
            r.len() == i,
            forall|t: int| 0 <= t < i ==> #[trigger] r[t]@ == compact(items[t]@),
    {
        let s = items[i].to_json();
        r.push(s);
    }
    proof {
        assert(texts(r@) =~= compact_items(view_items(items@)));
    }
    r
}

fn json_fields(fields: &Vec<(String, LogValue)>) -> (r: Vec<String>)
    ensures
        r.len() == fields.len(),
        texts(r@) == compact_fields(view_fields(fields@)),
    decreases fields,
{
    proof {
        lemma_view_fields(fields@);
        lemma_compact_fields(view_fields(fields@));
    }
    let mut r: Vec<String> = Vec::new();
    for i in 0..fields.len()
        invariant
            r.len() == i,
            forall|t: int| 0 <= t < i ==> #[trigger] r[t]@ == compact(fields[t].1@),
    {
        let s = fields[i].1.to_json();
        r.push(s);
    }
    proof {
        assert(texts(r@) =~= compact_fields(view_fields(fields@)));
    }
    r
}

impl LogValue {
    /// Compact JSON text of the value, object keys in increasing order.
    pub fn to_json(&self) -> (r: String)
        ensures
            r@ == compact(self@),
        decreases self,
    {
        match self {
            LogValue::Null => String::from_str("null"),
            LogValue::Bool(b) => if *b {
                String::from_str("true")
            } else {
                String::from_str("false")
            },
            LogValue::Number(t) => t.clone(),
            LogValue::String(s) => quote_json(s.as_str()),
            LogValue::Array(items) => {
                let parts = json_items(items);
                let mut r = String::from_str("[");
                let inner = join_with(&parts, ",");
                r.append(inner.as_str());
                r.append("]");
                r
            },
            LogValue::Object(fields) => {
                let cv = json_fields(fields);
                let members = json_members(fields, &cv);
                let mut r = String::from_str("{");
                let inner = join_with(&members, ",");
                r.append(inner.as_str());
                r.append("}");
                r
            },
        }
    }
}

} // verus!
