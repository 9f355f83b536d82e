use vstd::prelude::*;
use crate::render::{Fields, first_index, has_key, is_first, lemma_first_index, lemma_has_first};
use crate::text::{
    lemma_text_lt_total,
    lemma_text_lt_transitive, strictly_sorted, text_eq, text_less, text_lt,
};
use crate::value::{LogValue, lemma_view_fields, view_fields};

verus! {

/// The keys of the fields at the given positions.
pub open spec fn keys_at(f: Fields, idx: Seq<usize>) -> Seq<Seq<char>> {
    idx.map_values(|i: usize| f[i as int].0)
}

/// Each position is the first occurrence of its key.
pub open spec fn all_first(f: Fields, idx: Seq<usize>) -> bool {
    forall|j: int| 0 <= j < idx.len() ==> is_first(f, f[idx[j] as int].0, #[trigger] idx[j] as int)
}

/// The `t`-th position is the first occurrence of its key.
pub open spec fn is_first_at(f: Fields, idx: Seq<usize>, t: int) -> bool {
    is_first(f, f[idx[t] as int].0, idx[t] as int)
}

/// The keys that occur, save those whose first occurrence is skipped.
pub open spec fn kept_keys(f: Fields, skip: Seq<usize>) -> Set<Seq<char>> {
    Set::new(|k: Seq<char>| has_key(f, k) && !skip.contains(first_index(f, k) as usize))
}

/// The first field with the key, if any.
pub fn find_field(fields: &Vec<(String, LogValue)>, key: &str) -> (r: Option<usize>)
    ensures
        match r {
            Some(i) => is_first(view_fields(fields@), key@, i as int) && first_index(
                view_fields(fields@),
                key@,
            ) == i,
            None => !has_key(view_fields(fields@), key@) && first_index(view_fields(fields@), key@)
                == -1,
        },
{
    let ghost f = view_fields(fields@);
    proof {
        lemma_view_fields(fields@);
    }
    let mut i: usize = 0;
    while i < fields.len()
        invariant
            i <= fields.len(),
            f == view_fields(fields@),
            f.len() == fields.len(),
            forall|j: int| 0 <= j < fields.len() ==> #[trigger] f[j] == (fields[j].0@, fields[j].1@),
            forall|j: int| 0 <= j < i ==> f[j].0 != key@,
        decreases fields.len() - i,
    {
        if text_eq(fields[i].0.as_str(), key) {
            proof {
                lemma_first_index(f, key@, i as int);
            }
            return Some(i);
        }
        i = i + 1;
    }
    None
}

/// Two first occurrences with the same key are the same position.
pub proof fn lemma_first_same(f: Fields, a: int, b: int)
    requires
        is_first(f, f[a].0, a),
        is_first(f, f[b].0, b),
        f[a].0 == f[b].0,
    ensures
        a == b,
{
    lemma_first_index(f, f[a].0, a);
    lemma_first_index(f, f[b].0, b);
}

/// The first occurrences, in order, of the keys whose first occurrence is not in `skip`.
pub fn distinct_keys(fields: &Vec<(String, LogValue)>, skip: &Vec<usize>) -> (r: Vec<usize>)
    ensures
        forall|j: int| 0 <= j < r.len() ==> r[j] < fields.len(),
        all_first(view_fields(fields@), r@),
        forall|a: int, b: int| 0 <= a < b < r.len() ==> r[a] < r[b],
        keys_at(view_fields(fields@), r@).to_set() == kept_keys(view_fields(fields@), skip@),
{
    let ghost f = view_fields(fields@);
    proof {
        lemma_view_fields(fields@);
    }
    let mut r: Vec<usize> = Vec::new();
    let mut i: usize = 0;
    while i < fields.len()
        invariant
            i <= fields.len(),
            f == view_fields(fields@),
            f.len() == fields.len(),
            forall|j: int| 0 <= j < fields.len() ==> #[trigger] f[j] == (fields[j].0@, fields[j].1@),
            forall|j: int| 0 <= j < r.len() ==> r[j] < i,
            all_first(f, r@),
            forall|a: int, b: int| 0 <= a < b < r.len() ==> r[a] < r[b],
            keys_at(f, r@).to_set() == Set::new(
                |k: Seq<char>|
                    (exists|j: int| 0 <= j < i && f[j].0 == k) && !skip@.contains(
                        first_index(f, k) as usize,
                    ),
            ),
        decreases fields.len() - i,
    {
        let ghost k = f[i as int].0;
        let ghost before = keys_at(f, r@).to_set();
        let found = find_field(fields, fields[i].0.as_str());
        let mut skipped = false;
        let mut s: usize = 0;
        while s < skip.len()
            invariant
                s <= skip.len(),
                skipped == (exists|t: int| 0 <= t < s && skip[t] == i),
            decreases skip.len() - s,
        {
            if skip[s] == i {
                skipped = true;
            }
            s = s + 1;
        }
        proof {
            lemma_has_first(f, k, i as int);
        }
        let ghost r0 = r@;
        if found == Some(i) && !skipped {
            r.push(i);
            assert(keys_at(f, r@) =~= keys_at(f, r0).push(k));
        }
        proof {
            let after = Set::new(
                |x: Seq<char>|
                    (exists|j: int| 0 <= j < i + 1 && f[j].0 == x) && !skip@.contains(
                        first_index(f, x) as usize,
                    ),
            );
            assert forall|x: Seq<char>| #[trigger] after.contains(x) implies keys_at(
                f,
                r@,
            ).to_set().contains(x) by {
                let j = choose|j: int| 0 <= j < i + 1 && f[j].0 == x;
                if j == i {
                    let fi = first_index(f, x);
                    if found == Some(i) {
                        assert(fi == i);
                        assert(skip@.contains(i) == skipped);
                        assert(keys_at(f, r@)[r.len() - 1] == x);
                        assert(keys_at(f, r@).contains(x));
                    } else {
                        assert(fi < i);
                        assert(0 <= fi < i && f[fi].0 == x);
                        assert(before.contains(x));
                    }
                } else {
                    assert(0 <= j < i && f[j].0 == x);
                    assert(before.contains(x));
                    assert(keys_at(f, r0).contains(x));
                    let t = choose|t: int| 0 <= t < r0.len() && keys_at(f, r0)[t] == x;
                    assert(keys_at(f, r@)[t] == x);
                }
            }
            assert forall|x: Seq<char>| #[trigger] keys_at(f, r@).to_set().contains(x) implies after.contains(
                x,
            ) by {
                let j = choose|j: int| 0 <= j < r.len() && keys_at(f, r@)[j] == x;
                if j < r.len() - 1 || !(found == Some(i) && !skipped) {
                    assert(keys_at(f, r@)[j] == x);
                    assert(before.contains(x));
                } else {
                    assert(skip@.contains(i) == skipped);
                }
            }
            assert(keys_at(f, r@).to_set() =~= after);
        }
        i = i + 1;
    }
    proof {
        assert(keys_at(f, r@).to_set() =~= kept_keys(f, skip@));
    }
    r
}

/// Inserting a key between the smaller and the larger ones keeps a sequence increasing.
pub proof fn lemma_insert_sorted(s: Seq<Seq<char>>, p: int, k: Seq<char>)
    requires
        strictly_sorted(s),
        0 <= p <= s.len(),
        forall|q: int| 0 <= q < p ==> text_lt(#[trigger] s[q], k),
        forall|q: int| p <= q < s.len() ==> text_lt(k, #[trigger] s[q]),
    ensures
        strictly_sorted(s.insert(p, k)),
{
    let t = s.insert(p, k);
    assert forall|a: int, b: int| 0 <= a < b < t.len() implies text_lt(#[trigger] t[a], #[trigger] t[b]) by {
        if b < p {
            assert(t[a] == s[a] && t[b] == s[b]);
        } else if b == p {
            assert(t[a] == s[a]);
        } else if a < p {
            assert(t[a] == s[a] && t[b] == s[b - 1]);
        } else if a == p {
            assert(t[b] == s[b - 1]);
        } else {
            assert(t[a] == s[a - 1] && t[b] == s[b - 1]);
        }
    }
}

/// The positions reordered so that their keys increase.
pub fn sort_by_key(fields: &Vec<(String, LogValue)>, pick: &Vec<usize>) -> (r: Vec<usize>)
    requires
        forall|j: int| 0 <= j < pick.len() ==> pick[j] < fields.len(),
        all_first(view_fields(fields@), pick@),
        forall|a: int, b: int| 0 <= a < b < pick.len() ==> pick[a] < pick[b],
    ensures
        forall|j: int| 0 <= j < r.len() ==> r[j] < fields.len(),
        all_first(view_fields(fields@), r@),
        strictly_sorted(keys_at(view_fields(fields@), r@)),
        keys_at(view_fields(fields@), r@).to_set() == keys_at(view_fields(fields@), pick@).to_set(),
{
    let ghost f = view_fields(fields@);
    proof {
        lemma_view_fields(fields@);
    }
    let mut r: Vec<usize> = Vec::new();
    let mut n: usize = 0;
    while n < pick.len()
        invariant
            n <= pick.len(),
            f == view_fields(fields@),
            f.len() == fields.len(),
            forall|j: int| 0 <= j < fields.len() ==> #[trigger] f[j] == (fields[j].0@, fields[j].1@),
            forall|j: int| 0 <= j < pick.len() ==> pick[j] < fields.len(),
            all_first(f, pick@),
            forall|a: int, b: int| 0 <= a < b < pick.len() ==> pick[a] < pick[b],
            forall|j: int| 0 <= j < r.len() ==> r[j] < fields.len(),
            all_first(f, r@),
            strictly_sorted(keys_at(f, r@)),
            keys_at(f, r@).to_set() == keys_at(f, pick@.take(n as int)).to_set(),
        decreases pick.len() - n,
    {
        let x = pick[n];
        let key = fields[x].0.as_str();
        let ghost ks = keys_at(f, r@);
        let mut p: usize = 0;
        while p < r.len() && text_less(fields[r[p]].0.as_str(), key)
            invariant
                p <= r.len(),
                ks == keys_at(f, r@),
                forall|j: int| 0 <= j < r.len() ==> r[j] < fields.len(),
                forall|j: int| 0 <= j < fields.len() ==> #[trigger] f[j] == (fields[j].0@, fields[j].1@),
                key@ == f[x as int].0,
                forall|q: int| 0 <= q < p ==> text_lt(#[trigger] ks[q], key@),
            decreases r.len() - p,
        {
            p = p + 1;
        }
        proof {
            // the new key is none of those placed so far
            assert forall|q: int| 0 <= q < ks.len() implies #[trigger] ks[q] != key@ by {
                assert(keys_at(f, r@).to_set().contains(ks[q]));
                assert(keys_at(f, pick@.take(n as int)).contains(ks[q]));
                let t = choose|t: int| 0 <= t < n && keys_at(f, pick@.take(n as int))[t] == ks[q];
                assert(pick@.take(n as int)[t] == pick[t]);
                if ks[q] == key@ {
                    lemma_first_same(f, pick[t] as int, x as int);
                }
            }
            if p < ks.len() {
                lemma_text_lt_total(ks[p as int], key@);
                assert forall|q: int| p <= q < ks.len() implies text_lt(key@, #[trigger] ks[q]) by {
                    if q > p {
                        lemma_text_lt_transitive(key@, ks[p as int], ks[q]);
                    }
                }
            }
            lemma_insert_sorted(ks, p as int, key@);
        }
        r.insert(p, x);
        proof {
            assert(keys_at(f, r@) =~= ks.insert(p as int, key@));
            assert(pick@.take(n + 1) =~= pick@.take(n as int).push(x));
            assert(keys_at(f, pick@.take(n + 1)) =~= keys_at(f, pick@.take(n as int)).push(key@));
            let kn = keys_at(f, pick@.take(n + 1));
            assert forall|y: Seq<char>| #[trigger] keys_at(f, r@).to_set().contains(y) <==> keys_at(
                f,
                pick@.take(n + 1),
            ).to_set().contains(y) by {
                if keys_at(f, r@).contains(y) {
                    let t = choose|t: int| 0 <= t < r.len() && keys_at(f, r@)[t] == y;
                    if t != p {
                        let u = if t < p { t } else { t - 1 };
                        assert(ks[u] == y);
                        assert(ks.to_set().contains(y));
                        assert(keys_at(f, pick@.take(n as int)).contains(y));
                        let w = choose|w: int| 0 <= w < n && keys_at(f, pick@.take(n as int))[w] == y;
                        assert(keys_at(f, pick@.take(n + 1))[w] == y);
                    } else {
                        assert(keys_at(f, pick@.take(n + 1))[n as int] == y);
                    }
                }
                if keys_at(f, pick@.take(n + 1)).contains(y) {
                    let w = choose|w: int| 0 <= w <= n && kn[w] == y;
                    if w < n {
                        assert(keys_at(f, pick@.take(n as int))[w] == y);
                        assert(ks.to_set().contains(y));
                        let t = choose|t: int| 0 <= t < ks.len() && ks[t] == y;
                        let u = if t < p { t } else { t + 1 };
                        assert(keys_at(f, r@)[u] == y);
                    } else {
                        assert(keys_at(f, r@)[p as int] == y);
                    }
                }
            }
            assert(keys_at(f, r@).to_set() =~= keys_at(f, pick@.take(n + 1)).to_set());
        }
        n = n + 1;
    }
    assert(pick@.take(n as int) =~= pick@);
    r
}

} // verus!
