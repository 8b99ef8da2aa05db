//! Category frequency maps: counting distinct trimmed values.
use crate::histogram::{lemma_shares_sum, lemma_sum_update, normalize, shares};
use crate::model::{entry_keys, entry_probs, ints_u64, keys_unique, sum_of, CategoricalStats, PROB_ONE};
use crate::table::MAX_ROWS;
use crate::text::{trim_str, trimmed, views};
use vstd::prelude::*;

verus! {

/// The trimmed, non-empty fields, in order.
pub open spec fn category_values(cells: Seq<Seq<char>>) -> Seq<Seq<char>>
    decreases cells.len(),
{
    if cells.len() == 0 {
        Seq::empty()
    } else {
        let rest = category_values(cells.drop_last());
        let t = trimmed(cells.last());
        if t.len() == 0 {
            rest
        } else {
            rest.push(t)
        }
    }
}

/// How often `key` occurs in `vals`.
pub open spec fn occurrences(vals: Seq<Seq<char>>, key: Seq<char>) -> nat
    decreases vals.len(),
{
    if vals.len() == 0 {
        0
    } else {
        occurrences(vals.drop_last(), key) + if vals.last() == key {
            1nat
        } else {
            0nat
        }
    }
}

/// The distinct values, in order of first occurrence.
pub open spec fn distinct(vals: Seq<Seq<char>>) -> Seq<Seq<char>>
    decreases vals.len(),
{
    if vals.len() == 0 {
        Seq::empty()
    } else {
        let d = distinct(vals.drop_last());
        if d.contains(vals.last()) {
            d
        } else {
            d.push(vals.last())
        }
    }
}

pub open spec fn key_counts(keys: Seq<Seq<char>>, vals: Seq<Seq<char>>) -> Seq<int> {
    keys.map_values(|k: Seq<char>| occurrences(vals, k) as int)
}

/// The frequency map of the fields: each distinct trimmed non-empty value,
/// in order of first occurrence, with its count over the number of such
/// values.
pub open spec fn category_frequencies(cells: Seq<Seq<char>>) -> (Seq<Seq<char>>, Seq<int>) {
    let vs = category_values(cells);
    let keys = distinct(vs);
    (keys, shares(key_counts(keys, vs), vs.len() as int))
}

pub proof fn lemma_distinct_contains(vals: Seq<Seq<char>>, k: Seq<char>)
    ensures
        distinct(vals).contains(k) <==> vals.contains(k),
    decreases vals.len(),
{
    if vals.len() > 0 {
        let s = vals.drop_last();
        lemma_distinct_contains(s, k);
        if s.contains(k) {
            let i = choose|i: int| 0 <= i < s.len() && s[i] == k;
            assert(vals[i] == k);
        }
        if vals.contains(k) && k != vals.last() {
            let i = choose|i: int| 0 <= i < vals.len() && vals[i] == k;
            assert(s[i] == k);
        }
        if k == vals.last() {
            assert(vals[vals.len() - 1] == k);
            let d = distinct(s);
            if !d.contains(k) {
                assert(d.push(k)[d.len() as int] == k);
            }
        } else {
            let d = distinct(s);
            if !d.contains(vals.last()) {
                if d.push(vals.last()).contains(k) {
                    let i = choose|i: int| 0 <= i < d.len() + 1 && d.push(vals.last())[i] == k;
                    assert(d[i] == k);
                }
                if d.contains(k) {
                    let i = choose|i: int| 0 <= i < d.len() && d[i] == k;
                    assert(d.push(vals.last())[i] == k);
                }
            }
        }
    }
}

pub proof fn lemma_distinct_unique(vals: Seq<Seq<char>>)
    ensures
        keys_unique(distinct(vals)),
        distinct(vals).len() <= vals.len(),
    decreases vals.len(),
{
    if vals.len() > 0 {
        lemma_distinct_unique(vals.drop_last());
    }
}

pub proof fn lemma_occurrences_absent(vals: Seq<Seq<char>>, k: Seq<char>)
    requires
        !vals.contains(k),
    ensures
        occurrences(vals, k) == 0,
    decreases vals.len(),
{
    if vals.len() > 0 {
        let s = vals.drop_last();
        if s.contains(k) {
            let i = choose|i: int| 0 <= i < s.len() && s[i] == k;
            assert(vals[i] == k);
        }
        assert(vals[vals.len() - 1] == vals.last());
        lemma_occurrences_absent(s, k);
    }
}

/// The counts of the distinct values add up to the number of values.
pub proof fn lemma_key_counts_sum(vals: Seq<Seq<char>>)
    ensures
        sum_of(key_counts(distinct(vals), vals)) == vals.len(),
    decreases vals.len(),
{
    if vals.len() == 0 {
        assert(key_counts(distinct(vals), vals).len() == 0);
    } else {
        let s = vals.drop_last();
        let x = vals.last();
        lemma_key_counts_sum(s);
        let d = distinct(s);
        let before = key_counts(d, s);
        lemma_distinct_unique(s);
        if d.contains(x) {
            let j = choose|j: int| 0 <= j < d.len() && d[j] == x;
            lemma_sum_update(before, j, before[j] + 1);
            assert(key_counts(distinct(vals), vals) =~= before.update(j, before[j] + 1));
        } else {
            lemma_distinct_contains(s, x);
            lemma_occurrences_absent(s, x);
            assert(key_counts(distinct(vals), vals).drop_last() =~= before);
        }
    }
}

/// Index of `key` among `keys`.
fn find_key(keys: &Vec<String>, key: &String) -> (r: Option<usize>)
    ensures
        match r {
            Some(j) => j < keys.len() && keys[j as int]@ == key@,
            None => !views(keys@).contains(key@),
        },
{
    let mut j: usize = 0;
    while j < keys.len()
        invariant
            j <= keys.len(),
            forall|t: int| 0 <= t < j ==> keys[t]@ != key@,
        decreases keys.len() - j,
    {
        if keys[j] == *key {
            return Some(j);
        }
        j = j + 1;
    }
    proof {
        if views(keys@).contains(key@) {
            let t = choose|t: int| 0 <= t < keys.len() && views(keys@)[t] == key@;
            assert(keys[t]@ == key@);
        }
    }
    None
}

/// The frequency map of the fields.
pub fn frequencies_of(cells: &Vec<String>) -> (r: CategoricalStats)
    requires
        cells.len() <= MAX_ROWS,
    ensures
        (entry_keys(r.frequencies@), entry_probs(r.frequencies@)) == category_frequencies(views(cells@)),
        r.wf(),
{
    let ghost cs = views(cells@);
    let mut keys: Vec<String> = Vec::new();
    let mut counts: Vec<u64> = Vec::new();
    let mut total: u64 = 0;
    let mut i: usize = 0;
    while i < cells.len()
        invariant
            i <= cells.len() <= MAX_ROWS,
            cs == views(cells@),
            views(keys@) == distinct(category_values(cs.take(i as int))),
            ints_u64(counts@) == key_counts(views(keys@), category_values(cs.take(i as int))),
            total == category_values(cs.take(i as int)).len(),
            total <= i,
            counts.len() == keys.len(),
            forall|j: int| 0 <= j < counts.len() ==> #[trigger] counts[j] <= total,
        decreases cells.len() - i,
    {
        let ghost prev = category_values(cs.take(i as int));
        assert(cs.take(i + 1).drop_last() == cs.take(i as int));
        assert(cs.take(i + 1).last() == cells[i as int]@);
        let t = trim_str(cells[i].as_str());
        if !t.is_empty() {
            let key = t.to_owned();
            let ghost now = prev.push(key@);
            assert(category_values(cs.take(i + 1)) == now);
            assert(now.drop_last() == prev);
            match find_key(&keys, &key) {
                Some(j) => {
                    let ghost cb = counts@;
                    let c = counts[j];
                    counts.set(j, c + 1);
                    proof {
                        lemma_distinct_contains(prev, key@);
                        lemma_distinct_unique(prev);
                        let ks = views(keys@);
                        assert(ks[j as int] == key@);
                        assert(distinct(now) == distinct(prev));
                        assert forall|t: int| 0 <= t < counts.len() implies #[trigger] ints_u64(counts@)[t]
                            == key_counts(ks, now)[t] by {
                            assert(occurrences(now, ks[t]) == occurrences(prev, ks[t]) + if now.last() == ks[t] {
                                1nat
                            } else {
                                0nat
                            });
                            assert(ints_u64(cb)[t] == key_counts(ks, prev)[t]);
                            if t != j {
                                assert(ks[t] != ks[j as int]);
                            }
                        }
                        assert(ints_u64(counts@) =~= key_counts(views(keys@), now));
                    }
                },
                None => {
                    let ghost kb = keys@;
                    let ghost cb = counts@;
                    keys.push(key);
                    counts.push(1);
                    proof {
                        let ks = views(keys@);
                        assert(ks =~= views(kb).push(now.last()));
                        lemma_distinct_contains(prev, now.last());
                        lemma_occurrences_absent(prev, now.last());
                        assert forall|t: int| 0 <= t < counts.len() implies #[trigger] ints_u64(counts@)[t]
                            == key_counts(ks, now)[t] by {
                            assert(occurrences(now, ks[t]) == occurrences(prev, ks[t]) + if now.last() == ks[t] {
                                1nat
                            } else {
                                0nat
                            });
                            if t < kb.len() {
                                assert(ints_u64(cb)[t] == key_counts(views(kb), prev)[t]);
                                assert(ks[t] == views(kb)[t]);
                                assert(views(kb).contains(ks[t]));
                            }
                        }
                        assert(ints_u64(counts@) =~= key_counts(views(keys@), now));
                    }
                },
            }
            total = total + 1;
        }
        i = i + 1;
    }
    assert(cs.take(i as int) == cs);
    let ghost vs = category_values(cs);
    let mut frequencies: Vec<(String, u64)> = Vec::new();
    if total > 0 {
        let probs = normalize(&counts, total);
        let mut j: usize = 0;
        while j < keys.len()
            invariant
                j <= keys.len(),
                keys.len() == probs.len(),
                frequencies.len() == j,
                forall|t: int| 0 <= t < j ==> (#[trigger] frequencies[t]).0@ == keys[t]@ && frequencies[t].1 == probs[t],
            decreases keys.len() - j,
        {
            frequencies.push((keys[j].clone(), probs[j]));
            j = j + 1;
        }
        proof {
            assert(entry_keys(frequencies@) =~= views(keys@));
            assert(entry_probs(frequencies@) =~= ints_u64(probs@));
        }
    } else {
        assert(vs.len() == 0);
        assert(entry_keys(frequencies@) =~= views(keys@));
        assert(entry_probs(frequencies@) =~= shares(key_counts(views(keys@), vs), vs.len() as int));
    }
    proof {
        lemma_distinct_unique(vs);
        let c = key_counts(distinct(vs), vs);
        if total > 0 {
            lemma_key_counts_sum(vs);
            lemma_shares_sum(c, vs.len() as int);
        }
        let ps = entry_probs(frequencies@);
        assert forall|t: int| 0 <= t < ps.len() implies 0 <= #[trigger] ps[t] <= PROB_ONE by {
            assert(ps[t] == frequencies[t].1 as int);
        }
        if total == 0 {
            assert(ps.len() == 0);
        }
    }
    CategoricalStats { frequencies }
}

} // verus!

verus! {

pub proof fn lemma_category_values_len(cells: Seq<Seq<char>>)
    ensures
        category_values(cells).len() <= cells.len(),
    decreases cells.len(),
{
    if cells.len() > 0 {
        lemma_category_values_len(cells.drop_last());
    }
}

} // verus!
