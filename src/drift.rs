//! The drift scorer: incoming values mapped onto the baseline's own bins or
//! categories, compared by total-variation distance.
use crate::baseline::{collect_values, parsed_values};
use crate::categories::{category_frequencies, frequencies_of, lemma_distinct_unique};
use crate::histogram::{bin_counts, histogram, lemma_bin_counts_sum, lemma_shares_sum, normalize};
use crate::model::{
    entry_keys, entry_probs, ints_i128, ints_u64, keys_unique, sum_of, CategoricalStats,
    FeatureStats, FeatureStatsData, NumericStats, VALUE_BOUND, PROB_ONE,
};
use crate::table::MAX_ROWS;
use crate::text::views;
use vstd::prelude::*;

verus! {

pub open spec fn abs(x: int) -> int {
    if x < 0 {
        -x
    } else {
        x
    }
}

/// `sum |p[i] - q[i]|` over the indices of `p`.
pub open spec fn l1_distance(p: Seq<int>, q: Seq<int>) -> int
    decreases p.len(),
{
    if p.len() == 0 {
        0
    } else {
        l1_distance(p.drop_last(), q) + abs(p.last() - q[p.len() - 1])
    }
}

/// Drift of incoming fields against a histogram: the fields' numeric values
/// binned on the baseline's range and bin count, then half the L1 distance of
/// the two probability vectors; 0 when no field is numeric.
pub open spec fn numeric_drift(bins: Seq<int>, probs: Seq<int>, cells: Seq<Seq<char>>) -> int {
    let vals = parsed_values(cells);
    if vals.len() == 0 || bins.len() < 2 {
        0
    } else {
        l1_distance(probs, histogram(vals, bins[0], bins.last(), probs.len())) / 2
    }
}

/// The probability that a frequency map gives `key`, 0 where it has none.
pub open spec fn freq_lookup(keys: Seq<Seq<char>>, probs: Seq<int>, key: Seq<char>) -> int
    decreases keys.len(),
{
    if keys.len() == 0 {
        0
    } else if keys.last() == key {
        probs[keys.len() - 1]
    } else {
        freq_lookup(keys.drop_last(), probs, key)
    }
}

/// `sum |p(k) - q(k)|` over the baseline categories `k`.
pub open spec fn shared_part(keys: Seq<Seq<char>>, probs: Seq<int>, ik: Seq<Seq<char>>, ip: Seq<int>) -> int
    decreases keys.len(),
{
    if keys.len() == 0 {
        0
    } else {
        shared_part(keys.drop_last(), probs, ik, ip) + abs(probs[keys.len() - 1] - freq_lookup(ik, ip, keys.last()))
    }
}

/// `sum q(k)` over the incoming categories `k` that the baseline lacks.
pub open spec fn new_part(ik: Seq<Seq<char>>, ip: Seq<int>, keys: Seq<Seq<char>>) -> int
    decreases ik.len(),
{
    if ik.len() == 0 {
        0
    } else {
        new_part(ik.drop_last(), ip, keys) + if keys.contains(ik.last()) {
            0
        } else {
            ip[ik.len() - 1]
        }
    }
}

/// Drift of incoming fields against a frequency map: half the L1 distance
/// over the union of baseline and incoming categories, an absent category
/// counting as probability 0; 0 when no field is non-blank.
pub open spec fn categorical_drift(keys: Seq<Seq<char>>, probs: Seq<int>, cells: Seq<Seq<char>>) -> int {
    let (ik, ip) = category_frequencies(cells);
    if ik.len() == 0 {
        0
    } else {
        (shared_part(keys, probs, ik, ip) + new_part(ik, ip, keys)) / 2
    }
}

pub proof fn lemma_l1_bound(p: Seq<int>, q: Seq<int>)
    requires
        q.len() == p.len(),
        forall|i: int| 0 <= i < p.len() ==> p[i] >= 0,
        forall|i: int| 0 <= i < q.len() ==> q[i] >= 0,
    ensures
        0 <= l1_distance(p, q) <= sum_of(p) + sum_of(q),
    decreases p.len(),
{
    if p.len() > 0 {
        lemma_l1_bound(p.drop_last(), q.drop_last());
        lemma_l1_prefix(p.drop_last(), q);
    }
}

proof fn lemma_l1_prefix(p: Seq<int>, q: Seq<int>)
    requires
        p.len() < q.len(),
    ensures
        l1_distance(p, q) == l1_distance(p, q.drop_last()),
    decreases p.len(),
{
    if p.len() > 0 {
        lemma_l1_prefix(p.drop_last(), q);
    }
}

/// Drift of incoming raw fields against a baseline histogram, in units of
/// `1 / PROB_ONE`.
pub fn compute_numeric_drift(baseline: &NumericStats, incoming_values: &Vec<String>) -> (r: u64)
    requires
        baseline.wf(),
        incoming_values.len() <= MAX_ROWS,
    ensures
        r == numeric_drift(ints_i128(baseline.bins@), ints_u64(baseline.probabilities@), views(incoming_values@)),
        r <= PROB_ONE,
{
    let vals = collect_values(incoming_values);
    let ghost vs = ints_i128(vals@);
    let ghost p = ints_u64(baseline.probabilities@);
    if vals.len() == 0 {
        return 0;
    }
    let k = baseline.probabilities.len();
    let lo = baseline.bins[0];
    let hi = baseline.bins[baseline.bins.len() - 1];
    proof {
        assert(ints_i128(baseline.bins@)[0] == lo);
        assert(ints_i128(baseline.bins@)[baseline.bins.len() - 1] == hi);
        assert forall|i: int| 0 <= i < vals.len() implies -crate::model::EDGE_BOUND < #[trigger] vals[i]
            < crate::model::EDGE_BOUND by {}
    }
    let counts = bin_counts(&vals, lo, hi, k);
    let q = normalize(&counts, vals.len() as u64);
    let ghost qs = ints_u64(q@);
    proof {
        let c = crate::histogram::bin_counts_of(vs, lo as int, hi as int, k as nat);
        lemma_bin_counts_sum(vs, lo as int, hi as int, k as nat);
        lemma_shares_sum(c, vs.len() as int);
        assert(qs == histogram(vs, lo as int, hi as int, k as nat));
    }
    let mut total: u128 = 0;
    let mut i: usize = 0;
    while i < k
        invariant
            i <= k == baseline.probabilities.len() == q.len(),
            p == ints_u64(baseline.probabilities@),
            qs == ints_u64(q@),
            baseline.wf(),
            forall|j: int| 0 <= j < q.len() ==> #[trigger] q[j] <= PROB_ONE,
            total == l1_distance(p.take(i as int), qs),
            total <= i * 2 * PROB_ONE,
        decreases k - i,
    {
        let a = baseline.probabilities[i];
        let b = q[i];
        proof {
            assert(p.take(i + 1).drop_last() == p.take(i as int));
            assert(p.take(i + 1).last() == a);
            assert(qs[i as int] == b);
            assert(p[i as int] == a);
            assert(i * 2 * PROB_ONE <= 1_000_000 * 2 * PROB_ONE) by (nonlinear_arith)
                requires i <= 1_000_000;
        }
        let d: u64 = if a >= b { a - b } else { b - a };
        total = total + d as u128;
        assert((i + 1) * 2 * PROB_ONE == i * 2 * PROB_ONE + 2 * PROB_ONE) by (nonlinear_arith);
        i = i + 1;
    }
    proof {
        assert(p.take(i as int) == p);
        assert forall|j: int| 0 <= j < p.len() implies p[j] >= 0 by {}
        assert forall|j: int| 0 <= j < qs.len() implies qs[j] >= 0 by {}
        lemma_l1_bound(p, qs);
    }
    (total / 2) as u64
}

} // verus!

verus! {

/// `sum q(k)` over the baseline categories `k`.
pub open spec fn looked_up_sum(keys: Seq<Seq<char>>, ik: Seq<Seq<char>>, ip: Seq<int>) -> int
    decreases keys.len(),
{
    if keys.len() == 0 {
        0
    } else {
        looked_up_sum(keys.drop_last(), ik, ip) + freq_lookup(ik, ip, keys.last())
    }
}

proof fn lemma_lookup_nonneg(ik: Seq<Seq<char>>, ip: Seq<int>, key: Seq<char>)
    requires
        ik.len() <= ip.len(),
        forall|i: int| 0 <= i < ip.len() ==> ip[i] >= 0,
    ensures
        freq_lookup(ik, ip, key) >= 0,
    decreases ik.len(),
{
    if ik.len() > 0 {
        lemma_lookup_nonneg(ik.drop_last(), ip, key);
    }
}

proof fn lemma_looked_up_empty(keys: Seq<Seq<char>>, ik: Seq<Seq<char>>, ip: Seq<int>)
    requires
        ik.len() == 0,
    ensures
        looked_up_sum(keys, ik, ip) == 0,
    decreases keys.len(),
{
    if keys.len() > 0 {
        lemma_looked_up_empty(keys.drop_last(), ik, ip);
    }
}

proof fn lemma_looked_up_step(keys: Seq<Seq<char>>, ik: Seq<Seq<char>>, ip: Seq<int>)
    requires
        ik.len() > 0,
        keys_unique(keys),
        keys_unique(ik),
    ensures
        looked_up_sum(keys, ik, ip) == looked_up_sum(keys, ik.drop_last(), ip) + if keys.contains(ik.last()) {
            ip[ik.len() - 1]
        } else {
            0
        },
    decreases keys.len(),
{
    if keys.len() > 0 {
        let kd = keys.drop_last();
        let b = keys.last();
        let x = ik.last();
        assert(keys_unique(kd)) by {
            assert forall|i: int, j: int| 0 <= i < kd.len() && 0 <= j < kd.len() && i != j implies kd[i] != kd[j] by {
                assert(kd[i] == keys[i] && kd[j] == keys[j]);
            }
        }
        lemma_looked_up_step(kd, ik, ip);
        let n = ik.len() as int;
        assert(freq_lookup(ik, ip, b) == if x == b {
            ip[n - 1]
        } else {
            freq_lookup(ik.drop_last(), ip, b)
        });
        assert(looked_up_sum(keys, ik, ip) == looked_up_sum(kd, ik, ip) + freq_lookup(ik, ip, b));
        assert(looked_up_sum(keys, ik.drop_last(), ip) == looked_up_sum(kd, ik.drop_last(), ip) + freq_lookup(ik.drop_last(), ip, b));
        if kd.contains(x) {
            let i = choose|i: int| 0 <= i < kd.len() && kd[i] == x;
            assert(keys[i] == x);
        }
        if keys.contains(x) && b != x {
            let i = choose|i: int| 0 <= i < keys.len() && keys[i] == x;
            assert(kd[i] == x);
        }
        if b == x {
            lemma_unique_prefix(ik);
            lemma_lookup_absent(ik.drop_last(), ip, x);
            assert(keys[keys.len() - 1] == x);
            if kd.contains(x) {
                let i = choose|i: int| 0 <= i < kd.len() && kd[i] == x;
                assert(keys[i] == keys[keys.len() - 1]);
            }
        }
    }
}

/// Dropping the last key keeps keys distinct, and the last key is not among the others.
pub proof fn lemma_unique_prefix(keys: Seq<Seq<char>>)
    requires
        keys.len() > 0,
        keys_unique(keys),
    ensures
        keys_unique(keys.drop_last()),
        !keys.drop_last().contains(keys.last()),
{
    let kd = keys.drop_last();
    assert forall|i: int, j: int| 0 <= i < kd.len() && 0 <= j < kd.len() && i != j implies kd[i] != kd[j] by {
        assert(kd[i] == keys[i] && kd[j] == keys[j]);
    }
    if kd.contains(keys.last()) {
        let i = choose|i: int| 0 <= i < kd.len() && kd[i] == keys.last();
        assert(keys[i] == keys[keys.len() - 1]);
    }
}

pub proof fn lemma_lookup_absent(ik: Seq<Seq<char>>, ip: Seq<int>, key: Seq<char>)
    requires
        !ik.contains(key),
    ensures
        freq_lookup(ik, ip, key) == 0,
    decreases ik.len(),
{
    if ik.len() > 0 {
        if ik.drop_last().contains(key) {
            let i = choose|i: int| 0 <= i < ik.len() - 1 && ik.drop_last()[i] == key;
            assert(ik[i] == key);
        }
        assert(ik[ik.len() - 1] == ik.last());
        lemma_lookup_absent(ik.drop_last(), ip, key);
    }
}

proof fn lemma_looked_up_total(keys: Seq<Seq<char>>, ik: Seq<Seq<char>>, ip: Seq<int>)
    requires
        keys_unique(keys),
        keys_unique(ik),
        ik.len() <= ip.len(),
    ensures
        looked_up_sum(keys, ik, ip) + new_part(ik, ip, keys) == sum_of(ip.take(ik.len() as int)),
    decreases ik.len(),
{
    if ik.len() == 0 {
        lemma_looked_up_empty(keys, ik, ip);
        assert(ip.take(0).len() == 0);
    } else {
        lemma_looked_up_step(keys, ik, ip);
        lemma_unique_prefix(ik);
        lemma_looked_up_total(keys, ik.drop_last(), ip);
        assert(ip.take(ik.len() as int).drop_last() == ip.take(ik.len() - 1));
    }
}

proof fn lemma_shared_bound(keys: Seq<Seq<char>>, probs: Seq<int>, ik: Seq<Seq<char>>, ip: Seq<int>)
    requires
        keys.len() <= probs.len(),
        ik.len() <= ip.len(),
        forall|i: int| 0 <= i < probs.len() ==> probs[i] >= 0,
        forall|i: int| 0 <= i < ip.len() ==> ip[i] >= 0,
    ensures
        0 <= shared_part(keys, probs, ik, ip) <= sum_of(probs.take(keys.len() as int)) + looked_up_sum(keys, ik, ip),
    decreases keys.len(),
{
    if keys.len() > 0 {
        lemma_shared_bound(keys.drop_last(), probs, ik, ip);
        lemma_lookup_nonneg(ik, ip, keys.last());
        assert(probs.take(keys.len() as int).drop_last() == probs.take(keys.len() - 1));
    }
}

/// The probability of `key` in a frequency map, 0 where it has none.
fn lookup_frequency(entries: &Vec<(String, u64)>, key: &String) -> (r: u64)
    ensures
        r == freq_lookup(entry_keys(entries@), entry_probs(entries@), key@),
{
    let ghost ks = entry_keys(entries@);
    let ghost ps = entry_probs(entries@);
    let mut j: usize = entries.len();
    assert(ks.take(j as int) == ks);
    while j > 0
        invariant
            j <= entries.len(),
            ks == entry_keys(entries@),
            ps == entry_probs(entries@),
            freq_lookup(ks, ps, key@) == freq_lookup(ks.take(j as int), ps, key@),
        decreases j,
    {
        let ghost t = ks.take(j as int);
        assert(t.drop_last() == ks.take(j - 1));
        assert(t.last() == entries[j - 1].0@);
        if entries[j - 1].0 == *key {
            return entries[j - 1].1;
        }
        j = j - 1;
    }
    0
}

/// Whether a frequency map has `key`.
fn has_key(entries: &Vec<(String, u64)>, key: &String) -> (r: bool)
    ensures
        r == entry_keys(entries@).contains(key@),
{
    let ghost ks = entry_keys(entries@);
    let mut j: usize = 0;
    while j < entries.len()
        invariant
            j <= entries.len(),
            ks == entry_keys(entries@),
            forall|t: int| 0 <= t < j ==> ks[t] != key@,
        decreases entries.len() - j,
    {
        if entries[j].0 == *key {
            assert(ks[j as int] == key@);
            return true;
        }
        j = j + 1;
    }
    false
}

/// Drift of incoming raw fields against a baseline frequency map, in units
/// of `1 / PROB_ONE`.
pub fn compute_categorical_drift(baseline: &CategoricalStats, incoming_values: &Vec<String>) -> (r: u64)
    requires
        baseline.wf(),
        incoming_values.len() <= MAX_ROWS,
    ensures
        r == categorical_drift(entry_keys(baseline.frequencies@), entry_probs(baseline.frequencies@), views(incoming_values@)),
        r <= PROB_ONE,
{
    let ghost keys = entry_keys(baseline.frequencies@);
    let ghost probs = entry_probs(baseline.frequencies@);
    let incoming = frequencies_of(incoming_values);
    let ghost ik = entry_keys(incoming.frequencies@);
    let ghost ip = entry_probs(incoming.frequencies@);
    if incoming.frequencies.len() == 0 {
        return 0;
    }
    let mut total: u128 = 0;
    let mut i: usize = 0;
    while i < baseline.frequencies.len()
        invariant
            i <= baseline.frequencies.len() <= MAX_ROWS,
            keys == entry_keys(baseline.frequencies@),
            probs == entry_probs(baseline.frequencies@),
            ik == entry_keys(incoming.frequencies@),
            ip == entry_probs(incoming.frequencies@),
            baseline.wf(),
            incoming.wf(),
            total == shared_part(keys.take(i as int), probs, ik, ip),
            total <= i * PROB_ONE,
        decreases baseline.frequencies.len() - i,
    {
        let p = baseline.frequencies[i].1;
        let q = lookup_frequency(&incoming.frequencies, &baseline.frequencies[i].0);
        proof {
            assert(keys.take(i + 1).drop_last() == keys.take(i as int));
            assert(keys.take(i + 1).last() == baseline.frequencies[i as int].0@);
            assert(probs[i as int] == p);
            assert(ip.len() == ik.len());
            assert forall|t: int| 0 <= t < ip.len() implies ip[t] >= 0 by {}
            lemma_lookup_nonneg(ik, ip, keys[i as int]);
            crate::drift::lemma_lookup_at_most_one(ik, ip, keys[i as int]);
            assert(i * PROB_ONE <= 1_000_000_000 * PROB_ONE) by (nonlinear_arith)
                requires i <= 1_000_000_000;
        }
        let d: u64 = if p >= q { p - q } else { q - p };
        total = total + d as u128;
        assert((i + 1) * PROB_ONE == i * PROB_ONE + PROB_ONE) by (nonlinear_arith);
        i = i + 1;
    }
    assert(keys.take(i as int) == keys);
    let ghost shared = total;
    let mut j: usize = 0;
    while j < incoming.frequencies.len()
        invariant
            j <= incoming.frequencies.len() <= MAX_ROWS,
            keys == entry_keys(baseline.frequencies@),
            ik == entry_keys(incoming.frequencies@),
            ip == entry_probs(incoming.frequencies@),
            incoming.wf(),
            shared <= 1_000_000_000 * PROB_ONE,
            total == shared + new_part(ik.take(j as int), ip, keys),
            total <= shared + j * PROB_ONE,
        decreases incoming.frequencies.len() - j,
    {
        proof {
            assert(ik.take(j + 1).drop_last() == ik.take(j as int));
            assert(ik.take(j + 1).last() == incoming.frequencies[j as int].0@);
            assert(ip[j as int] == incoming.frequencies[j as int].1);
            assert(j * PROB_ONE <= 1_000_000_000 * PROB_ONE) by (nonlinear_arith)
                requires j <= 1_000_000_000;
        }
        if !has_key(&baseline.frequencies, &incoming.frequencies[j].0) {
            total = total + incoming.frequencies[j].1 as u128;
        }
        assert((j + 1) * PROB_ONE == j * PROB_ONE + PROB_ONE) by (nonlinear_arith);
        j = j + 1;
    }
    proof {
        assert(ik.take(j as int) == ik);
        assert forall|t: int| 0 <= t < probs.len() implies probs[t] >= 0 by {}
        assert forall|t: int| 0 <= t < ip.len() implies ip[t] >= 0 by {}
        lemma_shared_bound(keys, probs, ik, ip);
        lemma_looked_up_total(keys, ik, ip);
        assert(probs.take(keys.len() as int) == probs);
        assert(ip.take(ik.len() as int) == ip);
    }
    (total / 2) as u64
}

proof fn lemma_lookup_at_most_one(ik: Seq<Seq<char>>, ip: Seq<int>, key: Seq<char>)
    requires
        ik.len() <= ip.len(),
        forall|i: int| 0 <= i < ip.len() ==> 0 <= #[trigger] ip[i] <= PROB_ONE,
    ensures
        0 <= freq_lookup(ik, ip, key) <= PROB_ONE,
    decreases ik.len(),
{
    if ik.len() > 0 {
        lemma_lookup_at_most_one(ik.drop_last(), ip, key);
    }
}

/// Drift of incoming raw fields against a feature's baseline distribution.
pub fn compute_feature_drift(baseline_stats: &FeatureStats, incoming_values: &Vec<String>) -> (r: u64)
    requires
        baseline_stats.wf(),
        incoming_values.len() <= MAX_ROWS,
    ensures
        r == feature_drift(baseline_stats.stats.view(), views(incoming_values@)),
        r <= PROB_ONE,
{
    match &baseline_stats.stats {
        FeatureStatsData::Numeric(n) => compute_numeric_drift(n, incoming_values),
        FeatureStatsData::Categorical(c) => compute_categorical_drift(c, incoming_values),
    }
}

/// Drift of incoming fields against a distribution.
pub open spec fn feature_drift(d: crate::model::Distribution, cells: Seq<Seq<char>>) -> int {
    match d {
        crate::model::Distribution::Numeric(b, p) => numeric_drift(b, p, cells),
        crate::model::Distribution::Categorical(k, p) => categorical_drift(k, p, cells),
    }
}

} // verus!

verus! {

/// Units of `1 / PROB_ONE` in one unit of `1 / VALUE_SCALE`.
pub const VALUE_TO_PROB: u128 = 1_000_000_000;

/// `|incoming_rate - baseline_rate|`, from prediction rates in units of
/// `1 / VALUE_SCALE` to a shift in units of `1 / PROB_ONE`.
pub fn compute_prediction_shift(baseline_rate: i128, incoming_rate: i128) -> (r: u128)
    requires
        -VALUE_BOUND <= baseline_rate <= VALUE_BOUND,
        -VALUE_BOUND <= incoming_rate <= VALUE_BOUND,
    ensures
        r == abs(incoming_rate - baseline_rate) * VALUE_TO_PROB,
        r <= 2 * VALUE_BOUND * VALUE_TO_PROB,
{
    let d: u128 = if incoming_rate >= baseline_rate {
        (incoming_rate - baseline_rate) as u128
    } else {
        (baseline_rate - incoming_rate) as u128
    };
    assert(d * VALUE_TO_PROB <= 2 * VALUE_BOUND * VALUE_TO_PROB) by (nonlinear_arith)
        requires d <= 2 * VALUE_BOUND;
    d * VALUE_TO_PROB
}

/// Drift of each baseline feature, the prediction shift (in units of
/// `1 / PROB_ONE`) and the incoming prediction rate (in units of
/// `1 / VALUE_SCALE`).
#[derive(Debug, Clone)]
pub struct DriftResult {
    pub feature_drifts: Vec<(String, u64)>,
    pub prediction_shift: u128,
    pub incoming_prediction_rate: i128,
}

pub open spec fn drift_entries(d: Seq<(String, u64)>) -> Seq<(Seq<char>, int)> {
    d.map_values(|e: (String, u64)| (e.0@, e.1 as int))
}

/// Drift of every baseline feature against the incoming table's column of
/// the same name (0 where the column is absent).
pub open spec fn expected_drifts(features: Seq<FeatureStats>, cols: Seq<Seq<char>>, recs: Seq<Seq<Seq<char>>>) -> Seq<(Seq<char>, int)> {
    features.map_values(|f: FeatureStats| (f.name@, feature_drift(f.stats.view(), crate::table::column_cells(cols, recs, f.name@))))
}

/// Scores an incoming table against a baseline.
pub fn evaluate_drift(baseline: &crate::baseline::BaselineStats, incoming: &crate::table::Table) -> (r: Result<DriftResult, crate::table::DriftError>)
    requires
        baseline.wf(),
        incoming.wf(),
    ensures
        incoming.rows.len() == 0 ==> r == Err::<DriftResult, crate::table::DriftError>(crate::table::DriftError::EmptyInput),
        incoming.rows.len() > 0 ==> (r matches Ok(d) && {
            let rate = crate::baseline::prediction_rate_of(incoming.cols(), incoming.records());
            &&& drift_entries(d.feature_drifts@) == expected_drifts(baseline.features@, incoming.cols(), incoming.records())
            &&& d.incoming_prediction_rate == rate
            &&& d.prediction_shift == abs(rate - baseline.prediction_rate) * VALUE_TO_PROB
            &&& forall|i: int| 0 <= i < d.feature_drifts.len() ==> #[trigger] d.feature_drifts[i].1 <= PROB_ONE
            &&& d.prediction_shift <= 2 * VALUE_BOUND * VALUE_TO_PROB
        }),
{
    if incoming.rows.len() == 0 {
        return Err(crate::table::DriftError::EmptyInput);
    }
    let mut drifts: Vec<(String, u64)> = Vec::new();
    let mut i: usize = 0;
    while i < baseline.features.len()
        invariant
            i <= baseline.features.len(),
            baseline.wf(),
            incoming.wf(),
            drift_entries(drifts@) == expected_drifts(baseline.features@.take(i as int), incoming.cols(), incoming.records()),
            forall|j: int| 0 <= j < drifts.len() ==> #[trigger] drifts[j].1 <= PROB_ONE,
        decreases baseline.features.len() - i,
    {
        let f = &baseline.features[i];
        let values = crate::table::column_values(incoming, &f.name);
        proof {
            crate::baseline::lemma_column_cells_len(incoming.cols(), incoming.records(), f.name@);
        }
        let d = compute_feature_drift(f, &values);
        let ghost before = drifts@;
        drifts.push((f.name.clone(), d));
        assert(drift_entries(drifts@) =~= expected_drifts(baseline.features@.take(i + 1), incoming.cols(), incoming.records())) by {
            assert(baseline.features@.take(i + 1) =~= baseline.features@.take(i as int).push(*f));
            assert(drift_entries(drifts@) =~= drift_entries(before).push((f.name@, d as int)));
        }
        i = i + 1;
    }
    assert(baseline.features@.take(i as int) == baseline.features@);
    let rate = crate::baseline::compute_prediction_rate(incoming);
    let shift = compute_prediction_shift(baseline.prediction_rate, rate);
    Ok(DriftResult { feature_drifts: drifts, prediction_shift: shift, incoming_prediction_rate: rate })
}

} // verus!

verus! {

proof fn lemma_l1_equal(p: Seq<int>, q: Seq<int>)
    requires
        p.len() <= q.len(),
        forall|i: int| 0 <= i < p.len() ==> p[i] == q[i],
    ensures
        l1_distance(p, q) == 0,
    decreases p.len(),
{
    if p.len() > 0 {
        lemma_l1_equal(p.drop_last(), q);
    }
}

proof fn lemma_min_max(s: Seq<int>)
    requires
        s.len() > 0,
    ensures
        forall|i: int| 0 <= i < s.len() ==> crate::baseline::seq_min(s) <= #[trigger] s[i] <= crate::baseline::seq_max(s),
    decreases s.len(),
{
    if s.len() > 1 {
        lemma_min_max(s.drop_last());
        assert forall|i: int| 0 <= i < s.len() implies crate::baseline::seq_min(s) <= #[trigger] s[i] <= crate::baseline::seq_max(s) by {
            if i < s.len() - 1 {
                assert(s[i] == s.drop_last()[i]);
            }
        }
    }
}

proof fn lemma_bin_count_same(vals: Seq<int>, lo: int, hi: int, lo2: int, hi2: int, k: nat, b: int)
    requires
        forall|i: int| 0 <= i < vals.len() ==> crate::histogram::bin_index(#[trigger] vals[i], lo, hi, k)
            == crate::histogram::bin_index(vals[i], lo2, hi2, k),
    ensures
        crate::histogram::bin_count(vals, lo, hi, k, b) == crate::histogram::bin_count(vals, lo2, hi2, k, b),
    decreases vals.len(),
{
    if vals.len() > 0 {
        let d = vals.drop_last();
        assert forall|i: int| 0 <= i < d.len() implies crate::histogram::bin_index(#[trigger] d[i], lo, hi, k)
            == crate::histogram::bin_index(d[i], lo2, hi2, k) by {
            assert(d[i] == vals[i]);
        }
        lemma_bin_count_same(d, lo, hi, lo2, hi2, k, b);
        assert(vals.last() == vals[vals.len() - 1]);
    }
}

/// Scoring a column against the histogram built from that same column gives
/// a drift of 0.
pub proof fn lemma_numeric_self_drift(cells: Seq<Seq<char>>)
    ensures
        numeric_drift(
            crate::baseline::numeric_baseline(parsed_values(cells)).0,
            crate::baseline::numeric_baseline(parsed_values(cells)).1,
            cells,
        ) == 0,
{
    let vals = parsed_values(cells);
    if vals.len() > 0 {
        let lo = crate::baseline::seq_min(vals);
        let hi = crate::baseline::seq_max(vals);
        let bins = crate::baseline::numeric_edges(lo, hi);
        let probs = histogram(vals, lo, hi, 10);
        lemma_min_max(vals);
        assert(lo <= vals[0] <= hi);
        assert(bins[0] == lo);
        let hi2 = bins.last();
        assert(hi2 == crate::baseline::edge_at(lo, hi, 10));
        if hi > lo {
            assert((hi - lo) * 10 / 10 == hi - lo);
        } else {
            assert forall|i: int| 0 <= i < vals.len() implies crate::histogram::bin_index(#[trigger] vals[i], lo, hi, 10)
                == crate::histogram::bin_index(vals[i], lo, hi2, 10) by {
                assert(vals[i] == lo);
                assert(hi2 > lo);
                assert(0int * 10 / (hi2 - lo) == 0);
            }
            assert forall|b: int| 0 <= b < 10 implies #[trigger] probs[b] == histogram(vals, lo, hi2, 10)[b] by {
                lemma_bin_count_same(vals, lo, hi, lo, hi2, 10, b);
            }
        }
        let q = histogram(vals, bins[0], hi2, probs.len());
        assert forall|i: int| 0 <= i < probs.len() implies probs[i] == q[i] by {}
        lemma_l1_equal(probs, q);
    }
}

proof fn lemma_lookup_own(keys: Seq<Seq<char>>, probs: Seq<int>, i: int)
    requires
        keys_unique(keys),
        0 <= i < keys.len(),
    ensures
        freq_lookup(keys, probs, keys[i]) == probs[i],
    decreases keys.len(),
{
    if i < keys.len() - 1 {
        lemma_unique_prefix(keys);
        assert(keys[keys.len() - 1] != keys[i]);
        assert(keys.drop_last()[i] == keys[i]);
        lemma_lookup_own(keys.drop_last(), probs, i);
    }
}

proof fn lemma_shared_self(a: Seq<Seq<char>>, ik: Seq<Seq<char>>, ip: Seq<int>)
    requires
        keys_unique(ik),
        a.len() <= ik.len(),
        forall|i: int| 0 <= i < a.len() ==> a[i] == ik[i],
    ensures
        shared_part(a, ip, ik, ip) == 0,
    decreases a.len(),
{
    if a.len() > 0 {
        lemma_shared_self(a.drop_last(), ik, ip);
        lemma_lookup_own(ik, ip, a.len() - 1);
        assert(a.last() == ik[a.len() - 1]);
    }
}

proof fn lemma_new_none(a: Seq<Seq<char>>, ip: Seq<int>, keys: Seq<Seq<char>>)
    requires
        forall|i: int| 0 <= i < a.len() ==> keys.contains(#[trigger] a[i]),
    ensures
        new_part(a, ip, keys) == 0,
    decreases a.len(),
{
    if a.len() > 0 {
        assert(keys.contains(a[a.len() - 1]));
        lemma_new_none(a.drop_last(), ip, keys);
    }
}

/// Scoring a column against the frequency map built from that same column
/// gives a drift of 0.
pub proof fn lemma_categorical_self_drift(cells: Seq<Seq<char>>)
    ensures
        categorical_drift(category_frequencies(cells).0, category_frequencies(cells).1, cells) == 0,
{
    let (ik, ip) = category_frequencies(cells);
    if ik.len() > 0 {
        lemma_distinct_unique(crate::categories::category_values(cells));
        lemma_shared_self(ik, ik, ip);
        assert forall|i: int| 0 <= i < ik.len() implies ik.contains(#[trigger] ik[i]) by {}
        lemma_new_none(ik, ip, ik);
    }
}

proof fn lemma_all_in_bin(vals: Seq<int>, lo: int, hi: int, k: nat, b: int)
    requires
        forall|i: int| 0 <= i < vals.len() ==> crate::histogram::bin_index(#[trigger] vals[i], lo, hi, k) == k - 1,
    ensures
        crate::histogram::bin_count(vals, lo, hi, k, b) == if b == k - 1 {
            vals.len()
        } else {
            0
        },
    decreases vals.len(),
{
    if vals.len() > 0 {
        let d = vals.drop_last();
        assert forall|i: int| 0 <= i < d.len() implies crate::histogram::bin_index(#[trigger] d[i], lo, hi, k) == k - 1 by {
            assert(d[i] == vals[i]);
        }
        lemma_all_in_bin(d, lo, hi, k, b);
        assert(vals.last() == vals[vals.len() - 1]);
    }
}

proof fn lemma_l1_opposite(p: Seq<int>, q: Seq<int>, k: int, m: int)
    requires
        k >= 2,
        p.len() == k,
        q.len() == k,
        0 <= m <= k,
        forall|i: int| 0 <= i < k ==> #[trigger] p[i] == if i == 0 {
            PROB_ONE as int
        } else {
            0
        },
        forall|i: int| 0 <= i < k ==> #[trigger] q[i] == if i == k - 1 {
            PROB_ONE as int
        } else {
            0
        },
    ensures
        l1_distance(p.take(m), q) == (if m >= 1 {
            PROB_ONE as int
        } else {
            0
        }) + (if m >= k {
            PROB_ONE as int
        } else {
            0
        }),
    decreases m,
{
    if m > 0 {
        lemma_l1_opposite(p, q, k, m - 1);
        assert(p.take(m).drop_last() == p.take(m - 1));
        assert(p.take(m).last() == p[m - 1]);
    }
}

/// When all baseline mass lies in the first bin and every incoming value
/// falls into the last one, the drift is 1.
pub proof fn lemma_opposite_bins_drift(bins: Seq<int>, probs: Seq<int>, cells: Seq<Seq<char>>)
    requires
        probs.len() >= 2,
        bins.len() == probs.len() + 1,
        forall|i: int| 0 <= i < probs.len() ==> #[trigger] probs[i] == if i == 0 {
            PROB_ONE as int
        } else {
            0
        },
        parsed_values(cells).len() > 0,
        forall|i: int| 0 <= i < parsed_values(cells).len() ==> crate::histogram::bin_index(
            #[trigger] parsed_values(cells)[i],
            bins[0],
            bins.last(),
            probs.len(),
        ) == probs.len() - 1,
    ensures
        numeric_drift(bins, probs, cells) == PROB_ONE,
{
    let vals = parsed_values(cells);
    let k = probs.len();
    let q = histogram(vals, bins[0], bins.last(), k);
    assert forall|i: int| 0 <= i < k implies #[trigger] q[i] == if i == k - 1 {
        PROB_ONE as int
    } else {
        0
    } by {
        lemma_all_in_bin(vals, bins[0], bins.last(), k, i);
        let n = vals.len() as int;
        assert(n * (PROB_ONE as int) / n == PROB_ONE as int) by (nonlinear_arith)
            requires n > 0;
    }
    lemma_l1_opposite(probs, q, k as int, k as int);
    assert(probs.take(k as int) == probs);
}

} // verus!
