//! Feature type inference and the baseline statistics builder.
use crate::categories::{category_frequencies, frequencies_of};
use crate::decimal::lemma_pow10_values;
use crate::histogram::{bin_counts, histogram, lemma_bin_counts_sum, lemma_shares_sum, normalize};
use crate::model::{
    ints_i128, ints_u64, sum_of, CategoricalStats, Distribution, FeatureStats, FeatureStatsData,
    FeatureType, NumericStats, EDGE_BOUND, NUM_BINS, PROB_ONE,
    VALUE_BOUND, VALUE_INT_BOUND, VALUE_PLACES, VALUE_SCALE,
};
use crate::number::{number_value, parse_number};
use crate::table::{column_cells, column_values, DriftError, Table, MAX_ROWS};
use crate::text::{chars_of, trim_str, trimmed, views};
use vstd::prelude::*;

verus! {

/// The numeric value of a raw field: its trimmed text read as a number.
pub open spec fn numeric_value(s: Seq<char>) -> Option<int> {
    number_value(trimmed(s), VALUE_PLACES as nat, VALUE_INT_BOUND as nat)
}

/// A field whose trimmed text is empty.
pub open spec fn is_blank(s: Seq<char>) -> bool {
    trimmed(s).len() == 0
}

/// The numeric values among the fields, in order.
pub open spec fn parsed_values(cells: Seq<Seq<char>>) -> Seq<int>
    decreases cells.len(),
{
    if cells.len() == 0 {
        Seq::empty()
    } else {
        let rest = parsed_values(cells.drop_last());
        match numeric_value(cells.last()) {
            Some(v) => rest.push(v),
            None => rest,
        }
    }
}

/// Column names that are not features.
pub open spec fn is_reserved(name: Seq<char>) -> bool {
    name == "prediction"@ || name == "confidence"@ || name == "timestamp"@
}

/// Numeric when some field is non-blank and every non-blank field is a number.
pub open spec fn inferred_type(cells: Seq<Seq<char>>) -> FeatureType {
    if (exists|i: int| 0 <= i < cells.len() && !is_blank(#[trigger] cells[i])) && (forall|i: int|
        0 <= i < cells.len() && !is_blank(#[trigger] cells[i]) ==> numeric_value(cells[i]) is Some) {
        FeatureType::Numeric
    } else {
        FeatureType::Categorical
    }
}

/// The names that are not reserved, in order.
pub open spec fn feature_columns(names: Seq<Seq<char>>) -> Seq<Seq<char>>
    decreases names.len(),
{
    if names.len() == 0 {
        Seq::empty()
    } else {
        let rest = feature_columns(names.drop_last());
        if is_reserved(names.last()) {
            rest
        } else {
            rest.push(names.last())
        }
    }
}

/// Reads a raw field as a numeric value.
pub fn parse_value(s: &str) -> (r: Option<i128>)
    ensures
        match r {
            Some(v) => numeric_value(s@) == Some(v as int) && -VALUE_BOUND < v < VALUE_BOUND,
            None => numeric_value(s@) is None,
        },
{
    let t = trim_str(s);
    let chars = chars_of(t);
    proof {
        lemma_pow10_values();
    }
    parse_number(&chars, VALUE_PLACES, VALUE_INT_BOUND)
}

/// Whether a raw field is blank once trimmed.
pub fn blank(s: &str) -> (r: bool)
    ensures
        r == is_blank(s@),
{
    trim_str(s).is_empty()
}

pub fn is_reserved_name(name: &String) -> (r: bool)
    ensures
        r == is_reserved(name@),
{
    let p = "prediction".to_owned();
    let c = "confidence".to_owned();
    let t = "timestamp".to_owned();
    proof {
        reveal_strlit("prediction");
        reveal_strlit("confidence");
        reveal_strlit("timestamp");
    }
    *name == p || *name == c || *name == t
}

/// Classifies the fields of one column.
pub fn infer_column_type(cells: &Vec<String>) -> (r: FeatureType)
    ensures
        r == inferred_type(views(cells@)),
{
    let ghost cs = views(cells@);
    let mut has_value = false;
    let mut i: usize = 0;
    while i < cells.len()
        invariant
            i <= cells.len(),
            cs == views(cells@),
            has_value == exists|j: int| 0 <= j < i && !is_blank(#[trigger] cs[j]),
            forall|j: int| 0 <= j < i && !is_blank(#[trigger] cs[j]) ==> numeric_value(cs[j]) is Some,
        decreases cells.len() - i,
    {
        assert(cs[i as int] == cells[i as int]@);
        if !blank(cells[i].as_str()) {
            has_value = true;
            if parse_value(cells[i].as_str()).is_none() {
                assert(!is_blank(cs[i as int]) && numeric_value(cs[i as int]) is None);
                return FeatureType::Categorical;
            }
        }
        i = i + 1;
    }
    if has_value {
        FeatureType::Numeric
    } else {
        FeatureType::Categorical
    }
}

/// The type of each non-reserved column, in the order of `feature_names`.
pub fn infer_feature_types(table: &Table, feature_names: &Vec<String>) -> (r: Vec<(String, FeatureType)>)
    ensures
        entry_names(r@) == feature_columns(views(feature_names@)),
        forall|i: int| 0 <= i < r.len() ==> (#[trigger] r@[i]).1 == inferred_type(
            column_cells(table.cols(), table.records(), r@[i].0@),
        ),
{
    let mut out: Vec<(String, FeatureType)> = Vec::new();
    let mut i: usize = 0;
    while i < feature_names.len()
        invariant
            i <= feature_names.len(),
            entry_names(out@) == feature_columns(views(feature_names@).take(i as int)),
            forall|j: int| 0 <= j < out.len() ==> (#[trigger] out@[j]).1 == inferred_type(
                column_cells(table.cols(), table.records(), out@[j].0@),
            ),
        decreases feature_names.len() - i,
    {
        let ghost names = views(feature_names@);
        assert(names.take(i + 1).drop_last() == names.take(i as int));
        assert(names.take(i + 1).last() == feature_names[i as int]@);
        let name = &feature_names[i];
        if !is_reserved_name(name) {
            let cells = column_values(table, name);
            let t = infer_column_type(&cells);
            let ghost before = out@;
            out.push((name.clone(), t));
            assert(entry_names(out@) =~= entry_names(before).push(name@));
        }
        i = i + 1;
    }
    assert(views(feature_names@).take(i as int) == views(feature_names@));
    out
}

pub open spec fn entry_names(e: Seq<(String, FeatureType)>) -> Seq<Seq<char>> {
    e.map_values(|p: (String, FeatureType)| p.0@)
}


/// The numeric values among the fields, each within `VALUE_BOUND`.
pub fn collect_values(cells: &Vec<String>) -> (r: Vec<i128>)
    ensures
        ints_i128(r@) == parsed_values(views(cells@)),
        r.len() <= cells.len(),
        forall|i: int| 0 <= i < r.len() ==> -VALUE_BOUND < #[trigger] r[i] < VALUE_BOUND,
{
    let ghost cs = views(cells@);
    let mut out: Vec<i128> = Vec::new();
    let mut i: usize = 0;
    while i < cells.len()
        invariant
            i <= cells.len(),
            cs == views(cells@),
            ints_i128(out@) == parsed_values(cs.take(i as int)),
            out.len() <= i,
            forall|j: int| 0 <= j < out.len() ==> -VALUE_BOUND < #[trigger] out[j] < VALUE_BOUND,
        decreases cells.len() - i,
    {
        assert(cs.take(i + 1).drop_last() == cs.take(i as int));
        assert(cs.take(i + 1).last() == cells[i as int]@);
        let ghost before = out@;
        match parse_value(cells[i].as_str()) {
            Some(v) => {
                out.push(v);
                assert(ints_i128(out@) =~= ints_i128(before).push(v as int));
            },
            None => {},
        }
        i = i + 1;
    }
    assert(cs.take(i as int) == cs);
    out
}

pub open spec fn seq_min(s: Seq<int>) -> int
    decreases s.len(),
{
    if s.len() == 0 {
        0
    } else if s.len() == 1 {
        s[0]
    } else {
        let m = seq_min(s.drop_last());
        if s.last() < m {
            s.last()
        } else {
            m
        }
    }
}

pub open spec fn seq_max(s: Seq<int>) -> int
    decreases s.len(),
{
    if s.len() == 0 {
        0
    } else if s.len() == 1 {
        s[0]
    } else {
        let m = seq_max(s.drop_last());
        if s.last() > m {
            s.last()
        } else {
            m
        }
    }
}

/// Edge `i` of the baseline bins over `[lo, hi]`: width `(hi - lo) / NUM_BINS`,
/// or one unit where all values are equal; truncated to the held precision.
pub open spec fn edge_at(lo: int, hi: int, i: int) -> int {
    if hi > lo {
        lo + (hi - lo) * i / (NUM_BINS as int)
    } else {
        lo + i * VALUE_SCALE
    }
}

pub open spec fn numeric_edges(lo: int, hi: int) -> Seq<int> {
    Seq::new((NUM_BINS + 1) as nat, |i: int| edge_at(lo, hi, i))
}

/// The baseline histogram of numeric values: `NUM_BINS` equal-width bins over
/// their range, or the sentinel `edges = [0, 1], probabilities = [1]` when
/// there is none.
pub open spec fn numeric_baseline(vals: Seq<int>) -> (Seq<int>, Seq<int>) {
    if vals.len() == 0 {
        (seq![0, VALUE_SCALE as int], seq![PROB_ONE as int])
    } else {
        let lo = seq_min(vals);
        let hi = seq_max(vals);
        (numeric_edges(lo, hi), histogram(vals, lo, hi, NUM_BINS as nat))
    }
}

/// Builds the baseline histogram of numeric values.
pub fn numeric_stats_from_values(vals: &Vec<i128>) -> (r: NumericStats)
    requires
        vals.len() <= MAX_ROWS,
        forall|i: int| 0 <= i < vals.len() ==> -VALUE_BOUND < #[trigger] vals[i] < VALUE_BOUND,
    ensures
        (ints_i128(r.bins@), ints_u64(r.probabilities@)) == numeric_baseline(ints_i128(vals@)),
        r.wf(),
{
    let ghost vs = ints_i128(vals@);
    if vals.len() == 0 {
        let r = NumericStats { bins: vec![0, VALUE_SCALE], probabilities: vec![PROB_ONE] };
        assert(ints_i128(r.bins@) =~= seq![0, VALUE_SCALE as int]);
        assert(ints_u64(r.probabilities@) =~= seq![PROB_ONE as int]);
        let ghost s1 = seq![PROB_ONE as int];
        assert(s1.drop_last() =~= Seq::<int>::empty());
        assert(sum_of(s1.drop_last()) == 0);
        assert(sum_of(s1) == PROB_ONE);
        return r;
    }
    let mut lo: i128 = vals[0];
    let mut hi: i128 = vals[0];
    let mut i: usize = 1;
    assert(vs.take(1) =~= seq![vs[0]]);
    while i < vals.len()
        invariant
            1 <= i <= vals.len(),
            vs == ints_i128(vals@),
            lo == seq_min(vs.take(i as int)),
            hi == seq_max(vs.take(i as int)),
            -VALUE_BOUND < lo < VALUE_BOUND,
            -VALUE_BOUND < hi < VALUE_BOUND,
            lo <= hi,
            forall|j: int| 0 <= j < vals.len() ==> -VALUE_BOUND < #[trigger] vals[j] < VALUE_BOUND,
        decreases vals.len() - i,
    {
        assert(vs.take(i + 1).drop_last() == vs.take(i as int));
        assert(vs.take(i + 1).last() == vals[i as int] as int);
        if vals[i] < lo {
            lo = vals[i];
        }
        if vals[i] > hi {
            hi = vals[i];
        }
        i = i + 1;
    }
    assert(vs.take(i as int) == vs);
    let mut bins: Vec<i128> = Vec::new();
    let mut e: usize = 0;
    while e <= NUM_BINS
        invariant
            e <= NUM_BINS + 1,
            bins.len() == e,
            -VALUE_BOUND < lo <= hi < VALUE_BOUND,
            forall|j: int| 0 <= j < e ==> #[trigger] bins[j] == edge_at(lo as int, hi as int, j),
            forall|j: int| 0 <= j < e ==> -EDGE_BOUND < #[trigger] bins[j] < EDGE_BOUND,
        decreases NUM_BINS + 1 - e,
    {
        let x: i128 = if hi > lo {
            let w = (hi - lo) as u128;
            assert(w * (e as u128) <= 2_000_000_000_000_000_000_000_000_000u128 * 10) by (nonlinear_arith)
                requires w <= 2_000_000_000_000_000_000_000_000_000u128, e <= 10;
            let step = w * (e as u128) / (NUM_BINS as u128);
            proof {
                let wi = w as int;
                let ei = e as int;
                assert(wi * ei / 10 <= wi) by (nonlinear_arith)
                    requires 0 <= ei <= 10, wi > 0;
                assert(wi * ei / 10 >= 0) by (nonlinear_arith)
                    requires 0 <= ei <= 10, wi > 0;
            }
            lo + step as i128
        } else {
            lo + (e as i128) * VALUE_SCALE
        };
        bins.push(x);
        e = e + 1;
    }
    let counts = bin_counts(vals, lo, hi, NUM_BINS);
    let probabilities = normalize(&counts, vals.len() as u64);
    proof {
        assert(ints_i128(bins@) =~= numeric_edges(lo as int, hi as int));
        lemma_bin_counts_sum(vs, lo as int, hi as int, NUM_BINS as nat);
        let c = crate::histogram::bin_counts_of(vs, lo as int, hi as int, NUM_BINS as nat);
        assert forall|j: int| 0 <= j < c.len() implies c[j] >= 0 by {}
        lemma_shares_sum(c, vs.len() as int);
        assert(ints_u64(probabilities@) == histogram(vs, lo as int, hi as int, NUM_BINS as nat));
        let ps = ints_u64(probabilities@);
        assert forall|j: int| 0 <= j < ps.len() implies 0 <= #[trigger] ps[j] <= PROB_ONE by {
            assert(ps[j] == probabilities[j] as int);
        }
        let bs = ints_i128(bins@);
        assert forall|j: int| 0 <= j < bs.len() implies -EDGE_BOUND < #[trigger] bs[j] < EDGE_BOUND by {
            assert(bs[j] == bins[j] as int);
        }
    }
    NumericStats { bins, probabilities }
}

/// The baseline histogram of column `feature_name`.
pub fn build_numeric_histogram(table: &Table, feature_name: &String) -> (r: NumericStats)
    requires
        table.wf(),
    ensures
        (ints_i128(r.bins@), ints_u64(r.probabilities@)) == numeric_baseline(
            parsed_values(column_cells(table.cols(), table.records(), feature_name@)),
        ),
        r.wf(),
{
    let cells = column_values(table, feature_name);
    proof { lemma_column_cells_len(table.cols(), table.records(), feature_name@); }
    let vals = collect_values(&cells);
    numeric_stats_from_values(&vals)
}

pub proof fn lemma_column_cells_len(cols: Seq<Seq<char>>, rows: Seq<Seq<Seq<char>>>, name: Seq<char>)
    ensures
        column_cells(cols, rows, name).len() <= rows.len(),
    decreases rows.len(),
{
    if rows.len() > 0 {
        lemma_column_cells_len(cols, rows.drop_last(), name);
    }
}

/// The baseline frequency map of column `feature_name`.
pub fn build_categorical_frequencies(table: &Table, feature_name: &String) -> (r: CategoricalStats)
    requires
        table.wf(),
    ensures
        (crate::model::entry_keys(r.frequencies@), crate::model::entry_probs(r.frequencies@))
            == category_frequencies(column_cells(table.cols(), table.records(), feature_name@)),
        r.wf(),
{
    let cells = column_values(table, feature_name);
    proof { lemma_column_cells_len(table.cols(), table.records(), feature_name@); }
    frequencies_of(&cells)
}

/// The mean of the values, truncated toward zero; 0 when there is none.
pub open spec fn mean_of(vals: Seq<int>) -> int {
    if vals.len() == 0 {
        0
    } else {
        let s = sum_of(vals);
        if s >= 0 {
            s / (vals.len() as int)
        } else {
            -((-s) / (vals.len() as int))
        }
    }
}

/// The mean of the numeric values in the `prediction` column.
pub open spec fn prediction_rate_of(cols: Seq<Seq<char>>, recs: Seq<Seq<Seq<char>>>) -> int {
    mean_of(parsed_values(column_cells(cols, recs, "prediction"@)))
}

/// The prediction rate of a table, in units of `1 / VALUE_SCALE`.
pub fn compute_prediction_rate(table: &Table) -> (r: i128)
    requires
        table.wf(),
    ensures
        r == prediction_rate_of(table.cols(), table.records()),
        -VALUE_BOUND <= r <= VALUE_BOUND,
{
    let name = "prediction".to_owned();
    proof { reveal_strlit("prediction"); }
    let cells = column_values(table, &name);
    proof { lemma_column_cells_len(table.cols(), table.records(), name@); }
    let vals = collect_values(&cells);
    let ghost vs = ints_i128(vals@);
    if vals.len() == 0 {
        return 0;
    }
    let mut sum: i128 = 0;
    let mut i: usize = 0;
    while i < vals.len()
        invariant
            i <= vals.len() <= MAX_ROWS,
            vs == ints_i128(vals@),
            sum == sum_of(vs.take(i as int)),
            -(i * VALUE_BOUND) <= sum <= i * VALUE_BOUND,
            forall|j: int| 0 <= j < vals.len() ==> -VALUE_BOUND < #[trigger] vals[j] < VALUE_BOUND,
        decreases vals.len() - i,
    {
        assert(vs.take(i + 1).drop_last() == vs.take(i as int));
        assert(vs.take(i + 1).last() == vals[i as int] as int);
        assert(i * VALUE_BOUND <= 1_000_000_000 * VALUE_BOUND) by (nonlinear_arith)
            requires i <= 1_000_000_000;
        sum = sum + vals[i];
        assert((i + 1) * VALUE_BOUND == i * VALUE_BOUND + VALUE_BOUND) by (nonlinear_arith);
        i = i + 1;
    }
    assert(vs.take(i as int) == vs);
    let n = vals.len() as i128;
    proof {
        let ni = n as int;
        let si = sum as int;
        let b = VALUE_BOUND as int;
        if si >= 0 {
            assert(si / ni <= b) by (nonlinear_arith)
                requires 0 <= si <= ni * b, ni > 0;
            assert(si / ni >= 0) by (nonlinear_arith)
                requires 0 <= si, ni > 0;
        } else {
            assert((-si) / ni <= b) by (nonlinear_arith)
                requires 0 <= -si <= ni * b, ni > 0;
            assert((-si) / ni >= 0) by (nonlinear_arith)
                requires 0 <= -si, ni > 0;
        }
    }
    if sum >= 0 {
        sum / n
    } else {
        -((-sum) / n)
    }
}

/// The type given to `name`, by its first entry.
pub open spec fn type_lookup(types: Seq<(String, FeatureType)>, name: Seq<char>) -> Option<FeatureType>
    decreases types.len(),
{
    if types.len() == 0 {
        None
    } else if types[0].0@ == name {
        Some(types[0].1)
    } else {
        type_lookup(types.drop_first(), name)
    }
}

pub fn lookup_type(types: &Vec<(String, FeatureType)>, name: &String) -> (r: Option<FeatureType>)
    ensures
        r == type_lookup(types@, name@),
{
    let mut j: usize = 0;
    assert(types@.skip(0) == types@);
    while j < types.len()
        invariant
            j <= types.len(),
            type_lookup(types@, name@) == type_lookup(types@.skip(j as int), name@),
        decreases types.len() - j,
    {
        assert(types@.skip(j as int).drop_first() == types@.skip(j + 1));
        if types[j].0 == *name {
            return Some(types[j].1);
        }
        j = j + 1;
    }
    None
}

/// The baseline distribution of column `name`, read as type `t`.
pub open spec fn column_distribution(cols: Seq<Seq<char>>, recs: Seq<Seq<Seq<char>>>, name: Seq<char>, t: FeatureType) -> Distribution {
    let cells = column_cells(cols, recs, name);
    match t {
        FeatureType::Numeric => {
            let (b, p) = numeric_baseline(parsed_values(cells));
            Distribution::Numeric(b, p)
        },
        FeatureType::Categorical => {
            let (k, p) = category_frequencies(cells);
            Distribution::Categorical(k, p)
        },
    }
}

/// The baseline distribution of every non-reserved column, in the order of
/// `feature_names`, each read as the type `feature_types` gives it.
pub fn build_baseline_stats(table: &Table, feature_names: &Vec<String>, feature_types: &Vec<(String, FeatureType)>) -> (r: Vec<FeatureStats>)
    requires
        table.wf(),
        forall|i: int| 0 <= i < feature_names.len() && !is_reserved(#[trigger] feature_names[i]@)
            ==> type_lookup(feature_types@, feature_names[i]@) is Some,
    ensures
        r.len() == feature_columns(views(feature_names@)).len(),
        forall|i: int| 0 <= i < r.len() ==> {
            &&& (#[trigger] r[i]).name@ == feature_columns(views(feature_names@))[i]
            &&& type_lookup(feature_types@, r[i].name@) == Some(r[i].feature_type)
            &&& r[i].stats.view() == column_distribution(table.cols(), table.records(), r[i].name@, r[i].feature_type)
            &&& r[i].wf()
        },
{
    let mut out: Vec<FeatureStats> = Vec::new();
    let mut i: usize = 0;
    while i < feature_names.len()
        invariant
            i <= feature_names.len(),
            table.wf(),
            forall|j: int| 0 <= j < feature_names.len() && !is_reserved(#[trigger] feature_names[j]@)
                ==> type_lookup(feature_types@, feature_names[j]@) is Some,
            out.len() == feature_columns(views(feature_names@).take(i as int)).len(),
            forall|j: int| 0 <= j < out.len() ==> {
                &&& (#[trigger] out[j]).name@ == feature_columns(views(feature_names@).take(i as int))[j]
                &&& type_lookup(feature_types@, out[j].name@) == Some(out[j].feature_type)
                &&& out[j].stats.view() == column_distribution(table.cols(), table.records(), out[j].name@, out[j].feature_type)
                &&& out[j].wf()
            },
        decreases feature_names.len() - i,
    {
        let ghost names = views(feature_names@);
        assert(names.take(i + 1).drop_last() == names.take(i as int));
        assert(names.take(i + 1).last() == feature_names[i as int]@);
        let name = &feature_names[i];
        if !is_reserved_name(name) {
            let t = match lookup_type(feature_types, name) {
                Some(t) => t,
                None => {
                    assert(false);
                    FeatureType::Categorical
                },
            };
            let stats = match t {
                FeatureType::Numeric => FeatureStatsData::Numeric(build_numeric_histogram(table, name)),
                FeatureType::Categorical => FeatureStatsData::Categorical(build_categorical_frequencies(table, name)),
            };
            out.push(FeatureStats { name: name.clone(), feature_type: t, stats });
        }
        i = i + 1;
    }
    assert(views(feature_names@).take(i as int) == views(feature_names@));
    out
}

/// A baseline snapshot's content: the prediction rate (in units of
/// `1 / VALUE_SCALE`) and one distribution per feature.
#[derive(Debug, Clone)]
pub struct BaselineStats {
    pub prediction_rate: i128,
    pub features: Vec<FeatureStats>,
}

/// Builds the baseline of a table: each non-reserved column with its
/// inferred type and distribution, and the prediction rate.
pub fn build_baseline(table: &Table) -> (r: Result<BaselineStats, DriftError>)
    requires
        table.wf(),
    ensures
        table.rows.len() == 0 ==> r == Err::<BaselineStats, DriftError>(DriftError::EmptyInput),
        table.rows.len() > 0 ==> (r matches Ok(b) && {
            &&& b.prediction_rate == prediction_rate_of(table.cols(), table.records())
            &&& b.features.len() == feature_columns(table.cols()).len()
            &&& crate::order::names_of(b.features@) == crate::order::sort_names(feature_columns(table.cols()))
            &&& forall|i: int| 0 <= i < b.features.len() ==> {
                &&& (#[trigger] b.features[i]).feature_type == inferred_type(column_cells(table.cols(), table.records(), b.features[i].name@))
                &&& b.features[i].stats.view() == column_distribution(table.cols(), table.records(), b.features[i].name@, b.features[i].feature_type)
                &&& b.features[i].wf()
            }
            &&& b.wf()
        }),
{
    if table.rows.len() == 0 {
        return Err(DriftError::EmptyInput);
    }
    let types = infer_feature_types(table, &table.columns);
    proof {
        assert forall|i: int| 0 <= i < table.columns.len() && !is_reserved(#[trigger] table.columns[i]@)
            implies type_lookup(types@, table.columns[i]@) is Some by {
            lemma_feature_columns_member(table.cols(), i);
            let j = choose|j: int| 0 <= j < feature_columns(table.cols()).len() && feature_columns(table.cols())[j] == table.cols()[i];
            assert(entry_names(types@)[j] == types@[j].0@);
            lemma_type_lookup_found(types@, j);
        }
    }
    let unsorted = build_baseline_stats(table, &table.columns, &types);
    proof {
        assert forall|i: int| 0 <= i < unsorted.len() implies (#[trigger] unsorted[i]).feature_type
            == inferred_type(column_cells(table.cols(), table.records(), unsorted[i].name@)) by {
            assert(entry_names(types@)[i] == types@[i].0@);
            lemma_type_lookup_found(types@, i);
            let t = type_lookup(types@, unsorted[i].name@);
            let j = choose|j: int| 0 <= j < types.len() && types@[j].0@ == unsorted[i].name@ && t == Some(types@[j].1);
            assert(types@[j].1 == inferred_type(column_cells(table.cols(), table.records(), types@[j].0@)));
        }
    }
    let ghost u = unsorted@;
    let features = crate::order::sort_by_name(unsorted);
    proof {
        assert(crate::order::names_of(u) =~= feature_columns(table.cols()));
        crate::order::lemma_sort_names(u);
        crate::order::lemma_sort_members(u);
        assert forall|i: int| 0 <= i < features.len() implies {
            &&& (#[trigger] features[i]).feature_type == inferred_type(column_cells(table.cols(), table.records(), features[i].name@))
            &&& features[i].stats.view() == column_distribution(table.cols(), table.records(), features[i].name@, features[i].feature_type)
            &&& features[i].wf()
        } by {
            let j = choose|j: int| 0 <= j < u.len() && u[j] == features[i];
            assert(u[j] == unsorted[j]);
        }
    }
    let prediction_rate = compute_prediction_rate(table);
    Ok(BaselineStats { prediction_rate, features })
}

impl BaselineStats {
    pub open spec fn wf(&self) -> bool {
        &&& -VALUE_BOUND <= self.prediction_rate <= VALUE_BOUND
        &&& forall|i: int| 0 <= i < self.features.len() ==> (#[trigger] self.features[i]).wf()
    }
}

/// Parses a table and builds its baseline.
pub fn build_baseline_from_csv(bytes: &[u8]) -> (r: Result<BaselineStats, DriftError>)
    ensures
        match crate::table::csv_records_of(bytes@) {
            None => r == Err::<BaselineStats, DriftError>(DriftError::Parse),
            Some((h, recs)) => if recs.len() > MAX_ROWS {
                r == Err::<BaselineStats, DriftError>(DriftError::TooManyRows)
            } else if recs.len() == 0 {
                r == Err::<BaselineStats, DriftError>(DriftError::EmptyInput)
            } else {
                r matches Ok(b) && {
                    &&& b.prediction_rate == prediction_rate_of(h, recs)
                    &&& b.features.len() == feature_columns(h).len()
                    &&& crate::order::names_of(b.features@) == crate::order::sort_names(feature_columns(h))
                    &&& forall|i: int| 0 <= i < b.features.len() ==> {
                        &&& (#[trigger] b.features[i]).feature_type == inferred_type(column_cells(h, recs, b.features[i].name@))
                        &&& b.features[i].stats.view() == column_distribution(h, recs, b.features[i].name@, b.features[i].feature_type)
                    }
                    &&& b.wf()
                }
            },
        },
{
    let table = crate::table::parse_csv(bytes)?;
    build_baseline(&table)
}

pub proof fn lemma_feature_columns_member(names: Seq<Seq<char>>, i: int)
    requires
        0 <= i < names.len(),
        !is_reserved(names[i]),
    ensures
        exists|j: int| 0 <= j < feature_columns(names).len() && feature_columns(names)[j] == names[i],
    decreases names.len(),
{
    let fc = feature_columns(names);
    if i == names.len() - 1 {
        assert(fc[fc.len() - 1] == names[i]);
    } else {
        lemma_feature_columns_member(names.drop_last(), i);
        let rest = feature_columns(names.drop_last());
        let j = choose|j: int| 0 <= j < rest.len() && rest[j] == names.drop_last()[i];
        assert(fc[j] == rest[j]);
    }
}

/// An entry's name finds some entry with that name.
pub proof fn lemma_type_lookup_found(types: Seq<(String, FeatureType)>, j: int)
    requires
        0 <= j < types.len(),
    ensures
        exists|t: int| 0 <= t < types.len() && types[t].0@ == types[j].0@
            && type_lookup(types, types[j].0@) == Some(types[t].1),
    decreases types.len(),
{
    if types[0].0@ != types[j].0@ {
        lemma_type_lookup_found(types.drop_first(), j - 1);
        let t = choose|t: int| 0 <= t < types.len() - 1 && types.drop_first()[t].0@ == types[j].0@
            && type_lookup(types.drop_first(), types[j].0@) == Some(types.drop_first()[t].1);
        assert(types[t + 1] == types.drop_first()[t]);
    } else {
        assert(types[0].0@ == types[j].0@);
    }
}

} // verus!

verus! {

/// One part in a million, in units of `1 / PROB_ONE`.
pub const SUM_TOLERANCE: u64 = 1_000_000_000_000;

/// A numeric baseline built from at least one value has `NUM_BINS + 1` edges
/// and `NUM_BINS` bin probabilities, which sum to one within one part in a
/// million (and never above one).
pub proof fn lemma_numeric_baseline_shape(vals: Seq<int>)
    requires
        vals.len() >= 1,
    ensures
        numeric_baseline(vals).0.len() == NUM_BINS + 1,
        numeric_baseline(vals).1.len() == NUM_BINS,
        PROB_ONE - SUM_TOLERANCE <= sum_of(numeric_baseline(vals).1) <= PROB_ONE,
{
    let lo = seq_min(vals);
    let hi = seq_max(vals);
    let c = crate::histogram::bin_counts_of(vals, lo, hi, NUM_BINS as nat);
    lemma_bin_counts_sum(vals, lo, hi, NUM_BINS as nat);
    lemma_shares_sum(c, vals.len() as int);
}

/// The category frequencies of a column with at least one non-blank field sum
/// to one within one part in a million (and never above one).
pub proof fn lemma_category_frequencies_sum(cells: Seq<Seq<char>>)
    requires
        crate::categories::category_values(cells).len() >= 1,
        cells.len() <= MAX_ROWS,
    ensures
        PROB_ONE - SUM_TOLERANCE <= sum_of(category_frequencies(cells).1) <= PROB_ONE,
{
    let vs = crate::categories::category_values(cells);
    let keys = crate::categories::distinct(vs);
    crate::categories::lemma_category_values_len(cells);
    crate::categories::lemma_distinct_unique(vs);
    crate::categories::lemma_key_counts_sum(vs);
    lemma_shares_sum(crate::categories::key_counts(keys, vs), vs.len() as int);
}

} // verus!
