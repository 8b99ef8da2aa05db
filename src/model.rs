//! The engine's data model: feature types, per-feature distributions and
//! the units in which numbers are held.
use vstd::prelude::*;

verus! {

/// Fractional digits kept of a numeric value.
pub const VALUE_PLACES: u32 = 9;

/// A numeric value `x` is held as the integer `x * VALUE_SCALE`.
pub const VALUE_SCALE: i128 = 1_000_000_000;

/// Numeric values have an integer part below this bound.
pub const VALUE_INT_BOUND: u128 = 1_000_000_000_000_000_000;

/// Bound on the magnitude of a held numeric value.
pub const VALUE_BOUND: i128 = 1_000_000_000_000_000_000_000_000_000;

/// Bound on the magnitude of a held bin edge.
pub const EDGE_BOUND: i128 = 10_000_000_000_000_000_000_000_000_000;

/// Fractional digits kept of a probability.
pub const PROB_PLACES: u32 = 18;

/// A probability `p` (and a drift score) is held as the integer `p * PROB_ONE`.
pub const PROB_ONE: u64 = 1_000_000_000_000_000_000;

/// Bins of a histogram built from baseline data.
pub const NUM_BINS: usize = 10;

/// Most bins a stored histogram may have.
pub const MAX_BINS: usize = 1_000_000;

#[derive(Debug, Clone, Copy, PartialEq, Eq, Structural)]
pub enum FeatureType {
    Numeric,
    Categorical,
}

/// A histogram: `bins` holds the `k + 1` edges, `probabilities` the mass of
/// each of the `k` bins.
#[derive(Debug, Clone)]
pub struct NumericStats {
    pub bins: Vec<i128>,
    pub probabilities: Vec<u64>,
}

/// Category frequencies, one entry per distinct category.
#[derive(Debug, Clone)]
pub struct CategoricalStats {
    pub frequencies: Vec<(String, u64)>,
}

#[derive(Debug, Clone)]
pub enum FeatureStatsData {
    Numeric(NumericStats),
    Categorical(CategoricalStats),
}

/// The baseline distribution of one feature.
#[derive(Debug, Clone)]
pub struct FeatureStats {
    pub name: String,
    pub feature_type: FeatureType,
    pub stats: FeatureStatsData,
}

pub open spec fn ints_i128(s: Seq<i128>) -> Seq<int> {
    s.map_values(|v: i128| v as int)
}

pub open spec fn ints_u64(s: Seq<u64>) -> Seq<int> {
    s.map_values(|v: u64| v as int)
}

pub open spec fn sum_of(s: Seq<int>) -> int
    decreases s.len(),
{
    if s.len() == 0 {
        0
    } else {
        sum_of(s.drop_last()) + s.last()
    }
}

/// Edges and masses of a well-formed histogram.
pub open spec fn numeric_wf(bins: Seq<int>, probs: Seq<int>) -> bool {
    &&& bins.len() == probs.len() + 1
    &&& 1 <= probs.len() <= MAX_BINS
    &&& forall|i: int| 0 <= i < bins.len() ==> -EDGE_BOUND < #[trigger] bins[i] < EDGE_BOUND
    &&& forall|i: int| 0 <= i < probs.len() ==> 0 <= #[trigger] probs[i] <= PROB_ONE
    &&& sum_of(probs) <= PROB_ONE
}

/// Distinct keys.
pub open spec fn keys_unique(keys: Seq<Seq<char>>) -> bool {
    forall|i: int, j: int| 0 <= i < keys.len() && 0 <= j < keys.len() && i != j ==> keys[i] != keys[j]
}

pub open spec fn entry_keys(e: Seq<(String, u64)>) -> Seq<Seq<char>> {
    e.map_values(|p: (String, u64)| p.0@)
}

pub open spec fn entry_probs(e: Seq<(String, u64)>) -> Seq<int> {
    e.map_values(|p: (String, u64)| p.1 as int)
}

/// Frequencies of a well-formed categorical distribution.
pub open spec fn categorical_wf(keys: Seq<Seq<char>>, probs: Seq<int>) -> bool {
    &&& keys.len() == probs.len()
    &&& keys.len() <= crate::table::MAX_ROWS
    &&& keys_unique(keys)
    &&& forall|i: int| 0 <= i < probs.len() ==> 0 <= #[trigger] probs[i] <= PROB_ONE
    &&& sum_of(probs) <= PROB_ONE
}

impl NumericStats {
    pub open spec fn wf(&self) -> bool {
        numeric_wf(ints_i128(self.bins@), ints_u64(self.probabilities@))
    }
}

impl CategoricalStats {
    pub open spec fn wf(&self) -> bool {
        categorical_wf(entry_keys(self.frequencies@), entry_probs(self.frequencies@))
    }
}

impl FeatureStats {
    pub open spec fn wf(&self) -> bool {
        match self.stats {
            FeatureStatsData::Numeric(n) => self.feature_type == FeatureType::Numeric && n.wf(),
            FeatureStatsData::Categorical(c) => self.feature_type == FeatureType::Categorical
                && c.wf(),
        }
    }
}

/// What a distribution holds: edges and bin masses, or categories and
/// their frequencies.
pub enum Distribution {
    Numeric(Seq<int>, Seq<int>),
    Categorical(Seq<Seq<char>>, Seq<int>),
}

impl FeatureStatsData {
    pub open spec fn view(&self) -> Distribution {
        match self {
            FeatureStatsData::Numeric(n) => Distribution::Numeric(
                ints_i128(n.bins@),
                ints_u64(n.probabilities@),
            ),
            FeatureStatsData::Categorical(c) => Distribution::Categorical(
                entry_keys(c.frequencies@),
                entry_probs(c.frequencies@),
            ),
        }
    }
}

} // verus!

verus! {

/// A request to create a project.
#[derive(Debug, Clone)]
pub struct CreateProjectRequest {
    pub name: String,
}

/// A stored feature of a baseline: its type word (`numeric` or
/// `categorical`) and its distribution as stored text.
#[derive(Debug, Clone)]
pub struct BaselineFeature {
    pub feature_id: String,
    pub baseline_id: String,
    pub feature_name: String,
    pub feature_type: String,
    pub metadata: String,
}

/// Criteria for listing alerts; an absent criterion accepts every alert.
/// Times are RFC 3339 texts.
#[derive(Debug, Clone)]
pub struct AlertFilter {
    pub status: Option<String>,
    pub severity: Option<String>,
    pub feature_name: Option<String>,
    pub alert_type: Option<String>,
    pub start_time: Option<String>,
    pub end_time: Option<String>,
}

/// The outcome of evaluating one incoming batch.
#[derive(Debug, Clone)]
pub struct UploadIncomingResponse {
    pub rows_processed: usize,
    pub alerts_created: usize,
    pub health: String,
}

} // verus!

verus! {

/// `a <= b` in code-point order, character by character.
pub open spec fn text_le(a: Seq<char>, b: Seq<char>) -> bool
    decreases a.len(),
{
    if a.len() == 0 {
        true
    } else if b.len() == 0 {
        false
    } else if (a[0] as u32) < (b[0] as u32) {
        true
    } else if (a[0] as u32) > (b[0] as u32) {
        false
    } else {
        text_le(a.drop_first(), b.drop_first())
    }
}

/// Compares two texts in code-point order.
pub fn text_le_exec(a: &str, b: &str) -> (r: bool)
    ensures
        r == text_le(a@, b@),
{
    let x = crate::text::chars_of(a);
    let y = crate::text::chars_of(b);
    let mut i: usize = 0;
    assert(x@.skip(0) == x@ && y@.skip(0) == y@);
    while i < x.len() && i < y.len()
        invariant
            i <= x.len(),
            i <= y.len(),
            text_le(a@, b@) == text_le(x@.skip(i as int), y@.skip(i as int)),
        decreases x.len() - i,
    {
        let ghost xs = x@.skip(i as int);
        let ghost ys = y@.skip(i as int);
        assert(xs[0] == x[i as int] && ys[0] == y[i as int]);
        if (x[i] as u32) < (y[i] as u32) {
            return true;
        }
        if (x[i] as u32) > (y[i] as u32) {
            return false;
        }
        assert(xs.drop_first() =~= x@.skip(i + 1));
        assert(ys.drop_first() =~= y@.skip(i + 1));
        i = i + 1;
    }
    i == x.len()
}

pub open spec fn criterion_holds(c: Option<String>, v: Seq<char>) -> bool {
    match c {
        Some(x) => x@ == v,
        None => true,
    }
}

fn criterion_check(c: &Option<String>, v: &String) -> (r: bool)
    ensures
        r == criterion_holds(*c, v@),
{
    match c {
        Some(x) => *x == *v,
        None => true,
    }
}

impl AlertFilter {
    /// Whether an alert with these fields passes every criterion: equal
    /// status, severity, feature name and type where given, and a creation
    /// time within `[start_time, end_time]` by text order.
    pub open spec fn admits(&self, status: Seq<char>, severity: Seq<char>, feature_name: Option<Seq<char>>, alert_type: Seq<char>, created_at: Seq<char>) -> bool {
        &&& criterion_holds(self.status, status)
        &&& criterion_holds(self.severity, severity)
        &&& match self.feature_name {
            Some(f) => feature_name == Some(f@),
            None => true,
        }
        &&& criterion_holds(self.alert_type, alert_type)
        &&& match self.start_time {
            Some(s) => text_le(s@, created_at),
            None => true,
        }
        &&& match self.end_time {
            Some(e) => text_le(created_at, e@),
            None => true,
        }
    }

    pub fn accepts(&self, status: &String, severity: &String, feature_name: &Option<String>, alert_type: &String, created_at: &String) -> (r: bool)
        ensures
            r == self.admits(status@, severity@, match feature_name {
                Some(f) => Some(f@),
                None => None,
            }, alert_type@, created_at@),
    {
        if !criterion_check(&self.status, status) || !criterion_check(&self.severity, severity)
            || !criterion_check(&self.alert_type, alert_type) {
            return false;
        }
        match &self.feature_name {
            Some(f) => match feature_name {
                Some(n) => {
                    if *f != *n {
                        return false;
                    }
                },
                None => {
                    return false;
                },
            },
            None => {},
        }
        match &self.start_time {
            Some(s) => {
                if !text_le_exec(s.as_str(), created_at.as_str()) {
                    return false;
                }
            },
            None => {},
        }
        match &self.end_time {
            Some(e) => {
                if !text_le_exec(created_at.as_str(), e.as_str()) {
                    return false;
                }
            },
            None => {},
        }
        true
    }
}

} // verus!
