//! The alert and severity engine: schema comparison, drift thresholds and
//! the overall health of one evaluation.
use crate::baseline::{feature_columns, is_reserved, is_reserved_name};
use crate::categories::distinct;
use crate::decimal::{decimal_text, write_decimal};
use crate::drift::{drift_entries, DriftResult};
use crate::model::{FeatureStats, PROB_ONE, VALUE_BOUND};
use crate::text::{push_str, views};
use vstd::prelude::*;

verus! {

/// Default feature drift at which a WARN alert is raised (0.10).
pub const FEATURE_DRIFT_WARN_THRESHOLD: u64 = 100_000_000_000_000_000;

/// Default feature drift at which a CRITICAL alert is raised (0.20).
pub const FEATURE_DRIFT_CRITICAL_THRESHOLD: u64 = 200_000_000_000_000_000;

/// Default prediction shift at which a WARN alert is raised (0.10).
pub const PREDICTION_SHIFT_WARN_THRESHOLD: u128 = 100_000_000_000_000_000;

/// Default prediction shift at which a CRITICAL alert is raised (0.20).
pub const PREDICTION_SHIFT_CRITICAL_THRESHOLD: u128 = 200_000_000_000_000_000;

/// Units of `1 / PROB_ONE` per unit of the fourth decimal place.
pub const MESSAGE_UNIT: u128 = 100_000_000_000_000;

#[derive(Debug, Clone, Copy, PartialEq, Eq, Structural)]
pub enum Severity {
    Warn,
    Critical,
}

#[derive(Debug, Clone, Copy, PartialEq, Eq, Structural)]
pub enum AlertType {
    Schema,
    FeatureDrift,
    PredictionShift,
}

/// The worst severity of one evaluation: `Healthy < Warn < Critical`;
/// `Healthy` is reported as OK.
#[derive(Debug, Clone, Copy, PartialEq, Eq, Structural)]
pub enum HealthStatus {
    Healthy,
    Warn,
    Critical,
}

/// The word reported for a health status.
pub open spec fn health_word(h: HealthStatus) -> Seq<char> {
    match h {
        HealthStatus::Healthy => "OK"@,
        HealthStatus::Warn => "WARN"@,
        HealthStatus::Critical => "CRITICAL"@,
    }
}

impl HealthStatus {
    pub fn as_word(&self) -> (r: String)
        ensures
            r@ == health_word(*self),
    {
        match self {
            HealthStatus::Healthy => "OK".to_owned(),
            HealthStatus::Warn => "WARN".to_owned(),
            HealthStatus::Critical => "CRITICAL".to_owned(),
        }
    }
}

/// Drift and shift thresholds, in units of `1 / PROB_ONE`.
#[derive(Debug, Clone, Copy, PartialEq, Eq, Structural)]
pub struct AlertThresholds {
    pub feature_drift_warn: u64,
    pub feature_drift_critical: u64,
    pub prediction_shift_warn: u128,
    pub prediction_shift_critical: u128,
}

impl AlertThresholds {
    /// WARN at 0.10 and CRITICAL at 0.20, for both checks.
    pub fn defaults() -> (r: AlertThresholds)
        ensures
            r.feature_drift_warn == FEATURE_DRIFT_WARN_THRESHOLD,
            r.feature_drift_critical == FEATURE_DRIFT_CRITICAL_THRESHOLD,
            r.prediction_shift_warn == PREDICTION_SHIFT_WARN_THRESHOLD,
            r.prediction_shift_critical == PREDICTION_SHIFT_CRITICAL_THRESHOLD,
    {
        AlertThresholds {
            feature_drift_warn: FEATURE_DRIFT_WARN_THRESHOLD,
            feature_drift_critical: FEATURE_DRIFT_CRITICAL_THRESHOLD,
            prediction_shift_warn: PREDICTION_SHIFT_WARN_THRESHOLD,
            prediction_shift_critical: PREDICTION_SHIFT_CRITICAL_THRESHOLD,
        }
    }
}

/// An alert to be recorded: it starts out OPEN.
#[derive(Debug, Clone)]
pub struct AlertDraft {
    pub severity: Severity,
    pub alert_type: AlertType,
    pub feature_name: Option<String>,
    /// The drift or shift that raised it, in units of `1 / PROB_ONE`.
    pub metric_value: Option<u128>,
    pub message: String,
}

pub type AlertView = (Severity, AlertType, Option<Seq<char>>, Option<int>, Seq<char>);

impl AlertDraft {
    pub open spec fn view(&self) -> AlertView {
        (
            self.severity,
            self.alert_type,
            match self.feature_name {
                Some(n) => Some(n@),
                None => None,
            },
            match self.metric_value {
                Some(v) => Some(v as int),
                None => None,
            },
            self.message@,
        )
    }
}

pub open spec fn alert_views(a: Seq<AlertDraft>) -> Seq<AlertView> {
    a.map_values(|x: AlertDraft| x@)
}

/// The severity of a value against two thresholds, `None` below both.
pub open spec fn severity_for(v: int, warn: int, critical: int) -> Option<Severity> {
    if v >= critical {
        Some(Severity::Critical)
    } else if v >= warn {
        Some(Severity::Warn)
    } else {
        None
    }
}

pub open spec fn severity_word(s: Severity) -> Seq<char> {
    match s {
        Severity::Critical => "CRITICAL"@,
        Severity::Warn => "WARN"@,
    }
}

/// The value at four decimal places, truncated.
pub open spec fn metric_text(v: int) -> Seq<char> {
    decimal_text(v / (MESSAGE_UNIT as int), 4)
}

/// A CRITICAL schema alert for each name in `names` that `incoming` lacks.
pub open spec fn missing_alerts(names: Seq<Seq<char>>, incoming: Seq<Seq<char>>) -> Seq<AlertView>
    decreases names.len(),
{
    if names.len() == 0 {
        Seq::empty()
    } else {
        let rest = missing_alerts(names.drop_last(), incoming);
        let n = names.last();
        if incoming.contains(n) {
            rest
        } else {
            rest.push((Severity::Critical, AlertType::Schema, Some(n), None, "Missing required feature: "@ + n))
        }
    }
}

/// A WARN schema alert for each name in `names` that `baseline` lacks.
pub open spec fn extra_alerts(names: Seq<Seq<char>>, baseline: Seq<Seq<char>>) -> Seq<AlertView>
    decreases names.len(),
{
    if names.len() == 0 {
        Seq::empty()
    } else {
        let rest = extra_alerts(names.drop_last(), baseline);
        let n = names.last();
        if baseline.contains(n) {
            rest
        } else {
            rest.push((Severity::Warn, AlertType::Schema, Some(n), None, "Extra feature detected: "@ + n))
        }
    }
}

/// A drift alert for each feature whose drift reaches a threshold.
pub open spec fn drift_alerts(drifts: Seq<(Seq<char>, int)>, th: AlertThresholds) -> Seq<AlertView>
    decreases drifts.len(),
{
    if drifts.len() == 0 {
        Seq::empty()
    } else {
        let rest = drift_alerts(drifts.drop_last(), th);
        let (n, v) = drifts.last();
        match severity_for(v, th.feature_drift_warn as int, th.feature_drift_critical as int) {
            Some(s) => rest.push((s, AlertType::FeatureDrift, Some(n), Some(v),
                "Feature '"@ + n + "' drift detected: "@ + metric_text(v) + " (threshold: "@ + severity_word(s) + ")"@)),
            None => rest,
        }
    }
}

/// At most one alert for the prediction shift.
pub open spec fn shift_alerts(shift: int, baseline_rate: int, incoming_rate: int, th: AlertThresholds) -> Seq<AlertView> {
    match severity_for(shift, th.prediction_shift_warn as int, th.prediction_shift_critical as int) {
        Some(s) => seq![(s, AlertType::PredictionShift, None, Some(shift),
            "Prediction rate shift detected: "@ + metric_text(shift) + " (baseline: "@ + decimal_text(baseline_rate, 9)
                + ", incoming: "@ + decimal_text(incoming_rate, 9) + ")"@)],
        None => Seq::empty(),
    }
}

pub open spec fn feature_names(features: Seq<FeatureStats>) -> Seq<Seq<char>> {
    features.map_values(|f: FeatureStats| f.name@)
}

/// Every alert of one evaluation, in order: missing features, extra
/// features, feature drift, prediction shift.
pub open spec fn expected_alerts(
    baseline_names: Seq<Seq<char>>,
    headers: Seq<Seq<char>>,
    drifts: Seq<(Seq<char>, int)>,
    shift: int,
    baseline_rate: int,
    incoming_rate: int,
    th: AlertThresholds,
) -> Seq<AlertView> {
    let incoming = feature_columns(headers);
    missing_alerts(distinct(baseline_names), incoming) + extra_alerts(distinct(incoming), baseline_names)
        + drift_alerts(drifts, th) + shift_alerts(shift, baseline_rate, incoming_rate, th)
}

/// The worst severity among the alerts.
pub open spec fn health_of(alerts: Seq<AlertView>) -> HealthStatus {
    if exists|i: int| 0 <= i < alerts.len() && (#[trigger] alerts[i]).0 == Severity::Critical {
        HealthStatus::Critical
    } else if alerts.len() > 0 {
        HealthStatus::Warn
    } else {
        HealthStatus::Healthy
    }
}

} // verus!

verus! {

pub fn contains_name(names: &Vec<String>, n: &String) -> (r: bool)
    ensures
        r == views(names@).contains(n@),
{
    let mut j: usize = 0;
    while j < names.len()
        invariant
            j <= names.len(),
            forall|t: int| 0 <= t < j ==> names[t]@ != n@,
        decreases names.len() - j,
    {
        if names[j] == *n {
            assert(views(names@)[j as int] == n@);
            return true;
        }
        j = j + 1;
    }
    proof {
        if views(names@).contains(n@) {
            let t = choose|t: int| 0 <= t < names.len() && views(names@)[t] == n@;
            assert(names[t]@ == n@);
        }
    }
    false
}

/// The distinct names, in order of first occurrence.
pub fn distinct_names(names: &Vec<String>) -> (r: Vec<String>)
    ensures
        views(r@) == distinct(views(names@)),
{
    let ghost ns = views(names@);
    let mut out: Vec<String> = Vec::new();
    let mut i: usize = 0;
    while i < names.len()
        invariant
            i <= names.len(),
            ns == views(names@),
            views(out@) == distinct(ns.take(i as int)),
        decreases names.len() - i,
    {
        assert(ns.take(i + 1).drop_last() == ns.take(i as int));
        assert(ns.take(i + 1).last() == names[i as int]@);
        if !contains_name(&out, &names[i]) {
            let ghost before = out@;
            out.push(names[i].clone());
            assert(views(out@) =~= views(before).push(names[i as int]@));
        }
        i = i + 1;
    }
    assert(ns.take(i as int) == ns);
    out
}

/// The header names that are not reserved.
pub fn feature_column_names(headers: &Vec<String>) -> (r: Vec<String>)
    ensures
        views(r@) == feature_columns(views(headers@)),
{
    let ghost ns = views(headers@);
    let mut out: Vec<String> = Vec::new();
    let mut i: usize = 0;
    while i < headers.len()
        invariant
            i <= headers.len(),
            ns == views(headers@),
            views(out@) == feature_columns(ns.take(i as int)),
        decreases headers.len() - i,
    {
        assert(ns.take(i + 1).drop_last() == ns.take(i as int));
        assert(ns.take(i + 1).last() == headers[i as int]@);
        if !is_reserved_name(&headers[i]) {
            let ghost before = out@;
            out.push(headers[i].clone());
            assert(views(out@) =~= views(before).push(headers[i as int]@));
        }
        i = i + 1;
    }
    assert(ns.take(i as int) == ns);
    out
}

fn classify(v: u128, warn: u128, critical: u128) -> (r: Option<Severity>)
    ensures
        r == severity_for(v as int, warn as int, critical as int),
{
    if v >= critical {
        Some(Severity::Critical)
    } else if v >= warn {
        Some(Severity::Warn)
    } else {
        None
    }
}

fn write_metric(out: &mut String, v: u128)
    requires
        v <= 2 * VALUE_BOUND * 1_000_000_000,
    ensures
        final(out)@ == old(out)@ + metric_text(v as int),
{
    let q = v / MESSAGE_UNIT;
    write_decimal(out, q as i128, 4);
}

fn push_severity(out: &mut String, s: Severity)
    ensures
        final(out)@ == old(out)@ + severity_word(s),
{
    match s {
        Severity::Critical => push_str(out, "CRITICAL"),
        Severity::Warn => push_str(out, "WARN"),
    }
}

/// The alerts of one evaluation and its health.  `drift_result` holds one
/// drift per baseline feature; `baseline_rate` is the baseline's prediction
/// rate, quoted in the prediction shift message.
pub fn generate_alerts(
    drift_result: &DriftResult,
    baseline_features: &Vec<FeatureStats>,
    baseline_rate: i128,
    incoming_headers: &Vec<String>,
    thresholds: &AlertThresholds,
) -> (r: (Vec<AlertDraft>, HealthStatus))
    requires
        forall|i: int| 0 <= i < drift_result.feature_drifts.len() ==> #[trigger] drift_result.feature_drifts[i].1 <= PROB_ONE,
        drift_result.prediction_shift <= 2 * VALUE_BOUND * 1_000_000_000,
    ensures
        alert_views(r.0@) == expected_alerts(
            feature_names(baseline_features@),
            views(incoming_headers@),
            drift_entries(drift_result.feature_drifts@),
            drift_result.prediction_shift as int,
            baseline_rate as int,
            drift_result.incoming_prediction_rate as int,
            *thresholds,
        ),
        r.1 == health_of(alert_views(r.0@)),
{
    let mut bnames: Vec<String> = Vec::new();
    let mut i: usize = 0;
    while i < baseline_features.len()
        invariant
            i <= baseline_features.len(),
            views(bnames@) == feature_names(baseline_features@.take(i as int)),
        decreases baseline_features.len() - i,
    {
        let ghost before = bnames@;
        bnames.push(baseline_features[i].name.clone());
        assert(views(bnames@) =~= views(before).push(baseline_features[i as int].name@));
        assert(baseline_features@.take(i + 1) =~= baseline_features@.take(i as int).push(baseline_features[i as int]));
        assert(views(bnames@) =~= feature_names(baseline_features@.take(i + 1)));
        i = i + 1;
    }
    assert(baseline_features@.take(i as int) == baseline_features@);
    let ghost bn = views(bnames@);
    let unique_baseline = distinct_names(&bnames);
    let incoming = feature_column_names(incoming_headers);
    let unique_incoming = distinct_names(&incoming);
    let ghost inc = views(incoming@);
    let ghost ub = views(unique_baseline@);
    let ghost ui = views(unique_incoming@);

    let mut alerts: Vec<AlertDraft> = Vec::new();
    let mut j: usize = 0;
    while j < unique_baseline.len()
        invariant
            j <= unique_baseline.len(),
            ub == views(unique_baseline@),
            inc == views(incoming@),
            alert_views(alerts@) == missing_alerts(ub.take(j as int), inc),
        decreases unique_baseline.len() - j,
    {
        let n = &unique_baseline[j];
        assert(ub.take(j + 1).drop_last() == ub.take(j as int));
        assert(ub.take(j + 1).last() == n@);
        if !contains_name(&incoming, n) {
            let mut message = String::new();
            push_str(&mut message, "Missing required feature: ");
            push_str(&mut message, n.as_str());
            let ghost before = alerts@;
            alerts.push(AlertDraft {
                severity: Severity::Critical,
                alert_type: AlertType::Schema,
                feature_name: Some(n.clone()),
                metric_value: None,
                message,
            });
            assert(alert_views(alerts@) =~= alert_views(before).push(
                (Severity::Critical, AlertType::Schema, Some(n@), None, "Missing required feature: "@ + n@)));
        }
        j = j + 1;
    }
    assert(ub.take(j as int) == ub);
    let ghost part1 = alert_views(alerts@);

    let mut j: usize = 0;
    while j < unique_incoming.len()
        invariant
            j <= unique_incoming.len(),
            ui == views(unique_incoming@),
            bn == views(bnames@),
            alert_views(alerts@) == part1 + extra_alerts(ui.take(j as int), bn),
        decreases unique_incoming.len() - j,
    {
        let n = &unique_incoming[j];
        assert(ui.take(j + 1).drop_last() == ui.take(j as int));
        assert(ui.take(j + 1).last() == n@);
        if !contains_name(&bnames, n) {
            let mut message = String::new();
            push_str(&mut message, "Extra feature detected: ");
            push_str(&mut message, n.as_str());
            let ghost before = alerts@;
            alerts.push(AlertDraft {
                severity: Severity::Warn,
                alert_type: AlertType::Schema,
                feature_name: Some(n.clone()),
                metric_value: None,
                message,
            });
            assert(alert_views(alerts@) =~= alert_views(before).push(
                (Severity::Warn, AlertType::Schema, Some(n@), None, "Extra feature detected: "@ + n@)));
        }
        j = j + 1;
    }
    assert(ui.take(j as int) == ui);
    let ghost part2 = alert_views(alerts@);

    let ghost ds = drift_entries(drift_result.feature_drifts@);
    let mut j: usize = 0;
    while j < drift_result.feature_drifts.len()
        invariant
            j <= drift_result.feature_drifts.len(),
            ds == drift_entries(drift_result.feature_drifts@),
            forall|t: int| 0 <= t < drift_result.feature_drifts.len() ==> #[trigger] drift_result.feature_drifts[t].1 <= PROB_ONE,
            alert_views(alerts@) == part2 + drift_alerts(ds.take(j as int), *thresholds),
        decreases drift_result.feature_drifts.len() - j,
    {
        let n = &drift_result.feature_drifts[j].0;
        let v = drift_result.feature_drifts[j].1;
        assert(ds.take(j + 1).drop_last() == ds.take(j as int));
        assert(ds.take(j + 1).last() == (n@, v as int));
        match classify(v as u128, thresholds.feature_drift_warn as u128, thresholds.feature_drift_critical as u128) {
            Some(s) => {
                let mut message = String::new();
                push_str(&mut message, "Feature '");
                push_str(&mut message, n.as_str());
                push_str(&mut message, "' drift detected: ");
                write_metric(&mut message, v as u128);
                push_str(&mut message, " (threshold: ");
                push_severity(&mut message, s);
                push_str(&mut message, ")");
                let ghost before = alerts@;
                alerts.push(AlertDraft {
                    severity: s,
                    alert_type: AlertType::FeatureDrift,
                    feature_name: Some(n.clone()),
                    metric_value: Some(v as u128),
                    message,
                });
                assert(alert_views(alerts@) =~= alert_views(before).push(
                    (s, AlertType::FeatureDrift, Some(n@), Some(v as int),
                    "Feature '"@ + n@ + "' drift detected: "@ + metric_text(v as int) + " (threshold: "@ + severity_word(s) + ")"@)));
            },
            None => {},
        }
        j = j + 1;
    }
    assert(ds.take(j as int) == ds);
    let ghost part3 = alert_views(alerts@);

    let shift = drift_result.prediction_shift;
    match classify(shift, thresholds.prediction_shift_warn, thresholds.prediction_shift_critical) {
        Some(s) => {
            let mut message = String::new();
            push_str(&mut message, "Prediction rate shift detected: ");
            write_metric(&mut message, shift);
            push_str(&mut message, " (baseline: ");
            write_decimal(&mut message, baseline_rate, 9);
            push_str(&mut message, ", incoming: ");
            write_decimal(&mut message, drift_result.incoming_prediction_rate, 9);
            push_str(&mut message, ")");
            alerts.push(AlertDraft {
                severity: s,
                alert_type: AlertType::PredictionShift,
                feature_name: None,
                metric_value: Some(shift),
                message,
            });
            assert(alert_views(alerts@) =~= part3 + shift_alerts(shift as int, baseline_rate as int,
                drift_result.incoming_prediction_rate as int, *thresholds));
        },
        None => {
            assert(alert_views(alerts@) =~= part3 + shift_alerts(shift as int, baseline_rate as int,
                drift_result.incoming_prediction_rate as int, *thresholds));
        },
    }
    let ghost all = alert_views(alerts@);
    let mut health = HealthStatus::Healthy;
    let mut k: usize = 0;
    while k < alerts.len()
        invariant
            k <= alerts.len(),
            all == alert_views(alerts@),
            health == health_of(all.take(k as int)),
        decreases alerts.len() - k,
    {
        let ghost t = all.take(k + 1);
        assert(t.drop_last() == all.take(k as int));
        assert(t[k as int] == alerts[k as int]@);
        assert forall|x: int| 0 <= x < k implies #[trigger] t[x] == all.take(k as int)[x] by {}
        match alerts[k].severity {
            Severity::Critical => {
                health = HealthStatus::Critical;
            },
            Severity::Warn => {
                if health == HealthStatus::Healthy {
                    health = HealthStatus::Warn;
                }
            },
        }
        proof {
            if exists|x: int| 0 <= x < k && (#[trigger] all.take(k as int)[x]).0 == Severity::Critical {
                let x = choose|x: int| 0 <= x < k && (#[trigger] all.take(k as int)[x]).0 == Severity::Critical;
                assert(t[x].0 == Severity::Critical);
            }
            if exists|x: int| 0 <= x < k + 1 && (#[trigger] t[x]).0 == Severity::Critical {
                let x = choose|x: int| 0 <= x < k + 1 && (#[trigger] t[x]).0 == Severity::Critical;
                if x < k {
                    assert(all.take(k as int)[x].0 == Severity::Critical);
                }
            }
        }
        k = k + 1;
    }
    assert(all.take(k as int) == all);
    (alerts, health)
}

} // verus!

verus! {

/// How many alerts have the given severity, type and feature name.
pub open spec fn count_alerts(a: Seq<AlertView>, s: Severity, t: AlertType, name: Seq<char>) -> nat
    decreases a.len(),
{
    if a.len() == 0 {
        0
    } else {
        count_alerts(a.drop_last(), s, t, name) + if a.last().0 == s && a.last().1 == t && a.last().2 == Some(name) {
            1nat
        } else {
            0nat
        }
    }
}

/// How many alerts of type `t`, of any severity, name `name`.
pub open spec fn count_typed(a: Seq<AlertView>, t: AlertType, name: Seq<char>) -> nat {
    count_alerts(a, Severity::Warn, t, name) + count_alerts(a, Severity::Critical, t, name)
}

proof fn lemma_count_push(a: Seq<AlertView>, x: AlertView, s: Severity, t: AlertType, name: Seq<char>)
    ensures
        count_alerts(a.push(x), s, t, name) == count_alerts(a, s, t, name) + if x.0 == s && x.1 == t && x.2 == Some(name) {
            1nat
        } else {
            0nat
        },
{
    assert(a.push(x).drop_last() =~= a);
}

proof fn lemma_count_shift(shift: int, baseline_rate: int, incoming_rate: int, th: AlertThresholds, s: Severity, t: AlertType, name: Seq<char>)
    ensures
        count_alerts(shift_alerts(shift, baseline_rate, incoming_rate, th), s, t, name) == 0,
{
    let sh = shift_alerts(shift, baseline_rate, incoming_rate, th);
    if sh.len() > 0 {
        lemma_count_push(Seq::empty(), sh[0], s, t, name);
        assert(sh =~= Seq::<AlertView>::empty().push(sh[0]));
    }
}

proof fn lemma_count_concat(a: Seq<AlertView>, b: Seq<AlertView>, s: Severity, t: AlertType, name: Seq<char>)
    ensures
        count_alerts(a + b, s, t, name) == count_alerts(a, s, t, name) + count_alerts(b, s, t, name),
    decreases b.len(),
{
    if b.len() > 0 {
        lemma_count_concat(a, b.drop_last(), s, t, name);
        assert((a + b).drop_last() == a + b.drop_last());
    } else {
        assert(a + b == a);
    }
}

proof fn lemma_count_missing(names: Seq<Seq<char>>, incoming: Seq<Seq<char>>, s: Severity, t: AlertType, name: Seq<char>)
    requires
        crate::model::keys_unique(names),
    ensures
        count_alerts(missing_alerts(names, incoming), s, t, name) == if s == Severity::Critical && t == AlertType::Schema
            && names.contains(name) && !incoming.contains(name) {
            1nat
        } else {
            0nat
        },
    decreases names.len(),
{
    if names.len() > 0 {
        crate::drift::lemma_unique_prefix(names);
        lemma_count_missing(names.drop_last(), incoming, s, t, name);
        let d = names.drop_last();
        let n = names.last();
        lemma_count_push(missing_alerts(d, incoming), (Severity::Critical, AlertType::Schema, Some(n), None, "Missing required feature: "@ + n), s, t, name);
        if d.contains(name) {
            let i = choose|i: int| 0 <= i < d.len() && d[i] == name;
            assert(names[i] == name);
        }
        if names.contains(name) && names.last() != name {
            let i = choose|i: int| 0 <= i < names.len() && names[i] == name;
            assert(d[i] == name);
        }
        if names.last() == name {
            assert(names[names.len() - 1] == name);
        }
    }
}

proof fn lemma_count_extra(names: Seq<Seq<char>>, baseline: Seq<Seq<char>>, s: Severity, t: AlertType, name: Seq<char>)
    requires
        crate::model::keys_unique(names),
    ensures
        count_alerts(extra_alerts(names, baseline), s, t, name) == if s == Severity::Warn && t == AlertType::Schema
            && names.contains(name) && !baseline.contains(name) {
            1nat
        } else {
            0nat
        },
    decreases names.len(),
{
    if names.len() > 0 {
        crate::drift::lemma_unique_prefix(names);
        lemma_count_extra(names.drop_last(), baseline, s, t, name);
        let d = names.drop_last();
        let n = names.last();
        lemma_count_push(extra_alerts(d, baseline), (Severity::Warn, AlertType::Schema, Some(n), None, "Extra feature detected: "@ + n), s, t, name);
        if d.contains(name) {
            let i = choose|i: int| 0 <= i < d.len() && d[i] == name;
            assert(names[i] == name);
        }
        if names.contains(name) && names.last() != name {
            let i = choose|i: int| 0 <= i < names.len() && names[i] == name;
            assert(d[i] == name);
        }
        if names.last() == name {
            assert(names[names.len() - 1] == name);
        }
    }
}

proof fn lemma_count_drift(drifts: Seq<(Seq<char>, int)>, th: AlertThresholds, s: Severity, t: AlertType, name: Seq<char>)
    requires
        th.feature_drift_warn > 0,
        forall|i: int| 0 <= i < drifts.len() && (#[trigger] drifts[i]).0 == name ==> drifts[i].1 == 0,
        t != AlertType::FeatureDrift || th.feature_drift_warn <= th.feature_drift_critical,
    ensures
        count_alerts(drift_alerts(drifts, th), s, t, name) == 0,
    decreases drifts.len(),
{
    if drifts.len() > 0 {
        let d = drifts.drop_last();
        assert forall|i: int| 0 <= i < d.len() && (#[trigger] d[i]).0 == name implies d[i].1 == 0 by {
            assert(d[i] == drifts[i]);
        }
        lemma_count_drift(d, th, s, t, name);
        assert(drifts.last() == drifts[drifts.len() - 1]);
        let (n, v) = drifts.last();
        let sv = severity_for(v, th.feature_drift_warn as int, th.feature_drift_critical as int);
        if let Some(x) = sv {
            lemma_count_push(drift_alerts(d, th), (x, AlertType::FeatureDrift, Some(n), Some(v),
                "Feature '"@ + n + "' drift detected: "@ + metric_text(v) + " (threshold: "@ + severity_word(x) + ")"@), s, t, name);
        }
    }
}

pub proof fn lemma_cell_absent(cols: Seq<Seq<char>>, row: Seq<Seq<char>>, name: Seq<char>, j: int)
    requires
        !cols.contains(name),
    ensures
        cell_at_is_none(cols, row, name, j),
    decreases j,
{
    if 0 < j <= cols.len() && j <= row.len() {
        assert(cols[j - 1] != name);
        lemma_cell_absent(cols, row, name, j - 1);
    }
}

pub open spec fn cell_at_is_none(cols: Seq<Seq<char>>, row: Seq<Seq<char>>, name: Seq<char>, j: int) -> bool {
    crate::table::cell_at(cols, row, name, j) is None
}

/// A column that the header lacks has no fields.
pub proof fn lemma_column_absent(cols: Seq<Seq<char>>, rows: Seq<Seq<Seq<char>>>, name: Seq<char>)
    requires
        !cols.contains(name),
    ensures
        crate::table::column_cells(cols, rows, name).len() == 0,
    decreases rows.len(),
{
    if rows.len() > 0 {
        lemma_column_absent(cols, rows.drop_last(), name);
        let row = rows.last();
        lemma_cell_absent(cols, row, name, vstd::math::min(cols.len() as int, row.len() as int));
    }
}

/// A baseline feature that the incoming header lacks raises exactly one
/// CRITICAL schema alert naming it and no drift alert: the scorer gives it a
/// drift of 0.
pub proof fn lemma_missing_feature_alert(
    features: Seq<FeatureStats>,
    headers: Seq<Seq<char>>,
    recs: Seq<Seq<Seq<char>>>,
    shift: int,
    baseline_rate: int,
    incoming_rate: int,
    th: AlertThresholds,
    name: Seq<char>,
)
    requires
        feature_names(features).contains(name),
        !headers.contains(name),
        0 < th.feature_drift_warn <= th.feature_drift_critical,
    ensures
        count_alerts(
            expected_alerts(feature_names(features), headers, crate::drift::expected_drifts(features, headers, recs), shift, baseline_rate, incoming_rate, th),
            Severity::Critical,
            AlertType::Schema,
            name,
        ) == 1,
        count_typed(
            expected_alerts(feature_names(features), headers, crate::drift::expected_drifts(features, headers, recs), shift, baseline_rate, incoming_rate, th),
            AlertType::FeatureDrift,
            name,
        ) == 0,
{
    let bn = feature_names(features);
    let incoming = feature_columns(headers);
    let drifts = crate::drift::expected_drifts(features, headers, recs);
    let m = missing_alerts(distinct(bn), incoming);
    let e = extra_alerts(distinct(incoming), bn);
    let d = drift_alerts(drifts, th);
    let sh = shift_alerts(shift, baseline_rate, incoming_rate, th);
    crate::categories::lemma_distinct_unique(bn);
    crate::categories::lemma_distinct_unique(incoming);
    crate::categories::lemma_distinct_contains(bn, name);
    lemma_feature_columns_subset(headers, name);
    assert forall|i: int| 0 <= i < drifts.len() && (#[trigger] drifts[i]).0 == name implies drifts[i].1 == 0 by {
        let f = features[i];
        lemma_column_absent(headers, recs, name);
        assert(crate::table::column_cells(headers, recs, name) =~= Seq::<Seq<char>>::empty());
        assert(crate::baseline::parsed_values(Seq::<Seq<char>>::empty()).len() == 0);
        assert(crate::categories::category_values(Seq::<Seq<char>>::empty()).len() == 0);
        assert(distinct(Seq::<Seq<char>>::empty()).len() == 0);
    }
    lemma_count_shift(shift, baseline_rate, incoming_rate, th, Severity::Critical, AlertType::Schema, name);
    lemma_count_concat(m, e, Severity::Critical, AlertType::Schema, name);
    lemma_count_concat(m + e, d, Severity::Critical, AlertType::Schema, name);
    lemma_count_concat(m + e + d, sh, Severity::Critical, AlertType::Schema, name);
    lemma_count_missing(distinct(bn), incoming, Severity::Critical, AlertType::Schema, name);
    lemma_count_extra(distinct(incoming), bn, Severity::Critical, AlertType::Schema, name);
    lemma_count_drift(drifts, th, Severity::Critical, AlertType::Schema, name);
    let sevs = seq![Severity::Warn, Severity::Critical];
    assert forall|k: int| 0 <= k < 2 implies #[trigger] count_alerts(m + e + d + sh, sevs[k], AlertType::FeatureDrift, name) == 0 by {
        let s = sevs[k];
        lemma_count_concat(m, e, s, AlertType::FeatureDrift, name);
        lemma_count_concat(m + e, d, s, AlertType::FeatureDrift, name);
        lemma_count_concat(m + e + d, sh, s, AlertType::FeatureDrift, name);
        lemma_count_missing(distinct(bn), incoming, s, AlertType::FeatureDrift, name);
        lemma_count_extra(distinct(incoming), bn, s, AlertType::FeatureDrift, name);
        lemma_count_drift(drifts, th, s, AlertType::FeatureDrift, name);
        lemma_count_shift(shift, baseline_rate, incoming_rate, th, s, AlertType::FeatureDrift, name);
    }
    assert(count_alerts(m + e + d + sh, sevs[0], AlertType::FeatureDrift, name) == 0);
    assert(count_alerts(m + e + d + sh, sevs[1], AlertType::FeatureDrift, name) == 0);
}

/// A non-reserved incoming column that the baseline lacks raises exactly one
/// WARN schema alert naming it.
pub proof fn lemma_extra_column_alert(
    baseline_names: Seq<Seq<char>>,
    headers: Seq<Seq<char>>,
    drifts: Seq<(Seq<char>, int)>,
    shift: int,
    baseline_rate: int,
    incoming_rate: int,
    th: AlertThresholds,
    name: Seq<char>,
)
    requires
        headers.contains(name),
        !is_reserved(name),
        !baseline_names.contains(name),
    ensures
        count_alerts(
            expected_alerts(baseline_names, headers, drifts, shift, baseline_rate, incoming_rate, th),
            Severity::Warn,
            AlertType::Schema,
            name,
        ) == 1,
{
    let incoming = feature_columns(headers);
    let m = missing_alerts(distinct(baseline_names), incoming);
    let e = extra_alerts(distinct(incoming), baseline_names);
    let d = drift_alerts(drifts, th);
    let sh = shift_alerts(shift, baseline_rate, incoming_rate, th);
    crate::categories::lemma_distinct_unique(baseline_names);
    crate::categories::lemma_distinct_unique(incoming);
    let i = choose|i: int| 0 <= i < headers.len() && headers[i] == name;
    crate::baseline::lemma_feature_columns_member(headers, i);
    let j = choose|j: int| 0 <= j < incoming.len() && incoming[j] == headers[i];
    assert(incoming.contains(name));
    crate::categories::lemma_distinct_contains(incoming, name);
    lemma_count_concat(m, e, Severity::Warn, AlertType::Schema, name);
    lemma_count_concat(m + e, d, Severity::Warn, AlertType::Schema, name);
    lemma_count_concat(m + e + d, sh, Severity::Warn, AlertType::Schema, name);
    lemma_count_missing(distinct(baseline_names), incoming, Severity::Warn, AlertType::Schema, name);
    lemma_count_extra(distinct(incoming), baseline_names, Severity::Warn, AlertType::Schema, name);
    lemma_count_drift_schema(drifts, th, Severity::Warn, name);
    lemma_count_shift(shift, baseline_rate, incoming_rate, th, Severity::Warn, AlertType::Schema, name);
}

proof fn lemma_count_drift_schema(drifts: Seq<(Seq<char>, int)>, th: AlertThresholds, s: Severity, name: Seq<char>)
    ensures
        count_alerts(drift_alerts(drifts, th), s, AlertType::Schema, name) == 0,
    decreases drifts.len(),
{
    if drifts.len() > 0 {
        lemma_count_drift_schema(drifts.drop_last(), th, s, name);
        let d = drifts.drop_last();
        let (n, v) = drifts.last();
        let sv = severity_for(v, th.feature_drift_warn as int, th.feature_drift_critical as int);
        if let Some(x) = sv {
            lemma_count_push(drift_alerts(d, th), (x, AlertType::FeatureDrift, Some(n), Some(v),
                "Feature '"@ + n + "' drift detected: "@ + metric_text(v) + " (threshold: "@ + severity_word(x) + ")"@), s, AlertType::Schema, name);
        }
    }
}

proof fn lemma_feature_columns_subset(headers: Seq<Seq<char>>, name: Seq<char>)
    requires
        !headers.contains(name),
    ensures
        !feature_columns(headers).contains(name),
    decreases headers.len(),
{
    if headers.len() > 0 {
        let d = headers.drop_last();
        if d.contains(name) {
            let i = choose|i: int| 0 <= i < d.len() && d[i] == name;
            assert(headers[i] == name);
        }
        lemma_feature_columns_subset(d, name);
        assert(headers[headers.len() - 1] != name);
        let fc = feature_columns(d);
        if !is_reserved(headers.last()) && fc.push(headers.last()).contains(name) {
            let k = choose|k: int| 0 <= k < fc.len() + 1 && fc.push(headers.last())[k] == name;
            if k < fc.len() {
                assert(fc[k] == name);
            }
        }
    }
}

} // verus!
