use drift_guard::alerts::{
    FEATURE_DRIFT_CRITICAL_THRESHOLD, FEATURE_DRIFT_WARN_THRESHOLD,
    PREDICTION_SHIFT_CRITICAL_THRESHOLD, PREDICTION_SHIFT_WARN_THRESHOLD,
};
use drift_guard::baseline::{
    build_categorical_frequencies, build_numeric_histogram, compute_prediction_rate,
    infer_feature_types,
};
use drift_guard::drift::{
    compute_categorical_drift, compute_feature_drift, compute_numeric_drift,
    compute_prediction_shift,
};
use drift_guard::model::{
    CategoricalStats, FeatureStats, FeatureStatsData, FeatureType, NumericStats, PROB_ONE,
    VALUE_SCALE,
};
use drift_guard::table::{cell, parse_csv, Table};

fn prob(units: u64) -> f64 {
    units as f64 / PROB_ONE as f64
}

fn prob_wide(units: u128) -> f64 {
    units as f64 / PROB_ONE as f64
}

fn prob_units(p: f64) -> u64 {
    (p * PROB_ONE as f64).round() as u64
}

fn value_units(v: f64) -> i128 {
    (v * VALUE_SCALE as f64).round() as i128
}

fn strings(v: &[&str]) -> Vec<String> {
    v.iter().map(|s| s.to_string()).collect()
}

fn frequency(stats: &CategoricalStats, key: &str) -> Option<f64> {
    stats.frequencies.iter().find(|(k, _)| k == key).map(|(_, p)| prob(*p))
}

fn type_of(types: &[(String, FeatureType)], name: &str) -> Option<FeatureType> {
    types.iter().find(|(n, _)| n == name).map(|(_, t)| *t)
}

#[test]
fn test_alert_thresholds() {
    assert_eq!(prob(FEATURE_DRIFT_WARN_THRESHOLD), 0.10);
    assert_eq!(prob(FEATURE_DRIFT_CRITICAL_THRESHOLD), 0.20);
    assert_eq!(prob_wide(PREDICTION_SHIFT_WARN_THRESHOLD), 0.10);
    assert_eq!(prob_wide(PREDICTION_SHIFT_CRITICAL_THRESHOLD), 0.20);
}

#[test]
fn test_severity_determination() {
    let warn_drift = 0.15;
    let critical_drift = 0.25;

    assert!(warn_drift >= prob(FEATURE_DRIFT_WARN_THRESHOLD));
    assert!(warn_drift < prob(FEATURE_DRIFT_CRITICAL_THRESHOLD));
    assert!(critical_drift >= prob(FEATURE_DRIFT_CRITICAL_THRESHOLD));

    let warn_shift = 0.15;
    let critical_shift = 0.25;

    assert!(warn_shift >= prob_wide(PREDICTION_SHIFT_WARN_THRESHOLD));
    assert!(warn_shift < prob_wide(PREDICTION_SHIFT_CRITICAL_THRESHOLD));
    assert!(critical_shift >= prob_wide(PREDICTION_SHIFT_CRITICAL_THRESHOLD));
}

#[test]
fn test_parse_csv() {
    let csv_data = "prediction,income,age\n0,25000,25\n1,30000,28\n";
    let table = parse_csv(csv_data.as_bytes()).unwrap();

    assert_eq!(table.columns, vec!["prediction", "income", "age"]);
    assert_eq!(table.rows.len(), 2);
    assert_eq!(
        cell(&table.columns, &table.rows[0], &"prediction".to_string()),
        Some(&"0".to_string())
    );
    assert_eq!(
        cell(&table.columns, &table.rows[0], &"income".to_string()),
        Some(&"25000".to_string())
    );
}

#[test]
fn test_infer_feature_types() {
    let table = Table {
        columns: strings(&["income", "location"]),
        rows: vec![strings(&["25000", "urban"])],
    };

    let feature_names = vec!["income".to_string(), "location".to_string()];
    let types = infer_feature_types(&table, &feature_names);

    assert_eq!(type_of(&types, "income"), Some(FeatureType::Numeric));
    assert_eq!(type_of(&types, "location"), Some(FeatureType::Categorical));
}

#[test]
fn test_compute_prediction_rate() {
    let mut rows = Vec::new();
    for i in 0..10 {
        rows.push(vec![if i < 3 { "1".to_string() } else { "0".to_string() }]);
    }
    let table = Table { columns: strings(&["prediction"]), rows };

    let rate = compute_prediction_rate(&table);
    let rate = rate as f64 / VALUE_SCALE as f64;
    assert!((rate - 0.3).abs() < 0.001);
}

#[test]
fn test_build_numeric_histogram() {
    let mut rows = Vec::new();
    for i in 0..10 {
        rows.push(vec![(10000 + i * 1000).to_string()]);
    }
    let table = Table { columns: strings(&["income"]), rows };

    let stats = build_numeric_histogram(&table, &"income".to_string());
    assert_eq!(stats.bins.len(), 11);
    assert_eq!(stats.probabilities.len(), 10);
    let sum: f64 = stats.probabilities.iter().map(|p| prob(*p)).sum();
    assert!((sum - 1.0).abs() < 0.001);
}

#[test]
fn test_build_categorical_frequencies() {
    let mut rows = Vec::new();
    let locations = vec!["urban", "suburban", "urban", "rural", "suburban"];
    for location in locations {
        rows.push(vec![location.to_string()]);
    }
    let table = Table { columns: strings(&["location"]), rows };

    let stats = build_categorical_frequencies(&table, &"location".to_string());
    assert!((frequency(&stats, "urban").unwrap() - 0.4).abs() < 0.001);
    assert!((frequency(&stats, "suburban").unwrap() - 0.4).abs() < 0.001);
    assert!((frequency(&stats, "rural").unwrap() - 0.2).abs() < 0.001);
}

#[test]
fn test_compute_prediction_shift() {
    let s = compute_prediction_shift(value_units(0.1), value_units(0.3));
    assert!((prob_wide(s) - 0.2).abs() < 0.001);
    let s = compute_prediction_shift(value_units(0.5), value_units(0.5));
    assert!((prob_wide(s) - 0.0).abs() < 0.001);
}

fn numeric(bins: &[f64], probabilities: &[f64]) -> NumericStats {
    NumericStats {
        bins: bins.iter().map(|b| value_units(*b)).collect(),
        probabilities: probabilities.iter().map(|p| prob_units(*p)).collect(),
    }
}

fn categorical(freqs: &[(&str, f64)]) -> CategoricalStats {
    CategoricalStats {
        frequencies: freqs.iter().map(|(k, p)| (k.to_string(), prob_units(*p))).collect(),
    }
}

#[test]
fn test_compute_numeric_drift_same_distribution() {
    let baseline = numeric(&[0.0, 10.0, 20.0, 30.0], &[0.5, 0.3, 0.2]);

    let incoming = strings(&["5", "5", "15", "15", "15", "25"]);
    let drift = prob(compute_numeric_drift(&baseline, &incoming));

    assert!(drift >= 0.0 && drift <= 1.0);
}

#[test]
fn test_compute_numeric_drift_different_distribution() {
    let baseline = numeric(&[0.0, 10.0, 20.0, 30.0], &[1.0, 0.0, 0.0]);

    let incoming = strings(&["25", "25", "25"]);
    let drift = prob(compute_numeric_drift(&baseline, &incoming));

    assert!(drift > 0.5);
}

#[test]
fn test_compute_categorical_drift_same() {
    let baseline = categorical(&[("urban", 0.5), ("suburban", 0.5)]);

    let incoming = strings(&["urban", "suburban"]);
    let drift = prob(compute_categorical_drift(&baseline, &incoming));

    assert!(drift < 0.5);
}

#[test]
fn test_compute_categorical_drift_different() {
    let baseline = categorical(&[("urban", 1.0), ("suburban", 0.0)]);

    let incoming = strings(&["suburban", "suburban", "suburban"]);
    let drift = prob(compute_categorical_drift(&baseline, &incoming));

    assert!(drift > 0.5);
}

#[test]
fn test_compute_feature_drift_numeric() {
    let baseline_stats = FeatureStats {
        name: "income".to_string(),
        feature_type: FeatureType::Numeric,
        stats: FeatureStatsData::Numeric(numeric(&[0.0, 10.0, 20.0], &[0.5, 0.5])),
    };

    let incoming = strings(&["5", "15"]);
    let drift = prob(compute_feature_drift(&baseline_stats, &incoming));
    assert!(drift >= 0.0 && drift <= 1.0);
}

#[test]
fn test_compute_feature_drift_categorical() {
    let baseline_stats = FeatureStats {
        name: "location".to_string(),
        feature_type: FeatureType::Categorical,
        stats: FeatureStatsData::Categorical(categorical(&[("urban", 1.0)])),
    };

    let incoming = strings(&["suburban"]);
    let drift = prob(compute_feature_drift(&baseline_stats, &incoming));
    assert!(drift > 0.5);
}
