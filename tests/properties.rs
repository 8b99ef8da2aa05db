use drift_guard::alerts::{AlertThresholds, AlertType, HealthStatus, Severity};
use drift_guard::baseline::{build_baseline_from_csv, parse_value};
use drift_guard::codec::{decode_feature_metadata, encode_feature_metadata};
use drift_guard::drift::compute_numeric_drift;
use drift_guard::model::{
    AlertFilter, CategoricalStats, FeatureStats, FeatureStatsData, FeatureType, NumericStats, PROB_ONE,
    VALUE_SCALE,
};
use drift_guard::service::evaluate_incoming;
use drift_guard::table::DriftError;

fn income_csv(values: &[i64]) -> String {
    let mut s = String::from("income\n");
    for v in values {
        s.push_str(&format!("{}\n", v));
    }
    s
}

fn ten_incomes() -> Vec<i64> {
    (0..10).map(|i| 10000 + i * 1000).collect()
}

#[test]
fn end_to_end_identical_batch_is_healthy() {
    let csv = income_csv(&ten_incomes());
    let baseline = build_baseline_from_csv(csv.as_bytes()).unwrap();
    assert_eq!(baseline.features.len(), 1);
    match &baseline.features[0].stats {
        FeatureStatsData::Numeric(n) => {
            assert_eq!(n.bins.len(), 11);
            assert_eq!(n.probabilities.len(), 10);
            let sum: u64 = n.probabilities.iter().sum();
            assert!(PROB_ONE - sum <= 10);
            assert_eq!(n.bins[0], 10000 * VALUE_SCALE);
            assert_eq!(n.bins[1], 10900 * VALUE_SCALE);
            assert_eq!(n.bins[10], 19000 * VALUE_SCALE);
        }
        _ => panic!("income should be numeric"),
    }
    let (resp, alerts) =
        evaluate_incoming(&baseline, csv.as_bytes(), &AlertThresholds::defaults()).unwrap();
    assert_eq!(resp.rows_processed, 10);
    assert_eq!(resp.alerts_created, 0);
    assert!(alerts.is_empty());
    assert_eq!(resp.health, "OK");
}

#[test]
fn missing_feature_raises_one_critical_schema_alert() {
    let baseline = build_baseline_from_csv(b"income,location\n1,urban\n2,rural\n").unwrap();
    let (resp, alerts) =
        evaluate_incoming(&baseline, b"income\n1\n2\n", &AlertThresholds::defaults()).unwrap();
    let schema: Vec<_> = alerts
        .iter()
        .filter(|a| a.alert_type == AlertType::Schema && a.feature_name.as_deref() == Some("location"))
        .collect();
    assert_eq!(schema.len(), 1);
    assert_eq!(schema[0].severity, Severity::Critical);
    assert_eq!(schema[0].message, "Missing required feature: location");
    assert!(!alerts
        .iter()
        .any(|a| a.alert_type == AlertType::FeatureDrift && a.feature_name.as_deref() == Some("location")));
    assert_eq!(resp.health, "CRITICAL");
}

#[test]
fn extra_column_raises_one_warn_schema_alert() {
    let baseline = build_baseline_from_csv(b"income\n1\n2\n").unwrap();
    let (resp, alerts) = evaluate_incoming(
        &baseline,
        b"income,region,prediction\n1,north,0\n2,south,0\n",
        &AlertThresholds::defaults(),
    )
    .unwrap();
    assert_eq!(alerts.len(), 1);
    assert_eq!(alerts[0].severity, Severity::Warn);
    assert_eq!(alerts[0].alert_type, AlertType::Schema);
    assert_eq!(alerts[0].feature_name.as_deref(), Some("region"));
    assert_eq!(alerts[0].message, "Extra feature detected: region");
    assert_eq!(resp.health, "WARN");
}

#[test]
fn prediction_shift_and_drift_alerts() {
    let baseline = build_baseline_from_csv(b"prediction,color\n0,red\n0,red\n0,red\n0,red\n").unwrap();
    assert_eq!(baseline.prediction_rate, 0);
    let (resp, alerts) = evaluate_incoming(
        &baseline,
        b"prediction,color\n1,blue\n1,blue\n1,red\n0,red\n",
        &AlertThresholds::defaults(),
    )
    .unwrap();
    assert_eq!(alerts.len(), 2);
    assert_eq!(alerts[0].alert_type, AlertType::FeatureDrift);
    assert_eq!(alerts[0].severity, Severity::Critical);
    assert_eq!(alerts[0].metric_value, Some(500_000_000_000_000_000));
    assert_eq!(alerts[0].message, "Feature 'color' drift detected: 0.5000 (threshold: CRITICAL)");
    assert_eq!(alerts[1].alert_type, AlertType::PredictionShift);
    assert_eq!(alerts[1].feature_name, None);
    assert_eq!(alerts[1].metric_value, Some(750_000_000_000_000_000));
    assert_eq!(
        alerts[1].message,
        "Prediction rate shift detected: 0.7500 (baseline: 0.000000000, incoming: 0.750000000)"
    );
    assert_eq!(resp.health, "CRITICAL");
    assert_eq!(HealthStatus::Critical.as_word(), "CRITICAL");
}

#[test]
fn categorical_frequencies_example() {
    let baseline =
        build_baseline_from_csv(b"location\nurban\nsuburban\nurban\nrural\nsuburban\n").unwrap();
    match &baseline.features[0].stats {
        FeatureStatsData::Categorical(c) => {
            let expected = vec![
                ("urban".to_string(), 400_000_000_000_000_000u64),
                ("suburban".to_string(), 400_000_000_000_000_000u64),
                ("rural".to_string(), 200_000_000_000_000_000u64),
            ];
            assert_eq!(c.frequencies, expected);
            let sum: u64 = c.frequencies.iter().map(|e| e.1).sum();
            assert_eq!(sum, PROB_ONE);
        }
        _ => panic!("location should be categorical"),
    }
}

#[test]
fn blank_column_is_categorical_with_empty_map() {
    let baseline = build_baseline_from_csv(b"a,b\n,1\n  ,2\n").unwrap();
    assert_eq!(baseline.features[0].feature_type, FeatureType::Categorical);
    match &baseline.features[0].stats {
        FeatureStatsData::Categorical(c) => assert!(c.frequencies.is_empty()),
        _ => panic!("blank column should be categorical"),
    }
    assert_eq!(baseline.features[1].feature_type, FeatureType::Numeric);
}

#[test]
fn equal_values_use_unit_width_bins() {
    let baseline = build_baseline_from_csv(b"x\n5\n5\n5\n").unwrap();
    match &baseline.features[0].stats {
        FeatureStatsData::Numeric(n) => {
            assert_eq!(n.bins[0], 5 * VALUE_SCALE);
            assert_eq!(n.bins[10], 15 * VALUE_SCALE);
            assert_eq!(n.probabilities[0], PROB_ONE);
            assert!(n.probabilities[1..].iter().all(|p| *p == 0));
        }
        _ => panic!("x should be numeric"),
    }
}

#[test]
fn opposite_bins_give_full_drift() {
    let baseline = NumericStats {
        bins: vec![0, 10 * VALUE_SCALE, 20 * VALUE_SCALE, 30 * VALUE_SCALE],
        probabilities: vec![PROB_ONE, 0, 0],
    };
    let incoming = vec!["25".to_string(), "29.5".to_string(), "1000".to_string()];
    assert_eq!(compute_numeric_drift(&baseline, &incoming), PROB_ONE);
}

#[test]
fn unparseable_incoming_column_gives_zero_drift() {
    let baseline = NumericStats {
        bins: vec![0, 10 * VALUE_SCALE, 20 * VALUE_SCALE],
        probabilities: vec![PROB_ONE / 2, PROB_ONE / 2],
    };
    let incoming = vec!["n/a".to_string(), "".to_string()];
    assert_eq!(compute_numeric_drift(&baseline, &incoming), 0);
}

#[test]
fn numeric_metadata_round_trip() {
    let stats = FeatureStats {
        name: "income".to_string(),
        feature_type: FeatureType::Numeric,
        stats: FeatureStatsData::Numeric(NumericStats {
            bins: vec![-1_500_000_000, 0, 2_250_000_000],
            probabilities: vec![250_000_000_000_000_000, 750_000_000_000_000_000],
        }),
    };
    let text = encode_feature_metadata(&stats);
    assert_eq!(
        text,
        "{\"bins\":[-1.500000000,0.000000000,2.250000000],\"probabilities\":[0.250000000000000000,0.750000000000000000]}"
    );
    match decode_feature_metadata(FeatureType::Numeric, &text).unwrap() {
        FeatureStatsData::Numeric(n) => {
            assert_eq!(n.bins, vec![-1_500_000_000, 0, 2_250_000_000]);
            assert_eq!(n.probabilities, vec![250_000_000_000_000_000, 750_000_000_000_000_000]);
        }
        _ => panic!("expected a histogram"),
    }
}

#[test]
fn categorical_metadata_round_trip_with_escapes() {
    let freqs = vec![
        ("say \"hi\"\\".to_string(), 500_000_000_000_000_000u64),
        ("tab\there".to_string(), 500_000_000_000_000_000u64),
    ];
    let stats = FeatureStats {
        name: "c".to_string(),
        feature_type: FeatureType::Categorical,
        stats: FeatureStatsData::Categorical(CategoricalStats { frequencies: freqs.clone() }),
    };
    let text = encode_feature_metadata(&stats);
    assert_eq!(
        text,
        "{\"frequencies\":{\"say \\\"hi\\\"\\\\\":0.500000000000000000,\"tab\\u0009here\":0.500000000000000000}}"
    );
    match decode_feature_metadata(FeatureType::Categorical, &text).unwrap() {
        FeatureStatsData::Categorical(c) => assert_eq!(c.frequencies, freqs),
        _ => panic!("expected a frequency map"),
    }
}

#[test]
fn corrupt_metadata_is_a_serialization_error() {
    assert!(matches!(
        decode_feature_metadata(FeatureType::Numeric, "{\"bins\":[1,2],\"probabilities\":[0.5,0.7]}"),
        Err(DriftError::Serialization)
    ));
    assert!(matches!(
        decode_feature_metadata(FeatureType::Categorical, "not json"),
        Err(DriftError::Serialization)
    ));
    assert!(matches!(
        decode_feature_metadata(FeatureType::Numeric, "{\"frequencies\":{}}"),
        Err(DriftError::Serialization)
    ));
}

#[test]
fn empty_and_malformed_input_errors() {
    assert!(matches!(build_baseline_from_csv(b"income,age\n"), Err(DriftError::EmptyInput)));
    assert!(matches!(build_baseline_from_csv(b"a,b\n\xff\xfe,1\n"), Err(DriftError::Parse)));
}

#[test]
fn values_are_trimmed_and_read_as_decimals() {
    assert_eq!(parse_value("  7  "), Some(7 * VALUE_SCALE));
    assert_eq!(parse_value("-0.25"), Some(-250_000_000));
    assert_eq!(parse_value("+.5"), Some(500_000_000));
    assert_eq!(parse_value("1.0000000019"), Some(1_000_000_001));
    assert_eq!(parse_value("abc"), None);
    assert_eq!(parse_value("."), None);
    assert_eq!(parse_value(""), None);
}

#[test]
fn features_come_out_sorted_by_name() {
    let baseline = build_baseline_from_csv(b"zeta,prediction,alpha,Mid\n1,0,x,2\n").unwrap();
    let names: Vec<&str> = baseline.features.iter().map(|f| f.name.as_str()).collect();
    assert_eq!(names, vec!["Mid", "alpha", "zeta"]);
}

#[test]
fn alert_filter_checks_every_criterion() {
    let filter = AlertFilter {
        status: Some("OPEN".to_string()),
        severity: None,
        feature_name: Some("income".to_string()),
        alert_type: None,
        start_time: Some("2024-01-01T00:00:00+00:00".to_string()),
        end_time: Some("2024-12-31T23:59:59+00:00".to_string()),
    };
    let inside = "2024-06-01T12:00:00+00:00".to_string();
    let before = "2023-06-01T12:00:00+00:00".to_string();
    let open = "OPEN".to_string();
    let warn = "WARN".to_string();
    let kind = "FEATURE_DRIFT".to_string();
    assert!(filter.accepts(&open, &warn, &Some("income".to_string()), &kind, &inside));
    assert!(!filter.accepts(&open, &warn, &Some("income".to_string()), &kind, &before));
    assert!(!filter.accepts(&"ACK".to_string(), &warn, &Some("income".to_string()), &kind, &inside));
    assert!(!filter.accepts(&open, &warn, &None, &kind, &inside));
}

#[test]
fn values_with_exponents() {
    assert_eq!(parse_value("1e3"), Some(1000 * VALUE_SCALE));
    assert_eq!(parse_value("2.5E-3"), Some(2_500_000));
    assert_eq!(parse_value("-1.5e2"), Some(-150 * VALUE_SCALE));
    assert_eq!(parse_value("12.34e+1"), Some(123_400_000_000));
    assert_eq!(parse_value("1e-10"), Some(0));
    assert_eq!(parse_value("0e99999999999999999999999999999999"), Some(0));
    assert_eq!(parse_value("1e30"), None);
    assert_eq!(parse_value("1e"), None);
    assert_eq!(parse_value("e5"), None);
    assert_eq!(parse_value("1e2.5"), None);
}
