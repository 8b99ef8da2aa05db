//! Evaluating an incoming batch against a stored baseline, without
//! persistence: reading the baseline's stored features back, and scoring
//! and classifying the batch in one step.
use crate::alerts::{
    alert_views, expected_alerts, feature_names, generate_alerts, health_of, health_word,
    AlertDraft, AlertThresholds,
};
use crate::baseline::{prediction_rate_of, BaselineStats};
use crate::codec::{decode_feature, decode_metadata, type_of_word};
use crate::drift::{abs, evaluate_drift, expected_drifts, VALUE_TO_PROB};
use crate::model::{BaselineFeature, FeatureStats, UploadIncomingResponse};
use crate::table::{csv_records_of, parse_csv, DriftError, MAX_ROWS};
use vstd::prelude::*;

verus! {

/// Evaluates an incoming batch against a baseline: parses it, scores every
/// baseline feature and the prediction shift, and classifies the alerts.
/// The alerts are returned for the caller to record.
pub fn evaluate_incoming(baseline: &BaselineStats, bytes: &[u8], thresholds: &AlertThresholds) -> (r: Result<
    (UploadIncomingResponse, Vec<AlertDraft>),
    DriftError,
>)
    requires
        baseline.wf(),
    ensures
        match csv_records_of(bytes@) {
            None => r == Err::<(UploadIncomingResponse, Vec<AlertDraft>), DriftError>(DriftError::Parse),
            Some((h, recs)) => if recs.len() > MAX_ROWS {
                r == Err::<(UploadIncomingResponse, Vec<AlertDraft>), DriftError>(DriftError::TooManyRows)
            } else if recs.len() == 0 {
                r == Err::<(UploadIncomingResponse, Vec<AlertDraft>), DriftError>(DriftError::EmptyInput)
            } else {
                r matches Ok((resp, alerts)) && {
                    let rate = prediction_rate_of(h, recs);
                    let expected = expected_alerts(
                        feature_names(baseline.features@),
                        h,
                        expected_drifts(baseline.features@, h, recs),
                        abs(rate - baseline.prediction_rate) * VALUE_TO_PROB,
                        baseline.prediction_rate as int,
                        rate,
                        *thresholds,
                    );
                    &&& alert_views(alerts@) == expected
                    &&& resp.rows_processed == recs.len()
                    &&& resp.alerts_created == alerts.len()
                    &&& resp.health@ == health_word(health_of(expected))
                }
            },
        },
{
    let table = parse_csv(bytes)?;
    let drift = evaluate_drift(baseline, &table)?;
    let (alerts, health) = generate_alerts(&drift, &baseline.features, baseline.prediction_rate, &table.columns, thresholds);
    let resp = UploadIncomingResponse {
        rows_processed: table.rows.len(),
        alerts_created: alerts.len(),
        health: health.as_word(),
    };
    Ok((resp, alerts))
}

/// Whether a stored feature reads back as a distribution.
pub open spec fn stored_feature_ok(f: BaselineFeature) -> bool {
    match type_of_word(f.feature_type@) {
        Some(t) => decode_metadata(t, f.metadata@) is Some,
        None => false,
    }
}

/// Reads the stored features of a baseline; a feature whose type word or
/// text is not readable fails the whole read.
pub fn features_from_store(rows: &Vec<BaselineFeature>) -> (r: Result<Vec<FeatureStats>, DriftError>)
    ensures
        (forall|i: int| 0 <= i < rows.len() ==> stored_feature_ok(#[trigger] rows[i])) ==> (r matches Ok(fs) && {
            &&& fs.len() == rows.len()
            &&& forall|i: int| 0 <= i < fs.len() ==> {
                &&& (#[trigger] fs[i]).name@ == rows[i].feature_name@
                &&& Some(fs[i].feature_type) == type_of_word(rows[i].feature_type@)
                &&& decode_metadata(fs[i].feature_type, rows[i].metadata@) == Some(fs[i].stats.view())
                &&& fs[i].wf()
            }
        }),
        !(forall|i: int| 0 <= i < rows.len() ==> stored_feature_ok(#[trigger] rows[i])) ==> r
            == Err::<Vec<FeatureStats>, DriftError>(DriftError::Serialization),
{
    let mut out: Vec<FeatureStats> = Vec::new();
    let mut i: usize = 0;
    while i < rows.len()
        invariant
            i <= rows.len(),
            out.len() == i,
            forall|j: int| 0 <= j < i ==> stored_feature_ok(#[trigger] rows[j]),
            forall|j: int| 0 <= j < i ==> {
                &&& (#[trigger] out[j]).name@ == rows[j].feature_name@
                &&& Some(out[j].feature_type) == type_of_word(rows[j].feature_type@)
                &&& decode_metadata(out[j].feature_type, rows[j].metadata@) == Some(out[j].stats.view())
                &&& out[j].wf()
            },
        decreases rows.len() - i,
    {
        let row = &rows[i];
        match decode_feature(&row.feature_name, &row.feature_type, row.metadata.as_str()) {
            Ok(f) => {
                out.push(f);
            },
            Err(_) => {
                assert(!stored_feature_ok(rows[i as int]));
                return Err(DriftError::Serialization);
            },
        }
        i = i + 1;
    }
    Ok(out)
}

} // verus!
