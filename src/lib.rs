//! Drift monitoring engine: tabular ingestion, feature type inference,
//! baseline statistics, drift scoring and alert classification.
//!
//! Numbers are held as integers: a numeric value `x` as `x * VALUE_SCALE`
//! (nine fractional digits), and a probability, drift or shift `p` as
//! `p * PROB_ONE` (eighteen fractional digits).  Persistence, transport and
//! the allocation of baseline versions belong to the caller.
pub mod alerts;
pub mod baseline;
pub mod categories;
pub mod codec;
pub mod decimal;
pub mod drift;
pub mod histogram;
pub mod model;
pub mod number;
pub mod order;
pub mod service;
pub mod table;
pub mod text;
