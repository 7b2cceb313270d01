//! Student records kept as comma-separated text: decoding, validation and
//! range queries over a score.
pub mod math;
pub mod query;
pub mod record;
pub mod score;
pub mod store;
pub mod text;
