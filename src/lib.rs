//! Ingestion, validation and feature engineering for fighter statistics.
//!
//! All quantities are held in fixed point: a value `v` stands for
//! `v / 1_000_000` (see [`numeric::SCALE`]).

pub mod numeric;
pub mod date;
pub mod loader;
pub mod preprocess;
pub mod design;
