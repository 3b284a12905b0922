//! Segment sweep engine for time-windowed trading-signal evaluation.
//!
//! For every combination of holding interval and daily entry time the
//! engine derives entry and exit conditions over a sample series, pairs
//! them into matched observation windows, extracts per-window statistics
//! and reduces them to one record per viable combination. Prices are
//! carried as integer ticks and times of day as seconds past midnight, so
//! every step of the pipeline has an exact contract; only the final
//! float-valued risk ratio is left to the caller.

pub mod analysis;
pub mod events;
pub mod strategy;
pub mod utils;
pub mod vector_utils;
