//! Helpers shared by the book and the matching engine.
pub mod dates;
pub mod helpers;
pub mod runner;
pub mod text;

pub use helpers::{add_each, get_timestamp_ms, match_at_price_level};
pub use runner::{insert_snapshot, run_snapshot};
