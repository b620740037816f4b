//! A personal work-session ledger: check-in/check-out pairs with comments,
//! at most one open session, and the time aggregates and pictures drawn
//! from them.
pub mod text;
pub mod error;
pub mod time;
pub mod range;
pub mod record;
pub mod display;
pub mod time_range;
pub mod day_sums;
pub mod round_trip;
pub mod string;
pub mod cli;
