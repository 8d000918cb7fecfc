//! Recurring series: rules, occurrence generation, series and their store.
pub mod dates;
pub mod engine;
pub mod rule;
pub mod series;
pub mod store;
pub mod walk;
