//! Comparison of security-control baselines.
//!
//! The crate parses tabular baseline sheets into typed control records,
//! merges the per-baseline record sets into one unified set keyed by a
//! structured control identifier, decides per record whether the
//! per-baseline parameter text is substantively distinct, and computes a
//! row/cell layout with row spans driven by that decision.

pub mod text;
pub mod control_id;
pub mod baselines;
pub mod params;
pub mod controls;
pub mod sheet;
pub mod layout;
