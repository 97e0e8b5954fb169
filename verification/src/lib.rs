//! Verification engine for dance-sport competition results.
//!
//! The crate takes a fully extracted competition record — officials,
//! participants, rounds of judge data — and decides whether it is an
//! internally consistent, faithfully transcribed result set.  The two
//! pillars are the Skating System rank aggregation (`skating`) and the
//! fidelity gate (`validation`), which cross-checks completeness,
//! cross-round progression and the agreement between recomputed ranks
//! and the ranks a scrutineer published.

pub mod config;
pub mod i18n;
pub mod manifest;
pub mod models;
pub mod skating;
pub mod sources;
pub mod text;
pub mod validation;
