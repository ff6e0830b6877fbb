//! Aggregation of time-tracking annotations from an issue tracker.
//!
//! The crate turns free-text change-history annotations ("added 1h of time
//! spent") into signed per-author minute totals, groups them per ticket and
//! per person, and renders a deterministic plain-text report.  Retrieval of
//! the raw data over HTTP is left to the surrounding application; the
//! decisions it needs (endpoint resolution, pagination, filtering) live here
//! with contracts.

pub mod config;
pub mod data;
pub mod gitlab_api;
pub mod pagination;
pub mod formatting;
pub mod util;
pub mod strutil;
