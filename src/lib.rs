//! Streaming fingerprint matching: scores live audio fingerprints against a
//! reference database, accumulates per-segment confidence and ranks the result.
pub mod config;
pub mod similarity;
pub mod database;
pub mod matcher;
pub mod accumulator;
pub mod decision;
pub mod session;
pub mod relay;
