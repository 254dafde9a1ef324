//! Continuous-integration tools.

pub mod ballast;
pub mod bench_report;
pub mod config;
pub mod laws;
pub mod manifest;
pub mod names;
pub mod remote;
