//! Verified helpers for benchmarking zero-knowledge virtual machines: running a
//! measurement over a list of inputs and rendering the results as a CSV report.

pub mod decimal;
pub mod elapsed;
pub mod report;
pub mod bench;
pub mod chain;
