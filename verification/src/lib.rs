//! Literal multi-pattern content search: enumerated files are filtered by
//! extension, size and queue length, the queued files' bytes are scanned for a
//! set of literal patterns, and every file lands in one of three ordered
//! buckets (matched, skipped, unmatched).
//!
//! The library holds the decisions and works on plain values. Walking the
//! directory tree and reading files is left to the caller, who hands over what
//! it saw as [`model::Entry`] and [`model::ReadOutcome`] values.

pub mod model;
pub mod paths;
pub mod filter;
pub mod report;
pub mod matcher;
pub mod results;
pub mod pipeline;
pub mod laws;
