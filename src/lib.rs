//! Converts a structured event-log table into per-category text logs.
//!
//! The data rows are cut into contiguous ranges, one per worker; each worker
//! classifies and formats its rows independently, and the partial results are
//! merged in worker order so that every log keeps the source row order.

pub mod text;
pub mod header;
pub mod partition;
pub mod format;
pub mod logset;
pub mod classify;
pub mod convert;
pub mod source;
pub mod output;
