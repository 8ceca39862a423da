//! Offline consistency checking of single-register histories.
//!
//! A history is a log of invocations and completions of reads, writes and
//! compare-and-swaps that concurrent clients issued against a keyed register
//! store. The crate folds such a log into per-client timelines of operation
//! spans, splits them per key, and decides for each key whether some total
//! order of its spans explains every recorded result while respecting the
//! order in which operations were observed to complete and begin.

pub mod types;
pub mod timeline;
pub mod check;
pub mod counts;
pub mod laws;
pub mod model;
pub mod order;
pub mod partition;
pub mod run;
pub mod search;
pub mod seen;
pub mod stats;
pub mod store;
pub mod text;
