//! Per-author statistics over a version-control history.
//!
//! `text` holds byte-level primitives; `grammar` the three line grammars of
//! the short-statistics log format; `parser` the stateful scanner that
//! extracts commit records from a window's text; `stats` the per-window
//! aggregation and the order-independent merge; `windows` the partition of
//! the commit range into worker windows.
pub mod grammar;
pub mod parser;
pub mod stats;
pub mod text;
pub mod windows;
