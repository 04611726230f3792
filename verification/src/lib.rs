//! Counts files, bytes or lines per file extension, or keeps the largest
//! files of each extension, and reports what was counted.
//!
//! The library decides and computes; it reads no file and prints nothing.
//! Whoever drives it walks the tree as [`walk::Walker`] asks, hands each file
//! to [`scan::count_file`], and prints the lines that a
//! [`collectors::Collector`] gives in the end.

pub mod collectors;
pub mod format;
pub mod keyed;
pub mod metric;
pub mod ranking;
pub mod report;
pub mod scan;
pub mod text;
pub mod totals;
pub mod tree;
pub mod walk;
pub mod walker;
