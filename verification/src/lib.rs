//! Descriptive analysis of tabular data with a verified core.
//!
//! The crate takes the raw string cells of a table, reads numeric cells
//! exactly as fixed-point amounts in thousandths (`decimal`, `fixed`),
//! infers a kind for every column (`classify`), computes descriptive
//! statistics (`stats`), exact pairwise correlation ingredients
//! (`correlate`), cleaning diagnostics with Tukey outlier fences
//! (`diagnose`) and chart parameters (`chart`), and assembles everything
//! into an ordered list of narrative report sections (`report`) that can
//! be serialized as one HTML document (`html`).
//!
//! Reading source files, drawing the charts and writing the document are
//! left to the caller: every function here is a deterministic, verified
//! computation from plain values to plain values.

pub mod chart;
pub mod classify;
pub mod correlate;
pub mod decimal;
pub mod diagnose;
pub mod fixed;
pub mod html;
pub mod report;
pub mod stats;
pub mod text;
