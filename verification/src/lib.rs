//! Sequencing depth over named target regions.
//!
//! Target regions are loaded into a [`engine::CoverageEngine`], which keeps one
//! interval index per chromosome. Alignment records are then credited to the
//! regions they touch, and the totals are finally reported region by region
//! and gene by gene.

pub mod engine;
pub mod index;
pub mod laws;
pub mod lookup;
pub mod order;
pub mod region;
pub mod report;
pub mod sort;
pub mod span;
pub mod tree;
