//! A local, dual-mode file-search engine: a persistent inverted index over a
//! bounded subtree, and an on-the-fly live scanner for the rest of the
//! filesystem.

pub mod disk;
pub mod display;
pub mod engine;
pub mod entries;
pub mod errors;
pub mod listing;
pub mod models;
pub mod numbers;
pub mod pages;
pub mod scan;
pub mod store;
pub mod text;

use vstd::prelude::*;

verus! {

/// The search boundary: the pre-indexed subtree (`Home`) or the live
/// filesystem (`Root`).
#[derive(Debug, Clone, Copy, PartialEq, Eq, Structural)]
pub enum SearchScope {
    Home,
    Root,
}

/// One search hit. `line_number == 0` signals a filename-only or directory
/// match with no associated content line; `line_number > 0` names one
/// matching content line, so a single file may surface once per matching
/// line.
#[derive(Debug, Clone)]
pub struct SearchResult {
    pub path: String,
    pub line_number: usize,
    pub line_content: String,
}

} // verus!
