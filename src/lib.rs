//! Merging of paginated documents at the level of their object graphs.
//!
//! The inputs are object stores whose identifiers have already been moved
//! into disjoint ranges. The merge joins them into one store with a single
//! catalog, a single page tree and one bookmark for the first page of each
//! input.
pub mod object;
pub mod store;
pub mod title;
pub mod merge;
pub mod laws;
