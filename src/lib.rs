//! A small full-text search engine: a boolean query language, an inverted
//! index of compressed posting lists, a postings store that locates one
//! word's list without a scan, and retrieval and aggregation of stored rows.

pub mod query;
pub mod postings;
pub mod words;
pub mod index;
pub mod store;
pub mod eval;
pub mod rows;
pub mod pages;
