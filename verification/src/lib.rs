//! A minimal full-text retrieval engine.
//!
//! The library builds an inverted index from a store of numbered documents
//! and answers single-term queries with postings ranked by term frequency.
//! All I/O (reading the document store, the interactive query loop) lives
//! outside the library; the functions here work on plain values.

pub mod index;
pub mod query;
pub mod snippet;
pub mod text;
