//! An inverted index over text documents with TF-IDF ranking.
//!
//! The library holds the rules of indexing and of ranking: how a text becomes
//! a table of term counts, which statements persist it, and how the rows that
//! a store gives back become a ranked list of documents. Reading files and
//! talking to the store is left to the caller.

pub mod text;
pub mod normalize;
pub mod bignat;
pub mod entries;
pub mod document;
pub mod index;
pub mod score;
pub mod rank;
pub mod query;
pub mod store;
pub mod memory;
pub mod front;
pub mod laws;
