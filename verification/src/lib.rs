//! Ranked retrieval core of a full-text search engine.
//!
//! A query is a tree of words; the documents that it matches are read in
//! the posting tables of an index and handed out in buckets, the best
//! bucket first, by a stack of ranking criteria. The proximity of the words
//! of a query is computed from their positions, and the values of a faceted
//! field are visited by a descent through the levels of its facet tree.
//! The layout of the keys that the indexer writes is part of the library.

pub mod best_proximity;
pub mod bitmap;
pub mod criteria;
pub mod criterion;
pub mod enumerator;
pub mod error;
pub mod facet;
pub mod index;
pub mod indexer;
pub mod phrase;
pub mod position;
pub mod query_tree;
pub mod store;
