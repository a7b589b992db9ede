//! A local semantic-search engine: a blocked embedding store, a block-aware
//! LRU cache, an HNSW index over the stored vectors, and the chunking
//! pipeline that feeds it.
//!
//! Vectors are single-precision floats; the library carries them, and the
//! distances between them, as IEEE-754 bit patterns. Computing a distance is
//! the caller's part: the index takes it through a closure.

pub mod cache;
pub mod chunker;
pub mod codec;
pub mod embedding;
pub mod filter;
pub mod graph;
pub mod hnsw;
pub mod index_codec;
pub mod ledger;
pub mod reblock;
pub mod rules;
pub mod server;
pub mod store;
