//! A vector search engine: exact and graph-based nearest-neighbour indexes,
//! metadata filters, and a segmented, durable store built from them.
//!
//! Every item of this crate is verified, but for the wrappers around outside
//! crates: their doc comments say what is taken on trust. Floating-point
//! arithmetic stays outside: vectors and numbers are held as IEEE-754 bit
//! patterns, and the few operations that need real arithmetic come in through
//! [`numerics::Numerics`].

pub mod bruteforce;
pub mod catalog;
pub mod checkpoint;
pub mod checkpoint_laws;
pub mod codec;
pub mod dataset;
pub mod distance;
pub mod durability_laws;
pub mod error;
pub mod eval;
pub mod graph;
pub mod graph_laws;
pub mod history_laws;
pub mod hnsw;
pub mod hnsw_file;
pub mod hnsw_laws;
pub mod index;
pub mod layout;
pub mod link_laws;
pub mod meta;
pub mod nearness_laws;
pub mod number;
pub mod numeric;
pub mod numerics;
pub mod planner;
pub mod posting;
pub mod quant;
pub mod rank;
pub mod reach_laws;
pub mod record;
pub mod recovery;
pub mod recovery_laws;
pub mod segmented;
pub mod segmented_build;
pub mod segmented_laws;
pub mod segmented_nearness_laws;
pub mod segmented_search;
pub mod segmented_search_laws;
pub mod service;
pub mod storage;
pub mod text;
pub mod types;
pub mod usage_laws;
pub mod vector_laws;
pub mod wal;
