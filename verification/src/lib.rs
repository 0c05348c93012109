//! Deterministic individual-node simulation building blocks: compact graph
//! storage, link service, coordinate cache, lookup model and Bloom filters.

pub mod mixing;
pub mod text;
pub mod bytes;
pub mod digest;
pub mod counting;
pub mod graph;
pub mod network;
pub mod cache;
pub mod lookup;
pub mod bloom;
pub mod engine;
pub mod campaign;
pub mod labels;
pub mod interventions;
pub mod recovery;
