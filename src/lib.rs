//! An embedded vector database core: records, a flat and a graph index, and
//! the decisions that keep the index coherent with a persistent store.
//!
//! Embedding components are carried as the IEEE-754 bit patterns of `f32`
//! values, and similarity scores as order keys (see [`score`]); the numeric
//! similarity itself is supplied by the caller as a closure.
use vstd::prelude::*;

pub mod backend;
pub mod config;
pub mod database;
pub mod error;
pub mod flat;
pub mod graph;
pub mod index;
pub mod network;
pub mod record;
pub mod results;
pub mod scan;
pub mod score;
pub mod similarity;
mod table;

pub use backend::VectorIndex;
pub use config::{Config, IndexConfig, P2PConfig, ServerConfig, StorageConfig};
pub use database::{DatabaseStats, SearchResult, StatsResponse, VectorDatabase};
pub use error::VectorError;
pub use flat::FlatIndex;
pub use graph::HnswIndex;
pub use index::IndexHit;
pub use network::{ConsensusEngine, NetworkConfig, P2PNode, ReplicationManager};
pub use record::Vector;
pub use results::ResultFilter;
pub use scan::{collection_names, vectors_in_collection};
pub use score::{score_bits, score_key};
pub use similarity::{check_same_dimensions, DistanceMetric};
