//! Process configuration and its defaults.
use vstd::prelude::*;

verus! {

#[derive(Debug, Clone)]
pub struct ServerConfig {
    pub host: String,
    pub port: u16,
}

#[derive(Debug, Clone)]
pub struct P2PConfig {
    pub port: u16,
    pub bootstrap_peers: Vec<String>,
    pub max_peers: usize,
}

#[derive(Debug, Clone)]
pub struct StorageConfig {
    pub data_dir: String,
    pub max_file_size: usize,
    pub compression: bool,
}

#[derive(Debug, Clone)]
pub struct IndexConfig {
    /// "embedded", or the name of another index implementation.
    pub index_type: String,
    pub dimensions: usize,
    /// "cosine", "euclidean" or "dot_product".
    pub distance_metric: String,
    pub ef_construction: usize,
    pub ef_search: usize,
    pub max_connections: usize,
}

#[derive(Debug, Clone)]
pub struct Config {
    pub server: ServerConfig,
    pub p2p: P2PConfig,
    pub storage: StorageConfig,
    pub index: IndexConfig,
}

pub const DEFAULT_HTTP_PORT: u16 = 8080;

pub const DEFAULT_P2P_PORT: u16 = 7777;

/// One gibibyte.
pub const DEFAULT_MAX_FILE_SIZE: usize = 1073741824;

impl Default for Config {
    fn default() -> (r: Config)
        ensures
            r.server.host@ == "0.0.0.0"@,
            r.server.port == DEFAULT_HTTP_PORT,
            r.p2p.port == DEFAULT_P2P_PORT,
            r.p2p.bootstrap_peers@.len() == 0,
            r.p2p.max_peers == 50,
            r.storage.data_dir@ == "./data"@,
            r.storage.max_file_size == DEFAULT_MAX_FILE_SIZE,
            r.storage.compression,
            r.index.index_type@ == "embedded"@,
            r.index.dimensions == 768,
            r.index.distance_metric@ == "cosine"@,
            r.index.ef_construction == 200,
            r.index.ef_search == 50,
            r.index.max_connections == 16,
    {
        Config {
            server: ServerConfig { host: "0.0.0.0".to_owned(), port: DEFAULT_HTTP_PORT },
            p2p: P2PConfig { port: DEFAULT_P2P_PORT, bootstrap_peers: Vec::new(), max_peers: 50 },
            storage: StorageConfig {
                data_dir: "./data".to_owned(),
                max_file_size: DEFAULT_MAX_FILE_SIZE,
                compression: true,
            },
            index: IndexConfig {
                index_type: "embedded".to_owned(),
                dimensions: 768,
                distance_metric: "cosine".to_owned(),
                ef_construction: 200,
                ef_search: 50,
                max_connections: 16,
            },
        }
    }
}

} // verus!
