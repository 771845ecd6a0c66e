//! The node's configuration, as plain values.

use vstd::prelude::*;
use vstd::string::StringExecFns;

verus! {

#[derive(Debug, Clone, Copy, PartialEq, Eq, Structural)]
pub enum DbBackend {
    Rocksdb,
}

#[derive(Debug, Clone, Copy, PartialEq, Eq, Structural)]
pub enum LeaderScheduleBackend {
    StdRng,
}

#[derive(Debug, Clone)]
pub struct StorageConfig {
    pub backend: DbBackend,
    pub path: String,
    pub log_history: usize,
}

impl StorageConfig {
    /// The defaults: RocksDB under `db/`, keeping one log file.
    pub fn default_config() -> (r: StorageConfig)
        ensures
            r.backend == DbBackend::Rocksdb,
            r.path@ == "db/"@,
            r.log_history == 1,
    {
        StorageConfig { backend: DbBackend::Rocksdb, path: String::from_str("db/"), log_history: 1 }
    }
}

#[derive(Debug, Clone)]
pub struct IdentityConfig {
    pub path: String,
}

#[derive(Debug, Clone)]
pub struct NetworkConfig {
    pub addr: String,
    pub known_nodes: Vec<String>,
}

#[derive(Debug, Clone, Copy, PartialEq, Eq, Structural)]
pub struct ContractExecConfig {
    pub threads: usize,
}

#[derive(Debug, Clone)]
pub struct TeralConfig {
    pub storage: StorageConfig,
    pub identity: IdentityConfig,
    pub network: NetworkConfig,
    pub contracts_exec: ContractExecConfig,
}

impl TeralConfig {
    /// Whether the configuration can be used: at least one executor thread.
    pub fn is_valid(&self) -> (r: bool)
        ensures
            r == (self.contracts_exec.threads >= 1),
    {
        self.contracts_exec.threads >= 1
    }
}

} // verus!
