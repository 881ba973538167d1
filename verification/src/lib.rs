//! minikv: the verified core of a distributed key-value and object store.
pub mod error;
pub mod text;
pub mod utils;
pub mod hash;
pub mod metadata;
pub mod placement;
pub mod raft;
pub mod raft_node;
pub mod raft_laws;
pub mod metrics;
pub mod auth;
pub mod config;
pub mod encryption;
pub mod wal;
pub mod raft_log;
pub mod index;
pub mod staging;
pub mod objects;
pub mod blob;
pub mod backup;
pub mod batch;
pub mod reports;
pub mod volume_node;
