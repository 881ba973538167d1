//! What the coordinators record about keys and volumes.
use vstd::prelude::*;
use crate::utils::NodeState;

verus! {

/// Metadata of a stored key.
#[derive(Debug)]
pub struct KeyMetadata {
    pub key: String,
    /// The id of the blob that holds the current version (empty for older records).
    pub blob_id: String,
    pub replicas: Vec<String>,
    pub size: u64,
    pub blake3: String,
    pub created_at: u64,
    pub updated_at: u64,
    pub state: KeyState,
}

/// Whether a key is live or deleted.
#[derive(Debug, Clone, Copy, PartialEq, Eq, Structural)]
pub enum KeyState {
    Active,
    Tombstone,
}

/// Metadata of a volume server.
#[derive(Debug)]
pub struct VolumeMetadata {
    pub volume_id: String,
    pub address: String,
    pub grpc_address: String,
    pub state: NodeState,
    pub shards: Vec<u64>,
    pub total_keys: u64,
    pub total_bytes: u64,
    pub free_bytes: u64,
    pub last_heartbeat: u64,
}

} // verus!
