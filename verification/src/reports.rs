//! The reports of cluster-wide operations.
use vstd::prelude::*;

verus! {

/// What a cluster-wide compaction did.
#[derive(Debug)]
pub struct CompactReport {
    pub volumes_compacted: usize,
    pub bytes_freed: u64,
}

/// What a repair of under-replicated keys did.
#[derive(Debug)]
pub struct RepairReport {
    /// Keys checked.
    pub keys_checked: usize,
    /// Keys repaired.
    pub keys_repaired: usize,
    /// Bytes copied while repairing.
    pub bytes_copied: u64,
}

/// What a verification of the cluster found.
#[derive(Debug)]
pub struct VerifyReport {
    /// Keys checked.
    pub total_keys: usize,
    /// Healthy keys.
    pub healthy: usize,
    /// Keys with fewer replicas than wanted.
    pub under_replicated: usize,
    /// Corrupted keys.
    pub corrupted: usize,
    /// Blobs no key refers to.
    pub orphaned: usize,
}

/// The kinds of audited events.
#[derive(Debug, Clone, Copy, PartialEq, Eq, Structural)]
pub enum AuditEventType {
    AuthSuccess,
    AuthFailure,
    ApiKeyCreated,
    ApiKeyRevoked,
    ApiKeyDeleted,
    RoleChanged,
    DataPut,
    DataDelete,
    ConfigChanged,
    QuotaExceeded,
    System,
}

/// What a rate limit check decides.
#[derive(Debug)]
pub enum RateLimitResult {
    /// The request may go on; tokens left and the burst limit.
    Allowed { remaining: u32, limit: u32 },
    /// The request is refused; when to retry and the burst limit.
    Limited { retry_after: std::time::Duration, limit: u32 },
}

} // verus!
