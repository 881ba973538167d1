//! Configuration of coordinators and volumes, with its defaults and its validation.
use vstd::prelude::*;
use vstd::string::StringExecFns;
use std::time::Duration;
use crate::error::Error;
use crate::utils::{duration_from_millis, duration_from_secs, millis_to_duration, secs_to_duration};

verus! {

/// The kind of node.
#[derive(Debug, Clone, Copy, PartialEq, Eq, Structural)]
pub enum NodeRole {
    Coordinator,
    Volume,
}

/// When the write-ahead log is flushed to disk.
#[derive(Debug, Clone, Copy, PartialEq, Eq, Structural)]
pub enum WalSyncPolicy {
    /// After every write.
    Always,
    /// Periodically.
    Interval,
    /// Never (fastest, least durable).
    Never,
}

impl Default for WalSyncPolicy {
    fn default() -> (r: WalSyncPolicy)
        ensures
            r == WalSyncPolicy::Always,
    {
        WalSyncPolicy::Always
    }
}

/// Settings of the running process.
#[derive(Debug)]
pub struct RuntimeConfig {
    pub request_timeout: Duration,
    pub connect_timeout: Duration,
    pub max_concurrent_requests: usize,
    pub max_retries: usize,
    pub retry_delay: Duration,
}

/// The default log level: `info`.
pub fn default_log_level() -> (r: String)
    ensures
        r@ == "info"@,
{
    String::from_str("info")
}

/// The default number of replicas: 3.
pub fn default_replicas() -> (r: usize)
    ensures
        r == 3,
{
    3
}

/// The default election timeout: 300 ms.
pub fn default_election_timeout() -> (r: u64)
    ensures
        r == 300,
{
    300
}

/// The default heartbeat interval: 50 ms.
pub fn default_heartbeat_interval() -> (r: u64)
    ensures
        r == 50,
{
    50
}

/// The default snapshot threshold: 10 000 log entries.
pub fn default_snapshot_threshold() -> (r: u64)
    ensures
        r == 10_000,
{
    10_000
}

/// The default number of shards: 256.
pub fn default_num_shards() -> (r: u64)
    ensures
        r == 256,
{
    256
}

/// The default largest blob: 1 GiB.
pub fn default_max_blob_size() -> (r: u64)
    ensures
        r == 1024 * 1024 * 1024,
{
    1024 * 1024 * 1024
}

/// The default compaction interval: 300 s.
pub fn default_compaction_interval() -> (r: u64)
    ensures
        r == 300,
{
    300
}

/// The default compaction threshold: 10 segments.
pub fn default_compaction_threshold() -> (r: usize)
    ensures
        r == 10,
{
    10
}

/// The default heartbeat interval of a volume: 10 s.
pub fn default_volume_heartbeat() -> (r: u64)
    ensures
        r == 10,
{
    10
}

/// `true`, the default of the switches.
pub fn default_true() -> (r: bool)
    ensures
        r,
{
    true
}

impl Default for RuntimeConfig {
    /// 30 s per request, 5 s to connect, 1000 concurrent requests, 3 retries 100 ms apart.
    fn default() -> (r: RuntimeConfig)
        ensures
            r.request_timeout == duration_from_secs(30),
            r.connect_timeout == duration_from_secs(5),
            r.max_concurrent_requests == 1000,
            r.max_retries == 3,
            r.retry_delay == duration_from_millis(100),
    {
        RuntimeConfig {
            request_timeout: secs_to_duration(30),
            connect_timeout: secs_to_duration(5),
            max_concurrent_requests: 1000,
            max_retries: 3,
            retry_delay: millis_to_duration(100),
        }
    }
}

/// Why a configuration is refused, if it is.
pub open spec fn config_problem(node_id: Seq<char>, role: NodeRole, has_coordinator: bool, has_volume: bool) -> Option<Seq<char>> {
    if node_id.len() == 0 {
        Some("node_id is required"@)
    } else if role == NodeRole::Coordinator && !has_coordinator {
        Some("coordinator config required"@)
    } else if role == NodeRole::Volume && !has_volume {
        Some("volume config required"@)
    } else {
        None
    }
}

/// Checks that a node has an id and the configuration section its role needs.
pub fn validate_config(node_id: &str, role: NodeRole, has_coordinator: bool, has_volume: bool) -> (r: Result<(), Error>)
    ensures
        match config_problem(node_id@, role, has_coordinator, has_volume) {
            None => r is Ok,
            Some(msg) => r matches Err(Error::InvalidConfig(m)) && m@ == msg,
        },
{
    proof {
        reveal_strlit("node_id is required");
        reveal_strlit("coordinator config required");
        reveal_strlit("volume config required");
    }
    if node_id.is_empty() {
        return Err(Error::InvalidConfig(String::from_str("node_id is required")));
    }
    match role {
        NodeRole::Coordinator => {
            if !has_coordinator {
                return Err(Error::InvalidConfig(String::from_str("coordinator config required")));
            }
        },
        NodeRole::Volume => {
            if !has_volume {
                return Err(Error::InvalidConfig(String::from_str("volume config required")));
            }
        },
    }
    Ok(())
}

} // verus!
