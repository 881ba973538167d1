use minikv::error::Error;

#[test]
fn errors_read_as_messages() {
    assert_eq!(Error::InvalidConfig("node_id is required".to_string()).message(), "invalid configuration: node_id is required");
    assert_eq!(Error::Corrupted("Invalid blob magic".to_string()).message(), "data corrupted: Invalid blob magic");
    let mismatch = Error::ChecksumMismatch { expected: "aa".to_string(), actual: "bb".to_string() };
    assert_eq!(mismatch.message(), "checksum mismatch: expected aa, got bb");
    assert_eq!(Error::Wal("Checksum mismatch".to_string()).message(), "WAL error: Checksum mismatch");
    assert_eq!(Error::Raft("x".to_string()).message(), "raft error: x");
    assert_eq!(Error::NotLeader("n2".to_string()).message(), "not the leader (leader: n2)");
    assert_eq!(Error::ConsensusTimeout.message(), "consensus timeout");
    assert_eq!(Error::NoHealthyVolumes.message(), "no healthy volumes");
    assert_eq!(Error::InsufficientReplicas { needed: 3, available: 2 }.message(), "insufficient replicas: need 3, have 2");
    assert_eq!(Error::Internal("Max segments reached".to_string()).message(), "internal error: Max segments reached");
    assert_eq!(Error::Io("failed to fill whole buffer".to_string()).message(), "I/O error: failed to fill whole buffer");
    assert_eq!(Error::NotFound("k".to_string()).message(), "not found: k");
    assert_eq!(Error::Other("anything".to_string()).message(), "anything");
}
