use minikv::error::Error;
use minikv::metadata::{KeyMetadata, KeyState, VolumeMetadata};
use minikv::objects::{
    blob_key, consensus_error, describe_failures, is_live, leader_check, live_volumes, order_replicas_for_read,
    read_again, readable, record_heartbeat, refresh_volume, volume_from_join, HeartbeatNews, LeaderCheck, ObjectError,
    PullAnswer, PutAction, PutPhase, PutState, ReadAction, ReplicaRead, VolumeHeartbeat,
};
use minikv::utils::NodeState;

fn volume(id: &str, state: NodeState, last: u64) -> VolumeMetadata {
    VolumeMetadata {
        volume_id: id.to_string(),
        address: format!("http://{}", id),
        grpc_address: format!("http://{}:7000", id),
        state,
        shards: vec![1, 2],
        total_keys: 0,
        total_bytes: 0,
        free_bytes: 0,
        last_heartbeat: last,
    }
}

fn meta(key: &str, blob_id: &str, replicas: &[&str]) -> KeyMetadata {
    KeyMetadata {
        key: key.to_string(),
        blob_id: blob_id.to_string(),
        replicas: replicas.iter().map(|r| r.to_string()).collect(),
        size: 3,
        blake3: "abc".to_string(),
        created_at: 1,
        updated_at: 1,
        state: KeyState::Active,
    }
}

#[test]
fn volumes_are_live_while_alive_and_recently_heard() {
    assert!(is_live(&volume("a", NodeState::Alive, 1000), 6000));
    assert!(!is_live(&volume("a", NodeState::Alive, 1000), 6001));
    assert!(!is_live(&volume("a", NodeState::Draining, 1000), 1000));
    assert!(is_live(&volume("a", NodeState::Alive, 9000), 1000));
    let live = live_volumes(vec![volume("a", NodeState::Alive, 0), volume("b", NodeState::Dead, 0), volume("c", NodeState::Alive, 0)], 10);
    let ids: Vec<String> = live.iter().map(|v| v.volume_id.clone()).collect();
    assert_eq!(ids, vec!["a".to_string(), "c".to_string()]);
}

#[test]
fn blobs_are_named_by_blob_id_or_key() {
    assert_eq!(blob_key(&meta("k", "k#u1", &[])), "k#u1");
    assert_eq!(blob_key(&meta("k", "", &[])), "k");
}

#[test]
fn consensus_errors_name_a_known_leader() {
    assert!(matches!(consensus_error(Error::NotLeader("n2".to_string())), ObjectError::NotLeader(Some(ref l)) if l == "n2"));
    assert!(matches!(consensus_error(Error::NotLeader("unknown".to_string())), ObjectError::NotLeader(None)));
    assert!(matches!(consensus_error(Error::ConsensusTimeout), ObjectError::Consensus(ref m) if m == "consensus timeout"));
    assert_eq!(ObjectError::NotLeader(Some("n2".to_string())).message(), "this coordinator is not the leader, the leader is n2");
    assert_eq!(ObjectError::NoVolumes.message(), "no live volume");
}

#[test]
fn failures_are_listed_by_volume() {
    let targets = vec![volume("a", NodeState::Alive, 0), volume("b", NodeState::Alive, 0), volume("c", NodeState::Alive, 0)];
    assert_eq!(describe_failures(&targets, &[Ok(()), Ok(()), Ok(())]), None);
    assert_eq!(
        describe_failures(&targets, &[Err("down".to_string()), Ok(()), Err("full".to_string())]).as_deref(),
        Some("a: down; c: full")
    );
}

#[test]
fn a_write_records_its_metadata_only_after_both_rounds_succeed() {
    let targets = vec![volume("a", NodeState::Alive, 0), volume("b", NodeState::Alive, 0)];
    let ids = vec!["a".to_string(), "b".to_string()];
    let mut put = PutState::start("photos/cat", "u1", b"miaou", ids.clone());
    assert_eq!(put.blob_id_str(), "photos/cat#u1");
    assert!(matches!(put.on_prepared(&targets, &[Ok(()), Ok(())]), PutAction::Commit));
    let previous = meta("photos/cat", "photos/cat#u0", &["c"]);
    match put.on_committed(&targets, &[Ok(()), Ok(())], Some(&previous), 50) {
        PutAction::Record(m) => {
            assert_eq!(m.blob_id, "photos/cat#u1");
            assert_eq!(m.replicas, ids);
            assert_eq!(m.size, 5);
            assert_eq!(m.created_at, 1);
            assert_eq!(m.updated_at, 50);
            assert_eq!(m.blake3, minikv::hash::blake3_hash(b"miaou"));
        }
        _ => panic!("expected the metadata to be recorded"),
    }
    match put.on_recorded(Ok(())) {
        PutAction::Done { stored, stale } => {
            assert_eq!(stored.replicas, ids);
            assert_eq!(stale, Some((vec!["c".to_string()], "photos/cat#u0".to_string())));
        }
        _ => panic!("expected the write to be done"),
    }
}

#[test]
fn a_failed_round_aborts_the_write() {
    let targets = vec![volume("a", NodeState::Alive, 0), volume("b", NodeState::Alive, 0)];
    let mut put = PutState::start("k", "u", b"x", vec!["a".to_string(), "b".to_string()]);
    match put.on_prepared(&targets, &[Ok(()), Err("disk full".to_string())]) {
        PutAction::AbortAndFail(ObjectError::Volume(m)) => assert_eq!(m, "prepare failed (b: disk full)"),
        _ => panic!("expected an abort"),
    }
    let mut put = PutState::start("k", "u", b"x", vec!["a".to_string(), "b".to_string()]);
    put.on_prepared(&targets, &[Ok(()), Ok(())]);
    match put.on_committed(&targets, &[Err("gone".to_string()), Ok(())], None, 9) {
        PutAction::AbortDeleteAndFail { replicas, blob, error: ObjectError::Volume(m) } => {
            assert_eq!(replicas, vec!["a".to_string(), "b".to_string()]);
            assert_eq!(blob, "k#u");
            assert_eq!(m, "commit failed (a: gone)");
        }
        _ => panic!("expected an abort and a delete"),
    }
    let mut put = PutState::start("k", "u", b"x", vec![]);
    put.on_prepared(&[], &[]);
    put.on_committed(&[], &[], None, 9);
    assert!(matches!(put.on_recorded(Err(Error::NotLeader("n3".to_string()))), PutAction::Fail(ObjectError::NotLeader(Some(_)))));
    let _ = PutPhase::Finished;
}

#[test]
fn writes_wait_for_leadership() {
    let me = "n1".to_string();
    assert!(matches!(leader_check(true, None, &me, false), LeaderCheck::Proceed));
    assert!(matches!(leader_check(false, Some("n2".to_string()), &me, false), LeaderCheck::Refuse(ObjectError::NotLeader(Some(_)))));
    assert!(matches!(leader_check(false, None, &me, false), LeaderCheck::Wait));
    assert!(matches!(leader_check(false, None, &me, true), LeaderCheck::Refuse(ObjectError::NotLeader(None))));
}

#[test]
fn reads_try_live_replicas_first() {
    let replicas = vec!["a".to_string(), "b".to_string(), "c".to_string(), "d".to_string()];
    let live = vec!["d".to_string(), "b".to_string()];
    assert_eq!(order_replicas_for_read(&replicas, &live), vec!["b".to_string(), "d".to_string(), "a".to_string(), "c".to_string()]);
}

#[test]
fn heartbeats_keep_shards_and_report_news() {
    let hb = VolumeHeartbeat {
        volume_id: "v".to_string(),
        grpc_address: "http://v:7001".to_string(),
        http_address: "http://v:7000".to_string(),
        total_keys: 5,
        total_bytes: 50,
        free_bytes: 500,
    };
    let (joined, news) = record_heartbeat(hb.clone(), None, 100);
    assert_eq!(news, HeartbeatNews::Joined);
    assert!(joined.shards.is_empty());
    let previous = volume("v", NodeState::Dead, 0);
    let (moved, news) = record_heartbeat(hb.clone(), Some(previous), 100);
    assert_eq!(news, HeartbeatNews::Moved);
    assert_eq!(moved.shards, vec![1, 2]);
    assert_eq!(moved.state, NodeState::Alive);
    assert_eq!(moved.last_heartbeat, 100);
    let mut same = volume("v", NodeState::Alive, 0);
    same.grpc_address = "http://v:7001".to_string();
    let (_, news) = record_heartbeat(hb, Some(same), 100_000);
    assert_eq!(news, HeartbeatNews::BackOnline);
}

#[test]
fn joining_volumes_keep_the_shards_that_parse() {
    let v = volume_from_join("v9".to_string(), "http://v9:7001".to_string(), &vec!["3".to_string(), "x".to_string(), "12".to_string()], 7);
    assert_eq!(v.shards, vec![3, 12]);
    assert_eq!(v.grpc_address, "http://v9:7001");
    let mut known = volume("v", NodeState::Suspect, 0);
    refresh_volume(&mut known, 1, 2, 3, 44);
    assert_eq!((known.total_keys, known.total_bytes, known.free_bytes, known.last_heartbeat), (1, 2, 3, 44));
    assert_eq!(known.state, NodeState::Alive);
}

#[test]
fn reads_take_only_bytes_with_the_recorded_hash() {
    let mut m = meta("k", "k#1", &["v1", "v2", "v3"]);
    m.blake3 = blake3::hash(b"good").to_hex().to_string();
    let (mut read, first) = ReplicaRead::start(&m, &vec!["v2".to_string()]);
    assert!(matches!(first, ReadAction::Pull(ref id) if id == "v2"));
    let next = read.on_answer(PullAnswer::Data(b"bad".to_vec()));
    assert!(matches!(next, ReadAction::Pull(ref id) if id == "v1"));
    let next = read.on_answer(PullAnswer::Missing);
    assert!(matches!(next, ReadAction::Pull(ref id) if id == "v3"));
    let done = read.on_answer(PullAnswer::Data(b"good".to_vec()));
    assert!(matches!(done, ReadAction::Done(ref d) if d == b"good"));
}

#[test]
fn a_read_fails_with_the_reason_of_every_replica() {
    let m = meta("k", "", &["v1", "v2", "v3"]);
    let (mut read, _) = ReplicaRead::start(&m, &vec![]);
    read.on_answer(PullAnswer::UnknownVolume);
    read.on_answer(PullAnswer::Failed("timeout".to_string()));
    match read.on_answer(PullAnswer::Data(b"xyz".to_vec())) {
        ReadAction::Fail(ObjectError::Volume(msg)) => {
            assert_eq!(msg, "v1: unknown volume; v2: timeout; v3: checksum mismatch")
        }
        _ => panic!("expected a failure"),
    }
    let (_, action) = ReplicaRead::start(&meta("k", "", &[]), &vec![]);
    assert!(matches!(action, ReadAction::Fail(ObjectError::Volume(ref m)) if m == "no replica is recorded for this key"));
}

#[test]
fn only_active_keys_are_read_and_reads_retry_when_the_blob_moved() {
    assert!(readable(Some(meta("k", "k#1", &["v1"]))).is_ok());
    let mut gone = meta("k", "k#1", &["v1"]);
    gone.state = KeyState::Tombstone;
    assert!(matches!(readable(Some(gone)), Err(ObjectError::NotFound)));
    assert!(matches!(readable(None), Err(ObjectError::NotFound)));

    let failed = meta("k", "k#1", &["v1"]);
    assert!(!read_again(&failed, Some(&meta("k", "k#1", &["v2"]))));
    assert!(read_again(&failed, Some(&meta("k", "k#2", &["v1"]))));
    assert!(read_again(&failed, None));
}

#[test]
fn a_coordinator_is_ready_with_a_live_volume_and_a_leader() {
    assert_eq!(minikv::objects::readiness(2, true), None);
    assert_eq!(minikv::objects::readiness(0, true).as_deref(), Some("No healthy volumes"));
    assert_eq!(minikv::objects::readiness(0, false).as_deref(), Some("No healthy volumes"));
    assert_eq!(minikv::objects::readiness(1, false).as_deref(), Some("No Raft leader"));
}
