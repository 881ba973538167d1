use minikv::error::Error;
use minikv::metadata::VolumeMetadata;
use minikv::placement::PlacementManager;
use minikv::utils::NodeState;

fn mock_volume(id: &str, state: NodeState) -> VolumeMetadata {
    VolumeMetadata {
        volume_id: id.to_string(),
        address: format!("http://{}", id),
        grpc_address: format!("http://{}:6001", id),
        state,
        shards: vec![],
        total_keys: 0,
        total_bytes: 0,
        free_bytes: 0,
        last_heartbeat: 0,
    }
}

#[test]
fn test_select_volumes() {
    let manager = PlacementManager::new(256, 3);

    let volumes = vec![
        mock_volume("vol-1", NodeState::Alive),
        mock_volume("vol-2", NodeState::Alive),
        mock_volume("vol-3", NodeState::Alive),
        mock_volume("vol-4", NodeState::Alive),
    ];

    let selected = manager.select_volumes("test-key", &volumes).unwrap();
    assert_eq!(selected.len(), 3);
}

#[test]
fn test_insufficient_replicas() {
    let manager = PlacementManager::new(256, 3);

    let volumes = vec![
        mock_volume("vol-1", NodeState::Alive),
        mock_volume("vol-2", NodeState::Alive),
    ];

    let result = manager.select_volumes("test-key", &volumes);
    assert!(result.is_err());
}

#[test]
fn test_no_healthy_volumes() {
    let manager = PlacementManager::new(256, 3);

    let volumes = vec![
        mock_volume("vol-1", NodeState::Dead),
        mock_volume("vol-2", NodeState::Dead),
    ];

    let result = manager.select_volumes("test-key", &volumes);
    assert!(result.is_err());
}

#[test]
fn placement_errors_name_the_shortfall() {
    let manager = PlacementManager::new(16, 3);
    let two = vec![mock_volume("a", NodeState::Alive), mock_volume("b", NodeState::Draining), mock_volume("c", NodeState::Alive)];
    match manager.select_volumes("k", &two) {
        Err(Error::InsufficientReplicas { needed, available }) => {
            assert_eq!(needed, 3);
            assert_eq!(available, 2);
        }
        other => panic!("unexpected {:?}", other),
    }
    let none = vec![mock_volume("a", NodeState::Suspect)];
    assert!(matches!(manager.select_volumes("k", &none), Err(Error::NoHealthyVolumes)));
}

#[test]
fn rebalanced_shards_use_healthy_volumes_only() {
    let mut manager = PlacementManager::new(8, 2);
    let volumes = vec![
        mock_volume("a", NodeState::Alive),
        mock_volume("b", NodeState::Dead),
        mock_volume("c", NodeState::Alive),
        mock_volume("d", NodeState::Alive),
    ];
    manager.rebalance(&volumes);
    for shard in 0..8 {
        let assigned = manager.get_shard_volumes(shard).unwrap();
        assert_eq!(assigned.len(), 2);
        assert!(!assigned.contains(&"b".to_string()));
    }
    assert!(manager.get_shard("some-key") < 8);
}
