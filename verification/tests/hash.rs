use minikv::hash::{blake3_hash, blob_prefix, hrw_hash, select_replicas, shard_key, Blake3Hasher, ConsistentHashRing};

fn nodes(names: &[&str]) -> Vec<String> {
    names.iter().map(|n| n.to_string()).collect()
}

#[test]
fn test_blake3_hash() {
    let data = b"hello world";
    let hash = blake3_hash(data);
    assert_eq!(hash.len(), 64);
}

#[test]
fn test_shard_key_deterministic() {
    let key = "test-key";
    let shard1 = shard_key(key, 256);
    let shard2 = shard_key(key, 256);
    assert_eq!(shard1, shard2);
}

#[test]
fn test_hrw_hash_consistent() {
    let key = "my-key";
    let nodes = nodes(&["node1", "node2", "node3"]);

    let sorted1 = hrw_hash(key, &nodes);
    let sorted2 = hrw_hash(key, &nodes);

    assert_eq!(sorted1, sorted2);
    assert_eq!(sorted1.len(), 3);
}

#[test]
fn test_hrw_hash_different_keys() {
    let nodes = nodes(&["node1", "node2", "node3"]);

    let sorted1 = hrw_hash("key1", &nodes);
    let sorted2 = hrw_hash("key2", &nodes);

    assert_ne!(sorted1, sorted2);
}

#[test]
fn test_select_replicas() {
    let key = "test-key";
    let nodes = nodes(&["node1", "node2", "node3", "node4"]);

    let replicas = select_replicas(key, &nodes, 2);
    assert_eq!(replicas.len(), 2);
}

#[test]
fn test_blob_prefix() {
    let key = "my-blob-key";
    let (aa, bb) = blob_prefix(key);
    assert_eq!(aa.len(), 2);
    assert_eq!(bb.len(), 2);
}

#[test]
fn test_consistent_hash_ring() {
    let mut ring = ConsistentHashRing::new(256);
    let nodes = nodes(&["node1", "node2"]);

    ring.assign_shard(0, nodes.clone());
    ring.assign_shard(1, nodes.clone());

    assert_eq!(ring.get_shard_nodes(0), Some(nodes.as_slice()));
    assert_eq!(
        ring.get_nodes("key-maps-to-shard-0"),
        Some(nodes.as_slice())
    );
}

#[test]
fn a_key_is_served_by_the_next_assigned_shard_on_the_ring() {
    let mut ring = ConsistentHashRing::new(256);
    let first = nodes(&["a"]);
    let second = nodes(&["b"]);
    assert_eq!(ring.get_nodes("key-357"), None);
    // "key-357" falls in shard 0 and "key-maps-to-shard-0" in shard 83
    assert_eq!(shard_key("key-357", 256), 0);
    assert_eq!(shard_key("key-maps-to-shard-0", 256), 83);
    ring.assign_shard(0, first.clone());
    ring.assign_shard(100, second.clone());
    assert_eq!(ring.get_nodes("key-357"), Some(first.as_slice()));
    assert_eq!(ring.get_nodes("key-maps-to-shard-0"), Some(second.as_slice()));
    ring.assign_shard(83, first.clone());
    assert_eq!(ring.get_nodes("key-maps-to-shard-0"), Some(first.as_slice()));
}

#[test]
fn test_rebalance() {
    let mut ring = ConsistentHashRing::new(4);
    let nodes = nodes(&["node1", "node2", "node3"]);

    ring.rebalance(&nodes, 2);

    for shard in 0..4 {
        let assigned = ring.get_shard_nodes(shard).unwrap();
        assert_eq!(assigned.len(), 2);
    }
}

#[test]
fn blake3_of_the_empty_input_is_the_published_digest() {
    assert_eq!(
        blake3_hash(b""),
        "af1349b9f5f9a1a6a0404dea36dcc9499bcb25c9adc112b7cc9a93cae41f3262"
    );
}

#[test]
fn streamed_hash_equals_one_shot_hash() {
    let mut h = Blake3Hasher::new();
    h.update(b"hello ");
    h.update(b"world");
    assert_eq!(h.finalize(), blake3_hash(b"hello world"));
}

#[test]
fn hrw_order_is_a_permutation_and_removal_keeps_the_rest_in_order() {
    let all = nodes(&["a", "b", "c", "d", "e"]);
    let order = hrw_hash("object-17", &all);
    let mut sorted = order.clone();
    sorted.sort();
    assert_eq!(sorted, all);

    let removed = order[1].clone();
    let rest: Vec<String> = all.iter().filter(|n| **n != removed).cloned().collect();
    let expected: Vec<String> = order.iter().filter(|n| **n != removed).cloned().collect();
    assert_eq!(hrw_hash("object-17", &rest), expected);
}

#[test]
fn select_replicas_takes_the_heaviest_prefix() {
    let all = nodes(&["n1", "n2", "n3", "n4"]);
    let order = hrw_hash("k", &all);
    assert_eq!(select_replicas("k", &all, 3), order[..3].to_vec());
    assert_eq!(select_replicas("k", &all, 9), order);
}

#[test]
fn shards_stay_below_their_count_and_nodes_know_their_shards() {
    for key in ["a", "b", "c", "some/longer/key"] {
        assert!(shard_key(key, 7) < 7);
    }
    let mut ring = ConsistentHashRing::new(3);
    ring.assign_shard(0, nodes(&["x", "y"]));
    ring.assign_shard(2, nodes(&["y"]));
    let mut shards = ring.shards_for_node("y");
    shards.sort();
    assert_eq!(shards, vec![0, 2]);
    assert_eq!(ring.shards_for_node("z"), Vec::<u64>::new());
    assert_eq!(ring.get_shard_nodes(1), None);
}
