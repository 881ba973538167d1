use minikv::error::Error;
use minikv::hash::blake3_hash;
use minikv::index::{BlobLocation, Index};

#[test]
fn test_index_basic() {
    let mut index = Index::new();

    index.insert(
        "key1".to_string(),
        BlobLocation { shard: 0, offset: 100, size: 1024, blake3: "abc123".to_string(), expires_at: None },
    );

    assert_eq!(index.len(), 1);
    assert!(index.contains("key1"));

    let loc = index.get("key1").unwrap();
    assert_eq!(loc.shard, 0);
    assert_eq!(loc.offset, 100);
    assert_eq!(loc.size, 1024);

    index.remove("key1");
    assert_eq!(index.len(), 0);
}

#[test]
fn test_snapshot_roundtrip() {
    let mut index = Index::new();
    index.insert(
        "key1".to_string(),
        BlobLocation { shard: 0, offset: 100, size: 1024, blake3: blake3_hash(b"data1"), expires_at: None },
    );
    index.insert(
        "key2".to_string(),
        BlobLocation { shard: 1, offset: 200, size: 2048, blake3: blake3_hash(b"data2"), expires_at: None },
    );

    let bytes = index.encode_snapshot();
    assert_eq!(&bytes[..8], b"KVINDEX3");
    let loaded = Index::decode_snapshot(&bytes).unwrap();

    assert_eq!(loaded.len(), 2);
    assert!(loaded.contains("key1"));
    assert!(loaded.contains("key2"));
    let loc1 = loaded.get("key1").unwrap();
    assert_eq!(loc1.offset, 100);
    assert_eq!(loaded.get("key2").unwrap().blake3, blake3_hash(b"data2"));
}

#[test]
fn damaged_snapshots_are_refused_with_their_reason() {
    let mut index = Index::new();
    index.insert("k".to_string(), BlobLocation { shard: 3, offset: 4, size: 5, blake3: "h".to_string(), expires_at: None });
    let bytes = index.encode_snapshot();

    let mut bad_magic = bytes.clone();
    bad_magic[0] = b'X';
    assert!(matches!(Index::decode_snapshot(&bad_magic), Err(Error::Corrupted(ref m)) if m == "Invalid snapshot magic"));

    let cut = &bytes[..bytes.len() - 1];
    assert!(matches!(Index::decode_snapshot(cut), Err(Error::Io(ref m)) if m == "failed to fill whole buffer"));

    let mut bad_key = bytes.clone();
    bad_key[20] = 0xFF;
    assert!(matches!(Index::decode_snapshot(&bad_key), Err(Error::Corrupted(ref m)) if m == "Invalid UTF-8 in key"));

    assert!(matches!(Index::decode_snapshot(b"KVINDEX3"), Err(Error::Io(_))));
}

#[test]
fn the_index_replaces_lists_and_clears() {
    let mut index = Index::new();
    assert!(index.is_empty());
    index.insert("a".to_string(), BlobLocation { shard: 0, offset: 0, size: 1, blake3: "x".to_string(), expires_at: None });
    index.insert("b".to_string(), BlobLocation { shard: 0, offset: 1, size: 2, blake3: "y".to_string(), expires_at: None });
    index.insert("a".to_string(), BlobLocation { shard: 9, offset: 9, size: 9, blake3: "z".to_string(), expires_at: None });
    assert_eq!(index.len(), 2);
    assert_eq!(index.keys(), vec!["a".to_string(), "b".to_string()]);
    let entries = index.iter();
    assert_eq!(entries[0].1.shard, 9);
    let removed = index.remove("a").unwrap();
    assert_eq!(removed.blake3, "z");
    assert!(index.remove("a").is_none());
    index.clear();
    assert!(index.is_empty());
    assert!(index.get("b").is_none());
}

fn expiring(offset: u64, expires_at: Option<u64>) -> BlobLocation {
    BlobLocation { shard: 0, offset, size: 1, blake3: "h".to_string(), expires_at }
}

#[test]
fn snapshots_keep_the_expiry_of_each_key() {
    let mut index = Index::new();
    index.insert("a".to_string(), expiring(1, Some(5_000)));
    index.insert("b".to_string(), expiring(2, None));
    let bytes = index.encode_snapshot();
    let loaded = Index::decode_snapshot(&bytes).unwrap();
    assert_eq!(loaded.get("a").unwrap().expires_at, Some(5_000));
    assert_eq!(loaded.get("b").unwrap().expires_at, None);

    // the expiry of the last entry: flag 0, then nothing
    let mut bad_flag = bytes.clone();
    let last = bad_flag.len() - 1;
    bad_flag[last] = 7;
    assert!(matches!(Index::decode_snapshot(&bad_flag), Err(Error::Corrupted(ref m)) if m == "Invalid expiry in snapshot"));
}

#[test]
fn expired_keys_are_hidden_and_cleaned_up() {
    let mut index = Index::new();
    index.insert("short".to_string(), expiring(1, Some(100)));
    index.insert("long".to_string(), expiring(2, Some(10_000)));
    index.insert("forever".to_string(), expiring(3, None));

    assert!(index.get_if_valid_at("short", 99).is_some());
    assert!(index.get_if_valid_at("short", 100).is_none());
    assert!(index.get_if_valid_at("forever", u64::MAX).is_some());
    assert!(index.get_if_valid_at("missing", 0).is_none());
    assert_eq!(index.keys_with_ttl(), vec!["short".to_string(), "long".to_string()]);

    assert_eq!(index.cleanup_expired_at(500), 1);
    assert_eq!(index.len(), 2);
    assert!(!index.contains("short"));
    assert!(index.contains("long") && index.contains("forever"));
    assert_eq!(index.cleanup_expired_at(500), 0);
    assert_eq!(index.cleanup_expired_at(20_000), 1);
    assert_eq!(index.keys(), vec!["forever".to_string()]);
}
