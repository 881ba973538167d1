use minikv::blob::{
    blob_write, encode_blob_record, find_current_position, hex_u32_string, read_blob_record, scan_segment, segment_file_path,
    segment_of_file_name, store_stats, store_value, with_ttl, zero_padded_string, BlobCursor, BlobStore, CompressionMode, MAX_SEGMENTS,
    SEGMENT_SIZE,
};
use minikv::error::Error;
use minikv::hash::blake3_hash;
use minikv::index::{BlobLocation, Index};
use minikv::wal::{WalEntry, WalOp};

#[test]
fn a_record_reads_back_at_its_offset() {
    let mut segment = Vec::new();
    segment.extend(encode_blob_record("first", b"one", 3, false));
    let second_at = segment.len() as u64;
    segment.extend(encode_blob_record("second", b"two!", 4, false));
    assert_eq!(second_at, 28 + 5 + 3);
    assert_eq!(read_blob_record(&segment, 0).unwrap(), b"one".to_vec());
    assert_eq!(read_blob_record(&segment, second_at).unwrap(), b"two!".to_vec());
}

#[test]
fn a_record_has_magic_lengths_key_value_and_checksum() {
    let r = encode_blob_record("k", b"vv", 2, false);
    assert_eq!(&r[..4], b"BLOB");
    assert_eq!(&r[4..8], &1u32.to_le_bytes());
    assert_eq!(&r[8..16], &2u64.to_le_bytes());
    assert_eq!(&r[16..24], &2u64.to_le_bytes());
    assert_eq!(&r[24..25], b"k");
    assert_eq!(&r[25..27], b"vv");
    assert_eq!(&r[27..31], &crc32fast::hash(&r[4..27]).to_le_bytes());
    assert_eq!(&encode_blob_record("k", b"vv", 9, true)[..4], b"BLOC");
}

#[test]
fn damaged_records_are_refused_with_their_reason() {
    let r = encode_blob_record("key", b"value", 5, false);
    assert!(matches!(read_blob_record(&r, 1), Err(Error::Corrupted(ref m)) if m == "Invalid blob magic"));
    assert!(matches!(read_blob_record(&r[..20], 0), Err(Error::Io(ref m)) if m == "failed to fill whole buffer"));
    assert!(matches!(read_blob_record(&r[..r.len() - 1], 0), Err(Error::Io(_))));
    assert!(matches!(read_blob_record(&r, 1000), Err(Error::Io(_))));
    let mut flipped = r.clone();
    flipped[28] ^= 0x20;
    let expected = format!("{:08x}", u32::from_le_bytes(r[r.len() - 4..].try_into().unwrap()));
    let actual = format!("{:08x}", crc32fast::hash(&flipped[4..r.len() - 4]));
    match read_blob_record(&flipped, 0) {
        Err(Error::ChecksumMismatch { expected: e, actual: a }) => {
            assert_eq!(e, expected);
            assert_eq!(a, actual);
        }
        other => panic!("unexpected result: {:?}", other),
    }
}

#[test]
fn only_long_values_are_compressed_and_only_with_lz4() {
    let long = vec![b'a'; 1000];
    let (plain, compressed) = store_value(CompressionMode::Plain, &long);
    assert!(!compressed);
    assert_eq!(plain, long);
    let (short, compressed) = store_value(CompressionMode::Lz4, b"tiny");
    assert!(!compressed);
    assert_eq!(short, b"tiny".to_vec());
    let (packed, compressed) = store_value(CompressionMode::Lz4, &long);
    assert!(compressed);
    assert!(packed.len() < long.len());
    assert_eq!(packed, lz4::block::compress(&long, None, true).unwrap());
    assert_eq!(CompressionMode::default(), CompressionMode::Plain);
}

#[test]
fn the_cursor_rolls_over_past_the_segment_size() {
    let mut cursor = BlobCursor { segment: 3, offset: SEGMENT_SIZE };
    assert!(cursor.roll_over().is_ok());
    assert_eq!((cursor.segment, cursor.offset), (3, SEGMENT_SIZE));
    cursor.advance(SEGMENT_SIZE, 10);
    assert!(cursor.roll_over().is_ok());
    assert_eq!((cursor.segment, cursor.offset), (4, 0));
    let mut last = BlobCursor { segment: MAX_SEGMENTS - 1, offset: SEGMENT_SIZE + 1 };
    assert!(matches!(last.roll_over(), Err(Error::Internal(ref m)) if m == "Max segments reached"));
    assert_eq!(last.segment, MAX_SEGMENTS);
}

#[test]
fn a_volume_resumes_at_its_highest_segment() {
    assert_eq!(find_current_position(&[]), (0, 0));
    assert_eq!(find_current_position(&[(0, 500), (2, 10), (1, 900)]), (2, 10));
    assert_eq!(find_current_position(&[(2, 10), (2, 30)]), (2, 30));
}

#[test]
fn segment_files_are_spread_over_two_directory_levels() {
    assert_eq!(segment_file_path(5), "05/00/seg_0005.blob");
    assert_eq!(segment_file_path(1234), "34/12/seg_1234.blob");
    assert_eq!(zero_padded_string(7, 3), "007");
    assert_eq!(zero_padded_string(12345, 2), "12345");
}

#[test]
fn segment_numbers_come_from_file_names() {
    assert_eq!(segment_of_file_name("seg_0042.blob"), Some(42));
    assert_eq!(segment_of_file_name("seg_x.blob"), Some(0));
    assert_eq!(segment_of_file_name("other.blob"), Some(0));
    assert_eq!(segment_of_file_name("seg_0042.txt"), None);
    assert_eq!(segment_of_file_name(".blob"), None);
    assert_eq!(segment_of_file_name("noext"), None);
}

#[test]
fn checksums_print_as_eight_hex_digits() {
    assert_eq!(hex_u32_string(0xdeadbeef), "deadbeef");
    assert_eq!(hex_u32_string(1), "00000001");
}

#[test]
fn scanning_a_segment_finds_every_blob() {
    let mut segment = Vec::new();
    segment.extend(encode_blob_record("k1", b"hello", 5, false));
    let second = segment.len() as u64;
    segment.extend(encode_blob_record("k2", b"xy", 2, false));
    segment.extend(b"\0\0\0\0");
    let found = scan_segment(&segment, 7).unwrap();
    assert_eq!(found.len(), 2);
    assert_eq!(found[0].key, "k1");
    assert_eq!(found[0].location.offset, 0);
    assert_eq!(found[0].location.size, 5);
    assert_eq!(found[0].location.shard, 7);
    assert_eq!(found[0].location.blake3, blake3::hash(b"k1").to_hex().to_string());
    assert_eq!(found[1].key, "k2");
    assert_eq!(found[1].location.offset, second);

    let cut = &segment[..segment.len() - 8];
    assert!(matches!(scan_segment(cut, 7), Err(Error::Io(_))));
    assert_eq!(scan_segment(&[], 0).unwrap().len(), 0);
}

#[test]
fn stats_count_keys_bytes_and_segments() {
    let mut index = Index::new();
    index.insert("a".to_string(), BlobLocation { shard: 0, offset: 0, size: 10, blake3: blake3_hash(b"a"), expires_at: None });
    index.insert("b".to_string(), BlobLocation { shard: 1, offset: 5, size: 32, blake3: blake3_hash(b"b"), expires_at: None });
    let stats = store_stats(&index, 2);
    assert_eq!(stats.total_keys, 2);
    assert_eq!(stats.index_size, 2);
    assert_eq!(stats.total_bytes, 42);
    assert_eq!(stats.active_segments, 3);
    assert_eq!(stats.keys_with_ttl, 0);
}

fn filter() -> bloomfilter::Bloom<[u8; 32]> {
    bloomfilter::Bloom::new_for_fp_rate(100_000, 0.01).unwrap()
}

fn location(shard: u64, offset: u64, size: u64) -> BlobLocation {
    BlobLocation { shard, offset, size, blake3: String::new(), expires_at: None }
}

#[test]
fn the_store_finds_what_it_holds_and_nothing_else() {
    let mut index = Index::new();
    index.insert("old".to_string(), location(0, 0, 3));
    let mut store = BlobStore::new(index, filter(), 0, 40, CompressionMode::Plain).unwrap();
    assert_eq!(store.locate("old").unwrap().size, 3);
    assert!(store.locate("missing").is_none());
    assert!(store.holds("old"));

    assert_eq!(store.next_position().unwrap(), (0, 40));
    store.record_put("new".to_string(), location(0, 40, 5), 37);
    assert_eq!(store.current_position(), (0, 77));
    assert_eq!(store.locate("new").unwrap().offset, 40);

    assert_eq!(store.remove("old").unwrap().size, 3);
    assert!(store.locate("old").is_none());
    assert!(!store.holds("old"));
    assert!(store.remove("old").is_none());

    let stats = store.stats();
    assert_eq!(stats.total_keys, 1);
    assert_eq!(stats.total_bytes, 5);
    assert_eq!(stats.active_segments, 1);
}

#[test]
fn a_filter_without_bits_is_refused() {
    let mut bytes = vec![1u8];
    bytes.extend(0u64.to_le_bytes());
    bytes.extend(1u32.to_le_bytes());
    bytes.extend([0u8; 32]);
    let empty = bloomfilter::Bloom::<[u8; 32]>::from_bytes(bytes).unwrap();
    assert!(BlobStore::new(Index::new(), empty, 0, 0, CompressionMode::Plain).is_none());
}

#[test]
fn opening_replays_the_log_and_the_segments() {
    let mut store = BlobStore::new(Index::new(), filter(), 0, 0, CompressionMode::Lz4).unwrap();
    let mut segment = Vec::new();
    segment.extend(encode_blob_record("k1", b"hello", 5, false));
    segment.extend(encode_blob_record("k2", b"xy", 2, false));
    store.add_scanned(scan_segment(&segment, 0).unwrap());
    assert!(store.holds("k1") && store.holds("k2"));

    store.replay(&WalEntry { sequence: 0, op: WalOp::Delete { key: "k1".to_string() } });
    assert!(store.locate("k1").is_none());
    store.replay(&WalEntry { sequence: 1, op: WalOp::Put { key: "k3".to_string(), value: b"v".to_vec() } });
    assert!(!store.holds("k3"));
    assert_eq!(store.locate("k2").unwrap().size, 2);
    assert_eq!(store.compression_mode(), CompressionMode::Lz4);
    store.set_compression(CompressionMode::Plain);
    assert_eq!(store.compression_mode(), CompressionMode::Plain);
}

#[test]
fn a_full_segment_moves_writes_on_and_compaction_resets_the_position() {
    let mut store = BlobStore::new(Index::new(), filter(), 2, SEGMENT_SIZE + 1, CompressionMode::Plain).unwrap();
    assert_eq!(store.next_position().unwrap(), (3, 0));
    let mut compacted = Index::new();
    compacted.insert("kept".to_string(), location(0, 0, 9));
    store.replace_after_compaction(compacted, 0, 37);
    assert_eq!(store.current_position(), (0, 37));
    assert!(store.locate("kept").is_some());
    assert_eq!(store.index().len(), 1);

    let mut last = BlobStore::new(Index::new(), filter(), MAX_SEGMENTS - 1, SEGMENT_SIZE + 1, CompressionMode::Plain).unwrap();
    assert!(matches!(last.next_position(), Err(Error::Internal(ref m)) if m == "Max segments reached"));
}

#[test]
fn a_write_records_the_value_length_and_hash() {
    let (record, location) = blob_write(CompressionMode::Plain, "k", b"value", 4, 96);
    assert_eq!(record, encode_blob_record("k", b"value", 5, false));
    assert_eq!((location.shard, location.offset, location.size), (4, 96, 5));
    assert_eq!(location.blake3, blake3::hash(b"value").to_hex().to_string());

    let long = vec![b'z'; 4096];
    let (packed, location) = blob_write(CompressionMode::Lz4, "big", &long, 0, 0);
    assert_eq!(&packed[..4], b"BLOC");
    assert_eq!(location.size, 4096);
    assert!(packed.len() < 4096);
}

#[test]
fn compaction_moves_to_a_new_segment_after_a_full_one() {
    let mut cursor = BlobCursor { segment: 0, offset: SEGMENT_SIZE - 10 };
    cursor.advance_compacting(10);
    assert_eq!((cursor.segment, cursor.offset), (0, SEGMENT_SIZE));
    cursor.advance_compacting(1);
    assert_eq!((cursor.segment, cursor.offset), (1, 0));
}

#[test]
fn a_compressed_record_reads_back_as_the_decompressor_gives_it() {
    let value = vec![b'q'; 2048];
    let (record, _) = blob_write(CompressionMode::Lz4, "c", &value, 0, 0);
    let stored = &record[24 + 1..record.len() - 4];
    let expected = lz4::block::decompress(stored, Some(2048)).ok();
    match read_blob_record(&record, 0) {
        Ok(v) => assert_eq!(Some(v), expected),
        Err(Error::Corrupted(m)) => {
            assert_eq!(m, "LZ4 decompression failed");
            assert!(expected.is_none());
        }
        Err(e) => panic!("unexpected error: {:?}", e),
    }
}

#[test]
fn keys_with_a_time_to_live_expire() {
    let mut store = BlobStore::new(Index::new(), filter(), 0, 0, CompressionMode::Plain).unwrap();
    let loc = with_ttl(location(0, 0, 4), Some(1_000), 50);
    assert_eq!(loc.expires_at, Some(1_050));
    assert_eq!(with_ttl(location(0, 0, 4), None, 50).expires_at, None);
    store.record_put("t".to_string(), loc, 30);
    store.record_put("p".to_string(), location(0, 30, 4), 30);

    assert_eq!(store.get_ttl_at("t", 50), Some(1_000));
    assert_eq!(store.get_ttl_at("t", 1_050), None);
    assert_eq!(store.get_ttl_at("p", 50), None);
    assert!(store.holds_at("t", 1_049));
    assert!(!store.holds_at("t", 1_050));
    assert!(store.locate_valid_at("t", 1_050).is_none());
    assert_eq!(store.locate_valid_at("p", u64::MAX).unwrap().offset, 30);
    assert_eq!(store.stats().keys_with_ttl, 1);

    assert_eq!(store.cleanup_expired_at(2_000), 1);
    assert!(store.locate("t").is_none());
    assert_eq!(store.stats().total_keys, 1);
    assert_eq!(store.stats().keys_with_ttl, 0);
}
