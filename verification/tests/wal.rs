use minikv::error::Error;
use minikv::wal::{encode_wal_entry, next_sequence, read_wal_entry, replay_entries, WalOp, WalRead, OP_DELETE, OP_PUT};

fn log_of(entries: &[(u64, u8, &str, &[u8])]) -> Vec<u8> {
    let mut bytes = Vec::new();
    for (seq, op, key, value) in entries {
        bytes.extend(encode_wal_entry(*seq, *op, key, value));
    }
    bytes
}

#[test]
fn written_entries_replay_in_order() {
    let bytes = log_of(&[(0, OP_PUT, "key1", b"value1"), (1, OP_PUT, "key2", b"value2"), (2, OP_DELETE, "key1", b"")]);
    let (entries, damage) = replay_entries(&bytes);
    assert!(damage.is_none());
    assert_eq!(entries.len(), 3);
    match &entries[0].op {
        WalOp::Put { key, value } => {
            assert_eq!(key, "key1");
            assert_eq!(value, b"value1");
        }
        _ => panic!("Expected Put"),
    }
    assert!(matches!(&entries[2].op, WalOp::Delete { key } if key == "key1"));
    assert_eq!(entries[2].sequence, 2);
    assert_eq!(next_sequence(&bytes), 3);
}

#[test]
fn an_entry_has_the_documented_layout() {
    let bytes = encode_wal_entry(7, OP_PUT, "k", b"vv");
    assert_eq!(&bytes[..4], b"WAL1");
    assert_eq!(&bytes[4..12], &7u64.to_le_bytes());
    assert_eq!(bytes[12], OP_PUT);
    assert_eq!(&bytes[13..17], &1u32.to_le_bytes());
    assert_eq!(&bytes[17..21], &2u32.to_le_bytes());
    assert_eq!(&bytes[21..22], b"k");
    assert_eq!(&bytes[22..24], b"vv");
    let crc = crc32fast::hash(&bytes[4..24]);
    assert_eq!(&bytes[24..28], &crc.to_le_bytes());
    assert_eq!(bytes.len(), 28);
}

#[test]
fn replay_stops_at_a_torn_or_damaged_entry() {
    let mut bytes = log_of(&[(0, OP_PUT, "a", b"1"), (1, OP_PUT, "b", b"2")]);
    let full = bytes.len();
    bytes.truncate(full - 3);
    let (entries, damage) = replay_entries(&bytes);
    assert_eq!(entries.len(), 1);
    assert!(matches!(damage, Some(Error::Wal(_))));

    let mut flipped = log_of(&[(0, OP_PUT, "a", b"1")]);
    flipped[21] ^= 0x01;
    let (entries, damage) = replay_entries(&flipped);
    assert!(entries.is_empty());
    assert!(matches!(damage, Some(Error::Wal(ref m)) if m == "Checksum mismatch"));
}

#[test]
fn an_empty_log_starts_at_sequence_zero() {
    assert_eq!(next_sequence(&[]), 0);
    assert!(matches!(read_wal_entry(&[], 0), WalRead::End));
    assert!(matches!(read_wal_entry(b"NOPE....", 0), WalRead::Corrupt(_)));
    let bytes = log_of(&[(41, OP_PUT, "x", b"y"), (5, OP_DELETE, "x", b"")]);
    assert_eq!(next_sequence(&bytes), 42);
}

/// Appends an entry the way the volume's log does: at the sequence that follows the log.
fn append(log: &mut Vec<u8>, op: u8, key: &str, value: &[u8]) -> u64 {
    let seq = next_sequence(log);
    log.extend(encode_wal_entry(seq, op, key, value));
    seq
}

#[test]
fn test_wal_basic() {
    let mut log = Vec::new();
    let seq1 = append(&mut log, OP_PUT, "key1", b"value1");
    let seq2 = append(&mut log, OP_PUT, "key2", b"value2");
    let seq3 = append(&mut log, OP_DELETE, "key1", b"");
    assert_eq!(seq1, 0);
    assert_eq!(seq2, 1);
    assert_eq!(seq3, 2);

    let (entries, damage) = replay_entries(&log);
    assert!(damage.is_none());
    assert_eq!(entries.len(), 3);
    assert_eq!(entries[0].sequence, 0);
    assert_eq!(entries[1].sequence, 1);
    assert_eq!(entries[2].sequence, 2);
    match &entries[0].op {
        WalOp::Put { key, value } => {
            assert_eq!(key, "key1");
            assert_eq!(value, b"value1");
        }
        _ => panic!("Expected Put"),
    }
}

#[test]
fn test_wal_reopen() {
    let mut log = Vec::new();
    append(&mut log, OP_PUT, "key1", b"value1");
    append(&mut log, OP_PUT, "key2", b"value2");

    // a reopened log continues after its entries
    assert_eq!(next_sequence(&log), 2);
    let seq = append(&mut log, OP_PUT, "key3", b"value3");
    assert_eq!(seq, 2);

    let (entries, _) = replay_entries(&log);
    assert_eq!(entries.len(), 3);
}
