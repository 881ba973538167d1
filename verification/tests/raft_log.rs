use minikv::raft_log::{encode_log_record, scan_log_frames, HardState, LogLayout};

fn record(body: &[u8]) -> Vec<u8> {
    encode_log_record(body)
}

#[test]
fn torn_tail_is_dropped() {
    let mut bytes = Vec::new();
    let mut layout = LogLayout::empty();
    bytes.extend(layout.append_records(&vec![b"entry-1".to_vec(), b"entry-2".to_vec()]));
    let len = bytes.len();
    bytes.truncate(len - 3);

    let frames = scan_log_frames(&bytes);
    assert_eq!(frames.len(), 1);
    let (mut reopened, kept) = LogLayout::recover(&frames, &vec![Some(1)]);
    assert_eq!(kept, 1);
    bytes.truncate(reopened.end_offset() as usize);

    bytes.extend(reopened.append_records(&vec![b"entry-2b".to_vec()]));
    let frames = scan_log_frames(&bytes);
    assert_eq!(frames.len(), 2);
    assert_eq!(&bytes[frames[1].body_start..frames[1].body_end], b"entry-2b");
}

#[test]
fn a_record_is_length_checksum_and_body() {
    let r = record(b"abc");
    assert_eq!(&r[..4], &3u32.to_le_bytes());
    assert_eq!(&r[4..8], &crc32fast::hash(b"abc").to_le_bytes());
    assert_eq!(&r[8..], b"abc");
}

#[test]
fn reopening_keeps_entries_up_to_the_first_bad_index() {
    let mut layout = LogLayout::empty();
    let bytes = layout.append_records(&vec![b"a".to_vec(), b"b".to_vec(), b"c".to_vec()]);
    assert_eq!(layout.len(), 3);
    assert_eq!(layout.end_offset(), bytes.len() as u64);
    let frames = scan_log_frames(&bytes);
    assert_eq!(frames.len(), 3);
    assert_eq!(frames[1].offset, 9);
    let (kept_layout, kept) = LogLayout::recover(&frames, &vec![Some(1), Some(3), Some(3)]);
    assert_eq!(kept, 1);
    assert_eq!(kept_layout.end_offset(), 9);
    let (_, none) = LogLayout::recover(&frames, &vec![None, Some(2), Some(3)]);
    assert_eq!(none, 0);
}

#[test]
fn truncation_cuts_at_the_record_of_the_index() {
    let mut layout = LogLayout::empty();
    let mut bytes = layout.append_records(&vec![b"a".to_vec(), b"b".to_vec(), b"c".to_vec()]);
    assert_eq!(layout.truncate_from(9), None);
    let cut = layout.truncate_from(3).unwrap();
    assert_eq!(cut, 18);
    bytes.truncate(cut as usize);
    bytes.extend(layout.append_records(&vec![b"d".to_vec()]));
    let frames = scan_log_frames(&bytes);
    let bodies: Vec<&[u8]> = frames.iter().map(|f| &bytes[f.body_start..f.body_end]).collect();
    assert_eq!(bodies, vec![b"a".as_slice(), b"b".as_slice(), b"d".as_slice()]);
    assert_eq!(layout.truncate_from(0), Some(0));
    assert_eq!(layout.len(), 0);
    assert!(layout.append_records(&vec![]).is_empty());
}

#[test]
fn a_fresh_node_has_the_default_hard_state() {
    let state = HardState::default();
    assert_eq!(state.term, 0);
    assert_eq!(state.voted_for, None);
}

#[test]
fn reopen_restores_state_and_log() {
    // a fresh directory: no state file, an empty log
    let state = match HardState::decode(&[]) {
        Some(s) => s,
        None => HardState::default(),
    };
    assert_eq!(state, HardState::default());
    assert!(scan_log_frames(&[]).is_empty());

    // what the node stores
    let state_file = HardState { term: 3, voted_for: Some("coord-2".to_string()) }.encode();
    let mut layout = LogLayout::empty();
    let mut bytes = layout.append_records(&vec![b"a".to_vec(), b"b".to_vec(), b"c".to_vec()]);
    let cut = layout.truncate_from(3).unwrap();
    bytes.truncate(cut as usize);
    bytes.extend(layout.append_records(&vec![b"d".to_vec()]));

    // reopening reads both back
    let state = HardState::decode(&state_file).unwrap();
    assert_eq!(state.term, 3);
    assert_eq!(state.voted_for.as_deref(), Some("coord-2"));
    let frames = scan_log_frames(&bytes);
    let (_, kept) = LogLayout::recover(&frames, &vec![Some(1), Some(2), Some(3)]);
    assert_eq!(kept, 3);
    assert_eq!(&bytes[frames[2].body_start..frames[2].body_end], b"d");
}

#[test]
fn hard_state_bytes_are_term_flag_and_name() {
    let none = HardState { term: 7, voted_for: None }.encode();
    assert_eq!(none, [7u8, 0, 0, 0, 0, 0, 0, 0, 0].to_vec());
    let some = HardState { term: 1, voted_for: Some("ab".to_string()) }.encode();
    assert_eq!(some, [1u8, 0, 0, 0, 0, 0, 0, 0, 1, 2, 0, 0, 0, 0, 0, 0, 0, b'a', b'b'].to_vec());
    assert_eq!(HardState::decode(&some[..some.len() - 1]), None);
    assert_eq!(HardState::decode(&[0, 0, 0, 0, 0, 0, 0, 0, 2]), None);
    let mut bad = some.clone();
    bad[17] = 0xff;
    assert_eq!(HardState::decode(&bad), None);
}
