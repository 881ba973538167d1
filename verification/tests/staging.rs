use minikv::hash::blake3_hash;
use minikv::staging::{check_prepare, stream_chunks, CommitDecision, StagingArea, CHUNK_SIZE, STAGING_TTL_MS};

fn prepare(area: &mut StagingArea, now: u64, key: &str, upload: &str, data: &[u8]) -> Option<String> {
    area.prepare(now, key.to_string(), upload.to_string(), data.to_vec(), data.len() as u64, &blake3_hash(data))
}

#[test]
fn prepared_data_is_held_until_commit_and_handed_over_once() {
    let mut area = StagingArea::new();
    assert!(prepare(&mut area, 0, "k#1", "u1", b"hello").is_none());
    assert_eq!(area.staged_uploads(), 1);
    match area.commit(&"u1".to_string(), &"k#1".to_string()) {
        CommitDecision::Write { key, data } => {
            assert_eq!(key, "k#1");
            assert_eq!(data, b"hello".to_vec());
        }
        _ => panic!("expected the upload to be handed over"),
    }
    assert_eq!(area.staged_uploads(), 0);
    assert!(matches!(area.commit(&"u1".to_string(), &"k#1".to_string()), CommitDecision::Unknown));
}

#[test]
fn corrupted_or_aborted_uploads_are_never_handed_over() {
    let mut area = StagingArea::new();
    let refused = area.prepare(0, "k#2".to_string(), "u2".to_string(), b"hellO".to_vec(), 5, &blake3_hash(b"hello"));
    assert_eq!(refused.as_deref(), Some("checksum mismatch"));
    assert_eq!(area.staged_uploads(), 0);

    assert!(prepare(&mut area, 0, "k#3", "u3", b"bye").is_none());
    area.abort(&"u3".to_string());
    let late = area.commit(&"u3".to_string(), &"k#3".to_string());
    assert!(matches!(late, CommitDecision::Unknown));
    assert_eq!(late.refusal().as_deref(), Some("unknown upload_id"));
}

#[test]
fn a_commit_for_another_key_is_refused_and_the_upload_stays() {
    let mut area = StagingArea::new();
    assert!(prepare(&mut area, 10, "k", "u", b"d").is_none());
    let wrong = area.commit(&"u".to_string(), &"other".to_string());
    assert_eq!(wrong.refusal().as_deref(), Some("key does not match the prepared upload"));
    assert_eq!(area.staged_uploads(), 1);
}

#[test]
fn uploads_are_checked_in_order() {
    assert_eq!(check_prepare("", "u", b"x", 1, "").as_deref(), Some("key cannot be empty"));
    assert_eq!(check_prepare("k", "", b"x", 1, "").as_deref(), Some("upload_id cannot be empty"));
    assert_eq!(check_prepare("k", "u", b"x", 2, "").as_deref(), Some("size mismatch"));
    assert_eq!(check_prepare("k", "u", b"x", 1, "").as_deref(), Some("checksum mismatch"));
    assert_eq!(check_prepare("k", "u", b"x", 1, &minikv::hash::blake3_hash(b"x")).as_deref(), None);
    assert_eq!(check_prepare("k", "u", b"x", 1, "00").as_deref(), Some("checksum mismatch"));
}

#[test]
fn old_uploads_expire_when_another_is_prepared() {
    let mut area = StagingArea::new();
    assert!(prepare(&mut area, 0, "a", "u1", b"1").is_none());
    assert!(prepare(&mut area, STAGING_TTL_MS - 1, "b", "u2", b"2").is_none());
    assert_eq!(area.staged_uploads(), 2);
    assert!(prepare(&mut area, STAGING_TTL_MS, "c", "u3", b"3").is_none());
    assert_eq!(area.staged_uploads(), 2);
    assert!(matches!(area.commit(&"u1".to_string(), &"a".to_string()), CommitDecision::Unknown));
    assert!(prepare(&mut area, STAGING_TTL_MS, "c2", "u3", b"33").is_none());
    assert_eq!(area.staged_uploads(), 2);
    assert!(matches!(area.commit(&"u3".to_string(), &"c2".to_string()), CommitDecision::Write { .. }));
}

/// A volume's store and its single segment, as the storage service keeps them.
struct Volume {
    store: minikv::blob::BlobStore,
    segment: Vec<u8>,
}

impl Volume {
    fn new() -> Self {
        let bloom = bloomfilter::Bloom::new_for_fp_rate(1000, 0.01).unwrap();
        let store = minikv::blob::BlobStore::new(minikv::index::Index::new(), bloom, 0, 0, minikv::blob::CompressionMode::Plain)
            .unwrap();
        Volume { store, segment: Vec::new() }
    }

    fn write(&mut self, key: &str, data: &[u8]) {
        let (segment, offset) = self.store.next_position().unwrap();
        let (record, location) = minikv::blob::blob_write(self.store.compression_mode(), key, data, segment, offset);
        assert_eq!(offset as usize, self.segment.len());
        self.segment.extend(&record);
        self.store.record_put(key.to_string(), location, record.len() as u64);
    }

    fn pull(&self, key: &str) -> Option<Vec<u8>> {
        let location = self.store.locate(key)?;
        Some(minikv::blob::read_blob_record(&self.segment, location.offset).unwrap())
    }
}

fn commit_into(area: &mut StagingArea, volume: &mut Volume, upload: &str, key: &str) -> bool {
    match area.commit(&upload.to_string(), &key.to_string()) {
        CommitDecision::Write { key, data } => {
            volume.write(&key, &data);
            true
        }
        _ => false,
    }
}

#[test]
fn prepared_data_is_invisible_until_commit() {
    let mut area = StagingArea::new();
    let mut volume = Volume::new();
    assert!(prepare(&mut area, 0, "k#1", "u1", b"hello").is_none());
    assert_eq!(area.staged_uploads(), 1);
    assert!(volume.pull("k#1").is_none());

    assert!(commit_into(&mut area, &mut volume, "u1", "k#1"));
    assert_eq!(area.staged_uploads(), 0);
    assert_eq!(volume.pull("k#1").unwrap(), b"hello".to_vec());
}

#[test]
fn corrupted_or_aborted_uploads_are_never_written() {
    let mut area = StagingArea::new();
    let mut volume = Volume::new();
    let refused = area.prepare(0, "k#2".to_string(), "u2".to_string(), b"hellO".to_vec(), 5, &blake3_hash(b"hello"));
    assert!(refused.is_some());

    assert!(prepare(&mut area, 0, "k#3", "u3", b"bye").is_none());
    area.abort(&"u3".to_string());
    assert!(!commit_into(&mut area, &mut volume, "u3", "k#3"));
    assert!(volume.pull("k#3").is_none());
}

#[test]
fn blobs_stream_in_chunks_that_join_back() {
    assert!(stream_chunks(&[]).is_empty());
    let small = stream_chunks(b"abc");
    assert_eq!(small, vec![b"abc".to_vec()]);
    let data: Vec<u8> = (0..(2 * CHUNK_SIZE + 5)).map(|i| (i % 251) as u8).collect();
    let chunks = stream_chunks(&data);
    assert_eq!(chunks.len(), 3);
    assert_eq!(chunks[0].len(), CHUNK_SIZE);
    assert_eq!(chunks[2].len(), 5);
    assert_eq!(chunks.concat(), data);
    let exact = vec![7u8; CHUNK_SIZE];
    assert_eq!(stream_chunks(&exact).len(), 1);
}
