use minikv::backup::parse_backup_type;
use minikv::backup::{verify_restore, Sha256Hasher, 
    check_manifest_checksum, check_restored_file, compute_manifest_checksum, make_backup_id, make_restore_id,
    restore_precheck, sort_files_by_path, BackupConfig, BackupDestination, BackupFile, BackupStatus, BackupType,
};
use minikv::error::Error;
use sha2::{Digest, Sha256};

fn file(path: &str, size: u64, checksum: &str) -> BackupFile {
    BackupFile { path: path.to_string(), size, checksum: checksum.to_string(), encrypted: false, compressed: true }
}

fn by_hand(files: &[(&str, u64, &str, bool, bool)]) -> String {
    let mut sorted = files.to_vec();
    sorted.sort_by(|a, b| a.0.cmp(b.0));
    let mut hasher = Sha256::new();
    for (path, size, checksum, encrypted, compressed) in sorted {
        hasher.update((path.len() as u64).to_le_bytes());
        hasher.update(path.as_bytes());
        hasher.update(size.to_le_bytes());
        hasher.update([encrypted as u8]);
        hasher.update([compressed as u8]);
        hasher.update(checksum.as_bytes());
    }
    hex::encode(hasher.finalize())
}

#[test]
fn backup_and_restore_ids_carry_type_and_time() {
    assert_eq!(make_backup_id(BackupType::Full, "20240101-120000"), "backup-full-20240101-120000");
    assert_eq!(make_backup_id(BackupType::Incremental, "x"), "backup-incremental-x");
    assert!(make_backup_id(BackupType::Full, "t").starts_with("backup-full-"));
    assert_eq!(make_restore_id("20240101-120000"), "restore-20240101-120000");
    assert_eq!(BackupType::Full.as_str(), "full");
}

#[test]
fn only_completed_backups_with_files_are_restored() {
    assert!(restore_precheck(BackupStatus::Completed, true, 2).is_ok());
    assert!(restore_precheck(BackupStatus::Completed, false, 0).is_ok());
    assert!(matches!(restore_precheck(BackupStatus::InProgress, true, 2),
        Err(Error::Other(ref m)) if m == "Cannot restore from backup with status InProgress"));
    assert!(matches!(restore_precheck(BackupStatus::Completed, true, 0),
        Err(Error::Other(ref m)) if m == "Backup manifest has no data_files to verify"));
    for s in [BackupStatus::InProgress, BackupStatus::Completed, BackupStatus::Failed, BackupStatus::Cancelled] {
        assert_eq!(s.debug_name(), format!("{:?}", s));
    }
}

#[test]
fn restored_files_are_checked_for_presence_size_and_checksum() {
    let f = file("data/chunk-0001.bin", 4, "ABCDEF");
    assert!(matches!(check_restored_file(&f, false, 4, "abcdef"),
        Err(Error::NotFound(ref m)) if m == "Backup file missing: data/chunk-0001.bin"));
    assert!(matches!(check_restored_file(&f, true, 5, "abcdef"),
        Err(Error::Corrupted(ref m)) if m == "File size mismatch for data/chunk-0001.bin: expected 4, got 5"));
    match check_restored_file(&f, true, 4, "abcde0") {
        Err(Error::ChecksumMismatch { expected, actual }) => {
            assert_eq!(expected, "abcdef");
            assert_eq!(actual, "abcde0");
        }
        other => panic!("unexpected result: {:?}", other),
    }
    let ok = check_restored_file(&f, true, 4, "abcdef").unwrap();
    assert_eq!(ok.checksum, "abcdef");
    assert_eq!(ok.path, f.path);
    assert!(ok.compressed);
}

#[test]
fn files_sort_by_path_stably() {
    let files = vec![file("b", 1, "1"), file("a", 2, "2"), file("b", 3, "3"), file("B", 4, "4")];
    let sorted = sort_files_by_path(&files);
    let order: Vec<(String, u64)> = sorted.iter().map(|f| (f.path.clone(), f.size)).collect();
    assert_eq!(order, vec![("B".to_string(), 4), ("a".to_string(), 2), ("b".to_string(), 1), ("b".to_string(), 3)]);
}

#[test]
fn the_manifest_checksum_hashes_the_sorted_files() {
    let files = vec![file("data/b.bin", 10, "bb"), file("data/a.bin", 20, "aa")];
    let expected = by_hand(&[("data/b.bin", 10, "bb", false, true), ("data/a.bin", 20, "aa", false, true)]);
    assert_eq!(compute_manifest_checksum(&files), expected);
    assert_eq!(compute_manifest_checksum(&vec![]), hex::encode(Sha256::digest(b"")));

    assert!(check_manifest_checksum("  ", &files).is_ok());
    assert!(check_manifest_checksum(&expected.to_uppercase(), &files).is_ok());
    match check_manifest_checksum("deadbeef", &files) {
        Err(Error::ChecksumMismatch { expected: e, actual: a }) => {
            assert_eq!(e, "deadbeef");
            assert_eq!(a, expected);
        }
        other => panic!("unexpected result: {:?}", other),
    }
}

#[test]
fn backups_default_to_local_compressed_copies() {
    let c = BackupConfig::default();
    assert!(matches!(c.destination, BackupDestination::Local { ref path } if path == "./backups"));
    assert!(c.compress);
    assert!(!c.encrypt);
    assert!(c.include_wal);
    assert_eq!(c.parallel_workers, 4);
    assert_eq!(c.chunk_size, 64 * 1024 * 1024);
}

#[test]
fn backup_requests_are_full_unless_incremental() {
    assert_eq!(parse_backup_type("incremental"), BackupType::Incremental);
    assert_eq!(parse_backup_type("full"), BackupType::Full);
    assert_eq!(parse_backup_type("Incremental"), BackupType::Full);
}

#[test]
fn the_sha256_hasher_matches_the_one_shot_digest() {
    let mut h = Sha256Hasher::new();
    h.update(b"hello ");
    h.update(b"world");
    assert_eq!(h.len(), 11);
    assert_eq!(h.finalize(), hex::encode(Sha256::digest(b"hello world")));
    assert_eq!(Sha256Hasher::new().finalize(), hex::encode(Sha256::digest(b"")));
}

#[test]
fn a_restore_reports_the_first_problem_in_order() {
    let a_sum = hex::encode(Sha256::digest(b"aaa"));
    let b_sum = hex::encode(Sha256::digest(b"bb"));
    let a = file("a", 3, &a_sum);
    let b = file("b", 2, &b_sum);
    let files = vec![file("a", 3, &a_sum), file("b", 2, &b_sum)];
    let good = vec![(true, 3, a.checksum.to_uppercase()), (true, 2, b.checksum.clone())];
    let recorded = compute_manifest_checksum(&vec![
        file("a", 3, &a_sum.to_uppercase()),
        file("b", 2, &b_sum),
    ]);
    assert_eq!(verify_restore(BackupStatus::Completed, true, &recorded, &files, &good), Ok(()));
    assert_eq!(verify_restore(BackupStatus::Completed, true, "", &files, &good), Ok(()));
    assert!(matches!(verify_restore(BackupStatus::Completed, true, "00", &files, &good), Err(Error::ChecksumMismatch { .. })));

    let missing_then_short = vec![(false, 0, String::new()), (true, 1, String::new())];
    assert_eq!(
        verify_restore(BackupStatus::Completed, true, &recorded, &files, &missing_then_short),
        Err(Error::NotFound("Backup file missing: a".to_string()))
    );
    let short = vec![(true, 3, a.checksum.clone()), (true, 1, String::new())];
    assert_eq!(
        verify_restore(BackupStatus::Completed, true, &recorded, &files, &short),
        Err(Error::Corrupted("File size mismatch for b: expected 2, got 1".to_string()))
    );
    let changed = vec![(true, 3, a.checksum.clone()), (true, 2, "ff".to_string())];
    assert_eq!(
        verify_restore(BackupStatus::Completed, true, &recorded, &files, &changed),
        Err(Error::ChecksumMismatch { expected: b.checksum.clone(), actual: "ff".to_string() })
    );
    // without verification only the status counts
    assert_eq!(verify_restore(BackupStatus::Completed, false, "", &vec![], &vec![]), Ok(()));
    assert!(matches!(verify_restore(BackupStatus::Completed, true, "", &vec![], &vec![]), Err(Error::Other(_))));
}
