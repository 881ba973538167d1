use base64::engine::general_purpose::STANDARD as BASE64;
use base64::Engine;
use minikv::encryption::{maybe_decrypt, maybe_encrypt, EncryptedData, EncryptionError, EncryptionManager, KEY_SIZE};

fn get_test_key() -> String {
    EncryptionManager::generate_master_key()
}

#[test]
fn test_encryption_disabled_by_default() {
    let manager = EncryptionManager::new();
    assert!(!manager.is_enabled());
}

#[test]
fn test_initialize_encryption() {
    let mut manager = EncryptionManager::new();
    let key = get_test_key();
    assert!(manager.initialize(&key).is_ok());
    assert!(manager.is_enabled());
}

#[test]
fn test_encrypt_decrypt() {
    let mut manager = EncryptionManager::new();
    let key = get_test_key();
    manager.initialize(&key).unwrap();

    let plaintext = b"Hello, MiniKV!";
    let encrypted = manager.encrypt(plaintext).unwrap();
    let decrypted = manager.decrypt(&encrypted).unwrap();

    assert_eq!(plaintext.as_slice(), decrypted.as_slice());
}

#[test]
fn test_encrypt_decrypt_bytes() {
    let mut manager = EncryptionManager::new();
    let key = get_test_key();
    manager.initialize(&key).unwrap();

    let plaintext = b"Test data for encryption";
    let encrypted = manager.encrypt_bytes(plaintext).unwrap();
    let decrypted = manager.decrypt_bytes(&encrypted).unwrap();

    assert_eq!(plaintext.as_slice(), decrypted.as_slice());
}

#[test]
fn test_encrypted_data_format() {
    let mut manager = EncryptionManager::new();
    let key = get_test_key();
    manager.initialize(&key).unwrap();

    let plaintext = b"Format test";
    let encrypted = manager.encrypt(plaintext).unwrap();
    let bytes = encrypted.to_bytes();

    assert!(EncryptedData::is_encrypted(&bytes));

    let parsed = EncryptedData::from_bytes(&bytes).unwrap();
    assert_eq!(encrypted.nonce, parsed.nonce);
    assert_eq!(encrypted.ciphertext, parsed.ciphertext);
}

#[test]
fn test_wal_encryption() {
    let mut manager = EncryptionManager::new();
    let key = get_test_key();
    manager.initialize(&key).unwrap();

    let wal_entry = b"WAL entry data";
    let encrypted = manager.encrypt_wal(wal_entry).unwrap();
    let decrypted = manager.decrypt_wal(&encrypted).unwrap();

    assert_eq!(wal_entry.as_slice(), decrypted.as_slice());
}

#[test]
fn test_different_keys_for_data_and_wal() {
    let mut manager = EncryptionManager::new();
    let key = get_test_key();
    manager.initialize(&key).unwrap();

    assert_ne!(manager.data_key(), manager.wal_key());
}

#[test]
fn encryption_test_invalid_key() {
    let mut manager = EncryptionManager::new();

    let result = manager.initialize("dG9vIHNob3J0");
    assert!(result.is_err());

    let result = manager.initialize("not-valid-base64!!!");
    assert!(result.is_err());
}

#[test]
fn test_passthrough_when_disabled() {
    let manager = EncryptionManager::new();

    let data = b"plain data";
    let result = manager.encrypt_bytes(data).unwrap();
    assert_eq!(data.as_slice(), result.as_slice());

    let result = manager.decrypt_bytes(data).unwrap();
    assert_eq!(data.as_slice(), result.as_slice());
}

#[test]
fn test_generate_master_key() {
    let key1 = EncryptionManager::generate_master_key();
    let key2 = EncryptionManager::generate_master_key();

    assert_ne!(key1, key2);

    assert!(BASE64.decode(&key1).is_ok());
    assert!(BASE64.decode(&key2).is_ok());

    assert_eq!(BASE64.decode(&key1).unwrap().len(), KEY_SIZE);
}

#[test]
fn ciphertext_is_not_the_plaintext_and_tampering_is_detected() {
    let mut manager = EncryptionManager::new();
    manager.initialize(&get_test_key()).unwrap();
    let plaintext = b"some secret payload";
    let encrypted = manager.encrypt(plaintext).unwrap();
    assert_eq!(encrypted.ciphertext.len(), plaintext.len() + 16);
    assert_ne!(&encrypted.ciphertext[..plaintext.len()], plaintext.as_slice());
    let mut bad = encrypted.to_bytes();
    let last = bad.len() - 1;
    bad[last] ^= 1;
    assert!(manager.decrypt_bytes(&bad).is_err());
    let data_sealed = manager.encrypt(plaintext).unwrap();
    assert!(manager.decrypt_wal(&data_sealed).is_err());
}

#[test]
fn short_or_unmarked_bytes_are_not_encrypted_data() {
    assert!(!EncryptedData::is_encrypted(b"short"));
    assert!(matches!(EncryptedData::from_bytes(b"short"), Err(EncryptionError::InvalidFormat(_))));
    let manager = EncryptionManager::new();
    assert!(matches!(manager.encrypt(b"x"), Err(EncryptionError::NotEnabled)));
}

#[test]
fn maybe_helpers_pass_through_without_encryption() {
    let manager = EncryptionManager::new();
    assert_eq!(maybe_encrypt(&manager, b"abc"), b"abc".to_vec());
    assert_eq!(maybe_decrypt(&manager, b"abc"), b"abc".to_vec());
    let mut on = EncryptionManager::new();
    on.initialize(&get_test_key()).unwrap();
    let sealed = maybe_encrypt(&on, b"abc");
    assert_ne!(sealed, b"abc".to_vec());
    assert_eq!(sealed.len(), 3 + 36);
    assert_eq!(&sealed[..8], b"MKVENC01");
    assert_eq!(maybe_decrypt(&on, &sealed), b"abc".to_vec());
    assert_eq!(maybe_decrypt(&on, b"plain bytes"), b"plain bytes".to_vec());
}

#[test]
fn encryption_failures_read_as_messages() {
    assert_eq!(EncryptionError::NotEnabled.message(), "Encryption is not enabled");
    assert_eq!(EncryptionError::InvalidKey("short".to_string()).message(), "Invalid encryption key: short");
    assert_eq!(EncryptionError::InvalidFormat("magic".to_string()).message(), "Invalid encrypted data format: magic");
    assert_eq!(EncryptionError::KeyDerivationFailed("x".to_string()).message(), "Key derivation failed: x");
}

#[test]
fn a_decoded_master_key_enables_encryption() {
    let mut manager = EncryptionManager::new();
    match manager.initialize_with_key(&[7u8; 16], "short") {
        Err(EncryptionError::InvalidKey(m)) => assert_eq!(m, "Master key too short: 16 bytes, minimum 32 bytes"),
        other => panic!("unexpected: {:?}", other.is_ok()),
    }
    assert!(!manager.is_enabled());
    let key = [7u8; 32];
    manager.initialize_with_key(&key, &BASE64.encode(key)).unwrap();
    assert!(manager.is_enabled());
    let mut same = EncryptionManager::new();
    same.initialize(&BASE64.encode(key)).unwrap();
    assert_eq!(manager.data_key(), same.data_key());
    assert_eq!(manager.wal_key(), same.wal_key());
}
