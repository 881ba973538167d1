use minikv::error::Error;
use minikv::utils::{
    crc32, decode_key, encode_key, format_bytes, format_upload_id, parse_duration, validate_key, NodeState, UploadIds,
};
use std::time::Duration;

#[test]
fn test_encode_decode_key() {
    let key = "my/path/to/file.txt";
    let encoded = encode_key(key);
    assert!(encoded.contains("%2F"));

    let decoded = decode_key(&encoded).unwrap();
    assert_eq!(decoded, key);
}

#[test]
fn test_parse_duration() {
    assert_eq!(parse_duration("500ms").unwrap(), Duration::from_millis(500));
    assert_eq!(parse_duration("30s").unwrap(), Duration::from_secs(30));
    assert_eq!(parse_duration("5m").unwrap(), Duration::from_secs(300));
    assert_eq!(parse_duration("1h").unwrap(), Duration::from_secs(3600));
    assert_eq!(parse_duration("7d").unwrap(), Duration::from_secs(604800));
}

#[test]
fn test_parse_duration_invalid() {
    assert!(parse_duration("").is_err());
    assert!(parse_duration("abc").is_err());
    assert!(parse_duration("10x").is_err());
}

#[test]
fn test_node_state() {
    assert!(NodeState::Alive.is_healthy());
    assert!(NodeState::Alive.can_write());
    assert!(NodeState::Alive.can_read());

    assert!(!NodeState::Dead.is_healthy());
    assert!(!NodeState::Dead.can_write());
    assert!(!NodeState::Dead.can_read());

    assert!(!NodeState::Draining.can_write());
    assert!(NodeState::Draining.can_read());
}

#[test]
fn test_generate_upload_id() {
    let mut ids = UploadIds::new();
    let id1 = ids.generate_upload_id();
    let id2 = ids.generate_upload_id();
    assert_ne!(id1, id2);
    assert!(id1.contains('-'));
}

#[test]
fn test_validate_key() {
    assert!(validate_key("normal-key").is_ok());
    assert!(validate_key("path/to/key").is_ok());
    assert!(validate_key("").is_err());
    assert!(validate_key(&"x".repeat(2000)).is_err());
}

#[test]
fn validate_key_refuses_control_characters_and_takes_1024_bytes() {
    assert!(matches!(validate_key("bad\nkey"), Err(Error::InvalidConfig(_))));
    assert!(validate_key(&"x".repeat(1024)).is_ok());
    assert!(validate_key(&"x".repeat(1025)).is_err());
}

#[test]
fn parse_duration_takes_whitespace_and_refuses_overflow_of_units() {
    assert_eq!(parse_duration("  2s ").unwrap(), Duration::from_secs(2));
    assert_eq!(parse_duration("0ms").unwrap(), Duration::from_millis(0));
    assert!(parse_duration("ms").is_err());
    assert!(parse_duration("-1s").is_err());
}

#[test]
fn upload_ids_join_timestamp_and_counter() {
    assert_eq!(format_upload_id(1700000000000, 7), "1700000000000-7");
    assert_eq!(format_upload_id(0, 0), "0-0");
    let mut ids = UploadIds::new();
    let first = ids.generate_upload_id();
    assert!(first.ends_with("-0"));
    let second = ids.generate_upload_id();
    assert!(second.ends_with("-1"));
}

#[test]
fn crc32_of_the_check_string() {
    assert_eq!(crc32(b"123456789"), 0xCBF4_3926);
    assert_eq!(crc32(b""), 0);
}

#[test]
fn encoded_keys_decode_back_and_plain_keys_stay() {
    for key in ["a b?c#d&e%f", "plain-key_1.txt", "ünïcödé/ключ"] {
        assert_eq!(decode_key(&encode_key(key)).unwrap(), key);
    }
    assert_eq!(encode_key("plain-key_1.txt"), "plain-key_1.txt");
    assert_eq!(encode_key("a b"), "a%20b");
    assert!(decode_key("%FF").is_err());
}

#[test]
fn test_format_bytes() {
    assert_eq!(format_bytes(0), "0.00 B");
    assert_eq!(format_bytes(1023), "1023.00 B");
    assert_eq!(format_bytes(1024), "1.00 KB");
    assert_eq!(format_bytes(1024 * 1024), "1.00 MB");
    assert_eq!(format_bytes(1024 * 1024 * 1024), "1.00 GB");
}

fn format_as_double(bytes: u64) -> String {
    let units = ["B", "KB", "MB", "GB", "TB", "PB"];
    let mut size = bytes as f64;
    let mut unit = 0;
    while size >= 1024.0 && unit < units.len() - 1 {
        size /= 1024.0;
        unit += 1;
    }
    format!("{:.2} {}", size, units[unit])
}

#[test]
fn sizes_read_as_the_double_arithmetic_prints_them() {
    let samples = [
        1u64, 1152, 1160, 1126, 1536, 10_240, 1_048_575, 1_048_576 + 5_243, 5_000_000_000,
        1 << 50, (1 << 50) * 1023 + 1, (1 << 53) + 1, (1 << 60) + 3, u64::MAX, u64::MAX - 4096,
    ];
    for b in samples {
        assert_eq!(format_bytes(b), format_as_double(b), "bytes = {}", b);
    }
    assert_eq!(format_bytes(1152), "1.12 KB");
    assert_eq!(format_bytes(u64::MAX), "16384.00 PB");
}
