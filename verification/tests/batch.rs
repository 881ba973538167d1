use minikv::batch::{
    batch_read_result, batch_step, batch_write_result, count_successes, range_keys, transaction_refusal,
    transaction_result, transaction_step, value_contains, KeyOp, OpStep,
};
use minikv::objects::ObjectError;

fn op(op: &str, key: &str, value: Option<&str>) -> KeyOp {
    KeyOp { op: op.to_string(), key: key.to_string(), value: value.map(|v| v.to_string()) }
}

#[test]
fn batch_operations_become_steps() {
    assert!(matches!(batch_step(&op("put", "k", Some("vé"))), OpStep::Put(ref v) if v == "vé".as_bytes()));
    assert!(matches!(batch_step(&op("put", "k", None)), OpStep::Refuse(ref m) if m == "Missing value for put"));
    assert!(matches!(batch_step(&op("get", "k", None)), OpStep::Get));
    assert!(matches!(batch_step(&op("delete", "k", Some("x"))), OpStep::Delete));
    assert!(matches!(batch_step(&op("PUT", "k", Some("x"))), OpStep::Refuse(ref m) if m == "Unknown op"));
}

#[test]
fn transactions_have_no_reads() {
    assert!(matches!(transaction_step(&op("put", "k", Some("v"))), OpStep::Put(ref v) if v == b"v"));
    assert!(matches!(transaction_step(&op("put", "k", None)), OpStep::Refuse(ref m) if m == "value required for put"));
    assert!(matches!(transaction_step(&op("get", "k", None)), OpStep::Refuse(ref m) if m == "unknown operation"));
    assert!(matches!(transaction_step(&op("delete", "k", None)), OpStep::Delete));
}

#[test]
fn batch_answers_carry_values_and_messages() {
    let ok = batch_write_result("k".to_string(), Ok(()));
    assert!(ok.ok && ok.error.is_none() && ok.value.is_none());
    let failed = batch_write_result("k".to_string(), Err(ObjectError::NoVolumes));
    assert!(!failed.ok);
    assert_eq!(failed.error.as_deref(), Some("no live volume"));

    let read = batch_read_result("k".to_string(), Ok(vec![b'h', b'i', 0xff]));
    assert!(read.ok);
    assert_eq!(read.value.as_deref(), Some("hi\u{fffd}"));
    let missing = batch_read_result("k".to_string(), Err(ObjectError::NotFound));
    assert_eq!(missing.error.as_deref(), Some("Not found"));
    let leader = batch_read_result("k".to_string(), Err(ObjectError::NotLeader(Some("http://c2".to_string()))));
    assert_eq!(leader.error.as_deref(), Some("this coordinator is not the leader, the leader is http://c2"));
}

#[test]
fn deleting_a_missing_key_counts_as_done_in_a_transaction() {
    let gone = transaction_result("delete".to_string(), "k".to_string(), true, Err(ObjectError::NotFound));
    assert!(gone.success && gone.error.is_none());
    let missing = transaction_result("put".to_string(), "k".to_string(), false, Err(ObjectError::NotFound));
    assert!(!missing.success);
    assert_eq!(missing.error.as_deref(), Some("not found"));
    let failed = transaction_result("put".to_string(), "k".to_string(), false, Err(ObjectError::Volume("down".to_string())));
    assert_eq!(failed.error.as_deref(), Some("volume error: down"));
    let refused = transaction_refusal("get".to_string(), "k".to_string(), "unknown operation".to_string());
    assert!(!refused.success);
    assert_eq!(refused.op, "get");
    let put = transaction_result("put".to_string(), "k".to_string(), false, Ok(()));
    assert_eq!(count_successes(&vec![gone, missing, failed, refused, put]), 2);
}

#[test]
fn range_listings_are_sorted_and_inclusive() {
    let keys = vec!["d", "a", "c", "b", "e", "bb"].into_iter().map(String::from).collect();
    let r = range_keys(keys, &"b".to_string(), &"d".to_string());
    assert_eq!(r, vec!["b", "bb", "c", "d"]);
    let none = range_keys(vec!["z".to_string()], &"a".to_string(), &"b".to_string());
    assert!(none.is_empty());
}

#[test]
fn searches_look_inside_text_values_only() {
    assert!(value_contains(b"hello world", "lo wo"));
    assert!(value_contains(b"abc", ""));
    assert!(!value_contains(b"abc", "abcd"));
    assert!(!value_contains(&[0xff, b'a'], "a"));
    assert!(value_contains("héllo".as_bytes(), "él"));
}
