//! End-to-end behaviour of the store over an in-memory log, with the log
//! file's role played by a byte vector.

use kvs::records::KvError;
use kvs::store::KvStore;

#[test]
fn test_round_trip() {
    let mut store = KvStore::open(Vec::new());
    store.set("key1".to_string(), "value1".to_string()).unwrap();
    assert_eq!(store.get("key1".to_string()), Ok(Some("value1".to_string())));
}

#[test]
fn test_last_writer_wins() {
    let mut store = KvStore::open(Vec::new());
    store.set("key1".to_string(), "value1".to_string()).unwrap();
    store.set("key1".to_string(), "value2".to_string()).unwrap();
    assert_eq!(store.get("key1".to_string()), Ok(Some("value2".to_string())));
}

#[test]
fn test_tombstone() {
    let mut store = KvStore::open(Vec::new());
    store.set("key1".to_string(), "value1".to_string()).unwrap();
    store.remove("key1".to_string()).unwrap();
    assert_eq!(store.get("key1".to_string()), Ok(None));
}

#[test]
fn test_remove_missing_fails() {
    let mut store = KvStore::open(Vec::new());
    assert_eq!(store.remove("absent".to_string()), Err(KvError::KeyNotFound));
    store.set("key1".to_string(), "value1".to_string()).unwrap();
    assert_eq!(store.remove("other".to_string()), Err(KvError::KeyNotFound));
}

#[test]
fn test_persistence_across_reopen() {
    let mut file: Vec<u8> = Vec::new();
    let mut store = KvStore::open(file.clone());
    let record = store.set("key1".to_string(), "value1".to_string()).unwrap();
    file.extend(record);
    drop(store);
    let mut store2 = KvStore::open(file);
    assert_eq!(store2.get("key1".to_string()), Ok(Some("value1".to_string())));
}

#[test]
fn test_persistence_several_records() {
    let mut file: Vec<u8> = Vec::new();
    let mut store = KvStore::open(file.clone());
    file.extend(store.set("a".to_string(), "1".to_string()).unwrap());
    file.extend(store.set("b".to_string(), "2".to_string()).unwrap());
    file.extend(store.set("a".to_string(), "3".to_string()).unwrap());
    file.extend(store.remove("b".to_string()).unwrap());
    drop(store);
    let mut store2 = KvStore::open(file);
    assert_eq!(store2.get("a".to_string()), Ok(Some("3".to_string())));
    assert_eq!(store2.get("b".to_string()), Ok(None));
}

#[test]
fn test_empty_store() {
    let mut store = KvStore::open(Vec::new());
    assert_eq!(store.get("anything".to_string()), Ok(None));
}

#[test]
fn test_idempotent_replay() {
    let mut file: Vec<u8> = Vec::new();
    let mut writer = KvStore::open(file.clone());
    file.extend(writer.set("key1".to_string(), "value1".to_string()).unwrap());
    drop(writer);
    let mut store = KvStore::open(file);
    assert_eq!(store.cursor(), 0);
    let first = store.get("key1".to_string());
    let after_first = store.cursor();
    let second = store.get("key1".to_string());
    let after_second = store.cursor();
    assert_eq!(first, Ok(Some("value1".to_string())));
    assert_eq!(first, second);
    assert!(after_first > 0);
    assert_eq!(after_first, after_second);
}

#[test]
fn test_garbage_log_reads_empty() {
    let mut store = KvStore::open(vec![1, 2, 3]);
    assert_eq!(store.get("key1".to_string()), Ok(None));
    assert_eq!(store.cursor(), 0);
}

#[test]
fn test_replay_missing_key_value() {
    // A log whose only record removes a key that was never set: the
    // consistency error a well-formed log can never produce.
    let rm_only = vec![15, 0, 0, 0, 2, 82, 109, 0, 2, 0, 0, 0, 97, 0, 0];
    let mut store = KvStore::open(rm_only);
    assert_eq!(store.get("a".to_string()), Err(KvError::MissingKeyValue));
}

#[test]
fn test_non_ascii_round_trip() {
    let mut file: Vec<u8> = Vec::new();
    let mut store = KvStore::open(file.clone());
    file.extend(store.set("ключ".to_string(), "значение π".to_string()).unwrap());
    assert_eq!(
        store.get("ключ".to_string()),
        Ok(Some("значение π".to_string()))
    );
    drop(store);
    let mut store2 = KvStore::open(file);
    assert_eq!(
        store2.get("ключ".to_string()),
        Ok(Some("значение π".to_string()))
    );
}
