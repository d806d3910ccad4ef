//! Byte-exact behaviour of the record codec.

use kvs::codec::{decode_record, encode_record};
use kvs::records::KvCommand;

fn set_ab_bytes() -> Vec<u8> {
    // {"Set": ["a", "b"]} as one self-describing document.
    vec![
        33, 0, 0, 0, 4, 83, 101, 116, 0, 23, 0, 0, 0, 2, 48, 0, 2, 0, 0, 0, 97, 0, 2, 49, 0, 2,
        0, 0, 0, 98, 0, 0, 0,
    ]
}

#[test]
fn test_encode_set_exact_bytes() {
    let cmd = KvCommand::Put("a".to_string(), "b".to_string());
    assert_eq!(encode_record(&cmd), Some(set_ab_bytes()));
}

#[test]
fn test_encode_rm_exact_bytes() {
    let cmd = KvCommand::Rm("a".to_string());
    let expected = vec![15, 0, 0, 0, 2, 82, 109, 0, 2, 0, 0, 0, 97, 0, 0];
    assert_eq!(encode_record(&cmd), Some(expected));
}

#[test]
fn test_encode_non_ascii_length() {
    // A two-byte UTF-8 key: the string length field counts bytes, not
    // characters.
    let cmd = KvCommand::Put("é".to_string(), "x".to_string());
    let bytes = encode_record(&cmd).unwrap();
    assert_eq!(bytes.len(), 34);
    assert_eq!(bytes[16], 3);
    assert_eq!(&bytes[20..22], "é".as_bytes());
}

#[test]
fn test_decode_round_trip() {
    let cmd = KvCommand::Put("key".to_string(), "value".to_string());
    let bytes = encode_record(&cmd).unwrap();
    let total = bytes.len();
    assert_eq!(decode_record(&bytes, 0), Some((cmd, total)));
}

#[test]
fn test_decode_sequential_records() {
    let mut log = encode_record(&KvCommand::Put("a".to_string(), "1".to_string())).unwrap();
    let first = log.len();
    log.extend(encode_record(&KvCommand::Rm("a".to_string())).unwrap());
    let (c1, o1) = decode_record(&log, 0).unwrap();
    assert_eq!(c1, KvCommand::Put("a".to_string(), "1".to_string()));
    assert_eq!(o1, first);
    let (c2, o2) = decode_record(&log, o1).unwrap();
    assert_eq!(c2, KvCommand::Rm("a".to_string()));
    assert_eq!(o2, log.len());
    assert_eq!(decode_record(&log, o2), None);
}

#[test]
fn test_decode_garbage_is_end_of_stream() {
    assert_eq!(decode_record(&vec![1, 2, 3], 0), None);
    assert_eq!(decode_record(&Vec::new(), 0), None);
    assert_eq!(decode_record(&vec![0xFF; 40], 0), None);
}

#[test]
fn test_decode_truncated_record() {
    let mut bytes = set_ab_bytes();
    bytes.pop();
    assert_eq!(decode_record(&bytes, 0), None);
}

#[test]
fn test_decode_rejects_invalid_utf8() {
    // A structurally perfect document whose key bytes are not UTF-8.
    let bytes = vec![15, 0, 0, 0, 2, 82, 109, 0, 2, 0, 0, 0, 0xFF, 0, 0];
    assert_eq!(decode_record(&bytes, 0), None);
}
