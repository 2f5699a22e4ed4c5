use tiny_db_exp::codec::{decode_record, encode_entry, encode_record, u64_from_le, u64_to_le};
use tiny_db_exp::{DbError, Record};

#[test]
fn u64_to_le_writes_least_significant_first() {
    assert_eq!(u64_to_le(0x0102_0304_0506_0708), vec![8, 7, 6, 5, 4, 3, 2, 1]);
    assert_eq!(u64_to_le(0), vec![0; 8]);
    assert_eq!(u64_to_le(u64::MAX), vec![0xff; 8]);
}

#[test]
fn u64_from_le_reads_at_an_offset() {
    let b = [9, 8, 7, 6, 5, 4, 3, 2, 1, 9];
    assert_eq!(u64_from_le(&b, 1), 0x0102_0304_0506_0708);
    assert_eq!(u64_from_le(&[0xff; 8], 0), u64::MAX);
}

#[test]
fn encode_record_writes_length_prefixed_fields() {
    let b = encode_record("cat", "meow").unwrap();
    let mut expected = vec![3, 0, 0, 0, 0, 0, 0, 0];
    expected.extend_from_slice(b"cat");
    expected.extend_from_slice(&[4, 0, 0, 0, 0, 0, 0, 0]);
    expected.extend_from_slice(b"meow");
    assert_eq!(b, expected);
}

#[test]
fn encode_record_counts_utf8_bytes() {
    let b = encode_record("é", "").unwrap();
    assert_eq!(b, vec![2, 0, 0, 0, 0, 0, 0, 0, 0xc3, 0xa9, 0, 0, 0, 0, 0, 0, 0, 0]);
}

#[test]
fn encode_entry_prefixes_the_payload_length() {
    let e = encode_entry("cat", "meow").unwrap();
    assert_eq!(&e[..8], &[23, 0, 0, 0, 0, 0, 0, 0]);
    assert_eq!(&e[8..], &encode_record("cat", "meow").unwrap()[..]);
}

#[test]
fn decode_record_reads_back_what_was_encoded() {
    let b = encode_record("clé", "värde").unwrap();
    let Record { key, val } = decode_record(&b).unwrap();
    assert_eq!(key, "clé");
    assert_eq!(val, "värde");
}

#[test]
fn decode_record_ignores_trailing_bytes() {
    let mut b = encode_record("a", "b").unwrap();
    b.push(42);
    let rec = decode_record(&b).unwrap();
    assert_eq!(rec.key, "a");
    assert_eq!(rec.val, "b");
}

#[test]
fn decode_record_rejects_a_short_payload() {
    let b = encode_record("abc", "def").unwrap();
    assert!(matches!(decode_record(&b[..b.len() - 1]), Err(DbError::CorruptRecord)));
    assert!(matches!(decode_record(&b[..4]), Err(DbError::CorruptRecord)));
}

#[test]
fn decode_record_rejects_invalid_utf8() {
    let b = vec![1, 0, 0, 0, 0, 0, 0, 0, 0x80, 0, 0, 0, 0, 0, 0, 0, 0];
    assert!(matches!(decode_record(&b), Err(DbError::CorruptRecord)));
}

#[test]
fn tombstone_is_a_record_with_an_empty_value() {
    let t = Record { key: "k".to_string(), val: String::new() };
    let live = Record { key: "k".to_string(), val: "v".to_string() };
    assert!(t.is_tombstone());
    assert!(!live.is_tombstone());
}

#[test]
fn error_messages_name_the_failure() {
    assert_eq!(
        DbError::CompactionKeyNotFound("k".to_string()).message(),
        "key not found in index during compaction: k"
    );
    assert_eq!(
        DbError::MutexLockError.message(),
        "Failed to acquire mutex lock: a thread panicked while holding the lock."
    );
}
