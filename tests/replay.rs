use tiny_db_exp::{DbError, EmbeddedDatabase};

fn entry(key: &str, val: &str) -> Vec<u8> {
    tiny_db_exp::codec::encode_entry(key, val).unwrap()
}

#[test]
fn empty_log_opens_empty() {
    let db = EmbeddedDatabase::new(Vec::new()).unwrap();
    assert_eq!(db.get("x").unwrap(), None);
    assert!(db.log_bytes().is_empty());
}

#[test]
fn torn_length_prefix_is_dropped() {
    let mut log = entry("a", "1");
    let whole = log.len();
    log.extend_from_slice(&[7, 0, 0]);
    let db = EmbeddedDatabase::new(log).unwrap();
    assert_eq!(db.get("a").unwrap(), Some("1".to_string()));
    assert_eq!(db.log_bytes().len(), whole);
}

#[test]
fn torn_payload_is_dropped() {
    let mut log = entry("a", "1");
    let whole = log.len();
    let second = entry("b", "2");
    log.extend_from_slice(&second[..second.len() - 1]);
    let db = EmbeddedDatabase::new(log).unwrap();
    assert_eq!(db.get("a").unwrap(), Some("1".to_string()));
    assert_eq!(db.get("b").unwrap(), None);
    assert_eq!(db.log_bytes().len(), whole);
}

#[test]
fn appends_after_a_dropped_tail_replay_cleanly() {
    let mut log = entry("a", "1");
    log.extend_from_slice(&[200, 1]);
    let mut db = EmbeddedDatabase::new(log).unwrap();
    db.set("b", "2").unwrap();
    let db = EmbeddedDatabase::new(db.log_bytes().to_vec()).unwrap();
    assert_eq!(db.get("a").unwrap(), Some("1".to_string()));
    assert_eq!(db.get("b").unwrap(), Some("2".to_string()));
}

#[test]
fn invalid_utf8_in_a_complete_entry_is_corrupt() {
    let mut log: Vec<u8> = vec![17, 0, 0, 0, 0, 0, 0, 0];
    log.extend_from_slice(&[1, 0, 0, 0, 0, 0, 0, 0, 0xff]);
    log.extend_from_slice(&[0, 0, 0, 0, 0, 0, 0, 0]);
    assert!(matches!(EmbeddedDatabase::new(log), Err(DbError::CorruptRecord)));
}

#[test]
fn payload_shorter_than_its_fields_is_corrupt() {
    let mut log: Vec<u8> = vec![9, 0, 0, 0, 0, 0, 0, 0];
    log.extend_from_slice(&[5, 0, 0, 0, 0, 0, 0, 0, b'a']);
    assert!(matches!(EmbeddedDatabase::new(log), Err(DbError::CorruptRecord)));
}

#[test]
fn replay_applies_later_entries_over_earlier_ones() {
    let mut log = entry("k", "first");
    log.extend_from_slice(&entry("k", "second"));
    log.extend_from_slice(&entry("gone", "x"));
    log.extend_from_slice(&entry("gone", ""));
    let db = EmbeddedDatabase::new(log).unwrap();
    assert_eq!(db.get("k").unwrap(), Some("second".to_string()));
    assert_eq!(db.get("gone").unwrap(), None);
}
