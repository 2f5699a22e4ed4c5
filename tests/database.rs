use tiny_db_exp::EmbeddedDatabase;

fn reopen(db: &EmbeddedDatabase) -> EmbeddedDatabase {
    EmbeddedDatabase::new(db.log_bytes().to_vec()).expect("the log should replay")
}

#[test]
fn test_new_set_and_get() {
    let mut db = EmbeddedDatabase::new(Vec::new())
        .expect("should be able to create a new database in db_path");
    db.set("Name", "Alice")
        .expect("should be able to set a key value pair ");
    let result = db.get("Name").expect("Database should return a record");

    assert_eq!(result, Some("Alice".to_string()));

    let db1 = reopen(&db);
    drop(db);
    let result1 = db1
        .get("Name")
        .expect("to get the value of the key we set previously");

    assert_eq!(result1, Some("Alice".to_string()));

    let non_existent = db1.get("Age").expect("get to return a none");
    assert_eq!(non_existent, None);
}

#[test]
fn test_delete_persistence() {
    let mut db =
        EmbeddedDatabase::new(Vec::new()).expect(" creating a db using the temp file path failed");
    db.set("Name", "Alice").expect("Failed to create a record");
    assert_eq!(db.get("Name").unwrap(), Some("Alice".to_string()));

    db.delete("Name").expect("record deletion failed");
    assert_eq!(db.get("Name").unwrap(), None);

    let db = reopen(&db);
    assert_eq!(
        db.get("Name").unwrap(),
        None,
        "The key should still be deleted after reopening "
    );
}

#[test]
fn test_compaction() {
    let mut db =
        EmbeddedDatabase::new(Vec::new()).expect(" creating a db using the temp file path failed");
    db.set("Name1", "Alice").expect("Failed to create a record");
    db.set("Name2", "Bob").expect("failed to create a record");
    db.set("Name3", "Joe").expect("failed to set a record");

    db.set("Name1", "Janet").unwrap();
    db.set("Name3", "Finn").unwrap();

    db.delete("Name2").unwrap();

    db.set("Name4", "Adam").unwrap();

    assert_eq!(db.get("Name1").unwrap(), Some("Janet".to_string()));
    assert_eq!(db.get("Name2").unwrap(), None);
    assert_eq!(db.get("Name3").unwrap(), Some("Finn".to_string()));
    assert_eq!(db.get("Name4").unwrap(), Some("Adam".to_string()));

    let initial_db_file_size = db.log_bytes().len();

    db.close().expect("failed to close and compact");

    assert_eq!(db.get("Name1").unwrap(), Some("Janet".to_string()));
    assert_eq!(db.get("Name2").unwrap(), None);
    assert_eq!(db.get("Name3").unwrap(), Some("Finn".to_string()));
    assert_eq!(db.get("Name4").unwrap(), Some("Adam".to_string()));

    let new_db_file_size = db.log_bytes().len();
    assert!(initial_db_file_size > new_db_file_size);

    let db = reopen(&db);

    assert_eq!(db.get("Name1").unwrap(), Some("Janet".to_string()));
    assert_eq!(db.get("Name2").unwrap(), None);
    assert_eq!(db.get("Name3").unwrap(), Some("Finn".to_string()));
    assert_eq!(db.get("Name4").unwrap(), Some("Adam".to_string()));
}

#[test]
fn end_to_end_set_update_delete_reopen() {
    let mut db = EmbeddedDatabase::new(Vec::new()).unwrap();
    db.set("Name", "Alice").unwrap();
    assert_eq!(db.get("Name").unwrap(), Some("Alice".to_string()));
    db.set("Name", "Bob").unwrap();
    assert_eq!(db.get("Name").unwrap(), Some("Bob".to_string()));
    db.delete("Name").unwrap();
    assert_eq!(db.get("Name").unwrap(), None);
    let db = reopen(&db);
    assert_eq!(db.get("Name").unwrap(), None);
}

#[test]
fn round_trip_non_ascii_key_and_value() {
    let mut db = EmbeddedDatabase::new(Vec::new()).unwrap();
    db.set("clé ✓", "värde 🚀").unwrap();
    assert_eq!(db.get("clé ✓").unwrap(), Some("värde 🚀".to_string()));
    let db = reopen(&db);
    assert_eq!(db.get("clé ✓").unwrap(), Some("värde 🚀".to_string()));
    assert_eq!(db.get("clé").unwrap(), None);
}

#[test]
fn last_write_wins_before_and_after_reopen() {
    let mut db = EmbeddedDatabase::new(Vec::new()).unwrap();
    db.set("k", "v1").unwrap();
    db.set("k", "v2").unwrap();
    assert_eq!(db.get("k").unwrap(), Some("v2".to_string()));
    let db = reopen(&db);
    assert_eq!(db.get("k").unwrap(), Some("v2".to_string()));
}

#[test]
fn set_with_empty_value_is_a_tombstone() {
    let mut db = EmbeddedDatabase::new(Vec::new()).unwrap();
    db.set("k", "v").unwrap();
    db.set("k", "").unwrap();
    assert_eq!(db.get("k").unwrap(), None);
    let db = reopen(&db);
    assert_eq!(db.get("k").unwrap(), None);
}

#[test]
fn delete_of_absent_key_still_appends_a_tombstone() {
    let mut db = EmbeddedDatabase::new(Vec::new()).unwrap();
    db.delete("ghost").unwrap();
    // 8-byte length prefix, then key field (8 + 5) and empty value field (8).
    assert_eq!(db.log_bytes().len(), 8 + 8 + 5 + 8);
    assert_eq!(db.get("ghost").unwrap(), None);
}

#[test]
fn set_appends_the_exact_entry_bytes() {
    let mut db = EmbeddedDatabase::new(Vec::new()).unwrap();
    db.set("ab", "c").unwrap();
    let expected: Vec<u8> = vec![
        19, 0, 0, 0, 0, 0, 0, 0, // payload length
        2, 0, 0, 0, 0, 0, 0, 0, b'a', b'b', // key
        1, 0, 0, 0, 0, 0, 0, 0, b'c', // value
    ];
    assert_eq!(db.log_bytes(), &expected[..]);
}

#[test]
fn compaction_of_a_log_without_dead_entries_keeps_its_size() {
    let mut db = EmbeddedDatabase::new(Vec::new()).unwrap();
    db.set("a", "1").unwrap();
    db.set("b", "2").unwrap();
    let before = db.log_bytes().len();
    db.close().unwrap();
    assert_eq!(db.log_bytes().len(), before);
    assert_eq!(db.get("a").unwrap(), Some("1".to_string()));
    assert_eq!(db.get("b").unwrap(), Some("2".to_string()));
}

#[test]
fn compaction_of_only_deleted_keys_empties_the_log() {
    let mut db = EmbeddedDatabase::new(Vec::new()).unwrap();
    db.set("a", "1").unwrap();
    db.delete("a").unwrap();
    db.close().unwrap();
    assert_eq!(db.log_bytes().len(), 0);
    assert_eq!(db.get("a").unwrap(), None);
}

#[test]
fn database_stays_usable_after_close() {
    let mut db = EmbeddedDatabase::new(Vec::new()).unwrap();
    db.set("a", "1").unwrap();
    db.set("a", "2").unwrap();
    db.close().unwrap();
    db.set("b", "3").unwrap();
    assert_eq!(db.get("a").unwrap(), Some("2".to_string()));
    assert_eq!(db.get("b").unwrap(), Some("3".to_string()));
    let db = reopen(&db);
    assert_eq!(db.get("a").unwrap(), Some("2".to_string()));
    assert_eq!(db.get("b").unwrap(), Some("3".to_string()));
}

#[test]
fn set_then_delete_give_the_exact_log() {
    let mut db = EmbeddedDatabase::new(Vec::new()).unwrap();
    db.set("Name", "Alice").unwrap();
    let mut expected: Vec<u8> = vec![25, 0, 0, 0, 0, 0, 0, 0, 4, 0, 0, 0, 0, 0, 0, 0];
    expected.extend_from_slice(b"Name");
    expected.extend_from_slice(&[5, 0, 0, 0, 0, 0, 0, 0]);
    expected.extend_from_slice(b"Alice");
    assert_eq!(db.log_bytes(), &expected[..]);
    assert_eq!(db.log_bytes().len(), 33);

    db.delete("Name").unwrap();
    expected.extend_from_slice(&[20, 0, 0, 0, 0, 0, 0, 0, 4, 0, 0, 0, 0, 0, 0, 0]);
    expected.extend_from_slice(b"Name");
    expected.extend_from_slice(&[0, 0, 0, 0, 0, 0, 0, 0]);
    assert_eq!(db.log_bytes(), &expected[..]);
    assert_eq!(db.log_bytes().len(), 61);

    db.delete("Name").unwrap();
    assert_eq!(db.log_bytes().len(), 61 + 24 + 4);
    assert_eq!(db.get("Name").unwrap(), None);
}

#[test]
fn compaction_scenario_ends_at_the_live_entries_and_is_idempotent() {
    let mut db = EmbeddedDatabase::new(Vec::new()).unwrap();
    db.set("Name1", "Alice").unwrap();
    db.set("Name2", "Bob").unwrap();
    db.set("Name3", "Joe").unwrap();
    db.set("Name1", "Janet").unwrap();
    db.set("Name3", "Finn").unwrap();
    db.delete("Name2").unwrap();
    db.set("Name4", "Adam").unwrap();
    assert_eq!(db.log_bytes().len(), 227);

    db.close().unwrap();
    assert_eq!(db.log_bytes().len(), 34 + 33 + 33);

    db.close().unwrap();
    assert_eq!(db.log_bytes().len(), 100);
    assert_eq!(db.get("Name1").unwrap(), Some("Janet".to_string()));
    assert_eq!(db.get("Name3").unwrap(), Some("Finn".to_string()));
    assert_eq!(db.get("Name4").unwrap(), Some("Adam".to_string()));

    let offset = db.log_bytes().len();
    db.set("Name5", "Eve").unwrap();
    assert_eq!(db.log_bytes().len(), offset + 8 + 8 + 5 + 8 + 3);
    assert_eq!(db.get("Name5").unwrap(), Some("Eve".to_string()));
}
