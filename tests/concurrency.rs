use tiny_db_exp::EmbeddedDatabase;

fn expected(i: usize, j: usize) -> Option<String> {
    if j < 50 {
        None
    } else {
        Some(format!("Thread id {} val {}", i, j))
    }
}

fn check(db: &EmbeddedDatabase) {
    for i in 0..10 {
        for j in 0..100 {
            let key = format!("Thread id {} key {}", i, j);
            assert_eq!(db.get(&key).unwrap(), expected(i, j), "Final state mismatch for key: {}", key);
        }
    }
}

/// Ten sequences over disjoint keys, interleaved one step at a time, end in
/// the state that running them one after another gives.
#[test]
fn interleaved_disjoint_sequences_end_in_the_serial_result() {
    let mut db = EmbeddedDatabase::new(Vec::new()).unwrap();
    for j in 0..100 {
        for i in 0..10 {
            let key = format!("Thread id {} key {}", i, j);
            let val = format!("Thread id {} val {}", i, j);
            db.set(&key, &val).unwrap();
            assert_eq!(db.get(&key).unwrap(), Some(val));
        }
    }
    for j in 0..50 {
        for i in (0..10).rev() {
            db.delete(&format!("Thread id {} key {}", i, j)).unwrap();
        }
    }
    check(&db);

    let mut serial = EmbeddedDatabase::new(Vec::new()).unwrap();
    for i in 0..10 {
        for j in 0..100 {
            serial
                .set(&format!("Thread id {} key {}", i, j), &format!("Thread id {} val {}", i, j))
                .unwrap();
        }
        for j in 0..50 {
            serial.delete(&format!("Thread id {} key {}", i, j)).unwrap();
        }
    }
    check(&serial);

    check(&EmbeddedDatabase::new(db.log_bytes().to_vec()).unwrap());
    db.close().unwrap();
    check(&db);
    check(&EmbeddedDatabase::new(db.log_bytes().to_vec()).unwrap());
    serial.close().unwrap();
    assert_eq!(db.log_bytes().len(), serial.log_bytes().len());
}
