use lsm_engine::database::{DBError, Database};
use lsm_engine::log_reader::read_batches;
use lsm_engine::log_writter::LogWritter;
use lsm_engine::write_batch::{Operation, ValueType, WriteBatch};

/// Stages a put, appends its bytes to `log` and commits it.
fn put(db: &mut Database, log: &mut Vec<u8>, k: &String, v: &String) -> Result<(), DBError> {
    let write = db.put(k.as_bytes(), v.as_bytes())?;
    log.extend_from_slice(write.record());
    db.commit(write, true)
}

/// Stages a delete, appends its bytes to `log` and commits it.
fn delete(db: &mut Database, log: &mut Vec<u8>, k: &String) -> Result<(), DBError> {
    let write = db.delete(k.as_bytes())?;
    log.extend_from_slice(write.record());
    db.commit(write, true)
}

fn get(db: &Database, k: &String) -> Result<String, DBError> {
    db.get(k.as_bytes()).map(|v| String::from_utf8(v).unwrap())
}

#[test]
fn test_put_and_read() {
    let mut db = Database::new();
    let mut log = Vec::new();
    put(&mut db, &mut log, &String::from("123"), &String::from("456")).unwrap();
    assert_eq!(get(&db, &String::from("123")).unwrap(), String::from("456"));
}

#[test]
fn test_delete() {
    let mut db = Database::new();
    let mut log = Vec::new();
    put(&mut db, &mut log, &String::from("123"), &String::from("456")).unwrap();
    assert_eq!(get(&db, &String::from("123")).unwrap(), String::from("456"));
    delete(&mut db, &mut log, &String::from("123")).unwrap();
    assert_eq!(get(&db, &String::from("123")).is_err(), true);
}

#[test]
fn database_get_of_a_deleted_key_is_not_found() {
    let mut db = Database::new();
    let mut log = Vec::new();
    assert_eq!(db.get(b"123"), Err(DBError::NotFound));
    put(&mut db, &mut log, &String::from("123"), &String::from("456")).unwrap();
    assert_eq!(db.get(b"123"), Ok(b"456".to_vec()));
    delete(&mut db, &mut log, &String::from("123")).unwrap();
    assert_eq!(db.get(b"123"), Err(DBError::NotFound));
    assert_eq!(db.get(b"124"), Err(DBError::NotFound));
}

#[test]
fn database_last_put_wins_and_the_log_keeps_the_order() {
    let mut db = Database::new();
    let mut log = Vec::new();
    put(&mut db, &mut log, &String::from("k"), &String::from("v1")).unwrap();
    put(&mut db, &mut log, &String::from("k"), &String::from("v2")).unwrap();
    assert_eq!(db.get(b"k"), Ok(b"v2".to_vec()));
    let found = read_batches(&log).unwrap();
    assert_eq!(found.batches.len(), 2);
    assert_eq!(found.batches[0].get_sequence(), 1);
    assert_eq!(found.batches[1].get_sequence(), 2);
    assert!(found.batches[0].get_sequence() < found.batches[1].get_sequence());
    assert_eq!(
        found.batches[0].operations(),
        vec![Operation { k_type: ValueType::KTypeValue, key: b"k".to_vec(), value: b"v1".to_vec() }]
    );
    assert_eq!(
        found.batches[1].operations(),
        vec![Operation { k_type: ValueType::KTypeValue, key: b"k".to_vec(), value: b"v2".to_vec() }]
    );
    assert_eq!(found.torn, false);
}

#[test]
fn database_staged_write_is_not_visible() {
    let mut db = Database::new();
    let write = db.put(b"k", b"v").unwrap();
    assert_eq!(write.sequence(), 1);
    assert_eq!(
        write.record(),
        &LogWritter::new().add_record(&{
            let mut batch = WriteBatch::new();
            batch.put(b"k", b"v");
            batch.set_sequence(1);
            batch
        })[..]
    );
    assert_eq!(db.get(b"k"), Err(DBError::NotFound));
    assert_eq!(db.commit(write, true), Ok(()));
    assert_eq!(db.get(b"k"), Ok(b"v".to_vec()));
}

#[test]
fn database_failed_append_changes_nothing() {
    let mut db = Database::new();
    let mut log = Vec::new();
    put(&mut db, &mut log, &String::from("k"), &String::from("v1")).unwrap();
    let write = db.put(b"k", b"v2").unwrap();
    assert_eq!(db.commit(write, false), Err(DBError::WriteError));
    assert_eq!(db.get(b"k"), Ok(b"v1".to_vec()));
    let write = db.delete(b"k").unwrap();
    assert_eq!(db.commit(write, false), Err(DBError::WriteError));
    assert_eq!(db.get(b"k"), Ok(b"v1".to_vec()));
    // the sequence number was not used up
    let write = db.put(b"k", b"v3").unwrap();
    assert_eq!(write.sequence(), 2);
    log.extend_from_slice(write.record());
    assert_eq!(db.commit(write, true), Ok(()));
    assert_eq!(db.get(b"k"), Ok(b"v3".to_vec()));
    assert_eq!(read_batches(&log).unwrap().batches.len(), 2);
}

#[test]
fn database_write_staged_in_another_state_is_refused() {
    let mut db = Database::new();
    let first = db.put(b"a", b"1").unwrap();
    let second = db.put(b"b", b"2").unwrap();
    assert_eq!(db.commit(first, true), Ok(()));
    assert_eq!(db.commit(second, true), Err(DBError::WriteError));
    assert_eq!(db.get(b"a"), Ok(b"1".to_vec()));
    assert_eq!(db.get(b"b"), Err(DBError::NotFound));
}

#[test]
fn database_sequence_numbers_rise_by_one() {
    let mut db = Database::new();
    let mut log = Vec::new();
    for i in 1..=5u64 {
        let write = db.put(format!("key{}", i).as_bytes(), b"v").unwrap();
        assert_eq!(write.sequence(), i);
        log.extend_from_slice(write.record());
        db.commit(write, true).unwrap();
    }
    let write = db.delete(b"key1").unwrap();
    assert_eq!(write.sequence(), 6);
}

#[test]
fn database_recovers_what_was_written() {
    let mut db = Database::new();
    let mut log = Vec::new();
    put(&mut db, &mut log, &String::from("a"), &String::from("1")).unwrap();
    put(&mut db, &mut log, &String::from("b"), &String::from("2")).unwrap();
    put(&mut db, &mut log, &String::from("a"), &String::from("3")).unwrap();
    delete(&mut db, &mut log, &String::from("b")).unwrap();
    put(&mut db, &mut log, &String::from("big"), &"x".repeat(100000)).unwrap();
    let found = Database::recover(&log).unwrap();
    assert_eq!(found.durable_len, log.len());
    assert_eq!(found.torn, false);
    let mut again = found.db;
    assert_eq!(again.get(b"a"), Ok(b"3".to_vec()));
    assert_eq!(again.get(b"b"), Err(DBError::NotFound));
    assert_eq!(again.get(b"big"), Ok(vec![b'x'; 100000]));
    assert_eq!(again.get(b"c"), Err(DBError::NotFound));
    // both go on alike
    let next = db.put(b"c", b"4").unwrap();
    let next_again = again.put(b"c", b"4").unwrap();
    assert_eq!(next.sequence(), 6);
    assert_eq!(next_again.sequence(), 6);
    assert_eq!(next.record(), next_again.record());
    log.extend_from_slice(next_again.record());
    again.commit(next_again, true).unwrap();
    assert_eq!(Database::recover(&log).unwrap().db.get(b"c"), Ok(b"4".to_vec()));
}

#[test]
fn database_recovers_from_an_empty_log() {
    let found = Database::recover(&[]).unwrap();
    assert_eq!(found.durable_len, 0);
    assert_eq!(found.torn, false);
    assert_eq!(found.db.get(b"a"), Err(DBError::NotFound));
    assert_eq!(found.db.put(b"a", b"1").unwrap().sequence(), 1);
}

#[test]
fn database_recovers_from_a_torn_tail() {
    let mut db = Database::new();
    let mut log = Vec::new();
    put(&mut db, &mut log, &String::from("a"), &String::from("1")).unwrap();
    let whole = log.len();
    put(&mut db, &mut log, &String::from("a"), &String::from("2")).unwrap();
    for cut in whole + 1..log.len() {
        let found = Database::recover(&log[..cut]).unwrap();
        assert_eq!(found.durable_len, whole);
        assert_eq!(found.torn, true);
        assert_eq!(found.db.get(b"a"), Ok(b"1".to_vec()));
        // the log is cut at the end of its last whole batch and written on
        let write = found.db.put(b"a", b"3").unwrap();
        assert_eq!(write.sequence(), 2);
        let mut mended = log[..found.durable_len].to_vec();
        mended.extend_from_slice(write.record());
        assert_eq!(Database::recover(&mended).unwrap().db.get(b"a"), Ok(b"3".to_vec()));
    }
}

#[test]
fn database_recover_refuses_a_damaged_log() {
    let mut db = Database::new();
    let mut log = Vec::new();
    put(&mut db, &mut log, &String::from("a"), &String::from("1")).unwrap();
    put(&mut db, &mut log, &String::from("a"), &String::from("2")).unwrap();
    let mut damaged = log.clone();
    damaged[10] ^= 0x40;
    assert_eq!(Database::recover(&damaged).err(), Some(DBError::CorruptLog));
}

#[test]
fn database_recover_refuses_a_payload_that_is_no_batch() {
    let mut writer = LogWritter::new();
    let log = writer.add_payload(&[1, 2, 3]);
    assert_eq!(Database::recover(&log).err(), Some(DBError::Malformed));
}

#[test]
fn database_recover_refuses_sequence_numbers_that_do_not_rise() {
    let mut first = WriteBatch::new();
    first.put(b"a", b"1");
    first.set_sequence(5);
    let mut second = WriteBatch::new();
    second.put(b"a", b"2");
    second.set_sequence(5);
    let mut writer = LogWritter::new();
    let mut log = writer.add_record(&first);
    let whole = log.len();
    log.extend_from_slice(&writer.add_record(&second));
    assert_eq!(Database::recover(&log).err(), Some(DBError::CorruptLog));
    let found = Database::recover(&log[..whole]).unwrap();
    assert_eq!(found.db.get(b"a"), Ok(b"1".to_vec()));
    assert_eq!(found.db.put(b"b", b"2").unwrap().sequence(), 6);
    // the sequence number 0 is below the first, and the last one cannot be followed
    assert_eq!(
        Database::recover(&LogWritter::new().add_record(&WriteBatch::new())).err(),
        Some(DBError::CorruptLog)
    );
    let mut last = WriteBatch::new();
    last.set_sequence(u64::MAX);
    assert_eq!(
        Database::recover(&LogWritter::new().add_record(&last)).err(),
        Some(DBError::CorruptLog)
    );
}

#[test]
fn database_recover_replays_every_operation_of_a_batch() {
    let mut batch = WriteBatch::new();
    batch.put(b"a", b"1");
    batch.put(b"b", b"2");
    batch.delete(b"c");
    batch.put(b"a", b"again");
    batch.set_sequence(3);
    let log = LogWritter::new().add_record(&batch);
    let found = Database::recover(&log).unwrap();
    // one sequence number for the whole batch: the first version of a key stays
    assert_eq!(found.db.get(b"a"), Ok(b"1".to_vec()));
    assert_eq!(found.db.get(b"b"), Ok(b"2".to_vec()));
    assert_eq!(found.db.get(b"c"), Err(DBError::NotFound));
    assert_eq!(found.db.put(b"d", b"4").unwrap().sequence(), 4);
}
