use kv_db::{DatabaseError, WalError, DB};
use rand::Rng;
use std::collections::HashSet;

/// Does what a caller with a real log does: appends the frame, then commits.
fn put(db: &mut DB, log: &mut Vec<u8>, key: &[u8], value: &[u8]) {
    let frame = db.put(key.to_vec(), value.to_vec()).unwrap();
    log.extend_from_slice(&frame);
    db.commit(true).unwrap();
}

#[test]
fn scenario_put_update_get() {
    let mut log: Vec<u8> = Vec::new();
    let mut db = DB::new("x.wal", 5, &log).unwrap();
    put(&mut db, &mut log, &[1], &[10]);
    put(&mut db, &mut log, &[2], &[20]);
    put(&mut db, &mut log, &[1], &[11]);
    assert_eq!(db.get(vec![1]), Ok(vec![11]));
    assert_eq!(db.get(vec![2]), Ok(vec![20]));
    assert_eq!(db.get(vec![3]), Err(DatabaseError::KeyNotFound));
}

#[test]
fn scenario_recovery() {
    let mut log: Vec<u8> = Vec::new();
    {
        let mut db = DB::new("p.wal", 5, &log).unwrap();
        put(&mut db, &mut log, b"a", b"1");
        put(&mut db, &mut log, b"b", b"2");
    }
    let db = DB::new("p.wal", 5, &log).unwrap();
    assert_eq!(db.get(b"a".to_vec()), Ok(b"1".to_vec()));
    assert_eq!(db.get(b"b".to_vec()), Ok(b"2".to_vec()));
}

#[test]
fn scenario_truncation_fails_the_opening() {
    let mut log: Vec<u8> = Vec::new();
    {
        let mut db = DB::new("p.wal", 5, &log).unwrap();
        put(&mut db, &mut log, b"a", b"1");
        put(&mut db, &mut log, b"b", b"2");
    }
    let whole = log.clone();
    let payload = bincode::serialize(&(b"c".to_vec(), b"3".to_vec())).unwrap();
    log.extend_from_slice(&(payload.len() as u32).to_be_bytes());
    log.extend_from_slice(&payload[..payload.len() / 2]);
    assert_eq!(
        DB::new("p.wal", 5, &log).err(),
        Some(DatabaseError::Wal(WalError::UnexpectedEof))
    );
    let db = DB::new("p.wal", 5, &whole).unwrap();
    assert_eq!(db.get(b"b".to_vec()), Ok(b"2".to_vec()));
}

#[test]
fn fresh_database_has_no_keys() {
    let db = DB::new("fresh.wal", 5, &[]).unwrap();
    assert_eq!(db.get(vec![]), Err(DatabaseError::KeyNotFound));
    assert_eq!(db.get(vec![1, 2, 3]), Err(DatabaseError::KeyNotFound));
    assert_eq!(db.location(), "fresh.wal");
}

#[test]
fn staged_write_is_not_visible_before_commit() {
    let mut db = DB::new("x.wal", 3, &[]).unwrap();
    let frame = db.put(vec![1], vec![10]).unwrap();
    assert_eq!(frame[..4], [0, 0, 0, 18]);
    assert_eq!(db.get(vec![1]), Err(DatabaseError::KeyNotFound));
    db.commit(true).unwrap();
    assert_eq!(db.get(vec![1]), Ok(vec![10]));
}

#[test]
fn failed_append_leaves_the_index_alone() {
    let mut log: Vec<u8> = Vec::new();
    let mut db = DB::new("x.wal", 3, &log).unwrap();
    put(&mut db, &mut log, &[1], &[10]);
    let _frame = db.put(vec![1], vec![99]).unwrap();
    assert_eq!(db.commit(false), Err(DatabaseError::AppendFailed));
    assert_eq!(db.get(vec![1]), Ok(vec![10]));
    // the write was given up: there is nothing left to commit
    assert_eq!(db.commit(true), Err(DatabaseError::NothingStaged));
    assert_eq!(db.get(vec![1]), Ok(vec![10]));
}

#[test]
fn commit_without_put_is_refused() {
    let mut db = DB::new("x.wal", 3, &[]).unwrap();
    assert_eq!(db.commit(true), Err(DatabaseError::NothingStaged));
    assert_eq!(db.commit(false), Err(DatabaseError::NothingStaged));
}

#[test]
fn later_put_replaces_an_unsettled_one() {
    let mut db = DB::new("x.wal", 3, &[]).unwrap();
    let _first = db.put(vec![1], vec![10]).unwrap();
    let _second = db.put(vec![2], vec![20]).unwrap();
    db.commit(true).unwrap();
    assert_eq!(db.get(vec![1]), Err(DatabaseError::KeyNotFound));
    assert_eq!(db.get(vec![2]), Ok(vec![20]));
}

#[test]
fn corrupt_log_fails_the_opening() {
    let log = vec![0u8, 0, 0, 2, 7, 7];
    assert_eq!(
        DB::new("bad.wal", 5, &log).err(),
        Some(DatabaseError::Wal(WalError::Deserialize))
    );
}

#[test]
fn replay_applies_records_in_log_order() {
    let mut log: Vec<u8> = Vec::new();
    {
        let mut db = DB::new("p.wal", 4, &log).unwrap();
        put(&mut db, &mut log, b"k", b"first");
        put(&mut db, &mut log, b"other", b"x");
        put(&mut db, &mut log, b"k", b"second");
        put(&mut db, &mut log, b"k", b"third");
    }
    let db = DB::with_seed("p.wal", 4, 7, &log).unwrap();
    assert_eq!(db.get(b"k".to_vec()), Ok(b"third".to_vec()));
    assert_eq!(db.get(b"other".to_vec()), Ok(b"x".to_vec()));
}

#[test]
fn reopened_database_answers_as_the_first_did() {
    let mut log: Vec<u8> = Vec::new();
    let mut db = DB::new("p.wal", 8, &log).unwrap();
    let mut rng = rand::thread_rng();
    let mut keys: HashSet<Vec<u8>> = HashSet::new();
    for _ in 0..500 {
        let k: u8 = rng.gen();
        let v: u32 = rng.gen();
        put(&mut db, &mut log, &[k], &v.to_be_bytes());
        keys.insert(vec![k]);
    }
    let reopened = DB::new("p.wal", 3, &log).unwrap();
    for k in 0u8..=255 {
        assert_eq!(reopened.get(vec![k]), db.get(vec![k]));
    }
    assert!(keys.len() > 1);
}

#[test]
fn scale_ten_thousand_keys_through_the_log() {
    let mut log: Vec<u8> = Vec::new();
    let mut db = DB::new("scale.wal", 16, &log).unwrap();
    let mut rng = rand::thread_rng();
    let mut inserted: HashSet<u64> = HashSet::new();
    while inserted.len() < 10_000 {
        inserted.insert(rng.gen());
    }
    for k in inserted.iter() {
        put(&mut db, &mut log, &k.to_be_bytes(), &k.to_le_bytes());
    }
    let reopened = DB::new("scale.wal", 16, &log).unwrap();
    for k in inserted.iter() {
        assert_eq!(db.get(k.to_be_bytes().to_vec()), Ok(k.to_le_bytes().to_vec()));
        assert_eq!(reopened.get(k.to_be_bytes().to_vec()), Ok(k.to_le_bytes().to_vec()));
    }
    let mut missing = 0;
    while missing < 10_000 {
        let k: u64 = rng.gen();
        if !inserted.contains(&k) {
            assert_eq!(db.get(k.to_be_bytes().to_vec()), Err(DatabaseError::KeyNotFound));
            missing += 1;
        }
    }
}

#[test]
fn every_accepted_put_is_in_the_log_in_order() {
    let mut log: Vec<u8> = Vec::new();
    let mut db = DB::new("p.wal", 5, &log).unwrap();
    put(&mut db, &mut log, &[1], &[10]);
    put(&mut db, &mut log, &[2], &[20]);
    let third = db.put(vec![1], vec![11]);
    assert!(third.is_ok());
    log.extend_from_slice(&third.unwrap());
    assert_eq!(db.commit(true), Ok(()));

    let records = kv_db::Wal::new("p.wal".to_string()).read(&log).unwrap();
    let pairs: Vec<(Vec<u8>, Vec<u8>)> =
        records.into_iter().map(|kv| (kv.key, kv.value)).collect();
    assert_eq!(
        pairs,
        vec![(vec![1], vec![10]), (vec![2], vec![20]), (vec![1], vec![11])]
    );
}
