use willowdb::buffer::buffer_manager::BufferManager;
use willowdb::buffer::replacer::EvictionPolicy;
use willowdb::file::{BlockId, FileManager, Page};
use willowdb::log::LogManager;
use willowdb::txn::recovery::{LogRecord, RecordType, RecoveryManager, UpdateValue};
use willowdb::txn::transaction::{TransactionManager, TxnError};

fn setup_with(block_size: usize, capacity: usize) -> TransactionManager {
    let mut fm = FileManager::new(block_size, true);
    let lm = LogManager::new(&mut fm, "db.log");
    let bm = BufferManager::new(block_size, capacity, EvictionPolicy::default());
    TransactionManager::new(fm, lm, bm)
}

fn setup() -> TransactionManager {
    setup_with(400, 20)
}

fn log_records(tm: &mut TransactionManager) -> Vec<LogRecord> {
    let mut it = tm.lm.iterator(&mut tm.fm);
    it.collect(&tm.fm).iter().map(|bytes| LogRecord::new(bytes).unwrap()).collect()
}

#[test]
fn commit_then_rollback() {
    let mut tm = setup();

    let blk = BlockId::new("testfile", 1);

    let mut tx1 = tm.create_txn();
    tx1.pin(&mut tm, &blk).unwrap();

    tx1.set_value(&mut tm, &blk, 80, &UpdateValue::INT(1), false, 0).unwrap();
    tx1.set_value(&mut tm, &blk, 40, &UpdateValue::STRING("one".into()), false, 0).unwrap();

    tx1.commit(&mut tm);

    // read-modify-commit

    let mut tx2 = tm.create_txn();
    tx2.pin(&mut tm, &blk).unwrap();

    let start_i = tx2.get_int(&mut tm, &blk, 80, 0).unwrap();
    let start_s = tx2.get_string(&mut tm, &blk, 40, 0).unwrap();

    assert_eq!(start_i, 1);
    assert_eq!(start_s, "one");

    tx2.set_value(&mut tm, &blk, 80, &UpdateValue::INT(start_i + 1), true, 0).unwrap();
    tx2.set_value(&mut tm, &blk, 40, &UpdateValue::STRING(format!("{start_s}!")), true, 0)
        .unwrap();

    tx2.commit(&mut tm);

    // overwrite then roll back

    let mut tx3 = tm.create_txn();
    tx3.pin(&mut tm, &blk).unwrap();

    let post_commit_i = tx3.get_int(&mut tm, &blk, 80, 0).unwrap();
    let post_commit_s = tx3.get_string(&mut tm, &blk, 40, 0).unwrap();

    assert_eq!(post_commit_i, 2, "commit from tx2 not visible");
    assert_eq!(post_commit_s, "one!", "commit from tx2 not visible");

    tx3.set_value(&mut tm, &blk, 80, &UpdateValue::INT(9999), true, 0).unwrap();
    assert_eq!(tx3.get_int(&mut tm, &blk, 80, 0).unwrap(), 9999, "write not visible to tx3");

    tx3.rollback(&mut tm, 0).unwrap();

    // verify rollback outcome

    let mut tx4 = tm.create_txn();
    tx4.pin(&mut tm, &blk).unwrap();

    let final_i = tx4.get_int(&mut tm, &blk, 80, 0).unwrap();
    let final_s = tx4.get_string(&mut tm, &blk, 40, 0).unwrap();

    assert_eq!(final_i, 2, "rollback did not restore int");
    assert_eq!(final_s, "one!", "rollback did not restore string");

    tx4.commit(&mut tm);
}

#[test]
fn transactions_are_numbered_from_zero() {
    let mut tm = setup();
    let tx0 = tm.create_txn();
    let tx1 = tm.create_txn();
    assert_eq!(tx0.txn_num(), 0);
    assert_eq!(tx1.txn_num(), 1);
    assert!(tx0.is_active());
    // each begin is in the log
    let records = log_records(&mut tm);
    assert_eq!(records.len(), 2);
    assert_eq!(records[0].operation(), RecordType::Start);
    assert_eq!(records[0].txn_num(), Some(1));
    assert_eq!(records[1].txn_num(), Some(0));
}

#[test]
fn commit_makes_the_pages_and_the_record_durable() {
    let mut tm = setup();
    let blk = BlockId::new("testfile", 1);
    let mut tx = tm.create_txn();
    tx.pin(&mut tm, &blk).unwrap();
    tx.set_value(&mut tm, &blk, 8, &UpdateValue::INT(7), true, 0).unwrap();

    // nothing is on disk before the commit
    assert_eq!(tm.fm.length("testfile"), 0);
    assert_eq!(tm.lm.last_saved_lsn(), 0);

    tx.commit(&mut tm);
    assert!(!tx.is_active());

    let mut p = Page::new(400);
    tm.fm.read(&blk, &mut p);
    assert_eq!(p.get_int(8), 7);
    // start, update, commit
    assert_eq!(tm.lm.latest_lsn(), 3);
    assert_eq!(tm.lm.last_saved_lsn(), 3);
    tm.fm.read(&BlockId::new("db.log", 0), &mut p);
    let commit = LogRecord::new(p.get_bytes(p.get_int(0) as usize)).unwrap();
    assert_eq!(commit.operation(), RecordType::Commit);
    assert_eq!(commit.txn_num(), Some(0));
}

#[test]
fn the_update_record_carries_the_value_that_was_replaced() {
    let mut tm = setup();
    let blk = BlockId::new("testfile", 3);
    let mut tx = tm.create_txn();
    tx.pin(&mut tm, &blk).unwrap();
    tx.set_value(&mut tm, &blk, 80, &UpdateValue::INT(5), false, 0).unwrap();
    tx.set_value(&mut tm, &blk, 80, &UpdateValue::INT(6), true, 0).unwrap();
    tx.set_value(&mut tm, &blk, 20, &UpdateValue::STRING("new".into()), true, 0).unwrap();

    let records = log_records(&mut tm);
    assert_eq!(records.len(), 3);
    match &records[0] {
        LogRecord::Update { txn_num, value, offset, block } => {
            assert_eq!(*txn_num, 0);
            assert!(matches!(value, UpdateValue::STRING(s) if s.is_empty()));
            assert_eq!(*offset, 20);
            assert_eq!(block.filename(), "testfile");
            assert_eq!(block.number(), 3);
        }
        _ => panic!("not an update"),
    }
    match &records[1] {
        LogRecord::Update { value, offset, .. } => {
            assert!(matches!(value, UpdateValue::INT(5)));
            assert_eq!(*offset, 80);
        }
        _ => panic!("not an update"),
    }
    assert_eq!(records[2].operation(), RecordType::Start);
}

#[test]
fn an_update_without_logging_writes_no_record() {
    let mut tm = setup();
    let blk = BlockId::new("testfile", 0);
    let mut tx = tm.create_txn();
    tx.pin(&mut tm, &blk).unwrap();
    tx.set_value(&mut tm, &blk, 0, &UpdateValue::INT(5), false, 0).unwrap();
    assert_eq!(tm.lm.latest_lsn(), 1);
    assert_eq!(tx.get_int(&mut tm, &blk, 0, 0), Ok(5));
}

#[test]
fn rollback_undoes_every_update_of_the_transaction() {
    let mut tm = setup();
    let (a, b) = (BlockId::new("testfile", 1), BlockId::new("testfile", 2));

    let mut tx0 = tm.create_txn();
    tx0.pin(&mut tm, &a).unwrap();
    tx0.pin(&mut tm, &b).unwrap();
    tx0.set_value(&mut tm, &a, 0, &UpdateValue::INT(10), true, 0).unwrap();
    tx0.set_value(&mut tm, &b, 0, &UpdateValue::STRING("ten".into()), true, 0).unwrap();
    tx0.commit(&mut tm);

    let mut tx1 = tm.create_txn();
    tx1.pin(&mut tm, &a).unwrap();
    tx1.pin(&mut tm, &b).unwrap();
    tx1.set_value(&mut tm, &a, 0, &UpdateValue::INT(11), true, 0).unwrap();
    tx1.set_value(&mut tm, &a, 0, &UpdateValue::INT(12), true, 0).unwrap();
    tx1.set_value(&mut tm, &b, 0, &UpdateValue::STRING("twelve".into()), true, 0).unwrap();
    // a block that the transaction has let go of is pinned again for the undo
    tx1.unpin(&mut tm, &b);
    assert_eq!(tx1.rollback(&mut tm, 0), Ok(true));
    assert!(!tx1.is_active());

    // the pages are as the first transaction left them, in memory and on disk
    let mut tx2 = tm.create_txn();
    tx2.pin(&mut tm, &a).unwrap();
    tx2.pin(&mut tm, &b).unwrap();
    assert_eq!(tx2.get_int(&mut tm, &a, 0, 0), Ok(10));
    assert_eq!(tx2.get_string(&mut tm, &b, 0, 0), Ok("ten".to_string()));
    let mut p = Page::new(400);
    tm.fm.read(&a, &mut p);
    assert_eq!(p.get_int(0), 10);
    tm.fm.read(&b, &mut p);
    assert_eq!(p.get_string(0), "ten");

    // the log ends with the record of the rollback, and is on disk
    let records = log_records(&mut tm);
    assert_eq!(records[0].operation(), RecordType::Start);
    assert_eq!(records[0].txn_num(), Some(2));
    assert_eq!(records[1].operation(), RecordType::Rollback);
    assert_eq!(records[1].txn_num(), Some(1));
}

#[test]
fn locks_and_pins_are_given_back_at_the_end() {
    let mut tm = setup_with(400, 1);
    let blk = BlockId::new("testfile", 1);
    let mut tx0 = tm.create_txn();
    let mut tx1 = tm.create_txn();
    tx0.pin(&mut tm, &blk).unwrap();
    tx0.set_value(&mut tm, &blk, 0, &UpdateValue::INT(1), true, 0).unwrap();

    // the only frame is pinned, and the block is locked
    assert_eq!(tx1.pin(&mut tm, &BlockId::new("testfile", 2)), Err(TxnError::PoolExhausted));
    tx1.pin(&mut tm, &blk).unwrap();
    assert_eq!(tx1.get_int(&mut tm, &blk, 0, 0), Err(TxnError::LockWait));
    assert_eq!(tx1.get_int(&mut tm, &blk, 0, 10_000), Err(TxnError::LockTimeout));
    assert_eq!(
        tx1.set_value(&mut tm, &blk, 0, &UpdateValue::INT(2), true, 0),
        Err(TxnError::LockWait)
    );
    assert_eq!(tx1.get_string(&mut tm, &blk, 0, 20_000), Err(TxnError::LockTimeout));
    tx1.unpin(&mut tm, &blk);

    assert!(tx0.commit(&mut tm));
    assert_eq!(tm.bm.available(), 1);
    tx1.pin(&mut tm, &BlockId::new("testfile", 2)).unwrap();
    tx1.unpin(&mut tm, &BlockId::new("testfile", 2));
    tx1.pin(&mut tm, &blk).unwrap();
    assert_eq!(tx1.get_int(&mut tm, &blk, 0, 0), Ok(1));
    assert_eq!(tx1.rollback(&mut tm, 0), Ok(true));
    assert_eq!(tm.bm.available(), 1);
}

#[test]
fn an_update_whose_record_does_not_fit_is_not_made() {
    let mut tm = setup_with(64, 2);
    let blk = BlockId::new("a-file-with-quite-a-long-name", 1);
    let mut tx = tm.create_txn();
    tx.pin(&mut tm, &blk).unwrap();
    // 24 + 29 + 4 bytes of record, and 8 to spare, are more than 64
    assert_eq!(
        tx.set_value(&mut tm, &blk, 0, &UpdateValue::INT(1), true, 0),
        Err(TxnError::NotLoggable)
    );
    assert_eq!(tx.get_int(&mut tm, &blk, 0, 0), Ok(0));
    assert_eq!(tm.lm.latest_lsn(), 1);
    // without logging the update is made
    assert_eq!(tx.set_value(&mut tm, &blk, 0, &UpdateValue::INT(1), false, 0), Ok(()));
    assert_eq!(tx.get_int(&mut tm, &blk, 0, 0), Ok(1));

    // no string lies where the length reaches beyond the page
    let short = BlockId::new("f", 1);
    tx.pin(&mut tm, &short).unwrap();
    tx.set_value(&mut tm, &short, 56, &UpdateValue::INT(100), false, 0).unwrap();
    assert_eq!(
        tx.set_value(&mut tm, &short, 56, &UpdateValue::STRING("".into()), true, 0),
        Err(TxnError::NotLoggable)
    );
    assert_eq!(tx.get_int(&mut tm, &short, 56, 0), Ok(100));
}

#[test]
fn recovery_undoes_what_was_not_finished() {
    let mut tm = setup();
    let (a, b, c) =
        (BlockId::new("testfile", 1), BlockId::new("testfile", 2), BlockId::new("testfile", 3));

    // committed
    let mut tx0 = tm.create_txn();
    tx0.pin(&mut tm, &a).unwrap();
    tx0.set_value(&mut tm, &a, 0, &UpdateValue::INT(100), true, 0).unwrap();
    tx0.commit(&mut tm);
    // rolled back
    let mut tx1 = tm.create_txn();
    tx1.pin(&mut tm, &b).unwrap();
    tx1.set_value(&mut tm, &b, 0, &UpdateValue::INT(200), true, 0).unwrap();
    tx1.rollback(&mut tm, 0).unwrap();
    // neither: as after a crash
    let mut tx2 = tm.create_txn();
    tx2.pin(&mut tm, &c).unwrap();
    tx2.pin(&mut tm, &a).unwrap();
    tx2.set_value(&mut tm, &c, 0, &UpdateValue::INT(300), true, 0).unwrap();
    tx2.set_value(&mut tm, &a, 4, &UpdateValue::STRING("lost".into()), true, 0).unwrap();
    tm.bm.flush_all(2, &mut tm.fm, &mut tm.lm);
    tm.concurrency_mgr.release(2);
    tx2.unpin(&mut tm, &c);
    tx2.unpin(&mut tm, &a);

    let mut tx3 = tm.create_txn();
    assert_eq!(tx3.recover(&mut tm, 0), Ok(()));
    assert!(tx3.is_active());

    let mut p = Page::new(400);
    tm.fm.read(&a, &mut p);
    assert_eq!(p.get_int(0), 100);
    assert_eq!(p.get_string(4), "");
    tm.fm.read(&b, &mut p);
    assert_eq!(p.get_int(0), 0);
    tm.fm.read(&c, &mut p);
    assert_eq!(p.get_int(0), 0);

    let records = log_records(&mut tm);
    assert_eq!(records[0].operation(), RecordType::Checkpoint);
    assert_eq!(tm.lm.last_saved_lsn(), tm.lm.latest_lsn());

    // what stands before a checkpoint is settled: nothing is undone twice
    tx3.pin(&mut tm, &c).unwrap();
    tx3.set_value(&mut tm, &c, 0, &UpdateValue::INT(301), false, 0).unwrap();
    assert_eq!(tx3.recover(&mut tm, 0), Ok(()));
    assert_eq!(tx3.get_int(&mut tm, &c, 0, 0), Ok(301));
}

#[test]
fn the_plans_name_the_updates_to_undo() {
    let mut tm = setup();
    let blk = BlockId::new("testfile", 1);
    let mut tx0 = tm.create_txn();
    let mut tx1 = tm.create_txn();
    tx0.pin(&mut tm, &blk).unwrap();
    tx0.set_value(&mut tm, &blk, 0, &UpdateValue::INT(1), true, 0).unwrap();
    tx0.set_value(&mut tm, &blk, 4, &UpdateValue::INT(2), true, 0).unwrap();
    tx0.commit(&mut tm);
    let other = BlockId::new("testfile", 2);
    tx1.pin(&mut tm, &other).unwrap();
    tx1.set_value(&mut tm, &other, 8, &UpdateValue::INT(3), true, 0).unwrap();

    let plan = RecoveryManager::do_rollback(&mut tm.lm, &mut tm.fm, 0);
    let offsets: Vec<usize> = plan
        .iter()
        .map(|r| match r {
            LogRecord::Update { offset, .. } => *offset,
            _ => panic!("not an update"),
        })
        .collect();
    assert_eq!(offsets, vec![4, 0]);

    let plan = RecoveryManager::do_rollback(&mut tm.lm, &mut tm.fm, 1);
    assert_eq!(plan.len(), 1);
    assert_eq!(plan[0].txn_num(), Some(1));

    // at recovery the committed transaction is left alone
    let plan = RecoveryManager::do_recover(&mut tm.lm, &mut tm.fm);
    assert_eq!(plan.len(), 1);
    assert_eq!(plan[0].txn_num(), Some(1));
    assert_eq!(RecoveryManager::do_rollback(&mut tm.lm, &mut tm.fm, 9).len(), 0);
}

#[test]
fn undo_writes_the_old_value_back() {
    let mut tm = setup();
    let blk = BlockId::new("testfile", 1);
    let mut tx = tm.create_txn();
    let record =
        LogRecord::Update { txn_num: 0, value: UpdateValue::INT(41), offset: 12, block: blk.clone() };
    // the block is pinned for the undo, and let go of afterwards
    assert_eq!(record.undo(&mut tx, &mut tm, 0), Ok(()));
    assert_eq!(tm.bm.available(), 20);
    tx.pin(&mut tm, &blk).unwrap();
    assert_eq!(tx.get_int(&mut tm, &blk, 12, 0), Ok(41));
    // a pin that the transaction holds stays
    let record =
        LogRecord::Update { txn_num: 0, value: UpdateValue::INT(42), offset: 12, block: blk.clone() };
    assert_eq!(tx.undo(&mut tm, &record, 0), Ok(()));
    assert_eq!(tx.get_int(&mut tm, &blk, 12, 0), Ok(42));
    assert_eq!(tm.bm.available(), 19);
    // other records are left alone, and so is a value beyond the page
    assert_eq!((LogRecord::Start { txn_num: 0 }).undo(&mut tx, &mut tm, 0), Ok(()));
    let beyond =
        LogRecord::Update { txn_num: 0, value: UpdateValue::INT(1), offset: 397, block: blk.clone() };
    assert_eq!(beyond.undo(&mut tx, &mut tm, 0), Ok(()));
    assert_eq!(tx.get_int(&mut tm, &blk, 12, 0), Ok(42));
    // undoing writes no record
    assert_eq!(tm.lm.latest_lsn(), 1);
}

#[test]
fn a_rollback_that_finds_no_frame_leaves_the_transaction_active() {
    let mut tm = setup_with(400, 1);
    let (a, b) = (BlockId::new("testfile", 1), BlockId::new("testfile", 2));
    let mut tx0 = tm.create_txn();
    let mut tx1 = tm.create_txn();
    tx0.pin(&mut tm, &a).unwrap();
    tx0.set_value(&mut tm, &a, 0, &UpdateValue::INT(5), true, 0).unwrap();
    tx0.unpin(&mut tm, &a);
    // the other transaction takes the only frame
    tx1.pin(&mut tm, &b).unwrap();

    assert_eq!(tx0.rollback(&mut tm, 0), Err(TxnError::PoolExhausted));
    assert!(tx0.is_active());

    // once the frame is free, the rollback goes through
    tx1.unpin(&mut tm, &b);
    assert_eq!(tx0.rollback(&mut tm, 0), Ok(true));
    assert!(!tx0.is_active());
    tx1.pin(&mut tm, &a).unwrap();
    assert_eq!(tx1.get_int(&mut tm, &a, 0, 0), Ok(0));
}
