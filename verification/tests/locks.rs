use willowdb::file::BlockId;
use willowdb::txn::concurrency::ConcurrencyManager;
use willowdb::txn::lock_table::{Lock, LockError, LockTable, MAX_WAIT_MILLIS};

#[test]
fn shared_locks_are_counted() {
    let mut table = LockTable::new();
    let b = BlockId::new("f", 1);
    assert_eq!(table.state(&b), None);
    assert_eq!(table.s_lock(1, &b, 0), Ok(()));
    assert_eq!(table.state(&b), Some(Lock::SLock(1)));
    assert_eq!(table.s_lock(2, &b, 0), Ok(()));
    assert_eq!(table.state(&b), Some(Lock::SLock(2)));
    assert!(table.has_other_s_locks(1, &b));
    assert!(!table.has_x_lock(1, &b));

    // a shared lock with other holders loses one holder, and nobody is woken
    assert!(!table.unlock(1, &b));
    assert_eq!(table.state(&b), Some(Lock::SLock(1)));
    assert!(!table.has_other_s_locks(2, &b));
    // the last holder takes the lock out of the table
    assert!(table.unlock(2, &b));
    assert_eq!(table.state(&b), None);
    // releasing a lock that is not held changes nothing
    assert!(table.unlock(2, &b));
    assert_eq!(table.state(&b), None);
}

#[test]
fn an_exclusive_lock_keeps_shared_locks_out() {
    let mut table = LockTable::new();
    let b = BlockId::new("f", 1);
    assert_eq!(table.s_lock(1, &b, 0), Ok(()));
    assert_eq!(table.x_lock(1, &b, 0), Ok(()));
    assert_eq!(table.state(&b), Some(Lock::XLock));
    assert!(table.has_x_lock(2, &b));

    assert_eq!(table.s_lock(2, &b, 0), Err(LockError::WouldBlock));
    assert_eq!(table.s_lock(2, &b, 9_999), Err(LockError::WouldBlock));
    assert_eq!(table.s_lock(2, &b, 10_000), Err(LockError::Timeout));
    assert_eq!(table.s_lock(2, &b, u64::MAX), Err(LockError::Timeout));
    assert_eq!(table.state(&b), Some(Lock::XLock));

    // another block is not touched
    let c = BlockId::new("f", 2);
    assert_eq!(table.s_lock(2, &c, 0), Ok(()));

    assert!(table.unlock(1, &b));
    assert_eq!(table.s_lock(2, &b, 0), Ok(()));
    assert_eq!(table.state(&b), Some(Lock::SLock(1)));
}

#[test]
fn an_exclusive_lock_waits_for_the_other_holders() {
    let mut table = LockTable::new();
    let b = BlockId::new("f", 1);
    table.s_lock(1, &b, 0).unwrap();
    table.s_lock(2, &b, 0).unwrap();
    assert_eq!(table.x_lock(1, &b, 0), Err(LockError::WouldBlock));
    assert_eq!(table.x_lock(1, &b, MAX_WAIT_MILLIS), Err(LockError::Timeout));
    assert_eq!(table.state(&b), Some(Lock::SLock(2)));
    table.unlock(2, &b);
    assert_eq!(table.x_lock(1, &b, 0), Ok(()));
    assert_eq!(table.state(&b), Some(Lock::XLock));
}

#[test]
fn max_wait_is_ten_seconds() {
    assert_eq!(MAX_WAIT_MILLIS, 10_000);
    assert!(!LockTable::waiting_too_long(0));
    assert!(!LockTable::waiting_too_long(9_999));
    assert!(LockTable::waiting_too_long(10_000));
}

#[test]
fn a_transaction_asks_for_a_lock_once() {
    let mut cm = ConcurrencyManager::new();
    let b = BlockId::new("f", 1);
    assert_eq!(cm.s_lock(1, &b, 0), Ok(()));
    assert_eq!(cm.s_lock(1, &b, 0), Ok(()));
    // had the second request reached the lock table, 1 would share with itself
    assert_eq!(cm.x_lock(1, &b, 0), Ok(()));
    assert!(cm.has_x_lock(1, &b));
    assert_eq!(cm.x_lock(1, &b, 0), Ok(()));
    assert_eq!(cm.s_lock(1, &b, 0), Ok(()));
    assert!(cm.has_x_lock(1, &b));
    assert!(!cm.has_x_lock(2, &b));
}

#[test]
fn shared_and_exclusive_locks_do_not_mix() {
    let mut cm = ConcurrencyManager::new();
    let b = BlockId::new("f", 1);
    cm.s_lock(1, &b, 0).unwrap();
    cm.s_lock(2, &b, 0).unwrap();

    // 3 gets its shared lock, and then waits for the others to leave
    assert_eq!(cm.x_lock(3, &b, 0), Err(LockError::WouldBlock));
    assert_eq!(cm.x_lock(1, &b, 10_000), Err(LockError::Timeout));
    assert!(!cm.has_x_lock(1, &b));

    assert!(!cm.release(2));
    assert!(!cm.release(3));
    // 1 is the only holder now
    assert_eq!(cm.x_lock(1, &b, 0), Ok(()));
    assert!(cm.has_x_lock(1, &b));

    assert_eq!(cm.s_lock(2, &b, 0), Err(LockError::WouldBlock));
    assert_eq!(cm.x_lock(2, &b, 10_000), Err(LockError::Timeout));
    assert!(!cm.has_x_lock(2, &b));
}

#[test]
fn release_gives_back_every_lock_of_the_transaction() {
    let mut cm = ConcurrencyManager::new();
    let (a, b, c) = (BlockId::new("f", 1), BlockId::new("f", 2), BlockId::new("g", 1));
    cm.x_lock(1, &a, 0).unwrap();
    cm.s_lock(1, &b, 0).unwrap();
    cm.s_lock(2, &b, 0).unwrap();
    cm.x_lock(2, &c, 0).unwrap();

    assert!(cm.release(1));
    assert!(!cm.has_x_lock(1, &a));
    // what 2 holds is as it was
    assert!(cm.has_x_lock(2, &c));
    assert_eq!(cm.s_lock(3, &c, 0), Err(LockError::WouldBlock));
    // the blocks of 1 are free for others
    assert_eq!(cm.x_lock(3, &a, 0), Ok(()));
    assert_eq!(cm.x_lock(2, &b, 0), Ok(()));

    // a transaction without locks has nothing to give back
    assert!(!cm.release(1));
    assert!(!cm.release(7));
    assert!(cm.has_x_lock(3, &a));
}
