use willowdb::file::{BlockId, FileManager, Page, SIZE_OF_INT};
use willowdb::log::{LogIterator, LogManager};

fn create_log_record(s: &str, n: i32) -> Vec<u8> {
    let npos = Page::str_size(s);
    let mut p = Page::new(npos + SIZE_OF_INT);
    p.set_string(0, s);
    p.set_int(npos, n);
    p.into_bytes()
}

fn create_records(lm: &mut LogManager, fm: &mut FileManager, start: i32, end: i32) {
    for i in start..=end {
        let record = create_log_record(&format!("record{}", i), i + 100);
        lm.append(fm, &record);
    }
}

fn get_flushed_records(lm: &mut LogManager, fm: &mut FileManager) -> Vec<Vec<u8>> {
    let mut it = lm.iterator(fm);
    it.collect(fm)
}

fn setup(block_size: usize) -> (FileManager, LogManager) {
    let mut fm = FileManager::new(block_size, true);
    let lm = LogManager::new(&mut fm, "db.log");
    (fm, lm)
}

#[test]
fn test_log_manager() {
    let (mut fm, mut lm) = setup(400);

    create_records(&mut lm, &mut fm, 1, 35);

    // the first block of the log holds 20 of the 35 records
    let mut first_block = LogIterator::new(&fm, BlockId::new("db.log", 0));
    assert_eq!(first_block.collect(&fm).len(), 20);
    let records = get_flushed_records(&mut lm, &mut fm);
    assert_eq!(records.len(), 35);

    create_records(&mut lm, &mut fm, 36, 70);
    lm.flush(&mut fm, 65);

    let records = get_flushed_records(&mut lm, &mut fm);
    assert_eq!(records.len(), 70);

    let expected: Vec<String> = (1..=70).rev().map(|i| format!("record{}", i)).collect();

    for (idx, (rec, exp)) in records.iter().zip(expected.iter()).enumerate() {
        let p = Page::with_bytes(rec);
        let actual = p.get_string(0);
        assert_eq!(
            actual, *exp,
            "mismatch at record {}: expected {}, got {}",
            idx, exp, actual
        );
    }
}

#[test]
fn a_new_log_has_one_block_and_no_record() {
    let (mut fm, mut lm) = setup(64);
    assert_eq!(fm.length("db.log"), 1);
    let mut p = Page::new(64);
    fm.read(&BlockId::new("db.log", 0), &mut p);
    assert_eq!(p.get_int(0), 64);
    assert_eq!(lm.latest_lsn(), 0);
    assert_eq!(lm.last_saved_lsn(), 0);
    assert_eq!(get_flushed_records(&mut lm, &mut fm).len(), 0);
}

#[test]
fn lsns_count_from_one() {
    let (mut fm, mut lm) = setup(64);
    assert_eq!(lm.append(&mut fm, &[1, 2, 3]), 1);
    assert_eq!(lm.append(&mut fm, &[4]), 2);
    assert_eq!(lm.append(&mut fm, &[]), 3);
    assert_eq!(lm.latest_lsn(), 3);
    assert_eq!(lm.last_saved_lsn(), 0);
}

#[test]
fn records_are_placed_from_the_end_of_the_block() {
    let (mut fm, mut lm) = setup(32);
    lm.append(&mut fm, &[1, 2, 3]);
    lm.append(&mut fm, &[4, 5]);
    lm.flush(&mut fm, 2);
    let mut p = Page::new(32);
    fm.read(&BlockId::new("db.log", 0), &mut p);
    // boundary 19; record 2 at 19 (length 2), record 1 at 25 (length 3)
    assert_eq!(p.get_int(0), 19);
    assert_eq!(p.get_bytes(19), &[4, 5]);
    assert_eq!(p.get_bytes(25), &[1, 2, 3]);
    assert_eq!(&p.contents()[19..32], &[2, 0, 0, 0, 4, 5, 3, 0, 0, 0, 1, 2, 3]);
}

#[test]
fn flush_writes_only_what_is_not_on_disk() {
    let (mut fm, mut lm) = setup(32);
    lm.append(&mut fm, &[1]);
    lm.append(&mut fm, &[2]);
    let mut p = Page::new(32);

    // nothing is on disk before a flush
    fm.read(&BlockId::new("db.log", 0), &mut p);
    assert_eq!(p.get_int(0), 32);

    lm.flush(&mut fm, 0);
    assert_eq!(lm.last_saved_lsn(), 0);
    fm.read(&BlockId::new("db.log", 0), &mut p);
    assert_eq!(p.get_int(0), 32);

    lm.flush(&mut fm, 1);
    assert_eq!(lm.last_saved_lsn(), 2);
    fm.read(&BlockId::new("db.log", 0), &mut p);
    assert_eq!(p.get_int(0), 22);

    // what is saved is not written again
    lm.append(&mut fm, &[3]);
    lm.flush(&mut fm, 2);
    assert_eq!(lm.last_saved_lsn(), 2);
    fm.read(&BlockId::new("db.log", 0), &mut p);
    assert_eq!(p.get_int(0), 22);
    lm.flush(&mut fm, 3);
    assert_eq!(lm.last_saved_lsn(), 3);
    fm.read(&BlockId::new("db.log", 0), &mut p);
    assert_eq!(p.get_int(0), 17);
}

#[test]
fn a_record_that_does_not_fit_goes_into_a_new_block() {
    let (mut fm, mut lm) = setup(32);
    // 4 bytes of boundary, then room for 28: two records of 10 bytes take 28
    lm.append(&mut fm, &[1; 10]);
    lm.append(&mut fm, &[2; 10]);
    assert_eq!(fm.length("db.log"), 1);
    assert_eq!(lm.last_saved_lsn(), 0);

    lm.append(&mut fm, &[3; 10]);
    assert_eq!(fm.length("db.log"), 2);
    // the old block was written before the new one was used
    assert_eq!(lm.last_saved_lsn(), 2);
    let mut p = Page::new(32);
    fm.read(&BlockId::new("db.log", 0), &mut p);
    assert_eq!(p.get_int(0), 4);
    assert_eq!(p.get_bytes(4), &[2; 10]);
    assert_eq!(p.get_bytes(18), &[1; 10]);
    // the new block is on disk with its boundary at the block's end
    fm.read(&BlockId::new("db.log", 1), &mut p);
    assert_eq!(p.get_int(0), 32);

    let records = get_flushed_records(&mut lm, &mut fm);
    assert_eq!(records, vec![vec![3; 10], vec![2; 10], vec![1; 10]]);
    fm.read(&BlockId::new("db.log", 1), &mut p);
    assert_eq!(p.get_int(0), 18);
}

#[test]
fn a_record_that_fits_exactly_stays_in_the_block() {
    let (mut fm, mut lm) = setup(32);
    // 32 - 4 - 4 = 24 bytes is the largest record
    lm.append(&mut fm, &[9; 24]);
    assert_eq!(fm.length("db.log"), 1);
    lm.append(&mut fm, &[]);
    assert_eq!(fm.length("db.log"), 2);
    let records = get_flushed_records(&mut lm, &mut fm);
    assert_eq!(records, vec![vec![], vec![9; 24]]);
}

#[test]
fn the_iterator_gives_one_record_at_a_time() {
    let (mut fm, mut lm) = setup(32);
    lm.append(&mut fm, &[1, 1]);
    lm.append(&mut fm, &[2, 2, 2]);
    let mut it = lm.iterator(&mut fm);
    assert_eq!(lm.last_saved_lsn(), 2);
    assert_eq!(it.next(&fm), Some(vec![2, 2, 2]));
    assert_eq!(it.next(&fm), Some(vec![1, 1]));
    assert_eq!(it.next(&fm), None);
    assert_eq!(it.next(&fm), None);
}

#[test]
fn bytes_that_hold_no_record_end_the_log() {
    let mut fm = FileManager::new(16, true);
    // a block whose boundary points at a length that reaches beyond the block
    let mut p = Page::new(16);
    p.set_int(0, 8);
    p.set_int(8, 100);
    fm.write(&BlockId::new("db.log", 0), &p);
    let mut it = LogIterator::new(&fm, BlockId::new("db.log", 0));
    assert_eq!(it.next(&fm), None);
    // a boundary outside the block counts as the block's end
    p.set_int(0, -5);
    fm.write(&BlockId::new("db.log", 0), &p);
    let mut it = LogIterator::new(&fm, BlockId::new("db.log", 0));
    assert_eq!(it.collect(&fm).len(), 0);
}

#[test]
fn a_log_that_holds_blocks_is_reopened_at_its_last_block() {
    let (mut fm, mut lm) = setup(32);
    lm.append(&mut fm, &[1; 10]);
    lm.append(&mut fm, &[2; 10]);
    lm.append(&mut fm, &[3; 10]);
    lm.flush(&mut fm, 3);

    let mut again = LogManager::new(&mut fm, "db.log");
    assert_eq!(fm.length("db.log"), 2);
    assert_eq!(again.latest_lsn(), 0);
    assert_eq!(again.append(&mut fm, &[4]), 1);
    let records = get_flushed_records(&mut again, &mut fm);
    assert_eq!(records, vec![vec![4], vec![3; 10], vec![2; 10], vec![1; 10]]);
}
