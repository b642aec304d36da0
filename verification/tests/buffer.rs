use willowdb::buffer::buffer_manager::{Buffer, BufferManager};
use willowdb::buffer::replacer::EvictionPolicy;
use willowdb::file::{BlockId, FileManager, Page};
use willowdb::log::LogManager;

fn setup(block_size: usize, capacity: usize) -> (FileManager, LogManager, BufferManager) {
    let mut fm = FileManager::new(block_size, true);
    let lm = LogManager::new(&mut fm, "db.log");
    (fm, lm, BufferManager::new(block_size, capacity, EvictionPolicy::default()))
}

#[test]
fn test_buffer() {
    let (mut fm, mut lm, mut bm) = setup(400, 3);
    let fname = "testfile";

    assert_eq!(bm.available(), 3);

    let (bid1, bid2) = (BlockId::new(fname, 1), BlockId::new(fname, 2));

    let buf1 = bm.pin(&bid1, &mut fm, &mut lm).unwrap();

    let n = bm.buffer(buf1).contents().get_int(80);
    assert_eq!(n, 0);

    // this modification will get written to disk
    bm.write_int(buf1, 80, n + 1);
    bm.set_modified(buf1, 1, Some(0));
    bm.unpin(buf1);

    assert_eq!(bm.available(), 3);

    let buf2 = bm.pin(&BlockId::new(fname, 2), &mut fm, &mut lm).unwrap();

    bm.pin(&BlockId::new(fname, 3), &mut fm, &mut lm).unwrap();
    bm.pin(&BlockId::new(fname, 4), &mut fm, &mut lm).unwrap();

    // ^one of these pins should've flushed block1 to disk
    bm.unpin(buf2);
    assert_eq!(bm.available(), 1);

    // verify that block1 was written to disk

    let mut page1 = Page::new(fm.block_size());
    fm.read(&bid1, &mut page1);

    assert_eq!(page1.get_int(80), 1);

    let buf2 = bm.pin(&bid2, &mut fm, &mut lm).unwrap();

    // this modification won't get written to disk
    bm.write_int(buf2, 80, 9999);
    bm.set_modified(buf2, 1, Some(0));
    bm.unpin(buf2);

    // verify that block2 wasn't written to disk

    let mut page2 = Page::new(fm.block_size());
    fm.read(&bid2, &mut page2);

    assert_eq!(page2.get_int(80), 0);
}

#[test]
fn test_buffer_manager() {
    let (mut fm, mut lm, mut bm) = setup(400, 3);
    let fname = "testfile";

    let mut bufv: Vec<Option<usize>> = Vec::new();
    bufv.resize_with(6, || None);

    let (bid0, bid1, bid2, bid3) = (
        BlockId::new(fname, 0),
        BlockId::new(fname, 1),
        BlockId::new(fname, 2),
        BlockId::new(fname, 3),
    );

    bufv[0] = bm.pin(&bid0, &mut fm, &mut lm);
    bufv[1] = bm.pin(&bid1, &mut fm, &mut lm);
    bufv[2] = bm.pin(&bid2, &mut fm, &mut lm);

    bm.unpin(bufv[1].unwrap());
    bufv[1] = None;

    bufv[3] = bm.pin(&bid0, &mut fm, &mut lm);
    bufv[4] = bm.pin(&bid1, &mut fm, &mut lm);

    assert_eq!(bm.available(), 0);
    bufv[5] = bm.pin(&bid3, &mut fm, &mut lm);
    assert!(bufv[5].is_none());

    bm.unpin(bufv[2].unwrap());
    bufv[2] = None;

    bufv[5] = bm.pin(&bid3, &mut fm, &mut lm);
    assert!(bufv[5].is_some());
}

#[test]
fn a_block_is_held_by_one_frame() {
    let (mut fm, mut lm, mut bm) = setup(16, 3);
    let b = BlockId::new("f", 0);
    let first = bm.pin(&b, &mut fm, &mut lm).unwrap();
    let second = bm.pin(&b, &mut fm, &mut lm).unwrap();
    assert_eq!(first, second);
    bm.unpin(first);
    bm.unpin(first);
    // not pinned any more, and still in its frame
    let third = bm.pin(&b, &mut fm, &mut lm).unwrap();
    assert_eq!(first, third);
    assert_eq!(bm.buffer(third).block().unwrap().number(), 0);
    assert_eq!(bm.capacity(), 3);
}

#[test]
fn frames_that_were_never_used_are_taken_from_the_end() {
    let (mut fm, mut lm, mut bm) = setup(16, 3);
    assert_eq!(bm.pin(&BlockId::new("f", 0), &mut fm, &mut lm), Some(2));
    assert_eq!(bm.pin(&BlockId::new("f", 1), &mut fm, &mut lm), Some(1));
    assert_eq!(bm.pin(&BlockId::new("f", 2), &mut fm, &mut lm), Some(0));
    assert_eq!(bm.available(), 0);
}

#[test]
fn a_pinned_frame_is_counted_as_available_only_when_all_pins_are_off() {
    let (mut fm, mut lm, mut bm) = setup(16, 2);
    let b = BlockId::new("f", 0);
    let h = bm.pin(&b, &mut fm, &mut lm).unwrap();
    bm.pin(&b, &mut fm, &mut lm).unwrap();
    assert_eq!(bm.available(), 1);
    bm.unpin(h);
    assert_eq!(bm.available(), 1);
    bm.unpin(h);
    assert_eq!(bm.available(), 2);
    // one unpin too many changes nothing
    bm.unpin(h);
    assert_eq!(bm.available(), 2);
    // nor does an unpin of a frame that holds no block, or that is not there
    bm.unpin(0);
    bm.unpin(17);
    assert_eq!(bm.available(), 2);
}

#[test]
fn pin_with_all_frames_pinned_changes_nothing() {
    let (mut fm, mut lm, mut bm) = setup(16, 2);
    let h0 = bm.pin(&BlockId::new("f", 0), &mut fm, &mut lm).unwrap();
    let h1 = bm.pin(&BlockId::new("f", 1), &mut fm, &mut lm).unwrap();
    bm.write_int(h0, 0, 77);
    bm.set_modified(h0, 5, None);
    assert_eq!(bm.pin(&BlockId::new("f", 2), &mut fm, &mut lm), None);
    assert_eq!(bm.available(), 0);
    assert_eq!(bm.buffer(h0).block().unwrap().number(), 0);
    assert_eq!(bm.buffer(h1).block().unwrap().number(), 1);
    assert_eq!(bm.buffer(h0).contents().get_int(0), 77);
    assert_eq!(bm.buffer(h0).modifying_txn(), Some(5));
    // nothing was written
    assert_eq!(fm.length("f"), 0);
    // the pins are where they were: both blocks are still found in their frames
    assert_eq!(bm.pin(&BlockId::new("f", 0), &mut fm, &mut lm), Some(h0));
    assert_eq!(bm.pin(&BlockId::new("f", 1), &mut fm, &mut lm), Some(h1));
}

#[test]
fn the_log_is_written_before_the_page() {
    let (mut fm, mut lm, mut bm) = setup(32, 1);
    let b = BlockId::new("f", 0);
    let h = bm.pin(&b, &mut fm, &mut lm).unwrap();
    let lsn = lm.append(&mut fm, &[1, 2, 3]);
    bm.write_int(h, 8, 42);
    bm.set_modified(h, 1, Some(lsn));
    bm.unpin(h);
    assert_eq!(lm.last_saved_lsn(), 0);

    // the only frame is given up: the log goes to disk, and then the page
    let h2 = bm.pin(&BlockId::new("f", 1), &mut fm, &mut lm).unwrap();
    assert_eq!(h, h2);
    assert_eq!(lm.last_saved_lsn(), 1);
    let mut p = Page::new(32);
    fm.read(&BlockId::new("db.log", 0), &mut p);
    assert_eq!(p.get_bytes(p.get_int(0) as usize), &[1, 2, 3]);
    fm.read(&b, &mut p);
    assert_eq!(p.get_int(8), 42);
    assert_eq!(bm.buffer(h2).modifying_txn(), None);
}

#[test]
fn flush_all_writes_the_frames_of_one_transaction() {
    let (mut fm, mut lm, mut bm) = setup(16, 3);
    let (b0, b1, b2) = (BlockId::new("f", 0), BlockId::new("f", 1), BlockId::new("f", 2));
    let h0 = bm.pin(&b0, &mut fm, &mut lm).unwrap();
    let h1 = bm.pin(&b1, &mut fm, &mut lm).unwrap();
    let h2 = bm.pin(&b2, &mut fm, &mut lm).unwrap();
    bm.write_int(h0, 0, 10);
    bm.set_modified(h0, 1, None);
    bm.write_int(h1, 0, 11);
    bm.set_modified(h1, 2, None);
    bm.write_int(h2, 0, 12);
    bm.set_modified(h2, 1, None);
    // a frame that is not pinned is flushed as well
    bm.unpin(h2);

    bm.flush_all(1, &mut fm, &mut lm);

    let mut p = Page::new(16);
    fm.read(&b0, &mut p);
    assert_eq!(p.get_int(0), 10);
    fm.read(&b1, &mut p);
    assert_eq!(p.get_int(0), 0);
    fm.read(&b2, &mut p);
    assert_eq!(p.get_int(0), 12);
    assert_eq!(bm.buffer(h0).modifying_txn(), None);
    assert_eq!(bm.buffer(h1).modifying_txn(), Some(2));
    assert_eq!(bm.buffer(h2).modifying_txn(), None);
}

#[test]
fn fifo_pool_gives_up_the_frame_that_came_first() {
    let mut fm = FileManager::new(16, true);
    let mut lm = LogManager::new(&mut fm, "db.log");
    let mut bm = BufferManager::new(16, 2, EvictionPolicy::Fifo);
    let h0 = bm.pin(&BlockId::new("f", 0), &mut fm, &mut lm).unwrap();
    let h1 = bm.pin(&BlockId::new("f", 1), &mut fm, &mut lm).unwrap();
    bm.unpin(h1);
    bm.unpin(h0);
    assert_eq!(bm.pin(&BlockId::new("f", 2), &mut fm, &mut lm), Some(h0));
    assert_eq!(bm.pin(&BlockId::new("f", 3), &mut fm, &mut lm), Some(h1));
    assert!(bm.can_pin(&BlockId::new("f", 4)));
    assert!(!bm.can_pin(&BlockId::new("f", usize::MAX)));
}

#[test]
fn a_buffer_keeps_its_lsn_when_none_is_given() {
    let mut buf = Buffer::new(8);
    assert!(buf.block().is_none());
    assert_eq!(buf.modifying_txn(), None);
    buf.set_modified(3, Some(7));
    assert_eq!(buf.modifying_txn(), Some(3));
    buf.set_modified(4, None);
    assert_eq!(buf.modifying_txn(), Some(4));
    buf.contents_mut().set_int(4, -1);
    assert_eq!(buf.contents().contents(), &[0, 0, 0, 0, 0xff, 0xff, 0xff, 0xff]);
}

#[test]
fn a_string_is_written_into_a_frame() {
    let (mut fm, mut lm, mut bm) = setup(32, 1);
    let h = bm.pin(&BlockId::new("f", 0), &mut fm, &mut lm).unwrap();
    bm.write_string(h, 3, "one");
    assert_eq!(bm.buffer(h).contents().get_string(3), "one");
    assert_eq!(bm.buffer(h).contents().get_int(3), 3);
}
