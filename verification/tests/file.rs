use willowdb::file::{BlockId, FileManager, Page, SIZE_OF_INT};

#[test]
fn file_test_file_manager() {
    let mut fm = FileManager::new(400, true);
    let fname = format!("testfile_{}.tmp", 0);

    let block = BlockId::new(&fname, 2);
    let mut page1 = Page::new(fm.block_size());

    let pos1 = 88;
    let test_str = "abcdefg";
    page1.set_string(pos1, test_str);

    let size = Page::str_size(test_str);
    let pos2 = pos1 + size;
    let test_int = 345;
    page1.set_int(pos2, test_int);

    fm.write(&block, &page1);

    let mut page2 = Page::new(fm.block_size());
    fm.read(&block, &mut page2);

    assert_eq!(page2.get_int(pos2), test_int);
    assert_eq!(page2.get_string(pos1), test_str);

    assert_eq!(fm.length(&fname), 3); // page was added at start offset of block 2; (0, 1, 2) => 3 blocks so far

    let appended_block = fm.append(&fname);
    assert_eq!(appended_block.number(), 3);
    assert_eq!(fm.length(&fname), 4);
}

#[test]
fn block_id_holds_name_and_number() {
    let b = BlockId::new("table.tbl", 7);
    assert_eq!(b.filename(), "table.tbl");
    assert_eq!(b.number(), 7);
    let c = b.clone();
    assert!(b == c);
    assert!(b != BlockId::new("table.tbl", 8));
    assert!(b != BlockId::new("other.tbl", 7));
}

#[test]
fn int_is_stored_little_endian() {
    let mut p = Page::new(8);
    p.set_int(0, 345);
    assert_eq!(p.contents(), &[0x59, 0x01, 0, 0, 0, 0, 0, 0]);
    p.set_int(4, -2);
    assert_eq!(p.contents(), &[0x59, 0x01, 0, 0, 0xfe, 0xff, 0xff, 0xff]);
    assert_eq!(p.get_int(0), 345);
    assert_eq!(p.get_int(4), -2);
}

#[test]
fn int_round_trip_at_the_limits() {
    let mut p = Page::new(12);
    for n in [0, 1, -1, 255, 256, 65536, i32::MAX, i32::MIN, 0x1234_5678, -0x1234_5678] {
        p.set_int(8, n);
        assert_eq!(p.get_int(8), n);
        assert_eq!(&p.contents()[8..12], &n.to_le_bytes());
    }
    assert_eq!(p.get_int(0), 0);
    assert_eq!(p.get_int(4), 0);
}

#[test]
fn bytes_carry_their_length_in_front() {
    let mut p = Page::new(16);
    p.set_bytes(2, &[9, 8, 7]);
    assert_eq!(p.contents(), &[0, 0, 3, 0, 0, 0, 9, 8, 7, 0, 0, 0, 0, 0, 0, 0]);
    assert_eq!(p.get_bytes(2), &[9, 8, 7]);
    assert!(p.has_bytes(2));
    // the length 0x0709 at offset 7 reaches beyond the page
    assert!(!p.has_bytes(7));
    assert!(!p.has_bytes(13));
    assert!(p.has_bytes(12));
    assert_eq!(p.get_bytes(12), &[] as &[u8]);
}

#[test]
fn string_size_is_four_plus_its_bytes() {
    assert_eq!(SIZE_OF_INT, 4);
    assert_eq!(Page::str_size(""), 4);
    assert_eq!(Page::str_size("abcdefg"), 11);
    // two bytes for the e with an accent
    assert_eq!(Page::str_size("caf\u{e9}"), 9);
}

#[test]
fn string_round_trip() {
    let mut p = Page::new(64);
    p.set_string(5, "caf\u{e9} \u{1f600}");
    assert_eq!(p.get_string(5), "caf\u{e9} \u{1f600}");
    p.set_string(40, "");
    assert_eq!(p.get_string(40), "");
}

#[test]
fn bytes_that_are_not_utf8_are_read_with_replacement_characters() {
    let mut p = Page::new(32);
    p.set_bytes(0, &[b'a', 0xff, b'b']);
    assert_eq!(p.get_string(0), "a\u{fffd}b");
}

#[test]
fn page_from_bytes_and_back() {
    let p = Page::with_bytes(&[1, 2, 3, 4, 5]);
    assert_eq!(p.size(), 5);
    assert_eq!(p.contents(), &[1, 2, 3, 4, 5]);
    assert_eq!(p.get_int(0), 0x0403_0201);
    assert_eq!(p.into_bytes(), vec![1, 2, 3, 4, 5]);
    assert_eq!(Page::new(3).contents(), &[0, 0, 0]);
}

#[test]
fn a_block_that_was_never_written_reads_as_zeros() {
    let fm = FileManager::new(8, false);
    assert!(!fm.is_new());
    let mut p = Page::with_bytes(&[1, 1, 1, 1, 1, 1, 1, 1]);
    fm.read(&BlockId::new("f", 3), &mut p);
    assert_eq!(p.contents(), &[0u8; 8]);
    assert_eq!(fm.length("f"), 0);
}

#[test]
fn writing_beyond_the_end_fills_the_gap_with_zeros() {
    let mut fm = FileManager::new(4, true);
    assert!(fm.is_new());
    let page = Page::with_bytes(&[7, 7, 7, 7]);
    fm.write(&BlockId::new("f", 2), &page);
    assert_eq!(fm.length("f"), 3);
    assert_eq!(fm.length("g"), 0);
    let mut p = Page::new(4);
    fm.read(&BlockId::new("f", 0), &mut p);
    assert_eq!(p.contents(), &[0, 0, 0, 0]);
    fm.read(&BlockId::new("f", 1), &mut p);
    assert_eq!(p.contents(), &[0, 0, 0, 0]);
    fm.read(&BlockId::new("f", 2), &mut p);
    assert_eq!(p.contents(), &[7, 7, 7, 7]);
    // a later write to an earlier block keeps the length
    fm.write(&BlockId::new("f", 0), &page);
    assert_eq!(fm.length("f"), 3);
    fm.read(&BlockId::new("f", 0), &mut p);
    assert_eq!(p.contents(), &[7, 7, 7, 7]);
}

#[test]
fn files_are_kept_apart() {
    let mut fm = FileManager::new(4, true);
    fm.write(&BlockId::new("a", 0), &Page::with_bytes(&[1, 2, 3, 4]));
    let b = fm.append("b");
    assert_eq!(b.filename(), "b");
    assert_eq!(b.number(), 0);
    assert_eq!(fm.length("a"), 1);
    assert_eq!(fm.length("b"), 1);
    let mut p = Page::new(4);
    fm.read(&BlockId::new("b", 0), &mut p);
    assert_eq!(p.contents(), &[0, 0, 0, 0]);
    fm.read(&BlockId::new("a", 0), &mut p);
    assert_eq!(p.contents(), &[1, 2, 3, 4]);
}
