use willowdb::file::{BlockId, Page};
use willowdb::txn::recovery::{LogRecord, RecordType, UpdateValue, UpdateValueType};

fn update(txn_num: usize, value: UpdateValue, offset: usize, name: &str, number: usize) -> LogRecord {
    LogRecord::Update { txn_num, value, offset, block: BlockId::new(name, number) }
}

#[test]
fn kinds_have_their_numbers() {
    assert_eq!(RecordType::Checkpoint.code(), 0);
    assert_eq!(RecordType::Start.code(), 1);
    assert_eq!(RecordType::Commit.code(), 2);
    assert_eq!(RecordType::Rollback.code(), 3);
    assert_eq!(RecordType::Update.code(), 4);
    assert_eq!(RecordType::try_from(0), Ok(RecordType::Checkpoint));
    assert_eq!(RecordType::try_from(1), Ok(RecordType::Start));
    assert_eq!(RecordType::try_from(2), Ok(RecordType::Commit));
    assert_eq!(RecordType::try_from(3), Ok(RecordType::Rollback));
    assert_eq!(RecordType::try_from(4), Ok(RecordType::Update));
    assert_eq!(RecordType::try_from(5), Err(()));
    assert_eq!(RecordType::try_from(-1), Err(()));

    assert_eq!(UpdateValueType::INT.code(), 0);
    assert_eq!(UpdateValueType::STRING.code(), 1);
    assert_eq!(UpdateValueType::try_from(0), Ok(UpdateValueType::INT));
    assert_eq!(UpdateValueType::try_from(1), Ok(UpdateValueType::STRING));
    assert_eq!(UpdateValueType::try_from(2), Err(()));
}

#[test]
fn values_know_their_type_and_size() {
    assert_eq!(UpdateValue::INT(5).data_type(), UpdateValueType::INT);
    assert_eq!(UpdateValue::INT(5).size(), 4);
    let s = UpdateValue::STRING("one!".to_string());
    assert_eq!(s.data_type(), UpdateValueType::STRING);
    assert_eq!(s.size(), 8);
    assert!(matches!(s.clone(), UpdateValue::STRING(t) if t == "one!"));
}

#[test]
fn a_checkpoint_is_four_bytes() {
    assert_eq!(LogRecord::Checkpoint.to_bytes(), vec![0, 0, 0, 0]);
    let r = LogRecord::new(&[0, 0, 0, 0]).unwrap();
    assert_eq!(r.operation(), RecordType::Checkpoint);
    assert_eq!(r.txn_num(), None);
}

#[test]
fn start_commit_and_rollback_are_eight_bytes() {
    assert_eq!((LogRecord::Start { txn_num: 7 }).to_bytes(), vec![1, 0, 0, 0, 7, 0, 0, 0]);
    assert_eq!((LogRecord::Commit { txn_num: 258 }).to_bytes(), vec![2, 0, 0, 0, 2, 1, 0, 0]);
    assert_eq!(
        (LogRecord::Rollback { txn_num: i32::MAX as usize }).to_bytes(),
        vec![3, 0, 0, 0, 0xff, 0xff, 0xff, 0x7f]
    );
    for (bytes, kind, txn) in [
        (vec![1, 0, 0, 0, 7, 0, 0, 0], RecordType::Start, 7),
        (vec![2, 0, 0, 0, 2, 1, 0, 0], RecordType::Commit, 258),
        (vec![3, 0, 0, 0, 0xff, 0xff, 0xff, 0x7f], RecordType::Rollback, i32::MAX as usize),
    ] {
        let r = LogRecord::new(&bytes).unwrap();
        assert_eq!(r.operation(), kind);
        assert_eq!(r.txn_num(), Some(txn));
        assert_eq!(r.to_bytes(), bytes);
    }
}

#[test]
fn an_update_of_an_integer() {
    let record = update(3, UpdateValue::INT(-2), 80, "tf", 1);
    let bytes = record.to_bytes();
    assert_eq!(
        bytes,
        vec![
            4, 0, 0, 0, // kind
            3, 0, 0, 0, // transaction
            2, 0, 0, 0, b't', b'f', // file
            1, 0, 0, 0, // block
            0, 0, 0, 0, // type
            80, 0, 0, 0, // offset
            0xfe, 0xff, 0xff, 0xff, // value
        ]
    );
    let back = LogRecord::new(&bytes).unwrap();
    assert_eq!(back.operation(), RecordType::Update);
    assert_eq!(back.txn_num(), Some(3));
    match back {
        LogRecord::Update { txn_num, value, offset, block } => {
            assert_eq!(txn_num, 3);
            assert!(matches!(value, UpdateValue::INT(-2)));
            assert_eq!(offset, 80);
            assert_eq!(block.filename(), "tf");
            assert_eq!(block.number(), 1);
        }
        _ => panic!("not an update"),
    }
}

#[test]
fn an_update_of_a_string() {
    let record = update(12, UpdateValue::STRING("one".to_string()), 40, "testfile", 9);
    let bytes = record.to_bytes();
    assert_eq!(bytes.len(), 4 + 4 + (4 + 8) + 4 + 4 + 4 + (4 + 3));
    assert_eq!(&bytes[24..28], &[1, 0, 0, 0]);
    assert_eq!(&bytes[32..], &[3, 0, 0, 0, b'o', b'n', b'e']);
    // what follows the record is not looked at
    let mut longer = bytes.clone();
    longer.extend_from_slice(&[9, 9, 9]);
    for b in [bytes, longer] {
        match LogRecord::new(&b).unwrap() {
            LogRecord::Update { txn_num, value, offset, block } => {
                assert_eq!(txn_num, 12);
                assert!(matches!(value, UpdateValue::STRING(s) if s == "one"));
                assert_eq!(offset, 40);
                assert_eq!(block.filename(), "testfile");
                assert_eq!(block.number(), 9);
            }
            _ => panic!("not an update"),
        }
    }
}

#[test]
fn bytes_that_spell_no_record() {
    // too short for a kind
    assert!(LogRecord::new(&[]).is_none());
    assert!(LogRecord::new(&[1, 0, 0]).is_none());
    // a kind that is not known
    assert!(LogRecord::new(&[5, 0, 0, 0, 1, 0, 0, 0]).is_none());
    assert!(LogRecord::new(&[0xff, 0xff, 0xff, 0xff]).is_none());
    // no transaction
    assert!(LogRecord::new(&[1, 0, 0, 0]).is_none());
    assert!(LogRecord::new(&[2, 0, 0, 0, 1, 0, 0]).is_none());
    // a negative transaction
    assert!(LogRecord::new(&[3, 0, 0, 0, 0xff, 0xff, 0xff, 0xff]).is_none());

    let good = update(3, UpdateValue::INT(1), 80, "tf", 1).to_bytes();
    assert!(LogRecord::new(&good).is_some());
    // cut short anywhere, an update is no record
    for len in 4..good.len() {
        assert!(LogRecord::new(&good[..len]).is_none());
    }
    // a type of value that is not known
    let mut bad = good.clone();
    bad[18] = 2;
    assert!(LogRecord::new(&bad).is_none());
    // a negative offset, a negative block
    let mut bad = good.clone();
    bad[25] = 0x80;
    assert!(LogRecord::new(&bad).is_none());
    let mut bad = good.clone();
    bad[17] = 0x80;
    assert!(LogRecord::new(&bad).is_none());
    // a file name that reaches beyond the bytes
    let mut bad = good.clone();
    bad[8] = 200;
    assert!(LogRecord::new(&bad).is_none());
    // a string value that reaches beyond the bytes
    let mut bad = update(3, UpdateValue::STRING("xy".to_string()), 80, "tf", 1).to_bytes();
    let at = bad.len() - 6;
    bad[at] = 3;
    assert!(LogRecord::new(&bad).is_none());
}

#[test]
fn a_record_fits_with_eight_bytes_to_spare() {
    assert!(LogRecord::Checkpoint.fits(12));
    assert!(!LogRecord::Checkpoint.fits(11));
    assert!((LogRecord::Start { txn_num: 1 }).fits(16));
    assert!(!(LogRecord::Commit { txn_num: 1 }).fits(15));
    assert!(!(LogRecord::Rollback { txn_num: 1 << 31 }).fits(400));
    assert!((LogRecord::Rollback { txn_num: (1 << 31) - 1 }).fits(400));

    let record = update(3, UpdateValue::INT(1), 80, "tf", 1);
    assert_eq!(record.to_bytes().len(), 30);
    assert!(record.fits(38));
    assert!(!record.fits(37));
    let record = update(3, UpdateValue::STRING("hello".to_string()), 80, "tf", 1);
    assert_eq!(record.to_bytes().len(), 35);
    assert!(record.fits(43));
    assert!(!record.fits(42));
    assert!(!update(1 << 31, UpdateValue::INT(1), 80, "tf", 1).fits(400));
    assert!(!update(3, UpdateValue::INT(1), 1 << 31, "tf", 1).fits(400));
    assert!(!update(3, UpdateValue::INT(1), 80, "tf", 1 << 31).fits(400));
}

#[test]
fn a_record_is_read_from_a_page_of_the_log() {
    // what the log iterator hands out is decoded as it stands
    let bytes = update(3, UpdateValue::STRING("caf\u{e9}".to_string()), 0, "t", 0).to_bytes();
    let page = Page::with_bytes(&bytes);
    match LogRecord::new(page.contents()).unwrap() {
        LogRecord::Update { value, .. } => {
            assert!(matches!(value, UpdateValue::STRING(s) if s == "caf\u{e9}"));
        }
        _ => panic!("not an update"),
    }
}
