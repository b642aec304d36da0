use willowdb::block_map::BlockMap;
use willowdb::file::BlockId;

#[test]
fn a_table_keeps_one_value_for_each_block() {
    let mut table: BlockMap<u32> = BlockMap::new();
    let (a, b, c) = (BlockId::new("f", 0), BlockId::new("f", 1), BlockId::new("g", 0));
    assert_eq!(table.len(), 0);
    assert_eq!(table.get(&a), None);

    table.insert(&a, 10);
    table.insert(&b, 11);
    table.insert(&c, 12);
    assert_eq!(table.len(), 3);
    assert_eq!(table.get(&a), Some(&10));
    assert_eq!(table.get(&b), Some(&11));
    assert_eq!(table.get(&c), Some(&12));
    assert_eq!(table.get(&BlockId::new("g", 1)), None);

    // a block that is entered again keeps its place
    table.insert(&a, 20);
    assert_eq!(table.len(), 3);
    assert_eq!(table.position(&a), Some(0));
    assert_eq!(table.position(&b), Some(1));
    assert_eq!(table.position(&c), Some(2));
    assert_eq!(table.key_at(0).number(), 0);
    assert_eq!(table.key_at(2).filename(), "g");
    assert_eq!(*table.value_at(0), 20);
    assert_eq!(*table.value_at(1), 11);
}

#[test]
fn entries_leave_a_table_one_by_one_or_all_at_once() {
    let mut table: BlockMap<u32> = BlockMap::new();
    let (a, b, c) = (BlockId::new("f", 0), BlockId::new("f", 1), BlockId::new("g", 0));
    table.insert(&a, 10);
    table.insert(&b, 11);
    table.insert(&c, 12);

    assert_eq!(table.remove(&b), Some(11));
    assert_eq!(table.remove(&b), None);
    assert_eq!(table.len(), 2);
    assert_eq!(table.position(&a), Some(0));
    assert_eq!(table.position(&c), Some(1));
    assert_eq!(table.position(&b), None);

    assert_eq!(table.remove_at(0), 10);
    assert_eq!(table.len(), 1);
    assert_eq!(table.get(&c), Some(&12));

    table.clear();
    assert_eq!(table.len(), 0);
    assert_eq!(table.get(&c), None);
}
