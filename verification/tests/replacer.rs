use willowdb::buffer::replacer::{EvictionPolicy, Fifo, LruK, Replacer};

#[test]
fn test_fifo() {
    // eviction order

    let mut fifo = Fifo::default();

    fifo.record_access(1);
    fifo.record_access(2);
    fifo.record_access(3);

    fifo.set_evictable(1, true);
    fifo.set_evictable(2, true);
    fifo.set_evictable(3, true);

    assert_eq!(fifo.available(), 3);
    assert_eq!(fifo.evict(), Some(1));
    assert_eq!(fifo.available(), 2);
    assert_eq!(fifo.evict(), Some(2));
    assert_eq!(fifo.evict(), Some(3));
    assert_eq!(fifo.evict(), None);
    assert_eq!(fifo.available(), 0);

    // set_evictable_behavior

    let mut fifo = Fifo::default();

    fifo.record_access(10);
    assert_eq!(fifo.available(), 0);
    fifo.set_evictable(10, true);
    assert_eq!(fifo.available(), 1);
    fifo.set_evictable(10, false);
    assert_eq!(fifo.available(), 0);
}

#[test]
fn test_lruk_eviction() {
    // eviction order

    let mut lruk = LruK::default();

    lruk.record_access(1); // ts=1
    lruk.record_access(2); // ts=2
    lruk.record_access(1); // ts=3 -> 1 has [1,3]
    lruk.record_access(3); // ts=4
    lruk.set_evictable(1, true);
    lruk.set_evictable(2, true);
    lruk.set_evictable(3, true);

    assert_eq!(lruk.available(), 3);

    // 2 and 3 have only one access => inf dist; 2 was added before 3
    assert_eq!(lruk.evict(), Some(2));
    assert_eq!(lruk.available(), 2);

    // Now 1 (dist = ts - 1 = 4 - 1 = 3) vs 3 (dist = inf)
    assert_eq!(lruk.evict(), Some(3));
    assert_eq!(lruk.evict(), Some(1));
    assert_eq!(lruk.evict(), None);
    assert_eq!(lruk.available(), 0);

    // tie breaker in distance resolution

    let mut lruk = LruK::default();

    lruk.record_access(100); // ts=1
    lruk.record_access(200); // ts=2
    lruk.record_access(100); // ts=3 -> 100 has [1,3]
    lruk.record_access(200); // ts=4 -> 200 has [2,4]

    lruk.set_evictable(100, true);
    lruk.set_evictable(200, true);

    // Both have same dist = ts - oldest = 4 - 1 and 4 - 2 = 3 and 2
    // So 100 will have higher dist
    assert_eq!(lruk.evict(), Some(100));
    assert_eq!(lruk.evict(), Some(200));

    // set_evictable only increases once

    let mut lruk = LruK::default();

    lruk.record_access(9); // ts=1
    lruk.set_evictable(9, true);
    assert_eq!(lruk.available(), 1);

    lruk.set_evictable(9, true); // should not increase again
    assert_eq!(lruk.available(), 1);

    lruk.set_evictable(9, false);
    assert_eq!(lruk.available(), 0);
    lruk.set_evictable(9, true); // should increase again
    assert_eq!(lruk.available(), 1);
}

#[test]
fn fifo_skips_entries_that_are_not_evictable() {
    let mut fifo = Fifo::default();
    fifo.record_access(5);
    fifo.record_access(6);
    fifo.record_access(7);
    fifo.set_evictable(6, true);
    fifo.set_evictable(7, true);

    // 5 came first, but is in use: it is passed over, and stays.
    assert_eq!(fifo.evict(), Some(6));
    assert_eq!(fifo.available(), 1);
    fifo.set_evictable(5, true);
    assert_eq!(fifo.available(), 2);
    assert_eq!(fifo.evict(), Some(5));
    assert_eq!(fifo.evict(), Some(7));
    assert_eq!(fifo.evict(), None);
}

#[test]
fn fifo_keeps_the_place_of_a_key_that_is_recorded_again() {
    let mut fifo = Fifo::default();
    fifo.record_access(3);
    fifo.record_access(1);
    fifo.set_evictable(3, true);
    fifo.set_evictable(1, true);
    assert_eq!(fifo.available(), 2);
    fifo.record_access(3);
    assert_eq!(fifo.available(), 1);
    fifo.set_evictable(3, true);
    assert_eq!(fifo.evict(), Some(3));
    assert_eq!(fifo.evict(), Some(1));
}

#[test]
fn set_evictable_on_an_unknown_key_changes_nothing() {
    let mut fifo = Fifo::default();
    fifo.set_evictable(4, true);
    assert_eq!(fifo.available(), 0);
    assert_eq!(fifo.evict(), None);

    let mut lruk = LruK::default();
    lruk.set_evictable(4, true);
    assert_eq!(lruk.available(), 0);
    assert_eq!(lruk.evict(), None);
}

#[test]
fn lruk_infinite_distance_beats_any_finite_distance() {
    let mut lruk = LruK::default();
    lruk.record_access(1); // ts=1
    lruk.record_access(1); // ts=2 -> 1 has [1,2]
    lruk.record_access(2); // ts=3 -> one access only
    lruk.set_evictable(1, true);
    lruk.set_evictable(2, true);
    // 1 has the older access, but 2 has fewer than two accesses.
    assert_eq!(lruk.evict(), Some(2));
    assert_eq!(lruk.evict(), Some(1));
}

#[test]
fn lruk_ties_at_infinity_go_to_the_earliest_access() {
    let mut lruk = LruK::default();
    lruk.record_access(30); // ts=1
    lruk.record_access(10); // ts=2
    lruk.record_access(20); // ts=3
    lruk.set_evictable(10, true);
    lruk.set_evictable(20, true);
    lruk.set_evictable(30, true);
    assert_eq!(lruk.evict(), Some(30));
    assert_eq!(lruk.evict(), Some(10));
    assert_eq!(lruk.evict(), Some(20));
}

#[test]
fn lruk_keeps_the_last_two_accesses() {
    let mut lruk = LruK::default();
    lruk.record_access(1); // ts=1
    lruk.record_access(2); // ts=2
    lruk.record_access(2); // ts=3 -> 2 has [2,3]
    lruk.record_access(1); // ts=4 -> 1 has [1,4]
    lruk.record_access(1); // ts=5 -> 1 has [4,5]
    lruk.set_evictable(1, true);
    lruk.set_evictable(2, true);
    // distances at ts=5: key 1 -> 5-4 = 1, key 2 -> 5-2 = 3
    assert_eq!(lruk.evict(), Some(2));
    assert_eq!(lruk.evict(), Some(1));
}

#[test]
fn lruk_record_access_makes_a_key_not_evictable() {
    let mut lruk = LruK::default();
    lruk.record_access(1);
    lruk.set_evictable(1, true);
    assert_eq!(lruk.available(), 1);
    lruk.record_access(1);
    assert_eq!(lruk.available(), 0);
    assert_eq!(lruk.evict(), None);
}

#[test]
fn replacer_follows_its_policy() {
    let mut fifo = Replacer::new(EvictionPolicy::Fifo);
    let mut lruk = Replacer::new(EvictionPolicy::LruK);
    for r in [&mut fifo, &mut lruk] {
        r.record_access(1);
        r.record_access(2);
        r.record_access(1);
        r.set_evictable(1, true);
        r.set_evictable(2, true);
        assert_eq!(r.available(), 2);
        assert!(r.has_time());
    }
    // first in, first out: 1 was recorded first
    assert_eq!(fifo.evict(), Some(1));
    // LRU-K: 2 has one access only
    assert_eq!(lruk.evict(), Some(2));
}

#[test]
fn the_default_policy_is_lruk() {
    assert_eq!(EvictionPolicy::default(), EvictionPolicy::LruK);
}
