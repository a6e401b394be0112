use lru_cache::lru::LRU;

#[test]
fn works_builds_lru() {
    let mut lru = LRU::new();
    lru.put(1, "foo");
    lru.put(2, "bar");
    lru.put(3, "fizz");
    lru.put(4, "buzz");
    lru.put(5, "bazz");

    assert_eq!(lru.get(3), Some("fizz"));
    assert_eq!(lru.get(2), Some("bar"));

    let mut iter = lru.list().iter();
    assert_eq!(iter.next_back(), Some("bar"));
    assert_eq!(iter.next_back(), Some("fizz"));
    assert_eq!(iter.next_back(), Some("bazz"));
    assert_eq!(iter.next_back(), Some("buzz"));
    assert_eq!(iter.next_back(), Some("foo"));
    assert_eq!(iter.next_back(), None);
}

#[test]
fn works_builds_lru_capacity() {
    let mut lru = LRU::with_capacity(3);
    lru.put(1, "foo");
    lru.put(2, "bar");
    lru.put(3, "fizz");
    lru.put(4, "buzz");
    lru.put(5, "bazz");

    assert_eq!(lru.get(3), Some("fizz"));
    assert_eq!(lru.get(4), Some("buzz"));

    let mut iter = lru.list().iter();
    assert_eq!(iter.next_back(), Some("buzz"));
    assert_eq!(iter.next_back(), Some("fizz"));
    assert_eq!(iter.next_back(), Some("bazz"));
    assert_eq!(iter.next_back(), None);
}

#[test]
fn evicted_keys_miss_and_later_keys_hit() {
    let mut lru = LRU::with_capacity(3);
    lru.put(10u64, 100u32);
    lru.put(20, 200);
    lru.put(30, 300);
    lru.put(40, 400);
    assert_eq!(lru.get(10), None);
    assert_eq!(lru.get(20), Some(200));
    assert_eq!(lru.get(30), Some(300));
    assert_eq!(lru.get(40), Some(400));
    assert_eq!(lru.list().len(), 3);
}

#[test]
fn recency_refresh_changes_victim() {
    let mut lru = LRU::with_capacity(3);
    lru.put(1, "foo");
    lru.put(2, "bar");
    lru.put(3, "fizz");
    lru.put(4, "buzz");
    lru.put(5, "bazz");
    assert_eq!(lru.get(1), None);
    assert_eq!(lru.get(2), None);
    assert_eq!(lru.get(3), Some("fizz"));
    assert_eq!(lru.get(4), Some("buzz"));
    lru.put(6, "fuzz");
    assert_eq!(lru.get(5), None);
    let mut iter = lru.list().iter();
    assert_eq!(iter.next(), Some("fizz"));
    assert_eq!(iter.next(), Some("buzz"));
    assert_eq!(iter.next(), Some("fuzz"));
    assert_eq!(iter.next(), None);
}

#[test]
fn overwrite_keeps_size() {
    let mut lru = LRU::with_capacity(2);
    lru.put(7, 1);
    lru.put(8, 2);
    let before = lru.list().len();
    lru.put(7, 3);
    assert_eq!(lru.list().len(), before);
    assert_eq!(lru.get(7), Some(3));
    assert_eq!(lru.get(8), Some(2));
    // the gets above left 7 as the least recently used entry, so it goes first
    lru.put(9, 4);
    assert_eq!(lru.get(7), None);
    assert_eq!(lru.get(8), Some(2));
    assert_eq!(lru.get(9), Some(4));
}

#[test]
fn default_capacity_is_ten() {
    let mut lru: LRU<u32, u32> = LRU::new();
    assert_eq!(lru.capacity(), 10);
    for i in 0..10u32 {
        lru.put(i, i * 2);
    }
    for i in 0..10u32 {
        assert_eq!(lru.get(i), Some(i * 2));
    }
    lru.put(10, 20);
    assert_eq!(lru.get(0), None);
    assert_eq!(lru.get(10), Some(20));
    assert_eq!(lru.list().len(), 10);
}

#[test]
fn zero_capacity_holds_nothing() {
    let mut lru = LRU::with_capacity(0);
    lru.put(1, 'a');
    assert_eq!(lru.get(1), None);
    lru.put(1, 'b');
    assert_eq!(lru.get(1), None);
    assert_eq!(lru.list().len(), 0);
}

#[test]
fn miss_on_empty_cache() {
    let mut lru: LRU<i64, i64> = LRU::with_capacity(4);
    assert_eq!(lru.get(5), None);
    assert_eq!(lru.list().len(), 0);
}

#[test]
fn key_put_again_after_eviction() {
    let mut lru = LRU::with_capacity(1);
    lru.put(1, 10);
    lru.put(2, 20);
    assert_eq!(lru.get(1), None);
    lru.put(1, 11);
    assert_eq!(lru.get(1), Some(11));
    assert_eq!(lru.get(2), None);
}
