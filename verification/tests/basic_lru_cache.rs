use lrust_cache::{BasicLruCache, Cache};

#[test]
fn basic_lru_cache_test_basic_operations() {
    let mut cache = BasicLruCache::new(2);

    assert_eq!(cache.put("key1".to_string(), "one".to_string()), None);
    assert_eq!(cache.put("key2".to_string(), "two".to_string()), None);

    assert_eq!(cache.get(&"key1".to_string()), Some("one".to_string()));
    assert_eq!(cache.get(&"key2".to_string()), Some("two".to_string()));

    // Verify capacity limit
    cache.put("key3".to_string(), "three".to_string());
    assert!(cache.len() <= cache.capacity());

    // Verify LRU behavior
    assert_eq!(cache.get(&"key1".to_string()), None);
    assert_eq!(cache.get(&"key2".to_string()), Some("two".to_string()));
    assert_eq!(cache.get(&"key3".to_string()), Some("three".to_string()));
}

#[test]
fn test_update_existing() {
    let mut cache = BasicLruCache::new(2);

    cache.put("key1".to_string(), "one".to_string());
    assert_eq!(
        cache.put("key1".to_string(), "new_one".to_string()),
        Some("one".to_string())
    );
    assert_eq!(cache.get(&"key1".to_string()), Some("new_one".to_string()));
}

#[test]
fn test_clear() {
    let mut cache = BasicLruCache::new(2);

    cache.put("key1".to_string(), "one".to_string());
    cache.put("key2".to_string(), "two".to_string());
    assert_eq!(cache.len(), 2);

    cache.clear();
    assert_eq!(cache.len(), 0);
    assert_eq!(cache.get(&"key1".to_string()), None);
    assert_eq!(cache.get(&"key2".to_string()), None);
}

#[test]
fn basic_doc_example_integer_keys() {
    let mut cache: BasicLruCache<u64, String> = BasicLruCache::new(1000);
    cache.put(42, "answer".to_string());
    assert_eq!(cache.get(&42), Some("answer".to_string()));
}

#[test]
fn basic_capacity_is_what_was_asked() {
    let cache: BasicLruCache<u64, u64> = BasicLruCache::new(7);
    assert_eq!(cache.capacity(), 7);
    assert_eq!(cache.len(), 0);
    assert!(cache.is_empty());
}

#[test]
fn basic_get_after_put_gives_value() {
    let mut cache: BasicLruCache<u64, u64> = BasicLruCache::new(3);
    for k in 0..10u64 {
        cache.put(k, k * 100);
        assert_eq!(cache.get(&k), Some(k * 100));
        assert!(cache.len() <= cache.capacity());
    }
}

#[test]
fn basic_eviction_takes_least_recently_used() {
    let mut cache: BasicLruCache<u64, u64> = BasicLruCache::new(3);
    cache.put(1, 10);
    cache.put(2, 20);
    cache.put(3, 30);
    // Reading 1 makes 2 the least recently used entry.
    assert_eq!(cache.get(&1), Some(10));
    assert_eq!(cache.put(4, 40), None);
    assert_eq!(cache.len(), 3);
    assert_eq!(cache.get(&2), None);
    assert_eq!(cache.get(&1), Some(10));
    assert_eq!(cache.get(&3), Some(30));
    assert_eq!(cache.get(&4), Some(40));
}

#[test]
fn basic_update_does_not_evict() {
    let mut cache: BasicLruCache<u64, u64> = BasicLruCache::new(2);
    cache.put(1, 10);
    cache.put(2, 20);
    assert_eq!(cache.put(1, 11), Some(10));
    assert_eq!(cache.len(), 2);
    assert_eq!(cache.get(&2), Some(20));
    // The update made 1 the most recent entry, then the read made 2 the
    // most recent: 1 is evicted next.
    cache.put(3, 30);
    assert_eq!(cache.get(&1), None);
    assert_eq!(cache.get(&2), Some(20));
    assert_eq!(cache.get(&3), Some(30));
}

#[test]
fn basic_remove_returns_value_and_forgets_key() {
    let mut cache: BasicLruCache<u64, u64> = BasicLruCache::new(4);
    cache.put(1, 10);
    cache.put(2, 20);
    assert_eq!(cache.remove(&1), Some(10));
    assert_eq!(cache.remove(&1), None);
    assert_eq!(cache.get(&1), None);
    assert_eq!(cache.get(&2), Some(20));
    assert_eq!(cache.len(), 1);
    assert_eq!(cache.remove(&9), None);
    assert_eq!(cache.len(), 1);
}

#[test]
fn basic_get_keeps_contents() {
    let mut cache: BasicLruCache<u64, u64> = BasicLruCache::new(4);
    cache.put(1, 10);
    cache.put(2, 20);
    assert_eq!(cache.get(&3), None);
    assert_eq!(cache.get(&1), Some(10));
    assert_eq!(cache.len(), 2);
    assert_eq!(cache.get(&2), Some(20));
    assert_eq!(cache.get(&1), Some(10));
}

#[test]
fn basic_capacity_one() {
    let mut cache: BasicLruCache<u64, u64> = BasicLruCache::new(1);
    assert_eq!(cache.put(1, 10), None);
    assert_eq!(cache.put(2, 20), None);
    assert_eq!(cache.get(&1), None);
    assert_eq!(cache.get(&2), Some(20));
    assert_eq!(cache.len(), 1);
}

#[test]
fn basic_slots_are_reused_after_removal() {
    let mut cache: BasicLruCache<u64, u64> = BasicLruCache::new(2);
    for round in 0..50u64 {
        cache.put(round, round);
        cache.put(round + 1000, round);
        assert_eq!(cache.remove(&round), Some(round));
        assert_eq!(cache.remove(&(round + 1000)), Some(round));
        assert!(cache.is_empty());
    }
}

#[test]
fn basic_clear_then_reuse() {
    let mut cache: BasicLruCache<String, u64> = BasicLruCache::new(2);
    cache.put("a".to_string(), 1);
    cache.clear();
    assert!(cache.is_empty());
    assert_eq!(cache.put("a".to_string(), 2), None);
    assert_eq!(cache.get(&"a".to_string()), Some(2));
    assert_eq!(cache.capacity(), 2);
}

#[test]
fn basic_distinct_puts_after_clear_are_all_kept() {
    let mut cache: BasicLruCache<u64, u64> = BasicLruCache::new(5);
    for k in 0..20u64 {
        cache.put(k, k);
    }
    cache.clear();
    cache.clear();
    assert!(cache.is_empty());
    for k in 100..105u64 {
        assert_eq!(cache.put(k, k + 1), None);
    }
    assert_eq!(cache.len(), 5);
    for k in 100..105u64 {
        assert_eq!(cache.get(&k), Some(k + 1));
    }
    assert_eq!(cache.capacity(), 5);
}
