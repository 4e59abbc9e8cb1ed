use std::collections::hash_map::DefaultHasher;
use std::hash::{Hash, Hasher};

use lrust_cache::sharded_lru_cache::{
    key_shard_index, shard_capacity, shard_count_for, shard_for_hash, MAX_SHARDS,
    MIN_SHARD_CAPACITY,
};
use lrust_cache::ShardedLruCache;

#[test]
fn sharded_lru_cache_test_basic_operations() {
    let mut cache = ShardedLruCache::new(2);

    // Test empty cache
    assert!(cache.is_empty());
    assert_eq!(cache.len(), 0);

    assert_eq!(cache.put("key1".to_string(), "one".to_string()), None);
    assert_eq!(cache.put("key2".to_string(), "two".to_string()), None);

    // Test non-empty cache
    assert!(!cache.is_empty());
    assert_eq!(cache.len(), 2);

    assert_eq!(cache.get(&"key1".to_string()), Some("one".to_string()));
    assert_eq!(cache.get(&"key2".to_string()), Some("two".to_string()));

    // Verify capacity limit
    cache.put("key3".to_string(), "three".to_string());
    println!("cache.len(): {}", cache.len());
    println!("cache.capacity(): {}", cache.capacity());
    assert!(cache.len() <= cache.capacity());
}

#[test]
fn sharded_doc_example() {
    let mut cache = ShardedLruCache::new(1000);
    cache.put("key1".to_string(), "value1".to_string());
    assert_eq!(cache.get(&"key1".to_string()), Some("value1".to_string()));
}

#[test]
fn sharded_shard_counts() {
    let cases: [(usize, usize); 12] = [
        (1, 1),
        (2, 1),
        (4, 1),
        (7, 1),
        (8, 2),
        (15, 2),
        (16, 4),
        (32, 8),
        (63, 8),
        (64, 16),
        (1000, 16),
        (100000, 16),
    ];
    for (capacity, shards) in cases.iter() {
        let cache: ShardedLruCache<u64, u64> = ShardedLruCache::new(*capacity);
        assert_eq!(cache.num_shards(), *shards, "capacity {}", capacity);
        assert_eq!(cache.capacity(), *capacity);
        assert!(cache.num_shards() <= MAX_SHARDS);
        assert!(cache.num_shards() == 1 || cache.num_shards() * MIN_SHARD_CAPACITY <= *capacity);
    }
}

#[test]
fn sharded_shard_for_hash_takes_low_bits() {
    assert_eq!(shard_for_hash(0, 1), 0);
    assert_eq!(shard_for_hash(12345, 1), 0);
    assert_eq!(shard_for_hash(5, 2), 1);
    assert_eq!(shard_for_hash(6, 4), 2);
    assert_eq!(shard_for_hash(15, 8), 7);
    assert_eq!(shard_for_hash(0xffff_ffff_ffff_fff3, 16), 3);
    assert_eq!(shard_for_hash(33, 16), 1);
}

#[test]
fn sharded_keys_spread_over_shards() {
    let cache: ShardedLruCache<String, u64> = ShardedLruCache::new(1000);
    assert_eq!(cache.num_shards(), 16);
    let mut used = [false; 16];
    for i in 0..800 {
        let key = format!("key_{}", i);
        let idx = cache.get_shard_index(&key);
        assert!(idx < 16);
        // The same key always goes to the same shard.
        assert_eq!(cache.get_shard_index(&key), idx);
        used[idx] = true;
    }
    assert!(used.iter().all(|u| *u), "All shards should be used");
}

#[test]
fn sharded_len_never_exceeds_capacity() {
    let capacity = 100;
    let mut cache: ShardedLruCache<String, u64> = ShardedLruCache::new(capacity);
    for j in 0..1000u64 {
        cache.put(format!("key_{}", j), j);
        assert!(cache.len() <= capacity);
    }
    assert!(cache.len() > 0);
}

#[test]
fn sharded_put_get_remove() {
    let mut cache: ShardedLruCache<String, u64> = ShardedLruCache::new(1000);
    for i in 0..100u64 {
        assert_eq!(cache.put(format!("key_{}", i), i), None);
    }
    assert_eq!(cache.len(), 100);
    for i in 0..100u64 {
        assert_eq!(cache.get(&format!("key_{}", i)), Some(i));
    }
    assert_eq!(cache.put("key_7".to_string(), 70), Some(7));
    assert_eq!(cache.get(&"key_7".to_string()), Some(70));
    assert_eq!(cache.remove(&"key_7".to_string()), Some(70));
    assert_eq!(cache.remove(&"key_7".to_string()), None);
    assert_eq!(cache.get(&"key_7".to_string()), None);
    assert_eq!(cache.len(), 99);
}

#[test]
fn sharded_clear_empties_every_shard() {
    let mut cache: ShardedLruCache<String, u64> = ShardedLruCache::new(1000);
    for i in 0..500u64 {
        cache.put(format!("init_key_{}", i), i);
    }
    assert!(!cache.is_empty());
    cache.clear();
    assert!(cache.is_empty());
    assert_eq!(cache.len(), 0);
    assert_eq!(cache.get(&"init_key_1".to_string()), None);
    assert_eq!(cache.capacity(), 1000);
}

#[test]
fn sharded_in_shard_operations() {
    let mut cache: ShardedLruCache<u64, u64> = ShardedLruCache::new(64);
    assert_eq!(cache.num_shards(), 16);
    // Each of the 16 shards holds 4 entries.
    for k in 0..5u64 {
        assert_eq!(cache.put_in_shard(3, k, k), None);
    }
    assert_eq!(cache.len(), 4);
    assert_eq!(cache.get_in_shard(3, &0), None);
    assert_eq!(cache.get_in_shard(3, &4), Some(4));
    assert_eq!(cache.get_in_shard(2, &4), None);
    assert_eq!(cache.remove_in_shard(3, &4), Some(4));
    assert_eq!(cache.len(), 3);
}

#[test]
fn sharded_index_is_low_bits_of_default_hasher_digest() {
    let cache: ShardedLruCache<String, u64> = ShardedLruCache::new(1000);
    for i in 0..50 {
        let key = format!("key_{}", i);
        let mut hasher = DefaultHasher::new();
        key.hash(&mut hasher);
        let expected = shard_for_hash(hasher.finish(), cache.num_shards());
        assert_eq!(cache.get_shard_index(&key), expected);
    }
}

#[test]
fn sharded_layout_functions() {
    assert_eq!(shard_count_for(1), 1);
    assert_eq!(shard_count_for(8), 2);
    assert_eq!(shard_count_for(63), 8);
    assert_eq!(shard_count_for(64), 16);
    // 10 over 2 shards: 5 and 5; 9 over 2 shards: 5 and 4.
    assert_eq!(shard_capacity(10, 2, 0), 5);
    assert_eq!(shard_capacity(10, 2, 1), 5);
    assert_eq!(shard_capacity(9, 2, 0), 5);
    assert_eq!(shard_capacity(9, 2, 1), 4);
    // 1000 over 16 shards: the first 8 take 63, the others 62.
    let total: usize = (0..16).map(|i| shard_capacity(1000, 16, i)).sum();
    assert_eq!(total, 1000);
    assert_eq!(shard_capacity(1000, 16, 7), 63);
    assert_eq!(shard_capacity(1000, 16, 8), 62);
}

#[test]
fn sharded_key_index_matches_cache_routing() {
    let cache: ShardedLruCache<String, u64> = ShardedLruCache::new(1000);
    for i in 0..50 {
        let key = format!("k{}", i);
        assert_eq!(key_shard_index(&key, 16), cache.get_shard_index(&key));
    }
}
