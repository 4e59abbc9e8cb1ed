# lrust_cache

An LRU (least recently used) cache, verified with Verus.

- `src/model.rs` says what a cache is: its entries in recency order, most
  recently used first, and what `get`, `put` and `remove` do to them.
- `src/list.rs` is a doubly linked list kept in a vector of slots, with the
  proof that its links always chain the slots in list order.
- `src/basic_lru_cache.rs` is the single-shard cache (a hash index into the
  list) and the `Cache` trait; each operation is proved to do exactly what
  the model says.
- `src/sharded_lru_cache.rs` splits a capacity over up to 16 shards and
  routes each key by its hash.
- `src/laws.rs` proves what follows from the contracts: a read after a write
  gives the value written, eviction takes the least recently used entry,
  the size never exceeds the capacity, and so on.
- `app/` holds a thread-safe sharded cache (a `parking_lot` mutex per
  shard, with the shard layout and key routing taken from the library) and
  the C interface.

The key type must hash and compare consistently with equality and clone to
an equal key (`key_type_ok`); the primitive integer types are proved to.
