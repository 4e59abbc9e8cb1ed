//! Laws of the LRU model: what one operation promises of the next, and
//! what every operation keeps.
use std::hash::Hash;

use vstd::prelude::*;

use crate::basic_lru_cache::BasicLruCache;
use crate::sharded_lru_cache::{
    capacities_upto, is_shard_count_for, valid_shard_count, lemma_capacities_total, lemma_share_bounds,
    routed, routing_is_stable, shard_capacity_for, ShardedLruCache, MIN_SHARD_CAPACITY,
};
use crate::model::{
    after_get, after_put, after_remove, find_key, keys_distinct, lemma_find_key_absent,
    lemma_find_key_at, lemma_find_key_some, lookup,
};

verus! {

/// Entries that a cache of capacity `cap` can hold: distinct keys, at most
/// `cap` of them.
pub open spec fn valid_entries<K, V>(entries: Seq<(K, V)>, cap: nat) -> bool {
    &&& keys_distinct(entries)
    &&& entries.len() <= cap
    &&& cap > 0
}

/// A read after a write of `key` gives back the value written.
pub proof fn law_get_after_put<K, V>(entries: Seq<(K, V)>, cap: nat, key: K, value: V)
    requires
        valid_entries(entries, cap),
    ensures
        lookup(after_put(entries, cap, key, value), key) == Some(value),
{
    let after = after_put(entries, cap, key, value);
    law_put_keeps_valid(entries, cap, key, value);
    lemma_find_key_at(after, key, 0);
}

/// A write keeps the entries valid (keys stay distinct and their number
/// stays within the capacity) and makes the written entry the most recently
/// used one.
pub proof fn law_put_keeps_valid<K, V>(entries: Seq<(K, V)>, cap: nat, key: K, value: V)
    requires
        valid_entries(entries, cap),
    ensures
        valid_entries(after_put(entries, cap, key, value), cap),
        after_put(entries, cap, key, value)[0] == (key, value),
{
    let after = after_put(entries, cap, key, value);
    match find_key(entries, key) {
        Some(i) => {
            lemma_find_key_some(entries, key);
            let rest = entries.remove(i);
            assert(after == seq![(key, value)] + rest);
            assert forall|a: int, b: int|
                0 <= a < after.len() && 0 <= b < after.len() && a != b implies #[trigger] after[a].0
                != #[trigger] after[b].0 by {
                let ia = if a == 0 { i } else if a - 1 < i { a - 1 } else { a };
                let ib = if b == 0 { i } else if b - 1 < i { b - 1 } else { b };
                assert(after[a].0 == entries[ia].0);
                assert(after[b].0 == entries[ib].0);
            }
        },
        None => {
            let rest = if entries.len() >= cap {
                entries.drop_last()
            } else {
                entries
            };
            assert(after == seq![(key, value)] + rest);
            assert forall|a: int, b: int|
                0 <= a < after.len() && 0 <= b < after.len() && a != b implies #[trigger] after[a].0
                != #[trigger] after[b].0 by {
                if a == 0 {
                    assert(after[b].0 == entries[b - 1].0);
                } else if b == 0 {
                    assert(after[a].0 == entries[a - 1].0);
                } else {
                    assert(after[a].0 == entries[a - 1].0);
                    assert(after[b].0 == entries[b - 1].0);
                }
            }
        },
    }
}

/// A write of `key` leaves every other key's value alone, except the one
/// entry that it may evict.
pub proof fn law_put_keeps_other_keys<K, V>(
    entries: Seq<(K, V)>,
    cap: nat,
    key: K,
    value: V,
    other: K,
)
    requires
        valid_entries(entries, cap),
        other != key,
        !(find_key(entries, key) is None && entries.len() >= cap && entries.last().0 == other),
    ensures
        lookup(after_put(entries, cap, key, value), other) == lookup(entries, other),
{
    let after = after_put(entries, cap, key, value);
    law_put_keeps_valid(entries, cap, key, value);
    match find_key(entries, other) {
        Some(j) => {
            lemma_find_key_some(entries, other);
            match find_key(entries, key) {
                Some(i) => {
                    lemma_find_key_some(entries, key);
                    let pos = if j < i { j + 1 } else { j };
                    assert(after[pos] == entries[j]);
                    lemma_find_key_at(after, other, pos);
                },
                None => {
                    if entries.len() >= cap {
                        assert(j != entries.len() - 1);
                    }
                    assert(after[j + 1] == entries[j]);
                    lemma_find_key_at(after, other, j + 1);
                },
            }
        },
        None => {
            assert forall|a: int| 0 <= a < after.len() implies #[trigger] after[a].0 != other by {
                if a > 0 {
                    match find_key(entries, key) {
                        Some(i) => {
                            let ia = if a - 1 < i { a - 1 } else { a };
                            assert(after[a] == entries[ia]);
                        },
                        None => {
                            assert(after[a] == entries[a - 1]);
                        },
                    }
                }
            }
            lemma_find_key_absent(after, other);
        },
    }
}

/// A write of a new key into a full cache evicts the least recently used
/// entry.
pub proof fn law_put_evicts_least_recent<K, V>(entries: Seq<(K, V)>, cap: nat, key: K, value: V)
    requires
        valid_entries(entries, cap),
        find_key(entries, key) is None,
        entries.len() >= cap,
    ensures
        lookup(after_put(entries, cap, key, value), entries.last().0) is None,
        after_put(entries, cap, key, value).len() == cap,
{
    let after = after_put(entries, cap, key, value);
    let n = entries.len();
    let gone = entries.last().0;
    assert forall|a: int| 0 <= a < after.len() implies #[trigger] after[a].0 != gone by {
        if a == 0 {
            if key == gone {
                lemma_find_key_at(entries, key, n - 1);
            }
        } else {
            assert(after[a] == entries[a - 1]);
        }
    }
    lemma_find_key_absent(after, gone);
}

/// A read changes no key's value, only the recency order.
pub proof fn law_get_keeps_contents<K, V>(entries: Seq<(K, V)>, key: K, other: K)
    requires
        keys_distinct(entries),
    ensures
        lookup(after_get(entries, key), other) == lookup(entries, other),
        after_get(entries, key).len() == entries.len(),
        keys_distinct(after_get(entries, key)),
{
    let after = after_get(entries, key);
    match find_key(entries, key) {
        Some(i) => {
            lemma_find_key_some(entries, key);
            let map_pos = |a: int| if a == 0 { i } else if a - 1 < i { a - 1 } else { a };
            assert forall|a: int| 0 <= a < after.len() implies #[trigger] after[a] == entries[map_pos(a)] by {
            }
            assert forall|a: int, b: int|
                0 <= a < after.len() && 0 <= b < after.len() && a != b implies #[trigger] after[a].0
                != #[trigger] after[b].0 by {
                assert(after[a] == entries[map_pos(a)]);
                assert(after[b] == entries[map_pos(b)]);
            }
            match find_key(entries, other) {
                Some(j) => {
                    lemma_find_key_some(entries, other);
                    let pos = if j == i { 0 } else if j < i { j + 1 } else { j };
                    assert(after[pos] == entries[j]);
                    lemma_find_key_at(after, other, pos);
                },
                None => {
                    assert forall|a: int| 0 <= a < after.len() implies #[trigger] after[a].0 != other by {
                        assert(after[a] == entries[map_pos(a)]);
                    }
                    lemma_find_key_absent(after, other);
                },
            }
        },
        None => {},
    }
}

/// After a removal the key is gone and every other key keeps its value.
pub proof fn law_remove<K, V>(entries: Seq<(K, V)>, key: K, other: K)
    requires
        keys_distinct(entries),
        other != key,
    ensures
        lookup(after_remove(entries, key), key) is None,
        lookup(after_remove(entries, key), other) == lookup(entries, other),
        after_remove(entries, key).len() == entries.len() - (if lookup(entries, key) is Some {
            1int
        } else {
            0int
        }),
{
    let after = after_remove(entries, key);
    match find_key(entries, key) {
        Some(i) => {
            lemma_find_key_some(entries, key);
            assert forall|a: int| 0 <= a < after.len() implies #[trigger] after[a].0 != key by {
                let ia = if a < i { a } else { a + 1 };
                assert(after[a] == entries[ia]);
            }
            lemma_find_key_absent(after, key);
            match find_key(entries, other) {
                Some(j) => {
                    lemma_find_key_some(entries, other);
                    let pos = if j < i { j } else { j - 1 };
                    assert(after[pos] == entries[j]);
                    assert forall|a: int, b: int|
                        0 <= a < after.len() && 0 <= b < after.len() && a != b implies #[trigger] after[a].0
                        != #[trigger] after[b].0 by {
                        let ia = if a < i { a } else { a + 1 };
                        let ib = if b < i { b } else { b + 1 };
                        assert(after[a] == entries[ia]);
                        assert(after[b] == entries[ib]);
                    }
                    lemma_find_key_at(after, other, pos);
                },
                None => {
                    assert forall|a: int| 0 <= a < after.len() implies #[trigger] after[a].0 != other by {
                        let ia = if a < i { a } else { a + 1 };
                        assert(after[a] == entries[ia]);
                    }
                    lemma_find_key_absent(after, other);
                },
            }
        },
        None => {},
    }
}


/// A read that hits makes the entry the most recently used one.
pub proof fn law_get_promotes<K, V>(entries: Seq<(K, V)>, key: K)
    requires
        find_key(entries, key) is Some,
    ensures
        after_get(entries, key)[0] == entries[find_key(entries, key)->0],
        after_get(entries, key)[0].0 == key,
{
    lemma_find_key_some(entries, key);
}

/// Every single-shard cache holds valid entries: distinct keys, no more
/// than its capacity.
pub proof fn law_cache_valid<K: Clone + Hash + Eq, V: Clone>(cache: BasicLruCache<K, V>)
    requires
        cache.wf(),
    ensures
        valid_entries(cache@, cache.spec_capacity()),
{
    cache.lemma_wf();
}

/// A sharded cache never holds more entries than its capacity.
pub proof fn law_sharded_len_bounded<K: Clone + Hash + Eq, V: Clone>(
    cache: ShardedLruCache<K, V>,
)
    requires
        cache.wf(),
    ensures
        cache.spec_len() <= cache.spec_capacity(),
{
    cache.lemma_len_bounded();
}

/// Within the shard that a key's hash picks, a read after a write of the
/// key gives back the value written.
pub proof fn law_shard_get_after_put<K: Clone + Hash + Eq, V: Clone>(
    cache: ShardedLruCache<K, V>,
    idx: int,
    key: K,
    value: V,
)
    requires
        cache.wf(),
        0 <= idx < cache.spec_num_shards(),
    ensures
        lookup(
            after_put(cache.shard(idx)@, cache.shard(idx).spec_capacity(), key, value),
            key,
        ) == Some(value),
{
    cache.lemma_wf();
    cache.shard(idx).lemma_wf();
    law_get_after_put(cache.shard(idx)@, cache.shard(idx).spec_capacity(), key, value);
}

/// The capacity determines the number of shards: at most one count fits.
pub proof fn law_shard_count_unique(capacity: nat, n1: nat, n2: nat)
    requires
        is_shard_count_for(capacity, n1),
        is_shard_count_for(capacity, n2),
    ensures
        n1 == n2,
{
}

/// The shard capacities add up to the total capacity, and when there is
/// more than one shard each gets at least `MIN_SHARD_CAPACITY`.
pub proof fn law_shard_capacities<K: Clone + Hash + Eq, V: Clone>(cache: ShardedLruCache<K, V>)
    requires
        cache.wf(),
    ensures
        capacities_upto(cache.shard_list(), cache.spec_num_shards() as int)
            == cache.spec_capacity(),
        forall|i: int|
            0 <= i < cache.spec_num_shards() ==> (#[trigger] cache.shard(i)).spec_capacity() >= 1,
        cache.spec_num_shards() > 1 ==> forall|i: int|
            0 <= i < cache.spec_num_shards() ==> (#[trigger] cache.shard(i)).spec_capacity()
                >= MIN_SHARD_CAPACITY,
{
    cache.lemma_wf();
    let n = cache.spec_num_shards();
    lemma_share_bounds(cache.spec_capacity(), n);
    assert forall|i: int| 0 <= i < n implies (#[trigger] cache.shard_list()[i]).spec_capacity()
        == shard_capacity_for(cache.spec_capacity(), n, i as nat) by {
        assert(cache.shard(i) == cache.shard_list()[i]);
    }
    lemma_capacities_total(cache.shard_list(), cache.spec_capacity(), n);
}


/// A removal keeps the entries valid.
pub proof fn law_remove_keeps_valid<K, V>(entries: Seq<(K, V)>, cap: nat, key: K)
    requires
        valid_entries(entries, cap),
    ensures
        valid_entries(after_remove(entries, key), cap),
{
    let after = after_remove(entries, key);
    match find_key(entries, key) {
        Some(i) => {
            lemma_find_key_some(entries, key);
            assert forall|a: int, b: int|
                0 <= a < after.len() && 0 <= b < after.len() && a != b implies #[trigger] after[a].0
                != #[trigger] after[b].0 by {
                let ia = if a < i { a } else { a + 1 };
                let ib = if b < i { b } else { b + 1 };
                assert(after[a] == entries[ia]);
                assert(after[b] == entries[ib]);
            }
        },
        None => {},
    }
}

/// An operation on a cache, as the model sees it.
pub enum CacheOp<K, V> {
    Get(K),
    Put(K, V),
    Remove(K),
    Clear,
}

/// The entries after one operation on a cache of capacity `cap`.
pub open spec fn apply_op<K, V>(entries: Seq<(K, V)>, cap: nat, op: CacheOp<K, V>) -> Seq<(K, V)> {
    match op {
        CacheOp::Get(key) => after_get(entries, key),
        CacheOp::Put(key, value) => after_put(entries, cap, key, value),
        CacheOp::Remove(key) => after_remove(entries, key),
        CacheOp::Clear => Seq::empty(),
    }
}

/// The entries after a sequence of operations, first to last.
pub open spec fn apply_ops<K, V>(entries: Seq<(K, V)>, cap: nat, ops: Seq<CacheOp<K, V>>) -> Seq<
    (K, V),
>
    decreases ops.len(),
{
    if ops.len() == 0 {
        entries
    } else {
        apply_op(apply_ops(entries, cap, ops.drop_last()), cap, ops.last())
    }
}

/// Over any sequence of operations the entries stay valid: distinct keys,
/// never more than the capacity.
pub proof fn law_ops_keep_valid<K, V>(entries: Seq<(K, V)>, cap: nat, ops: Seq<CacheOp<K, V>>)
    requires
        valid_entries(entries, cap),
    ensures
        valid_entries(apply_ops(entries, cap, ops), cap),
    decreases ops.len(),
{
    if ops.len() > 0 {
        law_ops_keep_valid(entries, cap, ops.drop_last());
        let before = apply_ops(entries, cap, ops.drop_last());
        match ops.last() {
            CacheOp::Get(key) => {
                law_get_keeps_contents(before, key, key);
            },
            CacheOp::Put(key, value) => {
                law_put_keeps_valid(before, cap, key, value);
            },
            CacheOp::Remove(key) => {
                law_remove_keeps_valid(before, cap, key);
            },
            CacheOp::Clear => {},
        }
    }
}

/// The entries after writing the first `m` of `keys` with the matching
/// `values`, in order, starting from `entries`.
pub open spec fn put_all<K, V>(
    entries: Seq<(K, V)>,
    cap: nat,
    keys: Seq<K>,
    values: Seq<V>,
    m: int,
) -> Seq<(K, V)>
    decreases m,
{
    if m <= 0 {
        entries
    } else {
        after_put(put_all(entries, cap, keys, values, m - 1), cap, keys[m - 1], values[m - 1])
    }
}

/// After a clear, up to `cap` writes of distinct keys are all kept: each key
/// reads back its value and the cache holds exactly those entries.
pub proof fn law_puts_after_clear_kept<K, V>(cap: nat, keys: Seq<K>, values: Seq<V>)
    requires
        cap > 0,
        keys.len() == values.len(),
        keys.len() <= cap,
        keys.no_duplicates(),
    ensures
        put_all(Seq::empty(), cap, keys, values, keys.len() as int).len() == keys.len(),
        forall|i: int|
            0 <= i < keys.len() ==> lookup(
                put_all(Seq::empty(), cap, keys, values, keys.len() as int),
                #[trigger] keys[i],
            ) == Some(values[i]),
{
    lemma_puts_prefix(cap, keys, values, keys.len() as int);
}

proof fn lemma_puts_prefix<K, V>(cap: nat, keys: Seq<K>, values: Seq<V>, m: int)
    requires
        cap > 0,
        keys.len() == values.len(),
        keys.len() <= cap,
        keys.no_duplicates(),
        0 <= m <= keys.len(),
    ensures
        valid_entries(put_all(Seq::empty(), cap, keys, values, m), cap),
        put_all(Seq::empty(), cap, keys, values, m).len() == m,
        forall|i: int|
            0 <= i < m ==> lookup(put_all(Seq::empty(), cap, keys, values, m), #[trigger] keys[i])
                == Some(values[i]),
        forall|i: int|
            m <= i < keys.len() ==> lookup(
                put_all(Seq::empty(), cap, keys, values, m),
                #[trigger] keys[i],
            ) is None,
    decreases m,
{
    let r = put_all(Seq::empty(), cap, keys, values, m);
    if m == 0 {
        assert forall|i: int| 0 <= i < keys.len() implies lookup(r, #[trigger] keys[i]) is None by {
            lemma_find_key_absent(r, keys[i]);
        }
    } else {
        lemma_puts_prefix(cap, keys, values, m - 1);
        let prev = put_all(Seq::empty(), cap, keys, values, m - 1);
        let k = keys[m - 1];
        let v = values[m - 1];
        assert(r == after_put(prev, cap, k, v));
        assert(lookup(prev, k) is None);
        law_put_keeps_valid(prev, cap, k, v);
        law_get_after_put(prev, cap, k, v);
        assert forall|i: int| 0 <= i < keys.len() && i != m - 1 implies lookup(r, #[trigger] keys[i])
            == lookup(prev, keys[i]) by {
            assert(keys[i] != k);
            law_put_keeps_other_keys(prev, cap, k, v, keys[i]);
        }
    }
}

/// Calls that each keep the capacity keep it over any sequence: every state
/// reached from a cache made with capacity `n` still has capacity `n`.
pub proof fn law_capacity_over_calls<K: Clone + Hash + Eq, V: Clone>(
    states: Seq<BasicLruCache<K, V>>,
    n: nat,
)
    requires
        states.len() > 0,
        states[0].spec_capacity() == n,
        forall|i: int|
            0 < i < states.len() ==> (#[trigger] states[i]).spec_capacity() == states[i
                - 1].spec_capacity(),
    ensures
        forall|i: int| 0 <= i < states.len() ==> (#[trigger] states[i]).spec_capacity() == n,
{
    assert forall|i: int| 0 <= i < states.len() implies (#[trigger] states[i]).spec_capacity()
        == n by {
        lemma_capacity_prefix(states, n, i);
    }
}

proof fn lemma_capacity_prefix<K: Clone + Hash + Eq, V: Clone>(
    states: Seq<BasicLruCache<K, V>>,
    n: nat,
    i: int,
)
    requires
        0 <= i < states.len(),
        states[0].spec_capacity() == n,
        forall|j: int|
            0 < j < states.len() ==> (#[trigger] states[j]).spec_capacity() == states[j
                - 1].spec_capacity(),
    ensures
        states[i].spec_capacity() == n,
    decreases i,
{
    if i > 0 {
        lemma_capacity_prefix(states, n, i - 1);
    }
}

/// Calls that each keep the capacity and the number of shards keep the
/// whole layout over any sequence: every state has the capacity and the
/// number of shards of a fresh cache of that capacity, a power of two of at
/// most `MAX_SHARDS` that leaves each shard `MIN_SHARD_CAPACITY` entries
/// when there is more than one.
pub proof fn law_shard_layout_over_calls<K: Clone + Hash + Eq, V: Clone>(
    states: Seq<ShardedLruCache<K, V>>,
    fresh: ShardedLruCache<K, V>,
)
    requires
        states.len() > 0,
        fresh.wf(),
        forall|i: int| 0 <= i < states.len() ==> (#[trigger] states[i]).wf(),
        states[0].spec_capacity() == fresh.spec_capacity(),
        forall|i: int|
            0 < i < states.len() ==> (#[trigger] states[i]).spec_capacity() == states[i
                - 1].spec_capacity() && states[i].spec_num_shards() == states[i
                - 1].spec_num_shards(),
    ensures
        forall|i: int|
            0 <= i < states.len() ==> {
                &&& (#[trigger] states[i]).spec_capacity() == fresh.spec_capacity()
                &&& states[i].spec_num_shards() == fresh.spec_num_shards()
                &&& valid_shard_count(states[i].spec_num_shards())
                &&& (states[i].spec_num_shards() == 1 || states[i].spec_num_shards()
                    * MIN_SHARD_CAPACITY <= states[i].spec_capacity())
            },
{
    fresh.lemma_wf();
    assert forall|i: int| 0 <= i < states.len() implies {
        &&& (#[trigger] states[i]).spec_capacity() == fresh.spec_capacity()
        &&& states[i].spec_num_shards() == fresh.spec_num_shards()
        &&& valid_shard_count(states[i].spec_num_shards())
        &&& (states[i].spec_num_shards() == 1 || states[i].spec_num_shards() * MIN_SHARD_CAPACITY
            <= states[i].spec_capacity())
    } by {
        states[i].lemma_wf();
        lemma_sharded_capacity_prefix(states, fresh.spec_capacity(), i);
        law_shard_count_unique(
            fresh.spec_capacity(),
            states[i].spec_num_shards(),
            fresh.spec_num_shards(),
        );
    }
}

proof fn lemma_sharded_capacity_prefix<K: Clone + Hash + Eq, V: Clone>(
    states: Seq<ShardedLruCache<K, V>>,
    n: nat,
    i: int,
)
    requires
        0 <= i < states.len(),
        states[0].spec_capacity() == n,
        forall|j: int|
            0 < j < states.len() ==> (#[trigger] states[j]).spec_capacity() == states[j
                - 1].spec_capacity() && states[j].spec_num_shards() == states[j
                - 1].spec_num_shards(),
    ensures
        states[i].spec_capacity() == n,
    decreases i,
{
    if i > 0 {
        lemma_sharded_capacity_prefix(states, n, i - 1);
    }
}


/// A read that hits the entry at position `i` moves that entry to the front
/// and leaves every other entry where it was relative to the rest: those in
/// front of it shift back by one, those behind it stay, and the least
/// recently used entry stays the least recently used unless it was the hit.
pub proof fn law_get_hit_keeps_order<K, V>(entries: Seq<(K, V)>, key: K, i: int)
    requires
        keys_distinct(entries),
        0 <= i < entries.len(),
        entries[i].0 == key,
    ensures
        after_get(entries, key).len() == entries.len(),
        after_get(entries, key)[0] == entries[i],
        forall|a: int| 0 <= a < i ==> after_get(entries, key)[a + 1] == #[trigger] entries[a],
        forall|a: int| i < a < entries.len() ==> after_get(entries, key)[a] == #[trigger] entries[a],
        i < entries.len() - 1 ==> after_get(entries, key).last() == entries.last(),
{
    lemma_find_key_at(entries, key, i);
}

/// A read that misses changes nothing.
pub proof fn law_get_miss_changes_nothing<K, V>(entries: Seq<(K, V)>, key: K)
    requires
        forall|a: int| 0 <= a < entries.len() ==> (#[trigger] entries[a]).0 != key,
    ensures
        after_get(entries, key) == entries,
{
    lemma_find_key_absent(entries, key);
}

/// A write of a key that is not there puts the new entry in front and keeps
/// every other entry in its order, one place further back; only when the
/// cache is full does the last entry, the least recently used, leave.
pub proof fn law_put_new_key_keeps_order<K, V>(entries: Seq<(K, V)>, cap: nat, key: K, value: V)
    requires
        valid_entries(entries, cap),
        forall|a: int| 0 <= a < entries.len() ==> (#[trigger] entries[a]).0 != key,
    ensures
        after_put(entries, cap, key, value)[0] == (key, value),
        entries.len() < cap ==> after_put(entries, cap, key, value).len() == entries.len() + 1,
        entries.len() >= cap ==> after_put(entries, cap, key, value).len() == entries.len(),
        forall|a: int|
            0 <= a < entries.len() && (entries.len() < cap || a < entries.len() - 1)
                ==> after_put(entries, cap, key, value)[a + 1] == #[trigger] entries[a],
{
    lemma_find_key_absent(entries, key);
}

/// A write of a key that is there, at position `i`, replaces its value and
/// moves it to the front; every other entry keeps its place relative to the
/// rest and nothing is evicted.
pub proof fn law_put_existing_key_keeps_order<K, V>(
    entries: Seq<(K, V)>,
    cap: nat,
    key: K,
    value: V,
    i: int,
)
    requires
        valid_entries(entries, cap),
        0 <= i < entries.len(),
        entries[i].0 == key,
    ensures
        after_put(entries, cap, key, value).len() == entries.len(),
        after_put(entries, cap, key, value)[0] == (key, value),
        forall|a: int| 0 <= a < i ==> after_put(entries, cap, key, value)[a + 1] == #[trigger] entries[a],
        forall|a: int|
            i < a < entries.len() ==> after_put(entries, cap, key, value)[a] == #[trigger] entries[a],
{
    lemma_find_key_at(entries, key, i);
}

/// Over a run of writes of distinct keys into an empty cache, the cache
/// holds exactly the latest `min(m, cap)` of them, most recent first: each
/// eviction takes the key written earliest among those present.
pub proof fn law_distinct_puts_keep_latest<K, V>(
    cap: nat,
    keys: Seq<K>,
    values: Seq<V>,
    m: int,
)
    requires
        cap > 0,
        keys.len() == values.len(),
        keys.no_duplicates(),
        0 <= m <= keys.len(),
    ensures
        put_all(Seq::empty(), cap, keys, values, m).len() == (if m < cap {
            m
        } else {
            cap as int
        }),
        forall|j: int|
            0 <= j < put_all(Seq::empty(), cap, keys, values, m).len() ==> #[trigger] put_all(
                Seq::empty(),
                cap,
                keys,
                values,
                m,
            )[j] == (keys[m - 1 - j], values[m - 1 - j]),
    decreases m,
{
    if m > 0 {
        law_distinct_puts_keep_latest(cap, keys, values, m - 1);
        let prev = put_all(Seq::empty(), cap, keys, values, m - 1);
        let r = put_all(Seq::empty(), cap, keys, values, m);
        let k = keys[m - 1];
        let v = values[m - 1];
        assert(r == after_put(prev, cap, k, v));
        assert forall|a: int| 0 <= a < prev.len() implies (#[trigger] prev[a]).0 != k by {
            assert(prev[a] == (keys[m - 2 - a], values[m - 2 - a]));
        }
        lemma_find_key_absent(prev, k);
        assert forall|j: int| 0 <= j < r.len() implies #[trigger] r[j] == (
            keys[m - 1 - j],
            values[m - 1 - j],
        ) by {
            if j > 0 {
                assert(r[j] == prev[j - 1]);
            }
        }
    }
}

/// After a removal the key is in no entry.
pub proof fn law_remove_forgets<K, V>(entries: Seq<(K, V)>, key: K)
    requires
        keys_distinct(entries),
    ensures
        lookup(after_remove(entries, key), key) is None,
{
    let after = after_remove(entries, key);
    match find_key(entries, key) {
        Some(i) => {
            lemma_find_key_some(entries, key);
            assert forall|a: int| 0 <= a < after.len() implies #[trigger] after[a].0 != key by {
                let ia = if a < i { a } else { a + 1 };
                assert(after[a] == entries[ia]);
            }
            lemma_find_key_absent(after, key);
        },
        None => {},
    }
}

/// In the sharded cache, a read after a write of the same key gives back a
/// clone of the value written, when routing the key gives one shard.
pub proof fn law_sharded_get_after_put<K: Clone + Hash + Eq, V: Clone>(
    c0: ShardedLruCache<K, V>,
    c1: ShardedLruCache<K, V>,
    c2: ShardedLruCache<K, V>,
    key: K,
    value: V,
    put_result: Option<V>,
    got: Option<V>,
)
    requires
        c0.wf(),
        routing_is_stable(&key, c0.spec_num_shards()),
        c1.spec_num_shards() == c0.spec_num_shards(),
        exists|i: int|
            routed(&key, c0.spec_num_shards(), i) && #[trigger] ShardedLruCache::put_in_shard_effect(
                c0,
                c1,
                i,
                key,
                value,
                put_result,
            ),
        exists|j: int|
            routed(&key, c1.spec_num_shards(), j) && #[trigger] ShardedLruCache::got_in_shard(
                c1,
                c2,
                j,
                key,
                got,
            ),
    ensures
        got matches Some(r) && cloned(value, r),
{
    let n = c0.spec_num_shards();
    let i = choose|i: int|
        routed(&key, n, i) && #[trigger] ShardedLruCache::put_in_shard_effect(
            c0,
            c1,
            i,
            key,
            value,
            put_result,
        );
    let j = choose|j: int|
        routed(&key, n, j) && #[trigger] ShardedLruCache::got_in_shard(c1, c2, j, key, got);
    assert(i == j);
    law_shard_get_after_put(c0, i, key, value);
}

/// In the sharded cache, a removal after a write of the same key returns
/// the value written and leaves the key in no shard that routing picks,
/// when routing the key gives one shard.
pub proof fn law_sharded_remove_after_put<K: Clone + Hash + Eq, V: Clone>(
    c0: ShardedLruCache<K, V>,
    c1: ShardedLruCache<K, V>,
    c2: ShardedLruCache<K, V>,
    key: K,
    value: V,
    put_result: Option<V>,
    removed: Option<V>,
)
    requires
        c0.wf(),
        routing_is_stable(&key, c0.spec_num_shards()),
        c1.spec_num_shards() == c0.spec_num_shards(),
        exists|i: int|
            routed(&key, c0.spec_num_shards(), i) && #[trigger] ShardedLruCache::put_in_shard_effect(
                c0,
                c1,
                i,
                key,
                value,
                put_result,
            ),
        exists|j: int|
            routed(&key, c1.spec_num_shards(), j) && #[trigger] ShardedLruCache::removed_in_shard(
                c1,
                c2,
                j,
                key,
                removed,
            ),
    ensures
        removed == Some(value),
        forall|j: int| routed(&key, c0.spec_num_shards(), j) ==> lookup(#[trigger] c2.shard(j)@, key) is None,
{
    let n = c0.spec_num_shards();
    let i = choose|i: int|
        routed(&key, n, i) && #[trigger] ShardedLruCache::put_in_shard_effect(
            c0,
            c1,
            i,
            key,
            value,
            put_result,
        );
    let j = choose|j: int|
        routed(&key, n, j) && #[trigger] ShardedLruCache::removed_in_shard(c1, c2, j, key, removed);
    assert(i == j);
    law_shard_get_after_put(c0, i, key, value);
    c0.lemma_wf();
    c0.shard(i).lemma_wf();
    law_put_keeps_valid(c0.shard(i)@, c0.shard(i).spec_capacity(), key, value);
    law_remove_forgets(c1.shard(i)@, key);
    assert forall|q: int| routed(&key, n, q) implies lookup(#[trigger] c2.shard(q)@, key) is None by {
        assert(q == i);
    }
}

} // verus!
