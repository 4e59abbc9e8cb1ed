//! The abstract meaning of an LRU cache.
//!
//! A cache is modelled as the sequence of its entries in recency order: the
//! entry at index 0 is the most recently used one, the last entry is the
//! least recently used one and the first to be evicted.
use vstd::prelude::*;

verus! {

/// No key occurs twice among the entries.
pub open spec fn keys_distinct<K, V>(entries: Seq<(K, V)>) -> bool {
    forall|i: int, j: int|
        0 <= i < entries.len() && 0 <= j < entries.len() && i != j ==> #[trigger] entries[i].0
            != #[trigger] entries[j].0
}

/// The position of `key` among the entries, if it is there.
pub open spec fn find_key<K, V>(entries: Seq<(K, V)>, key: K) -> Option<int> {
    if exists|i: int| 0 <= i < entries.len() && #[trigger] entries[i].0 == key {
        Some(choose|i: int| 0 <= i < entries.len() && #[trigger] entries[i].0 == key)
    } else {
        None
    }
}

/// The value stored under `key`, if any.
pub open spec fn lookup<K, V>(entries: Seq<(K, V)>, key: K) -> Option<V> {
    match find_key(entries, key) {
        Some(i) => Some(entries[i].1),
        None => None,
    }
}

/// The entry at position `i` moved to the front, the others keeping their order.
pub open spec fn promote<K, V>(entries: Seq<(K, V)>, i: int) -> Seq<(K, V)> {
    seq![entries[i]] + entries.remove(i)
}

/// The entries after a read of `key`: a hit becomes the most recently used entry.
pub open spec fn after_get<K, V>(entries: Seq<(K, V)>, key: K) -> Seq<(K, V)> {
    match find_key(entries, key) {
        Some(i) => promote(entries, i),
        None => entries,
    }
}

/// The entries after `key` is bound to `value` in a cache of capacity `cap`.
///
/// An existing entry takes the new value and moves to the front. A new entry
/// goes to the front; when the cache is full the least recently used entry
/// is dropped first.
pub open spec fn after_put<K, V>(entries: Seq<(K, V)>, cap: nat, key: K, value: V) -> Seq<(K, V)> {
    match find_key(entries, key) {
        Some(i) => seq![(key, value)] + entries.remove(i),
        None => seq![(key, value)] + (if entries.len() >= cap {
            entries.drop_last()
        } else {
            entries
        }),
    }
}

/// The entries after `key` is removed.
pub open spec fn after_remove<K, V>(entries: Seq<(K, V)>, key: K) -> Seq<(K, V)> {
    match find_key(entries, key) {
        Some(i) => entries.remove(i),
        None => entries,
    }
}

/// With distinct keys, the position of a key is the one index that holds it.
pub proof fn lemma_find_key_at<K, V>(entries: Seq<(K, V)>, key: K, i: int)
    requires
        keys_distinct(entries),
        0 <= i < entries.len(),
        entries[i].0 == key,
    ensures
        find_key(entries, key) == Some(i),
{
    let j = choose|j: int| 0 <= j < entries.len() && #[trigger] entries[j].0 == key;
    assert(entries[j].0 == key);
}

/// A key that no entry holds has no position.
pub proof fn lemma_find_key_absent<K, V>(entries: Seq<(K, V)>, key: K)
    requires
        forall|i: int| 0 <= i < entries.len() ==> #[trigger] entries[i].0 != key,
    ensures
        find_key(entries, key) is None,
{
}

/// A position that `find_key` gives holds the key.
pub proof fn lemma_find_key_some<K, V>(entries: Seq<(K, V)>, key: K)
    requires
        find_key(entries, key) is Some,
    ensures
        0 <= find_key(entries, key)->0 < entries.len(),
        entries[find_key(entries, key)->0].0 == key,
{
}

/// Dropping the last element of a sequence is removing it.
pub proof fn lemma_remove_last<A>(s: Seq<A>)
    requires
        s.len() > 0,
    ensures
        s.remove(s.len() - 1) == s.drop_last(),
{
    assert(s.remove(s.len() - 1) =~= s.drop_last());
}

} // verus!
