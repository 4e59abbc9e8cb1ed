//! A cache split into shards: each key is routed by its hash to one of
//! several single-shard LRU caches, which split the total capacity between
//! them.
use std::collections::hash_map::DefaultHasher;
use std::hash::{Hash, Hasher};

use vstd::prelude::*;
use vstd::std_specs::hash::DefaultHasherAdditionalSpecFns;

use crate::basic_lru_cache::{key_type_ok, BasicLruCache, Cache};
use crate::model::{after_get, after_put, after_remove, lookup};

verus! {

/// The least capacity that each shard gets when there is more than one.
pub const MIN_SHARD_CAPACITY: usize = 4;

/// The most shards a cache has.
pub const MAX_SHARDS: usize = 16;

/// A number of shards is a power of two no greater than `MAX_SHARDS`.
pub open spec fn valid_shard_count(n: nat) -> bool {
    n == 1 || n == 2 || n == 4 || n == 8 || n == 16
}

/// `n` is the number of shards for a total capacity of `capacity`: the
/// largest power of two, up to `MAX_SHARDS`, that leaves each shard at least
/// `MIN_SHARD_CAPACITY` entries, or one shard where no such power exists.
pub open spec fn is_shard_count_for(capacity: nat, n: nat) -> bool {
    &&& valid_shard_count(n)
    &&& (n == 1 || n * MIN_SHARD_CAPACITY <= capacity)
    &&& (n == MAX_SHARDS || capacity < 2 * n * MIN_SHARD_CAPACITY)
}

/// The capacity of shard `i` when `capacity` is split over `n` shards: an
/// even share, the first `capacity % n` shards taking one entry more.
pub open spec fn shard_capacity_for(capacity: nat, n: nat, i: nat) -> nat {
    capacity / n + if i < capacity % n {
        1nat
    } else {
        0nat
    }
}

/// The sum of the sizes of the first `k` shards.
pub open spec fn sizes_upto<K: Clone + Hash + Eq, V: Clone>(
    shards: Seq<BasicLruCache<K, V>>,
    k: int,
) -> nat
    decreases k,
{
    if k <= 0 {
        0
    } else {
        sizes_upto(shards, k - 1) + shards[k - 1]@.len()
    }
}

/// The sum of the capacities of the first `k` shards.
pub open spec fn capacities_upto<K: Clone + Hash + Eq, V: Clone>(
    shards: Seq<BasicLruCache<K, V>>,
    k: int,
) -> nat
    decreases k,
{
    if k <= 0 {
        0
    } else {
        capacities_upto(shards, k - 1) + shards[k - 1].spec_capacity()
    }
}

/// The capacities of the first `k` shards of a split add up to `k` even
/// shares and one extra entry for each of them below `capacity % n`.
pub proof fn lemma_capacities_prefix<K: Clone + Hash + Eq, V: Clone>(
    shards: Seq<BasicLruCache<K, V>>,
    capacity: nat,
    n: nat,
    k: int,
)
    requires
        n > 0,
        shards.len() == n,
        forall|i: int|
            0 <= i < n ==> (#[trigger] shards[i]).spec_capacity() == shard_capacity_for(
                capacity,
                n,
                i as nat,
            ),
        0 <= k <= n,
    ensures
        capacities_upto(shards, k) == k * (capacity / n) + (if k < capacity % n {
            k
        } else {
            (capacity % n) as int
        }),
    decreases k,
{
    let q: int = (capacity / n) as int;
    if k > 0 {
        lemma_capacities_prefix(shards, capacity, n, k - 1);
        assert(shards[k - 1].spec_capacity() == shard_capacity_for(capacity, n, (k - 1) as nat));
        assert(k * q == (k - 1) * q + q) by (nonlinear_arith);
    } else {
        assert(k * q == 0) by (nonlinear_arith)
            requires
                k == 0,
        ;
    }
}

/// The capacities of all the shards of a split add up to the total.
pub proof fn lemma_capacities_total<K: Clone + Hash + Eq, V: Clone>(
    shards: Seq<BasicLruCache<K, V>>,
    capacity: nat,
    n: nat,
)
    requires
        n > 0,
        shards.len() == n,
        forall|i: int|
            0 <= i < n ==> (#[trigger] shards[i]).spec_capacity() == shard_capacity_for(
                capacity,
                n,
                i as nat,
            ),
    ensures
        capacities_upto(shards, n as int) == capacity,
{
    lemma_capacities_prefix(shards, capacity, n, n as int);
    vstd::arithmetic::div_mod::lemma_fundamental_div_mod(capacity as int, n as int);
    assert(n * (capacity / n) == (n as int) * ((capacity as int) / (n as int)));
}

/// Prefix sums of capacities grow with the prefix.
pub proof fn lemma_capacities_monotone<K: Clone + Hash + Eq, V: Clone>(
    shards: Seq<BasicLruCache<K, V>>,
    k: int,
    m: int,
)
    requires
        0 <= k <= m,
    ensures
        capacities_upto(shards, k) <= capacities_upto(shards, m),
    decreases m,
{
    if k < m {
        lemma_capacities_monotone(shards, k, m - 1);
    }
}

/// Shards that hold at most their capacity hold at most the sum of their
/// capacities.
pub proof fn lemma_sizes_bounded<K: Clone + Hash + Eq, V: Clone>(
    shards: Seq<BasicLruCache<K, V>>,
    k: int,
)
    requires
        0 <= k <= shards.len(),
        forall|i: int|
            0 <= i < shards.len() ==> (#[trigger] shards[i])@.len() <= shards[i].spec_capacity(),
    ensures
        sizes_upto(shards, k) <= capacities_upto(shards, k),
    decreases k,
{
    if k > 0 {
        lemma_sizes_bounded(shards, k - 1);
    }
}

/// The sizes add up to zero exactly when every shard is empty.
pub proof fn lemma_sizes_zero<K: Clone + Hash + Eq, V: Clone>(
    shards: Seq<BasicLruCache<K, V>>,
    k: int,
)
    requires
        0 <= k <= shards.len(),
    ensures
        (sizes_upto(shards, k) == 0) <==> (forall|i: int|
            0 <= i < k ==> (#[trigger] shards[i])@.len() == 0),
    decreases k,
{
    if k > 0 {
        lemma_sizes_zero(shards, k - 1);
    }
}

/// Replacing one shard changes the sums by the change of that shard alone.
pub proof fn lemma_sums_update<K: Clone + Hash + Eq, V: Clone>(
    shards: Seq<BasicLruCache<K, V>>,
    i: int,
    shard: BasicLruCache<K, V>,
    k: int,
)
    requires
        0 <= i < shards.len(),
        0 <= k <= shards.len(),
    ensures
        sizes_upto(shards.update(i, shard), k) == sizes_upto(shards, k) + (if i < k {
            shard@.len() - shards[i]@.len()
        } else {
            0int
        }),
        capacities_upto(shards.update(i, shard), k) == capacities_upto(shards, k) + (if i < k {
            shard.spec_capacity() - shards[i].spec_capacity()
        } else {
            0int
        }),
    decreases k,
{
    if k > 0 {
        lemma_sums_update(shards, i, shard, k - 1);
    }
}

/// Each shard of a split gets at least one entry, and at least
/// `MIN_SHARD_CAPACITY` when there is more than one shard.
pub proof fn lemma_share_bounds(capacity: nat, n: nat)
    requires
        capacity > 0,
        is_shard_count_for(capacity, n),
    ensures
        n > 0,
        capacity / n >= 1,
        n > 1 ==> capacity / n >= MIN_SHARD_CAPACITY,
        n > 1 ==> capacity / n + 1 <= capacity,
{
    if n == 1 {
    } else if n == 2 {
    } else if n == 4 {
    } else if n == 8 {
    } else {
    }
}

/// The shard that the low bits of the `DefaultHasher` digest of `writes`
/// pick among `n` shards.
pub open spec fn digest_index(writes: Seq<Seq<u8>>, n: nat) -> int {
    ((DefaultHasher::spec_finish(writes) as usize) % (n as usize)) as int
}

/// `idx` is a shard that the low bits of the `DefaultHasher` digest of some
/// sequence of writes pick among `n` shards. The predicate names no key: it
/// says that the index comes from such a digest, not which writes a given
/// key's `Hash` impl makes.
pub open spec fn digest_shard(idx: int, n: nat) -> bool {
    exists|writes: Seq<Seq<u8>>| idx == #[trigger] digest_index(writes, n)
}

/// Feeds `key` to `hasher` through the key type's `Hash::hash`. What it
/// writes depends on that impl, so nothing is stated of the hasher after.
#[verifier::external_body]
fn hash_key_into<K: Hash>(key: &K, hasher: &mut DefaultHasher) {
    key.hash(hasher)
}

/// `idx` is a shard index that routing `key` among `n` shards gives: a
/// result of `key_shard_index(key, n)`.
pub open spec fn routed<K: Hash>(key: &K, n: nat, idx: int) -> bool {
    &&& 0 <= idx < n
    &&& call_ensures(key_shard_index::<K>, (key, n as usize), idx as usize)
}

/// Routing `key` among `n` shards gives one index only, as it does when the
/// key type's `Hash` impl writes the same bytes for the key each time.
pub open spec fn routing_is_stable<K: Hash>(key: &K, n: nat) -> bool {
    forall|i: int, j: int| #[trigger] routed(key, n, i) && #[trigger] routed(key, n, j) ==> i == j
}

/// A sharded LRU cache.
pub struct ShardedLruCache<K: Clone + Hash + Eq, V: Clone> {
    shards: Vec<BasicLruCache<K, V>>,
    total_capacity: usize,
    num_shards: usize,
}

impl<K: Clone + Hash + Eq, V: Clone> ShardedLruCache<K, V> {
    /// The shards, in index order.
    pub closed spec fn shard_list(&self) -> Seq<BasicLruCache<K, V>> {
        self.shards@
    }

    /// Shard `i`.
    pub open spec fn shard(&self, i: int) -> BasicLruCache<K, V> {
        self.shard_list()[i]
    }

    /// The number of shards.
    pub closed spec fn spec_num_shards(&self) -> nat {
        self.num_shards as nat
    }

    /// The total capacity.
    pub closed spec fn spec_capacity(&self) -> nat {
        self.total_capacity as nat
    }

    /// The number of entries over all shards.
    pub closed spec fn spec_len(&self) -> nat {
        sizes_upto(self.shards@, self.num_shards as int)
    }

    /// The cache's internal invariant.
    pub closed spec fn wf(&self) -> bool {
        &&& self.total_capacity > 0
        &&& self.shards@.len() == self.num_shards
        &&& is_shard_count_for(self.total_capacity as nat, self.num_shards as nat)
        &&& forall|i: int|
            0 <= i < self.shards@.len() ==> {
                &&& (#[trigger] self.shards@[i]).wf()
                &&& self.shards@[i].spec_capacity() == shard_capacity_for(
                    self.total_capacity as nat,
                    self.num_shards as nat,
                    i as nat,
                )
            }
    }

    /// What a well-formed cache shows of its shards.
    pub proof fn lemma_wf(&self)
        requires
            self.wf(),
        ensures
            is_shard_count_for(self.spec_capacity(), self.spec_num_shards()),
            self.spec_capacity() > 0,
            self.shard_list().len() == self.spec_num_shards(),
            forall|i: int|
                0 <= i < self.spec_num_shards() ==> (#[trigger] self.shard(i)).wf()
                    && self.shard(i).spec_capacity() == shard_capacity_for(
                    self.spec_capacity(),
                    self.spec_num_shards(),
                    i as nat,
                ),
    {
    }
}


/// The number of shards for a total capacity of `capacity`: the largest
/// power of two up to `MAX_SHARDS` that leaves each shard at least
/// `MIN_SHARD_CAPACITY` entries, or 1.
pub fn shard_count_for(capacity: usize) -> (n: usize)
    requires
        capacity > 0,
    ensures
        is_shard_count_for(capacity as nat, n as nat),
{
    let theoretical_shards = capacity / MIN_SHARD_CAPACITY;
    if theoretical_shards >= MAX_SHARDS {
        MAX_SHARDS
    } else {
        let mut n: usize = 1;
        while n * 2 <= theoretical_shards && n < MAX_SHARDS
            invariant
                valid_shard_count(n as nat),
                n == 1 || n <= theoretical_shards,
                theoretical_shards < MAX_SHARDS,
                theoretical_shards == capacity / MIN_SHARD_CAPACITY,
            decreases MAX_SHARDS - n,
        {
            n = n * 2;
        }
        n
    }
}

/// The capacity of shard `i` when `capacity` is split over `num_shards`
/// shards.
pub fn shard_capacity(capacity: usize, num_shards: usize, i: usize) -> (c: usize)
    requires
        capacity > 0,
        is_shard_count_for(capacity as nat, num_shards as nat),
        i < num_shards,
    ensures
        c == shard_capacity_for(capacity as nat, num_shards as nat, i as nat),
        c >= 1,
{
    proof {
        lemma_share_bounds(capacity as nat, num_shards as nat);
    }
    let base_shard_capacity = capacity / num_shards;
    let remaining_capacity = capacity % num_shards;
    if i < remaining_capacity {
        base_shard_capacity + 1
    } else {
        base_shard_capacity
    }
}

/// The shard that `key` goes to among `num_shards` shards, chosen by the
/// low bits of the key's digest under a fresh `DefaultHasher`.
pub fn key_shard_index<K: Hash>(key: &K, num_shards: usize) -> (i: usize)
    requires
        valid_shard_count(num_shards as nat),
    ensures
        i < num_shards,
        digest_shard(i as int, num_shards as nat),
{
    let mut hasher = DefaultHasher::new();
    hash_key_into(key, &mut hasher);
    let ghost writes = hasher@;
    let hash = hasher.finish();
    let i = shard_for_hash(hash, num_shards);
    proof {
        assert(i as int == digest_index(writes, num_shards as nat));
    }
    i
}

impl<K: Clone + Hash + Eq, V: Clone> ShardedLruCache<K, V> {
    /// Makes an empty cache of total capacity `capacity`, split over the
    /// number of shards that `is_shard_count_for` describes.
    pub fn new(capacity: usize) -> (cache: Self)
        requires
            capacity > 0,
            key_type_ok::<K>(),
        ensures
            cache.wf(),
            cache.spec_capacity() == capacity,
            is_shard_count_for(capacity as nat, cache.spec_num_shards()),
            cache.spec_len() == 0,
            forall|i: int|
                0 <= i < cache.spec_num_shards() ==> (#[trigger] cache.shard(i))@ == Seq::<
                    (K, V),
                >::empty() && cache.shard(i).spec_capacity() == shard_capacity_for(
                    capacity as nat,
                    cache.spec_num_shards(),
                    i as nat,
                ),
    {
        let num_shards = shard_count_for(capacity);
        proof {
            lemma_share_bounds(capacity as nat, num_shards as nat);
        }
        let mut shards: Vec<BasicLruCache<K, V>> = Vec::with_capacity(num_shards);
        for i in 0..num_shards
            invariant
                shards@.len() == i,
                capacity > 0,
                key_type_ok::<K>(),
                is_shard_count_for(capacity as nat, num_shards as nat),
                forall|j: int|
                    0 <= j < i ==> {
                        &&& (#[trigger] shards@[j]).wf()
                        &&& shards@[j]@ == Seq::<(K, V)>::empty()
                        &&& shards@[j].spec_capacity() == shard_capacity_for(
                            capacity as nat,
                            num_shards as nat,
                            j as nat,
                        )
                    },
        {
            let cap_i = shard_capacity(capacity, num_shards, i);
            shards.push(BasicLruCache::new(cap_i));
        }
        let cache = ShardedLruCache { shards, total_capacity: capacity, num_shards };
        proof {
            lemma_sizes_zero(cache.shards@, num_shards as int);
        }
        cache
    }

    /// The total capacity of the cache.
    pub fn capacity(&self) -> (cap: usize)
        ensures
            cap == self.spec_capacity(),
    {
        self.total_capacity
    }

    /// The number of shards of the cache.
    pub fn num_shards(&self) -> (n: usize)
        ensures
            n == self.spec_num_shards(),
    {
        self.num_shards
    }
}


/// The shard that a key whose hash is `hash` goes to among `num_shards`
/// shards: the low bits of the hash.
pub fn shard_for_hash(hash: u64, num_shards: usize) -> (i: usize)
    requires
        valid_shard_count(num_shards as nat),
    ensures
        i == (hash as usize) % num_shards,
        i < num_shards,
{
    let h = hash as usize;
    let i = h & (num_shards - 1);
    proof {
        if num_shards == 1 {
            assert(h & 0usize == h % 1usize) by (bit_vector);
        } else if num_shards == 2 {
            assert(h & 1usize == h % 2usize) by (bit_vector);
        } else if num_shards == 4 {
            assert(h & 3usize == h % 4usize) by (bit_vector);
        } else if num_shards == 8 {
            assert(h & 7usize == h % 8usize) by (bit_vector);
        } else {
            assert(h & 15usize == h % 16usize) by (bit_vector);
        }
    }
    i
}

impl<K: Clone + Hash + Eq, V: Clone> ShardedLruCache<K, V> {
    /// The shard that `key` goes to, chosen by the key's hash under
    /// `DefaultHasher`.
    pub fn get_shard_index(&self, key: &K) -> (i: usize)
        requires
            self.wf(),
        ensures
            i < self.spec_num_shards(),
            digest_shard(i as int, self.spec_num_shards()),
            routed(key, self.spec_num_shards(), i as int),
    {
        let route = key_shard_index::<K>;
        route(key, self.num_shards)
    }

    /// Replacing shard `idx` by a well-formed cache of the same capacity
    /// keeps the invariant, and the total size changes by that shard's change.
    proof fn lemma_replace_shard(&self, old_cache: &Self, idx: int)
        requires
            old_cache.wf(),
            0 <= idx < old_cache.shards@.len(),
            self.total_capacity == old_cache.total_capacity,
            self.num_shards == old_cache.num_shards,
            self.shards@ == old_cache.shards@.update(idx, self.shards@[idx]),
            self.shards@[idx].wf(),
            self.shards@[idx].spec_capacity() == old_cache.shards@[idx].spec_capacity(),
        ensures
            self.wf(),
            self.spec_len() == old_cache.spec_len() + self.shards@[idx]@.len()
                - old_cache.shards@[idx]@.len(),
    {
        lemma_sums_update(old_cache.shards@, idx, self.shards@[idx], self.num_shards as int);
        assert forall|i: int| 0 <= i < self.shards@.len() implies {
            &&& (#[trigger] self.shards@[i]).wf()
            &&& self.shards@[i].spec_capacity() == shard_capacity_for(
                self.total_capacity as nat,
                self.num_shards as nat,
                i as nat,
            )
        } by {
            if i != idx {
                assert(self.shards@[i] == old_cache.shards@[i]);
            }
        }
    }

    /// A well-formed cache holds at most its capacity.
    pub proof fn lemma_len_bounded(&self)
        requires
            self.wf(),
        ensures
            self.spec_len() <= self.spec_capacity(),
    {
        let n = self.num_shards as nat;
        assert forall|i: int| 0 <= i < self.shards@.len() implies (#[trigger] self.shards@[i])@.len()
            <= self.shards@[i].spec_capacity() by {
            self.shards@[i].lemma_wf();
        }
        lemma_sizes_bounded(self.shards@, n as int);
        lemma_share_bounds(self.total_capacity as nat, n);
        lemma_capacities_total(self.shards@, self.total_capacity as nat, n);
    }

    /// Looks `key` up in shard `idx`.
    pub fn get_in_shard(&mut self, idx: usize, key: &K) -> (result: Option<V>)
        requires
            old(self).wf(),
            idx < old(self).spec_num_shards(),
        ensures
            final(self).wf(),
            final(self).spec_capacity() == old(self).spec_capacity(),
            final(self).spec_num_shards() == old(self).spec_num_shards(),
            final(self).spec_len() == old(self).spec_len(),
            final(self).shard(idx as int)@ == after_get(old(self).shard(idx as int)@, *key),
            final(self).shard(idx as int).spec_capacity() == old(self).shard(idx as int).spec_capacity(),
            match lookup(old(self).shard(idx as int)@, *key) {
                Some(v) => result matches Some(r) && cloned(v, r),
                None => result is None,
            },
            forall|j: int| 0 <= j < old(self).spec_num_shards() && j != idx ==> final(self).shard(j) == old(self).shard(j),
    {
        let result = self.shards[idx].get(key);
        proof {
            self.lemma_replace_shard(old(self), idx as int);
        }
        result
    }
}


impl<K: Clone + Hash + Eq, V: Clone> ShardedLruCache<K, V> {
    /// Binds `key` to `value` in shard `idx`.
    pub fn put_in_shard(&mut self, idx: usize, key: K, value: V) -> (result: Option<V>)
        requires
            old(self).wf(),
            idx < old(self).spec_num_shards(),
        ensures
            final(self).wf(),
            final(self).spec_capacity() == old(self).spec_capacity(),
            final(self).spec_num_shards() == old(self).spec_num_shards(),
            final(self).spec_len() == old(self).spec_len() + final(self).shard(idx as int)@.len()
                - old(self).shard(idx as int)@.len(),
            final(self).spec_len() <= final(self).spec_capacity(),
            final(self).shard(idx as int)@ == after_put(
                old(self).shard(idx as int)@,
                old(self).shard(idx as int).spec_capacity(),
                key,
                value,
            ),
            final(self).shard(idx as int).spec_capacity() == old(self).shard(idx as int).spec_capacity(),
            result == lookup(old(self).shard(idx as int)@, key),
            forall|j: int| 0 <= j < old(self).spec_num_shards() && j != idx ==> final(self).shard(j) == old(self).shard(j),
    {
        let result = self.shards[idx].put(key, value);
        proof {
            self.lemma_replace_shard(old(self), idx as int);
            self.lemma_len_bounded();
        }
        result
    }

    /// Removes `key` from shard `idx`.
    pub fn remove_in_shard(&mut self, idx: usize, key: &K) -> (result: Option<V>)
        requires
            old(self).wf(),
            idx < old(self).spec_num_shards(),
        ensures
            final(self).wf(),
            final(self).spec_capacity() == old(self).spec_capacity(),
            final(self).spec_num_shards() == old(self).spec_num_shards(),
            final(self).spec_len() == old(self).spec_len() + final(self).shard(idx as int)@.len()
                - old(self).shard(idx as int)@.len(),
            final(self).shard(idx as int)@ == after_remove(old(self).shard(idx as int)@, *key),
            final(self).shard(idx as int).spec_capacity() == old(self).shard(idx as int).spec_capacity(),
            result == lookup(old(self).shard(idx as int)@, *key),
            forall|j: int| 0 <= j < old(self).spec_num_shards() && j != idx ==> final(self).shard(j) == old(self).shard(j),
    {
        let result = self.shards[idx].remove(key);
        proof {
            self.lemma_replace_shard(old(self), idx as int);
        }
        result
    }

    /// `after` and `result` are what a read of `key` in shard `idx` of
    /// `before` gives: that shard as `after_get` says, the others unchanged.
    pub open spec fn got_in_shard(
        before: Self,
        after: Self,
        idx: int,
        key: K,
        result: Option<V>,
    ) -> bool {
        &&& 0 <= idx < before.spec_num_shards()
        &&& after.shard(idx)@ == after_get(before.shard(idx)@, key)
        &&& after.shard(idx).spec_capacity() == before.shard(idx).spec_capacity()
        &&& match lookup(before.shard(idx)@, key) {
            Some(v) => result matches Some(r) && cloned(v, r),
            None => result is None,
        }
        &&& forall|j: int|
            0 <= j < before.spec_num_shards() && j != idx ==> after.shard(j) == before.shard(j)
    }

    /// `after` and `result` are what a write of `key` and `value` into shard
    /// `idx` of `before` gives: that shard as `after_put` says, the others
    /// unchanged, the total size changed by that shard's change.
    pub open spec fn put_in_shard_effect(
        before: Self,
        after: Self,
        idx: int,
        key: K,
        value: V,
        result: Option<V>,
    ) -> bool {
        &&& 0 <= idx < before.spec_num_shards()
        &&& after.shard(idx)@ == after_put(
            before.shard(idx)@,
            before.shard(idx).spec_capacity(),
            key,
            value,
        )
        &&& after.shard(idx).spec_capacity() == before.shard(idx).spec_capacity()
        &&& after.spec_len() == before.spec_len() + after.shard(idx)@.len() - before.shard(idx)@.len()
        &&& result == lookup(before.shard(idx)@, key)
        &&& forall|j: int|
            0 <= j < before.spec_num_shards() && j != idx ==> after.shard(j) == before.shard(j)
    }

    /// `after` and `result` are what a removal of `key` from shard `idx` of
    /// `before` gives: that shard as `after_remove` says, the others
    /// unchanged, the total size changed by that shard's change.
    pub open spec fn removed_in_shard(
        before: Self,
        after: Self,
        idx: int,
        key: K,
        result: Option<V>,
    ) -> bool {
        &&& 0 <= idx < before.spec_num_shards()
        &&& after.shard(idx)@ == after_remove(before.shard(idx)@, key)
        &&& after.shard(idx).spec_capacity() == before.shard(idx).spec_capacity()
        &&& after.spec_len() == before.spec_len() + after.shard(idx)@.len() - before.shard(idx)@.len()
        &&& result == lookup(before.shard(idx)@, key)
        &&& forall|j: int|
            0 <= j < before.spec_num_shards() && j != idx ==> after.shard(j) == before.shard(j)
    }

    /// Looks `key` up in the shard that its hash picks; a hit marks the entry
    /// as most recently used in that shard and returns a clone of its value.
    pub fn get(&mut self, key: &K) -> (result: Option<V>)
        requires
            old(self).wf(),
        ensures
            final(self).wf(),
            final(self).spec_capacity() == old(self).spec_capacity(),
            final(self).spec_num_shards() == old(self).spec_num_shards(),
            final(self).spec_len() == old(self).spec_len(),
            exists|idx: int|
                digest_shard(idx, old(self).spec_num_shards()) && routed(key, old(self).spec_num_shards(), idx)
                    && #[trigger] Self::got_in_shard(
                    *old(self),
                    *final(self),
                    idx,
                    *key,
                    result,
                ),
    {
        let idx = self.get_shard_index(key);
        let result = self.get_in_shard(idx, key);
        proof {
            assert(Self::got_in_shard(*old(self), *self, idx as int, *key, result));
        }
        result
    }

    /// Binds `key` to `value` in the shard that its hash picks and returns
    /// the value it replaced there, if any.
    pub fn put(&mut self, key: K, value: V) -> (result: Option<V>)
        requires
            old(self).wf(),
        ensures
            final(self).wf(),
            final(self).spec_capacity() == old(self).spec_capacity(),
            final(self).spec_num_shards() == old(self).spec_num_shards(),
            final(self).spec_len() <= final(self).spec_capacity(),
            exists|idx: int|
                digest_shard(idx, old(self).spec_num_shards()) && routed(&key, old(self).spec_num_shards(), idx)
                    && #[trigger] Self::put_in_shard_effect(
                    *old(self),
                    *final(self),
                    idx,
                    key,
                    value,
                    result,
                ),
    {
        let idx = self.get_shard_index(&key);
        let ghost (k, v) = (key, value);
        let result = self.put_in_shard(idx, key, value);
        proof {
            assert(Self::put_in_shard_effect(*old(self), *self, idx as int, k, v, result));
        }
        result
    }

    /// Removes `key` from the shard that its hash picks and returns its
    /// value there, if it was there.
    pub fn remove(&mut self, key: &K) -> (result: Option<V>)
        requires
            old(self).wf(),
        ensures
            final(self).wf(),
            final(self).spec_capacity() == old(self).spec_capacity(),
            final(self).spec_num_shards() == old(self).spec_num_shards(),
            exists|idx: int|
                digest_shard(idx, old(self).spec_num_shards()) && routed(key, old(self).spec_num_shards(), idx)
                    && #[trigger] Self::removed_in_shard(
                    *old(self),
                    *final(self),
                    idx,
                    *key,
                    result,
                ),
    {
        let idx = self.get_shard_index(key);
        let result = self.remove_in_shard(idx, key);
        proof {
            assert(Self::removed_in_shard(*old(self), *self, idx as int, *key, result));
        }
        result
    }

    /// The number of entries over all shards.
    pub fn len(&self) -> (n: usize)
        requires
            self.wf(),
        ensures
            n == self.spec_len(),
    {
        proof {
            self.lemma_len_bounded();
            assert forall|i: int| 0 <= i < self.shards@.len() implies (#[trigger] self.shards@[i])@.len()
                <= self.shards@[i].spec_capacity() by {
                self.shards@[i].lemma_wf();
            }
        }
        let mut total: usize = 0;
        for i in 0..self.num_shards
            invariant
                self.wf(),
                total == sizes_upto(self.shards@, i as int),
                sizes_upto(self.shards@, self.num_shards as int) <= self.total_capacity,
                forall|j: int| 0 <= j < self.shards@.len() ==> (#[trigger] self.shards@[j])@.len()
                    <= self.shards@[j].spec_capacity(),
        {
            proof {
                lemma_sizes_bounded(self.shards@, i + 1);
                lemma_capacities_monotone(self.shards@, i + 1, self.num_shards as int);
                lemma_share_bounds(self.total_capacity as nat, self.num_shards as nat);
                lemma_capacities_total(
                    self.shards@,
                    self.total_capacity as nat,
                    self.num_shards as nat,
                );
            }
            total = total + self.shards[i].len();
        }
        total
    }

    /// Whether no shard holds an entry.
    pub fn is_empty(&self) -> (b: bool)
        requires
            self.wf(),
        ensures
            b == (self.spec_len() == 0),
    {
        proof {
            lemma_sizes_zero(self.shards@, self.num_shards as int);
        }
        for i in 0..self.num_shards
            invariant
                self.wf(),
                forall|j: int| 0 <= j < i ==> (#[trigger] self.shards@[j])@.len() == 0,
                (sizes_upto(self.shards@, self.num_shards as int) == 0) <==> (forall|j: int|
                    0 <= j < self.num_shards ==> (#[trigger] self.shards@[j])@.len() == 0),
        {
            if !self.shards[i].is_empty() {
                return false;
            }
        }
        true
    }

    /// Removes every entry of every shard.
    pub fn clear(&mut self)
        requires
            old(self).wf(),
        ensures
            final(self).wf(),
            final(self).spec_capacity() == old(self).spec_capacity(),
            final(self).spec_num_shards() == old(self).spec_num_shards(),
            final(self).spec_len() == 0,
            forall|i: int|
                0 <= i < final(self).spec_num_shards() ==> (#[trigger] final(self).shard(i))@
                    == Seq::<(K, V)>::empty() && final(self).shard(i).spec_capacity() == old(
                    self,
                ).shard(i).spec_capacity(),
    {
        let n = self.num_shards;
        for i in 0..n
            invariant
                n == self.num_shards,
                self.wf(),
                self.total_capacity == old(self).total_capacity,
                self.num_shards == old(self).num_shards,
                forall|j: int|
                    0 <= j < n ==> (#[trigger] self.shards@[j]).spec_capacity() == old(
                        self,
                    ).shards@[j].spec_capacity(),
                forall|j: int| 0 <= j < i ==> (#[trigger] self.shards@[j])@ == Seq::<(K, V)>::empty(),
        {
            let ghost before = *self;
            self.shards[i].clear();
            proof {
                self.lemma_replace_shard(&before, i as int);
            }
        }
        proof {
            lemma_sizes_zero(self.shards@, n as int);
        }
    }
}

impl<K: Clone + Hash + Eq, V: Clone> Cache<K, V> for ShardedLruCache<K, V> {
    open spec fn well_formed(&self) -> bool {
        self.wf()
    }

    open spec fn size(&self) -> nat {
        self.spec_len()
    }

    open spec fn limit(&self) -> nat {
        self.spec_capacity()
    }

    fn get(&mut self, key: &K) -> (result: Option<V>)
        ensures
            final(self).spec_capacity() == old(self).spec_capacity(),
            final(self).spec_num_shards() == old(self).spec_num_shards(),
            exists|idx: int|
                digest_shard(idx, old(self).spec_num_shards()) && routed(key, old(self).spec_num_shards(), idx)
                    && #[trigger] Self::got_in_shard(
                    *old(self),
                    *final(self),
                    idx,
                    *key,
                    result,
                ),
    {
        ShardedLruCache::get(self, key)
    }

    fn put(&mut self, key: K, value: V) -> (result: Option<V>)
        ensures
            final(self).spec_capacity() == old(self).spec_capacity(),
            final(self).spec_num_shards() == old(self).spec_num_shards(),
            exists|idx: int|
                digest_shard(idx, old(self).spec_num_shards()) && routed(&key, old(self).spec_num_shards(), idx)
                    && #[trigger] Self::put_in_shard_effect(
                    *old(self),
                    *final(self),
                    idx,
                    key,
                    value,
                    result,
                ),
    {
        ShardedLruCache::put(self, key, value)
    }

    fn remove(&mut self, key: &K) -> (result: Option<V>)
        ensures
            final(self).spec_capacity() == old(self).spec_capacity(),
            final(self).spec_num_shards() == old(self).spec_num_shards(),
            exists|idx: int|
                digest_shard(idx, old(self).spec_num_shards()) && routed(key, old(self).spec_num_shards(), idx)
                    && #[trigger] Self::removed_in_shard(
                    *old(self),
                    *final(self),
                    idx,
                    *key,
                    result,
                ),
    {
        ShardedLruCache::remove(self, key)
    }

    fn len(&self) -> (n: usize) {
        ShardedLruCache::len(self)
    }

    fn is_empty(&self) -> (b: bool) {
        ShardedLruCache::is_empty(self)
    }

    fn clear(&mut self) {
        ShardedLruCache::clear(self)
    }
}

} // verus!
