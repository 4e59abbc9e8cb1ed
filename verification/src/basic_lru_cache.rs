//! A single-shard LRU cache: a hash index from keys to the slots of a
//! doubly linked list that keeps the entries in recency order.
use std::collections::HashMap;
use std::hash::Hash;

use vstd::prelude::*;
use vstd::std_specs::hash::obeys_key_model;

use crate::list::{DoublyLinkedList, Node};
use crate::model::{
    after_get, after_put, after_remove, find_key, keys_distinct, lemma_find_key_absent,
    lemma_find_key_at, lemma_remove_last, lookup,
};

verus! {

/// What the cache needs of its key type: hashing and `==` agree with
/// equality of keys (the hash table model of vstd), and `clone` gives back
/// an equal key.
pub open spec fn key_type_ok<K: Clone>() -> bool {
    &&& obeys_key_model::<K>()
    &&& forall|a: K, b: K| #[trigger] call_ensures(K::clone, (&a,), b) ==> a == b
}

/// The primitive integer types meet what the cache needs of keys.
pub proof fn lemma_integer_keys_ok()
    ensures
        key_type_ok::<u8>(),
        key_type_ok::<u16>(),
        key_type_ok::<u32>(),
        key_type_ok::<u64>(),
        key_type_ok::<u128>(),
        key_type_ok::<usize>(),
        key_type_ok::<i8>(),
        key_type_ok::<i16>(),
        key_type_ok::<i32>(),
        key_type_ok::<i64>(),
        key_type_ok::<i128>(),
        key_type_ok::<isize>(),
        key_type_ok::<bool>(),
{
}

/// The operations that every cache offers. The trait states what holds of
/// every cache (the invariant, the size and the limit); what a hit, a miss
/// or an eviction does to the entries each implementation states in its own
/// `ensures`.
pub trait Cache<K: Clone + Hash + Eq, V: Clone>: Sized {
    /// The cache's internal invariant.
    spec fn well_formed(&self) -> bool;

    /// The number of entries in the cache.
    spec fn size(&self) -> nat;

    /// The number of entries that the cache can hold.
    spec fn limit(&self) -> nat;

    /// Looks `key` up. The size and the limit stay as they are.
    fn get(&mut self, key: &K) -> (result: Option<V>)
        requires
            old(self).well_formed(),
        ensures
            final(self).well_formed(),
            final(self).size() == old(self).size(),
            final(self).limit() == old(self).limit(),
    ;

    /// Binds `key` to `value`. The size stays within the limit, and a
    /// returned value (a replaced one) means the size is unchanged.
    fn put(&mut self, key: K, value: V) -> (result: Option<V>)
        requires
            old(self).well_formed(),
        ensures
            final(self).well_formed(),
            final(self).limit() == old(self).limit(),
            final(self).size() <= final(self).limit(),
            result is Some ==> final(self).size() == old(self).size(),
    ;

    /// Removes `key`. A returned value means one entry fewer, none means
    /// no change in size.
    fn remove(&mut self, key: &K) -> (result: Option<V>)
        requires
            old(self).well_formed(),
        ensures
            final(self).well_formed(),
            final(self).limit() == old(self).limit(),
            result is Some ==> final(self).size() == old(self).size() - 1,
            result is None ==> final(self).size() == old(self).size(),
    ;

    /// The number of entries in the cache.
    fn len(&self) -> (n: usize)
        requires
            self.well_formed(),
        ensures
            n == self.size(),
    ;

    /// Whether the cache holds no entry.
    fn is_empty(&self) -> (b: bool)
        requires
            self.well_formed(),
        ensures
            b == (self.size() == 0),
    {
        self.len() == 0
    }

    /// Removes every entry.
    fn clear(&mut self)
        requires
            old(self).well_formed(),
        ensures
            final(self).well_formed(),
            final(self).size() == 0,
            final(self).limit() == old(self).limit(),
    ;
}

/// The pairs of each entry's key and the slot that holds it, front to back.
pub open spec fn slot_pairs<K, V>(list: DoublyLinkedList<K, V>) -> Seq<(K, usize)> {
    Seq::new(list@.len(), |j: int| (list@[j].0, list.order()[j]))
}

/// `m` sends each key of `pairs` to its slot, and holds no other key.
pub open spec fn index_ok<K>(m: Map<K, usize>, pairs: Seq<(K, usize)>) -> bool {
    &&& forall|j: int|
        0 <= j < pairs.len() ==> m.contains_key(#[trigger] pairs[j].0) && m[pairs[j].0]
            == pairs[j].1
    &&& forall|k: K|
        #[trigger] m.contains_key(k) ==> exists|j: int|
            0 <= j < pairs.len() && #[trigger] pairs[j] == (k, m[k])
}

/// Moving one pair to the front keeps the index exact.
pub proof fn lemma_index_promote<K>(m: Map<K, usize>, pairs: Seq<(K, usize)>, p: int)
    requires
        index_ok(m, pairs),
        0 <= p < pairs.len(),
    ensures
        index_ok(m, seq![pairs[p]] + pairs.remove(p)),
{
    let np = seq![pairs[p]] + pairs.remove(p);
    assert forall|j: int| 0 <= j < np.len() implies m.contains_key(#[trigger] np[j].0) && m[np[j].0]
        == np[j].1 by {
        if j == 0 {
            assert(np[j] == pairs[p]);
        } else if j - 1 < p {
            assert(np[j] == pairs[j - 1]);
        } else {
            assert(np[j] == pairs[j]);
        }
    }
    assert forall|k: K| #[trigger] m.contains_key(k) implies exists|j: int|
        0 <= j < np.len() && #[trigger] np[j] == (k, m[k]) by {
        let i = choose|i: int| 0 <= i < pairs.len() && #[trigger] pairs[i] == (k, m[k]);
        if i == p {
            assert(np[0] == pairs[i]);
        } else if i < p {
            assert(np[i + 1] == pairs[i]);
        } else {
            assert(np[i] == pairs[i]);
        }
    }
}

/// Dropping a pair and its key from the index keeps it exact.
pub proof fn lemma_index_remove<K>(m: Map<K, usize>, pairs: Seq<(K, usize)>, p: int)
    requires
        index_ok(m, pairs),
        0 <= p < pairs.len(),
        forall|i: int, j: int|
            0 <= i < pairs.len() && 0 <= j < pairs.len() && i != j ==> #[trigger] pairs[i].0
                != #[trigger] pairs[j].0,
    ensures
        index_ok(m.remove(pairs[p].0), pairs.remove(p)),
{
    let np = pairs.remove(p);
    let nm = m.remove(pairs[p].0);
    assert forall|j: int| 0 <= j < np.len() implies nm.contains_key(#[trigger] np[j].0)
        && nm[np[j].0] == np[j].1 by {
        if j < p {
            assert(np[j] == pairs[j]);
            assert(pairs[j].0 != pairs[p].0);
        } else {
            assert(np[j] == pairs[j + 1]);
            assert(pairs[j + 1].0 != pairs[p].0);
        }
    }
    assert forall|k: K| #[trigger] nm.contains_key(k) implies exists|j: int|
        0 <= j < np.len() && #[trigger] np[j] == (k, nm[k]) by {
        assert(m.contains_key(k));
        let i = choose|i: int| 0 <= i < pairs.len() && #[trigger] pairs[i] == (k, m[k]);
        assert(i != p);
        if i < p {
            assert(np[i] == pairs[i]);
        } else {
            assert(np[i - 1] == pairs[i]);
        }
    }
}

/// Adding a new key at the front of the pairs and to the index keeps it exact.
pub proof fn lemma_index_push<K>(m: Map<K, usize>, pairs: Seq<(K, usize)>, k: K, s: usize)
    requires
        index_ok(m, pairs),
        !m.contains_key(k),
    ensures
        index_ok(m.insert(k, s), seq![(k, s)] + pairs),
{
    let np = seq![(k, s)] + pairs;
    let nm = m.insert(k, s);
    assert forall|j: int| 0 <= j < np.len() implies nm.contains_key(#[trigger] np[j].0)
        && nm[np[j].0] == np[j].1 by {
        if j > 0 {
            assert(np[j] == pairs[j - 1]);
            assert(m.contains_key(pairs[j - 1].0));
        }
    }
    assert forall|q: K| #[trigger] nm.contains_key(q) implies exists|j: int|
        0 <= j < np.len() && #[trigger] np[j] == (q, nm[q]) by {
        if q == k {
            assert(np[0] == (q, nm[q]));
        } else {
            let i = choose|i: int| 0 <= i < pairs.len() && #[trigger] pairs[i] == (q, m[q]);
            assert(np[i + 1] == pairs[i]);
        }
    }
}

/// An LRU cache of at most `capacity` entries.
pub struct BasicLruCache<K: Clone + Hash + Eq, V: Clone> {
    cap: usize,
    list: DoublyLinkedList<K, V>,
    map: HashMap<K, usize>,
}

impl<K: Clone + Hash + Eq, V: Clone> View for BasicLruCache<K, V> {
    type V = Seq<(K, V)>;

    /// The entries, most recently used first.
    closed spec fn view(&self) -> Seq<(K, V)> {
        self.list@
    }
}

impl<K: Clone + Hash + Eq, V: Clone> BasicLruCache<K, V> {
    /// The number of entries the cache can hold.
    pub closed spec fn spec_capacity(&self) -> nat {
        self.cap as nat
    }

    /// The cache's internal invariant.
    pub closed spec fn wf(&self) -> bool {
        &&& key_type_ok::<K>()
        &&& self.list.wf()
        &&& 0 < self.cap
        &&& self.list@.len() <= self.cap
        &&& index_ok(self.map@, slot_pairs(self.list))
    }

    /// A well-formed cache holds at most its capacity, each key at most once.
    pub proof fn lemma_wf(&self)
        requires
            self.wf(),
        ensures
            keys_distinct(self@),
            self@.len() <= self.spec_capacity(),
            0 < self.spec_capacity(),
            key_type_ok::<K>(),
    {
        self.list.lemma_order_distinct();
        let pairs = slot_pairs(self.list);
        assert forall|i: int, j: int|
            0 <= i < self@.len() && 0 <= j < self@.len() && i != j implies #[trigger] self@[i].0
            != #[trigger] self@[j].0 by {
            assert(pairs[i].0 == self@[i].0);
            assert(pairs[j].0 == self@[j].0);
            if self@[i].0 == self@[j].0 {
                assert(pairs[i].1 == pairs[j].1);
                assert(self.list.order()[i] == self.list.order()[j]);
            }
        }
    }

    /// Makes an empty cache that holds at most `capacity` entries.
    pub fn new(capacity: usize) -> (cache: Self)
        requires
            capacity > 0,
            key_type_ok::<K>(),
        ensures
            cache.wf(),
            cache@ == Seq::<(K, V)>::empty(),
            cache.spec_capacity() == capacity,
    {
        let cache = BasicLruCache {
            cap: capacity,
            list: DoublyLinkedList::new(),
            map: HashMap::with_capacity(capacity),
        };
        proof {
            assert(slot_pairs(cache.list) =~= Seq::<(K, usize)>::empty());
        }
        cache
    }

    /// The number of entries the cache can hold.
    pub fn capacity(&self) -> (cap: usize)
        ensures
            cap == self.spec_capacity(),
    {
        self.cap
    }
}


impl<K: Clone + Hash + Eq, V: Clone> BasicLruCache<K, V> {
    /// The slot that the index gives for `key` holds an entry with that key,
    /// at the position that `find_key` names.
    proof fn lemma_slot_of(&self, key: K, i: usize)
        requires
            self.wf(),
            self.map@.contains_key(key),
            self.map@[key] == i,
        ensures
            self.list.order().contains(i),
            find_key(self@, key) == Some(self.list.order().index_of(i)),
    {
        self.lemma_wf();
        self.list.lemma_order_distinct();
        let pairs = slot_pairs(self.list);
        let j = choose|j: int| 0 <= j < pairs.len() && #[trigger] pairs[j] == (key, self.map@[key]);
        assert(self.list.order()[j] == i);
        let p = self.list.order().index_of(i);
        assert(self.list.order()[p] == i);
        assert(p == j);
        lemma_find_key_at(self@, key, j);
    }

    /// A key that the index lacks is in no entry.
    proof fn lemma_absent(&self, key: K)
        requires
            self.wf(),
            !self.map@.contains_key(key),
        ensures
            find_key(self@, key) is None,
    {
        let pairs = slot_pairs(self.list);
        assert forall|i: int| 0 <= i < self@.len() implies #[trigger] self@[i].0 != key by {
            assert(pairs[i].0 == self@[i].0);
        }
        lemma_find_key_absent(self@, key);
    }
}

impl<K: Clone + Hash + Eq, V: Clone> Cache<K, V> for BasicLruCache<K, V> {
    open spec fn well_formed(&self) -> bool {
        self.wf()
    }

    open spec fn size(&self) -> nat {
        self@.len()
    }

    open spec fn limit(&self) -> nat {
        self.spec_capacity()
    }

    fn get(&mut self, key: &K) -> (result: Option<V>)
        ensures
            final(self)@ == after_get(old(self)@, *key),
            final(self).spec_capacity() == old(self).spec_capacity(),
            match lookup(old(self)@, *key) {
                Some(v) => result matches Some(r) && cloned(v, r),
                None => result is None,
            },
    {
        match self.map.get(key) {
            Some(slot) => {
                let i = *slot;
                proof {
                    self.lemma_slot_of(*key, i);
                }
                let ghost p = self.list.order().index_of(i);
                let ghost pairs = slot_pairs(self.list);
                self.list.reinsert_front(i);
                proof {
                    lemma_index_promote(self.map@, pairs, p);
                    assert(slot_pairs(self.list) =~= seq![pairs[p]] + pairs.remove(p));
                    self.list.lemma_order_distinct();
                    assert(self.list.order()[0] == i);
                    assert(self.list.order().index_of(i) == 0);
                }
                let value = self.list.value_at(i).clone();
                Some(value)
            },
            None => {
                proof {
                    self.lemma_absent(*key);
                }
                None
            },
        }
    }

    fn put(&mut self, key: K, value: V) -> (result: Option<V>)
        ensures
            final(self)@ == after_put(old(self)@, old(self).spec_capacity(), key, value),
            final(self).spec_capacity() == old(self).spec_capacity(),
            result == lookup(old(self)@, key),
    {
        proof {
            self.lemma_wf();
        }
        match self.map.get(&key) {
            Some(slot) => {
                let i = *slot;
                proof {
                    self.lemma_slot_of(key, i);
                }
                let ghost p = self.list.order().index_of(i);
                let ghost pairs = slot_pairs(self.list);
                let previous = self.list.replace_value(i, value);
                proof {
                    assert(self.list.order().index_of(i) == p);
                }
                self.list.reinsert_front(i);
                proof {
                    assert(slot_pairs(self.list) =~= seq![pairs[p]] + pairs.remove(p));
                    lemma_index_promote(self.map@, pairs, p);
                    assert(self@ =~= seq![(key, value)] + old(self)@.remove(p));
                }
                Some(previous)
            },
            None => {
                proof {
                    self.lemma_absent(key);
                }
                let node = Node::new(key.clone(), value);
                if self.list.len() >= self.cap {
                    let ghost pairs = slot_pairs(self.list);
                    let ghost n = pairs.len();
                    let last = self.list.pop_back();
                    match last {
                        Some(evicted) => {
                            proof {
                                lemma_index_remove(self.map@, pairs, n - 1);
                                lemma_remove_last(pairs);
                                assert(slot_pairs(self.list) =~= pairs.drop_last());
                                assert(evicted.key == pairs[n - 1].0);
                            }
                            self.map.remove(&evicted.key);
                        },
                        None => {},
                    }
                }
                let ghost pairs = slot_pairs(self.list);
                let ghost before = self@;
                let ghost m0 = self.map@;
                proof {
                    assert(!self.map@.contains_key(key)) by {
                        if self.map@.contains_key(key) {
                            let j = choose|j: int|
                                0 <= j < pairs.len() && #[trigger] pairs[j] == (key, self.map@[key]);
                            assert(before[j].0 == key);
                            assert(old(self)@.contains(before[j]));
                        }
                    }
                }
                let s = self.list.push_front(node);
                self.map.insert(key, s);
                proof {
                    lemma_index_push(m0, pairs, key, s);
                    assert(slot_pairs(self.list) =~= seq![(key, s)] + pairs);
                }
                None
            },
        }
    }

    fn remove(&mut self, key: &K) -> (result: Option<V>)
        ensures
            final(self)@ == after_remove(old(self)@, *key),
            final(self).spec_capacity() == old(self).spec_capacity(),
            result == lookup(old(self)@, *key),
    {
        proof {
            self.lemma_wf();
        }
        let ghost pairs = slot_pairs(self.list);
        match self.map.remove(key) {
            Some(i) => {
                proof {
                    old(self).lemma_slot_of(*key, i);
                }
                let ghost p = self.list.order().index_of(i);
                let node = self.list.remove(i);
                proof {
                    lemma_index_remove(old(self).map@, pairs, p);
                    assert(slot_pairs(self.list) =~= pairs.remove(p));
                }
                Some(node.value)
            },
            None => {
                proof {
                    self.lemma_absent(*key);
                }
                None
            },
        }
    }

    fn len(&self) -> (n: usize) {
        self.list.len()
    }

    fn is_empty(&self) -> (b: bool) {
        self.list.is_empty()
    }

    fn clear(&mut self)
        ensures
            final(self)@ == Seq::<(K, V)>::empty(),
            final(self).spec_capacity() == old(self).spec_capacity(),
    {
        self.list = DoublyLinkedList::new();
        self.map.clear();
        proof {
            assert(slot_pairs(self.list) =~= Seq::<(K, usize)>::empty());
        }
    }
}

} // verus!
