//! A doubly linked list of cache entries, kept in an arena of slots.
//!
//! Slots are addressed by index; a slot that holds no entry is listed in
//! `free` and reused by the next insertion. The ghost sequence `order`
//! holds the indices of the linked slots from the front of the list (the
//! most recently used entry) to its back.
use vstd::prelude::*;

use crate::model::lemma_remove_last;

verus! {

/// A cache entry: a key and the value stored under it.
pub struct Node<K, V> {
    pub key: K,
    pub value: V,
}

impl<K, V> Node<K, V> {
    /// Makes an entry of `key` and `value`.
    pub fn new(key: K, value: V) -> (node: Self)
        ensures
            node.key == key,
            node.value == value,
    {
        Node { key, value }
    }
}

/// The links `prev` and `next` chain the slots of `ord` in that order.
spec fn linked(prev: Seq<Option<usize>>, next: Seq<Option<usize>>, ord: Seq<usize>) -> bool {
    forall|j: int|
        #![trigger prev[ord[j] as int]]
        #![trigger next[ord[j] as int]]
        0 <= j < ord.len() ==> {
            &&& prev[ord[j] as int] == (if j == 0 {
                None
            } else {
                Some(ord[j - 1])
            })
            &&& next[ord[j] as int] == (if j == ord.len() - 1 {
                None
            } else {
                Some(ord[j + 1])
            })
        }
}

/// The `prev` links once position `p` of `ord` is taken out.
spec fn unlinked_prev(prev: Seq<Option<usize>>, ord: Seq<usize>, p: int) -> Seq<
    Option<usize>,
> {
    if p + 1 < ord.len() {
        prev.update(
            ord[p + 1] as int,
            if p == 0 {
                None
            } else {
                Some(ord[p - 1])
            },
        )
    } else {
        prev
    }
}

/// The `next` links once position `p` of `ord` is taken out.
spec fn unlinked_next(next: Seq<Option<usize>>, ord: Seq<usize>, p: int) -> Seq<
    Option<usize>,
> {
    if p > 0 {
        next.update(
            ord[p - 1] as int,
            if p + 1 < ord.len() {
                Some(ord[p + 1])
            } else {
                None
            },
        )
    } else {
        next
    }
}

/// Taking one slot out of a chain leaves the others chained in order.
proof fn lemma_unlink_links(
    prev: Seq<Option<usize>>,
    next: Seq<Option<usize>>,
    ord: Seq<usize>,
    p: int,
)
    requires
        linked(prev, next, ord),
        ord.no_duplicates(),
        0 <= p < ord.len(),
        forall|j: int| 0 <= j < ord.len() ==> #[trigger] ord[j] < prev.len(),
        prev.len() == next.len(),
    ensures
        linked(unlinked_prev(prev, ord, p), unlinked_next(next, ord, p), ord.remove(p)),
{
    let nprev = unlinked_prev(prev, ord, p);
    let nnext = unlinked_next(next, ord, p);
    let nord = ord.remove(p);
    assert forall|j: int|
        #![trigger nprev[nord[j] as int]]
        #![trigger nnext[nord[j] as int]]
        0 <= j < nord.len() implies {
        &&& nprev[nord[j] as int] == (if j == 0 {
            None
        } else {
            Some(nord[j - 1])
        })
        &&& nnext[nord[j] as int] == (if j == nord.len() - 1 {
            None
        } else {
            Some(nord[j + 1])
        })
    } by {
        if j < p {
            assert(nord[j] == ord[j]);
            assert(ord[j] != ord[p]);
            if p + 1 < ord.len() {
                assert(ord[j] != ord[p + 1]);
            }
            if j > 0 {
                assert(nord[j - 1] == ord[j - 1]);
            }
            if j + 1 < p {
                assert(nord[j + 1] == ord[j + 1]);
                assert(ord[j] != ord[p - 1]);
            } else if j + 1 < nord.len() {
                assert(nord[j + 1] == ord[j + 2]);
            }
        } else {
            assert(nord[j] == ord[j + 1]);
            if p > 0 {
                assert(ord[j + 1] != ord[p - 1]);
            }
            if j > p {
                assert(nord[j - 1] == ord[j]);
                assert(ord[j + 1] != ord[p + 1]);
            } else if j > 0 {
                assert(nord[j - 1] == ord[j - 1]);
            }
            if j + 1 < nord.len() {
                assert(nord[j + 1] == ord[j + 2]);
            }
        }
    }
}

/// A doubly linked list whose nodes live in slots of a vector.
pub struct DoublyLinkedList<K, V> {
    slots: Vec<Option<Node<K, V>>>,
    prev: Vec<Option<usize>>,
    next: Vec<Option<usize>>,
    free: Vec<usize>,
    head: Option<usize>,
    tail: Option<usize>,
    len: usize,
    order: Ghost<Seq<usize>>,
}

impl<K, V> DoublyLinkedList<K, V> {
    /// The slot indices of the linked nodes, from front to back.
    pub closed spec fn order(&self) -> Seq<usize> {
        self.order@
    }

    /// The key and value held by slot `i`.
    pub closed spec fn node_at(&self, i: usize) -> (K, V) {
        let node = self.slots@[i as int]->Some_0;
        (node.key, node.value)
    }

    /// The entries of the list from front to back.
    pub open spec fn view(&self) -> Seq<(K, V)> {
        Seq::new(self.order().len(), |j: int| self.node_at(self.order()[j]))
    }

    spec fn links_ok(&self) -> bool {
        &&& forall|j: int|
            0 <= j < self.order@.len() ==> {
                &&& #[trigger] self.order@[j] < self.slots@.len()
                &&& self.slots@[self.order@[j] as int] is Some
            }
        &&& linked(self.prev@, self.next@, self.order@)
    }

    spec fn free_ok(&self) -> bool {
        &&& self.free@.no_duplicates()
        &&& forall|f: int|
            0 <= f < self.free@.len() ==> {
                &&& #[trigger] self.free@[f] < self.slots@.len()
                &&& self.slots@[self.free@[f] as int] is None
            }
    }

    spec fn ends_ok(&self) -> bool {
        let ord = self.order@;
        let n = ord.len();
        &&& self.head == (if n == 0 {
            None
        } else {
            Some(ord[0])
        })
        &&& self.tail == (if n == 0 {
            None
        } else {
            Some(ord[n - 1])
        })
    }

    /// The list's internal invariant.
    pub closed spec fn wf(&self) -> bool {
        &&& self.prev@.len() == self.slots@.len()
        &&& self.next@.len() == self.slots@.len()
        &&& self.len == self.order@.len()
        &&& self.order@.no_duplicates()
        &&& self.links_ok()
        &&& self.ends_ok()
        &&& self.free_ok()
    }

    /// A well-formed list holds each slot at most once.
    pub proof fn lemma_order_distinct(&self)
        requires
            self.wf(),
        ensures
            self.order().no_duplicates(),
    {
    }

    /// Makes an empty list.
    pub fn new() -> (list: Self)
        ensures
            list.wf(),
            list.order() == Seq::<usize>::empty(),
            list@ == Seq::<(K, V)>::empty(),
    {
        let list = DoublyLinkedList {
            slots: Vec::new(),
            prev: Vec::new(),
            next: Vec::new(),
            free: Vec::new(),
            head: None,
            tail: None,
            len: 0,
            order: Ghost(Seq::empty()),
        };
        assert(list@ =~= Seq::<(K, V)>::empty());
        list
    }

    /// The number of entries in the list.
    pub fn len(&self) -> (n: usize)
        requires
            self.wf(),
        ensures
            n == self@.len(),
    {
        self.len
    }

    /// Whether the list holds no entry.
    pub fn is_empty(&self) -> (b: bool)
        requires
            self.wf(),
        ensures
            b == (self@.len() == 0),
    {
        self.len == 0
    }
}


impl<K, V> DoublyLinkedList<K, V> {
    /// Takes the slot at position `p` of the list out of the links. The slot
    /// keeps its node and is neither linked nor free afterwards.
    fn unlink(&mut self, i: usize, Ghost(p): Ghost<int>)
        requires
            old(self).wf(),
            0 <= p < old(self).order@.len(),
            old(self).order@[p] == i,
        ensures
            final(self).wf(),
            final(self).order@ == old(self).order@.remove(p),
            final(self).slots@ == old(self).slots@,
    {
        let ghost ord = self.order@;
        let ghost n = ord.len();
        proof {
            assert(ord[p] < self.slots@.len());
            if p > 0 {
                assert(ord[p - 1] < self.slots@.len());
            }
            if p < n - 1 {
                assert(ord[p + 1] < self.slots@.len());
            }
            assert(self.prev@[i as int] == (if p == 0 {
                None
            } else {
                Some(ord[p - 1])
            }));
            assert(self.next@[i as int] == (if p == n - 1 {
                None
            } else {
                Some(ord[p + 1])
            }));
        }
        let pr = self.prev[i];
        let nx = self.next[i];
        match pr {
            Some(a) => {
                self.next.set(a, nx);
            },
            None => {
                self.head = nx;
            },
        }
        match nx {
            Some(b) => {
                self.prev.set(b, pr);
            },
            None => {
                self.tail = pr;
            },
        }
        self.len = self.len - 1;
        proof {
            lemma_unlink_links(old(self).prev@, old(self).next@, ord, p);
            self.order@ = ord.remove(p);
            let nord = self.order@;
            assert(self.prev@ == unlinked_prev(old(self).prev@, ord, p));
            assert(self.next@ == unlinked_next(old(self).next@, ord, p));
            assert forall|j: int| 0 <= j < nord.len() implies {
                &&& #[trigger] nord[j] < self.slots@.len()
                &&& self.slots@[nord[j] as int] is Some
            } by {
                if j < p {
                    assert(nord[j] == ord[j]);
                } else {
                    assert(nord[j] == ord[j + 1]);
                }
            }
            assert(self.links_ok());
            assert(self.free_ok());
        }
    }

    /// Links slot `i`, which holds a node and is not linked, at the front.
    fn link_front(&mut self, i: usize)
        requires
            old(self).wf(),
            i < old(self).slots@.len(),
            old(self).slots@[i as int] is Some,
            !old(self).order@.contains(i),
            old(self).order@.len() < usize::MAX,
        ensures
            final(self).wf(),
            final(self).order@ == seq![i] + old(self).order@,
            final(self).slots@ == old(self).slots@,
    {
        let ghost ord = self.order@;
        let ghost n = ord.len();
        proof {
            if n > 0 {
                assert(ord[0] < self.slots@.len());
            }
        }
        self.prev.set(i, None);
        let h = self.head;
        self.next.set(i, h);
        match h {
            Some(a) => {
                self.prev.set(a, Some(i));
            },
            None => {
                self.tail = Some(i);
            },
        }
        self.head = Some(i);
        self.len = self.len + 1;
        proof {
            self.order@ = seq![i] + ord;
            let nord = self.order@;
            assert(nord[0] == i);
            assert forall|j: int| 0 <= j < nord.len() implies {
                &&& #[trigger] nord[j] < self.slots@.len()
                &&& self.slots@[nord[j] as int] is Some
                &&& self.prev@[nord[j] as int] == (if j == 0 {
                    None
                } else {
                    Some(nord[j - 1])
                })
                &&& self.next@[nord[j] as int] == (if j == nord.len() - 1 {
                    None
                } else {
                    Some(nord[j + 1])
                })
            } by {
                if j > 0 {
                    assert(nord[j] == ord[j - 1]);
                    assert(ord[j - 1] < self.slots@.len());
                    assert(ord[j - 1] != i);
                    if j > 1 {
                        assert(nord[j - 1] == ord[j - 2]);
                    }
                    if j + 1 < nord.len() {
                        assert(nord[j + 1] == ord[j]);
                    }
                } else if n > 0 {
                    assert(nord[1] == ord[0]);
                }
            }
            assert(nord.no_duplicates());
            assert(self.links_ok());
            assert(self.free_ok());
        }
    }
}


impl<K, V> DoublyLinkedList<K, V> {
    /// Stores `node` in a slot that is neither linked nor free and returns
    /// its index: a free slot if there is one, else a new slot at the end.
    fn occupy_slot(&mut self, node: Node<K, V>) -> (s: usize)
        requires
            old(self).wf(),
        ensures
            final(self).wf(),
            final(self).order@ == old(self).order@,
            s < final(self).slots@.len(),
            !old(self).order@.contains(s),
            final(self).slots@[s as int] == Some(node),
            forall|i: int|
                0 <= i < old(self).slots@.len() && i != s ==> final(self).slots@[i]
                    == old(self).slots@[i],
    {
        let ghost ord = self.order@;
        match self.free.pop() {
            Some(f) => {
                proof {
                    let last = (old(self).free@.len() - 1) as int;
                    assert(old(self).free@[last] == f);
                    assert(old(self).slots@[f as int] is None);
                    assert forall|j: int| 0 <= j < ord.len() implies ord[j] != f by {
                        assert(ord[j] < self.slots@.len());
                    }
                    assert forall|g: int| 0 <= g < self.free@.len() implies self.free@[g] != f by {
                        assert(self.free@[g] == old(self).free@[g]);
                    }
                }
                self.slots.set(f, Some(node));
                proof {
                    assert forall|j: int| 0 <= j < ord.len() implies {
                        &&& #[trigger] ord[j] < self.slots@.len()
                        &&& self.slots@[ord[j] as int] is Some
                    } by {
                        assert(ord[j] < old(self).slots@.len());
                    }
                    assert forall|g: int| 0 <= g < self.free@.len() implies {
                        &&& #[trigger] self.free@[g] < self.slots@.len()
                        &&& self.slots@[self.free@[g] as int] is None
                    } by {
                        assert(self.free@[g] == old(self).free@[g]);
                    }
                    assert(self.links_ok());
                    assert(self.free_ok());
                }
                f
            },
            None => {
                let s = self.slots.len();
                self.slots.push(Some(node));
                self.prev.push(None);
                self.next.push(None);
                proof {
                    assert forall|j: int| 0 <= j < ord.len() implies ord[j] != s by {
                        assert(ord[j] < old(self).slots@.len());
                    }
                    assert forall|j: int| 0 <= j < ord.len() implies {
                        &&& #[trigger] ord[j] < self.slots@.len()
                        &&& self.slots@[ord[j] as int] is Some
                    } by {
                        assert(ord[j] < old(self).slots@.len());
                    }
                    assert(linked(self.prev@, self.next@, ord)) by {
                        assert forall|j: int| 0 <= j < ord.len() implies {
                            &&& self.prev@[ord[j] as int] == old(self).prev@[ord[j] as int]
                            &&& self.next@[ord[j] as int] == old(self).next@[ord[j] as int]
                        } by {
                            assert(ord[j] < old(self).slots@.len());
                        }
                    }
                    assert forall|g: int| 0 <= g < self.free@.len() implies {
                        &&& #[trigger] self.free@[g] < self.slots@.len()
                        &&& self.slots@[self.free@[g] as int] is None
                    } by {
                        assert(old(self).free@[g] < old(self).slots@.len());
                    }
                    assert(self.links_ok());
                    assert(self.free_ok());
                }
                s
            },
        }
    }

    /// Empties slot `i`, which holds a node and is not linked, returns its
    /// node and makes the slot free.
    fn release(&mut self, i: usize) -> (node: Node<K, V>)
        requires
            old(self).wf(),
            i < old(self).slots@.len(),
            old(self).slots@[i as int] is Some,
            !old(self).order@.contains(i),
        ensures
            final(self).wf(),
            final(self).order@ == old(self).order@,
            Some(node) == old(self).slots@[i as int],
            forall|j: int|
                0 <= j < old(self).slots@.len() && j != i ==> final(self).slots@[j]
                    == old(self).slots@[j],
    {
        let ghost ord = self.order@;
        let mut taken: Option<Node<K, V>> = None;
        self.slots.set_and_swap(i, &mut taken);
        proof {
            assert forall|g: int| 0 <= g < self.free@.len() implies self.free@[g] != i by {
                assert(self.slots@.len() == old(self).slots@.len());
            }
        }
        self.free.push(i);
        proof {
            assert forall|j: int| 0 <= j < ord.len() implies {
                &&& #[trigger] ord[j] < self.slots@.len()
                &&& self.slots@[ord[j] as int] is Some
            } by {
                assert(ord[j] < old(self).slots@.len());
                assert(ord[j] != i);
            }
            assert forall|g: int| 0 <= g < self.free@.len() implies {
                &&& #[trigger] self.free@[g] < self.slots@.len()
                &&& self.slots@[self.free@[g] as int] is None
            } by {
                if g < self.free@.len() - 1 {
                    assert(self.free@[g] == old(self).free@[g]);
                }
            }
            assert(self.links_ok());
            assert(self.free_ok());
        }
        taken.unwrap()
    }
}


impl<K, V> DoublyLinkedList<K, V> {
    /// Inserts `node` at the front of the list and returns the slot that
    /// holds it.
    pub fn push_front(&mut self, node: Node<K, V>) -> (s: usize)
        requires
            old(self).wf(),
            old(self)@.len() < usize::MAX,
        ensures
            final(self).wf(),
            !old(self).order().contains(s),
            final(self).order() == seq![s] + old(self).order(),
            final(self)@ == seq![(node.key, node.value)] + old(self)@,
    {
        let ghost key = node.key;
        let ghost value = node.value;
        let s = self.occupy_slot(node);
        self.link_front(s);
        proof {
            let ord = old(self).order@;
            assert forall|j: int| 0 <= j < ord.len() implies self.slots@[ord[j] as int]
                == old(self).slots@[ord[j] as int] by {
                assert(ord[j] < old(self).slots@.len());
                assert(ord[j] != s);
            }
            assert(self@ =~= seq![(key, value)] + old(self)@);
        }
        s
    }

    /// Takes slot `i` out of the list and returns its node.
    pub fn remove(&mut self, i: usize) -> (node: Node<K, V>)
        requires
            old(self).wf(),
            old(self).order().contains(i),
        ensures
            final(self).wf(),
            final(self).order() == old(self).order().remove(old(self).order().index_of(i)),
            final(self)@ == old(self)@.remove(old(self).order().index_of(i)),
            (node.key, node.value) == old(self)@[old(self).order().index_of(i)],
    {
        let ghost p = self.order@.index_of(i);
        self.unlink(i, Ghost(p));
        proof {
            assert(!self.order@.contains(i)) by {
                assert forall|j: int| 0 <= j < self.order@.len() implies self.order@[j] != i by {
                    if j < p {
                        assert(self.order@[j] == old(self).order@[j]);
                    } else {
                        assert(self.order@[j] == old(self).order@[j + 1]);
                    }
                }
            }
            assert(old(self).order@[p] < old(self).slots@.len());
        }
        let node = self.release(i);
        proof {
            let ord = self.order@;
            assert forall|j: int| 0 <= j < ord.len() implies self.slots@[ord[j] as int]
                == old(self).slots@[ord[j] as int] by {
                assert(ord[j] < old(self).slots@.len());
                assert(ord[j] != i);
            }
            assert(self@ =~= old(self)@.remove(p));
        }
        node
    }

    /// Takes the node at the back of the list out and returns it, if any.
    pub fn pop_back(&mut self) -> (node: Option<Node<K, V>>)
        requires
            old(self).wf(),
        ensures
            final(self).wf(),
            old(self)@.len() == 0 ==> node is None && final(self)@ == old(self)@
                && final(self).order() == old(self).order(),
            old(self)@.len() > 0 ==> (node matches Some(n) && (n.key, n.value) == old(self)@.last()
                && final(self)@ == old(self)@.drop_last()
                && final(self).order() == old(self).order().drop_last()),
    {
        match self.tail {
            None => None,
            Some(t) => {
                let ghost ord = self.order@;
                let ghost p = ord.len() - 1;
                proof {
                    assert(ord[p] == t);
                    lemma_remove_last(ord);
                }
                self.unlink(t, Ghost(p));
                proof {
                    assert(!self.order@.contains(t)) by {
                        assert forall|j: int| 0 <= j < self.order@.len() implies self.order@[j]
                            != t by {
                            assert(self.order@[j] == ord[j]);
                        }
                    }
                    assert(ord[p] < old(self).slots@.len());
                }
                let node = self.release(t);
                proof {
                    let nord = self.order@;
                    assert forall|j: int| 0 <= j < nord.len() implies self.slots@[nord[j] as int]
                        == old(self).slots@[nord[j] as int] by {
                        assert(nord[j] < old(self).slots@.len());
                        assert(nord[j] != t);
                    }
                    assert(self@ =~= old(self)@.drop_last());
                }
                Some(node)
            },
        }
    }

    /// Moves slot `i` to the front of the list.
    pub fn reinsert_front(&mut self, i: usize)
        requires
            old(self).wf(),
            old(self).order().contains(i),
        ensures
            final(self).wf(),
            final(self).order() == seq![i] + old(self).order().remove(
                old(self).order().index_of(i),
            ),
            final(self)@ == seq![old(self)@[old(self).order().index_of(i)]] + old(self)@.remove(
                old(self).order().index_of(i),
            ),
    {
        let ghost p = self.order@.index_of(i);
        self.unlink(i, Ghost(p));
        proof {
            assert(!self.order@.contains(i)) by {
                assert forall|j: int| 0 <= j < self.order@.len() implies self.order@[j] != i by {
                    if j < p {
                        assert(self.order@[j] == old(self).order@[j]);
                    } else {
                        assert(self.order@[j] == old(self).order@[j + 1]);
                    }
                }
            }
            assert(old(self).order@[p] < old(self).slots@.len());
        }
        self.link_front(i);
        proof {
            assert(self@ =~= seq![old(self)@[p]] + old(self)@.remove(p));
        }
    }

    /// Stores `value` in the node of slot `i` and returns the value it held.
    pub fn replace_value(&mut self, i: usize, value: V) -> (previous: V)
        requires
            old(self).wf(),
            old(self).order().contains(i),
        ensures
            final(self).wf(),
            final(self).order() == old(self).order(),
            final(self)@ == old(self)@.update(
                old(self).order().index_of(i),
                (old(self)@[old(self).order().index_of(i)].0, value),
            ),
            previous == old(self)@[old(self).order().index_of(i)].1,
    {
        let ghost p = self.order@.index_of(i);
        proof {
            assert(self.order@[p] < self.slots@.len());
        }
        let mut taken: Option<Node<K, V>> = None;
        self.slots.set_and_swap(i, &mut taken);
        let mut node = taken.unwrap();
        let mut previous = value;
        std::mem::swap(&mut node.value, &mut previous);
        self.slots.set(i, Some(node));
        proof {
            let ord = self.order@;
            assert forall|j: int| 0 <= j < ord.len() implies {
                &&& #[trigger] ord[j] < self.slots@.len()
                &&& self.slots@[ord[j] as int] is Some
            } by {
                assert(ord[j] < old(self).slots@.len());
            }
            assert forall|g: int| 0 <= g < self.free@.len() implies {
                &&& #[trigger] self.free@[g] < self.slots@.len()
                &&& self.slots@[self.free@[g] as int] is None
            } by {
                assert(old(self).free@[g] < old(self).slots@.len());
                assert(old(self).slots@[old(self).free@[g] as int] is None);
            }
            assert(self.links_ok());
            assert(self.free_ok());
            assert(self@ =~= old(self)@.update(p, (old(self)@[p].0, value)));
        }
        previous
    }

    /// The value held by the node of slot `i`.
    pub fn value_at(&self, i: usize) -> (value: &V)
        requires
            self.wf(),
            self.order().contains(i),
        ensures
            *value == self@[self.order().index_of(i)].1,
    {
        proof {
            let p = self.order@.index_of(i);
            assert(self.order@[p] < self.slots@.len());
        }
        &self.slots[i].as_ref().unwrap().value
    }
}

} // verus!
