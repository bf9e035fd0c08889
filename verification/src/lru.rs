//! The two eviction lists of the admission pipeline: a small window LRU
//! that takes every insert, and a segmented LRU whose probationary and
//! protected stages hold the keys worth keeping. Both lists carry key
//! hashes; the items themselves live in the shared map, and an item is
//! in the map exactly when one list carries its key.

use vstd::prelude::*;

use std::collections::HashMap;

verus! {

broadcast use vstd::std_specs::hash::group_hash_axioms;

/// An item as the admission pipeline stores it: its stage (0 window,
/// 1 probationary, 2 protected), its two hashes, and the cached value.
#[derive(Clone, Copy, Debug)]
pub struct StoreItem<V> {
    pub stage: u8,
    pub key: u64,
    pub conflict: u64,
    pub value: V,
}

/// No key appears twice.
pub open spec fn distinct_keys(l: Seq<u64>) -> bool {
    forall|p: int, q: int| #![trigger l[p], l[q]] 0 <= p < q < l.len() ==> l[p] != l[q]
}

/// No key of `a` appears in `b`.
pub open spec fn disjoint_lists(a: Seq<u64>, b: Seq<u64>) -> bool {
    forall|p: int| 0 <= p < a.len() ==> !b.contains(#[trigger] a[p])
}

/// Every key of the list is bound in the map, to an item that carries
/// that key and sits in the given stage.
pub open spec fn list_in_map<V>(l: Seq<u64>, m: Map<u64, StoreItem<V>>, stage: u8) -> bool {
    forall|p: int|
        0 <= p < l.len() ==> m.contains_key(#[trigger] l[p]) && m[l[p]].stage == stage
            && m[l[p]].key == l[p]
}

/// The position of `key` in `l`.
pub open spec fn key_index(l: Seq<u64>, key: u64) -> int {
    choose|p: int| 0 <= p < l.len() && l[p] == key
}

/// The window LRU: a bounded list of key hashes, front at index 0.
#[derive(Debug)]
pub struct WindowLRU {
    pub cap: usize,
    pub list: Vec<u64>,
}

impl WindowLRU {
    /// Bounded, duplicate-free, with room for at least one key.
    pub open spec fn basic_inv(self) -> bool {
        &&& self.cap >= 1
        &&& self.list@.len() <= self.cap
        &&& distinct_keys(self.list@)
    }

    /// Pushes a fresh item to the front. When the window is full the
    /// tail key falls out and its item leaves the map.
    pub fn add<V>(&mut self, new_item: StoreItem<V>, data: &mut HashMap<u64, StoreItem<V>>) -> (r:
        Option<StoreItem<V>>)
        requires
            old(self).basic_inv(),
            list_in_map(old(self).list@, old(data)@, 0),
            new_item.stage == 0,
            !old(data)@.contains_key(new_item.key),
        ensures
            final(self).basic_inv(),
            final(self).cap == old(self).cap,
            list_in_map(final(self).list@, final(data)@, 0),
            match r {
                None => {
                    &&& old(self).list@.len() < old(self).cap
                    &&& final(self).list@ == seq![new_item.key] + old(self).list@
                    &&& final(data)@ == old(data)@.insert(new_item.key, new_item)
                },
                Some(ev) => {
                    &&& old(self).list@.len() == old(self).cap
                    &&& ev == old(data)@[old(self).list@.last()]
                    &&& ev.stage == 0 && ev.key == old(self).list@.last()
                    &&& final(self).list@ == seq![new_item.key] + old(self).list@.drop_last()
                    &&& final(data)@ == old(data)@.remove(old(self).list@.last()).insert(
                        new_item.key,
                        new_item,
                    )
                },
            },
    {
        if self.list.len() < self.cap {
            self.list.insert(0, new_item.key);
            let key = new_item.key;
            data.insert(key, new_item);
            proof {
                assert(self.list@ =~= seq![new_item.key] + old(self).list@);
                assert forall|p: int, q: int|
                    #![trigger self.list@[p], self.list@[q]]
                    0 <= p < q < self.list@.len() implies self.list@[p] != self.list@[q] by {
                    if p == 0 {
                        assert(old(self).list@[q - 1] == self.list@[q]);
                        assert(old(data)@.contains_key(old(self).list@[q - 1]));
                    }
                }
            }
            return None;
        }
        let tail: u64 = match self.list.pop() {
            Some(t) => t,
            None => {
                proof {
                    assert(false);
                }
                0
            },
        };
        proof {
            assert(tail == old(self).list@.last());
            assert(old(data)@.contains_key(tail));
        }
        let ev: StoreItem<V> = match data.remove(&tail) {
            Some(x) => x,
            None => {
                proof {
                    assert(false);
                }
                vstd::pervasive::unreached()
            },
        };
        self.list.insert(0, new_item.key);
        let key = new_item.key;
        data.insert(key, new_item);
        proof {
            assert(self.list@ =~= seq![new_item.key] + old(self).list@.drop_last());
            assert forall|p: int, q: int|
                #![trigger self.list@[p], self.list@[q]]
                0 <= p < q < self.list@.len() implies self.list@[p] != self.list@[q] by {
                if p == 0 {
                    assert(old(self).list@[q - 1] == self.list@[q]);
                    assert(old(data)@.contains_key(old(self).list@[q - 1]));
                }
            }
            assert forall|p: int|
                0 <= p < self.list@.len() implies final(data)@.contains_key(
                #[trigger] self.list@[p],
            ) && final(data)@[self.list@[p]].stage == 0 && final(data)@[self.list@[p]].key
                == self.list@[p] by {
                if p > 0 {
                    assert(self.list@[p] == old(self).list@[p - 1]);
                    assert(self.list@[p] != tail) by {
                        assert(old(self).list@[p - 1] != old(self).list@[old(self).list@.len()
                            - 1]);
                    }
                }
            }
        }
        Some(ev)
    }

    /// Takes the first occurrence of `key` out of the list and hands it
    /// back, leaving the rest in order.
    pub fn remove_item_in_list(&mut self, key: u64) -> (r: Option<u64>)
        requires
            old(self).basic_inv(),
        ensures
            final(self).basic_inv(),
            final(self).cap == old(self).cap,
            if old(self).list@.contains(key) {
                r == Some(key) && final(self).list@ == old(self).list@.remove(
                    key_index(old(self).list@, key),
                )
            } else {
                r == None::<u64> && final(self).list@ == old(self).list@
            },
    {
        let mut i: usize = 0;
        while i < self.list.len()
            invariant
                *self == *old(self),
                old(self).basic_inv(),
                i <= self.list@.len(),
                forall|q: int| 0 <= q < i ==> self.list@[q] != key,
            decreases self.list@.len() - i,
        {
            if self.list[i] == key {
                proof {
                    assert(old(self).list@.contains(key)) by {
                        assert(old(self).list@[i as int] == key);
                    }
                    let ki = key_index(old(self).list@, key);
                    assert(0 <= ki < old(self).list@.len() && old(self).list@[ki] == key);
                    assert(ki == i as int);
                    old(self).list@.remove_ensures(i as int);
                }
                self.list.remove(i);
                proof {
                    assert forall|p: int, q: int|
                        #![trigger self.list@[p], self.list@[q]]
                        0 <= p < q < self.list@.len() implies self.list@[p] != self.list@[q] by {
                        assert(self.list@[p] == (if p < i {
                            old(self).list@[p]
                        } else {
                            old(self).list@[p + 1]
                        }));
                        assert(self.list@[q] == (if q < i {
                            old(self).list@[q]
                        } else {
                            old(self).list@[q + 1]
                        }));
                    }
                }
                return Some(key);
            }
            i = i + 1;
        }
        proof {
            if old(self).list@.contains(key) {
                let p = choose|p: int|
                    0 <= p < old(self).list@.len() && old(self).list@[p] == key;
                assert(false);
            }
        }
        None
    }

    /// A hit: moves `key` to the front when the window holds it.
    pub fn get(&mut self, key: u64)
        requires
            old(self).basic_inv(),
        ensures
            final(self).basic_inv(),
            final(self).cap == old(self).cap,
            final(self).list@.len() == old(self).list@.len(),
            if old(self).list@.contains(key) {
                final(self).list@ == seq![key] + old(self).list@.remove(
                    key_index(old(self).list@, key),
                )
            } else {
                final(self).list@ == old(self).list@
            },
            forall|x: u64| final(self).list@.contains(x) == old(self).list@.contains(x),
    {
        let found = self.remove_item_in_list(key);
        match found {
            Some(k) => {
                self.list.insert(0, k);
                proof {
                    let l0 = old(self).list@;
                    let ki = key_index(l0, key);
                    assert(self.list@ =~= seq![key] + l0.remove(ki));
                    l0.remove_ensures(ki);
                    assert forall|p: int, q: int|
                        #![trigger self.list@[p], self.list@[q]]
                        0 <= p < q < self.list@.len() implies self.list@[p] != self.list@[q] by {
                        if p == 0 {
                            let rem = l0.remove(ki);
                            assert(self.list@[q] == rem[q - 1]);
                            assert(rem[q - 1] == (if q - 1 < ki {
                                l0[q - 1]
                            } else {
                                l0[q]
                            }));
                        }
                    }
                    assert forall|x: u64|
                        final(self).list@.contains(x) == l0.contains(x) by {
                        lemma_move_to_front_same_keys(l0, key, ki, self.list@);
                    }
                }
            },
            None => {
            },
        }
    }
}

/// Moving one element of a list to the front keeps exactly the same
/// keys in it.
proof fn lemma_move_to_front_same_keys(l0: Seq<u64>, key: u64, ki: int, l1: Seq<u64>)
    requires
        0 <= ki < l0.len(),
        l0[ki] == key,
        l1 == seq![key] + l0.remove(ki),
    ensures
        forall|x: u64| l1.contains(x) == l0.contains(x),
{
    l0.remove_ensures(ki);
    assert forall|x: u64| l1.contains(x) == l0.contains(x) by {
        if l1.contains(x) {
            let p = choose|p: int| 0 <= p < l1.len() && l1[p] == x;
            if p == 0 {
                assert(l0[ki] == x);
            } else if p - 1 < ki {
                assert(l0[p - 1] == x);
            } else {
                assert(l0[p] == x);
            }
            assert(l0.contains(x));
        }
        if l0.contains(x) {
            let p = choose|p: int| 0 <= p < l0.len() && l0[p] == x;
            if p == ki {
                assert(l1[0] == x);
            } else if p < ki {
                assert(l1[p + 1] == x);
            } else {
                assert(l1[p] == x);
            }
            assert(l1.contains(x));
        }
    }
}

/// A fresh, empty window of `size` slots.
pub fn new_lru(size: usize) -> (w: WindowLRU)
    requires
        size >= 1,
    ensures
        w.basic_inv(),
        w.cap == size,
        w.list@.len() == 0,
{
    WindowLRU { cap: size, list: Vec::new() }
}

/// The segmented LRU: a probationary stage and a protected stage, each
/// a bounded list of key hashes with its front at index 0.
#[derive(Debug)]
pub struct SegmentedLRU {
    pub stage_one_cap: usize,
    pub stage_two_cap: usize,
    pub stage_one: Vec<u64>,
    pub stage_two: Vec<u64>,
}

impl SegmentedLRU {
    /// Bounded, duplicate-free, disjoint stages. The probationary list
    /// may borrow unused protected room, so only the protected stage and
    /// the two together are bounded.
    pub open spec fn basic_inv(self) -> bool {
        &&& self.stage_one_cap >= 1
        &&& self.stage_two_cap >= 1
        &&& self.stage_one_cap + self.stage_two_cap <= usize::MAX
        &&& self.stage_one@.len() + self.stage_two@.len() <= self.stage_one_cap
            + self.stage_two_cap
        &&& self.stage_two@.len() <= self.stage_two_cap
        &&& distinct_keys(self.stage_one@)
        &&& distinct_keys(self.stage_two@)
        &&& disjoint_lists(self.stage_one@, self.stage_two@)
        &&& disjoint_lists(self.stage_two@, self.stage_one@)
    }

    /// Both stages' keys point at map items of the matching stage.
    pub open spec fn in_map<V>(self, m: Map<u64, StoreItem<V>>) -> bool {
        &&& list_in_map(self.stage_one@, m, 1)
        &&& list_in_map(self.stage_two@, m, 2)
    }

    /// Keys in both stages together.
    pub fn len(&self) -> (r: usize)
        requires
            self.stage_one@.len() + self.stage_two@.len() <= usize::MAX,
        ensures
            r == self.stage_one@.len() + self.stage_two@.len(),
    {
        self.stage_one.len() + self.stage_two.len()
    }

    /// Admits an item into the probationary stage. When the stage and
    /// the whole structure are full, the probationary tail is evicted
    /// and leaves the map.
    pub fn add<V>(&mut self, item: StoreItem<V>, data: &mut HashMap<u64, StoreItem<V>>) -> (r:
        Option<u64>)
        requires
            old(self).basic_inv(),
            old(self).in_map(old(data)@),
            !old(data)@.contains_key(item.key),
        ensures
            final(self).basic_inv(),
            final(self).stage_one_cap == old(self).stage_one_cap,
            final(self).stage_two_cap == old(self).stage_two_cap,
            final(self).stage_two@ == old(self).stage_two@,
            final(self).in_map(final(data)@),
            ({
                let staged = (StoreItem { stage: 1u8, ..item });
                if old(self).stage_one@.len() < old(self).stage_one_cap || old(self).stage_one@.len() + old(self).stage_two@.len() < old(self).stage_one_cap + old(self).stage_two_cap {
                    &&& r == None::<u64>
                    &&& final(self).stage_one@ == seq![item.key] + old(self).stage_one@
                    &&& final(data)@ == old(data)@.insert(item.key, staged)
                } else {
                    &&& r == Some(old(self).stage_one@.last())
                    &&& final(self).stage_one@ == seq![item.key] + old(self).stage_one@.drop_last()
                    &&& final(data)@ == old(data)@.remove(old(self).stage_one@.last()).insert(
                        item.key,
                        staged,
                    )
                }
            }),
    {
        let mut item = item;
        item.stage = 1;
        let key = item.key;
        if self.stage_one.len() < self.stage_one_cap || self.stage_one.len()
            + self.stage_two.len() < self.stage_one_cap + self.stage_two_cap {
            proof {
                assert(old(self).stage_one@.len() + old(self).stage_two@.len() < old(
                    self,
                ).stage_one_cap + old(self).stage_two_cap);
            }
            self.stage_one.insert(0, key);
            data.insert(key, item);
            proof {
                assert(self.stage_one@ =~= seq![key] + old(self).stage_one@);
                lemma_push_front_fresh(old(self).stage_one@, old(self).stage_two@, key, old(data)@);
                assert forall|p: int|
                    0 <= p < self.stage_one@.len() implies final(data)@.contains_key(
                    #[trigger] self.stage_one@[p],
                ) && final(data)@[self.stage_one@[p]].stage == 1
                    && final(data)@[self.stage_one@[p]].key == self.stage_one@[p] by {
                    if p > 0 {
                        assert(self.stage_one@[p] == old(self).stage_one@[p - 1]);
                    }
                }
                assert forall|p: int|
                    0 <= p < self.stage_two@.len() implies final(data)@.contains_key(
                    #[trigger] self.stage_two@[p],
                ) && final(data)@[self.stage_two@[p]].stage == 2
                    && final(data)@[self.stage_two@[p]].key == self.stage_two@[p] by {
                    assert(self.stage_two@[p] != key);
                }
            }
            return None;
        }
        let evicted: u64 = match self.stage_one.pop() {
            Some(t) => t,
            None => {
                proof {
                    assert(false);
                }
                0
            },
        };
        proof {
            assert(evicted == old(self).stage_one@.last());
            assert(old(data)@.contains_key(evicted));
        }
        data.remove(&evicted);
        self.stage_one.insert(0, key);
        data.insert(key, item);
        proof {
            assert(self.stage_one@ =~= seq![key] + old(self).stage_one@.drop_last());
            lemma_push_front_fresh(
                old(self).stage_one@.drop_last(),
                old(self).stage_two@,
                key,
                old(data)@,
            );
            assert forall|p: int|
                0 <= p < self.stage_one@.len() implies final(data)@.contains_key(
                #[trigger] self.stage_one@[p],
            ) && final(data)@[self.stage_one@[p]].stage == 1 && final(data)@[self.stage_one@[p]].key == self.stage_one@[p] by {
                if p > 0 {
                    assert(self.stage_one@[p] == old(self).stage_one@[p - 1]);
                    assert(self.stage_one@[p] != evicted) by {
                        assert(old(self).stage_one@[p - 1] != old(self).stage_one@[old(self).stage_one@.len() - 1]);
                    }
                }
            }
            assert forall|p: int|
                0 <= p < self.stage_two@.len() implies final(data)@.contains_key(
                #[trigger] self.stage_two@[p],
            ) && final(data)@[self.stage_two@[p]].stage == 2 && final(data)@[self.stage_two@[p]].key == self.stage_two@[p] by {
                assert(self.stage_two@[p] != evicted) by {
                    assert(old(self).stage_two@.contains(old(self).stage_one@[old(self).stage_one@.len() - 1]) == false) by {
                        assert(!old(self).stage_two@.contains(old(self).stage_one@[old(self).stage_one@.len() - 1]));
                    }
                    if self.stage_two@[p] == evicted {
                        assert(old(self).stage_two@.contains(evicted)) by {
                            assert(old(self).stage_two@[p] == evicted);
                        }
                    }
                }
                assert(self.stage_two@[p] != key);
            }
        }
        Some(evicted)
    }

    /// The candidate the admission check would sacrifice: the
    /// probationary tail, but only once the structure is full.
    pub fn victim(&self) -> (r: Option<u64>)
        requires
            self.basic_inv(),
        ensures
            if self.stage_one@.len() + self.stage_two@.len() < self.stage_one_cap
                + self.stage_two_cap {
                r == None::<u64>
            } else {
                r == Some(self.stage_one@.last()) && self.stage_one@.len() > 0
            },
    {
        if self.stage_one.len() + self.stage_two.len() < self.stage_one_cap
            + self.stage_two_cap {
            return None;
        }
        proof {
            assert(self.stage_one@.len() > 0);
        }
        Some(self.stage_one[self.stage_one.len() - 1])
    }

    /// Takes the first occurrence of `key` out of the probationary
    /// stage, leaving the rest in order.
    pub fn remove_item_in_stage_one(&mut self, key: u64) -> (r: Option<u64>)
        requires
            old(self).basic_inv(),
        ensures
            final(self).basic_inv(),
            final(self).stage_one_cap == old(self).stage_one_cap,
            final(self).stage_two_cap == old(self).stage_two_cap,
            final(self).stage_two@ == old(self).stage_two@,
            if old(self).stage_one@.contains(key) {
                r == Some(key) && final(self).stage_one@ == old(self).stage_one@.remove(
                    key_index(old(self).stage_one@, key),
                )
            } else {
                r == None::<u64> && final(self).stage_one@ == old(self).stage_one@
            },
    {
        let mut i: usize = 0;
        while i < self.stage_one.len()
            invariant
                *self == *old(self),
                old(self).basic_inv(),
                i <= self.stage_one@.len(),
                forall|q: int| 0 <= q < i ==> self.stage_one@[q] != key,
            decreases self.stage_one@.len() - i,
        {
            if self.stage_one[i] == key {
                proof {
                    assert(old(self).stage_one@.contains(key)) by {
                        assert(old(self).stage_one@[i as int] == key);
                    }
                    let ki = key_index(old(self).stage_one@, key);
                    assert(0 <= ki < old(self).stage_one@.len() && old(self).stage_one@[ki]
                        == key);
                    assert(ki == i as int);
                    old(self).stage_one@.remove_ensures(i as int);
                }
                self.stage_one.remove(i);
                proof {
                    let l0 = old(self).stage_one@;
                    assert forall|p: int, q: int|
                        #![trigger self.stage_one@[p], self.stage_one@[q]]
                        0 <= p < q < self.stage_one@.len() implies self.stage_one@[p]
                        != self.stage_one@[q] by {
                        assert(self.stage_one@[p] == (if p < i {
                            l0[p]
                        } else {
                            l0[p + 1]
                        }));
                        assert(self.stage_one@[q] == (if q < i {
                            l0[q]
                        } else {
                            l0[q + 1]
                        }));
                    }
                    assert forall|p: int|
                        0 <= p < self.stage_one@.len() implies !old(self).stage_two@.contains(
                        #[trigger] self.stage_one@[p],
                    ) by {
                        assert(self.stage_one@[p] == (if p < i {
                            l0[p]
                        } else {
                            l0[p + 1]
                        }));
                    }
                    assert forall|p: int|
                        0 <= p < self.stage_two@.len() implies !self.stage_one@.contains(
                        #[trigger] self.stage_two@[p],
                    ) by {
                        if self.stage_one@.contains(self.stage_two@[p]) {
                            let q = choose|q: int|
                                0 <= q < self.stage_one@.len() && self.stage_one@[q]
                                    == self.stage_two@[p];
                            assert(l0.contains(self.stage_two@[p])) by {
                                if q < i {
                                    assert(l0[q] == self.stage_two@[p]);
                                } else {
                                    assert(l0[q + 1] == self.stage_two@[p]);
                                }
                            }
                        }
                    }
                }
                return Some(key);
            }
            i = i + 1;
        }
        proof {
            if old(self).stage_one@.contains(key) {
                let p = choose|p: int|
                    0 <= p < old(self).stage_one@.len() && old(self).stage_one@[p] == key;
                assert(false);
            }
        }
        None
    }
}

/// What a hit on a segmented-stage key does to the two stages and the
/// shared map, case by case: a protected key moves to the protected
/// front; a probationary key is promoted straight in while the
/// protected stage has room, and otherwise trades places with the
/// demoted protected tail, which can push an over-borrowed
/// probationary tail out entirely.
pub open spec fn promote_shape<V>(
    s0: SegmentedLRU,
    s1: SegmentedLRU,
    m0: Map<u64, StoreItem<V>>,
    m1: Map<u64, StoreItem<V>>,
    key: u64,
) -> bool {
    let it = m0[key];
    let one0 = s0.stage_one@;
    let two0 = s0.stage_two@;
    &&& s1.stage_one_cap == s0.stage_one_cap
    &&& s1.stage_two_cap == s0.stage_two_cap
    &&& if it.stage == 2 {
        &&& s1.stage_two@ == seq![key] + two0.remove(key_index(two0, key))
        &&& s1.stage_one@ == one0
        &&& m1 == m0
    } else if two0.len() < s0.stage_two_cap {
        &&& s1.stage_one@ == one0.remove(key_index(one0, key))
        &&& s1.stage_two@ == seq![key] + two0
        &&& m1 == m0.insert(key, (StoreItem { stage: 2u8, ..it }))
    } else {
        let demoted = two0.last();
        let one1 = one0.remove(key_index(one0, key));
        &&& s1.stage_two@ == seq![key] + two0.drop_last()
        &&& (if one1.len() >= s0.stage_one_cap {
            s1.stage_one@ == seq![demoted] + one1.drop_last() && m1 == m0.insert(
                key,
                (StoreItem { stage: 2u8, ..it }),
            ).remove(demoted).remove(one1.last()).insert(
                demoted,
                (StoreItem { stage: 1u8, ..m0[demoted] }),
            )
        } else {
            s1.stage_one@ == seq![demoted] + one1 && m1 == m0.insert(
                key,
                (StoreItem { stage: 2u8, ..it }),
            ).remove(demoted).insert(demoted, (StoreItem { stage: 1u8, ..m0[demoted] }))
        })
    }
}

impl SegmentedLRU {
    /// Takes the first occurrence of `key` out of the protected stage,
    /// leaving the rest in order.
    pub(crate) fn remove_item_in_stage_two(&mut self, key: u64) -> (r: Option<u64>)
        requires
            old(self).basic_inv(),
        ensures
            final(self).basic_inv(),
            final(self).stage_one_cap == old(self).stage_one_cap,
            final(self).stage_two_cap == old(self).stage_two_cap,
            final(self).stage_one@ == old(self).stage_one@,
            if old(self).stage_two@.contains(key) {
                r == Some(key) && final(self).stage_two@ == old(self).stage_two@.remove(
                    key_index(old(self).stage_two@, key),
                )
            } else {
                r == None::<u64> && final(self).stage_two@ == old(self).stage_two@
            },
    {
        let mut i: usize = 0;
        while i < self.stage_two.len()
            invariant
                *self == *old(self),
                old(self).basic_inv(),
                i <= self.stage_two@.len(),
                forall|q: int| 0 <= q < i ==> self.stage_two@[q] != key,
            decreases self.stage_two@.len() - i,
        {
            if self.stage_two[i] == key {
                proof {
                    assert(old(self).stage_two@.contains(key)) by {
                        assert(old(self).stage_two@[i as int] == key);
                    }
                    let ki = key_index(old(self).stage_two@, key);
                    assert(0 <= ki < old(self).stage_two@.len() && old(self).stage_two@[ki]
                        == key);
                    assert(ki == i as int);
                    old(self).stage_two@.remove_ensures(i as int);
                }
                self.stage_two.remove(i);
                proof {
                    let l0 = old(self).stage_two@;
                    assert forall|p: int, q: int|
                        #![trigger self.stage_two@[p], self.stage_two@[q]]
                        0 <= p < q < self.stage_two@.len() implies self.stage_two@[p]
                        != self.stage_two@[q] by {
                        assert(self.stage_two@[p] == (if p < i {
                            l0[p]
                        } else {
                            l0[p + 1]
                        }));
                        assert(self.stage_two@[q] == (if q < i {
                            l0[q]
                        } else {
                            l0[q + 1]
                        }));
                    }
                    assert forall|p: int|
                        0 <= p < self.stage_two@.len() implies !old(self).stage_one@.contains(
                        #[trigger] self.stage_two@[p],
                    ) by {
                        assert(self.stage_two@[p] == (if p < i {
                            l0[p]
                        } else {
                            l0[p + 1]
                        }));
                    }
                    assert forall|p: int|
                        0 <= p < self.stage_one@.len() implies !self.stage_two@.contains(
                        #[trigger] self.stage_one@[p],
                    ) by {
                        if self.stage_two@.contains(self.stage_one@[p]) {
                            let q = choose|q: int|
                                0 <= q < self.stage_two@.len() && self.stage_two@[q]
                                    == self.stage_one@[p];
                            assert(l0.contains(self.stage_one@[p])) by {
                                if q < i {
                                    assert(l0[q] == self.stage_one@[p]);
                                } else {
                                    assert(l0[q + 1] == self.stage_one@[p]);
                                }
                            }
                        }
                    }
                }
                return Some(key);
            }
            i = i + 1;
        }
        proof {
            if old(self).stage_two@.contains(key) {
                let p = choose|p: int|
                    0 <= p < old(self).stage_two@.len() && old(self).stage_two@[p] == key;
                assert(false);
            }
        }
        None
    }

    /// A hit on `key`. A protected key moves to the protected front. A
    /// probationary key is promoted: straight in while the protected
    /// stage has room, else it trades places with the protected tail,
    /// which is demoted to the probationary front (evicting that
    /// stage's tail when even the borrowed room is gone).
    #[verifier::rlimit(100)]
    #[verifier::spinoff_prover]
    pub fn get<V>(&mut self, key: u64, data: &mut HashMap<u64, StoreItem<V>>)
        requires
            old(self).basic_inv(),
            old(self).in_map(old(data)@),
            old(data)@.contains_key(key),
            old(data)@[key].stage == 1 || old(data)@[key].stage == 2,
            old(data)@[key].stage == 1 ==> old(self).stage_one@.contains(key),
            old(data)@[key].stage == 2 ==> old(self).stage_two@.contains(key),
        ensures
            final(self).basic_inv(),
            final(self).stage_one_cap == old(self).stage_one_cap,
            final(self).stage_two_cap == old(self).stage_two_cap,
            final(self).in_map(final(data)@),
            promote_shape(*old(self), *final(self), old(data)@, final(data)@, key),
    {
        let stage: u8 = match data.get(&key) {
            Some(it) => it.stage,
            None => {
                proof {
                    assert(false);
                }
                0
            },
        };
        if stage == 2 {
            self.remove_item_in_stage_two(key);
            self.stage_two.insert(0, key);
            proof {
                let two0 = old(self).stage_two@;
                let ki = key_index(two0, key);
                two0.remove_ensures(ki);
                assert(self.stage_two@ =~= seq![key] + two0.remove(ki));
                lemma_move_to_front_same_keys(two0, key, ki, self.stage_two@);
                assert forall|p: int, q: int|
                    #![trigger self.stage_two@[p], self.stage_two@[q]]
                    0 <= p < q < self.stage_two@.len() implies self.stage_two@[p]
                    != self.stage_two@[q] by {
                    if p == 0 {
                        let rem = two0.remove(ki);
                        assert(self.stage_two@[q] == rem[q - 1]);
                        assert(rem[q - 1] == (if q - 1 < ki {
                            two0[q - 1]
                        } else {
                            two0[q]
                        }));
                    }
                }
                assert forall|p: int|
                    0 <= p < self.stage_two@.len() implies !self.stage_one@.contains(
                    #[trigger] self.stage_two@[p],
                ) by {
                    assert(two0.contains(self.stage_two@[p]));
                    let q = choose|q: int| 0 <= q < two0.len() && two0[q] == self.stage_two@[p];
                    assert(!self.stage_one@.contains(two0[q]));
                }
                assert forall|p: int|
                    0 <= p < self.stage_one@.len() implies !self.stage_two@.contains(
                    #[trigger] self.stage_one@[p],
                ) by {
                    if self.stage_two@.contains(self.stage_one@[p]) {
                        assert(two0.contains(self.stage_one@[p]));
                    }
                }
                assert forall|p: int|
                    0 <= p < self.stage_two@.len() implies final(data)@.contains_key(
                    #[trigger] self.stage_two@[p],
                ) && final(data)@[self.stage_two@[p]].stage == 2
                    && final(data)@[self.stage_two@[p]].key == self.stage_two@[p] by {
                    assert(two0.contains(self.stage_two@[p]));
                    let q = choose|q: int| 0 <= q < two0.len() && two0[q] == self.stage_two@[p];
                }
            }
            return ;
        }
        proof {
            assert(old(data)@[key].stage == 1);
            assert(old(self).stage_one@.contains(key));
        }
        if self.stage_two.len() < self.stage_two_cap {
            self.remove_item_in_stage_one(key);
            let it: StoreItem<V> = match data.remove(&key) {
                Some(x) => x,
                None => {
                    proof {
                        assert(false);
                    }
                    vstd::pervasive::unreached()
                },
            };
            let mut it = it;
            it.stage = 2;
            self.stage_two.insert(0, key);
            data.insert(key, it);
            proof {
                let one0 = old(self).stage_one@;
                let two0 = old(self).stage_two@;
                let ki = key_index(one0, key);
                one0.remove_ensures(ki);
                assert(self.stage_two@ =~= seq![key] + two0);
                assert(final(data)@ =~= old(data)@.insert(
                    key,
                    (StoreItem { stage: 2u8, ..old(data)@[key] }),
                ));
                assert forall|p: int, q: int|
                    #![trigger self.stage_two@[p], self.stage_two@[q]]
                    0 <= p < q < self.stage_two@.len() implies self.stage_two@[p]
                    != self.stage_two@[q] by {
                    if p == 0 {
                        assert(self.stage_two@[q] == two0[q - 1]);
                        assert(!two0.contains(key)) by {
                            if two0.contains(key) {
                                let w = choose|w: int| 0 <= w < two0.len() && two0[w] == key;
                                assert(old(data)@[two0[w]].stage == 2);
                            }
                        }
                        assert(two0.contains(two0[q - 1]));
                    }
                }
                assert forall|p: int|
                    0 <= p < self.stage_one@.len() implies !self.stage_two@.contains(
                    #[trigger] self.stage_one@[p],
                ) && final(data)@.contains_key(self.stage_one@[p]) && final(data)@[self.stage_one@[p]].stage == 1 && final(data)@[self.stage_one@[p]].key
                    == self.stage_one@[p] by {
                    assert(self.stage_one@[p] == (if p < ki {
                        one0[p]
                    } else {
                        one0[p + 1]
                    }));
                    assert(one0.contains(self.stage_one@[p]));
                    assert(self.stage_one@[p] != key) by {
                        let pp = if p < ki {
                            p
                        } else {
                            p + 1
                        };
                        assert(one0[pp] != one0[ki] || pp == ki);
                    }
                    if self.stage_two@.contains(self.stage_one@[p]) {
                        let q = choose|q: int|
                            0 <= q < self.stage_two@.len() && self.stage_two@[q]
                                == self.stage_one@[p];
                        if q > 0 {
                            assert(two0.contains(self.stage_one@[p])) by {
                                assert(two0[q - 1] == self.stage_one@[p]);
                            }
                        }
                    }
                }
                assert forall|p: int|
                    0 <= p < self.stage_two@.len() implies !self.stage_one@.contains(
                    #[trigger] self.stage_two@[p],
                ) && final(data)@.contains_key(self.stage_two@[p]) && final(data)@[self.stage_two@[p]].stage == 2 && final(data)@[self.stage_two@[p]].key
                    == self.stage_two@[p] by {
                    if p > 0 {
                        assert(self.stage_two@[p] == two0[p - 1]);
                        assert(two0.contains(self.stage_two@[p]));
                        assert(self.stage_two@[p] != key) by {
                            if two0.contains(key) {
                                let w = choose|w: int| 0 <= w < two0.len() && two0[w] == key;
                                assert(old(data)@[two0[w]].stage == 2);
                            }
                            assert(two0[p - 1] == self.stage_two@[p]);
                        }
                    }
                    if self.stage_one@.contains(self.stage_two@[p]) {
                        let q = choose|q: int|
                            0 <= q < self.stage_one@.len() && self.stage_one@[q]
                                == self.stage_two@[p];
                        assert(one0.contains(self.stage_two@[p])) by {
                            assert(self.stage_one@[q] == (if q < ki {
                                one0[q]
                            } else {
                                one0[q + 1]
                            }));
                        }
                        if p == 0 {
                            assert(one0.contains(key));
                            assert(false) by {
                                let w = choose|w: int|
                                    0 <= w < self.stage_one@.len() && self.stage_one@[w] == key;
                                let wp = if w < ki {
                                    w
                                } else {
                                    w + 1
                                };
                                assert(one0[wp] == key && one0[ki] == key);
                                assert(wp != ki);
                            }
                        } else {
                            assert(two0.contains(self.stage_two@[p])) by {
                                assert(two0[p - 1] == self.stage_two@[p]);
                            }
                        }
                    }
                }
            }
            return ;
        }
        // the protected stage is full: trade with its tail
        let demoted: u64 = match self.stage_two.pop() {
            Some(t) => t,
            None => {
                proof {
                    assert(false);
                }
                0
            },
        };
        self.remove_item_in_stage_one(key);
        let ghost one1 = old(self).stage_one@.remove(key_index(old(self).stage_one@, key));
        let it: StoreItem<V> = match data.remove(&key) {
            Some(x) => x,
            None => {
                proof {
                    assert(false);
                }
                vstd::pervasive::unreached()
            },
        };
        let mut it = it;
        it.stage = 2;
        self.stage_two.insert(0, key);
        data.insert(key, it);
        let oit: StoreItem<V> = match data.remove(&demoted) {
            Some(x) => x,
            None => {
                proof {
                    assert(old(self).stage_two@.contains(demoted)) by {
                        assert(old(self).stage_two@.last() == demoted);
                    }
                    assert(demoted != key);
                    assert(false);
                }
                vstd::pervasive::unreached()
            },
        };
        let mut oit = oit;
        oit.stage = 1;
        if self.stage_one.len() >= self.stage_one_cap {
            let ev: u64 = match self.stage_one.pop() {
                Some(t) => t,
                None => {
                    proof {
                        assert(false);
                    }
                    0
                },
            };
            data.remove(&ev);
            proof {
                assert(ev == one1.last());
            }
        }
        self.stage_one.insert(0, demoted);
        data.insert(demoted, oit);
        proof {
            let m0 = old(data)@;
            let it2 = (StoreItem { stage: 2u8, ..m0[key] });
            let it1 = (StoreItem { stage: 1u8, ..m0[demoted] });
            assert(self.stage_two@ =~= seq![key] + old(self).stage_two@.drop_last());
            if one1.len() >= old(self).stage_one_cap {
                assert(self.stage_one@ =~= seq![demoted] + one1.drop_last());
                assert(data@ =~= m0.insert(key, it2).remove(demoted).remove(one1.last()).insert(
                    demoted,
                    it1,
                ));
            } else {
                assert(self.stage_one@ =~= seq![demoted] + one1);
                assert(data@ =~= m0.insert(key, it2).remove(demoted).insert(demoted, it1));
            }
            lemma_slru_demote(*old(self), *self, old(data)@, data@, key, demoted, one1);
        }
    }
}

/// After the protected-full promotion — `key` traded for the demoted
/// protected tail, with a possible probationary eviction — the stages
/// are still sound and the map matches them.
#[verifier::rlimit(100)]
#[verifier::spinoff_prover]
proof fn lemma_slru_demote<V>(
    s0: SegmentedLRU,
    s2: SegmentedLRU,
    m0: Map<u64, StoreItem<V>>,
    m2: Map<u64, StoreItem<V>>,
    key: u64,
    demoted: u64,
    one1: Seq<u64>,
)
    requires
        s0.basic_inv(),
        s0.in_map(m0),
        m0.contains_key(key),
        m0[key].stage == 1,
        s0.stage_one@.contains(key),
        s0.stage_two@.len() >= s0.stage_two_cap,
        s0.stage_two@.len() > 0,
        demoted == s0.stage_two@.last(),
        one1 == s0.stage_one@.remove(key_index(s0.stage_one@, key)),
        s2.stage_one_cap == s0.stage_one_cap,
        s2.stage_two_cap == s0.stage_two_cap,
        s2.stage_two@ == seq![key] + s0.stage_two@.drop_last(),
        (if one1.len() >= s0.stage_one_cap {
            one1.len() > 0 && s2.stage_one@ == seq![demoted] + one1.drop_last() && m2
                == m0.insert(key, (StoreItem { stage: 2u8, ..m0[key] })).remove(demoted).remove(
                one1.last(),
            ).insert(demoted, (StoreItem { stage: 1u8, ..m0[demoted] }))
        } else {
            s2.stage_one@ == seq![demoted] + one1 && m2 == m0.insert(
                key,
                (StoreItem { stage: 2u8, ..m0[key] }),
            ).remove(demoted).insert(demoted, (StoreItem { stage: 1u8, ..m0[demoted] }))
        }),
    ensures
        s2.basic_inv(),
        s2.in_map(m2),
{
    let one0 = s0.stage_one@;
    let two0 = s0.stage_two@;
    let ki = key_index(one0, key);
    assert(0 <= ki < one0.len() && one0[ki] == key);
    one0.remove_ensures(ki);
    assert(two0.contains(demoted)) by {
        assert(two0[two0.len() - 1] == demoted);
    }
    assert(m0.contains_key(demoted) && m0[demoted].stage == 2 && m0[demoted].key == demoted) by {
        assert(two0[two0.len() - 1] == demoted);
    }
    assert(demoted != key);
    assert(!one0.contains(demoted)) by {
        if one0.contains(demoted) {
            let q = choose|q: int| 0 <= q < one0.len() && one0[q] == demoted;
            assert(!two0.contains(one0[q]));
        }
    }
    assert(!two0.contains(key)) by {
        if two0.contains(key) {
            let q = choose|q: int| 0 <= q < two0.len() && two0[q] == key;
            assert(m0[two0[q]].stage == 2);
        }
    }
    // every key of the reduced probationary list was already there,
    // distinct from key, demoted, and each other
    assert forall|p: int|
        0 <= p < one1.len() implies one0.contains(#[trigger] one1[p]) && one1[p] != key && one1[p]
        != demoted && !two0.contains(one1[p]) by {
        assert(one1[p] == (if p < ki {
            one0[p]
        } else {
            one0[p + 1]
        }));
        let pp = if p < ki {
            p
        } else {
            p + 1
        };
        assert(one0[pp] == one1[p]);
        assert(one0.contains(one1[p]));
        assert(one1[p] != key) by {
            assert(pp != ki);
            assert(one0[pp] != one0[ki] || pp == ki);
        }
        assert(!two0.contains(one0[pp]));
    }
    assert forall|p: int, q: int|
        #![trigger one1[p], one1[q]]
        0 <= p < q < one1.len() implies one1[p] != one1[q] by {
        let pp = if p < ki {
            p
        } else {
            p + 1
        };
        let qq = if q < ki {
            q
        } else {
            q + 1
        };
        assert(one1[p] == one0[pp] && one1[q] == one0[qq]);
    }
    // the protected stage after the trade
    let two2 = s2.stage_two@;
    assert forall|p: int|
        0 <= p < two2.len() implies (p == 0 ==> two2[p] == key) && (p > 0 ==> two2[p] == two0[p
        - 1] && two2[p] != demoted && two0.contains(two2[p]) && two2[p] != key) by {
        if p > 0 {
            assert(two2[p] == two0[p - 1]);
            assert(two0.contains(two0[p - 1]));
            assert(two0[p - 1] != two0[two0.len() - 1]);
        }
    }
    assert forall|p: int, q: int|
        #![trigger two2[p], two2[q]]
        0 <= p < q < two2.len() implies two2[p] != two2[q] by {
        if p > 0 {
            assert(two0[p - 1] != two0[q - 1]);
        }
    }
    if one1.len() >= s0.stage_one_cap {
        let ev = one1.last();
        let one2 = s2.stage_one@;
        assert(one1.contains(ev)) by {
            assert(one1[one1.len() - 1] == ev);
        }
        assert forall|p: int|
            0 <= p < one2.len() implies (p == 0 ==> one2[p] == demoted) && (p > 0 ==> one2[p]
            == one1[p - 1] && one2[p] != ev && one1.contains(one2[p])) by {
            if p > 0 {
                assert(one2[p] == one1.drop_last()[p - 1]);
                assert(one1.drop_last()[p - 1] == one1[p - 1]);
                assert(one1[p - 1] != one1[one1.len() - 1]);
                assert(one1.contains(one1[p - 1]));
            }
        }
        assert forall|p: int, q: int|
            #![trigger one2[p], one2[q]]
            0 <= p < q < one2.len() implies one2[p] != one2[q] by {
            if p == 0 {
                assert(one2[q] == one1[q - 1]);
                assert(one1.contains(one1[q - 1]));
            } else {
                assert(one1[p - 1] != one1[q - 1]);
            }
        }
        assert forall|p: int| 0 <= p < one2.len() implies !two2.contains(#[trigger] one2[p]) by {
            if two2.contains(one2[p]) {
                let q = choose|q: int| 0 <= q < two2.len() && two2[q] == one2[p];
                if p == 0 {
                    assert(two2[q] == demoted);
                    if q > 0 {
                        assert(two2[q] != demoted);
                    }
                } else {
                    assert(one1.contains(one2[p]) && !two0.contains(one2[p]) && one2[p] != key);
                    if q > 0 {
                        assert(two0.contains(two2[q]));
                    }
                }
            }
        }
        assert forall|p: int| 0 <= p < two2.len() implies !one2.contains(#[trigger] two2[p]) by {
            if one2.contains(two2[p]) {
                let q = choose|q: int| 0 <= q < one2.len() && one2[q] == two2[p];
                assert(!two2.contains(one2[q]));
            }
        }
        assert forall|p: int|
            0 <= p < one2.len() implies m2.contains_key(#[trigger] one2[p]) && m2[one2[p]].stage
            == 1 && m2[one2[p]].key == one2[p] by {
            if p == 0 {
            } else {
                assert(one1.contains(one2[p]) && one2[p] != key && one2[p] != demoted && one2[p]
                    != ev);
                assert(one0.contains(one2[p]));
                let w = choose|w: int| 0 <= w < one0.len() && one0[w] == one2[p];
                assert(m0.contains_key(one0[w]) && m0[one0[w]].stage == 1);
            }
        }
        assert forall|p: int|
            0 <= p < two2.len() implies m2.contains_key(#[trigger] two2[p]) && m2[two2[p]].stage
            == 2 && m2[two2[p]].key == two2[p] by {
            if p > 0 {
                assert(two0.contains(two2[p]) && two2[p] != demoted && two2[p] != key);
                assert(two2[p] != ev) by {
                    assert(one1.contains(ev) && !two0.contains(ev));
                }
                let w = choose|w: int| 0 <= w < two0.len() && two0[w] == two2[p];
                assert(m0.contains_key(two0[w]) && m0[two0[w]].stage == 2);
            }
        }
        assert(s2.basic_inv());
    } else {
        let one2 = s2.stage_one@;
        assert forall|p: int|
            0 <= p < one2.len() implies (p == 0 ==> one2[p] == demoted) && (p > 0 ==> one2[p]
            == one1[p - 1] && one1.contains(one2[p])) by {
            if p > 0 {
                assert(one1.contains(one1[p - 1]));
            }
        }
        assert forall|p: int, q: int|
            #![trigger one2[p], one2[q]]
            0 <= p < q < one2.len() implies one2[p] != one2[q] by {
            if p == 0 {
                assert(one1.contains(one1[q - 1]));
            } else {
                assert(one1[p - 1] != one1[q - 1]);
            }
        }
        assert forall|p: int| 0 <= p < one2.len() implies !two2.contains(#[trigger] one2[p]) by {
            if two2.contains(one2[p]) {
                let q = choose|q: int| 0 <= q < two2.len() && two2[q] == one2[p];
                if p == 0 {
                    if q > 0 {
                        assert(two2[q] != demoted);
                    }
                } else {
                    assert(one1.contains(one2[p]) && !two0.contains(one2[p]) && one2[p] != key);
                    if q > 0 {
                        assert(two0.contains(two2[q]));
                    }
                }
            }
        }
        assert forall|p: int| 0 <= p < two2.len() implies !one2.contains(#[trigger] two2[p]) by {
            if one2.contains(two2[p]) {
                let q = choose|q: int| 0 <= q < one2.len() && one2[q] == two2[p];
                assert(!two2.contains(one2[q]));
            }
        }
        assert forall|p: int|
            0 <= p < one2.len() implies m2.contains_key(#[trigger] one2[p]) && m2[one2[p]].stage
            == 1 && m2[one2[p]].key == one2[p] by {
            if p == 0 {
            } else {
                assert(one1.contains(one2[p]) && one2[p] != key && one2[p] != demoted);
                assert(one0.contains(one2[p]));
                let w = choose|w: int| 0 <= w < one0.len() && one0[w] == one2[p];
                assert(m0.contains_key(one0[w]) && m0[one0[w]].stage == 1);
            }
        }
        assert forall|p: int|
            0 <= p < two2.len() implies m2.contains_key(#[trigger] two2[p]) && m2[two2[p]].stage
            == 2 && m2[two2[p]].key == two2[p] by {
            if p > 0 {
                assert(two0.contains(two2[p]) && two2[p] != demoted && two2[p] != key);
                let w = choose|w: int| 0 <= w < two0.len() && two0[w] == two2[p];
                assert(m0.contains_key(two0[w]) && m0[two0[w]].stage == 2);
            }
        }
        assert(s2.basic_inv());
    }
}

/// Pushing a fresh key onto the probationary front keeps both stages
/// duplicate-free and disjoint.
proof fn lemma_push_front_fresh<V>(
    one: Seq<u64>,
    two: Seq<u64>,
    key: u64,
    m: Map<u64, StoreItem<V>>,
)
    requires
        distinct_keys(one),
        distinct_keys(two),
        disjoint_lists(one, two),
        disjoint_lists(two, one),
        list_in_map(one, m, 1),
        list_in_map(two, m, 2),
        !m.contains_key(key),
    ensures
        distinct_keys(seq![key] + one),
        disjoint_lists(seq![key] + one, two),
        disjoint_lists(two, seq![key] + one),
{
    let l = seq![key] + one;
    assert forall|p: int, q: int|
        #![trigger l[p], l[q]]
        0 <= p < q < l.len() implies l[p] != l[q] by {
        if p == 0 {
            assert(l[q] == one[q - 1]);
            assert(m.contains_key(one[q - 1]));
        }
    }
    assert forall|p: int| 0 <= p < l.len() implies !two.contains(#[trigger] l[p]) by {
        if p == 0 {
            if two.contains(key) {
                let q = choose|q: int| 0 <= q < two.len() && two[q] == key;
                assert(m.contains_key(two[q]));
            }
        } else {
            assert(l[p] == one[p - 1]);
        }
    }
    assert forall|p: int| 0 <= p < two.len() implies !l.contains(#[trigger] two[p]) by {
        if l.contains(two[p]) {
            let q = choose|q: int| 0 <= q < l.len() && l[q] == two[p];
            if q == 0 {
                assert(m.contains_key(two[p]));
            } else {
                assert(one[q - 1] == two[p]);
                assert(!one.contains(two[p])) by {
                    assert(!two.contains(one[q - 1])) by {
                        assert(two[p] == one[q - 1]);
                    }
                }
                assert(one.contains(two[p])) by {
                    assert(one[q - 1] == two[p]);
                }
            }
        }
    }
}

/// A fresh, empty segmented LRU with the two stage bounds.
pub fn new_slru(stage_one_cap: usize, stage_two_cap: usize) -> (s: SegmentedLRU)
    requires
        stage_one_cap >= 1,
        stage_two_cap >= 1,
        stage_one_cap + stage_two_cap <= usize::MAX,
    ensures
        s.basic_inv(),
        s.stage_one_cap == stage_one_cap,
        s.stage_two_cap == stage_two_cap,
        s.stage_one@.len() == 0,
        s.stage_two@.len() == 0,
{
    SegmentedLRU {
        stage_one_cap,
        stage_two_cap,
        stage_one: Vec::new(),
        stage_two: Vec::new(),
    }
}

} // verus!
