//! The cache facade: hashes keys twice, stores items in a map shared by
//! a window LRU and a segmented LRU, and admits window victims into the
//! segmented stage by comparing sketch frequencies, with a Bloom
//! doorkeeper dropping one-hit wonders. A tick counter can age the
//! sketch and clear the doorkeeper.

use vstd::prelude::*;

use std::collections::HashMap;
use std::collections::hash_map::DefaultHasher;
use std::hash::{Hash, Hasher};

verus! {

broadcast use vstd::std_specs::hash::group_hash_axioms;

use crate::bloom::{BloomFilter, init_filter, all_probes_set, bit_set};
use crate::counter::{CMSketch, rows_view, inc_view, halved_view, est_view, CM_DEPTH};
use crate::lru::{
    WindowLRU,
    SegmentedLRU,
    StoreItem,
    new_lru,
    new_slru,
    list_in_map,
    key_index,
    promote_shape,
};
use vstd::arithmetic::power2::pow2;

/// The in-process cache: the two eviction lists, the doorkeeper, the
/// frequency sketch, the tick counter with its threshold, and the item
/// map they all share.
pub struct Cache<V> {
    pub lru: WindowLRU,
    pub slru: SegmentedLRU,
    pub watch_dog: BloomFilter,
    pub c: CMSketch,
    pub t: i32,
    pub threshold: i32,
    pub data: HashMap<u64, StoreItem<V>>,
}

/// Everything one store call does to the cache, as a relation between
/// the state before, the state after, the two hashes, the value and the
/// answer; `set_hashed` ensures it of its own arguments, and `set` of
/// the pair its hashing produced.
pub open spec fn set_transition<V>(
    s0: Cache<V>,
    s1: Cache<V>,
    key_hash: u64,
    conflict_hash: u64,
    value: V,
    r: bool,
) -> bool {
    &&& s1.lru.cap == s0.lru.cap
    &&& s1.slru.stage_one_cap == s0.slru.stage_one_cap
    &&& s1.slru.stage_two_cap == s0.slru.stage_two_cap
    &&& s1.t == s0.t && s1.threshold == s0.threshold
    &&& s1.c == s0.c
    &&& ({
                let m0 = s0.data@;
                let w0 = s0.lru.list@;
                let one0 = s0.slru.stage_one@;
                let two0 = s0.slru.stage_two@;
                let item = (StoreItem { stage: 0u8, key: key_hash, conflict: conflict_hash, value });
                if m0.contains_key(key_hash) {
                    &&& s1.watch_dog == s0.watch_dog
                    &&& s1.lru.list@ == w0
                    &&& s1.slru.stage_one@ == one0
                    &&& s1.slru.stage_two@ == two0
                    &&& (if m0[key_hash].conflict == conflict_hash {
                        r == true && s1.data@ == m0.insert(
                            key_hash,
                            (StoreItem { value: value, ..m0[key_hash] }),
                        )
                    } else {
                        r == false && s1.data@ == m0
                    })
                } else if w0.len() < s0.lru.cap {
                    &&& r == true
                    &&& s1.watch_dog == s0.watch_dog
                    &&& s1.lru.list@ == seq![key_hash] + w0
                    &&& s1.slru.stage_one@ == one0
                    &&& s1.slru.stage_two@ == two0
                    &&& s1.data@ == m0.insert(key_hash, item)
                } else {
                    let victim = w0.last();
                    let lvi = m0[victim];
                    let m1 = m0.remove(victim).insert(key_hash, item);
                    &&& s1.lru.list@ == seq![key_hash] + w0.drop_last()
                    &&& s1.slru.stage_two@ == two0
                    &&& (if one0.len() + two0.len() < s0.slru.stage_one_cap + s0.slru.stage_two_cap {
                        &&& r == true
                        &&& s1.watch_dog == s0.watch_dog
                        &&& s1.slru.stage_one@ == seq![victim] + one0
                        &&& s1.data@ == m1.insert(
                            victim,
                            (StoreItem { stage: 1u8, ..lvi }),
                        )
                    } else {
                        let seen = all_probes_set(
                            s0.watch_dog.bitmap@,
                            (victim as u32),
                            s0.watch_dog.k,
                            s0.watch_dog.bits(),
                        );
                        let lc = est_view(
                            rows_view(s0.c.rows@),
                            s0.c.idxs(victim),
                            CM_DEPTH as int,
                        );
                        let sc = est_view(
                            rows_view(s0.c.rows@),
                            s0.c.idxs(one0.last()),
                            CM_DEPTH as int,
                        );
                        &&& s1.watch_dog.k == s0.watch_dog.k
                        &&& s1.watch_dog.bitmap@.len() == s0.watch_dog.bitmap@.len()
                        &&& all_probes_set(
                            s1.watch_dog.bitmap@,
                            (victim as u32),
                            s0.watch_dog.k,
                            s0.watch_dog.bits(),
                        )
                        &&& (forall|pos: int|
                            0 <= pos < s0.watch_dog.bits() && bit_set(
                                s0.watch_dog.bitmap@,
                                pos,
                            ) ==> bit_set(s1.watch_dog.bitmap@, pos))
                        &&& (if !seen || lc < sc {
                            &&& r == true
                            &&& s1.slru.stage_one@ == one0
                            &&& s1.data@ == m1
                        } else {
                            &&& r == false
                            &&& s1.slru.stage_one@ == seq![victim] + one0.drop_last()
                            &&& s1.data@ == m1.remove(one0.last()).insert(
                                victim,
                                (StoreItem { stage: 1u8, ..lvi }),
                            )
                        })
                    })
                }
            })
}

/// Everything one lookup call does to the cache, as a relation between
/// the state before, the state after, the two hashes and the answer:
/// the tick and the aging at the threshold, the hit condition, the
/// cloned value, the promotion within the stage's list, the doorkeeper
/// and sketch updates, and the single possible over-borrow eviction.
pub open spec fn get_transition<V: Clone>(
    s0: Cache<V>,
    s1: Cache<V>,
    key_hash: u64,
    conflict_hash: u64,
    r: Option<V>,
) -> bool {
    let m0 = s0.data@;
    let hit = m0.contains_key(key_hash) && m0[key_hash].conflict == conflict_hash;
    let t1: i32 = if s0.t == i32::MAX {
        i32::MIN
    } else {
        (s0.t + 1) as i32
    };
    let ticked = t1 == s0.threshold;
    &&& s1.lru.cap == s0.lru.cap
    &&& s1.slru.stage_one_cap == s0.slru.stage_one_cap
    &&& s1.slru.stage_two_cap == s0.slru.stage_two_cap
    &&& s1.threshold == s0.threshold
    &&& s1.c.seed == s0.c.seed && s1.c.mask == s0.c.mask
    &&& s1.t == (if ticked {
        0i32
    } else {
        t1
    })
    &&& (r is Some <==> hit)
    &&& (r matches Some(v) ==> vstd::pervasive::cloned::<V>(m0[key_hash].value, v))
    &&& (forall|k: u64|
        s1.data@.contains_key(k) ==> m0.contains_key(k) && (#[trigger] s1.data@[k]).value
            == m0[k].value && s1.data@[k].conflict == m0[k].conflict && s1.data@[k].key
            == m0[k].key)
    &&& (hit ==> s1.data@.contains_key(key_hash))
    &&& (hit && m0[key_hash].stage == 0 ==> s1.lru.list@ == seq![key_hash]
        + s0.lru.list@.remove(key_index(s0.lru.list@, key_hash)) && s1.slru == s0.slru
        && s1.data@ == m0)
    &&& (hit && m0[key_hash].stage != 0 ==> promote_shape(
        s0.slru,
        s1.slru,
        m0,
        s1.data@,
        key_hash,
    ) && s1.lru == s0.lru)
    &&& (!hit ==> s1.data@ == m0 && s1.lru == s0.lru && s1.slru == s0.slru)
    &&& (s1.data@.dom() == m0.dom() || (hit && m0[key_hash].stage == 1 && s1.data@.dom()
        == m0.dom().remove(
        s0.slru.stage_one@.remove(key_index(s0.slru.stage_one@, key_hash)).last(),
    )))
    &&& (!hit && !ticked ==> s1.c == s0.c && s1.watch_dog == s0.watch_dog)
    &&& (hit && !ticked ==> rows_view(s1.c.rows@) == inc_view(
        rows_view(s0.c.rows@),
        s0.c.idxs(key_hash),
    ))
    &&& (hit && ticked ==> rows_view(s1.c.rows@) == inc_view(
        halved_view(rows_view(s0.c.rows@)),
        s0.c.idxs(key_hash),
    ))
    &&& (!hit && ticked ==> rows_view(s1.c.rows@) == halved_view(rows_view(s0.c.rows@)) && (
    forall|pos: int| 0 <= pos < s0.watch_dog.bits() ==> !bit_set(s1.watch_dog.bitmap@, pos)))
    &&& (hit ==> all_probes_set(
        s1.watch_dog.bitmap@,
        (key_hash as u32),
        s0.watch_dog.k,
        s0.watch_dog.bits(),
    ))
    &&& s1.watch_dog.k == s0.watch_dog.k
    &&& s1.watch_dog.bitmap@.len() == s0.watch_dog.bitmap@.len()
}

/// Everything one delete call does to the cache, as a relation between
/// the state before, the state after, the two hashes and the answer:
/// a hit leaves the map and exactly the list its stage named; a miss or
/// a conflict mismatch changes nothing; the doorkeeper, the sketch and
/// the tick counter are never touched.
pub open spec fn del_transition<V>(
    s0: Cache<V>,
    s1: Cache<V>,
    key_hash: u64,
    conflict_hash: u64,
    r: Option<u64>,
) -> bool {
    let m0 = s0.data@;
    let w0 = s0.lru.list@;
    let one0 = s0.slru.stage_one@;
    let two0 = s0.slru.stage_two@;
    &&& s1.lru.cap == s0.lru.cap
    &&& s1.slru.stage_one_cap == s0.slru.stage_one_cap
    &&& s1.slru.stage_two_cap == s0.slru.stage_two_cap
    &&& s1.t == s0.t && s1.threshold == s0.threshold
    &&& s1.c == s0.c && s1.watch_dog == s0.watch_dog
    &&& if m0.contains_key(key_hash) && m0[key_hash].conflict == conflict_hash {
        &&& r == Some(m0[key_hash].conflict)
        &&& s1.data@ == m0.remove(key_hash)
        &&& s1.lru.list@ == (if m0[key_hash].stage == 0 {
            w0.remove(key_index(w0, key_hash))
        } else {
            w0
        })
        &&& s1.slru.stage_one@ == (if m0[key_hash].stage == 1 {
            one0.remove(key_index(one0, key_hash))
        } else {
            one0
        })
        &&& s1.slru.stage_two@ == (if m0[key_hash].stage == 2 {
            two0.remove(key_index(two0, key_hash))
        } else {
            two0
        })
    } else {
        &&& r == None::<u64>
        &&& s1.data@ == m0
        &&& s1.lru.list@ == w0
        &&& s1.slru.stage_one@ == one0
        &&& s1.slru.stage_two@ == two0
    }
}

impl<V> Cache<V> {
    /// The facade invariant: each part is sound, every listed key is a
    /// cached item of the matching stage, and every cached item's key
    /// lies in the list its stage names.
    pub open spec fn wf(self) -> bool {
        &&& self.lru.basic_inv()
        &&& self.slru.basic_inv()
        &&& self.watch_dog.wf()
        &&& self.c.wf()
        &&& list_in_map(self.lru.list@, self.data@, 0)
        &&& self.slru.in_map(self.data@)
        &&& forall|k: u64|
            self.data@.contains_key(k) ==> {
                let stg = (#[trigger] self.data@[k]).stage;
                &&& (stg == 0 || stg == 1 || stg == 2)
                &&& (stg == 0 ==> self.lru.list@.contains(k))
                &&& (stg == 1 ==> self.slru.stage_one@.contains(k))
                &&& (stg == 2 ==> self.slru.stage_two@.contains(k))
            }
    }

    /// Hashes the key twice: a primary hash for lookup and a conflict
    /// hash to spot collisions on the primary.
    ///
    /// Relies on std::hash::DefaultHasher and xxhash_rust::xxh3::Xxh3:
    /// both hashers start from fixed default states, so each result is
    /// a function of the key's `Hash` implementation alone; nothing
    /// more is promised of the two values.
    #[verifier::external_body]
    pub fn key_to_hash<K: Hash + ?Sized>(&self, k: &K) -> (u64, u64) {
        let mut hasher = DefaultHasher::new();
        k.hash(&mut hasher);
        let h1 = hasher.finish();
        let mut hasher2 = xxhash_rust::xxh3::Xxh3::default();
        k.hash(&mut hasher2);
        let h2 = hasher2.finish();
        (h1, h2)
    }

    /// How many items are cached.
    pub fn len(&self) -> (r: usize)
        ensures
            r == self.data@.len(),
    {
        self.data.len()
    }

    /// Builds a cache for about `size` resident items: one percent of
    /// the slots in the window, the rest split one to four between the
    /// probationary and protected stages; a doorkeeper sized at ten
    /// bits and six probes per key (the closed-form sizing for a one
    /// percent false-positive target) and a sketch of `size` counters.
    /// At least three slots are demanded so that each piece gets a
    /// counter or a slot of its own; the two products bound the sizing
    /// arithmetic of the doorkeeper and the stage split.
    pub fn new(size: usize) -> (c: Cache<V>)
        requires
            3 <= size,
            size * 99 <= usize::MAX,
            size * 10 <= u32::MAX - 16,
        ensures
            c.wf(),
            c.data@ == Map::<u64, StoreItem<V>>::empty(),
            c.lru.cap == (if size / 100 >= 1 {
                size / 100
            } else {
                1
            }),
            ({
                let slru_sz = (if (size * 99) / 100 >= 1 {
                    (size * 99) / 100
                } else {
                    1
                });
                let s1cap = (if slru_sz / 5 >= 1 {
                    slru_sz / 5
                } else {
                    1
                });
                c.slru.stage_one_cap == s1cap && c.slru.stage_two_cap == slru_sz - s1cap
            }),
            c.watch_dog.k == 6,
            c.watch_dog.bitmap@.len() == ((if size * 10 < 64 {
                64int
            } else {
                (size * 10) as int
            }) + 7) / 8 + 1,
            forall|pos: int| 0 <= pos < c.watch_dog.bits() ==> !bit_set(c.watch_dog.bitmap@, pos),
            size <= c.c.mask + 1 < 2 * size,
            exists|k: nat| k <= 63 && c.c.mask + 1 == pow2(k),
            forall|r: int, m: int|
                0 <= r < CM_DEPTH && 0 <= m < rows_view(c.c.rows@)[r].len() ==> rows_view(
                    c.c.rows@,
                )[r][m] == 0,
            c.lru.list@.len() == 0,
            c.slru.stage_one@.len() == 0,
            c.slru.stage_two@.len() == 0,
            c.t == 0 && c.threshold == 0,
    {
        let lru_sz: usize = if size / 100 >= 1 {
            size / 100
        } else {
            1
        };
        let slru_sz: usize = if (size * 99) / 100 >= 1 {
            (size * 99) / 100
        } else {
            1
        };
        let slru_one: usize = if slru_sz / 5 >= 1 {
            slru_sz / 5
        } else {
            1
        };
        let slru_two: usize = slru_sz - slru_one;
        proof {
            assert(slru_sz >= 2);
            assert(slru_one <= slru_sz - 1);
        }
        let c = Cache {
            lru: new_lru(lru_sz),
            slru: new_slru(slru_one, slru_two),
            watch_dog: init_filter(size, 10, 6),
            c: crate::counter::new(size as u64),
            t: 0,
            threshold: 0,
            data: HashMap::new(),
        };
        c
    }
    /// Stores a value under its two hashes. A hash already cached has
    /// its value swapped in place (or is refused on a conflict-hash
    /// mismatch). A fresh hash enters the window; the window's victim,
    /// if any, is admitted into the probationary stage while there is
    /// room, and otherwise must first have been seen by the doorkeeper
    /// and then estimate at least as frequent as the probationary tail,
    /// which it then evicts. Only that last, admitting path answers
    /// false.
    #[verifier::rlimit(100)]
    #[verifier::spinoff_prover]
    pub fn set_hashed(&mut self, key_hash: u64, conflict_hash: u64, value: V) -> (r: bool)
        requires
            old(self).wf(),
        ensures
            final(self).wf(),
            set_transition(*old(self), *final(self), key_hash, conflict_hash, value, r),
    {
        let contains: bool = self.data.contains_key(&key_hash);
        if contains {
            let it: StoreItem<V> = match self.data.remove(&key_hash) {
                Some(x) => x,
                None => {
                    proof {
                        assert(false);
                    }
                    vstd::pervasive::unreached()
                },
            };
            if it.conflict != conflict_hash {
                self.data.insert(key_hash, it);
                proof {
                    assert(self.data@ =~= old(self).data@);
                }
                return false;
            }
            let mut it = it;
            it.value = value;
            self.data.insert(key_hash, it);
            proof {
                let m0 = old(self).data@;
                assert(self.data@ =~= m0.insert(
                    key_hash,
                    (StoreItem { value: value, ..m0[key_hash] }),
                ));
                assert forall|k: u64| self.data@.contains_key(k) implies {
                    let stg = (#[trigger] self.data@[k]).stage;
                    &&& (stg == 0 || stg == 1 || stg == 2)
                    &&& (stg == 0 ==> self.lru.list@.contains(k))
                    &&& (stg == 1 ==> self.slru.stage_one@.contains(k))
                    &&& (stg == 2 ==> self.slru.stage_two@.contains(k))
                } by {
                    assert(m0.contains_key(k));
                    assert(self.data@[k].stage == m0[k].stage);
                }
                assert forall|p: int|
                    0 <= p < self.lru.list@.len() implies self.data@.contains_key(
                    #[trigger] self.lru.list@[p],
                ) && self.data@[self.lru.list@[p]].stage == 0
                    && self.data@[self.lru.list@[p]].key == self.lru.list@[p] by {}
                assert forall|p: int|
                    0 <= p < self.slru.stage_one@.len() implies self.data@.contains_key(
                    #[trigger] self.slru.stage_one@[p],
                ) && self.data@[self.slru.stage_one@[p]].stage == 1
                    && self.data@[self.slru.stage_one@[p]].key == self.slru.stage_one@[p] by {}
                assert forall|p: int|
                    0 <= p < self.slru.stage_two@.len() implies self.data@.contains_key(
                    #[trigger] self.slru.stage_two@[p],
                ) && self.data@[self.slru.stage_two@[p]].stage == 2
                    && self.data@[self.slru.stage_two@[p]].key == self.slru.stage_two@[p] by {}
            }
            return true;
        }
        let item = StoreItem { stage: 0, key: key_hash, conflict: conflict_hash, value };
        let lv_opt = self.lru.add(item, &mut self.data);
        let lv: StoreItem<V> = match lv_opt {
            None => {
                proof {
                    lemma_cache_wf_after_window(*old(self), *self, key_hash);
                }
                return true;
            },
            Some(x) => x,
        };
        proof {
            lemma_cache_wf_after_window(*old(self), *self, key_hash);
            assert(lv.key == old(self).lru.list@.last());
        }
        let ghost s_mid = *self;
        let sv = self.slru.victim();
        match sv {
            None => {
                self.slru.add(lv, &mut self.data);
                proof {
                    lemma_cache_wf_after_admit(s_mid, *self, lv.key);
                }
                return true;
            },
            Some(svk) => {
                let seen: bool = self.watch_dog.allow(lv.key as u32);
                proof {
                    assert(self.data@ == s_mid.data@ && self.lru == s_mid.lru && self.slru
                        == s_mid.slru);
                }
                if !seen {
                    return true;
                }
                let lru_count: i64 = self.c.estimate(lv.key);
                let slru_count: i64 = self.c.estimate(svk);
                if lru_count < slru_count {
                    return true;
                }
                proof {
                    assert(s_mid.slru.stage_one@.len() >= s_mid.slru.stage_one_cap);
                }
                self.slru.add(lv, &mut self.data);
                proof {
                    lemma_cache_wf_after_admit(s_mid, *self, lv.key);
                }
                return false;
            },
        }
    }

    /// Stores a value under `key`. The key's own `Hash` impl decides the
    /// two hashes, so the contract holds for whatever pair came back:
    /// the whole store transition happened for some hash pair.
    pub fn set<K: Hash + ?Sized>(&mut self, key: &K, value: V) -> (r: bool)
        requires
            old(self).wf(),
        ensures
            final(self).wf(),
            final(self).lru.cap == old(self).lru.cap,
            final(self).slru.stage_one_cap == old(self).slru.stage_one_cap,
            final(self).slru.stage_two_cap == old(self).slru.stage_two_cap,
            final(self).t == old(self).t && final(self).threshold == old(self).threshold,
            final(self).c == old(self).c,
            exists|kh: u64, ch: u64|
                #[trigger] set_transition(*old(self), *final(self), kh, ch, value, r),
    {
        let (key_hash, conflict_hash) = self.key_to_hash(key);
        let r = self.set_hashed(key_hash, conflict_hash, value);
        proof {
            assert(set_transition(*old(self), *self, key_hash, conflict_hash, value, r));
        }
        r
    }

    /// Looks the two hashes up. A hit needs the primary hash cached and
    /// the conflict hash to match; it bumps the doorkeeper and the
    /// sketch, promotes the item within its list, and hands back a
    /// clone of the value. Every tick advances the counter first, and
    /// on reaching the threshold ages the sketch and clears the
    /// doorkeeper. No key appears, no value changes, and at most one
    /// over-borrowed probationary key falls out.
    #[verifier::rlimit(100)]
    #[verifier::spinoff_prover]
    pub fn get_hashed(&mut self, key_hash: u64, conflict_hash: u64) -> (r: Option<V>) where
        V: Clone,

        requires
            old(self).wf(),
        ensures
            final(self).wf(),
            get_transition(*old(self), *final(self), key_hash, conflict_hash, r),
    {
        let t1: i32 = self.t.wrapping_add(1);
        self.t = t1;
        if t1 == self.threshold {
            self.c.reset();
            self.watch_dog.reset();
            self.t = 0;
        }
        let ghost s_tick = *self;
        let (stg, cfl): (u8, u64) = match self.data.get(&key_hash) {
            Some(it) => (it.stage, it.conflict),
            None => {
                return None;
            },
        };
        if cfl != conflict_hash {
            return None;
        }
        self.watch_dog.allow(key_hash as u32);
        self.c.increment(key_hash);
        proof {
            assert(self.data@ == old(self).data@ && self.lru == old(self).lru && self.slru
                == old(self).slru);
        }
        let ghost s_mid = *self;
        if stg == 0 {
            self.lru.get(key_hash);
            proof {
                assert forall|p: int|
                    0 <= p < self.lru.list@.len() implies self.data@.contains_key(
                    #[trigger] self.lru.list@[p],
                ) && self.data@[self.lru.list@[p]].stage == 0 && self.data@[self.lru.list@[p]].key
                    == self.lru.list@[p] by {
                    assert(s_mid.lru.list@.contains(self.lru.list@[p]));
                    let q = choose|q: int|
                        0 <= q < s_mid.lru.list@.len() && s_mid.lru.list@[q]
                            == self.lru.list@[p];
                }
                assert forall|k: u64| self.data@.contains_key(k) implies {
                    let s = (#[trigger] self.data@[k]).stage;
                    &&& (s == 0 || s == 1 || s == 2)
                    &&& (s == 0 ==> self.lru.list@.contains(k))
                    &&& (s == 1 ==> self.slru.stage_one@.contains(k))
                    &&& (s == 2 ==> self.slru.stage_two@.contains(k))
                } by {
                    if self.data@[k].stage == 0 {
                        assert(s_mid.lru.list@.contains(k));
                    }
                }
            }
        } else {
            proof {
                assert(old(self).data@[key_hash].stage == stg);
                assert(stg == 1 || stg == 2);
            }
            self.slru.get(key_hash, &mut self.data);
            proof {
                lemma_cache_wf_after_promote(s_mid, *self, key_hash);
            }
        }
        let v: V = match self.data.get(&key_hash) {
            Some(it) => it.value.clone(),
            None => {
                proof {
                    assert(false);
                }
                vstd::pervasive::unreached()
            },
        };
        Some(v)
    }

    /// Looks `key` up. The key's own `Hash` impl decides the two
    /// hashes, so the contract holds for whatever pair came back: the
    /// whole lookup transition — tick, hit test, promotion, doorkeeper
    /// and sketch updates — happened for some hash pair, and no cached
    /// value, conflict hash or key binding was altered by it.
    pub fn get<K: Hash + ?Sized>(&mut self, key: &K) -> (r: Option<V>) where V: Clone,
        requires
            old(self).wf(),
        ensures
            final(self).wf(),
            final(self).lru.cap == old(self).lru.cap,
            final(self).slru.stage_one_cap == old(self).slru.stage_one_cap,
            final(self).slru.stage_two_cap == old(self).slru.stage_two_cap,
            final(self).threshold == old(self).threshold,
            final(self).c.seed == old(self).c.seed && final(self).c.mask == old(self).c.mask,
            forall|k: u64|
                final(self).data@.contains_key(k) ==> old(self).data@.contains_key(k) && (
                #[trigger] final(self).data@[k]).value == old(self).data@[k].value && final(self).data@[k].conflict == old(self).data@[k].conflict && final(self).data@[k].key
                    == old(self).data@[k].key,
            exists|kh: u64, ch: u64|
                #[trigger] get_transition(*old(self), *final(self), kh, ch, r),
    {
        let (key_hash, conflict_hash) = self.key_to_hash(key);
        let r = self.get_hashed(key_hash, conflict_hash);
        proof {
            assert(get_transition(*old(self), *self, key_hash, conflict_hash, r));
        }
        r
    }

    /// Drops the item the two hashes name: gone from the map and from
    /// whichever list its stage named; everything else stays. Answers
    /// the stored conflict hash, or nothing on a miss or a conflict
    /// mismatch.
    #[verifier::rlimit(100)]
    #[verifier::spinoff_prover]
    pub fn del_hashed(&mut self, key_hash: u64, conflict_hash: u64) -> (r: Option<u64>)
        requires
            old(self).wf(),
        ensures
            final(self).wf(),
            del_transition(*old(self), *final(self), key_hash, conflict_hash, r),
    {
        let (stg, cfl): (u8, u64) = match self.data.get(&key_hash) {
            Some(it) => (it.stage, it.conflict),
            None => {
                return None;
            },
        };
        if cfl != conflict_hash {
            return None;
        }
        self.data.remove(&key_hash);
        if stg == 0 {
            self.lru.remove_item_in_list(key_hash);
        } else if stg == 1 {
            self.slru.remove_item_in_stage_one(key_hash);
        } else {
            self.slru.remove_item_in_stage_two(key_hash);
        }
        proof {
            lemma_cache_wf_after_del(*old(self), *self, key_hash);
        }
        Some(cfl)
    }

    /// Drops the item cached under `key`. The key's own `Hash` impl
    /// decides the two hashes, so the contract holds for whatever pair
    /// came back: the whole delete transition happened for some hash
    /// pair, and the doorkeeper, sketch and tick counter stand as they
    /// were.
    pub fn del<K: Hash + ?Sized>(&mut self, key: &K) -> (r: Option<u64>)
        requires
            old(self).wf(),
        ensures
            final(self).wf(),
            final(self).lru.cap == old(self).lru.cap,
            final(self).slru.stage_one_cap == old(self).slru.stage_one_cap,
            final(self).slru.stage_two_cap == old(self).slru.stage_two_cap,
            final(self).t == old(self).t && final(self).threshold == old(self).threshold,
            final(self).c == old(self).c && final(self).watch_dog == old(self).watch_dog,
            exists|kh: u64, ch: u64|
                #[trigger] del_transition(*old(self), *final(self), kh, ch, r),
    {
        let (key_hash, conflict_hash) = self.key_to_hash(key);
        let r = self.del_hashed(key_hash, conflict_hash);
        proof {
            assert(del_transition(*old(self), *self, key_hash, conflict_hash, r));
        }
        r
    }
}

/// Capacity law: in a well-formed cache the window never exceeds its
/// bound, the protected stage never exceeds its bound, and the two
/// segmented stages together never exceed their combined bound (the
/// probationary stage alone may borrow unused protected room).
pub proof fn lemma_cache_capacities<V>(c: Cache<V>)
    requires
        c.wf(),
    ensures
        c.lru.list@.len() <= c.lru.cap,
        c.slru.stage_two@.len() <= c.slru.stage_two_cap,
        c.slru.stage_one@.len() + c.slru.stage_two@.len() <= c.slru.stage_one_cap
            + c.slru.stage_two_cap,
{
}

/// Map and list consistency law: a key is cached exactly when one of
/// the three lists carries it, and then only the list its stage names
/// carries it.
pub proof fn lemma_cache_map_list_consistency<V>(c: Cache<V>, k: u64)
    requires
        c.wf(),
    ensures
        c.data@.contains_key(k) <==> (c.lru.list@.contains(k) || c.slru.stage_one@.contains(k)
            || c.slru.stage_two@.contains(k)),
        c.lru.list@.contains(k) ==> !c.slru.stage_one@.contains(k)
            && !c.slru.stage_two@.contains(k),
        c.slru.stage_one@.contains(k) ==> !c.lru.list@.contains(k)
            && !c.slru.stage_two@.contains(k),
        c.slru.stage_two@.contains(k) ==> !c.lru.list@.contains(k)
            && !c.slru.stage_one@.contains(k),
{
    if c.data@.contains_key(k) {
        let stg = c.data@[k].stage;
        assert(stg == 0 || stg == 1 || stg == 2);
    }
    if c.lru.list@.contains(k) {
        let p = choose|p: int| 0 <= p < c.lru.list@.len() && c.lru.list@[p] == k;
        assert(c.data@.contains_key(k) && c.data@[k].stage == 0);
    }
    if c.slru.stage_one@.contains(k) {
        let p = choose|p: int| 0 <= p < c.slru.stage_one@.len() && c.slru.stage_one@[p] == k;
        assert(c.data@.contains_key(k) && c.data@[k].stage == 1);
    }
    if c.slru.stage_two@.contains(k) {
        let p = choose|p: int| 0 <= p < c.slru.stage_two@.len() && c.slru.stage_two@[p] == k;
        assert(c.data@.contains_key(k) && c.data@[k].stage == 2);
    }
}

/// After a probationary or protected hit was promoted by the segmented
/// stage, the facade invariant holds again.
#[verifier::rlimit(100)]
#[verifier::spinoff_prover]
proof fn lemma_cache_wf_after_promote<V>(s0: Cache<V>, s1: Cache<V>, key_hash: u64)
    requires
        s0.wf(),
        s0.data@.contains_key(key_hash),
        s0.data@[key_hash].stage == 1 || s0.data@[key_hash].stage == 2,
        s1.lru == s0.lru,
        s1.watch_dog == s0.watch_dog,
        s1.c == s0.c,
        s1.t == s0.t && s1.threshold == s0.threshold,
        s1.slru.basic_inv(),
        s1.slru.stage_one_cap == s0.slru.stage_one_cap,
        s1.slru.stage_two_cap == s0.slru.stage_two_cap,
        s1.slru.in_map(s1.data@),
        promote_shape(s0.slru, s1.slru, s0.data@, s1.data@, key_hash),
    ensures
        s1.wf(),
        s1.data@.contains_key(key_hash),
        forall|k: u64|
            s1.data@.contains_key(k) ==> s0.data@.contains_key(k) && (
            #[trigger] s1.data@[k]).value == s0.data@[k].value && s1.data@[k].conflict
                == s0.data@[k].conflict && s1.data@[k].key == s0.data@[k].key,
        s1.data@.dom() == s0.data@.dom() || (s0.data@[key_hash].stage == 1
            && s1.data@.dom() == s0.data@.dom().remove(
            s0.slru.stage_one@.remove(key_index(s0.slru.stage_one@, key_hash)).last(),
        )),
{
    let m0 = s0.data@;
    let it = m0[key_hash];
    let one0 = s0.slru.stage_one@;
    let two0 = s0.slru.stage_two@;
    // the window's keys are untouched by any of the three cases: the
    // touched keys all carry segmented stages
    assert forall|p: int|
        0 <= p < s1.lru.list@.len() implies s1.data@.contains_key(#[trigger] s1.lru.list@[p])
        && s1.data@[s1.lru.list@[p]].stage == 0 && s1.data@[s1.lru.list@[p]].key
        == s1.lru.list@[p] by {
        let k = s1.lru.list@[p];
        assert(m0.contains_key(k) && m0[k].stage == 0 && m0[k].key == k);
        assert(k != key_hash);
        if it.stage == 1 && !(two0.len() < s0.slru.stage_two_cap) {
            let demoted = two0.last();
            let one1 = one0.remove(key_index(one0, key_hash));
            assert(k != demoted) by {
                if k == demoted {
                    assert(m0[k].stage == 2) by {
                        assert(two0[two0.len() - 1] == demoted);
                    }
                }
            }
            if one1.len() >= s0.slru.stage_one_cap {
                assert(k != one1.last()) by {
                    one0.remove_ensures(key_index(one0, key_hash));
                    let ki = key_index(one0, key_hash);
                    let li = one1.len() - 1;
                    assert(one1[li] == (if li < ki {
                        one0[li]
                    } else {
                        one0[li + 1]
                    }));
                    if k == one1.last() {
                        assert(one0.contains(k)) by {
                            if li < ki {
                                assert(one0[li] == k);
                            } else {
                                assert(one0[li + 1] == k);
                            }
                        }
                        let w = choose|w: int| 0 <= w < one0.len() && one0[w] == k;
                        assert(m0[k].stage == 1);
                    }
                }
            }
        }
    }
    // every cached key still lies in the list its stage names
    assert forall|k: u64| s1.data@.contains_key(k) implies {
        let stg = (#[trigger] s1.data@[k]).stage;
        &&& (stg == 0 || stg == 1 || stg == 2)
        &&& (stg == 0 ==> s1.lru.list@.contains(k))
        &&& (stg == 1 ==> s1.slru.stage_one@.contains(k))
        &&& (stg == 2 ==> s1.slru.stage_two@.contains(k))
    } by {
        lemma_promote_key_cases(s0, s1, key_hash, k);
    }
    assert(s1.wf());
    assert forall|k: u64|
        s1.data@.contains_key(k) implies s0.data@.contains_key(k) && (
    #[trigger] s1.data@[k]).value == s0.data@[k].value && s1.data@[k].conflict
        == s0.data@[k].conflict && s1.data@[k].key == s0.data@[k].key by {
        lemma_promote_key_cases(s0, s1, key_hash, k);
    }
    if it.stage == 1 && !(two0.len() < s0.slru.stage_two_cap) {
        let one1 = one0.remove(key_index(one0, key_hash));
        if one1.len() >= s0.slru.stage_one_cap {
            assert(s1.data@.dom() =~= m0.dom().remove(one1.last()));
        } else {
            assert(s1.data@.dom() =~= m0.dom());
        }
    } else if it.stage == 1 {
        assert(s1.data@.dom() =~= m0.dom());
    } else {
        assert(s1.data@.dom() =~= m0.dom());
    }
}

/// Where one key stands after the promotion, case by case.
#[verifier::rlimit(100)]
#[verifier::spinoff_prover]
proof fn lemma_promote_key_cases<V>(s0: Cache<V>, s1: Cache<V>, key_hash: u64, k: u64)
    requires
        s0.wf(),
        s0.data@.contains_key(key_hash),
        s0.data@[key_hash].stage == 1 || s0.data@[key_hash].stage == 2,
        s1.lru == s0.lru,
        s1.slru.basic_inv(),
        s1.slru.in_map(s1.data@),
        promote_shape(s0.slru, s1.slru, s0.data@, s1.data@, key_hash),
        s1.data@.contains_key(k),
    ensures
        s0.data@.contains_key(k),
        s1.data@[k].value == s0.data@[k].value,
        s1.data@[k].conflict == s0.data@[k].conflict,
        s1.data@[k].key == s0.data@[k].key,
        ({
            let stg = s1.data@[k].stage;
            &&& (stg == 0 || stg == 1 || stg == 2)
            &&& (stg == 0 ==> s1.lru.list@.contains(k))
            &&& (stg == 1 ==> s1.slru.stage_one@.contains(k))
            &&& (stg == 2 ==> s1.slru.stage_two@.contains(k))
        }),
{
    let m0 = s0.data@;
    let it = m0[key_hash];
    let one0 = s0.slru.stage_one@;
    let two0 = s0.slru.stage_two@;
    if it.stage == 2 {
        let ki = key_index(two0, key_hash);
        two0.remove_ensures(ki);
        assert(0 <= ki < two0.len() && two0[ki] == key_hash);
        if k == key_hash {
            assert(s1.slru.stage_two@[0] == k);
            assert(s1.slru.stage_two@.contains(k));
        } else {
            assert(s1.data@[k] == m0[k]);
            if m0[k].stage == 1 {
                assert(one0.contains(k));
            } else if m0[k].stage == 2 {
                let p = choose|p: int| 0 <= p < two0.len() && two0[p] == k;
                assert(p != ki);
                if p < ki {
                    assert(s1.slru.stage_two@[p + 1] == k);
                } else {
                    assert(s1.slru.stage_two@[p] == k);
                }
                assert(s1.slru.stage_two@.contains(k));
            }
        }
    } else {
        let ki = key_index(one0, key_hash);
        assert(one0.contains(key_hash));
        one0.remove_ensures(ki);
        assert(0 <= ki < one0.len() && one0[ki] == key_hash);
        let one1 = one0.remove(ki);
        if two0.len() < s0.slru.stage_two_cap {
            if k == key_hash {
                assert(s1.slru.stage_two@[0] == k);
                assert(s1.slru.stage_two@.contains(k));
            } else {
                assert(s1.data@[k] == m0[k]);
                if m0[k].stage == 1 {
                    let p = choose|p: int| 0 <= p < one0.len() && one0[p] == k;
                    assert(p != ki);
                    if p < ki {
                        assert(s1.slru.stage_one@[p] == k);
                    } else {
                        assert(s1.slru.stage_one@[p - 1] == k);
                    }
                    assert(s1.slru.stage_one@.contains(k));
                } else if m0[k].stage == 2 {
                    let p = choose|p: int| 0 <= p < two0.len() && two0[p] == k;
                    assert(s1.slru.stage_two@[p + 1] == k);
                    assert(s1.slru.stage_two@.contains(k));
                }
            }
        } else {
            let demoted = two0.last();
            assert(two0.contains(demoted)) by {
                assert(two0[two0.len() - 1] == demoted);
            }
            assert(m0.contains_key(demoted) && m0[demoted].stage == 2) by {
                assert(two0[two0.len() - 1] == demoted);
            }
            assert(demoted != key_hash);
            let evicting = one1.len() >= s0.slru.stage_one_cap;
            if k == key_hash {
                assert(s1.slru.stage_two@[0] == k);
                assert(s1.slru.stage_two@.contains(k));
            } else if k == demoted {
                assert(s1.slru.stage_one@[0] == k);
                assert(s1.slru.stage_one@.contains(k));
            } else {
                assert(s1.data@[k] == m0[k]);
                if m0[k].stage == 1 {
                    let p = choose|p: int| 0 <= p < one0.len() && one0[p] == k;
                    assert(p != ki);
                    let p1 = if p < ki {
                        p
                    } else {
                        p - 1
                    };
                    assert(one1[p1] == k);
                    if evicting {
                        assert(p1 < one1.len() - 1) by {
                            if p1 == one1.len() - 1 {
                                assert(!s1.data@.contains_key(k)) by {
                                    assert(one1.last() == k);
                                    assert(k != key_hash && k != demoted);
                                }
                            }
                        }
                        assert(s1.slru.stage_one@[p1 + 1] == one1.drop_last()[p1]);
                        assert(one1.drop_last()[p1] == one1[p1]);
                    } else {
                        assert(s1.slru.stage_one@[p1 + 1] == k);
                    }
                    assert(s1.slru.stage_one@.contains(k));
                } else if m0[k].stage == 2 {
                    let p = choose|p: int| 0 <= p < two0.len() && two0[p] == k;
                    assert(p < two0.len() - 1) by {
                        if p == two0.len() - 1 {
                            assert(k == demoted);
                        }
                    }
                    assert(s1.slru.stage_two@[p + 1] == two0.drop_last()[p]);
                    assert(two0.drop_last()[p] == k);
                    assert(s1.slru.stage_two@.contains(k));
                }
            }
        }
    }
}

/// After a delete took a key out of the map and out of its stage's
/// list, the facade invariant holds again.
#[verifier::rlimit(100)]
#[verifier::spinoff_prover]
proof fn lemma_cache_wf_after_del<V>(s0: Cache<V>, s1: Cache<V>, key_hash: u64)
    requires
        s0.wf(),
        s0.data@.contains_key(key_hash),
        s1.watch_dog == s0.watch_dog,
        s1.c == s0.c,
        s1.t == s0.t && s1.threshold == s0.threshold,
        s1.lru.basic_inv(),
        s1.lru.cap == s0.lru.cap,
        s1.slru.basic_inv(),
        s1.slru.stage_one_cap == s0.slru.stage_one_cap,
        s1.slru.stage_two_cap == s0.slru.stage_two_cap,
        s1.data@ == s0.data@.remove(key_hash),
        s1.lru.list@ == (if s0.data@[key_hash].stage == 0 {
            s0.lru.list@.remove(key_index(s0.lru.list@, key_hash))
        } else {
            s0.lru.list@
        }),
        s1.slru.stage_one@ == (if s0.data@[key_hash].stage == 1 {
            s0.slru.stage_one@.remove(key_index(s0.slru.stage_one@, key_hash))
        } else {
            s0.slru.stage_one@
        }),
        s1.slru.stage_two@ == (if s0.data@[key_hash].stage == 2 {
            s0.slru.stage_two@.remove(key_index(s0.slru.stage_two@, key_hash))
        } else {
            s0.slru.stage_two@
        }),
    ensures
        s1.wf(),
{
    let m0 = s0.data@;
    let stg = m0[key_hash].stage;
    let w0 = s0.lru.list@;
    let one0 = s0.slru.stage_one@;
    let two0 = s0.slru.stage_two@;
    if stg == 0 {
        let ki = key_index(w0, key_hash);
        assert(w0.contains(key_hash));
        w0.remove_ensures(ki);
    } else if stg == 1 {
        let ki = key_index(one0, key_hash);
        assert(one0.contains(key_hash));
        one0.remove_ensures(ki);
    } else {
        let ki = key_index(two0, key_hash);
        assert(two0.contains(key_hash));
        two0.remove_ensures(ki);
    }
    assert forall|p: int|
        0 <= p < s1.lru.list@.len() implies s1.data@.contains_key(#[trigger] s1.lru.list@[p])
        && s1.data@[s1.lru.list@[p]].stage == 0 && s1.data@[s1.lru.list@[p]].key
        == s1.lru.list@[p] by {
        let k = s1.lru.list@[p];
        assert(w0.contains(k)) by {
            if stg == 0 {
                let ki = key_index(w0, key_hash);
                assert(s1.lru.list@[p] == (if p < ki {
                    w0[p]
                } else {
                    w0[p + 1]
                }));
            } else {
                assert(w0[p] == k);
            }
        }
        let q = choose|q: int| 0 <= q < w0.len() && w0[q] == k;
        assert(k != key_hash) by {
            if k == key_hash {
                if stg == 0 {
                    let ki = key_index(w0, key_hash);
                    assert(s1.lru.list@[p] == (if p < ki {
                        w0[p]
                    } else {
                        w0[p + 1]
                    }));
                    assert(w0[ki] == key_hash);
                    if p < ki {
                        assert(w0[p] == w0[ki] && p != ki);
                    } else {
                        assert(w0[p + 1] == w0[ki] && p + 1 != ki);
                    }
                } else {
                    assert(m0[k].stage == 0);
                }
            }
        }
    }
    assert forall|p: int|
        0 <= p < s1.slru.stage_one@.len() implies s1.data@.contains_key(
        #[trigger] s1.slru.stage_one@[p],
    ) && s1.data@[s1.slru.stage_one@[p]].stage == 1 && s1.data@[s1.slru.stage_one@[p]].key
        == s1.slru.stage_one@[p] by {
        let k = s1.slru.stage_one@[p];
        assert(one0.contains(k)) by {
            if stg == 1 {
                let ki = key_index(one0, key_hash);
                assert(s1.slru.stage_one@[p] == (if p < ki {
                    one0[p]
                } else {
                    one0[p + 1]
                }));
            } else {
                assert(one0[p] == k);
            }
        }
        let q = choose|q: int| 0 <= q < one0.len() && one0[q] == k;
        assert(k != key_hash) by {
            if k == key_hash {
                if stg == 1 {
                    let ki = key_index(one0, key_hash);
                    assert(s1.slru.stage_one@[p] == (if p < ki {
                        one0[p]
                    } else {
                        one0[p + 1]
                    }));
                    assert(one0[ki] == key_hash);
                    if p < ki {
                        assert(one0[p] == one0[ki] && p != ki);
                    } else {
                        assert(one0[p + 1] == one0[ki] && p + 1 != ki);
                    }
                } else {
                    assert(m0[k].stage == 1);
                }
            }
        }
    }
    assert forall|p: int|
        0 <= p < s1.slru.stage_two@.len() implies s1.data@.contains_key(
        #[trigger] s1.slru.stage_two@[p],
    ) && s1.data@[s1.slru.stage_two@[p]].stage == 2 && s1.data@[s1.slru.stage_two@[p]].key
        == s1.slru.stage_two@[p] by {
        let k = s1.slru.stage_two@[p];
        assert(two0.contains(k)) by {
            if stg == 2 {
                let ki = key_index(two0, key_hash);
                assert(s1.slru.stage_two@[p] == (if p < ki {
                    two0[p]
                } else {
                    two0[p + 1]
                }));
            } else {
                assert(two0[p] == k);
            }
        }
        let q = choose|q: int| 0 <= q < two0.len() && two0[q] == k;
        assert(k != key_hash) by {
            if k == key_hash {
                if stg == 2 {
                    let ki = key_index(two0, key_hash);
                    assert(s1.slru.stage_two@[p] == (if p < ki {
                        two0[p]
                    } else {
                        two0[p + 1]
                    }));
                    assert(two0[ki] == key_hash);
                    if p < ki {
                        assert(two0[p] == two0[ki] && p != ki);
                    } else {
                        assert(two0[p + 1] == two0[ki] && p + 1 != ki);
                    }
                } else {
                    assert(m0[k].stage == 2);
                }
            }
        }
    }
    assert forall|k: u64| s1.data@.contains_key(k) implies {
        let s = (#[trigger] s1.data@[k]).stage;
        &&& (s == 0 || s == 1 || s == 2)
        &&& (s == 0 ==> s1.lru.list@.contains(k))
        &&& (s == 1 ==> s1.slru.stage_one@.contains(k))
        &&& (s == 2 ==> s1.slru.stage_two@.contains(k))
    } by {
        assert(m0.contains_key(k) && k != key_hash && s1.data@[k] == m0[k]);
        if m0[k].stage == 0 {
            let p = choose|p: int| 0 <= p < w0.len() && w0[p] == k;
            if stg == 0 {
                let ki = key_index(w0, key_hash);
                assert(p != ki);
                if p < ki {
                    assert(s1.lru.list@[p] == k);
                } else {
                    assert(s1.lru.list@[p - 1] == k);
                }
            }
            assert(s1.lru.list@.contains(k));
        } else if m0[k].stage == 1 {
            let p = choose|p: int| 0 <= p < one0.len() && one0[p] == k;
            if stg == 1 {
                let ki = key_index(one0, key_hash);
                assert(p != ki);
                if p < ki {
                    assert(s1.slru.stage_one@[p] == k);
                } else {
                    assert(s1.slru.stage_one@[p - 1] == k);
                }
            }
            assert(s1.slru.stage_one@.contains(k));
        } else {
            let p = choose|p: int| 0 <= p < two0.len() && two0[p] == k;
            if stg == 2 {
                let ki = key_index(two0, key_hash);
                assert(p != ki);
                if p < ki {
                    assert(s1.slru.stage_two@[p] == k);
                } else {
                    assert(s1.slru.stage_two@[p - 1] == k);
                }
            }
            assert(s1.slru.stage_two@.contains(k));
        }
    }
    assert(s1.wf());
}

/// After the window took a fresh key — with or without evicting its
/// tail — the facade invariant holds again.
proof fn lemma_cache_wf_after_window<V>(s0: Cache<V>, s1: Cache<V>, key_hash: u64)
    requires
        s0.wf(),
        !s0.data@.contains_key(key_hash),
        s1.slru == s0.slru,
        s1.watch_dog.wf(),
        s1.c.wf(),
        s1.lru.basic_inv(),
        s1.lru.cap == s0.lru.cap,
        list_in_map(s1.lru.list@, s1.data@, 0),
        ({
            let item = s1.data@[key_hash];
            (if s0.lru.list@.len() < s0.lru.cap {
                s1.lru.list@ == seq![key_hash] + s0.lru.list@ && s1.data@ == s0.data@.insert(
                    key_hash,
                    item,
                )
            } else {
                s1.lru.list@ == seq![key_hash] + s0.lru.list@.drop_last() && s1.data@
                    == s0.data@.remove(s0.lru.list@.last()).insert(key_hash, item)
            }) && item.stage == 0
        }),
    ensures
        s1.wf(),
{
    let w0 = s0.lru.list@;
    assert forall|k: u64| s1.data@.contains_key(k) implies {
        let stg = (#[trigger] s1.data@[k]).stage;
        &&& (stg == 0 || stg == 1 || stg == 2)
        &&& (stg == 0 ==> s1.lru.list@.contains(k))
        &&& (stg == 1 ==> s1.slru.stage_one@.contains(k))
        &&& (stg == 2 ==> s1.slru.stage_two@.contains(k))
    } by {
        if k == key_hash {
            assert(s1.lru.list@[0] == key_hash);
            assert(s1.lru.list@.contains(key_hash));
        } else {
            assert(s0.data@.contains_key(k));
            assert(s1.data@[k] == s0.data@[k]);
            if s0.data@[k].stage == 0 {
                let p = choose|p: int| 0 <= p < w0.len() && w0[p] == k;
                if w0.len() < s0.lru.cap {
                    assert(s1.lru.list@[p + 1] == k);
                } else {
                    assert(p < w0.len() - 1) by {
                        if p == w0.len() - 1 {
                            assert(!s1.data@.contains_key(k));
                        }
                    }
                    assert(s1.lru.list@[p + 1] == k);
                }
                assert(s1.lru.list@.contains(k));
            }
        }
    }
    assert forall|p: int|
        0 <= p < s1.slru.stage_one@.len() implies s1.data@.contains_key(
        #[trigger] s1.slru.stage_one@[p],
    ) && s1.data@[s1.slru.stage_one@[p]].stage == 1 && s1.data@[s1.slru.stage_one@[p]].key
        == s1.slru.stage_one@[p] by {
        let k = s1.slru.stage_one@[p];
        assert(s0.data@.contains_key(k) && s0.data@[k].stage == 1);
        assert(k != key_hash);
        if w0.len() >= s0.lru.cap {
            assert(k != w0.last()) by {
                if k == w0.last() {
                    assert(s0.data@[k].stage == 0) by {
                        assert(w0[w0.len() - 1] == k);
                    }
                }
            }
        }
    }
    assert forall|p: int|
        0 <= p < s1.slru.stage_two@.len() implies s1.data@.contains_key(
        #[trigger] s1.slru.stage_two@[p],
    ) && s1.data@[s1.slru.stage_two@[p]].stage == 2 && s1.data@[s1.slru.stage_two@[p]].key
        == s1.slru.stage_two@[p] by {
        let k = s1.slru.stage_two@[p];
        assert(s0.data@.contains_key(k) && s0.data@[k].stage == 2);
        assert(k != key_hash);
        if w0.len() >= s0.lru.cap {
            assert(k != w0.last()) by {
                if k == w0.last() {
                    assert(s0.data@[k].stage == 0) by {
                        assert(w0[w0.len() - 1] == k);
                    }
                }
            }
        }
    }
    assert(s1.wf());
}

/// After the probationary stage took the window's victim — with or
/// without evicting its own tail — the facade invariant holds again.
proof fn lemma_cache_wf_after_admit<V>(s0: Cache<V>, s1: Cache<V>, vk: u64)
    requires
        s0.wf(),
        !s0.data@.contains_key(vk),
        s1.lru == s0.lru,
        s1.watch_dog.wf(),
        s1.c.wf(),
        s1.slru.basic_inv(),
        s1.slru.stage_one_cap == s0.slru.stage_one_cap,
        s1.slru.stage_two_cap == s0.slru.stage_two_cap,
        s1.slru.stage_two@ == s0.slru.stage_two@,
        s1.slru.in_map(s1.data@),
        ({
            let staged = s1.data@[vk];
            (if s0.slru.stage_one@.len() < s0.slru.stage_one_cap || s0.slru.stage_one@.len()
                + s0.slru.stage_two@.len() < s0.slru.stage_one_cap + s0.slru.stage_two_cap {
                s1.slru.stage_one@ == seq![vk] + s0.slru.stage_one@ && s1.data@
                    == s0.data@.insert(vk, staged)
            } else {
                s1.slru.stage_one@ == seq![vk] + s0.slru.stage_one@.drop_last() && s1.data@
                    == s0.data@.remove(s0.slru.stage_one@.last()).insert(vk, staged)
            }) && staged.stage == 1
        }),
    ensures
        s1.wf(),
{
    let one0 = s0.slru.stage_one@;
    assert forall|k: u64| s1.data@.contains_key(k) implies {
        let stg = (#[trigger] s1.data@[k]).stage;
        &&& (stg == 0 || stg == 1 || stg == 2)
        &&& (stg == 0 ==> s1.lru.list@.contains(k))
        &&& (stg == 1 ==> s1.slru.stage_one@.contains(k))
        &&& (stg == 2 ==> s1.slru.stage_two@.contains(k))
    } by {
        if k == vk {
            assert(s1.slru.stage_one@[0] == vk);
            assert(s1.slru.stage_one@.contains(vk));
        } else {
            assert(s0.data@.contains_key(k));
            assert(s1.data@[k] == s0.data@[k]);
            if s0.data@[k].stage == 1 {
                let p = choose|p: int| 0 <= p < one0.len() && one0[p] == k;
                if one0.len() < s0.slru.stage_one_cap || one0.len() + s0.slru.stage_two@.len()
                    < s0.slru.stage_one_cap + s0.slru.stage_two_cap {
                    assert(s1.slru.stage_one@[p + 1] == k);
                } else {
                    assert(p < one0.len() - 1) by {
                        if p == one0.len() - 1 {
                            assert(!s1.data@.contains_key(k));
                        }
                    }
                    assert(s1.slru.stage_one@[p + 1] == k);
                }
                assert(s1.slru.stage_one@.contains(k));
            }
        }
    }
    assert forall|p: int|
        0 <= p < s1.lru.list@.len() implies s1.data@.contains_key(#[trigger] s1.lru.list@[p])
        && s1.data@[s1.lru.list@[p]].stage == 0 && s1.data@[s1.lru.list@[p]].key
        == s1.lru.list@[p] by {
        let k = s1.lru.list@[p];
        assert(s0.data@.contains_key(k) && s0.data@[k].stage == 0);
        assert(k != vk);
        if !(one0.len() < s0.slru.stage_one_cap || one0.len() + s0.slru.stage_two@.len()
            < s0.slru.stage_one_cap + s0.slru.stage_two_cap) {
            assert(k != one0.last()) by {
                if k == one0.last() {
                    assert(s0.data@[k].stage == 1) by {
                        assert(one0[one0.len() - 1] == k);
                    }
                }
            }
        }
    }
    assert(s1.wf());
}

} // verus!
