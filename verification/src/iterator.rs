//! Forward iteration over the skiplist base level. The cursor starts
//! before the list, yields the head sentinel first (an empty key with a
//! default value), then every linked node in key order.

use vstd::prelude::*;

verus! {

use crate::entry::Entry;
use crate::skiplist::SkipList;

/// A cursor over a skiplist: the list, the handle it stands on (0 past
/// the end), whether it has started, and — for the proofs — the cursor's
/// base-level position.
pub struct SkipListIter<'a> {
    pub l: &'a SkipList,
    pub n: u32,
    pub i: bool,
    pub pos: Ghost<int>,
}

impl<'a> SkipListIter<'a> {
    /// The cursor stands before the list, on the head sentinel, on a
    /// base-level node, or past the end.
    pub open spec fn wf(self) -> bool {
        &&& self.l.wf()
        &&& (!self.i ==> self.pos@ == -2 && self.n == 0)
        &&& ((self.i && self.n == self.l.head_offset) ==> self.pos@ == -1)
        &&& ((self.i && self.n != self.l.head_offset && self.n != 0) ==> 0 <= self.pos@
            < self.l.lv(0).len() && self.l.lv(0)[self.pos@] == self.n)
        &&& ((self.i && self.n == 0) ==> self.pos@ == self.l.lv(0).len())
    }

    /// What the entry yielded for the node behind `h` holds.
    pub open spec fn entry_matches(self, e: Entry, h: u32) -> bool {
        &&& e.key@ == self.l.nkey(h)
        &&& e.meta == self.l.node_val(h).0
        &&& e.expires_at == self.l.node_val(h).1
        &&& e.value@ == self.l.node_val(h).2
        &&& e.version == 0
    }

    /// Whether the cursor stands on a node.
    pub fn valid(&self) -> (r: bool)
        ensures
            r == (self.n != 0),
    {
        self.n != 0
    }

    /// The entry under the cursor, if it stands on a node.
    pub fn item(&self) -> (r: Option<Entry>)
        requires
            self.wf(),
        ensures
            r is Some <==> self.n != 0,
            r matches Some(e) ==> self.entry_matches(e, self.n),
    {
        if self.n == 0 {
            return None;
        }
        proof {
            assert(self.l.head_wf());
            if self.n != self.l.head_offset {
                assert(!self.i ==> false);
                assert(self.l.chain_ok(0));
                assert(self.l.lv(0)[self.pos@] == self.n);
                assert(self.l.node_wf(self.n));
            }
        }
        let node_opt = self.l.area.get_node(self.n);
        let node = match node_opt {
            Some(nd) => nd,
            None => {
                proof {
                    assert(false);
                }
                return None;
            },
        };
        proof {
            assert(node_opt matches Some(nd) && *nd == self.l.node_of(self.n));
        }
        let k: Vec<u8> = self.l.area.get_key(node.key_offset, node.key_size);
        let v = self.l.get_value(node);
        proof {
            crate::skiplist::lemma_value_word_round_trip(
                (node.value as int % 0x1_0000_0000) as u32,
                (node.value as int / 0x1_0000_0000) as u32,
            );
        }
        Some(
            Entry {
                key: k,
                value: v.v,
                expires_at: v.expires_at,
                meta: v.meta,
                version: v.version,
                offset: 0,
                header_len: 0,
                val_threshold: 0,
            },
        )
    }

    /// Steps the cursor: onto the head sentinel first, then along the
    /// base level, yielding each node's entry, and `None` past the end.
    pub fn next(&mut self) -> (r: Option<Entry>)
        requires
            old(self).wf(),
        ensures
            final(self).wf(),
            final(self).l == old(self).l,
            final(self).i,
            ({
                let l = old(self).l;
                let l0 = l.lv(0);
                if !old(self).i {
                    &&& final(self).pos@ == -1
                    &&& final(self).n == l.head_offset
                    &&& r matches Some(e) && final(self).entry_matches(e, l.head_offset)
                } else if old(self).pos@ == -1 {
                    if l0.len() > 0 {
                        &&& final(self).pos@ == 0
                        &&& final(self).n == l0[0]
                        &&& r matches Some(e) && final(self).entry_matches(e, l0[0])
                    } else {
                        &&& final(self).n == 0
                        &&& r is None
                    }
                } else if 0 <= old(self).pos@ && old(self).pos@ + 1 < l0.len() {
                    &&& final(self).pos@ == old(self).pos@ + 1
                    &&& final(self).n == l0[old(self).pos@ + 1]
                    &&& r matches Some(e) && final(self).entry_matches(e, l0[old(self).pos@ + 1])
                } else {
                    &&& final(self).n == 0
                    &&& r is None
                }
            }),
    {
        if !self.i {
            self.n = self.l.head_offset;
            self.i = true;
            proof {
                self.pos@ = -1int;
            }
            return self.item();
        }
        if self.n == 0 {
            return None;
        }
        proof {
            assert(self.l.head_wf());
            if self.n != self.l.head_offset {
                assert(self.l.chain_ok(0));
                assert(self.l.lv(0)[self.pos@] == self.n);
                assert(self.l.node_wf(self.n));
            }
        }
        let node_opt = self.l.area.get_node(self.n);
        let node = match node_opt {
            Some(nd) => nd,
            None => {
                proof {
                    assert(false);
                }
                return None;
            },
        };
        proof {
            assert(node_opt matches Some(nd) && *nd == self.l.node_of(self.n));
            assert(self.l.chain_ok(0));
            if self.n == self.l.head_offset {
                assert(node.tower@.len() == crate::skiplist::MAX_HEIGHT);
            } else {
                assert(node.tower@.len() == self.l.node_of(self.n).height);
                assert(0 < self.l.node_of(self.n).height);
            }
        }
        let nxt: u32 = node.get_next_offset(0);
        proof {
            let l0 = self.l.lv(0);
            if self.n == self.l.head_offset {
                assert(nxt == (if l0.len() == 0 {
                    0u32
                } else {
                    l0[0]
                }));
            } else {
                assert(nxt == (if self.pos@ + 1 < l0.len() {
                    l0[self.pos@ + 1]
                } else {
                    0u32
                }));
            }
            if nxt != 0 {
                assert(self.l.lv(0)[(if self.n == self.l.head_offset {
                    0int
                } else {
                    self.pos@ + 1
                })] == nxt);
                assert(self.l.node_wf(nxt));
                assert(nxt != self.l.head_offset);
            }
        }
        if nxt == 0 {
            self.n = 0;
            proof {
                self.pos@ = self.l.lv(0).len() as int;
            }
            return None;
        }
        proof {
            self.pos@ = if self.n == self.l.head_offset {
                0int
            } else {
                self.pos@ + 1
            };
        }
        self.n = nxt;
        self.item()
    }
}

/// A fresh cursor standing before the list.
pub fn new<'a>(l: &'a SkipList) -> (it: SkipListIter<'a>)
    requires
        l.wf(),
    ensures
        it.wf(),
        !it.i,
        it.l == l,
{
    SkipListIter { l, n: 0, i: false, pos: Ghost(-2int) }
}

} // verus!
