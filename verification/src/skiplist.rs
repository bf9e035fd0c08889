//! The skiplist: an ordered map over byte keys held in the arena, with a
//! tower of forward links per node.

use vstd::prelude::*;

verus! {

use crate::area::{Area, MAX_NODE_SIZE, NODE_ALIGN, node_footprint};
use crate::entry::{Value, Entry, dec_meta, dec_expires, dec_payload, size_varint_spec, value_bytes};
use crate::keys::{key_lt, key_cmp, lemma_key_cmp_eq, lemma_key_cmp_antisym, lemma_key_lt_trans};
use crate::keys::compare_keys;
use vstd::arithmetic::power2::pow2;

/// Tallest tower a node may carry.
pub const MAX_HEIGHT: usize = 20;

/// A skiplist node. The key and the encoded value live in the arena byte
/// buffer; the node records their offsets and sizes. `value` packs the
/// value's size and offset into one word so both can be swapped together.
/// `tower[l]` is the handle of the successor at level `l`, 0 for none.
#[derive(Debug)]
pub struct Node {
    pub value: u64,
    pub key_offset: u32,
    pub key_size: u16,
    pub height: u16,
    pub tower: Vec<u32>,
}

/// The packed value word for a value of `val_size` bytes at `val_offset`.
pub open spec fn value_word(val_offset: u32, val_size: u32) -> u64 {
    (val_offset + val_size * 0x1_0000_0000) as u64
}

/// Packs a value handle: size in the high half, offset in the low half.
pub fn encode_value(val_offset: u32, val_size: u32) -> (r: u64)
    ensures
        r == value_word(val_offset, val_size),
{
    let r: u64 = ((val_size as u64) << 32) | (val_offset as u64);
    proof {
        assert(((val_size as u64) << 32) | (val_offset as u64) == (val_offset as u64) + (
        val_size as u64) * 0x1_0000_0000) by (bit_vector);
    }
    r
}

/// Unpacks a value word into (offset, size).
pub fn decode_value(value: u64) -> (r: (u32, u32))
    ensures
        value == value_word(r.0, r.1),
        r.0 == value as u32,
        r.1 == (value >> 32) as u32,
{
    let val_offset: u32 = value as u32;
    let val_size: u32 = (value >> 32) as u32;
    proof {
        assert((value as u32) as u64 + (((value >> 32) as u32) as u64) * 0x1_0000_0000 == value)
            by (bit_vector);
    }
    (val_offset, val_size)
}

/// Packing the same pair always yields the same word and unpacks exactly.
pub proof fn lemma_value_word_round_trip(val_offset: u32, val_size: u32)
    ensures
        value_word(val_offset, val_size) as int % 0x1_0000_0000 == val_offset,
        value_word(val_offset, val_size) as int / 0x1_0000_0000 == val_size,
{
    let o = val_offset as int;
    let s = val_size as int;
    assert((o + s * 0x1_0000_0000) % 0x1_0000_0000 == o && (o + s * 0x1_0000_0000)
        / 0x1_0000_0000 == s) by (nonlinear_arith)
        requires
            0 <= o < 0x1_0000_0000,
            0 <= s,
    ;
}

/// The skiplist proper: a current height, the handle of the head
/// sentinel, the arena everything lives in, and — for the proofs — the
/// sequence of node handles linked at every level, in list order.
pub struct SkipList {
    pub height: i32,
    pub head_offset: u32,
    pub area: Area,
    pub levels: Ghost<Seq<Seq<u32>>>,
}

impl SkipList {
    /// A handle names a node record.
    pub open spec fn valid_handle(self, h: u32) -> bool {
        1 <= h <= self.area.nodes@.len()
    }

    /// The node record behind a handle.
    pub open spec fn node_of(self, h: u32) -> Node {
        self.area.nodes@[h - 1]
    }

    /// The key bytes a node points at.
    pub open spec fn nkey(self, h: u32) -> Seq<u8> {
        let nd = self.node_of(h);
        self.area.buf@.subrange(nd.key_offset as int, nd.key_offset + nd.key_size)
    }

    /// Offset half of a node's packed value word.
    pub open spec fn val_off(self, h: u32) -> int {
        self.node_of(h).value as int % 0x1_0000_0000
    }

    /// Size half of a node's packed value word.
    pub open spec fn val_size(self, h: u32) -> int {
        self.node_of(h).value as int / 0x1_0000_0000
    }

    /// What decoding a node's value region yields: meta, expiry, payload.
    pub open spec fn node_val(self, h: u32) -> (u8, u64, Seq<u8>) {
        let r = self.area.buf@.subrange(self.val_off(h), self.val_off(h) + self.val_size(h));
        (dec_meta(r), dec_expires(r), dec_payload(r))
    }

    /// A linked node is sound: its tower matches its height, and its key
    /// and value regions lie in the handed-out part of the arena.
    pub open spec fn node_wf(self, h: u32) -> bool {
        &&& self.valid_handle(h)
        &&& self.node_of(h).height as int == self.node_of(h).tower@.len()
        &&& 1 <= self.node_of(h).height <= MAX_HEIGHT
        &&& self.node_of(h).key_offset >= 1
        &&& self.node_of(h).key_offset + self.node_of(h).key_size <= self.area.n
        &&& self.node_of(h).key_size > 8
        &&& self.val_off(h) + self.val_size(h) <= self.area.n
    }

    /// The head sentinel: full tower, empty key, value region in bounds.
    pub open spec fn head_wf(self) -> bool {
        &&& self.valid_handle(self.head_offset)
        &&& self.node_of(self.head_offset).height == MAX_HEIGHT
        &&& self.node_of(self.head_offset).tower@.len() == MAX_HEIGHT
        &&& self.node_of(self.head_offset).key_size == 0
        &&& self.node_of(self.head_offset).key_offset <= self.area.n
        &&& self.val_off(self.head_offset) + self.val_size(self.head_offset) <= self.area.n
    }

    /// The handles linked at level `l`, in list order.
    pub open spec fn lv(self, l: int) -> Seq<u32> {
        self.levels@[l]
    }

    /// The forward links at level `l` walk exactly `lv(l)`: the head
    /// points at its first handle, every handle at the one after it, and
    /// the last at 0.
    pub open spec fn chain_ok(self, l: int) -> bool {
        &&& self.node_of(self.head_offset).tower@[l] == (if self.lv(l).len() == 0 {
            0u32
        } else {
            self.lv(l)[0]
        })
        &&& forall|p: int|
            0 <= p < self.lv(l).len() ==> {
                let h = #[trigger] self.lv(l)[p];
                &&& self.node_wf(h)
                &&& h != self.head_offset
                &&& l < self.node_of(h).height
                &&& self.node_of(h).tower@[l] == (if p + 1 < self.lv(l).len() {
                    self.lv(l)[p + 1]
                } else {
                    0u32
                })
            }
    }

    /// Keys strictly increase along level `l`.
    pub open spec fn sorted_ok(self, l: int) -> bool {
        forall|p: int, q: int|
            #![trigger self.lv(l)[p], self.lv(l)[q]]
            0 <= p < q < self.lv(l).len() ==> key_lt(self.nkey(self.lv(l)[p]), self.nkey(self.lv(l)[q]))
    }

    /// Every handle linked at level `l + 1` is linked at level `l` too.
    pub open spec fn subset_ok(self, l: int) -> bool {
        forall|p: int|
            0 <= p < self.lv(l + 1).len() ==> self.lv(l).contains(#[trigger] self.lv(l + 1)[p])
    }

    /// The skiplist invariant.
    pub open spec fn wf(self) -> bool {
        &&& self.area.wf()
        &&& self.levels@.len() == MAX_HEIGHT
        &&& self.head_wf()
        &&& 1 <= self.height <= MAX_HEIGHT
        &&& forall|l: int| self.height <= l < MAX_HEIGHT ==> self.lv(l).len() == 0
        &&& forall|l: int| 0 <= l < MAX_HEIGHT ==> self.chain_ok(l) && self.sorted_ok(l)
        &&& forall|l: int| 0 <= l < MAX_HEIGHT - 1 ==> self.subset_ok(l)
    }

    /// Whether some linked node carries exactly the key `k`.
    pub open spec fn contains_key(self, k: Seq<u8>) -> bool {
        exists|p: int| 0 <= p < self.lv(0).len() && self.nkey(#[trigger] self.lv(0)[p]) == k
    }

    /// The level-0 position of the node carrying exactly the key `k`.
    pub open spec fn idx_of(self, k: Seq<u8>) -> int {
        choose|p: int| 0 <= p < self.lv(0).len() && self.nkey(#[trigger] self.lv(0)[p]) == k
    }

    /// The logical map the skiplist represents: each linked key to the
    /// decoded value of its node.
    pub open spec fn model(self) -> Map<Seq<u8>, (u8, u64, Seq<u8>)> {
        Map::new(|k: Seq<u8>| self.contains_key(k), |k: Seq<u8>| self.node_val(self.lv(0)[self.idx_of(k)]))
    }
}

/// The first position at or after `p` on level `l` whose key is not
/// below `k`; the level's length when every key from `p` on is below.
pub open spec fn first_geq_from(s: SkipList, l: int, k: Seq<u8>, p: int) -> int
    decreases s.lv(l).len() - p,
    when 0 <= p <= s.lv(l).len()
{
    if p >= s.lv(l).len() {
        p
    } else if !key_lt(s.nkey(s.lv(l)[p]), k) {
        p
    } else {
        first_geq_from(s, l, k, p + 1)
    }
}

/// The first position on level `l` whose key is not below `k`.
pub open spec fn first_geq_at(s: SkipList, l: int, k: Seq<u8>) -> int {
    first_geq_from(s, l, k, 0)
}

proof fn lemma_first_geq_from_props(s: SkipList, l: int, k: Seq<u8>, p0: int)
    requires
        0 <= p0 <= s.lv(l).len(),
    ensures
        p0 <= first_geq_from(s, l, k, p0) <= s.lv(l).len(),
        forall|p: int|
            p0 <= p < first_geq_from(s, l, k, p0) ==> key_lt(s.nkey(#[trigger] s.lv(l)[p]), k),
        first_geq_from(s, l, k, p0) < s.lv(l).len() ==> !key_lt(
            s.nkey(s.lv(l)[first_geq_from(s, l, k, p0)]),
            k,
        ),
    decreases s.lv(l).len() - p0,
{
    if p0 >= s.lv(l).len() {
    } else if !key_lt(s.nkey(s.lv(l)[p0]), k) {
    } else {
        lemma_first_geq_from_props(s, l, k, p0 + 1);
    }
}

/// Everything before the first not-below position is below `k`, and
/// nothing at or after it is, provided the level is sorted.
pub proof fn lemma_first_geq_props(s: SkipList, l: int, k: Seq<u8>)
    requires
        s.sorted_ok(l),
    ensures
        0 <= first_geq_at(s, l, k) <= s.lv(l).len(),
        forall|p: int|
            0 <= p < first_geq_at(s, l, k) ==> key_lt(s.nkey(#[trigger] s.lv(l)[p]), k),
        forall|p: int|
            first_geq_at(s, l, k) <= p < s.lv(l).len() ==> !key_lt(
                s.nkey(#[trigger] s.lv(l)[p]),
                k,
            ),
{
    let j = first_geq_at(s, l, k);
    lemma_first_geq_from_props(s, l, k, 0);
    assert forall|p: int| j <= p < s.lv(l).len() implies !key_lt(s.nkey(s.lv(l)[p]), k) by {
        if p > j && key_lt(s.nkey(s.lv(l)[p]), k) {
            assert(key_lt(s.nkey(s.lv(l)[j]), s.nkey(s.lv(l)[p])));
            lemma_key_lt_trans(s.nkey(s.lv(l)[j]), s.nkey(s.lv(l)[p]), k);
        }
    }
}

/// What a splice computation hands back for one level: the neighbour
/// below `k` (or the head) and the neighbour at or above `k` (or 0),
/// with no node on the level carrying `k` itself unless the two meet.
pub open spec fn splice_ok(s: SkipList, l: int, k: Seq<u8>, before: u32, after: u32) -> bool {
    let j = first_geq_at(s, l, k);
    &&& (if j == 0 {
        before == s.head_offset
    } else {
        before == s.lv(l)[j - 1]
    })
    &&& (if j < s.lv(l).len() {
        after == s.lv(l)[j]
    } else {
        after == 0
    })
    &&& (j < s.lv(l).len() ==> s.nkey(s.lv(l)[j]) != k)
}

/// A node's key and value views carry over between two states that agree
/// on its record and on the already handed-out prefix of the buffer.
pub proof fn lemma_node_views_stable(s1: SkipList, s2: SkipList, h: u32)
    requires
        s1.valid_handle(h),
        s2.area.nodes@.len() >= s1.area.nodes@.len(),
        s2.node_of(h).key_offset == s1.node_of(h).key_offset,
        s2.node_of(h).key_size == s1.node_of(h).key_size,
        s2.node_of(h).value == s1.node_of(h).value,
        s1.node_of(h).key_offset + s1.node_of(h).key_size <= s1.area.n,
        s1.val_off(h) + s1.val_size(h) <= s1.area.n,
        s1.area.n <= s2.area.n,
        s2.area.buf@.len() == s1.area.buf@.len(),
        s1.area.n <= s1.area.buf@.len(),
        forall|j: int| 0 <= j < s1.area.n ==> s2.area.buf@[j] == s1.area.buf@[j],
    ensures
        s2.nkey(h) == s1.nkey(h),
        s2.node_val(h) == s1.node_val(h),
{
    assert(s1.node_of(h).value as int % 0x1_0000_0000 >= 0) by (nonlinear_arith);
    assert(s1.node_of(h).value as int / 0x1_0000_0000 >= 0) by (nonlinear_arith);
    assert(s2.nkey(h) =~= s1.nkey(h));
    assert(s2.area.buf@.subrange(s2.val_off(h), s2.val_off(h) + s2.val_size(h))
        =~= s1.area.buf@.subrange(s1.val_off(h), s1.val_off(h) + s1.val_size(h)));
}

/// A handle linked at some level is linked at the base level too.
pub proof fn lemma_member_in_level0(s: SkipList, l: int, h: u32)
    requires
        s.wf(),
        0 <= l < MAX_HEIGHT,
        s.lv(l).contains(h),
    ensures
        s.lv(0).contains(h),
    decreases l,
{
    if l > 0 {
        let lm1 = l - 1;
        assert(s.subset_ok(lm1));
        let p = choose|p: int| 0 <= p < s.lv(l).len() && s.lv(l)[p] == h;
        assert(s.lv(lm1 + 1) == s.lv(l));
        assert(0 <= p < s.lv(lm1 + 1).len());
        assert(s.lv(lm1).contains(s.lv(lm1 + 1)[p]));
        lemma_member_in_level0(s, lm1, h);
    }
}

/// Membership in a sequence after an insertion.
pub proof fn lemma_insert_contains(s: Seq<u32>, pos: int, x: u32, y: u32)
    requires
        0 <= pos <= s.len(),
    ensures
        s.insert(pos, x).contains(y) <==> (s.contains(y) || y == x),
{
    s.insert_ensures(pos, x);
    let t = s.insert(pos, x);
    if s.contains(y) {
        let p = choose|p: int| 0 <= p < s.len() && s[p] == y;
        if p < pos {
            assert(t[p] == y);
        } else {
            assert(t[p + 1] == y);
        }
        assert(t.contains(y));
    }
    if y == x {
        assert(t[pos] == y);
        assert(t.contains(y));
    }
    if t.contains(y) && y != x {
        let p = choose|p: int| 0 <= p < t.len() && t[p] == y;
        if p < pos {
            assert(s[p] == y);
            assert(s.contains(y));
        } else if p == pos {
            assert(false);
        } else {
            assert(s[p - 1] == y);
            assert(s.contains(y));
        }
    }
}

/// Each base-level position is the unique carrier of its key.
pub proof fn lemma_idx_of(s: SkipList, p: int)
    requires
        s.wf(),
        0 <= p < s.lv(0).len(),
    ensures
        s.contains_key(s.nkey(s.lv(0)[p])),
        s.idx_of(s.nkey(s.lv(0)[p])) == p,
{
    let k = s.nkey(s.lv(0)[p]);
    assert(s.chain_ok(0) && s.sorted_ok(0));
    assert(s.contains_key(k)) by {
        assert(0 <= p < s.lv(0).len() && s.nkey(s.lv(0)[p]) == k);
    }
    let q = s.idx_of(k);
    assert(0 <= q < s.lv(0).len() && s.nkey(s.lv(0)[q]) == k);
    if q != p {
        assert(s.node_wf(s.lv(0)[p]));
        lemma_key_cmp_eq(k, k);
        if q < p {
            assert(key_lt(s.nkey(s.lv(0)[q]), s.nkey(s.lv(0)[p])));
        } else {
            assert(key_lt(s.nkey(s.lv(0)[p]), s.nkey(s.lv(0)[q])));
        }
    }
}

/// Two states that agree on the base level key for key and value for
/// value represent the same map.
pub proof fn lemma_model_same(s1: SkipList, s2: SkipList)
    requires
        s1.wf(),
        s2.wf(),
        s2.lv(0) == s1.lv(0),
        forall|p: int|
            0 <= p < s1.lv(0).len() ==> s2.nkey(#[trigger] s1.lv(0)[p]) == s1.nkey(s1.lv(0)[p])
                && s2.node_val(s1.lv(0)[p]) == s1.node_val(s1.lv(0)[p]),
    ensures
        s2.model() == s1.model(),
{
    assert forall|k: Seq<u8>| s1.contains_key(k) == s2.contains_key(k) by {
        if s1.contains_key(k) {
            let p = choose|p: int| 0 <= p < s1.lv(0).len() && s1.nkey(#[trigger] s1.lv(0)[p]) == k;
            assert(s2.nkey(s2.lv(0)[p]) == k);
            assert(s2.contains_key(k));
        }
        if s2.contains_key(k) {
            let p = choose|p: int| 0 <= p < s2.lv(0).len() && s2.nkey(#[trigger] s2.lv(0)[p]) == k;
            assert(s1.nkey(s1.lv(0)[p]) == k);
            assert(s1.contains_key(k));
        }
    }
    assert forall|k: Seq<u8>| #[trigger]
        s1.model().contains_key(k) implies s1.model()[k] == s2.model()[k] by {
        let p = choose|p: int| 0 <= p < s1.lv(0).len() && s1.nkey(#[trigger] s1.lv(0)[p]) == k;
        lemma_idx_of(s1, p);
        lemma_idx_of(s2, p);
        assert(s2.nkey(s2.lv(0)[p]) == k);
        assert(s1.model()[k] == s1.node_val(s1.lv(0)[p]));
        assert(s2.model()[k] == s2.node_val(s2.lv(0)[p]));
    }
    assert(s2.model() =~= s1.model());
}

/// Replacing the value of the node that carries `k` updates the map at
/// `k` and nowhere else.
pub proof fn lemma_model_update(s1: SkipList, s2: SkipList, t: int, k: Seq<u8>, vm: (u8, u64, Seq<u8>))
    requires
        s1.wf(),
        s2.wf(),
        s2.lv(0) == s1.lv(0),
        0 <= t < s1.lv(0).len(),
        s1.nkey(s1.lv(0)[t]) == k,
        s2.nkey(s1.lv(0)[t]) == k,
        s2.node_val(s1.lv(0)[t]) == vm,
        forall|p: int|
            0 <= p < s1.lv(0).len() ==> s2.nkey(#[trigger] s1.lv(0)[p]) == s1.nkey(s1.lv(0)[p]),
        forall|p: int|
            0 <= p < s1.lv(0).len() && p != t ==> s2.node_val(#[trigger] s1.lv(0)[p])
                == s1.node_val(s1.lv(0)[p]),
    ensures
        s2.model() == s1.model().insert(k, vm),
{
    assert forall|kk: Seq<u8>| s2.contains_key(kk) == (s1.contains_key(kk) || kk == k) by {
        if s2.contains_key(kk) {
            let p = choose|p: int|
                0 <= p < s2.lv(0).len() && s2.nkey(#[trigger] s2.lv(0)[p]) == kk;
            assert(s1.nkey(s1.lv(0)[p]) == kk);
            assert(s1.contains_key(kk));
        }
        if s1.contains_key(kk) {
            let p = choose|p: int|
                0 <= p < s1.lv(0).len() && s1.nkey(#[trigger] s1.lv(0)[p]) == kk;
            assert(s2.nkey(s2.lv(0)[p]) == kk);
            assert(s2.contains_key(kk));
        }
        if kk == k {
            assert(s1.contains_key(kk)) by {
                assert(s1.nkey(s1.lv(0)[t]) == kk);
            }
        }
    }
    assert forall|kk: Seq<u8>| #[trigger]
        s2.model().contains_key(kk) implies s2.model()[kk] == s1.model().insert(k, vm)[kk] by {
        let p = choose|p: int| 0 <= p < s2.lv(0).len() && s2.nkey(#[trigger] s2.lv(0)[p]) == kk;
        lemma_idx_of(s2, p);
        assert(s2.model()[kk] == s2.node_val(s2.lv(0)[p]));
        if kk == k {
            lemma_idx_of(s2, t);
            assert(s2.nkey(s2.lv(0)[t]) == k);
            assert(p == t) by {
                lemma_idx_of(s2, p);
            }
            assert(s2.model()[kk] == vm);
        } else {
            lemma_idx_of(s1, p);
            assert(s1.nkey(s1.lv(0)[p]) == kk);
            assert(p != t);
            assert(s2.model()[kk] == s1.node_val(s1.lv(0)[p]));
            assert(s1.model()[kk] == s1.node_val(s1.lv(0)[p]));
        }
    }
    assert(s2.model() =~= s1.model().insert(k, vm));
}

/// Splicing a fresh node carrying `k` into the base level inserts `k`
/// into the map and leaves every other key alone.
pub proof fn lemma_model_insert_new(
    s1: SkipList,
    s2: SkipList,
    new_h: u32,
    pos: int,
    k: Seq<u8>,
    vm: (u8, u64, Seq<u8>),
)
    requires
        s1.wf(),
        s2.wf(),
        0 <= pos <= s1.lv(0).len(),
        s2.lv(0) == s1.lv(0).insert(pos, new_h),
        s2.nkey(new_h) == k,
        s2.node_val(new_h) == vm,
        !s1.lv(0).contains(new_h),
        forall|p: int|
            0 <= p < s1.lv(0).len() ==> s2.nkey(#[trigger] s1.lv(0)[p]) == s1.nkey(s1.lv(0)[p])
                && s2.node_val(s1.lv(0)[p]) == s1.node_val(s1.lv(0)[p]),
        forall|p: int| 0 <= p < s1.lv(0).len() ==> s1.nkey(#[trigger] s1.lv(0)[p]) != k,
    ensures
        s2.model() == s1.model().insert(k, vm),
{
    s1.lv(0).insert_ensures(pos, new_h);
    assert forall|kk: Seq<u8>| s2.contains_key(kk) == (s1.contains_key(kk) || kk == k) by {
        if s2.contains_key(kk) {
            let p = choose|p: int|
                0 <= p < s2.lv(0).len() && s2.nkey(#[trigger] s2.lv(0)[p]) == kk;
            if p == pos {
                assert(kk == k);
            } else if p < pos {
                assert(s2.lv(0)[p] == s1.lv(0)[p]);
                assert(s1.nkey(s1.lv(0)[p]) == kk);
                assert(s1.contains_key(kk));
            } else {
                assert(s2.lv(0)[p] == s1.lv(0)[p - 1]);
                assert(s1.nkey(s1.lv(0)[p - 1]) == kk);
                assert(s1.contains_key(kk));
            }
        }
        if s1.contains_key(kk) {
            let p = choose|p: int|
                0 <= p < s1.lv(0).len() && s1.nkey(#[trigger] s1.lv(0)[p]) == kk;
            if p < pos {
                assert(s2.lv(0)[p] == s1.lv(0)[p]);
                assert(s2.nkey(s2.lv(0)[p]) == kk);
            } else {
                assert(s2.lv(0)[p + 1] == s1.lv(0)[p]);
                assert(s2.nkey(s2.lv(0)[p + 1]) == kk);
            }
            assert(s2.contains_key(kk));
        }
        if kk == k {
            assert(s2.nkey(s2.lv(0)[pos]) == k);
            assert(s2.contains_key(kk));
        }
    }
    assert forall|kk: Seq<u8>| #[trigger]
        s2.model().contains_key(kk) implies s2.model()[kk] == s1.model().insert(k, vm)[kk] by {
        let p = choose|p: int| 0 <= p < s2.lv(0).len() && s2.nkey(#[trigger] s2.lv(0)[p]) == kk;
        lemma_idx_of(s2, p);
        assert(s2.model()[kk] == s2.node_val(s2.lv(0)[p]));
        if kk == k {
            lemma_idx_of(s2, pos);
            assert(p == pos) by {
                if p != pos {
                    if p < pos {
                        assert(s1.nkey(s1.lv(0)[p]) == kk);
                    } else {
                        assert(s1.nkey(s1.lv(0)[p - 1]) == kk);
                    }
                }
            }
            assert(s2.model()[kk] == vm);
        } else {
            assert(p != pos);
            let q = if p < pos {
                p
            } else {
                p - 1
            };
            assert(s2.lv(0)[p] == s1.lv(0)[q]);
            lemma_idx_of(s1, q);
            assert(s1.model()[kk] == s1.node_val(s1.lv(0)[q]));
            assert(s2.model()[kk] == s1.node_val(s1.lv(0)[q]));
        }
    }
    assert(s2.model() =~= s1.model().insert(k, vm));
}

impl SkipList {
    /// Walks level `level` rightwards from `before` and brackets `key`:
    /// the node carrying `key` twice when the level holds it, otherwise
    /// the neighbour below `key` (or the head) and the neighbour at or
    /// above it (or 0).
    pub fn find_splice_for_level(&self, key: &[u8], before: u32, level: i32) -> (r: (u32, u32))
        requires
            self.wf(),
            key@.len() > 8,
            0 <= level < MAX_HEIGHT,
            before == self.head_offset || (exists|p: int|
                0 <= p < self.lv(level as int).len() && self.lv(level as int)[p] == before
                    && key_lt(self.nkey(before), key@)),
        ensures
            ({
                let j = first_geq_at(*self, level as int, key@);
                let l = self.lv(level as int);
                if j < l.len() && self.nkey(l[j]) == key@ {
                    r.0 == l[j] && r.1 == l[j]
                } else {
                    &&& r.0 != r.1
                    &&& (if j == 0 {
                        r.0 == self.head_offset
                    } else {
                        r.0 == l[j - 1]
                    })
                    &&& (if j < l.len() {
                        r.1 == l[j]
                    } else {
                        r.1 == 0
                    })
                }
            }),
    {
        let ghost lvl = level as int;
        let ghost fg = first_geq_at(*self, lvl, key@);
        proof {
            lemma_first_geq_props(*self, lvl, key@);
        }
        let mut cur: u32 = before;
        let ghost mut pos: int = if before == self.head_offset {
            -1int
        } else {
            choose|p: int|
                0 <= p < self.lv(lvl).len() && self.lv(lvl)[p] == before && key_lt(
                    self.nkey(before),
                    key@,
                )
        };
        proof {
            if before != self.head_offset {
                assert(!(pos >= fg)) by {
                    if pos >= fg {
                        assert(!key_lt(self.nkey(self.lv(lvl)[pos]), key@));
                    }
                }
            }
        }
        loop
            invariant
                self.wf(),
                key@.len() > 8,
                0 <= lvl < MAX_HEIGHT,
                lvl == level as int,
                fg == first_geq_at(*self, lvl, key@),
                -1 <= pos < fg,
                pos == -1 ==> cur == self.head_offset,
                pos >= 0 ==> 0 <= pos < self.lv(lvl).len() && self.lv(lvl)[pos] == cur,
            decreases fg - pos,
        {
            proof {
                lemma_first_geq_props(*self, lvl, key@);
                assert(self.chain_ok(lvl));
                assert(self.sorted_ok(lvl));
                assert(self.head_wf());
                if pos >= 0 {
                    assert(self.lv(lvl)[pos] == cur);
                    assert(self.node_wf(cur));
                    assert(lvl < self.node_of(cur).height);
                } else {
                    assert(self.valid_handle(cur));
                }
            }
            let node_opt = self.area.get_node(cur);
            let node = match node_opt {
                Some(n) => n,
                None => {
                    proof {
                        assert(false);
                    }
                    return (cur, 0);
                },
            };
            proof {
                assert(node_opt matches Some(n) && *n == self.node_of(cur));
                assert(*node == self.node_of(cur));
                if pos >= 0 {
                    assert(node.tower@.len() == self.node_of(cur).height);
                } else {
                    assert(node.tower@.len() == MAX_HEIGHT);
                }
            }
            let next: u32 = node.get_next_offset(level);
            let ghost l = self.lv(lvl);
            proof {
                if pos == -1 {
                    assert(next == (if l.len() == 0 {
                        0u32
                    } else {
                        l[0]
                    }));
                } else {
                    assert(next == (if pos + 1 < l.len() {
                        l[pos + 1]
                    } else {
                        0u32
                    }));
                }
            }
            if next == 0 {
                proof {
                    assert(pos + 1 >= l.len());
                    assert(fg == l.len());
                }
                return (cur, next);
            }
            proof {
                assert(0 <= pos + 1 < l.len() && l[pos + 1] == next);
                assert(self.node_wf(next));
            }
            let next_node = match self.area.get_node(next) {
                Some(n) => n,
                None => {
                    proof {
                        assert(false);
                    }
                    return (cur, 0);
                },
            };
            let next_key: Vec<u8> = self.area.get_key(next_node.key_offset, next_node.key_size);
            let cmp: i32 = compare_keys(key, next_key.as_slice());
            proof {
                assert(next_key@ == self.nkey(next));
                lemma_key_cmp_eq(key@, self.nkey(next));
                lemma_key_cmp_antisym(key@, self.nkey(next));
            }
            if cmp == 0 {
                proof {
                    assert(self.nkey(l[pos + 1]) == key@);
                    assert(!key_lt(self.nkey(l[pos + 1]), key@));
                    assert(fg == pos + 1);
                }
                return (next, next);
            }
            if cmp < 0 {
                proof {
                    assert(!key_lt(self.nkey(l[pos + 1]), key@));
                    assert(fg == pos + 1);
                    assert(self.nkey(l[fg]) != key@);
                    assert(cur != next) by {
                        if pos >= 0 && cur == next {
                            assert(key_lt(self.nkey(l[pos]), self.nkey(l[pos + 1])));
                        } else if pos == -1 {
                            assert(l[pos + 1] != self.head_offset);
                        }
                    }
                }
                return (cur, next);
            }
            proof {
                assert(key_lt(self.nkey(l[pos + 1]), key@));
                assert(pos + 1 < fg) by {
                    if pos + 1 >= fg {
                        assert(!key_lt(self.nkey(l[pos + 1]), key@));
                    }
                }
                pos = pos + 1;
            }
            cur = next;
        }
    }
}

proof fn lemma_first_geq_from_stable(s1: SkipList, s2: SkipList, l: int, k: Seq<u8>, p0: int)
    requires
        0 <= p0 <= s1.lv(l).len(),
        s2.lv(l) == s1.lv(l),
        forall|p: int|
            0 <= p < s1.lv(l).len() ==> s2.nkey(#[trigger] s1.lv(l)[p]) == s1.nkey(s1.lv(l)[p]),
    ensures
        first_geq_from(s2, l, k, p0) == first_geq_from(s1, l, k, p0),
    decreases s1.lv(l).len() - p0,
{
    if p0 < s1.lv(l).len() {
        assert(s2.nkey(s2.lv(l)[p0]) == s1.nkey(s1.lv(l)[p0]));
        if key_lt(s1.nkey(s1.lv(l)[p0]), k) {
            lemma_first_geq_from_stable(s1, s2, l, k, p0 + 1);
        }
    }
}

/// The splice position at a level only depends on the level's handles
/// and their keys.
pub proof fn lemma_first_geq_stable(s1: SkipList, s2: SkipList, l: int, k: Seq<u8>)
    requires
        s2.lv(l) == s1.lv(l),
        forall|p: int|
            0 <= p < s1.lv(l).len() ==> s2.nkey(#[trigger] s1.lv(l)[p]) == s1.nkey(s1.lv(l)[p]),
    ensures
        first_geq_at(s2, l, k) == first_geq_at(s1, l, k),
{
    lemma_first_geq_from_stable(s1, s2, l, k, 0);
}

impl SkipList {
    /// Splices an already-built node into level `i`, between the given
    /// neighbours. Only the two forward links at level `i` and the ghost
    /// level sequence change.
    #[verifier::rlimit(100)]
    #[verifier::spinoff_prover]
    fn link_level(&mut self, i: usize, new_h: u32, prev_i: u32, next_i: u32, Ghost(k): Ghost<
        Seq<u8>,
    >)
        requires
            old(self).wf(),
            i < MAX_HEIGHT,
            (i as int) < old(self).height as int,
            old(self).node_wf(new_h),
            new_h != old(self).head_offset,
            old(self).nkey(new_h) == k,
            (i as int) < old(self).node_of(new_h).height as int,
            i == 0 || old(self).lv(i as int - 1).contains(new_h),
            !old(self).lv(i as int).contains(new_h),
            forall|p: int|
                0 <= p < old(self).lv(i as int).len() ==> old(self).nkey(
                    #[trigger] old(self).lv(i as int)[p],
                ) != k,
            ({
                let j = first_geq_at(*old(self), i as int, k);
                &&& (if j == 0 {
                    prev_i == old(self).head_offset
                } else {
                    prev_i == old(self).lv(i as int)[j - 1]
                })
                &&& (if j < old(self).lv(i as int).len() {
                    next_i == old(self).lv(i as int)[j]
                } else {
                    next_i == 0
                })
            }),
        ensures
            final(self).wf(),
            final(self).levels@ == old(self).levels@.update(
                i as int,
                old(self).lv(i as int).insert(first_geq_at(*old(self), i as int, k), new_h),
            ),
            final(self).head_offset == old(self).head_offset,
            final(self).height == old(self).height,
            final(self).area.buf == old(self).area.buf,
            final(self).area.n == old(self).area.n,
            final(self).area.nodes@.len() == old(self).area.nodes@.len(),
            forall|hh: u32|
                old(self).valid_handle(hh) ==> {
                    let n1 = old(self).node_of(hh);
                    let n2 = (#[trigger] final(self).node_of(hh));
                    &&& final(self).nkey(hh) == old(self).nkey(hh)
                    &&& final(self).node_val(hh) == old(self).node_val(hh)
                    &&& n2.key_offset == n1.key_offset
                    &&& n2.key_size == n1.key_size
                    &&& n2.value == n1.value
                    &&& n2.height == n1.height
                    &&& n2.tower@.len() == n1.tower@.len()
                },
    {
        let ghost s0 = *old(self);
        let ghost ii = i as int;
        let ghost j = first_geq_at(s0, ii, k);
        proof {
            lemma_first_geq_props(s0, ii, k);
            assert(s0.chain_ok(ii) && s0.sorted_ok(ii));
            if j > 0 {
                assert(s0.node_wf(prev_i));
            }
            assert(prev_i != new_h) by {
                if j > 0 {
                    assert(s0.lv(ii).contains(s0.lv(ii)[j - 1])) by {
                        assert(s0.lv(ii)[j - 1] == s0.lv(ii)[j - 1]);
                    }
                }
            }
        }
        let node = self.area.get_node_mut(new_h);
        node.tower.set(i, next_i);
        let pnode = self.area.get_node_mut(prev_i);
        pnode.tower.set(i, new_h);
        proof {
            self.levels@ = self.levels@.update(ii, s0.lv(ii).insert(j, new_h));
            let s2 = *self;
            assert forall|hh: u32| s0.valid_handle(hh) implies {
                let n1 = s0.node_of(hh);
                let n2 = s2.node_of(hh);
                &&& n2.key_offset == n1.key_offset
                &&& n2.key_size == n1.key_size
                &&& n2.value == n1.value
                &&& n2.height == n1.height
                &&& n2.tower@.len() == n1.tower@.len()
                &&& forall|l: int|
                    0 <= l < n1.tower@.len() && !(hh == new_h && l == ii) && !(hh == prev_i && l
                        == ii) ==> n2.tower@[l] == n1.tower@[l]
            } by {
                if hh == new_h {
                } else if hh == prev_i {
                } else {
                }
            }
            assert(s2.node_of(new_h).tower@[ii] == next_i);
            assert(s2.node_of(prev_i).tower@[ii] == new_h);
            assert forall|hh: u32| s0.valid_handle(hh) implies s2.nkey(hh) == s0.nkey(hh)
                && s2.node_val(hh) == s0.node_val(hh) by {
                assert(s2.area.buf@ == s0.area.buf@);
            }
            lemma_link_restores_wf(s0, s2, ii, new_h, prev_i, next_i, k);
        }
    }
}

/// After the two link writes of a level splice, the list is well formed
/// again, with the fresh node sitting at its ordered position.
#[verifier::rlimit(100)]
#[verifier::spinoff_prover]
proof fn lemma_link_restores_wf(
    s0: SkipList,
    s2: SkipList,
    ii: int,
    new_h: u32,
    prev_i: u32,
    next_i: u32,
    k: Seq<u8>,
)
    requires
        s0.wf(),
        0 <= ii < MAX_HEIGHT,
        ii < s0.height as int,
        s0.node_wf(new_h),
        new_h != s0.head_offset,
        prev_i != new_h,
        s0.nkey(new_h) == k,
        ii < s0.node_of(new_h).height as int,
        ii == 0 || s0.lv(ii - 1).contains(new_h),
        !s0.lv(ii).contains(new_h),
        forall|p: int|
            0 <= p < s0.lv(ii).len() ==> s0.nkey(#[trigger] s0.lv(ii)[p]) != k,
        ({
            let j = first_geq_at(s0, ii, k);
            &&& (if j == 0 {
                prev_i == s0.head_offset
            } else {
                j - 1 < s0.lv(ii).len() && prev_i == s0.lv(ii)[j - 1]
            })
            &&& (if j < s0.lv(ii).len() {
                next_i == s0.lv(ii)[j]
            } else {
                next_i == 0
            })
        }),
        s2.levels@ == s0.levels@.update(ii, s0.lv(ii).insert(first_geq_at(s0, ii, k), new_h)),
        s2.head_offset == s0.head_offset,
        s2.height == s0.height,
        s2.area.buf == s0.area.buf,
        s2.area.n == s0.area.n,
        s2.area.wf(),
        s2.area.nodes@.len() == s0.area.nodes@.len(),
        forall|hh: u32|
            s0.valid_handle(hh) ==> {
                let n1 = s0.node_of(hh);
                let n2 = (#[trigger] s2.node_of(hh));
                &&& n2.key_offset == n1.key_offset
                &&& n2.key_size == n1.key_size
                &&& n2.value == n1.value
                &&& n2.height == n1.height
                &&& n2.tower@.len() == n1.tower@.len()
                &&& forall|l: int|
                    0 <= l < n1.tower@.len() && !(hh == new_h && l == ii) && !(hh == prev_i && l
                        == ii) ==> n2.tower@[l] == n1.tower@[l]
            },
        s2.node_of(new_h).tower@[ii] == next_i,
        s2.node_of(prev_i).tower@[ii] == new_h,
        forall|hh: u32|
            s0.valid_handle(hh) ==> #[trigger] s2.nkey(hh) == s0.nkey(hh),
    ensures
        s2.wf(),
{
    let j = first_geq_at(s0, ii, k);
    lemma_first_geq_props(s0, ii, k);
    assert(s0.chain_ok(ii) && s0.sorted_ok(ii));
    if j > 0 {
        assert(s0.node_wf(prev_i));
    }
    let nl = s2.lv(ii);
    s0.lv(ii).insert_ensures(j, new_h);
    assert(nl == s0.lv(ii).insert(j, new_h));
    assert(nl.len() == s0.lv(ii).len() + 1);
    // the key facts around the splice point
    assert forall|p: int| 0 <= p < s0.lv(ii).len() implies (p < j ==> key_lt(
        s0.nkey(s0.lv(ii)[p]),
        k,
    )) && (p >= j ==> key_lt(k, s0.nkey(s0.lv(ii)[p]))) by {
        if p >= j {
            assert(!key_lt(s0.nkey(s0.lv(ii)[p]), k));
            assert(s0.nkey(s0.lv(ii)[p]) != k);
            assert(s0.node_wf(s0.lv(ii)[p]));
            lemma_key_cmp_eq(s0.nkey(s0.lv(ii)[p]), k);
            lemma_key_cmp_antisym(s0.nkey(s0.lv(ii)[p]), k);
        }
    }
    // well-formedness, level by level
    assert forall|l: int| 0 <= l < MAX_HEIGHT implies s2.chain_ok(l) && s2.sorted_ok(l) by {
        assert(s0.chain_ok(l) && s0.sorted_ok(l));
        if l == ii {
            assert forall|p: int| 0 <= p < nl.len() implies {
                let h = #[trigger] nl[p];
                &&& s2.node_wf(h)
                &&& h != s2.head_offset
                &&& l < s2.node_of(h).height
                &&& s2.node_of(h).tower@[l] == (if p + 1 < nl.len() {
                    nl[p + 1]
                } else {
                    0u32
                })
            } by {
                if p < j {
                    assert(nl[p] == s0.lv(ii)[p]);
                    if p + 1 < j {
                        assert(nl[p + 1] == s0.lv(ii)[p + 1]);
                    } else if p + 1 == j {
                        assert(nl[p + 1] == new_h);
                    }
                } else if p == j {
                    assert(nl[p] == new_h);
                    if p + 1 < nl.len() {
                        assert(nl[p + 1] == s0.lv(ii)[p]);
                    }
                } else {
                    assert(nl[p] == s0.lv(ii)[p - 1]);
                    if p + 1 < nl.len() {
                        assert(nl[p + 1] == s0.lv(ii)[p]);
                    }
                }
            }
            assert(s2.node_of(s2.head_offset).tower@[l] == (if nl.len() == 0 {
                0u32
            } else {
                nl[0]
            })) by {
                if j == 0 {
                    assert(nl[0] == new_h);
                } else {
                    assert(nl[0] == s0.lv(ii)[0]);
                    assert(prev_i != s0.head_offset) by {
                        assert(s0.lv(ii).contains(s0.lv(ii)[j - 1])) by {
                            assert(s0.lv(ii)[j - 1] == s0.lv(ii)[j - 1]);
                        }
                    }
                }
            }
            assert forall|p: int, q: int|
                0 <= p < q < nl.len() implies key_lt(s2.nkey(nl[p]), s2.nkey(nl[q])) by {
                let kp = if p < j {
                    s0.nkey(s0.lv(ii)[p])
                } else if p == j {
                    k
                } else {
                    s0.nkey(s0.lv(ii)[p - 1])
                };
                let kq = if q < j {
                    s0.nkey(s0.lv(ii)[q])
                } else if q == j {
                    k
                } else {
                    s0.nkey(s0.lv(ii)[q - 1])
                };
                assert(s2.nkey(nl[p]) == kp);
                assert(s2.nkey(nl[q]) == kq);
                if p < j && q > j {
                    assert(key_lt(s0.nkey(s0.lv(ii)[p]), k));
                    assert(key_lt(k, s0.nkey(s0.lv(ii)[q - 1])));
                    crate::keys::lemma_key_lt_trans(kp, k, kq);
                }
            }
        } else {
            assert(s2.lv(l) == s0.lv(l));
            assert forall|p: int| 0 <= p < s2.lv(l).len() implies {
                let h = #[trigger] s2.lv(l)[p];
                &&& s2.node_wf(h)
                &&& h != s2.head_offset
                &&& l < s2.node_of(h).height
                &&& s2.node_of(h).tower@[l] == (if p + 1 < s2.lv(l).len() {
                    s2.lv(l)[p + 1]
                } else {
                    0u32
                })
            } by {
                assert(s0.lv(l)[p] == s2.lv(l)[p]);
                let h = s2.lv(l)[p];
                assert(s0.node_wf(h));
                assert(s0.node_of(h).tower@[l] == (if p + 1 < s0.lv(l).len() {
                    s0.lv(l)[p + 1]
                } else {
                    0u32
                }));
                assert(s2.node_of(h).tower@[l] == s0.node_of(h).tower@[l]) by {
                    if h == new_h {
                        assert(!(l == ii));
                    } else if h == prev_i {
                        assert(!(l == ii));
                    }
                }
            }
            assert(s2.node_of(s2.head_offset).tower@[l] == s0.node_of(
                s0.head_offset,
            ).tower@[l]) by {
                if s0.head_offset == prev_i {
                    assert(!(l == ii));
                }
            }
        }
    }
    assert forall|l: int| 0 <= l < MAX_HEIGHT - 1 implies s2.subset_ok(l) by {
        assert(s0.subset_ok(l));
        if l + 1 == ii {
            assert forall|p: int| 0 <= p < s2.lv(l + 1).len() implies s2.lv(l).contains(
                #[trigger] s2.lv(l + 1)[p],
            ) by {
                if p < j {
                    assert(s2.lv(l + 1)[p] == s0.lv(ii)[p]);
                    assert(s0.lv(l).contains(s0.lv(ii)[p]));
                } else if p == j {
                    assert(s2.lv(l + 1)[p] == new_h);
                    assert(s0.lv(ii - 1).contains(new_h));
                    assert(s0.lv(l) == s2.lv(l));
                } else {
                    assert(s2.lv(l + 1)[p] == s0.lv(ii)[p - 1]);
                    assert(s0.lv(l).contains(s0.lv(ii)[p - 1]));
                }
            }
        } else if l == ii {
            assert forall|p: int| 0 <= p < s2.lv(l + 1).len() implies s2.lv(l).contains(
                #[trigger] s2.lv(l + 1)[p],
            ) by {
                assert(s2.lv(l + 1)[p] == s0.lv(l + 1)[p]);
                assert(s0.lv(l).contains(s0.lv(l + 1)[p]));
                lemma_insert_contains(s0.lv(ii), j, new_h, s0.lv(l + 1)[p]);
            }
        } else {
            assert forall|p: int| 0 <= p < s2.lv(l + 1).len() implies s2.lv(l).contains(
                #[trigger] s2.lv(l + 1)[p],
            ) by {
                assert(s2.lv(l + 1)[p] == s0.lv(l + 1)[p]);
                assert(s0.lv(l).contains(s0.lv(l + 1)[p]));
            }
        }
    }
    assert(s2.head_wf()) by {
        if s0.head_offset == prev_i {
        }
    }
    assert forall|l: int| s2.height <= l < MAX_HEIGHT implies s2.lv(l).len() == 0 by {
        assert(l != ii);
        assert(s0.lv(l).len() == 0);
    }
    assert(s2.wf());
}

/// Growing the arena, or swapping one linked node's value word, keeps
/// the list well formed and every untouched node's views intact.
/// `touched` is the handle whose value word changed, 0 for none.
pub proof fn lemma_wf_preserved(s0: SkipList, s1: SkipList, touched: u32)
    requires
        s0.wf(),
        s1.levels@ == s0.levels@,
        s1.head_offset == s0.head_offset,
        s0.height <= s1.height,
        s1.height <= MAX_HEIGHT,
        s1.area.wf(),
        s1.area.nodes@.len() >= s0.area.nodes@.len(),
        s1.area.buf@.len() == s0.area.buf@.len(),
        s0.area.n <= s1.area.n,
        forall|j: int| 0 <= j < s0.area.n ==> s1.area.buf@[j] == s0.area.buf@[j],
        forall|hh: u32|
            s0.valid_handle(hh) && hh != touched ==> #[trigger] s1.node_of(hh) == s0.node_of(hh),
        touched != 0 ==> {
            &&& s0.valid_handle(touched)
            &&& touched != s0.head_offset
            &&& s0.node_of(touched).key_offset + s0.node_of(touched).key_size <= s0.area.n
            &&& s1.node_of(touched).key_offset == s0.node_of(touched).key_offset
            &&& s1.node_of(touched).key_size == s0.node_of(touched).key_size
            &&& s1.node_of(touched).height == s0.node_of(touched).height
            &&& s1.node_of(touched).tower@ == s0.node_of(touched).tower@
            &&& s1.val_off(touched) + s1.val_size(touched) <= s1.area.n
        },
    ensures
        s1.wf(),
        forall|hh: u32|
            s0.valid_handle(hh) && hh != touched && s0.node_of(hh).key_offset + s0.node_of(
                hh,
            ).key_size <= s0.area.n && s0.val_off(hh) + s0.val_size(hh) <= s0.area.n ==> s1.nkey(
                hh,
            ) == s0.nkey(hh) && s1.node_val(hh) == s0.node_val(hh),
        touched != 0 ==> s1.nkey(touched) == s0.nkey(touched),
{
    assert forall|hh: u32|
        s0.valid_handle(hh) && hh != touched && s0.node_of(hh).key_offset + s0.node_of(
            hh,
        ).key_size <= s0.area.n && s0.val_off(hh) + s0.val_size(hh)
            <= s0.area.n implies s1.nkey(hh) == s0.nkey(hh) && s1.node_val(hh) == s0.node_val(
        hh,
    ) by {
        assert(s1.node_of(hh) == s0.node_of(hh));
        lemma_node_views_stable(s0, s1, hh);
    }
    if touched != 0 {
        assert(s1.nkey(touched) =~= s0.nkey(touched));
    }
    assert forall|l: int| 0 <= l < MAX_HEIGHT implies s1.chain_ok(l) && s1.sorted_ok(l) by {
        assert(s0.chain_ok(l) && s0.sorted_ok(l));
        assert forall|p: int| 0 <= p < s1.lv(l).len() implies {
            let h = #[trigger] s1.lv(l)[p];
            &&& s1.node_wf(h)
            &&& h != s1.head_offset
            &&& l < s1.node_of(h).height
            &&& s1.node_of(h).tower@[l] == (if p + 1 < s1.lv(l).len() {
                s1.lv(l)[p + 1]
            } else {
                0u32
            })
        } by {
            let h = s1.lv(l)[p];
            assert(s0.lv(l)[p] == h);
            assert(s0.node_wf(h));
            if h == touched {
            } else {
                assert(s1.node_of(h) == s0.node_of(h));
            }
        }
        assert forall|p: int, q: int| 0 <= p < q < s1.lv(l).len() implies key_lt(
            s1.nkey(#[trigger] s1.lv(l)[p]),
            s1.nkey(#[trigger] s1.lv(l)[q]),
        ) by {
            assert(s0.node_wf(s0.lv(l)[p]) && s0.node_wf(s0.lv(l)[q]));
            assert(s1.nkey(s1.lv(l)[p]) == s0.nkey(s0.lv(l)[p])) by {
                if s1.lv(l)[p] == touched {
                } else {
                    lemma_node_views_stable(s0, s1, s1.lv(l)[p]);
                }
            }
            assert(s1.nkey(s1.lv(l)[q]) == s0.nkey(s0.lv(l)[q])) by {
                if s1.lv(l)[q] == touched {
                } else {
                    lemma_node_views_stable(s0, s1, s1.lv(l)[q]);
                }
            }
        }
        assert(s1.node_of(s1.head_offset) == s0.node_of(s0.head_offset));
    }
    assert forall|l: int| 0 <= l < MAX_HEIGHT - 1 implies s1.subset_ok(l) by {
        assert(s0.subset_ok(l));
        assert forall|p: int| 0 <= p < s1.lv(l + 1).len() implies s1.lv(l).contains(
            #[trigger] s1.lv(l + 1)[p],
        ) by {
            assert(s0.lv(l).contains(s0.lv(l + 1)[p]));
        }
    }
    assert(s1.head_wf()) by {
        assert(s1.node_of(s1.head_offset) == s0.node_of(s0.head_offset));
    }
    assert forall|l: int| s1.height <= l < MAX_HEIGHT implies s1.lv(l).len() == 0 by {
        assert(s0.lv(l).len() == 0);
    }
    assert(s1.wf());
}

/// Draws one random 32-bit value.
///
/// Relies on rand::random: an independent draw from the thread-local
/// generator; nothing is promised of the value.
#[verifier::external_body]
fn random_u32() -> u32 {
    rand::random::<u32>()
}

/// A geometric tower height: starts at 1 and keeps growing with
/// probability about one third, capped at `MAX_HEIGHT`.
pub fn random_height() -> (h: usize)
    ensures
        1 <= h <= MAX_HEIGHT,
{
    let mut h: usize = 1;
    loop
        invariant
            1 <= h <= MAX_HEIGHT,
        decreases MAX_HEIGHT - h,
    {
        if h >= MAX_HEIGHT {
            return h;
        }
        if random_u32() > u32::MAX / 3 {
            return h;
        }
        h = h + 1;
    }
}

/// A fresh copy of a byte vector.
fn clone_bytes(v: &Vec<u8>) -> (r: Vec<u8>)
    ensures
        r@ == v@,
{
    let mut r: Vec<u8> = Vec::new();
    let mut i: usize = 0;
    while i < v.len()
        invariant
            i <= v@.len(),
            r@ =~= v@.subrange(0, i as int),
        decreases v@.len() - i,
    {
        r.push(v[i]);
        i = i + 1;
    }
    proof {
        assert(r@ =~= v@);
    }
    r
}

/// Builds a node in the arena: reserves its footprint, copies the key,
/// encodes the value, and fills in the record behind the fresh handle.
fn new_node(area: &mut Area, key: Vec<u8>, v: &Value, height: usize) -> (h: u32)
    requires
        old(area).wf(),
        1 <= height <= MAX_HEIGHT,
        key@.len() <= u16::MAX,
        v.v@.len() + 11 <= usize::MAX,
        1 + size_varint_spec(v.expires_at as nat) + v.v@.len() <= u32::MAX,
        old(area).n + (MAX_NODE_SIZE + NODE_ALIGN) + key@.len() + 1 + size_varint_spec(
            v.expires_at as nat,
        ) + v.v@.len() <= old(area).buf@.len(),
        old(area).nodes@.len() + 1 <= u32::MAX,
    ensures
        final(area).wf(),
        h == old(area).nodes@.len() + 1,
        final(area).nodes@.len() == old(area).nodes@.len() + 1,
        forall|i: int|
            0 <= i < old(area).nodes@.len() ==> final(area).nodes@[i] == old(area).nodes@[i],
        final(area).buf@.len() == old(area).buf@.len(),
        forall|j: int| 0 <= j < old(area).n ==> final(area).buf@[j] == old(area).buf@[j],
        old(area).n < final(area).n,
        final(area).n == old(area).n + node_footprint(height as int) + key@.len() + 1
            + size_varint_spec(v.expires_at as nat) + v.v@.len(),
        ({
            let nd = final(area).nodes@[h - 1];
            let esz = 1 + size_varint_spec(v.expires_at as nat) + v.v@.len();
            let ko = old(area).n + node_footprint(height as int);
            let vo = ko + key@.len();
            &&& nd.height == height
            &&& nd.tower@.len() == height
            &&& (forall|l: int| 0 <= l < height ==> nd.tower@[l] == 0)
            &&& nd.key_size == key@.len()
            &&& nd.key_offset == ko
            &&& final(area).buf@.subrange(ko as int, ko + key@.len()) == key@
            &&& nd.value == value_word(((ko + key@.len()) as u32), (esz as u32))
            &&& nd.value as int % 0x1_0000_0000 == vo
            &&& nd.value as int / 0x1_0000_0000 == esz
            &&& final(area).buf@.subrange(vo as int, vo + esz) == value_bytes(
                v.meta,
                v.expires_at,
                v.v@,
            )
        }),
{
    let node_offset: u32 = area.put_node(height);
    let key_len: usize = key.len();
    let key_offset: u32 = area.put_key(key);
    let val_offset: u32 = area.put_value(v);
    let esz: usize = v.encoded_size();
    let val: u64 = encode_value(val_offset, esz as u32);
    proof {
        lemma_value_word_round_trip(val_offset, esz as u32);
    }
    let node = area.get_node_mut(node_offset);
    node.key_offset = key_offset;
    node.key_size = key_len as u16;
    node.value = val;
    node_offset
}

/// A fresh skiplist over an arena of `area_size` bytes: a head sentinel
/// with a full tower, an empty key and a default value, and no entries.
pub fn new_skip_list(area_size: u32) -> (l: Box<SkipList>)
    requires
        area_size as int >= 1 + MAX_NODE_SIZE + NODE_ALIGN + 2,
    ensures
        l.wf(),
        l.model() == Map::<Seq<u8>, (u8, u64, Seq<u8>)>::empty(),
        l.height == 1,
        l.lv(0).len() == 0,
        l.area.buf@.len() == area_size,
        l.area.nodes@.len() == 1,
        l.area.n == 1 + MAX_NODE_SIZE + NODE_ALIGN + 2,
{
    let mut area: Area = Area::new(area_size);
    let v: Value = Value::default();
    let head: u32 = new_node(&mut area, Vec::new(), &v, MAX_HEIGHT);
    let ret = Box::new(
        SkipList {
            height: 1,
            head_offset: head,
            area,
            levels: Ghost(Seq::new(MAX_HEIGHT as nat, |l: int| Seq::<u32>::empty())),
        },
    );
    proof {
        assert forall|l: int| 0 <= l < MAX_HEIGHT implies ret.chain_ok(l) && ret.sorted_ok(l) by {
            assert(ret.lv(l).len() == 0);
            assert(ret.node_of(ret.head_offset).tower@[l] == 0);
        }
        assert(ret.wf());
        assert forall|k: Seq<u8>| !ret.contains_key(k) by {
            assert(ret.lv(0).len() == 0);
        }
        assert(ret.model() =~= Map::<Seq<u8>, (u8, u64, Seq<u8>)>::empty());
    }
    ret
}

impl SkipList {
    /// Swaps the value word of the node at base-level position `t`:
    /// encodes `v` into a fresh region and points the node at it. The
    /// map gains the new binding for that node's key.
    #[verifier::rlimit(100)]
    #[verifier::spinoff_prover]
    fn set_node_value(&mut self, found: u32, v: &Value, Ghost(t): Ghost<int>)
        requires
            old(self).wf(),
            0 <= t < old(self).lv(0).len(),
            old(self).lv(0)[t] == found,
            v.v@.len() + 11 <= usize::MAX,
            1 + size_varint_spec(v.expires_at as nat) + v.v@.len() <= u32::MAX,
            old(self).area.n + 1 + size_varint_spec(v.expires_at as nat) + v.v@.len() <= old(
                self,
            ).area.buf@.len(),
        ensures
            final(self).wf(),
            final(self).model() == old(self).model().insert(
                old(self).nkey(found),
                (v.meta, v.expires_at, v.v@),
            ),
            final(self).area.buf@.len() == old(self).area.buf@.len(),
            final(self).head_offset == old(self).head_offset,
            final(self).height == old(self).height,
            final(self).area.n == old(self).area.n + 1 + size_varint_spec(v.expires_at as nat)
                + v.v@.len(),
            final(self).area.nodes@.len() == old(self).area.nodes@.len(),
    {
        let ghost s0 = *old(self);
        let ghost kk = s0.nkey(found);
        let ghost vm = (v.meta, v.expires_at, v.v@);
        proof {
            assert(s0.chain_ok(0) && s0.sorted_ok(0));
            assert(s0.node_wf(found));
        }
        let esz: usize = v.encoded_size();
        let vo: u32 = self.area.put_value(v);
        let enc: u64 = encode_value(vo, esz as u32);
        proof {
            lemma_value_word_round_trip(vo, esz as u32);
        }
        let node = self.area.get_node_mut(found);
        node.set_value(enc);
        proof {
            let s2 = *self;
            lemma_wf_preserved(s0, s2, found);
            assert(s2.val_off(found) == vo && s2.val_size(found) == esz);
            assert(s2.area.buf@.subrange(vo as int, vo as int + esz as int) == value_bytes(
                v.meta,
                v.expires_at,
                v.v@,
            ));
            crate::entry::lemma_value_codec_round_trip(v.meta, v.expires_at, v.v@);
            assert(s2.node_val(found) == vm);
            assert(s2.nkey(found) == kk);
            assert forall|p: int| 0 <= p < s0.lv(0).len() implies s2.nkey(#[trigger] s0.lv(0)[p])
                == s0.nkey(s0.lv(0)[p]) by {
                assert(s0.node_wf(s0.lv(0)[p]));
                if s0.lv(0)[p] == found {
                }
            }
            assert forall|p: int| 0 <= p < s0.lv(0).len() && p != t implies s2.node_val(
                #[trigger] s0.lv(0)[p],
            ) == s0.node_val(s0.lv(0)[p]) by {
                assert(s0.node_wf(s0.lv(0)[p]));
                assert(s0.lv(0)[p] != found) by {
                    if s0.lv(0)[p] == found {
                        lemma_key_cmp_eq(kk, kk);
                        if p < t {
                            assert(key_lt(s0.nkey(s0.lv(0)[p]), s0.nkey(s0.lv(0)[t])));
                        } else {
                            assert(key_lt(s0.nkey(s0.lv(0)[t]), s0.nkey(s0.lv(0)[p])));
                        }
                    }
                }
            }
            lemma_model_update(s0, s2, t, kk, vm);
        }
    }

    /// Inserts or updates. After the call the list's map holds `e.key`
    /// bound to `e`'s meta byte, expiry and payload, and every other key
    /// is untouched. A key already present has its node's value word
    /// swapped in place; a new key gets a node of random height spliced
    /// into the lowest levels.
    #[verifier::rlimit(100)]
    #[verifier::spinoff_prover]
    pub fn add(&mut self, e: Entry)
        requires
            old(self).wf(),
            e.key@.len() > 8,
            e.key@.len() <= u16::MAX,
            e.value@.len() + 11 <= usize::MAX,
            1 + size_varint_spec(e.expires_at as nat) + e.value@.len() <= u32::MAX,
            old(self).area.n + (MAX_NODE_SIZE + NODE_ALIGN) + e.key@.len() + 1 + size_varint_spec(
                e.expires_at as nat,
            ) + e.value@.len() <= old(self).area.buf@.len(),
            old(self).area.nodes@.len() + 1 <= u32::MAX,
        ensures
            final(self).wf(),
            final(self).model() == old(self).model().insert(
                e.key@,
                (e.meta, e.expires_at, e.value@),
            ),
            final(self).area.buf@.len() == old(self).area.buf@.len(),
            final(self).head_offset == old(self).head_offset,
            old(self).area.n <= final(self).area.n,
            final(self).area.n <= old(self).area.n + (MAX_NODE_SIZE + NODE_ALIGN) + e.key@.len()
                + 1 + size_varint_spec(e.expires_at as nat) + e.value@.len(),
            old(self).contains_key(e.key@) ==> final(self).area.nodes@.len() == old(
                self,
            ).area.nodes@.len() && final(self).area.n == old(self).area.n + 1
                + size_varint_spec(e.expires_at as nat) + e.value@.len(),
            !old(self).contains_key(e.key@) ==> final(self).area.nodes@.len() == old(
                self,
            ).area.nodes@.len() + 1,
    {
        let ghost s0 = *old(self);
        let ghost kk = e.key@;
        let ghost vm = (e.meta, e.expires_at, e.value@);
        let key: Vec<u8> = e.key;
        let v = Value { meta: e.meta, v: e.value, expires_at: e.expires_at, version: e.version };
        let list_height: i32 = self.height;
        let mut prev: Vec<u32> = Vec::new();
        let mut next: Vec<u32> = Vec::new();
        let mut z: usize = 0;
        while z < MAX_HEIGHT + 1
            invariant
                prev@.len() == z,
                next@.len() == z,
                z <= MAX_HEIGHT + 1,
                forall|q: int| 0 <= q < z ==> prev@[q] == 0 && next@[q] == 0,
            decreases MAX_HEIGHT + 1 - z,
        {
            prev.push(0);
            next.push(0);
            z = z + 1;
        }
        prev.set(list_height as usize, self.head_offset);
        let mut i: i32 = list_height - 1;
        while i >= 0
            invariant
                *self == s0,
                s0 == *old(self),
                s0.wf(),
                kk == key@,
                kk == e.key@,
                vm == (e.meta, e.expires_at, e.value@),
                key@.len() > 8,
                key@.len() <= u16::MAX,
                v.meta == vm.0 && v.expires_at == vm.1 && v.v@ == vm.2,
                v.v@.len() + 11 <= usize::MAX,
                1 + size_varint_spec(v.expires_at as nat) + v.v@.len() <= u32::MAX,
                s0.area.n + (MAX_NODE_SIZE + NODE_ALIGN) + key@.len() + 1 + size_varint_spec(
                    v.expires_at as nat,
                ) + v.v@.len() <= s0.area.buf@.len(),
                s0.area.nodes@.len() + 1 <= u32::MAX,
                -1 <= i <= list_height - 1,
                list_height == s0.height,
                prev@.len() == MAX_HEIGHT + 1,
                next@.len() == MAX_HEIGHT + 1,
                prev@[list_height as int] == s0.head_offset,
                forall|l: int| list_height <= l <= MAX_HEIGHT ==> next@[l] == 0,
                forall|l: int| list_height < l <= MAX_HEIGHT ==> prev@[l] == 0,
                forall|jl: int|
                    i < jl < list_height ==> splice_ok(s0, jl, kk, #[trigger] prev@[jl], next@[jl]),
            decreases i + 1,
        {
            let before: u32 = prev[(i + 1) as usize];
            proof {
                if i + 1 < list_height {
                    assert(splice_ok(s0, i as int + 1, kk, prev@[i as int + 1], next@[i as int
                        + 1]));
                    let j1 = first_geq_at(s0, i as int + 1, kk);
                    lemma_first_geq_props(s0, i as int + 1, kk);
                    if j1 > 0 {
                        let b = s0.lv(i as int + 1)[j1 - 1];
                        assert(key_lt(s0.nkey(b), kk));
                        assert(s0.subset_ok(i as int));
                        assert(s0.lv(i as int).contains(s0.lv(i as int + 1)[j1 - 1]));
                        let pb = choose|p: int|
                            0 <= p < s0.lv(i as int).len() && s0.lv(i as int)[p] == b;
                        assert(0 <= pb < s0.lv(i as int).len() && s0.lv(i as int)[pb] == before
                            && key_lt(s0.nkey(before), kk));
                    }
                }
            }
            let r = self.find_splice_for_level(key.as_slice(), before, i);
            let ghost fgi = first_geq_at(s0, i as int, kk);
            proof {
                lemma_first_geq_props(s0, i as int, kk);
                assert(s0.chain_ok(i as int) && s0.sorted_ok(i as int));
            }
            if r.0 == r.1 {
                let found: u32 = r.0;
                proof {
                    assert(fgi < s0.lv(i as int).len() && s0.nkey(s0.lv(i as int)[fgi]) == kk
                        && found == s0.lv(i as int)[fgi]);
                    assert(s0.node_wf(found));
                    assert(s0.lv(i as int).contains(found)) by {
                        assert(s0.lv(i as int)[fgi] == found);
                    }
                    lemma_member_in_level0(s0, i as int, found);
                }
                let ghost t = choose|p: int| 0 <= p < s0.lv(0).len() && s0.lv(0)[p] == found;
                proof {
                    assert(s0.nkey(found) == kk);
                    assert(s0.contains_key(kk)) by {
                        assert(0 <= t < s0.lv(0).len() && s0.nkey(s0.lv(0)[t]) == kk);
                    }
                }
                self.set_node_value(found, &v, Ghost(t));
                return ;
            }
            prev.set(i as usize, r.0);
            next.set(i as usize, r.1);
            proof {
                assert(splice_ok(s0, i as int, kk, r.0, r.1));
            }
            i = i - 1;
        }
        proof {
            assert(splice_ok(s0, 0, kk, prev@[0], next@[0]));
            assert forall|p: int| 0 <= p < s0.lv(0).len() implies s0.nkey(#[trigger] s0.lv(0)[p])
                != kk by {
                let j0 = first_geq_at(s0, 0, kk);
                lemma_first_geq_props(s0, 0, kk);
                assert(s0.chain_ok(0) && s0.sorted_ok(0));
                assert(s0.node_wf(s0.lv(0)[p]));
                if p < j0 {
                    lemma_key_cmp_eq(s0.nkey(s0.lv(0)[p]), kk);
                } else if p > j0 {
                    if s0.nkey(s0.lv(0)[p]) == kk {
                        assert(key_lt(s0.nkey(s0.lv(0)[j0]), s0.nkey(s0.lv(0)[p])));
                        assert(!key_lt(s0.nkey(s0.lv(0)[j0]), kk));
                    }
                }
            }
            assert forall|l: int, p: int|
                0 <= l < MAX_HEIGHT && 0 <= p < s0.lv(l).len() implies s0.nkey(
                #[trigger] s0.lv(l)[p],
            ) != kk by {
                let h = s0.lv(l)[p];
                assert(s0.lv(l).contains(h)) by {
                    assert(s0.lv(l)[p] == h);
                }
                lemma_member_in_level0(s0, l, h);
                let q = choose|q: int| 0 <= q < s0.lv(0).len() && s0.lv(0)[q] == h;
                assert(s0.nkey(s0.lv(0)[q]) != kk);
            }
            assert(!s0.contains_key(kk)) by {
                if s0.contains_key(kk) {
                    let p = choose|p: int|
                        0 <= p < s0.lv(0).len() && s0.nkey(#[trigger] s0.lv(0)[p]) == kk;
                }
            }
        }
        let height: usize = random_height();
        let key2: Vec<u8> = clone_bytes(&key);
        let new_h: u32 = new_node(&mut self.area, key2, &v, height);
        if (height as i32) > list_height {
            self.height = height as i32;
        }
        let ghost s1 = *self;
        proof {
            lemma_wf_preserved(s0, s1, 0);
            assert(s1.wf());
            // the freshly built node
            assert(s1.valid_handle(new_h) && new_h == s0.area.nodes@.len() + 1);
            assert(s1.node_of(new_h).height == height);
            assert(s1.node_wf(new_h)) by {
                lemma_value_word_round_trip(
                    ((s0.area.n + node_footprint(height as int) + kk.len()) as u32),
                    ((1 + size_varint_spec(vm.1 as nat) + vm.2.len()) as u32),
                );
            }
            assert(s1.nkey(new_h) =~= kk);
            assert(s1.node_val(new_h) == vm) by {
                crate::entry::lemma_value_codec_round_trip(vm.0, vm.1, vm.2);
            }
            assert(new_h != s1.head_offset) by {
                assert(s0.valid_handle(s0.head_offset));
            }
            // the fresh handle hangs on no level yet
            assert forall|l: int| 0 <= l < MAX_HEIGHT implies !s1.lv(l).contains(new_h) by {
                if s1.lv(l).contains(new_h) {
                    let p = choose|p: int| 0 <= p < s1.lv(l).len() && s1.lv(l)[p] == new_h;
                    assert(s0.chain_ok(l));
                    assert(s0.node_wf(s0.lv(l)[p]));
                }
            }
            // stability of every member's views between s0 and s1
            assert forall|l: int, p: int|
                0 <= l < MAX_HEIGHT && 0 <= p < s1.lv(l).len() implies s1.nkey(
                #[trigger] s1.lv(l)[p],
            ) == s0.nkey(s0.lv(l)[p]) && s1.node_val(s1.lv(l)[p]) == s0.node_val(s0.lv(l)[p]) by {
                assert(s0.chain_ok(l));
                assert(s0.node_wf(s0.lv(l)[p]));
            }
            // splice data transported to the snapshot
            assert forall|l: int| 0 <= l < list_height implies splice_ok(
                s1,
                l,
                kk,
                #[trigger] prev@[l],
                next@[l],
            ) && prev@[l] >= 1 by {
                lemma_first_geq_stable(s0, s1, l, kk);
                assert(splice_ok(s0, l, kk, prev@[l], next@[l]));
                let j = first_geq_at(s0, l, kk);
                lemma_first_geq_props(s0, l, kk);
                assert(s0.chain_ok(l));
                if j > 0 {
                    assert(s0.node_wf(s0.lv(l)[j - 1]));
                }
                if j < s0.lv(l).len() {
                    assert(s1.nkey(s1.lv(l)[j]) == s0.nkey(s0.lv(l)[j]));
                }
            }
            assert forall|l: int| list_height <= l < MAX_HEIGHT implies s1.lv(l).len() == 0 by {
                assert(s0.lv(l).len() == 0);
            }
            assert((height as int) <= s1.height as int);
            lemma_model_same(s0, s1);
        }
        let mut li: usize = 0;
        while li < height
            invariant
                self.wf(),
                s1.wf(),
                s0 == *old(self),
                s1.model() == s0.model(),
                s1.area.buf@.len() == s0.area.buf@.len(),
                s1.head_offset == s0.head_offset,
                !s0.contains_key(kk),
                s1.area.nodes@.len() == s0.area.nodes@.len() + 1,
                s1.area.n == s0.area.n + node_footprint(height as int) + kk.len() + 1
                    + size_varint_spec(vm.1 as nat) + vm.2.len(),
                kk == key@,
                kk == e.key@,
                vm == (e.meta, e.expires_at, e.value@),
                key@.len() > 8,
                self.head_offset == s1.head_offset,
                self.height == s1.height,
                self.area.buf == s1.area.buf,
                self.area.n == s1.area.n,
                self.area.nodes@.len() == s1.area.nodes@.len(),
                li <= height,
                1 <= height <= MAX_HEIGHT,
                (height as int) <= s1.height as int,
                list_height == s0.height,
                s1.valid_handle(new_h),
                new_h != s1.head_offset,
                s1.node_wf(new_h),
                s1.node_of(new_h).height == height,
                s1.nkey(new_h) == kk,
                s1.node_val(new_h) == vm,
                forall|hh: u32|
                    s1.valid_handle(hh) ==> {
                        let n1 = s1.node_of(hh);
                        let n2 = (#[trigger] self.node_of(hh));
                        &&& n2.key_offset == n1.key_offset
                        &&& n2.key_size == n1.key_size
                        &&& n2.value == n1.value
                        &&& n2.height == n1.height
                        &&& n2.tower@.len() == n1.tower@.len()
                    },
                forall|l: int| li <= l < MAX_HEIGHT ==> #[trigger] self.lv(l) == s1.lv(l),
                forall|l: int|
                    0 <= l < li ==> #[trigger] self.lv(l) == s1.lv(l).insert(
                        first_geq_at(s1, l, kk),
                        new_h,
                    ),
                forall|l: int, p: int|
                    0 <= l < MAX_HEIGHT && 0 <= p < s1.lv(l).len() ==> s1.nkey(
                        #[trigger] s1.lv(l)[p],
                    ) != kk,
                forall|l: int| 0 <= l < MAX_HEIGHT ==> !s1.lv(l).contains(new_h),
                prev@.len() == MAX_HEIGHT + 1,
                next@.len() == MAX_HEIGHT + 1,
                prev@[list_height as int] == s1.head_offset,
                forall|l: int| list_height <= l <= MAX_HEIGHT ==> next@[l] == 0,
                forall|l: int| list_height < l <= MAX_HEIGHT ==> prev@[l] == 0,
                forall|l: int|
                    li <= l < list_height ==> splice_ok(s1, l, kk, #[trigger] prev@[l], next@[l])
                        && prev@[l] >= 1,
                forall|l: int| list_height <= l < MAX_HEIGHT ==> s1.lv(l).len() == 0,
            decreases height - li,
        {
            // every member's key view in the current state equals its view
            // in the snapshot: the buffer and the key fields are the same
            proof {
                assert forall|p: int| 0 <= p < s1.lv(li as int).len() implies self.nkey(
                    #[trigger] s1.lv(li as int)[p],
                ) == s1.nkey(s1.lv(li as int)[p]) by {
                    assert(s1.chain_ok(li as int));
                    assert(s1.node_wf(s1.lv(li as int)[p]));
                }
                lemma_first_geq_stable(s1, *self, li as int, kk);
                lemma_first_geq_props(s1, li as int, kk);
                assert(self.nkey(new_h) == s1.nkey(new_h));
            }
            let mut p_i: u32 = prev[li];
            let mut n_i: u32 = next[li];
            if p_i == 0 {
                proof {
                    assert(li as int >= list_height);
                    assert(s1.lv(li as int).len() == 0);
                    assert(self.lv(li as int).len() == 0);
                }
                let r = self.find_splice_for_level(key.as_slice(), self.head_offset, li as i32);
                p_i = r.0;
                n_i = r.1;
                proof {
                    assert(s1.lv(li as int).len() == 0);
                    assert(first_geq_at(s1, li as int, kk) == 0);
                    assert(first_geq_at(*self, li as int, kk) == 0);
                    assert(p_i == self.head_offset && n_i == 0);
                }
            } else {
                proof {
                    if li as int == list_height {
                        assert(p_i == s1.head_offset && n_i == 0);
                        assert(s1.lv(li as int).len() == 0);
                        assert(first_geq_at(s1, li as int, kk) == 0);
                    } else if li as int > list_height {
                        assert(p_i == 0);
                    } else {
                        assert(splice_ok(s1, li as int, kk, p_i, n_i));
                    }
                }
            }
            let ghost pre = *self;
            proof {
                // the splice bracket holds in the current state
                let j = first_geq_at(s1, li as int, kk);
                assert(first_geq_at(pre, li as int, kk) == j);
                if li as int >= list_height {
                    assert(j == 0 && p_i == pre.head_offset && n_i == 0);
                }
                assert(pre.node_wf(new_h)) by {
                    assert(s1.node_wf(new_h));
                }
                assert(pre.nkey(new_h) == kk);
                if li > 0 {
                    assert(pre.lv(li as int - 1) == s1.lv(li as int - 1).insert(
                        first_geq_at(s1, li as int - 1, kk),
                        new_h,
                    ));
                    lemma_first_geq_props(s1, li as int - 1, kk);
                    lemma_insert_contains(
                        s1.lv(li as int - 1),
                        first_geq_at(s1, li as int - 1, kk),
                        new_h,
                        new_h,
                    );
                }
                assert forall|p: int| 0 <= p < pre.lv(li as int).len() implies pre.nkey(
                    #[trigger] pre.lv(li as int)[p],
                ) != kk by {
                    assert(pre.lv(li as int)[p] == s1.lv(li as int)[p]);
                    assert(s1.nkey(s1.lv(li as int)[p]) != kk);
                }
            }
            self.link_level(li, new_h, p_i, n_i, Ghost(kk));
            proof {
                let j = first_geq_at(pre, li as int, kk);
                assert(self.levels@ == pre.levels@.update(
                    li as int,
                    pre.lv(li as int).insert(j, new_h),
                ));
                assert(pre.lv(li as int) == s1.lv(li as int));
                assert(j == first_geq_at(s1, li as int, kk));
                assert forall|l: int| li + 1 <= l < MAX_HEIGHT implies #[trigger] self.lv(l)
                    == s1.lv(l) by {
                    assert(pre.lv(l) == s1.lv(l));
                }
                assert forall|l: int|
                    0 <= l < li + 1 implies #[trigger] self.lv(l) == s1.lv(l).insert(
                    first_geq_at(s1, l, kk),
                    new_h,
                ) by {
                    if l < li {
                        assert(pre.lv(l) == s1.lv(l).insert(first_geq_at(s1, l, kk), new_h));
                    }
                }
                assert forall|hh: u32| s1.valid_handle(hh) implies {
                    let n1 = s1.node_of(hh);
                    let n2 = (#[trigger] self.node_of(hh));
                    &&& n2.key_offset == n1.key_offset
                    &&& n2.key_size == n1.key_size
                    &&& n2.value == n1.value
                    &&& n2.height == n1.height
                    &&& n2.tower@.len() == n1.tower@.len()
                } by {
                    assert(pre.valid_handle(hh));
                }
            }
            li = li + 1;
        }
        proof {
            let s2 = *self;
            let pos0 = first_geq_at(s1, 0, kk);
            lemma_first_geq_props(s1, 0, kk);
            assert(s2.lv(0) == s1.lv(0).insert(pos0, new_h));
            assert(node_footprint(height as int) <= MAX_NODE_SIZE + NODE_ALIGN);
            // the final state adds exactly the new binding
            assert(s2.nkey(new_h) == s1.nkey(new_h) && s2.node_val(new_h) == s1.node_val(new_h))
                by {
                assert(s1.node_wf(new_h));
            }
            assert forall|p: int| 0 <= p < s1.lv(0).len() implies s2.nkey(#[trigger] s1.lv(0)[p])
                == s1.nkey(s1.lv(0)[p]) && s2.node_val(s1.lv(0)[p]) == s1.node_val(
                s1.lv(0)[p],
            ) by {
                assert(s1.chain_ok(0));
                assert(s1.node_wf(s1.lv(0)[p]));
            }
            lemma_model_insert_new(s1, s2, new_h, pos0, kk, vm);
        }
    }
}

/// The base-level position where `k` would sit is pinned down by its
/// neighbours: everything before is below `k`, the position is not.
pub proof fn lemma_fg_unique(s: SkipList, l: int, k: Seq<u8>, q: int)
    requires
        s.sorted_ok(l),
        0 <= q <= s.lv(l).len(),
        forall|p: int| 0 <= p < q ==> key_lt(s.nkey(#[trigger] s.lv(l)[p]), k),
        q < s.lv(l).len() ==> !key_lt(s.nkey(s.lv(l)[q]), k),
    ensures
        first_geq_at(s, l, k) == q,
{
    lemma_first_geq_props(s, l, k);
    let j = first_geq_at(s, l, k);
    if j < q {
        assert(key_lt(s.nkey(s.lv(l)[j]), k));
    }
    if j > q {
        assert(key_lt(s.nkey(s.lv(l)[q]), k));
    }
}

/// The user part of a key: everything before the 8-byte suffix, or the
/// whole key when it is too short to carry one.
pub open spec fn parse_key_spec(k: Seq<u8>) -> Seq<u8> {
    if k.len() < 8 {
        k
    } else {
        k.take(k.len() - 8)
    }
}

/// Key equality that overlooks the timestamp suffix: same length, same
/// user part.
pub open spec fn same_key_spec(a: Seq<u8>, b: Seq<u8>) -> bool {
    a.len() == b.len() && parse_key_spec(a) == parse_key_spec(b)
}

/// The value of an 8-byte big-endian run.
pub open spec fn be64_val(s: Seq<u8>) -> nat
    decreases s.len(),
{
    if s.len() == 0 {
        0
    } else {
        (be64_val(s.drop_last()) * 256 + s.last()) as nat
    }
}

/// The user part of a framed key.
pub fn parse_key(key: &[u8]) -> (r: &[u8])
    ensures
        r@ == parse_key_spec(key@),
{
    if key.len() < 8 {
        key
    } else {
        let r: &[u8] = key.split_at(key.len() - 8).0;
        proof {
            assert(r@ =~= parse_key_spec(key@));
        }
        r
    }
}

/// The timestamp a framed key carries, undoing the descending transform;
/// 0 when the key is too short to carry one.
pub fn parse_ts(key: &[u8]) -> (r: u64)
    ensures
        key@.len() <= 8 ==> r == 0,
        key@.len() > 8 ==> r == u64::MAX - be64_val(key@.skip(key@.len() - 8)),
{
    if key.len() <= 8 {
        return 0;
    }
    let from: usize = key.len() - 8;
    let mut acc: u64 = 0;
    let mut i: usize = 0;
    proof {
        vstd::arithmetic::power2::lemma2_to64();
        assert(key@.subrange(from as int, from as int).len() == 0);
    }
    while i < 8
        invariant
            i <= 8,
            from + 8 == key@.len(),
            from + 8 <= usize::MAX,
            key@.len() > 8,
            from < key@.len(),
            acc == be64_val(key@.subrange(from as int, from + i)),
            acc < pow2((8 * i) as nat),
        decreases 8 - i,
    {
        proof {
            vstd::arithmetic::power2::lemma2_to64();
            vstd::arithmetic::power2::lemma2_to64_rest();
            vstd::arithmetic::power2::lemma_pow2_adds((8 * i) as nat, 8);
            if 8 * i + 8 < 64 {
                vstd::arithmetic::power2::lemma_pow2_strictly_increases(
                    (8 * i + 8) as nat,
                    64,
                );
            }
            let pre = key@.subrange(from as int, from + i);
            let post = key@.subrange(from as int, from + i + 1);
            assert(post.drop_last() =~= pre);
            assert(post.last() == key@[from + i]);
            assert((8 * (i + 1)) as nat == (8 * i + 8) as nat);
            assert(pow2((8 * i) as nat) * 256 == pow2((8 * (i + 1)) as nat)) by {
                assert(pow2(8) == 256);
            }
            assert(acc * 256 + 255 < pow2((8 * (i + 1)) as nat)) by (nonlinear_arith)
                requires
                    acc < pow2((8 * i) as nat),
                    pow2((8 * i) as nat) * 256 == pow2((8 * (i + 1)) as nat),
            ;
            assert(pow2((8 * (i + 1)) as nat) <= pow2(64)) by {
                if 8 * i + 8 < 64 {
                } else {
                    assert(8 * (i + 1) == 64);
                }
            }
            assert(pow2(64) == 0x10000000000000000);
        }
        acc = acc * 256 + (key[from + i] as u64);
        i = i + 1;
    }
    proof {
        assert(key@.subrange(from as int, from + 8) =~= key@.skip(key@.len() - 8));
    }
    u64::MAX - acc
}

/// Whether two keys name the same user entry, timestamps aside.
pub fn same_key(src: &[u8], dst: &[u8]) -> (r: bool)
    ensures
        r == same_key_spec(src@, dst@),
{
    if src.len() != dst.len() {
        return false;
    }
    let cut: usize = if src.len() < 8 {
        src.len()
    } else {
        src.len() - 8
    };
    let c: i32 = crate::keys::cmp_sub(src, 0, cut, dst, 0, cut);
    proof {
        crate::keys::lemma_lex_cmp_eq(
            src@.subrange(0, cut as int),
            dst@.subrange(0, cut as int),
        );
        assert(src@.subrange(0, cut as int) =~= parse_key_spec(src@));
        assert(dst@.subrange(0, cut as int) =~= parse_key_spec(dst@));
    }
    c == 0
}

/// Frames a key: appends the big-endian bytes of `u64::MAX - ts`, so
/// that newer timestamps sort first.
pub fn key_with_ts(key: &[u8], ts: u64) -> (r: Vec<u8>)
    requires
        key@.len() + 8 <= usize::MAX,
    ensures
        r@.len() == key@.len() + 8,
        r@.subrange(0, key@.len() as int) == key@,
        be64_val(r@.skip(key@.len() as int)) == u64::MAX - ts,
{
    let mut out: Vec<u8> = Vec::new();
    let mut i: usize = 0;
    while i < key.len()
        invariant
            i <= key@.len(),
            out@ =~= key@.subrange(0, i as int),
        decreases key@.len() - i,
    {
        out.push(key[i]);
        i = i + 1;
    }
    let klen: usize = key.len();
    let x: u64 = u64::MAX - ts;
    proof {
        vstd::arithmetic::power2::lemma2_to64_rest();
        assert(out@.skip(klen as int) =~= Seq::<u8>::empty());
        assert(x as nat / pow2(64) == 0) by (nonlinear_arith)
            requires
                x < pow2(64),
                pow2(64) > 0,
        ;
    }
    let mut div: u64 = 0x100_0000_0000_0000;
    let mut j: usize = 0;
    while j < 8
        invariant
            j <= 8,
            x == u64::MAX - ts,
            out@.len() == klen + j,
            klen == key@.len(),
            out@.subrange(0, klen as int) =~= key@,
            j < 8 ==> div as nat == pow2((8 * (7 - j)) as nat),
            be64_val(out@.skip(klen as int)) == x as nat / pow2((8 * (8 - j)) as nat),
        decreases 8 - j,
    {
        proof {
            vstd::arithmetic::power2::lemma2_to64();
            vstd::arithmetic::power2::lemma2_to64_rest();
            vstd::arithmetic::power2::lemma_pow2_adds((8 * (7 - j)) as nat, 8);
            vstd::arithmetic::power2::lemma_pow2_pos((8 * (7 - j)) as nat);
        }
        let b: u8 = ((x / div) % 256) as u8;
        proof {
            let tail0 = out@.skip(klen as int);
            let tail1 = out@.push(b).skip(klen as int);
            assert(tail1.drop_last() =~= tail0);
            assert(tail1.last() == b);
            let small = pow2((8 * (7 - j)) as nat);
            let big = pow2((8 * (8 - j)) as nat);
            assert((x as nat / big) * 256 + (x as nat / small) % 256 == x as nat / small)
                by (nonlinear_arith)
                requires
                    small > 0,
                    big == small * 256,
            ;
            assert(out@.push(b).subrange(0, klen as int) =~= key@);
        }
        out.push(b);
        if j < 7 {
            proof {
                vstd::arithmetic::power2::lemma_pow2_adds((8 * (6 - j)) as nat, 8);
                vstd::arithmetic::power2::lemma_pow2_pos((8 * (6 - j)) as nat);
                assert((pow2((8 * (6 - j)) as nat) * 256) / 256 == pow2((8 * (6 - j)) as nat))
                    by (nonlinear_arith)
                    requires
                        pow2((8 * (6 - j)) as nat) > 0,
                ;
            }
            div = div / 256;
        }
        j = j + 1;
    }
    proof {
        assert(pow2(0) == 1) by {
            vstd::arithmetic::power2::lemma2_to64();
        }
        assert((8 * (8 - j)) as nat == 0nat);
        assert(x as nat / 1 == x as nat);
        assert(be64_val(out@.skip(klen as int)) == x as nat);
        assert(out@.subrange(0, key@.len() as int) == key@);
    }
    out
}

/// A node met anywhere in the walk that carries exactly `k` sits at the
/// first base-level position whose key is not below `k`.
pub proof fn lemma_found_at(s: SkipList, k: Seq<u8>, l: int, pp: int)
    requires
        s.wf(),
        0 <= l < MAX_HEIGHT,
        0 <= pp < s.lv(l).len(),
        s.nkey(s.lv(l)[pp]) == k,
        k.len() > 8,
    ensures
        ({
            let j = first_geq_at(s, 0, k);
            &&& 0 <= j < s.lv(0).len()
            &&& s.lv(0)[j] == s.lv(l)[pp]
            &&& s.nkey(s.lv(0)[j]) == k
        }),
{
    let h = s.lv(l)[pp];
    assert(s.chain_ok(l) && s.chain_ok(0) && s.sorted_ok(0));
    assert(s.lv(l).contains(h)) by {
        assert(s.lv(l)[pp] == h);
    }
    lemma_member_in_level0(s, l, h);
    let q0 = choose|q: int| 0 <= q < s.lv(0).len() && #[trigger] s.lv(0)[q] == h;
    assert forall|p: int| 0 <= p < q0 implies key_lt(s.nkey(#[trigger] s.lv(0)[p]), k) by {
        assert(key_lt(s.nkey(s.lv(0)[p]), s.nkey(s.lv(0)[q0])));
    }
    assert(!key_lt(s.nkey(s.lv(0)[q0]), k)) by {
        lemma_key_cmp_eq(k, k);
    }
    lemma_fg_unique(s, 0, k, q0);
}

/// A walk that stops at the base level between a node below `k` and a
/// successor not below it has found the splice position.
pub proof fn lemma_bracket_at_base(s: SkipList, k: Seq<u8>, pos: int, x: u32)
    requires
        s.wf(),
        k.len() > 8,
        -1 <= pos,
        pos == -1 ==> x == s.head_offset,
        pos >= 0 ==> 0 <= pos < s.lv(0).len() && s.lv(0)[pos] == x && key_lt(s.nkey(x), k),
        pos + 1 <= s.lv(0).len(),
        pos + 1 == s.lv(0).len() || !key_lt(s.nkey(s.lv(0)[pos + 1]), k),
    ensures
        first_geq_at(s, 0, k) == pos + 1,
{
    assert(s.chain_ok(0) && s.sorted_ok(0));
    assert forall|p: int| 0 <= p < pos + 1 implies key_lt(s.nkey(#[trigger] s.lv(0)[p]), k) by {
        if p < pos {
            assert(key_lt(s.nkey(s.lv(0)[p]), s.nkey(s.lv(0)[pos])));
            lemma_key_lt_trans(s.nkey(s.lv(0)[p]), s.nkey(s.lv(0)[pos]), k);
        }
    }
    lemma_fg_unique(s, 0, k, pos + 1);
}

impl SkipList {
    /// Positional query on the base level. With `j` the first position
    /// whose key is not below `key`: not-less modes hand back the node at
    /// `j` (skipping it when equal keys are ruled out and it carries
    /// exactly `key`); less modes hand back the node before `j` (or the
    /// node at `j` itself when equal keys are allowed and it carries
    /// exactly `key`). The flag reports an exact hit.
    #[verifier::rlimit(100)]
    #[verifier::spinoff_prover]
    pub fn find_near(&self, key: &[u8], less: bool, allow_equal: bool) -> (r: (Option<u32>, bool))
        requires
            self.wf(),
            key@.len() > 8,
        ensures
            ({
                let l0 = self.lv(0);
                let j = first_geq_at(*self, 0, key@);
                let eq = j < l0.len() && self.nkey(l0[j]) == key@;
                if !less && allow_equal {
                    if j < l0.len() {
                        r == (Some(l0[j]), eq)
                    } else {
                        r == (None::<u32>, false)
                    }
                } else if !less && !allow_equal {
                    let j2 = if eq {
                        j + 1
                    } else {
                        j
                    };
                    if j2 < l0.len() {
                        r == (Some(l0[j2]), false)
                    } else {
                        r == (None::<u32>, false)
                    }
                } else if less && allow_equal {
                    if eq {
                        r == (Some(l0[j]), true)
                    } else if j > 0 {
                        r == (Some(l0[j - 1]), false)
                    } else {
                        r == (None::<u32>, false)
                    }
                } else {
                    if j > 0 {
                        r == (Some(l0[j - 1]), false)
                    } else {
                        r == (None::<u32>, false)
                    }
                }
            }),
    {
        let ghost l0 = self.lv(0);
        let ghost fg0 = first_geq_at(*self, 0, key@);
        proof {
            lemma_first_geq_props(*self, 0, key@);
        }
        let mut x: u32 = self.head_offset;
        let mut level: i32 = self.get_height() - 1;
        let ghost mut pos: int = -1int;
        loop
            invariant
                self.wf(),
                key@.len() > 8,
                l0 == self.lv(0),
                fg0 == first_geq_at(*self, 0, key@),
                0 <= level < self.height,
                -1 <= pos,
                pos == -1 ==> x == self.head_offset,
                pos >= 0 ==> 0 <= pos < self.lv(level as int).len() && self.lv(level as int)[pos]
                    == x && key_lt(self.nkey(x), key@),
            decreases level, self.lv(level as int).len() - pos,
        {
            let ghost lvl = level as int;
            let ghost lvs = self.lv(lvl);
            proof {
                assert(self.chain_ok(lvl));
                assert(self.head_wf());
                if pos >= 0 {
                    assert(self.lv(lvl)[pos] == x);
                    assert(self.node_wf(x));
                }
            }
            let node_opt = self.area.get_node(x);
            let node = match node_opt {
                Some(n) => n,
                None => {
                    proof {
                        assert(false);
                    }
                    return (None, false);
                },
            };
            proof {
                assert(node_opt matches Some(n) && *n == self.node_of(x));
                if pos >= 0 {
                    assert(node.tower@.len() == self.node_of(x).height);
                } else {
                    assert(node.tower@.len() == MAX_HEIGHT);
                }
            }
            let next: u32 = node.get_next_offset(level);
            proof {
                if pos == -1 {
                    assert(next == (if lvs.len() == 0 {
                        0u32
                    } else {
                        lvs[0]
                    }));
                } else {
                    assert(next == (if pos + 1 < lvs.len() {
                        lvs[pos + 1]
                    } else {
                        0u32
                    }));
                }
            }
            if next == 0 {
                if level > 0 {
                    proof {
                        if pos >= 0 {
                            let lm1 = lvl - 1;
                            assert(self.subset_ok(lm1));
                            assert(self.lv(lm1 + 1) == self.lv(lvl));
                            assert(self.lv(lm1).contains(self.lv(lm1 + 1)[pos]));
                            pos = choose|q: int|
                                0 <= q < self.lv(lvl - 1).len() && #[trigger] self.lv(lvl - 1)[q]
                                    == x;
                        }
                    }
                    level = level - 1;
                    continue ;
                }
                proof {
                    assert(pos + 1 >= lvs.len());
                    lemma_bracket_at_base(*self, key@, pos, x);
                }
                if !less {
                    return (None, false);
                }
                if x == self.head_offset {
                    proof {
                        assert(l0.len() == 0);
                    }
                    return (None, false);
                }
                return (Some(x), false);
            }
            proof {
                assert(0 <= pos + 1 < lvs.len() && lvs[pos + 1] == next);
                assert(self.node_wf(next));
            }
            let next_node_opt = self.area.get_node(next);
            let next_node = match next_node_opt {
                Some(n) => n,
                None => {
                    proof {
                        assert(false);
                    }
                    return (None, false);
                },
            };
            proof {
                assert(next_node_opt matches Some(n) && *n == self.node_of(next));
            }
            let next_key: Vec<u8> = self.area.get_key(next_node.key_offset, next_node.key_size);
            let cmp: i32 = compare_keys(key, next_key.as_slice());
            proof {
                assert(next_key@ == self.nkey(next));
                lemma_key_cmp_eq(key@, self.nkey(next));
                lemma_key_cmp_antisym(key@, self.nkey(next));
            }
            if cmp > 0 {
                proof {
                    assert(key_lt(self.nkey(next), key@));
                    pos = pos + 1;
                }
                x = next;
                continue ;
            }
            if cmp == 0 {
                proof {
                    assert(self.nkey(next) == key@);
                    lemma_found_at(*self, key@, lvl, pos + 1);
                    assert(fg0 < l0.len() && l0[fg0] == next);
                }
                if allow_equal {
                    return (Some(next), true);
                }
                if !less {
                    proof {
                        assert(self.chain_ok(0));
                        assert(self.node_of(next).tower@[0] == (if fg0 + 1 < l0.len() {
                            l0[fg0 + 1]
                        } else {
                            0u32
                        })) by {
                            assert(l0[fg0] == next);
                        }
                        assert(0 < self.node_of(next).height);
                    }
                    let nn: u32 = next_node.get_next_offset(0);
                    if nn == 0 {
                        return (None, false);
                    }
                    return (Some(nn), false);
                }
                if level > 0 {
                    proof {
                        if pos >= 0 {
                            let lm1 = lvl - 1;
                            assert(self.subset_ok(lm1));
                            assert(self.lv(lm1 + 1) == self.lv(lvl));
                            assert(self.lv(lm1).contains(self.lv(lm1 + 1)[pos]));
                            pos = choose|q: int|
                                0 <= q < self.lv(lvl - 1).len() && #[trigger] self.lv(lvl - 1)[q]
                                    == x;
                        }
                    }
                    level = level - 1;
                    continue ;
                }
                proof {
                    lemma_bracket_at_base(*self, key@, pos, x);
                    assert(fg0 == pos + 1);
                }
                if x == self.head_offset {
                    return (None, false);
                }
                return (Some(x), false);
            }
            proof {
                assert(key_lt(key@, self.nkey(next)));
                assert(!key_lt(self.nkey(next), key@));
            }
            if level > 0 {
                proof {
                    if pos >= 0 {
                        let lm1 = lvl - 1;
                        assert(self.subset_ok(lm1));
                        assert(self.lv(lm1 + 1) == self.lv(lvl));
                        assert(self.lv(lm1).contains(self.lv(lm1 + 1)[pos]));
                        pos = choose|q: int|
                            0 <= q < self.lv(lvl - 1).len() && #[trigger] self.lv(lvl - 1)[q]
                                == x;
                    }
                }
                level = level - 1;
                continue ;
            }
            proof {
                lemma_bracket_at_base(*self, key@, pos, x);
                assert(fg0 == pos + 1);
                assert(self.nkey(l0[fg0]) != key@);
            }
            if !less {
                return (Some(next), false);
            }
            if x == self.head_offset {
                return (None, false);
            }
            return (Some(x), false);
        }
    }

    /// Looks a key up: the value of the first node whose key is not
    /// below `key`, provided it names the same user entry; a default
    /// value otherwise.
    pub fn search(&self, key: &[u8]) -> (r: Value)
        requires
            self.wf(),
            key@.len() > 8,
        ensures
            ({
                let l0 = self.lv(0);
                let j = first_geq_at(*self, 0, key@);
                if j < l0.len() && same_key_spec(key@, self.nkey(l0[j])) {
                    r.meta == self.node_val(l0[j]).0 && r.expires_at == self.node_val(l0[j]).1
                        && r.v@ == self.node_val(l0[j]).2 && r.version == 0
                } else {
                    r.meta == 0 && r.expires_at == 0 && r.v@ == Seq::<u8>::empty() && r.version
                        == 0
                }
            }),
    {
        let ghost j = first_geq_at(*self, 0, key@);
        proof {
            lemma_first_geq_props(*self, 0, key@);
            assert(self.chain_ok(0));
        }
        let (n, _) = self.find_near(key, false, true);
        let h: u32 = match n {
            Some(h) => h,
            None => {
                return Value::default();
            },
        };
        proof {
            assert(h == self.lv(0)[j]);
            assert(self.node_wf(h));
        }
        let node_opt = self.area.get_node(h);
        let node = match node_opt {
            Some(nd) => nd,
            None => {
                proof {
                    assert(false);
                }
                return Value::default();
            },
        };
        proof {
            assert(node_opt matches Some(nd) && *nd == self.node_of(h));
        }
        let next_key: Vec<u8> = self.area.get_key(node.key_offset, node.key_size);
        proof {
            assert(next_key@ == self.nkey(h));
        }
        if !same_key(key, next_key.as_slice()) {
            return Value::default();
        }
        let vp = node.get_value_offset();
        proof {
            lemma_value_word_round_trip(vp.0, vp.1);
            assert(self.val_off(h) == vp.0 && self.val_size(h) == vp.1);
        }
        self.area.get_value(vp.0, vp.1)
    }

    /// The node after `nd` at level `height`, straight off its tower.
    pub fn get_next(&self, nd: &Node, height: i32) -> (r: Option<&Node>)
        requires
            0 <= height < nd.tower@.len(),
        ensures
            (nd.tower@[height as int] == 0 || nd.tower@[height as int] as int
                > self.area.nodes@.len()) <==> r is None,
            r matches Some(n) ==> *n == self.node_of(nd.tower@[height as int]),
    {
        let offset: u32 = nd.get_next_offset(height);
        self.area.get_node(offset)
    }

    /// The head sentinel node.
    pub fn get_head(&self) -> (r: Option<&Node>)
        ensures
            (self.head_offset == 0 || self.head_offset as int > self.area.nodes@.len()) <==> r
                is None,
            r matches Some(n) ==> *n == self.node_of(self.head_offset),
    {
        self.area.get_node(self.head_offset)
    }

    /// The list's current height.
    pub fn get_height(&self) -> (r: i32)
        ensures
            r == self.height,
    {
        self.height
    }

    /// A cursor standing before this list.
    pub fn iter(&self) -> (it: crate::iterator::SkipListIter)
        requires
            self.wf(),
        ensures
            it.wf(),
            !it.i,
            it.l == self,
    {
        crate::iterator::new(self)
    }

    /// Decodes the value a node's packed word points at.
    pub fn get_value(&self, n: &Node) -> (r: Value)
        requires
            n.value as int % 0x1_0000_0000 + n.value as int / 0x1_0000_0000
                <= self.area.buf@.len(),
            self.area.buf@.len() <= u32::MAX,
        ensures
            ({
                let region = self.area.buf@.subrange(
                    n.value as int % 0x1_0000_0000,
                    n.value as int % 0x1_0000_0000 + n.value as int / 0x1_0000_0000,
                );
                r.meta == dec_meta(region) && r.expires_at == dec_expires(region) && r.v@
                    == dec_payload(region) && r.version == 0
            }),
    {
        let vp = n.get_value_offset();
        proof {
            lemma_value_word_round_trip(vp.0, vp.1);
        }
        self.area.get_value(vp.0, vp.1)
    }
}

/// Ordering law: on every level of a well-formed list, a linked node's
/// key is strictly below the key of the node its tower points at.
pub proof fn lemma_skiplist_ordering(s: SkipList, l: int, p: int)
    requires
        s.wf(),
        0 <= l < MAX_HEIGHT,
        0 <= p < s.lv(l).len(),
        s.node_of(s.lv(l)[p]).tower@[l] != 0,
    ensures
        p + 1 < s.lv(l).len(),
        s.node_of(s.lv(l)[p]).tower@[l] == s.lv(l)[p + 1],
        key_lt(s.nkey(s.lv(l)[p]), s.nkey(s.node_of(s.lv(l)[p]).tower@[l])),
{
    assert(s.chain_ok(l) && s.sorted_ok(l));
    assert(s.lv(l)[p] == s.lv(l)[p]);
}

/// Upsert law: no two distinct base-level nodes carry the same key, so
/// each key has at most one node in the list.
pub proof fn lemma_key_unique(s: SkipList, p: int, q: int)
    requires
        s.wf(),
        0 <= p < q < s.lv(0).len(),
    ensures
        s.nkey(s.lv(0)[p]) != s.nkey(s.lv(0)[q]),
{
    assert(s.chain_ok(0) && s.sorted_ok(0));
    assert(s.node_wf(s.lv(0)[p]));
    assert(key_lt(s.nkey(s.lv(0)[p]), s.nkey(s.lv(0)[q])));
    lemma_key_cmp_eq(s.nkey(s.lv(0)[p]), s.nkey(s.lv(0)[q]));
}

/// Search-completeness law: a key bound in the list's map is carried by
/// the first base-level node whose key is not below it, and that node
/// holds the value most recently written for the key — so `search`
/// returns exactly the map's binding.
pub proof fn lemma_search_finds(s: SkipList, k: Seq<u8>)
    requires
        s.wf(),
        s.contains_key(k),
    ensures
        ({
            let j = first_geq_at(s, 0, k);
            &&& j < s.lv(0).len()
            &&& s.nkey(s.lv(0)[j]) == k
            &&& same_key_spec(k, s.nkey(s.lv(0)[j]))
            &&& s.node_val(s.lv(0)[j]) == s.model()[k]
        }),
{
    let p = choose|p: int| 0 <= p < s.lv(0).len() && s.nkey(#[trigger] s.lv(0)[p]) == k;
    assert(s.chain_ok(0) && s.sorted_ok(0));
    assert(s.node_wf(s.lv(0)[p]));
    assert forall|q: int| 0 <= q < p implies key_lt(s.nkey(#[trigger] s.lv(0)[q]), k) by {
        assert(key_lt(s.nkey(s.lv(0)[q]), s.nkey(s.lv(0)[p])));
    }
    assert(!key_lt(s.nkey(s.lv(0)[p]), k)) by {
        lemma_key_cmp_eq(k, k);
    }
    lemma_fg_unique(s, 0, k, p);
    lemma_idx_of(s, p);
}

/// The other half of search completeness: when no linked node names
/// the same user entry as `k`, the greater-or-equal walk cannot land on
/// one either, so `search` answers the default value.
pub proof fn lemma_search_misses(s: SkipList, k: Seq<u8>)
    requires
        s.wf(),
        forall|p: int|
            0 <= p < s.lv(0).len() ==> !same_key_spec(k, s.nkey(#[trigger] s.lv(0)[p])),
    ensures
        ({
            let j = first_geq_at(s, 0, k);
            j < s.lv(0).len() ==> !same_key_spec(k, s.nkey(s.lv(0)[j]))
        }),
{
    lemma_first_geq_props(s, 0, k);
}

impl Node {
    /// The successor handle at level `h`.
    pub fn get_next_offset(&self, h: i32) -> (r: u32)
        requires
            0 <= h < self.tower@.len(),
        ensures
            r == self.tower@[h as int],
    {
        self.tower[h as usize]
    }

    /// The (offset, size) pair held in the packed value word.
    pub fn get_value_offset(&self) -> (r: (u32, u32))
        ensures
            self.value == value_word(r.0, r.1),
    {
        decode_value(self.value)
    }

    /// Replaces the packed value word, leaving the tower and key alone.
    pub fn set_value(&mut self, vo: u64)
        ensures
            final(self).value == vo,
            final(self).key_offset == old(self).key_offset,
            final(self).key_size == old(self).key_size,
            final(self).height == old(self).height,
            final(self).tower == old(self).tower,
    {
        self.value = vo;
    }
}

} // verus!
