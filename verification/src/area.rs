//! The arena: a fixed-capacity byte buffer with a bump pointer. Keys and
//! encoded values are written once into fresh regions and never move;
//! node records are handed out through 32-bit handles, each reserving the
//! aligned footprint of a packed node so the byte accounting matches the
//! size the node would occupy in the buffer. Offset 0 is the null handle,
//! so the bump pointer starts at 1.

use vstd::prelude::*;

verus! {

use crate::entry::{Value, value_bytes, size_varint_spec, dec_meta, dec_expires, dec_payload};
use crate::skiplist::{Node, MAX_HEIGHT};

/// Bytes of one forward link in a node's tower.
pub const OFFSET_SIZE: usize = 4;

/// Alignment slack reserved in front of a node footprint.
pub const NODE_ALIGN: usize = 7;

/// Bytes of a packed node carrying a full tower.
pub const MAX_NODE_SIZE: usize = 96;

/// Bytes a node with a `height`-level tower reserves in the buffer:
/// its packed footprint plus alignment slack.
pub open spec fn node_footprint(height: int) -> int {
    MAX_NODE_SIZE - (MAX_HEIGHT - height) * OFFSET_SIZE + NODE_ALIGN
}

pub struct Area {
    /// Bump pointer: everything below it is handed out.
    pub n: u32,
    /// The backing byte region for keys and encoded values.
    pub buf: Vec<u8>,
    /// The node records; handle `h` names `nodes[h - 1]`, handle 0 nothing.
    pub nodes: Vec<Node>,
    /// Allocation log: every (offset, size) the bump pointer handed out.
    pub allocs: Ghost<Seq<(u32, u32)>>,
}

impl Area {
    /// The arena invariant: the bump pointer stays within the buffer and
    /// the allocation log records disjoint regions in increasing order,
    /// all below the bump pointer and never at offset 0.
    pub open spec fn wf(self) -> bool {
        &&& 1 <= self.n as int <= self.buf@.len()
        &&& self.buf@.len() <= u32::MAX
        &&& forall|i: int|
            0 <= i < self.allocs@.len() ==> (#[trigger] self.allocs@[i]).0 >= 1
                && self.allocs@[i].0 + self.allocs@[i].1 <= self.n
        &&& forall|i: int, j: int|
            #![trigger self.allocs@[i], self.allocs@[j]]
            0 <= i < j < self.allocs@.len() ==> self.allocs@[i].0 + self.allocs@[i].1
                <= self.allocs@[j].0
    }

    /// A fresh arena of `n` zeroed bytes with the bump pointer at 1.
    pub fn new(n: u32) -> (a: Area)
        requires
            n >= 1,
        ensures
            a.wf(),
            a.n == 1,
            a.buf@.len() == n,
            a.nodes@.len() == 0,
            a.allocs@.len() == 0,
            forall|i: int| 0 <= i < n ==> a.buf@[i] == 0,
    {
        let mut buf: Vec<u8> = Vec::new();
        let mut i: u32 = 0;
        while i < n
            invariant
                i <= n,
                buf@.len() == i,
                forall|j: int| 0 <= j < i ==> buf@[j] == 0,
            decreases n - i,
        {
            buf.push(0);
            i = i + 1;
        }
        Area { n: 1, buf, nodes: Vec::new(), allocs: Ghost(Seq::empty()) }
    }

    /// Read access to the backing buffer.
    pub fn get_buf(&self) -> (r: &Vec<u8>)
        ensures
            r == &self.buf,
    {
        &self.buf
    }

    /// Write access to the backing buffer. The caller answers for keeping
    /// regions already handed out intact.
    pub fn get_buf_mut(&mut self) -> (r: &mut Vec<u8>)
        ensures
            *r == old(self).buf,
            final(self).buf == *final(r),
            final(self).n == old(self).n,
            final(self).nodes == old(self).nodes,
            final(self).allocs == old(self).allocs,
    {
        &mut self.buf
    }

    /// Bumps the pointer by `sz` bytes and returns the region's offset.
    pub fn allocate(&mut self, sz: u32) -> (offset: u32)
        requires
            old(self).wf(),
            old(self).n + sz <= old(self).buf@.len(),
        ensures
            final(self).wf(),
            offset == old(self).n,
            final(self).n == old(self).n + sz,
            final(self).buf == old(self).buf,
            final(self).nodes == old(self).nodes,
            final(self).allocs@ == old(self).allocs@.push((offset, sz)),
    {
        let offset: u32 = self.n;
        self.n = self.n + sz;
        proof {
            self.allocs@ = self.allocs@.push((offset, sz));
        }
        offset
    }

    /// How many bytes have been handed out so far.
    pub fn size(&self) -> (r: i64)
        ensures
            r == self.n as i64,
    {
        self.n as i64
    }

    /// Reserves the footprint of a node with a `height`-level tower and
    /// hands back the new node's handle.
    pub fn put_node(&mut self, height: usize) -> (h: u32)
        requires
            old(self).wf(),
            1 <= height <= MAX_HEIGHT,
            old(self).n + (MAX_NODE_SIZE - (MAX_HEIGHT - height) * OFFSET_SIZE + NODE_ALIGN) <= old(self).buf@.len(),
            old(self).nodes@.len() + 1 <= u32::MAX,
        ensures
            final(self).wf(),
            h == old(self).nodes@.len() + 1,
            final(self).nodes@.len() == old(self).nodes@.len() + 1,
            final(self).nodes@ == old(self).nodes@.push(final(self).nodes@.last()),
            final(self).nodes@.last().value == 0,
            final(self).nodes@.last().key_offset == 0,
            final(self).nodes@.last().key_size == 0,
            final(self).nodes@.last().height == height,
            final(self).nodes@.last().tower@ == Seq::<u32>::new(height as nat, |i: int| 0u32),
            final(self).buf == old(self).buf,
            final(self).n == old(self).n + (MAX_NODE_SIZE - (MAX_HEIGHT - height) * OFFSET_SIZE
                + NODE_ALIGN),
            final(self).allocs@ == old(self).allocs@.push(
                (old(self).n, (MAX_NODE_SIZE - (MAX_HEIGHT - height) * OFFSET_SIZE
                + NODE_ALIGN) as u32),
            ),
    {
        let unused: usize = (MAX_HEIGHT - height) * OFFSET_SIZE;
        let sz: u32 = (MAX_NODE_SIZE - unused + NODE_ALIGN) as u32;
        let _offset: u32 = self.allocate(sz);
        let mut tower: Vec<u32> = Vec::new();
        let mut l: usize = 0;
        while l < height
            invariant
                l <= height,
                tower@.len() == l,
                forall|j: int| 0 <= j < l ==> tower@[j] == 0,
            decreases height - l,
        {
            tower.push(0);
            l = l + 1;
        }
        let node = Node { value: 0, key_offset: 0, key_size: 0, height: height as u16, tower };
        self.nodes.push(node);
        proof {
            assert(final(self).nodes@.last().tower@ =~= Seq::<u32>::new(
                height as nat,
                |i: int| 0u32,
            ));
        }
        self.nodes.len() as u32
    }

    /// Copies `key` into a fresh region and returns its offset.
    pub fn put_key(&mut self, key: Vec<u8>) -> (offset: u32)
        requires
            old(self).wf(),
            old(self).n + key@.len() <= old(self).buf@.len(),
        ensures
            final(self).wf(),
            offset == old(self).n,
            final(self).n == old(self).n + key@.len(),
            final(self).buf@.len() == old(self).buf@.len(),
            final(self).buf@.subrange(offset as int, offset + key@.len()) == key@,
            forall|j: int|
                0 <= j < old(self).buf@.len() && !(offset <= j < offset + key@.len()) ==> final(self).buf@[j] == old(self).buf@[j],
            final(self).nodes == old(self).nodes,
            final(self).allocs@ == old(self).allocs@.push((offset, key@.len() as u32)),
    {
        let key_sz: u32 = key.len() as u32;
        let offset: u32 = self.allocate(key_sz);
        let ghost mid = *self;
        let ghost buf0 = self.buf@;
        let base: usize = offset as usize;
        let mut k: usize = 0;
        while k < key.len()
            invariant
                k <= key@.len(),
                self.wf(),
                self.n == mid.n,
                self.nodes == mid.nodes,
                self.allocs == mid.allocs,
                self.buf@.len() == buf0.len(),
                base == mid.n - key@.len(),
                base + key@.len() <= buf0.len(),
                forall|j: int| 0 <= j < k ==> self.buf@[base + j] == key@[j],
                forall|j: int|
                    0 <= j < buf0.len() && !(base <= j < base + k) ==> self.buf@[j] == buf0[j],
            decreases key@.len() - k,
        {
            let b: u8 = key[k];
            let dst: usize = base + k;
            self.buf.set(dst, b);
            k = k + 1;
        }
        proof {
            assert(self.buf@.subrange(offset as int, offset + key@.len()) =~= key@);
        }
        offset
    }

    /// Encodes `value` into a fresh region and returns its offset.
    pub fn put_value(&mut self, value: &Value) -> (offset: u32)
        requires
            old(self).wf(),
            value.v@.len() + 11 <= usize::MAX,
            old(self).n + 1 + size_varint_spec(value.expires_at as nat) + value.v@.len() <= old(self).buf@.len(),
        ensures
            final(self).wf(),
            offset == old(self).n,
            final(self).n == old(self).n + 1 + size_varint_spec(value.expires_at as nat)
                + value.v@.len(),
            final(self).buf@.len() == old(self).buf@.len(),
            final(self).buf@.subrange(
                offset as int,
                offset + 1 + size_varint_spec(value.expires_at as nat) + value.v@.len(),
            ) == value_bytes(value.meta, value.expires_at, value.v@),
            forall|j: int|
                0 <= j < old(self).buf@.len() && !(offset <= j < offset + 1 + size_varint_spec(
                    value.expires_at as nat,
                ) + value.v@.len()) ==> final(self).buf@[j] == old(self).buf@[j],
            final(self).nodes == old(self).nodes,
            final(self).allocs@ == old(self).allocs@.push(
                (offset, (1 + size_varint_spec(value.expires_at as nat) + value.v@.len()) as u32),
            ),
    {
        let encode_sz: usize = value.encoded_size();
        let offset: u32 = self.allocate(encode_sz as u32);
        let at: usize = offset as usize;
        let _written: u32 = value.encode_value(&mut self.buf, at);
        offset
    }

    /// The node behind a handle; 0 and out-of-range handles name nothing.
    pub fn get_node(&self, offset: u32) -> (r: Option<&Node>)
        ensures
            (offset == 0 || offset as int > self.nodes@.len()) <==> r is None,
            r matches Some(node) ==> *node == self.nodes@[offset as int - 1],
    {
        if offset == 0 || offset as usize > self.nodes.len() {
            return None;
        }
        Some(&self.nodes[(offset - 1) as usize])
    }

    /// Mutable access to the node behind a handle.
    pub fn get_node_mut(&mut self, offset: u32) -> (node: &mut Node)
        requires
            1 <= offset as int <= old(self).nodes@.len(),
        ensures
            *node == old(self).nodes@[offset as int - 1],
            final(self).nodes@ == old(self).nodes@.update(offset as int - 1, *final(node)),
            final(self).n == old(self).n,
            final(self).buf == old(self).buf,
            final(self).allocs == old(self).allocs,
    {
        &mut self.nodes[(offset - 1) as usize]
    }

    /// The `sz` key bytes that were written at `offset`.
    pub fn get_key(&self, offset: u32, sz: u16) -> (key: Vec<u8>)
        requires
            offset + sz <= self.buf@.len(),
            self.buf@.len() <= u32::MAX,
        ensures
            key@ == self.buf@.subrange(offset as int, offset + sz),
    {
        let base: usize = offset as usize;
        let end: usize = base + sz as usize;
        let mut key: Vec<u8> = Vec::new();
        let mut k: usize = base;
        while k < end
            invariant
                base <= k <= end,
                end <= self.buf@.len(),
                key@ =~= self.buf@.subrange(base as int, k as int),
            decreases end - k,
        {
            key.push(self.buf[k]);
            k = k + 1;
        }
        proof {
            assert(key@ =~= self.buf@.subrange(offset as int, offset + sz));
        }
        key
    }

    /// Decodes the value whose encoding occupies `sz` bytes at `offset`.
    pub fn get_value(&self, offset: u32, sz: u32) -> (value: Value)
        requires
            offset + sz <= self.buf@.len(),
            self.buf@.len() <= u32::MAX,
        ensures
            value.meta == dec_meta(self.buf@.subrange(offset as int, offset + sz)),
            value.expires_at == dec_expires(self.buf@.subrange(offset as int, offset + sz)),
            value.v@ == dec_payload(self.buf@.subrange(offset as int, offset + sz)),
            value.version == 0,
    {
        let base: usize = offset as usize;
        let end: usize = base + sz as usize;
        let mut region: Vec<u8> = Vec::new();
        let mut k: usize = base;
        while k < end
            invariant
                base <= k <= end,
                end <= self.buf@.len(),
                region@ =~= self.buf@.subrange(base as int, k as int),
            decreases end - k,
        {
            region.push(self.buf[k]);
            k = k + 1;
        }
        let mut ret: Value = Value::default();
        ret.decode_value(region.as_slice());
        ret
    }
}

/// Arena law: any two allocations in the log are handed out in strictly
/// increasing order and never overlap.
pub proof fn lemma_arena_allocations_disjoint(a: Area, i: int, j: int)
    requires
        a.wf(),
        0 <= i < j < a.allocs@.len(),
    ensures
        a.allocs@[i].0 + a.allocs@[i].1 <= a.allocs@[j].0,
        a.allocs@[i].1 > 0 ==> a.allocs@[i].0 < a.allocs@[j].0,
{
}

} // verus!
