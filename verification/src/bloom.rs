//! The doorkeeper: a Bloom filter over 32-bit hashes with the classic
//! double-hashing probe sequence. The last byte of the bitmap stores the
//! unclamped probe count and is never probed itself.

use vstd::prelude::*;

verus! {

/// What MurmurHash3 answers for a byte string.
pub uninterp spec fn murmur3_of(bytes: Seq<u8>) -> u32;

/// Whether bit `pos` of the bitmap is set (bytes little-endian, bit 0
/// the least significant).
pub open spec fn bit_set(bm: Seq<u8>, pos: int) -> bool {
    ((bm[pos / 8] >> ((pos % 8) as u8)) & 1) == 1
}

/// The probe step: the classic rotation of the hash.
pub open spec fn delta_of(h: u32) -> u32 {
    (h >> 17) | (h << 15)
}

/// The hash value before probe `j`: `j` wrapping additions of the step.
pub open spec fn probe_hash(h: u32, delta: u32, j: nat) -> u32
    decreases j,
{
    if j == 0 {
        h
    } else {
        ((probe_hash(h, delta, (j - 1) as nat) + delta) % 0x1_0000_0000) as u32
    }
}

/// The bit position probe `j` tests.
pub open spec fn probe_pos(h: u32, delta: u32, j: nat, bits: u32) -> int
    recommends
        bits > 0,
{
    (probe_hash(h, delta, j) as int) % (bits as int)
}

/// Whether every one of the `k` probes of `h` is set in the bitmap.
pub open spec fn all_probes_set(bm: Seq<u8>, h: u32, k: u8, bits: u32) -> bool {
    forall|j: nat| j < k ==> bit_set(bm, #[trigger] probe_pos(h, delta_of(h), j, bits))
}

/// A `k`-probe Bloom filter; the first `len - 1` bytes are the bitset.
#[derive(Debug)]
pub struct BloomFilter {
    pub bitmap: Vec<u8>,
    pub k: u8,
}

impl BloomFilter {
    /// The number of probed bits.
    pub open spec fn bits(self) -> u32 {
        (8 * (self.bitmap@.len() - 1)) as u32
    }

    /// At least one probed byte, a sane probe count, and a bit range
    /// that fits the 32-bit probe arithmetic.
    pub open spec fn wf(self) -> bool {
        &&& self.bitmap@.len() >= 2
        &&& 8 * (self.bitmap@.len() - 1) <= u32::MAX
        &&& 1 <= self.k <= 30
    }

    /// Sets all `k` probe bits of `h`. Bits only ever appear: every bit
    /// set before stays set, and only the probe bits are added.
    pub fn insert(&mut self, h: u32) -> (r: bool)
        requires
            old(self).wf(),
        ensures
            r == true,
            final(self).wf(),
            final(self).k == old(self).k,
            final(self).bitmap@.len() == old(self).bitmap@.len(),
            all_probes_set(final(self).bitmap@, h, old(self).k, old(self).bits()),
            forall|pos: int|
                0 <= pos < old(self).bits() && bit_set(old(self).bitmap@, pos) ==> bit_set(
                    final(self).bitmap@,
                    pos,
                ),
            forall|pos: int|
                0 <= pos < old(self).bits() && bit_set(final(self).bitmap@, pos) ==> bit_set(
                    old(self).bitmap@,
                    pos,
                ) || (exists|j: nat|
                    j < old(self).k && pos == probe_pos(h, delta_of(h), j, old(self).bits())),
    {
        if self.k > 30 {
            proof {
                assert(false);
            }
            return true;
        }
        let bits: u32 = (8 * (self.bitmap.len() - 1)) as u32;
        let delta: u32 = (h >> 17) | (h << 15);
        let mut hc: u32 = h;
        let mut j: u8 = 0;
        let kk: u8 = self.k;
        while j < kk
            invariant
                self.wf(),
                kk == old(self).k,
                self.k == old(self).k,
                j <= kk,
                bits == old(self).bits(),
                bits == 8 * (self.bitmap@.len() - 1),
                self.bitmap@.len() == old(self).bitmap@.len(),
                delta == delta_of(h),
                hc == probe_hash(h, delta, j as nat),
                forall|jj: nat|
                    jj < j ==> bit_set(self.bitmap@, #[trigger] probe_pos(h, delta, jj, bits)),
                forall|pos: int|
                    0 <= pos < bits && bit_set(old(self).bitmap@, pos) ==> bit_set(
                        self.bitmap@,
                        pos,
                    ),
                forall|pos: int|
                    0 <= pos < bits && bit_set(self.bitmap@, pos) ==> bit_set(
                        old(self).bitmap@,
                        pos,
                    ) || (exists|jj: nat| jj < j && pos == probe_pos(h, delta, jj, bits)),
            decreases kk - j,
        {
            let bit_pos: u32 = hc % bits;
            let idx: usize = (bit_pos / 8) as usize;
            let s: u8 = (bit_pos % 8) as u8;
            let b: u8 = self.bitmap[idx];
            let nb: u8 = b | (1u8 << s);
            let ghost bm0 = self.bitmap@;
            proof {
                assert(bit_pos as int == probe_pos(h, delta, j as nat, bits));
                assert(bit_pos as int / 8 == idx as int && bit_pos as int % 8 == s as int);
                assert(s < 8);
                assert forall|t: u8| t < 8 implies ((nb >> t) & 1) == (if t == s {
                    1u8
                } else {
                    (b >> t) & 1
                }) by {
                    assert(forall|t: u8, s2: u8|
                        t < 8 && s2 < 8 ==> ((b | (1u8 << s2)) >> t) & 1 == (if t == s2 {
                            1u8
                        } else {
                            (b >> t) & 1
                        })) by (bit_vector);
                }
            }
            self.bitmap.set(idx, nb);
            proof {
                assert forall|pos: int|
                    0 <= pos < bits implies bit_set(self.bitmap@, pos) == (bit_set(bm0, pos)
                    || pos == bit_pos as int) by {
                    if pos / 8 == idx as int {
                        let t = (pos % 8) as u8;
                        assert(t < 8);
                        assert(((nb >> t) & 1) == (if t == s {
                            1u8
                        } else {
                            (b >> t) & 1
                        }));
                        assert(pos == 8 * (pos / 8) + pos % 8);
                        assert(bit_pos as int == 8 * idx + s);
                        assert((pos == bit_pos as int) == (t == s));
                    } else {
                        assert(self.bitmap@[pos / 8] == bm0[pos / 8]);
                    }
                }
            }
            let hc2: u32 = hc.wrapping_add(delta);
            proof {
                assert(probe_hash(h, delta, (j + 1) as nat) == ((hc + delta)
                    % 0x1_0000_0000) as u32);
            }
            hc = hc2;
            j = j + 1;
        }
        true
    }

    /// Tests a framed key's digest.
    pub fn may_exist_key(&self, k: &[u8]) -> (r: bool)
        requires
            self.wf(),
        ensures
            r == all_probes_set(self.bitmap@, murmur3_of(k@), self.k, self.bits()),
    {
        self.may_exist(hash(k))
    }

    /// Whether every probe bit of `h` is set: `h` may have been seen; a
    /// clear probe proves it never was.
    pub fn may_exist(&self, h: u32) -> (r: bool)
        requires
            self.wf(),
        ensures
            r == all_probes_set(self.bitmap@, h, self.k, self.bits()),
    {
        if self.bitmap.len() < 2 {
            proof {
                assert(false);
            }
            return false;
        }
        let bits: u32 = (8 * (self.bitmap.len() - 1)) as u32;
        let delta: u32 = (h >> 17) | (h << 15);
        let mut hc: u32 = h;
        let mut j: u8 = 0;
        let kk: u8 = self.k;
        while j < kk
            invariant
                self.wf(),
                kk == self.k,
                j <= kk,
                bits == self.bits(),
                delta == delta_of(h),
                hc == probe_hash(h, delta, j as nat),
                forall|jj: nat|
                    jj < j ==> bit_set(self.bitmap@, #[trigger] probe_pos(h, delta, jj, bits)),
            decreases kk - j,
        {
            let bit_pos: u32 = hc % bits;
            let idx: usize = (bit_pos / 8) as usize;
            let s: u8 = (bit_pos % 8) as u8;
            let b: u8 = self.bitmap[idx];
            proof {
                assert(bit_pos as int == probe_pos(h, delta, j as nat, bits));
                assert(bit_pos as int / 8 == idx as int && bit_pos as int % 8 == s as int);
            }
            if ((b >> s) & 1) == 0 {
                proof {
                    assert(!bit_set(self.bitmap@, probe_pos(h, delta, j as nat, bits)));
                }
                return false;
            }
            proof {
                assert(((b >> s) & 1) <= 1) by (bit_vector);
                assert(bit_set(self.bitmap@, probe_pos(h, delta, j as nat, bits)));
            }
            let hc2: u32 = hc.wrapping_add(delta);
            proof {
                assert(probe_hash(h, delta, (j + 1) as nat) == ((hc + delta)
                    % 0x1_0000_0000) as u32);
            }
            hc = hc2;
            j = j + 1;
        }
        true
    }

    /// Marks a framed key's digest; reports whether it was seen before.
    pub fn allow_key(&mut self, k: &[u8]) -> (r: bool)
        requires
            old(self).wf(),
        ensures
            final(self).wf(),
            final(self).k == old(self).k,
            final(self).bitmap@.len() == old(self).bitmap@.len(),
            r == all_probes_set(old(self).bitmap@, murmur3_of(k@), old(self).k, old(self).bits()),
            all_probes_set(final(self).bitmap@, murmur3_of(k@), old(self).k, old(self).bits()),
            forall|pos: int|
                0 <= pos < old(self).bits() && bit_set(old(self).bitmap@, pos) ==> bit_set(
                    final(self).bitmap@,
                    pos,
                ),
    {
        self.allow(hash(k))
    }

    /// Marks `h` as seen and reports whether it already was: true when
    /// every probe bit was set before, and afterwards they all are.
    pub fn allow(&mut self, h: u32) -> (r: bool)
        requires
            old(self).wf(),
        ensures
            final(self).wf(),
            final(self).k == old(self).k,
            final(self).bitmap@.len() == old(self).bitmap@.len(),
            r == all_probes_set(old(self).bitmap@, h, old(self).k, old(self).bits()),
            all_probes_set(final(self).bitmap@, h, old(self).k, old(self).bits()),
            forall|pos: int|
                0 <= pos < old(self).bits() && bit_set(old(self).bitmap@, pos) ==> bit_set(
                    final(self).bitmap@,
                    pos,
                ),
    {
        let already: bool = self.may_exist(h);
        if !already {
            self.insert(h);
        }
        already
    }

    /// Clears the whole bitmap, probe count byte included.
    pub fn reset(&mut self)
        ensures
            final(self).k == old(self).k,
            final(self).bitmap@.len() == old(self).bitmap@.len(),
            forall|q: int| 0 <= q < final(self).bitmap@.len() ==> final(self).bitmap@[q] == 0,
            forall|pos: int|
                0 <= pos < 8 * (old(self).bitmap@.len() - 1) ==> !bit_set(
                    final(self).bitmap@,
                    pos,
                ),
    {
        let ghost before = self.bitmap@;
        let mut i: usize = 0;
        while i < self.bitmap.len()
            invariant
                self.bitmap@.len() == before.len(),
                self.k == old(self).k,
                i <= before.len(),
                forall|q: int| 0 <= q < i ==> self.bitmap@[q] == 0,
            decreases before.len() - i,
        {
            self.bitmap.set(i, 0);
            i = i + 1;
        }
        proof {
            assert forall|pos: int|
                0 <= pos < 8 * (before.len() - 1) implies !bit_set(self.bitmap@, pos) by {
                assert(self.bitmap@[pos / 8] == 0);
                let t = (pos % 8) as u8;
                assert(forall|t2: u8| t2 < 8 ==> ((0u8 >> t2) & 1) == 0) by (bit_vector);
            }
        }
    }
}

/// Builds the filter from its integer sizing: `bits_per_key` bits for
/// each of `num_entries` keys (at least 64 bits in all), with `k0`
/// probes clamped into `[1, 30]`. Every probed bit starts clear; the
/// unclamped count is kept in the trailing byte.
pub fn init_filter(num_entries: usize, bits_per_key: usize, k0: u8) -> (bf: BloomFilter)
    requires
        num_entries * bits_per_key <= u32::MAX - 16,
    ensures
        bf.wf(),
        bf.k == (if k0 < 1 {
            1u8
        } else if k0 > 30 {
            30u8
        } else {
            k0
        }),
        bf.bitmap@.len() == ((if num_entries * bits_per_key < 64 {
            64int
        } else {
            (num_entries * bits_per_key) as int
        }) + 7) / 8 + 1,
        bf.bitmap@.last() == k0,
        forall|pos: int| 0 <= pos < bf.bits() ==> !bit_set(bf.bitmap@, pos),
{
    let k: u8 = if k0 < 1 {
        1
    } else if k0 > 30 {
        30
    } else {
        k0
    };
    let requested: usize = num_entries * bits_per_key;
    let bits: usize = if requested < 64 {
        64
    } else {
        requested
    };
    let bytes: usize = (bits + 7) / 8;
    let mut bitmap: Vec<u8> = Vec::new();
    let mut i: usize = 0;
    while i < bytes + 1
        invariant
            i <= bytes + 1,
            bytes + 1 <= usize::MAX,
            bitmap@.len() == i,
            forall|q: int| 0 <= q < i ==> bitmap@[q] == 0,
        decreases bytes + 1 - i,
    {
        bitmap.push(0);
        i = i + 1;
    }
    bitmap.set(bytes, k0);
    let bf = BloomFilter { bitmap, k };
    proof {
        assert forall|pos: int| 0 <= pos < bf.bits() implies !bit_set(bf.bitmap@, pos) by {
            assert(pos / 8 < bytes);
            assert(bf.bitmap@[pos / 8] == 0);
            let t = (pos % 8) as u8;
            assert(forall|t2: u8| t2 < 8 ==> ((0u8 >> t2) & 1) == 0) by (bit_vector);
        }
    }
    bf
}

/// Digest of a byte string.
///
/// Relies on murmurhash32::murmurhash3: a pure digest of the bytes with
/// a fixed seed, so the result depends on the bytes alone.
#[verifier::external_body]
fn hash(bytes: &[u8]) -> (r: u32)
    ensures
        r == murmur3_of(bytes@),
{
    murmurhash32::murmurhash3(bytes)
}

/// Doorkeeper soundness law: once every probe bit of a hash is set, any
/// later bitmap that only ever gained bits still reports the hash as
/// possibly seen.
pub proof fn lemma_bloom_soundness(bm1: Seq<u8>, bm2: Seq<u8>, h: u32, k: u8, bits: u32)
    requires
        bits > 0,
        8 * (bm1.len() - 1) == bits,
        bm2.len() == bm1.len(),
        all_probes_set(bm1, h, k, bits),
        forall|pos: int| 0 <= pos < bits && bit_set(bm1, pos) ==> bit_set(bm2, pos),
    ensures
        all_probes_set(bm2, h, k, bits),
{
    assert forall|j: nat| j < k implies bit_set(
        bm2,
        #[trigger] probe_pos(h, delta_of(h), j, bits),
    ) by {
        let pos = probe_pos(h, delta_of(h), j, bits);
        assert(bit_set(bm1, pos));
        assert(0 <= pos < bits) by (nonlinear_arith)
            requires
                bits > 0,
                pos == (probe_hash(h, delta_of(h), j) as int) % (bits as int),
        ;
    }
}

} // verus!
