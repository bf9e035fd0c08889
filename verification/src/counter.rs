//! Count-Min sketch: four rows of 4-bit counters, two per byte, each
//! counter saturating at 15. Every hash bumps one counter per row; the
//! estimate is the least of the four reads. The aging step halves every
//! counter instead of clearing it.

use vstd::prelude::*;

use rand::RngCore;

verus! {

use vstd::arithmetic::power2::{pow2, lemma_pow2_strictly_increases, lemma2_to64, lemma2_to64_rest};

/// Number of rows in a sketch.
pub const CM_DEPTH: usize = 4;

/// The nibble of `b` selected by `high`: the upper four bits or the
/// lower four.
pub open spec fn nibble(b: u8, high: bool) -> u8 {
    if high {
        b / 16
    } else {
        (b % 16) as u8
    }
}

/// A saturating bump: one more, capped at 15.
pub open spec fn bump(c: u8) -> u8 {
    if c < 15 {
        (c + 1) as u8
    } else {
        c
    }
}

/// One row of nibble counters.
#[derive(Debug)]
pub struct CmRow {
    pub data: Vec<u8>,
}

impl CmRow {
    /// The counters the row holds, in index order: the low nibble of a
    /// byte comes before its high nibble.
    pub open spec fn counters(self) -> Seq<u8> {
        Seq::new((self.data@.len() * 2) as nat, |n: int| nibble(self.data@[n / 2], n % 2 == 1))
    }

    /// Reads counter `n`.
    pub fn get(&self, n: u64) -> (r: u8)
        requires
            n < self.counters().len(),
        ensures
            r == self.counters()[n as int],
            r < 16,
    {
        let dl: usize = self.data.len();
        proof {
            assert((n & 1) == n % 2 && (n & 1) <= 1 && n / 2 == n as int / 2) by (bit_vector);
            assert(n as int / 2 < dl);
        }
        let i: usize = (n / 2) as usize;
        let s: u32 = ((n & 1) * 4) as u32;
        let b: u8 = self.data[i];
        let r: u8 = (b >> (s as u8)) & 0x0f;
        proof {
            if n % 2 == 1 {
                assert((b >> 4u8) & 0x0f == b / 16) by (bit_vector);
            } else {
                assert((b >> 0u8) & 0x0f == b % 16) by (bit_vector);
            }
        }
        r
    }

    /// Bumps counter `n`, saturating at 15; its byte-mate is untouched.
    pub fn increment(&mut self, n: u64)
        requires
            n < old(self).counters().len(),
        ensures
            final(self).counters() == old(self).counters().update(
                n as int,
                bump(old(self).counters()[n as int]),
            ),
    {
        let dl: usize = self.data.len();
        proof {
            assert((n & 1) == n % 2 && (n & 1) <= 1 && n / 2 == n as int / 2) by (bit_vector);
            assert(n as int / 2 < dl);
        }
        let i: usize = (n / 2) as usize;
        let hi: bool = (n & 1) == 1;
        let b: u8 = self.data[i];
        let v: u8 = if hi {
            (b >> 4u8) & 0x0f
        } else {
            b & 0x0f
        };
        proof {
            if n % 2 == 1 {
                assert((b >> 4u8) & 0x0f == b / 16) by (bit_vector);
            } else {
                assert(b & 0x0f == b % 16) by (bit_vector);
            }
        }
        if v < 15 {
            let d: u8 = if hi {
                16
            } else {
                1
            };
            proof {
                if n % 2 == 1 {
                    assert((b / 16 < 15) ==> (b + 16 < 256 && ((b + 16) as u8) / 16 == b / 16 + 1
                        && ((b + 16) as u8) % 16 == b % 16)) by (bit_vector);
                } else {
                    assert((b % 16 < 15) ==> (b + 1 < 256 && ((b + 1) as u8) % 16 == b % 16 + 1
                        && ((b + 1) as u8) / 16 == b / 16)) by (bit_vector);
                }
            }
            let nb: u8 = b + d;
            self.data.set(i, nb);
            proof {
                assert(self.counters() =~= old(self).counters().update(
                    n as int,
                    bump(old(self).counters()[n as int]),
                )) by {
                    assert forall|m: int|
                        0 <= m < old(self).counters().len() implies self.counters()[m] == old(
                        self,
                    ).counters().update(n as int, bump(old(self).counters()[n as int]))[m] by {
                        if m / 2 != n as int / 2 {
                            assert(self.data@[m / 2] == old(self).data@[m / 2]);
                        }
                    }
                }
            }
        } else {
            proof {
                assert(self.counters() =~= old(self).counters().update(
                    n as int,
                    bump(old(self).counters()[n as int]),
                ));
            }
        }
    }

    /// Halves every counter: the aging step.
    pub fn reset(&mut self)
        ensures
            final(self).counters().len() == old(self).counters().len(),
            forall|m: int|
                0 <= m < old(self).counters().len() ==> final(self).counters()[m] == old(
                    self,
                ).counters()[m] / 2,
    {
        let ghost before = self.data@;
        let mut i: usize = 0;
        while i < self.data.len()
            invariant
                self.data@.len() == before.len(),
                i <= before.len(),
                forall|q: int| 0 <= q < i ==> self.data@[q] == ((before[q] >> 1) & 0x77),
                forall|q: int| i <= q < before.len() ==> self.data@[q] == before[q],
            decreases before.len() - i,
        {
            let b: u8 = self.data[i];
            self.data.set(i, (b >> 1) & 0x77);
            i = i + 1;
        }
        proof {
            assert forall|m: int|
                0 <= m < old(self).counters().len() implies self.counters()[m] == old(
                self,
            ).counters()[m] / 2 by {
                let b = before[m / 2];
                assert(((b >> 1) & 0x77) / 16 == (b / 16) / 2 && ((b >> 1) & 0x77) % 16 == (b
                    % 16) / 2) by (bit_vector);
            }
        }
    }

    /// Zeroes every counter.
    pub fn clear(&mut self)
        ensures
            final(self).counters().len() == old(self).counters().len(),
            forall|m: int| 0 <= m < old(self).counters().len() ==> final(self).counters()[m] == 0,
    {
        let ghost before = self.data@;
        let mut i: usize = 0;
        while i < self.data.len()
            invariant
                self.data@.len() == before.len(),
                i <= before.len(),
                forall|q: int| 0 <= q < i ==> self.data@[q] == 0,
            decreases before.len() - i,
        {
            self.data.set(i, 0);
            i = i + 1;
        }
    }
}

/// A fresh all-zero row of `num_counters` nibbles (two per byte).
pub fn new_row(num_counters: u64) -> (r: CmRow)
    requires
        num_counters / 2 <= usize::MAX,
    ensures
        r.counters().len() == (num_counters / 2) * 2,
        forall|m: int| 0 <= m < r.counters().len() ==> r.counters()[m] == 0,
{
    let len: usize = (num_counters / 2) as usize;
    let mut data: Vec<u8> = Vec::new();
    let mut i: usize = 0;
    while i < len
        invariant
            i <= len,
            data@.len() == i,
            forall|q: int| 0 <= q < i ==> data@[q] == 0,
        decreases len - i,
    {
        data.push(0);
        i = i + 1;
    }
    CmRow { data }
}

/// The row index a hash touches: the hash xored with the row's seed,
/// masked down to the sketch width.
pub open spec fn sk_idx(seed: u64, mask: u64, h: u64) -> int {
    ((h ^ seed) & mask) as int
}

/// The four rows' counters.
pub open spec fn rows_view(rs: Seq<CmRow>) -> Seq<Seq<u8>> {
    Seq::new(rs.len(), |r: int| rs[r].counters())
}

/// One bump of `h` applied to every row's counter at its index.
pub open spec fn inc_view(v: Seq<Seq<u8>>, idxs: Seq<int>) -> Seq<Seq<u8>> {
    Seq::new(v.len(), |r: int| v[r].update(idxs[r], bump(v[r][idxs[r]])))
}

/// Every counter halved: the whole-sketch view of the aging step.
pub open spec fn halved_view(v: Seq<Seq<u8>>) -> Seq<Seq<u8>> {
    Seq::new(v.len(), |r: int| Seq::new(v[r].len(), |m: int| ((v[r][m] / 2) as u8)))
}

/// `m` bumps of `h`, one after the other.
pub open spec fn iter_inc(v: Seq<Seq<u8>>, idxs: Seq<int>, m: nat) -> Seq<Seq<u8>>
    decreases m,
{
    if m == 0 {
        v
    } else {
        inc_view(iter_inc(v, idxs, (m - 1) as nat), idxs)
    }
}

/// The estimate read out of the first `depth` rows: the least counter,
/// starting from the sentinel 255.
pub open spec fn est_view(v: Seq<Seq<u8>>, idxs: Seq<int>, depth: int) -> int
    decreases depth,
{
    if depth <= 0 {
        255
    } else {
        let x = v[depth - 1][idxs[depth - 1]] as int;
        let rest = est_view(v, idxs, depth - 1);
        if x < rest {
            x
        } else {
            rest
        }
    }
}

/// Count-Min sketch: four nibble-counter rows, a per-row seed fixed at
/// construction, and a power-of-two width mask.
#[derive(Debug)]
pub struct CMSketch {
    pub rows: Vec<CmRow>,
    pub seed: Vec<u64>,
    pub mask: u64,
}

impl CMSketch {
    /// Four rows, four seeds, and counters exactly spanning the masked
    /// index range.
    pub open spec fn wf(self) -> bool {
        &&& self.rows@.len() == CM_DEPTH
        &&& self.seed@.len() == CM_DEPTH
        &&& forall|r: int|
            0 <= r < CM_DEPTH ==> (#[trigger] self.rows@[r]).counters().len() == self.mask + 1
    }

    /// The indexes the four rows touch for `h`.
    pub open spec fn idxs(self, h: u64) -> Seq<int> {
        Seq::new(CM_DEPTH as nat, |r: int| sk_idx(self.seed@[r], self.mask, h))
    }

    /// Bumps `h`'s counter in every row, saturating at 15.
    pub fn increment(&mut self, hashed: u64)
        requires
            old(self).wf(),
        ensures
            final(self).wf(),
            final(self).seed == old(self).seed,
            final(self).mask == old(self).mask,
            rows_view(final(self).rows@) == inc_view(
                rows_view(old(self).rows@),
                old(self).idxs(hashed),
            ),
    {
        let ghost idxs = old(self).idxs(hashed);
        let mut i: usize = 0;
        while i < CM_DEPTH
            invariant
                i <= CM_DEPTH,
                self.wf(),
                self.seed == old(self).seed,
                self.mask == old(self).mask,
                idxs == old(self).idxs(hashed),
                self.rows@.len() == CM_DEPTH,
                old(self).rows@.len() == CM_DEPTH,
                old(self).wf(),
                forall|r: int|
                    i <= r < CM_DEPTH ==> (#[trigger] self.rows@[r]).counters() == rows_view(
                        old(self).rows@,
                    )[r],
                forall|r: int|
                    0 <= r < i ==> (#[trigger] self.rows@[r]).counters() == inc_view(
                        rows_view(old(self).rows@),
                        idxs,
                    )[r],
            decreases CM_DEPTH - i,
        {
            let se: u64 = self.seed[i];
            let mk: u64 = self.mask;
            let idx: u64 = (hashed ^ se) & mk;
            proof {
                assert(((hashed ^ se) & mk) <= mk) by (bit_vector);
                assert(idxs[i as int] == idx);
            }
            proof {
                assert(idx < self.rows@[i as int].counters().len());
            }
            self.rows[i].increment(idx);
            proof {
                let rv = rows_view(old(self).rows@);
                assert(self.rows@[i as int].counters() == rv[i as int].update(
                    idxs[i as int],
                    bump(rv[i as int][idxs[i as int]]),
                ));
                assert(self.rows@[i as int].counters() == inc_view(rv, idxs)[i as int]);
            }
            i = i + 1;
        }
        proof {
            assert(rows_view(self.rows@) =~= inc_view(rows_view(old(self).rows@), idxs));
        }
    }

    /// The least of the four counters `h` touches.
    pub fn estimate(&self, hashed: u64) -> (r: i64)
        requires
            self.wf(),
        ensures
            r == est_view(rows_view(self.rows@), self.idxs(hashed), CM_DEPTH as int),
            0 <= r < 16,
    {
        let mut m: u8 = 255;
        let mut i: usize = 0;
        while i < CM_DEPTH
            invariant
                i <= CM_DEPTH,
                self.wf(),
                m as int == est_view(rows_view(self.rows@), self.idxs(hashed), i as int),
                i > 0 ==> m < 16,
            decreases CM_DEPTH - i,
        {
            let se: u64 = self.seed[i];
            let mk: u64 = self.mask;
            let idx: u64 = (hashed ^ se) & mk;
            proof {
                assert(((hashed ^ se) & mk) <= mk) by (bit_vector);
                assert(self.idxs(hashed)[i as int] == idx);
            }
            let c: u8 = self.rows[i].get(idx);
            proof {
                assert(rows_view(self.rows@)[i as int] == self.rows@[i as int].counters());
            }
            if c < m {
                m = c;
            }
            i = i + 1;
        }
        m as i64
    }

    /// Ages the sketch: halves every counter in every row.
    pub fn reset(&mut self)
        requires
            old(self).wf(),
        ensures
            final(self).wf(),
            final(self).seed == old(self).seed,
            final(self).mask == old(self).mask,
            rows_view(final(self).rows@) == halved_view(rows_view(old(self).rows@)),
            forall|r: int, m: int|
                0 <= r < CM_DEPTH && 0 <= m < rows_view(old(self).rows@)[r].len()
                    ==> rows_view(final(self).rows@)[r][m] == rows_view(old(self).rows@)[r][m]
                    / 2,
    {
        let mut i: usize = 0;
        while i < CM_DEPTH
            invariant
                i <= CM_DEPTH,
                self.wf(),
                self.seed == old(self).seed,
                self.mask == old(self).mask,
                self.rows@.len() == CM_DEPTH,
                forall|r: int|
                    i <= r < CM_DEPTH ==> (#[trigger] self.rows@[r]).counters() == old(
                        self,
                    ).rows@[r].counters(),
                forall|r: int, m: int|
                    0 <= r < i && 0 <= m < old(self).rows@[r].counters().len() ==> (
                    #[trigger] self.rows@[r].counters()[m]) == old(self).rows@[r].counters()[m]
                        / 2,
            decreases CM_DEPTH - i,
        {
            self.rows[i].reset();
            i = i + 1;
        }
        proof {
            assert forall|r: int|
                0 <= r < CM_DEPTH implies rows_view(self.rows@)[r] =~= halved_view(
                rows_view(old(self).rows@),
            )[r] by {
                assert(self.rows@[r].counters().len() == old(self).rows@[r].counters().len());
            }
            assert(rows_view(self.rows@) =~~= halved_view(rows_view(old(self).rows@)));
        }
    }

    /// Zeroes every counter in every row.
    pub fn clear(&mut self)
        requires
            old(self).wf(),
        ensures
            final(self).wf(),
            final(self).seed == old(self).seed,
            final(self).mask == old(self).mask,
            forall|r: int, m: int|
                0 <= r < CM_DEPTH && 0 <= m < rows_view(old(self).rows@)[r].len()
                    ==> rows_view(final(self).rows@)[r][m] == 0,
    {
        let mut i: usize = 0;
        while i < CM_DEPTH
            invariant
                i <= CM_DEPTH,
                self.wf(),
                self.seed == old(self).seed,
                self.mask == old(self).mask,
                self.rows@.len() == CM_DEPTH,
                forall|r: int|
                    i <= r < CM_DEPTH ==> (#[trigger] self.rows@[r]).counters() == old(
                        self,
                    ).rows@[r].counters(),
                forall|r: int, m: int|
                    0 <= r < i && 0 <= m < old(self).rows@[r].counters().len() ==> (
                    #[trigger] self.rows@[r].counters()[m]) == 0,
            decreases CM_DEPTH - i,
        {
            self.rows[i].clear();
            i = i + 1;
        }
    }
}

/// Draws one random 64-bit seed.
///
/// Relies on rand::RngCore::next_u64 on the thread-local generator: an
/// independent draw; nothing is promised of the value.
#[verifier::external_body]
fn random_u64() -> u64 {
    rand::thread_rng().next_u64()
}

/// The least power of two at or above `x`.
pub fn next_power_of_two(x: u64) -> (r: u64)
    requires
        1 <= x <= 0x8000_0000_0000_0000,
    ensures
        x <= r < 2 * x,
        exists|k: nat| k <= 63 && r == pow2(k),
{
    let mut r: u64 = 1;
    proof {
        lemma2_to64();
        assert(1u64 == pow2(0));
    }
    while r < x
        invariant
            x <= 0x8000_0000_0000_0000,
            exists|k: nat| k <= 63 && r == pow2(k),
            r < 2 * x,
            r >= 1,
        decreases 2 * x - r,
    {
        proof {
            lemma2_to64_rest();
            let k = choose|k: nat| k <= 63 && r == pow2(k);
            assert(r == pow2(k));
            assert(k < 63) by {
                if k == 63 {
                    assert(r == pow2(63));
                    assert(pow2(63) == 0x8000_0000_0000_0000);
                }
            }
            lemma_pow2_strictly_increases(k, 63);
            assert(pow2(k) * 2 == pow2(k + 1)) by {
                vstd::arithmetic::power2::lemma_pow2_adds(k, 1);
                lemma2_to64();
            }
            assert(pow2(63) == 0x8000_0000_0000_0000);
            assert(k + 1 <= 63 && r * 2 == pow2(k + 1));
            assert(pow2(k + 1) <= pow2(63)) by {
                if k + 1 < 63 {
                    lemma_pow2_strictly_increases(k + 1, 63);
                }
            }
        }
        r = r * 2;
    }
    r
}

/// A fresh sketch sized for `num_counters` flows: the width is the
/// least power of two at or above `num_counters`, each row all zero,
/// the seeds drawn at random. At least two counters are demanded: a
/// width of one would pack zero bytes per row, and the first bump
/// would have nowhere to land.
pub fn new(num_counters: u64) -> (s: CMSketch)
    requires
        2 <= num_counters,
        num_counters * 2 <= usize::MAX,
    ensures
        s.wf(),
        num_counters <= s.mask + 1 < 2 * num_counters,
        exists|k: nat| k <= 63 && s.mask + 1 == pow2(k),
        forall|r: int, m: int|
            0 <= r < CM_DEPTH && 0 <= m < rows_view(s.rows@)[r].len() ==> rows_view(s.rows@)[r][m]
                == 0,
{
    let width: u64 = next_power_of_two(num_counters);
    let mask: u64 = width - 1;
    proof {
        let k = choose|k: nat| k <= 63 && width == pow2(k);
        assert(width == pow2(k));
        assert(k >= 1) by {
            lemma2_to64();
            if k == 0 {
                assert(width == 1);
            }
        }
        assert(width % 2 == 0) by {
            vstd::arithmetic::power2::lemma_pow2_adds((k - 1) as nat, 1);
            lemma2_to64();
            vstd::arithmetic::power2::lemma_pow2_pos((k - 1) as nat);
            assert(pow2((k - 1) as nat) * 2 == pow2(k));
        }
        assert((width / 2) * 2 == width);
    }
    let mut rows: Vec<CmRow> = Vec::new();
    let mut seed: Vec<u64> = Vec::new();
    let mut i: usize = 0;
    while i < CM_DEPTH
        invariant
            i <= CM_DEPTH,
            rows@.len() == i,
            seed@.len() == i,
            width / 2 <= usize::MAX,
            (width / 2) * 2 == width,
            width >= 2,
            forall|r: int| 0 <= r < i ==> (#[trigger] rows@[r]).counters().len() == width,
            forall|r: int, m: int|
                0 <= r < i && 0 <= m < width ==> (#[trigger] rows@[r].counters()[m]) == 0,
        decreases CM_DEPTH - i,
    {
        rows.push(new_row(width));
        seed.push(random_u64());
        i = i + 1;
    }
    let s = CMSketch { rows, seed, mask };
    proof {
        assert forall|r: int, m: int|
            0 <= r < CM_DEPTH && 0 <= m < rows_view(s.rows@)[r].len() implies rows_view(
            s.rows@,
        )[r][m] == 0 by {
            assert(rows_view(s.rows@)[r] == s.rows@[r].counters());
        }
    }
    s
}

/// Saturation law: starting from counters that are zero at the touched
/// indexes, `m` bumps of one hash drive its estimate to exactly
/// `min(m, 15)`.
pub proof fn lemma_cms_saturation(v0: Seq<Seq<u8>>, idxs: Seq<int>, m: nat)
    requires
        v0.len() == CM_DEPTH,
        idxs.len() == CM_DEPTH,
        forall|r: int| 0 <= r < CM_DEPTH ==> 0 <= #[trigger] idxs[r] < v0[r].len(),
        forall|r: int| 0 <= r < CM_DEPTH ==> v0[r][#[trigger] idxs[r]] == 0,
    ensures
        est_view(iter_inc(v0, idxs, m), idxs, CM_DEPTH as int) == if m < 15 {
            m as int
        } else {
            15
        },
{
    lemma_cms_counter_after(v0, idxs, m);
    let v = iter_inc(v0, idxs, m);
    let x: int = if m < 15 {
        m as int
    } else {
        15
    };
    assert(v[0][idxs[0]] == x && v[1][idxs[1]] == x && v[2][idxs[2]] == x && v[3][idxs[3]] == x);
    assert(est_view(v, idxs, 0) == 255);
    assert(est_view(v, idxs, 1) == x);
    assert(est_view(v, idxs, 2) == x);
    assert(est_view(v, idxs, 3) == x);
    assert(est_view(v, idxs, 4) == x);
}

/// After `m` bumps, each touched counter reads `min(m, 15)` and the
/// rows keep their lengths.
proof fn lemma_cms_counter_after(v0: Seq<Seq<u8>>, idxs: Seq<int>, m: nat)
    requires
        v0.len() == CM_DEPTH,
        idxs.len() == CM_DEPTH,
        forall|r: int| 0 <= r < CM_DEPTH ==> 0 <= #[trigger] idxs[r] < v0[r].len(),
        forall|r: int| 0 <= r < CM_DEPTH ==> v0[r][#[trigger] idxs[r]] == 0,
    ensures
        iter_inc(v0, idxs, m).len() == CM_DEPTH,
        forall|r: int|
            0 <= r < CM_DEPTH ==> iter_inc(v0, idxs, m)[r].len() == v0[r].len(),
        forall|r: int|
            0 <= r < CM_DEPTH ==> iter_inc(v0, idxs, m)[r][#[trigger] idxs[r]] == (if m < 15 {
                m as int
            } else {
                15
            }),
    decreases m,
{
    if m == 0 {
    } else {
        lemma_cms_counter_after(v0, idxs, (m - 1) as nat);
        let prev = iter_inc(v0, idxs, (m - 1) as nat);
        let cur = iter_inc(v0, idxs, m);
        assert(cur == inc_view(prev, idxs));
        assert forall|r: int| 0 <= r < CM_DEPTH implies cur[r][#[trigger] idxs[r]] == (if m < 15 {
            m as int
        } else {
            15
        }) by {
            assert(cur[r] == prev[r].update(idxs[r], bump(prev[r][idxs[r]])));
        }
    }
}

} // verus!
