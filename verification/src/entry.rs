//! Value codec: a value is stored as one meta byte, the expiry as an
//! unsigned LEB128 run, then the raw payload. The version travels with the
//! in-memory value only and is never part of the encoded bytes.

use vstd::prelude::*;

verus! {

use vstd::arithmetic::power2::{pow2, lemma_pow2_adds, lemma_pow2_strictly_increases};
use vstd::arithmetic::power2::lemma2_to64_rest;
use vstd::arithmetic::power2::lemma2_to64;
use vstd::arithmetic::power2::lemma_pow2_pos;

/// Longest unsigned LEB128 run that a 64-bit value may occupy.
pub const MAX_VAR_INT_LEN64: usize = 10;

/// A decoded value: meta byte, payload, expiry instant, and the version
/// carried on the API surface (never serialised).
#[derive(Debug)]
pub struct Value {
    pub meta: u8,
    pub v: Vec<u8>,
    pub expires_at: u64,
    pub version: u64,
}

impl Default for Value {
    fn default() -> (r: Self)
        ensures
            r.meta == 0 && r.v@ == Seq::<u8>::empty() && r.expires_at == 0 && r.version == 0,
    {
        Value { meta: 0, v: Vec::new(), expires_at: 0, version: 0 }
    }
}

/// How many base-128 digits the LEB128 run of `x` has.
pub open spec fn size_varint_spec(x: nat) -> nat
    decreases x,
{
    if x < 0x80 {
        1
    } else {
        1 + size_varint_spec(x / 0x80)
    }
}

/// The LEB128 run of `x`: low digits first, the continuation bit set on
/// every digit but the last.
pub open spec fn varint_bytes(x: nat) -> Seq<u8>
    decreases x,
{
    if x < 0x80 {
        seq![x as u8]
    } else {
        seq![(0x80 + x % 0x80) as u8] + varint_bytes(x / 0x80)
    }
}

/// Length of the LEB128 run at the head of `buf`: the index of the first
/// byte without its continuation bit, plus one; `None` when every byte of
/// `buf` has the bit set.
pub open spec fn varint_len(buf: Seq<u8>) -> Option<nat>
    decreases buf.len(),
{
    if buf.len() == 0 {
        None
    } else if buf[0] < 0x80 {
        Some(1nat)
    } else {
        match varint_len(buf.drop_first()) {
            None => None,
            Some(n) => Some(n + 1),
        }
    }
}

/// The value of the LEB128 digits at the head of `buf`, up to and including
/// the first terminating byte (every byte counts as a digit if no byte
/// terminates).
pub open spec fn varint_value(buf: Seq<u8>) -> nat
    decreases buf.len(),
{
    if buf.len() == 0 {
        0
    } else if buf[0] < 0x80 {
        buf[0] as nat
    } else {
        (buf[0] - 0x80) as nat + 0x80 * varint_value(buf.drop_first())
    }
}

/// A run shorter than `pow2(7k)` takes at most `k` digits.
pub proof fn lemma_size_varint_bound(x: nat, k: nat)
    requires
        k >= 1,
        x < pow2(7 * k),
    ensures
        size_varint_spec(x) <= k,
    decreases k,
{
    if x < 0x80 {
    } else {
        assert(pow2(7) == 128) by {
            lemma2_to64();
        }
        if k == 1 {
            assert(false);
        } else {
            assert(pow2(7 * (k - 1) as nat) * pow2(7) == pow2(7 * k)) by {
                lemma_pow2_adds(7 * (k - 1) as nat, 7);
            }
            assert(x / 0x80 < pow2(7 * (k - 1) as nat)) by (nonlinear_arith)
                requires
                    x < pow2(7 * k),
                    pow2(7 * (k - 1) as nat) * 128 == pow2(7 * k),
            ;
            lemma_size_varint_bound(x / 0x80, (k - 1) as nat);
        }
    }
}

/// Every 64-bit value fits in ten LEB128 digits.
pub proof fn lemma_size_varint_le_10(x: u64)
    ensures
        1 <= size_varint_spec(x as nat) <= 10,
{
    assert(pow2(64) == 0x10000000000000000) by {
        lemma2_to64_rest();
    }
    lemma_pow2_strictly_increases(64, 70);
    lemma_size_varint_bound(x as nat, 10);
}

/// Shape of an encoded run: its length matches `size_varint_spec`, all
/// digits but the last carry the continuation bit, and the last digit is
/// the remaining high part of the value.
pub proof fn lemma_varint_bytes_shape(x: nat)
    ensures
        varint_bytes(x).len() == size_varint_spec(x),
        forall|j: int|
            0 <= j < size_varint_spec(x) - 1 ==> #[trigger] varint_bytes(x)[j] >= 0x80,
        varint_bytes(x).last() < 0x80,
    decreases x,
{
    if x < 0x80 {
    } else {
        lemma_varint_bytes_shape(x / 0x80);
        let tail = varint_bytes(x / 0x80);
        let whole = varint_bytes(x);
        assert forall|j: int| 0 <= j < size_varint_spec(x) - 1 implies #[trigger] whole[j]
            >= 0x80 by {
            if j > 0 {
                assert(whole[j] == tail[j - 1]);
            }
        }
        assert(whole.last() == tail.last());
    }
}

/// Decoding the head of `varint_bytes(x) + rest` recovers `x` exactly and
/// consumes `size_varint_spec(x)` bytes.
pub proof fn lemma_varint_round_trip(x: nat, rest: Seq<u8>)
    ensures
        varint_len(varint_bytes(x) + rest) == Some(size_varint_spec(x)),
        varint_value(varint_bytes(x) + rest) == x,
    decreases x,
{
    let buf = varint_bytes(x) + rest;
    if x < 0x80 {
        assert(buf[0] == x as u8);
    } else {
        lemma_varint_round_trip(x / 0x80, rest);
        assert(buf.drop_first() =~= varint_bytes(x / 0x80) + rest);
        assert(buf[0] == (0x80 + x % 0x80) as u8);
        assert((buf[0] - 0x80) as nat + 0x80 * varint_value(buf.drop_first()) == x % 0x80 + 0x80
            * (x / 0x80));
    }
}

/// The terminating digit of a ten-digit run of a 64-bit value is 0 or 1.
pub proof fn lemma_varint_bytes_last_small(x: u64)
    requires
        size_varint_spec(x as nat) == 10,
    ensures
        varint_bytes(x as nat).last() <= 1,
{
    let d9 = varint_bytes(x as nat).last();
    lemma_varint_bytes_shape(x as nat);
    lemma_varint_digit_unfold(x as nat, 9);
    assert(pow2(63) == 0x8000000000000000) by {
        lemma2_to64_rest();
    }
    assert(x as nat / pow2(63) <= 1) by (nonlinear_arith)
        requires
            x <= u64::MAX,
            pow2(63) == 0x8000000000000000,
    ;
}

/// The digit at position `j` of a run is the value shifted down by `7 j`
/// bits, modulo 128 when more digits follow.
proof fn lemma_varint_digit_unfold(x: nat, j: nat)
    requires
        j + 1 <= size_varint_spec(x),
    ensures
        j + 1 < size_varint_spec(x) ==> varint_bytes(x)[j as int] == 0x80 + (x / pow2(7 * j))
            % 0x80,
        j + 1 == size_varint_spec(x) ==> varint_bytes(x)[j as int] == x / pow2(7 * j),
    decreases j,
{
    lemma_varint_bytes_shape(x);
    if j == 0 {
        assert(pow2(0) == 1) by {
            lemma2_to64();
        }
        if size_varint_spec(x) == 1 {
            assert(x < 0x80);
            assert(x / 1 == x);
        } else {
            assert(x >= 0x80);
        }
    } else {
        assert(x >= 0x80);
        lemma_varint_bytes_shape(x / 0x80);
        lemma_varint_digit_unfold(x / 0x80, (j - 1) as nat);
        assert(varint_bytes(x)[j as int] == varint_bytes(x / 0x80)[j - 1]);
        assert(pow2(7 * (j - 1) as nat) * pow2(7) == pow2(7 * j)) by {
            lemma_pow2_adds(7 * (j - 1) as nat, 7);
        }
        assert(pow2(7) == 128) by {
            lemma2_to64();
        }
        lemma_pow2_pos(7 * (j - 1) as nat);
        assert((x / 0x80) / pow2(7 * (j - 1) as nat) == x / pow2(7 * j)) by (nonlinear_arith)
            requires
                pow2(7 * (j - 1) as nat) * 128 == pow2(7 * j),
                pow2(7 * (j - 1) as nat) > 0,
        ;
    }
}

/// A terminating run lies within the buffer.
pub proof fn lemma_varint_len_le(buf: Seq<u8>)
    ensures
        match varint_len(buf) {
            Some(n) => 1 <= n <= buf.len(),
            None => true,
        },
    decreases buf.len(),
{
    if buf.len() == 0 {
    } else if buf[0] < 0x80 {
    } else {
        lemma_varint_len_le(buf.drop_first());
    }
}

/// Splitting a buffer whose first `i` bytes all carry the continuation bit.
proof fn lemma_varint_len_split(buf: Seq<u8>, i: int)
    requires
        0 <= i <= buf.len(),
        forall|j: int| 0 <= j < i ==> buf[j] >= 0x80,
    ensures
        varint_len(buf) == match varint_len(buf.skip(i)) {
            None => None::<nat>,
            Some(n) => Some((n + i) as nat),
        },
    decreases i,
{
    if i == 0 {
        assert(buf.skip(0) =~= buf);
    } else {
        assert(buf.len() > 0 && buf[0] >= 0x80);
        assert(buf.drop_first().skip(i - 1) =~= buf.skip(i));
        lemma_varint_len_split(buf.drop_first(), i - 1);
    }
}

// --- executable codec ---

/// The exact number of bytes `encode_uvarint` writes for `x`.
pub fn size_varint(x: u64) -> (n: usize)
    ensures
        n == size_varint_spec(x as nat),
        1 <= n <= 10,
{
    proof {
        lemma_size_varint_le_10(x);
    }
    let mut n: usize = 1;
    let mut y: u64 = x;
    while y >= 0x80
        invariant
            size_varint_spec(x as nat) == n - 1 + size_varint_spec(y as nat),
            n - 1 + size_varint_spec(y as nat) <= 10,
            n >= 1,
        decreases y,
    {
        n = n + 1;
        y = y / 0x80;
    }
    n
}

/// Writes the LEB128 run of `x` into `buf` at position `at`; returns the
/// number of bytes written. Bytes outside the run are left untouched.
pub fn encode_uvarint(buf: &mut Vec<u8>, at: usize, x: u64) -> (n: usize)
    requires
        at + size_varint_spec(x as nat) <= old(buf).len(),
    ensures
        n == size_varint_spec(x as nat),
        final(buf).len() == old(buf).len(),
        final(buf)@.subrange(at as int, (at + n) as int) == varint_bytes(x as nat),
        forall|j: int|
            0 <= j < old(buf).len() && !(at <= j < at + n) ==> final(buf)@[j] == old(buf)@[j],
{
    proof {
        lemma_size_varint_le_10(x);
    }
    let ghost buf0 = buf@;
    let n0: usize = buf.len();
    let mut i: usize = 0;
    let mut value: u64 = x;
    while value >= 0x80
        invariant
            buf@.len() == buf0.len(),
            buf0.len() == n0,
            at + size_varint_spec(x as nat) <= buf0.len(),
            size_varint_spec(x as nat) == i + size_varint_spec(value as nat),
            i <= 10,
            1 <= size_varint_spec(value as nat),
            size_varint_spec(x as nat) <= 10,
            varint_bytes(x as nat) == buf@.subrange(at as int, at + i) + varint_bytes(
                value as nat,
            ),
            forall|j: int| 0 <= j < buf0.len() && !(at <= j < at + i) ==> buf@[j] == buf0[j],
        decreases value,
    {
        proof {
            lemma_varint_bytes_shape(value as nat);
        }
        let ghost pre = buf@;
        let b: u8 = (value % 0x80) as u8 + 0x80;
        buf.set(at + i, b);
        proof {
            assert(buf@.subrange(at as int, at + i + 1) =~= pre.subrange(at as int, at + i).push(
                b,
            ));
            assert(varint_bytes(value as nat) =~= seq![b] + varint_bytes(value as nat / 0x80));
            assert(buf@.subrange(at as int, at + i + 1) + varint_bytes(value as nat / 0x80)
                =~= pre.subrange(at as int, at + i) + varint_bytes(value as nat));
        }
        value = value / 0x80;
        i = i + 1;
    }
    let ghost pre = buf@;
    buf.set(at + i, value as u8);
    proof {
        assert(varint_bytes(value as nat) =~= seq![value as u8]);
        assert(buf@.subrange(at as int, at + i + 1) =~= pre.subrange(at as int, at + i).push(
            value as u8,
        ));
        assert(buf@.subrange(at as int, at + i + 1) =~= varint_bytes(x as nat));
    }
    i + 1
}

/// Reads the LEB128 run at the head of `buf`. Returns the value and the
/// count of bytes consumed; the count is zero when the run is cut short by
/// the end of the buffer, and negative when the run overflows 64 bits.
pub fn decode_uvarint(buf: &[u8]) -> (r: (u64, isize))
    ensures
        (match varint_len(buf@) {
            Some(n) => {
                if n <= 9 {
                    r == (varint_value(buf@) as u64, n as isize)
                } else if n == 10 && buf@[9] <= 1 {
                    r == (varint_value(buf@) as u64, 10isize)
                } else if n == 10 {
                    r == (0u64, -10isize)
                } else {
                    r == (0u64, -11isize)
                }
            },
            None => {
                if buf@.len() <= 10 {
                    r == (0u64, 0isize)
                } else {
                    r == (0u64, -11isize)
                }
            },
        }),
{
    let mut i: usize = 0;
    let mut x: u64 = 0;
    let mut mult: u64 = 1;
    proof {
        assert(pow2(0) == 1) by {
            lemma2_to64();
        }
        assert(buf@.skip(0) =~= buf@);
    }
    while i < buf.len()
        invariant
            i <= buf.len(),
            i <= 10,
            forall|j: int| 0 <= j < i ==> buf@[j] >= 0x80,
            i <= 9 ==> mult == pow2((7 * i) as nat),
            i <= 9 ==> x < mult,
            i <= 9 ==> varint_value(buf@) == x + mult * varint_value(buf@.skip(i as int)),
        decreases buf.len() - i,
    {
        if i == MAX_VAR_INT_LEN64 {
            proof {
                lemma_varint_len_split(buf@, 10);
            }
            return (0, -11);
        }
        let b: u8 = buf[i];
        proof {
            assert(buf@.skip(i as int)[0] == buf@[i as int]);
        }
        if b < 0x80 {
            proof {
                lemma_varint_len_split(buf@, i as int);
                assert(varint_len(buf@.skip(i as int)) == Some(1nat));
                assert(varint_value(buf@.skip(i as int)) == b as nat);
            }
            if i == MAX_VAR_INT_LEN64 - 1 && b > 1 {
                return (0, -10);
            }
            proof {
                lemma_pow2_pos((7 * i) as nat);
                assert(pow2(63) == 0x8000000000000000 && pow2(64) == 0x10000000000000000) by {
                    lemma2_to64_rest();
                }
                assert(pow2(56) * 128 == pow2(63)) by {
                    lemma_pow2_adds(56, 7);
                    lemma2_to64();
                }
                if i <= 8 {
                    assert(mult <= pow2(56)) by {
                        if 7 * i < 56 {
                            lemma_pow2_strictly_increases((7 * i) as nat, 56);
                        }
                    }
                    assert(mult * b as nat <= pow2(56) * 127) by (nonlinear_arith)
                        requires
                            b < 0x80,
                            1 <= mult <= pow2(56),
                    ;
                    assert(pow2(56) * 127 < pow2(56) * 128) by (nonlinear_arith)
                        requires
                            pow2(56) >= 1,
                    ;
                } else {
                    assert(i == 9 && b <= 1);
                    assert(mult == pow2(63));
                    assert(mult * b as nat <= pow2(63)) by (nonlinear_arith)
                        requires
                            b <= 1,
                            mult == pow2(63),
                    ;
                }
            }
            let hi: u64 = mult * (b as u64);
            return (x + hi, (i + 1) as isize);
        }
        if i < MAX_VAR_INT_LEN64 - 1 {
            proof {
                lemma_pow2_pos((7 * i) as nat);
                let s = buf@.skip(i as int);
                assert(s.drop_first() =~= buf@.skip(i as int + 1));
                assert(varint_value(s) == (b - 0x80) as nat + 0x80 * varint_value(
                    buf@.skip(i as int + 1),
                ));
                assert(mult <= pow2(56)) by {
                    if 7 * i < 56 {
                        lemma_pow2_strictly_increases((7 * i) as nat, 56);
                    }
                }
                assert(pow2(56) * 128 == pow2(63) && pow2(63) * 2 == pow2(64) && pow2((7 * (i + 1))
                    as nat) == mult * 128) by {
                    lemma_pow2_adds(56, 7);
                    lemma_pow2_adds(63, 1);
                    lemma_pow2_adds((7 * i) as nat, 7);
                    lemma2_to64();
                }
                assert(pow2(64) == 0x10000000000000000) by {
                    lemma2_to64_rest();
                }
                let d = (b - 0x80) as nat;
                assert(mult * d <= pow2(56) * 127) by (nonlinear_arith)
                    requires
                        d <= 127,
                        1 <= mult <= pow2(56),
                ;
                assert(pow2(56) * 127 < pow2(56) * 128) by (nonlinear_arith)
                    requires
                        pow2(56) >= 1,
                ;
                assert(x + mult * d < mult * 128) by (nonlinear_arith)
                    requires
                        x < mult,
                        d <= 127,
                        mult >= 1,
                ;
                assert(x + mult * d + (mult * 0x80) * varint_value(buf@.skip(i as int + 1)) == x
                    + mult * varint_value(buf@.skip(i as int))) by (nonlinear_arith)
                    requires
                        varint_value(buf@.skip(i as int)) == d + 0x80 * varint_value(
                            buf@.skip(i as int + 1),
                        ),
                ;
            }
            x = x + mult * ((b - 0x80) as u64);
            mult = mult * 0x80;
        }
        i = i + 1;
    }
    proof {
        lemma_varint_len_split(buf@, i as int);
        assert(buf@.skip(i as int).len() == 0);
    }
    (0, 0)
}

/// The encoded form of a value: meta byte, LEB128 expiry, payload.
pub open spec fn value_bytes(meta: u8, expires_at: u64, payload: Seq<u8>) -> Seq<u8> {
    seq![meta] + varint_bytes(expires_at as nat) + payload
}

/// The meta byte that `decode_value` reads out of `buf`.
pub open spec fn dec_meta(buf: Seq<u8>) -> u8 {
    if buf.len() == 0 {
        0
    } else {
        buf[0]
    }
}

/// How many bytes of `buf` past the meta byte the decoder consumes as the
/// expiry run: positive on success, zero when the run is cut short, and
/// negative when it overflows 64 bits.
pub open spec fn dec_varint_used(buf: Seq<u8>) -> int {
    if buf.len() == 0 {
        0
    } else {
        let tail = buf.drop_first();
        match varint_len(tail) {
            Some(n) => {
                if n <= 9 {
                    n as int
                } else if n == 10 && tail[9] <= 1 {
                    10
                } else if n == 10 {
                    -10
                } else {
                    -11
                }
            },
            None => {
                if tail.len() <= 10 {
                    0
                } else {
                    -11
                }
            },
        }
    }
}

/// The expiry instant that `decode_value` reads out of `buf`.
pub open spec fn dec_expires(buf: Seq<u8>) -> u64 {
    if buf.len() == 0 || dec_varint_used(buf) <= 0 {
        0
    } else {
        varint_value(buf.drop_first()) as u64
    }
}

/// The payload that `decode_value` reads out of `buf`: everything past the
/// expiry run, the whole tail when the run is cut short, and nothing at
/// all on a malformed run.
pub open spec fn dec_payload(buf: Seq<u8>) -> Seq<u8> {
    if buf.len() == 0 || dec_varint_used(buf) < 0 {
        Seq::<u8>::empty()
    } else {
        buf.skip(1 + dec_varint_used(buf))
    }
}

impl Value {
    /// Exact byte length of the encoded form of this value.
    pub fn encoded_size(&self) -> (n: usize)
        requires
            self.v@.len() + 11 <= usize::MAX,
        ensures
            n == 1 + size_varint_spec(self.expires_at as nat) + self.v@.len(),
    {
        let enc: usize = size_varint(self.expires_at);
        self.v.len() + 1 + enc
    }

    /// Writes the encoded form into `buf` at position `at`; returns the
    /// count of bytes written. Bytes outside the encoding are untouched.
    pub fn encode_value(&self, buf: &mut Vec<u8>, at: usize) -> (n: u32)
        requires
            self.v@.len() + 11 <= usize::MAX,
            at + 1 + size_varint_spec(self.expires_at as nat) + self.v@.len() <= old(buf).len(),
            1 + size_varint_spec(self.expires_at as nat) + self.v@.len() <= u32::MAX,
        ensures
            n == 1 + size_varint_spec(self.expires_at as nat) + self.v@.len(),
            final(buf).len() == old(buf).len(),
            final(buf)@.subrange(at as int, at + n) == value_bytes(
                self.meta,
                self.expires_at,
                self.v@,
            ),
            forall|j: int|
                0 <= j < old(buf).len() && !(at <= j < at + n) ==> final(buf)@[j] == old(
                    buf,
                )@[j],
    {
        let ghost buf0 = buf@;
        buf.set(at, self.meta);
        let ghost buf_a = buf@;
        let sz: usize = encode_uvarint(buf, at + 1, self.expires_at);
        let ghost buf1 = buf@;
        let n0: usize = buf.len();
        let start: usize = at + 1 + sz;
        let mut k: usize = 0;
        while k < self.v.len()
            invariant
                buf@.len() == buf1.len(),
                buf1.len() == n0,
                k <= self.v.len(),
                start == at + 1 + sz,
                start + self.v.len() <= buf@.len(),
                forall|j: int| 0 <= j < k ==> buf@[start + j] == self.v@[j],
                forall|j: int|
                    0 <= j < buf@.len() && !(start <= j < start + k) ==> buf@[j] == buf1[j],
            decreases self.v.len() - k,
        {
            let b: u8 = self.v[k];
            buf.set(start + k, b);
            k = k + 1;
        }
        proof {
            let n = 1 + sz + self.v@.len();
            let vb = value_bytes(self.meta, self.expires_at, self.v@);
            lemma_varint_bytes_shape(self.expires_at as nat);
            assert forall|j: int|
                0 <= j < buf@.len() && !(at <= j < at + n) implies buf@[j] == buf0[j] by {
                assert(buf@[j] == buf1[j]);
                assert(buf1[j] == buf_a[j]);
            }
            assert(buf@[at as int] == self.meta) by {
                assert(buf@[at as int] == buf1[at as int]);
                assert(buf1[at as int] == buf_a[at as int]);
            }
            assert forall|j: int| 0 <= j < sz implies buf@[at + 1 + j] == varint_bytes(
                self.expires_at as nat,
            )[j] by {
                assert(buf@[at + 1 + j] == buf1[at + 1 + j]);
                assert(buf1[at + 1 + j] == buf1.subrange(at + 1, at + 1 + sz)[j]);
            }
            assert forall|j: int| 0 <= j < n implies buf@.subrange(at as int, at + n)[j] == vb[j]
                by {
                assert(buf@.subrange(at as int, at + n)[j] == buf@[at + j]);
                if j == 0 {
                } else if j < 1 + sz {
                    assert(buf@[at + 1 + (j - 1)] == varint_bytes(self.expires_at as nat)[j - 1]);
                    assert(vb[j] == varint_bytes(self.expires_at as nat)[j - 1]);
                } else {
                    assert(buf@[start + (j - 1 - sz)] == self.v@[j - 1 - sz]);
                    assert(vb[j] == self.v@[j - 1 - sz]);
                }
            }
            assert(buf@.subrange(at as int, at + n) =~= vb);
        }
        (1 + sz + self.v.len()) as u32
    }

    /// Reads an encoded value back out of `buf`, overwriting the meta byte,
    /// expiry and payload of `self`. A run cut short by the end of the
    /// buffer yields expiry 0 with the whole tail as payload; a run that
    /// overflows 64 bits yields the malformed sentinel — the meta byte as
    /// read, expiry 0 and an empty payload — which callers must discard.
    pub fn decode_value(&mut self, buf: &[u8])
        ensures
            final(self).meta == dec_meta(buf@),
            final(self).expires_at == dec_expires(buf@),
            final(self).v@ == dec_payload(buf@),
            final(self).version == old(self).version,
    {
        if buf.len() == 0 {
            self.meta = 0;
            self.expires_at = 0;
            self.v = Vec::new();
            proof {
                assert(self.v@ =~= dec_payload(buf@));
            }
            return ;
        }
        self.meta = buf[0];
        let tail: &[u8] = slice_skip_one(buf);
        let (expires_at, used) = decode_uvarint(tail);
        if used < 0 {
            self.expires_at = 0;
            self.v = Vec::new();
            proof {
                assert(self.v@ =~= dec_payload(buf@));
            }
            return ;
        }
        self.expires_at = expires_at;
        proof {
            lemma_varint_len_le(tail@);
        }
        let from: usize = 1 + (used as usize);
        let mut payload: Vec<u8> = Vec::new();
        let mut k: usize = from;
        while k < buf.len()
            invariant
                from <= k <= buf.len(),
                payload@ =~= buf@.subrange(from as int, k as int),
            decreases buf.len() - k,
        {
            payload.push(buf[k]);
            k = k + 1;
        }
        self.v = payload;
        proof {
            assert(buf@.drop_first() =~= tail@);
            assert(dec_varint_used(buf@) == used as int);
            assert(self.v@ =~= dec_payload(buf@));
        }
    }
}

/// All of `buf` except its first byte.
fn slice_skip_one(buf: &[u8]) -> (r: &[u8])
    requires
        buf@.len() >= 1,
    ensures
        r@ == buf@.skip(1),
{
    let r: &[u8] = buf.split_at(1).1;
    proof {
        assert(r@ =~= buf@.skip(1));
    }
    r
}

/// Codec law: decoding an encoded value recovers its meta byte, expiry
/// and payload verbatim, whatever bytes follow the encoding are absent.
pub proof fn lemma_value_codec_round_trip(meta: u8, expires_at: u64, payload: Seq<u8>)
    ensures
        dec_meta(value_bytes(meta, expires_at, payload)) == meta,
        dec_expires(value_bytes(meta, expires_at, payload)) == expires_at,
        dec_payload(value_bytes(meta, expires_at, payload)) == payload,
{
    let buf = value_bytes(meta, expires_at, payload);
    let sz = size_varint_spec(expires_at as nat);
    lemma_size_varint_le_10(expires_at);
    lemma_varint_bytes_shape(expires_at as nat);
    lemma_varint_round_trip(expires_at as nat, payload);
    assert(buf.drop_first() =~= varint_bytes(expires_at as nat) + payload);
    assert(varint_len(buf.drop_first()) == Some(sz));
    if sz == 10 {
        lemma_varint_bytes_shape(expires_at as nat);
        lemma_varint_bytes_last_small(expires_at);
        assert(buf.drop_first()[9] == varint_bytes(expires_at as nat)[9]);
    }
    assert(dec_varint_used(buf) == sz as int);
    assert(varint_value(buf.drop_first()) == expires_at as nat);
    assert(buf.skip(1 + sz as int) =~= payload);
    assert(dec_payload(buf) =~= payload);
}

/// A user-facing record: the key as framed by the caller, the raw value,
/// and the metadata that rides along with it.
#[derive(Debug)]
pub struct Entry {
    pub key: Vec<u8>,
    pub value: Vec<u8>,
    pub expires_at: u64,
    pub meta: u8,
    pub version: u64,
    pub offset: u32,
    pub header_len: isize,
    pub val_threshold: i64,
}

impl Default for Entry {
    fn default() -> (r: Self)
        ensures
            r.key@ == Seq::<u8>::empty() && r.value@ == Seq::<u8>::empty(),
            r.expires_at == 0 && r.meta == 0 && r.version == 0,
            r.offset == 0 && r.header_len == 0 && r.val_threshold == 0,
    {
        Entry {
            key: Vec::new(),
            value: Vec::new(),
            expires_at: 0,
            meta: 0,
            version: 0,
            offset: 0,
            header_len: 0,
            val_threshold: 0,
        }
    }
}

/// Builds a bare entry around a key and a value, everything else zeroed.
pub fn new_entry(key: &[u8], value: &[u8]) -> (e: Entry)
    ensures
        e.key@ == key@,
        e.value@ == value@,
        e.expires_at == 0 && e.meta == 0 && e.version == 0,
{
    let mut k: Vec<u8> = Vec::new();
    let mut i: usize = 0;
    while i < key.len()
        invariant
            i <= key@.len(),
            k@ =~= key@.subrange(0, i as int),
        decreases key@.len() - i,
    {
        k.push(key[i]);
        i = i + 1;
    }
    let mut v: Vec<u8> = Vec::new();
    let mut j: usize = 0;
    while j < value.len()
        invariant
            j <= value@.len(),
            v@ =~= value@.subrange(0, j as int),
        decreases value@.len() - j,
    {
        v.push(value[j]);
        j = j + 1;
    }
    proof {
        assert(k@ =~= key@);
        assert(v@ =~= value@);
    }
    Entry { key: k, value: v, ..Default::default() }
}

} // verus!
