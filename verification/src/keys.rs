//! Ordering of skiplist keys. A key carries the user's bytes followed by
//! an 8-byte big-endian suffix; keys compare by the user bytes first and
//! by the suffix only on a tie, so versions of one user key sort by their
//! transformed timestamp.

use vstd::prelude::*;

verus! {

/// Three-way lexicographic order on byte strings: -1, 0 or 1.
pub open spec fn lex_cmp(a: Seq<u8>, b: Seq<u8>) -> int
    decreases a.len(),
{
    if a.len() == 0 && b.len() == 0 {
        0
    } else if a.len() == 0 {
        -1
    } else if b.len() == 0 {
        1
    } else if a[0] < b[0] {
        -1
    } else if a[0] > b[0] {
        1
    } else {
        lex_cmp(a.drop_first(), b.drop_first())
    }
}

/// `lex_cmp` only answers -1, 0 or 1, and answers 0 exactly on equal
/// strings.
pub proof fn lemma_lex_cmp_eq(a: Seq<u8>, b: Seq<u8>)
    ensures
        -1 <= lex_cmp(a, b) <= 1,
        lex_cmp(a, b) == 0 <==> a == b,
    decreases a.len(),
{
    if a.len() == 0 && b.len() == 0 {
        assert(a =~= b);
    } else if a.len() == 0 || b.len() == 0 {
        assert(a != b);
    } else if a[0] == b[0] {
        lemma_lex_cmp_eq(a.drop_first(), b.drop_first());
        if a.drop_first() == b.drop_first() {
            assert(a.len() == b.len());
            assert forall|i: int| 0 <= i < a.len() implies a[i] == b[i] by {
                if i > 0 {
                    assert(a.drop_first()[i - 1] == b.drop_first()[i - 1]);
                }
            }
            assert(a =~= b);
        } else {
            assert(a != b) by {
                if a == b {
                    assert(a.drop_first() =~= b.drop_first());
                }
            }
        }
    } else {
        assert(a != b) by {
            if a == b {
                assert(a[0] == b[0]);
            }
        }
    }
}

/// Swapping the arguments flips the sign.
pub proof fn lemma_lex_cmp_antisym(a: Seq<u8>, b: Seq<u8>)
    ensures
        lex_cmp(a, b) == -lex_cmp(b, a),
    decreases a.len(),
{
    if a.len() > 0 && b.len() > 0 && a[0] == b[0] {
        lemma_lex_cmp_antisym(a.drop_first(), b.drop_first());
    }
}

/// The order is transitive, strictly so as soon as one link is strict.
pub proof fn lemma_lex_cmp_trans(a: Seq<u8>, b: Seq<u8>, c: Seq<u8>)
    requires
        lex_cmp(a, b) <= 0,
        lex_cmp(b, c) <= 0,
    ensures
        lex_cmp(a, c) <= 0,
        lex_cmp(a, b) < 0 || lex_cmp(b, c) < 0 ==> lex_cmp(a, c) < 0,
    decreases a.len() + b.len() + c.len(),
{
    lemma_lex_cmp_eq(a, b);
    lemma_lex_cmp_eq(b, c);
    lemma_lex_cmp_eq(a, c);
    if a.len() == 0 {
        if c.len() == 0 {
            assert(b.len() == 0);
        }
    } else {
        assert(b.len() > 0);
        if c.len() == 0 {
            assert(false);
        } else {
            if a[0] == b[0] && b[0] == c[0] {
                lemma_lex_cmp_trans(a.drop_first(), b.drop_first(), c.drop_first());
            }
        }
    }
}

/// The user part of a framed key: everything before the 8-byte suffix.
pub open spec fn user_key(k: Seq<u8>) -> Seq<u8> {
    k.take(k.len() - 8)
}

/// The 8-byte suffix of a framed key.
pub open spec fn ts_suffix(k: Seq<u8>) -> Seq<u8> {
    k.skip(k.len() - 8)
}

/// Three-way order on framed keys: user bytes first, suffix on a tie.
pub open spec fn key_cmp(a: Seq<u8>, b: Seq<u8>) -> int {
    if lex_cmp(user_key(a), user_key(b)) != 0 {
        lex_cmp(user_key(a), user_key(b))
    } else {
        lex_cmp(ts_suffix(a), ts_suffix(b))
    }
}

/// Strict order on framed keys.
pub open spec fn key_lt(a: Seq<u8>, b: Seq<u8>) -> bool {
    key_cmp(a, b) < 0
}

/// A framed key is its user part plus its suffix.
pub proof fn lemma_key_parts(k: Seq<u8>)
    requires
        k.len() >= 8,
    ensures
        user_key(k) + ts_suffix(k) == k,
{
    assert(user_key(k) + ts_suffix(k) =~= k);
}

/// On framed keys the order answers 0 exactly on equal keys.
pub proof fn lemma_key_cmp_eq(a: Seq<u8>, b: Seq<u8>)
    requires
        a.len() >= 8,
        b.len() >= 8,
    ensures
        -1 <= key_cmp(a, b) <= 1,
        key_cmp(a, b) == 0 <==> a == b,
{
    lemma_lex_cmp_eq(user_key(a), user_key(b));
    lemma_lex_cmp_eq(ts_suffix(a), ts_suffix(b));
    if key_cmp(a, b) == 0 {
        lemma_key_parts(a);
        lemma_key_parts(b);
        assert(a =~= b);
    } else {
        if a == b {
            assert(user_key(a) == user_key(b) && ts_suffix(a) == ts_suffix(b));
        }
    }
}

/// Swapping the arguments of the key order flips the sign.
pub proof fn lemma_key_cmp_antisym(a: Seq<u8>, b: Seq<u8>)
    ensures
        key_cmp(a, b) == -key_cmp(b, a),
{
    lemma_lex_cmp_antisym(user_key(a), user_key(b));
    lemma_lex_cmp_antisym(ts_suffix(a), ts_suffix(b));
}

/// The key order is transitive, strictly so with one strict link.
pub proof fn lemma_key_cmp_trans(a: Seq<u8>, b: Seq<u8>, c: Seq<u8>)
    requires
        key_cmp(a, b) <= 0,
        key_cmp(b, c) <= 0,
    ensures
        key_cmp(a, c) <= 0,
        key_cmp(a, b) < 0 || key_cmp(b, c) < 0 ==> key_cmp(a, c) < 0,
{
    lemma_lex_cmp_eq(user_key(a), user_key(b));
    lemma_lex_cmp_eq(user_key(b), user_key(c));
    lemma_lex_cmp_eq(user_key(a), user_key(c));
    lemma_lex_cmp_trans(user_key(a), user_key(b), user_key(c));
    if user_key(a) == user_key(b) && user_key(b) == user_key(c) {
        lemma_lex_cmp_trans(ts_suffix(a), ts_suffix(b), ts_suffix(c));
    }
}

/// Strict transitivity in the form the skiplist proofs use.
pub proof fn lemma_key_lt_trans(a: Seq<u8>, b: Seq<u8>, c: Seq<u8>)
    requires
        key_lt(a, b),
        key_lt(b, c),
    ensures
        key_lt(a, c),
{
    lemma_key_cmp_trans(a, b, c);
}

/// Compares the byte ranges `a[a_lo..a_hi]` and `b[b_lo..b_hi]`
/// lexicographically.
pub(crate) fn cmp_sub(a: &[u8], a_lo: usize, a_hi: usize, b: &[u8], b_lo: usize, b_hi: usize) -> (r: i32)
    requires
        a_lo <= a_hi <= a@.len(),
        b_lo <= b_hi <= b@.len(),
    ensures
        r == lex_cmp(a@.subrange(a_lo as int, a_hi as int), b@.subrange(b_lo as int, b_hi as int)),
        -1 <= r <= 1,
{
    let ghost av = a@.subrange(a_lo as int, a_hi as int);
    let ghost bv = b@.subrange(b_lo as int, b_hi as int);
    proof {
        lemma_lex_cmp_eq(av, bv);
    }
    let mut k: usize = 0;
    while a_lo + k < a_hi && b_lo + k < b_hi
        invariant
            a_lo <= a_hi <= a@.len(),
            b_lo <= b_hi <= b@.len(),
            k <= a_hi - a_lo,
            k <= b_hi - b_lo,
            av == a@.subrange(a_lo as int, a_hi as int),
            bv == b@.subrange(b_lo as int, b_hi as int),
            lex_cmp(av, bv) == lex_cmp(
                a@.subrange(a_lo + k, a_hi as int),
                b@.subrange(b_lo + k, b_hi as int),
            ),
        decreases a_hi - a_lo - k,
    {
        let x: u8 = a[a_lo + k];
        let y: u8 = b[b_lo + k];
        proof {
            let sa = a@.subrange(a_lo + k, a_hi as int);
            let sb = b@.subrange(b_lo + k, b_hi as int);
            assert(sa[0] == x && sb[0] == y);
            if x == y {
                assert(sa.drop_first() =~= a@.subrange(a_lo + k + 1, a_hi as int));
                assert(sb.drop_first() =~= b@.subrange(b_lo + k + 1, b_hi as int));
            }
        }
        if x < y {
            return -1;
        }
        if x > y {
            return 1;
        }
        k = k + 1;
    }
    proof {
        let sa = a@.subrange(a_lo + k, a_hi as int);
        let sb = b@.subrange(b_lo + k, b_hi as int);
        lemma_lex_cmp_eq(sa, sb);
    }
    if a_lo + k == a_hi && b_lo + k == b_hi {
        0
    } else if a_lo + k == a_hi {
        -1
    } else {
        1
    }
}

/// Three-way comparison of two framed keys: the user bytes decide, the
/// 8-byte suffix breaks ties.
pub fn compare_keys(key1: &[u8], key2: &[u8]) -> (r: i32)
    requires
        key1@.len() > 8,
        key2@.len() > 8,
    ensures
        r == key_cmp(key1@, key2@),
        -1 <= r <= 1,
{
    let l1: usize = key1.len();
    let l2: usize = key2.len();
    proof {
        assert(user_key(key1@) =~= key1@.subrange(0, l1 - 8));
        assert(user_key(key2@) =~= key2@.subrange(0, l2 - 8));
        assert(ts_suffix(key1@) =~= key1@.subrange(l1 - 8, l1 as int));
        assert(ts_suffix(key2@) =~= key2@.subrange(l2 - 8, l2 as int));
    }
    let c: i32 = cmp_sub(key1, 0, l1 - 8, key2, 0, l2 - 8);
    if c != 0 {
        return c;
    }
    cmp_sub(key1, l1 - 8, l1, key2, l2 - 8, l2)
}

} // verus!
