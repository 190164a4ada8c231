//! Ranking by key: index permutations that order 32-byte keys ascending
//! (big-endian) or `u64` keys descending.

use vstd::prelude::*;

use crate::bytes::lex_lt;
use crate::bytes::lex_lt32;

verus! {

/// `idx` lists each of `0..n` exactly once.
pub open spec fn is_permutation(idx: Seq<usize>, n: nat) -> bool {
    &&& idx.len() == n
    &&& forall|i: int| 0 <= i < idx.len() ==> #[trigger] idx[i] < n
    &&& forall|i: int, j: int| 0 <= i < idx.len() && 0 <= j < idx.len() && i != j ==> idx[i] != idx[j]
}

pub open spec fn keys_distinct(keys: Seq<[u8; 32]>) -> bool {
    forall|i: int, j: int| 0 <= i < keys.len() && 0 <= j < keys.len() && i != j ==> keys[i]@ != keys[j]@
}

/// A permutation of `0..n` contains every index below `n`.
pub proof fn lemma_permutation_covers(idx: Seq<usize>, n: nat, k: int)
    requires
        is_permutation(idx, n),
        0 <= k < n,
        n <= usize::MAX,
    ensures
        exists|i: int| 0 <= i < idx.len() && idx[i] == k,
{
    lemma_distinct_bounded_covers(idx, n, k);
}

proof fn lemma_distinct_bounded_covers(idx: Seq<usize>, n: nat, k: int)
    requires
        is_permutation(idx, n),
        0 <= k < n,
        n <= usize::MAX,
    ensures
        exists|i: int| 0 <= i < idx.len() && idx[i] == k,
{
    if !(exists|i: int| 0 <= i < idx.len() && idx[i] == k) {
        // the n distinct values of idx lie in a set of n - 1 values
        let s = idx.to_set();
        let dom = Set::new(|v: usize| v < n && v != k);
        assert(s.subset_of(dom));
        let r = Set::new(|v: usize| v < n);
        assert(dom =~= r.remove(k as usize));
        lemma_usize_range_finite_len(n);
        idx.unique_seq_to_set();
        vstd::set_lib::lemma_len_subset(s, dom);
        assert(r.contains(k as usize));
    }
}

proof fn lemma_usize_range_finite_len(n: nat)
    requires
        n <= usize::MAX + 1,
    ensures
        Set::new(|v: usize| v < n).finite(),
        Set::new(|v: usize| v < n).len() == n,
    decreases n,
{
    let r = Set::new(|v: usize| v < n);
    if n == 0 {
        assert(r =~= Set::<usize>::empty());
    } else {
        lemma_usize_range_finite_len((n - 1) as nat);
        let p = Set::new(|v: usize| v < (n - 1) as nat);
        assert(r =~= p.insert((n - 1) as usize));
    }
}

/// Key `a` ranks before key `b` (by index): a smaller key, or an equal key
/// at a smaller index.
pub open spec fn ranked_before(keys: Seq<[u8; 32]>, a: int, b: int) -> bool {
    lex_lt(keys[a]@, keys[b]@) || (keys[a]@ == keys[b]@ && a < b)
}

/// Indices of `keys` in ascending key order; equal keys keep their order
/// (a stable sort).
pub fn rank_ascending(keys: &Vec<[u8; 32]>) -> (idx: Vec<usize>)
    ensures
        is_permutation(idx@, keys@.len()),
        forall|i: int, j: int| 0 <= i < j < idx@.len() ==> ranked_before(keys@, idx@[i] as int, idx@[j] as int),
        keys_distinct(keys@) ==> forall|i: int, j: int|
            0 <= i < j < idx@.len() ==> lex_lt(keys@[idx@[i] as int]@, keys@[idx@[j] as int]@),
{
    let n = keys.len();
    let mut out: Vec<usize> = Vec::new();
    let mut k: usize = 0;
    while k < n
        invariant
            n == keys@.len(),
            k <= n,
            is_permutation(out@, k as nat),
            forall|i: int, j: int| 0 <= i < j < out@.len() ==> ranked_before(keys@, out@[i] as int, out@[j] as int),
        decreases n - k,
    {
        let kx = &keys[k];
        let mut p: usize = 0;
        while p < out.len()
            invariant
                n == keys@.len(),
                k < n,
                *kx == keys@[k as int],
                is_permutation(out@, k as nat),
                p <= out@.len(),
                forall|j: int| 0 <= j < p ==> ranked_before(keys@, out@[j] as int, k as int),
            ensures
                p <= out@.len(),
                forall|j: int| 0 <= j < p ==> ranked_before(keys@, out@[j] as int, k as int),
                p < out@.len() ==> lex_lt(kx@, keys@[out@[p as int] as int]@),
            decreases out@.len() - p,
        {
            let q = out[p];
            if lex_lt32(kx, &keys[q]) {
                break;
            }
            proof {
                assert(q < k);
                if keys@[q as int]@ != kx@ {
                    crate::bytes::lemma_lex_total(keys@[q as int]@, kx@);
                }
            }
            p += 1;
        }
        let ghost before = out@;
        out.insert(p, k);
        proof {
            let s = out@;
            assert(s == before.insert(p as int, k));
            assert forall|i: int, j: int| 0 <= i < j < s.len()
                implies ranked_before(keys@, s[i] as int, s[j] as int) by {
                if j < p {
                    assert(s[i] == before[i] && s[j] == before[j]);
                } else if j == p {
                    assert(s[i] == before[i]);
                } else if i == p {
                    assert(s[j] == before[j - 1]);
                    let a = keys@[before[p as int] as int]@;
                    let b = keys@[before[j - 1] as int]@;
                    if j - 1 > p {
                        assert(ranked_before(keys@, before[p as int] as int, before[j - 1] as int));
                        crate::bytes::lemma_lex_transitive(kx@, a, b);
                    }
                } else if i < p {
                    assert(s[i] == before[i] && s[j] == before[j - 1]);
                } else {
                    assert(s[i] == before[i - 1] && s[j] == before[j - 1]);
                }
            }
            assert forall|i: int| 0 <= i < s.len() implies #[trigger] s[i] < k + 1 by {
                if i < p {
                    assert(s[i] == before[i]);
                } else if i > p {
                    assert(s[i] == before[i - 1]);
                }
            }
            assert forall|i: int, j: int| 0 <= i < s.len() && 0 <= j < s.len() && i != j
                implies s[i] != s[j] by {
                if i != p && j != p {
                    let bi = if i < p { i } else { i - 1 };
                    let bj = if j < p { j } else { j - 1 };
                    assert(s[i] == before[bi] && s[j] == before[bj]);
                } else if i == p {
                    let bj = if j < p { j } else { j - 1 };
                    assert(s[j] == before[bj]);
                } else {
                    let bi = if i < p { i } else { i - 1 };
                    assert(s[i] == before[bi]);
                }
            }
        }
        k += 1;
    }
    proof {
        if keys_distinct(keys@) {
            assert forall|i: int, j: int| 0 <= i < j < out@.len()
                implies lex_lt(keys@[out@[i] as int]@, keys@[out@[j] as int]@) by {
                assert(ranked_before(keys@, out@[i] as int, out@[j] as int));
                assert(out@[i] != out@[j]);
            }
        }
    }
    out
}

/// Indices of `keys` in non-increasing key order; equal keys keep no
/// particular order.
pub fn rank_descending(keys: &Vec<u64>) -> (idx: Vec<usize>)
    ensures
        is_permutation(idx@, keys@.len()),
        forall|i: int, j: int|
            0 <= i < j < idx@.len() ==> keys@[idx@[i] as int] >= keys@[idx@[j] as int],
{
    let n = keys.len();
    let mut out: Vec<usize> = Vec::new();
    let mut k: usize = 0;
    while k < n
        invariant
            n == keys@.len(),
            k <= n,
            is_permutation(out@, k as nat),
            forall|i: int, j: int|
                0 <= i < j < out@.len() ==> keys@[out@[i] as int] >= keys@[out@[j] as int],
        decreases n - k,
    {
        let kx = keys[k];
        let mut p: usize = 0;
        while p < out.len()
            invariant
                n == keys@.len(),
                k < n,
                kx == keys@[k as int],
                is_permutation(out@, k as nat),
                p <= out@.len(),
                forall|j: int| 0 <= j < p ==> keys@[out@[j] as int] >= kx,
            ensures
                p <= out@.len(),
                forall|j: int| 0 <= j < p ==> keys@[out@[j] as int] >= kx,
                p < out@.len() ==> kx > keys@[out@[p as int] as int],
            decreases out@.len() - p,
        {
            let q = out[p];
            if kx > keys[q] {
                break;
            }
            p += 1;
        }
        let ghost before = out@;
        out.insert(p, k);
        proof {
            let s = out@;
            assert(s == before.insert(p as int, k));
            assert forall|i: int, j: int| 0 <= i < j < s.len()
                implies keys@[s[i] as int] >= keys@[s[j] as int] by {
                if j < p {
                    assert(s[i] == before[i] && s[j] == before[j]);
                } else if j == p {
                    assert(s[i] == before[i]);
                } else if i == p {
                    assert(s[j] == before[j - 1]);
                } else if i < p {
                    assert(s[i] == before[i] && s[j] == before[j - 1]);
                } else {
                    assert(s[i] == before[i - 1] && s[j] == before[j - 1]);
                }
            }
            assert forall|i: int| 0 <= i < s.len() implies #[trigger] s[i] < k + 1 by {
                if i < p {
                    assert(s[i] == before[i]);
                } else if i > p {
                    assert(s[i] == before[i - 1]);
                }
            }
            assert forall|i: int, j: int| 0 <= i < s.len() && 0 <= j < s.len() && i != j
                implies s[i] != s[j] by {
                if i != p && j != p {
                    let bi = if i < p { i } else { i - 1 };
                    let bj = if j < p { j } else { j - 1 };
                    assert(s[i] == before[bi] && s[j] == before[bj]);
                } else if i == p {
                    let bj = if j < p { j } else { j - 1 };
                    assert(s[j] == before[bj]);
                } else {
                    let bi = if i < p { i } else { i - 1 };
                    assert(s[i] == before[bi]);
                }
            }
        }
        k += 1;
    }
    out
}

} // verus!
