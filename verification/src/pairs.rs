//! Triangular encoding of unordered document-id pairs.
//!
//! Agreement bitmaps are indexed by unordered pairs `{i, j}` of document ids.
//! The pair with `i < j` is stored at index `j * (j - 1) / 2 + i`, a
//! linearization of the strict lower triangle of an adjacency matrix.

use vstd::prelude::*;

verus! {

/// Index of the unordered pair `{i, j}` (`i != j`) in the linearized strict
/// lower triangle: with `lo = min(i, j)` and `hi = max(i, j)`, the index is
/// `hi * (hi - 1) / 2 + lo`.
pub open spec fn pair_index_spec(i: nat, j: nat) -> nat
    recommends
        i != j,
{
    if i < j {
        ((j * (j - 1)) / 2 + i) as nat
    } else {
        ((i * (i - 1)) / 2 + j) as nat
    }
}

/// Number of unordered pairs drawn from `n` documents: all pair indices are
/// below this bound.
pub open spec fn pair_count(n: nat) -> nat {
    ((n * (n - 1)) / 2) as nat
}

/// Every pair of document ids below `n` has its index below `pair_count(n)`.
pub proof fn lemma_pair_index_below_count(i: nat, j: nat, n: nat)
    requires
        i != j,
        i < n,
        j < n,
    ensures
        pair_index_spec(i, j) < pair_count(n),
{
    let lo = if i < j {
        i
    } else {
        j
    };
    let hi = if i < j {
        j
    } else {
        i
    };
    assert((hi * (hi - 1)) / 2 + lo < (n * (n - 1)) / 2) by (nonlinear_arith)
        requires
            lo < hi < n,
    ;
}

fn triangle(n: u64) -> (r: u64)
    requires
        n <= 92683,
    ensures
        r == (n * (n - 1)) / 2,
{
    if n == 0 {
        0
    } else {
        proof {
            assert(n * (n - 1) <= 92683u64 * 92682) by (nonlinear_arith)
                requires
                    n <= 92683u64,
            ;
        }
        n * (n - 1) / 2
    }
}

/// Index of the unordered pair `{i, j}` of document ids.  The relationship is
/// symmetric, so both orders of the arguments give the same index.
pub fn index(i: u32, j: u32) -> (r: u32)
    requires
        i != j,
        pair_index_spec(i as nat, j as nat) <= u32::MAX,
    ensures
        r == pair_index_spec(i as nat, j as nat),
{
    let (lo, hi) = if i > j {
        (j, i)
    } else {
        (i, j)
    };
    let hi64: u64 = hi as u64;
    let lo64: u64 = lo as u64;
    proof {
        assert(hi64 * (hi64 - 1) <= 0xFFFF_FFFFu64 * 0xFFFF_FFFEu64) by (nonlinear_arith)
            requires
                hi64 <= 0xFFFF_FFFFu64,
        ;
    }
    let r64: u64 = hi64 * (hi64 - 1) / 2 + lo64;
    r64 as u32
}

/// Decode a pair index back into its two document ids, smaller first.  The
/// larger id is the largest `j` whose triangle number `j * (j - 1) / 2` does
/// not exceed the index; the smaller is the remainder.
pub fn reverse_index(idx: u32) -> (r: (u32, u32))
    ensures
        r.0 < r.1,
        pair_index_spec(r.0 as nat, r.1 as nat) == idx,
{
    let idx64: u64 = idx as u64;
    let mut lo: u64 = 1;
    let mut hi: u64 = 92683;
    proof {
        assert(92683u64 * 92682 / 2 > u32::MAX);
    }
    while hi - lo > 1
        invariant
            1 <= lo < hi <= 92683,
            (lo * (lo - 1)) / 2 <= idx64,
            (hi * (hi - 1)) / 2 > idx64,
            idx64 == idx,
        decreases hi - lo,
    {
        let mid: u64 = lo + (hi - lo) / 2;
        if triangle(mid) <= idx64 {
            lo = mid;
        } else {
            hi = mid;
        }
    }
    let j: u64 = lo;
    let i: u64 = idx64 - triangle(j);
    proof {
        assert((j + 1) * ((j + 1) - 1) / 2 == (j * (j - 1)) / 2 + j) by (nonlinear_arith)
            requires
                1 <= j <= 92683,
        ;
        assert(i < j);
    }
    (i as u32, j as u32)
}


/// Every index decodes to exactly one ordered pair.
pub proof fn lemma_pair_index_exists(t: u32)
    ensures
        exists|p: (u32, u32)|
            p.0 < p.1 && pair_index_spec(p.0 as nat, p.1 as nat) == t as nat,
    decreases t,
{
    if t == 0 {
        assert(pair_index_spec(0, 1) == 0);
        assert((0u32, 1u32).0 < (0u32, 1u32).1 && pair_index_spec(
            (0u32, 1u32).0 as nat,
            (0u32, 1u32).1 as nat,
        ) == 0);
    } else {
        lemma_pair_index_exists((t - 1) as u32);
        let p = choose|p: (u32, u32)|
            p.0 < p.1 && pair_index_spec(p.0 as nat, p.1 as nat) == (t - 1) as nat;
        if p.0 + 1 < p.1 {
            let q = ((p.0 + 1) as u32, p.1);
            assert(q.0 < q.1 && pair_index_spec(q.0 as nat, q.1 as nat) == t as nat);
        } else {
            assert(p.0 + 1 == p.1);
            assert((p.1 as nat) * ((p.1 as nat) + 1) / 2 == (p.1 as nat) * ((p.1 as nat) - 1) / 2
                + p.1 as nat) by (nonlinear_arith)
                requires
                    p.1 >= 1,
            ;
            assert(p.1 < u32::MAX) by {
                if p.1 >= 3 {
                    assert((p.1 as nat) * ((p.1 as nat) - 1) / 2 >= p.1 as nat) by (nonlinear_arith)
                        requires
                            p.1 >= 3,
                    ;
                    assert(pair_index_spec(p.0 as nat, p.1 as nat) >= p.1);
                }
            }
            let q = (0u32, (p.1 + 1) as u32);
            assert((q.1 as nat) * ((q.1 as nat) - 1) / 2 == (p.1 as nat) * ((p.1 as nat) + 1) / 2)
                by (nonlinear_arith)
                requires
                    q.1 == p.1 + 1,
            ;
            assert(pair_index_spec(q.0 as nat, q.1 as nat) == (q.1 as nat) * ((q.1 as nat) - 1)
                / 2);
            assert(q.0 < q.1 && pair_index_spec(q.0 as nat, q.1 as nat) == t as nat);
        }
    }
}

/// The pair encoding is injective on ordered pairs.
pub proof fn lemma_pair_index_injective(i1: u32, j1: u32, i2: u32, j2: u32)
    requires
        i1 < j1,
        i2 < j2,
        pair_index_spec(i1 as nat, j1 as nat) == pair_index_spec(i2 as nat, j2 as nat),
    ensures
        i1 == i2,
        j1 == j2,
{
    if j1 < j2 {
        assert((j1 as nat) * ((j1 as nat) - 1) / 2 + j1 as nat <= (j2 as nat) * ((j2 as nat) - 1)
            / 2) by (nonlinear_arith)
            requires
                0 < j1 < j2,
        ;
    } else if j2 < j1 {
        assert((j2 as nat) * ((j2 as nat) - 1) / 2 + j2 as nat <= (j1 as nat) * ((j1 as nat) - 1)
            / 2) by (nonlinear_arith)
            requires
                0 < j2 < j1,
        ;
    }
}

/// Product of two machine words, exact.
pub fn mul_u64(a: u64, b: u64) -> (r: u128)
    ensures
        r == a as nat * b as nat,
{
    let a128: u128 = a as u128;
    let b128: u128 = b as u128;
    proof {
        assert(a128 * b128 <= 0xFFFF_FFFF_FFFF_FFFFu128 * 0xFFFF_FFFF_FFFF_FFFFu128)
            by (nonlinear_arith)
            requires
                a128 <= 0xFFFF_FFFF_FFFF_FFFFu128,
                b128 <= 0xFFFF_FFFF_FFFF_FFFFu128,
        ;
    }
    a128 * b128
}

} // verus!
