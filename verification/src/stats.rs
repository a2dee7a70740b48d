use vstd::prelude::*;

verus! {

/// `r` is the 0-based index of the nearest-rank `p`th percentile of `n`
/// sorted samples: the 1-based rank `ceil(p/100 * n)`, clamped into
/// `[1, n]`, minus one. A percentile above 100 clamps to the last sample.
pub open spec fn is_nearest_rank_index(p: int, n: int, r: int) -> bool {
    &&& 0 <= r < n
    &&& p * n == 0 ==> r == 0
    &&& p > 100 ==> r == n - 1
    &&& (p * n > 0 && p <= 100) ==> 100 * r < p * n <= 100 * (r + 1)
}

/// The 0-based index of the nearest-rank `p`th percentile (`p` in whole
/// percent) of `n` sorted samples: rank `ceil(p/100 * n)`, 1-indexed,
/// clamped into `[1, n]`.
pub fn nearest_rank_index(p: u64, n: usize) -> (r: usize)
    requires
        n > 0,
    ensures
        is_nearest_rank_index(p as int, n as int, r as int),
{
    proof {
        assert((p as u128) * (n as u128) <= (u64::MAX as int) * (usize::MAX as int)) by (nonlinear_arith)
            requires
                p <= u64::MAX,
                n <= usize::MAX,
        ;
        assert((u64::MAX as int) * (usize::MAX as int) + 99 <= u128::MAX) by (nonlinear_arith)
            requires
                usize::MAX <= u64::MAX,
        ;
    }
    let prod: u128 = (p as u128) * (n as u128);
    let rank: u128 = (prod + 99) / 100;
    proof {
        assert(prod == p * n);
        if p <= 100 {
            assert(prod <= 100 * n) by (nonlinear_arith)
                requires
                    p <= 100,
                    prod == p * n,
                    n > 0,
            ;
            assert(rank <= n) by (nonlinear_arith)
                requires
                    rank == (prod + 99) / 100,
                    prod <= 100 * n,
            ;
        } else {
            assert(prod >= 101 * n) by (nonlinear_arith)
                requires
                    p >= 101,
                    prod == p * n,
                    n > 0,
            ;
            assert(rank > n) by (nonlinear_arith)
                requires
                    rank == (prod + 99) / 100,
                    prod >= 101 * n,
                    n > 0,
            ;
        }
        if prod > 0 {
            assert(100 * (rank - 1) < prod <= 100 * rank) by (nonlinear_arith)
                requires
                    rank == (prod + 99) / 100,
                    prod > 0,
            ;
        } else {
            assert(rank == 0);
        }
    }
    if rank > n as u128 {
        n - 1
    } else if rank < 1 {
        0
    } else {
        (rank - 1) as usize
    }
}

/// A higher percentile never picks an earlier sample.
pub proof fn lemma_nearest_rank_is_monotone(p: int, q: int, n: int, r: int, s: int)
    requires
        0 <= p <= q,
        n > 0,
        is_nearest_rank_index(p, n, r),
        is_nearest_rank_index(q, n, s),
    ensures
        r <= s,
{
    assert(p * n <= q * n) by (nonlinear_arith)
        requires
            p <= q,
            n > 0,
    ;
    assert(q * n >= 0) by (nonlinear_arith)
        requires
            q >= 0,
            n > 0,
    ;
}

/// The 100th percentile is the largest sample.
pub proof fn lemma_top_percentile_is_the_maximum(n: int, r: int)
    requires
        n > 0,
        is_nearest_rank_index(100, n, r),
    ensures
        r == n - 1,
{
}

} // verus!
