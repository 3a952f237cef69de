use vstd::prelude::*;

verus! {

/// `numerator / denominator` rounded to the nearest integer, ties to even,
/// for a positive denominator and a non-negative numerator.
pub open spec fn round_half_even(numerator: int, denominator: int) -> int {
    let q = numerator / denominator;
    let r = numerator % denominator;
    if 2 * r < denominator {
        q
    } else if 2 * r > denominator {
        q + 1
    } else if q % 2 == 0 {
        q
    } else {
        q + 1
    }
}

/// Rounds `numerator / denominator` half to even.
pub fn round_half_even_u128(numerator: u128, denominator: u128) -> (rounded: u128)
    requires
        denominator > 0,
        numerator / denominator < u128::MAX,
    ensures
        rounded == round_half_even(numerator as int, denominator as int),
        rounded <= numerator / denominator + 1,
{
    let q = numerator / denominator;
    let r = numerator % denominator;
    if r < denominator - r {
        q
    } else if r > denominator - r {
        q + 1
    } else if q % 2 == 0 {
        q
    } else {
        q + 1
    }
}

/// The largest `k` with `k * k <= n`.
pub open spec fn is_floor_sqrt(k: int, n: int) -> bool {
    0 <= k && k * k <= n && n < (k + 1) * (k + 1)
}

/// The integer square root: the largest `k` with `k * k <= n`.
pub open spec fn isqrt(n: nat) -> nat
    decreases n,
{
    if n == 0 {
        0
    } else {
        let k = isqrt((n - 1) as nat);
        if (k + 1) * (k + 1) <= n {
            (k + 1) as nat
        } else {
            k
        }
    }
}

/// The smallest `k` with `k * k >= n`.
pub open spec fn ceil_sqrt(n: nat) -> nat {
    if isqrt(n) * isqrt(n) == n {
        isqrt(n)
    } else {
        (isqrt(n) + 1) as nat
    }
}

pub proof fn lemma_isqrt(n: nat)
    ensures
        is_floor_sqrt(isqrt(n) as int, n as int),
    decreases n,
{
    if n > 0 {
        lemma_isqrt((n - 1) as nat);
        let k = isqrt((n - 1) as nat) as int;
        assert((k + 1) * (k + 1) < (k + 2) * (k + 2)) by (nonlinear_arith)
            requires k >= 0;
    }
}

pub proof fn lemma_floor_sqrt_unique(k1: int, k2: int, n: int)
    requires
        is_floor_sqrt(k1, n),
        is_floor_sqrt(k2, n),
    ensures
        k1 == k2,
{
    if k1 < k2 {
        assert((k1 + 1) * (k1 + 1) <= k2 * k2) by (nonlinear_arith)
            requires 0 <= k1 < k2;
    } else if k2 < k1 {
        assert((k2 + 1) * (k2 + 1) <= k1 * k1) by (nonlinear_arith)
            requires 0 <= k2 < k1;
    }
}

/// The largest `k` with `k * k <= n`.
pub fn floor_sqrt(n: u128) -> (k: u128)
    ensures
        k as nat == isqrt(n as nat),
        k <= 0xffff_ffff_ffff_ffff,
{
    let mut low: u128 = 0;
    let mut high: u128 = 0x1_0000_0000_0000_0000;
    proof {
        assert(0x1_0000_0000_0000_0000 * 0x1_0000_0000_0000_0000 > u128::MAX);
    }
    while high - low > 1
        invariant
            low < high <= 0x1_0000_0000_0000_0000,
            low * low <= n,
            n < high * high,
        decreases high - low,
    {
        let mid = low + (high - low) / 2;
        proof {
            assert(mid * mid < 0x1_0000_0000_0000_0000 * 0x1_0000_0000_0000_0000) by (nonlinear_arith)
                requires mid < 0x1_0000_0000_0000_0000;
        }
        if mid * mid <= n {
            low = mid;
        } else {
            high = mid;
        }
    }
    proof {
        assert(high == low + 1);
        lemma_isqrt(n as nat);
        lemma_floor_sqrt_unique(low as int, isqrt(n as nat) as int, n as int);
    }
    low
}

} // verus!
