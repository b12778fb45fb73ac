use vstd::prelude::*;

verus! {

/// Number of fixed-point steps in one world unit.
pub const SCALE: i64 = 65536;

/// `SCALE` for wide intermediate products.
pub const SCALE_WIDE: i128 = 65536;

/// Floor division by a positive divisor, as `n / d` reads in specifications.
pub fn div_floor(n: i128, d: i128) -> (q: i128)
    requires
        d > 0,
    ensures
        q == n / d,
{
    if n >= 0 {
        n / d
    } else {
        let m: i128 = -(n + 1);
        let q0: i128 = m / d;
        proof {
            assert(m == d * q0 + m % d) by (nonlinear_arith)
                requires d > 0, m >= 0, q0 == m / d;
            assert(n == d * (-q0 - 1) + (d - 1 - m % d)) by (nonlinear_arith)
                requires m == -(n + 1), m == d * q0 + m % d;
            assert(0 <= m % d < d);
            vstd::arithmetic::div_mod::lemma_fundamental_div_mod_converse(
                n as int, d as int, -q0 - 1, d - 1 - m % d);
        }
        -q0 - 1
    }
}

/// Floor of the square root.
pub open spec fn is_isqrt(n: int, r: int) -> bool {
    0 <= r && r * r <= n && n < (r + 1) * (r + 1)
}

/// The floor of the square root of a non-negative `n`.
pub open spec fn isqrt_spec(n: int) -> int {
    choose|r: int| is_isqrt(n, r)
}

/// Every non-negative integer has a floor square root.
pub proof fn lemma_isqrt_exists(n: int)
    requires
        n >= 0,
    ensures
        is_isqrt(n, isqrt_spec(n)),
    decreases n,
{
    if n == 0 {
        assert(is_isqrt(0, 0));
    } else {
        lemma_isqrt_exists(n - 1);
        let r = isqrt_spec(n - 1);
        if (r + 1) * (r + 1) <= n {
            assert((r + 1) * (r + 1) == n);
            assert(n < (r + 2) * (r + 2)) by (nonlinear_arith)
                requires (r + 1) * (r + 1) == n, r >= 0;
            assert(is_isqrt(n, r + 1));
        } else {
            assert(is_isqrt(n, r));
        }
    }
}

/// At most one integer is the floor of a square root.
pub proof fn lemma_isqrt_unique(n: int, r1: int, r2: int)
    requires
        is_isqrt(n, r1),
        is_isqrt(n, r2),
    ensures
        r1 == r2,
{
    if r1 < r2 {
        assert((r1 + 1) * (r1 + 1) <= r2 * r2) by (nonlinear_arith)
            requires 0 <= r1, r1 + 1 <= r2;
    } else if r2 < r1 {
        assert((r2 + 1) * (r2 + 1) <= r1 * r1) by (nonlinear_arith)
            requires 0 <= r2, r2 + 1 <= r1;
    }
}

/// Integer square root by bisection.
pub fn isqrt(n: u128) -> (r: u128)
    ensures
        is_isqrt(n as int, r as int),
        r == isqrt_spec(n as int),
{
    let mut lo: u128 = 0;
    let mut hi: u128 = 0x1_0000_0000_0000_0000;
    assert(hi * hi == 0x1_0000_0000_0000_0000_0000_0000_0000_0000);
    while lo + 1 < hi
        invariant
            lo < hi <= 0x1_0000_0000_0000_0000,
            lo * lo <= n,
            n < hi * hi,
        decreases hi - lo,
    {
        let mid: u128 = lo + (hi - lo) / 2;
        assert(mid * mid < 0x1_0000_0000_0000_0000 * 0x1_0000_0000_0000_0000) by (nonlinear_arith)
            requires mid < 0x1_0000_0000_0000_0000;
        if mid * mid <= n {
            lo = mid;
        } else {
            hi = mid;
        }
    }
    proof {
        lemma_isqrt_unique(n as int, lo as int, isqrt_spec(n as int));
    }
    lo
}

} // verus!
