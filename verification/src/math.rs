use vstd::prelude::*;

verus! {

/// Floor of the square root of `n`: the largest `r` with `r * r <= n`.
pub open spec fn isqrt_spec(n: nat) -> nat
    decreases n,
{
    if n == 0 {
        0
    } else {
        let r = isqrt_spec((n - 1) as nat);
        if (r + 1) * (r + 1) <= n {
            r + 1
        } else {
            r
        }
    }
}

/// The defining property of the floor square root.
pub proof fn lemma_isqrt_bounds(n: nat)
    ensures
        isqrt_spec(n) * isqrt_spec(n) <= n,
        n < (isqrt_spec(n) + 1) * (isqrt_spec(n) + 1),
    decreases n,
{
    if n == 0 {
        assert(isqrt_spec(n) == 0);
        assert(isqrt_spec(n) * isqrt_spec(n) <= n && n < (isqrt_spec(n) + 1) * (isqrt_spec(n) + 1))
            by (nonlinear_arith)
            requires
                n == 0,
                isqrt_spec(n) == 0,
        ;
    } else {
        lemma_isqrt_bounds((n - 1) as nat);
        let r = isqrt_spec((n - 1) as nat);
        if (r + 1) * (r + 1) <= n {
            assert((r + 1) * (r + 1) < (r + 2) * (r + 2)) by (nonlinear_arith);
        }
    }
}

/// Any `r` that brackets `n` between consecutive squares is the floor
/// square root of `n`.
pub proof fn lemma_isqrt_unique(n: nat, r: nat)
    requires
        r * r <= n,
        n < (r + 1) * (r + 1),
    ensures
        r == isqrt_spec(n),
{
    let s = isqrt_spec(n);
    lemma_isqrt_bounds(n);
    if r < s {
        assert((r + 1) * (r + 1) <= s * s) by (nonlinear_arith)
            requires
                r + 1 <= s,
        ;
    }
    if s < r {
        assert((s + 1) * (s + 1) <= r * r) by (nonlinear_arith)
            requires
                s + 1 <= r,
        ;
    }
}

/// The floor square root never decreases when its argument grows.
pub proof fn lemma_isqrt_monotone(a: nat, b: nat)
    requires
        a <= b,
    ensures
        isqrt_spec(a) <= isqrt_spec(b),
    decreases b - a,
{
    if a < b {
        lemma_isqrt_monotone(a, (b - 1) as nat);
    }
}

/// The floor square root of anything below a square stays below its root.
pub proof fn lemma_isqrt_lt(n: nat, m: nat)
    requires
        n < m * m,
    ensures
        isqrt_spec(n) < m,
{
    lemma_isqrt_bounds(n);
    if isqrt_spec(n) >= m {
        assert(m * m <= isqrt_spec(n) * isqrt_spec(n)) by (nonlinear_arith)
            requires
                m <= isqrt_spec(n),
        ;
    }
}

/// Floor division by ten maps a symmetric range of multiples of ten onto
/// the symmetric range of their quotients.
pub proof fn lemma_div10_bounds(x: int, b: int)
    requires
        0 <= b,
        -(10 * b) <= x <= 10 * b,
    ensures
        -b <= x / 10 <= b,
{
    vstd::arithmetic::div_mod::lemma_div_is_ordered(-(10 * b), x, 10);
    vstd::arithmetic::div_mod::lemma_div_is_ordered(x, 10 * b, 10);
    vstd::arithmetic::div_mod::lemma_div_multiples_vanish(b, 10);
    vstd::arithmetic::div_mod::lemma_div_multiples_vanish(-b, 10);
    assert(10 * -b == -(10 * b)) by (nonlinear_arith);
}

/// Floor square root by bisection, for arguments below 2^40.
pub fn isqrt(n: u64) -> (r: u64)
    requires
        n < 0x10000000000,
    ensures
        r as nat == isqrt_spec(n as nat),
        r * r <= n,
        r < 0x100000,
{
    let mut lo: u64 = 0;
    let mut hi: u64 = 0x100000;
    while lo + 1 < hi
        invariant
            lo < hi <= 0x100000,
            (lo as int) * (lo as int) <= n as int,
            (n as int) < (hi as int) * (hi as int),
            n < 0x10000000000,
        decreases hi - lo,
    {
        let mid = lo + (hi - lo) / 2;
        assert((mid as int) * (mid as int) <= 0x10000000000) by (nonlinear_arith)
            requires
                0 <= mid as int <= 0x100000,
        ;
        let sq = mid * mid;
        if sq <= n {
            lo = mid;
        } else {
            hi = mid;
        }
    }
    proof {
        lemma_isqrt_unique(n as nat, lo as nat);
    }
    lo
}

} // verus!
