//! Powers and geometric series over the integers, with the facts the
//! generators need to rule out overflow.

use vstd::prelude::*;

verus! {

/// `k` to the power `e`.
pub open spec fn power(k: int, e: nat) -> int
    decreases e,
{
    if e == 0 {
        1
    } else {
        k * power(k, (e - 1) as nat)
    }
}

/// `k^0 + k^1 + ... + k^(n-1)`.
pub open spec fn geo(k: int, n: nat) -> int
    decreases n,
{
    if n == 0 {
        0
    } else {
        geo(k, (n - 1) as nat) + power(k, (n - 1) as nat)
    }
}

pub proof fn lemma_power_positive(k: int, e: nat)
    requires
        k >= 1,
    ensures
        power(k, e) >= 1,
    decreases e,
{
    if e > 0 {
        lemma_power_positive(k, (e - 1) as nat);
        assert(k * power(k, (e - 1) as nat) >= power(k, (e - 1) as nat)) by (nonlinear_arith)
            requires
                k >= 1,
                power(k, (e - 1) as nat) >= 1,
        ;
    }
}

pub proof fn lemma_power_monotone(k: int, e1: nat, e2: nat)
    requires
        k >= 1,
        e1 <= e2,
    ensures
        power(k, e1) <= power(k, e2),
    decreases e2,
{
    if e1 < e2 {
        lemma_power_monotone(k, e1, (e2 - 1) as nat);
        lemma_power_positive(k, (e2 - 1) as nat);
        assert(k * power(k, (e2 - 1) as nat) >= power(k, (e2 - 1) as nat)) by (nonlinear_arith)
            requires
                k >= 1,
                power(k, (e2 - 1) as nat) >= 1,
        ;
    }
}

/// The closed form of the geometric series.
pub proof fn lemma_geo_closed(k: int, n: nat)
    ensures
        (k - 1) * geo(k, n) == power(k, n) - 1,
    decreases n,
{
    if n > 0 {
        lemma_geo_closed(k, (n - 1) as nat);
        let g = geo(k, (n - 1) as nat);
        let p = power(k, (n - 1) as nat);
        assert((k - 1) * (g + p) == (k - 1) * g + k * p - p) by (nonlinear_arith);
    }
}

/// For `k >= 2` the series stays below `k^n` and above `k^(n-1)`.
pub proof fn lemma_geo_bounds(k: int, n: nat)
    requires
        k >= 2,
    ensures
        0 <= geo(k, n) <= power(k, n) - 1,
        n >= 1 ==> geo(k, n) >= power(k, (n - 1) as nat),
        n >= 1 ==> geo(k, n) >= geo(k, (n - 1) as nat) + 1,
    decreases n,
{
    lemma_geo_nonneg(k, n);
    lemma_geo_closed(k, n);
    let g = geo(k, n);
    assert((k - 1) * g >= g) by (nonlinear_arith)
        requires
            k >= 2,
            g >= 0,
    ;
    if n >= 1 {
        lemma_geo_nonneg(k, (n - 1) as nat);
        lemma_power_positive(k, (n - 1) as nat);
    }
}

pub proof fn lemma_geo_nonneg(k: int, n: nat)
    requires
        k >= 1,
    ensures
        geo(k, n) >= 0,
    decreases n,
{
    if n > 0 {
        lemma_geo_nonneg(k, (n - 1) as nat);
        lemma_power_positive(k, (n - 1) as nat);
    }
}

pub proof fn lemma_geo_monotone(k: int, n1: nat, n2: nat)
    requires
        k >= 1,
        n1 <= n2,
    ensures
        geo(k, n1) <= geo(k, n2),
    decreases n2,
{
    if n1 < n2 {
        lemma_geo_monotone(k, n1, (n2 - 1) as nat);
        lemma_power_positive(k, (n2 - 1) as nat);
    }
}

/// `k^e`, for a result that fits in a `usize`.
pub fn pow_usize(k: usize, e: u32) -> (r: usize)
    requires
        k >= 1,
        power(k as int, e as nat) <= usize::MAX,
    ensures
        r == power(k as int, e as nat),
{
    let mut r: usize = 1;
    let mut i: u32 = 0;
    while i < e
        invariant
            i <= e,
            k >= 1,
            r == power(k as int, i as nat),
            power(k as int, e as nat) <= usize::MAX,
        decreases e - i,
    {
        proof {
            lemma_power_monotone(k as int, (i + 1) as nat, e as nat);
            assert(power(k as int, (i + 1) as nat) == k * power(k as int, i as nat));
            assert(r * k == k * r) by (nonlinear_arith);
        }
        r = r * k;
        i = i + 1;
    }
    r
}

/// Computes `sum i=0 to (n - 1)(k^i)` from the closed form `(k^n - 1) / (k - 1)`.
pub fn geo_series(k: usize, n: u32) -> (r: usize)
    requires
        k >= 2,
        power(k as int, n as nat) <= usize::MAX,
    ensures
        r == geo(k as int, n as nat),
{
    let p = pow_usize(k, n);
    proof {
        lemma_power_positive(k as int, n as nat);
        lemma_geo_closed(k as int, n as nat);
        lemma_geo_nonneg(k as int, n as nat);
        vstd::arithmetic::div_mod::lemma_div_by_multiple(geo(k as int, n as nat), k - 1);
        assert((k - 1) * geo(k as int, n as nat) == geo(k as int, n as nat) * (k - 1)) by (nonlinear_arith);
    }
    (p - 1) / (k - 1)
}

} // verus!
