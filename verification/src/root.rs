//! Square roots of natural numbers, rounded up.

use vstd::prelude::*;

verus! {

/// `r` is the least natural number whose square reaches `v`.
pub open spec fn is_ceil_root(r: nat, v: nat) -> bool {
    &&& r * r >= v
    &&& r > 0 ==> (r - 1) * (r - 1) < v
}

/// The square root of `v`, rounded up.
pub open spec fn ceil_root(v: nat) -> nat {
    choose|r: nat| is_ceil_root(r, v)
}

/// Squares grow with their base.
pub proof fn lemma_square_monotone(a: nat, b: nat)
    requires
        a <= b,
    ensures
        a * a <= b * b,
{
    assert(a * a <= b * b) by (nonlinear_arith)
        requires
            a <= b,
    ;
}

/// Below any number whose square reaches `v` lies a rounded-up root of `v`.
proof fn lemma_root_below(v: nat, k: nat)
    requires
        k * k >= v,
    ensures
        exists|r: nat| r <= k && is_ceil_root(r, v),
    decreases k,
{
    if k == 0 {
        assert(is_ceil_root(0, v));
    } else if (k - 1) * (k - 1) < v {
        assert(is_ceil_root(k, v));
    } else {
        lemma_root_below(v, (k - 1) as nat);
    }
}

/// At most one number is the rounded-up root of `v`.
pub proof fn lemma_ceil_root_unique(a: nat, b: nat, v: nat)
    requires
        is_ceil_root(a, v),
        is_ceil_root(b, v),
    ensures
        a == b,
{
    if a < b {
        lemma_square_monotone(a, (b - 1) as nat);
    } else if b < a {
        lemma_square_monotone(b, (a - 1) as nat);
    }
}

/// Every natural number has a rounded-up root, and `ceil_root` names it.
pub proof fn lemma_ceil_root(v: nat)
    ensures
        is_ceil_root(ceil_root(v), v),
{
    assert(v * v >= v) by (nonlinear_arith);
    lemma_root_below(v, v);
}

/// Whatever passes for the rounded-up root of `v` is `ceil_root(v)`.
pub proof fn lemma_ceil_root_is(r: nat, v: nat)
    requires
        is_ceil_root(r, v),
    ensures
        r == ceil_root(v),
{
    lemma_ceil_root(v);
    lemma_ceil_root_unique(r, ceil_root(v), v);
}

/// Computes the square root of `v`, rounded up, by bisection.
pub fn ceil_sqrt(v: u128) -> (r: u128)
    ensures
        r == ceil_root(v as nat),
        is_ceil_root(r as nat, v as nat),
{
    let mut lo: u128 = 0;
    let mut hi: u128 = 0x1_0000_0000_0000_0000;
    assert(hi * hi >= v) by (nonlinear_arith)
        requires
            hi == 0x1_0000_0000_0000_0000,
            v <= u128::MAX,
    ;
    while lo < hi
        invariant
            lo <= hi <= 0x1_0000_0000_0000_0000,
            hi * hi >= v,
            lo > 0 ==> (lo - 1) * (lo - 1) < v,
        decreases hi - lo,
    {
        let mid: u128 = lo + (hi - lo) / 2;
        assert(mid * mid <= u128::MAX) by (nonlinear_arith)
            requires
                mid <= 0xffff_ffff_ffff_ffff,
        ;
        if mid * mid >= v {
            hi = mid;
        } else {
            lo = mid + 1;
        }
    }
    proof {
        lemma_ceil_root_is(lo as nat, v as nat);
    }
    lo
}

} // verus!
