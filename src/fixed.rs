//! Fixed-point helpers: integer square roots and natural logarithms taken as
//! `floor(log2(x)) ln 2`, in units of `PRIORITY_ONE`.
use vstd::prelude::*;

verus! {

/// ln 2 in units of `PRIORITY_ONE`.
pub const LN2_FIXED: u64 = 726_817;

/// `floor(log2(x))`, zero for zero.
pub open spec fn log2_floor(x: nat) -> nat
    decreases x,
{
    if x <= 1 {
        0
    } else {
        1 + log2_floor(x / 2)
    }
}

/// The integer square root of `x`.
pub open spec fn is_isqrt(x: nat, r: nat) -> bool {
    r * r <= x < (r + 1) * (r + 1)
}

pub fn floor_log2(x: u64) -> (r: u64)
    ensures
        r == log2_floor(x as nat),
        r < 64,
{
    let mut y = x;
    let mut k: u64 = 0;
    proof {
        assert(x >> 0u64 == x) by (bit_vector);
    }
    while y > 1
        invariant
            k + log2_floor(y as nat) == log2_floor(x as nat),
            k < 64,
            y == x >> k,
        decreases y,
    {
        proof {
            assert(k >= 63 ==> (x >> k) <= 1) by (bit_vector)
                requires
                    k < 64,
            ;
            assert((x >> k) / 2 == x >> (k + 1)) by (bit_vector)
                requires
                    k < 63,
            ;
        }
        y = y / 2;
        k = k + 1;
    }
    k
}

/// The largest `r` with `r * r <= x`.
pub fn isqrt(x: u64) -> (r: u64)
    ensures
        is_isqrt(x as nat, r as nat),
{
    let mut lo: u64 = 0;
    let mut hi: u64 = 0x1_0000_0000;
    while hi - lo > 1
        invariant
            lo < hi <= 0x1_0000_0000,
            lo * lo <= x,
            x < hi * hi,
        decreases hi - lo,
    {
        let mid = lo + (hi - lo) / 2;
        proof {
            assert(mid * mid <= 0x1_0000_0000 * 0x1_0000_0000) by (nonlinear_arith)
                requires
                    mid <= 0x1_0000_0000,
            ;
        }
        if (mid as u128) * (mid as u128) <= x as u128 {
            lo = mid;
        } else {
            hi = mid;
        }
    }
    proof {
        assert(hi == lo + 1);
    }
    lo
}

/// The integer square root of `x`.
pub open spec fn isqrt_spec(x: nat) -> nat {
    choose|r: nat| is_isqrt(x, r)
}

/// Integer square roots are unique, and `isqrt_spec` is one.
pub proof fn lemma_isqrt_unique(x: nat, r: nat)
    requires
        is_isqrt(x, r),
    ensures
        isqrt_spec(x) == r,
{
    let s = isqrt_spec(x);
    assert(is_isqrt(x, s));
    if s < r {
        assert((s + 1) * (s + 1) <= r * r) by (nonlinear_arith)
            requires
                s + 1 <= r,
        ;
    } else if r < s {
        assert((r + 1) * (r + 1) <= s * s) by (nonlinear_arith)
            requires
                r + 1 <= s,
        ;
    }
}

} // verus!
