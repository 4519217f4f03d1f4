//! Arithmetic helpers: product bounds, floor-division facts and the
//! integer square root used for initial liquidity-share minting.

use vstd::prelude::*;

verus! {

/// The product of two 64-bit values fits in 128 bits.
pub proof fn lemma_u64_mul_fits(a: u64, b: u64)
    by (nonlinear_arith)
    ensures
        0 <= (a as int) * (b as int),
        (a as int) * (b as int) < 0x100000000000000000000000000000000,
{
}

/// Multiplication is monotone over non-negative factors.
pub proof fn lemma_mul_le(a: int, b: int, c: int, d: int)
    by (nonlinear_arith)
    requires
        0 <= a <= b,
        0 <= c <= d,
    ensures
        a * c <= b * d,
{
}

/// Floor division is monotone in the dividend.
pub proof fn lemma_div_le(a: int, b: int, d: int)
    by (nonlinear_arith)
    requires
        0 <= a <= b,
        0 < d,
    ensures
        0 <= a / d <= b / d,
{
}

/// `a * b / b == a` for positive `b`.
pub proof fn lemma_mul_div_exact(a: int, b: int)
    by (nonlinear_arith)
    requires
        0 <= a,
        0 < b,
    ensures
        (a * b) / b == a,
{
}

/// A floor-divided proportional share never exceeds the whole:
/// `a * c / d <= a` whenever `c <= d`.
pub proof fn lemma_share_le_whole(a: int, c: int, d: int)
    by (nonlinear_arith)
    requires
        0 <= a,
        0 <= c <= d,
        0 < d,
    ensures
        0 <= (a * c) / d <= a,
{
    assert(a * c <= a * d);
}

/// A strictly proportional share of a positive whole leaves a remainder:
/// `a * c / d < a` whenever `c < d` and `a >= 1`.
pub proof fn lemma_share_lt_whole(a: int, c: int, d: int)
    by (nonlinear_arith)
    requires
        1 <= a,
        0 <= c < d,
    ensures
        0 <= (a * c) / d < a,
{
    assert(a * c < a * d);
}

/// `r` is the integer square root of `n`.
pub open spec fn is_isqrt(n: int, r: int) -> bool {
    &&& 0 <= r
    &&& r * r <= n
    &&& n < (r + 1) * (r + 1)
}

/// Integer square root by binary search; the initial liquidity-share
/// formula applies it to a product of two 64-bit amounts.
pub fn isqrt_u128(n: u128) -> (r: u64)
    ensures
        is_isqrt(n as int, r as int),
{
    let mut lo: u128 = 0;
    let mut hi: u128 = 0x10000000000000000;
    proof {
        assert(0x10000000000000000int * 0x10000000000000000int
            == 0x100000000000000000000000000000000int);
        assert((hi as int) * (hi as int) == 0x100000000000000000000000000000000);
    }
    while hi - lo > 1
        invariant
            0 <= lo < hi <= 0x10000000000000000,
            (lo as int) * (lo as int) <= n as int,
            (n as int) < (hi as int) * (hi as int),
        decreases hi - lo,
    {
        let mid = lo + (hi - lo) / 2;
        proof {
            assert(lo < mid < hi);
            lemma_mul_le(mid as int, 0xffffffffffffffff, mid as int, 0xffffffffffffffff);
            assert(0xffffffffffffffffint * 0xffffffffffffffffint
                < 0x100000000000000000000000000000000int);
        }
        if mid * mid <= n {
            lo = mid;
        } else {
            hi = mid;
        }
    }
    proof {
        assert(hi == lo + 1);
        assert(lo < 0x10000000000000000);
    }
    lo as u64
}

} // verus!
