//! Fixed-point arithmetic for search values.
//!
//! Every value the search handles (a game result, an evaluation, an average, an
//! exploration bonus) is a non-negative integer in millionths: `ONE` stands for 1.0.

use vstd::prelude::*;
use vstd::arithmetic::power2::{pow2, lemma_pow2_unfold, lemma_pow2_strictly_increases, lemma2_to64};

verus! {

/// The fixed-point unit: the value 1.0.
pub const ONE: u64 = 1_000_000;

/// The fixed-point value 0.5 (a draw).
pub const HALF: u64 = 500_000;

/// Fractional bits used for the binary logarithm.
pub const LOG_FRAC: u64 = 1_048_576;

/// ln(2) in millionths, rounded down.
pub const LN2: u64 = 693_147;

/// The base-2 logarithm of `1 + t` for a mantissa `t = f / LOG_FRAC` in `[0, 1]`, in
/// units of `1 / LOG_FRAC`: `t + t (1 - t) (0.264 + 0.158 (1 - t))`, rounded down,
/// which is within 0.001 of `log2(1 + t)` and exact at both ends.
pub open spec fn log2_mantissa(f: int) -> int {
    f + f * (LOG_FRAC - f) * (264 * LOG_FRAC + 158 * (LOG_FRAC - f)) / (1000 * LOG_FRAC * LOG_FRAC)
}

/// The natural-logarithm approximation used by the search, in millionths: for
/// `2^k <= x < 2^(k+1)`, the base-2 logarithm `k + log2(x / 2^k)`, its second part by
/// `log2_mantissa`, times ln 2.
pub open spec fn spec_ln(x: nat, k: nat) -> nat {
    let p = pow2(k);
    let f = ((x - p) * LOG_FRAC) / (p as int);
    ((k * LOG_FRAC + log2_mantissa(f)) * LN2 / (LOG_FRAC as int)) as nat
}

/// Natural logarithm of `x` (at least 1) in millionths, by the approximation `spec_ln`.
pub fn ln_fixed(x: u32) -> (r: u64)
    requires
        x >= 1,
    ensures
        exists|k: nat| pow2(k) <= x < 2 * pow2(k) && r == spec_ln(x as nat, k),
        r <= 23 * ONE,
{
    let mut p: u64 = 1;
    let mut k: u64 = 0;
    proof {
        lemma2_to64();
    }
    while p <= (x as u64) / 2
        invariant
            p == pow2(k as nat),
            1 <= p <= x,
            k < 32,
        decreases x - p,
    {
        proof {
            lemma_pow2_unfold((k + 1) as nat);
            lemma2_to64();
            if k + 1 >= 32 {
                lemma_pow2_strictly_increases(31, (k + 1) as nat);
            }
        }
        p = p * 2;
        k = k + 1;
    }
    assert(2 * p > x);
    let frac = ((x as u64) - p) * LOG_FRAC / p;
    assert(frac <= LOG_FRAC) by (nonlinear_arith)
        requires
            frac as int == ((x - p) * LOG_FRAC) / (p as int),
            x < 2 * p,
            p >= 1,
    {
        assert((x - p) * LOG_FRAC <= p * LOG_FRAC);
    }
    let g = LOG_FRAC - frac;
    let h = 264 * LOG_FRAC + 158 * g;
    assert(frac * g <= LOG_FRAC * LOG_FRAC) by (nonlinear_arith)
        requires
            frac <= LOG_FRAC,
            g <= LOG_FRAC,
    {
    }
    let prod = (frac as u128) * (g as u128);
    assert(prod * h <= LOG_FRAC * LOG_FRAC * (422 * LOG_FRAC)) by (nonlinear_arith)
        requires
            prod <= LOG_FRAC * LOG_FRAC,
            h <= 422 * LOG_FRAC,
    {
    }
    let num = prod * (h as u128);
    let den: u128 = 1000 * (LOG_FRAC as u128) * (LOG_FRAC as u128);
    let corr128 = num / den;
    assert(corr128 <= LOG_FRAC as u128) by (nonlinear_arith)
        requires
            corr128 == num / den,
            den == 1000 * LOG_FRAC * LOG_FRAC,
            num <= LOG_FRAC * LOG_FRAC * (422 * LOG_FRAC),
    {
    }
    let corr = corr128 as u64;
    assert(frac + corr == log2_mantissa(frac as int));
    let log2q = k * LOG_FRAC + frac + corr;
    let r = log2q * LN2 / LOG_FRAC;
    assert(r <= 23 * ONE) by (nonlinear_arith)
        requires
            r as int == (log2q * LN2) / (LOG_FRAC as int),
            log2q <= 33 * LOG_FRAC,
    {
    }
    assert(r == spec_ln(x as nat, k as nat));
    r
}

/// Integer square root: the largest `r` with `r * r <= x`.
pub fn isqrt(x: u128) -> (r: u64)
    ensures
        r * r <= x,
        x < (r + 1) * (r + 1),
{
    let mut lo: u128 = 0;
    let mut hi: u128 = 0x1_0000_0000_0000_0000;
    assert(x < hi * hi);
    while hi - lo > 1
        invariant
            lo < hi <= 0x1_0000_0000_0000_0000,
            lo * lo <= x,
            x < hi * hi,
        decreases hi - lo,
    {
        let mid = lo + (hi - lo) / 2;
        assert(mid * mid <= 0xffff_ffff_ffff_ffff_ffff_ffff_ffff_ffff) by (nonlinear_arith)
            requires
                mid < 0x1_0000_0000_0000_0000,
        {
        }
        if mid * mid <= x {
            lo = mid;
        } else {
            hi = mid;
        }
    }
    assert(hi == lo + 1);
    lo as u64
}

} // verus!
