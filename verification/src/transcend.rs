//! Fixed-point approximations of the two transcendental kernels.
//!
//! The arc cosine behind the angular metric and the power behind the
//! Minkowski metric have no closed-form binary32 result, so unlike the
//! arithmetic in `float_bits` they are computed here by fixed-point
//! schemes (a digit-by-digit base-2 logarithm, its bisection inverse, and a
//! Taylor series with square-root range reduction).  They agree with the
//! mathematical functions to a few units in the last place; the exactly
//! specified cases (order one, unit arguments, NaN) are stated in the
//! contracts, which is all the search contracts rely on.

use vstd::prelude::*;
use crate::float_bits::{
    ONE32, QNAN32, INF32, mag_of, sign_of, is_nan32, is_zero32, spec_lt32, lt32, round32,
    spec_round32, norm_sig_e, norm_sig, p2, lemma_p2_le, lemma_p2_pos, lemma_round32_nonneg,
    spec_isqrt, lemma_isqrt_bounds,
};
use vstd::arithmetic::div_mod::lemma_div_denominator;

verus! {

/// Bit pattern of -1.0.
pub const NEG_ONE32: u32 = 0xbf80_0000;
/// Bit pattern of pi.
pub const PI32: u32 = 0x4049_0fdb;
/// Bit pattern of pi/2.
pub const HALF_PI32: u32 = 0x3fc9_0fdb;

/// pi/2 in Q30 fixed point.
pub const PI_HALF_Q30: u64 = 1686629713;
/// pi in Q30 fixed point.
pub const PI_Q30: u64 = 3373259426;
/// Arc sine Taylor coefficients 1/6, 3/40, 15/336, 105/3456, 945/42240 in Q30.
pub const ASIN_C1_Q30: u64 = 178956971;
pub const ASIN_C2_Q30: u64 = 80530637;
pub const ASIN_C3_Q30: u64 = 47933465;
pub const ASIN_C4_Q30: u64 = 32620426;
pub const ASIN_C5_Q30: u64 = 24020159;

/// Clamp to [-1, 1] by value, pinning NaN to 1.
pub open spec fn spec_clamp32(c: u32) -> u32 {
    if is_nan32(c) {
        ONE32
    } else if spec_lt32(c, NEG_ONE32) {
        NEG_ONE32
    } else if spec_lt32(ONE32, c) {
        ONE32
    } else {
        c
    }
}

/// Integer square root by bisection, wide range.
fn isqrt_wide(x: u64) -> (r: u64)
    requires
        x < 0x4000_0000_0000_0000,
    ensures
        r as nat == spec_isqrt(x as nat),
        r * r <= x,
        r <= 0x8000_0000,
{
    proof {
        lemma_isqrt_bounds(x as nat);
    }
    let mut lo: u64 = 0;
    let mut hi: u64 = 0x8000_0000;
    assert(hi * hi > x);
    while hi - lo > 1
        invariant
            lo < hi <= 0x8000_0000,
            lo * lo <= x,
            (x as nat) < hi * hi,
        decreases hi - lo,
    {
        let mid = lo + (hi - lo) / 2;
        assert(mid * mid <= 0x8000_0000 * 0x8000_0000) by (nonlinear_arith)
            requires mid <= 0x8000_0000u64;
        if mid * mid <= x {
            lo = mid;
        } else {
            hi = mid;
        }
    }
    proof {
        let q = spec_isqrt(x as nat);
        if (lo as nat) > q {
            assert((q + 1) * (q + 1) <= (lo as nat) * (lo as nat)) by (nonlinear_arith)
                requires q + 1 <= lo as nat;
            assert(false);
        }
        if q > lo as nat {
            assert(hi == lo + 1);
            assert((hi as nat) * (hi as nat) <= q * q) by (nonlinear_arith)
                requires hi as nat <= q;
            assert(false);
        }
    }
    lo
}

/// The Taylor sum of the Q30 arc sine scheme, step for step.
pub open spec fn spec_asin_q30(t: nat) -> nat {
    let t2 = (t * t) / 0x4000_0000;
    let t3 = (t2 * t) / 0x4000_0000;
    let t5 = (t3 * t2) / 0x4000_0000;
    let t7 = (t5 * t2) / 0x4000_0000;
    let t9 = (t7 * t2) / 0x4000_0000;
    let t11 = (t9 * t2) / 0x4000_0000;
    t + ((ASIN_C1_Q30 as nat) * t3) / 0x4000_0000 + ((ASIN_C2_Q30 as nat) * t5) / 0x4000_0000
        + ((ASIN_C3_Q30 as nat) * t7) / 0x4000_0000 + ((ASIN_C4_Q30 as nat) * t9) / 0x4000_0000
        + ((ASIN_C5_Q30 as nat) * t11) / 0x4000_0000
}

/// Q30 arc sine Taylor series, for arguments at most one half.
fn asin_series_q30(t: u64) -> (r: u64)
    requires
        t <= 0x2000_0001,
    ensures
        r as nat == spec_asin_q30(t as nat),
        r < 0x1_0000_0000,
{
    proof {
        assert(t * t <= 0x2000_0001 * 0x2000_0001) by (nonlinear_arith)
            requires t <= 0x2000_0001u64;
    }
    let t2 = (t * t) / 0x4000_0000;
    assert(t2 <= 0x2000_0004);
    proof {
        assert(t2 * t <= 0x2000_0004 * 0x2000_0001) by (nonlinear_arith)
            requires t <= 0x2000_0001u64 && t2 <= 0x2000_0004u64;
    }
    let t3 = (t2 * t) / 0x4000_0000;
    assert(t3 <= 0x2000_0010);
    proof {
        assert(t3 * t2 <= 0x2000_0010 * 0x2000_0004) by (nonlinear_arith)
            requires t3 <= 0x2000_0010u64 && t2 <= 0x2000_0004u64;
    }
    let t5 = (t3 * t2) / 0x4000_0000;
    assert(t5 <= 0x2000_0020);
    proof {
        assert(t5 * t2 <= 0x2000_0020 * 0x2000_0004) by (nonlinear_arith)
            requires t5 <= 0x2000_0020u64 && t2 <= 0x2000_0004u64;
    }
    let t7 = (t5 * t2) / 0x4000_0000;
    assert(t7 <= 0x2000_0040);
    proof {
        assert(t7 * t2 <= 0x2000_0040 * 0x2000_0004) by (nonlinear_arith)
            requires t7 <= 0x2000_0040u64 && t2 <= 0x2000_0004u64;
    }
    let t9 = (t7 * t2) / 0x4000_0000;
    assert(t9 <= 0x2000_0080);
    proof {
        assert(t9 * t2 <= 0x2000_0080 * 0x2000_0004) by (nonlinear_arith)
            requires t9 <= 0x2000_0080u64 && t2 <= 0x2000_0004u64;
    }
    let t11 = (t9 * t2) / 0x4000_0000;
    assert(t11 <= 0x2000_0100);
    proof {
        assert(ASIN_C1_Q30 * t3 <= 178956971 * 0x2000_0010) by (nonlinear_arith)
            requires t3 <= 0x2000_0010u64;
        assert(ASIN_C2_Q30 * t5 <= 80530637 * 0x2000_0020) by (nonlinear_arith)
            requires t5 <= 0x2000_0020u64;
        assert(ASIN_C3_Q30 * t7 <= 47933465 * 0x2000_0040) by (nonlinear_arith)
            requires t7 <= 0x2000_0040u64;
        assert(ASIN_C4_Q30 * t9 <= 32620426 * 0x2000_0080) by (nonlinear_arith)
            requires t9 <= 0x2000_0080u64;
        assert(ASIN_C5_Q30 * t11 <= 24020159 * 0x2000_0100) by (nonlinear_arith)
            requires t11 <= 0x2000_0100u64;
    }
    let s1 = (ASIN_C1_Q30 * t3) / 0x4000_0000;
    let s2 = (ASIN_C2_Q30 * t5) / 0x4000_0000;
    let s3 = (ASIN_C3_Q30 * t7) / 0x4000_0000;
    let s4 = (ASIN_C4_Q30 * t9) / 0x4000_0000;
    let s5 = (ASIN_C5_Q30 * t11) / 0x4000_0000;
    t + s1 + s2 + s3 + s4 + s5
}

/// The Q30 value of a pattern with magnitude below one: its significand
/// shifted to weight 2^-30 (clamped at one), as `mag_to_q30` computes it.
pub open spec fn spec_mag_q30(c: u32) -> nat {
    let m = (c % 0x8000_0000) as nat;
    if m == 0 {
        0
    } else {
        let e = (m / 0x80_0000) % 256;
        let f = m % 0x80_0000;
        let sig = if e == 0 {
            f
        } else {
            (f + 0x80_0000) as nat
        };
        let k = (if e == 0 {
            1int
        } else {
            e as int
        }) - 120;
        let acc = if k >= 0 {
            sig * p2(k as nat)
        } else {
            sig / p2((-k) as nat)
        };
        if acc > 0x4000_0000 {
            0x4000_0000nat
        } else {
            acc
        }
    }
}

/// Convert a finite pattern with magnitude strictly below one to Q30.
fn mag_to_q30(c: u32) -> (r: u64)
    requires
        mag_of(c) < ONE32,
    ensures
        r as nat == spec_mag_q30(c),
        r <= 0x4000_0000,
{
    let m = c % 0x8000_0000;
    if m == 0 {
        return 0;
    }
    let e = (m / 0x80_0000) % 256;
    let f = m % 0x80_0000;
    let sig: u64 = if e == 0 { f as u64 } else { (f + 0x80_0000) as u64 };
    let pe: i64 = (if e == 0 { 1i64 } else { e as i64 }) - 150;
    // magnitude below one means a biased exponent of at most 126
    assert(e <= 126);
    let mut acc: u64 = sig;
    let mut k: i64 = pe + 30;
    let ghost k0: int = k as int;
    assert(k <= 6);
    proof {
        assert(p2(0) == 1);
        assert(sig as nat * 1 == sig as nat) by (nonlinear_arith);
    }
    if k > 0 {
        proof {
            lemma_p2_le(k as nat, 6);
            assert(p2(6) == 64) by {
                reveal_with_fuel(p2, 8);
            }
        }
        assert(acc * p2(k as nat) <= 0x4000_0000) by (nonlinear_arith)
            requires acc < 0x100_0000u64 && p2(k as nat) <= 64;
        while k > 0
            invariant
                0 <= k <= k0,
                acc as nat * p2(k as nat) <= 0x4000_0000,
                acc as nat * p2(k as nat) == sig as nat * p2(k0 as nat),
            decreases k,
        {
            proof {
                lemma_p2_pos(k as nat);
                assert(p2(k as nat) == 2 * p2((k - 1) as nat));
                assert(acc as nat * p2(k as nat) == (2 * acc as nat) * p2((k - 1) as nat))
                    by (nonlinear_arith)
                    requires p2(k as nat) == 2 * p2((k - 1) as nat);
                assert(acc <= 0x4000_0000) by (nonlinear_arith)
                    requires
                        acc as nat * p2(k as nat) <= 0x4000_0000 && p2(k as nat) >= 1;
            }
            acc = acc * 2;
            k = k - 1;
        }
        assert(acc as nat * p2(0) <= 0x4000_0000);
        assert(acc as nat * 1 == acc as nat) by (nonlinear_arith);
        assert(acc as nat == sig as nat * p2(k0 as nat));
    }
    proof {
        assert(p2(0) == 1);
        if k0 < 0 {
            assert(k == k0 && acc == sig);
            assert(sig as nat / p2((k - k0) as nat) == sig as nat / 1);
            assert(sig as nat / 1 == sig as nat);
        }
    }
    while k < 0
        invariant
            k <= 0,
            k0 < 0 ==> k0 <= k && acc as nat == sig as nat / p2((k - k0) as nat),
            k0 >= 0 ==> k == 0 && acc as nat == sig as nat * p2(k0 as nat),
        decreases -k,
    {
        proof {
            let j = (k - k0) as nat;
            lemma_p2_pos(j);
            assert(p2(j + 1) == 2 * p2(j));
            lemma_div_denominator(sig as int, p2(j) as int, 2);
            assert(sig as nat / p2(j) / 2 == sig as nat / p2(j + 1));
        }
        acc = acc / 2;
        k = k + 1;
    }
    proof {
        if k0 < 0 {
            assert(acc as nat == sig as nat / p2((-k0) as nat));
        }
    }
    if acc > 0x4000_0000 {
        0x4000_0000
    } else {
        acc
    }
}

/// The arc cosine scheme in full: the anchor cases, the Q30 conversion,
/// the Taylor series (with square-root range reduction past one half) and
/// the final rounding, step for step as `acos32` computes them.
pub open spec fn spec_acos32(c: u32) -> u32 {
    if c == ONE32 {
        0u32
    } else if c % 0x8000_0000 == 0 {
        HALF_PI32
    } else if c == NEG_ONE32 {
        PI32
    } else {
        let neg = c >= 0x8000_0000;
        let x = spec_mag_q30(c);
        let q30: nat = if x <= 0x2000_0000 {
            let a = spec_asin_q30(x);
            if neg {
                (PI_HALF_Q30 as nat) + a
            } else if a > (PI_HALF_Q30 as nat) {
                0nat
            } else {
                ((PI_HALF_Q30 as nat) - a) as nat
            }
        } else {
            let v = ((0x4000_0000 - x) as nat) / 2;
            let s = spec_isqrt(v * 0x4000_0000);
            let sa: nat = if s > 0x2000_0001 {
                0x2000_0001nat
            } else {
                s
            };
            let a = 2 * spec_asin_q30(sa);
            if neg {
                if a > (PI_Q30 as nat) {
                    0nat
                } else {
                    ((PI_Q30 as nat) - a) as nat
                }
            } else {
                a
            }
        };
        spec_round32(false, q30, -30)
    }
}

/// Approximate arc cosine of a clamped cosine similarity.
///
/// Exact at the three anchor points 1, 0 and -1; elsewhere the Taylor scheme
/// is within a few binary32 units of the mathematical arc cosine.
pub fn acos32(c: u32) -> (r: u32)
    requires
        c == spec_clamp32(c),
    ensures
        r == spec_acos32(c),
        c == ONE32 ==> r == 0,
        is_zero32(c) ==> r == HALF_PI32,
        c == NEG_ONE32 ==> r == PI32,
        !sign_of(r),
        !is_nan32(r),
{
    if c == ONE32 {
        return 0;
    }
    if c % 0x8000_0000 == 0 {
        return HALF_PI32;
    }
    if c == NEG_ONE32 {
        return PI32;
    }
    proof {
        // a clamped value other than the anchors has magnitude below one
        assert(!is_nan32(c));
        assert(!spec_lt32(ONE32, c) && !spec_lt32(c, NEG_ONE32));
        assert(mag_of(c) < ONE32);
    }
    let neg = c >= 0x8000_0000;
    let x = mag_to_q30(c);
    let q30: u64 = if x <= 0x2000_0000 {
        // acos = pi/2 -/+ asin(|c|)
        let a = asin_series_q30(x);
        if neg {
            PI_HALF_Q30 + a
        } else {
            if a > PI_HALF_Q30 { 0 } else { PI_HALF_Q30 - a }
        }
    } else {
        // range reduction: acos(|c|) = 2 asin(sqrt((1 - |c|)/2))
        let v = (0x4000_0000 - x) / 2;
        let s = isqrt_wide(v * 0x4000_0000);
        let sa = if s > 0x2000_0001 { 0x2000_0001 } else { s };
        let a = 2 * asin_series_q30(sa);
        if neg {
            if a > PI_Q30 { 0 } else { PI_Q30 - a }
        } else {
            a
        }
    };
    proof {
        lemma_round32_nonneg(q30 as nat, -30);
    }
    round32(false, q30, -30)
}

/// One squaring step of the digit-by-digit base-2 logarithm: the next
/// running mantissa.
pub open spec fn spec_flog_step_y(y: nat) -> nat {
    let sq = (y * y) / 0x8000_0000;
    if sq >= 0x1_0000_0000 {
        sq / 2
    } else {
        sq
    }
}

/// The log2 bit a squaring step emits.
pub open spec fn spec_flog_bit(y: nat) -> nat {
    if (y * y) / 0x8000_0000 >= 0x1_0000_0000 {
        1nat
    } else {
        0nat
    }
}

/// The running mantissa after `i` squaring steps.
pub open spec fn spec_flog_y(y0: nat, i: nat) -> nat
    decreases i,
{
    if i == 0 {
        y0
    } else {
        spec_flog_step_y(spec_flog_y(y0, (i - 1) as nat))
    }
}

/// The log2 bits produced by the first `i` squaring steps.
pub open spec fn spec_flog_frac(y0: nat, i: nat) -> nat
    decreases i,
{
    if i == 0 {
        0
    } else {
        2 * spec_flog_frac(y0, (i - 1) as nat) + spec_flog_bit(spec_flog_y(y0, (i - 1) as nat))
    }
}

/// The 32 fractional bits of log2(y0/2^31), by the digit-by-digit scheme.
pub open spec fn spec_frac_log2(y0: nat) -> nat {
    spec_flog_frac(y0, 32)
}

/// The emitted bits stay below the power of two of their count.
proof fn lemma_flog_frac_bound(y0: nat, i: nat)
    ensures
        spec_flog_frac(y0, i) < p2(i),
    decreases i,
{
    if i == 0 {
        assert(p2(0) == 1);
    } else {
        lemma_flog_frac_bound(y0, (i - 1) as nat);
        assert(spec_flog_bit(spec_flog_y(y0, (i - 1) as nat)) <= 1);
        assert(p2(i) == 2 * p2((i - 1) as nat));
    }
}

/// One digit-by-digit pass: the 32 fractional bits of log2(y/2^31),
/// for y in [2^31, 2^32).
fn frac_log2(y0: u64) -> (r: u64)
    requires
        0x8000_0000 <= y0 < 0x1_0000_0000,
    ensures
        r as nat == spec_frac_log2(y0 as nat),
        r < 0x1_0000_0000,
{
    let mut y = y0;
    let mut frac: u64 = 0;
    let mut i: usize = 0;
    proof {
        assert(p2(31) == 0x8000_0000) by {
            reveal_with_fuel(p2, 33);
        }
    }
    while i < 32
        invariant
            0x8000_0000 <= y < 0x1_0000_0000,
            i <= 32,
            p2(31) == 0x8000_0000,
            y as nat == spec_flog_y(y0 as nat, i as nat),
            frac as nat == spec_flog_frac(y0 as nat, i as nat),
        decreases 32 - i,
    {
        proof {
            lemma_flog_frac_bound(y0 as nat, i as nat);
            lemma_p2_le(i as nat, 31);
        }
        let (ny, bit) = flog_step(y);
        y = ny;
        frac = frac * 2 + bit;
        i = i + 1;
        assert(y as nat == spec_flog_y(y0 as nat, i as nat));
        assert(frac as nat == spec_flog_frac(y0 as nat, i as nat));
    }
    proof {
        lemma_flog_frac_bound(y0 as nat, 32);
        assert(p2(32) == 0x1_0000_0000) by {
            reveal_with_fuel(p2, 34);
        }
    }
    frac
}

/// One digit of the base-2 logarithm: square, renormalize, emit the bit.
fn flog_step(y: u64) -> (r: (u64, u64))
    requires
        0x8000_0000 <= y < 0x1_0000_0000,
    ensures
        r.0 as nat == spec_flog_step_y(y as nat),
        r.1 as nat == spec_flog_bit(y as nat),
        0x8000_0000 <= r.0 < 0x1_0000_0000,
        r.1 <= 1,
{
    assert(y * y < 0x1_0000_0000 * 0x1_0000_0000) by (nonlinear_arith)
        requires y < 0x1_0000_0000u64;
    let sq = (y * y) / 0x8000_0000;
    assert(sq >= 0x8000_0000) by (nonlinear_arith)
        requires y >= 0x8000_0000u64 && sq == (y * y) / 0x8000_0000;
    assert(sq < 0x2_0000_0000) by (nonlinear_arith)
        requires y < 0x1_0000_0000u64 && sq == (y * y) / 0x8000_0000;
    if sq >= 0x1_0000_0000 {
        (sq / 2, 1)
    } else {
        (sq, 0)
    }
}

/// The bisection of `exp2_frac` on the bracket `[lo, hi)`, step for step:
/// each probe keeps the half whose fractional log2 stays at or below `f`.
pub open spec fn spec_exp2_rec(lo: nat, hi: nat, f: nat) -> nat
    decreases hi - lo,
{
    if hi <= lo + 1 {
        lo
    } else {
        let mid = (lo + (hi - lo) / 2) as nat;
        if spec_frac_log2(mid) <= f {
            spec_exp2_rec(mid, hi, f)
        } else {
            spec_exp2_rec(lo, mid, f)
        }
    }
}

/// The Q31 mantissa the bisection settles on for the log2 fraction `f`.
pub open spec fn spec_exp2_frac(f: nat) -> nat {
    spec_exp2_rec(0x8000_0000, 0x1_0000_0000, f)
}

/// Inverse of `frac_log2` by bisection: the Q31 mantissa whose fractional
/// log2 is nearest below `f`.
fn exp2_frac(f: u64) -> (r: u64)
    requires
        f < 0x1_0000_0000,
    ensures
        r as nat == spec_exp2_frac(f as nat),
        0x8000_0000 <= r < 0x1_0000_0000,
{
    let mut lo: u64 = 0x8000_0000;
    let mut hi: u64 = 0x1_0000_0000;
    while hi - lo > 1
        invariant
            0x8000_0000 <= lo < hi <= 0x1_0000_0000,
            spec_exp2_rec(lo as nat, hi as nat, f as nat) == spec_exp2_frac(f as nat),
        decreases hi - lo,
    {
        let mid = lo + (hi - lo) / 2;
        if frac_log2(mid) <= f {
            lo = mid;
        } else {
            hi = mid;
        }
    }
    lo
}

/// Doubling with the saturation test of the power scheme: the scaled
/// value, and whether saturation struck before the doublings ran out.
pub open spec fn spec_scale_up(prod: nat, k: int) -> (nat, bool)
    decreases (if k > 0 {
        k
    } else {
        0int
    }),
{
    if k <= 0 {
        (prod, false)
    } else if prod >= 0x96_0000_0000 {
        (prod, true)
    } else {
        spec_scale_up(prod * 2, k - 1)
    }
}

/// Halving of the power scheme, one bit per step below order one.
pub open spec fn spec_scale_down(prod: nat, k: int) -> nat
    decreases (if k < 0 {
        -k
    } else {
        0int
    }),
{
    if k >= 0 {
        prod
    } else {
        spec_scale_down(prod / 2, k + 1)
    }
}

/// The power scheme in full: the IEEE special cases, the Q32 base-2
/// logarithm of the base, its product with the order, the saturation
/// tests, the Q32 exponential and the final rounding, step for step as
/// `pow32` computes them.
pub open spec fn spec_pow32(x: u32, p: u32) -> u32 {
    let mx = x % 0x8000_0000;
    let mp = p % 0x8000_0000;
    if mx > INF32 || mp > INF32 {
        QNAN32
    } else if p == ONE32 {
        x
    } else if mp == 0 {
        ONE32
    } else if x >= 0x8000_0000 && mx != 0 {
        QNAN32
    } else {
        let psign = p >= 0x8000_0000;
        if mx == 0 {
            if psign {
                INF32
            } else {
                0u32
            }
        } else if mx == INF32 {
            if psign {
                0u32
            } else {
                INF32
            }
        } else if mp == INF32 {
            if x == ONE32 {
                ONE32
            } else if spec_lt32(ONE32, x) {
                if psign {
                    0u32
                } else {
                    INF32
                }
            } else {
                if psign {
                    INF32
                } else {
                    0u32
                }
            }
        } else {
            let e = (mx / 0x80_0000) % 256;
            let f = mx % 0x80_0000;
            let sig0: nat = if e == 0 {
                f as nat
            } else {
                (f + 0x80_0000) as nat
            };
            let pe0: int = (if e == 0 {
                1int
            } else {
                e as int
            }) - 150;
            let ns = norm_sig(sig0, pe0);
            let fl = spec_frac_log2(ns.0 * 0x100);
            let ei: int = ns.1 + 23;
            let lsign: bool = if ei >= 0 {
                false
            } else {
                (-ei) * 0x1_0000_0000 >= fl
            };
            let lmag: nat = if ei >= 0 {
                (ei * 0x1_0000_0000 + fl) as nat
            } else if (-ei) * 0x1_0000_0000 >= fl {
                ((-ei) * 0x1_0000_0000 - fl) as nat
            } else {
                (fl - (-ei) * 0x1_0000_0000) as nat
            };
            if lmag == 0 {
                ONE32
            } else {
                let ep = (mp / 0x80_0000) % 256;
                let fp = mp % 0x80_0000;
                let sigp0: nat = if ep == 0 {
                    fp as nat
                } else {
                    (fp + 0x80_0000) as nat
                };
                let pep0: int = (if ep == 0 {
                    1int
                } else {
                    ep as int
                }) - 150;
                let np = norm_sig(sigp0, pep0);
                let scaled: (nat, bool) = if np.1 >= 0 {
                    spec_scale_up(lmag * np.0, np.1)
                } else {
                    (spec_scale_down(lmag * np.0, np.1), false)
                };
                if scaled.1 || scaled.0 >= 0x96_0000_0000 {
                    if lsign != psign {
                        0u32
                    } else {
                        INF32
                    }
                } else {
                    let negexp = lsign != psign;
                    let ti = scaled.0 / 0x1_0000_0000;
                    let tf = scaled.0 % 0x1_0000_0000;
                    let ee: int = if !negexp {
                        ti as int
                    } else if tf == 0 {
                        -(ti as int)
                    } else {
                        -(ti as int) - 1
                    };
                    let ff: nat = if !negexp {
                        tf
                    } else if tf == 0 {
                        0nat
                    } else {
                        (0x1_0000_0000 - tf) as nat
                    };
                    spec_round32(false, spec_exp2_frac(ff), ee - 31)
                }
            }
        }
    }
}

/// Approximate power `x^p` for a non-negative base.
///
/// Order one is exact; a NaN in either argument, a zero or infinite base,
/// and a zero or infinite order take their IEEE-754 values; other cases go
/// through Q32 base-2 logarithm and exponential and are near the
/// mathematical power.  A negative base yields the canonical NaN.
pub fn pow32(x: u32, p: u32) -> (r: u32)
    ensures
        r == spec_pow32(x, p),
        is_nan32(x) || is_nan32(p) ==> r == QNAN32,
        !is_nan32(x) && p == ONE32 ==> r == x,
        !is_nan32(x) && !is_nan32(p) && is_zero32(p) ==> r == ONE32,
        !sign_of(x) ==> !sign_of(r),
        !is_nan32(x) && !is_nan32(p) && !sign_of(x) && p != ONE32 ==> !is_nan32(r),
{
    let mx = x % 0x8000_0000;
    let mp = p % 0x8000_0000;
    if mx > INF32 || mp > INF32 {
        return QNAN32;
    }
    if p == ONE32 {
        return x;
    }
    if mp == 0 {
        return ONE32;
    }
    if x >= 0x8000_0000 && mx != 0 {
        return QNAN32;
    }
    let psign = p >= 0x8000_0000;
    if mx == 0 {
        return if psign { INF32 } else { 0 };
    }
    if mx == INF32 {
        return if psign { 0 } else { INF32 };
    }
    if mp == INF32 {
        if x == ONE32 {
            return ONE32;
        }
        if lt32(ONE32, x) {
            return if psign { 0 } else { INF32 };
        }
        return if psign { INF32 } else { 0 };
    }
    // finite positive base, finite nonzero order
    let e = (mx / 0x80_0000) % 256;
    let f = mx % 0x80_0000;
    let sig0: u64 = if e == 0 { f as u64 } else { (f + 0x80_0000) as u64 };
    let pe0: i64 = (if e == 0 { 1i64 } else { e as i64 }) - 150;
    let (sig, pe) = norm_sig_e(sig0, pe0);
    // log2(x) in Q32, sign-magnitude
    let fl = frac_log2(sig * 0x100);
    let ei: i64 = pe + 23;
    let (lsign, lmag): (bool, u64) = if ei >= 0 {
        (false, (ei as u64) * 0x1_0000_0000 + fl)
    } else {
        let w = ((-ei) as u64) * 0x1_0000_0000;
        if w >= fl {
            (true, w - fl)
        } else {
            (false, fl - w)
        }
    };
    if lmag == 0 {
        return ONE32;
    }
    assert(lmag <= 0xb2_0000_0000);
    // decompose the order p into significand and exponent
    let ep_ = (mp / 0x80_0000) % 256;
    let fp_ = mp % 0x80_0000;
    let sigp0: u64 = if ep_ == 0 { fp_ as u64 } else { (fp_ + 0x80_0000) as u64 };
    let pep0: i64 = (if ep_ == 0 { 1i64 } else { ep_ as i64 }) - 150;
    let (sigp, pep) = norm_sig_e(sigp0, pep0);
    // |p * log2 x| in Q32 is lmag * sigp * 2^pep
    assert(lmag * sigp <= 0xb2_0000_0000 * 0x100_0000) by (nonlinear_arith)
        requires lmag <= 0xb2_0000_0000u64 && sigp < 0x100_0000u64;
    let mut prod: u64 = lmag * sigp;
    let ghost prod0: nat = prod as nat;
    let ghost scaled: (nat, bool) = if pep >= 0 {
        spec_scale_up(prod0, pep as int)
    } else {
        (spec_scale_down(prod0, pep as int), false)
    };
    let mut sat = false;
    if pep >= 0 {
        let mut k: i64 = pep;
        while k > 0
            invariant
                0 <= k,
                sat ==> k == 0,
                (if sat {
                    (prod as nat, true)
                } else {
                    spec_scale_up(prod as nat, k as int)
                }) == spec_scale_up(prod0, pep as int),
            decreases k,
        {
            if prod >= 0x96_0000_0000 {
                sat = true;
                k = 0;
            } else {
                prod = prod * 2;
                k = k - 1;
            }
        }
        proof {
            assert((prod as nat, sat) == scaled);
        }
    } else {
        let mut k: i64 = pep;
        while k < 0
            invariant
                k <= 0,
                spec_scale_down(prod as nat, k as int) == spec_scale_down(prod0, pep as int),
            decreases -k,
        {
            prod = prod / 2;
            k = k + 1;
        }
        proof {
            assert((prod as nat, sat) == scaled);
        }
    }
    if sat || prod >= 0x96_0000_0000 {
        // log2 of the power is beyond +/-150: overflow or underflow
        let shrink = lsign != psign;
        return if shrink { 0 } else { INF32 };
    }
    // split into integer exponent and Q32 fraction of the power's log2
    let negexp = lsign != psign;
    let ti: u64 = prod / 0x1_0000_0000;
    let tf: u64 = prod % 0x1_0000_0000;
    assert(ti <= 150);
    let (ee, ff): (i64, u64) = if !negexp {
        (ti as i64, tf)
    } else {
        if tf == 0 {
            (-(ti as i64), 0)
        } else {
            (-(ti as i64) - 1, 0x1_0000_0000 - tf)
        }
    };
    let m_r = exp2_frac(ff);
    proof {
        lemma_round32_nonneg(m_r as nat, ee as int - 31);
    }
    round32(false, m_r, ee - 31)
}

} // verus!
