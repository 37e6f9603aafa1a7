//! Metric laws, proved over the binary32 model.
//!
//! These are the statements a caller can rely on for every input, not just
//! the tested ones: a vector is at Euclidean distance zero from itself, and
//! the Manhattan and Chebyshev folds do not care about argument order.
//! The Minkowski fold of order one is the Manhattan fold by the contract of
//! its kernel.

use vstd::prelude::*;
use crate::float_bits::{
    TWO32, QNAN32, spec_add32, spec_sub32, spec_mul32, spec_neg32, spec_abs32, spec_max32,
    spec_sqrt32, spec_round32, spec_add_finite, norm_down, norm_up, compress1, shift_sticky,
    round_finish, denorm, is_nan32, is_inf32, is_zero32, sign_of, exp_of, frac_of, mag_of,
    sig_of, pexp_of, p2, lemma_p2_pos, lemma_norm_down_range, lemma_norm_up_range,
    lemma_denorm_range,
};
use crate::metrics::{man_acc, cheb_acc, spec_euclid};
use crate::distance_registry::euclid2_acc;
use crate::float_bits::is_finite32;

verus! {

/// Negating flips only the sign: exponent, fraction and magnitude survive.
proof fn lemma_neg_fields(y: u32)
    ensures
        exp_of(spec_neg32(y)) == exp_of(y),
        frac_of(spec_neg32(y)) == frac_of(y),
        mag_of(spec_neg32(y)) == mag_of(y),
        sign_of(spec_neg32(y)) == !sign_of(y),
        sig_of(spec_neg32(y)) == sig_of(y),
        pexp_of(spec_neg32(y)) == pexp_of(y),
{
    if y >= 0x8000_0000 {
        assert(spec_neg32(y) == y - 0x8000_0000);
    } else {
        assert(spec_neg32(y) == y + 0x8000_0000);
    }
}

/// Rounding uses the sign only for the sign bit: magnitudes agree.
proof fn lemma_round32_mag(s: nat, e: int)
    ensures
        mag_of(spec_round32(true, s, e)) == mag_of(spec_round32(false, s, e)),
{
    if s == 0 {
    } else {
        lemma_norm_down_range(s, e);
        let nd = norm_down(s, e);
        lemma_norm_up_range(nd.0, nd.1);
        let nu = norm_up(nd.0, nd.1);
        let eb = nu.1 + 152;
        if eb >= 1 {
            lemma_round_finish_mag(nu.0, eb);
        } else {
            lemma_denorm_range(nu.0, (1 - eb) as nat);
            lemma_round_finish_mag(denorm(nu.0, (1 - eb) as nat), 1);
        }
    }
}

proof fn lemma_round_finish_mag(s: nat, eb: int)
    requires
        s < 0x400_0000,
        1 <= eb,
    ensures
        mag_of(round_finish(true, s, eb)) == mag_of(round_finish(false, s, eb)),
{
}

/// Doubling the significand while lowering the exponent rounds the same.
proof fn lemma_round32_shift1(sign: bool, s: nat, e: int)
    requires
        s >= 1,
    ensures
        spec_round32(sign, 2 * s, e - 1) == spec_round32(sign, s, e),
{
    assert(compress1(2 * s) == s);
    if s >= 0x400_0000 {
        assert(norm_down(2 * s, e - 1) == norm_down(compress1(2 * s), e));
        assert(norm_down(2 * s, e - 1) == norm_down(s, e));
    } else if s >= 0x200_0000 {
        assert(norm_down(2 * s, e - 1) == norm_down(compress1(2 * s), e));
        assert(norm_down(s, e) == (s, e));
        assert(norm_down(2 * s, e - 1) == (s, e));
    } else {
        assert(norm_down(2 * s, e - 1) == (2 * s, e - 1));
        assert(norm_down(s, e) == (s, e));
        assert(norm_up(s, e) == norm_up(2 * s, e - 1));
    }
}

/// The same, for any power of two.
proof fn lemma_round32_shift(sign: bool, s: nat, e: int, k: nat)
    requires
        s >= 1,
    ensures
        spec_round32(sign, s * p2(k), e - k) == spec_round32(sign, s, e),
    decreases k,
{
    lemma_p2_pos(k);
    if k == 0 {
        assert(p2(0) == 1);
        assert(s * 1 == s) by (nonlinear_arith);
    } else {
        lemma_p2_pos((k - 1) as nat);
        lemma_round32_shift(sign, s, e, (k - 1) as nat);
        assert(s * p2(k) == 2 * (s * p2((k - 1) as nat))) by (nonlinear_arith)
            requires p2(k) == 2 * p2((k - 1) as nat);
        assert(s * p2((k - 1) as nat) >= 1) by (nonlinear_arith)
            requires s >= 1 && p2((k - 1) as nat) >= 1;
        lemma_round32_shift1(sign, s * p2((k - 1) as nat), e - k + 1);
    }
}

/// Adding a value to itself is multiplying it by two.
pub proof fn lemma_add32_self(x: u32)
    ensures
        spec_add32(x, x) == spec_mul32(TWO32, x),
{
    if is_nan32(x) {
    } else if is_inf32(x) {
    } else if is_zero32(x) {
    } else {
        // both sides round sig * 2^(pexp + 1)
        assert(sig_of(TWO32) == 0x80_0000);
        assert(pexp_of(TWO32) == -22);
        let s = sig_of(x);
        let e = pexp_of(x);
        assert(s >= 1);
        assert(spec_add32(x, x) == spec_add_finite(x, x));
        assert(spec_add_finite(x, x) == spec_round32(sign_of(x), s * 8 + shift_sticky(s * 8, 0), e - 3));
        assert(shift_sticky(s * 8, 0) == s * 8);
        assert(p2(4) == 16) by {
            reveal_with_fuel(p2, 6);
        }
        assert(s * 8 + s * 8 == s * p2(4)) by (nonlinear_arith)
            requires p2(4) == 16nat;
        lemma_round32_shift(sign_of(x), s, e + 1, 4);
        assert(spec_add32(x, x) == spec_round32(sign_of(x), s, e + 1));
        assert(p2(23) == 0x80_0000) by {
            reveal_with_fuel(p2, 25);
        }
        assert(sig_of(TWO32) * sig_of(x) == s * p2(23)) by (nonlinear_arith)
            requires sig_of(TWO32) == p2(23) && s == sig_of(x);
        lemma_round32_shift(sign_of(TWO32) != sign_of(x), s, e + 1, 23);
        assert(sign_of(TWO32) == false);
        assert(spec_mul32(TWO32, x) == spec_round32(sign_of(x), s, e + 1));
    }
}

/// Subtracting a value from itself gives zero, or the quiet NaN when the
/// value is an infinity or a NaN.
pub proof fn lemma_sub32_self(y: u32)
    ensures
        spec_sub32(y, y) == (if is_nan32(y) || is_inf32(y) { QNAN32 } else { 0u32 }),
{
    lemma_neg_fields(y);
    if is_nan32(y) || is_inf32(y) || is_zero32(y) {
    } else {
        assert(spec_sub32(y, y) == spec_add_finite(y, spec_neg32(y)));
        assert(shift_sticky(sig_of(y) * 8, 0) == sig_of(y) * 8);
    }
}

/// A vector is at Euclidean distance zero from itself: with the cached
/// norm, the query norm and the dot product all equal, the kernel's
/// subtraction cancels (or yields NaN past the finite range), the floor at
/// zero absorbs it, and the square root of zero is zero.
pub proof fn lemma_euclidean_self_is_zero(n: u32)
    ensures
        spec_euclid(n, n, n) == 0,
{
    lemma_add32_self(n);
    let t = spec_add32(n, n);
    assert(spec_sub32(spec_add32(n, n), spec_mul32(TWO32, n)) == spec_sub32(t, t));
    lemma_sub32_self(t);
    let d = spec_sub32(t, t);
    assert(spec_max32(d, 0u32) == 0u32);
    assert(spec_sqrt32(0u32) == 0u32);
}

/// The registry's direct Euclidean fold cancels on identical finite
/// vectors: each squared difference is zero and the sum stays zero, so the
/// registry entry's distance from a finite vector to itself is the square
/// root of zero.  (The registry's Manhattan and Chebyshev entries use the
/// same folds as the index kernels, so the symmetry lemmas below cover
/// them too.)
pub proof fn lemma_euclid2_self_zero(v: Seq<u32>, n: int)
    requires
        n <= v.len(),
        forall|i: int| 0 <= i < v.len() ==> is_finite32(#[trigger] v[i]),
    ensures
        euclid2_acc(v, v, n) == 0,
        spec_sqrt32(euclid2_acc(v, v, n)) == 0,
    decreases n,
{
    if n > 0 {
        lemma_euclid2_self_zero(v, n - 1);
        lemma_sub32_self(v[n - 1]);
        assert(spec_sub32(v[n - 1], v[n - 1]) == 0u32);
        assert(spec_mul32(0u32, 0u32) == 0u32);
        assert(spec_add32(0u32, 0u32) == 0u32);
    }
    assert(spec_sqrt32(0u32) == 0u32);
}

/// The absolute difference is symmetric in its arguments.
pub proof fn lemma_abs_sub_comm(x: u32, y: u32)
    ensures
        spec_abs32(spec_sub32(x, y)) == spec_abs32(spec_sub32(y, x)),
{
    lemma_neg_fields(x);
    lemma_neg_fields(y);
    if is_nan32(x) || is_nan32(y) {
    } else if is_inf32(x) || is_inf32(y) {
    } else if is_zero32(x) && is_zero32(y) {
    } else if is_zero32(x) || is_zero32(y) {
    } else {
        let sx = sig_of(x);
        let sy = sig_of(y);
        let ex = pexp_of(x);
        let ey = pexp_of(y);
        assert(spec_sub32(x, y) == spec_add_finite(x, spec_neg32(y)));
        assert(spec_sub32(y, x) == spec_add_finite(y, spec_neg32(x)));
        if ey > ex || (ey == ex && sy > sx) {
            let d = (ey - ex) as nat;
            lemma_round32_mag(sy * 8 + shift_sticky(sx * 8, d), ey - 3);
            if sy * 8 > shift_sticky(sx * 8, d) {
                lemma_round32_mag((sy * 8 - shift_sticky(sx * 8, d)) as nat, ey - 3);
            } else if sy * 8 < shift_sticky(sx * 8, d) {
                lemma_round32_mag((shift_sticky(sx * 8, d) - sy * 8) as nat, ey - 3);
            }
        } else if ex > ey || (ex == ey && sx > sy) {
            let d = (ex - ey) as nat;
            lemma_round32_mag(sx * 8 + shift_sticky(sy * 8, d), ex - 3);
            if sx * 8 > shift_sticky(sy * 8, d) {
                lemma_round32_mag((sx * 8 - shift_sticky(sy * 8, d)) as nat, ex - 3);
            } else if sx * 8 < shift_sticky(sy * 8, d) {
                lemma_round32_mag((shift_sticky(sy * 8, d) - sx * 8) as nat, ex - 3);
            }
        } else {
            assert(sx == sy && ex == ey);
            assert(shift_sticky(sx * 8, 0) == sx * 8);
            assert(shift_sticky(sy * 8, 0) == sy * 8);
            lemma_round32_mag(sx * 8 + sy * 8, ex - 3);
        }
    }
}

/// The Manhattan fold is symmetric in its two vectors.
pub proof fn lemma_manhattan_symmetric(a: Seq<u32>, b: Seq<u32>, n: int)
    requires
        n <= a.len(),
        n <= b.len(),
    ensures
        man_acc(a, b, n) == man_acc(b, a, n),
    decreases n,
{
    if n > 0 {
        lemma_manhattan_symmetric(a, b, n - 1);
        lemma_abs_sub_comm(a[n - 1], b[n - 1]);
    }
}

/// The Chebyshev fold is symmetric in its two vectors.
pub proof fn lemma_chebyshev_symmetric(a: Seq<u32>, b: Seq<u32>, n: int)
    requires
        n <= a.len(),
        n <= b.len(),
    ensures
        cheb_acc(a, b, n) == cheb_acc(b, a, n),
    decreases n,
{
    if n > 0 {
        lemma_chebyshev_symmetric(a, b, n - 1);
        lemma_abs_sub_comm(a[n - 1], b[n - 1]);
    }
}

} // verus!
