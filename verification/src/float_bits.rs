//! Integer model of IEEE-754 binary32 ("single") arithmetic.
//!
//! Every floating-point value in this crate travels as its 32-bit pattern
//! (`u32`).  The functions here decode such patterns into an integer
//! significand and a power-of-two exponent, operate on those integers, and
//! re-encode with round-to-nearest-even.  Sub-ulp information is kept in a
//! sticky low bit, the standard guard/round/sticky scheme, so results agree
//! with hardware single-precision arithmetic; any NaN produced here is the
//! canonical quiet NaN.

use vstd::prelude::*;

verus! {

/// Canonical quiet NaN bit pattern.
pub const QNAN32: u32 = 0x7fc0_0000;
/// Positive infinity bit pattern; also the magnitude bound of non-NaN values.
pub const INF32: u32 = 0x7f80_0000;
/// Bit pattern of 1.0.
pub const ONE32: u32 = 0x3f80_0000;
/// Bit pattern of 2.0.
pub const TWO32: u32 = 0x4000_0000;
/// Bit pattern of 0.5.
pub const HALF32: u32 = 0x3f00_0000;

/// Power of two, as a plain recursive definition.
pub open spec fn p2(k: nat) -> nat
    decreases k,
{
    if k == 0 { 1nat } else { 2 * p2((k - 1) as nat) }
}

pub proof fn lemma_p2_le(a: nat, b: nat)
    requires
        a <= b,
    ensures
        p2(a) <= p2(b),
    decreases b,
{
    if a < b {
        lemma_p2_le(a, (b - 1) as nat);
        assert(p2(b) == 2 * p2((b - 1) as nat));
        assert(p2(a) >= 1) by {
            lemma_p2_pos(a);
        }
    }
}

pub proof fn lemma_p2_pos(a: nat)
    ensures
        p2(a) >= 1,
    decreases a,
{
    if a > 0 {
        lemma_p2_pos((a - 1) as nat);
    }
}

// ---------------------------------------------------------------------------
// Decoding
// ---------------------------------------------------------------------------

pub open spec fn sign_of(b: u32) -> bool {
    b >= 0x8000_0000
}

pub open spec fn exp_of(b: u32) -> u32 {
    (b / 0x80_0000) % 256
}

pub open spec fn frac_of(b: u32) -> u32 {
    b % 0x80_0000
}

/// Magnitude: the bit pattern with the sign cleared.
pub open spec fn mag_of(b: u32) -> u32 {
    b % 0x8000_0000
}

pub open spec fn is_nan32(b: u32) -> bool {
    mag_of(b) > INF32
}

pub open spec fn is_inf32(b: u32) -> bool {
    mag_of(b) == INF32
}

pub open spec fn is_zero32(b: u32) -> bool {
    mag_of(b) == 0
}

pub open spec fn is_finite32(b: u32) -> bool {
    mag_of(b) < INF32
}

/// Integer significand of a finite pattern (with the hidden bit for normals).
pub open spec fn sig_of(b: u32) -> nat {
    if exp_of(b) == 0 {
        frac_of(b) as nat
    } else {
        (frac_of(b) + 0x80_0000) as nat
    }
}

/// Power-of-two exponent of a finite pattern: value = +/- sig_of * 2^pexp_of.
pub open spec fn pexp_of(b: u32) -> int {
    (if exp_of(b) == 0 { 1int } else { exp_of(b) as int }) - 150
}

pub open spec fn zero_of(sign: bool) -> u32 {
    if sign { 0x8000_0000u32 } else { 0u32 }
}

pub open spec fn inf_of(sign: bool) -> u32 {
    if sign { 0xff80_0000u32 } else { 0x7f80_0000u32 }
}

/// Assemble a pattern from sign, exponent field and fraction field.
pub open spec fn pack32(sign: bool, e: u32, f: u32) -> u32
    recommends
        e < 256,
        f < 0x80_0000,
{
    (if sign { 0x8000_0000u32 } else { 0u32 } + e * 0x80_0000 + f) as u32
}

// ---------------------------------------------------------------------------
// Rounding (round to nearest, ties to even)
// ---------------------------------------------------------------------------

/// Halve a significand, folding the shifted-out bit into the sticky low bit.
pub open spec fn compress1(s: nat) -> nat {
    let h = s / 2;
    if h % 2 == 0 && s % 2 == 1 { h + 1 } else { h }
}

/// Repeated sticky halving until the significand is below 2^26.
pub open spec fn norm_down(s: nat, e: int) -> (nat, int)
    decreases s,
{
    if s < 0x400_0000 {
        (s, e)
    } else {
        norm_down(compress1(s), e + 1)
    }
}

/// Repeated doubling until the significand reaches 2^25 (exact).
pub open spec fn norm_up(s: nat, e: int) -> (nat, int)
    decreases (if s < 0x200_0000 { (0x200_0000 - s) as int } else { 0int }),
{
    if s == 0 || s >= 0x200_0000 {
        (s, e)
    } else {
        norm_up(2 * s, e - 1)
    }
}

/// `k` further sticky halvings, used when the result is subnormal.
pub open spec fn denorm(s: nat, k: nat) -> nat
    decreases k,
{
    if k == 0 { s } else { denorm(compress1(s), (k - 1) as nat) }
}

/// Round a 26-bit significand (two sub-ulp bits) at biased exponent `eb`.
pub open spec fn round_finish(sign: bool, s: nat, eb: int) -> u32
    recommends
        s < 0x400_0000,
        1 <= eb,
{
    let m = s / 4;
    let r = (s / 2) % 2;
    let st = s % 2;
    let up: nat = if r == 1 && (st == 1 || m % 2 == 1) { 1nat } else { 0nat };
    let m2 = m + up;
    let m3 = if m2 == 0x100_0000 { 0x80_0000nat } else { m2 };
    let eb2 = if m2 == 0x100_0000 { eb + 1 } else { eb };
    if m3 == 0 {
        zero_of(sign)
    } else if eb2 >= 255 {
        inf_of(sign)
    } else if m3 < 0x80_0000 {
        pack32(sign, 0, m3 as u32)
    } else {
        pack32(sign, eb2 as u32, (m3 - 0x80_0000) as u32)
    }
}

/// Round-to-nearest-even of the exact (up to sticky) value `+/- s * 2^e`.
pub open spec fn spec_round32(sign: bool, s: nat, e: int) -> u32 {
    if s == 0 {
        zero_of(sign)
    } else {
        let nd = norm_down(s, e);
        let nu = norm_up(nd.0, nd.1);
        let eb = nu.1 + 152;
        if eb >= 1 {
            round_finish(sign, nu.0, eb)
        } else {
            round_finish(sign, denorm(nu.0, (1 - eb) as nat), 1)
        }
    }
}

/// Executable round-to-nearest-even matching `spec_round32`.
pub fn round32(sign: bool, s0: u64, e0: i64) -> (r: u32)
    requires
        -2000 <= e0 <= 2000,
        s0 < 0x40_0000_0000_0000,
    ensures
        r == spec_round32(sign, s0 as nat, e0 as int),
{
    if s0 == 0 {
        return if sign { 0x8000_0000u32 } else { 0u32 };
    }
    let mut s: u64 = s0;
    let mut e: i64 = e0;
    while s >= 0x400_0000
        invariant
            -2000 <= e0 <= 2000,
            s0 < 0x40_0000_0000_0000,
            1 <= s <= s0,
            e - e0 <= s0 - s,
            e0 <= e,
            norm_down(s as nat, e as int) == norm_down(s0 as nat, e0 as int),
        decreases s,
    {
        let h = s / 2;
        let s2 = if h % 2 == 0 && s % 2 == 1 { h + 1 } else { h };
        assert(s2 as nat == compress1(s as nat));
        assert(s2 < s);
        s = s2;
        e = e + 1;
    }
    assert(norm_down(s as nat, e as int) == (s as nat, e as int));
    let ghost e_mid = e as int;
    while s < 0x200_0000
        invariant
            1 <= s < 0x400_0000,
            -2000 <= e0 <= 2000,
            e0 <= e_mid,
            e <= e_mid,
            e_mid <= e0 + 0x40_0000_0000_0000,
            p2((e_mid - e) as nat) <= s as nat,
            norm_up(s as nat, e as int) == norm_up(
                norm_down(s0 as nat, e0 as int).0,
                norm_down(s0 as nat, e0 as int).1,
            ),
        decreases (if s < 0x200_0000 { (0x200_0000 - s) as int } else { 0int }),
    {
        proof {
            // the doubling count is bounded because s stays below 2^26
            lemma_p2_bound_26((e_mid - e) as nat, s as nat);
        }
        assert(e_mid - e <= 26);
        s = s * 2;
        e = e - 1;
        assert(p2((e_mid - e) as nat) == 2 * p2((e_mid - e - 1) as nat));
    }
    proof {
        lemma_p2_bound_26((e_mid - e) as nat, s as nat);
    }
    assert(e >= e_mid - 26);
    let mut eb: i64 = e + 152;
    let ghost s_norm = s as nat;
    let ghost eb_norm = eb as int;
    if eb < 1 {
        let k: i64 = 1 - eb;
        let ghost s_entry = s as nat;
        let mut j: i64 = 0;
        while j < k
            invariant
                0 <= j <= k <= 3000,
                s < 0x400_0000,
                denorm(s as nat, (k - j) as nat) == denorm(s_entry, k as nat),
            decreases k - j,
        {
            let h = s / 2;
            let s2 = if h % 2 == 0 && s % 2 == 1 { h + 1 } else { h };
            assert(s2 as nat == compress1(s as nat));
            s = s2;
            j = j + 1;
        }
        assert(s as nat == denorm(s_entry, k as nat));
        eb = 1;
    }
    let m = s / 4;
    let r_ = (s / 2) % 2;
    let st = s % 2;
    let up: u64 = if r_ == 1 && (st == 1 || m % 2 == 1) { 1 } else { 0 };
    let m2 = m + up;
    let m3 = if m2 == 0x100_0000 { 0x80_0000u64 } else { m2 };
    let eb2 = if m2 == 0x100_0000 { eb + 1 } else { eb };
    if m3 == 0 {
        if sign { 0x8000_0000u32 } else { 0u32 }
    } else if eb2 >= 255 {
        if sign { 0xff80_0000u32 } else { 0x7f80_0000u32 }
    } else if m3 < 0x80_0000 {
        let base: u32 = if sign { 0x8000_0000u32 } else { 0u32 };
        base + (m3 as u32)
    } else {
        let base: u32 = if sign { 0x8000_0000u32 } else { 0u32 };
        base + (eb2 as u32) * 0x80_0000 + ((m3 - 0x80_0000) as u32)
    }
}

/// A significand below 2^26 bounds how many doublings can have happened.
proof fn lemma_p2_bound_26(k: nat, s: nat)
    requires
        p2(k) <= s,
        s < 0x400_0000,
    ensures
        k <= 26,
{
    if k > 26 {
        lemma_p2_le(26, k);
        assert(p2(26) == 0x400_0000) by {
            reveal_with_fuel(p2, 28);
        }
    }
}

/// `norm_down` keeps the significand positive and brings it below 2^26.
pub proof fn lemma_norm_down_range(s: nat, e: int)
    requires
        s >= 1,
    ensures
        1 <= norm_down(s, e).0 < 0x400_0000,
    decreases s,
{
    if s >= 0x400_0000 {
        lemma_norm_down_range(compress1(s), e + 1);
    }
}

/// `norm_up` lands the significand in [2^25, 2^26) when it starts below.
pub proof fn lemma_norm_up_range(s: nat, e: int)
    requires
        1 <= s < 0x400_0000,
    ensures
        0x200_0000 <= norm_up(s, e).0 < 0x400_0000,
    decreases (if s < 0x200_0000 { (0x200_0000 - s) as int } else { 0int }),
{
    if s < 0x200_0000 {
        lemma_norm_up_range(2 * s, e - 1);
    }
}

/// `denorm` never grows the significand.
pub proof fn lemma_denorm_range(s: nat, k: nat)
    requires
        s < 0x400_0000,
    ensures
        denorm(s, k) < 0x400_0000,
    decreases k,
{
    if k > 0 {
        lemma_denorm_range(compress1(s), (k - 1) as nat);
    }
}

/// Rounding never produces a NaN pattern.
pub proof fn lemma_round32_not_nan(sign: bool, s: nat, e: int)
    ensures
        !is_nan32(spec_round32(sign, s, e)),
{
    if s == 0 {
    } else {
        let nd = norm_down(s, e);
        lemma_norm_down_range(s, e);
        let nu = norm_up(nd.0, nd.1);
        lemma_norm_up_range(nd.0, nd.1);
        let eb = nu.1 + 152;
        if eb >= 1 {
            lemma_round_finish_not_nan(sign, nu.0, eb);
        } else {
            lemma_denorm_range(nu.0, (1 - eb) as nat);
            lemma_round_finish_not_nan(sign, denorm(nu.0, (1 - eb) as nat), 1);
        }
    }
}

proof fn lemma_round_finish_not_nan(sign: bool, s: nat, eb: int)
    requires
        s < 0x400_0000,
        1 <= eb,
    ensures
        !is_nan32(round_finish(sign, s, eb)),
{
}

/// Multiplication never produces a NaN from non-NaN finite inputs of which
/// neither is a NaN pattern.
pub proof fn lemma_mul32_not_nan(a: u32, b: u32)
    requires
        !is_nan32(a),
        !is_nan32(b),
    ensures
        !is_nan32(spec_mul32(a, b)) || (is_inf32(a) && is_zero32(b)) || (is_inf32(b)
            && is_zero32(a)) || (is_inf32(a) && is_inf32(b)),
{
    if is_inf32(a) || is_inf32(b) {
    } else if is_zero32(a) || is_zero32(b) {
    } else {
        lemma_round32_not_nan(sign_of(a) != sign_of(b), sig_of(a) * sig_of(b),
            pexp_of(a) + pexp_of(b));
    }
}

/// Rounding with a positive sign yields a non-negative, non-NaN pattern.
pub proof fn lemma_round32_nonneg(s: nat, e: int)
    ensures
        !sign_of(spec_round32(false, s, e)),
        !is_nan32(spec_round32(false, s, e)),
{
    lemma_round32_not_nan(false, s, e);
    if s == 0 {
    } else {
        lemma_norm_down_range(s, e);
        let nd = norm_down(s, e);
        lemma_norm_up_range(nd.0, nd.1);
        let nu = norm_up(nd.0, nd.1);
        let eb = nu.1 + 152;
        if eb >= 1 {
            lemma_round_finish_nonneg(nu.0, eb);
        } else {
            lemma_denorm_range(nu.0, (1 - eb) as nat);
            lemma_round_finish_nonneg(denorm(nu.0, (1 - eb) as nat), 1);
        }
    }
}

proof fn lemma_round_finish_nonneg(s: nat, eb: int)
    requires
        s < 0x400_0000,
        1 <= eb,
    ensures
        !sign_of(round_finish(false, s, eb)),
{
}

/// The sum of two non-negative patterns is non-negative (the canonical NaN
/// included, whose sign bit is clear).
pub proof fn lemma_add32_nonneg(a: u32, b: u32)
    requires
        !sign_of(a),
        !sign_of(b),
    ensures
        !sign_of(spec_add32(a, b)),
{
    if is_nan32(a) || is_nan32(b) {
    } else if is_inf32(a) || is_inf32(b) {
    } else if is_zero32(a) && is_zero32(b) {
    } else if is_zero32(a) || is_zero32(b) {
    } else {
        lemma_round32_nonneg(
            sig_of(if pexp_of(b) > pexp_of(a) || (pexp_of(b) == pexp_of(a) && sig_of(b)
                > sig_of(a)) {
                b
            } else {
                a
            }) * 8 + shift_sticky(
                sig_of(if pexp_of(b) > pexp_of(a) || (pexp_of(b) == pexp_of(a) && sig_of(b)
                    > sig_of(a)) {
                    a
                } else {
                    b
                }) * 8,
                (if pexp_of(b) > pexp_of(a) || (pexp_of(b) == pexp_of(a) && sig_of(b) > sig_of(
                    a,
                )) {
                    pexp_of(b) - pexp_of(a)
                } else {
                    pexp_of(a) - pexp_of(b)
                }) as nat,
            ),
            (if pexp_of(b) > pexp_of(a) || (pexp_of(b) == pexp_of(a) && sig_of(b) > sig_of(a)) {
                pexp_of(b)
            } else {
                pexp_of(a)
            }) - 3,
        );
    }
}

// ---------------------------------------------------------------------------
// Addition and subtraction
// ---------------------------------------------------------------------------

/// `d` sticky halvings: alignment of the smaller addend.
pub open spec fn shift_sticky(s: nat, d: nat) -> nat
    decreases d,
{
    if d == 0 { s } else { shift_sticky(compress1(s), (d - 1) as nat) }
}

/// Sum of two finite, nonzero patterns.
pub open spec fn spec_add_finite(a: u32, b: u32) -> u32 {
    let swap = pexp_of(b) > pexp_of(a) || (pexp_of(b) == pexp_of(a) && sig_of(b) > sig_of(a));
    let big = if swap { b } else { a };
    let small = if swap { a } else { b };
    let d = (pexp_of(big) - pexp_of(small)) as nat;
    let mb = sig_of(big) * 8;
    let ms = shift_sticky(sig_of(small) * 8, d);
    let er = pexp_of(big) - 3;
    if sign_of(a) == sign_of(b) {
        spec_round32(sign_of(a), mb + ms, er)
    } else if mb == ms {
        0u32
    } else if mb > ms {
        spec_round32(sign_of(big), (mb - ms) as nat, er)
    } else {
        spec_round32(!sign_of(big), (ms - mb) as nat, er)
    }
}

/// IEEE-754 addition on bit patterns (canonical NaN on invalid cases).
pub open spec fn spec_add32(a: u32, b: u32) -> u32 {
    if is_nan32(a) || is_nan32(b) {
        QNAN32
    } else if is_inf32(a) {
        if is_inf32(b) && sign_of(a) != sign_of(b) { QNAN32 } else { a }
    } else if is_inf32(b) {
        b
    } else if is_zero32(a) && is_zero32(b) {
        if sign_of(a) && sign_of(b) { 0x8000_0000u32 } else { 0u32 }
    } else if is_zero32(a) {
        b
    } else if is_zero32(b) {
        a
    } else {
        spec_add_finite(a, b)
    }
}

pub open spec fn spec_neg32(b: u32) -> u32 {
    if b >= 0x8000_0000 { (b - 0x8000_0000) as u32 } else { (b + 0x8000_0000) as u32 }
}

pub open spec fn spec_sub32(a: u32, b: u32) -> u32 {
    spec_add32(a, spec_neg32(b))
}

pub open spec fn spec_abs32(b: u32) -> u32 {
    mag_of(b)
}

/// Decode a finite pattern into (sign, significand, exponent), executable.
fn decode32(b: u32) -> (r: (bool, u64, i64))
    requires
        is_finite32(b),
    ensures
        r.0 == sign_of(b),
        r.1 as nat == sig_of(b),
        r.2 as int == pexp_of(b),
        r.1 < 0x100_0000,
        -149 <= r.2 <= 104,
{
    let sign = b >= 0x8000_0000;
    let e = (b / 0x80_0000) % 256;
    let f = b % 0x80_0000;
    if e == 0 {
        (sign, f as u64, 1 - 150)
    } else {
        (sign, (f + 0x80_0000) as u64, e as i64 - 150)
    }
}

/// Bitwise negation of the sign, executable.
pub fn neg32(b: u32) -> (r: u32)
    ensures
        r == spec_neg32(b),
{
    if b >= 0x8000_0000 { b - 0x8000_0000 } else { b + 0x8000_0000 }
}

/// Magnitude (absolute value), executable.
pub fn abs32(b: u32) -> (r: u32)
    ensures
        r == spec_abs32(b),
{
    b % 0x8000_0000
}

pub fn is_nan32_e(b: u32) -> (r: bool)
    ensures
        r == is_nan32(b),
{
    b % 0x8000_0000 > INF32
}

pub fn is_finite32_e(b: u32) -> (r: bool)
    ensures
        r == is_finite32(b),
{
    b % 0x8000_0000 < INF32
}

/// IEEE-754 addition, executable.
pub fn add32(a: u32, b: u32) -> (r: u32)
    ensures
        r == spec_add32(a, b),
{
    let ma = a % 0x8000_0000;
    let mb_ = b % 0x8000_0000;
    if ma > INF32 || mb_ > INF32 {
        return QNAN32;
    }
    if ma == INF32 {
        if mb_ == INF32 && (a >= 0x8000_0000) != (b >= 0x8000_0000) {
            return QNAN32;
        }
        return a;
    }
    if mb_ == INF32 {
        return b;
    }
    if ma == 0 && mb_ == 0 {
        return if a >= 0x8000_0000 && b >= 0x8000_0000 { 0x8000_0000u32 } else { 0u32 };
    }
    if ma == 0 {
        return b;
    }
    if mb_ == 0 {
        return a;
    }
    let (sa, siga, ea) = decode32(a);
    let (sb, sigb, eb) = decode32(b);
    let swap = eb > ea || (eb == ea && sigb > siga);
    let (sbig, mbig, ebig) = if swap { (sb, sigb, eb) } else { (sa, siga, ea) };
    let (_ssm, msmall, esmall) = if swap { (sa, siga, ea) } else { (sb, sigb, eb) };
    let d: i64 = ebig - esmall;
    let mb: u64 = mbig * 8;
    let mut ms: u64 = msmall * 8;
    let ghost ms_start = ms as nat;
    let mut j: i64 = 0;
    while j < d
        invariant
            0 <= j <= d <= 300,
            ms < 0x800_0000,
            shift_sticky(ms as nat, (d - j) as nat) == shift_sticky(ms_start, d as nat),
        decreases d - j,
    {
        let h = ms / 2;
        let ms2 = if h % 2 == 0 && ms % 2 == 1 { h + 1 } else { h };
        assert(ms2 as nat == compress1(ms as nat));
        ms = ms2;
        j = j + 1;
    }
    assert(ms as nat == shift_sticky(ms_start, d as nat));
    let er: i64 = ebig - 3;
    if sa == sb {
        round32(sa, mb + ms, er)
    } else if mb == ms {
        0u32
    } else if mb > ms {
        round32(sbig, mb - ms, er)
    } else {
        round32(!sbig, ms - mb, er)
    }
}

/// IEEE-754 subtraction, executable.
pub fn sub32(a: u32, b: u32) -> (r: u32)
    ensures
        r == spec_sub32(a, b),
{
    let nb = neg32(b);
    add32(a, nb)
}

// ---------------------------------------------------------------------------
// Multiplication
// ---------------------------------------------------------------------------

pub open spec fn spec_mul32(a: u32, b: u32) -> u32 {
    let sr = sign_of(a) != sign_of(b);
    if is_nan32(a) || is_nan32(b) {
        QNAN32
    } else if is_inf32(a) || is_inf32(b) {
        if is_zero32(a) || is_zero32(b) { QNAN32 } else { inf_of(sr) }
    } else if is_zero32(a) || is_zero32(b) {
        zero_of(sr)
    } else {
        spec_round32(sr, sig_of(a) * sig_of(b), pexp_of(a) + pexp_of(b))
    }
}

/// IEEE-754 multiplication, executable.
pub fn mul32(a: u32, b: u32) -> (r: u32)
    ensures
        r == spec_mul32(a, b),
{
    let ma = a % 0x8000_0000;
    let mb_ = b % 0x8000_0000;
    let sr = (a >= 0x8000_0000) != (b >= 0x8000_0000);
    if ma > INF32 || mb_ > INF32 {
        return QNAN32;
    }
    if ma == INF32 || mb_ == INF32 {
        if ma == 0 || mb_ == 0 {
            return QNAN32;
        }
        return if sr { 0xff80_0000u32 } else { 0x7f80_0000u32 };
    }
    if ma == 0 || mb_ == 0 {
        return if sr { 0x8000_0000u32 } else { 0u32 };
    }
    let (_, siga, ea) = decode32(a);
    let (_, sigb, eb) = decode32(b);
    assert(siga * sigb < 0x40_0000_0000_0000) by (nonlinear_arith)
        requires siga < 0x100_0000 && sigb < 0x100_0000;
    let prod: u64 = siga * sigb;
    round32(sr, prod, ea + eb)
}

// ---------------------------------------------------------------------------
// Division
// ---------------------------------------------------------------------------

/// Double a subnormal significand up to normal range (exact).
pub open spec fn norm_sig(s: nat, e: int) -> (nat, int)
    decreases (if s < 0x80_0000 { (0x80_0000 - s) as int } else { 0int }),
{
    if s == 0 || s >= 0x80_0000 {
        (s, e)
    } else {
        norm_sig(2 * s, e - 1)
    }
}

pub open spec fn spec_div_finite(a: u32, b: u32) -> u32 {
    let sr = sign_of(a) != sign_of(b);
    let na = norm_sig(sig_of(a), pexp_of(a));
    let nb = norm_sig(sig_of(b), pexp_of(b));
    let q = (na.0 * 0x400_0000) / nb.0;
    let rem = (na.0 * 0x400_0000) % nb.0;
    let qs = if rem > 0 && q % 2 == 0 { q + 1 } else { q };
    spec_round32(sr, qs, na.1 - nb.1 - 26)
}

pub open spec fn spec_div32(a: u32, b: u32) -> u32 {
    let sr = sign_of(a) != sign_of(b);
    if is_nan32(a) || is_nan32(b) {
        QNAN32
    } else if is_inf32(a) {
        if is_inf32(b) { QNAN32 } else { inf_of(sr) }
    } else if is_inf32(b) {
        zero_of(sr)
    } else if is_zero32(b) {
        if is_zero32(a) { QNAN32 } else { inf_of(sr) }
    } else if is_zero32(a) {
        zero_of(sr)
    } else {
        spec_div_finite(a, b)
    }
}

/// Executable exact normalization of a significand, matching `norm_sig`.
pub(crate) fn norm_sig_e(s0: u64, e0: i64) -> (r: (u64, i64))
    requires
        1 <= s0 < 0x100_0000,
        -149 <= e0 <= 104,
    ensures
        (r.0 as nat, r.1 as int) == norm_sig(s0 as nat, e0 as int),
        0x80_0000 <= r.0 < 0x100_0000,
        -200 <= r.1 <= 104,
{
    let mut s = s0;
    let mut e = e0;
    while s < 0x80_0000
        invariant
            1 <= s < 0x100_0000,
            -149 <= e0 <= 104,
            e <= e0,
            p2((e0 - e) as nat) <= s as nat,
            norm_sig(s as nat, e as int) == norm_sig(s0 as nat, e0 as int),
        decreases (if s < 0x80_0000 { (0x80_0000 - s) as int } else { 0int }),
    {
        proof {
            lemma_p2_bound_23((e0 - e) as nat, s as nat);
        }
        assert(e0 - e <= 23);
        s = s * 2;
        e = e - 1;
        assert(p2((e0 - e) as nat) == 2 * p2((e0 - e - 1) as nat));
    }
    proof {
        lemma_p2_bound_23((e0 - e) as nat, s as nat);
    }
    assert(e >= e0 - 23);
    (s, e)
}

/// A significand below 2^24 bounds how many doublings can have happened.
proof fn lemma_p2_bound_23(k: nat, s: nat)
    requires
        p2(k) <= s,
        s < 0x100_0000,
    ensures
        k <= 23,
{
    if k > 23 {
        lemma_p2_le(24, k);
        assert(p2(24) == 0x100_0000) by {
            reveal_with_fuel(p2, 26);
        }
    }
}

/// IEEE-754 division, executable.
pub fn div32(a: u32, b: u32) -> (r: u32)
    ensures
        r == spec_div32(a, b),
{
    let ma = a % 0x8000_0000;
    let mb_ = b % 0x8000_0000;
    let sr = (a >= 0x8000_0000) != (b >= 0x8000_0000);
    if ma > INF32 || mb_ > INF32 {
        return QNAN32;
    }
    if ma == INF32 {
        if mb_ == INF32 {
            return QNAN32;
        }
        return if sr { 0xff80_0000u32 } else { 0x7f80_0000u32 };
    }
    if mb_ == INF32 {
        return if sr { 0x8000_0000u32 } else { 0u32 };
    }
    if mb_ == 0 {
        if ma == 0 {
            return QNAN32;
        }
        return if sr { 0xff80_0000u32 } else { 0x7f80_0000u32 };
    }
    if ma == 0 {
        return if sr { 0x8000_0000u32 } else { 0u32 };
    }
    let (_, siga0, ea0) = decode32(a);
    let (_, sigb0, eb0) = decode32(b);
    let (siga, ea) = norm_sig_e(siga0, ea0);
    let (sigb, eb) = norm_sig_e(sigb0, eb0);
    assert(siga * 0x400_0000 < 0x4000_0000_0000_0000) by (nonlinear_arith)
        requires siga < 0x100_0000;
    let num: u64 = siga * 0x400_0000;
    let q = num / sigb;
    let rem = num % sigb;
    assert(q < 0x8_0000_0000_0000) by (nonlinear_arith)
        requires q == num as nat / sigb as nat && num < 0x4000_0000_0000_0000 && sigb >= 0x80_0000;
    let qs = if rem > 0 && q % 2 == 0 { q + 1 } else { q };
    round32(sr, qs, ea - eb - 26)
}

// ---------------------------------------------------------------------------
// Square root
// ---------------------------------------------------------------------------

/// Integer square root: the greatest q with q*q <= n.
pub open spec fn spec_isqrt(n: nat) -> nat
    decreases n,
{
    if n == 0 {
        0
    } else {
        let r = 2 * spec_isqrt(n / 4);
        if (r + 1) * (r + 1) <= n { r + 1 } else { r }
    }
}

pub proof fn lemma_isqrt_bounds(n: nat)
    ensures
        spec_isqrt(n) * spec_isqrt(n) <= n,
        n < (spec_isqrt(n) + 1) * (spec_isqrt(n) + 1),
    decreases n,
{
    reveal_with_fuel(spec_isqrt, 2);
    if n == 0 {
        assert(spec_isqrt(n) == 0);
        assert(spec_isqrt(n) * spec_isqrt(n) <= n) by (nonlinear_arith)
            requires spec_isqrt(n) == 0;
        assert(n < (spec_isqrt(n) + 1) * (spec_isqrt(n) + 1)) by (nonlinear_arith)
            requires spec_isqrt(n) == 0;
    } else {
        lemma_isqrt_bounds(n / 4);
        let h = spec_isqrt(n / 4);
        let r = 2 * h;
        assert(4 * (n / 4) <= n && n < 4 * (n / 4) + 4);
        assert(r * r <= n) by (nonlinear_arith)
            requires h * h <= n / 4 && r == 2 * h && 4 * (n / 4) <= n;
        assert(n < (r + 2) * (r + 2)) by (nonlinear_arith)
            requires n / 4 < (h + 1) * (h + 1) && r == 2 * h && n < 4 * (n / 4) + 4;
        if (r + 1) * (r + 1) <= n {
            assert(spec_isqrt(n) == r + 1);
            assert(spec_isqrt(n) * spec_isqrt(n) <= n);
            assert(n < (spec_isqrt(n) + 1) * (spec_isqrt(n) + 1));
        } else {
            assert(spec_isqrt(n) == r);
            assert(spec_isqrt(n) * spec_isqrt(n) <= n);
            assert(n < (spec_isqrt(n) + 1) * (spec_isqrt(n) + 1));
        }
    }
}

pub open spec fn spec_sqrt_finite(a: u32) -> u32 {
    let na = norm_sig(sig_of(a), pexp_of(a));
    let even = (na.1 + 200) % 2 == 0;
    let m2 = if even { na.0 } else { na.0 * 2 };
    let e2 = if even { na.1 } else { na.1 - 1 };
    let x = m2 * 0x1000_0000;
    let s = spec_isqrt(x);
    let ss = if s * s < x && s % 2 == 0 { s + 1 } else { s };
    spec_round32(false, ss, (e2 + 200) / 2 - 114)
}

pub open spec fn spec_sqrt32(a: u32) -> u32 {
    if is_nan32(a) {
        QNAN32
    } else if is_zero32(a) {
        a
    } else if sign_of(a) {
        QNAN32
    } else if is_inf32(a) {
        a
    } else {
        spec_sqrt_finite(a)
    }
}

/// IEEE-754 square root, executable.
pub fn sqrt32(a: u32) -> (r: u32)
    ensures
        r == spec_sqrt32(a),
{
    let ma = a % 0x8000_0000;
    if ma > INF32 {
        return QNAN32;
    }
    if ma == 0 {
        return a;
    }
    if a >= 0x8000_0000 {
        return QNAN32;
    }
    if ma == INF32 {
        return a;
    }
    let (_, sig0, e0) = decode32(a);
    let (m1, e1) = norm_sig_e(sig0, e0);
    let even = (e1 + 200) % 2 == 0;
    let me2: i64 = if even { e1 } else { e1 - 1 };
    let m2: u64 = if even { m1 } else { m1 * 2 };
    let x: u64 = m2 * 0x1000_0000;
    assert(x < 0x40_0000_0000_0000) by (nonlinear_arith)
        requires x == m2 * 0x1000_0000u64 && m2 < 0x200_0000;
    let s = isqrt_u64(x);
    assert(s * s <= 0x40_0000_0000_0000) by (nonlinear_arith)
        requires s <= 0x800_0000u64;
    let ss = if s * s < x && s % 2 == 0 { s + 1 } else { s };
    let eh: i64 = (me2 + 200) / 2 - 114;
    assert(me2 + 200 >= 0);
    assert(eh as int == (me2 as int + 200) / 2 - 114);
    round32(false, ss, eh)
}

/// Executable integer square root by bisection.
fn isqrt_u64(x: u64) -> (r: u64)
    requires
        x < 0x40_0000_0000_0000,
    ensures
        r as nat == spec_isqrt(x as nat),
        r <= 0x800_0000,
        r * r <= x,
{
    proof {
        lemma_isqrt_bounds(x as nat);
    }
    let mut lo: u64 = 0;
    let mut hi: u64 = 0x800_0000;
    assert(hi * hi > x);
    while hi - lo > 1
        invariant
            lo < hi <= 0x800_0000,
            lo * lo <= x,
            (x as nat) < hi * hi,
        decreases hi - lo,
    {
        let mid = lo + (hi - lo) / 2;
        assert(mid * mid <= 0x800_0000 * 0x800_0000) by (nonlinear_arith)
            requires mid <= 0x800_0000u64;
        if mid * mid <= x {
            lo = mid;
        } else {
            hi = mid;
        }
    }
    proof {
        let q = spec_isqrt(x as nat);
        assert(q * q <= x as nat);
        assert((x as nat) < (q + 1) * (q + 1));
        if (lo as nat) > q {
            assert((q + 1) * (q + 1) <= (lo as nat) * (lo as nat)) by (nonlinear_arith)
                requires q + 1 <= lo as nat;
            assert(false);
        }
        if q > lo as nat {
            assert(hi == lo + 1);
            assert((hi as nat) * (hi as nat) <= q * q) by (nonlinear_arith)
                requires hi as nat <= q;
            assert(false);
        }
    }
    lo
}

// ---------------------------------------------------------------------------
// Comparison, maximum, minimum, ordering key
// ---------------------------------------------------------------------------

/// Value order `a < b` (false if either is NaN; -0 equals +0).
pub open spec fn spec_lt32(a: u32, b: u32) -> bool {
    if is_nan32(a) || is_nan32(b) {
        false
    } else if mag_of(a) == 0 && mag_of(b) == 0 {
        false
    } else if sign_of(a) != sign_of(b) {
        sign_of(a)
    } else if !sign_of(a) {
        mag_of(a) < mag_of(b)
    } else {
        mag_of(b) < mag_of(a)
    }
}

/// Value equality (false if either is NaN; -0 equals +0).
pub open spec fn spec_eqv32(a: u32, b: u32) -> bool {
    if is_nan32(a) || is_nan32(b) {
        false
    } else if mag_of(a) == 0 && mag_of(b) == 0 {
        true
    } else {
        a == b
    }
}

pub open spec fn spec_le32(a: u32, b: u32) -> bool {
    spec_lt32(a, b) || spec_eqv32(a, b)
}

pub fn lt32(a: u32, b: u32) -> (r: bool)
    ensures
        r == spec_lt32(a, b),
{
    let ma = a % 0x8000_0000;
    let mb = b % 0x8000_0000;
    if ma > INF32 || mb > INF32 {
        false
    } else if ma == 0 && mb == 0 {
        false
    } else if (a >= 0x8000_0000) != (b >= 0x8000_0000) {
        a >= 0x8000_0000
    } else if a < 0x8000_0000 {
        ma < mb
    } else {
        mb < ma
    }
}

pub fn le32(a: u32, b: u32) -> (r: bool)
    ensures
        r == spec_le32(a, b),
{
    let ma = a % 0x8000_0000;
    let mb = b % 0x8000_0000;
    if ma > INF32 || mb > INF32 {
        false
    } else if ma == 0 && mb == 0 {
        true
    } else if a == b {
        true
    } else {
        lt32(a, b)
    }
}

/// `f32::max` semantics: a NaN argument yields the other argument.
pub open spec fn spec_max32(a: u32, b: u32) -> u32 {
    if is_nan32(a) {
        b
    } else if is_nan32(b) {
        a
    } else if spec_lt32(a, b) {
        b
    } else {
        a
    }
}

pub fn max32(a: u32, b: u32) -> (r: u32)
    ensures
        r == spec_max32(a, b),
{
    if is_nan32_e(a) {
        b
    } else if is_nan32_e(b) {
        a
    } else if lt32(a, b) {
        b
    } else {
        a
    }
}

/// `f32::min` semantics: a NaN argument yields the other argument.
pub open spec fn spec_min32(a: u32, b: u32) -> u32 {
    if is_nan32(a) {
        b
    } else if is_nan32(b) {
        a
    } else if spec_lt32(b, a) {
        b
    } else {
        a
    }
}

pub fn min32(a: u32, b: u32) -> (r: u32)
    ensures
        r == spec_min32(a, b),
{
    if is_nan32_e(a) {
        b
    } else if is_nan32_e(b) {
        a
    } else if lt32(b, a) {
        b
    } else {
        a
    }
}

/// Total sort key: monotone in value on non-NaN patterns, every NaN greatest,
/// -0 and +0 equal.  Used to order search results.
pub open spec fn spec_key32(b: u32) -> u32 {
    if is_nan32(b) {
        0xffff_ffffu32
    } else if sign_of(b) {
        (INF32 - mag_of(b)) as u32
    } else {
        (INF32 + mag_of(b)) as u32
    }
}

pub fn key32(b: u32) -> (r: u32)
    ensures
        r == spec_key32(b),
{
    let m = b % 0x8000_0000;
    if m > INF32 {
        0xffff_ffffu32
    } else if b >= 0x8000_0000 {
        INF32 - m
    } else {
        INF32 + m
    }
}

/// The sort key orders exactly as the value order on non-NaN patterns.
pub proof fn lemma_key32_order(a: u32, b: u32)
    requires
        !is_nan32(a),
        !is_nan32(b),
    ensures
        spec_key32(a) <= spec_key32(b) <==> spec_le32(a, b),
        spec_key32(a) < spec_key32(b) <==> spec_lt32(a, b),
{
}

/// Convert a small unsigned integer count to its binary32 pattern.
pub fn from_u32(n: u32) -> (r: u32)
    ensures
        r == spec_round32(false, n as nat, 0),
{
    round32(false, n as u64, 0)
}

} // verus!
