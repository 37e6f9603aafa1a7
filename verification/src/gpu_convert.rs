//! Precision conversion for the accelerated distance path.
//!
//! Inputs arrive as binary32 bit patterns.  The fp32 route reinterprets them
//! as little-endian bytes; the fp16 route narrows to half precision; the
//! int8 route scales by 127 in binary32 and clamps to [-128, 127].  A
//! non-finite source value converts to zero instead of propagating.

use vstd::prelude::*;
use crate::errors::GpuError;
use crate::float_bits::{
    is_finite32, mag_of, sign_of, sig_of, pexp_of, p2, compress1, denorm, spec_mul32, spec_lt32,
    mul32, lt32, lemma_p2_le, lemma_p2_pos, lemma_mul32_not_nan,
};

verus! {

/// Bit pattern of 127.0, the int8 quantization scale.
pub const SCALE127_32: u32 = 0x42fe_0000;
/// Bit pattern of -128.0, the lower clamp of the int8 range.
pub const NEG128_32: u32 = 0xc300_0000;

/// The numeric representations the accelerated path computes in.
#[derive(Clone, Copy, Debug, PartialEq, Eq, Structural)]
pub enum Precision {
    Fp32,
    Fp16,
    Int8,
}

impl Precision {
    /// Bytes per element in this representation.
    pub fn element_size(&self) -> (r: usize)
        ensures
            r == spec_element_size(*self),
    {
        match self {
            Precision::Fp32 => 4,
            Precision::Fp16 => 2,
            Precision::Int8 => 1,
        }
    }
}

pub open spec fn spec_element_size(p: Precision) -> usize {
    match p {
        Precision::Fp32 => 4usize,
        Precision::Fp16 => 2usize,
        Precision::Int8 => 1usize,
    }
}

/// Truncation toward zero of a finite pattern (as used after the clamp, its
/// exponent is negative and the value fits in a byte).
pub open spec fn spec_trunc32(b: u32) -> int {
    let m = if pexp_of(b) >= 0 {
        sig_of(b) * p2(pexp_of(b) as nat)
    } else {
        sig_of(b) / p2((-pexp_of(b)) as nat)
    };
    if b >= 0x8000_0000 {
        -(m as int)
    } else {
        m as int
    }
}

/// The int8 quantization: scale by 127 in binary32, clamp to [-128, 127],
/// truncate; NaN and the infinities quantize to zero.
pub open spec fn spec_quantize_i8(x: u32) -> int {
    if !is_finite32(x) {
        0int
    } else {
        let v = spec_mul32(x, SCALE127_32);
        if spec_lt32(v, NEG128_32) {
            -128int
        } else if spec_lt32(SCALE127_32, v) {
            127int
        } else {
            spec_trunc32(v)
        }
    }
}

/// Quantize one binary32 pattern to int8.
#[verifier::rlimit(100)]
#[verifier::spinoff_prover]
pub fn quantize_i8(x: u32) -> (r: i8)
    ensures
        r as int == spec_quantize_i8(x),
        !is_finite32(x) ==> r == 0,
{
    if x % 0x8000_0000 >= 0x7f80_0000 {
        return 0;
    }
    let v = mul32(x, SCALE127_32);
    if lt32(v, NEG128_32) {
        return -128;
    }
    if lt32(SCALE127_32, v) {
        return 127;
    }
    let neg = v >= 0x8000_0000;
    let mv = v % 0x8000_0000;
    if mv == 0 {
        assert(sig_of(v) == 0);
        assert(spec_trunc32(v) == 0) by {
            if pexp_of(v) >= 0 {
                assert(sig_of(v) * p2(pexp_of(v) as nat) == 0) by (nonlinear_arith)
                    requires sig_of(v) == 0;
            } else {
                lemma_p2_pos((-pexp_of(v)) as nat);
            }
        }
        return 0;
    }
    let e = (mv / 0x80_0000) % 256;
    let f = mv % 0x80_0000;
    let sig: u64 = if e == 0 { f as u64 } else { (f + 0x80_0000) as u64 };
    let pe: i64 = (if e == 0 { 1i64 } else { e as i64 }) - 150;
    // the clamp bounds the magnitude by 128, so the exponent field is at
    // most 0x86 and the scaled significand divides down
    proof {
        lemma_mul32_not_nan(x, SCALE127_32);
        assert(!crate::float_bits::is_nan32(v));
        if v >= 0x8000_0000 {
            assert(!spec_lt32(v, NEG128_32));
            assert(mag_of(v) <= 0x4300_0000);
        } else {
            assert(!spec_lt32(SCALE127_32, v));
            assert(mag_of(v) <= 0x42fe_0000);
        }
    }
    assert(mv <= 0x4300_0000);
    assert(e <= 0x86);
    assert(pe <= -16);
    assert(sig as nat == sig_of(v) && pe as int == pexp_of(v));
    let mut m: u64 = sig;
    let mut j: i64 = pe;
    proof {
        assert(p2(0) == 1);
        assert(sig as nat / 1 == sig as nat);
    }
    while j < 0
        invariant
            pe <= j <= 0,
            m as nat == sig as nat / p2((j - pe) as nat),
            sig < 0x100_0000,
        decreases -j,
    {
        proof {
            let c = (j - pe) as nat;
            assert(p2(c + 1) == 2 * p2(c));
            lemma_p2_pos(c);
            vstd::arithmetic::div_mod::lemma_div_denominator(
                sig as int,
                p2(c) as int,
                2,
            );
        }
        m = m / 2;
        j = j + 1;
    }
    proof {
        assert(m as nat == sig as nat / p2((-pe) as nat));
        // value bound from the clamp: at most 127 positive, 128 negative
        lemma_p2_pos((-pe) as nat);
        vstd::arithmetic::div_mod::lemma_fundamental_div_mod(sig as int, p2((-pe) as nat) as int);
        if e <= 0x84 {
            lemma_p2_le(18, (-pe) as nat);
            assert(p2(18) == 0x4_0000) by {
                reveal_with_fuel(p2, 20);
            }
            if m >= 128 {
                assert(m as nat * p2((-pe) as nat) <= sig) by (nonlinear_arith)
                    requires
                        m as nat == sig as nat / p2((-pe) as nat) && p2((-pe) as nat) >= 1;
                assert(m as nat * p2((-pe) as nat) >= 128 * 0x4_0000) by (nonlinear_arith)
                    requires m >= 128u64 && p2((-pe) as nat) >= 0x4_0000;
                assert(false);
            }
        } else if e == 0x85 {
            // magnitude below 128: the fraction is at most 0x7e0000
            assert(!neg ==> mv <= 0x42fe_0000);
            assert(neg ==> mv <= 0x4300_0000);
            assert(f <= 0x7f_ffff);
            assert(sig <= 0xff_ffff);
            assert(p2(17) == 0x2_0000) by {
                reveal_with_fuel(p2, 19);
            }
            assert((-pe) == 17);
            assert(m as nat == sig as nat / 0x2_0000);
            assert(m <= 127) by (nonlinear_arith)
                requires m as nat == sig as nat / 0x2_0000 && sig <= 0xff_ffffu64;
        } else {
            // e == 0x86 forces the fraction to zero: the value is exactly 128
            assert(mv <= 0x4300_0000);
            assert(f == 0);
            assert(neg);
            assert(sig == 0x80_0000);
            assert(p2(16) == 0x1_0000) by {
                reveal_with_fuel(p2, 18);
            }
            assert((-pe) == 16);
            assert(m as nat == sig as nat / p2(16));
            assert(m == 128) by (nonlinear_arith)
                requires m as nat == sig as nat / p2(16) && sig == 0x80_0000u64
                    && p2(16) == 0x1_0000;
        }
        assert(neg ==> m <= 128);
        assert(!neg ==> m <= 127);
    }
    if neg {
        let t: i16 = m as i16;
        (-t) as i8
    } else {
        m as i8
    }
}

/// The bytes are the little-endian binary32 patterns, four per element.
pub open spec fn bytes_are_f32_le(xs: Seq<u32>, b: Seq<u8>) -> bool {
    &&& b.len() == 4 * xs.len()
    &&& forall|i: int|
        0 <= i < xs.len() ==> {
            &&& b[4 * i] == (#[trigger] xs[i]) % 256
            &&& b[4 * i + 1] == (xs[i] / 256) % 256
            &&& b[4 * i + 2] == (xs[i] / 65536) % 256
            &&& b[4 * i + 3] == (xs[i] / 16777216) % 256
        }
}

/// The bytes are the little-endian half narrowings, two per element.
pub open spec fn bytes_are_f16_le(xs: Seq<u32>, b: Seq<u8>) -> bool {
    &&& b.len() == 2 * xs.len()
    &&& forall|i: int|
        0 <= i < xs.len() ==> {
            &&& b[2 * i] == spec_f16_of_bits(#[trigger] xs[i]) % 256
            &&& b[2 * i + 1] == spec_f16_of_bits(xs[i]) / 256
        }
}

/// The bytes are the int8 quantizations, one per element.
pub open spec fn bytes_are_i8(xs: Seq<u32>, b: Seq<u8>) -> bool {
    &&& b.len() == xs.len()
    &&& forall|i: int| 0 <= i < xs.len() ==> #[trigger] b[i] == spec_quantize_i8(xs[i]) as u8
}

/// Little-endian bytes of binary32 patterns, four per element.
pub fn f32_bits_to_bytes(xs: &Vec<u32>) -> (r: Vec<u8>)
    ensures
        bytes_are_f32_le(xs@, r@),
{
    let mut out: Vec<u8> = Vec::new();
    let mut i: usize = 0;
    while i < xs.len()
        invariant
            i <= xs@.len(),
            out@.len() == 4 * i,
            forall|j: int|
                0 <= j < i ==> {
                    &&& out@[4 * j] == (#[trigger] xs@[j]) % 256
                    &&& out@[4 * j + 1] == (xs@[j] / 256) % 256
                    &&& out@[4 * j + 2] == (xs@[j] / 65536) % 256
                    &&& out@[4 * j + 3] == (xs@[j] / 16777216) % 256
                },
        decreases xs@.len() - i,
    {
        let x = xs[i];
        out.push((x % 256) as u8);
        out.push(((x / 256) % 256) as u8);
        out.push(((x / 65536) % 256) as u8);
        out.push(((x / 16777216) % 256) as u8);
        i = i + 1;
    }
    out
}

/// Repeated sticky halving until the significand is below 2^13.
pub open spec fn norm_down16(s: nat, e: int) -> (nat, int)
    decreases s,
{
    if s < 0x2000 {
        (s, e)
    } else {
        norm_down16(compress1(s), e + 1)
    }
}

/// Repeated doubling until the significand reaches 2^12 (exact).
pub open spec fn norm_up16(s: nat, e: int) -> (nat, int)
    decreases (if s < 0x1000 { (0x1000 - s) as int } else { 0int }),
{
    if s == 0 || s >= 0x1000 {
        (s, e)
    } else {
        norm_up16(2 * s, e - 1)
    }
}

/// Round a 13-bit significand (two sub-ulp bits) at half-precision biased
/// exponent `eb`; the sign bit is applied by the caller.
pub open spec fn round_finish16(s: nat, eb: int) -> u16
    recommends
        s < 0x2000,
        1 <= eb,
{
    let m = s / 4;
    let r = (s / 2) % 2;
    let st = s % 2;
    let up: nat = if r == 1 && (st == 1 || m % 2 == 1) { 1nat } else { 0nat };
    let m2 = m + up;
    let m3 = if m2 == 0x800 { 0x400nat } else { m2 };
    let eb2 = if m2 == 0x800 { eb + 1 } else { eb };
    if m3 == 0 {
        0u16
    } else if eb2 >= 31 {
        0x7c00u16
    } else if m3 < 0x400 {
        m3 as u16
    } else {
        (eb2 * 0x400 + (m3 - 0x400)) as u16
    }
}

/// Round-to-nearest-even of `s * 2^e` into the half-precision magnitude
/// bits, overflow saturating to the half infinity.
pub open spec fn spec_round16(s: nat, e: int) -> u16 {
    if s == 0 {
        0u16
    } else {
        let nd = norm_down16(s, e);
        let nu = norm_up16(nd.0, nd.1);
        let eb = nu.1 + 27;
        if eb >= 1 {
            round_finish16(nu.0, eb)
        } else {
            round_finish16(denorm(nu.0, (1 - eb) as nat), 1)
        }
    }
}

/// The half-precision narrowing of a binary32 pattern: NaN and the
/// infinities narrow to zero, zero keeps its sign, and every finite value
/// rounds to nearest-even with overflow at the half infinity.
pub open spec fn spec_f16_of_bits(x: u32) -> u16 {
    if !is_finite32(x) {
        0u16
    } else if mag_of(x) == 0 {
        if sign_of(x) { 0x8000u16 } else { 0u16 }
    } else {
        let h = spec_round16(sig_of(x), pexp_of(x));
        if sign_of(x) { (0x8000 + h) as u16 } else { h }
    }
}

/// The half-precision rounder never leaves the magnitude range.
proof fn lemma_round16_range(s: nat, e: int)
    ensures
        spec_round16(s, e) <= 0x7c00,
{
    if s != 0 {
        lemma_norm_down16_range(s, e);
        let nd = norm_down16(s, e);
        lemma_norm_up16_range(nd.0, nd.1);
        let nu = norm_up16(nd.0, nd.1);
        let eb = nu.1 + 27;
        if eb >= 1 {
        } else {
            lemma_denorm16_range(nu.0, (1 - eb) as nat);
        }
    }
}

proof fn lemma_norm_down16_range(s: nat, e: int)
    requires
        s >= 1,
    ensures
        1 <= norm_down16(s, e).0 < 0x2000,
    decreases s,
{
    if s >= 0x2000 {
        lemma_norm_down16_range(compress1(s), e + 1);
    }
}

proof fn lemma_norm_up16_range(s: nat, e: int)
    requires
        1 <= s < 0x2000,
    ensures
        0x1000 <= norm_up16(s, e).0 < 0x2000,
    decreases (if s < 0x1000 { (0x1000 - s) as int } else { 0int }),
{
    if s < 0x1000 {
        lemma_norm_up16_range(2 * s, e - 1);
    }
}

proof fn lemma_denorm16_range(s: nat, k: nat)
    requires
        s < 0x2000,
    ensures
        denorm(s, k) < 0x2000,
    decreases k,
{
    if k > 0 {
        lemma_denorm16_range(compress1(s), (k - 1) as nat);
    }
}

/// Executable half-precision rounding matching `spec_round16`.
fn round16(s0: u64, e0: i64) -> (r: u16)
    requires
        -2000 <= e0 <= 2000,
        s0 < 0x40_0000_0000_0000,
    ensures
        r == spec_round16(s0 as nat, e0 as int),
{
    if s0 == 0 {
        return 0;
    }
    let mut s: u64 = s0;
    let mut e: i64 = e0;
    while s >= 0x2000
        invariant
            -2000 <= e0 <= 2000,
            s0 < 0x40_0000_0000_0000,
            1 <= s <= s0,
            e - e0 <= s0 - s,
            e0 <= e,
            norm_down16(s as nat, e as int) == norm_down16(s0 as nat, e0 as int),
        decreases s,
    {
        let h = s / 2;
        let s2 = if h % 2 == 0 && s % 2 == 1 { h + 1 } else { h };
        assert(s2 as nat == compress1(s as nat));
        assert(s2 < s);
        s = s2;
        e = e + 1;
    }
    assert(norm_down16(s as nat, e as int) == (s as nat, e as int));
    let ghost e_mid = e as int;
    while s < 0x1000
        invariant
            1 <= s < 0x2000,
            -2000 <= e0 <= 2000,
            e0 <= e_mid,
            e <= e_mid,
            e_mid <= e0 + 0x40_0000_0000_0000,
            p2((e_mid - e) as nat) <= s as nat,
            norm_up16(s as nat, e as int) == norm_up16(
                norm_down16(s0 as nat, e0 as int).0,
                norm_down16(s0 as nat, e0 as int).1,
            ),
        decreases (if s < 0x1000 { (0x1000 - s) as int } else { 0int }),
    {
        proof {
            lemma_p2_bound_13((e_mid - e) as nat, s as nat);
        }
        assert(e_mid - e <= 13);
        s = s * 2;
        e = e - 1;
        assert(p2((e_mid - e) as nat) == 2 * p2((e_mid - e - 1) as nat));
    }
    proof {
        lemma_p2_bound_13((e_mid - e) as nat, s as nat);
    }
    assert(e >= e_mid - 13);
    let mut eb: i64 = e + 27;
    if eb < 1 {
        let k: i64 = 1 - eb;
        let ghost s_entry = s as nat;
        let mut j: i64 = 0;
        while j < k
            invariant
                0 <= j <= k <= 3000,
                s < 0x2000,
                denorm(s as nat, (k - j) as nat) == denorm(s_entry, k as nat),
            decreases k - j,
        {
            let h = s / 2;
            let s2 = if h % 2 == 0 && s % 2 == 1 { h + 1 } else { h };
            assert(s2 as nat == compress1(s as nat));
            s = s2;
            j = j + 1;
        }
        assert(s as nat == denorm(s_entry, k as nat));
        eb = 1;
    }
    let m = s / 4;
    let r_ = (s / 2) % 2;
    let st = s % 2;
    let up: u64 = if r_ == 1 && (st == 1 || m % 2 == 1) { 1 } else { 0 };
    let m2 = m + up;
    let m3 = if m2 == 0x800 { 0x400u64 } else { m2 };
    let eb2 = if m2 == 0x800 { eb + 1 } else { eb };
    if m3 == 0 {
        0u16
    } else if eb2 >= 31 {
        0x7c00u16
    } else if m3 < 0x400 {
        m3 as u16
    } else {
        (eb2 as u16) * 0x400 + ((m3 - 0x400) as u16)
    }
}

/// A significand below 2^13 bounds how many doublings can have happened.
proof fn lemma_p2_bound_13(k: nat, s: nat)
    requires
        p2(k) <= s,
        s < 0x2000,
    ensures
        k <= 13,
{
    if k > 13 {
        lemma_p2_le(13, k);
        assert(p2(13) == 0x2000) by {
            reveal_with_fuel(p2, 15);
        }
    }
}

/// Narrow one binary32 pattern to half precision, matching
/// `spec_f16_of_bits`.
pub fn f32_to_f16_bits(x: u32) -> (r: u16)
    ensures
        r == spec_f16_of_bits(x),
        !is_finite32(x) ==> r == 0,
        x % 0x8000_0000 == 0 ==> r == (if x >= 0x8000_0000 { 0x8000u16 } else { 0u16 }),
{
    let m = x % 0x8000_0000;
    if m >= 0x7f80_0000 {
        return 0;
    }
    let sbit: u16 = if x >= 0x8000_0000 { 0x8000 } else { 0 };
    if m == 0 {
        return sbit;
    }
    let e = (m / 0x80_0000) % 256;
    let f = m % 0x80_0000;
    let sig: u64 = if e == 0 { f as u64 } else { (f + 0x80_0000) as u64 };
    let pe: i64 = (if e == 0 { 1i64 } else { e as i64 }) - 150;
    assert(sig as nat == sig_of(x) && pe as int == pexp_of(x));
    let h = round16(sig, pe);
    proof {
        lemma_round16_range(sig as nat, pe as int);
    }
    sbit + h
}

/// Convert query and corpus patterns to the requested precision as byte
/// buffers; empty inputs are refused.
pub fn convert_data(queries: &Vec<u32>, corpus: &Vec<u32>, precision: Precision) -> (r: Result<
    (Vec<u8>, Vec<u8>),
    GpuError,
>)
    ensures
        r is Ok <==> (queries@.len() > 0 && corpus@.len() > 0),
        r matches Err(e) ==> e is InvalidInput,
        r matches Ok(p) ==> p.0@.len() == queries@.len() * spec_element_size(precision)
            && p.1@.len() == corpus@.len() * spec_element_size(precision),
        precision == Precision::Fp32 ==> (r matches Ok(p) ==> bytes_are_f32_le(queries@, p.0@)
            && bytes_are_f32_le(corpus@, p.1@)),
        precision == Precision::Fp16 ==> (r matches Ok(p) ==> bytes_are_f16_le(queries@, p.0@)
            && bytes_are_f16_le(corpus@, p.1@)),
        precision == Precision::Int8 ==> (r matches Ok(p) ==> bytes_are_i8(queries@, p.0@)
            && bytes_are_i8(corpus@, p.1@)),
{
    if queries.len() == 0 || corpus.len() == 0 {
        return Err(GpuError::InvalidInput("input arrays must not be empty".to_string()));
    }
    match precision {
        Precision::Fp32 => {
            assert(spec_element_size(precision) == 4);
            let a = f32_bits_to_bytes(queries);
            let b = f32_bits_to_bytes(corpus);
            assert(a@.len() == queries@.len() * 4);
            Ok((a, b))
        },
        Precision::Fp16 => {
            assert(spec_element_size(precision) == 2);
            let a = f16_bytes(queries);
            let b = f16_bytes(corpus);
            assert(a@.len() == queries@.len() * 2);
            Ok((a, b))
        },
        Precision::Int8 => {
            assert(spec_element_size(precision) == 1);
            Ok((i8_bytes(queries), i8_bytes(corpus)))
        },
    }
}

/// Two little-endian bytes per element after narrowing to half precision.
fn f16_bytes(xs: &Vec<u32>) -> (r: Vec<u8>)
    ensures
        bytes_are_f16_le(xs@, r@),
{
    let mut out: Vec<u8> = Vec::new();
    let mut i: usize = 0;
    while i < xs.len()
        invariant
            i <= xs@.len(),
            out@.len() == 2 * i,
            forall|j: int|
                0 <= j < i ==> {
                    &&& out@[2 * j] == spec_f16_of_bits(#[trigger] xs@[j]) % 256
                    &&& out@[2 * j + 1] == spec_f16_of_bits(xs@[j]) / 256
                },
        decreases xs@.len() - i,
    {
        let h = f32_to_f16_bits(xs[i]);
        out.push((h % 256) as u8);
        out.push((h / 256) as u8);
        i = i + 1;
    }
    out
}

/// One byte per element after int8 quantization (two's complement).
fn i8_bytes(xs: &Vec<u32>) -> (r: Vec<u8>)
    ensures
        bytes_are_i8(xs@, r@),
{
    let mut out: Vec<u8> = Vec::new();
    let mut i: usize = 0;
    while i < xs.len()
        invariant
            i <= xs@.len(),
            out@.len() == i,
            forall|j: int|
                0 <= j < i ==> #[trigger] out@[j] == spec_quantize_i8(xs@[j]) as u8,
        decreases xs@.len() - i,
    {
        let q = quantize_i8(xs[i]);
        out.push(q as u8);
        i = i + 1;
    }
    out
}

} // verus!
