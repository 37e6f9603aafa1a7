//! Distance kernels over binary32 bit patterns.
//!
//! Each kernel folds over the two vectors exactly as single-precision
//! hardware would: every intermediate is rounded to binary32 by the model in
//! `float_bits`, in left-to-right order.  The spec functions below state that
//! fold, so the executable kernels are proved to compute precisely the
//! sequence of IEEE operations that defines each metric.

use vstd::prelude::*;
use crate::float_bits::{
    ONE32, TWO32, HALF32,
    spec_add32, spec_sub32, spec_mul32, spec_div32, spec_sqrt32, spec_abs32,
    spec_max32, spec_min32, spec_lt32, spec_round32, is_nan32, sign_of,
    add32, sub32, mul32, div32, sqrt32, abs32, max32, min32, lt32, from_u32,
    is_nan32_e, lemma_add32_nonneg,
};
use crate::transcend::{acos32, pow32, spec_acos32, spec_pow32, spec_clamp32, NEG_ONE32};

verus! {

/// Bit pattern of f32::MAX, returned by registry kernels on length mismatch.
pub const MAX32: u32 = 0x7f7f_ffff;
/// Bit pattern of pi/2, the angular distance of a zero-norm pair.
pub const FRAC_PI_2_32: u32 = 0x3fc9_0fdb;
/// Bit pattern of 1e-5, the soft-binarization threshold of the Hamming kernel.
pub const EPS_HAMMING32: u32 = 0x3727_c5ac;
/// Bit pattern of 1e-12, the norm floor of the cosine kernel.
pub const EPS_NORM32: u32 = 0x2b8c_bccc;

/// The closed set of distance metrics an index can be built with.
#[derive(Clone, Debug)]
pub enum Distance {
    Euclidean,
    Cosine,
    Manhattan,
    Chebyshev,
    /// Minkowski order p, carried as a binary32 bit pattern.
    Minkowski(u32),
    Hamming,
    Jaccard,
    Angular,
    Canberra,
    /// A metric resolved by name through the distance registry.
    Custom(String),
}

/// Whether a name denotes one of the eight built-in metric tags.
pub open spec fn is_known_metric_name(n: Seq<char>) -> bool {
    n == "euclidean"@ || n == "cosine"@ || n == "manhattan"@ || n == "chebyshev"@
        || n == "hamming"@ || n == "jaccard"@ || n == "angular"@ || n == "canberra"@
}

impl Distance {
    /// Map a metric name to its tag; unknown names become `Custom`.
    pub fn new(name: &str) -> (r: Distance)
        ensures
            name@ == "euclidean"@ ==> r == Distance::Euclidean,
            name@ == "cosine"@ ==> r == Distance::Cosine,
            name@ == "manhattan"@ ==> r == Distance::Manhattan,
            name@ == "chebyshev"@ ==> r == Distance::Chebyshev,
            name@ == "hamming"@ ==> r == Distance::Hamming,
            name@ == "jaccard"@ ==> r == Distance::Jaccard,
            name@ == "angular"@ ==> r == Distance::Angular,
            name@ == "canberra"@ ==> r == Distance::Canberra,
            !is_known_metric_name(name@) ==> (r matches Distance::Custom(s) && s@ == name@),
    {
        proof {
            reveal_strlit("euclidean");
            reveal_strlit("cosine");
            reveal_strlit("manhattan");
            reveal_strlit("chebyshev");
            reveal_strlit("hamming");
            reveal_strlit("jaccard");
            reveal_strlit("angular");
            reveal_strlit("canberra");
            // names of equal length differ in their first character
            assert("euclidean"@ != "manhattan"@) by {
                assert("euclidean"@[0] == 'e' && "manhattan"@[0] == 'm');
            }
            assert("euclidean"@ != "chebyshev"@) by {
                assert("euclidean"@[0] == 'e' && "chebyshev"@[0] == 'c');
            }
            assert("manhattan"@ != "chebyshev"@) by {
                assert("manhattan"@[0] == 'm' && "chebyshev"@[0] == 'c');
            }
            assert("hamming"@ != "jaccard"@) by {
                assert("hamming"@[0] == 'h' && "jaccard"@[0] == 'j');
            }
            assert("hamming"@ != "angular"@) by {
                assert("hamming"@[0] == 'h' && "angular"@[0] == 'a');
            }
            assert("jaccard"@ != "angular"@) by {
                assert("jaccard"@[0] == 'j' && "angular"@[0] == 'a');
            }
        }
        let key: String = name.to_string();
        assert(key@ == name@);
        if key == "euclidean".to_string() {
            Distance::Euclidean
        } else if key == "cosine".to_string() {
            Distance::Cosine
        } else if key == "manhattan".to_string() {
            Distance::Manhattan
        } else if key == "chebyshev".to_string() {
            Distance::Chebyshev
        } else if key == "hamming".to_string() {
            Distance::Hamming
        } else if key == "jaccard".to_string() {
            Distance::Jaccard
        } else if key == "angular".to_string() {
            Distance::Angular
        } else if key == "canberra".to_string() {
            Distance::Canberra
        } else {
            Distance::Custom(key)
        }
    }
}

// ---------------------------------------------------------------------------
// Fold specifications
// ---------------------------------------------------------------------------

/// Left fold of `+ a[i]*b[i]` over the first `n` coordinates.
pub open spec fn dot_acc(a: Seq<u32>, b: Seq<u32>, n: int) -> u32
    decreases n,
{
    if n <= 0 {
        0u32
    } else {
        spec_add32(dot_acc(a, b, n - 1), spec_mul32(a[n - 1], b[n - 1]))
    }
}

/// The cached squared norm: the dot product of a vector with itself.
pub open spec fn spec_sq_norm(v: Seq<u32>) -> u32 {
    dot_acc(v, v, v.len() as int)
}

/// Left fold of `+ |a[i]-b[i]|` (Manhattan).
pub open spec fn man_acc(a: Seq<u32>, b: Seq<u32>, n: int) -> u32
    decreases n,
{
    if n <= 0 {
        0u32
    } else {
        spec_add32(man_acc(a, b, n - 1), spec_abs32(spec_sub32(a[n - 1], b[n - 1])))
    }
}

/// Left fold of `max |a[i]-b[i]|` (Chebyshev).
pub open spec fn cheb_acc(a: Seq<u32>, b: Seq<u32>, n: int) -> u32
    decreases n,
{
    if n <= 0 {
        0u32
    } else {
        spec_max32(cheb_acc(a, b, n - 1), spec_abs32(spec_sub32(a[n - 1], b[n - 1])))
    }
}

/// Left fold counting coordinates that differ by more than 1e-5 (Hamming),
/// accumulated in binary32 exactly as the reference fold does.
pub open spec fn ham_acc(a: Seq<u32>, b: Seq<u32>, n: int) -> u32
    decreases n,
{
    if n <= 0 {
        0u32
    } else {
        let one = if spec_lt32(EPS_HAMMING32, spec_abs32(spec_sub32(a[n - 1], b[n - 1]))) {
            ONE32
        } else {
            0u32
        };
        spec_add32(ham_acc(a, b, n - 1), one)
    }
}

/// Coordinates where both sides exceed 0.5 (Jaccard intersection).
pub open spec fn jac_inter(a: Seq<u32>, b: Seq<u32>, n: int) -> nat
    decreases n,
{
    if n <= 0 {
        0nat
    } else {
        jac_inter(a, b, n - 1) + (if spec_lt32(HALF32, a[n - 1]) && spec_lt32(HALF32, b[n - 1]) {
            1nat
        } else {
            0nat
        })
    }
}

/// Coordinates where either side exceeds 0.5 (Jaccard union).
pub open spec fn jac_union(a: Seq<u32>, b: Seq<u32>, n: int) -> nat
    decreases n,
{
    if n <= 0 {
        0nat
    } else {
        jac_union(a, b, n - 1) + (if spec_lt32(HALF32, a[n - 1]) || spec_lt32(HALF32, b[n - 1]) {
            1nat
        } else {
            0nat
        })
    }
}

/// Left fold of `+ |a[i]-b[i]| / (|a[i]|+|b[i]|)`, zero-denominator terms
/// contributing zero (Canberra).
pub open spec fn canb_acc(a: Seq<u32>, b: Seq<u32>, n: int) -> u32
    decreases n,
{
    if n <= 0 {
        0u32
    } else {
        let diff = spec_abs32(spec_sub32(a[n - 1], b[n - 1]));
        let den = spec_add32(spec_abs32(a[n - 1]), spec_abs32(b[n - 1]));
        let term = if spec_lt32(0u32, den) { spec_div32(diff, den) } else { 0u32 };
        spec_add32(canb_acc(a, b, n - 1), term)
    }
}

/// Euclidean distance from cached norms:
/// `sqrt(max(0, |v|^2 + |q|^2 - 2 v.q))`.
pub open spec fn spec_euclid(v_sq: u32, q_sq: u32, d: u32) -> u32 {
    spec_sqrt32(
        spec_max32(spec_sub32(spec_add32(v_sq, q_sq), spec_mul32(TWO32, d)), 0u32),
    )
}

/// Cosine distance from cached norms, with the 1e-12 norm floor and both
/// clamps: `min(1, max(0, 1 - d/(max(sqrt(nv),eps)*max(sqrt(nq),eps))))`.
pub open spec fn spec_cosine(v_sq: u32, q_sq: u32, d: u32) -> u32 {
    let den = spec_mul32(
        spec_max32(spec_sqrt32(v_sq), EPS_NORM32),
        spec_max32(spec_sqrt32(q_sq), EPS_NORM32),
    );
    spec_min32(spec_max32(spec_sub32(ONE32, spec_div32(d, den)), 0u32), ONE32)
}

/// Jaccard distance: `1 - |inter|/|union|`, 0 when the union is empty.
pub open spec fn spec_jaccard(a: Seq<u32>, b: Seq<u32>) -> u32 {
    let n = a.len() as int;
    let u = jac_union(a, b, n);
    if u == 0 {
        0u32
    } else {
        spec_sub32(
            ONE32,
            spec_div32(spec_round32(false, jac_inter(a, b, n), 0), spec_round32(false, u, 0)),
        )
    }
}

// ---------------------------------------------------------------------------
// Executable kernels
// ---------------------------------------------------------------------------

/// Dot product in binary32, left to right.
pub fn dot32(a: &Vec<u32>, b: &Vec<u32>) -> (r: u32)
    requires
        a@.len() == b@.len(),
    ensures
        r == dot_acc(a@, b@, a@.len() as int),
{
    let mut acc: u32 = 0;
    let mut i: usize = 0;
    while i < a.len()
        invariant
            a@.len() == b@.len(),
            i <= a@.len(),
            acc == dot_acc(a@, b@, i as int),
        decreases a@.len() - i,
    {
        acc = add32(acc, mul32(a[i], b[i]));
        i = i + 1;
    }
    acc
}

/// Cached squared norm of a vector.
pub fn sq_norm32(v: &Vec<u32>) -> (r: u32)
    ensures
        r == spec_sq_norm(v@),
{
    dot32(v, v)
}

/// Euclidean distance using cached squared norms.
pub fn euclidean32(q: &Vec<u32>, v: &Vec<u32>, q_sq: u32, v_sq: u32) -> (r: u32)
    requires
        q@.len() == v@.len(),
    ensures
        r == spec_euclid(v_sq, q_sq, dot_acc(v@, q@, v@.len() as int)),
{
    let d = dot32(v, q);
    sqrt32(max32(sub32(add32(v_sq, q_sq), mul32(TWO32, d)), 0))
}

/// Cosine distance using cached squared norms.
pub fn cosine32(q: &Vec<u32>, v: &Vec<u32>, q_sq: u32, v_sq: u32) -> (r: u32)
    requires
        q@.len() == v@.len(),
    ensures
        r == spec_cosine(v_sq, q_sq, dot_acc(v@, q@, v@.len() as int)),
{
    let d = dot32(v, q);
    let den = mul32(max32(sqrt32(v_sq), EPS_NORM32), max32(sqrt32(q_sq), EPS_NORM32));
    min32(max32(sub32(ONE32, div32(d, den)), 0), ONE32)
}

/// Manhattan distance.
pub fn manhattan32(a: &Vec<u32>, b: &Vec<u32>) -> (r: u32)
    requires
        a@.len() == b@.len(),
    ensures
        r == man_acc(a@, b@, a@.len() as int),
{
    let mut acc: u32 = 0;
    let mut i: usize = 0;
    while i < a.len()
        invariant
            a@.len() == b@.len(),
            i <= a@.len(),
            acc == man_acc(a@, b@, i as int),
        decreases a@.len() - i,
    {
        acc = add32(acc, abs32(sub32(a[i], b[i])));
        i = i + 1;
    }
    acc
}

/// Chebyshev distance.
pub fn chebyshev32(a: &Vec<u32>, b: &Vec<u32>) -> (r: u32)
    requires
        a@.len() == b@.len(),
    ensures
        r == cheb_acc(a@, b@, a@.len() as int),
{
    let mut acc: u32 = 0;
    let mut i: usize = 0;
    while i < a.len()
        invariant
            a@.len() == b@.len(),
            i <= a@.len(),
            acc == cheb_acc(a@, b@, i as int),
        decreases a@.len() - i,
    {
        acc = max32(acc, abs32(sub32(a[i], b[i])));
        i = i + 1;
    }
    acc
}

/// Hamming distance under soft binarization.
pub fn hamming32(a: &Vec<u32>, b: &Vec<u32>) -> (r: u32)
    requires
        a@.len() == b@.len(),
    ensures
        r == ham_acc(a@, b@, a@.len() as int),
{
    let mut acc: u32 = 0;
    let mut i: usize = 0;
    while i < a.len()
        invariant
            a@.len() == b@.len(),
            i <= a@.len(),
            acc == ham_acc(a@, b@, i as int),
        decreases a@.len() - i,
    {
        let diff = abs32(sub32(a[i], b[i]));
        let one: u32 = if lt32(EPS_HAMMING32, diff) { ONE32 } else { 0 };
        acc = add32(acc, one);
        i = i + 1;
    }
    acc
}

/// Jaccard distance under the 0.5 threshold.
pub fn jaccard32(a: &Vec<u32>, b: &Vec<u32>) -> (r: u32)
    requires
        a@.len() == b@.len(),
        a@.len() < 0x1000_0000,
    ensures
        r == spec_jaccard(a@, b@),
{
    let mut inter: u32 = 0;
    let mut uni: u32 = 0;
    let mut i: usize = 0;
    while i < a.len()
        invariant
            a@.len() == b@.len(),
            a@.len() < 0x1000_0000,
            i <= a@.len(),
            inter as nat == jac_inter(a@, b@, i as int),
            uni as nat == jac_union(a@, b@, i as int),
            inter <= i,
            uni <= i,
        decreases a@.len() - i,
    {
        let xa = lt32(HALF32, a[i]);
        let xb = lt32(HALF32, b[i]);
        if xa && xb {
            inter = inter + 1;
        }
        if xa || xb {
            uni = uni + 1;
        }
        i = i + 1;
    }
    if uni == 0 {
        0
    } else {
        sub32(ONE32, div32(from_u32(inter), from_u32(uni)))
    }
}

/// Canberra distance.
pub fn canberra32(a: &Vec<u32>, b: &Vec<u32>) -> (r: u32)
    requires
        a@.len() == b@.len(),
    ensures
        r == canb_acc(a@, b@, a@.len() as int),
{
    let mut acc: u32 = 0;
    let mut i: usize = 0;
    while i < a.len()
        invariant
            a@.len() == b@.len(),
            i <= a@.len(),
            acc == canb_acc(a@, b@, i as int),
        decreases a@.len() - i,
    {
        let diff = abs32(sub32(a[i], b[i]));
        let den = add32(abs32(a[i]), abs32(b[i]));
        let term: u32 = if lt32(0, den) { div32(diff, den) } else { 0 };
        acc = add32(acc, term);
        i = i + 1;
    }
    acc
}

/// The angular kernel: `acos(clamp(dot / (|v| |q|), -1, 1))`, `pi/2` when
/// either norm is zero.
pub open spec fn spec_angular32(q: Seq<u32>, v: Seq<u32>, q_sq: u32, v_sq: u32) -> u32 {
    let nv = spec_sqrt32(v_sq);
    let nq = spec_sqrt32(q_sq);
    if nv == 0 || nq == 0 {
        FRAC_PI_2_32
    } else {
        spec_acos32(
            spec_clamp32(spec_div32(dot_acc(v, q, v.len() as int), spec_mul32(nv, nq))),
        )
    }
}

/// Angular distance: `acos(clamp(cos_sim, -1, 1))`, `pi/2` on a zero norm.
/// The arc cosine comes from the fixed-point approximation in `transcend`,
/// exact at its anchors; the result is always a non-negative non-NaN
/// pattern.
pub fn angular32(q: &Vec<u32>, v: &Vec<u32>, q_sq: u32, v_sq: u32) -> (r: u32)
    requires
        q@.len() == v@.len(),
    ensures
        r == spec_angular32(q@, v@, q_sq, v_sq),
        spec_sqrt32(v_sq) == 0 || spec_sqrt32(q_sq) == 0 ==> r == FRAC_PI_2_32,
        !sign_of(r),
        !is_nan32(r),
{
    let d = dot32(v, q);
    let nv = sqrt32(v_sq);
    let nq = sqrt32(q_sq);
    if nv == 0 || nq == 0 {
        FRAC_PI_2_32
    } else {
        let c = div32(d, mul32(nv, nq));
        acos32(clamp32(c))
    }
}

/// Clamp a pattern to [-1, 1] by value; NaN is pinned to 1.
pub fn clamp32(c: u32) -> (r: u32)
    ensures
        r == spec_clamp32(c),
{
    if is_nan32_e(c) {
        ONE32
    } else if lt32(c, 0xbf80_0000) {
        0xbf80_0000
    } else if lt32(ONE32, c) {
        ONE32
    } else {
        c
    }
}

/// The Minkowski fold over the first `n` coordinates:
/// `+ |a[i]-b[i]|^p` through the power kernel.
pub open spec fn mink_acc(a: Seq<u32>, b: Seq<u32>, p: u32, n: int) -> u32
    decreases n,
{
    if n <= 0 {
        0u32
    } else {
        spec_add32(
            mink_acc(a, b, p, n - 1),
            spec_pow32(spec_abs32(spec_sub32(a[n - 1], b[n - 1])), p),
        )
    }
}

/// Minkowski fold: `+ |a[i]-b[i]|^p` with the approximate power kernel;
/// the accumulation never turns negative.
pub fn mink_sum32(a: &Vec<u32>, b: &Vec<u32>, p: u32) -> (r: u32)
    requires
        a@.len() == b@.len(),
    ensures
        r == mink_acc(a@, b@, p, a@.len() as int),
        !sign_of(r),
{
    let mut acc: u32 = 0;
    let mut i: usize = 0;
    while i < a.len()
        invariant
            a@.len() == b@.len(),
            i <= a@.len(),
            !sign_of(acc),
            acc == mink_acc(a@, b@, p, i as int),
        decreases a@.len() - i,
    {
        let term = pow32(abs32(sub32(a[i], b[i])), p);
        proof {
            lemma_add32_nonneg(acc, term);
        }
        acc = add32(acc, term);
        i = i + 1;
    }
    acc
}

/// The Minkowski kernel: the Manhattan fold at order one, otherwise the
/// power-kernel fold raised to `1/p`.
pub open spec fn spec_minkowski32(a: Seq<u32>, b: Seq<u32>, p: u32) -> u32 {
    if p == ONE32 {
        man_acc(a, b, a.len() as int)
    } else {
        spec_pow32(mink_acc(a, b, p, a.len() as int), spec_div32(ONE32, p))
    }
}

/// Minkowski distance of order `p`.  Order 1 is exactly the Manhattan fold;
/// other orders go through the approximate power kernel.  Either way the
/// result is a non-negative pattern.
pub fn minkowski32(a: &Vec<u32>, b: &Vec<u32>, p: u32) -> (r: u32)
    requires
        a@.len() == b@.len(),
    ensures
        r == spec_minkowski32(a@, b@, p),
        p == ONE32 ==> r == man_acc(a@, b@, a@.len() as int),
        !sign_of(r),
{
    if p == ONE32 {
        let r = manhattan32(a, b);
        proof {
            lemma_man_acc_nonneg(a@, b@, a@.len() as int);
        }
        r
    } else {
        let s = mink_sum32(a, b, p);
        pow32(s, div32(ONE32, p))
    }
}

/// The Manhattan fold never turns negative.
pub proof fn lemma_man_acc_nonneg(a: Seq<u32>, b: Seq<u32>, n: int)
    ensures
        !sign_of(man_acc(a, b, n)),
    decreases n,
{
    if n > 0 {
        lemma_man_acc_nonneg(a, b, n - 1);
        lemma_add32_nonneg(man_acc(a, b, n - 1), spec_abs32(spec_sub32(a[n - 1], b[n - 1])));
    }
}

} // verus!
