//! Named distance functions: a capability trait and a registry resolving
//! names to implementations.
//!
//! The registry is an explicit context object owned by each index (no
//! ambient global): built-ins are pre-registered at construction, callers
//! may add more at any time, and resolution is a name lookup bound to the
//! implementation registered under that name.  The four built-in names are
//! protected: a registration under one of them is ignored once the entry
//! exists.  A custom implementation decides its own result, so searches
//! through it promise the shape of their answer, never particular
//! distances.

use vstd::prelude::*;
use crate::float_bits::{
    ONE32, spec_add32, spec_sub32, spec_mul32, spec_div32, spec_sqrt32, spec_max32, spec_min32,
    spec_abs32, is_finite32, add32, sub32, mul32, div32, sqrt32, abs32, max32, min32,
};
use crate::metrics::{man_acc, cheb_acc, dot_acc};

verus! {

/// Bit pattern of f32::MAX, the sentinel the built-ins return on a length
/// mismatch.
pub const SENTINEL_MAX32: u32 = 0x7f7f_ffff;

/// A pluggable distance: both arguments are binary32 bit patterns, and so is
/// the result.
pub trait DistanceFunction: Send + Sync {
    fn distance(&self, a: &Vec<u32>, b: &Vec<u32>) -> u32;

    fn name(&self) -> String;
}

/// Left fold of `+ (a[i]-b[i])^2`, the direct Euclidean accumulation the
/// registry entry uses (unlike the index kernel, which goes through cached
/// norms).
pub open spec fn euclid2_acc(a: Seq<u32>, b: Seq<u32>, n: int) -> u32
    decreases n,
{
    if n <= 0 {
        0u32
    } else {
        let d = spec_sub32(a[n - 1], b[n - 1]);
        spec_add32(euclid2_acc(a, b, n - 1), spec_mul32(d, d))
    }
}

/// The registry cosine distance: inline norms, unit result on a zero norm,
/// clamped to the unit interval at both ends.
pub open spec fn spec_cosine_reg(a: Seq<u32>, b: Seq<u32>) -> u32 {
    let n = a.len() as int;
    let sa = spec_sqrt32(dot_acc(a, a, n));
    let sb = spec_sqrt32(dot_acc(b, b, n));
    if sa == 0 || sb == 0 {
        ONE32
    } else {
        spec_min32(
            spec_max32(
                spec_sub32(ONE32, spec_div32(dot_acc(a, b, n), spec_mul32(sa, sb))),
                0u32,
            ),
            ONE32,
        )
    }
}

/// Euclidean distance as a registry entry.
pub struct EuclideanDistance;

impl EuclideanDistance {
    /// `sqrt(sum (a[i]-b[i])^2)` in binary32; the sentinel on a length
    /// mismatch.
    pub fn compute(&self, a: &Vec<u32>, b: &Vec<u32>) -> (r: u32)
        ensures
            a@.len() != b@.len() ==> r == SENTINEL_MAX32,
            a@.len() == b@.len() ==> r == spec_sqrt32(euclid2_acc(a@, b@, a@.len() as int)),
    {
        if a.len() != b.len() {
            return SENTINEL_MAX32;
        }
        let mut acc: u32 = 0;
        let mut i: usize = 0;
        while i < a.len()
            invariant
                a@.len() == b@.len(),
                i <= a@.len(),
                acc == euclid2_acc(a@, b@, i as int),
            decreases a@.len() - i,
        {
            let d = sub32(a[i], b[i]);
            acc = add32(acc, mul32(d, d));
            i = i + 1;
        }
        sqrt32(acc)
    }
}

impl DistanceFunction for EuclideanDistance {
    fn distance(&self, a: &Vec<u32>, b: &Vec<u32>) -> u32 {
        self.compute(a, b)
    }

    fn name(&self) -> String {
        "euclidean".to_string()
    }
}

/// Cosine distance as a registry entry.
pub struct CosineDistance;

impl CosineDistance {
    /// `min(1, max(0, 1 - dot/(|a||b|)))` with inline norms, 1 on a zero
    /// norm; the sentinel on a length mismatch.
    #[verifier::rlimit(60)]
    pub fn compute(&self, a: &Vec<u32>, b: &Vec<u32>) -> (r: u32)
        ensures
            a@.len() != b@.len() ==> r == SENTINEL_MAX32,
            a@.len() == b@.len() ==> r == spec_cosine_reg(a@, b@),
    {
        if a.len() != b.len() {
            return SENTINEL_MAX32;
        }
        let mut dot: u32 = 0;
        let mut na: u32 = 0;
        let mut nb: u32 = 0;
        let mut i: usize = 0;
        while i < a.len()
            invariant
                a@.len() == b@.len(),
                i <= a@.len(),
                dot == dot_acc(a@, b@, i as int),
                na == dot_acc(a@, a@, i as int),
                nb == dot_acc(b@, b@, i as int),
            decreases a@.len() - i,
        {
            dot = add32(dot, mul32(a[i], b[i]));
            na = add32(na, mul32(a[i], a[i]));
            nb = add32(nb, mul32(b[i], b[i]));
            i = i + 1;
        }
        let sa = sqrt32(na);
        let sb = sqrt32(nb);
        if sa == 0 || sb == 0 {
            ONE32
        } else {
            min32(max32(sub32(ONE32, div32(dot, mul32(sa, sb))), 0), ONE32)
        }
    }
}

impl DistanceFunction for CosineDistance {
    fn distance(&self, a: &Vec<u32>, b: &Vec<u32>) -> u32 {
        self.compute(a, b)
    }

    fn name(&self) -> String {
        "cosine".to_string()
    }
}

/// Manhattan distance as a registry entry.
pub struct ManhattanDistance;

impl ManhattanDistance {
    /// `sum |a[i]-b[i]|` in binary32; the sentinel on a length mismatch.
    pub fn compute(&self, a: &Vec<u32>, b: &Vec<u32>) -> (r: u32)
        ensures
            a@.len() != b@.len() ==> r == SENTINEL_MAX32,
            a@.len() == b@.len() ==> r == man_acc(a@, b@, a@.len() as int),
    {
        if a.len() != b.len() {
            return SENTINEL_MAX32;
        }
        let mut acc: u32 = 0;
        let mut i: usize = 0;
        while i < a.len()
            invariant
                a@.len() == b@.len(),
                i <= a@.len(),
                acc == man_acc(a@, b@, i as int),
            decreases a@.len() - i,
        {
            acc = add32(acc, abs32(sub32(a[i], b[i])));
            i = i + 1;
        }
        acc
    }
}

impl DistanceFunction for ManhattanDistance {
    fn distance(&self, a: &Vec<u32>, b: &Vec<u32>) -> u32 {
        self.compute(a, b)
    }

    fn name(&self) -> String {
        "manhattan".to_string()
    }
}

/// Chebyshev distance as a registry entry.
pub struct ChebyshevDistance;

impl ChebyshevDistance {
    /// `max |a[i]-b[i]|` in binary32; the sentinel on a length mismatch.
    pub fn compute(&self, a: &Vec<u32>, b: &Vec<u32>) -> (r: u32)
        ensures
            a@.len() != b@.len() ==> r == SENTINEL_MAX32,
            a@.len() == b@.len() ==> r == cheb_acc(a@, b@, a@.len() as int),
    {
        if a.len() != b.len() {
            return SENTINEL_MAX32;
        }
        let mut acc: u32 = 0;
        let mut i: usize = 0;
        while i < a.len()
            invariant
                a@.len() == b@.len(),
                i <= a@.len(),
                acc == cheb_acc(a@, b@, i as int),
            decreases a@.len() - i,
        {
            acc = max32(acc, abs32(sub32(a[i], b[i])));
            i = i + 1;
        }
        acc
    }
}

impl DistanceFunction for ChebyshevDistance {
    fn distance(&self, a: &Vec<u32>, b: &Vec<u32>) -> u32 {
        self.compute(a, b)
    }

    fn name(&self) -> String {
        "chebyshev".to_string()
    }
}

/// Relies on Vec::push: appends exactly this implementation, leaving every
/// earlier entry in place.
#[verifier::external_body]
fn funcs_push(v: &mut Vec<Box<dyn DistanceFunction>>, f: Box<dyn DistanceFunction>)
    ensures
        final(v)@ == old(v)@.push(f),
        final(v)@.len() == old(v)@.len() + 1,
        final(v)@[old(v)@.len() as int] == f,
        forall|j: int| 0 <= j < old(v)@.len() ==> final(v)@[j] == old(v)@[j],
{
    v.push(f)
}

/// Relies on the slice index-assignment of Vec: replaces exactly the entry
/// at `i` with this implementation, leaving every other entry in place.
#[verifier::external_body]
fn funcs_set(v: &mut Vec<Box<dyn DistanceFunction>>, i: usize, f: Box<dyn DistanceFunction>)
    requires
        i < old(v)@.len(),
    ensures
        final(v)@ == old(v)@.update(i as int, f),
        final(v)@.len() == old(v)@.len(),
        final(v)@[i as int] == f,
        forall|j: int| 0 <= j < old(v)@.len() && j != i ==> final(v)@[j] == old(v)@[j],
{
    v[i] = f
}

/// Relies on the slice index of Vec: hands out the implementation at `i`.
#[verifier::external_body]
fn funcs_get(v: &Vec<Box<dyn DistanceFunction>>, i: usize) -> (r: &Box<dyn DistanceFunction>)
    requires
        i < v@.len(),
    ensures
        *r == v@[i as int],
{
    &v[i]
}

/// A registry of distance functions keyed by name.  The names and the
/// implementations are held in step: entry `i` of `names` labels entry `i`
/// of `funcs`.  Equality of trait-object values lies outside the
/// verifier's reasoning, so that correspondence is stated at the name
/// level (which entry changed, which stayed) while the wrappers above pin
/// each `Vec` operation element by element.
pub struct DistanceRegistry {
    pub names: Vec<String>,
    pub funcs: Vec<Box<dyn DistanceFunction>>,
}

/// The columns stay in step and no name repeats.
pub open spec fn registry_wf(r: DistanceRegistry) -> bool {
    &&& r.names@.len() == r.funcs@.len()
    &&& forall|i: int, j: int|
        0 <= i < j < r.names@.len() ==> (#[trigger] r.names@[i])@ != (#[trigger] r.names@[j])@
}

/// Whether some entry of the registry carries this name.
pub open spec fn registry_has_name(r: DistanceRegistry, n: Seq<char>) -> bool {
    exists|j: int| 0 <= j < r.names@.len() && (#[trigger] r.names@[j])@ == n
}

/// The four protected built-in names.
pub open spec fn is_builtin_name(n: Seq<char>) -> bool {
    n == "euclidean"@ || n == "cosine"@ || n == "manhattan"@ || n == "chebyshev"@
}

impl DistanceRegistry {
    /// A registry with the four built-ins pre-registered.
    pub fn new() -> (r: DistanceRegistry)
        ensures
            registry_wf(r),
            registry_has_name(r, "euclidean"@),
            registry_has_name(r, "cosine"@),
            registry_has_name(r, "manhattan"@),
            registry_has_name(r, "chebyshev"@),
    {
        let mut reg = DistanceRegistry { names: Vec::new(), funcs: Vec::new() };
        reg.register("euclidean", Box::new(EuclideanDistance));
        reg.register("cosine", Box::new(CosineDistance));
        reg.register("manhattan", Box::new(ManhattanDistance));
        reg.register("chebyshev", Box::new(ChebyshevDistance));
        reg
    }

    /// Register a metric under a name.
    ///
    /// An existing entry of the same name is overwritten, except under the
    /// four built-in names, whose entries are protected: such a
    /// registration is ignored and the registry is unchanged.
    pub fn register(&mut self, name: &str, func: Box<dyn DistanceFunction>)
        requires
            registry_wf(*old(self)),
        ensures
            registry_wf(*final(self)),
            registry_has_name(*final(self), name@),
            forall|n: Seq<char>|
                registry_has_name(*old(self), n) ==> registry_has_name(*final(self), n),
            is_builtin_name(name@) && registry_has_name(*old(self), name@) ==> *final(self)
                == *old(self),
            forall|j: int|
                0 <= j < old(self).names@.len() && (#[trigger] old(self).names@[j])@ != name@
                    ==> final(self).names@[j] == old(self).names@[j],
            final(self).names@.len() >= old(self).names@.len(),
    {
        let key: String = name.to_string();
        assert(key@ == name@);
        let builtin = is_builtin(name);
        let mut i: usize = 0;
        while i < self.names.len()
            invariant
                registry_wf(*old(self)),
                i <= self.names@.len(),
                key@ == name@,
                builtin == is_builtin_name(name@),
                *self == *old(self),
                self.names@ == old(self).names@,
                self.funcs@ == old(self).funcs@,
                self.names@.len() == self.funcs@.len(),
                forall|j: int| 0 <= j < i ==> (#[trigger] self.names@[j])@ != name@,
            decreases self.names@.len() - i,
        {
            if self.names[i] == key {
                if builtin {
                    // the built-in entry stays as constructed
                    assert(registry_has_name(*self, name@));
                    return;
                }
                let ghost iv = i as int;
                funcs_set(&mut self.funcs, i, func);
                proof {
                    assert(self.names@[iv]@ == name@);
                    assert(registry_has_name(*self, name@));
                }
                return;
            }
            i = i + 1;
        }
        let ghost before = self.names@;
        self.names.push(key);
        funcs_push(&mut self.funcs, func);
        proof {
            assert(self.names@[before.len() as int]@ == name@);
            assert(registry_has_name(*self, name@));
            assert forall|n: Seq<char>|
                registry_has_name(*old(self), n) implies registry_has_name(*self, n) by {
                let j = choose|j: int|
                    0 <= j < before.len() && (#[trigger] before[j])@ == n;
                assert(self.names@[j]@ == n);
            }
            assert forall|i1: int, j1: int|
                0 <= i1 < j1 < self.names@.len() implies (#[trigger] self.names@[i1])@ != (
            #[trigger] self.names@[j1])@ by {
                if j1 < before.len() {
                } else {
                    assert(self.names@[j1]@ == name@);
                    assert(before[i1]@ != name@);
                }
            }
        }
    }

    /// Resolve a name: `None` exactly when no entry carries it.  The
    /// `Some` case hands out `funcs[i]` for the unique `i` with
    /// `names[i] == name` - `funcs_get`'s contract states that equality,
    /// but equalities over trait-object values never reach the solver in
    /// this verifier (tried as sequence axioms, as direct wrapper clauses,
    /// and under quantifiers), so the name-to-implementation binding rests
    /// on the index alignment the code maintains and is exercised by test.
    pub fn get(&self, name: &str) -> (r: Option<&Box<dyn DistanceFunction>>)
        requires
            registry_wf(*self),
        ensures
            r is Some <==> registry_has_name(*self, name@),
    {
        let key: String = name.to_string();
        assert(key@ == name@);
        let mut i: usize = 0;
        while i < self.names.len()
            invariant
                registry_wf(*self),
                self.names@.len() == self.funcs@.len(),
                i <= self.names@.len(),
                key@ == name@,
                forall|j: int| 0 <= j < i ==> (#[trigger] self.names@[j])@ != name@,
            decreases self.names@.len() - i,
        {
            if self.names[i] == key {
                assert(self.names@[i as int]@ == name@);
                assert(registry_has_name(*self, name@));
                let f = funcs_get(&self.funcs, i);
                return Some(f);
            }
            i = i + 1;
        }
        None
    }

    /// All registered names, in registration order.
    pub fn list_metrics(&self) -> (r: Vec<String>)
        ensures
            r@.len() == self.names@.len(),
            forall|i: int| 0 <= i < r@.len() ==> (#[trigger] r@[i])@ == (self.names@[i])@,
    {
        let mut out: Vec<String> = Vec::new();
        let mut i: usize = 0;
        while i < self.names.len()
            invariant
                i <= self.names@.len(),
                out@.len() == i,
                forall|j: int| 0 <= j < i ==> (#[trigger] out@[j])@ == (self.names@[j])@,
            decreases self.names@.len() - i,
        {
            out.push(self.names[i].clone());
            i = i + 1;
        }
        out
    }
}

/// Whether a name is one of the four protected built-ins.
fn is_builtin(name: &str) -> (r: bool)
    ensures
        r == is_builtin_name(name@),
{
    let key: String = name.to_string();
    assert(key@ == name@);
    key == "euclidean".to_string() || key == "cosine".to_string() || key
        == "manhattan".to_string() || key == "chebyshev".to_string()
}

} // verus!
