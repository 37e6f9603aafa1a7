//! Composable predicate filters over (id, slot position) pairs.
//!
//! A filter is a recursive tagged union; evaluation is explicit recursion.
//! The bit-vector variant stores its bits in `bit_vec::BitVec`, reached
//! through trusted wrappers whose contracts name its contents.

use vstd::prelude::*;

verus! {

/// What a `bit_vec::BitVec<u32>` holds, bit by bit.
pub uninterp spec fn bitvec_bits(bv: bit_vec::BitVec<u32>) -> Seq<bool>;

#[verifier::external_type_specification]
#[verifier::external_body]
#[verifier::reject_recursive_types(B)]
pub struct ExBitVec<B>(bit_vec::BitVec<B>);

/// Relies on bit_vec::BitVec::from_elem: `nbits` bits, each set to `bit`.
#[verifier::external_body]
fn bv_from_elem(nbits: usize, bit: bool) -> (r: bit_vec::BitVec<u32>)
    ensures
        bitvec_bits(r) == Seq::new(nbits as nat, |i: int| bit),
{
    bit_vec::BitVec::from_elem(nbits, bit)
}

/// Relies on bit_vec::BitVec::set: writes one bit in place; panics out of
/// range, so the range is required here.
#[verifier::external_body]
fn bv_set(bv: &mut bit_vec::BitVec<u32>, i: usize, x: bool)
    requires
        i < bitvec_bits(*old(bv)).len(),
    ensures
        bitvec_bits(*final(bv)) == bitvec_bits(*old(bv)).update(i as int, x),
{
    bv.set(i, x)
}

/// Relies on bit_vec::BitVec::get: `Some` of the bit in range, else `None`.
#[verifier::external_body]
fn bv_get(bv: &bit_vec::BitVec<u32>, i: usize) -> (r: Option<bool>)
    ensures
        r == (if i < bitvec_bits(*bv).len() {
            Some(bitvec_bits(*bv)[i as int])
        } else {
            None::<bool>
        }),
{
    bv.get(i)
}

/// The filter variants: id interval, id membership, per-position bits, and
/// the three boolean connectives.
pub enum FilterType {
    IdRange(i64, i64),
    IdSet(Vec<i64>),
    Boolean(bit_vec::BitVec<u32>),
    And(Vec<Filter>),
    Or(Vec<Filter>),
    Not(Box<Filter>),
}

/// An immutable predicate over `(id, position)` pairs.
pub struct Filter {
    pub inner: FilterType,
}

/// What a filter accepts: the meaning of `Filter::accepts`.
pub open spec fn spec_accepts(f: Filter, id: i64, pos: int) -> bool
    decreases f,
{
    match f.inner {
        FilterType::IdRange(min, max) => min <= id && id <= max,
        FilterType::IdSet(ids) => ids@.contains(id),
        FilterType::Boolean(bits) => 0 <= pos < bitvec_bits(bits).len()
            && bitvec_bits(bits)[pos],
        FilterType::And(fs) => forall|i: int|
            0 <= i < fs@.len() ==> spec_accepts(#[trigger] fs@[i], id, pos),
        FilterType::Or(fs) => exists|i: int|
            0 <= i < fs@.len() && spec_accepts(#[trigger] fs@[i], id, pos),
        FilterType::Not(g) => !spec_accepts(*g, id, pos),
    }
}

impl Filter {
    /// Accept ids in the closed interval [min, max].
    pub fn id_range(min: i64, max: i64) -> (r: Filter)
        ensures
            forall|id: i64, pos: int| spec_accepts(r, id, pos) <==> min <= id && id <= max,
    {
        Filter { inner: FilterType::IdRange(min, max) }
    }

    /// Accept exactly the listed ids.
    pub fn id_set(ids: Vec<i64>) -> (r: Filter)
        ensures
            forall|id: i64, pos: int| spec_accepts(r, id, pos) <==> ids@.contains(id),
    {
        Filter { inner: FilterType::IdSet(ids) }
    }

    /// Accept by slot position: out-of-range positions are rejected.
    pub fn boolean(bits: Vec<bool>) -> (r: Filter)
        ensures
            forall|id: i64, pos: int|
                spec_accepts(r, id, pos) <==> (0 <= pos < bits@.len() && bits@[pos]),
    {
        let mut bv = bv_from_elem(bits.len(), false);
        let mut i: usize = 0;
        while i < bits.len()
            invariant
                bitvec_bits(bv).len() == bits@.len(),
                i <= bits@.len(),
                forall|j: int| 0 <= j < i ==> bitvec_bits(bv)[j] == bits@[j],
            decreases bits@.len() - i,
        {
            bv_set(&mut bv, i, bits[i]);
            i = i + 1;
        }
        assert(bitvec_bits(bv) =~= bits@);
        Filter { inner: FilterType::Boolean(bv) }
    }

    /// Conjunction; the empty conjunction accepts everything.
    pub fn and(filters: Vec<Filter>) -> (r: Filter)
        ensures
            forall|id: i64, pos: int|
                spec_accepts(r, id, pos) <==> (forall|i: int|
                    0 <= i < filters@.len() ==> spec_accepts(#[trigger] filters@[i], id, pos)),
    {
        let r = Filter { inner: FilterType::And(filters) };
        proof {
            assert forall|id: i64, pos: int|
                spec_accepts(r, id, pos) <==> (forall|i: int|
                    0 <= i < r.inner->And_0@.len()
                        ==> spec_accepts(#[trigger] r.inner->And_0@[i], id, pos)) by {
            }
        }
        r
    }

    /// Disjunction; the empty disjunction rejects everything.
    pub fn or(filters: Vec<Filter>) -> (r: Filter)
        ensures
            forall|id: i64, pos: int|
                spec_accepts(r, id, pos) <==> (exists|i: int|
                    0 <= i < filters@.len() && spec_accepts(#[trigger] filters@[i], id, pos)),
    {
        let r = Filter { inner: FilterType::Or(filters) };
        proof {
            assert forall|id: i64, pos: int|
                spec_accepts(r, id, pos) <==> (exists|i: int|
                    0 <= i < r.inner->Or_0@.len()
                        && spec_accepts(#[trigger] r.inner->Or_0@[i], id, pos)) by {
            }
        }
        r
    }

    /// Pointwise negation.
    pub fn not(filter: Filter) -> (r: Filter)
        ensures
            forall|id: i64, pos: int|
                spec_accepts(r, id, pos) <==> !spec_accepts(filter, id, pos),
    {
        Filter { inner: FilterType::Not(Box::new(filter)) }
    }

    /// Evaluate the filter on an (id, position) pair.
    pub fn accepts(&self, id: i64, index: usize) -> (r: bool)
        ensures
            r == spec_accepts(*self, id, index as int),
        decreases *self,
    {
        match &self.inner {
            FilterType::IdRange(min, max) => id >= *min && id <= *max,
            FilterType::IdSet(ids) => {
                let mut i: usize = 0;
                let mut found = false;
                while i < ids.len()
                    invariant
                        i <= ids@.len(),
                        found == exists|j: int| 0 <= j < i && ids@[j] == id,
                    decreases ids@.len() - i,
                {
                    if ids[i] == id {
                        found = true;
                    }
                    i = i + 1;
                }
                assert(found == ids@.contains(id));
                found
            },
            FilterType::Boolean(bits) => {
                match bv_get(bits, index) {
                    Some(b) => b,
                    None => false,
                }
            },
            FilterType::And(fs) => {
                let mut i: usize = 0;
                let mut all = true;
                while i < fs.len()
                    invariant
                        i <= fs@.len(),
                        self.inner matches FilterType::And(g) && g == fs,
                        all == forall|j: int|
                            0 <= j < i ==> spec_accepts(#[trigger] fs@[j], id, index as int),
                    decreases fs@.len() - i,
                {
                    let a = fs[i].accepts(id, index);
                    all = all && a;
                    i = i + 1;
                }
                all
            },
            FilterType::Or(fs) => {
                let mut i: usize = 0;
                let mut any = false;
                while i < fs.len()
                    invariant
                        i <= fs@.len(),
                        self.inner matches FilterType::Or(g) && g == fs,
                        any == exists|j: int|
                            0 <= j < i && spec_accepts(#[trigger] fs@[j], id, index as int),
                    decreases fs@.len() - i,
                {
                    let a = fs[i].accepts(id, index);
                    any = any || a;
                    i = i + 1;
                }
                any
            },
            FilterType::Not(f) => !f.accepts(id, index),
        }
    }
}

/// Law: the empty conjunction accepts every pair.
pub proof fn lemma_and_empty_accepts_all(fs: Vec<Filter>, id: i64, pos: int)
    requires
        fs@.len() == 0,
    ensures
        spec_accepts(Filter { inner: FilterType::And(fs) }, id, pos),
{
}

/// Law: the empty disjunction rejects every pair.
pub proof fn lemma_or_empty_rejects_all(fs: Vec<Filter>, id: i64, pos: int)
    ensures
        fs@.len() == 0 ==> !spec_accepts(Filter { inner: FilterType::Or(fs) }, id, pos),
{
}

/// Law: double negation leaves a filter's acceptance unchanged.
pub proof fn lemma_not_not(f: Filter, id: i64, pos: int)
    ensures
        spec_accepts(
            Filter { inner: FilterType::Not(Box::new(Filter { inner: FilterType::Not(Box::new(f)) })) },
            id,
            pos,
        ) == spec_accepts(f, id, pos),
{
    let inner = Filter { inner: FilterType::Not(Box::new(f)) };
    let outer = Filter { inner: FilterType::Not(Box::new(inner)) };
    assert(spec_accepts(outer, id, pos) == !spec_accepts(inner, id, pos));
    assert(spec_accepts(inner, id, pos) == !spec_accepts(f, id, pos));
}

} // verus!
