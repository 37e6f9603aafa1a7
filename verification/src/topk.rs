//! Partial selection: the k candidates of least distance.
//!
//! Candidates are `(id, distance-bits)` pairs.  They are ordered by the
//! total sort key of `float_bits` (NaN greatest, -0 equal to +0) and, among
//! equal distances, by id, which makes results reproducible.  The selection
//! contract pins the answer: at most `min(k, n)` results, sorted, drawn from
//! the candidates, and no candidate left behind beats one taken.

use vstd::prelude::*;
use vstd::seq_lib::lemma_multiset_commutative;
use crate::float_bits::{spec_key32, key32};

verus! {

/// Candidate order: by distance key, then by id.
pub open spec fn cand_le(a: (i64, u32), b: (i64, u32)) -> bool {
    spec_key32(a.1) < spec_key32(b.1) || (spec_key32(a.1) == spec_key32(b.1) && a.0 <= b.0)
}

/// Non-decreasing under the candidate order.
pub open spec fn sorted_cands(s: Seq<(i64, u32)>) -> bool {
    forall|i: int, j: int| 0 <= i < j < s.len() ==> cand_le(#[trigger] s[i], #[trigger] s[j])
}

/// Executable candidate order.
pub fn cand_le_e(a: (i64, u32), b: (i64, u32)) -> (r: bool)
    ensures
        r == cand_le(a, b),
{
    let ka = key32(a.1);
    let kb = key32(b.1);
    ka < kb || (ka == kb && a.0 <= b.0)
}

/// Insert one candidate into a sorted vector, keeping it sorted.
fn insert_sorted(out: &mut Vec<(i64, u32)>, x: (i64, u32))
    requires
        sorted_cands(old(out)@),
    ensures
        sorted_cands(final(out)@),
        final(out)@.to_multiset() == old(out)@.to_multiset().insert(x),
        final(out)@.len() == old(out)@.len() + 1,
{
    let mut pos: usize = 0;
    while pos < out.len() && cand_le_e(out[pos], x)
        invariant
            pos <= out@.len(),
            sorted_cands(out@),
            *out == *old(out),
            forall|j: int| 0 <= j < pos ==> cand_le(#[trigger] out@[j], x),
        decreases out@.len() - pos,
    {
        pos = pos + 1;
    }
    let ghost s = out@;
    let ghost p = pos as int;
    out.insert(pos, x);
    proof {
        s.insert_ensures(p, x);
        // sortedness: entries before p are at most x, entries after at least x
        assert(pos < s.len() ==> !cand_le(s[p], x));
        assert forall|i: int, j: int|
            0 <= i < j < out@.len() implies cand_le(out@[i], out@[j]) by {
            if j < p {
                assert(out@[i] == s[i] && out@[j] == s[j]);
            } else if i > p {
                assert(out@[i] == s[i - 1] && out@[j] == s[j - 1]);
            } else if i < p && j == p {
                assert(out@[i] == s[i] && out@[j] == x);
            } else if i == p {
                assert(out@[i] == x && out@[j] == s[j - 1]);
                assert(!cand_le(s[p], x));
                assert(cand_le(x, s[p]));
                assert(p < j - 1 ==> cand_le(s[p], s[j - 1]));
            } else {
                // i < p < j
                assert(out@[i] == s[i] && out@[j] == s[j - 1]);
                if p < s.len() {
                    assert(cand_le(s[i], x));
                    assert(cand_le(x, s[p]));
                    assert(p <= j - 1 ==> p == j - 1 || cand_le(s[p], s[j - 1]));
                }
            }
        }
        // multiset: splitting at p turns the insertion into a push
        let front = s.subrange(0, p);
        let back = s.subrange(p, s.len() as int);
        assert(s =~= front + back);
        lemma_multiset_commutative(front, back);
        lemma_multiset_commutative(front.push(x), back);
        front.to_multiset_ensures();
        assert(out@ == front.push(x) + back);
        assert(out@.to_multiset() =~= s.to_multiset().insert(x));
    }
}

/// Sort candidates by the candidate order (insertion sort).
fn sort_cands(cands: &Vec<(i64, u32)>) -> (r: Vec<(i64, u32)>)
    ensures
        sorted_cands(r@),
        r@.to_multiset() == cands@.to_multiset(),
        r@.len() == cands@.len(),
{
    let mut out: Vec<(i64, u32)> = Vec::new();
    let mut i: usize = 0;
    proof {
        cands@.subrange(0, 0).to_multiset_ensures();
        assert(cands@.subrange(0, 0) =~= Seq::<(i64, u32)>::empty());
        assert(out@.to_multiset() =~= cands@.subrange(0, 0).to_multiset());
    }
    while i < cands.len()
        invariant
            i <= cands@.len(),
            sorted_cands(out@),
            out@.len() == i,
            out@.to_multiset() == cands@.subrange(0, i as int).to_multiset(),
        decreases cands@.len() - i,
    {
        let ghost pre = cands@.subrange(0, i as int);
        insert_sorted(&mut out, cands[i]);
        proof {
            pre.to_multiset_ensures();
            assert(cands@.subrange(0, i + 1 as int) =~= pre.push(cands@[i as int]));
            assert(pre.push(cands@[i as int]).to_multiset() =~= pre.to_multiset().insert(
                cands@[i as int],
            ));
        }
        i = i + 1;
    }
    proof {
        assert(cands@.subrange(0, cands@.len() as int) =~= cands@);
    }
    out
}

/// Select the `k` candidates of least distance, sorted by distance then id.
///
/// The result is as long as `k` allows, drawn from the candidates without
/// duplication, sorted, and optimal: every candidate occurrence not taken is
/// at least as far as every result taken.
pub fn select_topk(cands: &Vec<(i64, u32)>, k: usize) -> (r: Vec<(i64, u32)>)
    ensures
        r@.len() == (if k < cands@.len() { k as int } else { cands@.len() as int }),
        sorted_cands(r@),
        forall|x: (i64, u32)|
            #[trigger] r@.to_multiset().count(x) <= cands@.to_multiset().count(x),
        forall|x: (i64, u32)|
            r@.to_multiset().count(x) < cands@.to_multiset().count(x) ==> (forall|i: int|
                0 <= i < r@.len() ==> cand_le(#[trigger] r@[i], x)),
{
    let sorted = sort_cands(cands);
    let m: usize = if k < sorted.len() { k } else { sorted.len() };
    let mut r: Vec<(i64, u32)> = Vec::new();
    let mut i: usize = 0;
    while i < m
        invariant
            i <= m <= sorted@.len(),
            r@ == sorted@.subrange(0, i as int),
        decreases m - i,
    {
        let ghost pre = r@;
        r.push(sorted[i]);
        proof {
            assert(r@ =~= sorted@.subrange(0, i + 1 as int));
        }
        i = i + 1;
    }
    proof {
        let sq = sorted@;
        let front = sq.subrange(0, m as int);
        let back = sq.subrange(m as int, sq.len() as int);
        assert(r@ == front);
        assert(sq =~= front + back);
        lemma_multiset_commutative(front, back);
        sq.to_multiset_ensures();
        front.to_multiset_ensures();
        back.to_multiset_ensures();
        assert forall|x: (i64, u32)|
            #[trigger] r@.to_multiset().count(x) <= cands@.to_multiset().count(x) by {
            assert(sq.to_multiset().count(x) == front.to_multiset().count(x)
                + back.to_multiset().count(x));
        }
        assert forall|x: (i64, u32)|
            r@.to_multiset().count(x) < cands@.to_multiset().count(x) implies (forall|i: int|
                0 <= i < r@.len() ==> cand_le(#[trigger] r@[i], x)) by {
            assert(sq.to_multiset().count(x) == front.to_multiset().count(x)
                + back.to_multiset().count(x));
            assert(back.to_multiset().count(x) > 0);
            assert(back.contains(x));
            let bj = choose|bj: int| 0 <= bj < back.len() && back[bj] == x;
            assert(sq[m + bj] == x);
            assert forall|i: int| 0 <= i < r@.len() implies cand_le(#[trigger] r@[i], x) by {
                assert(r@[i] == sq[i]);
                assert(i < m + bj);
                assert(cand_le(sq[i], sq[m + bj]));
            }
        }
    }
    r
}

} // verus!
