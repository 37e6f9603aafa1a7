//! Free-standing helpers: the legacy path check and the distance fan-out
//! over a plain entry list.

use vstd::prelude::*;
use crate::index::Entry;
use crate::metrics::{
    Distance, dot_acc, spec_euclid, spec_cosine, spec_jaccard, man_acc, cheb_acc, ham_acc,
    canb_acc, euclidean32, cosine32, manhattan32, chebyshev32, hamming32, jaccard32, canberra32,
    angular32, minkowski32, spec_angular32, spec_minkowski32,
};
use crate::topk::{cand_le, select_topk};
use vstd::string::StringSliceAdditionalSpecFns;
use vstd::string::StrSliceExecFns;

verus! {

/// A slash or backslash anywhere.
pub open spec fn has_separator(b: Seq<u8>) -> bool {
    exists|i: int| 0 <= i < b.len() && ((#[trigger] b[i]) == 47 || b[i] == 92)
}

/// Two consecutive dots anywhere.
pub open spec fn has_dotdot_bytes(b: Seq<u8>) -> bool {
    exists|i: int| 0 <= i && i + 1 < b.len() && (#[trigger] b[i]) == 46 && b[i + 1] == 46
}

/// The legacy path check: refuse traversal runs and directory separators,
/// hand anything else back unchanged.
pub fn validate_path(path: &str) -> (r: Result<String, &'static str>)
    ensures
        r is Ok <==> (!has_dotdot_bytes(path.spec_bytes()) && !has_separator(
            path.spec_bytes(),
        )),
        r matches Ok(p) ==> p@ == path@,
{
    let bytes = path.as_bytes_vec();
    let mut i: usize = 0;
    while i < bytes.len()
        invariant
            bytes@ == path.spec_bytes(),
            i <= bytes@.len(),
            forall|j: int|
                0 <= j && j + 1 <= i && j + 1 < bytes@.len() ==> !((#[trigger] bytes@[j]) == 46
                    && bytes@[j + 1] == 46),
        decreases bytes@.len() - i,
    {
        if i + 1 < bytes.len() && bytes[i] == 46 && bytes[i + 1] == 46 {
            assert(has_dotdot_bytes(bytes@));
            return Err("Path must not contain traversal sequences");
        }
        i = i + 1;
    }
    i = 0;
    while i < bytes.len()
        invariant
            bytes@ == path.spec_bytes(),
            i <= bytes@.len(),
            forall|j: int| 0 <= j < i ==> !((#[trigger] bytes@[j]) == 47 || bytes@[j] == 92),
        decreases bytes@.len() - i,
    {
        if bytes[i] == 47 || bytes[i] == 92 {
            assert(has_separator(bytes@));
            return Err("Path must not contain directory separators");
        }
        i = i + 1;
    }
    proof {
        if has_dotdot_bytes(bytes@) {
            let j = choose|j: int|
                0 <= j && j + 1 < bytes@.len() && (#[trigger] bytes@[j]) == 46
                    && bytes@[j + 1] == 46;
        }
        if has_separator(bytes@) {
            let j = choose|j: int|
                0 <= j < bytes@.len() && ((#[trigger] bytes@[j]) == 47 || bytes@[j] == 92);
        }
    }
    Ok(path.to_string())
}

/// This helper's dispatch is pinned exactly by the binary32 model for
/// every tag (a custom tag falls back to the Euclidean kernel here, as
/// this helper carries no registry), so this always holds; it is kept as
/// the guard the contracts dispatch on.
pub open spec fn helper_modeled(metric: Distance, mp: Option<u32>) -> bool {
    true
}

/// The spec distance this helper computes for one entry.
pub open spec fn helper_dist(
    metric: Distance,
    mp: Option<u32>,
    q: Seq<u32>,
    v: Seq<u32>,
    q_sq: u32,
    v_sq: u32,
) -> u32 {
    match mp {
        Some(p) => spec_minkowski32(q, v, p),
        None => match metric {
            Distance::Euclidean => spec_euclid(v_sq, q_sq, dot_acc(v, q, v.len() as int)),
            Distance::Cosine => spec_cosine(v_sq, q_sq, dot_acc(v, q, v.len() as int)),
            Distance::Manhattan => man_acc(q, v, q.len() as int),
            Distance::Chebyshev => cheb_acc(q, v, q.len() as int),
            Distance::Minkowski(p) => spec_minkowski32(q, v, p),
            Distance::Hamming => ham_acc(q, v, q.len() as int),
            Distance::Jaccard => spec_jaccard(q, v),
            Distance::Angular => spec_angular32(q, v, q_sq, v_sq),
            Distance::Canberra => canb_acc(q, v, q.len() as int),
            Distance::Custom(_) => spec_euclid(v_sq, q_sq, dot_acc(v, q, v.len() as int)),
        },
    }
}

/// The (id, spec distance) pairs of the first `n` entries.
pub open spec fn entry_pairs(
    entries: Seq<Entry>,
    metric: Distance,
    mp: Option<u32>,
    q: Seq<u32>,
    q_sq: u32,
    n: int,
) -> Seq<(i64, u32)>
    decreases n,
{
    if n <= 0 {
        Seq::empty()
    } else {
        entry_pairs(entries, metric, mp, q, q_sq, n - 1).push(
            (
                entries[n - 1].id,
                helper_dist(metric, mp, q, entries[n - 1].vector@, q_sq, entries[n - 1].sq_norm),
            ),
        )
    }
}

/// Distances from a query to every entry of a plain list, reduced to the
/// `k` nearest: ids and distances pair up, arrive sorted by distance key
/// then id, and never number more than `min(k, entries)`.  When the
/// dispatch is modeled exactly, the answer is drawn from the entries' (id,
/// spec distance) pairs without over-counting and optimally.
pub fn compute_distances_with_ids(
    entries: &Vec<Entry>,
    query: &Vec<u32>,
    query_sq_norm: u32,
    metric: &Distance,
    minkowski_p: Option<u32>,
    k: usize,
) -> (r: (Vec<i64>, Vec<u32>))
    requires
        query@.len() < 0x1000_0000,
        forall|i: int|
            0 <= i < entries@.len() ==> (#[trigger] entries@[i]).vector@.len() == query@.len(),
    ensures
        r.0@.len() == r.1@.len(),
        r.0@.len() == (if k < entries@.len() { k as int } else { entries@.len() as int }),
        forall|a: int, b: int|
            0 <= a < b < r.0@.len() ==> cand_le((r.0@[a], r.1@[a]), (r.0@[b], r.1@[b])),
        helper_modeled(*metric, minkowski_p) ==> ({
            let pairs = entry_pairs(
                entries@,
                *metric,
                minkowski_p,
                query@,
                query_sq_norm,
                entries@.len() as int,
            );
            let taken = crate::index::zip_pairs(r.0@, r.1@);
            &&& forall|x: (i64, u32)|
                #[trigger] taken.to_multiset().count(x) <= pairs.to_multiset().count(x)
            &&& forall|x: (i64, u32)|
                taken.to_multiset().count(x) < pairs.to_multiset().count(x) ==> (forall|t: int|
                    0 <= t < taken.len() ==> cand_le(#[trigger] taken[t], x))
        }),
{
    let mut cands: Vec<(i64, u32)> = Vec::new();
    let mut i: usize = 0;
    while i < entries.len()
        invariant
            query@.len() < 0x1000_0000,
            forall|j: int|
                0 <= j < entries@.len() ==> (#[trigger] entries@[j]).vector@.len()
                    == query@.len(),
            i <= entries@.len(),
            cands@.len() == i,
            helper_modeled(*metric, minkowski_p) ==> cands@ == entry_pairs(
                entries@,
                *metric,
                minkowski_p,
                query@,
                query_sq_norm,
                i as int,
            ),
        decreases entries@.len() - i,
    {
        let e = &entries[i];
        let d: u32 = match minkowski_p {
            Some(p) => minkowski32(query, &e.vector, p),
            None => {
                match metric {
                    Distance::Euclidean => euclidean32(query, &e.vector, query_sq_norm, e.sq_norm),
                    Distance::Cosine => cosine32(query, &e.vector, query_sq_norm, e.sq_norm),
                    Distance::Manhattan => manhattan32(query, &e.vector),
                    Distance::Chebyshev => chebyshev32(query, &e.vector),
                    Distance::Minkowski(p) => minkowski32(query, &e.vector, *p),
                    Distance::Hamming => hamming32(query, &e.vector),
                    Distance::Jaccard => jaccard32(query, &e.vector),
                    Distance::Angular => angular32(query, &e.vector, query_sq_norm, e.sq_norm),
                    Distance::Canberra => canberra32(query, &e.vector),
                    Distance::Custom(_) => euclidean32(query, &e.vector, query_sq_norm, e.sq_norm),
                }
            },
        };
        cands.push((e.id, d));
        i = i + 1;
    }
    let top = select_topk(&cands, k);
    proof {
        cands@.to_multiset_ensures();
        top@.to_multiset_ensures();
    }
    let mut ids: Vec<i64> = Vec::new();
    let mut dists: Vec<u32> = Vec::new();
    let mut t: usize = 0;
    while t < top.len()
        invariant
            t <= top@.len(),
            ids@.len() == t,
            dists@.len() == t,
            forall|a: int| 0 <= a < t ==> (ids@[a], dists@[a]) == #[trigger] top@[a],
            forall|a: int, b: int|
                0 <= a < b < top@.len() ==> cand_le(#[trigger] top@[a], #[trigger] top@[b]),
            top@.len() == (if k < cands@.len() { k as int } else { cands@.len() as int }),
            cands@.len() == entries@.len(),
            helper_modeled(*metric, minkowski_p) ==> cands@ == entry_pairs(
                entries@,
                *metric,
                minkowski_p,
                query@,
                query_sq_norm,
                entries@.len() as int,
            ),
            forall|x: (i64, u32)|
                #[trigger] top@.to_multiset().count(x) <= cands@.to_multiset().count(x),
            forall|x: (i64, u32)|
                top@.to_multiset().count(x) < cands@.to_multiset().count(x) ==> (forall|a: int|
                    0 <= a < top@.len() ==> cand_le(#[trigger] top@[a], x)),
        decreases top@.len() - t,
    {
        ids.push(top[t].0);
        dists.push(top[t].1);
        t = t + 1;
    }
    proof {
        assert forall|a: int, b: int|
            0 <= a < b < ids@.len() implies cand_le((ids@[a], dists@[a]), (ids@[b], dists@[b])) by {
            assert((ids@[a], dists@[a]) == top@[a]);
            assert((ids@[b], dists@[b]) == top@[b]);
            assert(cand_le(top@[a], top@[b]));
        }
        assert(crate::index::zip_pairs(ids@, dists@) =~= top@);
    }
    (ids, dists)
}

} // verus!
