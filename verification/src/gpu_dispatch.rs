//! The device-side arithmetic of the accelerated search: input validation,
//! corpus partitioning across devices, and the merge of per-device results.
//!
//! The kernel launch itself is runtime work the library does not perform;
//! the shell around it feeds each device its partition, collects the
//! `(local index, distance)` pairs, and hands them back here, where the
//! local indices are offset by the partition start, concatenated and
//! reduced by the same selection that serves the plain search.

use vstd::prelude::*;
use crate::errors::GpuError;
use crate::topk::{cand_le, sorted_cands, select_topk};


verus! {

/// Check the flattened query and corpus shapes of a device call: nothing
/// empty, both consistent with the dimension and the advertised counts.
pub fn validate_l2_inputs(
    queries_len: usize,
    corpus_len: usize,
    dim: usize,
    n_queries: usize,
    n_vectors: usize,
) -> (r: Result<(), GpuError>)
    ensures
        r is Ok <==> (queries_len > 0 && corpus_len > 0 && dim > 0 && queries_len == n_queries
            * dim && corpus_len == n_vectors * dim),
        r matches Err(e) ==> e is InvalidInput,
{
    if queries_len == 0 || corpus_len == 0 || dim == 0 {
        return Err(GpuError::InvalidInput("empty input arrays".to_string()));
    }
    proof {
        assert((n_queries as u128) * (dim as u128) < 0x1_0000_0000_0000_0000_0000_0000_0000_0000)
            by (nonlinear_arith)
            requires
                (n_queries as u128) < 0x1_0000_0000_0000_0000u128
                    && (dim as u128) < 0x1_0000_0000_0000_0000u128;
        assert((n_vectors as u128) * (dim as u128) < 0x1_0000_0000_0000_0000_0000_0000_0000_0000)
            by (nonlinear_arith)
            requires
                (n_vectors as u128) < 0x1_0000_0000_0000_0000u128
                    && (dim as u128) < 0x1_0000_0000_0000_0000u128;
    }
    let qprod: u128 = (n_queries as u128) * (dim as u128);
    if (queries_len as u128) != qprod {
        return Err(GpuError::InvalidInput(
            "query array size does not match the dimensions".to_string(),
        ));
    }
    let cprod: u128 = (n_vectors as u128) * (dim as u128);
    if (corpus_len as u128) != cprod {
        return Err(GpuError::InvalidInput(
            "corpus array size does not match the dimensions".to_string(),
        ));
    }
    Ok(())
}

/// The partition bounds of `total` vectors over `n_dev` devices: device `i`
/// serves vectors `[i*per, ...)`, the last device taking the remainder.
pub open spec fn spec_partition_start(total: nat, n_dev: nat, i: nat) -> nat {
    i * (total / n_dev)
}

/// Split a flat corpus across devices: chunk `i` is the contiguous run of
/// whole vectors from `spec_partition_start(total, n, i) * dim` to the next
/// partition start, the last device absorbing the remainder.  Fails exactly
/// when no devices are given or the corpus is not whole vectors.
pub fn distribute_data(data: &Vec<u32>, dim: usize, devices: &Vec<usize>) -> (r: Result<
    Vec<(usize, Vec<u32>)>,
    GpuError,
>)
    requires
        dim > 0,
    ensures
        r is Ok <==> (devices@.len() > 0 && data@.len() % (dim as nat) == 0),
        r matches Err(e) ==> e is InvalidInput,
        r matches Ok(chunks) ==> {
            let total = data@.len() / (dim as nat);
            let nd = devices@.len();
            &&& chunks@.len() == nd
            &&& forall|i: int|
                0 <= i < chunks@.len() ==> (#[trigger] chunks@[i]).0 == devices@[i]
            &&& forall|i: int|
                0 <= i < chunks@.len() ==> (#[trigger] chunks@[i]).1@ == data@.subrange(
                    spec_partition_start(total, nd, i as nat) * dim as int,
                    if i == nd - 1 {
                        data@.len() as int
                    } else {
                        spec_partition_start(total, nd, (i + 1) as nat) * dim as int
                    },
                )
        },
{
    if devices.len() == 0 {
        return Err(GpuError::InvalidInput("no devices to distribute over".to_string()));
    }
    if data.len() % dim != 0 {
        return Err(GpuError::InvalidInput(
            "corpus length is not a whole number of vectors".to_string(),
        ));
    }
    let total = data.len() / dim;
    let per = total / devices.len();
    proof {
        vstd::arithmetic::div_mod::lemma_fundamental_div_mod(data@.len() as int, dim as int);
        vstd::arithmetic::div_mod::lemma_fundamental_div_mod(total as int, devices@.len() as int);
    }
    let mut out: Vec<(usize, Vec<u32>)> = Vec::new();
    let mut i: usize = 0;
    while i < devices.len()
        invariant
            dim > 0,
            devices@.len() > 0,
            data@.len() % (dim as nat) == 0,
            total == data@.len() / (dim as nat),
            per == (data@.len() / (dim as nat)) / devices@.len(),
            i <= devices@.len(),
            out@.len() == i,
            forall|j: int| 0 <= j < i ==> (#[trigger] out@[j]).0 == devices@[j],
            forall|j: int|
                0 <= j < i ==> (#[trigger] out@[j]).1@ == data@.subrange(
                    spec_partition_start(
                        data@.len() / (dim as nat),
                        devices@.len(),
                        j as nat,
                    ) * dim as int,
                    if j == devices@.len() - 1 {
                        data@.len() as int
                    } else {
                        spec_partition_start(
                            data@.len() / (dim as nat),
                            devices@.len(),
                            (j + 1) as nat,
                        ) * dim as int
                    },
                ),
        decreases devices@.len() - i,
    {
        proof {
            lemma_partition_in_range(data@.len() as nat, dim as nat, devices@.len(), i as nat);
            lemma_partition_in_range(
                data@.len() as nat,
                dim as nat,
                devices@.len(),
                (i + 1) as nat,
            );
        }
        let start = mul_clamped(i, per, dim, data.len());
        proof {
            assert(start == spec_partition_start(total as nat, devices@.len(), i as nat) * dim);
        }
        let end0 = if i + 1 == devices.len() {
            data.len()
        } else {
            mul_clamped(i + 1, per, dim, data.len())
        };
        proof {
            if i + 1 < devices@.len() {
                assert(end0 == spec_partition_start(
                    total as nat,
                    devices@.len(),
                    (i + 1) as nat,
                ) * dim);
            }
            let ghost pern = (total as nat) / devices@.len();
            assert((i as nat) * pern * (dim as nat) <= ((i + 1) as nat) * pern * (dim as nat))
                by (nonlinear_arith);
            assert(start <= end0);
        }
        let end = end0;
        let mut chunk: Vec<u32> = Vec::new();
        let mut p: usize = start;
        while p < end
            invariant
                start <= end <= data@.len(),
                start <= p <= end,
                chunk@ == data@.subrange(start as int, p as int),
            decreases end - p,
        {
            proof {
                assert(data@.subrange(start as int, p + 1 as int) =~= data@.subrange(
                    start as int,
                    p as int,
                ).push(data@[p as int]));
            }
            chunk.push(data[p]);
            p = p + 1;
        }
        proof {
            assert(chunk@ == data@.subrange(start as int, end as int));
        }
        out.push((devices[i], chunk));
        i = i + 1;
    }
    Ok(out)
}

/// Every partition boundary sits inside the corpus.
proof fn lemma_partition_in_range(len: nat, dim: nat, nd: nat, i: nat)
    requires
        dim > 0,
        nd > 0,
        len % dim == 0,
        i <= nd,
    ensures
        spec_partition_start(len / dim, nd, i) * dim <= len,
{
    let total = len / dim;
    let per = total / nd;
    vstd::arithmetic::div_mod::lemma_fundamental_div_mod(len as int, dim as int);
    vstd::arithmetic::div_mod::lemma_fundamental_div_mod(total as int, nd as int);
    assert(i * per <= total) by (nonlinear_arith)
        requires
            i <= nd && per == total as int / nd as int && total as int == (total as int
                / nd as int) * nd as int + total as int % nd as int && total as int % nd as int
                >= 0 && per >= 0;
    assert(i * per * dim <= total * dim) by (nonlinear_arith)
        requires i * per <= total && dim > 0;
    assert(total * dim == len) by (nonlinear_arith)
        requires
            len as int == (len as int / dim as int) * dim as int + len as int % dim as int
                && len % dim == 0 && total == len / dim;
}

/// `i * per * dim`, clamped to the corpus length so every bound is a valid
/// offset.
fn mul_clamped(i: usize, per: usize, dim: usize, len: usize) -> (r: usize)
    requires
        dim >= 1,
    ensures
        r <= len,
        (i as nat) * (per as nat) * (dim as nat) <= len ==> r == (i as nat) * (per as nat) * (
        dim as nat),
{
    proof {
        assert((i as u128) * (per as u128) < 0x1_0000_0000_0000_0000_0000_0000_0000_0000)
            by (nonlinear_arith)
            requires
                (i as u128) < 0x1_0000_0000_0000_0000u128
                    && (per as u128) < 0x1_0000_0000_0000_0000u128;
    }
    let ip: u128 = (i as u128) * (per as u128);
    if ip > len as u128 {
        proof {
            if (i as nat) * (per as nat) * (dim as nat) <= len {
                assert((i as nat) * (per as nat) <= (i as nat) * (per as nat) * (dim as nat))
                    by (nonlinear_arith)
                    requires dim >= 1;
                assert(false);
            }
        }
        return len;
    }
    let a: u128 = ip;
    proof {
        assert(a * (dim as u128) < 0x1_0000_0000_0000_0000_0000_0000_0000_0000)
            by (nonlinear_arith)
            requires
                a <= (len as u128) && (len as u128) < 0x1_0000_0000_0000_0000u128
                    && (dim as u128) < 0x1_0000_0000_0000_0000u128;
    }
    let b: u128 = a * (dim as u128);
    if b > len as u128 {
        proof {
            assert(a * (dim as u128) == (i as nat) * (per as nat) * (dim as nat))
                by (nonlinear_arith)
                requires a == (i as u128) * (per as u128);
        }
        return len;
    }
    proof {
        assert(a * (dim as u128) == (i as nat) * (per as nat) * (dim as nat))
            by (nonlinear_arith)
            requires a == (i as u128) * (per as u128);
    }
    b as usize
}

/// The pairs one device contributes: each local index offset by the
/// device's partition start, saturating at the id range.
pub open spec fn offset_pair(offset: usize, p: (i64, u32)) -> (i64, u32) {
    let off: i64 = if (offset as u64) > 0x7fff_ffff_ffff_ffffu64 {
        i64::MAX
    } else {
        offset as i64
    };
    let global: i64 = if p.0 <= i64::MAX - off { (p.0 + off) as i64 } else { i64::MAX };
    (global, p.1)
}

/// One device's offset pairs, in order.
pub open spec fn device_pairs(e: (usize, Vec<(i64, u32)>)) -> Seq<(i64, u32)> {
    Seq::new(e.1@.len(), |j: int| offset_pair(e.0, e.1@[j]))
}

/// The concatenation of the first `n` devices' offset pairs.
pub open spec fn merged_pairs(partials: Seq<(usize, Vec<(i64, u32)>)>, n: int) -> Seq<(i64, u32)>
    decreases n,
{
    if n <= 0 {
        Seq::empty()
    } else {
        merged_pairs(partials, n - 1) + device_pairs(partials[n - 1])
    }
}

/// Merge per-device `(local index, distance)` results: offset each local
/// index by its device's partition start, concatenate, and keep the `k`
/// nearest under the same selection as the plain search: sorted, drawn
/// from the merged pairs without over-counting, and optimal.
pub fn merge_device_results(partials: &Vec<(usize, Vec<(i64, u32)>)>, k: usize) -> (r: Vec<
    (i64, u32),
>)
    ensures
        ({
            let merged = merged_pairs(partials@, partials@.len() as int);
            &&& r@.len() == (if (k as int) < merged.len() {
                k as int
            } else {
                merged.len() as int
            })
            &&& sorted_cands(r@)
            &&& forall|x: (i64, u32)|
                #[trigger] r@.to_multiset().count(x) <= merged.to_multiset().count(x)
            &&& forall|x: (i64, u32)|
                r@.to_multiset().count(x) < merged.to_multiset().count(x) ==> (forall|t: int|
                    0 <= t < r@.len() ==> cand_le(#[trigger] r@[t], x))
        }),
{
    let mut all: Vec<(i64, u32)> = Vec::new();
    let mut i: usize = 0;
    while i < partials.len()
        invariant
            i <= partials@.len(),
            all@ == merged_pairs(partials@, i as int),
        decreases partials@.len() - i,
    {
        let offset = partials[i].0;
        let m = partials[i].1.len();
        let mut j: usize = 0;
        while j < m
            invariant
                i < partials@.len(),
                offset == partials@[i as int].0,
                m == partials@[i as int].1@.len(),
                j <= m,
                all@ == merged_pairs(partials@, i as int) + device_pairs(
                    partials@[i as int],
                ).subrange(0, j as int),
            decreases m - j,
        {
            let (local, dist) = partials[i].1[j];
            let off: i64 = if (offset as u64) > 0x7fff_ffff_ffff_ffffu64 {
                i64::MAX
            } else {
                offset as i64
            };
            let global: i64 = if local <= i64::MAX - off {
                local + off
            } else {
                i64::MAX
            };
            proof {
                let pe = partials@[i as int];
                assert(pe.0 == offset);
                assert(local == pe.1@[j as int].0 && dist == pe.1@[j as int].1);
                assert(off == (if ((pe.0) as u64) > 0x7fff_ffff_ffff_ffffu64 {
                    i64::MAX
                } else {
                    (pe.0) as i64
                }));
                assert(global == (if pe.1@[j as int].0 <= i64::MAX - off {
                    (pe.1@[j as int].0 + off) as i64
                } else {
                    i64::MAX
                }));
                assert((global, dist) == offset_pair(
                    partials@[i as int].0,
                    partials@[i as int].1@[j as int],
                ));
                assert(device_pairs(partials@[i as int]).subrange(0, j + 1 as int)
                    =~= device_pairs(partials@[i as int]).subrange(0, j as int).push(
                    device_pairs(partials@[i as int])[j as int],
                ));
            }
            all.push((global, dist));
            j = j + 1;
        }
        proof {
            assert(device_pairs(partials@[i as int]).subrange(
                0,
                device_pairs(partials@[i as int]).len() as int,
            ) =~= device_pairs(partials@[i as int]));
            assert(all@ =~= merged_pairs(partials@, i + 1 as int));
        }
        i = i + 1;
    }
    proof {
        assert(all@ == merged_pairs(partials@, partials@.len() as int));
    }
    select_topk(&all, k)
}

} // verus!
