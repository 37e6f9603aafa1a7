//! Per-device cache of reusable byte buffers with exact accounting.
//!
//! Buffers are keyed by `(size, precision)`.  Taking a buffer pops a cached
//! one of the same key when present (a cache hit) or allocates fresh zeroed
//! bytes; either way the `allocated` counter grows by the buffer length and
//! the peak watermark follows it.  Returning a buffer caches it again when
//! its length matches the key and the counter sits below the configured
//! bound, and always releases its bytes from the counter.  Emergency
//! cleanup drops every cached buffer and zeroes the counter, leaving the
//! peak as a high-water record.  The round trip of the specification -
//! take, return, take the same key - is the composition of these exact
//! contracts: the second take is a cache hit and the counter ends where the
//! first take left it.

use vstd::prelude::*;
use crate::gpu_convert::{Precision, spec_element_size};
use crate::float_bits::{
    ONE32, round32, div32, lt32, is_nan32_e, spec_round32, spec_div32, spec_lt32, is_nan32,
};

verus! {

/// Cached buffers of one `(size, precision)` key.
pub struct PoolBucket {
    pub size: usize,
    pub precision: Precision,
    pub buffers: Vec<Vec<u8>>,
}

/// One device's cache and counters.
pub struct DevicePool {
    pub device_id: usize,
    pub buckets: Vec<PoolBucket>,
    pub allocated: usize,
    pub peak_usage: usize,
    pub max_pool_size: usize,
}

/// The process-wide pool, one entry per device seen so far.
pub struct GpuMemoryPool {
    pub devices: Vec<DevicePool>,
}

/// One device's cache is well formed: no key repeats, every cached buffer
/// has the byte length its key promises, and the counter never exceeds its
/// own high-water mark.
pub open spec fn dev_wf(d: DevicePool) -> bool {
    &&& d.allocated <= d.peak_usage
    &&& forall|i: int, j: int|
        0 <= i < j < d.buckets@.len() ==> !((#[trigger] d.buckets@[i]).size == (
        #[trigger] d.buckets@[j]).size && d.buckets@[i].precision == d.buckets@[j].precision)
    &&& forall|i: int, l: int|
        0 <= i < d.buckets@.len() && 0 <= l < (#[trigger] d.buckets@[i]).buffers@.len()
            ==> (#[trigger] d.buckets@[i].buffers@[l])@.len() == d.buckets@[i].size
            * spec_element_size(d.buckets@[i].precision)
}

/// The pool is well formed: device ids unique, every device well formed.
pub open spec fn pool_wf(p: GpuMemoryPool) -> bool {
    &&& forall|i: int, j: int|
        0 <= i < j < p.devices@.len() ==> (#[trigger] p.devices@[i]).device_id != (
        #[trigger] p.devices@[j]).device_id
    &&& forall|i: int| 0 <= i < p.devices@.len() ==> dev_wf(#[trigger] p.devices@[i])
}

/// Whether the pool has an entry for this device.
pub open spec fn has_device(p: GpuMemoryPool, device_id: usize) -> bool {
    exists|i: int| 0 <= i < p.devices@.len() && (#[trigger] p.devices@[i]).device_id == device_id
}

/// The entry serving this device (meaningful when `has_device`).
pub open spec fn device_of(p: GpuMemoryPool, device_id: usize) -> DevicePool {
    p.devices@[choose|i: int|
        0 <= i < p.devices@.len() && (#[trigger] p.devices@[i]).device_id == device_id]
}

/// Whether a device caches anything under this key.
pub open spec fn has_bucket(d: DevicePool, size: usize, precision: Precision) -> bool {
    exists|b: int|
        0 <= b < d.buckets@.len() && (#[trigger] d.buckets@[b]).size == size
            && d.buckets@[b].precision == precision
}

/// How many buffers a device caches under this key.
pub open spec fn bucket_count(d: DevicePool, size: usize, precision: Precision) -> nat {
    if has_bucket(d, size, precision) {
        d.buckets@[choose|b: int|
            0 <= b < d.buckets@.len() && (#[trigger] d.buckets@[b]).size == size
                && d.buckets@[b].precision == precision].buffers@.len()
    } else {
        0
    }
}

/// Saturating addition on machine words, as the counters use it.
pub open spec fn spec_sat_add(a: nat, b: nat) -> nat {
    if a + b <= usize::MAX { a + b } else { usize::MAX as nat }
}

/// The pool transition `return_buffer` performs for a buffer of `blen`
/// bytes under key `(size, precision)`: a no-op without a device entry;
/// otherwise the clamped counter release, caching exactly under the
/// reference rule (arriving counter below the bound) with the deliberate
/// length guard, everything else framed.
pub open spec fn return_effect(
    p0: GpuMemoryPool,
    p1: GpuMemoryPool,
    device_id: usize,
    blen: nat,
    size: usize,
    precision: Precision,
) -> bool {
    &&& (!has_device(p0, device_id) ==> p1 == p0)
    &&& (has_device(p0, device_id) ==> {
        let dold = device_of(p0, device_id);
        let dnew = device_of(p1, device_id);
        let freed = (if blen <= dold.allocated {
            dold.allocated - blen
        } else {
            0int
        });
        let cached = blen == size * spec_element_size(precision) && dold.allocated
            < dold.max_pool_size;
        &&& p1.devices@.len() == p0.devices@.len()
        &&& dnew.device_id == device_id
        &&& dnew.allocated == freed
        &&& dnew.peak_usage == dold.peak_usage
        &&& dnew.max_pool_size == dold.max_pool_size
        &&& bucket_count(dnew, size, precision) == bucket_count(dold, size, precision) + (
        if cached {
            1int
        } else {
            0int
        })
        &&& forall|s2: usize, p2: Precision|
            !(s2 == size && p2 == precision) ==> bucket_count(dnew, s2, p2) == bucket_count(
                dold,
                s2,
                p2,
            )
        &&& forall|i: int|
            0 <= i < p1.devices@.len() && (#[trigger] p1.devices@[i]).device_id != device_id
                ==> p1.devices@[i] == p0.devices@[i]
    })
}

/// The pool transition `get_buffer` performs when handing out `data` for
/// `(device, size, precision)`: the device entry exists afterwards (fresh
/// with the default bound on first use), the buffer has the key's length,
/// the counter grows by it with the peak in tow, the key's cache pops on a
/// hit or stays empty on a miss (zero-filled bytes then), other keys are
/// framed except that a miss under allocation pressure may shrink them,
/// and other devices are untouched.
pub open spec fn take_effect(
    p0: GpuMemoryPool,
    p1: GpuMemoryPool,
    device_id: usize,
    size: usize,
    precision: Precision,
    data: Seq<u8>,
) -> bool {
    let dnew = device_of(p1, device_id);
    let old_alloc: nat = if has_device(p0, device_id) {
        device_of(p0, device_id).allocated as nat
    } else {
        0nat
    };
    let old_peak: nat = if has_device(p0, device_id) {
        device_of(p0, device_id).peak_usage as nat
    } else {
        0nat
    };
    let old_max: nat = if has_device(p0, device_id) {
        device_of(p0, device_id).max_pool_size as nat
    } else {
        0x4000_0000nat
    };
    let old_count: nat = if has_device(p0, device_id) {
        bucket_count(device_of(p0, device_id), size, precision)
    } else {
        0nat
    };
    &&& has_device(p1, device_id)
    &&& data.len() == size * spec_element_size(precision)
    &&& dnew.device_id == device_id
    &&& dnew.allocated == spec_sat_add(old_alloc, data.len())
    &&& dnew.peak_usage == (if old_peak >= dnew.allocated {
        old_peak as int
    } else {
        dnew.allocated as int
    })
    &&& dnew.max_pool_size == old_max
    &&& bucket_count(dnew, size, precision) == (if old_count > 0 {
        old_count - 1
    } else {
        0int
    })
    &&& !(old_count == 0 && spec_sat_add(old_alloc, data.len()) > old_max) ==> (forall|
        s2: usize,
        p2: Precision,
    |
        !(s2 == size && p2 == precision) ==> bucket_count(dnew, s2, p2) == (if has_device(
            p0,
            device_id,
        ) {
            bucket_count(device_of(p0, device_id), s2, p2)
        } else {
            0nat
        }))
    &&& (old_count == 0 && spec_sat_add(old_alloc, data.len()) > old_max) ==> (forall|
        s2: usize,
        p2: Precision,
    |
        #[trigger] bucket_count(dnew, s2, p2) <= (if has_device(p0, device_id) {
            bucket_count(device_of(p0, device_id), s2, p2)
        } else {
            0nat
        }))
    &&& old_count == 0 ==> (forall|l: int| 0 <= l < data.len() ==> data[l] == 0u8)
    &&& forall|i: int|
        0 <= i < p1.devices@.len() && (#[trigger] p1.devices@[i]).device_id != device_id
            ==> 0 <= i < p0.devices@.len() && p1.devices@[i] == p0.devices@[i]
}

/// With unique device ids, the entry found at an index is the device entry.
proof fn lemma_device_at(p: GpuMemoryPool, device_id: usize, i: int)
    requires
        pool_wf(p),
        0 <= i < p.devices@.len(),
        p.devices@[i].device_id == device_id,
    ensures
        has_device(p, device_id),
        device_of(p, device_id) == p.devices@[i],
{
    assert(has_device(p, device_id));
    let j = choose|j: int|
        0 <= j < p.devices@.len() && (#[trigger] p.devices@[j]).device_id == device_id;
    if i != j {
        assert(false);
    }
}

/// With unique keys, the bucket found at an index is the key's bucket.
proof fn lemma_bucket_at(d: DevicePool, size: usize, precision: Precision, b: int)
    requires
        dev_wf(d),
        0 <= b < d.buckets@.len(),
        d.buckets@[b].size == size,
        d.buckets@[b].precision == precision,
    ensures
        has_bucket(d, size, precision),
        bucket_count(d, size, precision) == d.buckets@[b].buffers@.len(),
{
    assert(has_bucket(d, size, precision));
    let j = choose|j: int|
        0 <= j < d.buckets@.len() && (#[trigger] d.buckets@[j]).size == size
            && d.buckets@[j].precision == precision;
    if b != j {
        assert(false);
    }
}

impl GpuMemoryPool {
    /// An empty pool; devices appear lazily on first use.
    pub fn new() -> (r: GpuMemoryPool)
        ensures
            pool_wf(r),
            r.devices@.len() == 0,
    {
        GpuMemoryPool { devices: Vec::new() }
    }

    /// The position of a device's entry, creating a fresh one (zero
    /// counters, empty cache, the default bound) on first use.
    fn device_slot(&mut self, device_id: usize) -> (r: usize)
        requires
            pool_wf(*old(self)),
        ensures
            pool_wf(*final(self)),
            r < final(self).devices@.len(),
            final(self).devices@[r as int].device_id == device_id,
            has_device(*final(self), device_id),
            device_of(*final(self), device_id) == final(self).devices@[r as int],
            forall|i: int|
                0 <= i < old(self).devices@.len()
                    ==> final(self).devices@[i] == old(self).devices@[i],
            has_device(*old(self), device_id) ==> (final(self).devices@ == old(self).devices@
                && device_of(*final(self), device_id) == device_of(*old(self), device_id)),
            !has_device(*old(self), device_id) ==> (final(self).devices@.len() == old(
                self,
            ).devices@.len() + 1 && r == old(self).devices@.len()
                && final(self).devices@[r as int].buckets@.len() == 0
                && final(self).devices@[r as int].allocated == 0
                && final(self).devices@[r as int].peak_usage == 0
                && final(self).devices@[r as int].max_pool_size == 0x4000_0000),
    {
        let mut i: usize = 0;
        while i < self.devices.len()
            invariant
                pool_wf(*self),
                i <= self.devices@.len(),
                *self == *old(self),
                forall|j: int| 0 <= j < i ==> (#[trigger] self.devices@[j]).device_id != device_id,
            decreases self.devices@.len() - i,
        {
            if self.devices[i].device_id == device_id {
                proof {
                    lemma_device_at(*self, device_id, i as int);
                }
                return i;
            }
            i = i + 1;
        }
        proof {
            if has_device(*self, device_id) {
                let j = choose|j: int|
                    0 <= j < self.devices@.len() && (#[trigger] self.devices@[j]).device_id
                        == device_id;
            }
        }
        let fresh = DevicePool {
            device_id,
            buckets: Vec::new(),
            allocated: 0,
            peak_usage: 0,
            max_pool_size: 0x4000_0000,
        };
        let ghost pre = self.devices@;
        self.devices.push(fresh);
        proof {
            assert forall|i1: int, j1: int|
                0 <= i1 < j1 < self.devices@.len() implies (#[trigger] self.devices@[i1])
                .device_id != (#[trigger] self.devices@[j1]).device_id by {
                if j1 < pre.len() {
                    assert(self.devices@[i1] == pre[i1] && self.devices@[j1] == pre[j1]);
                } else {
                    assert(self.devices@[i1] == pre[i1]);
                    assert(self.devices@[j1].device_id == device_id);
                }
            }
            lemma_device_at(*self, device_id, pre.len() as int);
        }
        self.devices.len() - 1
    }

    /// Take a buffer for `(device, size, precision)`.
    ///
    /// The buffer always has `size * element_size` bytes.  When the device
    /// caches one under that key it is popped (a cache hit: the key's count
    /// drops by one); otherwise fresh zeroed bytes are handed out.  Either
    /// way the device's counter grows by the buffer length, saturating at
    /// the machine bound, the peak watermark follows it, other keys and
    /// other devices are untouched, and a first use creates the device
    /// entry.
    #[verifier::rlimit(100)]
    #[verifier::spinoff_prover]
    pub fn get_buffer(&mut self, device_id: usize, size: usize, precision: Precision) -> (r: Vec<
        u8,
    >)
        requires
            pool_wf(*old(self)),
            size * spec_element_size(precision) < 0x1_0000_0000,
        ensures
            pool_wf(*final(self)),
            r@.len() == size * spec_element_size(precision),
            take_effect(*old(self), *final(self), device_id, size, precision, r@),
    {
        let slot = self.device_slot(device_id);
        let elem = precision.element_size();
        let want = size * elem;
        let ghost dold = self.devices@[slot as int];
        let nb = self.devices[slot].buckets.len();
        let mut b: usize = 0;
        let mut hit_at: usize = nb;
        let ghost snap = *self;
        while b < nb
            invariant
                *self == snap,
                pool_wf(*self),
                slot < self.devices@.len(),
                nb == self.devices@[slot as int].buckets@.len(),
                b <= nb,
                hit_at <= nb,
                hit_at < nb ==> (self.devices@[slot as int].buckets@[hit_at as int].size == size
                    && self.devices@[slot as int].buckets@[hit_at as int].precision == precision
                    && self.devices@[slot as int].buckets@[hit_at as int].buffers@.len() > 0),
                hit_at == nb ==> (forall|j: int|
                    0 <= j < b ==> !((#[trigger] self.devices@[slot as int].buckets@[j]).size
                        == size && self.devices@[slot as int].buckets@[j].precision == precision
                        && self.devices@[slot as int].buckets@[j].buffers@.len() > 0)),
            decreases nb - b,
        {
            if self.devices[slot].buckets[b].size == size && precision_eq(
                &self.devices[slot].buckets[b].precision,
                &precision,
            ) && self.devices[slot].buckets[b].buffers.len() > 0 {
                hit_at = b;
                b = nb;
            } else {
                b = b + 1;
            }
        }
        let mut cleaned = false;
        let out: Vec<u8> = if hit_at < nb {
            proof {
                lemma_bucket_at(dold, size, precision, hit_at as int);
            }
            let taken = pop_bucket(&mut self.devices, slot, hit_at);
            proof {
                // the popped buffer carries the key's length
                assert(taken@.len() == size * spec_element_size(precision));
                lemma_bucket_at(self.devices@[slot as int], size, precision, hit_at as int);
                assert forall|s2: usize, p2: Precision|
                    !(s2 == size && p2 == precision) implies bucket_count(
                    self.devices@[slot as int],
                    s2,
                    p2,
                ) == bucket_count(dold, s2, p2) by {
                    lemma_bucket_count_frame(
                        dold,
                        self.devices@[slot as int],
                        size,
                        precision,
                        s2,
                        p2,
                    );
                }
            }
            taken
        } else {
            proof {
                if bucket_count(dold, size, precision) > 0 {
                    let j = choose|j: int|
                        0 <= j < dold.buckets@.len() && (#[trigger] dold.buckets@[j]).size
                            == size && dold.buckets@[j].precision == precision;
                }
            }
            let al = self.devices[slot].allocated;
            let mx = self.devices[slot].max_pool_size;
            let satv = saturating_add(al, want);
            if satv > mx {
                cleanup_fragmented(&mut self.devices, slot);
                cleaned = true;
            }
            zero_bytes(want)
        };
        let ghost dmid = self.devices@[slot as int];
        let dlen = out.len();
        bump_counters(&mut self.devices, slot, dlen);
        proof {
            lemma_device_at(*self, device_id, slot as int);
            let dnew = self.devices@[slot as int];
            assert(dnew.buckets@ == dmid.buckets@);
            if hit_at >= nb {
                if cleaned {
                    assert forall|s2: usize, p2: Precision|
                        #[trigger] bucket_count(dnew, s2, p2) <= bucket_count(
                        dold,
                        s2,
                        p2,
                    ) by {
                        assert(bucket_count(dmid, s2, p2) <= bucket_count(dold, s2, p2));
                        assert(bucket_count(dnew, s2, p2) == bucket_count(dmid, s2, p2));
                    }
                    assert(bucket_count(dold, size, precision) == 0);
                    assert(bucket_count(dnew, size, precision) == 0);
                } else {
                    assert forall|s2: usize, p2: Precision|
                        !(s2 == size && p2 == precision) implies bucket_count(dnew, s2, p2)
                        == bucket_count(dold, s2, p2) by {
                        assert(dnew.buckets@ == dold.buckets@);
                    }
                    assert(bucket_count(dnew, size, precision) == bucket_count(
                        dold,
                        size,
                        precision,
                    )) by {
                        assert(dnew.buckets@ == dold.buckets@);
                    }
                }
            }
        }
        out
    }

    /// Return a buffer under its original key.
    ///
    /// Its bytes leave the device's counter, clamped at zero; it is cached
    /// again (the key's count grows by one) exactly when the counter as the
    /// buffer arrives sits below the configured bound - the reference
    /// semantics - and, deliberately stricter than the reference, only when
    /// its length matches the key: caching a mismatched buffer would poison
    /// the cache that `get_buffer`'s length promise stands on.  The peak,
    /// other keys, other devices, and a pool with no entry for the device
    /// are untouched.
    pub fn return_buffer(
        &mut self,
        device_id: usize,
        buffer: Vec<u8>,
        size: usize,
        precision: Precision,
    )
        requires
            pool_wf(*old(self)),
            size * spec_element_size(precision) < 0x1_0000_0000,
        ensures
            pool_wf(*final(self)),
            return_effect(*old(self), *final(self), device_id, buffer@.len(), size, precision),
    {
        let mut i: usize = 0;
        let n = self.devices.len();
        let mut slot: usize = n;
        while i < n
            invariant
                pool_wf(*self),
                *self == *old(self),
                n == self.devices@.len(),
                i <= n,
                slot <= n,
                slot < n ==> self.devices@[slot as int].device_id == device_id,
                slot == n ==> (forall|j: int|
                    0 <= j < i ==> (#[trigger] self.devices@[j]).device_id != device_id),
            decreases n - i,
        {
            if self.devices[i].device_id == device_id {
                slot = i;
                i = n;
            } else {
                i = i + 1;
            }
        }
        if slot >= n {
            // the buffer came from nowhere this pool tracks: drop it
            proof {
                if has_device(*self, device_id) {
                    let j = choose|j: int|
                        0 <= j < self.devices@.len() && (#[trigger] self.devices@[j]).device_id
                            == device_id;
                }
            }
            return;
        }
        proof {
            lemma_device_at(*self, device_id, slot as int);
        }
        let ghost dold = self.devices@[slot as int];
        let blen = buffer.len();
        let cache_ok = blen == size * precision.element_size() && self.devices[slot].allocated
            < self.devices[slot].max_pool_size;
        drop_counters(&mut self.devices, slot, blen);
        let ghost dmid = self.devices@[slot as int];
        if cache_ok {
            push_bucket(&mut self.devices, slot, buffer, size, precision);
            proof {
                lemma_device_at(*self, device_id, slot as int);
            }
        } else {
            proof {
                lemma_device_at(*self, device_id, slot as int);
                assert forall|s2: usize, p2: Precision|
                    bucket_count(dmid, s2, p2) == bucket_count(dold, s2, p2) by {
                    assert(dmid.buckets@ == dold.buckets@);
                }
            }
        }
    }

    /// The `(allocated, peak)` counters of a device: `None` exactly when
    /// the pool has no entry for it.
    pub fn memory_usage(&self, device_id: usize) -> (r: Option<(usize, usize)>)
        requires
            pool_wf(*self),
        ensures
            r is Some <==> has_device(*self, device_id),
            r matches Some(u) ==> u.0 == device_of(*self, device_id).allocated && u.1
                == device_of(*self, device_id).peak_usage && u.0 <= u.1,
    {
        let mut i: usize = 0;
        while i < self.devices.len()
            invariant
                pool_wf(*self),
                i <= self.devices@.len(),
                forall|j: int| 0 <= j < i ==> (#[trigger] self.devices@[j]).device_id != device_id,
            decreases self.devices@.len() - i,
        {
            if self.devices[i].device_id == device_id {
                proof {
                    lemma_device_at(*self, device_id, i as int);
                }
                return Some((self.devices[i].allocated, self.devices[i].peak_usage));
            }
            i = i + 1;
        }
        proof {
            if has_device(*self, device_id) {
                let j = choose|j: int|
                    0 <= j < self.devices@.len() && (#[trigger] self.devices@[j]).device_id
                        == device_id;
            }
        }
        None
    }

    /// The pressure ratio of a device as a binary32 pattern: its allocated
    /// bytes over its cache bound, each rounded to nearest, then divided.
    /// `None` exactly when the pool has no entry for the device.
    pub fn memory_pressure(&self, device_id: usize) -> (r: Option<u32>)
        requires
            pool_wf(*self),
            has_device(*self, device_id) ==> device_of(*self, device_id).allocated
                < 0x40_0000_0000_0000 && device_of(*self, device_id).max_pool_size
                < 0x40_0000_0000_0000,
        ensures
            r is Some <==> has_device(*self, device_id),
            r matches Some(b) ==> b == spec_div32(
                spec_round32(false, device_of(*self, device_id).allocated as nat, 0),
                spec_round32(false, device_of(*self, device_id).max_pool_size as nat, 0),
            ),
    {
        let mut i: usize = 0;
        while i < self.devices.len()
            invariant
                pool_wf(*self),
                i <= self.devices@.len(),
                has_device(*self, device_id) ==> device_of(*self, device_id).allocated
                    < 0x40_0000_0000_0000 && device_of(*self, device_id).max_pool_size
                    < 0x40_0000_0000_0000,
                forall|j: int| 0 <= j < i ==> (#[trigger] self.devices@[j]).device_id != device_id,
            decreases self.devices@.len() - i,
        {
            if self.devices[i].device_id == device_id {
                proof {
                    lemma_device_at(*self, device_id, i as int);
                }
                let a = round32(false, self.devices[i].allocated as u64, 0);
                let m = round32(false, self.devices[i].max_pool_size as u64, 0);
                return Some(div32(a, m));
            }
            i = i + 1;
        }
        proof {
            if has_device(*self, device_id) {
                let j = choose|j: int|
                    0 <= j < self.devices@.len() && (#[trigger] self.devices@[j]).device_id
                        == device_id;
            }
        }
        None
    }

    /// Bound a device's cached bytes, creating the device entry if needed;
    /// nothing else of the pool moves.
    pub fn set_max_pool_size(&mut self, device_id: usize, max_size: usize)
        requires
            pool_wf(*old(self)),
        ensures
            pool_wf(*final(self)),
            has_device(*final(self), device_id),
            device_of(*final(self), device_id).max_pool_size == max_size,
            device_of(*final(self), device_id).device_id == device_id,
            has_device(*old(self), device_id) ==> ({
                let dold = device_of(*old(self), device_id);
                let dnew = device_of(*final(self), device_id);
                dnew == (DevicePool { max_pool_size: max_size, ..dold })
            }),
            forall|i: int|
                0 <= i < final(self).devices@.len()
                    && (#[trigger] final(self).devices@[i]).device_id != device_id
                    ==> 0 <= i < old(self).devices@.len()
                        && final(self).devices@[i] == old(self).devices@[i],
    {
        let slot = self.device_slot(device_id);
        set_bound(&mut self.devices, slot, max_size);
        proof {
            lemma_device_at(*self, device_id, slot as int);
        }
    }

    /// Drop every cached buffer of one device and zero its counter; the
    /// peak stays as a record and other devices are untouched.
    pub fn emergency_cleanup(&mut self, device_id: usize)
        requires
            pool_wf(*old(self)),
        ensures
            pool_wf(*final(self)),
            final(self).devices@.len() == old(self).devices@.len(),
            has_device(*old(self), device_id) ==> ({
                let dold = device_of(*old(self), device_id);
                let dnew = device_of(*final(self), device_id);
                dnew == (DevicePool {
                    buckets: dnew.buckets,
                    allocated: 0,
                    ..dold
                }) && dnew.buckets@.len() == 0
            }),
            forall|i: int|
                0 <= i < final(self).devices@.len()
                    && (#[trigger] final(self).devices@[i]).device_id != device_id
                    ==> final(self).devices@[i] == old(self).devices@[i],
    {
        let mut i: usize = 0;
        let n = self.devices.len();
        while i < n
            invariant
                pool_wf(*self),
                n == self.devices@.len() == old(self).devices@.len(),
                i <= n,
                forall|j: int|
                    0 <= j < n && (#[trigger] self.devices@[j]).device_id != device_id
                        ==> self.devices@[j] == old(self).devices@[j],
                forall|j: int|
                    0 <= j < i && (#[trigger] self.devices@[j]).device_id == device_id
                        ==> self.devices@[j] == (DevicePool {
                        buckets: self.devices@[j].buckets,
                        allocated: 0,
                        ..old(self).devices@[j]
                    }) && self.devices@[j].buckets@.len() == 0,
                forall|j: int|
                    i <= j < n ==> self.devices@[j] == old(self).devices@[j],
            decreases n - i,
        {
            if self.devices[i].device_id == device_id {
                clear_device(&mut self.devices, i);
            }
            i = i + 1;
        }
        proof {
            if has_device(*old(self), device_id) {
                let j = choose|j: int|
                    0 <= j < old(self).devices@.len()
                        && (#[trigger] old(self).devices@[j]).device_id == device_id;
                assert(self.devices@[j].device_id == device_id);
                lemma_device_at(*old(self), device_id, j);
                lemma_device_at(*self, device_id, j);
            }
        }
    }

    /// Drop every cached buffer of every device and zero all counters.
    pub fn emergency_cleanup_all(&mut self)
        requires
            pool_wf(*old(self)),
        ensures
            pool_wf(*final(self)),
            final(self).devices@.len() == old(self).devices@.len(),
            forall|i: int|
                0 <= i < final(self).devices@.len()
                    ==> (#[trigger] final(self).devices@[i]).allocated == 0
                        && final(self).devices@[i].buckets@.len() == 0
                        && final(self).devices@[i].device_id == old(self).devices@[i].device_id
                        && final(self).devices@[i].peak_usage
                            == old(self).devices@[i].peak_usage,
    {
        let mut i: usize = 0;
        while i < self.devices.len()
            invariant
                pool_wf(*self),
                self.devices@.len() == old(self).devices@.len(),
                i <= self.devices@.len(),
                forall|j: int|
                    0 <= j < i ==> (#[trigger] self.devices@[j]).allocated == 0
                        && self.devices@[j].buckets@.len() == 0
                        && self.devices@[j].device_id == old(self).devices@[j].device_id
                        && self.devices@[j].peak_usage == old(self).devices@[j].peak_usage,
                forall|j: int|
                    i <= j < self.devices@.len() ==> self.devices@[j] == old(self).devices@[j],
            decreases self.devices@.len() - i,
        {
            clear_device(&mut self.devices, i);
            i = i + 1;
        }
    }

    /// Allocated and peak bytes summed over every device, each sum
    /// saturating at the machine bound.
    pub fn total_memory_usage(&self) -> (r: (usize, usize))
        requires
            pool_wf(*self),
        ensures
            r.0 == sum_allocated(self.devices@, self.devices@.len() as int),
            r.1 == sum_peak(self.devices@, self.devices@.len() as int),
            r.0 <= r.1,
    {
        let mut a: usize = 0;
        let mut p: usize = 0;
        let mut i: usize = 0;
        while i < self.devices.len()
            invariant
                pool_wf(*self),
                i <= self.devices@.len(),
                a == sum_allocated(self.devices@, i as int),
                p == sum_peak(self.devices@, i as int),
                a <= p,
            decreases self.devices@.len() - i,
        {
            a = saturating_add(a, self.devices[i].allocated);
            p = saturating_add(p, self.devices[i].peak_usage);
            i = i + 1;
        }
        (a, p)
    }
}

/// The saturating sum of the first `n` devices' allocated counters.
pub open spec fn sum_allocated(s: Seq<DevicePool>, n: int) -> nat
    decreases n,
{
    if n <= 0 {
        0nat
    } else {
        spec_sat_add(sum_allocated(s, n - 1), s[n - 1].allocated as nat)
    }
}

/// The saturating sum of the first `n` devices' peak counters.
pub open spec fn sum_peak(s: Seq<DevicePool>, n: int) -> nat
    decreases n,
{
    if n <= 0 {
        0nat
    } else {
        spec_sat_add(sum_peak(s, n - 1), s[n - 1].peak_usage as nat)
    }
}

/// Per-key counts survive a change confined to one other key.
proof fn lemma_bucket_count_frame(
    dold: DevicePool,
    dnew: DevicePool,
    cs: usize,
    cp: Precision,
    s2: usize,
    p2: Precision,
)
    requires
        dev_wf(dold),
        dnew.buckets@.len() == dold.buckets@.len(),
        forall|j: int|
            0 <= j < dold.buckets@.len() ==> (#[trigger] dnew.buckets@[j]).size
                == dold.buckets@[j].size && dnew.buckets@[j].precision
                == dold.buckets@[j].precision,
        forall|j: int|
            0 <= j < dold.buckets@.len() && !((#[trigger] dold.buckets@[j]).size == cs
                && dold.buckets@[j].precision == cp) ==> dnew.buckets@[j] == dold.buckets@[j],
        !(s2 == cs && p2 == cp),
    ensures
        has_bucket(dnew, s2, p2) == has_bucket(dold, s2, p2),
        bucket_count(dnew, s2, p2) == bucket_count(dold, s2, p2),
{
    assert(dev_wf_keys(dnew)) by {
        assert forall|i1: int, j1: int|
            0 <= i1 < j1 < dnew.buckets@.len() implies !((#[trigger] dnew.buckets@[i1]).size
            == (#[trigger] dnew.buckets@[j1]).size && dnew.buckets@[i1].precision
            == dnew.buckets@[j1].precision) by {
            assert(dnew.buckets@[i1].size == dold.buckets@[i1].size
                && dnew.buckets@[i1].precision == dold.buckets@[i1].precision);
            assert(dnew.buckets@[j1].size == dold.buckets@[j1].size
                && dnew.buckets@[j1].precision == dold.buckets@[j1].precision);
        }
    }
    if has_bucket(dold, s2, p2) {
        let j = choose|j: int|
            0 <= j < dold.buckets@.len() && (#[trigger] dold.buckets@[j]).size == s2
                && dold.buckets@[j].precision == p2;
        assert(dnew.buckets@[j] == dold.buckets@[j]);
        assert(has_bucket(dnew, s2, p2));
        lemma_bucket_at(dold, s2, p2, j);
        lemma_bucket_at_keys(dnew, s2, p2, j);
    } else {
        if has_bucket(dnew, s2, p2) {
            let j = choose|j: int|
                0 <= j < dnew.buckets@.len() && (#[trigger] dnew.buckets@[j]).size == s2
                    && dnew.buckets@[j].precision == p2;
            assert(dold.buckets@[j].size == s2 && dold.buckets@[j].precision == p2);
            assert(false);
        }
    }
}

/// `lemma_bucket_at` needing only the key-uniqueness half.
proof fn lemma_bucket_at_keys(d: DevicePool, size: usize, precision: Precision, b: int)
    requires
        dev_wf_keys(d),
        0 <= b < d.buckets@.len(),
        d.buckets@[b].size == size,
        d.buckets@[b].precision == precision,
    ensures
        has_bucket(d, size, precision),
        bucket_count(d, size, precision) == d.buckets@[b].buffers@.len(),
{
    assert(has_bucket(d, size, precision));
    let j = choose|j: int|
        0 <= j < d.buckets@.len() && (#[trigger] d.buckets@[j]).size == size
            && d.buckets@[j].precision == precision;
    if b != j {
        assert(false);
    }
}

/// The key-uniqueness half of `dev_wf`.
pub open spec fn dev_wf_keys(d: DevicePool) -> bool {
    forall|i: int, j: int|
        0 <= i < j < d.buckets@.len() ==> !((#[trigger] d.buckets@[i]).size == (
        #[trigger] d.buckets@[j]).size && d.buckets@[i].precision == d.buckets@[j].precision)
}

/// Release cache pressure on one device, as the allocation path does when
/// a fresh allocation would pass the configured bound: when the cache is
/// fragmented - more than half its buffers are the sole members of their
/// keys, measured as `2 * keys > buffers` - sparsely used keys (at or
/// below half the mean depth) are dropped and every kept key is capped at
/// twice the mean depth.  Counters and every other device stay put, and no
/// key's cache ever grows.
fn cleanup_fragmented(devices: &mut Vec<DevicePool>, slot: usize)
    requires
        slot < old(devices)@.len(),
        dev_wf(old(devices)@[slot as int]),
    ensures
        final(devices)@.len() == old(devices)@.len(),
        forall|i: int|
            0 <= i < old(devices)@.len() && i != slot
                ==> final(devices)@[i] == old(devices)@[i],
        ({
            let dold = old(devices)@[slot as int];
            let dnew = final(devices)@[slot as int];
            &&& dev_wf(dnew)
            &&& dnew.device_id == dold.device_id
            &&& dnew.allocated == dold.allocated
            &&& dnew.peak_usage == dold.peak_usage
            &&& dnew.max_pool_size == dold.max_pool_size
            &&& forall|s2: usize, p2: Precision|
                #[trigger] bucket_count(dnew, s2, p2) <= bucket_count(dold, s2, p2)
        }),
{
    let ghost dold = devices@[slot as int];
    let nb = devices[slot].buckets.len();
    let mut total: usize = 0;
    let mut b: usize = 0;
    let ghost snap = devices@;
    while b < nb
        invariant
            devices@ == snap,
            slot < devices@.len(),
            nb == devices@[slot as int].buckets@.len(),
            b <= nb,
        decreases nb - b,
    {
        let l = devices[slot].buckets[b].buffers.len();
        total = if total <= usize::MAX - l {
            total + l
        } else {
            usize::MAX
        };
        b = b + 1;
    }
    if total == 0 {
        return;
    }
    let types = nb;
    let avg = total / (if types == 0 { 1 } else { types });
    if !(types > usize::MAX / 2) && 2 * types > total {
        let keep_over = avg / 2;
        let cap = if avg > usize::MAX / 2 { usize::MAX } else { avg * 2 };
        // rebuild the bucket list, keeping well-used keys capped
        let dp = &mut devices[slot];
        let mut src: Vec<PoolBucket> = Vec::new();
        core::mem::swap(&mut src, &mut dp.buckets);
        let ghost orig = src@;
        let cnt = src.len();
        let mut rev: Vec<PoolBucket> = Vec::new();
        while src.len() > 0
            invariant
                src@.len() + rev@.len() == orig.len(),
                src@ == orig.subrange(0, src@.len() as int),
                forall|j: int|
                    0 <= j < rev@.len() ==> rev@[j] == orig[orig.len() - 1 - j],
            decreases src@.len(),
        {
            let ghost srcpre = src@;
            let x = src.pop().unwrap();
            proof {
                assert(srcpre[srcpre.len() - 1] == orig.subrange(0, srcpre.len() as int)[
                    srcpre.len() - 1]);
                assert(src@ =~= orig.subrange(0, src@.len() as int));
            }
            let ghost revpre = rev@;
            rev.push(x);
            proof {
                assert forall|j: int|
                    0 <= j < rev@.len() implies rev@[j] == orig[orig.len() - 1 - j] by {
                    if j < revpre.len() {
                        assert(rev@[j] == revpre[j]);
                    } else {
                        assert(rev@[j] == x);
                    }
                }
            }
        }
        let mut kept: Vec<PoolBucket> = Vec::new();
        let mut i: usize = 0;
        while rev.len() > 0
            invariant
                rev@.len() + i == orig.len(),
                i <= orig.len(),
                orig.len() <= usize::MAX,
                forall|j: int|
                    0 <= j < rev@.len() ==> rev@[j] == orig[orig.len() - 1 - j],
                dev_wf_src(orig),
                forall|j: int|
                    0 <= j < kept@.len() ==> (exists|l: int|
                        0 <= l < i && (#[trigger] kept@[j]).size == orig[l].size
                            && kept@[j].precision == orig[l].precision
                            && kept@[j].buffers@.len() <= orig[l].buffers@.len()
                            && kept@[j].buffers@ == orig[l].buffers@.subrange(
                            0,
                            kept@[j].buffers@.len() as int,
                        )),
                forall|j1: int, j2: int|
                    0 <= j1 < j2 < kept@.len() ==> !((#[trigger] kept@[j1]).size == (
                    #[trigger] kept@[j2]).size && kept@[j1].precision == kept@[j2].precision),
            decreases rev@.len(),
        {
            let ghost revpre = rev@;
            let ghost iv = i as int;
            let mut x = rev.pop().unwrap();
            proof {
                assert(revpre[revpre.len() - 1] == orig[iv]);
            }
            if x.buffers.len() > keep_over {
                let ghost xpre = x.buffers@;
                x.buffers.truncate(cap);
                proof {
                    if cap as int > xpre.len() {
                        assert(x.buffers@ =~= xpre.subrange(0, xpre.len() as int));
                    }
                }
                let ghost keptpre = kept@;
                kept.push(x);
                proof {
                    // the new entry's key comes from the source slot being
                    // consumed, which every earlier kept key differs from
                    assert forall|j1: int, j2: int|
                        0 <= j1 < j2 < kept@.len() implies !((#[trigger] kept@[j1]).size == (
                        #[trigger] kept@[j2]).size && kept@[j1].precision
                        == kept@[j2].precision) by {
                        if j2 == keptpre.len() {
                            let l = choose|l: int|
                                0 <= l < iv && (#[trigger] keptpre[j1]).size == orig[l].size
                                    && keptpre[j1].precision == orig[l].precision
                                    && keptpre[j1].buffers@.len() <= orig[l].buffers@.len()
                                    && keptpre[j1].buffers@ == orig[l].buffers@.subrange(
                                    0,
                                    keptpre[j1].buffers@.len() as int,
                                );
                            assert(kept@[j2].size == orig[iv].size && kept@[j2].precision
                                == orig[iv].precision);
                            assert(!(orig[l].size == orig[iv].size && orig[l].precision
                                == orig[iv].precision));
                        } else {
                            assert(kept@[j1] == keptpre[j1] && kept@[j2] == keptpre[j2]);
                        }
                    }
                    assert forall|j: int|
                        0 <= j < kept@.len() implies (exists|l: int|
                            0 <= l < iv + 1 && (#[trigger] kept@[j]).size == orig[l].size
                                && kept@[j].precision == orig[l].precision
                                && kept@[j].buffers@.len() <= orig[l].buffers@.len()
                                && kept@[j].buffers@ == orig[l].buffers@.subrange(
                                0,
                                kept@[j].buffers@.len() as int,
                            )) by {
                        if j < keptpre.len() {
                            assert(kept@[j] == keptpre[j]);
                            let l = choose|l: int|
                                0 <= l < iv && (#[trigger] keptpre[j]).size == orig[l].size
                                    && keptpre[j].precision == orig[l].precision
                                    && keptpre[j].buffers@.len() <= orig[l].buffers@.len()
                                    && keptpre[j].buffers@ == orig[l].buffers@.subrange(
                                    0,
                                    keptpre[j].buffers@.len() as int,
                                );
                        } else {
                            assert(kept@[j].size == orig[iv].size && kept@[j].precision
                                == orig[iv].precision);
                            assert(kept@[j].buffers@ == orig[iv].buffers@.subrange(
                                0,
                                kept@[j].buffers@.len() as int,
                            ));
                        }
                    }
                }
            }
            i = i + 1;
        }
        dp.buckets = kept;
        proof {
            let dnew = devices@[slot as int];
            assert(dnew.buckets@ == kept@);
            // keys stay unique and every cached length still matches its key
            assert(dev_wf(dnew)) by {
                assert forall|i1: int, l1: int|
                    0 <= i1 < dnew.buckets@.len() && 0 <= l1 < (
                #[trigger] dnew.buckets@[i1]).buffers@.len() implies (
                #[trigger] dnew.buckets@[i1].buffers@[l1])@.len() == dnew.buckets@[i1].size
                    * spec_element_size(dnew.buckets@[i1].precision) by {
                    let l = choose|l: int|
                        0 <= l < orig.len() && (#[trigger] dnew.buckets@[i1]).size
                            == orig[l].size && dnew.buckets@[i1].precision
                            == orig[l].precision && dnew.buckets@[i1].buffers@.len()
                            <= orig[l].buffers@.len() && dnew.buckets@[i1].buffers@
                            == orig[l].buffers@.subrange(
                            0,
                            dnew.buckets@[i1].buffers@.len() as int,
                        );
                    assert(dnew.buckets@[i1].buffers@[l1] == orig[l].buffers@[l1]);
                }
            }
            assert forall|s2: usize, p2: Precision|
                #[trigger] bucket_count(dnew, s2, p2) <= bucket_count(dold, s2, p2) by {
                if has_bucket(dnew, s2, p2) {
                    let j = choose|j: int|
                        0 <= j < dnew.buckets@.len() && (#[trigger] dnew.buckets@[j]).size
                            == s2 && dnew.buckets@[j].precision == p2;
                    lemma_bucket_at(dnew, s2, p2, j);
                    let l = choose|l: int|
                        0 <= l < orig.len() && (#[trigger] dnew.buckets@[j]).size
                            == orig[l].size && dnew.buckets@[j].precision
                            == orig[l].precision && dnew.buckets@[j].buffers@.len()
                            <= orig[l].buffers@.len() && dnew.buckets@[j].buffers@
                            == orig[l].buffers@.subrange(
                            0,
                            dnew.buckets@[j].buffers@.len() as int,
                        );
                    lemma_bucket_at(dold, s2, p2, l);
                }
            }
        }
    }
}

/// Key uniqueness of a source bucket list.
pub open spec fn dev_wf_src(bs: Seq<PoolBucket>) -> bool {
    forall|i: int, j: int|
        0 <= i < j < bs.len() ==> !((#[trigger] bs[i]).size == (#[trigger] bs[j]).size
            && bs[i].precision == bs[j].precision)
}

/// Structural equality of precision tags.
fn precision_eq(a: &Precision, b: &Precision) -> (r: bool)
    ensures
        r == (a == b),
{
    match (a, b) {
        (Precision::Fp32, Precision::Fp32) => true,
        (Precision::Fp16, Precision::Fp16) => true,
        (Precision::Int8, Precision::Int8) => true,
        _ => false,
    }
}

/// A vector of `n` zero bytes.
fn zero_bytes(n: usize) -> (r: Vec<u8>)
    ensures
        r@.len() == n,
        forall|i: int| 0 <= i < n ==> r@[i] == 0u8,
{
    let mut out: Vec<u8> = Vec::new();
    let mut i: usize = 0;
    while i < n
        invariant
            i <= n,
            out@.len() == i,
            forall|j: int| 0 <= j < i ==> out@[j] == 0u8,
        decreases n - i,
    {
        out.push(0);
        i = i + 1;
    }
    out
}

/// Saturating addition on machine words.
fn saturating_add(a: usize, b: usize) -> (r: usize)
    ensures
        r as nat == spec_sat_add(a as nat, b as nat),
{
    if a <= usize::MAX - b {
        a + b
    } else {
        usize::MAX
    }
}

/// Pop the last cached buffer of a nonempty bucket; nothing else moves.
fn pop_bucket(devices: &mut Vec<DevicePool>, slot: usize, bucket: usize) -> (r: Vec<u8>)
    requires
        slot < old(devices)@.len(),
        bucket < old(devices)@[slot as int].buckets@.len(),
        old(devices)@[slot as int].buckets@[bucket as int].buffers@.len() > 0,
    ensures
        final(devices)@.len() == old(devices)@.len(),
        forall|i: int|
            0 <= i < old(devices)@.len() && i != slot
                ==> final(devices)@[i] == old(devices)@[i],
        ({
            let dold = old(devices)@[slot as int];
            let dnew = final(devices)@[slot as int];
            &&& dnew.device_id == dold.device_id
            &&& dnew.allocated == dold.allocated
            &&& dnew.peak_usage == dold.peak_usage
            &&& dnew.max_pool_size == dold.max_pool_size
            &&& dnew.buckets@.len() == dold.buckets@.len()
            &&& r == dold.buckets@[bucket as int].buffers@.last()
            &&& dnew.buckets@[bucket as int].buffers@ == dold.buckets@[
                bucket as int].buffers@.drop_last()
            &&& dnew.buckets@[bucket as int].size == dold.buckets@[bucket as int].size
            &&& dnew.buckets@[bucket as int].precision == dold.buckets@[bucket as int].precision
            &&& forall|j: int|
                0 <= j < dold.buckets@.len() && j != bucket ==> dnew.buckets@[j]
                    == dold.buckets@[j]
        }),
{
    let dp = &mut devices[slot];
    let bk = &mut dp.buckets[bucket];
    let r = bk.buffers.pop();
    match r {
        Some(buf) => buf,
        None => Vec::new(),
    }
}

/// Cache one buffer under its key, creating the bucket if needed; nothing
/// else moves.
fn push_bucket(
    devices: &mut Vec<DevicePool>,
    slot: usize,
    buffer: Vec<u8>,
    size: usize,
    precision: Precision,
)
    requires
        slot < old(devices)@.len(),
        dev_wf(old(devices)@[slot as int]),
        buffer@.len() == size * spec_element_size(precision),
    ensures
        final(devices)@.len() == old(devices)@.len(),
        forall|i: int|
            0 <= i < old(devices)@.len() && i != slot
                ==> final(devices)@[i] == old(devices)@[i],
        ({
            let dold = old(devices)@[slot as int];
            let dnew = final(devices)@[slot as int];
            &&& dev_wf(dnew)
            &&& dnew.device_id == dold.device_id
            &&& dnew.allocated == dold.allocated
            &&& dnew.peak_usage == dold.peak_usage
            &&& dnew.max_pool_size == dold.max_pool_size
            &&& bucket_count(dnew, size, precision) == bucket_count(dold, size, precision) + 1
            &&& forall|s2: usize, p2: Precision|
                !(s2 == size && p2 == precision) ==> bucket_count(dnew, s2, p2)
                    == bucket_count(dold, s2, p2)
        }),
{
    let ghost dold = devices@[slot as int];
    let nb = devices[slot].buckets.len();
    let mut b: usize = 0;
    let mut at: usize = nb;
    let ghost snap = devices@;
    while b < nb
        invariant
            devices@ == snap,
            slot < devices@.len(),
            nb == devices@[slot as int].buckets@.len(),
            b <= nb,
            at <= nb,
            at < nb ==> (devices@[slot as int].buckets@[at as int].size == size
                && devices@[slot as int].buckets@[at as int].precision == precision),
            at == nb ==> (forall|j: int|
                0 <= j < b ==> !((#[trigger] devices@[slot as int].buckets@[j]).size == size
                    && devices@[slot as int].buckets@[j].precision == precision)),
        decreases nb - b,
    {
        if devices[slot].buckets[b].size == size && precision_eq(
            &devices[slot].buckets[b].precision,
            &precision,
        ) {
            at = b;
            b = nb;
        } else {
            b = b + 1;
        }
    }
    if at < nb {
        proof {
            lemma_bucket_at(dold, size, precision, at as int);
        }
        let dp = &mut devices[slot];
        let bk = &mut dp.buckets[at];
        bk.buffers.push(buffer);
        proof {
            let dnew = devices@[slot as int];
            assert(dnew.buckets@[at as int].size == size
                && dnew.buckets@[at as int].precision == precision);
            assert(forall|j: int|
                0 <= j < dold.buckets@.len() && j != at ==> dnew.buckets@[j]
                    == dold.buckets@[j]);
            assert(dev_wf(dnew)) by {
                assert(forall|j: int|
                    0 <= j < dnew.buckets@.len() ==> (#[trigger] dnew.buckets@[j]).size
                        == dold.buckets@[j].size && dnew.buckets@[j].precision
                        == dold.buckets@[j].precision);
            }
            lemma_bucket_at(dnew, size, precision, at as int);
            assert forall|s2: usize, p2: Precision|
                !(s2 == size && p2 == precision) implies bucket_count(dnew, s2, p2)
                == bucket_count(dold, s2, p2) by {
                lemma_bucket_count_frame(dold, dnew, size, precision, s2, p2);
            }
        }
    } else {
        proof {
            if has_bucket(dold, size, precision) {
                let j = choose|j: int|
                    0 <= j < dold.buckets@.len() && (#[trigger] dold.buckets@[j]).size == size
                        && dold.buckets@[j].precision == precision;
            }
        }
        let mut fresh: Vec<Vec<u8>> = Vec::new();
        fresh.push(buffer);
        let dp = &mut devices[slot];
        let ghost pre = dp.buckets@;
        dp.buckets.push(PoolBucket { size, precision, buffers: fresh });
        proof {
            let dnew = devices@[slot as int];
            assert(dnew.buckets@.len() == pre.len() + 1);
            assert(dnew.buckets@[pre.len() as int].size == size
                && dnew.buckets@[pre.len() as int].precision == precision);
            assert(forall|j: int| 0 <= j < pre.len() ==> dnew.buckets@[j] == pre[j]);
            assert(dev_wf(dnew)) by {
                assert forall|i1: int, j1: int|
                    0 <= i1 < j1 < dnew.buckets@.len() implies !((
                #[trigger] dnew.buckets@[i1]).size == (#[trigger] dnew.buckets@[j1]).size
                    && dnew.buckets@[i1].precision == dnew.buckets@[j1].precision) by {
                    if j1 < pre.len() {
                    } else {
                        assert(dnew.buckets@[j1].size == size
                            && dnew.buckets@[j1].precision == precision);
                    }
                }
            }
            lemma_bucket_at(dnew, size, precision, pre.len() as int);
            assert forall|s2: usize, p2: Precision|
                !(s2 == size && p2 == precision) implies bucket_count(dnew, s2, p2)
                == bucket_count(dold, s2, p2) by {
                if has_bucket(dold, s2, p2) {
                    let j = choose|j: int|
                        0 <= j < dold.buckets@.len() && (#[trigger] dold.buckets@[j]).size
                            == s2 && dold.buckets@[j].precision == p2;
                    lemma_bucket_at(dold, s2, p2, j);
                    lemma_bucket_at(dnew, s2, p2, j);
                }
                if has_bucket(dnew, s2, p2) {
                    let j = choose|j: int|
                        0 <= j < dnew.buckets@.len() && (#[trigger] dnew.buckets@[j]).size
                            == s2 && dnew.buckets@[j].precision == p2;
                    assert(j < pre.len());
                    assert(dold.buckets@[j].size == s2 && dold.buckets@[j].precision == p2);
                }
            }
        }
    }
}

/// Add `n` bytes to a device's counter, saturating, and track the peak.
fn bump_counters(devices: &mut Vec<DevicePool>, slot: usize, n: usize)
    requires
        slot < old(devices)@.len(),
    ensures
        final(devices)@.len() == old(devices)@.len(),
        forall|i: int|
            0 <= i < old(devices)@.len() && i != slot
                ==> final(devices)@[i] == old(devices)@[i],
        ({
            let dold = old(devices)@[slot as int];
            let dnew = final(devices)@[slot as int];
            &&& dnew.device_id == dold.device_id
            &&& dnew.buckets == dold.buckets
            &&& dnew.max_pool_size == dold.max_pool_size
            &&& dnew.allocated == spec_sat_add(dold.allocated as nat, n as nat)
            &&& dnew.peak_usage == (if dold.peak_usage >= dnew.allocated {
                dold.peak_usage as int
            } else {
                dnew.allocated as int
            })
        }),
{
    let dp = &mut devices[slot];
    dp.allocated = saturating_add(dp.allocated, n);
    if dp.peak_usage < dp.allocated {
        dp.peak_usage = dp.allocated;
    }
}

/// Release `n` bytes from a device's counter, clamping at zero.
fn drop_counters(devices: &mut Vec<DevicePool>, slot: usize, n: usize)
    requires
        slot < old(devices)@.len(),
    ensures
        final(devices)@.len() == old(devices)@.len(),
        forall|i: int|
            0 <= i < old(devices)@.len() && i != slot
                ==> final(devices)@[i] == old(devices)@[i],
        ({
            let dold = old(devices)@[slot as int];
            let dnew = final(devices)@[slot as int];
            &&& dnew.device_id == dold.device_id
            &&& dnew.buckets == dold.buckets
            &&& dnew.max_pool_size == dold.max_pool_size
            &&& dnew.peak_usage == dold.peak_usage
            &&& dnew.allocated == (if n <= dold.allocated {
                dold.allocated - n
            } else {
                0int
            })
        }),
{
    let dp = &mut devices[slot];
    if n <= dp.allocated {
        dp.allocated = dp.allocated - n;
    } else {
        dp.allocated = 0;
    }
}

/// Replace a device's cached-byte bound; nothing else moves.
fn set_bound(devices: &mut Vec<DevicePool>, slot: usize, max_size: usize)
    requires
        slot < old(devices)@.len(),
    ensures
        final(devices)@.len() == old(devices)@.len(),
        forall|i: int|
            0 <= i < old(devices)@.len() && i != slot
                ==> final(devices)@[i] == old(devices)@[i],
        final(devices)@[slot as int] == (DevicePool {
            max_pool_size: max_size,
            ..old(devices)@[slot as int]
        }),
{
    let dp = &mut devices[slot];
    dp.max_pool_size = max_size;
}

/// Empty one device's cache and zero its counter.
fn clear_device(devices: &mut Vec<DevicePool>, slot: usize)
    requires
        slot < old(devices)@.len(),
    ensures
        final(devices)@.len() == old(devices)@.len(),
        forall|i: int|
            0 <= i < old(devices)@.len() && i != slot
                ==> final(devices)@[i] == old(devices)@[i],
        final(devices)@[slot as int] == (DevicePool {
            buckets: final(devices)@[slot as int].buckets,
            allocated: 0,
            ..old(devices)@[slot as int]
        }),
        final(devices)@[slot as int].buckets@.len() == 0,
{
    let dp = &mut devices[slot];
    dp.buckets = Vec::new();
    dp.allocated = 0;
}

/// An owned buffer bound to its pool key, returned at most once.
///
/// The release discipline of the specification is explicit here: a holder
/// calls `return_to_pool` on every exit path (an unverified shell may wire
/// that into a drop guard), and a second call is a no-op on both the
/// buffer and the pool.
pub struct GpuBuffer {
    pub data: Vec<u8>,
    pub device_id: usize,
    pub size: usize,
    pub precision: Precision,
    pub returned: bool,
}

impl GpuBuffer {
    /// A view of the bytes.
    pub fn as_slice(&self) -> (r: &Vec<u8>)
        ensures
            r == &self.data,
    {
        &self.data
    }

    /// The byte length.
    pub fn len(&self) -> (r: usize)
        ensures
            r == self.data@.len(),
    {
        self.data.len()
    }

    /// Whether the buffer holds no bytes.
    pub fn is_empty(&self) -> (r: bool)
        ensures
            r == (self.data@.len() == 0),
    {
        self.data.len() == 0
    }

    /// Give the bytes back to the pool under the original key; idempotent:
    /// once returned, neither the buffer nor the pool moves again.
    pub fn return_to_pool(&mut self, pool: &mut GpuMemoryPool)
        requires
            pool_wf(*old(pool)),
            old(self).size * spec_element_size(old(self).precision) < 0x1_0000_0000,
        ensures
            pool_wf(*final(pool)),
            final(self).returned,
            final(self).device_id == old(self).device_id,
            final(self).size == old(self).size,
            final(self).precision == old(self).precision,
            old(self).returned ==> (*final(pool) == *old(pool) && *final(self) == *old(self)),
            !old(self).returned ==> (final(self).data@.len() == 0 && return_effect(
                *old(pool),
                *final(pool),
                old(self).device_id,
                old(self).data@.len(),
                old(self).size,
                old(self).precision,
            )),
    {
        if self.returned {
            return;
        }
        let mut taken: Vec<u8> = Vec::new();
        core::mem::swap(&mut taken, &mut self.data);
        pool.return_buffer(self.device_id, taken, self.size, self.precision);
        self.returned = true;
    }
}

/// Names an intermediate pool of a release chain, so that a chain of
/// known length can be put together link by link.
pub open spec fn chain_step(p: GpuMemoryPool) -> bool {
    true
}

/// The pool after releasing the first `n` buffers of `bufs` in order:
/// one already returned leaves it alone, every other passes through
/// `return_effect` under its own key.
pub open spec fn batch_return_rel(
    p0: GpuMemoryPool,
    p1: GpuMemoryPool,
    bufs: Seq<GpuBuffer>,
    n: int,
) -> bool
    decreases n,
{
    if n <= 0 {
        p1 == p0
    } else {
        exists|mid: GpuMemoryPool|
            #[trigger] chain_step(mid) && batch_return_rel(p0, mid, bufs, n - 1) && (if bufs[n
                - 1].returned {
                p1 == mid
            } else {
                return_effect(
                    mid,
                    p1,
                    bufs[n - 1].device_id,
                    bufs[n - 1].data@.len(),
                    bufs[n - 1].size,
                    bufs[n - 1].precision,
                )
            })
    }
}

/// A batch of owned buffers for one device, released together.
pub struct GpuBufferBatch {
    pub device_id: usize,
    pub buffers: Vec<GpuBuffer>,
}

impl GpuBufferBatch {
    /// An empty batch for a device.
    pub fn new(device_id: usize) -> (r: GpuBufferBatch)
        ensures
            r.device_id == device_id,
            r.buffers@.len() == 0,
    {
        GpuBufferBatch { device_id, buffers: Vec::new() }
    }

    /// Wrap raw bytes under a key and add them to the batch.
    pub fn add_buffer(&mut self, data: Vec<u8>, size: usize, precision: Precision)
        ensures
            final(self).device_id == old(self).device_id,
            final(self).buffers@.len() == old(self).buffers@.len() + 1,
            final(self).buffers@.last() == (GpuBuffer {
                data,
                device_id: old(self).device_id,
                size,
                precision,
                returned: false,
            }),
    {
        let b = GpuBuffer { data, device_id: self.device_id, size, precision, returned: false };
        self.buffers.push(b);
    }

    /// A view of one buffer.
    pub fn get_buffer(&self, index: usize) -> (r: Option<&GpuBuffer>)
        ensures
            r is Some <==> index < self.buffers@.len(),
            r matches Some(b) ==> *b == self.buffers@[index as int],
    {
        if index < self.buffers.len() {
            Some(&self.buffers[index])
        } else {
            None
        }
    }

    /// How many buffers the batch holds.
    pub fn len(&self) -> (r: usize)
        ensures
            r == self.buffers@.len(),
    {
        self.buffers.len()
    }

    /// Whether the batch holds no buffers.
    pub fn is_empty(&self) -> (r: bool)
        ensures
            r == (self.buffers@.len() == 0),
    {
        self.buffers.len() == 0
    }

    /// Return every buffer of the batch to the pool; each returns at most
    /// once, so calling this again is a no-op on the pool.
    pub fn return_all_to_pool(&mut self, pool: &mut GpuMemoryPool)
        requires
            pool_wf(*old(pool)),
            forall|j: int|
                0 <= j < old(self).buffers@.len()
                    ==> (#[trigger] old(self).buffers@[j]).size * spec_element_size(
                    old(self).buffers@[j].precision,
                ) < 0x1_0000_0000,
        ensures
            pool_wf(*final(pool)),
            final(self).buffers@.len() == old(self).buffers@.len(),
            forall|j: int|
                0 <= j < final(self).buffers@.len()
                    ==> (#[trigger] final(self).buffers@[j]).returned,
            batch_return_rel(
                *old(pool),
                *final(pool),
                old(self).buffers@,
                old(self).buffers@.len() as int,
            ),
    {
        let n = self.buffers.len();
        let mut i: usize = 0;
        while i < n
            invariant
                pool_wf(*pool),
                n == self.buffers@.len(),
                n == old(self).buffers@.len(),
                i <= n,
                forall|j: int|
                    0 <= j < n ==> (#[trigger] self.buffers@[j]).size * spec_element_size(
                        self.buffers@[j].precision,
                    ) < 0x1_0000_0000,
                forall|j: int| 0 <= j < i ==> (#[trigger] self.buffers@[j]).returned,
                forall|j: int| i <= j < n ==> self.buffers@[j] == old(self).buffers@[j],
                batch_return_rel(*old(pool), *pool, old(self).buffers@, i as int),
            decreases n - i,
        {
            let ghost pre = self.buffers@;
            let ghost pmid = *pool;
            let ghost bold = self.buffers@[i as int];
            let b = &mut self.buffers[i];
            b.return_to_pool(pool);
            proof {
                assert(self.buffers@[i as int].returned);
                assert forall|j: int|
                    0 <= j < n && j != i implies self.buffers@[j] == pre[j] by {
                }
                assert(bold == old(self).buffers@[i as int]);
                if bold.returned {
                    assert(*pool == pmid);
                } else {
                    assert(return_effect(
                        pmid,
                        *pool,
                        bold.device_id,
                        bold.data@.len(),
                        bold.size,
                        bold.precision,
                    ));
                }
                let nx: int = i + 1;
                assert(chain_step(pmid));
                assert(batch_return_rel(*old(pool), pmid, old(self).buffers@, nx - 1));
                assert(batch_return_rel(*old(pool), *pool, old(self).buffers@, nx));
            }
            i = i + 1;
        }
    }
}

/// Take a buffer and hand it back wrapped for explicit release.
impl GpuMemoryPool {
    pub fn get_managed_buffer(
        &mut self,
        device_id: usize,
        size: usize,
        precision: Precision,
    ) -> (r: GpuBuffer)
        requires
            pool_wf(*old(self)),
            size * spec_element_size(precision) < 0x1_0000_0000,
        ensures
            pool_wf(*final(self)),
            r.device_id == device_id,
            r.size == size,
            r.precision == precision,
            !r.returned,
            r.data@.len() == size * spec_element_size(precision),
            take_effect(*old(self), *final(self), device_id, size, precision, r.data@),
    {
        let data = self.get_buffer(device_id, size, precision);
        GpuBuffer { data, device_id, size, precision, returned: false }
    }
}

/// Bit pattern of the default alert threshold (eight tenths).
pub const DEFAULT_PRESSURE_THRESHOLD32: u32 = 0x3f4c_cccd;

/// Bit pattern of the emergency bound (nine tenths).
pub const EMERGENCY_PRESSURE32: u32 = 0x3f66_6666;

/// The monitoring decision on one device's pressure reading: an alert is
/// raised exactly when the ratio lies strictly above the threshold, and
/// the emergency cleanup runs exactly when it lies strictly above the
/// emergency bound.  A reporting loop around this performs only what the
/// two flags say.
pub fn pressure_decision(pressure: u32, threshold: u32) -> (r: (bool, bool))
    ensures
        r.0 == spec_lt32(threshold, pressure),
        r.1 == spec_lt32(EMERGENCY_PRESSURE32, pressure),
{
    (lt32(threshold, pressure), lt32(EMERGENCY_PRESSURE32, pressure))
}

/// A pressure threshold pinned to the unit interval, as the monitor
/// stores one: NaN passes through, anything below zero becomes zero,
/// anything above one becomes one.
pub fn clamp_unit32(t: u32) -> (r: u32)
    ensures
        r == (if is_nan32(t) {
            t
        } else if spec_lt32(t, 0u32) {
            0u32
        } else if spec_lt32(ONE32, t) {
            ONE32
        } else {
            t
        }),
{
    if is_nan32_e(t) {
        t
    } else if lt32(t, 0) {
        0
    } else if lt32(ONE32, t) {
        ONE32
    } else {
        t
    }
}

} // verus!
