//! The versioned vector store and its brute-force k-nearest search.
//!
//! Entries live in a slot array; removal tombstones a slot rather than
//! shifting its neighbours, and an explicit or ratio-triggered compaction
//! rewrites the array.  Every mutating call that succeeds advances the
//! version by exactly one; a search snapshots the version and re-validates
//! it before returning, as defence in depth against an external locking
//! discipline that failed to serialize a writer.

use vstd::prelude::*;
use crate::distance_registry::{DistanceRegistry, registry_wf, registry_has_name};
use crate::errors::RustAnnError;
use crate::filters::{Filter, spec_accepts};
use crate::float_bits::{spec_round32, spec_lt32, lt32, le32, div32, round32, ONE32};
use crate::metrics::{
    Distance, dot_acc, spec_sq_norm, spec_euclid, spec_cosine, spec_jaccard, man_acc, cheb_acc,
    ham_acc, canb_acc, sq_norm32, euclidean32, cosine32, manhattan32, chebyshev32, hamming32,
    jaccard32, canberra32, angular32, minkowski32, spec_angular32, spec_minkowski32,
    is_known_metric_name,
};
use crate::float_bits::{spec_div32 as f_spec_div32, spec_round32 as f_spec_round32};
use crate::topk::{cand_le, sorted_cands, select_topk};

verus! {

/// Administrative ceiling on the dimension.
pub const MAX_DIM: usize = 4096;
/// Administrative ceiling on rows per batch and on live entries.
pub const MAX_ROWS: usize = 1_000_000;
/// Bit pattern of 0.2, the default deleted ratio that triggers compaction.
pub const DEFAULT_MAX_DELETED_RATIO: u32 = 0x3e4c_cccd;

/// One stored vector: its id, its coordinates as binary32 bit patterns, and
/// the squared norm cached at insertion.
pub struct Entry {
    pub id: i64,
    pub vector: Vec<u32>,
    pub sq_norm: u32,
}

/// Pairwise distinct ids among the live slots.
pub open spec fn unique_live_ids(s: Seq<Option<Entry>>) -> bool {
    forall|i: int, j: int|
        0 <= i < j < s.len() ==> (((#[trigger] s[i]) is Some && (#[trigger] s[j]) is Some)
            ==> s[i]->0.id != s[j]->0.id)
}

/// The live entries among a slot sequence.
pub open spec fn count_live(s: Seq<Option<Entry>>) -> nat
    decreases s.len(),
{
    if s.len() == 0 {
        0nat
    } else {
        count_live(s.drop_last()) + (if s.last() is Some { 1nat } else { 0nat })
    }
}

pub proof fn lemma_count_live_le_len(s: Seq<Option<Entry>>)
    ensures
        count_live(s) <= s.len(),
    decreases s.len(),
{
    if s.len() > 0 {
        lemma_count_live_le_len(s.drop_last());
    }
}

/// Tombstoning one slot lowers the live count by one.
pub proof fn lemma_count_live_update_none(s: Seq<Option<Entry>>, i: int)
    requires
        0 <= i < s.len(),
        s[i] is Some,
    ensures
        count_live(s.update(i, None)) == count_live(s) - 1,
    decreases s.len(),
{
    let t = s.update(i, None);
    if i == s.len() - 1 {
        assert(t.drop_last() =~= s.drop_last());
    } else {
        assert(t.drop_last() =~= s.drop_last().update(i, None));
        lemma_count_live_update_none(s.drop_last(), i);
        assert(t.last() == s.last());
    }
}

/// Replacing a live slot's entry keeps the live count.
pub proof fn lemma_count_live_update_some(s: Seq<Option<Entry>>, i: int, e: Entry)
    requires
        0 <= i < s.len(),
        s[i] is Some,
    ensures
        count_live(s.update(i, Some(e))) == count_live(s),
    decreases s.len(),
{
    let t = s.update(i, Some(e));
    if i == s.len() - 1 {
        assert(t.drop_last() =~= s.drop_last());
    } else {
        assert(t.drop_last() =~= s.drop_last().update(i, Some(e)));
        lemma_count_live_update_some(s.drop_last(), i, e);
        assert(t.last() == s.last());
    }
}

/// A live slot witnesses a positive live count.
pub proof fn lemma_count_live_pos(s: Seq<Option<Entry>>, i: int)
    requires
        0 <= i < s.len(),
        s[i] is Some,
    ensures
        count_live(s) >= 1,
    decreases s.len(),
{
    if i < s.len() - 1 {
        lemma_count_live_pos(s.drop_last(), i);
    }
}

pub proof fn lemma_count_live_push(s: Seq<Option<Entry>>, x: Option<Entry>)
    ensures
        count_live(s.push(x)) == count_live(s) + (if x is Some { 1nat } else { 0nat }),
{
    assert(s.push(x).drop_last() =~= s);
}

/// An all-live sequence counts its own length.
pub proof fn lemma_count_live_all_some(s: Seq<Option<Entry>>)
    requires
        forall|j: int| 0 <= j < s.len() ==> (#[trigger] s[j]) is Some,
    ensures
        count_live(s) == s.len(),
    decreases s.len(),
{
    if s.len() > 0 {
        let d = s.drop_last();
        assert(forall|j: int| 0 <= j < d.len() ==> (#[trigger] d[j]) is Some) by {
            assert(forall|j: int| 0 <= j < d.len() ==> d[j] == s[j]);
        }
        lemma_count_live_all_some(d);
    }
}

/// The live slots of a sequence, in order.
pub open spec fn live_slots(s: Seq<Option<Entry>>) -> Seq<Option<Entry>>
    decreases s.len(),
{
    if s.len() == 0 {
        Seq::empty()
    } else if s.last() is Some {
        live_slots(s.drop_last()).push(s.last())
    } else {
        live_slots(s.drop_last())
    }
}

/// Length, membership both ways, and liveness of `live_slots`.
pub proof fn lemma_live_slots_props(s: Seq<Option<Entry>>)
    ensures
        live_slots(s).len() == count_live(s),
        forall|j: int| 0 <= j < live_slots(s).len() ==> (#[trigger] live_slots(s)[j]) is Some,
        forall|j: int|
            0 <= j < live_slots(s).len() ==> (exists|l: int|
                0 <= l < s.len() && s[l] == #[trigger] live_slots(s)[j]),
        forall|l: int|
            0 <= l < s.len() && (#[trigger] s[l]) is Some ==> (exists|j: int|
                0 <= j < live_slots(s).len() && live_slots(s)[j] == s[l]),
    decreases s.len(),
{
    if s.len() > 0 {
        lemma_live_slots_props(s.drop_last());
        let d = s.drop_last();
        assert forall|l: int|
            0 <= l < s.len() && (#[trigger] s[l]) is Some implies (exists|j: int|
                0 <= j < live_slots(s).len() && live_slots(s)[j] == s[l]) by {
            if l < s.len() - 1 {
                assert(d[l] == s[l]);
                let j = choose|j: int| 0 <= j < live_slots(d).len() && live_slots(d)[j] == d[l];
                assert(live_slots(s)[j] == s[l]);
            } else {
                assert(live_slots(s)[live_slots(s).len() - 1] == s[l]);
            }
        }
        assert forall|j: int|
            0 <= j < live_slots(s).len() implies (exists|l: int|
                0 <= l < s.len() && s[l] == #[trigger] live_slots(s)[j]) by {
            if j < live_slots(d).len() {
                let l = choose|l: int| 0 <= l < d.len() && d[l] == live_slots(d)[j];
                assert(s[l] == live_slots(s)[j]);
            } else {
                assert(s[s.len() - 1] == live_slots(s)[j]);
            }
        }
    }
}

/// Unique live ids survive compaction.
pub proof fn lemma_live_slots_unique(s: Seq<Option<Entry>>)
    requires
        unique_live_ids(s),
    ensures
        unique_live_ids(live_slots(s)),
    decreases s.len(),
{
    if s.len() > 0 {
        let d = s.drop_last();
        assert(unique_live_ids(d)) by {
            assert forall|i: int, j: int|
                0 <= i < j < d.len() implies (((#[trigger] d[i]) is Some
                && (#[trigger] d[j]) is Some) ==> d[i]->0.id != d[j]->0.id) by {
                assert(d[i] == s[i] && d[j] == s[j]);
            }
        }
        lemma_live_slots_unique(d);
        lemma_live_slots_props(d);
        if s.last() is Some {
            assert forall|i: int, j: int|
                0 <= i < j < live_slots(s).len() implies (((#[trigger] live_slots(s)[i])
                is Some && (#[trigger] live_slots(s)[j]) is Some)
                ==> live_slots(s)[i]->0.id != live_slots(s)[j]->0.id) by {
                if j < live_slots(s).len() - 1 {
                    assert(live_slots(s)[i] == live_slots(d)[i]);
                    assert(live_slots(s)[j] == live_slots(d)[j]);
                } else {
                    assert(live_slots(s)[j] == s.last());
                    assert(live_slots(s)[i] == live_slots(d)[i]);
                    if live_slots(d)[i] is Some {
                        let l = choose|l: int|
                            0 <= l < d.len() && d[l] == live_slots(d)[i];
                        assert(s[l] == live_slots(d)[i]);
                        assert(((s[l]) is Some && (s[s.len() - 1]) is Some)
                            ==> s[l]->0.id != s[s.len() - 1]->0.id);
                    }
                }
            }
        } else {
            assert forall|i: int, j: int|
                0 <= i < j < live_slots(s).len() implies (((#[trigger] live_slots(s)[i])
                is Some && (#[trigger] live_slots(s)[j]) is Some)
                ==> live_slots(s)[i]->0.id != live_slots(s)[j]->0.id) by {
                assert(live_slots(s)[i] == live_slots(d)[i]);
                assert(live_slots(s)[j] == live_slots(d)[j]);
            }
        }
    }
}

/// Appending rows with fresh, pairwise distinct ids keeps live ids unique.
proof fn lemma_append_unique(s_old: Seq<Option<Entry>>, s_new: Seq<Option<Entry>>, ids: Seq<i64>)
    requires
        s_new.len() == s_old.len() + ids.len(),
        forall|l: int| 0 <= l < s_old.len() ==> s_new[l] == s_old[l],
        forall|j: int|
            0 <= j < ids.len() ==> (#[trigger] s_new[s_old.len() + j]) is Some
                && s_new[s_old.len() + j]->0.id == ids[j],
        unique_live_ids(s_old),
        forall|j: int, l: int|
            0 <= j < ids.len() && 0 <= l < s_old.len()
                ==> ((#[trigger] s_old[l]) is Some ==> s_old[l]->0.id != #[trigger] ids[j]),
        forall|i: int, j: int| 0 <= i < j < ids.len() ==> ids[i] != ids[j],
    ensures
        unique_live_ids(s_new),
{
    let base = s_old.len() as int;
    assert forall|i: int, j: int|
        0 <= i < j < s_new.len() implies (((#[trigger] s_new[i]) is Some
        && (#[trigger] s_new[j]) is Some) ==> s_new[i]->0.id != s_new[j]->0.id) by {
        if s_new[i] is Some && s_new[j] is Some {
            if i < base && j < base {
                assert(s_new[i] == s_old[i] && s_new[j] == s_old[j]);
            } else if i < base {
                let jd = j - base;
                assert((s_new[base + jd]) is Some && s_new[base + jd]->0.id == ids[jd]);
                assert((s_old[i]) is Some ==> s_old[i]->0.id != ids[jd]);
                assert(s_new[i] == s_old[i]);
            } else {
                let idd = i - base;
                let jd = j - base;
                assert((s_new[base + idd]) is Some && s_new[base + idd]->0.id == ids[idd]);
                assert((s_new[base + jd]) is Some && s_new[base + jd]->0.id == ids[jd]);
                assert(ids[idd] != ids[jd]);
            }
        }
    }
}

/// Whether a list of ids contains one, executably.
fn contains_id(ids: &Vec<i64>, id: i64) -> (r: bool)
    ensures
        r == ids@.contains(id),
{
    let mut i: usize = 0;
    while i < ids.len()
        invariant
            i <= ids@.len(),
            forall|j: int| 0 <= j < i ==> ids@[j] != id,
        decreases ids@.len() - i,
    {
        if ids[i] == id {
            return true;
        }
        i = i + 1;
    }
    false
}

/// A brute-force k-nearest index: dimension, metric, slot array with
/// tombstones, deletion accounting, a version counter and a distance
/// registry for named custom metrics.
pub struct AnnIndex {
    pub dim: usize,
    pub metric: Distance,
    pub minkowski_p: Option<u32>,
    pub entries: Vec<Option<Entry>>,
    pub deleted_count: usize,
    pub max_deleted_ratio: u32,
    pub version: u64,
    pub registry: DistanceRegistry,
}

impl AnnIndex {
    /// Structural invariant: dimension within the ceiling, every live vector
    /// of that dimension, deletion accounting exact, live ids unique, and a
    /// well-formed registry.
    pub open spec fn wf(self) -> bool {
        &&& 1 <= self.dim <= MAX_DIM
        &&& forall|i: int|
            0 <= i < self.entries@.len() ==> ((#[trigger] self.entries@[i]) matches Some(e)
                ==> e.vector@.len() == self.dim)
        &&& self.deleted_count + count_live(self.entries@) == self.entries@.len()
        &&& unique_live_ids(self.entries@)
        &&& registry_wf(self.registry)
    }

    /// Whether some live entry carries this id.
    pub open spec fn has_live_id(self, id: i64) -> bool {
        exists|i: int|
            0 <= i < self.entries@.len() && (#[trigger] self.entries@[i]) is Some
                && self.entries@[i]->0.id == id
    }

    /// The number of live entries.
    pub open spec fn spec_len(self) -> nat {
        count_live(self.entries@)
    }

    /// Create an index bound to a unit metric.
    ///
    /// Fails exactly on a zero dimension (a `Dimension` error) or one
    /// beyond the ceiling (an `Allocation` error); a fresh index starts
    /// empty at version zero with the default deleted-ratio bound.
    pub fn new(dim: usize, metric: Distance) -> (r: Result<AnnIndex, RustAnnError>)
        ensures
            r is Ok <==> 1 <= dim <= MAX_DIM,
            dim == 0 ==> (r matches Err(e) && e is Dimension),
            dim > MAX_DIM ==> (r matches Err(e) && e is Allocation),
            r matches Ok(idx) ==> idx.wf() && idx.dim == dim && idx.metric == metric
                && idx.version == 0 && idx.spec_len() == 0 && idx.entries@.len() == 0
                && idx.deleted_count == 0 && idx.minkowski_p is None
                && idx.max_deleted_ratio == DEFAULT_MAX_DELETED_RATIO,
    {
        if dim == 0 {
            return Err(RustAnnError::Dimension("dimension must be positive".to_string()));
        }
        if dim > MAX_DIM {
            return Err(RustAnnError::Allocation("dimension exceeds the safe ceiling".to_string()));
        }
        Ok(AnnIndex {
            dim,
            metric,
            minkowski_p: None,
            entries: Vec::new(),
            deleted_count: 0,
            max_deleted_ratio: DEFAULT_MAX_DELETED_RATIO,
            version: 0,
            registry: DistanceRegistry::new(),
        })
    }

    /// Create an index with the Minkowski metric of order `p` (bit pattern).
    ///
    /// Fails exactly on a bad dimension (as `new` does) or an order not
    /// above zero by value - a NaN order included - with a `Minkowski`
    /// error.
    pub fn new_minkowski(dim: usize, p: u32) -> (r: Result<AnnIndex, RustAnnError>)
        ensures
            r is Ok <==> (1 <= dim <= MAX_DIM && spec_lt32(0u32, p)),
            dim == 0 ==> (r matches Err(e) && e is Dimension),
            1 <= dim && dim > MAX_DIM ==> (r matches Err(e) && e is Allocation),
            1 <= dim <= MAX_DIM && !spec_lt32(0u32, p) ==> (r matches Err(e) && e is Minkowski),
            r matches Ok(idx) ==> idx.wf() && idx.dim == dim
                && idx.metric == Distance::Minkowski(p) && idx.minkowski_p == Some(p)
                && idx.version == 0 && idx.spec_len() == 0 && idx.entries@.len() == 0
                && idx.deleted_count == 0
                && idx.max_deleted_ratio == DEFAULT_MAX_DELETED_RATIO,
    {
        if dim == 0 {
            return Err(RustAnnError::Dimension("dimension must be positive".to_string()));
        }
        if dim > MAX_DIM {
            return Err(RustAnnError::Allocation("dimension exceeds the safe ceiling".to_string()));
        }
        if !lt32(0, p) {
            return Err(RustAnnError::Minkowski("order must be greater than zero".to_string()));
        }
        Ok(AnnIndex {
            dim,
            metric: Distance::Minkowski(p),
            minkowski_p: Some(p),
            entries: Vec::new(),
            deleted_count: 0,
            max_deleted_ratio: DEFAULT_MAX_DELETED_RATIO,
            version: 0,
            registry: DistanceRegistry::new(),
        })
    }

    /// Create an index from a metric name; known names bind their tag and
    /// unknown names become custom metrics resolved through the registry at
    /// search time.
    pub fn new_with_metric(dim: usize, metric_name: &str) -> (r: Result<AnnIndex, RustAnnError>)
        ensures
            r is Ok <==> 1 <= dim <= MAX_DIM,
            dim == 0 ==> (r matches Err(e) && e is Dimension),
            dim > MAX_DIM ==> (r matches Err(e) && e is Allocation),
            r matches Ok(idx) ==> idx.wf() && idx.dim == dim && idx.version == 0
                && idx.spec_len() == 0,
            r matches Ok(idx) ==> {
                &&& metric_name@ == "euclidean"@ ==> idx.metric == Distance::Euclidean
                &&& metric_name@ == "cosine"@ ==> idx.metric == Distance::Cosine
                &&& metric_name@ == "manhattan"@ ==> idx.metric == Distance::Manhattan
                &&& metric_name@ == "chebyshev"@ ==> idx.metric == Distance::Chebyshev
                &&& metric_name@ == "hamming"@ ==> idx.metric == Distance::Hamming
                &&& metric_name@ == "jaccard"@ ==> idx.metric == Distance::Jaccard
                &&& metric_name@ == "angular"@ ==> idx.metric == Distance::Angular
                &&& metric_name@ == "canberra"@ ==> idx.metric == Distance::Canberra
                &&& !is_known_metric_name(metric_name@) ==> (idx.metric matches Distance::Custom(
                    s,
                ) && s@ == metric_name@)
            },
    {
        let metric = Distance::new(metric_name);
        AnnIndex::new(dim, metric)
    }

    /// Number of live entries.
    pub fn len(&self) -> (r: usize)
        requires
            self.wf(),
        ensures
            r == self.spec_len(),
    {
        proof {
            lemma_count_live_le_len(self.entries@);
        }
        self.entries.len() - self.deleted_count
    }

    /// Total slots, tombstones included.
    pub fn capacity(&self) -> (r: usize)
        ensures
            r == self.entries@.len(),
    {
        self.entries.len()
    }

    /// Tombstoned slots.
    pub fn deleted_count(&self) -> (r: usize)
        ensures
            r == self.deleted_count,
    {
        self.deleted_count
    }

    /// The version counter: advanced once per successful mutating call,
    /// never by a read.
    pub fn version(&self) -> (r: u64)
        ensures
            r == self.version,
    {
        self.version
    }

    /// The dimension every stored vector has.
    pub fn dim(&self) -> (r: usize)
        ensures
            r == self.dim,
    {
        self.dim
    }

    /// The live entry carrying `id` (meaningful when `has_live_id`).
    pub open spec fn live_entry(self, id: i64) -> Entry {
        let i = choose|i: int|
            0 <= i < self.entries@.len() && (#[trigger] self.entries@[i]) is Some
                && self.entries@[i]->0.id == id;
        self.entries@[i]->0
    }

    /// Whether the batch `(data, ids)` passes every admission rule of `add`:
    /// non-negative ids, matching lengths, rows of the index dimension, both
    /// allocation ceilings, and no duplicate against the store or within the
    /// batch.
    pub open spec fn spec_add_ok(self, data: Seq<Vec<u32>>, ids: Seq<i64>) -> bool {
        &&& forall|i: int| 0 <= i < ids.len() ==> #[trigger] ids[i] >= 0
        &&& data.len() == ids.len()
        &&& forall|i: int| 0 <= i < data.len() ==> (#[trigger] data[i])@.len() == self.dim
        &&& ids.len() <= MAX_ROWS
        &&& self.spec_len() + ids.len() < MAX_ROWS
        &&& forall|i: int| 0 <= i < ids.len() ==> !self.has_live_id(#[trigger] ids[i])
        &&& forall|i: int, j: int| 0 <= i < j < ids.len() ==> ids[i] != ids[j]
    }

    /// With unique live ids, any live slot carrying `id` holds `live_entry`.
    proof fn lemma_live_entry_at(self, id: i64, i: int)
        requires
            self.wf(),
            0 <= i < self.entries@.len(),
            self.entries@[i] is Some,
            self.entries@[i]->0.id == id,
        ensures
            self.has_live_id(id),
            self.entries@[i] == Some(self.live_entry(id)),
    {
        assert(self.has_live_id(id));
        let j = choose|j: int|
            0 <= j < self.entries@.len() && (#[trigger] self.entries@[j]) is Some
                && self.entries@[j]->0.id == id;
        if i != j {
            assert(false);
        }
    }

    /// Whether some live entry carries `id`, executably.
    fn contains_live_id(&self, id: i64) -> (r: bool)
        ensures
            r == self.has_live_id(id),
    {
        let mut i: usize = 0;
        while i < self.entries.len()
            invariant
                i <= self.entries@.len(),
                forall|j: int|
                    0 <= j < i ==> !((#[trigger] self.entries@[j]) is Some
                        && self.entries@[j]->0.id == id),
            decreases self.entries@.len() - i,
        {
            match &self.entries[i] {
                Some(e) => {
                    if e.id == id {
                        assert(self.has_live_id(id));
                        return true;
                    }
                },
                None => {},
            }
            i = i + 1;
        }
        false
    }

    /// Check every admission rule of `add` without mutating anything; the
    /// error names the first rule broken, in checking order.
    fn add_check(&self, data: &Vec<Vec<u32>>, ids: &Vec<i64>) -> (r: Option<RustAnnError>)
        requires
            self.wf(),
        ensures
            r is None <==> self.spec_add_ok(data@, ids@),
            !(forall|i: int| 0 <= i < ids@.len() ==> #[trigger] ids@[i] >= 0) ==> (
            r matches Some(e) && e is Message),
            (forall|i: int| 0 <= i < ids@.len() ==> #[trigger] ids@[i] >= 0) && data@.len()
                != ids@.len() ==> (r matches Some(e) && e is Message),
            (forall|i: int| 0 <= i < ids@.len() ==> #[trigger] ids@[i] >= 0) && data@.len()
                == ids@.len() && !(forall|i: int|
                0 <= i < data@.len() ==> (#[trigger] data@[i])@.len() == self.dim) ==> (
            r matches Some(e) && e is Dimension),
            (forall|i: int| 0 <= i < ids@.len() ==> #[trigger] ids@[i] >= 0) && data@.len()
                == ids@.len() && (forall|i: int|
                0 <= i < data@.len() ==> (#[trigger] data@[i])@.len() == self.dim) && (ids@.len()
                > MAX_ROWS || self.spec_len() + ids@.len() >= MAX_ROWS) ==> (r matches Some(e)
                && e is Allocation),
            (forall|i: int| 0 <= i < ids@.len() ==> #[trigger] ids@[i] >= 0) && data@.len()
                == ids@.len() && (forall|i: int|
                0 <= i < data@.len() ==> (#[trigger] data@[i])@.len() == self.dim) && ids@.len()
                <= MAX_ROWS && self.spec_len() + ids@.len() < MAX_ROWS
                && !self.spec_add_ok(data@, ids@) ==> (r matches Some(e) && e is DuplicateIds),
    {
        let n = data.len();
        let mut i: usize = 0;
        while i < ids.len()
            invariant
                i <= ids@.len(),
                forall|j: int| 0 <= j < i ==> #[trigger] ids@[j] >= 0,
            decreases ids@.len() - i,
        {
            if ids[i] < 0 {
                return Some(RustAnnError::Message("ids must be non-negative".to_string()));
            }
            i = i + 1;
        }
        if n != ids.len() {
            return Some(RustAnnError::Message(
                "data and ids must have the same length".to_string(),
            ));
        }
        i = 0;
        while i < n
            invariant
                n == data@.len() == ids@.len(),
                i <= n,
                forall|j: int| 0 <= j < ids@.len() ==> #[trigger] ids@[j] >= 0,
                forall|j: int| 0 <= j < i ==> (#[trigger] data@[j])@.len() == self.dim,
            decreases n - i,
        {
            if data[i].len() != self.dim {
                return Some(RustAnnError::Dimension(
                    "every vector must have the index dimension".to_string(),
                ));
            }
            i = i + 1;
        }
        if n > MAX_ROWS {
            return Some(RustAnnError::Allocation("batch exceeds the row ceiling".to_string()));
        }
        let active = self.len();
        if active >= MAX_ROWS || MAX_ROWS - active <= n {
            return Some(RustAnnError::Allocation(
                "live entries would reach the safe ceiling".to_string(),
            ));
        }
        i = 0;
        while i < n
            invariant
                self.wf(),
                n == data@.len() == ids@.len(),
                n <= MAX_ROWS,
                self.spec_len() + n < MAX_ROWS,
                i <= n,
                forall|j: int| 0 <= j < ids@.len() ==> #[trigger] ids@[j] >= 0,
                forall|j: int| 0 <= j < data@.len() ==> (#[trigger] data@[j])@.len() == self.dim,
                forall|j: int| 0 <= j < i ==> !self.has_live_id(#[trigger] ids@[j]),
                forall|j1: int, j2: int| 0 <= j1 < j2 < i ==> ids@[j1] != ids@[j2],
            decreases n - i,
        {
            if self.contains_live_id(ids[i]) {
                return Some(RustAnnError::DuplicateIds(
                    "an id is already live in the index".to_string(),
                ));
            }
            let mut j: usize = 0;
            while j < i
                invariant
                    self.wf(),
                    j <= i < n == ids@.len(),
                    n == data@.len(),
                    n <= MAX_ROWS,
                    self.spec_len() + n < MAX_ROWS,
                    forall|l: int| 0 <= l < ids@.len() ==> #[trigger] ids@[l] >= 0,
                    forall|l: int|
                        0 <= l < data@.len() ==> (#[trigger] data@[l])@.len() == self.dim,
                    forall|l: int| 0 <= l < j ==> ids@[l] != ids@[i as int],
                decreases i - j,
            {
                if ids[j] == ids[i] {
                    return Some(RustAnnError::DuplicateIds(
                        "an id repeats within the batch".to_string(),
                    ));
                }
                j = j + 1;
            }
            i = i + 1;
        }
        proof {
            lemma_count_live_le_len(self.entries@);
        }
        None
    }

    /// Add a batch of vectors with their ids: all or nothing.
    ///
    /// On any admission failure the store is unchanged and the error names
    /// the first rule broken; on success the rows are appended in order,
    /// each with its cached squared norm, and the version moves by one.
    pub fn add(&mut self, data: Vec<Vec<u32>>, ids: Vec<i64>) -> (r: Result<(), RustAnnError>)
        requires
            old(self).wf(),
            old(self).version < u64::MAX,
        ensures
            final(self).wf(),
            r is Err ==> *final(self) == *old(self),
            r is Ok <==> old(self).spec_add_ok(data@, ids@),
            (forall|i: int| 0 <= i < ids@.len() ==> #[trigger] ids@[i] >= 0) && data@.len()
                == ids@.len() && (forall|i: int|
                0 <= i < data@.len() ==> (#[trigger] data@[i])@.len() == old(self).dim)
                && ids@.len() <= MAX_ROWS && old(self).spec_len() + ids@.len() < MAX_ROWS
                && !old(self).spec_add_ok(data@, ids@) ==> (r matches Err(e)
                && e is DuplicateIds),
            r is Ok ==> {
                &&& final(self).version == old(self).version + 1
                &&& final(self).entries@.len() == old(self).entries@.len() + ids@.len()
                &&& final(self).spec_len() == old(self).spec_len() + ids@.len()
                &&& forall|i: int|
                    0 <= i < old(self).entries@.len()
                        ==> final(self).entries@[i] == old(self).entries@[i]
                &&& forall|j: int|
                    0 <= j < ids@.len()
                        ==> ((#[trigger] final(self).entries@[old(self).entries@.len() + j])
                            matches Some(e) && e.id == ids@[j] && e.vector@ == (data@[j])@
                            && e.sq_norm == spec_sq_norm((data@[j])@))
                &&& final(self).dim == old(self).dim
                &&& final(self).metric == old(self).metric
                &&& final(self).minkowski_p == old(self).minkowski_p
                &&& final(self).deleted_count == old(self).deleted_count
                &&& final(self).max_deleted_ratio == old(self).max_deleted_ratio
                &&& final(self).registry == old(self).registry
            },
    {
        match self.add_check(&data, &ids) {
            Some(e) => {
                return Err(e);
            },
            None => {},
        }
        let n = data.len();
        let mut i: usize = 0;
        while i < n
            invariant
                n == data@.len() == ids@.len(),
                i <= n,
                old(self).spec_add_ok(data@, ids@),
                old(self).wf(),
                self.entries@.len() == old(self).entries@.len() + i,
                count_live(self.entries@) == count_live(old(self).entries@) + i,
                forall|l: int|
                    0 <= l < old(self).entries@.len()
                        ==> self.entries@[l] == old(self).entries@[l],
                forall|j: int|
                    0 <= j < i ==> ((#[trigger] self.entries@[old(self).entries@.len() + j])
                        matches Some(e) && e.id == ids@[j] && e.vector@ == (data@[j])@
                        && e.sq_norm == spec_sq_norm((data@[j])@)),
                self.dim == old(self).dim,
                self.metric == old(self).metric,
                self.minkowski_p == old(self).minkowski_p,
                self.deleted_count == old(self).deleted_count,
                self.max_deleted_ratio == old(self).max_deleted_ratio,
                self.registry == old(self).registry,
                self.version == old(self).version,
            decreases n - i,
        {
            let row = data[i].clone();
            proof {
                assert(forall|l: int|
                    0 <= l < row@.len() ==> cloned::<u32>((data@[i as int])@[l], #[trigger] row@[l]));
                assert(row@ =~= (data@[i as int])@);
            }
            let sq = sq_norm32(&row);
            let ghost pre = self.entries@;
            self.entries.push(Some(Entry { id: ids[i], vector: row, sq_norm: sq }));
            proof {
                lemma_count_live_push(pre, self.entries@.last());
            }
            i = i + 1;
        }
        self.version = self.version + 1;
        proof {
            lemma_count_live_le_len(old(self).entries@);
            assert forall|j: int, l: int|
                0 <= j < ids@.len() && 0 <= l < old(self).entries@.len()
                    implies ((#[trigger] old(self).entries@[l]) is Some
                    ==> old(self).entries@[l]->0.id != #[trigger] ids@[j]) by {
                if old(self).entries@[l] is Some && old(self).entries@[l]->0.id == ids@[j] {
                    assert(old(self).has_live_id(ids@[j]));
                }
            }
            assert forall|j: int|
                0 <= j < ids@.len() implies (#[trigger] self.entries@[old(
                self,
            ).entries@.len() + j]) is Some && self.entries@[old(self).entries@.len() + j]->0.id
                == ids@[j] by {
            }
            lemma_append_unique(old(self).entries@, self.entries@, ids@);
            let base = old(self).entries@.len() as int;
            assert forall|i2: int|
                0 <= i2 < self.entries@.len() implies ((#[trigger] self.entries@[i2])
                matches Some(e) ==> e.vector@.len() == self.dim) by {
                if i2 >= base {
                    let jd = i2 - base;
                    assert((self.entries@[base + jd]) matches Some(e) && e.id == ids@[jd]
                        && e.vector@ == (data@[jd])@ && e.sq_norm == spec_sq_norm(
                        (data@[jd])@,
                    ));
                    assert((data@[jd])@.len() == old(self).dim);
                } else {
                    assert(self.entries@[i2] == old(self).entries@[i2]);
                }
            }
        }
        Ok(())
    }

    /// Whether the deleted ratio exceeds the configured bound, computed in
    /// binary32 exactly as `deleted as f32 / total as f32 > ratio`.
    fn should_compact(&self) -> (r: bool)
        requires
            self.wf(),
        ensures
            r == spec_should_compact(
                self.deleted_count as nat,
                self.entries@.len(),
                self.max_deleted_ratio,
            ),
    {
        let total = self.entries.len();
        if total == 0 {
            return false;
        }
        if (total as u64) >= 0x40_0000_0000_0000u64 {
            // beyond any exactly representable count: reclaim unconditionally
            return true;
        }
        let d32 = round32(false, self.deleted_count as u64, 0);
        let t32 = round32(false, total as u64, 0);
        lt32(self.max_deleted_ratio, div32(d32, t32))
    }

    /// Tombstone every live entry whose id is listed; unknown ids are
    /// silently ignored.  One version step; an automatic compaction runs
    /// when the deleted ratio then exceeds the configured bound.
    pub fn remove(&mut self, ids: Vec<i64>) -> (r: Result<(), RustAnnError>)
        requires
            old(self).wf(),
            old(self).version < u64::MAX,
        ensures
            final(self).wf(),
            r is Ok,
            final(self).version == old(self).version + 1,
            forall|id: i64| ids@.contains(id) ==> !final(self).has_live_id(id),
            forall|id: i64|
                !ids@.contains(id) ==> (final(self).has_live_id(id) == old(self).has_live_id(id)),
            forall|id: i64|
                !ids@.contains(id) && old(self).has_live_id(id)
                    ==> final(self).live_entry(id) == old(self).live_entry(id),
            final(self).spec_len() + count_matched(
                old(self).entries@,
                ids@,
                old(self).entries@.len() as int,
            ) == old(self).spec_len(),
            ({
                let m = count_matched(old(self).entries@, ids@, old(self).entries@.len() as int);
                let compacting = spec_should_compact(
                    (old(self).deleted_count + m) as nat,
                    old(self).entries@.len(),
                    old(self).max_deleted_ratio,
                );
                &&& !compacting ==> {
                    &&& final(self).entries@.len() == old(self).entries@.len()
                    &&& final(self).deleted_count == old(self).deleted_count + m
                    &&& forall|j: int|
                        0 <= j < old(self).entries@.len() ==> #[trigger] final(self).entries@[j]
                            == (if old(self).entries@[j] is Some && ids@.contains(
                            old(self).entries@[j]->0.id,
                        ) {
                            None::<Entry>
                        } else {
                            old(self).entries@[j]
                        })
                }
                &&& compacting ==> {
                    &&& final(self).deleted_count == 0
                    &&& final(self).entries@.len() == final(self).spec_len()
                }
            }),
            final(self).dim == old(self).dim,
            final(self).metric == old(self).metric,
            final(self).minkowski_p == old(self).minkowski_p,
            final(self).max_deleted_ratio == old(self).max_deleted_ratio,
            final(self).registry == old(self).registry,
    {
        let mut i: usize = 0;
        while i < self.entries.len()
            invariant
                old(self).wf(),
                self.wf(),
                i <= self.entries@.len(),
                self.entries@.len() == old(self).entries@.len(),
                self.dim == old(self).dim,
                self.metric == old(self).metric,
                self.minkowski_p == old(self).minkowski_p,
                self.max_deleted_ratio == old(self).max_deleted_ratio,
                self.registry == old(self).registry,
                self.version == old(self).version,
                self.deleted_count == old(self).deleted_count + count_matched(
                    old(self).entries@,
                    ids@,
                    i as int,
                ),
                // processed slots: tombstoned when listed, untouched otherwise
                forall|j: int|
                    0 <= j < i ==> #[trigger] self.entries@[j]
                        == (if old(self).entries@[j] is Some
                        && ids@.contains(old(self).entries@[j]->0.id) {
                        None::<Entry>
                    } else {
                        old(self).entries@[j]
                    }),
                forall|j: int|
                    i <= j < self.entries@.len()
                        ==> #[trigger] self.entries@[j] == old(self).entries@[j],
            decreases self.entries@.len() - i,
        {
            let mut hit = false;
            match &self.entries[i] {
                Some(e) => {
                    if contains_id(&ids, e.id) {
                        hit = true;
                    }
                },
                None => {},
            }
            if hit {
                let ghost pre = self.entries@;
                proof {
                    lemma_count_live_pos(pre, i as int);
                    lemma_count_live_le_len(pre);
                }
                self.entries.set(i, None);
                proof {
                    lemma_count_live_update_none(pre, i as int);
                }
                self.deleted_count = self.deleted_count + 1;
                proof {
                    assert(self.deleted_count + count_live(self.entries@)
                        == self.entries@.len());
                    assert forall|i1: int, j1: int|
                        0 <= i1 < j1 < self.entries@.len() implies (((
                        #[trigger] self.entries@[i1]) is Some
                        && (#[trigger] self.entries@[j1]) is Some)
                        ==> self.entries@[i1]->0.id != self.entries@[j1]->0.id) by {
                        if i1 != i as int && j1 != i as int {
                            assert(self.entries@[i1] == pre[i1]);
                            assert(self.entries@[j1] == pre[j1]);
                        }
                    }
                }
            }
            i = i + 1;
        }
        self.version = self.version + 1;
        let ghost mid = *self;
        proof {
            assert forall|id: i64| ids@.contains(id) implies !mid.has_live_id(id) by {
                if mid.has_live_id(id) {
                    let j = choose|j: int|
                        0 <= j < mid.entries@.len() && (#[trigger] mid.entries@[j]) is Some
                            && mid.entries@[j]->0.id == id;
                }
            }
            assert forall|id: i64| !ids@.contains(id) implies (mid.has_live_id(id)
                == old(self).has_live_id(id)) by {
                if old(self).has_live_id(id) {
                    let j = choose|j: int|
                        0 <= j < old(self).entries@.len() && (#[trigger] old(
                            self,
                        ).entries@[j]) is Some && old(self).entries@[j]->0.id == id;
                    assert(mid.entries@[j] == old(self).entries@[j]);
                    assert(mid.has_live_id(id));
                }
                if mid.has_live_id(id) {
                    let j = choose|j: int|
                        0 <= j < mid.entries@.len() && (#[trigger] mid.entries@[j]) is Some
                            && mid.entries@[j]->0.id == id;
                    assert(old(self).entries@[j] == mid.entries@[j]);
                    assert(old(self).has_live_id(id));
                }
            }
            assert forall|id: i64|
                !ids@.contains(id) && old(self).has_live_id(id) implies (mid.live_entry(id)
                == old(self).live_entry(id)) by {
                let j = choose|j: int|
                    0 <= j < old(self).entries@.len() && (#[trigger] old(self).entries@[j])
                        is Some && old(self).entries@[j]->0.id == id;
                assert(mid.entries@[j] == old(self).entries@[j]);
                old(self).lemma_live_entry_at(id, j);
                mid.lemma_live_entry_at(id, j);
            }
        }
        proof {
            assert(count_matched(old(self).entries@, ids@, self.entries@.len() as int)
                == self.deleted_count - old(self).deleted_count);
        }
        if self.should_compact() {
            self.compact_slots();
        }
        Ok(())
    }

    /// Rewrite the slot array to live entries only, resetting the deletion
    /// accounting; the version is not touched here.
    #[verifier::rlimit(100)]
    #[verifier::spinoff_prover]
    fn compact_slots(&mut self)
        requires
            old(self).wf(),
        ensures
            final(self).wf(),
            final(self).entries@.len() == old(self).spec_len(),
            final(self).spec_len() == old(self).spec_len(),
            final(self).deleted_count == 0,
            forall|id: i64| final(self).has_live_id(id) == old(self).has_live_id(id),
            forall|id: i64|
                old(self).has_live_id(id)
                    ==> final(self).live_entry(id) == old(self).live_entry(id),
            final(self).dim == old(self).dim,
            final(self).metric == old(self).metric,
            final(self).minkowski_p == old(self).minkowski_p,
            final(self).max_deleted_ratio == old(self).max_deleted_ratio,
            final(self).registry == old(self).registry,
            final(self).version == old(self).version,
    {
        let ghost orig = self.entries@;
        let cap = self.entries.len();
        let ghost n = cap as int;
        let mut src: Vec<Option<Entry>> = Vec::new();
        core::mem::swap(&mut src, &mut self.entries);
        // reverse the slots by value, then drain them back in order
        let mut rev: Vec<Option<Entry>> = Vec::new();
        while src.len() > 0
            invariant
                n == orig.len(),
                n <= usize::MAX,
                src@.len() + rev@.len() == n,
                src@ == orig.subrange(0, src@.len() as int),
                forall|j: int| 0 <= j < rev@.len() ==> rev@[j] == orig[n - 1 - j],
            decreases src@.len(),
        {
            let ghost srcpre = src@;
            let x = src.pop().unwrap();
            proof {
                assert(srcpre[srcpre.len() - 1] == orig.subrange(0, srcpre.len() as int)[
                    srcpre.len() - 1]);
                assert(x == orig[srcpre.len() - 1]);
                assert(src@ =~= orig.subrange(0, src@.len() as int));
            }
            let ghost revpre = rev@;
            rev.push(x);
            proof {
                assert forall|j: int| 0 <= j < rev@.len() implies rev@[j] == orig[n - 1 - j] by {
                    if j < revpre.len() {
                        assert(rev@[j] == revpre[j]);
                    } else {
                        assert(rev@[j] == x);
                        assert(n - 1 - j == srcpre.len() - 1);
                    }
                }
            }
        }
        let mut kept: Vec<Option<Entry>> = Vec::new();
        let mut i: usize = 0;
        proof {
            assert(orig.subrange(0, 0) =~= Seq::<Option<Entry>>::empty());
            assert(kept@ =~= live_slots(orig.subrange(0, 0)));
        }
        while rev.len() > 0
            invariant
                n == orig.len(),
                n <= usize::MAX,
                rev@.len() + i == n,
                0 <= i <= n,
                forall|j: int| 0 <= j < rev@.len() ==> rev@[j] == orig[n - 1 - j],
                kept@ == live_slots(orig.subrange(0, i as int)),
            decreases rev@.len(),
        {
            let ghost revpre = rev@;
            let ghost iv = i as int;
            let x = rev.pop().unwrap();
            proof {
                assert(n == orig.len());
                assert(0 <= iv && iv + 1 <= n);
                assert(revpre.len() >= 1);
                assert(revpre[revpre.len() - 1] == orig[n - 1 - (revpre.len() - 1)]);
                assert(n - 1 - (revpre.len() - 1) == iv);
                assert(x == orig[iv]);
                assert(orig.subrange(0, iv + 1).drop_last() =~= orig.subrange(0, iv));
                assert(orig.subrange(0, iv + 1).last() == orig[iv]);
            }
            let ghost keptpre = kept@;
            match x {
                Some(e) => {
                    kept.push(Some(e));
                    proof {
                        assert(orig[iv] is Some);
                        assert(live_slots(orig.subrange(0, iv + 1)) == live_slots(
                            orig.subrange(0, iv),
                        ).push(orig[iv]));
                        assert(kept@ =~= live_slots(orig.subrange(0, iv + 1)));
                    }
                },
                None => {
                    proof {
                        assert(!(orig[iv] is Some));
                        assert(live_slots(orig.subrange(0, iv + 1)) == live_slots(
                            orig.subrange(0, iv),
                        ));
                        assert(kept@ =~= live_slots(orig.subrange(0, iv + 1)));
                    }
                },
            }
            i = i + 1;
        }
        proof {
            assert(orig.subrange(0, n) =~= orig);
            assert(kept@ == live_slots(orig));
        }
        self.entries = kept;
        self.deleted_count = 0;
        proof {
            let s = *self;
            lemma_live_slots_props(orig);
            assert(unique_live_ids(orig));
            lemma_live_slots_unique(orig);
            lemma_count_live_all_some(s.entries@);
            assert forall|i2: int|
                0 <= i2 < s.entries@.len() implies ((#[trigger] s.entries@[i2])
                matches Some(e) ==> e.vector@.len() == s.dim) by {
                if s.entries@[i2] is Some {
                    let l = choose|l: int|
                        0 <= l < orig.len() && orig[l] == live_slots(orig)[i2];
                    assert(old(self).entries@[l] == s.entries@[i2]);
                }
            }
            assert forall|id: i64| s.has_live_id(id) == old(self).has_live_id(id) by {
                if s.has_live_id(id) {
                    let j = choose|j: int|
                        0 <= j < s.entries@.len() && (#[trigger] s.entries@[j]) is Some
                            && s.entries@[j]->0.id == id;
                    let l = choose|l: int| 0 <= l < orig.len() && orig[l] == live_slots(orig)[j];
                    assert(old(self).entries@[l] is Some
                        && old(self).entries@[l]->0.id == id);
                    assert(old(self).has_live_id(id));
                }
                if old(self).has_live_id(id) {
                    let l = choose|l: int|
                        0 <= l < old(self).entries@.len() && (#[trigger] old(
                            self,
                        ).entries@[l]) is Some && old(self).entries@[l]->0.id == id;
                    let j = choose|j: int|
                        0 <= j < live_slots(orig).len() && live_slots(orig)[j] == orig[l];
                    assert(s.entries@[j] is Some && s.entries@[j]->0.id == id);
                    assert(s.has_live_id(id));
                }
            }
            assert(s.wf());
            assert forall|id: i64|
                old(self).has_live_id(id) implies s.live_entry(id) == old(self).live_entry(
                id,
            ) by {
                let l = choose|l: int|
                    0 <= l < old(self).entries@.len() && (#[trigger] old(self).entries@[l])
                        is Some && old(self).entries@[l]->0.id == id;
                old(self).lemma_live_entry_at(id, l);
                let j = choose|j: int|
                    0 <= j < live_slots(orig).len() && live_slots(orig)[j] == orig[l];
                s.lemma_live_entry_at(id, j);
            }
        }
    }

    /// Bound the deleted ratio that triggers automatic compaction.
    ///
    /// Accepts exactly ratios between zero and one by value; a read-only
    /// configuration change, so the version does not move.
    pub fn set_max_deleted_ratio(&mut self, ratio: u32) -> (r: Result<(), RustAnnError>)
        ensures
            r is Ok <==> (crate::float_bits::spec_le32(0u32, ratio)
                && crate::float_bits::spec_le32(ratio, ONE32)),
            r is Ok ==> *final(self) == (AnnIndex { max_deleted_ratio: ratio, ..*old(self) }),
            r is Err ==> *final(self) == *old(self),
    {
        if le32(0, ratio) && le32(ratio, ONE32) {
            self.max_deleted_ratio = ratio;
            Ok(())
        } else {
            Err(RustAnnError::Message("ratio must lie between zero and one".to_string()))
        }
    }
}

/// Whether an optional filter accepts an (id, position) pair.
pub open spec fn accepts_opt(fo: Option<&Filter>, id: i64, pos: int) -> bool {
    match fo {
        None => true,
        Some(f) => spec_accepts(*f, id, pos),
    }
}

/// Live entries among the first `n` slots that the filter accepts: the
/// candidate count of a search.
pub open spec fn count_accepted(s: Seq<Option<Entry>>, fo: Option<&Filter>, n: int) -> nat
    decreases n,
{
    if n <= 0 {
        0nat
    } else {
        count_accepted(s, fo, n - 1) + (if s[n - 1] is Some && accepts_opt(
            fo,
            s[n - 1]->0.id,
            n - 1,
        ) {
            1nat
        } else {
            0nat
        })
    }
}

/// Live entries matching one of the listed ids among the first `n` slots:
/// what a removal tombstones.
pub open spec fn count_matched(s: Seq<Option<Entry>>, ids: Seq<i64>, n: int) -> nat
    decreases n,
{
    if n <= 0 {
        0nat
    } else {
        count_matched(s, ids, n - 1) + (if s[n - 1] is Some && ids.contains(s[n - 1]->0.id) {
            1nat
        } else {
            0nat
        })
    }
}

/// The ratio rule that triggers an automatic compaction: the tombstone
/// count over the slot count, both rounded to binary32, compared above the
/// configured bound; counts past the exactly representable range reclaim
/// unconditionally.
pub open spec fn spec_should_compact(deleted: nat, total: nat, ratio: u32) -> bool {
    if total == 0 {
        false
    } else if total >= 0x40_0000_0000_0000 {
        true
    } else {
        spec_lt32(
            ratio,
            f_spec_div32(
                f_spec_round32(false, deleted, 0),
                f_spec_round32(false, total, 0),
            ),
        )
    }
}

/// The accepted count never exceeds the live count.
pub proof fn lemma_count_accepted_le_live(s: Seq<Option<Entry>>, fo: Option<&Filter>, n: int)
    requires
        n <= s.len(),
    ensures
        count_accepted(s, fo, n) <= count_live(s.subrange(0, if n < 0 { 0 } else { n })),
    decreases n,
{
    if n > 0 {
        lemma_count_accepted_le_live(s, fo, n - 1);
        assert(s.subrange(0, n).drop_last() =~= s.subrange(0, n - 1));
        assert(s.subrange(0, n).last() == s[n - 1]);
    } else {
        assert(s.subrange(0, 0) =~= Seq::<Option<Entry>>::empty());
    }
}

/// Whether the bound metric's distances are pinned exactly by the binary32
/// model (a custom metric goes through user code, which no model covers).
pub open spec fn metric_modeled(m: Distance) -> bool {
    match m {
        Distance::Custom(_) => false,
        _ => true,
    }
}

/// The spec distance of a modeled metric, from the query, an entry's vector
/// and the two cached squared norms.
pub open spec fn spec_metric_dist(m: Distance, q: Seq<u32>, v: Seq<u32>, q_sq: u32, v_sq: u32) -> u32 {
    match m {
        Distance::Euclidean => spec_euclid(v_sq, q_sq, dot_acc(v, q, v.len() as int)),
        Distance::Cosine => spec_cosine(v_sq, q_sq, dot_acc(v, q, v.len() as int)),
        Distance::Manhattan => man_acc(q, v, q.len() as int),
        Distance::Chebyshev => cheb_acc(q, v, q.len() as int),
        Distance::Minkowski(p) => spec_minkowski32(q, v, p),
        Distance::Hamming => ham_acc(q, v, q.len() as int),
        Distance::Jaccard => spec_jaccard(q, v),
        Distance::Angular => spec_angular32(q, v, q_sq, v_sq),
        Distance::Canberra => canb_acc(q, v, q.len() as int),
        Distance::Custom(_) => 0u32,
    }
}

/// The candidate pairs of a search over the first `n` slots: each live,
/// filter-accepted entry contributes its id with its spec distance, in slot
/// order.
pub open spec fn spec_candidates(
    s: Seq<Option<Entry>>,
    m: Distance,
    q: Seq<u32>,
    q_sq: u32,
    fo: Option<&Filter>,
    n: int,
) -> Seq<(i64, u32)>
    decreases n,
{
    if n <= 0 {
        Seq::empty()
    } else {
        let rest = spec_candidates(s, m, q, q_sq, fo, n - 1);
        if s[n - 1] is Some && accepts_opt(fo, s[n - 1]->0.id, n - 1) {
            rest.push(
                (
                    s[n - 1]->0.id,
                    spec_metric_dist(m, q, s[n - 1]->0.vector@, q_sq, s[n - 1]->0.sq_norm),
                ),
            )
        } else {
            rest
        }
    }
}

/// The result vectors read as a sequence of (id, distance) pairs.
pub open spec fn zip_pairs(ids: Seq<i64>, dists: Seq<u32>) -> Seq<(i64, u32)> {
    Seq::new(ids.len(), |i: int| (ids[i], dists[i]))
}

/// Two positions holding the same value give it multiplicity at least two.
proof fn lemma_two_indices_count<T>(s: Seq<T>, a: int, b: int)
    requires
        0 <= a < b < s.len(),
        s[a] == s[b],
    ensures
        s.to_multiset().count(s[a]) >= 2,
{
    s.to_multiset_ensures();
    let t = s.remove(a);
    s.remove_ensures(a);
    assert(t[b - 1] == s[b]);
    t.to_multiset_ensures();
    assert(t.contains(s[a]));
    assert(t.to_multiset().count(s[a]) > 0);
    assert(t.to_multiset() =~= s.to_multiset().remove(s[a]));
}

impl AnnIndex {
    /// Whether `id` is carried by a live entry that the filter accepts at
    /// its slot.
    pub open spec fn accepted_live_id(self, fo: Option<&Filter>, id: i64) -> bool {
        exists|l: int|
            0 <= l < self.entries@.len() && (#[trigger] self.entries@[l]) is Some
                && self.entries@[l]->0.id == id && accepts_opt(fo, id, l)
    }

    /// The same, restricted to the first `upto` slots.
    pub open spec fn accepted_live_id_upto(
        self,
        fo: Option<&Filter>,
        id: i64,
        upto: int,
    ) -> bool {
        exists|l: int|
            0 <= l < upto && l < self.entries@.len() && (#[trigger] self.entries@[l]) is Some
                && self.entries@[l]->0.id == id && accepts_opt(fo, id, l)
    }

    /// Whether the bound metric can be dispatched: custom names must resolve.
    pub open spec fn metric_resolvable(self) -> bool {
        match self.metric {
            Distance::Custom(name) => registry_has_name(self.registry, name@),
            _ => true,
        }
    }

    /// Everything a successful search promises of its result vectors:
    /// ids and distances pair up; there are exactly `min(k, accepted)` of
    /// them and never more than the live count; the pairs arrive sorted by
    /// distance key then id; the ids are pairwise distinct, live, and
    /// accepted by the filter; and for a modeled metric the pairs are drawn
    /// without duplication from the spec candidates - so each distance is
    /// the spec distance to its id's entry - and optimally: no candidate
    /// occurrence left out beats one taken.
    pub open spec fn search_post(
        self,
        q: Seq<u32>,
        k: int,
        fo: Option<&Filter>,
        ids: Seq<i64>,
        dists: Seq<u32>,
    ) -> bool {
        let n = self.entries@.len() as int;
        let acc = count_accepted(self.entries@, fo, n);
        let cands = spec_candidates(self.entries@, self.metric, q, spec_sq_norm(q), fo, n);
        let taken = zip_pairs(ids, dists);
        &&& ids.len() == dists.len()
        &&& ids.len() == (if k < acc { k } else { acc as int })
        &&& ids.len() <= self.spec_len()
        &&& forall|a: int, b: int|
            0 <= a < b < ids.len() ==> cand_le((ids[a], dists[a]), (ids[b], dists[b]))
        &&& forall|a: int, b: int| 0 <= a < b < ids.len() ==> ids[a] != ids[b]
        &&& forall|t: int| 0 <= t < ids.len() ==> self.accepted_live_id(fo, #[trigger] ids[t])
        &&& metric_modeled(self.metric) ==> {
            &&& forall|x: (i64, u32)|
                #[trigger] taken.to_multiset().count(x) <= cands.to_multiset().count(x)
            &&& forall|x: (i64, u32)|
                taken.to_multiset().count(x) < cands.to_multiset().count(x) ==> (forall|t: int|
                    0 <= t < taken.len() ==> cand_le(#[trigger] taken[t], x))
        }
    }

    /// One distance under the bound metric (the custom path goes through
    /// the supplied registry entry; modeled metrics are pinned exactly).
    fn dist_for(
        &self,
        q: &Vec<u32>,
        q_sq: u32,
        e: &Entry,
        custom: Option<&Box<dyn crate::distance_registry::DistanceFunction>>,
    ) -> (r: u32)
        requires
            self.wf(),
            q@.len() == self.dim,
            e.vector@.len() == self.dim,
            !(self.metric is Custom) || custom is Some,
        ensures
            metric_modeled(self.metric) ==> r == spec_metric_dist(
                self.metric,
                q@,
                e.vector@,
                q_sq,
                e.sq_norm,
            ),
    {
        match &self.metric {
            Distance::Euclidean => euclidean32(q, &e.vector, q_sq, e.sq_norm),
            Distance::Cosine => cosine32(q, &e.vector, q_sq, e.sq_norm),
            Distance::Manhattan => manhattan32(q, &e.vector),
            Distance::Chebyshev => chebyshev32(q, &e.vector),
            Distance::Minkowski(p) => minkowski32(q, &e.vector, *p),
            Distance::Hamming => hamming32(q, &e.vector),
            Distance::Jaccard => jaccard32(q, &e.vector),
            Distance::Angular => angular32(q, &e.vector, q_sq, e.sq_norm),
            Distance::Canberra => canberra32(q, &e.vector),
            Distance::Custom(_) => {
                match custom {
                    Some(f) => f.distance(q, &e.vector),
                    None => 0,
                }
            },
        }
    }

    /// The fan-out, filter, distance and partial-selection pipeline behind a
    /// search, against a captured version.  Success and its result are
    /// pinned by `search_post`; each failure carries its kind.
    #[verifier::rlimit(100)]
    fn inner_search(
        &self,
        q: &Vec<u32>,
        q_sq: u32,
        k: usize,
        filter: Option<&Filter>,
        version: u64,
    ) -> (r: Result<(Vec<i64>, Vec<u32>), RustAnnError>)
        requires
            self.wf(),
            q_sq == spec_sq_norm(q@),
        ensures
            r is Ok <==> (version == self.version && q@.len() == self.dim
                && self.metric_resolvable()),
            version != self.version ==> (r matches Err(e) && e is ConcurrentModification),
            version == self.version && q@.len() != self.dim ==> (r matches Err(e)
                && e is Dimension),
            version == self.version && q@.len() == self.dim && !self.metric_resolvable() ==> (
            r matches Err(e) && e is MetricNotFound),
            r matches Ok(p) ==> self.search_post(q@, k as int, filter, p.0@, p.1@),
    {
        if version != self.version {
            return Err(RustAnnError::ConcurrentModification);
        }
        if q.len() != self.dim {
            return Err(RustAnnError::Dimension(
                "query length must equal the index dimension".to_string(),
            ));
        }
        let custom: Option<&Box<dyn crate::distance_registry::DistanceFunction>> =
            match &self.metric {
            Distance::Custom(name) => {
                match self.registry.get(name.as_str()) {
                    Some(f) => Some(f),
                    None => {
                        return Err(RustAnnError::MetricNotFound(
                            "no registry entry resolves the custom metric".to_string(),
                        ));
                    },
                }
            },
            _ => None,
        };
        let ghost n_all = self.entries@.len() as int;
        let mut cands: Vec<(i64, u32)> = Vec::new();
        let mut i: usize = 0;
        while i < self.entries.len()
            invariant
                self.wf(),
                q@.len() == self.dim,
                q_sq == spec_sq_norm(q@),
                !(self.metric is Custom) || custom is Some,
                i <= self.entries@.len(),
                cands@.len() == count_accepted(self.entries@, filter, i as int),
                metric_modeled(self.metric) ==> cands@ == spec_candidates(
                    self.entries@,
                    self.metric,
                    q@,
                    q_sq,
                    filter,
                    i as int,
                ),
                forall|t: int|
                    0 <= t < cands@.len() ==> self.accepted_live_id_upto(
                        filter,
                        (#[trigger] cands@[t]).0,
                        i as int,
                    ),
                forall|t1: int, t2: int|
                    0 <= t1 < t2 < cands@.len() ==> (#[trigger] cands@[t1]).0 != (
                    #[trigger] cands@[t2]).0,
            decreases self.entries@.len() - i,
        {
            match &self.entries[i] {
                Some(e) => {
                    let ok = match filter {
                        None => true,
                        Some(f) => f.accepts(e.id, i),
                    };
                    if ok {
                        let d = self.dist_for(q, q_sq, e, custom);
                        let ghost pre = cands@;
                        cands.push((e.id, d));
                        proof {
                            assert(self.accepted_live_id_upto(filter, e.id, i + 1));
                            assert forall|t1: int, t2: int|
                                0 <= t1 < t2 < cands@.len() implies (
                            #[trigger] cands@[t1]).0 != (#[trigger] cands@[t2]).0 by {
                                if t2 == pre.len() {
                                    if cands@[t1].0 == e.id {
                                        let l = choose|l: int|
                                            0 <= l < i && l < self.entries@.len() && (
                                            #[trigger] self.entries@[l]) is Some
                                                && self.entries@[l]->0.id == cands@[t1].0
                                                && accepts_opt(filter, cands@[t1].0, l);
                                        assert(self.entries@[l] is Some
                                            && self.entries@[i as int] is Some);
                                        assert(false);
                                    }
                                }
                            }
                        }
                    }
                },
                None => {},
            }
            i = i + 1;
        }
        proof {
            lemma_count_accepted_le_live(self.entries@, filter, n_all);
            assert(self.entries@.subrange(0, n_all) =~= self.entries@);
            lemma_count_live_le_len(self.entries@);
        }
        let top = select_topk(&cands, k);
        let mut ids: Vec<i64> = Vec::new();
        let mut dists: Vec<u32> = Vec::new();
        let mut t: usize = 0;
        while t < top.len()
            invariant
                t <= top@.len(),
                ids@.len() == t,
                dists@.len() == t,
                forall|a: int| 0 <= a < t ==> (ids@[a], dists@[a]) == #[trigger] top@[a],
            decreases top@.len() - t,
        {
            ids.push(top[t].0);
            dists.push(top[t].1);
            t = t + 1;
        }
        proof {
            let taken = zip_pairs(ids@, dists@);
            assert(taken =~= top@);
            cands@.to_multiset_ensures();
            top@.to_multiset_ensures();
            // ids are live, accepted, and pairwise distinct
            assert(cands@.no_duplicates()) by {
                assert forall|t1: int, t2: int|
                    0 <= t1 < t2 < cands@.len() implies cands@[t1] != cands@[t2] by {
                    assert(cands@[t1].0 != cands@[t2].0);
                }
            }
            cands@.lemma_multiset_has_no_duplicates();
            assert forall|t2: int|
                0 <= t2 < ids@.len() implies self.accepted_live_id(
                filter,
                #[trigger] ids@[t2],
            ) by {
                assert((ids@[t2], dists@[t2]) == top@[t2]);
                assert(top@.contains(top@[t2]));
                assert(top@.to_multiset().count(top@[t2]) > 0);
                assert(cands@.to_multiset().count(top@[t2]) > 0);
                assert(cands@.contains(top@[t2]));
                let j = choose|j: int| 0 <= j < cands@.len() && cands@[j] == top@[t2];
                assert(self.accepted_live_id_upto(filter, cands@[j].0, n_all));
                let l = choose|l: int|
                    0 <= l < n_all && l < self.entries@.len() && (
                    #[trigger] self.entries@[l]) is Some && self.entries@[l]->0.id
                        == cands@[j].0 && accepts_opt(filter, cands@[j].0, l);
                assert(self.accepted_live_id(filter, ids@[t2]));
            }
            assert forall|a: int, b: int|
                0 <= a < b < ids@.len() implies ids@[a] != ids@[b] by {
                if ids@[a] == ids@[b] {
                    let x = top@[a];
                    let y = top@[b];
                    assert((ids@[a], dists@[a]) == x && (ids@[b], dists@[b]) == y);
                    if x == y {
                        lemma_two_indices_count(top@, a, b);
                        assert(cands@.to_multiset().count(x) >= 2);
                        assert(cands@.to_multiset().contains(x));
                        assert(false);
                    } else {
                        assert(top@.contains(x) && top@.contains(y));
                        assert(cands@.to_multiset().count(x) > 0);
                        assert(cands@.to_multiset().count(y) > 0);
                        assert(cands@.contains(x) && cands@.contains(y));
                        let j1 = choose|j: int| 0 <= j < cands@.len() && cands@[j] == x;
                        let j2 = choose|j: int| 0 <= j < cands@.len() && cands@[j] == y;
                        assert(j1 != j2);
                        assert(cands@[j1].0 == cands@[j2].0);
                        assert(false);
                    }
                }
            }
            assert forall|a: int, b: int|
                0 <= a < b < ids@.len() implies cand_le(
                (ids@[a], dists@[a]),
                (ids@[b], dists@[b]),
            ) by {
                assert((ids@[a], dists@[a]) == top@[a]);
                assert((ids@[b], dists@[b]) == top@[b]);
                assert(cand_le(top@[a], top@[b]));
            }
            if metric_modeled(self.metric) {
                assert(cands@ == spec_candidates(
                    self.entries@,
                    self.metric,
                    q@,
                    q_sq,
                    filter,
                    n_all,
                ));
            }
            assert(self.search_post(q@, k as int, filter, ids@, dists@));
        }
        Ok((ids, dists))
    }

    /// Search the `k` nearest live entries to `query` under the bound
    /// metric, with an optional filter.
    ///
    /// Fails exactly on an index without live entries (`EmptyIndex`), a
    /// query of the wrong dimension (`Dimension`), or a custom metric no
    /// registry entry resolves (`MetricNotFound`); success is pinned by
    /// `search_post`, so the answer is the sorted selection of the nearest
    /// accepted live entries, a zero `k` yielding an empty result.
    pub fn search(&self, query: &Vec<u32>, k: usize, filter: Option<&Filter>) -> (r: Result<
        (Vec<i64>, Vec<u32>),
        RustAnnError,
    >)
        requires
            self.wf(),
        ensures
            r is Ok <==> (self.spec_len() > 0 && query@.len() == self.dim
                && self.metric_resolvable()),
            self.spec_len() == 0 ==> (r matches Err(e) && e is EmptyIndex),
            self.spec_len() > 0 && query@.len() != self.dim ==> (r matches Err(e)
                && e is Dimension),
            self.spec_len() > 0 && query@.len() == self.dim && !self.metric_resolvable() ==> (
            r matches Err(e) && e is MetricNotFound),
            r matches Ok(p) ==> self.search_post(query@, k as int, filter, p.0@, p.1@),
    {
        if self.len() == 0 {
            return Err(RustAnnError::EmptyIndex);
        }
        if query.len() != self.dim {
            return Err(RustAnnError::Dimension(
                "query length must equal the index dimension".to_string(),
            ));
        }
        let q_sq = sq_norm32(query);
        let version = self.version;
        self.inner_search(query, q_sq, k, filter, version)
    }

    /// Search one query per row, demanding a full `k` results for each so
    /// the answer forms an exact N-by-k matrix; the dimension is checked up
    /// front for the whole batch, and each row equals the single-query
    /// answer for its query.
    pub fn search_batch(&self, queries: &Vec<Vec<u32>>, k: usize, filter: Option<&Filter>) -> (r:
        Result<(Vec<Vec<i64>>, Vec<Vec<u32>>), RustAnnError>)
        requires
            self.wf(),
        ensures
            r is Ok <==> ((forall|j: int|
                0 <= j < queries@.len() ==> (#[trigger] queries@[j])@.len() == self.dim) && (
            queries@.len() > 0 ==> (self.metric_resolvable() && (if (k as int) < count_accepted(
                self.entries@,
                filter,
                self.entries@.len() as int,
            ) {
                k as int
            } else {
                count_accepted(self.entries@, filter, self.entries@.len() as int) as int
            }) == k))),
            !(forall|j: int|
                0 <= j < queries@.len() ==> (#[trigger] queries@[j])@.len() == self.dim) ==> (
            r matches Err(e) && e is Dimension),
            (forall|j: int|
                0 <= j < queries@.len() ==> (#[trigger] queries@[j])@.len() == self.dim)
                && queries@.len() > 0 && !self.metric_resolvable() ==> (r matches Err(e)
                && e is MetricNotFound),
            (forall|j: int|
                0 <= j < queries@.len() ==> (#[trigger] queries@[j])@.len() == self.dim)
                && queries@.len() > 0 && self.metric_resolvable() && (if (k as int)
                < count_accepted(self.entries@, filter, self.entries@.len() as int) {
                k as int
            } else {
                count_accepted(self.entries@, filter, self.entries@.len() as int) as int
            }) != k ==> (r matches Err(e) && e is Reshape),
            r matches Ok(m) ==> {
                &&& m.0@.len() == queries@.len()
                &&& m.1@.len() == queries@.len()
                &&& forall|row: int|
                    0 <= row < queries@.len() ==> self.search_post(
                        (#[trigger] queries@[row])@,
                        k as int,
                        filter,
                        m.0@[row]@,
                        m.1@[row]@,
                    )
            },
    {
        let mut i: usize = 0;
        while i < queries.len()
            invariant
                i <= queries@.len(),
                forall|j: int| 0 <= j < i ==> (#[trigger] queries@[j])@.len() == self.dim,
                self.wf(),
            decreases queries@.len() - i,
        {
            if queries[i].len() != self.dim {
                return Err(RustAnnError::Dimension(
                    "every query must have the index dimension".to_string(),
                ));
            }
            i = i + 1;
        }
        let mut all_ids: Vec<Vec<i64>> = Vec::new();
        let mut all_dists: Vec<Vec<u32>> = Vec::new();
        i = 0;
        while i < queries.len()
            invariant
                i <= queries@.len(),
                self.wf(),
                forall|j: int| 0 <= j < queries@.len() ==> (#[trigger] queries@[j])@.len()
                    == self.dim,
                all_ids@.len() == i,
                all_dists@.len() == i,
                i > 0 ==> self.metric_resolvable(),
                i > 0 ==> (if (k as int) < count_accepted(
                    self.entries@,
                    filter,
                    self.entries@.len() as int,
                ) {
                    k as int
                } else {
                    count_accepted(self.entries@, filter, self.entries@.len() as int) as int
                }) == k,
                forall|row: int|
                    0 <= row < i ==> self.search_post(
                        (#[trigger] queries@[row])@,
                        k as int,
                        filter,
                        all_ids@[row]@,
                        all_dists@[row]@,
                    ),
            decreases queries@.len() - i,
        {
            let row = &queries[i];
            let q_sq = sq_norm32(row);
            match self.inner_search(row, q_sq, k, filter, self.version) {
                Ok((ids, dists)) => {
                    if ids.len() != k {
                        return Err(RustAnnError::Reshape(
                            "a row yielded fewer than k results".to_string(),
                        ));
                    }
                    let ghost pre_ids = all_ids@;
                    let ghost pre_dists = all_dists@;
                    all_ids.push(ids);
                    all_dists.push(dists);
                    proof {
                        assert forall|row2: int|
                            0 <= row2 < i + 1 implies self.search_post(
                            (#[trigger] queries@[row2])@,
                            k as int,
                            filter,
                            all_ids@[row2]@,
                            all_dists@[row2]@,
                        ) by {
                            if row2 < i {
                                assert(all_ids@[row2] == pre_ids[row2]);
                                assert(all_dists@[row2] == pre_dists[row2]);
                            } else {
                                assert(all_ids@[row2] == all_ids@[pre_ids.len() as int]);
                                assert(all_dists@[row2] == all_dists@[pre_dists.len() as int]);
                            }
                        }
                    }
                },
                Err(e) => {
                    return Err(e);
                },
            }
            i = i + 1;
        }
        Ok((all_ids, all_dists))
    }

    /// Update one live entry's vector in place, recaching its norm.
    ///
    /// Fails exactly on a wrong dimension or an absent id; one version step.
    pub fn update(&mut self, id: i64, vector: Vec<u32>) -> (r: Result<(), RustAnnError>)
        requires
            old(self).wf(),
            old(self).version < u64::MAX,
        ensures
            final(self).wf(),
            r is Err ==> *final(self) == *old(self),
            r is Ok <==> (vector@.len() == old(self).dim && old(self).has_live_id(id)),
            r is Ok ==> {
                &&& final(self).version == old(self).version + 1
                &&& forall|id2: i64| final(self).has_live_id(id2) == old(self).has_live_id(id2)
                &&& final(self).live_entry(id).id == id
                &&& final(self).live_entry(id).vector@ == vector@
                &&& final(self).live_entry(id).sq_norm == spec_sq_norm(vector@)
                &&& forall|id2: i64|
                    id2 != id && old(self).has_live_id(id2) ==> final(self).live_entry(id2)
                        == old(self).live_entry(id2)
                &&& final(self).spec_len() == old(self).spec_len()
                &&& final(self).entries@.len() == old(self).entries@.len()
                &&& final(self).dim == old(self).dim
                &&& final(self).metric == old(self).metric
                &&& final(self).deleted_count == old(self).deleted_count
                &&& final(self).registry == old(self).registry
            },
    {
        if vector.len() != self.dim {
            return Err(RustAnnError::Dimension(
                "the vector must have the index dimension".to_string(),
            ));
        }
        let mut i: usize = 0;
        while i < self.entries.len()
            invariant
                old(self).wf(),
                *self == *old(self),
                i <= self.entries@.len(),
                self.version < u64::MAX,
                vector@.len() == self.dim,
                forall|j: int|
                    0 <= j < i ==> !((#[trigger] self.entries@[j]) is Some
                        && self.entries@[j]->0.id == id),
            decreases self.entries@.len() - i,
        {
            let mut hit = false;
            match &self.entries[i] {
                Some(e) => {
                    if e.id == id {
                        hit = true;
                    }
                },
                None => {},
            }
            if hit {
                let sq = sq_norm32(&vector);
                let ghost pre = self.entries@;
                let ghost iv = i as int;
                let new_entry = Entry { id, vector, sq_norm: sq };
                self.entries.set(i, Some(new_entry));
                self.version = self.version + 1;
                proof {
                    lemma_count_live_update_some(pre, iv, self.entries@[iv]->0);
                    assert forall|i1: int, j1: int|
                        0 <= i1 < j1 < self.entries@.len() implies (((
                        #[trigger] self.entries@[i1]) is Some
                        && (#[trigger] self.entries@[j1]) is Some)
                        ==> self.entries@[i1]->0.id != self.entries@[j1]->0.id) by {
                        if i1 != iv && j1 != iv {
                            assert(self.entries@[i1] == pre[i1]);
                            assert(self.entries@[j1] == pre[j1]);
                        } else if i1 == iv {
                            assert(self.entries@[j1] == pre[j1]);
                            assert(pre[iv] is Some && pre[iv]->0.id == id);
                        } else {
                            assert(self.entries@[i1] == pre[i1]);
                            assert(pre[iv] is Some && pre[iv]->0.id == id);
                        }
                    }
                    assert(self.wf());
                    assert forall|id2: i64|
                        self.has_live_id(id2) == old(self).has_live_id(id2) by {
                        if self.has_live_id(id2) {
                            let j = choose|j: int|
                                0 <= j < self.entries@.len() && (
                                #[trigger] self.entries@[j]) is Some
                                    && self.entries@[j]->0.id == id2;
                            if j == iv {
                                assert(old(self).entries@[iv] is Some
                                    && old(self).entries@[iv]->0.id == id);
                                assert(old(self).has_live_id(id2));
                            } else {
                                assert(old(self).entries@[j] == self.entries@[j]);
                                assert(old(self).has_live_id(id2));
                            }
                        }
                        if old(self).has_live_id(id2) {
                            let j = choose|j: int|
                                0 <= j < old(self).entries@.len() && (#[trigger] old(
                                    self,
                                ).entries@[j]) is Some && old(self).entries@[j]->0.id == id2;
                            if j == iv {
                                assert(self.entries@[iv] is Some
                                    && self.entries@[iv]->0.id == id);
                                assert(self.has_live_id(id2));
                            } else {
                                assert(self.entries@[j] == old(self).entries@[j]);
                                assert(self.has_live_id(id2));
                            }
                        }
                    }
                    self.lemma_live_entry_at(id, iv);
                    assert forall|id2: i64|
                        id2 != id && old(self).has_live_id(id2) implies self.live_entry(id2)
                        == old(self).live_entry(id2) by {
                        let j = choose|j: int|
                            0 <= j < old(self).entries@.len() && (#[trigger] old(
                                self,
                            ).entries@[j]) is Some && old(self).entries@[j]->0.id == id2;
                        assert(j != iv);
                        assert(self.entries@[j] == old(self).entries@[j]);
                        old(self).lemma_live_entry_at(id2, j);
                        self.lemma_live_entry_at(id2, j);
                    }
                }
                return Ok(());
            }
            i = i + 1;
        }
        proof {
            if old(self).has_live_id(id) {
                let j = choose|j: int|
                    0 <= j < old(self).entries@.len() && (#[trigger] old(self).entries@[j])
                        is Some && old(self).entries@[j]->0.id == id;
            }
        }
        Err(RustAnnError::Message("no live entry carries the id".to_string()))
    }

    /// Check the store's integrity: every live vector has the index
    /// dimension (guaranteed by the maintained invariant) and every cached
    /// norm recomputes to itself - the one property the invariant does not
    /// carry, which this diagnostic pins exactly.
    pub fn validate(&self) -> (r: Result<(), RustAnnError>)
        requires
            self.wf(),
        ensures
            r is Ok <==> (forall|j: int|
                0 <= j < self.entries@.len() ==> ((#[trigger] self.entries@[j]) is Some
                    ==> self.entries@[j]->0.sq_norm == spec_sq_norm(
                    self.entries@[j]->0.vector@,
                ))),
    {
        let mut i: usize = 0;
        while i < self.entries.len()
            invariant
                self.wf(),
                i <= self.entries@.len(),
                forall|j: int|
                    0 <= j < i ==> ((#[trigger] self.entries@[j]) is Some
                        ==> self.entries@[j]->0.sq_norm == spec_sq_norm(
                        self.entries@[j]->0.vector@,
                    )),
            decreases self.entries@.len() - i,
        {
            match &self.entries[i] {
                Some(e) => {
                    let recomputed = sq_norm32(&e.vector);
                    if recomputed != e.sq_norm {
                        return Err(RustAnnError::Other(
                            "a cached norm does not match its vector".to_string(),
                        ));
                    }
                },
                None => {},
            }
            i = i + 1;
        }
        Ok(())
    }

    /// Rewrite the slot array to live entries only; one version step.
    pub fn compact(&mut self) -> (r: Result<(), RustAnnError>)
        requires
            old(self).wf(),
            old(self).version < u64::MAX,
        ensures
            final(self).wf(),
            r is Ok,
            final(self).version == old(self).version + 1,
            final(self).entries@.len() == old(self).spec_len(),
            final(self).spec_len() == old(self).spec_len(),
            final(self).deleted_count == 0,
            forall|id: i64| final(self).has_live_id(id) == old(self).has_live_id(id),
            forall|id: i64|
                old(self).has_live_id(id)
                    ==> final(self).live_entry(id) == old(self).live_entry(id),
            final(self).dim == old(self).dim,
            final(self).metric == old(self).metric,
            final(self).registry == old(self).registry,
    {
        self.compact_slots();
        self.version = self.version + 1;
        Ok(())
    }
}

} // verus!
