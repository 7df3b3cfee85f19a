//! Planning of histogram accumulation on a GPU.
//!
//! Each invocation owns a private region of the partials buffer, one per slice
//! of records and feature, so no two write to the same place. Buffer sizes are
//! checked against the adapter's limits before anything is allocated, and
//! records go in batches that fit, so none is ever dropped.

use vstd::prelude::*;
use vstd::string::*;

use crate::config::GpuMode;
use crate::floats::Single;
use crate::histogram::BinnedChunk;
use crate::math;
use crate::math::div_ceil_size;
use crate::strategies;
use crate::text;
use crate::text::decimal_text;

verus! {

/// Which backend produced a histogram set.
#[derive(Debug, PartialEq)]
pub enum Backend {
    /// CPU reference path.
    Cpu,
    /// GPU path; carries the adapter description.
    Gpu(String),
}

impl Backend {
    /// What the label says.
    pub open spec fn label_text(&self) -> Seq<char> {
        match self {
            Backend::Cpu => "cpu"@,
            Backend::Gpu(name) => "gpu:"@ + name@,
        }
    }

    /// Journal label.
    pub fn label(&self) -> (r: String)
        ensures
            r@ == self.label_text(),
    {
        match self {
            Backend::Cpu => "cpu".to_owned(),
            Backend::Gpu(name) => {
                let mut out = "gpu:".to_owned();
                out.append(name.as_str());
                out
            },
        }
    }
}

/// Records per GPU slice (each invocation loops over this many records).
pub const SLICE_RECORDS: usize = 8192;

/// Most records in a batch.
pub const MAX_BATCH_RECORDS: usize = 4_194_304;

/// Invocations per workgroup.
pub const WORKGROUP_SIZE: usize = 64;

/// The backend to use: the CPU when the GPU is off, or when it is optional and
/// not there; an error when it is asked for and not there. `adapter` is what
/// acquiring an adapter gave, and is not looked at when the GPU is off.
pub fn choose_backend(mode: GpuMode, adapter: &Result<String, String>) -> (r: Result<
    Backend,
    String,
>)
    ensures
        match (mode, *adapter) {
            (GpuMode::Off, _) => r matches Ok(Backend::Cpu),
            (_, Ok(name)) => r matches Ok(Backend::Gpu(n)) && n@ == name@,
            (GpuMode::Auto, Err(_)) => r matches Ok(Backend::Cpu),
            (GpuMode::On, Err(e)) => r matches Err(m) && m@
                == "--gpu on but no GPU histogram backend: "@ + e@,
        },
{
    if mode == GpuMode::Off {
        return Ok(Backend::Cpu);
    }
    match adapter {
        Ok(name) => Ok(Backend::Gpu(name.clone())),
        Err(e) => {
            if mode == GpuMode::Auto {
                Ok(Backend::Cpu)
            } else {
                let mut m = "--gpu on but no GPU histogram backend: ".to_owned();
                m.append(e.as_str());
                Err(m)
            }
        },
    }
}

/// Bytes of the partials of one slice: three sums of four bytes per feature and
/// bin.
pub open spec fn slice_bytes(features: int, max_bins: int) -> int {
    3 * (features * max_bins) * 4
}

/// The smaller of two integers.
pub open spec fn smaller(a: int, b: int) -> int {
    if a <= b {
        a
    } else {
        b
    }
}

/// Records of which the bins and the partials fit a binding of `limit` bytes.
pub open spec fn fitting_records(limit: int, features: int, max_bins: int) -> int {
    smaller(
        limit / features,
        (limit / slice_bytes(features, max_bins)) * SLICE_RECORDS as int,
    )
}

/// Largest record batch whose buffers fit a binding of `limit` bytes.
pub fn batch_records(limit: usize, features: usize, max_bins: usize) -> (r: Result<usize, String>)
    requires
        features > 0,
        max_bins > 0,
        slice_bytes(features as int, max_bins as int) <= usize::MAX,
    ensures
        match r {
            Ok(batch) => {
                &&& slice_bytes(features as int, max_bins as int) <= limit
                &&& fitting_records(limit as int, features as int, max_bins as int) > 0
                &&& batch == smaller(
                    fitting_records(limit as int, features as int, max_bins as int),
                    MAX_BATCH_RECORDS as int,
                )
            },
            Err(m) => if slice_bytes(features as int, max_bins as int) > limit {
                m@ == "features×bins partials ("@ + text::decimal(
                    slice_bytes(features as int, max_bins as int) as nat,
                ) + " B) exceed the storage binding limit ("@ + text::decimal(limit as nat)
                    + " B)"@
            } else {
                &&& fitting_records(limit as int, features as int, max_bins as int) <= 0
                &&& m@ == "adapter limits too small for even one record"@
            },
        },
{
    proof {
        assert(features * max_bins >= 1) by (nonlinear_arith)
            requires
                features >= 1,
                max_bins >= 1,
        ;
    }
    let per_slice: usize = 3 * (features * max_bins) * 4;
    if per_slice > limit {
        let mut m = "features×bins partials (".to_owned();
        m.append(decimal_text(per_slice as u64).as_str());
        m.append(" B) exceed the storage binding limit (");
        m.append(decimal_text(limit as u64).as_str());
        m.append(" B)");
        return Err(m);
    }
    let by_bins: usize = limit / features;
    let slices: usize = limit / per_slice;
    let by_partials: u128 = (slices as u128) * (SLICE_RECORDS as u128);
    let batch: usize = if by_bins as u128 <= by_partials {
        by_bins
    } else {
        by_partials as usize
    };
    if batch == 0 {
        return Err("adapter limits too small for even one record".to_owned());
    }
    if batch <= MAX_BATCH_RECORDS {
        Ok(batch)
    } else {
        Ok(MAX_BATCH_RECORDS)
    }
}

/// Records gathered for one dispatch.
#[derive(Debug)]
pub struct Batch {
    /// Features per record.
    pub features: usize,
    /// Most records.
    pub capacity: usize,
    /// Records held.
    pub records: usize,
    /// Bins, row by row.
    pub bins: Vec<u8>,
    /// Residual per record.
    pub residual: Vec<Single>,
    /// Weight per record.
    pub weights: Vec<Single>,
}

impl Batch {
    /// The columns have the lengths that the counts say.
    pub open spec fn well_formed(&self) -> bool {
        &&& self.records <= self.capacity
        &&& self.capacity > 0
        &&& self.bins@.len() == self.records * self.features
        &&& self.residual@.len() == self.records
        &&& self.weights@.len() == self.records
    }

    /// An empty batch.
    pub fn new(features: usize, capacity: usize) -> (r: Batch)
        requires
            capacity > 0,
        ensures
            r.well_formed(),
            r.features == features,
            r.capacity == capacity,
            r.records == 0,
    {
        Batch {
            features,
            capacity,
            records: 0,
            bins: Vec::new(),
            residual: Vec::new(),
            weights: Vec::new(),
        }
    }

    /// Take records of a chunk from `offset` on, as many as there is room for.
    /// Returns how many were taken.
    pub fn fill(&mut self, chunk: &BinnedChunk, offset: usize) -> (r: usize)
        requires
            old(self).well_formed(),
            chunk.well_formed(),
            chunk.features == old(self).features,
            offset <= chunk.records,
        ensures
            final(self).well_formed(),
            r == smaller(
                old(self).capacity - old(self).records,
                chunk.records - offset,
            ),
            final(self).features == old(self).features,
            final(self).capacity == old(self).capacity,
            final(self).records == old(self).records + r,
            final(self).bins@ == old(self).bins@ + chunk.bins@.subrange(
                offset * chunk.features,
                (offset + r) * chunk.features,
            ),
            final(self).residual@ == old(self).residual@ + chunk.residual@.subrange(
                offset as int,
                offset + r,
            ),
            final(self).weights@ == old(self).weights@ + strategies::chunk_weights(
                *chunk,
            ).subrange(offset as int, offset + r),
    {
        let room: usize = self.capacity - self.records;
        let left: usize = chunk.records - offset;
        let take: usize = if room <= left {
            room
        } else {
            left
        };
        let width: usize = self.features;
        let cells: usize = chunk.bins.len();
        let ghost w = width as int;
        proof {
            assert(0 <= offset * w <= (offset + take) * w <= chunk.records * w)
                by (nonlinear_arith)
                requires
                    0 <= offset,
                    0 <= take,
                    offset + take <= chunk.records,
                    0 <= w,
            ;
            assert((self.records + take) * w == self.records * w + ((offset + take) * w - offset
                * w)) by (nonlinear_arith);
        }
        let start: usize = offset * width;
        let end: usize = (offset + take) * width;
        let ghost bins0 = self.bins@;
        for i in start..end
            invariant
                start <= i <= end <= chunk.bins@.len(),
                self.bins@ == bins0 + chunk.bins@.subrange(start as int, i as int),
                *self == (Batch { bins: self.bins, ..*old(self) }),
        {
            self.bins.push(chunk.bins[i]);
            assert(self.bins@ =~= bins0 + chunk.bins@.subrange(start as int, i as int + 1));
        }
        let ghost res0 = self.residual@;
        let ghost wt0 = self.weights@;
        let ghost all_weights = strategies::chunk_weights(*chunk);
        for i in offset..offset + take
            invariant
                offset <= i <= offset + take,
                offset + take <= chunk.records,
                chunk.well_formed(),
                all_weights == strategies::chunk_weights(*chunk),
                self.residual@ == res0 + chunk.residual@.subrange(offset as int, i as int),
                self.weights@ == wt0 + all_weights.subrange(offset as int, i as int),
                *self == (Batch {
                    bins: self.bins,
                    residual: self.residual,
                    weights: self.weights,
                    ..*old(self)
                }),
                self.bins@ == bins0 + chunk.bins@.subrange(start as int, end as int),
        {
            self.residual.push(chunk.residual[i]);
            let w: Single = match &chunk.weight {
                Some(w) => w[i],
                None => Single::one(),
            };
            self.weights.push(w);
            assert(all_weights[i as int] == w);
            assert(self.residual@ =~= res0 + chunk.residual@.subrange(
                offset as int,
                i as int + 1,
            ));
            assert(self.weights@ =~= wt0 + all_weights.subrange(offset as int, i as int + 1));
        }
        self.records = self.records + take;
        take
    }

    /// `true` when the batch must be dispatched before more can be taken.
    pub fn is_full(&self) -> (r: bool)
        ensures
            r == (self.records == self.capacity),
    {
        self.records == self.capacity
    }

    /// Start over, once the batch was dispatched.
    pub fn clear(&mut self)
        requires
            old(self).well_formed(),
        ensures
            final(self).well_formed(),
            final(self).records == 0,
            final(self).features == old(self).features,
            final(self).capacity == old(self).capacity,
    {
        self.records = 0;
        self.bins.clear();
        self.residual.clear();
        self.weights.clear();
    }
}

/// A batch that is not full takes at least one record of what is left: filling
/// and dispatching in turn gets through every chunk.
pub proof fn filling_makes_progress(capacity: int, records: int, left: int)
    requires
        0 <= records < capacity,
        left > 0,
    ensures
        smaller(capacity - records, left) > 0,
{
}

/// Sizes of one dispatch.
#[derive(Debug, Clone, Copy, PartialEq, Eq, Structural)]
pub struct DispatchPlan {
    /// Records.
    pub records: usize,
    /// Features.
    pub features: usize,
    /// Bins reserved per feature.
    pub max_bins: usize,
    /// Slices of records.
    pub slices: usize,
    /// Values of one of the three sums.
    pub section: usize,
    /// Bytes of the padded bins.
    pub bin_bytes: usize,
    /// Bytes of the partials.
    pub partial_bytes: usize,
    /// Workgroups along the features.
    pub workgroups: usize,
}

/// Slices that `records` records make.
pub open spec fn slices_of(records: int) -> int {
    math::ceil_div(records, SLICE_RECORDS as int)
}

/// Length of `n` bytes padded to whole words.
pub open spec fn padded(n: int) -> int {
    math::ceil_div(n, 4) * 4
}

/// Bytes of the partials of a dispatch.
pub open spec fn partial_size(records: int, features: int, max_bins: int) -> int {
    slices_of(records) * slice_bytes(features, max_bins)
}

/// What is said of a buffer that does not fit.
pub open spec fn too_large(name: Seq<char>, size: nat, limit: nat) -> Seq<char> {
    name + " buffer ("@ + text::decimal(size) + " B) exceeds the storage binding limit ("@
        + text::decimal(limit) + " B)"@
}

fn too_large_text(name: &str, size: usize, limit: usize) -> (r: String)
    ensures
        r@ == too_large(name@, size as nat, limit as nat),
{
    let mut m = name.to_owned();
    m.append(" buffer (");
    m.append(decimal_text(size as u64).as_str());
    m.append(" B) exceeds the storage binding limit (");
    m.append(decimal_text(limit as u64).as_str());
    m.append(" B)");
    m
}

proof fn partial_sections(slices: int, features: int, max_bins: int)
    by (nonlinear_arith)
    requires
        0 <= slices,
        0 <= features,
        0 <= max_bins,
    ensures
        slices * (3 * (features * max_bins) * 4) == 12 * (slices * (features * max_bins)),
        0 <= slices * (features * max_bins),
        0 <= features * max_bins,
{
}

/// Plan a dispatch: refused when the bins or the partials do not fit a binding
/// of `limit` bytes.
pub fn plan_dispatch(records: usize, features: usize, max_bins: usize, limit: usize) -> (r: Result<
    DispatchPlan,
    String,
>)
    requires
        records > 0,
        features > 0,
        max_bins > 0,
        padded(records * features) <= usize::MAX,
        partial_size(records as int, features as int, max_bins as int) <= usize::MAX,
    ensures
        match r {
            Ok(plan) => {
                &&& padded(records * features) <= limit
                &&& partial_size(records as int, features as int, max_bins as int) <= limit
                &&& plan.well_formed()
                &&& plan.records == records
                &&& plan.features == features
                &&& plan.max_bins == max_bins
            },
            Err(m) => if padded(records * features) > limit {
                m@ == too_large("bins"@, padded(records * features) as nat, limit as nat)
            } else {
                &&& partial_size(records as int, features as int, max_bins as int) > limit
                &&& m@ == too_large(
                    "partials"@,
                    partial_size(records as int, features as int, max_bins as int) as nat,
                    limit as nat,
                )
            },
        },
{
    let slices: usize = div_ceil_size(records, SLICE_RECORDS);
    proof {
        assert(slices >= 1);
        partial_sections(slices as int, features as int, max_bins as int);
        assert(features * max_bins >= 1) by (nonlinear_arith)
            requires
                features >= 1,
                max_bins >= 1,
        ;
        assert(slices * (features * max_bins) >= features * max_bins) by (nonlinear_arith)
            requires
                slices >= 1,
                features * max_bins >= 1,
        ;
        assert(0 <= records * features) by (nonlinear_arith)
            requires
                records >= 1,
                features >= 1,
        ;
    }
    let section: usize = slices * (features * max_bins);
    let partial_bytes: usize = 12 * section;
    let words: usize = div_ceil_size(records * features, 4);
    let bin_bytes: usize = words * 4;
    if bin_bytes > limit {
        return Err(too_large_text("bins", bin_bytes, limit));
    }
    if partial_bytes > limit {
        return Err(too_large_text("partials", partial_bytes, limit));
    }
    let workgroups: usize = div_ceil_size(features, WORKGROUP_SIZE);
    Ok(
        DispatchPlan {
            records,
            features,
            max_bins,
            slices,
            section,
            bin_bytes,
            partial_bytes,
            workgroups,
        },
    )
}

/// Place of a sum in the partials, counted within its section.
pub open spec fn region(features: int, max_bins: int, s: int, f: int, b: int) -> int {
    (s * features + f) * max_bins + b
}

impl DispatchPlan {
    /// The sizes belong together.
    pub open spec fn well_formed(self) -> bool {
        &&& self.features > 0
        &&& self.max_bins > 0
        &&& self.slices == slices_of(self.records as int)
        &&& self.section == self.slices * (self.features * self.max_bins)
        &&& self.bin_bytes == padded(self.records * self.features)
        &&& self.partial_bytes == partial_size(
            self.records as int,
            self.features as int,
            self.max_bins as int,
        )
        &&& self.partial_bytes == 12 * self.section
        &&& self.workgroups == math::ceil_div(self.features as int, WORKGROUP_SIZE as int)
    }

    /// Where one of the three sums (`0` counts, `1` sums, `2` squares) of a
    /// slice, a feature and a bin stands in the partials.
    pub fn place(&self, sum: usize, s: usize, f: usize, b: usize) -> (r: usize)
        requires
            self.well_formed(),
            sum < 3,
            s < self.slices,
            f < self.features,
            b < self.max_bins,
        ensures
            r == sum * self.section + region(
                self.features as int,
                self.max_bins as int,
                s as int,
                f as int,
                b as int,
            ),
            4 * r < self.partial_bytes,
    {
        proof {
            regions_are_inside(
                self.slices as int,
                self.features as int,
                self.max_bins as int,
                s as int,
                f as int,
                b as int,
            );
            assert(sum * self.section <= 2 * self.section) by (nonlinear_arith)
                requires
                    sum <= 2,
                    0 <= self.section,
            ;
        }
        sum * self.section + ((s * self.features + f) * self.max_bins + b)
    }
}

proof fn regions_are_inside(slices: int, features: int, max_bins: int, s: int, f: int, b: int)
    by (nonlinear_arith)
    requires
        0 <= s < slices,
        0 <= f < features,
        0 <= b < max_bins,
    ensures
        0 <= s * features,
        0 <= (s * features + f) * max_bins,
        s * features + f <= (s * features + f) * max_bins,
        region(features, max_bins, s, f, b) < slices * (features * max_bins),
{
    assert(s * features + f <= slices * features - 1);
    assert((s * features + f) * max_bins <= (slices * features - 1) * max_bins);
    assert((slices * features - 1) * max_bins == slices * (features * max_bins) - max_bins);
}

/// No two invocations share a place: a place tells its slice, feature and bin.
pub proof fn regions_are_private(
    features: int,
    max_bins: int,
    s: int,
    f: int,
    b: int,
    s2: int,
    f2: int,
    b2: int,
)
    requires
        0 <= f < features,
        0 <= f2 < features,
        0 <= b < max_bins,
        0 <= b2 < max_bins,
        region(features, max_bins, s, f, b) == region(features, max_bins, s2, f2, b2),
    ensures
        s == s2,
        f == f2,
        b == b2,
{
    let x = s * features + f;
    let y = s2 * features + f2;
    digits_are_unique(max_bins, x, b, y, b2);
    digits_are_unique(features, s, f, s2, f2);
}

proof fn digits_are_unique(base: int, x: int, a: int, y: int, b: int)
    by (nonlinear_arith)
    requires
        0 <= a < base,
        0 <= b < base,
        x * base + a == y * base + b,
    ensures
        x == y,
        a == b,
{
    if x < y {
        assert((y - x) * base >= base);
    } else if y < x {
        assert((x - y) * base >= base);
    }
}

/// Batches are cut so that they fit: whatever [`batch_records`] allows, a
/// dispatch of so many records is not refused, when the limit is a whole number
/// of words.
pub proof fn batches_fit(limit: int, features: int, max_bins: int, records: int)
    requires
        features > 0,
        max_bins > 0,
        limit % 4 == 0,
        0 < records <= fitting_records(limit, features, max_bins),
        slice_bytes(features, max_bins) <= limit,
    ensures
        padded(records * features) <= limit,
        partial_size(records, features, max_bins) <= limit,
{
    let per_slice = slice_bytes(features, max_bins);
    assert(features * max_bins >= 1) by (nonlinear_arith)
        requires
            features >= 1,
            max_bins >= 1,
    ;
    let q = limit / per_slice;
    assert(per_slice * q <= limit) by {
        vstd::arithmetic::div_mod::lemma_fundamental_div_mod(limit, per_slice);
        vstd::arithmetic::div_mod::lemma_mod_bound(limit, per_slice);
    }
    assert(records * features <= limit) by {
        vstd::arithmetic::div_mod::lemma_fundamental_div_mod(limit, features);
        vstd::arithmetic::div_mod::lemma_mod_bound(limit, features);
        assert(records * features <= features * (limit / features)) by (nonlinear_arith)
            requires
                records <= limit / features,
                features > 0,
        ;
    }
    assert(0 <= records * features) by (nonlinear_arith)
        requires
            records > 0,
            features > 0,
    ;
    let n = slices_of(records);
    math::ceil_div_by_remainder(records * features, 4);
    math::ceil_div_by_remainder(records, SLICE_RECORDS as int);
    assert(n <= q);
    assert(n * per_slice <= limit) by (nonlinear_arith)
        requires
            n <= q,
            per_slice * q <= limit,
            per_slice > 0,
    ;
}

/// The bins padded with zeros to whole words.
pub fn pack_bins(bins: &Vec<u8>) -> (r: Vec<u8>)
    requires
        padded(bins@.len() as int) <= usize::MAX,
    ensures
        r@.len() == padded(bins@.len() as int),
        r@.take(bins@.len() as int) == bins@,
        forall|i: int| bins@.len() <= i < r@.len() ==> #[trigger] r@[i] == 0,
{
    let n: usize = bins.len();
    let words: usize = div_ceil_size(n, 4);
    let mut out: Vec<u8> = Vec::new();
    for i in 0..n
        invariant
            n == bins@.len(),
            out@ == bins@.take(i as int),
    {
        out.push(bins[i]);
        assert(out@ =~= bins@.take(i as int + 1));
    }
    assert(out@ =~= bins@);
    proof {
        math::ceil_div_by_remainder(n as int, 4);
    }
    for i in n..words * 4
        invariant
            n == bins@.len(),
            out@.len() == i,
            out@.take(n as int) == bins@,
            forall|k: int| n <= k < out@.len() ==> #[trigger] out@[k] == 0,
    {
        out.push(0);
        assert(out@.take(n as int) =~= bins@);
    }
    assert(out@.take(n as int) =~= bins@);
    out
}

/// A padded length is a whole number of words, and less than a word longer.
pub proof fn padding_is_less_than_a_word(n: int)
    requires
        0 <= n,
    ensures
        padded(n) % 4 == 0,
        n <= padded(n) < n + 4,
{
}

/// The slices cover the records, and one slice fewer would not.
pub proof fn slices_cover_the_records(records: int)
    requires
        0 < records,
    ensures
        (slices_of(records) - 1) * 8192 < records <= slices_of(records) * 8192,
{
}

/// A batch is as large as fits: with one more record either its bins or its
/// partials, a sum of four bytes for each of three per slice, feature and bin,
/// would exceed the limit.
pub proof fn batches_are_as_large_as_fits(limit: int, features: int, max_bins: int)
    requires
        features > 0,
        max_bins > 0,
        0 <= limit,
    ensures
        ({
            let more = fitting_records(limit, features, max_bins) + 1;
            more * features > limit || slices_of(more) * (12 * (features * max_bins)) > limit
        }),
{
    let per_slice = slice_bytes(features, max_bins);
    assert(per_slice == 12 * (features * max_bins) && per_slice > 0) by (nonlinear_arith)
        requires
            per_slice == 3 * (features * max_bins) * 4,
            features > 0,
            max_bins > 0,
    ;
    let whole = limit / features;
    let slices = limit / per_slice;
    let more = fitting_records(limit, features, max_bins) + 1;
    if more == whole + 1 {
        assert((whole + 1) * features > limit) by (nonlinear_arith)
            requires
                whole == limit / features,
                features > 0,
        ;
    } else {
        assert(more == slices * 8192 + 1);
        assert(slices >= 0) by (nonlinear_arith)
            requires
                slices == limit / per_slice,
                per_slice > 0,
                limit >= 0,
        ;
        slices_cover_the_records(more);
        assert(slices_of(more) == slices + 1);
        assert((slices + 1) * per_slice > limit) by (nonlinear_arith)
            requires
                slices == limit / per_slice,
                per_slice > 0,
        ;
    }
}

/// No two sums share a place: a place in the partials tells which of the three sums
/// it is, and of which slice, feature and bin.
pub proof fn places_are_private(
    plan: DispatchPlan,
    sum: int,
    s: int,
    f: int,
    b: int,
    sum2: int,
    s2: int,
    f2: int,
    b2: int,
)
    requires
        plan.well_formed(),
        0 <= sum < 3,
        0 <= sum2 < 3,
        0 <= s < plan.slices,
        0 <= s2 < plan.slices,
        0 <= f < plan.features,
        0 <= f2 < plan.features,
        0 <= b < plan.max_bins,
        0 <= b2 < plan.max_bins,
        sum * plan.section + region(plan.features as int, plan.max_bins as int, s, f, b) == sum2
            * plan.section + region(plan.features as int, plan.max_bins as int, s2, f2, b2),
    ensures
        sum == sum2,
        s == s2,
        f == f2,
        b == b2,
{
    let features = plan.features as int;
    let max_bins = plan.max_bins as int;
    regions_are_inside(plan.slices as int, features, max_bins, s, f, b);
    regions_are_inside(plan.slices as int, features, max_bins, s2, f2, b2);
    digits_are_unique(
        plan.section as int,
        sum,
        region(features, max_bins, s, f, b),
        sum2,
        region(features, max_bins, s2, f2, b2),
    );
    regions_are_private(features, max_bins, s, f, b, s2, f2, b2);
}

} // verus!
