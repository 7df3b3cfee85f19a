//! Quantile bins: the cache's binary layout, the mapping from values to bins
//! and the edges that make bins of about equal population.
//!
//! ## Binary layout
//!
//! ```text
//! magic       4 bytes   "NFBN"
//! format      u32 LE    FORMAT_VERSION
//! json_len    u32 LE
//! json        json_len bytes  (the header)
//! per feature:
//!   edge_count u32 LE
//!   edges      edge_count × f32 LE, strictly ascending
//! ```
//!
//! ## Mapping
//!
//! The bin of `x` is the number of edges that `x` is above. So a split "after
//! bin b" is exactly the condition `x > edge b`, and NaN, which is above
//! nothing, is in bin 0: the left of every threshold, as in a creature.

use vstd::prelude::*;
use vstd::string::*;

use crate::bytes;
use crate::bytes::{push_word, read_word};
use crate::corpus::{Chunk, CorpusInfo};
use crate::floats::Single;
use crate::math;
use crate::math::{clamp_size, div_ceil};
use crate::ranking;
use crate::ranking::{ranking, Ranked};
use crate::text;
use crate::text::{decimal_text, path_join};

verus! {

/// Binary format version.
pub const FORMAT_VERSION: u32 = 1;

/// Quantisation algorithm version (stride sample and sorted quantile edges).
pub const ALGORITHM_VERSION: u32 = 1;

/// Default requested bins per observation.
pub const DEFAULT_BINS: usize = 256;

/// Hard cap, so that bin indices fit in a byte.
pub const MAX_BINS: usize = 256;

/// Default per-pass memory budget for bin building.
pub const DEFAULT_BIN_MEMORY_BUDGET_BYTES: usize = 268_435_456;

/// Default maximum sampled records per feature for quantile estimation.
pub const DEFAULT_BIN_SAMPLE_RECORDS: u64 = 65_536;

/// File name beside the corpus.
pub const CACHE_FILE_NAME: &'static str = "forests-bins.cache";

/// Metadata header.
#[derive(Debug, PartialEq)]
pub struct BinMeta {
    /// Binary format version.
    pub format_version: u32,
    /// Quantisation algorithm version.
    pub algorithm_version: u32,
    /// Input width.
    pub input_count: usize,
    /// Output width.
    pub output_count: usize,
    /// Corpus record count.
    pub record_count: u64,
    /// Corpus identity.
    pub corpus_identity: String,
    /// Bins requested.
    pub requested_bins: usize,
    /// Effective bins per feature (`edges + 1`).
    pub effective_bins: Vec<u16>,
    /// Non-finite values seen per feature in the sample.
    pub non_finite_counts: Vec<u64>,
    /// Policy string for non-finite handling.
    pub non_finite_policy: String,
    /// Records sampled per feature for quantile estimation.
    pub sample_records: u64,
    /// Stride used for deterministic sampling (1 = every record).
    pub sample_stride: u64,
    /// Unix seconds.
    pub created_at_unix: u64,
}

/// Loaded bin cache.
#[derive(Debug, PartialEq)]
pub struct BinCache {
    /// Header.
    pub meta: BinMeta,
    /// Ascending edges per feature.
    pub edges: Vec<Vec<Single>>,
}

/// Cache errors.
#[derive(Debug, PartialEq)]
pub enum BinCacheError {
    /// I/O failure: the path and what went wrong.
    Io(String, String),
    /// The file exists but is not a valid cache.
    Corrupt(String),
    /// Valid cache for a different corpus, version or bin count.
    Stale(String),
    /// Corpus streaming failure.
    Corpus(String),
}

/// What a [`BinCacheError`] says.
pub enum CacheFault {
    Io(Seq<char>, Seq<char>),
    Corrupt(Seq<char>),
    Stale(Seq<char>),
    Corpus(Seq<char>),
}

impl View for BinCacheError {
    type V = CacheFault;

    open spec fn view(&self) -> CacheFault {
        match self {
            BinCacheError::Io(p, e) => CacheFault::Io(p@, e@),
            BinCacheError::Corrupt(m) => CacheFault::Corrupt(m@),
            BinCacheError::Stale(m) => CacheFault::Stale(m@),
            BinCacheError::Corpus(m) => CacheFault::Corpus(m@),
        }
    }
}

impl BinCacheError {
    /// The message shown to the operator.
    pub fn message(&self) -> (r: String)
        ensures
            r@ == (match self@ {
                CacheFault::Io(p, e) => p + ": "@ + e,
                CacheFault::Corrupt(m) => "bin cache corrupt: "@ + m,
                CacheFault::Stale(m) => "bin cache stale: "@ + m,
                CacheFault::Corpus(m) => m,
            }),
    {
        match self {
            BinCacheError::Io(p, e) => {
                let mut out = p.clone();
                out.append(": ");
                out.append(e.as_str());
                out
            },
            BinCacheError::Corrupt(m) => {
                let mut out = "bin cache corrupt: ".to_owned();
                out.append(m.as_str());
                out
            },
            BinCacheError::Stale(m) => {
                let mut out = "bin cache stale: ".to_owned();
                out.append(m.as_str());
                out
            },
            BinCacheError::Corpus(m) => m.clone(),
        }
    }

    /// `true` when the cache is to be rebuilt: a stale or corrupt cache is
    /// never reused, and any other failure is reported.
    pub fn calls_for_rebuild(&self) -> (r: bool)
        ensures
            r == (self@ is Stale || self@ is Corrupt),
    {
        match self {
            BinCacheError::Stale(_) => true,
            BinCacheError::Corrupt(_) => true,
            BinCacheError::Io(_, _) => false,
            BinCacheError::Corpus(_) => false,
        }
    }
}

// ---------------------------------------------------------------------------
// Mapping values to bins.
// ---------------------------------------------------------------------------

/// Each edge is above the one before it.
pub open spec fn strictly_ascending(edges: Seq<Single>) -> bool {
    forall|i: int, j: int| 0 <= i < j < edges.len() ==> (#[trigger] edges[j]).above(
        #[trigger] edges[i],
    )
}

/// The number of edges that `x` is above.
pub open spec fn bin_index(edges: Seq<Single>, x: Single) -> nat {
    edges.filter(|e: Single| x.above(e)).len()
}

/// On ascending edges a value is above exactly the first `bin_index` of them.
pub proof fn bin_index_splits_the_edges(edges: Seq<Single>, x: Single, k: int)
    requires
        strictly_ascending(edges),
        0 <= k <= edges.len(),
        forall|i: int| 0 <= i < k ==> x.above(#[trigger] edges[i]),
        forall|i: int| k <= i < edges.len() ==> !x.above(#[trigger] edges[i]),
    ensures
        bin_index(edges, x) == k,
    decreases edges.len(),
{
    reveal(Seq::filter);
    if edges.len() > 0 {
        let rest = edges.drop_last();
        if k == edges.len() {
            bin_index_splits_the_edges(rest, x, k - 1);
        } else {
            bin_index_splits_the_edges(rest, x, k);
        }
    }
}

/// Splitting after bin `b` is comparing with edge `b`: a value's bin lies above
/// `b` exactly when the value is above that edge.
pub proof fn bins_agree_with_thresholds(edges: Seq<Single>, x: Single, b: int)
    requires
        strictly_ascending(edges),
        0 <= b < edges.len(),
    ensures
        bin_index(edges, x) > b <==> x.above(edges[b]),
        bin_index(edges, x) <= edges.len(),
    decreases edges.len(),
{
    let k = bin_split_point(edges, x);
    bin_index_splits_the_edges(edges, x, k);
}

proof fn bin_split_point(edges: Seq<Single>, x: Single) -> (k: int)
    requires
        strictly_ascending(edges),
    ensures
        0 <= k <= edges.len(),
        forall|i: int| 0 <= i < k ==> x.above(#[trigger] edges[i]),
        forall|i: int| k <= i < edges.len() ==> !x.above(#[trigger] edges[i]),
    decreases edges.len(),
{
    if edges.len() == 0 {
        0
    } else {
        let rest = edges.drop_last();
        let k = bin_split_point(rest, x);
        if k == rest.len() && x.above(edges.last()) {
            edges.len() as int
        } else {
            assert forall|i: int| k <= i < edges.len() implies !x.above(#[trigger] edges[i]) by {
                if i < rest.len() {
                    assert(!x.above(rest[i]));
                } else if k < rest.len() {
                    assert(!x.above(rest[k]));
                    assert(edges[i].above(edges[k]));
                }
            }
            assert forall|i: int| 0 <= i < k implies x.above(#[trigger] edges[i]) by {
                assert(x.above(rest[i]));
            }
            k
        }
    }
}

/// NaN is in bin 0.
pub proof fn nan_is_in_the_first_bin(edges: Seq<Single>, x: Single)
    requires
        x.nan(),
    ensures
        bin_index(edges, x) == 0,
    decreases edges.len(),
{
    reveal(Seq::filter);
    if edges.len() > 0 {
        nan_is_in_the_first_bin(edges.drop_last(), x);
    }
}

/// Bin index of `x` given ascending `edges`, in a byte.
pub fn bin_of(edges: &[Single], x: Single) -> (r: u8)
    requires
        strictly_ascending(edges@),
    ensures
        r == bin_index(edges@, x) % 256,
{
    let mut lo: usize = 0;
    let mut hi: usize = edges.len();
    while lo < hi
        invariant
            strictly_ascending(edges@),
            lo <= hi <= edges@.len(),
            forall|i: int| 0 <= i < lo ==> x.above(#[trigger] edges@[i]),
            forall|i: int| hi <= i < edges@.len() ==> !x.above(#[trigger] edges@[i]),
        decreases hi - lo,
    {
        let mid: usize = lo + (hi - lo) / 2;
        if x.gt(edges[mid]) {
            assert forall|i: int| 0 <= i < mid + 1 implies x.above(#[trigger] edges@[i]) by {
                if i < mid {
                    assert(edges@[mid as int].above(edges@[i]));
                }
            }
            lo = mid + 1;
        } else {
            assert forall|i: int| mid <= i < edges@.len() implies !x.above(
                #[trigger] edges@[i],
            ) by {
                if i > mid {
                    assert(edges@[i].above(edges@[mid as int]));
                }
            }
            hi = mid;
        }
    }
    proof {
        bin_index_splits_the_edges(edges@, x, lo as int);
    }
    (lo % 256) as u8
}

/// Number of values in each bin (bins counted in a byte).
pub open spec fn bin_population(edges: Seq<Single>, values: Seq<Single>, b: int) -> nat {
    values.filter(|v: Single| bin_index(edges, v) % 256 == b).len()
}

/// Occupancy diagnostics for a binning.
pub fn occupancy(edges: &[Single], values: &[Single]) -> (r: Vec<u64>)
    requires
        strictly_ascending(edges@),
        edges@.len() < usize::MAX,
        values@.len() <= u64::MAX,
    ensures
        r@.len() == edges@.len() + 1,
        forall|b: int|
            0 <= b < r@.len() ==> (#[trigger] r@[b]) == bin_population(edges@, values@, b),
{
    let mut counts: Vec<u64> = Vec::new();
    for i in 0..edges.len() + 1
        invariant
            edges@.len() < usize::MAX,
            counts@ == Seq::new(i as nat, |b: int| 0u64),
    {
        counts.push(0);
        assert(counts@ =~= Seq::new((i + 1) as nat, |b: int| 0u64));
    }
    proof {
        reveal(Seq::filter);
    }
    for i in 0..values.len()
        invariant
            strictly_ascending(edges@),
            values@.len() <= u64::MAX,
            counts@.len() == edges@.len() + 1,
            forall|b: int|
                0 <= b < counts@.len() ==> (#[trigger] counts@[b]) == bin_population(
                    edges@,
                    values@.take(i as int),
                    b,
                ),
    {
        let b: usize = bin_of(edges, values[i]) as usize;
        proof {
            reveal(Seq::filter);
            let k = bin_split_point(edges@, values@[i as int]);
            bin_index_splits_the_edges(edges@, values@[i as int], k);
            let p = |v: Single| bin_index(edges@, v) % 256 == b;
            values@.take(i as int).lemma_filter_len(p);
            assert forall|c: int| 0 <= c < counts@.len() implies bin_population(
                edges@,
                values@.take(i as int + 1),
                c,
            ) == bin_population(edges@, values@.take(i as int), c) + if c == b { 1int } else { 0 } by {
                assert(values@.take(i as int + 1).drop_last() =~= values@.take(i as int));
            }
        }
        let n: u64 = counts[b];
        counts.set(b, n + 1);
    }
    assert(values@.take(values@.len() as int) =~= values@);
    counts
}

// ---------------------------------------------------------------------------
// Quantile edges.
// ---------------------------------------------------------------------------

impl Ranked for Single {
    open spec fn ahead(&self, other: &Single) -> bool {
        self.order() < other.order()
    }

    proof fn ahead_is_asymmetric(a: Single, b: Single) {
    }

    proof fn not_ahead_is_transitive(a: Single, b: Single, c: Single) {
    }

    fn is_ahead(&self, other: &Single) -> (r: bool) {
        self.rank() < other.rank()
    }
}

/// The finite values, in ascending order.
pub open spec fn finite_sorted(values: Seq<Single>) -> Seq<Single> {
    ranking::sorted(values.filter(|v: Single| v.finite()))
}

/// An edge at zero is the positive zero.
pub open spec fn edge_value(v: Single) -> Single {
    if v.same_value(Single { bits: 0 }) {
        Single { bits: 0 }
    } else {
        v
    }
}

/// The edges drawn at the first `b` cuts: each cut gives the value at its
/// quantile, and counts only when it is above the last edge.
pub open spec fn edges_up_to(sorted: Seq<Single>, bins: int, b: int) -> Seq<Single>
    decreases b,
{
    if b <= 0 {
        Seq::empty()
    } else {
        let before = edges_up_to(sorted, bins, b - 1);
        let e = edge_value(sorted[b * sorted.len() as int / bins]);
        if before.len() == 0 || e.above(before.last()) {
            before.push(e)
        } else {
            before
        }
    }
}

/// Quantile edges of a sorted sample: `bins - 1` cuts, without an edge that no
/// value is above.
pub open spec fn quantiles(sorted: Seq<Single>, bins: int) -> Seq<Single> {
    if sorted.len() == 0 || bins < 2 {
        Seq::empty()
    } else {
        let edges = edges_up_to(sorted, bins, bins - 1);
        if edges.last().above(sorted.last()) || edges.last().same_value(sorted.last()) {
            edges.drop_last()
        } else {
            edges
        }
    }
}

proof fn cut_is_inside(b: int, n: int, bins: int)
    requires
        0 <= b < bins,
        0 < n,
    ensures
        0 <= b * n / bins < n,
{
    assert(b * n < bins * n) by (nonlinear_arith)
        requires
            b < bins,
            0 < n,
    ;
    assert(0 <= b * n) by (nonlinear_arith)
        requires
            0 <= b,
            0 < n,
    ;
    vstd::arithmetic::div_mod::lemma_fundamental_div_mod(b * n, bins);
    vstd::arithmetic::div_mod::lemma_div_pos_is_pos(b * n, bins);
    if b * n / bins >= n {
        assert(bins * (b * n / bins) >= bins * n) by (nonlinear_arith)
            requires
                b * n / bins >= n,
                bins > 0,
        ;
    }
}

proof fn edges_up_to_ascend(sorted: Seq<Single>, bins: int, b: int)
    requires
        sorted.len() > 0,
        0 <= b < bins,
        forall|i: int| 0 <= i < sorted.len() ==> (#[trigger] sorted[i]).finite(),
    ensures
        strictly_ascending(edges_up_to(sorted, bins, b)),
        forall|i: int|
            0 <= i < edges_up_to(sorted, bins, b).len() ==> (#[trigger] edges_up_to(
                sorted,
                bins,
                b,
            )[i]).finite(),
        b > 0 ==> edges_up_to(sorted, bins, b).len() > 0,
        edges_up_to(sorted, bins, b).len() <= b,
    decreases b,
{
    if b > 0 {
        edges_up_to_ascend(sorted, bins, b - 1);
        cut_is_inside(b, sorted.len() as int, bins);
        let before = edges_up_to(sorted, bins, b - 1);
        let now = edges_up_to(sorted, bins, b);
        let e = edge_value(sorted[b * sorted.len() as int / bins]);
        assert(e.finite());
        if now.len() > before.len() {
            assert(now =~= before.push(e));
            assert forall|i: int, j: int| 0 <= i < j < now.len() implies (#[trigger] now[j]).above(
                #[trigger] now[i],
            ) by {
                if j == before.len() && i < before.len() - 1 {
                    assert(before.last().above(before[i]));
                }
            }
        }
    }
}

/// Quantile edges are finite and strictly ascending, fewer than the bins, and
/// the largest value is above all of them: the last bin is never empty.
pub proof fn quantiles_leave_no_empty_last_bin(sorted: Seq<Single>, bins: int)
    requires
        forall|i: int| 0 <= i < sorted.len() ==> (#[trigger] sorted[i]).finite(),
        forall|i: int, j: int|
            0 <= i < j < sorted.len() ==> (#[trigger] sorted[i]).order() <= (
            #[trigger] sorted[j]).order(),
    ensures
        strictly_ascending(quantiles(sorted, bins)),
        bins >= 2 ==> quantiles(sorted, bins).len() < bins,
        forall|i: int|
            0 <= i < quantiles(sorted, bins).len() ==> (#[trigger] quantiles(sorted, bins)[i]).finite()
                && sorted.last().above(quantiles(sorted, bins)[i]),
{
    if sorted.len() > 0 && bins >= 2 {
        edges_up_to_ascend(sorted, bins, bins - 1);
        edges_stay_at_or_below(sorted, bins, bins - 1);
        let edges = edges_up_to(sorted, bins, bins - 1);
        let q = quantiles(sorted, bins);
        assert forall|i: int| 0 <= i < q.len() implies (#[trigger] q[i]).finite()
            && sorted.last().above(q[i]) by {
            assert(edges[i] == q[i]);
            if i < edges.len() - 1 {
                assert(edges.last().above(edges[i]));
            }
        }
    }
}

proof fn edges_are_values(sorted: Seq<Single>, bins: int, b: int, i: int) -> (j: int)
    requires
        sorted.len() > 0,
        0 <= b < bins,
        0 <= i < edges_up_to(sorted, bins, b).len(),
    ensures
        0 <= j < sorted.len(),
        edges_up_to(sorted, bins, b)[i] == edge_value(sorted[j]),
    decreases b,
{
    let before = edges_up_to(sorted, bins, b - 1);
    if i < before.len() {
        edges_are_values(sorted, bins, b - 1, i)
    } else {
        cut_is_inside(b, sorted.len() as int, bins);
        b * sorted.len() as int / bins
    }
}

/// Every bin of the quantile edges of a sample holds a value of the sample.
pub proof fn quantiles_leave_no_empty_bin(sorted: Seq<Single>, bins: int, b: int) -> (j: int)
    requires
        sorted.len() > 0,
        forall|i: int| 0 <= i < sorted.len() ==> (#[trigger] sorted[i]).finite(),
        forall|i: int, j: int|
            0 <= i < j < sorted.len() ==> (#[trigger] sorted[i]).order() <= (
            #[trigger] sorted[j]).order(),
        0 <= b <= quantiles(sorted, bins).len(),
    ensures
        0 <= j < sorted.len(),
        bin_index(quantiles(sorted, bins), sorted[j]) == b,
{
    let q = quantiles(sorted, bins);
    quantiles_leave_no_empty_last_bin(sorted, bins);
    if b == q.len() {
        let last = sorted.len() - 1;
        bin_index_splits_the_edges(q, sorted[last], b);
        last
    } else {
        let edges = edges_up_to(sorted, bins, bins - 1);
        assert(q[b] == edges[b]);
        let j = edges_are_values(sorted, bins, bins - 1, b);
        let x = sorted[j];
        assert(x.finite());
        assert(q[b].finite());
        assert(x.num() == q[b].num());
        assert forall|i: int| 0 <= i < b implies x.above(#[trigger] q[i]) by {
            assert(q[b].above(q[i]));
        }
        assert forall|i: int| b <= i < q.len() implies !x.above(#[trigger] q[i]) by {
            if i > b {
                assert(q[i].above(q[b]));
            }
        }
        bin_index_splits_the_edges(q, x, b);
        j
    }
}

proof fn edges_stay_at_or_below(sorted: Seq<Single>, bins: int, b: int)
    requires
        sorted.len() > 0,
        0 <= b < bins,
        forall|i: int| 0 <= i < sorted.len() ==> (#[trigger] sorted[i]).finite(),
        forall|i: int, j: int|
            0 <= i < j < sorted.len() ==> (#[trigger] sorted[i]).order() <= (
            #[trigger] sorted[j]).order(),
    ensures
        forall|i: int|
            0 <= i < edges_up_to(sorted, bins, b).len() ==> (#[trigger] edges_up_to(
                sorted,
                bins,
                b,
            )[i]).num() <= sorted.last().num(),
    decreases b,
{
    if b > 0 {
        edges_stay_at_or_below(sorted, bins, b - 1);
        cut_is_inside(b, sorted.len() as int, bins);
        let at = b * sorted.len() as int / bins;
        assert(sorted[at].order() <= sorted.last().order());
        assert(sorted[at].num() <= sorted.last().num());
        let before = edges_up_to(sorted, bins, b - 1);
        let now = edges_up_to(sorted, bins, b);
        assert forall|i: int| 0 <= i < now.len() implies (#[trigger] now[i]).num()
            <= sorted.last().num() by {
            if i < before.len() {
                assert(now[i] == before[i]);
            }
        }
    }
}

/// Build quantile edges from one feature's sampled values.
///
/// The values are left sorted, without those that are not finite. Duplicates
/// collapse into one edge.
pub fn quantile_edges(values: &mut Vec<Single>, bins: usize) -> (r: Vec<Single>)
    ensures
        final(values)@ == finite_sorted(old(values)@),
        r@ == quantiles(finite_sorted(old(values)@), bins as int),
        strictly_ascending(r@),
        bins >= 2 ==> r@.len() < bins,
{
    let ghost p = |v: Single| v.finite();
    let mut kept: Vec<Single> = Vec::new();
    proof {
        reveal(Seq::filter);
    }
    for i in 0..values.len()
        invariant
            values@ == old(values)@,
            p == (|v: Single| v.finite()),
            kept@ == values@.take(i as int).filter(p),
            forall|k: int| 0 <= k < kept@.len() ==> (#[trigger] kept@[k]).finite(),
    {
        proof {
            reveal(Seq::filter);
            assert(values@.take(i as int + 1).drop_last() =~= values@.take(i as int));
        }
        if values[i].is_finite() {
            kept.push(values[i]);
        }
    }
    assert(values@.take(values@.len() as int) =~= values@);
    let order = ranking(&kept);
    proof {
        ranking::sorted_is_in_order(kept@, order@);
    }
    let mut sorted: Vec<Single> = Vec::new();
    for i in 0..order.len()
        invariant
            ranking::is_ranking(kept@, order@),
            order@.len() == kept@.len(),
            sorted@ == ranking::picked(kept@, order@).take(i as int),
    {
        sorted.push(kept[order[i]]);
        assert(sorted@ =~= ranking::picked(kept@, order@).take(i as int + 1));
    }
    assert(sorted@ =~= ranking::picked(kept@, order@));
    assert(sorted@ == finite_sorted(old(values)@));
    let n: usize = sorted.len();
    proof {
        assert forall|i: int| 0 <= i < sorted@.len() implies (#[trigger] sorted@[i]).finite() by {
            assert(sorted@[i] == kept@[order@[i] as int]);
        }
        assert forall|i: int, j: int| 0 <= i < j < sorted@.len() implies (
        #[trigger] sorted@[i]).order() <= (#[trigger] sorted@[j]).order() by {
            let s = ranking::sorted(kept@);
            assert(!s[j].ahead(&s[i]));
        }
        quantiles_leave_no_empty_last_bin(sorted@, bins as int);
    }
    let mut edges: Vec<Single> = Vec::new();
    if n == 0 || bins < 2 {
        *values = sorted;
        return edges;
    }
    let ghost all = sorted@;
    for b in 1..bins
        invariant
            all == sorted@,
            n == sorted@.len(),
            n > 0,
            edges@ == edges_up_to(all, bins as int, b - 1),
    {
        proof {
            cut_is_inside(b as int, n as int, bins as int);
            assert(b * n < 0x1_0000_0000_0000_0000 * 0x1_0000_0000_0000_0000) by (nonlinear_arith)
                requires
                    0 <= b < 0x1_0000_0000_0000_0000,
                    0 <= n < 0x1_0000_0000_0000_0000,
            ;
        }
        let idx: usize = ((b as u128) * (n as u128) / (bins as u128)) as usize;
        let v = sorted[idx];
        let e = if v.eq_value(Single::zero()) {
            Single::zero()
        } else {
            v
        };
        if edges.len() == 0 || e.gt(edges[edges.len() - 1]) {
            edges.push(e);
        }
    }
    proof {
        edges_up_to_ascend(all, bins as int, bins - 1);
    }
    if edges[edges.len() - 1].ge(sorted[n - 1]) {
        let ghost before = edges@;
        edges.pop();
        assert(edges@ =~= before.drop_last());
    }
    *values = sorted;
    edges
}

// ---------------------------------------------------------------------------
// Binary layout.
// ---------------------------------------------------------------------------

/// The four bytes that a cache starts with.
pub open spec fn magic() -> Seq<u8> {
    seq![0x4eu8, 0x46u8, 0x42u8, 0x4eu8]
}

/// What the edge vectors hold.
pub open spec fn edge_lists(edges: Seq<Vec<Single>>) -> Seq<Seq<Single>> {
    edges.map_values(|e: Vec<Single>| e@)
}

/// Four bytes per value, in order.
pub open spec fn singles_bytes(values: Seq<Single>) -> Seq<u8>
    decreases values.len(),
{
    if values.len() == 0 {
        Seq::empty()
    } else {
        bytes::le32(values[0].bits) + singles_bytes(values.drop_first())
    }
}

/// The values that the bytes from `at` on spell.
pub open spec fn singles_at(data: Seq<u8>, at: int, n: nat) -> Seq<Single> {
    Seq::new(n, |i: int| Single { bits: bytes::word_at(data, at + 4 * i) })
}

/// One feature: its edge count, then its edges.
pub open spec fn feature_bytes(edges: Seq<Single>) -> Seq<u8> {
    bytes::le32(edges.len() as u32) + singles_bytes(edges)
}

/// The features, in order.
pub open spec fn features_bytes(lists: Seq<Seq<Single>>) -> Seq<u8>
    decreases lists.len(),
{
    if lists.len() == 0 {
        Seq::empty()
    } else {
        feature_bytes(lists[0]) + features_bytes(lists.drop_first())
    }
}

/// The whole file.
pub open spec fn layout(json: Seq<u8>, lists: Seq<Seq<Single>>) -> Seq<u8> {
    magic() + bytes::le32(FORMAT_VERSION) + bytes::le32(json.len() as u32) + json + features_bytes(
        lists,
    )
}

/// Where the JSON header lies, or why there is none.
pub open spec fn header_span(data: Seq<u8>) -> Result<(int, int), CacheFault> {
    if data.len() < 12 || data.take(4) != magic() {
        Err(CacheFault::Corrupt("bad magic"@))
    } else if bytes::word_at(data, 4) != FORMAT_VERSION {
        Err(
            CacheFault::Stale(
                "format "@ + text::decimal(bytes::word_at(data, 4) as nat) + " != "@
                    + text::decimal(FORMAT_VERSION as nat),
            ),
        )
    } else if 12 + bytes::word_at(data, 8) > data.len() {
        Err(CacheFault::Corrupt("truncated header"@))
    } else {
        Ok((12, 12 + bytes::word_at(data, 8) as int))
    }
}

/// The edges of the features from `f` on, read from `pos`, or the first thing
/// that is wrong with them. `effective` is what the header says of each
/// feature's bin count.
pub open spec fn features_at(
    data: Seq<u8>,
    pos: int,
    f: int,
    inputs: int,
    effective: Seq<u16>,
) -> Result<Seq<Seq<Single>>, CacheFault>
    decreases inputs - f,
{
    if f >= inputs {
        if pos == data.len() {
            Ok(Seq::empty())
        } else {
            Err(CacheFault::Corrupt("trailing bytes"@))
        }
    } else if pos + 4 > data.len() {
        Err(CacheFault::Corrupt("truncated at feature "@ + text::decimal(f as nat)))
    } else {
        let n = bytes::word_at(data, pos) as int;
        let edges = singles_at(data, pos + 4, n as nat);
        if pos + 4 + 4 * n > data.len() {
            Err(CacheFault::Corrupt("truncated edges for feature "@ + text::decimal(f as nat)))
        } else if !strictly_ascending(edges) {
            Err(
                CacheFault::Corrupt(
                    "edges not strictly ascending for feature "@ + text::decimal(f as nat),
                ),
            )
        } else if f >= effective.len() || effective[f] != #[verifier::truncate] ((n + 1) as u16) {
            Err(CacheFault::Corrupt("effectiveBins mismatch for feature "@ + text::decimal(f as nat)))
        } else {
            after(seq![edges], features_at(data, pos + 4 + 4 * n, f + 1, inputs, effective))
        }
    }
}

/// `done` put before the lists of a result.
pub open spec fn after(
    done: Seq<Seq<Single>>,
    rest: Result<Seq<Seq<Single>>, CacheFault>,
) -> Result<Seq<Seq<Single>>, CacheFault> {
    match rest {
        Ok(lists) => Ok(done + lists),
        Err(e) => Err(e),
    }
}

/// What reading a cache gives: `parsed` is what the header's JSON turned out to
/// say.
pub open spec fn read_cache(
    data: Seq<u8>,
    parsed: Result<BinMeta, String>,
) -> Result<(BinMeta, Seq<Seq<Single>>), CacheFault> {
    match header_span(data) {
        Err(e) => Err(e),
        Ok((_, end)) => match parsed {
            Err(m) => Err(CacheFault::Corrupt("header json: "@ + m@)),
            Ok(meta) => match features_at(
                data,
                end,
                0,
                meta.input_count as int,
                meta.effective_bins@,
            ) {
                Err(e) => Err(e),
                Ok(lists) => Ok((meta, lists)),
            },
        },
    }
}

proof fn neighbours_suffice(edges: Seq<Single>)
    requires
        forall|i: int|
            0 <= i < edges.len() - 1 ==> edges[i + 1].above(#[trigger] edges[i]),
    ensures
        strictly_ascending(edges),
    decreases edges.len(),
{
    if edges.len() > 1 {
        let rest = edges.drop_last();
        assert forall|i: int| 0 <= i < rest.len() - 1 implies rest[i + 1].above(
            #[trigger] rest[i],
        ) by {
            assert(edges[i + 1].above(edges[i]));
        }
        neighbours_suffice(rest);
        let last = edges.len() - 1;
        assert(edges[last - 1 + 1].above(edges[last - 1]));
        assert forall|i: int, j: int| 0 <= i < j < edges.len() implies (#[trigger] edges[j]).above(
            #[trigger] edges[i],
        ) by {
            if j < last {
                assert(rest[j].above(rest[i]));
            } else if i < last - 1 {
                assert(rest[last - 1].above(rest[i]));
            }
        }
    }
}

fn corrupt(m: &str) -> (r: BinCacheError)
    ensures
        r@ == CacheFault::Corrupt(m@),
{
    BinCacheError::Corrupt(m.to_owned())
}

fn corrupt_at(m: &str, feature: usize) -> (r: BinCacheError)
    ensures
        r@ == CacheFault::Corrupt(m@ + text::decimal(feature as nat)),
{
    let mut out = m.to_owned();
    let n = decimal_text(feature as u64);
    out.append(n.as_str());
    BinCacheError::Corrupt(out)
}

/// The bytes of the JSON header, as a range, of a file that starts like a
/// cache.
pub fn header_range(data: &[u8]) -> (r: Result<(usize, usize), BinCacheError>)
    ensures
        match header_span(data@) {
            Ok((a, b)) => r matches Ok(range) && range.0 == a && range.1 == b && a <= b
                <= data@.len(),
            Err(e) => r matches Err(x) && x@ == e,
        },
{
    let is_cache = data.len() >= 12 && data[0] == 0x4e && data[1] == 0x46 && data[2] == 0x42
        && data[3] == 0x4e;
    proof {
        if data@.len() >= 12 {
            let m = data@.take(4);
            assert(m[0] == data@[0] && m[1] == data@[1] && m[2] == data@[2] && m[3] == data@[3]);
            if is_cache {
                assert(m =~= magic());
            } else {
                assert(magic()[0] == 0x4e && magic()[1] == 0x46 && magic()[2] == 0x42
                    && magic()[3] == 0x4e);
            }
        }
    }
    if !is_cache {
        return Err(corrupt("bad magic"));
    }
    let format: u32 = read_word(data, 4);
    if format != FORMAT_VERSION {
        let mut m = "format ".to_owned();
        let found = decimal_text(format as u64);
        m.append(found.as_str());
        m.append(" != ");
        let wanted = decimal_text(FORMAT_VERSION as u64);
        m.append(wanted.as_str());
        return Err(BinCacheError::Stale(m));
    }
    let json_len: usize = read_word(data, 8) as usize;
    if json_len > data.len() - 12 {
        return Err(corrupt("truncated header"));
    }
    Ok((12, 12 + json_len))
}

pub(crate) fn read_singles(data: &[u8], at: usize, n: usize) -> (r: Vec<Single>)
    requires
        at + 4 * n <= data@.len(),
    ensures
        r@ == singles_at(data@, at as int, n as nat),
{
    let mut out: Vec<Single> = Vec::new();
    let total: usize = data.len();
    for i in 0..n
        invariant
            at + 4 * n <= total,
            total == data@.len(),
            out@ == singles_at(data@, at as int, i as nat),
    {
        out.push(Single { bits: read_word(data, at + 4 * i) });
        assert(out@ =~= singles_at(data@, at as int, (i + 1) as nat));
    }
    out
}

fn is_strictly_ascending(edges: &Vec<Single>) -> (r: bool)
    ensures
        r == strictly_ascending(edges@),
{
    let mut i: usize = 1;
    while i < edges.len()
        invariant
            1 <= i,
            i <= edges@.len() || edges@.len() == 0,
            forall|j: int| 0 <= j < i - 1 ==> edges@[j + 1].above(#[trigger] edges@[j]),
        decreases edges@.len() - i,
    {
        if !edges[i].gt(edges[i - 1]) {
            assert(!edges@[i as int].above(edges@[i - 1]));
            return false;
        }
        i = i + 1;
    }
    proof {
        neighbours_suffice(edges@);
    }
    true
}

impl BinMeta {
    /// The effective bins that belong to the edges: one more than the edges, in
    /// sixteen bits.
    pub open spec fn matches_edges(&self, lists: Seq<Seq<Single>>) -> bool {
        &&& self.input_count == lists.len()
        &&& forall|f: int|
            0 <= f < lists.len() ==> f < self.effective_bins@.len()
                && #[trigger] self.effective_bins@[f] == (lists[f].len() + 1) as u16
    }
}

impl BinCache {
    /// Every feature's edges ascend strictly.
    pub open spec fn well_formed(&self) -> bool {
        forall|f: int| 0 <= f < self.edges@.len() ==> strictly_ascending(#[trigger] self.edges@[f]@)
    }

    /// Parse the documented binary layout. `parsed` is what the header's JSON
    /// (see [`header_range`]) turned out to say.
    pub fn from_bytes(data: &[u8], parsed: Result<BinMeta, String>) -> (r: Result<
        BinCache,
        BinCacheError,
    >)
        ensures
            match read_cache(data@, parsed) {
                Ok((meta, lists)) => r matches Ok(c) && c.meta == meta && edge_lists(c.edges@)
                    == lists && c.well_formed(),
                Err(e) => r matches Err(x) && x@ == e,
            },
    {
        let (_, end) = match header_range(data) {
            Ok(range) => range,
            Err(e) => {
                return Err(e);
            },
        };
        let meta = match parsed {
            Ok(meta) => meta,
            Err(m) => {
                let mut out = "header json: ".to_owned();
                out.append(m.as_str());
                return Err(BinCacheError::Corrupt(out));
            },
        };
        let ghost inputs = meta.input_count as int;
        let ghost effective = meta.effective_bins@;
        let total: usize = data.len();
        let mut pos: usize = end;
        let mut edges: Vec<Vec<Single>> = Vec::new();
        proof {
            let all = features_at(data@, end as int, 0, inputs, effective);
            assert(edge_lists(edges@) =~= Seq::empty());
            if let Ok(lists) = all {
                assert(edge_lists(edges@) + lists =~= lists);
            }
        }
        for f in 0..meta.input_count
            invariant
                inputs == meta.input_count,
                effective == meta.effective_bins@,
                pos <= total,
                total == data@.len(),
                edges@.len() == f,
                forall|g: int|
                    0 <= g < edges@.len() ==> strictly_ascending(#[trigger] edges@[g]@),
                features_at(data@, end as int, 0, inputs, effective) == after(
                    edge_lists(edges@),
                    features_at(data@, pos as int, f as int, inputs, effective),
                ),
                header_span(data@) == Ok::<(int, int), CacheFault>((12, end as int)),
                parsed == Ok::<BinMeta, String>(meta),
        {
            if total - pos < 4 {
                return Err(corrupt_at("truncated at feature ", f));
            }
            let n: usize = read_word(data, pos) as usize;
            if (total - pos - 4) / 4 < n {
                return Err(corrupt_at("truncated edges for feature ", f));
            }
            let list = read_singles(data, pos + 4, n);
            if !is_strictly_ascending(&list) {
                return Err(corrupt_at("edges not strictly ascending for feature ", f));
            }
            if f >= meta.effective_bins.len() || meta.effective_bins[f] != #[verifier::truncate] ((n + 1) as u16) {
                return Err(corrupt_at("effectiveBins mismatch for feature ", f));
            }
            let ghost before = edges@;
            let ghost next = pos + 4 + 4 * n;
            edges.push(list);
            proof {
                let rest = features_at(data@, next as int, f + 1, inputs, effective);
                assert(edge_lists(edges@) =~= edge_lists(before) + seq![list@]);
                if let Ok(lists) = rest {
                    assert(edge_lists(before) + (seq![list@] + lists) =~= edge_lists(edges@)
                        + lists);
                }
            }
            pos = pos + 4 + 4 * n;
        }
        if pos != total {
            return Err(corrupt("trailing bytes"));
        }
        proof {
            assert(edge_lists(edges@) + Seq::<Seq<Single>>::empty() =~= edge_lists(edges@));
        }
        Ok(BinCache { meta, edges })
    }

    /// The documented binary layout, around the header's JSON.
    pub fn to_bytes(&self, json: &Vec<u8>) -> (r: Vec<u8>)
        ensures
            r@ == layout(json@, edge_lists(self.edges@)),
    {
        let mut out: Vec<u8> = Vec::new();
        out.push(0x4e);
        out.push(0x46);
        out.push(0x42);
        out.push(0x4e);
        assert(out@ =~= magic());
        push_word(&mut out, FORMAT_VERSION);
        push_word(&mut out, json.len() as u32);
        out.extend_from_slice(json.as_slice());
        let ghost head = magic() + bytes::le32(FORMAT_VERSION) + bytes::le32(json@.len() as u32)
            + json@;
        assert(out@ =~= head);
        let ghost lists = edge_lists(self.edges@);
        proof {
            assert(lists.skip(0) =~= lists);
        }
        for f in 0..self.edges.len()
            invariant
                lists == edge_lists(self.edges@),
                out@ + features_bytes(lists.skip(f as int)) == head + features_bytes(lists),
        {
            let ghost start = out@;
            let list = &self.edges[f];
            push_word(&mut out, list.len() as u32);
            let ghost body = out@;
            proof {
                assert(list@.skip(0) =~= list@);
            }
            for i in 0..list.len()
                invariant
                    out@ + singles_bytes(list@.skip(i as int)) == body + singles_bytes(list@),
            {
                let ghost at = out@;
                push_word(&mut out, list[i].bits);
                proof {
                    let s = list@.skip(i as int);
                    assert(s.drop_first() =~= list@.skip(i as int + 1));
                    assert(out@ + singles_bytes(list@.skip(i as int + 1)) =~= at + singles_bytes(
                        s,
                    ));
                }
            }
            proof {
                assert(list@.skip(list@.len() as int) =~= Seq::empty());
                assert(out@ + Seq::<u8>::empty() =~= out@);
                assert(out@ =~= start + feature_bytes(list@));
                let s = lists.skip(f as int);
                assert(s[0] == list@);
                assert(s.drop_first() =~= lists.skip(f as int + 1));
                assert(out@ + features_bytes(lists.skip(f as int + 1)) =~= start + features_bytes(s));
            }
        }
        proof {
            assert(lists.skip(lists.len() as int) =~= Seq::empty());
            assert(out@ + Seq::<u8>::empty() =~= out@);
        }
        out
    }
}

/// Values that were written read back.
pub proof fn singles_round_trip(data: Seq<u8>, at: int, values: Seq<Single>)
    requires
        0 <= at,
        at + 4 * values.len() <= data.len(),
        data.subrange(at, at + 4 * values.len()) == singles_bytes(values),
    ensures
        singles_at(data, at, values.len()) == values,
    decreases values.len(),
{
    if values.len() > 0 {
        let rest = values.drop_first();
        let whole = data.subrange(at, at + 4 * values.len());
        singles_bytes_len(rest);
        assert(data.subrange(at, at + 4) =~= whole.subrange(0, 4));
        assert(whole.subrange(0, 4) =~= bytes::le32(values[0].bits));
        bytes::word_round_trips(values[0].bits, data, at);
        assert(data.subrange(at + 4, at + 4 + 4 * rest.len()) =~= whole.skip(4));
        assert(whole.skip(4) =~= singles_bytes(rest));
        singles_round_trip(data, at + 4, rest);
        let got = singles_at(data, at, values.len());
        assert forall|i: int| 0 <= i < values.len() implies got[i] == values[i] by {
            if i > 0 {
                assert(singles_at(data, at + 4, rest.len())[i - 1] == rest[i - 1]);
                assert(at + 4 + 4 * (i - 1) == at + 4 * i);
            }
        }
        assert(got =~= values);
    } else {
        assert(singles_at(data, at, values.len()) =~= values);
    }
}

/// A value takes four bytes.
pub proof fn singles_bytes_len(values: Seq<Single>)
    ensures
        singles_bytes(values).len() == 4 * values.len(),
    decreases values.len(),
{
    if values.len() > 0 {
        singles_bytes_len(values.drop_first());
    }
}

proof fn features_round_trip(
    data: Seq<u8>,
    pos: int,
    f: int,
    meta: BinMeta,
    lists: Seq<Seq<Single>>,
)
    requires
        0 <= pos <= data.len(),
        0 <= f <= lists.len(),
        data.skip(pos) == features_bytes(lists.skip(f)),
        meta.matches_edges(lists),
        forall|g: int|
            0 <= g < lists.len() ==> strictly_ascending(#[trigger] lists[g]) && lists[g].len()
                < 0x1_0000_0000,
    ensures
        features_at(data, pos, f, lists.len() as int, meta.effective_bins@) == Ok::<
            Seq<Seq<Single>>,
            CacheFault,
        >(lists.skip(f)),
    decreases lists.len() - f,
{
    let left = lists.skip(f);
    if f == lists.len() {
        assert(left =~= Seq::empty());
        assert(data.skip(pos).len() == data.len() - pos);
    } else {
        let list = lists[f];
        let rest = lists.skip(f + 1);
        assert(left[0] == list);
        assert(left.drop_first() =~= rest);
        let tail = data.skip(pos);
        singles_bytes_len(list);
        assert(tail.len() == data.len() - pos);
        let n = list.len() as int;
        assert(data.subrange(pos, pos + 4) =~= tail.subrange(0, 4));
        assert(tail.subrange(0, 4) =~= bytes::le32(list.len() as u32));
        bytes::word_round_trips(list.len() as u32, data, pos);
        assert(data.subrange(pos + 4, pos + 4 + 4 * n) =~= tail.subrange(4, 4 + 4 * n));
        assert(tail.subrange(4, 4 + 4 * n) =~= singles_bytes(list));
        singles_round_trip(data, pos + 4, list);
        assert(data.skip(pos + 4 + 4 * n) =~= tail.skip(4 + 4 * n));
        assert(tail.skip(4 + 4 * n) =~= features_bytes(rest));
        features_round_trip(data, pos + 4 + 4 * n, f + 1, meta, lists);
        assert(seq![list] + rest =~= left);
        assert(meta.effective_bins@[f] == (list.len() + 1) as u16);
    }
}

/// A cache that is read back is the cache that was written: the header span is
/// the JSON, and the edges come back as they were.
pub proof fn written_cache_reads_back(json: Seq<u8>, meta: BinMeta, lists: Seq<Seq<Single>>)
    requires
        json.len() < 0x1_0000_0000,
        meta.matches_edges(lists),
        forall|g: int|
            0 <= g < lists.len() ==> strictly_ascending(#[trigger] lists[g]) && lists[g].len()
                < 0x1_0000_0000,
    ensures
        header_span(layout(json, lists)) == Ok::<(int, int), CacheFault>((12, 12 + json.len() as int)),
        layout(json, lists).subrange(12, 12 + json.len() as int) == json,
        read_cache(layout(json, lists), Ok(meta)) == Ok::<
            (BinMeta, Seq<Seq<Single>>),
            CacheFault,
        >((meta, lists)),
{
    let data = layout(json, lists);
    assert(data.take(4) =~= magic());
    assert(data.subrange(4, 8) =~= bytes::le32(FORMAT_VERSION));
    bytes::word_round_trips(FORMAT_VERSION, data, 4);
    assert(data.subrange(8, 12) =~= bytes::le32(json.len() as u32));
    bytes::word_round_trips(json.len() as u32, data, 8);
    assert(data.subrange(12, 12 + json.len() as int) =~= json);
    assert(data.skip(12 + json.len() as int) =~= features_bytes(lists));
    assert(lists.skip(0) =~= lists);
    features_round_trip(data, 12 + json.len() as int, 0, meta, lists);
}

/// What is wrong with a file that ends too early or goes on too long.
proof fn resized_features_are_corrupt(
    whole: Seq<u8>,
    data: Seq<u8>,
    pos: int,
    f: int,
    meta: BinMeta,
    lists: Seq<Seq<Single>>,
)
    requires
        0 <= pos <= whole.len(),
        pos <= data.len(),
        0 <= f <= lists.len(),
        whole.skip(pos) == features_bytes(lists.skip(f)),
        data.len() != whole.len(),
        forall|i: int| 0 <= i < whole.len() && i < data.len() ==> #[trigger] data[i] == whole[i],
        meta.matches_edges(lists),
        forall|g: int|
            0 <= g < lists.len() ==> strictly_ascending(#[trigger] lists[g]) && lists[g].len()
                < 0x1_0000_0000,
    ensures
        features_at(data, pos, f, lists.len() as int, meta.effective_bins@) matches Err(
            CacheFault::Corrupt(_),
        ),
    decreases lists.len() - f,
{
    let left = lists.skip(f);
    if f == lists.len() {
        assert(left =~= Seq::empty());
        assert(whole.skip(pos).len() == whole.len() - pos);
    } else if pos + 4 <= data.len() {
        let list = lists[f];
        let rest = lists.skip(f + 1);
        assert(left[0] == list);
        assert(left.drop_first() =~= rest);
        let tail = whole.skip(pos);
        singles_bytes_len(list);
        assert(tail.len() == whole.len() - pos);
        let n = list.len() as int;
        assert(data.subrange(pos, pos + 4) =~= tail.subrange(0, 4));
        assert(tail.subrange(0, 4) =~= bytes::le32(list.len() as u32));
        bytes::word_round_trips(list.len() as u32, data, pos);
        if pos + 4 + 4 * n <= data.len() {
            assert(data.subrange(pos + 4, pos + 4 + 4 * n) =~= tail.subrange(4, 4 + 4 * n));
            assert(tail.subrange(4, 4 + 4 * n) =~= singles_bytes(list));
            singles_round_trip(data, pos + 4, list);
            assert(whole.skip(pos + 4 + 4 * n) =~= tail.skip(4 + 4 * n));
            assert(tail.skip(4 + 4 * n) =~= features_bytes(rest));
            resized_features_are_corrupt(whole, data, pos + 4 + 4 * n, f + 1, meta, lists);
            assert(meta.effective_bins@[f] == (list.len() + 1) as u16);
        }
    }
}

/// A written cache that was cut short, or that has more bytes behind it, is
/// refused as corrupt. Where the header is whole it is still found, and its JSON
/// is what was written.
pub proof fn resized_cache_is_corrupt(
    json: Seq<u8>,
    meta: BinMeta,
    lists: Seq<Seq<Single>>,
    data: Seq<u8>,
)
    requires
        json.len() < 0x1_0000_0000,
        meta.matches_edges(lists),
        forall|g: int|
            0 <= g < lists.len() ==> strictly_ascending(#[trigger] lists[g]) && lists[g].len()
                < 0x1_0000_0000,
        data.len() != layout(json, lists).len(),
        data.is_prefix_of(layout(json, lists)) || layout(json, lists).is_prefix_of(data),
    ensures
        read_cache(data, Ok(meta)) matches Err(CacheFault::Corrupt(_)),
        data.len() >= 12 + json.len() ==> header_span(data) == Ok::<(int, int), CacheFault>(
            (12, 12 + json.len() as int),
        ) && data.subrange(12, 12 + json.len() as int) == json,
        data.len() < 12 + json.len() ==> header_span(data) matches Err(CacheFault::Corrupt(_)),
{
    let whole = layout(json, lists);
    assert forall|i: int| 0 <= i < whole.len() && i < data.len() implies #[trigger] data[i]
        == whole[i] by {
        if data.is_prefix_of(whole) {
            assert(whole.subrange(0, data.len() as int)[i] == data[i]);
        } else {
            assert(data.subrange(0, whole.len() as int)[i] == whole[i]);
        }
    }
    if data.len() >= 12 {
        assert(whole.take(4) =~= magic());
        assert(data.take(4) =~= whole.take(4));
        assert(data.subrange(4, 8) =~= bytes::le32(FORMAT_VERSION));
        bytes::word_round_trips(FORMAT_VERSION, data, 4);
        assert(data.subrange(8, 12) =~= bytes::le32(json.len() as u32));
        bytes::word_round_trips(json.len() as u32, data, 8);
        if data.len() >= 12 + json.len() {
            let end = 12 + json.len() as int;
            assert(data.subrange(12, end) =~= json);
            assert(whole.skip(end) =~= features_bytes(lists));
            assert(lists.skip(0) =~= lists);
            resized_features_are_corrupt(whole, data, end, 0, meta, lists);
        }
    }
}

// ---------------------------------------------------------------------------
// Using a cache.
// ---------------------------------------------------------------------------

/// Largest bin count of the lists.
pub open spec fn largest_bins(lists: Seq<Seq<Single>>) -> nat
    decreases lists.len(),
{
    if lists.len() == 0 {
        1
    } else {
        let before = largest_bins(lists.drop_last());
        if lists.last().len() + 1 > before {
            lists.last().len() + 1
        } else {
            before
        }
    }
}

/// Why a cache does not belong to a corpus at a bin count, if it does not.
pub open spec fn incompatibility(
    meta: BinMeta,
    corpus: CorpusInfo,
    requested_bins: usize,
) -> Option<Seq<char>> {
    if meta.algorithm_version != ALGORITHM_VERSION {
        Some(
            "algorithm "@ + text::decimal(meta.algorithm_version as nat) + " != "@ + text::decimal(
                ALGORITHM_VERSION as nat,
            ),
        )
    } else if meta.corpus_identity@ != corpus.identity@ {
        Some("corpus identity "@ + meta.corpus_identity@ + " != "@ + corpus.identity@)
    } else if meta.record_count != corpus.record_count || meta.input_count != corpus.input_count
        || meta.output_count != corpus.output_count {
        Some("corpus shape differs"@)
    } else if meta.requested_bins != requested_bins {
        Some(
            "requested bins "@ + text::decimal(meta.requested_bins as nat) + " != "@
                + text::decimal(requested_bins as nat),
        )
    } else {
        None
    }
}

impl BinCache {
    /// Bin index of `x` for `feature`.
    pub fn bin(&self, feature: usize, x: Single) -> (r: u8)
        requires
            self.well_formed(),
            feature < self.edges@.len(),
        ensures
            r == bin_index(self.edges@[feature as int]@, x) % 256,
    {
        bin_of(self.edges[feature].as_slice(), x)
    }

    /// Threshold for a split "after bin `b`": the condition is `x > threshold`.
    pub fn threshold(&self, feature: usize, bin: usize) -> (r: Option<Single>)
        requires
            feature < self.edges@.len(),
        ensures
            r == (if bin < self.edges@[feature as int]@.len() {
                Some(self.edges@[feature as int]@[bin as int])
            } else {
                None::<Single>
            }),
    {
        let edges = &self.edges[feature];
        if bin < edges.len() {
            Some(edges[bin])
        } else {
            None
        }
    }

    /// Bins for `feature` (`edges + 1`).
    pub fn bins(&self, feature: usize) -> (r: usize)
        requires
            feature < self.edges@.len(),
            self.edges@[feature as int]@.len() < usize::MAX,
        ensures
            r == self.edges@[feature as int]@.len() + 1,
    {
        self.edges[feature].len() + 1
    }

    /// Largest bin count over all features.
    pub fn max_bins(&self) -> (r: usize)
        requires
            forall|f: int| 0 <= f < self.edges@.len() ==> (#[trigger] self.edges@[f])@.len()
                < usize::MAX,
        ensures
            r == largest_bins(edge_lists(self.edges@)),
    {
        let mut most: usize = 1;
        let ghost lists = edge_lists(self.edges@);
        for f in 0..self.edges.len()
            invariant
                lists == edge_lists(self.edges@),
                forall|f: int| 0 <= f < self.edges@.len() ==> (#[trigger] self.edges@[f])@.len()
                    < usize::MAX,
                most == largest_bins(lists.take(f as int)),
        {
            let n: usize = self.edges[f].len() + 1;
            proof {
                assert(lists.take(f as int + 1).drop_last() =~= lists.take(f as int));
                assert(lists.take(f as int + 1).last() == self.edges@[f as int]@);
            }
            if n > most {
                most = n;
            }
        }
        assert(lists.take(lists.len() as int) =~= lists);
        most
    }

    /// Number of features.
    pub fn features(&self) -> (r: usize)
        ensures
            r == self.edges@.len(),
    {
        self.edges.len()
    }

    /// Quantise a row-major block of records into `out`: one byte for each
    /// value of a full row.
    pub fn bin_rows(&self, inputs: &[Single], features: usize, out: &mut Vec<u8>)
        requires
            self.well_formed(),
            0 < features <= self.edges@.len(),
        ensures
            final(out)@.len() == inputs@.len() / features as nat * features,
            forall|i: int|
                0 <= i < final(out)@.len() ==> #[trigger] final(out)@[i] == bin_index(
                    self.edges@[i % features as int]@,
                    inputs@[i],
                ) % 256,
    {
        out.clear();
        let total: usize = inputs.len();
        let rows: usize = total / features;
        proof {
            vstd::arithmetic::div_mod::lemma_fundamental_div_mod(total as int, features as int);
        }
        assert(rows * features <= total) by (nonlinear_arith)
            requires
                total == features * rows + total % features,
                0 <= total % features,
        ;
        let cells: usize = rows * features;
        let mut f: usize = 0;
        for i in 0..cells
            invariant
                self.well_formed(),
                0 < features <= self.edges@.len(),
                cells <= inputs@.len(),
                out@.len() == i,
                f == i as int % features as int,
                forall|k: int|
                    0 <= k < i ==> #[trigger] out@[k] == bin_index(
                        self.edges@[k % features as int]@,
                        inputs@[k],
                    ) % 256,
        {
            let b: u8 = bin_of(self.edges[f].as_slice(), inputs[i]);
            out.push(b);
            proof {
                vstd::arithmetic::div_mod::lemma_add_mod_noop(i as int, 1, features as int);
                vstd::arithmetic::div_mod::lemma_mod_bound(i as int, features as int);
                if f + 1 == features {
                    vstd::arithmetic::div_mod::lemma_mod_self_0(features as int);
                    if features == 1 {
                        assert((i + 1) % 1 == 0);
                    } else {
                        vstd::arithmetic::div_mod::lemma_small_mod(1nat, features as nat);
                    }
                } else {
                    vstd::arithmetic::div_mod::lemma_small_mod(1nat, features as nat);
                    vstd::arithmetic::div_mod::lemma_small_mod((f + 1) as nat, features as nat);
                }
            }
            f = if f + 1 == features {
                0
            } else {
                f + 1
            };
        }
    }

    /// The lower and upper quartile of a feature's edges, when it has at least
    /// four of them.
    pub fn quartiles(&self, feature: usize) -> (r: Option<(Single, Single)>)
        requires
            feature < self.edges@.len(),
            self.edges@[feature as int]@.len() * 3 <= usize::MAX,
        ensures
            ({
                let e = self.edges@[feature as int]@;
                r == (if e.len() < 4 {
                    None::<(Single, Single)>
                } else {
                    Some((e[e.len() as int / 4], e[e.len() as int * 3 / 4]))
                })
            }),
    {
        let e = &self.edges[feature];
        if e.len() < 4 {
            None
        } else {
            Some((e[e.len() / 4], e[e.len() * 3 / 4]))
        }
    }

    /// Check the cache belongs to `corpus` at the requested bin count.
    pub fn check_compatible(&self, corpus: &CorpusInfo, requested_bins: usize) -> (r: Result<
        (),
        BinCacheError,
    >)
        ensures
            match incompatibility(self.meta, *corpus, requested_bins) {
                None => r is Ok,
                Some(why) => r matches Err(e) && e@ == CacheFault::Stale(why),
            },
    {
        if self.meta.algorithm_version != ALGORITHM_VERSION {
            let mut m = "algorithm ".to_owned();
            let found = decimal_text(self.meta.algorithm_version as u64);
            m.append(found.as_str());
            m.append(" != ");
            let wanted = decimal_text(ALGORITHM_VERSION as u64);
            m.append(wanted.as_str());
            return Err(BinCacheError::Stale(m));
        }
        if self.meta.corpus_identity != corpus.identity {
            let mut m = "corpus identity ".to_owned();
            m.append(self.meta.corpus_identity.as_str());
            m.append(" != ");
            m.append(corpus.identity.as_str());
            return Err(BinCacheError::Stale(m));
        }
        if self.meta.record_count != corpus.record_count || self.meta.input_count
            != corpus.input_count || self.meta.output_count != corpus.output_count {
            return Err(BinCacheError::Stale("corpus shape differs".to_owned()));
        }
        if self.meta.requested_bins != requested_bins {
            let mut m = "requested bins ".to_owned();
            let found = decimal_text(self.meta.requested_bins as u64);
            m.append(found.as_str());
            m.append(" != ");
            let wanted = decimal_text(requested_bins as u64);
            m.append(wanted.as_str());
            return Err(BinCacheError::Stale(m));
        }
        Ok(())
    }
}

/// Robust scale of a feature from the range between its quartiles: the range
/// when it is finite and positive, else `1.0`.
pub fn robust_scale(iqr: Single) -> (r: Single)
    ensures
        r == (if iqr.finite() && iqr.above(Single { bits: 0 }) {
            iqr
        } else {
            Single { bits: crate::floats::SINGLE_ONE }
        }),
{
    if iqr.is_finite() && iqr.gt(Single::zero()) {
        iqr
    } else {
        Single::one()
    }
}

/// Cache path inside a directory.
pub fn cache_path(cache_dir: &str) -> (r: String)
    ensures
        r@ == text::path_text(cache_dir@, CACHE_FILE_NAME@),
{
    path_join(cache_dir, CACHE_FILE_NAME)
}

// ---------------------------------------------------------------------------
// Building a cache.
// ---------------------------------------------------------------------------

/// Options for building the cache.
#[derive(Debug, Clone, Copy, PartialEq, Eq, Structural)]
pub struct BinBuildOptions {
    /// Requested bins (at most [`MAX_BINS`]).
    pub bins: usize,
    /// Maximum sampled records per feature.
    pub sample_records: u64,
    /// Per-pass memory budget in bytes.
    pub memory_budget_bytes: usize,
    /// Records per streaming chunk.
    pub chunk_records: usize,
}

impl Default for BinBuildOptions {
    fn default() -> (r: BinBuildOptions)
        ensures
            r.bins == DEFAULT_BINS,
            r.sample_records == DEFAULT_BIN_SAMPLE_RECORDS,
            r.memory_budget_bytes == DEFAULT_BIN_MEMORY_BUDGET_BYTES,
            r.chunk_records == 4096,
    {
        BinBuildOptions {
            bins: DEFAULT_BINS,
            sample_records: DEFAULT_BIN_SAMPLE_RECORDS,
            memory_budget_bytes: DEFAULT_BIN_MEMORY_BUDGET_BYTES,
            chunk_records: 4096,
        }
    }
}

/// How a cache will be built.
#[derive(Debug, Clone, Copy, PartialEq, Eq, Structural)]
pub struct BinPlan {
    /// Bins per feature.
    pub bins: usize,
    /// Every `stride`-th record is sampled.
    pub stride: u64,
    /// Records sampled.
    pub sample_records: u64,
    /// Features per streaming pass.
    pub block: usize,
}

/// The records sampled at a stride number no more than asked for.
pub proof fn stride_keeps_to_the_sample(records: int, wanted: int)
    requires
        0 <= records,
        0 < wanted,
    ensures
        ({
            let s = math::ceil_div(records, wanted);
            let stride = if s < 1 { 1 } else { s };
            math::ceil_div(records, stride) <= wanted
        }),
{
    let s = math::ceil_div(records, wanted);
    let stride = if s < 1 { 1 } else { s };
    math::ceil_div_by_remainder(records, wanted);
    math::ceil_div_by_remainder(records, stride);
    let n = math::ceil_div(records, stride);
    if n > wanted {
        vstd::arithmetic::div_mod::lemma_fundamental_div_mod(records, stride);
        vstd::arithmetic::div_mod::lemma_mod_bound(records, stride);
        let q = records / stride;
        if records % stride == 0 {
            assert(stride * q >= stride * (wanted + 1)) by (nonlinear_arith)
                requires
                    q >= wanted + 1,
                    stride >= 1,
            ;
        } else {
            assert(stride * q >= stride * wanted) by (nonlinear_arith)
                requires
                    q >= wanted,
                    stride >= 1,
            ;
        }
        assert(stride * (wanted + 1) == stride * wanted + stride) by (nonlinear_arith);
        assert(s * wanted >= records);
        assert(stride * wanted >= s * wanted) by (nonlinear_arith)
            requires
                stride >= s,
                wanted >= 0,
        ;
        assert(false);
    }
}

/// Plan a build: the bins asked for within `2..=MAX_BINS`, a stride that keeps
/// to the sample, and as many features at a time as the memory budget holds.
pub fn plan_bins(record_count: u64, features: usize, opts: &BinBuildOptions) -> (r: BinPlan)
    requires
        record_count <= usize::MAX,
    ensures
        ({
            let wanted = if opts.sample_records < 1 { 1int } else { opts.sample_records as int };
            let stride = math::ceil_div(record_count as int, wanted);
            let column = if 4 * r.sample_records > usize::MAX {
                usize::MAX as int
            } else if r.sample_records < 1 {
                4
            } else {
                4 * r.sample_records
            };
            &&& r.bins == math::clamped(opts.bins as int, 2, MAX_BINS as int)
            &&& r.stride == (if stride < 1 { 1 } else { stride })
            &&& r.sample_records == math::ceil_div(record_count as int, r.stride as int)
            &&& r.block == math::clamped(
                opts.memory_budget_bytes as int / column,
                1,
                if features < 1 { 1 } else { features as int },
            )
        }),
{
    let bins: usize = clamp_size(opts.bins, 2, MAX_BINS);
    let wanted: u64 = if opts.sample_records < 1 {
        1
    } else {
        opts.sample_records
    };
    let s: u64 = div_ceil(record_count, wanted);
    let stride: u64 = if s < 1 {
        1
    } else {
        s
    };
    let sample_records: u64 = div_ceil(record_count, stride);
    proof {
        math::ceil_div_by_remainder(record_count as int, stride as int);
    }
    let sample: usize = sample_records as usize;
    let column: usize = if sample > usize::MAX / 4 {
        usize::MAX
    } else if sample < 1 {
        4
    } else {
        4 * sample
    };
    let most: usize = if features < 1 {
        1
    } else {
        features
    };
    let block: usize = clamp_size(opts.memory_budget_bytes / column, 1, most);
    BinPlan { bins, stride, sample_records, block }
}

/// The values of one feature in the first `rows` rows of a chunk, of the records
/// whose index the stride divides.
pub open spec fn sampled_values(
    inputs: Seq<Single>,
    first_index: int,
    width: int,
    feature: int,
    stride: int,
    rows: int,
) -> Seq<Single>
    decreases rows,
{
    if rows <= 0 {
        Seq::empty()
    } else {
        let before = sampled_values(inputs, first_index, width, feature, stride, rows - 1);
        if (first_index + rows - 1) % stride == 0 {
            before.push(inputs[(rows - 1) * width + feature])
        } else {
            before
        }
    }
}

/// Sampled columns of a block of neighbouring features.
#[derive(Debug, PartialEq)]
pub struct ColumnBlock {
    /// First feature of the block.
    pub start: usize,
    /// Finite sampled values, per feature.
    pub columns: Vec<Vec<Single>>,
    /// Sampled values that were not finite, per feature.
    pub non_finite: Vec<u64>,
}

impl ColumnBlock {
    /// As many counts as columns.
    pub open spec fn well_formed(&self) -> bool {
        self.non_finite@.len() == self.columns@.len()
    }

    /// Empty columns for the features `start..end`.
    pub fn new(start: usize, end: usize) -> (r: ColumnBlock)
        requires
            start <= end,
        ensures
            r.well_formed(),
            r.start == start,
            r.columns@.len() == end - start,
            forall|k: int| 0 <= k < r.columns@.len() ==> (#[trigger] r.columns@[k])@.len() == 0,
            forall|k: int| 0 <= k < r.non_finite@.len() ==> #[trigger] r.non_finite@[k] == 0,
    {
        let mut columns: Vec<Vec<Single>> = Vec::new();
        let mut non_finite: Vec<u64> = Vec::new();
        for k in 0..end - start
            invariant
                columns@.len() == k,
                non_finite@.len() == k,
                forall|j: int| 0 <= j < k ==> (#[trigger] columns@[j])@.len() == 0,
                forall|j: int| 0 <= j < k ==> #[trigger] non_finite@[j] == 0,
        {
            columns.push(Vec::new());
            non_finite.push(0);
        }
        ColumnBlock { start, columns, non_finite }
    }

    /// Add the sampled records of one chunk whose rows are `width` wide.
    pub fn add_chunk(&mut self, chunk: &Chunk, width: usize, stride: u64)
        requires
            old(self).well_formed(),
            old(self).start + old(self).columns@.len() <= width,
            chunk.inputs@.len() == chunk.records * width,
            chunk.first_index + chunk.records <= u64::MAX,
            stride > 0,
            forall|k: int|
                0 <= k < old(self).non_finite@.len() ==> #[trigger] old(self).non_finite@[k]
                    + chunk.records <= u64::MAX,
        ensures
            final(self).well_formed(),
            final(self).start == old(self).start,
            final(self).columns@.len() == old(self).columns@.len(),
            forall|k: int|
                0 <= k < final(self).columns@.len() ==> (#[trigger] final(self).columns@[k])@
                    == old(self).columns@[k]@ + sampled_values(
                    chunk.inputs@,
                    chunk.first_index as int,
                    width as int,
                    old(self).start + k,
                    stride as int,
                    chunk.records as int,
                ).filter(|v: Single| v.finite()),
            forall|k: int|
                0 <= k < final(self).non_finite@.len() ==> #[trigger] final(self).non_finite@[k]
                    == old(self).non_finite@[k] + sampled_values(
                    chunk.inputs@,
                    chunk.first_index as int,
                    width as int,
                    old(self).start + k,
                    stride as int,
                    chunk.records as int,
                ).filter(|v: Single| !v.finite()).len(),
    {
        let n: usize = self.columns.len();
        let start: usize = self.start;
        for k in 0..n
            invariant
                self.well_formed(),
                self.start == start,
                start == old(self).start,
                n == self.columns@.len(),
                n == old(self).columns@.len(),
                n == old(self).non_finite@.len(),
                start + n <= width,
                chunk.inputs@.len() == chunk.records * width,
                chunk.first_index + chunk.records <= u64::MAX,
                stride > 0,
                forall|k: int|
                    0 <= k < n ==> #[trigger] old(self).non_finite@[k] + chunk.records <= u64::MAX,
                forall|j: int|
                    k <= j < n ==> (#[trigger] self.columns@[j]) == old(self).columns@[j],
                forall|j: int|
                    k <= j < n ==> (#[trigger] self.non_finite@[j]) == old(self).non_finite@[j],
                forall|j: int|
                    0 <= j < k ==> (#[trigger] self.columns@[j])@ == old(self).columns@[j]@
                        + sampled_values(
                        chunk.inputs@,
                        chunk.first_index as int,
                        width as int,
                        start + j,
                        stride as int,
                        chunk.records as int,
                    ).filter(|v: Single| v.finite()),
                forall|j: int|
                    0 <= j < k ==> #[trigger] self.non_finite@[j] == old(self).non_finite@[j]
                        + sampled_values(
                        chunk.inputs@,
                        chunk.first_index as int,
                        width as int,
                        start + j,
                        stride as int,
                        chunk.records as int,
                    ).filter(|v: Single| !v.finite()).len(),
        {
            let missed: u64 = sample_column(
                chunk,
                width,
                start + k,
                stride,
                &mut self.columns[k],
            );
            let so_far: u64 = self.non_finite[k];
            self.non_finite.set(k, so_far + missed);
        }
    }

    /// The quantile edges of each column.
    pub fn into_edges(self, bins: usize) -> (r: Vec<Vec<Single>>)
        ensures
            r@.len() == self.columns@.len(),
            forall|k: int|
                0 <= k < r@.len() ==> (#[trigger] r@[k])@ == quantiles(
                    finite_sorted(self.columns@[k]@),
                    bins as int,
                ) && strictly_ascending(r@[k]@),
    {
        let mut out: Vec<Vec<Single>> = Vec::new();
        for k in 0..self.columns.len()
            invariant
                out@.len() == k,
                forall|j: int|
                    0 <= j < k ==> (#[trigger] out@[j])@ == quantiles(
                        finite_sorted(self.columns@[j]@),
                        bins as int,
                    ) && strictly_ascending(out@[j]@),
        {
            let mut column = self.columns[k].clone();
            assert(column@ =~= self.columns@[k as int]@);
            out.push(quantile_edges(&mut column, bins));
        }
        out
    }
}

fn sample_column(
    chunk: &Chunk,
    width: usize,
    feature: usize,
    stride: u64,
    column: &mut Vec<Single>,
) -> (missed: u64)
    requires
        feature < width,
        chunk.inputs@.len() == chunk.records * width,
        chunk.first_index + chunk.records <= u64::MAX,
        stride > 0,
    ensures
        final(column)@ == old(column)@ + sampled_values(
            chunk.inputs@,
            chunk.first_index as int,
            width as int,
            feature as int,
            stride as int,
            chunk.records as int,
        ).filter(|v: Single| v.finite()),
        missed == sampled_values(
            chunk.inputs@,
            chunk.first_index as int,
            width as int,
            feature as int,
            stride as int,
            chunk.records as int,
        ).filter(|v: Single| !v.finite()).len(),
        missed <= chunk.records,
{
    let ghost good = |v: Single| v.finite();
    let ghost bad = |v: Single| !v.finite();
    let ghost start = column@;
    let mut missed: u64 = 0;
    let total: usize = chunk.inputs.len();
    proof {
        reveal(Seq::filter);
        assert(column@ =~= start + Seq::<Single>::empty().filter(good));
    }
    for r in 0..chunk.records
        invariant
            good == (|v: Single| v.finite()),
            bad == (|v: Single| !v.finite()),
            feature < width,
            total == chunk.inputs@.len(),
            chunk.inputs@.len() == chunk.records * width,
            chunk.first_index + chunk.records <= u64::MAX,
            stride > 0,
            missed <= r,
            column@ == start + sampled_values(
                chunk.inputs@,
                chunk.first_index as int,
                width as int,
                feature as int,
                stride as int,
                r as int,
            ).filter(good),
            missed == sampled_values(
                chunk.inputs@,
                chunk.first_index as int,
                width as int,
                feature as int,
                stride as int,
                r as int,
            ).filter(bad).len(),
    {
        let ghost before = sampled_values(
            chunk.inputs@,
            chunk.first_index as int,
            width as int,
            feature as int,
            stride as int,
            r as int,
        );
        let ghost now = sampled_values(
            chunk.inputs@,
            chunk.first_index as int,
            width as int,
            feature as int,
            stride as int,
            r as int + 1,
        );
        assert(r * width + width <= chunk.records * width) by (nonlinear_arith)
            requires
                r + 1 <= chunk.records,
        ;
        if (chunk.first_index + r as u64) % stride == 0 {
            let x = chunk.inputs[r * width + feature];
            proof {
                reveal(Seq::filter);
                assert(now.drop_last() =~= before);
            }
            if x.is_finite() {
                column.push(x);
            } else {
                missed = missed + 1;
            }
            assert(column@ =~= start + now.filter(good));
        }
    }
    missed
}

/// What the header says of values that are not finite.
pub open spec fn non_finite_policy() -> Seq<char> {
    "NaN→bin 0 (left of every threshold, matching IF NaN semantics); ±inf ordered naturally"@
}

/// Put a cache together from the edges and counts of all features.
pub fn assemble_cache(
    plan: &BinPlan,
    corpus: &CorpusInfo,
    outputs: usize,
    edges: Vec<Vec<Single>>,
    non_finite: Vec<u64>,
    now: u64,
) -> (r: BinCache)
    requires
        forall|f: int|
            0 <= f < edges@.len() ==> strictly_ascending(#[trigger] edges@[f]@) && edges@[f]@.len()
                < usize::MAX,
    ensures
        r.well_formed(),
        r.edges == edges,
        r.meta.format_version == FORMAT_VERSION,
        r.meta.algorithm_version == ALGORITHM_VERSION,
        r.meta.output_count == outputs,
        r.meta.record_count == corpus.record_count,
        r.meta.corpus_identity@ == corpus.identity@,
        r.meta.requested_bins == plan.bins,
        r.meta.effective_bins@.len() == edges@.len(),
        r.meta.matches_edges(edge_lists(edges@)),
        r.meta.non_finite_counts == non_finite,
        r.meta.non_finite_policy@ == non_finite_policy(),
        r.meta.sample_records == plan.sample_records,
        r.meta.sample_stride == plan.stride,
        r.meta.created_at_unix == now,
{
    let mut effective_bins: Vec<u16> = Vec::new();
    for f in 0..edges.len()
        invariant
            forall|f: int|
                0 <= f < edges@.len() ==> strictly_ascending(#[trigger] edges@[f]@)
                    && edges@[f]@.len() < usize::MAX,
            effective_bins@.len() == f,
            forall|g: int|
                0 <= g < f ==> #[trigger] effective_bins@[g] == (edge_lists(edges@)[g].len()
                    + 1) as u16,
    {
        let n: usize = edges[f].len() + 1;
        effective_bins.push(#[verifier::truncate] (n as u16));
    }
    BinCache {
        meta: BinMeta {
            format_version: FORMAT_VERSION,
            algorithm_version: ALGORITHM_VERSION,
            input_count: edges.len(),
            output_count: outputs,
            record_count: corpus.record_count,
            corpus_identity: corpus.identity.clone(),
            requested_bins: plan.bins,
            effective_bins,
            non_finite_counts: non_finite,
            non_finite_policy:
                "NaN→bin 0 (left of every threshold, matching IF NaN semantics); ±inf ordered naturally".to_owned(),
            sample_records: plan.sample_records,
            sample_stride: plan.stride,
            created_at_unix: now,
        },
        edges,
    }
}

/// A cache that was put together for a corpus of the same width is compatible
/// with it, at the bins it was planned for.
pub proof fn assembled_cache_is_compatible(meta: BinMeta, corpus: CorpusInfo, bins: usize)
    requires
        meta.algorithm_version == ALGORITHM_VERSION,
        meta.corpus_identity@ == corpus.identity@,
        meta.record_count == corpus.record_count,
        meta.input_count == corpus.input_count,
        meta.output_count == corpus.output_count,
        meta.requested_bins == bins,
    ensures
        incompatibility(meta, corpus, bins) is None,
{
}

// ---------------------------------------------------------------------------
// Where edges stand, and what falls between them.
// ---------------------------------------------------------------------------

/// Sorting a sample keeps its finite values, every one, and puts them in order.
pub proof fn sorting_keeps_the_finite_values(values: Seq<Single>)
    requires
        values.len() <= usize::MAX,
    ensures
        ({
            let sorted = finite_sorted(values);
            &&& forall|i: int|
                0 <= i < sorted.len() ==> (#[trigger] sorted[i]).finite() && values.contains(
                    sorted[i],
                )
            &&& forall|i: int|
                0 <= i < values.len() && (#[trigger] values[i]).finite() ==> sorted.contains(
                    values[i],
                )
            &&& forall|i: int, j: int|
                0 <= i < j < sorted.len() ==> (#[trigger] sorted[i]).num() <= (
                #[trigger] sorted[j]).num()
            &&& sorted.len() == values.filter(|v: Single| v.finite()).len()
        }),
{
    let keep = |v: Single| v.finite();
    let kept = values.filter(keep);
    broadcast use vstd::seq_lib::group_filter_ensures;

    values.lemma_filter_len(keep);
    ranking::every_list_has_a_ranking(kept);
    let order = ranking::the_ranking(kept);
    ranking::sorted_is_in_order(kept, order);
    let sorted = finite_sorted(values);
    assert forall|i: int| 0 <= i < sorted.len() implies (#[trigger] sorted[i]).finite()
        && values.contains(sorted[i]) by {
        assert(sorted[i] == kept[order[i] as int]);
        assert(keep(kept[order[i] as int]));
        filtered_values_are_values(values, order[i] as int);
    }
    assert forall|i: int| 0 <= i < values.len() && (#[trigger] values[i]).finite() implies sorted.contains(
    values[i]) by {
        assert(keep(values[i]));
        assert(kept.contains(values[i]));
        let k = choose|k: int| 0 <= k < kept.len() && kept[k] == values[i];
        assert(order.contains(k as usize));
        let at = choose|at: int| 0 <= at < order.len() && order[at] == k as usize;
        assert(sorted[at] == values[i]);
    }
    assert forall|i: int, j: int| 0 <= i < j < sorted.len() implies (#[trigger] sorted[i]).num()
        <= (#[trigger] sorted[j]).num() by {
        assert(!sorted[j].ahead(&sorted[i]));
    }
}

proof fn filtered_values_are_values(values: Seq<Single>, k: int)
    requires
        0 <= k < values.filter(|v: Single| v.finite()).len(),
    ensures
        values.contains(values.filter(|v: Single| v.finite())[k]),
    decreases values.len(),
{
    reveal(Seq::filter);
    let kept = values.filter(|v: Single| v.finite());
    if values.len() > 0 {
        let less = values.drop_last();
        let before = less.filter(|v: Single| v.finite());
        if k < before.len() {
            filtered_values_are_values(less, k);
            let i = choose|i: int| 0 <= i < less.len() && less[i] == before[k];
            assert(values[i] == kept[k]);
        } else {
            assert(values[values.len() - 1] == kept[k]);
        }
    }
}

/// The value of a sorted sample at a cut.
pub open spec fn quantile_at(sorted: Seq<Single>, bins: int, c: int) -> Single {
    sorted[c * sorted.len() as int / bins]
}

/// Every cut of a sample has its edge: the value at each quantile is one of the
/// edges, and every edge is the value at a quantile.
pub proof fn edges_stand_at_the_quantiles(sorted: Seq<Single>, bins: int, b: int)
    requires
        sorted.len() > 0,
        0 <= b < bins,
        forall|i: int| 0 <= i < sorted.len() ==> (#[trigger] sorted[i]).finite(),
        forall|i: int, j: int|
            0 <= i < j < sorted.len() ==> (#[trigger] sorted[i]).order() <= (
            #[trigger] sorted[j]).order(),
    ensures
        forall|c: int|
            1 <= c <= b ==> has_edge(
                edges_up_to(sorted, bins, b),
                #[trigger] quantile_at(sorted, bins, c),
            ),
        forall|i: int|
            0 <= i < edges_up_to(sorted, bins, b).len() ==> is_cut(
                sorted,
                bins,
                b,
                #[trigger] edges_up_to(sorted, bins, b)[i],
            ),
        b > 0 ==> edges_up_to(sorted, bins, b).last().num() == quantile_at(sorted, bins, b).num(),
    decreases b,
{
    if b > 0 {
        edges_stand_at_the_quantiles(sorted, bins, b - 1);
        edges_up_to_ascend(sorted, bins, b - 1);
        cut_is_inside(b, sorted.len() as int, bins);
        let before = edges_up_to(sorted, bins, b - 1);
        let after = edges_up_to(sorted, bins, b);
        let v = quantile_at(sorted, bins, b);
        let e = edge_value(v);
        assert(v.finite());
        assert(e.num() == v.num() && e.finite());
        if b > 1 {
            quantiles_ascend(sorted, bins, b);
            assert(before.last() == before[before.len() - 1]);
        }
        assert(after.last().num() == v.num());
        assert forall|c: int| 1 <= c <= b implies has_edge(
            after,
            #[trigger] quantile_at(sorted, bins, c),
        ) by {
            let x = quantile_at(sorted, bins, c);
            if c < b {
                assert(has_edge(before, x));
                let i = choose|i: int| 0 <= i < before.len() && (#[trigger] before[i]).num() == x.num();
                assert(after[i] == before[i]);
            } else {
                assert(after[after.len() - 1].num() == x.num());
            }
        }
        assert forall|i: int| 0 <= i < after.len() implies is_cut(
            sorted,
            bins,
            b,
            #[trigger] after[i],
        ) by {
            if i < before.len() {
                assert(after[i] == before[i]);
                assert(is_cut(sorted, bins, b - 1, before[i]));
                let c = choose|c: int|
                    1 <= c <= b - 1 && (#[trigger] quantile_at(sorted, bins, c)).num()
                        == before[i].num();
                assert(quantile_at(sorted, bins, c).num() == after[i].num());
            } else {
                assert(quantile_at(sorted, bins, b).num() == after[i].num());
            }
        }
    }
}

/// One of the edges has this value.
pub open spec fn has_edge(edges: Seq<Single>, x: Single) -> bool {
    exists|i: int| 0 <= i < edges.len() && (#[trigger] edges[i]).num() == x.num()
}

/// The value is that of one of the first `b` cuts.
pub open spec fn is_cut(sorted: Seq<Single>, bins: int, b: int, x: Single) -> bool {
    exists|c: int| 1 <= c <= b && (#[trigger] quantile_at(sorted, bins, c)).num() == x.num()
}

proof fn quantiles_ascend(sorted: Seq<Single>, bins: int, b: int)
    requires
        sorted.len() > 0,
        1 < b < bins,
        forall|i: int| 0 <= i < sorted.len() ==> (#[trigger] sorted[i]).finite(),
        forall|i: int, j: int|
            0 <= i < j < sorted.len() ==> (#[trigger] sorted[i]).order() <= (
            #[trigger] sorted[j]).order(),
    ensures
        quantile_at(sorted, bins, b - 1).num() <= quantile_at(sorted, bins, b).num(),
{
    let len = sorted.len() as int;
    cut_is_inside(b - 1, len, bins);
    cut_is_inside(b, len, bins);
    assert((b - 1) * len <= b * len) by (nonlinear_arith)
        requires
            len > 0,
    ;
    vstd::arithmetic::div_mod::lemma_div_is_ordered((b - 1) * len, b * len, bins);
    let (x, y) = ((b - 1) * len / bins, b * len / bins);
    if x < y {
        assert(sorted[x].order() <= sorted[y].order());
    }
}

/// The quantile edges of a sample are its cuts, but for a last one that no value
/// lies above: at most the largest value's own cut is left out.
pub proof fn only_an_empty_last_bin_is_left_out(sorted: Seq<Single>, bins: int)
    requires
        sorted.len() > 0,
        bins >= 2,
        forall|i: int| 0 <= i < sorted.len() ==> (#[trigger] sorted[i]).finite(),
        forall|i: int, j: int|
            0 <= i < j < sorted.len() ==> (#[trigger] sorted[i]).order() <= (
            #[trigger] sorted[j]).order(),
    ensures
        ({
            let all = edges_up_to(sorted, bins, bins - 1);
            let kept = quantiles(sorted, bins);
            &&& all.last().num() < sorted.last().num() ==> kept == all
            &&& all.last().num() >= sorted.last().num() ==> kept == all.drop_last()
            &&& kept.len() + 1 >= all.len()
        }),
{
    edges_up_to_ascend(sorted, bins, bins - 1);
    let all = edges_up_to(sorted, bins, bins - 1);
    assert(all.last() == all[all.len() - 1]);
    assert(all.last().finite());
    assert(sorted.last() == sorted[sorted.len() - 1]);
}

/// Values of the first `b` bins.
pub open spec fn populated(edges: Seq<Single>, values: Seq<Single>, b: int) -> nat
    decreases b,
{
    if b <= 0 {
        0
    } else {
        populated(edges, values, b - 1) + bin_population(edges, values, b - 1)
    }
}

/// Every value falls into one bin: the populations of the bins add up to the
/// number of values.
pub proof fn every_value_falls_into_one_bin(edges: Seq<Single>, values: Seq<Single>, b: int)
    requires
        0 <= b,
    ensures
        populated(edges, values, b) == values.filter(
            |v: Single| bin_index(edges, v) % 256 < b,
        ).len(),
        strictly_ascending(edges) && edges.len() < 256 && b > edges.len() ==> populated(
            edges,
            values,
            b,
        ) == values.len(),
    decreases b,
{
    let below = |v: Single| bin_index(edges, v) % 256 < b;
    if b > 0 {
        every_value_falls_into_one_bin(edges, values, b - 1);
        one_bin_more(edges, values, b);
    } else {
        nothing_is_below(edges, values);
    }
    if strictly_ascending(edges) && edges.len() < 256 && b > edges.len() {
        everything_is_below(edges, values, b);
    }
}

proof fn one_bin_more(edges: Seq<Single>, values: Seq<Single>, b: int)
    requires
        b > 0,
    ensures
        values.filter(|v: Single| bin_index(edges, v) % 256 < b).len() == values.filter(
            |v: Single| bin_index(edges, v) % 256 < b - 1,
        ).len() + bin_population(edges, values, b - 1),
    decreases values.len(),
{
    reveal(Seq::filter);
    if values.len() > 0 {
        one_bin_more(edges, values.drop_last(), b);
    }
}

proof fn nothing_is_below(edges: Seq<Single>, values: Seq<Single>)
    ensures
        values.filter(|v: Single| bin_index(edges, v) % 256 < 0).len() == 0,
    decreases values.len(),
{
    reveal(Seq::filter);
    if values.len() > 0 {
        nothing_is_below(edges, values.drop_last());
    }
}

proof fn everything_is_below(edges: Seq<Single>, values: Seq<Single>, b: int)
    requires
        strictly_ascending(edges),
        edges.len() < 256,
        b > edges.len(),
    ensures
        values.filter(|v: Single| bin_index(edges, v) % 256 < b).len() == values.len(),
    decreases values.len(),
{
    reveal(Seq::filter);
    if values.len() > 0 {
        everything_is_below(edges, values.drop_last(), b);
        let x = values.last();
        let k = bin_split_point(edges, x);
        bin_index_splits_the_edges(edges, x, k);
    }
}

/// A larger value is never in a smaller bin.
pub proof fn bins_follow_the_order(edges: Seq<Single>, x: Single, y: Single)
    requires
        strictly_ascending(edges),
        y.above(x) || y.same_value(x),
    ensures
        bin_index(edges, x) <= bin_index(edges, y),
        y.same_value(x) ==> bin_index(edges, x) == bin_index(edges, y),
{
    let a = bin_split_point(edges, x);
    let b = bin_split_point(edges, y);
    bin_index_splits_the_edges(edges, x, a);
    bin_index_splits_the_edges(edges, y, b);
    if b < a {
        assert(x.above(edges[b]));
        assert(!y.above(edges[b]));
    }
    if a < b {
        assert(y.above(edges[a]));
        assert(!x.above(edges[a]));
    }
}

/// The largest bin count is that of some feature, and no feature has more.
pub proof fn largest_bins_is_the_most(lists: Seq<Seq<Single>>)
    ensures
        forall|f: int| 0 <= f < lists.len() ==> (#[trigger] lists[f]).len() + 1 <= largest_bins(
            lists,
        ),
        lists.len() > 0 ==> exists|f: int|
            0 <= f < lists.len() && (#[trigger] lists[f]).len() + 1 == largest_bins(lists),
        lists.len() == 0 ==> largest_bins(lists) == 1,
    decreases lists.len(),
{
    if lists.len() > 0 {
        let less = lists.drop_last();
        largest_bins_is_the_most(less);
        assert forall|f: int| 0 <= f < lists.len() implies (#[trigger] lists[f]).len() + 1
            <= largest_bins(lists) by {
            if f < less.len() {
                assert(less[f] == lists[f]);
            }
        }
        if lists[lists.len() - 1].len() + 1 != largest_bins(lists) {
            let f = choose|f: int|
                0 <= f < less.len() && (#[trigger] less[f]).len() + 1 == largest_bins(less);
            assert(lists[f].len() + 1 == largest_bins(lists));
        }
    }
}

/// A cache fits a corpus exactly when it was made by this algorithm of that very
/// corpus, of the same shape, for the bins asked for.
pub proof fn caches_fit_their_own_corpus(meta: BinMeta, corpus: CorpusInfo, requested_bins: usize)
    ensures
        incompatibility(meta, corpus, requested_bins) is None <==> {
            &&& meta.algorithm_version == ALGORITHM_VERSION
            &&& meta.corpus_identity@ == corpus.identity@
            &&& meta.record_count == corpus.record_count
            &&& meta.input_count == corpus.input_count
            &&& meta.output_count == corpus.output_count
            &&& meta.requested_bins == requested_bins
        },
{
}

/// The value of a feature in a row.
pub open spec fn cell(inputs: Seq<Single>, width: int, feature: int, row: int) -> Single {
    inputs[row * width + feature]
}

/// A sample of a feature holds the value of every record whose index the stride
/// divides, and of no other.
pub proof fn samples_take_every_stride(
    inputs: Seq<Single>,
    first_index: int,
    width: int,
    feature: int,
    stride: int,
    rows: int,
)
    requires
        0 <= rows,
        stride > 0,
    ensures
        ({
            let got = sampled_values(inputs, first_index, width, feature, stride, rows);
            &&& forall|r: int|
                0 <= r < rows && (first_index + r) % stride == 0 ==> got.contains(
                    #[trigger] cell(inputs, width, feature, r),
                )
            &&& forall|k: int|
                0 <= k < got.len() ==> exists|r: int|
                    0 <= r < rows && (first_index + r) % stride == 0 && #[trigger] cell(
                        inputs,
                        width,
                        feature,
                        r,
                    ) == #[trigger] got[k]
        }),
        sampled_values(inputs, first_index, width, feature, stride, rows + 1).len()
            == sampled_values(inputs, first_index, width, feature, stride, rows).len() + if (
        first_index + rows) % stride == 0 {
            1int
        } else {
            0
        },
    decreases rows,
{
    if rows > 0 {
        samples_take_every_stride(inputs, first_index, width, feature, stride, rows - 1);
        let before = sampled_values(inputs, first_index, width, feature, stride, rows - 1);
        let got = sampled_values(inputs, first_index, width, feature, stride, rows);
        assert forall|r: int| 0 <= r < rows && (first_index + r) % stride == 0 implies got.contains(
            #[trigger] cell(inputs, width, feature, r),
        ) by {
            let x = cell(inputs, width, feature, r);
            if r < rows - 1 {
                assert(before.contains(x));
                let k = choose|k: int| 0 <= k < before.len() && before[k] == x;
                assert(got[k] == x);
            } else {
                assert(got[before.len() as int] == x);
            }
        }
        assert forall|k: int| 0 <= k < got.len() implies exists|r: int|
            0 <= r < rows && (first_index + r) % stride == 0 && #[trigger] cell(
                inputs,
                width,
                feature,
                r,
            ) == #[trigger] got[k] by {
            if k < before.len() {
                assert(got[k] == before[k]);
                let r = choose|r: int|
                    0 <= r < rows - 1 && (first_index + r) % stride == 0 && #[trigger] cell(
                        inputs,
                        width,
                        feature,
                        r,
                    ) == before[k];
                assert(cell(inputs, width, feature, r) == got[k]);
            } else {
                assert(cell(inputs, width, feature, rows - 1) == got[k]);
            }
        }
    }
}

} // verus!
