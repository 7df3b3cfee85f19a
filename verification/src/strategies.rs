//! Search-set construction and sampling strategies.
//!
//! Everything here only changes what is searched; nothing here can accept a
//! candidate. Every strategy names itself: random search is called random
//! search, sampled search is called sampled search.

use rand::rngs::StdRng;
use vstd::prelude::*;
use vstd::string::*;

use crate::bins;
use crate::bins::BinCache;
use crate::config::{FeatureSelection, RowSampling};
use crate::corpus::Chunk;
use crate::floats::{Double, Single, SINGLE_ONE};
use crate::histogram;
use crate::histogram::{BinnedChunk, MemorySource};
use crate::math;
use crate::math::{clamp_size, div_ceil_size};
use crate::patch;
use crate::patch::insert_feature;
use crate::random::{draw_word, pick_below};
use crate::ranking;
use crate::ranking::Ranked;
use crate::text;
use crate::text::decimal_text;

verus! {

/// Strata of a stratified sample.
pub const STRATA: usize = 4;

/// Quantised search set.
#[derive(Debug)]
pub struct SearchSet {
    /// Chunks, in memory.
    pub source: MemorySource,
    /// Selected features: place in the set to original feature.
    pub feature_map: Vec<usize>,
    /// Global record indices in the set, ascending.
    pub record_indices: Vec<u64>,
    /// Row sampling used.
    pub row_sampling: RowSampling,
    /// Feature selection used.
    pub feature_selection: FeatureSelection,
    /// Output searched.
    pub output: usize,
    /// Human description for provenance notes.
    pub notes: Vec<String>,
}

/// Every chunk is well formed and has `features` features.
pub open spec fn chunks_shaped(chunks: Seq<BinnedChunk>, features: int) -> bool {
    forall|i: int|
        0 <= i < chunks.len() ==> (#[trigger] chunks[i]).well_formed() && chunks[i].features
            == features
}

impl SearchSet {
    /// Every chunk holds the selected features.
    pub open spec fn well_formed(&self) -> bool {
        chunks_shaped(self.source.chunks@, self.feature_map@.len() as int)
    }

    /// Bins per selected feature.
    pub fn bins_per_feature(&self, cache: &BinCache) -> (r: Vec<usize>)
        requires
            forall|i: int|
                0 <= i < self.feature_map@.len() ==> (#[trigger] self.feature_map@[i])
                    < cache.edges@.len() && cache.edges@[self.feature_map@[i] as int]@.len()
                    < usize::MAX,
        ensures
            r@ == self.feature_map@.map_values(
                |f: usize| (cache.edges@[f as int]@.len() + 1) as usize,
            ),
    {
        let mut out: Vec<usize> = Vec::new();
        for i in 0..self.feature_map.len()
            invariant
                forall|i: int|
                    0 <= i < self.feature_map@.len() ==> (#[trigger] self.feature_map@[i])
                        < cache.edges@.len() && cache.edges@[self.feature_map@[i] as int]@.len()
                        < usize::MAX,
                out@.len() == i,
                forall|k: int|
                    0 <= k < i ==> #[trigger] out@[k] == cache.edges@[self.feature_map@[k] as int]@.len()
                        + 1,
        {
            out.push(cache.bins(self.feature_map[i]));
        }
        assert(out@ =~= self.feature_map@.map_values(
            |f: usize| (cache.edges@[f as int]@.len() + 1) as usize,
        ));
        out
    }

    /// Records in the set.
    pub fn records(&self) -> (r: u64)
        requires
            histogram::record_total(self.source.chunks@, self.source.chunks@.len() as int)
                <= u64::MAX,
        ensures
            r == histogram::record_total(self.source.chunks@, self.source.chunks@.len() as int),
    {
        self.source.records()
    }

    /// Features in the set.
    pub fn features(&self) -> (r: usize)
        ensures
            r == self.feature_map@.len(),
    {
        self.feature_map.len()
    }

    /// Threshold of a split after a bin of a feature of the set.
    pub fn threshold(&self, cache: &BinCache, feature: usize, bin: usize) -> (r: Option<Single>)
        requires
            feature < self.feature_map@.len(),
            self.feature_map@[feature as int] < cache.edges@.len(),
        ensures
            r == (if bin < cache.edges@[self.feature_map@[feature as int] as int]@.len() {
                Some(cache.edges@[self.feature_map@[feature as int] as int]@[bin as int])
            } else {
                None::<Single>
            }),
    {
        cache.threshold(self.feature_map[feature], bin)
    }

    /// Label for the journal.
    pub fn label(&self) -> (r: String)
        ensures
            r@ == self.source.label@,
    {
        self.source.label.clone()
    }
}

// ---------------------------------------------------------------------------
// Which rows.
// ---------------------------------------------------------------------------

/// Records a sample aims at: all of `n` when none or more are asked for.
pub open spec fn aimed(search_records: int, n: int) -> int {
    if search_records == 0 || search_records >= n {
        n
    } else {
        search_records
    }
}

/// Records a sample aims at.
pub fn sample_target(search_records: u64, n: usize) -> (r: usize)
    ensures
        r == aimed(search_records as int, n as int),
        r <= n,
{
    if search_records == 0 || search_records >= n as u64 {
        n
    } else {
        search_records as usize
    }
}

/// Distance between the rows of a stride sample.
pub open spec fn stride_of(n: int, target: int) -> int {
    let s = math::ceil_div(
        n,
        if target >= 1 {
            target
        } else {
            1
        },
    );
    if s >= 1 {
        s
    } else {
        1
    }
}

/// Keep every `stride`-th row, from the first, with unit weight.
pub fn stride_plan(n: usize, target: usize) -> (r: (Vec<Option<Single>>, usize))
    ensures
        r.1 == stride_of(n as int, target as int),
        r.0@ == Seq::new(
            n as nat,
            |i: int|
                if i % stride_of(n as int, target as int) == 0 {
                    Some(Single { bits: SINGLE_ONE })
                } else {
                    None
                },
        ),
{
    let t: usize = if target >= 1 {
        target
    } else {
        1
    };
    let wanted: usize = div_ceil_size(n, t);
    let stride: usize = if wanted >= 1 {
        wanted
    } else {
        1
    };
    let mut keep: Vec<Option<Single>> = Vec::new();
    for i in 0..n
        invariant
            stride == stride_of(n as int, target as int),
            stride >= 1,
            keep@.len() == i,
            forall|k: int|
                0 <= k < i ==> #[trigger] keep@[k] == if k % stride as int == 0 {
                    Some(Single { bits: SINGLE_ONE })
                } else {
                    None
                },
    {
        if i % stride == 0 {
            keep.push(Some(Single::one()));
        } else {
            keep.push(None);
        }
    }
    assert(keep@ =~= Seq::new(
        n as nat,
        |i: int|
            if i % stride_of(n as int, target as int) == 0 {
                Some(Single { bits: SINGLE_ONE })
            } else {
                None
            },
    ));
    (keep, stride)
}

/// One random decision: the row is kept, with the weight, when a draw from
/// `0..2^53` falls below the cut.
#[derive(Debug, Clone, Copy, PartialEq, Eq, Structural)]
pub struct Trial {
    /// Row.
    pub row: usize,
    /// Chance of keeping it, in steps of `2^-53`.
    pub cut: u64,
    /// Weight it then has.
    pub weight: Single,
}

/// The unit draw that a random word stands for, in steps of `2^-53`: its upper
/// 53 bits.
pub open spec fn unit_draw(word: u64) -> int {
    word as int / 2048
}

/// The rows kept after the first `k` trials.
pub open spec fn decided(n: int, trials: Seq<Trial>, words: Seq<u64>, k: int) -> Seq<Option<Single>>
    decreases k,
{
    if k <= 0 {
        Seq::new(n as nat, |i: int| None)
    } else {
        let before = decided(n, trials, words, k - 1);
        let t = trials[k - 1];
        if unit_draw(words[k - 1]) < t.cut {
            before.update(t.row as int, Some(t.weight))
        } else {
            before
        }
    }
}

/// The trials are about rows below `n`.
pub open spec fn trials_within(trials: Seq<Trial>, n: int) -> bool {
    forall|k: int| 0 <= k < trials.len() ==> (#[trigger] trials[k]).row < n
}

fn nothing_kept(n: usize) -> (r: Vec<Option<Single>>)
    ensures
        r@ == Seq::new(n as nat, |i: int| None::<Single>),
{
    let mut keep: Vec<Option<Single>> = Vec::new();
    for i in 0..n
        invariant
            keep@ == Seq::new(i as nat, |k: int| None::<Single>),
    {
        keep.push(None);
        assert(keep@ =~= Seq::new((i + 1) as nat, |k: int| None::<Single>));
    }
    keep
}

/// Decide the trials by the given random words.
pub fn decide_rows(n: usize, trials: &Vec<Trial>, words: &Vec<u64>) -> (r: Vec<Option<Single>>)
    requires
        trials_within(trials@, n as int),
        words@.len() == trials@.len(),
    ensures
        r@ == decided(n as int, trials@, words@, trials@.len() as int),
{
    let mut keep = nothing_kept(n);
    for k in 0..trials.len()
        invariant
            trials_within(trials@, n as int),
            words@.len() == trials@.len(),
            keep@.len() == n,
            keep@ == decided(n as int, trials@, words@, k as int),
    {
        let t: Trial = trials[k];
        if words[k] / 2048 < t.cut {
            keep.set(t.row, Some(t.weight));
        }
    }
    keep
}

/// Decide the trials by random draws, one each, in order.
pub fn draw_rows(n: usize, trials: &Vec<Trial>, rng: &mut StdRng) -> (r: Vec<Option<Single>>)
    requires
        trials_within(trials@, n as int),
    ensures
        exists|words: Seq<u64>|
            words.len() == trials@.len() && r@ == #[trigger] decided(
                n as int,
                trials@,
                words,
                trials@.len() as int,
            ),
{
    let mut words: Vec<u64> = Vec::new();
    for k in 0..trials.len()
        invariant
            words@.len() == k,
    {
        words.push(draw_word(rng));
    }
    decide_rows(n, trials, &words)
}

/// Uniform sampling: the same chance for every row, unit weights.
pub fn uniform_trials(n: usize, cut: u64) -> (r: Vec<Trial>)
    ensures
        r@ == Seq::new(
            n as nat,
            |i: int| Trial { row: i as usize, cut, weight: Single { bits: SINGLE_ONE } },
        ),
        trials_within(r@, n as int),
{
    let mut out: Vec<Trial> = Vec::new();
    for i in 0..n
        invariant
            out@ == Seq::new(
                i as nat,
                |k: int| Trial { row: k as usize, cut, weight: Single { bits: SINGLE_ONE } },
            ),
    {
        out.push(Trial { row: i, cut, weight: Single::one() });
        assert(out@ =~= Seq::new(
            (i + 1) as nat,
            |k: int| Trial { row: k as usize, cut, weight: Single { bits: SINGLE_ONE } },
        ));
    }
    out
}

/// Residual-weighted sampling: each row has its own chance and weight.
pub fn weighted_trials(odds: &Vec<(u64, Single)>) -> (r: Vec<Trial>)
    ensures
        r@ == Seq::new(
            odds@.len(),
            |i: int| Trial { row: i as usize, cut: odds@[i].0, weight: odds@[i].1 },
        ),
        trials_within(r@, odds@.len() as int),
{
    let mut out: Vec<Trial> = Vec::new();
    for i in 0..odds.len()
        invariant
            out@ == Seq::new(
                i as nat,
                |k: int| Trial { row: k as usize, cut: odds@[k].0, weight: odds@[k].1 },
            ),
    {
        out.push(Trial { row: i, cut: odds[i].0, weight: odds[i].1 });
        assert(out@ =~= Seq::new(
            (i + 1) as nat,
            |k: int| Trial { row: k as usize, cut: odds@[k].0, weight: odds@[k].1 },
        ));
    }
    out
}

/// A row and the size of its residual.
#[derive(Debug)]
pub struct SizedRow {
    /// Absolute residual.
    pub size: Single,
    /// Row.
    pub row: usize,
}

impl Ranked for SizedRow {
    /// Smaller first, then the earlier row.
    open spec fn ahead(&self, other: &SizedRow) -> bool {
        if self.size.order() != other.size.order() {
            self.size.order() < other.size.order()
        } else {
            self.row < other.row
        }
    }

    proof fn ahead_is_asymmetric(a: SizedRow, b: SizedRow) {
    }

    proof fn not_ahead_is_transitive(a: SizedRow, b: SizedRow, c: SizedRow) {
    }

    fn is_ahead(&self, other: &SizedRow) -> (r: bool) {
        let a: i64 = self.size.rank();
        let b: i64 = other.size.rank();
        if a != b {
            a < b
        } else {
            self.row < other.row
        }
    }
}

/// The rows with their sizes.
pub open spec fn sized_rows(residual: Seq<Single>) -> Seq<SizedRow> {
    Seq::new(
        residual.len(),
        |i: int|
            SizedRow { size: Single { bits: residual[i].magnitude() as u32 }, row: i as usize },
    )
}

/// The rows by size of residual, smallest first.
pub open spec fn rows_by_size(residual: Seq<Single>) -> Seq<usize> {
    ranking::sorted(sized_rows(residual)).map_values(|x: SizedRow| x.row)
}

/// First place of a stratum among `n` rows.
pub open spec fn stratum_start(n: int, s: int) -> int {
    s * n / STRATA as int
}

/// The stratum of place `k` among `n` rows.
pub open spec fn stratum_of(n: int, k: int) -> int {
    if k < stratum_start(n, 1) {
        0
    } else if k < stratum_start(n, 2) {
        1
    } else if k < stratum_start(n, 3) {
        2
    } else {
        3
    }
}

/// Rows wanted per stratum.
pub open spec fn per_stratum(target: int) -> int {
    let per = math::ceil_div(target, STRATA as int);
    if per >= 1 {
        per
    } else {
        1
    }
}

/// Rows wanted per stratum.
pub fn stratum_quota(target: usize) -> (r: usize)
    ensures
        r == per_stratum(target as int),
{
    let per: usize = div_ceil_size(target, STRATA);
    if per >= 1 {
        per
    } else {
        1
    }
}

/// How many rows each stratum has.
pub fn stratum_sizes(n: usize) -> (r: Vec<usize>)
    requires
        4 * n <= usize::MAX,
    ensures
        r@ == Seq::new(
            STRATA as nat,
            |s: int|
                (stratum_start(n as int, s + 1) - stratum_start(n as int, s)) as usize,
        ),
{
    let mut out: Vec<usize> = Vec::new();
    for s in 0..STRATA
        invariant
            4 * n <= usize::MAX,
            out@ == Seq::new(
                s as nat,
                |k: int|
                    (stratum_start(n as int, k + 1) - stratum_start(n as int, k)) as usize,
            ),
    {
        proof {
            assert(0 <= s * n <= (s + 1) * n <= 4 * n) by (nonlinear_arith)
                requires
                    0 <= s < 4,
                    0 <= n,
            ;
        }
        let lo: usize = s * n / STRATA;
        let hi: usize = (s + 1) * n / STRATA;
        out.push(hi - lo);
        assert(out@ =~= Seq::new(
            (s + 1) as nat,
            |k: int| (stratum_start(n as int, k + 1) - stratum_start(n as int, k)) as usize,
        ));
    }
    out
}

/// The trials of a stratified sample: rows by size of residual, each with the
/// chance and the weight of its stratum.
pub open spec fn stratified(residual: Seq<Single>, odds: Seq<(u64, Single)>) -> Seq<Trial> {
    let n = residual.len() as int;
    Seq::new(
        residual.len(),
        |k: int|
            Trial {
                row: rows_by_size(residual)[k],
                cut: odds[stratum_of(n, k)].0,
                weight: odds[stratum_of(n, k)].1,
            },
    )
}

/// Stratified sampling: four strata by size of residual, each with its own
/// chance and weight.
pub fn stratified_trials(residual: &Vec<Single>, odds: &Vec<(u64, Single)>) -> (r: Vec<Trial>)
    requires
        odds@.len() == STRATA,
        4 * residual@.len() <= usize::MAX,
    ensures
        r@ == stratified(residual@, odds@),
        trials_within(r@, residual@.len() as int),
{
    let n: usize = residual.len();
    let mut items: Vec<SizedRow> = Vec::new();
    for i in 0..n
        invariant
            n == residual@.len(),
            items@ == sized_rows(residual@).take(i as int),
    {
        items.push(SizedRow { size: residual[i].abs(), row: i });
        assert(items@ =~= sized_rows(residual@).take(i as int + 1));
    }
    assert(items@ =~= sized_rows(residual@));
    let order = ranking::ranking(&items);
    let a: usize = n / STRATA;
    let b: usize = 2 * n / STRATA;
    let c: usize = 3 * n / STRATA;
    let ghost wanted = stratified(residual@, odds@);
    let mut out: Vec<Trial> = Vec::new();
    for k in 0..n
        invariant
            n == residual@.len(),
            odds@.len() == STRATA,
            items@ == sized_rows(residual@),
            ranking::is_ranking(items@, order@),
            order@ == ranking::the_ranking(items@),
            a == stratum_start(n as int, 1),
            b == stratum_start(n as int, 2),
            c == stratum_start(n as int, 3),
            wanted == stratified(residual@, odds@),
            out@ == wanted.take(k as int),
            trials_within(out@, n as int),
    {
        let s: usize = if k < a {
            0
        } else if k < b {
            1
        } else if k < c {
            2
        } else {
            3
        };
        let row: usize = items[order[k]].row;
        out.push(Trial { row, cut: odds[s].0, weight: odds[s].1 });
        assert(wanted[k as int] == out@[k as int]);
        assert(out@ =~= wanted.take(k as int + 1));
    }
    assert(wanted.take(n as int) =~= wanted);
    out
}

/// The rows of a stratum are those between its bounds.
pub proof fn strata_are_contiguous(n: int, k: int, s: int)
    requires
        0 <= k < n,
        0 <= s < STRATA,
    ensures
        stratum_of(n, k) == s <==> stratum_start(n, s) <= k < stratum_start(n, s + 1),
{
    if s == 0 {
        assert(s * n == 0 && (s + 1) * n == 1 * n);
    } else if s == 1 {
        assert(s * n == 1 * n && (s + 1) * n == 2 * n);
    } else if s == 2 {
        assert(s * n == 2 * n && (s + 1) * n == 3 * n);
    } else {
        assert(s * n == 3 * n && (s + 1) * n == 4 * n);
    }
}

/// How the rows were sampled, with the number that describes it.
pub open spec fn sampling_note(sampling: RowSampling, detail: Seq<char>) -> Seq<char> {
    match sampling {
        RowSampling::Stride => "row-sampling=stride/"@ + detail,
        RowSampling::Uniform => "row-sampling=uniform p="@ + detail,
        RowSampling::Stratified => "row-sampling=stratified strata=4 per-stratum≈"@ + detail,
        RowSampling::ResidualWeighted => "row-sampling=residual-weighted target="@ + detail,
    }
}

/// Note on how the rows were sampled. `detail` is the stride, the chance, the
/// rows per stratum or the target.
pub fn row_note(sampling: RowSampling, detail: &str) -> (r: String)
    ensures
        r@ == sampling_note(sampling, detail@),
{
    let mut out = match sampling {
        RowSampling::Stride => "row-sampling=stride/".to_owned(),
        RowSampling::Uniform => "row-sampling=uniform p=".to_owned(),
        RowSampling::Stratified => "row-sampling=stratified strata=4 per-stratum≈".to_owned(),
        RowSampling::ResidualWeighted => "row-sampling=residual-weighted target=".to_owned(),
    };
    out.append(detail);
    out
}

// ---------------------------------------------------------------------------
// Quantising the kept rows.
// ---------------------------------------------------------------------------

/// The first `n` rows of a chunk that are kept.
pub open spec fn kept_rows(keep: Seq<Option<Single>>, first: int, n: int) -> Seq<usize>
    decreases n,
{
    if n <= 0 {
        Seq::empty()
    } else if keep[first + n - 1] is Some {
        kept_rows(keep, first, n - 1).push((n - 1) as usize)
    } else {
        kept_rows(keep, first, n - 1)
    }
}

/// The bins of a row.
pub open spec fn binned_row(cache: BinCache, inputs: Seq<Single>, row: int) -> Seq<u8> {
    let w = cache.edges@.len() as int;
    Seq::new(
        cache.edges@.len(),
        |f: int| (bins::bin_index(cache.edges@[f]@, inputs[row * w + f]) % 256) as u8,
    )
}

/// The bins of the rows, one row after the other.
pub open spec fn binned_rows(cache: BinCache, inputs: Seq<Single>, rows: Seq<usize>) -> Seq<u8>
    decreases rows.len(),
{
    if rows.len() == 0 {
        Seq::empty()
    } else {
        binned_rows(cache, inputs, rows.drop_last()) + binned_row(
            cache,
            inputs,
            rows.last() as int,
        )
    }
}

/// A weight other than one.
pub open spec fn has_odd_weight(weights: Seq<Single>) -> bool {
    exists|i: int| 0 <= i < weights.len() && (#[trigger] weights[i]).bits != SINGLE_ONE
}

/// The kept rows of a chunk, quantised.
#[derive(Debug)]
pub struct QuantisedChunk {
    /// The rows; weights are left out when they are all one.
    pub chunk: BinnedChunk,
    /// Global indices of the rows.
    pub indices: Vec<u64>,
}

proof fn cell_is_inside(records: int, w: int, row: int, f: int)
    by (nonlinear_arith)
    requires
        0 <= row < records,
        0 <= f < w,
    ensures
        0 <= row * w,
        0 <= row * w + f < records * w,
{
}

/// Quantise the kept rows of a chunk.
pub fn quantise_chunk(
    cache: &BinCache,
    chunk: &Chunk,
    keep: &Vec<Option<Single>>,
    column: &Vec<Single>,
) -> (r: QuantisedChunk)
    requires
        cache.well_formed(),
        chunk.inputs@.len() == chunk.records * cache.edges@.len(),
        chunk.first_index + chunk.records <= keep@.len(),
        keep@.len() == column@.len(),
    ensures
        r.chunk.features == cache.edges@.len(),
        r.chunk.first_index == chunk.first_index,
        ({
            let rows = kept_rows(keep@, chunk.first_index as int, chunk.records as int);
            let first = chunk.first_index as int;
            let weights = rows.map_values(|k: usize| keep@[first + k]->0);
            &&& r.chunk.records == rows.len()
            &&& r.chunk.bins@ == binned_rows(*cache, chunk.inputs@, rows)
            &&& r.chunk.residual@ == rows.map_values(|k: usize| column@[first + k])
            &&& match r.chunk.weight {
                Some(w) => has_odd_weight(weights) && w@ == weights,
                None => !has_odd_weight(weights),
            }
            &&& r.indices@ == rows.map_values(|k: usize| (first + k) as u64)
        }),
        r.chunk.well_formed(),
{
    let width: usize = cache.edges.len();
    let ghost w = width as int;
    let ghost first = chunk.first_index as int;
    let mut out_bins: Vec<u8> = Vec::new();
    let mut residual: Vec<Single> = Vec::new();
    let mut weights: Vec<Single> = Vec::new();
    let mut indices: Vec<u64> = Vec::new();
    let mut odd = false;
    let mut records: usize = 0;
    let total: usize = keep.len();
    for r in 0..chunk.records
        invariant
            cache.well_formed(),
            width == cache.edges@.len(),
            w == width,
            first == chunk.first_index,
            total == keep@.len(),
            chunk.inputs@.len() == chunk.records * w,
            chunk.first_index + chunk.records <= keep@.len(),
            keep@.len() == column@.len(),
            records <= r,
            ({
                let rows = kept_rows(keep@, first, r as int);
                let ws = rows.map_values(|k: usize| keep@[first + k]->0);
                &&& records == rows.len()
                &&& out_bins@ == binned_rows(*cache, chunk.inputs@, rows)
                &&& out_bins@.len() == records * w
                &&& residual@ == rows.map_values(|k: usize| column@[first + k])
                &&& weights@ == ws
                &&& odd == has_odd_weight(ws)
                &&& indices@ == rows.map_values(|k: usize| (first + k) as u64)
            }),
    {
        let idx: usize = chunk.first_index as usize + r;
        let ghost rows = kept_rows(keep@, first, r as int);
        if let Some(weight) = keep[idx] {
            let ghost before = out_bins@;
            let ghost row = binned_row(*cache, chunk.inputs@, r as int);
            let inputs_len: usize = chunk.inputs.len();
            for f in 0..width
                invariant
                    cache.well_formed(),
                    width == cache.edges@.len(),
                    w == width,
                    r < chunk.records,
                    inputs_len == chunk.inputs@.len(),
                    chunk.inputs@.len() == chunk.records * w,
                    row == binned_row(*cache, chunk.inputs@, r as int),
                    out_bins@ == before + row.take(f as int),
            {
                proof {
                    cell_is_inside(chunk.records as int, w, r as int, f as int);
                }
                let b: u8 = cache.bin(f, chunk.inputs[r * width + f]);
                out_bins.push(b);
                assert(row[f as int] == b);
                assert(out_bins@ =~= before + row.take(f as int + 1));
            }
            assert(row.take(w) =~= row);
            residual.push(column[idx]);
            let ghost ws = weights@;
            weights.push(weight);
            let is_odd = weight.bits != SINGLE_ONE;
            indices.push(idx as u64);
            records = records + 1;
            proof {
                let now = kept_rows(keep@, first, r as int + 1);
                assert(now == rows.push(r));
                assert(now.drop_last() =~= rows);
                assert(residual@ =~= now.map_values(|k: usize| column@[first + k]));
                assert(weights@ =~= now.map_values(|k: usize| keep@[first + k]->0));
                assert(indices@ =~= now.map_values(|k: usize| (first + k) as u64));
                assert(records * w == (records - 1) * w + w) by (nonlinear_arith);
                if odd {
                    let i = choose|i: int|
                        0 <= i < ws.len() && (#[trigger] ws[i]).bits != SINGLE_ONE;
                    assert(weights@[i] == ws[i]);
                }
                if is_odd {
                    assert(weights@[ws.len() as int].bits != SINGLE_ONE);
                }
                if has_odd_weight(weights@) && !is_odd {
                    let i = choose|i: int|
                        0 <= i < weights@.len() && (#[trigger] weights@[i]).bits != SINGLE_ONE;
                    assert(ws[i] == weights@[i]);
                }
            }
            odd = odd || is_odd;
        }
    }
    let weight = if odd {
        Some(weights)
    } else {
        None
    };
    QuantisedChunk {
        chunk: BinnedChunk {
            records,
            features: width,
            bins: out_bins,
            residual,
            weight,
            first_index: chunk.first_index,
        },
        indices,
    }
}

/// Label of a search set.
pub open spec fn set_label(search_records: u64, kept: nat, record_count: u64) -> Seq<char> {
    if search_records == 0 || kept >= record_count {
        "memory-full"@
    } else {
        "memory-sample/"@ + text::decimal(kept)
    }
}

/// Assemble a search set over all features from its quantised chunks. Chunks
/// without rows are left out.
pub fn assemble_set(
    parts: Vec<QuantisedChunk>,
    features: usize,
    search_records: u64,
    record_count: u64,
    output: usize,
    row_sampling: RowSampling,
    feature_selection: FeatureSelection,
    notes: Vec<String>,
) -> (r: SearchSet)
    requires
        forall|i: int|
            0 <= i < parts@.len() ==> (#[trigger] parts@[i]).chunk.well_formed()
                && parts@[i].chunk.features == features,
    ensures
        r.source.chunks@ == parts@.map_values(|q: QuantisedChunk| q.chunk).filter(
            |c: BinnedChunk| c.records > 0,
        ),
        r.record_indices@ == all_indices(parts@, parts@.len() as int),
        r.source.label@ == set_label(
            search_records,
            all_indices(parts@, parts@.len() as int).len(),
            record_count,
        ),
        r.feature_map@ == Seq::new(features as nat, |i: int| i as usize),
        r.row_sampling == row_sampling,
        r.feature_selection == feature_selection,
        r.output == output,
        r.notes == notes,
        r.well_formed(),
{
    let ghost has_rows = |c: BinnedChunk| c.records > 0;
    let ghost all = parts@.map_values(|q: QuantisedChunk| q.chunk);
    let mut chunks: Vec<BinnedChunk> = Vec::new();
    let mut indices: Vec<u64> = Vec::new();
    let ghost given = parts@;
    for part in it: parts
        invariant
            it.seq() == given,
            has_rows == (|c: BinnedChunk| c.records > 0),
            all == given.map_values(|q: QuantisedChunk| q.chunk),
            forall|i: int|
                0 <= i < given.len() ==> (#[trigger] given[i]).chunk.well_formed()
                    && given[i].chunk.features == features,
            chunks@ == all.take(it.index() as int).filter(has_rows),
            chunks_shaped(chunks@, features as int),
            indices@ == all_indices(given, it.index() as int),
    {
        let ghost i = it.index() as int;
        assert(part == given[i]);
        proof {
            reveal(Seq::filter);
            assert(all.take(i + 1).drop_last() =~= all.take(i));
            assert(all[i] == part.chunk);
        }
        let QuantisedChunk { chunk, indices: own } = part;
        let ghost before = indices@;
        for k in 0..own.len()
            invariant
                indices@ == before + own@.take(k as int),
        {
            indices.push(own[k]);
            assert(indices@ =~= before + own@.take(k as int + 1));
        }
        assert(own@.take(own@.len() as int) =~= own@);
        if chunk.records > 0 {
            chunks.push(chunk);
        }
    }
    assert(all.take(all.len() as int) =~= all);
    let kept: u64 = indices.len() as u64;
    let label = if search_records == 0 || kept >= record_count {
        "memory-full".to_owned()
    } else {
        let mut text = "memory-sample/".to_owned();
        text.append(decimal_text(kept).as_str());
        text
    };
    let mut feature_map: Vec<usize> = Vec::new();
    for f in 0..features
        invariant
            feature_map@ == Seq::new(f as nat, |i: int| i as usize),
    {
        feature_map.push(f);
        assert(feature_map@ =~= Seq::new((f + 1) as nat, |i: int| i as usize));
    }
    SearchSet {
        source: MemorySource { chunks, label },
        feature_map,
        record_indices: indices,
        row_sampling,
        feature_selection,
        output,
        notes,
    }
}

/// The indices of the rows of the first `n` chunks.
pub open spec fn all_indices(parts: Seq<QuantisedChunk>, n: int) -> Seq<u64>
    decreases n,
{
    if n <= 0 {
        Seq::empty()
    } else {
        all_indices(parts, n - 1) + parts[n - 1].indices@
    }
}

// ---------------------------------------------------------------------------
// Which features.
// ---------------------------------------------------------------------------

/// Features to keep: as many as wanted, at least one, at most all.
pub fn feature_quota(wanted: usize, all: usize) -> (r: usize)
    requires
        all >= 1,
    ensures
        r == math::clamped(wanted as int, 1, all as int),
{
    clamp_size(wanted, 1, all)
}

/// The first `n` steps of a shuffle of `0..all`: step `i` swaps place `i` with
/// the one `picks[i]` places further on.
pub open spec fn shuffled(all: int, picks: Seq<usize>, n: int) -> Seq<usize>
    decreases n,
{
    if n <= 0 {
        Seq::new(all as nat, |i: int| i as usize)
    } else {
        let before = shuffled(all, picks, n - 1);
        let i = n - 1;
        let j = i + picks[i];
        before.update(i, before[j]).update(j, before[i])
    }
}

/// The picks stay within what is left to shuffle.
pub open spec fn can_shuffle(all: int, picks: Seq<usize>) -> bool {
    &&& picks.len() <= all
    &&& forall|i: int| 0 <= i < picks.len() ==> (#[trigger] picks[i]) < all - i
}

/// The features that a shuffle puts first, ascending.
pub fn shuffled_features(all: usize, picks: &Vec<usize>) -> (r: Vec<usize>)
    requires
        can_shuffle(all as int, picks@),
    ensures
        patch::ascending(r@),
        forall|f: usize|
            #![trigger r@.contains(f)]
            r@.contains(f) <==> shuffled(all as int, picks@, picks@.len() as int).take(
                picks@.len() as int,
            ).contains(f),
        forall|k: int| 0 <= k < r@.len() ==> #[trigger] r@[k] < all,
{
    let mut idx: Vec<usize> = Vec::new();
    for i in 0..all
        invariant
            idx@ == Seq::new(i as nat, |k: int| k as usize),
    {
        idx.push(i);
        assert(idx@ =~= Seq::new((i + 1) as nat, |k: int| k as usize));
    }
    for i in 0..picks.len()
        invariant
            can_shuffle(all as int, picks@),
            idx@.len() == all,
            idx@ == shuffled(all as int, picks@, i as int),
            forall|k: int| 0 <= k < idx@.len() ==> #[trigger] idx@[k] < all,
    {
        let j: usize = i + picks[i];
        let a: usize = idx[i];
        let b: usize = idx[j];
        idx.set(i, b);
        idx.set(j, a);
    }
    let ghost head = idx@.take(picks@.len() as int);
    let mut out: Vec<usize> = Vec::new();
    for i in 0..picks.len()
        invariant
            picks@.len() <= idx@.len(),
            head == idx@.take(picks@.len() as int),
            forall|k: int| 0 <= k < idx@.len() ==> #[trigger] idx@[k] < all,
            patch::ascending(out@),
            forall|f: usize|
                #![trigger out@.contains(f)]
                out@.contains(f) <==> head.take(i as int).contains(f),
    {
        let ghost before = out@;
        insert_feature(&mut out, idx[i]);
        proof {
            assert(head.take(i as int + 1) =~= head.take(i as int).push(idx@[i as int]));
            assert forall|f: usize|
                #![trigger out@.contains(f)]
                out@.contains(f) <==> head.take(i as int + 1).contains(f) by {
                one_more(head.take(i as int), idx@[i as int], f);
                assert(before.contains(f) <==> head.take(i as int).contains(f));
            }
        }
    }
    proof {
        assert(head.take(picks@.len() as int) =~= head);
        assert forall|k: int| 0 <= k < out@.len() implies #[trigger] out@[k] < all by {
            assert(out@.contains(out@[k]));
            let m = choose|m: int| 0 <= m < head.len() && head[m] == out@[k];
            assert(idx@[m] == out@[k]);
        }
    }
    out
}

proof fn one_more(s: Seq<usize>, y: usize, x: usize)
    ensures
        s.push(y).contains(x) <==> s.contains(x) || x == y,
{
    if s.contains(x) {
        let k = choose|k: int| 0 <= k < s.len() && s[k] == x;
        assert(s.push(y)[k] == x);
    }
    assert(s.push(y)[s.len() as int] == y);
    if s.push(y).contains(x) && x != y {
        let k = choose|k: int| 0 <= k < s.push(y).len() && s.push(y)[k] == x;
        assert(s[k] == x);
    }
}

/// A random choice of `keep` features, ascending.
pub fn random_features(all: usize, keep: usize, rng: &mut StdRng) -> (r: Vec<usize>)
    requires
        keep <= all,
    ensures
        patch::ascending(r@),
        exists|picks: Seq<usize>|
            {
                &&& #[trigger] can_shuffle(all as int, picks)
                &&& picks.len() == keep
                &&& forall|f: usize|
                    #![trigger r@.contains(f)]
                    r@.contains(f) <==> shuffled(all as int, picks, keep as int).take(
                        keep as int,
                    ).contains(f)
            },
        forall|k: int| 0 <= k < r@.len() ==> #[trigger] r@[k] < all,
{
    let mut picks: Vec<usize> = Vec::new();
    for i in 0..keep
        invariant
            keep <= all,
            picks@.len() == i,
            forall|k: int| 0 <= k < i ==> (#[trigger] picks@[k]) < all - k,
    {
        picks.push(pick_below(rng, all - i));
    }
    assert(can_shuffle(all as int, picks@));
    shuffled_features(all, &picks)
}

/// A shuffle keeps every feature exactly once, so what it puts first are
/// distinct features.
pub proof fn shuffling_repeats_nothing(all: int, picks: Seq<usize>, n: int)
    requires
        can_shuffle(all, picks),
        0 <= n <= picks.len(),
        all <= usize::MAX,
    ensures
        shuffled(all, picks, n).len() == all,
        shuffled(all, picks, n).no_duplicates(),
    decreases n,
{
    if n > 0 {
        shuffling_repeats_nothing(all, picks, n - 1);
        let before = shuffled(all, picks, n - 1);
        let now = shuffled(all, picks, n);
        let i = n - 1;
        let j = i + picks[i];
        assert forall|a: int, b: int| 0 <= a < b < now.len() implies now[a] != now[b] by {
            let x = if a == j {
                i
            } else if a == i {
                j
            } else {
                a
            };
            let y = if b == j {
                i
            } else if b == i {
                j
            } else {
                b
            };
            assert(now[a] == before[x] && now[b] == before[y]);
            assert(x != y);
        }
    }
}

/// A feature and how much of the residual it explains.
#[derive(Debug)]
pub struct ScoredFeature {
    /// Explained variance.
    pub score: Double,
    /// Feature.
    pub feature: usize,
}

impl Ranked for ScoredFeature {
    /// Larger score first, then the earlier feature.
    open spec fn ahead(&self, other: &ScoredFeature) -> bool {
        if self.score.order() != other.score.order() {
            self.score.order() > other.score.order()
        } else {
            self.feature < other.feature
        }
    }

    proof fn ahead_is_asymmetric(a: ScoredFeature, b: ScoredFeature) {
    }

    proof fn not_ahead_is_transitive(a: ScoredFeature, b: ScoredFeature, c: ScoredFeature) {
    }

    fn is_ahead(&self, other: &ScoredFeature) -> (r: bool) {
        let a: i64 = self.score.rank();
        let b: i64 = other.score.rank();
        if a != b {
            a > b
        } else {
            self.feature < other.feature
        }
    }
}

/// The features with their scores.
pub open spec fn scored_features(scores: Seq<Double>) -> Seq<ScoredFeature> {
    Seq::new(scores.len(), |i: int| ScoredFeature { score: scores[i], feature: i as usize })
}

/// The features, best score first.
pub open spec fn features_by_score(scores: Seq<Double>) -> Seq<usize> {
    ranking::sorted(scored_features(scores)).map_values(|x: ScoredFeature| x.feature)
}

/// The `keep` features with the best scores, ascending.
pub fn ranked_features(scores: &Vec<Double>, keep: usize) -> (r: Vec<usize>)
    requires
        keep <= scores@.len(),
    ensures
        patch::ascending(r@),
        forall|f: usize|
            #![trigger r@.contains(f)]
            r@.contains(f) <==> features_by_score(scores@).take(keep as int).contains(f),
        forall|k: int| 0 <= k < r@.len() ==> #[trigger] r@[k] < scores@.len(),
{
    let n: usize = scores.len();
    let mut items: Vec<ScoredFeature> = Vec::new();
    for i in 0..n
        invariant
            n == scores@.len(),
            items@ == scored_features(scores@).take(i as int),
    {
        items.push(ScoredFeature { score: scores[i], feature: i });
        assert(items@ =~= scored_features(scores@).take(i as int + 1));
    }
    assert(items@ =~= scored_features(scores@));
    let order = ranking::ranking(&items);
    let ghost head = features_by_score(scores@).take(keep as int);
    let mut out: Vec<usize> = Vec::new();
    for i in 0..keep
        invariant
            n == scores@.len(),
            keep <= n,
            items@ == scored_features(scores@),
            ranking::is_ranking(items@, order@),
            order@ == ranking::the_ranking(items@),
            head == features_by_score(scores@).take(keep as int),
            patch::ascending(out@),
            forall|f: usize|
                #![trigger out@.contains(f)]
                out@.contains(f) <==> head.take(i as int).contains(f),
    {
        let ghost before = out@;
        let f: usize = items[order[i]].feature;
        assert(head[i as int] == f);
        insert_feature(&mut out, f);
        proof {
            assert(head.take(i as int + 1) =~= head.take(i as int).push(f));
            assert forall|x: usize|
                #![trigger out@.contains(x)]
                out@.contains(x) <==> head.take(i as int + 1).contains(x) by {
                one_more(head.take(i as int), f, x);
                assert(before.contains(x) <==> head.take(i as int).contains(x));
            }
        }
    }
    proof {
        assert(head.take(keep as int) =~= head);
        assert forall|k: int| 0 <= k < out@.len() implies #[trigger] out@[k] < scores@.len() by {
            assert(out@.contains(out@[k]));
            let m = choose|m: int| 0 <= m < head.len() && head[m] == out@[k];
            assert(items@[order@[m] as int].feature == out@[k]);
        }
    }
    out
}

/// Note on how the features were selected; there is none when all are kept.
pub open spec fn selection_note(selection: FeatureSelection, keep: nat, all: nat) -> Option<
    Seq<char>,
> {
    match selection {
        FeatureSelection::All => None,
        FeatureSelection::Random => Some(
            "feature-selection=random "@ + text::decimal(keep) + "/"@ + text::decimal(all),
        ),
        FeatureSelection::ErrorRanked => Some(
            "feature-selection=error-ranked "@ + text::decimal(keep) + "/"@ + text::decimal(all),
        ),
    }
}

/// Note on how the features were selected.
pub fn feature_note(selection: FeatureSelection, keep: usize, all: usize) -> (r: Option<String>)
    ensures
        match r {
            Some(note) => selection_note(selection, keep as nat, all as nat) == Some(note@),
            None => selection_note(selection, keep as nat, all as nat) is None,
        },
{
    let mut note = match selection {
        FeatureSelection::All => {
            return None;
        },
        FeatureSelection::Random => "feature-selection=random ".to_owned(),
        FeatureSelection::ErrorRanked => "feature-selection=error-ranked ".to_owned(),
    };
    note.append(decimal_text(keep as u64).as_str());
    note.append("/");
    note.append(decimal_text(all as u64).as_str());
    Some(note)
}

/// A row cut down to the selected features.
pub open spec fn projected_row(row: Seq<u8>, selected: Seq<usize>) -> Seq<u8> {
    selected.map_values(|f: usize| row[f as int])
}

/// The first `n` rows of a chunk cut down to the selected features.
pub open spec fn projected_rows(c: BinnedChunk, selected: Seq<usize>, n: int) -> Seq<u8>
    decreases n,
{
    if n <= 0 {
        Seq::empty()
    } else {
        projected_rows(c, selected, n - 1) + projected_row(c.row(n - 1), selected)
    }
}

/// The chunk cut down to the selected features.
pub open spec fn is_projection(before: BinnedChunk, after: BinnedChunk, selected: Seq<usize>) -> bool {
    &&& after.records == before.records
    &&& after.features == selected.len()
    &&& after.bins@ == projected_rows(before, selected, before.records as int)
    &&& after.residual == before.residual
    &&& after.weight == before.weight
    &&& after.first_index == before.first_index
}

fn project_chunk(chunk: &mut BinnedChunk, selected: &Vec<usize>)
    requires
        old(chunk).well_formed(),
        forall|k: int|
            0 <= k < selected@.len() ==> (#[trigger] selected@[k]) < old(chunk).features,
    ensures
        is_projection(*old(chunk), *final(chunk), selected@),
        final(chunk).well_formed(),
{
    let width: usize = chunk.features;
    let ghost was = *chunk;
    let ghost w = width as int;
    let ghost sel = selected@.len() as int;
    let cells: usize = chunk.bins.len();
    let mut out: Vec<u8> = Vec::new();
    for r in 0..chunk.records
        invariant
            *chunk == was,
            was.well_formed(),
            width == was.features,
            w == width,
            cells == was.bins@.len(),
            sel == selected@.len(),
            forall|k: int| 0 <= k < selected@.len() ==> (#[trigger] selected@[k]) < width,
            out@ == projected_rows(was, selected@, r as int),
            out@.len() == r * sel,
    {
        let ghost before = out@;
        let ghost row = was.row(r as int);
        let ghost cut = projected_row(row, selected@);
        for k in 0..selected.len()
            invariant
                *chunk == was,
                was.well_formed(),
                width == was.features,
                w == width,
                cells == was.bins@.len(),
                r < was.records,
                row == was.row(r as int),
                cut == projected_row(row, selected@),
                forall|k: int| 0 <= k < selected@.len() ==> (#[trigger] selected@[k]) < width,
                out@ == before + cut.take(k as int),
        {
            let f: usize = selected[k];
            proof {
                cell_is_inside(was.records as int, w, r as int, f as int);
                assert((r + 1) * w == r * w + w) by (nonlinear_arith);
            }
            let b: u8 = chunk.bins[r * width + f];
            out.push(b);
            proof {
                assert(was.bins@.len() == was.records * w);
                assert((r + 1) * w <= was.records * w) by (nonlinear_arith)
                    requires
                        r + 1 <= was.records,
                        0 <= w,
                ;
                assert(row[f as int] == was.bins@[r * w + f]);
                assert(cut[k as int] == b);
                assert(out@ =~= before + cut.take(k as int + 1));
            }
        }
        proof {
            assert(cut.take(sel) =~= cut);
            assert((r + 1) * sel == r * sel + sel) by (nonlinear_arith);
        }
    }
    chunk.bins = out;
    chunk.features = selected.len();
}

/// Keep only the selected features, given as places in the current set.
pub fn project_features(set: &mut SearchSet, selected: &Vec<usize>)
    requires
        old(set).well_formed(),
        forall|k: int|
            0 <= k < selected@.len() ==> (#[trigger] selected@[k]) < old(set).feature_map@.len(),
    ensures
        final(set).well_formed(),
        final(set).feature_map@ == selected@.map_values(
            |f: usize| old(set).feature_map@[f as int],
        ),
        final(set).source.chunks@.len() == old(set).source.chunks@.len(),
        forall|i: int|
            0 <= i < old(set).source.chunks@.len() ==> is_projection(
                old(set).source.chunks@[i],
                #[trigger] final(set).source.chunks@[i],
                selected@,
            ),
        *final(set) == (SearchSet {
            source: final(set).source,
            feature_map: final(set).feature_map,
            ..*old(set)
        }),
        final(set).source.label == old(set).source.label,
{
    let ghost start = set.source.chunks@;
    let ghost was = *set;
    let ghost width = set.feature_map@.len();
    let mut i: usize = 0;
    while i < set.source.chunks.len()
        invariant
            was.well_formed(),
            start == was.source.chunks@,
            width == was.feature_map@.len(),
            set.feature_map == was.feature_map,
            *set == (SearchSet { source: set.source, ..was }),
            set.source.label == was.source.label,
            set.source.chunks@.len() == start.len(),
            i <= start.len(),
            forall|k: int| 0 <= k < selected@.len() ==> (#[trigger] selected@[k]) < width,
            forall|k: int|
                0 <= k < i ==> is_projection(
                    start[k],
                    #[trigger] set.source.chunks@[k],
                    selected@,
                ) && set.source.chunks@[k].well_formed(),
            forall|k: int| i <= k < start.len() ==> #[trigger] set.source.chunks@[k] == start[k],
        decreases start.len() - i,
    {
        assert(set.source.chunks@[i as int] == start[i as int]);
        project_chunk(&mut set.source.chunks[i], selected);
        i = i + 1;
    }
    let mut map: Vec<usize> = Vec::new();
    for k in 0..selected.len()
        invariant
            set.feature_map == was.feature_map,
            width == was.feature_map@.len(),
            forall|k: int| 0 <= k < selected@.len() ==> (#[trigger] selected@[k]) < width,
            map@.len() == k,
            forall|j: int|
                0 <= j < k ==> #[trigger] map@[j] == was.feature_map@[selected@[j] as int],
    {
        map.push(set.feature_map[selected[k]]);
    }
    assert(map@ =~= selected@.map_values(|f: usize| was.feature_map@[f as int]));
    set.feature_map = map;
}

// ---------------------------------------------------------------------------
// Raw values of the set's records.
// ---------------------------------------------------------------------------

/// Raw values of some features over the set's records, for oblique search,
/// which cannot work on bins.
#[derive(Debug)]
pub struct RawSample {
    /// Original features, one per column.
    pub features: Vec<usize>,
    /// Values, row by row.
    pub values: Vec<Single>,
    /// Correction-space residual per record.
    pub residual: Vec<Single>,
    /// Importance weight per record.
    pub weight: Vec<Single>,
}

impl RawSample {
    /// Records.
    pub fn records(&self) -> (r: usize)
        ensures
            r == self.residual@.len(),
    {
        self.residual.len()
    }
}

/// Residuals of the first `n` chunks, in order.
pub open spec fn flat_residuals(chunks: Seq<BinnedChunk>, n: int) -> Seq<Single>
    decreases n,
{
    if n <= 0 {
        Seq::empty()
    } else {
        flat_residuals(chunks, n - 1) + chunks[n - 1].residual@
    }
}

/// The weights of a chunk: one each when it has none.
pub open spec fn chunk_weights(c: BinnedChunk) -> Seq<Single> {
    match c.weight {
        Some(w) => w@,
        None => Seq::new(c.records as nat, |i: int| Single { bits: SINGLE_ONE }),
    }
}

/// Weights of the first `n` chunks, in order.
pub open spec fn flat_weights(chunks: Seq<BinnedChunk>, n: int) -> Seq<Single>
    decreases n,
{
    if n <= 0 {
        Seq::empty()
    } else {
        flat_weights(chunks, n - 1) + chunk_weights(chunks[n - 1])
    }
}

/// Reads the raw values of the set's records off the corpus, chunk by chunk.
#[derive(Debug)]
pub struct RawReader {
    /// Inputs per record.
    pub width: usize,
    /// Features read.
    pub features: Vec<usize>,
    /// Records of the set, ascending.
    pub indices: Vec<u64>,
    /// Residual of each record of the set.
    pub residual: Vec<Single>,
    /// Weight of each record of the set.
    pub weight: Vec<Single>,
    /// Records read so far.
    pub next: usize,
    /// Values read so far, row by row.
    pub values: Vec<Single>,
}

/// What is said when the set has fewer residuals than records.
pub const RECORD_MISMATCH: &'static str = "search set / corpus record mismatch";

/// The values of a record's row at the features.
pub open spec fn row_values(
    inputs: Seq<Single>,
    width: int,
    row: int,
    features: Seq<usize>,
) -> Seq<Single> {
    features.map_values(|f: usize| inputs[row * width + f])
}

/// How many of the indices from `from` on lie below `end`.
pub open spec fn due(indices: Seq<u64>, from: int, end: int) -> int
    decreases indices.len() - from,
{
    if from < 0 || from >= indices.len() || indices[from] >= end {
        0
    } else {
        1 + due(indices, from + 1, end)
    }
}

/// The values of the first `n` records from `from` on, read off a chunk.
pub open spec fn chunk_values(
    c: Chunk,
    width: int,
    features: Seq<usize>,
    indices: Seq<u64>,
    from: int,
    n: int,
) -> Seq<Single>
    decreases n,
{
    if n <= 0 {
        Seq::empty()
    } else {
        chunk_values(c, width, features, indices, from, n - 1) + row_values(
            c.inputs@,
            width,
            indices[from + n - 1] - c.first_index,
            features,
        )
    }
}

impl RawReader {
    /// The features are inputs, there are as many weights as residuals, and the
    /// records come in order.
    pub open spec fn well_formed(&self) -> bool {
        &&& forall|k: int|
            0 <= k < self.features@.len() ==> (#[trigger] self.features@[k]) < self.width
        &&& self.residual@.len() == self.weight@.len()
        &&& self.next <= self.indices@.len()
        &&& forall|a: int, b: int|
            0 <= a < b < self.indices@.len() ==> self.indices@[a] < self.indices@[b]
    }

    /// Start reading the given features for the records of a set.
    pub fn new(set: &SearchSet, features: &Vec<usize>, width: usize) -> (r: RawReader)
        requires
            set.well_formed(),
            forall|k: int| 0 <= k < features@.len() ==> (#[trigger] features@[k]) < width,
            forall|a: int, b: int|
                0 <= a < b < set.record_indices@.len() ==> set.record_indices@[a]
                    < set.record_indices@[b],
        ensures
            r.well_formed(),
            r.width == width,
            r.features@ == features@,
            r.indices@ == set.record_indices@,
            r.residual@ == flat_residuals(
                set.source.chunks@,
                set.source.chunks@.len() as int,
            ),
            r.weight@ == flat_weights(set.source.chunks@, set.source.chunks@.len() as int),
            r.next == 0,
            r.values@.len() == 0,
    {
        let ghost chunks = set.source.chunks@;
        let mut residual: Vec<Single> = Vec::new();
        let mut weight: Vec<Single> = Vec::new();
        for i in 0..set.source.chunks.len()
            invariant
                chunks == set.source.chunks@,
                chunks_shaped(chunks, set.feature_map@.len() as int),
                residual@ == flat_residuals(chunks, i as int),
                weight@ == flat_weights(chunks, i as int),
                residual@.len() == weight@.len(),
        {
            let c = &set.source.chunks[i];
            let ghost r0 = residual@;
            let ghost w0 = weight@;
            assert(chunks[i as int] == *c);
            for k in 0..c.residual.len()
                invariant
                    c.well_formed(),
                    residual@ == r0 + c.residual@.take(k as int),
                    weight@ == w0 + chunk_weights(*c).take(k as int),
            {
                residual.push(c.residual[k]);
                let w: Single = match &c.weight {
                    Some(w) => w[k],
                    None => Single::one(),
                };
                weight.push(w);
                assert(residual@ =~= r0 + c.residual@.take(k as int + 1));
                assert(chunk_weights(*c)[k as int] == w);
                assert(weight@ =~= w0 + chunk_weights(*c).take(k as int + 1));
            }
            assert(c.residual@.take(c.residual@.len() as int) =~= c.residual@);
            assert(chunk_weights(*c).take(c.residual@.len() as int) =~= chunk_weights(*c));
        }
        let mut own: Vec<usize> = Vec::new();
        for k in 0..features.len()
            invariant
                own@ == features@.take(k as int),
        {
            own.push(features[k]);
            assert(own@ =~= features@.take(k as int + 1));
        }
        assert(own@ =~= features@);
        let mut indices: Vec<u64> = Vec::new();
        for k in 0..set.record_indices.len()
            invariant
                indices@ == set.record_indices@.take(k as int),
        {
            indices.push(set.record_indices[k]);
            assert(indices@ =~= set.record_indices@.take(k as int + 1));
        }
        assert(indices@ =~= set.record_indices@);
        RawReader {
            width,
            features: own,
            indices,
            residual,
            weight,
            next: 0,
            values: Vec::new(),
        }
    }

    /// Read the records that a chunk holds. Chunks come in order.
    pub fn read_chunk(&mut self, chunk: &Chunk) -> (r: Result<(), String>)
        requires
            old(self).well_formed(),
            chunk.inputs@.len() == chunk.records * old(self).width,
            chunk.first_index + chunk.records <= u64::MAX,
            old(self).next < old(self).indices@.len() ==> old(self).indices@[old(self).next as int]
                >= chunk.first_index,
        ensures
            final(self).well_formed(),
            ({
                let n = due(
                    old(self).indices@,
                    old(self).next as int,
                    chunk.first_index + chunk.records,
                );
                match r {
                    Ok(()) => {
                        &&& n == 0 || old(self).next + n <= old(self).residual@.len()
                        &&& final(self).next == old(self).next + n
                        &&& final(self).values@ == old(self).values@ + chunk_values(
                            *chunk,
                            old(self).width as int,
                            old(self).features@,
                            old(self).indices@,
                            old(self).next as int,
                            n,
                        )
                    },
                    Err(m) => n > 0 && old(self).next + n > old(self).residual@.len() && m@
                        == RECORD_MISMATCH@,
                }
            }),
            *final(self) == (RawReader {
                next: final(self).next,
                values: final(self).values,
                ..*old(self)
            }),
    {
        let ghost was = *self;
        let ghost from = self.next as int;
        let ghost w = self.width as int;
        let end: u64 = chunk.first_index + chunk.records as u64;
        let cells: usize = chunk.inputs.len();
        let ghost total = due(was.indices@, from, end as int);
        let ghost mut n: int = 0;
        while self.next < self.indices.len() && self.indices[self.next] < end
            invariant
                was == *old(self),
                was.well_formed(),
                self.well_formed(),
                *self == (RawReader { next: self.next, values: self.values, ..was }),
                from == was.next,
                w == was.width,
                end == chunk.first_index + chunk.records,
                cells == chunk.inputs@.len(),
                chunk.inputs@.len() == chunk.records * was.width,
                was.next < was.indices@.len() ==> was.indices@[was.next as int]
                    >= chunk.first_index,
                0 <= n,
                self.next == from + n,
                n == 0 || from + n <= was.residual@.len(),
                total == due(was.indices@, from, end as int),
                total == n + due(was.indices@, from + n, end as int),
                self.values@ == was.values@ + chunk_values(
                    *chunk,
                    w,
                    was.features@,
                    was.indices@,
                    from,
                    n,
                ),
            decreases self.indices@.len() - self.next,
        {
            let idx: u64 = self.indices[self.next];
            proof {
                if n > 0 {
                    assert(was.indices@[from] < was.indices@[from + n]);
                }
                due_is_not_negative(was.indices@, from + n + 1, end as int);
            }
            if self.next >= self.residual.len() {
                return Err(RECORD_MISMATCH.to_owned());
            }
            let row: usize = (idx - chunk.first_index) as usize;
            let ghost before = self.values@;
            let ghost cut = row_values(chunk.inputs@, w, row as int, was.features@);
            let columns: usize = self.features.len();
            for k in 0..columns
                invariant
                    columns == was.features@.len(),
                    was.well_formed(),
                    *self == (RawReader { next: self.next, values: self.values, ..was }),
                    self.next == from + n,
                    w == was.width,
                    row < chunk.records,
                    cells == chunk.inputs@.len(),
                    chunk.inputs@.len() == chunk.records * was.width,
                    cut == row_values(chunk.inputs@, w, row as int, was.features@),
                    self.values@ == before + cut.take(k as int),
            {
                let f: usize = self.features[k];
                proof {
                    cell_is_inside(chunk.records as int, w, row as int, f as int);
                }
                self.values.push(chunk.inputs[row * self.width + f]);
                assert(self.values@ =~= before + cut.take(k as int + 1));
            }
            proof {
                assert(cut.take(was.features@.len() as int) =~= cut);
                n = n + 1;
                assert(self.values@ =~= was.values@ + chunk_values(
                    *chunk,
                    w,
                    was.features@,
                    was.indices@,
                    from,
                    n,
                ));
            }
            self.next = self.next + 1;
        }
        Ok(())
    }

    /// The sample, once every chunk was read.
    pub fn finish(self) -> (r: RawSample)
        requires
            self.next <= self.residual@.len(),
            self.well_formed(),
        ensures
            r.features == self.features,
            r.values == self.values,
            r.residual@ == self.residual@.take(self.next as int),
            r.weight@ == self.weight@.take(self.next as int),
    {
        let RawReader { features, values, mut residual, mut weight, next, .. } = self;
        residual.truncate(next);
        weight.truncate(next);
        assert(residual@ =~= self.residual@.take(next as int));
        assert(weight@ =~= self.weight@.take(next as int));
        RawSample { features, values, residual, weight }
    }
}

proof fn due_is_not_negative(indices: Seq<u64>, from: int, end: int)
    ensures
        due(indices, from, end) >= 0,
    decreases indices.len() - from,
{
    if 0 <= from < indices.len() && indices[from] < end {
        due_is_not_negative(indices, from + 1, end);
    }
}

// ---------------------------------------------------------------------------
// Which rows, which features, and where they land.
// ---------------------------------------------------------------------------

/// A stride sample takes no more rows than aimed at, and a shorter stride would
/// take more.
pub proof fn strides_keep_to_the_aim(n: int, target: int)
    requires
        0 < n,
        0 < target,
    ensures
        ({
            let s = stride_of(n, target);
            &&& 1 <= s
            &&& math::ceil_div(n, s) <= target
            &&& s > 1 ==> math::ceil_div(n, s - 1) > target
        }),
{
    let s = stride_of(n, target);
    math::ceil_div_by_remainder(n, target);
    assert(s == math::ceil_div(n, target));
    assert(s * target >= n);
    assert((n + s - 1) / s <= target) by (nonlinear_arith)
        requires
            s * target >= n,
            s >= 1,
            n > 0,
            target > 0,
    ;
    if s > 1 {
        let t = s - 1;
        assert(t * target < n) by (nonlinear_arith)
            requires
                t == (n + target - 1) / target - 1,
                target > 0,
        ;
        assert((n + t - 1) / t > target) by (nonlinear_arith)
            requires
                t * target < n,
                t >= 1,
                target > 0,
        ;
    }
}

/// A sample aims at all rows or at as many as asked for.
pub proof fn samples_aim_at_what_is_asked(search_records: int, n: int)
    requires
        0 <= search_records,
        0 <= n,
    ensures
        aimed(search_records, n) <= n,
        search_records > 0 ==> aimed(search_records, n) <= search_records,
        0 < search_records <= n ==> aimed(search_records, n) == search_records,
        search_records == 0 || search_records > n ==> aimed(search_records, n) == n,
{
}

/// A unit draw is one of `2^53`, and larger words stand for no smaller draws.
pub proof fn unit_draws_are_even(a: u64, b: u64)
    requires
        a <= b,
    ensures
        0 <= unit_draw(a) <= unit_draw(b) < 0x20_0000_0000_0000,
        2048 * unit_draw(a) <= a < 2048 * (unit_draw(a) + 1),
{
}

/// A row that one trial is about is kept, with that trial's weight, exactly when
/// the trial's draw falls below its cut; a row without a trial is not kept.
pub proof fn rows_are_kept_by_their_own_draw(n: int, trials: Seq<Trial>, words: Seq<u64>, k: int)
    requires
        0 <= n,
        0 <= k <= trials.len(),
        trials_within(trials, n),
        forall|a: int, b: int|
            0 <= a < b < trials.len() ==> (#[trigger] trials[a]).row != (#[trigger] trials[b]).row,
    ensures
        decided(n, trials, words, k).len() == n,
        forall|t: int|
            0 <= t < k ==> decided(n, trials, words, k)[(#[trigger] trials[t]).row as int] == if (
            words[t] as int) / 2048 < trials[t].cut {
                Some(trials[t].weight)
            } else {
                None
            },
        forall|r: int|
            0 <= r < n && (forall|t: int| 0 <= t < k ==> (#[trigger] trials[t]).row != r)
                ==> #[trigger] decided(n, trials, words, k)[r] is None,
    decreases k,
{
    if k > 0 {
        rows_are_kept_by_their_own_draw(n, trials, words, k - 1);
        let before = decided(n, trials, words, k - 1);
        let after = decided(n, trials, words, k);
        let own = trials[k - 1].row as int;
        assert(before[own] is None) by {
            assert forall|t: int| 0 <= t < k - 1 implies (#[trigger] trials[t]).row != own by {
                assert(trials[t].row != trials[k - 1].row);
            }
        }
        assert forall|t: int| 0 <= t < k implies after[(#[trigger] trials[t]).row as int] == if (
        words[t] as int) / 2048 < trials[t].cut {
            Some(trials[t].weight)
        } else {
            None
        } by {
            if t < k - 1 {
                assert(trials[t].row != trials[k - 1].row);
            }
        }
        assert forall|r: int|
            0 <= r < n && (forall|t: int|
                0 <= t < k ==> (#[trigger] trials[t]).row != r) implies #[trigger] after[r] is None by {
            assert(trials[k - 1].row != r);
            assert(before[r] is None);
        }
    }
}

/// Ordering rows by size lists every row once, smaller residuals first whatever
/// their sign.
pub proof fn rows_are_listed_by_size(residual: Seq<Single>)
    requires
        residual.len() <= usize::MAX,
    ensures
        ({
            let rows = rows_by_size(residual);
            &&& rows.len() == residual.len()
            &&& rows.no_duplicates()
            &&& forall|k: int| 0 <= k < rows.len() ==> #[trigger] rows[k] < residual.len()
            &&& forall|a: int, b: int|
                0 <= a < b < rows.len() ==> residual[#[trigger] rows[a] as int].magnitude()
                    <= residual[#[trigger] rows[b] as int].magnitude()
        }),
{
    let items = sized_rows(residual);
    ranking::every_list_has_a_ranking(items);
    let order = ranking::the_ranking(items);
    ranking::sorted_is_in_order(items, order);
    let rows = rows_by_size(residual);
    assert forall|k: int| 0 <= k < rows.len() implies #[trigger] rows[k] == order[k] by {
        assert(ranking::sorted(items)[k] == items[order[k] as int]);
    }
    assert forall|a: int, b: int| 0 <= a < b < rows.len() implies residual[#[trigger] rows[a]
        as int].magnitude() <= residual[#[trigger] rows[b] as int].magnitude() by {
        assert(ranking::listed_before(items, order[a] as int, order[b] as int));
        assert(items[order[a] as int].size.bits == residual[order[a] as int].magnitude());
        assert(items[order[b] as int].size.bits == residual[order[b] as int].magnitude());
        assert(items[order[a] as int].size.order() == residual[order[a] as int].magnitude());
        assert(items[order[b] as int].size.order() == residual[order[b] as int].magnitude());
    }
    assert forall|a: int, b: int|
        0 <= a < rows.len() && 0 <= b < rows.len() && a != b implies rows[a] != rows[b] by {
        if a < b {
            assert(ranking::listed_before(items, order[a] as int, order[b] as int));
        } else {
            assert(ranking::listed_before(items, order[b] as int, order[a] as int));
        }
        SizedRow::ahead_is_asymmetric(items[order[a] as int], items[order[b] as int]);
    }
}

/// A stratified sample tries every row once; rows of one stratum share their
/// chance and weight, and no row of a lower stratum has a larger residual.
pub proof fn strata_are_by_size(residual: Seq<Single>, odds: Seq<(u64, Single)>, a: int, b: int)
    requires
        4 * residual.len() <= usize::MAX,
        odds.len() == STRATA,
        0 <= a < residual.len(),
        0 <= b < residual.len(),
    ensures
        ({
            let trials = stratified(residual, odds);
            let n = residual.len() as int;
            let (s, t) = (stratum_of(n, a), stratum_of(n, b));
            &&& trials.len() == n
            &&& a != b ==> trials[a].row != trials[b].row
            &&& trials[a].row < n
            &&& 0 <= s < STRATA
            &&& trials[a].cut == odds[s].0 && trials[a].weight == odds[s].1
            &&& s < t ==> residual[trials[a].row as int].magnitude()
                <= residual[trials[b].row as int].magnitude()
        }),
{
    rows_are_listed_by_size(residual);
    let n = residual.len() as int;
    let rows = rows_by_size(residual);
    let trials = stratified(residual, odds);
    assert(trials[a].row == rows[a]);
    assert(trials[b].row == rows[b]);
    let (s, t) = (stratum_of(n, a), stratum_of(n, b));
    strata_are_contiguous(n, a, s);
    strata_are_contiguous(n, b, t);
    if s < t {
        assert(a < b);
    }
}

/// The strata cover all rows, and no two differ in size by more than one.
pub proof fn strata_are_of_one_size(n: int, s: int)
    requires
        0 <= n,
        0 <= s < STRATA,
    ensures
        stratum_start(n, 0) == 0,
        stratum_start(n, STRATA as int) == n,
        n / 4 <= stratum_start(n, s + 1) - stratum_start(n, s) <= n / 4 + 1,
{
    if s == 0 {
        assert(stratum_start(n, 1) == n / 4);
    } else if s == 1 {
        assert(stratum_start(n, 1) == n / 4 && stratum_start(n, 2) == 2 * n / 4);
    } else if s == 2 {
        assert(stratum_start(n, 2) == 2 * n / 4 && stratum_start(n, 3) == 3 * n / 4);
    } else {
        assert(stratum_start(n, 3) == 3 * n / 4 && stratum_start(n, 4) == n);
    }
}

/// Four strata of the wanted size are as many rows as aimed at, and not four
/// more.
pub proof fn strata_reach_the_aim(target: int)
    requires
        0 < target,
    ensures
        4 * per_stratum(target) >= target,
        4 * per_stratum(target) < target + 4,
{
}

/// The kept rows of a chunk are those that the plan keeps, in order.
pub proof fn kept_rows_are_those_planned(keep: Seq<Option<Single>>, first: int, n: int)
    requires
        0 <= n <= usize::MAX,
    ensures
        ({
            let rows = kept_rows(keep, first, n);
            &&& rows.len() <= n
            &&& forall|k: int|
                0 <= k < rows.len() ==> #[trigger] rows[k] < n && keep[first + rows[k]] is Some
            &&& forall|a: int, b: int|
                0 <= a < b < rows.len() ==> #[trigger] rows[a] < #[trigger] rows[b]
            &&& forall|r: int|
                0 <= r < n && (#[trigger] keep[first + r]) is Some ==> rows.contains(r as usize)
        }),
    decreases n,
{
    if n > 0 {
        kept_rows_are_those_planned(keep, first, n - 1);
        let before = kept_rows(keep, first, n - 1);
        let rows = kept_rows(keep, first, n);
        assert forall|r: int| 0 <= r < n && (#[trigger] keep[first + r]) is Some implies rows.contains(
        r as usize) by {
            if r < n - 1 {
                assert(before.contains(r as usize));
                let k = choose|k: int| 0 <= k < before.len() && before[k] == r as usize;
                assert(rows[k] == r as usize);
            } else {
                assert(rows[before.len() as int] == r as usize);
            }
        }
    }
}

proof fn place_in_rows(k: int, w: int, j: int, n: int)
    by (nonlinear_arith)
    requires
        0 <= k < n,
        0 <= j < w,
    ensures
        0 <= k * w + j < n * w,
        k < n - 1 ==> k * w + j < (n - 1) * w,
        k == n - 1 ==> k * w + j - (n - 1) * w == j,
        n * w == (n - 1) * w + w,
{
}

/// Each kept row is quantised feature by feature, by the feature's own edges.
pub proof fn rows_are_quantised_by_their_own_edges(
    cache: BinCache,
    inputs: Seq<Single>,
    rows: Seq<usize>,
)
    ensures
        binned_rows(cache, inputs, rows).len() == rows.len() * cache.edges@.len(),
        forall|k: int, f: int|
            #![trigger binned_rows(cache, inputs, rows)[k * cache.edges@.len() + f]]
            0 <= k < rows.len() && 0 <= f < cache.edges@.len() ==> binned_rows(
                cache,
                inputs,
                rows,
            )[k * cache.edges@.len() + f] == bins::bin_index(
                cache.edges@[f]@,
                inputs[rows[k] * cache.edges@.len() + f],
            ) % 256,
    decreases rows.len(),
{
    let w = cache.edges@.len() as int;
    let n = rows.len() as int;
    if n > 0 {
        let less = rows.drop_last();
        rows_are_quantised_by_their_own_edges(cache, inputs, less);
        let before = binned_rows(cache, inputs, less);
        let last = binned_row(cache, inputs, rows.last() as int);
        let all = binned_rows(cache, inputs, rows);
        assert(all == before + last);
        assert(n * w == (n - 1) * w + w) by (nonlinear_arith);
        assert forall|k: int, f: int|
            #![trigger all[k * cache.edges@.len() + f]]
            0 <= k < n && 0 <= f < w implies all[k * cache.edges@.len() + f] == bins::bin_index(
            cache.edges@[f]@,
            inputs[rows[k] * cache.edges@.len() + f],
        ) % 256 by {
            place_in_rows(k, w, f, n);
            if k < n - 1 {
                assert(all[k * w + f] == before[k * w + f]);
                assert(less[k] == rows[k]);
                assert(before[k * cache.edges@.len() + f] == bins::bin_index(
                    cache.edges@[f]@,
                    inputs[less[k] * cache.edges@.len() + f],
                ) % 256);
            } else {
                assert(all[k * w + f] == last[f]);
            }
        }
    } else {
        assert(0 * w == 0) by (nonlinear_arith);
    }
}

/// Cutting a chunk down keeps of every row the bins of the selected features, in
/// their order.
pub proof fn projections_keep_the_selected_bins(
    c: BinnedChunk,
    selected: Seq<usize>,
    n: int,
)
    requires
        c.well_formed(),
        0 <= n <= c.records,
        forall|k: int| 0 <= k < selected.len() ==> (#[trigger] selected[k]) < c.features,
    ensures
        projected_rows(c, selected, n).len() == n * selected.len(),
        forall|k: int, j: int|
            #![trigger projected_rows(c, selected, n)[k * selected.len() + j]]
            0 <= k < n && 0 <= j < selected.len() ==> projected_rows(c, selected, n)[k
                * selected.len() + j] == c.bins@[k * c.features + selected[j]],
    decreases n,
{
    let w = selected.len() as int;
    if n > 0 {
        projections_keep_the_selected_bins(c, selected, n - 1);
        let before = projected_rows(c, selected, n - 1);
        let last = projected_row(c.row(n - 1), selected);
        let all = projected_rows(c, selected, n);
        assert(all == before + last);
        assert(n * w == (n - 1) * w + w) by (nonlinear_arith);
        assert forall|k: int, j: int|
            #![trigger all[k * selected.len() + j]]
            0 <= k < n && 0 <= j < w implies all[k * selected.len() + j] == c.bins@[k * c.features
            + selected[j]] by {
            place_in_rows(k, w, j, n);
            let f = selected[j] as int;
            place_in_rows(k, c.features as int, f, c.records as int);
            if k < n - 1 {
                assert(all[k * w + j] == before[k * selected.len() + j]);
            } else {
                assert(all[k * w + j] == last[j]);
                assert((k + 1) * c.features == k * c.features + c.features) by (nonlinear_arith);
                assert((k + 1) * c.features <= c.records * c.features) by (nonlinear_arith)
                    requires
                        k + 1 <= c.records,
                        0 <= c.features,
                ;
                assert(0 <= k * c.features) by (nonlinear_arith)
                    requires
                        0 <= k,
                        0 <= c.features,
                ;
                assert(c.row(k)[f] == c.bins@[k * c.features + f]);
            }
        }
    } else {
        assert(0 * w == 0) by (nonlinear_arith);
    }
}

/// Every feature is listed once, larger scores first.
pub proof fn features_are_listed_by_score(scores: Seq<Double>)
    requires
        scores.len() <= usize::MAX,
    ensures
        ({
            let by = features_by_score(scores);
            &&& by.len() == scores.len()
            &&& by.no_duplicates()
            &&& forall|k: int| 0 <= k < by.len() ==> #[trigger] by[k] < scores.len()
            &&& forall|a: int, b: int|
                0 <= a < b < by.len() ==> {
                    let (x, y) = (#[trigger] by[a], #[trigger] by[b]);
                    ||| scores[x as int].order() > scores[y as int].order()
                    ||| scores[x as int].order() == scores[y as int].order() && x < y
                }
        }),
{
    let items = scored_features(scores);
    ranking::every_list_has_a_ranking(items);
    let order = ranking::the_ranking(items);
    ranking::sorted_is_in_order(items, order);
    let by = features_by_score(scores);
    assert forall|k: int| 0 <= k < by.len() implies #[trigger] by[k] == order[k] by {
        assert(ranking::sorted(items)[k] == items[order[k] as int]);
    }
    assert forall|a: int, b: int| 0 <= a < b < by.len() implies {
        let (x, y) = (#[trigger] by[a], #[trigger] by[b]);
        ||| scores[x as int].order() > scores[y as int].order()
        ||| scores[x as int].order() == scores[y as int].order() && x < y
    } by {
        assert(ranking::listed_before(items, order[a] as int, order[b] as int));
        assert(items[order[a] as int].score == scores[order[a] as int]);
        assert(items[order[b] as int].score == scores[order[b] as int]);
    }
    assert forall|a: int, b: int|
        0 <= a < by.len() && 0 <= b < by.len() && a != b implies by[a] != by[b] by {
        if a < b {
            assert(scores[by[a] as int].order() >= scores[by[b] as int].order());
        } else {
            assert(scores[by[b] as int].order() >= scores[by[a] as int].order());
        }
    }
}

proof fn totals_never_fall(chunks: Seq<BinnedChunk>, m: int, n: int)
    requires
        0 <= m <= n,
    ensures
        0 <= histogram::record_total(chunks, m) <= histogram::record_total(chunks, n),
    decreases n,
{
    if m < n {
        totals_never_fall(chunks, m, n - 1);
    } else if m > 0 {
        totals_never_fall(chunks, m - 1, n - 1);
    }
}

/// Record `r` of chunk `c` stands, with its residual and its weight, behind the
/// records of the chunks before.
pub open spec fn stands_in_place(chunks: Seq<BinnedChunk>, n: int, c: int, r: int) -> bool {
    let at = histogram::record_total(chunks, c) + r;
    &&& 0 <= at < histogram::record_total(chunks, n)
    &&& flat_residuals(chunks, n)[at] == chunks[c].residual@[r]
    &&& flat_weights(chunks, n)[at] == match chunks[c].weight {
        Some(w) => w@[r],
        None => Single { bits: SINGLE_ONE },
    }
}

/// The residuals of a set stand chunk after chunk, one for each record.
pub proof fn residuals_stand_in_record_order(chunks: Seq<BinnedChunk>, n: int, features: int)
    requires
        0 <= n <= chunks.len(),
        chunks_shaped(chunks, features),
    ensures
        flat_residuals(chunks, n).len() == histogram::record_total(chunks, n),
        flat_weights(chunks, n).len() == histogram::record_total(chunks, n),
        forall|c: int, r: int|
            0 <= c < n && 0 <= r < chunks[c].records ==> #[trigger] stands_in_place(
                chunks,
                n,
                c,
                r,
            ),
    decreases n,
{
    if n > 0 {
        residuals_stand_in_record_order(chunks, n - 1, features);
        assert(chunks[n - 1].well_formed());
        assert forall|c: int, r: int|
            0 <= c < n && 0 <= r < chunks[c].records implies #[trigger] stands_in_place(
            chunks,
            n,
            c,
            r,
        ) by {
            assert(chunks[c].well_formed());
            totals_never_fall(chunks, c, n - 1);
            if c < n - 1 {
                totals_never_fall(chunks, c + 1, n - 1);
                assert(stands_in_place(chunks, n - 1, c, r));
            }
        }
    }
}

/// Due are exactly the next records that lie before the end of the chunk.
pub proof fn due_records_lie_in_the_chunk(indices: Seq<u64>, from: int, end: int)
    requires
        0 <= from <= indices.len(),
    ensures
        0 <= due(indices, from, end) <= indices.len() - from,
        forall|k: int| from <= k < from + due(indices, from, end) ==> (#[trigger] indices[k]) < end,
        from + due(indices, from, end) < indices.len() ==> indices[from + due(indices, from, end)]
            >= end,
    decreases indices.len() - from,
{
    if from < indices.len() && indices[from] < end {
        due_records_lie_in_the_chunk(indices, from + 1, end);
    }
}

/// What is read off a chunk is, record by record and feature by feature, the
/// record's own value.
pub proof fn raw_values_are_the_records_own(
    c: Chunk,
    width: int,
    features: Seq<usize>,
    indices: Seq<u64>,
    from: int,
    n: int,
)
    requires
        0 <= n,
    ensures
        chunk_values(c, width, features, indices, from, n).len() == n * features.len(),
        forall|k: int, j: int|
            #![trigger chunk_values(c, width, features, indices, from, n)[k * features.len() + j]]
            0 <= k < n && 0 <= j < features.len() ==> chunk_values(
                c,
                width,
                features,
                indices,
                from,
                n,
            )[k * features.len() + j] == c.inputs@[(indices[from + k] - c.first_index) * width
                + features[j]],
    decreases n,
{
    let w = features.len() as int;
    if n > 0 {
        raw_values_are_the_records_own(c, width, features, indices, from, n - 1);
        let before = chunk_values(c, width, features, indices, from, n - 1);
        let last = row_values(c.inputs@, width, indices[from + n - 1] - c.first_index, features);
        let all = chunk_values(c, width, features, indices, from, n);
        assert(all == before + last);
        assert(n * w == (n - 1) * w + w) by (nonlinear_arith);
        assert forall|k: int, j: int|
            #![trigger all[k * features.len() + j]]
            0 <= k < n && 0 <= j < w implies all[k * features.len() + j] == c.inputs@[(indices[from
            + k] - c.first_index) * width + features[j]] by {
            place_in_rows(k, w, j, n);
            if k < n - 1 {
                assert(all[k * w + j] == before[k * features.len() + j]);
            } else {
                assert(all[k * w + j] == last[j]);
            }
        }
    } else {
        assert(0 * w == 0) by (nonlinear_arith);
    }
}

} // verus!
