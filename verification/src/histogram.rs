//! Histogram search for one-split corrections: which splits count, and how they
//! rank.
//!
//! The gain of a split is only a ranking signal; the scorer decides what is
//! better. Sums, means and gains are computed by the caller; what is accepted,
//! what is corrected and in which order the discoveries stand is decided here.

use std::cmp::Ordering;

use vstd::prelude::*;
use vstd::string::*;

use crate::floats::{Double, Single};
use crate::math;
use crate::math::div_ceil_size;
use crate::ranking;
use crate::ranking::{ranking, Ranked};

verus! {

/// One chunk of quantised records with their residual for the output searched.
#[derive(Debug, PartialEq)]
pub struct BinnedChunk {
    /// Records in the chunk.
    pub records: usize,
    /// Features per record.
    pub features: usize,
    /// Row-major bin indices (`records × features`).
    pub bins: Vec<u8>,
    /// Correction-space residual per record.
    pub residual: Vec<Single>,
    /// Optional per-record weight (1 when absent).
    pub weight: Option<Vec<Single>>,
    /// Global index of the first record.
    pub first_index: u64,
}

impl BinnedChunk {
    /// The columns have the lengths that the counts say.
    pub open spec fn well_formed(&self) -> bool {
        &&& self.bins@.len() == self.records * self.features
        &&& self.residual@.len() == self.records
        &&& self.weight matches Some(w) ==> w@.len() == self.records
    }

    /// The bins of one record.
    pub open spec fn row(&self, r: int) -> Seq<u8> {
        self.bins@.subrange(r * self.features, (r + 1) * self.features)
    }
}

/// In-memory chunks.
#[derive(Debug, PartialEq)]
pub struct MemorySource {
    /// Chunks in order.
    pub chunks: Vec<BinnedChunk>,
    /// Label for provenance.
    pub label: String,
}

/// Records of the first `n` chunks.
pub open spec fn record_total(chunks: Seq<BinnedChunk>, n: int) -> int
    decreases n,
{
    if n <= 0 {
        0
    } else {
        record_total(chunks, n - 1) + chunks[n - 1].records
    }
}

proof fn record_total_grows(chunks: Seq<BinnedChunk>, m: int, n: int)
    requires
        0 <= m <= n,
    ensures
        0 <= record_total(chunks, m) <= record_total(chunks, n),
    decreases n,
{
    if m < n {
        record_total_grows(chunks, m, n - 1);
    } else if m > 0 {
        record_total_grows(chunks, m - 1, n - 1);
    }
}

impl MemorySource {
    /// Features per record: those of the first chunk, none without chunks.
    pub fn features(&self) -> (r: usize)
        ensures
            r == (if self.chunks@.len() == 0 {
                0
            } else {
                self.chunks@[0].features
            }),
    {
        if self.chunks.len() == 0 {
            0
        } else {
            self.chunks[0].features
        }
    }

    /// Total records.
    pub fn records(&self) -> (r: u64)
        requires
            record_total(self.chunks@, self.chunks@.len() as int) <= u64::MAX,
        ensures
            r == record_total(self.chunks@, self.chunks@.len() as int),
    {
        let mut total: u64 = 0;
        for i in 0..self.chunks.len()
            invariant
                record_total(self.chunks@, self.chunks@.len() as int) <= u64::MAX,
                total == record_total(self.chunks@, i as int),
        {
            proof {
                record_total_grows(self.chunks@, i as int + 1, self.chunks@.len() as int);
            }
            total = total + self.chunks[i].records as u64;
        }
        total
    }
}

/// Which side or sides receive a correction.
#[derive(Debug, Clone, Copy, PartialEq, Eq, PartialOrd, Ord, Hash, Structural)]
pub enum StumpKind {
    /// Correct records with `x <= threshold`; the right leaf is exactly zero.
    LeftOnly,
    /// Correct records with `x > threshold`; the left leaf is exactly zero.
    RightOnly,
    /// Correct both sides.
    TwoLeaf,
}

impl StumpKind {
    /// Place of the kind in the deterministic order.
    pub open spec fn place(self) -> int {
        match self {
            StumpKind::LeftOnly => 0,
            StumpKind::RightOnly => 1,
            StumpKind::TwoLeaf => 2,
        }
    }

    /// All kinds in deterministic order.
    pub fn all() -> (r: Vec<StumpKind>)
        ensures
            r@ == seq![StumpKind::LeftOnly, StumpKind::RightOnly, StumpKind::TwoLeaf],
    {
        let mut out: Vec<StumpKind> = Vec::new();
        out.push(StumpKind::LeftOnly);
        out.push(StumpKind::RightOnly);
        out.push(StumpKind::TwoLeaf);
        assert(out@ =~= seq![StumpKind::LeftOnly, StumpKind::RightOnly, StumpKind::TwoLeaf]);
        out
    }

    /// What the label says.
    pub open spec fn label_text(self) -> Seq<char> {
        match self {
            StumpKind::LeftOnly => "left-only"@,
            StumpKind::RightOnly => "right-only"@,
            StumpKind::TwoLeaf => "two-leaf"@,
        }
    }

    /// Kebab-case label.
    pub fn label(self) -> (r: &'static str)
        ensures
            r@ == self.label_text(),
    {
        match self {
            StumpKind::LeftOnly => "left-only",
            StumpKind::RightOnly => "right-only",
            StumpKind::TwoLeaf => "two-leaf",
        }
    }

    fn place_of(self) -> (r: u8)
        ensures
            r == self.place(),
    {
        match self {
            StumpKind::LeftOnly => 0,
            StumpKind::RightOnly => 1,
            StumpKind::TwoLeaf => 2,
        }
    }
}

/// Search controls.
#[derive(Debug, PartialEq)]
pub struct SearchControls {
    /// Minimum (weighted) records in any corrected leaf.
    pub min_leaf_records: Double,
    /// Clamp on |leaf correction|.
    pub max_correction: Double,
    /// Minimum predicted gain to report.
    pub min_gain: Double,
    /// Kinds to evaluate.
    pub kinds: Vec<StumpKind>,
    /// Stumps to return.
    pub top_k: usize,
    /// Diversity cap: at most this many stumps per feature (0 = unlimited).
    pub max_per_feature: usize,
}

impl Default for SearchControls {
    /// Leaves of at least 50 records, corrections within 1, every kind, 32
    /// stumps and no cap per feature.
    fn default() -> (r: SearchControls)
        ensures
            r.min_leaf_records.bits == 0x4049_0000_0000_0000u64,
            r.max_correction.bits == 0x3ff0_0000_0000_0000u64,
            r.min_gain.bits == 0,
            r.kinds@ == seq![StumpKind::LeftOnly, StumpKind::RightOnly, StumpKind::TwoLeaf],
            r.top_k == 32,
            r.max_per_feature == 0,
    {
        SearchControls {
            min_leaf_records: Double { bits: 0x4049_0000_0000_0000 },
            max_correction: Double::one(),
            min_gain: Double::zero(),
            kinds: StumpKind::all(),
            top_k: 32,
            max_per_feature: 0,
        }
    }
}

impl Clone for SearchControls {
    fn clone(&self) -> (r: SearchControls)
        ensures
            r.min_leaf_records == self.min_leaf_records,
            r.max_correction == self.max_correction,
            r.min_gain == self.min_gain,
            r.kinds@ == self.kinds@,
            r.top_k == self.top_k,
            r.max_per_feature == self.max_per_feature,
    {
        let kinds = self.kinds.clone();
        assert(kinds@ =~= self.kinds@);
        SearchControls {
            min_leaf_records: self.min_leaf_records,
            max_correction: self.max_correction,
            min_gain: self.min_gain,
            kinds,
            top_k: self.top_k,
            max_per_feature: self.max_per_feature,
        }
    }
}

/// A ranked stump discovery.
#[derive(Debug, PartialEq)]
pub struct StumpCandidate {
    /// Feature index.
    pub feature: usize,
    /// The split is "after bin `bin`".
    pub bin: usize,
    /// Threshold value carried into the creature.
    pub threshold: Single,
    /// Which side or sides are corrected.
    pub kind: StumpKind,
    /// Correction for `x <= threshold`.
    pub left_correction: Single,
    /// Correction for `x > threshold`.
    pub right_correction: Single,
    /// Predicted SSE reduction.
    pub gain: Double,
    /// Records on the left.
    pub left_records: Double,
    /// Records on the right.
    pub right_records: Double,
    /// Records that receive a non-zero correction.
    pub affected_records: Double,
    /// `affected / total`: how concentrated the patch is.
    pub affected_fraction: Double,
    /// Backend label.
    pub backend: String,
}

impl Clone for StumpCandidate {
    fn clone(&self) -> (r: StumpCandidate)
        ensures
            r == *self,
    {
        StumpCandidate {
            feature: self.feature,
            bin: self.bin,
            threshold: self.threshold,
            kind: self.kind,
            left_correction: self.left_correction,
            right_correction: self.right_correction,
            gain: self.gain,
            left_records: self.left_records,
            right_records: self.right_records,
            affected_records: self.affected_records,
            affected_fraction: self.affected_fraction,
            backend: self.backend.clone(),
        }
    }
}

impl Ranked for StumpCandidate {
    /// Larger gain first, then smaller feature, bin and kind.
    open spec fn ahead(&self, other: &StumpCandidate) -> bool {
        if self.gain.order() != other.gain.order() {
            self.gain.order() > other.gain.order()
        } else if self.feature != other.feature {
            self.feature < other.feature
        } else if self.bin != other.bin {
            self.bin < other.bin
        } else {
            self.kind.place() < other.kind.place()
        }
    }

    proof fn ahead_is_asymmetric(a: StumpCandidate, b: StumpCandidate) {
    }

    proof fn not_ahead_is_transitive(a: StumpCandidate, b: StumpCandidate, c: StumpCandidate) {
    }

    fn is_ahead(&self, other: &StumpCandidate) -> (r: bool) {
        let a: i64 = self.gain.rank();
        let b: i64 = other.gain.rank();
        if a != b {
            a > b
        } else if self.feature != other.feature {
            self.feature < other.feature
        } else if self.bin != other.bin {
            self.bin < other.bin
        } else {
            self.kind.place_of() < other.kind.place_of()
        }
    }
}

/// Deterministic ordering: larger gain first, then feature, bin, kind.
pub fn rank_order(a: &StumpCandidate, b: &StumpCandidate) -> (r: Ordering)
    ensures
        r == Ordering::Less <==> a.ahead(b),
        r == Ordering::Greater <==> b.ahead(a),
{
    if a.is_ahead(b) {
        proof {
            StumpCandidate::ahead_is_asymmetric(*a, *b);
        }
        Ordering::Less
    } else if b.is_ahead(a) {
        Ordering::Greater
    } else {
        Ordering::Equal
    }
}

// ---------------------------------------------------------------------------
// Evaluating splits.
// ---------------------------------------------------------------------------

/// What the sums on the two sides of a threshold come to.
#[derive(Debug, Clone, Copy, PartialEq, Eq, Structural)]
pub struct SplitStats {
    /// The threshold, where the bin boundary has one.
    pub threshold: Option<Single>,
    /// Records on the left.
    pub left_records: Double,
    /// Records on the right.
    pub right_records: Double,
    /// Records on both sides.
    pub both_records: Double,
    /// Clamped mean residual on the left.
    pub left_correction: Single,
    /// Clamped mean residual on the right.
    pub right_correction: Single,
    /// SSE reduction of the left correction.
    pub left_gain: Double,
    /// SSE reduction of the right correction.
    pub right_gain: Double,
    /// SSE reduction of both corrections.
    pub both_gain: Double,
    /// Share of all records that lie on the left.
    pub left_fraction: Double,
    /// Share of all records that lie on the right.
    pub right_fraction: Double,
    /// Share of all records that lie on either side.
    pub both_fraction: Double,
}

/// `x <= 0`, as floats compare.
pub open spec fn not_positive(x: Double) -> bool {
    !x.nan() && x.num() <= 0
}

/// `x >= y`, as floats compare.
pub open spec fn at_least(x: Double, y: Double) -> bool {
    x.above(y) || x.same_value(y)
}

/// The gain that a kind of correction has at a split.
pub open spec fn kind_gain(s: SplitStats, kind: StumpKind) -> Double {
    match kind {
        StumpKind::LeftOnly => s.left_gain,
        StumpKind::RightOnly => s.right_gain,
        StumpKind::TwoLeaf => s.both_gain,
    }
}

/// A kind of correction counts at a split when both sides have records, every
/// corrected leaf has enough of them, and the gain is finite, positive and no
/// less than asked for.
pub open spec fn split_counts(
    s: SplitStats,
    kind: StumpKind,
    min_leaf: Double,
    min_gain: Double,
) -> bool {
    let gain = kind_gain(s, kind);
    &&& !not_positive(s.left_records)
    &&& !not_positive(s.right_records)
    &&& kind != StumpKind::RightOnly ==> at_least(s.left_records, min_leaf)
    &&& kind != StumpKind::LeftOnly ==> at_least(s.right_records, min_leaf)
    &&& gain.finite()
    &&& !min_gain.above(gain)
    &&& !not_positive(gain)
}

/// The discovery that a kind of correction makes at a split.
pub open spec fn discovery(
    s: SplitStats,
    feature: usize,
    bin: usize,
    kind: StumpKind,
    backend: String,
) -> StumpCandidate {
    StumpCandidate {
        feature,
        bin,
        threshold: s.threshold->0,
        kind,
        left_correction: if kind == StumpKind::RightOnly {
            Single { bits: 0 }
        } else {
            s.left_correction
        },
        right_correction: if kind == StumpKind::LeftOnly {
            Single { bits: 0 }
        } else {
            s.right_correction
        },
        gain: kind_gain(s, kind),
        left_records: s.left_records,
        right_records: s.right_records,
        affected_records: match kind {
            StumpKind::LeftOnly => s.left_records,
            StumpKind::RightOnly => s.right_records,
            StumpKind::TwoLeaf => s.both_records,
        },
        affected_fraction: match kind {
            StumpKind::LeftOnly => s.left_fraction,
            StumpKind::RightOnly => s.right_fraction,
            StumpKind::TwoLeaf => s.both_fraction,
        },
        backend,
    }
}

/// A one-sided correction leaves the other side exactly as it was.
pub proof fn one_sided_discovery_leaves_the_other_side(
    s: SplitStats,
    feature: usize,
    bin: usize,
    backend: String,
)
    ensures
        discovery(s, feature, bin, StumpKind::LeftOnly, backend).right_correction == (Single {
            bits: 0,
        }),
        discovery(s, feature, bin, StumpKind::RightOnly, backend).left_correction == (Single {
            bits: 0,
        }),
{
}

fn is_not_positive(x: Double) -> (r: bool)
    ensures
        r == not_positive(x),
{
    !x.is_nan() && !x.gt(Double::zero())
}

/// Evaluate one kind of correction at one split.
pub fn evaluate_split(
    s: &SplitStats,
    feature: usize,
    bin: usize,
    kind: StumpKind,
    controls: &SearchControls,
    backend: &String,
) -> (r: Option<StumpCandidate>)
    requires
        s.threshold is Some,
    ensures
        r is Some <==> split_counts(*s, kind, controls.min_leaf_records, controls.min_gain),
        r matches Some(c) ==> c == discovery(*s, feature, bin, kind, *backend),
{
    if is_not_positive(s.left_records) || is_not_positive(s.right_records) {
        return None;
    }
    let gain = match kind {
        StumpKind::LeftOnly => s.left_gain,
        StumpKind::RightOnly => s.right_gain,
        StumpKind::TwoLeaf => s.both_gain,
    };
    let left_ok = s.left_records.ge(controls.min_leaf_records);
    let right_ok = s.right_records.ge(controls.min_leaf_records);
    let enough = match kind {
        StumpKind::LeftOnly => left_ok,
        StumpKind::RightOnly => right_ok,
        StumpKind::TwoLeaf => left_ok && right_ok,
    };
    if !enough || !gain.is_finite() || controls.min_gain.gt(gain) || is_not_positive(gain) {
        return None;
    }
    let threshold = match s.threshold {
        Some(t) => t,
        None => {
            return None;
        },
    };
    let (left_correction, right_correction, affected_records, affected_fraction) = match kind {
        StumpKind::LeftOnly => (
            s.left_correction,
            Single::zero(),
            s.left_records,
            s.left_fraction,
        ),
        StumpKind::RightOnly => (
            Single::zero(),
            s.right_correction,
            s.right_records,
            s.right_fraction,
        ),
        StumpKind::TwoLeaf => (
            s.left_correction,
            s.right_correction,
            s.both_records,
            s.both_fraction,
        ),
    };
    Some(
        StumpCandidate {
            feature,
            bin,
            threshold,
            kind,
            left_correction,
            right_correction,
            gain,
            left_records: s.left_records,
            right_records: s.right_records,
            affected_records,
            affected_fraction,
            backend: backend.clone(),
        },
    )
}

/// The discoveries of the first `n` kinds at a split.
pub open spec fn split_discoveries(
    s: SplitStats,
    feature: usize,
    bin: usize,
    controls: SearchControls,
    backend: String,
    n: int,
) -> Seq<StumpCandidate>
    decreases n,
{
    if n <= 0 || s.threshold is None {
        Seq::empty()
    } else {
        let before = split_discoveries(s, feature, bin, controls, backend, n - 1);
        let kind = controls.kinds@[n - 1];
        if split_counts(s, kind, controls.min_leaf_records, controls.min_gain) {
            before.push(discovery(s, feature, bin, kind, backend))
        } else {
            before
        }
    }
}

/// The discoveries at the first `n` boundaries of a feature.
pub open spec fn feature_discoveries(
    stats: Seq<SplitStats>,
    feature: usize,
    controls: SearchControls,
    backend: String,
    n: int,
) -> Seq<StumpCandidate>
    decreases n,
{
    if n <= 0 {
        Seq::empty()
    } else {
        feature_discoveries(stats, feature, controls, backend, n - 1) + split_discoveries(
            stats[n - 1],
            feature,
            (n - 1) as usize,
            controls,
            backend,
            controls.kinds@.len() as int,
        )
    }
}

/// The first `n` of a list, all of it when it has no more.
pub open spec fn at_most<T>(v: Seq<T>, n: int) -> Seq<T> {
    if v.len() <= n {
        v
    } else {
        v.take(n)
    }
}

/// The discoveries of the first `n` features, each feature's best first and no
/// more of it than the cap.
pub open spec fn all_discoveries(
    stats: Seq<Vec<SplitStats>>,
    controls: SearchControls,
    backend: String,
    n: int,
) -> Seq<StumpCandidate>
    decreases n,
{
    if n <= 0 {
        Seq::empty()
    } else {
        let own = ranking::sorted(
            feature_discoveries(
                stats[n - 1]@,
                (n - 1) as usize,
                controls,
                backend,
                stats[n - 1]@.len() as int,
            ),
        );
        all_discoveries(stats, controls, backend, n - 1) + if controls.max_per_feature > 0 {
            at_most(own, controls.max_per_feature as int)
        } else {
            own
        }
    }
}

fn in_order(items: &Vec<StumpCandidate>, limit: usize) -> (r: Vec<StumpCandidate>)
    ensures
        r@ == at_most(ranking::sorted(items@), limit as int),
        ranking::sorted(items@).len() == items@.len(),
{
    let order = ranking(items);
    proof {
        ranking::sorted_is_in_order(items@, order@);
    }
    let n: usize = if order.len() <= limit {
        order.len()
    } else {
        limit
    };
    let mut out: Vec<StumpCandidate> = Vec::new();
    for i in 0..n
        invariant
            n <= order@.len(),
            ranking::is_ranking(items@, order@),
            out@ == ranking::picked(items@, order@).take(i as int),
    {
        out.push(items[order[i]].clone());
        assert(out@ =~= ranking::picked(items@, order@).take(i as int + 1));
    }
    assert(ranking::picked(items@, order@).take(order@.len() as int) =~= ranking::picked(
        items@,
        order@,
    ));
    out
}

/// Evaluate every boundary of every feature and return the best stumps.
///
/// `stats[f]` holds what the sums come to at each boundary of feature `f`; a
/// feature with fewer than two bins has none.
pub fn search_stumps(
    stats: &Vec<Vec<SplitStats>>,
    controls: &SearchControls,
    backend: &String,
) -> (r: Vec<StumpCandidate>)
    ensures
        r@ == at_most(
            ranking::sorted(all_discoveries(stats@, *controls, *backend, stats@.len() as int)),
            controls.top_k as int,
        ),
{
    let mut out: Vec<StumpCandidate> = Vec::new();
    for f in 0..stats.len()
        invariant
            out@ == all_discoveries(stats@, *controls, *backend, f as int),
    {
        let own = &stats[f];
        let mut found: Vec<StumpCandidate> = Vec::new();
        for b in 0..own.len()
            invariant
                f < stats@.len(),
                own@ == stats@[f as int]@,
                found@ == feature_discoveries(own@, f, *controls, *backend, b as int),
        {
            let s = &own[b];
            let ghost before = found@;
            if s.threshold.is_some() {
                proof {
                    assert(before + split_discoveries(*s, f, b, *controls, *backend, 0) =~= before);
                }
                for k in 0..controls.kinds.len()
                    invariant
                        s.threshold is Some,
                        found@ == before + split_discoveries(
                            *s,
                            f,
                            b,
                            *controls,
                            *backend,
                            k as int,
                        ),
                {
                    let ghost so_far = found@;
                    if let Some(c) = evaluate_split(s, f, b, controls.kinds[k], controls, backend) {
                        found.push(c);
                    }
                    proof {
                        assert(found@ =~= before + split_discoveries(
                            *s,
                            f,
                            b,
                            *controls,
                            *backend,
                            k as int + 1,
                        ));
                    }
                }
            } else {
                assert(before + Seq::<StumpCandidate>::empty() =~= before);
            }
        }
        let limit: usize = if controls.max_per_feature > 0 {
            controls.max_per_feature
        } else {
            found.len()
        };
        let mut best = in_order(&found, limit);
        out.append(&mut best);
    }
    in_order(&out, controls.top_k)
}

// ---------------------------------------------------------------------------
// Sharing features among workers.
// ---------------------------------------------------------------------------

/// The feature ranges that workers own: neighbouring, of equal size but for the
/// last, covering every feature once.
pub fn feature_ranges(features: usize, threads: usize) -> (r: Vec<(usize, usize)>)
    ensures
        features == 0 ==> r@.len() == 0,
        features > 0 ==> r@.len() > 0 && r@[0].0 == 0 && r@.last().1 == features,
        forall|i: int| 0 <= i < r@.len() ==> (#[trigger] r@[i]).0 < r@[i].1,
        forall|i: int| 0 <= i < r@.len() - 1 ==> (#[trigger] r@[i]).1 == r@[i + 1].0,
        ({
            let n = math::clamped(
                threads as int,
                1,
                if features < 1 { 1 } else { features as int },
            );
            let per = math::ceil_div(features as int, n);
            &&& r@.len() <= n
            &&& forall|i: int|
                0 <= i < r@.len() ==> (#[trigger] r@[i]).0 == i * per && r@[i].1 - r@[i].0 <= per
            &&& forall|i: int| 0 <= i < r@.len() - 1 ==> (#[trigger] r@[i]).1 - r@[i].0 == per
        }),
{
    let most: usize = if features < 1 {
        1
    } else {
        features
    };
    let n: usize = if threads < 1 {
        1
    } else if threads > most {
        most
    } else {
        threads
    };
    let per: usize = div_ceil_size(features, n);
    proof {
        math::ceil_div_by_remainder(features as int, n as int);
    }
    let mut out: Vec<(usize, usize)> = Vec::new();
    let mut lo: usize = 0;
    while lo < features
        invariant
            1 <= n <= most,
            most == if features < 1 { 1 } else { features },
            per == math::ceil_div(features as int, n as int),
            per * n >= features,
            features > 0 ==> per > 0,
            lo <= features,
            lo < features ==> lo == out@.len() * per,
            out@.len() == 0 ==> lo == 0,
            out@.len() > 0 ==> out@[0].0 == 0 && out@.last().1 == lo,
            out@.len() <= n,
            forall|i: int|
                0 <= i < out@.len() ==> (#[trigger] out@[i]).0 == i * per && out@[i].0 < out@[i].1
                    && out@[i].1 - out@[i].0 <= per,
            forall|i: int|
                0 <= i < out@.len() - 1 ==> (#[trigger] out@[i]).1 == out@[i + 1].0 && out@[i].1
                    - out@[i].0 == per,
            lo < features && out@.len() > 0 ==> out@.last().1 - out@.last().0 == per,
        decreases features - lo,
    {
        let hi: usize = if features - lo <= per {
            features
        } else {
            lo + per
        };
        let ghost k = out@.len() as int;
        proof {
            if k >= n {
                assert(k * per >= n * per) by (nonlinear_arith)
                    requires
                        k >= n,
                        per >= 0,
                ;
                assert(n * per == per * n) by (nonlinear_arith);
            }
            assert((k + 1) * per == k * per + per) by (nonlinear_arith);
        }
        out.push((lo, hi));
        lo = hi;
    }
    out
}

// ---------------------------------------------------------------------------
// What a discovery says of its split.
// ---------------------------------------------------------------------------

/// A discovery is about the split that it was made at, and a side that its kind
/// corrects is corrected by that side's own clamped mean, for the gain that this
/// very correction has; a side that its kind leaves alone gets exactly zero.
pub proof fn discoveries_correct_a_side_by_its_own_mean(
    s: SplitStats,
    feature: usize,
    bin: usize,
    kind: StumpKind,
    backend: String,
)
    requires
        s.threshold is Some,
    ensures
        ({
            let c = discovery(s, feature, bin, kind, backend);
            let left = kind == StumpKind::LeftOnly || kind == StumpKind::TwoLeaf;
            let right = kind == StumpKind::RightOnly || kind == StumpKind::TwoLeaf;
            &&& c.feature == feature && c.bin == bin && c.kind == kind && c.backend == backend
            &&& s.threshold == Some(c.threshold)
            &&& left ==> c.left_correction == s.left_correction
            &&& right ==> c.right_correction == s.right_correction
            &&& !left ==> c.left_correction.bits == 0
            &&& !right ==> c.right_correction.bits == 0
            &&& c.left_records == s.left_records && c.right_records == s.right_records
            &&& left && right ==> c.gain == s.both_gain && c.affected_records == s.both_records
                && c.affected_fraction == s.both_fraction
            &&& left && !right ==> c.gain == s.left_gain && c.affected_records == s.left_records
                && c.affected_fraction == s.left_fraction
            &&& !left && right ==> c.gain == s.right_gain && c.affected_records
                == s.right_records && c.affected_fraction == s.right_fraction
        }),
{
}

/// A two-sided discovery corrects each side as the one-sided discovery of that
/// side does.
pub proof fn two_sides_are_corrected_as_each_alone(
    s: SplitStats,
    feature: usize,
    bin: usize,
    backend: String,
)
    ensures
        ({
            let l = discovery(s, feature, bin, StumpKind::LeftOnly, backend);
            let r = discovery(s, feature, bin, StumpKind::RightOnly, backend);
            let b = discovery(s, feature, bin, StumpKind::TwoLeaf, backend);
            &&& b.left_correction == l.left_correction
            &&& b.right_correction == r.right_correction
            &&& l.threshold == r.threshold && r.threshold == b.threshold
            &&& l.right_correction == r.left_correction
        }),
{
}

/// A split with its sides exchanged.
pub open spec fn exchanged(s: SplitStats) -> SplitStats {
    SplitStats {
        left_records: s.right_records,
        right_records: s.left_records,
        left_correction: s.right_correction,
        right_correction: s.left_correction,
        left_gain: s.right_gain,
        right_gain: s.left_gain,
        left_fraction: s.right_fraction,
        right_fraction: s.left_fraction,
        ..s
    }
}

/// The kind that corrects the other side.
pub open spec fn other_kind(kind: StumpKind) -> StumpKind {
    match kind {
        StumpKind::LeftOnly => StumpKind::RightOnly,
        StumpKind::RightOnly => StumpKind::LeftOnly,
        StumpKind::TwoLeaf => StumpKind::TwoLeaf,
    }
}

/// Neither side is favoured: exchanging the sides of a split exchanges the sides
/// of what is discovered there, and of what counts.
pub proof fn sides_are_treated_alike(
    s: SplitStats,
    feature: usize,
    bin: usize,
    kind: StumpKind,
    backend: String,
    min_leaf: Double,
    min_gain: Double,
)
    ensures
        split_counts(exchanged(s), other_kind(kind), min_leaf, min_gain) == split_counts(
            s,
            kind,
            min_leaf,
            min_gain,
        ),
        ({
            let c = discovery(s, feature, bin, kind, backend);
            let d = discovery(exchanged(s), feature, bin, other_kind(kind), backend);
            &&& d.left_correction == c.right_correction && d.right_correction
                == c.left_correction
            &&& d.left_records == c.right_records && d.right_records == c.left_records
            &&& d.gain == c.gain && d.threshold == c.threshold
            &&& d.affected_records == c.affected_records
            &&& d.affected_fraction == c.affected_fraction
        }),
{
}

/// What counts has a positive, finite gain that is not below the least one asked
/// for, and no corrected side with fewer records than asked for; and a split
/// with all of that counts.
pub proof fn only_gainful_splits_count(
    s: SplitStats,
    feature: usize,
    bin: usize,
    kind: StumpKind,
    backend: String,
    min_leaf: Double,
    min_gain: Double,
)
    requires
        !s.left_records.nan(),
        !s.right_records.nan(),
        !min_leaf.nan(),
        !min_gain.nan(),
    ensures
        split_counts(s, kind, min_leaf, min_gain) <==> {
            let c = discovery(s, feature, bin, kind, backend);
            &&& c.gain.finite() && c.gain.num() > 0 && c.gain.num() >= min_gain.num()
            &&& s.left_records.num() > 0 && s.right_records.num() > 0
            &&& kind == StumpKind::LeftOnly || kind == StumpKind::TwoLeaf
                ==> s.left_records.num() >= min_leaf.num()
            &&& kind == StumpKind::RightOnly || kind == StumpKind::TwoLeaf
                ==> s.right_records.num() >= min_leaf.num()
        },
{
}

/// Asking for less never loses a split.
pub proof fn asking_for_less_loses_nothing(
    s: SplitStats,
    kind: StumpKind,
    min_leaf: Double,
    min_gain: Double,
    less_leaf: Double,
    less_gain: Double,
)
    requires
        split_counts(s, kind, min_leaf, min_gain),
        min_leaf.above(less_leaf) || min_leaf == less_leaf,
        min_gain.above(less_gain) || min_gain == less_gain,
    ensures
        split_counts(s, kind, less_leaf, less_gain),
{
}

/// A candidate comes of a boundary of the searched features: it is what one of
/// the kinds asked for discovers there.
pub open spec fn comes_of(
    c: StumpCandidate,
    stats: Seq<Vec<SplitStats>>,
    controls: SearchControls,
) -> bool {
    let s = stats[c.feature as int]@[c.bin as int];
    &&& c.feature < stats.len()
    &&& c.bin < stats[c.feature as int]@.len()
    &&& s.threshold == Some(c.threshold)
    &&& controls.kinds@.contains(c.kind)
    &&& split_counts(s, c.kind, controls.min_leaf_records, controls.min_gain)
    &&& c == discovery(s, c.feature, c.bin, c.kind, c.backend)
}

proof fn split_discoveries_come_of_it(
    stats: Seq<Vec<SplitStats>>,
    f: int,
    b: int,
    controls: SearchControls,
    backend: String,
    n: int,
)
    requires
        0 <= f < stats.len() <= usize::MAX,
        0 <= b < stats[f]@.len() <= usize::MAX,
        0 <= n <= controls.kinds@.len(),
    ensures
        ({
            let found = split_discoveries(
                stats[f]@[b],
                f as usize,
                b as usize,
                controls,
                backend,
                n,
            );
            &&& found.len() <= n
            &&& forall|i: int|
                0 <= i < found.len() ==> comes_of(#[trigger] found[i], stats, controls)
                    && found[i].feature == f && found[i].bin == b && found[i].backend == backend
            &&& forall|k: int|
                0 <= k < n && stats[f]@[b].threshold is Some && split_counts(
                    stats[f]@[b],
                    #[trigger] controls.kinds@[k],
                    controls.min_leaf_records,
                    controls.min_gain,
                ) ==> found.contains(
                    discovery(stats[f]@[b], f as usize, b as usize, controls.kinds@[k], backend),
                )
        }),
    decreases n,
{
    let s = stats[f]@[b];
    if n > 0 && s.threshold is Some {
        split_discoveries_come_of_it(stats, f, b, controls, backend, n - 1);
        let before = split_discoveries(s, f as usize, b as usize, controls, backend, n - 1);
        let found = split_discoveries(s, f as usize, b as usize, controls, backend, n);
        let kind = controls.kinds@[n - 1];
        let own = discovery(s, f as usize, b as usize, kind, backend);
        assert forall|k: int|
            0 <= k < n && split_counts(
                s,
                #[trigger] controls.kinds@[k],
                controls.min_leaf_records,
                controls.min_gain,
            ) implies found.contains(
            discovery(s, f as usize, b as usize, controls.kinds@[k], backend),
        ) by {
            if k < n - 1 {
                let c = discovery(s, f as usize, b as usize, controls.kinds@[k], backend);
                assert(before.contains(c));
                let i = choose|i: int| 0 <= i < before.len() && before[i] == c;
                assert(found[i] == c);
            } else {
                assert(found[before.len() as int] == own);
            }
        }
    }
}

proof fn feature_discoveries_come_of_it(
    stats: Seq<Vec<SplitStats>>,
    f: int,
    controls: SearchControls,
    backend: String,
    n: int,
)
    requires
        0 <= f < stats.len() <= usize::MAX,
        0 <= n <= stats[f]@.len() <= usize::MAX,
    ensures
        ({
            let found = feature_discoveries(stats[f]@, f as usize, controls, backend, n);
            &&& forall|i: int|
                0 <= i < found.len() ==> comes_of(#[trigger] found[i], stats, controls)
                    && found[i].feature == f && found[i].backend == backend
            &&& forall|b: int, k: int|
                #![trigger stats[f]@[b], controls.kinds@[k]]
                0 <= b < n && 0 <= k < controls.kinds@.len() && stats[f]@[b].threshold is Some
                    && split_counts(
                    stats[f]@[b],
                    controls.kinds@[k],
                    controls.min_leaf_records,
                    controls.min_gain,
                ) ==> found.contains(
                    discovery(stats[f]@[b], f as usize, b as usize, controls.kinds@[k], backend),
                )
        }),
    decreases n,
{
    if n > 0 {
        let all = controls.kinds@.len() as int;
        feature_discoveries_come_of_it(stats, f, controls, backend, n - 1);
        split_discoveries_come_of_it(stats, f, n - 1, controls, backend, all);
        let before = feature_discoveries(stats[f]@, f as usize, controls, backend, n - 1);
        let more = split_discoveries(
            stats[f]@[n - 1],
            f as usize,
            (n - 1) as usize,
            controls,
            backend,
            all,
        );
        let found = feature_discoveries(stats[f]@, f as usize, controls, backend, n);
        assert(found == before + more);
        assert forall|b: int, k: int|
            #![trigger stats[f]@[b], controls.kinds@[k]]
            0 <= b < n && 0 <= k < controls.kinds@.len() && stats[f]@[b].threshold is Some
                && split_counts(
                stats[f]@[b],
                controls.kinds@[k],
                controls.min_leaf_records,
                controls.min_gain,
            ) implies found.contains(
            discovery(stats[f]@[b], f as usize, b as usize, controls.kinds@[k], backend),
        ) by {
            let c = discovery(stats[f]@[b], f as usize, b as usize, controls.kinds@[k], backend);
            if b < n - 1 {
                assert(before.contains(c));
                let i = choose|i: int| 0 <= i < before.len() && before[i] == c;
                assert(found[i] == c);
            } else {
                assert(more.contains(c));
                let i = choose|i: int| 0 <= i < more.len() && more[i] == c;
                assert(found[before.len() + i] == c);
            }
        }
    }
}

proof fn sorting_keeps_the_members(items: Seq<StumpCandidate>)
    requires
        items.len() <= usize::MAX,
    ensures
        ranking::sorted(items).len() == items.len(),
        forall|i: int|
            0 <= i < items.len() ==> items.contains(#[trigger] ranking::sorted(items)[i]),
        forall|c: StumpCandidate|
            items.contains(c) ==> #[trigger] ranking::sorted(items).contains(c),
        forall|a: int, b: int|
            #![trigger ranking::sorted(items)[a], ranking::sorted(items)[b]]
            0 <= a < b < items.len() ==> !ranking::sorted(items)[b].ahead(
                &ranking::sorted(items)[a],
            ),
{
    ranking::every_list_has_a_ranking(items);
    let order = ranking::the_ranking(items);
    ranking::sorted_is_in_order(items, order);
    assert forall|c: StumpCandidate| items.contains(c) implies #[trigger] ranking::sorted(
        items,
    ).contains(c) by {
        let i = choose|i: int| 0 <= i < items.len() && items[i] == c;
        assert(order.contains(i as usize));
        let k = choose|k: int| 0 <= k < order.len() && order[k] == i as usize;
        assert(ranking::sorted(items)[k] == c);
    }
}

proof fn all_discoveries_come_of_it(
    stats: Seq<Vec<SplitStats>>,
    controls: SearchControls,
    backend: String,
    n: int,
)
    requires
        0 <= n <= stats.len() <= usize::MAX,
        forall|f: int|
            0 <= f < stats.len() ==> (#[trigger] stats[f])@.len() <= usize::MAX
                && feature_discoveries(
                stats[f]@,
                f as usize,
                controls,
                backend,
                stats[f]@.len() as int,
            ).len() <= usize::MAX,
    ensures
        ({
            let found = all_discoveries(stats, controls, backend, n);
            &&& forall|i: int|
                0 <= i < found.len() ==> comes_of(#[trigger] found[i], stats, controls)
                    && found[i].feature < n && found[i].backend == backend
            &&& controls.max_per_feature == 0 ==> forall|f: int, b: int, k: int|
                #![trigger stats[f]@[b], controls.kinds@[k]]
                0 <= f < n && 0 <= b < stats[f]@.len() && 0 <= k < controls.kinds@.len()
                    && stats[f]@[b].threshold is Some && split_counts(
                    stats[f]@[b],
                    controls.kinds@[k],
                    controls.min_leaf_records,
                    controls.min_gain,
                ) ==> found.contains(
                    discovery(stats[f]@[b], f as usize, b as usize, controls.kinds@[k], backend),
                )
        }),
    decreases n,
{
    if n > 0 {
        let f0 = n - 1;
        let len = stats[f0]@.len() as int;
        all_discoveries_come_of_it(stats, controls, backend, n - 1);
        feature_discoveries_come_of_it(stats, f0, controls, backend, len);
        let raw = feature_discoveries(stats[f0]@, f0 as usize, controls, backend, len);
        sorting_keeps_the_members(raw);
        let own = ranking::sorted(raw);
        let before = all_discoveries(stats, controls, backend, n - 1);
        let found = all_discoveries(stats, controls, backend, n);
        let more = if controls.max_per_feature > 0 {
            at_most(own, controls.max_per_feature as int)
        } else {
            own
        };
        assert(found == before + more);
        assert forall|i: int| 0 <= i < found.len() implies comes_of(
            #[trigger] found[i],
            stats,
            controls,
        ) && found[i].feature < n && found[i].backend == backend by {
            if i < before.len() {
                assert(found[i] == before[i]);
            } else {
                assert(found[i] == own[i - before.len()]);
                assert(raw.contains(own[i - before.len()]));
            }
        }
        if controls.max_per_feature == 0 {
            assert forall|f: int, b: int, k: int|
                #![trigger stats[f]@[b], controls.kinds@[k]]
                0 <= f < n && 0 <= b < stats[f]@.len() && 0 <= k < controls.kinds@.len()
                    && stats[f]@[b].threshold is Some && split_counts(
                    stats[f]@[b],
                    controls.kinds@[k],
                    controls.min_leaf_records,
                    controls.min_gain,
                ) implies found.contains(
                discovery(stats[f]@[b], f as usize, b as usize, controls.kinds@[k], backend),
            ) by {
                let c = discovery(
                    stats[f]@[b],
                    f as usize,
                    b as usize,
                    controls.kinds@[k],
                    backend,
                );
                if f < n - 1 {
                    assert(before.contains(c));
                    let i = choose|i: int| 0 <= i < before.len() && before[i] == c;
                    assert(found[i] == c);
                } else {
                    assert(raw.contains(c));
                    assert(own.contains(c));
                    let i = choose|i: int| 0 <= i < own.len() && own[i] == c;
                    assert(found[before.len() + i] == c);
                }
            }
        }
    }
}

/// What a search finds comes of the boundaries searched, best gain first and no
/// more than asked for; and without a cap per feature nothing that counts is
/// left out for something of smaller gain.
pub proof fn searches_find_the_best(
    stats: Seq<Vec<SplitStats>>,
    controls: SearchControls,
    backend: String,
    found: Seq<StumpCandidate>,
)
    requires
        stats.len() <= usize::MAX,
        forall|f: int|
            0 <= f < stats.len() ==> (#[trigger] stats[f])@.len() <= usize::MAX
                && feature_discoveries(
                stats[f]@,
                f as usize,
                controls,
                backend,
                stats[f]@.len() as int,
            ).len() <= usize::MAX,
        all_discoveries(stats, controls, backend, stats.len() as int).len() <= usize::MAX,
        found == at_most(
            ranking::sorted(all_discoveries(stats, controls, backend, stats.len() as int)),
            controls.top_k as int,
        ),
    ensures
        found.len() <= controls.top_k,
        forall|i: int| 0 <= i < found.len() ==> comes_of(#[trigger] found[i], stats, controls),
        forall|i: int| 0 <= i < found.len() ==> (#[trigger] found[i]).backend == backend,
        forall|a: int, b: int|
            #![trigger found[a], found[b]]
            0 <= a < b < found.len() ==> found[a].gain.order() >= found[b].gain.order(),
        controls.max_per_feature == 0 ==> forall|f: int, b: int, k: int|
            #![trigger stats[f]@[b], controls.kinds@[k]]
            0 <= f < stats.len() && 0 <= b < stats[f]@.len() && 0 <= k < controls.kinds@.len()
                && stats[f]@[b].threshold is Some && split_counts(
                stats[f]@[b],
                controls.kinds@[k],
                controls.min_leaf_records,
                controls.min_gain,
            ) ==> {
                let c = discovery(
                    stats[f]@[b],
                    f as usize,
                    b as usize,
                    controls.kinds@[k],
                    backend,
                );
                found.contains(c) || (found.len() == controls.top_k && forall|i: int|
                    0 <= i < found.len() ==> (#[trigger] found[i]).gain.order()
                        >= c.gain.order())
            },
{
    let all = all_discoveries(stats, controls, backend, stats.len() as int);
    let sorted = ranking::sorted(all);
    all_discoveries_come_of_it(stats, controls, backend, stats.len() as int);
    sorting_keeps_the_members(all);
    assert forall|i: int| 0 <= i < found.len() implies comes_of(
        #[trigger] found[i],
        stats,
        controls,
    ) && found[i].backend == backend by {
        assert(found[i] == sorted[i]);
        assert(all.contains(sorted[i]));
    }
    assert forall|a: int, b: int|
        #![trigger found[a], found[b]]
        0 <= a < b < found.len() implies found[a].gain.order() >= found[b].gain.order() by {
        assert(!sorted[b].ahead(&sorted[a]));
    }
    if controls.max_per_feature == 0 {
        assert forall|f: int, b: int, k: int|
            #![trigger stats[f]@[b], controls.kinds@[k]]
            0 <= f < stats.len() && 0 <= b < stats[f]@.len() && 0 <= k < controls.kinds@.len()
                && stats[f]@[b].threshold is Some && split_counts(
                stats[f]@[b],
                controls.kinds@[k],
                controls.min_leaf_records,
                controls.min_gain,
            ) implies {
            let c = discovery(stats[f]@[b], f as usize, b as usize, controls.kinds@[k], backend);
            found.contains(c) || (found.len() == controls.top_k && forall|i: int|
                0 <= i < found.len() ==> (#[trigger] found[i]).gain.order() >= c.gain.order())
        } by {
            let c = discovery(stats[f]@[b], f as usize, b as usize, controls.kinds@[k], backend);
            assert(all.contains(c));
            assert(sorted.contains(c));
            let at = choose|at: int| 0 <= at < sorted.len() && sorted[at] == c;
            if at < found.len() {
                assert(found[at] == c);
            } else {
                assert forall|i: int| 0 <= i < found.len() implies (
                #[trigger] found[i]).gain.order() >= c.gain.order() by {
                    assert(!sorted[at].ahead(&sorted[i]));
                }
            }
        }
    }
}

/// Of discoveries with the same gain the one on the smaller feature is listed first,
/// of those on the same feature the one in the smaller bin, and of those at the same
/// place a one-sided correction before one of both sides, the left before the right.
pub proof fn ties_go_to_the_first_place(items: Seq<StumpCandidate>, a: int, b: int)
    requires
        items.len() <= usize::MAX,
        0 <= a < b < items.len(),
        ranking::sorted(items)[a].gain == ranking::sorted(items)[b].gain,
    ensures
        ({
            let x = ranking::sorted(items)[a];
            let y = ranking::sorted(items)[b];
            &&& x.feature <= y.feature
            &&& x.feature == y.feature ==> x.bin <= y.bin
            &&& x.feature == y.feature && x.bin == y.bin ==> {
                &&& y.kind == StumpKind::LeftOnly ==> x.kind == StumpKind::LeftOnly
                &&& x.kind == StumpKind::TwoLeaf ==> y.kind == StumpKind::TwoLeaf
            }
        }),
{
    ranking::every_list_has_a_ranking(items);
    ranking::sorted_is_in_order(items, ranking::the_ranking(items));
    assert(!ranking::sorted(items)[b].ahead(&ranking::sorted(items)[a]));
}

} // verus!
