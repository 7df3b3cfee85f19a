//! Run configuration: every knob the command line exposes, with defaults.

use vstd::prelude::*;
use vstd::string::*;

use crate::baseline::ParityPolicy;
use crate::bins;
use crate::floats::{Double, Single};
use crate::histogram::{SearchControls, StumpKind};
use crate::learnings::replay::DEFAULT_RETRY_AFTER_SECS;

verus! {

/// Default wall-clock budget (45 minutes).
pub const DEFAULT_TIMEOUT_SECONDS: u64 = 2_700;

/// Default strict minimum authoritative improvement, `1e-6`.
pub const DEFAULT_MIN_IMPROVEMENT: u64 = 0x3eb0_c6f7_a0b5_ed8d;

/// Default screen sample rate, `0.05`.
pub const DEFAULT_SCREEN_SAMPLE_RATE: u64 = 0x3fa9_9999_9999_999a;

/// Default records streamed per chunk.
pub const DEFAULT_CHUNK_RECORDS: usize = 4096;

/// Default in-memory search sample (records). `0` streams the full corpus.
pub const DEFAULT_SEARCH_RECORDS: u64 = 200_000;

/// GPU preference.
#[derive(Debug, Clone, Copy, PartialEq, Eq, Structural)]
pub enum GpuMode {
    /// Use the GPU when there is one.
    Auto,
    /// Require the GPU; fail if unavailable.
    On,
    /// CPU only.
    Off,
}

/// Tree growth policy.
#[derive(Debug, Clone, Copy, PartialEq, Eq, Structural)]
pub enum GrowthPolicy {
    /// Expand every leaf at the current depth in one pass.
    LevelWise,
    /// Expand only the leaf with the best split each pass.
    BestFirst,
}

/// Row sampling for the in-memory search set.
#[derive(Debug, Clone, Copy, PartialEq, Eq, Structural)]
pub enum RowSampling {
    /// Deterministic stride (every k-th record).
    Stride,
    /// Uniform random subset (seeded).
    Uniform,
    /// Stratified by residual magnitude quantile (seeded).
    Stratified,
    /// Probability in proportion to |residual| (seeded); records carry
    /// importance weights.
    ResidualWeighted,
}

/// Which bias-1 constants a graft's `IF` nodes hang off.
#[derive(Debug, Clone, Copy, PartialEq, Eq, Structural)]
pub enum GraftConstants {
    /// One set of three shared by every patch on the creature.
    Shared,
    /// Three constants per patch, named for it: a patch's nodes depend on no
    /// constant of another patch.
    PerPatch,
}

/// Feature subset selection per search.
#[derive(Debug, Clone, Copy, PartialEq, Eq, Structural)]
pub enum FeatureSelection {
    /// All features.
    All,
    /// Random subset (seeded).
    Random,
    /// Top features by how much of the residual their bins explain.
    ErrorRanked,
}

impl Default for GpuMode {
    fn default() -> (r: GpuMode)
        ensures
            r == GpuMode::Off,
    {
        GpuMode::Off
    }
}

impl Default for GrowthPolicy {
    fn default() -> (r: GrowthPolicy)
        ensures
            r == GrowthPolicy::LevelWise,
    {
        GrowthPolicy::LevelWise
    }
}

impl Default for RowSampling {
    fn default() -> (r: RowSampling)
        ensures
            r == RowSampling::Stride,
    {
        RowSampling::Stride
    }
}

impl Default for GraftConstants {
    fn default() -> (r: GraftConstants)
        ensures
            r == GraftConstants::Shared,
    {
        GraftConstants::Shared
    }
}

impl Default for FeatureSelection {
    fn default() -> (r: FeatureSelection)
        ensures
            r == FeatureSelection::All,
    {
        FeatureSelection::All
    }
}

/// Complete configuration.
#[derive(Debug, PartialEq)]
pub struct ForestsConfig {
    /// Source creature path (read-only).
    pub creature: String,
    /// Training corpus directory.
    pub training_data: String,
    /// Output directory.
    pub output_dir: String,
    /// Where caches live (defaults to the training directory).
    pub cache_dir: Option<String>,
    /// Scorer binary.
    pub scorer_path: String,
    /// Extra scorer arguments.
    pub scorer_args: Vec<String>,
    /// Wall-clock budget in seconds.
    pub timeout_seconds: u64,
    /// Maximum iterations (`None` = until timeout).
    pub max_iterations: Option<u64>,
    /// Seed (`None` = drawn).
    pub seed: Option<u64>,
    /// Strict minimum authoritative improvement.
    pub min_improvement: Double,
    /// Bins per observation.
    pub bins: usize,
    /// Bin-cache sample records.
    pub bin_sample_records: u64,
    /// Bin-cache memory budget (bytes).
    pub bin_memory_budget_bytes: usize,
    /// Records per streaming chunk.
    pub chunk_records: usize,
    /// Threads for residual extraction and histogram accumulation.
    pub analysis_threads: usize,
    /// In-memory search records (`0` = the full corpus).
    pub search_records: u64,
    /// Row sampling scheme for the search set.
    pub row_sampling: RowSampling,
    /// Feature selection scheme.
    pub feature_selection: FeatureSelection,
    /// Fraction of features kept under random or error-ranked selection.
    pub feature_fraction: Double,
    /// Minimum records per corrected leaf.
    pub min_leaf_records: Double,
    /// Clamp on |leaf correction|.
    pub max_correction: Double,
    /// Minimum proxy gain.
    pub min_gain: Double,
    /// Stump kinds searched.
    pub stump_kinds: Vec<StumpKind>,
    /// Stumps taken from each search.
    pub top_k: usize,
    /// Diversity cap per feature (0 = unlimited).
    pub max_per_feature: usize,
    /// Maximum tree depth (1 = stumps only).
    pub max_depth: usize,
    /// Growth policy for depth above 1.
    pub growth: GrowthPolicy,
    /// Distinct stump features grown into trees each iteration.
    pub tree_roots: usize,
    /// Leaf magnitude scales tried around the analytical optimum.
    pub magnitude_scales: Vec<Single>,
    /// Neighbouring bin offsets tried around each top stump.
    pub threshold_jitter: usize,
    /// Random stump candidates per iteration.
    pub random_candidates: usize,
    /// Oblique candidates per iteration (0 = off).
    pub oblique_candidates: usize,
    /// Boosting rounds on the in-memory sample (1 = off).
    pub boost_rounds: usize,
    /// Combination candidates (0 = off).
    pub combo_candidates: usize,
    /// Maximum candidates grafted per iteration.
    pub candidates: usize,
    /// Who owns a graft's three bias-1 constants.
    pub graft_constants: GraftConstants,
    /// Screen sample rate (`None` = every candidate is fully scored).
    pub screen_sample_rate: Option<Double>,
    /// Screen promotion threshold on the sampled score difference.
    pub screen_threshold: Double,
    /// Maximum candidates promoted to full scoring.
    pub promote_count: usize,
    /// Screen-rejected candidates fully scored to measure false negatives.
    pub explore_quota: usize,
    /// Tolerated |same-call full baseline − authoritative baseline|.
    pub baseline_drift_epsilon: Double,
    /// Parity absolute tolerance (`None` = skip parity).
    pub parity_abs: Option<Double>,
    /// Parity relative tolerance.
    pub parity_rel: Double,
    /// GPU preference.
    pub gpu: GpuMode,
    /// Keep per-iteration candidate directories.
    pub preserve_candidates: bool,
    /// Consecutive scorer failures tolerated before aborting.
    pub max_consecutive_scorer_failures: u32,
    /// Shared learnings cache root (`None` = off).
    pub learnings_dir: Option<String>,
    /// Name this machine files its learnings under (`None` = the hostname).
    pub learnings_host: Option<String>,
    /// Cached candidates replayed per iteration (0 = write only).
    pub learnings_replay: usize,
    /// How long a candidate that only ever failed is left alone.
    pub learnings_retry_after_secs: u64,
}

impl Default for ForestsConfig {
    fn default() -> (r: ForestsConfig)
        ensures
            r.creature@ == "creature.json"@,
            r.training_data@ == "training"@,
            r.output_dir@ == "."@,
            r.cache_dir is None,
            r.scorer_path@ == "rust_scorer"@,
            r.scorer_args@.len() == 0,
            r.timeout_seconds == DEFAULT_TIMEOUT_SECONDS,
            r.max_iterations is None,
            r.seed is None,
            r.min_improvement.bits == DEFAULT_MIN_IMPROVEMENT,
            r.bins == bins::DEFAULT_BINS,
            r.bin_sample_records == bins::DEFAULT_BIN_SAMPLE_RECORDS,
            r.bin_memory_budget_bytes == bins::DEFAULT_BIN_MEMORY_BUDGET_BYTES,
            r.chunk_records == DEFAULT_CHUNK_RECORDS,
            r.analysis_threads == 4,
            r.search_records == DEFAULT_SEARCH_RECORDS,
            r.row_sampling == RowSampling::Stride,
            r.feature_selection == FeatureSelection::All,
            r.feature_fraction.bits == 0x3fd0_0000_0000_0000u64,
            r.min_leaf_records.bits == 0x4049_0000_0000_0000u64,
            r.max_correction.bits == 0x3ff0_0000_0000_0000u64,
            r.min_gain.bits == 0,
            r.stump_kinds@ == seq![StumpKind::LeftOnly, StumpKind::RightOnly, StumpKind::TwoLeaf],
            r.top_k == 16,
            r.max_per_feature == 2,
            r.max_depth == 3,
            r.growth == GrowthPolicy::BestFirst,
            r.tree_roots == 8,
            r.magnitude_scales@ == seq![
                Single { bits: 0x3f80_0000u32 },
                Single { bits: 0x3f00_0000u32 },
                Single { bits: 0x3e80_0000u32 },
            ],
            r.threshold_jitter == 0,
            r.random_candidates == 4,
            r.oblique_candidates == 0,
            r.combo_candidates == 4,
            r.boost_rounds == 1,
            r.candidates == 64,
            r.graft_constants == GraftConstants::Shared,
            r.screen_sample_rate == Some(Double { bits: DEFAULT_SCREEN_SAMPLE_RATE }),
            r.screen_threshold.bits == 0,
            r.promote_count == 8,
            r.explore_quota == 1,
            r.baseline_drift_epsilon.bits == 0x3eb0_c6f7_a0b5_ed8du64,
            r.parity_abs == Some(Double { bits: 0x3e7a_d7f2_9abc_af48u64 }),
            r.parity_rel.bits == 0x3f1a_36e2_eb1c_432du64,
            r.gpu == GpuMode::Off,
            !r.preserve_candidates,
            r.max_consecutive_scorer_failures == 3,
            r.learnings_dir is None,
            r.learnings_host is None,
            r.learnings_replay == 8,
            r.learnings_retry_after_secs == DEFAULT_RETRY_AFTER_SECS,
            r.fault() is None,
    {
        let mut magnitude_scales: Vec<Single> = Vec::new();
        magnitude_scales.push(Single { bits: 0x3f80_0000 });
        magnitude_scales.push(Single { bits: 0x3f00_0000 });
        magnitude_scales.push(Single { bits: 0x3e80_0000 });
        assert(magnitude_scales@ =~= seq![
            Single { bits: 0x3f80_0000u32 },
            Single { bits: 0x3f00_0000u32 },
            Single { bits: 0x3e80_0000u32 },
        ]);
        ForestsConfig {
            creature: "creature.json".to_owned(),
            training_data: "training".to_owned(),
            output_dir: ".".to_owned(),
            cache_dir: None,
            scorer_path: "rust_scorer".to_owned(),
            scorer_args: Vec::new(),
            timeout_seconds: DEFAULT_TIMEOUT_SECONDS,
            max_iterations: None,
            seed: None,
            min_improvement: Double { bits: DEFAULT_MIN_IMPROVEMENT },
            bins: bins::DEFAULT_BINS,
            bin_sample_records: bins::DEFAULT_BIN_SAMPLE_RECORDS,
            bin_memory_budget_bytes: bins::DEFAULT_BIN_MEMORY_BUDGET_BYTES,
            chunk_records: DEFAULT_CHUNK_RECORDS,
            analysis_threads: 4,
            search_records: DEFAULT_SEARCH_RECORDS,
            row_sampling: RowSampling::Stride,
            feature_selection: FeatureSelection::All,
            feature_fraction: Double { bits: 0x3fd0_0000_0000_0000 },
            min_leaf_records: Double { bits: 0x4049_0000_0000_0000 },
            max_correction: Double::one(),
            min_gain: Double::zero(),
            stump_kinds: StumpKind::all(),
            top_k: 16,
            max_per_feature: 2,
            max_depth: 3,
            growth: GrowthPolicy::BestFirst,
            tree_roots: 8,
            magnitude_scales,
            threshold_jitter: 0,
            random_candidates: 4,
            oblique_candidates: 0,
            boost_rounds: 1,
            combo_candidates: 4,
            candidates: 64,
            graft_constants: GraftConstants::Shared,
            screen_sample_rate: Some(Double { bits: DEFAULT_SCREEN_SAMPLE_RATE }),
            screen_threshold: Double::zero(),
            promote_count: 8,
            explore_quota: 1,
            baseline_drift_epsilon: Double { bits: 0x3eb0_c6f7_a0b5_ed8d },
            parity_abs: Some(Double { bits: 0x3e7a_d7f2_9abc_af48 }),
            parity_rel: Double { bits: 0x3f1a_36e2_eb1c_432d },
            gpu: GpuMode::Off,
            preserve_candidates: false,
            max_consecutive_scorer_failures: 3,
            learnings_dir: None,
            learnings_host: None,
            learnings_replay: 8,
            learnings_retry_after_secs: DEFAULT_RETRY_AFTER_SECS,
        }
    }
}

/// `x > 0`.
pub open spec fn positive(x: Double) -> bool {
    x.above(Double { bits: 0 })
}

impl ForestsConfig {
    /// The first thing wrong with the configuration, in words that name the
    /// flag.
    pub open spec fn fault(&self) -> Option<Seq<char>> {
        let one = Double { bits: crate::floats::DOUBLE_ONE };
        if self.bins < 2 || self.bins > bins::MAX_BINS {
            Some("--bins must be in 2..=256"@)
        } else if self.screen_sample_rate matches Some(r) && !(positive(r) && one.above(r)) {
            Some("--screen-sample-rate must be in (0, 1); use 0 to disable"@)
        } else if !positive(self.min_improvement) {
            Some("--min-improvement must be > 0"@)
        } else if self.max_depth == 0 || self.max_depth > 3 {
            Some("--max-depth must be 1, 2 or 3"@)
        } else if self.boost_rounds == 0 || self.boost_rounds > 8 {
            Some("--boost-rounds must be in 1..=8"@)
        } else if self.candidates == 0 {
            Some("--candidates must be > 0"@)
        } else if self.analysis_threads == 0 {
            Some("--analysis-threads must be > 0"@)
        } else if !(positive(self.feature_fraction) && !self.feature_fraction.above(one)) {
            Some("--feature-fraction must be in (0, 1]"@)
        } else if self.stump_kinds@.len() == 0 {
            Some("--stump-kinds must name at least one kind"@)
        } else if self.magnitude_scales@.len() == 0 || exists|i: int|
            0 <= i < self.magnitude_scales@.len() && !(
            #[trigger] self.magnitude_scales@[i]).finite() {
            Some("--magnitude-scales must be finite and non-empty"@)
        } else if !positive(self.max_correction) {
            Some("--max-correction must be > 0"@)
        } else {
            None
        }
    }

    /// Validate cross-field constraints; error messages name the flag.
    pub fn validate(&self) -> (r: Result<(), String>)
        ensures
            match self.fault() {
                None => r is Ok,
                Some(m) => r matches Err(e) && e@ == m,
            },
    {
        let zero = Double::zero();
        let one = Double::one();
        if self.bins < 2 || self.bins > bins::MAX_BINS {
            return Err("--bins must be in 2..=256".to_owned());
        }
        if let Some(r) = self.screen_sample_rate {
            if !(r.gt(zero) && one.gt(r)) {
                return Err(
                    "--screen-sample-rate must be in (0, 1); use 0 to disable".to_owned(),
                );
            }
        }
        if !self.min_improvement.gt(zero) {
            return Err("--min-improvement must be > 0".to_owned());
        }
        if self.max_depth == 0 || self.max_depth > 3 {
            return Err("--max-depth must be 1, 2 or 3".to_owned());
        }
        if self.boost_rounds == 0 || self.boost_rounds > 8 {
            return Err("--boost-rounds must be in 1..=8".to_owned());
        }
        if self.candidates == 0 {
            return Err("--candidates must be > 0".to_owned());
        }
        if self.analysis_threads == 0 {
            return Err("--analysis-threads must be > 0".to_owned());
        }
        if !(self.feature_fraction.gt(zero) && !self.feature_fraction.gt(one)) {
            return Err("--feature-fraction must be in (0, 1]".to_owned());
        }
        if self.stump_kinds.len() == 0 {
            return Err("--stump-kinds must name at least one kind".to_owned());
        }
        if self.magnitude_scales.len() == 0 {
            return Err("--magnitude-scales must be finite and non-empty".to_owned());
        }
        let mut i: usize = 0;
        while i < self.magnitude_scales.len() && self.magnitude_scales[i].is_finite()
            invariant
                i <= self.magnitude_scales@.len(),
                forall|j: int| 0 <= j < i ==> (#[trigger] self.magnitude_scales@[j]).finite(),
            decreases self.magnitude_scales@.len() - i,
        {
            i = i + 1;
        }
        if i < self.magnitude_scales.len() {
            assert(!self.magnitude_scales@[i as int].finite());
            return Err("--magnitude-scales must be finite and non-empty".to_owned());
        }
        if !self.max_correction.gt(zero) {
            return Err("--max-correction must be > 0".to_owned());
        }
        Ok(())
    }

    /// Cache directory (defaults to the training directory).
    pub fn cache_dir(&self) -> (r: String)
        ensures
            r@ == (match self.cache_dir {
                Some(d) => d@,
                None => self.training_data@,
            }),
    {
        match &self.cache_dir {
            Some(d) => d.clone(),
            None => self.training_data.clone(),
        }
    }

    /// The shared cache is read as well as written: with nothing to replay it is
    /// only written to.
    pub fn reads_learnings(&self) -> (r: bool)
        ensures
            r == (self.learnings_replay > 0),
    {
        self.learnings_replay > 0
    }

    /// Search controls derived from the configuration.
    pub fn search_controls(&self) -> (r: SearchControls)
        ensures
            r.min_leaf_records == self.min_leaf_records,
            r.max_correction == self.max_correction,
            r.min_gain == self.min_gain,
            r.kinds@ == self.stump_kinds@,
            r.top_k == self.top_k,
            r.max_per_feature == self.max_per_feature,
    {
        let kinds = self.stump_kinds.clone();
        assert(kinds@ =~= self.stump_kinds@);
        SearchControls {
            min_leaf_records: self.min_leaf_records,
            max_correction: self.max_correction,
            min_gain: self.min_gain,
            kinds,
            top_k: self.top_k,
            max_per_feature: self.max_per_feature,
        }
    }

    /// Parity policy derived from the configuration.
    pub fn parity_policy(&self) -> (r: ParityPolicy)
        ensures
            r == (match self.parity_abs {
                Some(abs) => ParityPolicy::Abort { abs, rel: self.parity_rel },
                None => ParityPolicy::Skip,
            }),
    {
        match self.parity_abs {
            Some(abs) => ParityPolicy::Abort { abs, rel: self.parity_rel },
            None => ParityPolicy::Skip,
        }
    }
}

/// The scales of corrections are all finite, and there is one.
pub open spec fn scales_are_usable(scales: Seq<Single>) -> bool {
    scales.len() > 0 && forall|i: int| 0 <= i < scales.len() ==> (#[trigger] scales[i]).finite()
}

/// A configuration is refused exactly when one of its limits is broken.
pub proof fn sound_configurations_pass(c: ForestsConfig)
    ensures
        c.fault() is None <==> {
            &&& 2 <= c.bins <= 256
            &&& c.screen_sample_rate matches Some(r) ==> r.above(Double { bits: 0 }) && (Double {
                bits: 0x3ff0_0000_0000_0000,
            }).above(r)
            &&& c.min_improvement.above(Double { bits: 0 })
            &&& 1 <= c.max_depth <= 3
            &&& 1 <= c.boost_rounds <= 8
            &&& c.candidates >= 1
            &&& c.analysis_threads >= 1
            &&& c.feature_fraction.above(Double { bits: 0 })
            &&& !c.feature_fraction.above(Double { bits: 0x3ff0_0000_0000_0000 })
            &&& c.stump_kinds@.len() >= 1
            &&& scales_are_usable(c.magnitude_scales@)
            &&& c.max_correction.above(Double { bits: 0 })
        },
{
}

} // verus!
