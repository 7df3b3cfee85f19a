//! Auxiliary subcommands: matrix export and XGBoost import.

use vstd::prelude::*;
use vstd::string::*;

use crate::candidates::{Candidate, CandidateConfig, Scale};
use crate::config::ForestsConfig;
use crate::floats::{Double, Single, SINGLE_ONE};
use crate::journal::{CandidateRecord, DiscardRecord, ExperimentRecord, Setting};
use crate::journal;
use crate::patch;
use crate::patch::Patch;
use crate::promote::PromoteConfig;
use crate::text;
use crate::text::decimal_text;

verus! {

/// Backend label of imported trees.
pub const IMPORT_BACKEND: &'static str = "external:xgboost";

/// Search set label of imported trees.
pub const IMPORT_SET: &'static str = "xgboost-dump";

/// Strategy label of an import.
pub const IMPORT_STRATEGY: &'static str = "xgboost-import";

/// What is said when no tree of a dump could be converted.
pub const NOTHING_CONVERTED: &'static str = "no XGBoost tree could be converted";

/// Refuse an output that the creature does not have.
pub fn check_output(output: usize, width: usize) -> (r: Result<(), String>)
    ensures
        match r {
            Ok(()) => output < width,
            Err(m) => output >= width && m@ == "--output "@ + text::decimal(output as nat)
                + " >= creature output width "@ + text::decimal(width as nat),
        },
{
    if output < width {
        return Ok(());
    }
    let mut m = "--output ".to_owned();
    m.append(decimal_text(output as u64).as_str());
    m.append(" >= creature output width ");
    m.append(decimal_text(width as u64).as_str());
    Err(m)
}

/// The note that names the dump a tree came from.
pub fn dump_note(path: &str) -> (r: String)
    ensures
        r@ == "dump="@ + path@,
{
    let mut note = "dump=".to_owned();
    note.append(path);
    note
}

/// An import needs a tree that could be converted.
pub fn check_converted(patches: &Vec<Patch>) -> (r: Result<(), String>)
    ensures
        match r {
            Ok(()) => patches@.len() > 0,
            Err(m) => patches@.len() == 0 && m@ == NOTHING_CONVERTED@,
        },
{
    if patches.len() == 0 {
        Err(NOTHING_CONVERTED.to_owned())
    } else {
        Ok(())
    }
}

/// Imported trees are grafted as they are: no scaled, random or jittered copies.
pub fn import_generation(cfg: &ForestsConfig) -> (r: CandidateConfig)
    ensures
        r.magnitude_scales@.len() == 1,
        r.magnitude_scales@[0].value == (Single { bits: SINGLE_ONE }),
        r.magnitude_scales@[0].text@ == "1"@,
        r.random_candidates == 0,
        r.max_candidates == cfg.candidates,
        r.backend@ == IMPORT_BACKEND@,
        r.search_records == 0,
        r.threshold_jitter == 0,
        r.notes@.len() == 0,
        r.graft_constants == cfg.graft_constants,
{
    let mut scales: Vec<Scale> = Vec::new();
    scales.push(Scale { value: Single::one(), text: "1".to_owned() });
    CandidateConfig {
        magnitude_scales: scales,
        random_candidates: 0,
        max_candidates: cfg.candidates,
        backend: IMPORT_BACKEND.to_owned(),
        search_records: 0,
        threshold_jitter: 0,
        notes: Vec::new(),
        graft_constants: cfg.graft_constants,
    }
}

/// Promotion controls from the configuration, with the screen rate and its phase
/// given.
pub open spec fn promotion(
    cfg: ForestsConfig,
    rate: Option<Double>,
    phase: u64,
    baseline: Double,
) -> PromoteConfig {
    PromoteConfig {
        screen_sample_rate: rate,
        screen_phase: phase,
        screen_threshold: cfg.screen_threshold,
        promote_count: cfg.promote_count,
        explore_quota: cfg.explore_quota,
        min_improvement: cfg.min_improvement,
        authoritative_baseline: baseline,
        baseline_drift_epsilon: cfg.baseline_drift_epsilon,
        preserve_dirs: cfg.preserve_candidates,
    }
}

/// Promotion controls from the configuration.
pub fn promotion_config(
    cfg: &ForestsConfig,
    rate: Option<Double>,
    phase: u64,
    baseline: Double,
) -> (r: PromoteConfig)
    ensures
        r == promotion(*cfg, rate, phase, baseline),
{
    PromoteConfig {
        screen_sample_rate: rate,
        screen_phase: phase,
        screen_threshold: cfg.screen_threshold,
        promote_count: cfg.promote_count,
        explore_quota: cfg.explore_quota,
        min_improvement: cfg.min_improvement,
        authoritative_baseline: baseline,
        baseline_drift_epsilon: cfg.baseline_drift_epsilon,
        preserve_dirs: cfg.preserve_candidates,
    }
}

/// Promotion controls of an import: the same screen and full path as native
/// candidates, in the screen's first phase.
pub fn import_promotion(cfg: &ForestsConfig, baseline: Double) -> (r: PromoteConfig)
    ensures
        r == promotion(*cfg, cfg.screen_sample_rate, 0, baseline),
{
    promotion_config(cfg, cfg.screen_sample_rate, 0, baseline)
}

/// The journal entry of an imported candidate before it is scored: it has no
/// predicted gain and no affected records, and it is described by its own patch.
pub open spec fn imported_entry(c: Candidate, r: CandidateRecord) -> bool {
    &&& r.id@ == c.id@
    &&& r.strategy@ == c.patch.provenance.strategy@
    &&& r.backend@ == c.patch.provenance.backend@
    &&& r.depth == c.patch@.root.depth()
    &&& patch::ascending(r.features@)
    &&& forall|f: usize|
        #![trigger r.features@.contains(f)]
        r.features@.contains(f) <==> c.patch@.root.mentions(f)
    &&& r.predicted_gain == (Double { bits: 0 })
    &&& r.affected_records == 0
    &&& r.affected_fraction == (Double { bits: 0 })
    &&& r.screen_score is None
    &&& r.screen_delta is None
    &&& !r.promoted
    &&& !r.bypass
    &&& r.full_score is None
    &&& r.full_delta is None
    &&& r.patch@ == c.patch@
    &&& patch::patch_models(r.combo@) == patch::patch_models(c.combo@)
}

/// The journal entry of an imported candidate before it is scored.
pub fn import_entry(c: &Candidate) -> (r: CandidateRecord)
    requires
        c.patch@.root.depth() <= usize::MAX,
    ensures
        imported_entry(*c, r),
{
    let combo = patch::copy_patches(&c.combo);
    CandidateRecord {
        id: c.id.clone(),
        strategy: c.patch.provenance.strategy.clone(),
        backend: c.patch.provenance.backend.clone(),
        depth: c.patch.root.depth(),
        features: c.patch.root.features(),
        predicted_gain: Double::zero(),
        affected_records: 0,
        affected_fraction: Double::zero(),
        screen_score: None,
        screen_delta: None,
        promoted: false,
        bypass: false,
        full_score: None,
        full_delta: None,
        patch: c.patch.clone(),
        combo,
    }
}

/// The record of an import before it is scored: its first and only iteration.
pub fn import_record(
    now_unix: u64,
    checksum: &str,
    baseline: Double,
    inputs: usize,
    discarded: Vec<DiscardRecord>,
    candidates: &Vec<Candidate>,
) -> (r: ExperimentRecord)
    requires
        forall|i: int|
            0 <= i < candidates@.len() ==> (#[trigger] candidates@[i]).patch@.root.depth()
                <= usize::MAX,
        candidates@.len() + discarded@.len() <= u64::MAX,
    ensures
        r.iteration == 1,
        r.timestamp_unix == now_unix,
        r.incumbent_checksum@ == checksum@,
        r.baseline_score == baseline,
        r.search_backend@ == IMPORT_BACKEND@,
        r.search_set@ == IMPORT_SET@,
        r.search_records == 0,
        r.search_features == inputs,
        text::texts(r.strategies@) == seq![IMPORT_STRATEGY@],
        r.search_ms == 0,
        r.graft_ms == 0,
        r.candidates_generated == candidates@.len() + discarded@.len(),
        r.candidates_discarded == discarded@.len(),
        r.discarded == discarded,
        r.candidates@.len() == candidates@.len(),
        forall|i: int|
            0 <= i < candidates@.len() ==> imported_entry(
                candidates@[i],
                #[trigger] r.candidates@[i],
            ),
        r.screen is None,
        r.full is None,
        r.winner is None,
        r.improvement is None,
        !r.accepted,
        r.new_incumbent_checksum is None,
        r.screen_false_positives == 0,
        r.screen_false_negatives == 0,
        r.scorer_error is None,
{
    let n: usize = candidates.len();
    let mut entries: Vec<CandidateRecord> = Vec::new();
    for i in 0..n
        invariant
            n == candidates@.len(),
            forall|i: int|
                0 <= i < candidates@.len() ==> (#[trigger] candidates@[i]).patch@.root.depth()
                    <= usize::MAX,
            entries@.len() == i,
            forall|k: int|
                0 <= k < i ==> imported_entry(candidates@[k], #[trigger] entries@[k]),
    {
        entries.push(import_entry(&candidates[i]));
    }
    let generated: u64 = n as u64 + discarded.len() as u64;
    let mut strategies: Vec<String> = Vec::new();
    strategies.push(IMPORT_STRATEGY.to_owned());
    assert(text::texts(strategies@) =~= seq![IMPORT_STRATEGY@]);
    let setting = Setting {
        iteration: 1,
        now_unix,
        incumbent_checksum: checksum.to_owned(),
        baseline_score: baseline,
        search_backend: IMPORT_BACKEND.to_owned(),
        search_set: IMPORT_SET.to_owned(),
        search_records: 0,
        search_features: inputs as u64,
        strategies,
        search_ms: 0,
        graft_ms: 0,
    };
    journal::open_record(setting, generated, discarded, entries)
}

/// Promotion follows the configuration: the threshold of the screen and the least
/// improvement are kept apart, and so are the promoted and the explored.
pub proof fn promotion_follows_the_configuration(
    cfg: ForestsConfig,
    rate: Option<Double>,
    phase: u64,
    baseline: Double,
)
    ensures
        ({
            let p = promotion(cfg, rate, phase, baseline);
            &&& p.screen_sample_rate == rate
            &&& p.screen_phase == phase
            &&& p.screen_threshold == cfg.screen_threshold
            &&& p.min_improvement == cfg.min_improvement
            &&& p.promote_count == cfg.promote_count
            &&& p.explore_quota == cfg.explore_quota
            &&& p.authoritative_baseline == baseline
            &&& p.baseline_drift_epsilon == cfg.baseline_drift_epsilon
            &&& p.preserve_dirs == cfg.preserve_candidates
        }),
{
}

} // verus!
