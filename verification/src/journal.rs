//! The append-only journal of a run.
//!
//! Every line is one record. A malformed line is an error on read: a broken
//! journal must never be read as an empty run.

use vstd::prelude::*;
use vstd::string::*;

use crate::baseline::AuthoritativeBaseline;
use crate::candidates;
use crate::candidates::Candidate;
use crate::floats::Double;
use crate::patch;
use crate::patch::Patch;
use crate::promote::{FullOutcome, PromotionOutcome, ScreenOutcome};
use crate::scorer;
use crate::text;
use crate::text::{contains_text, decimal_text, trim};

verus! {

/// Per-candidate journal entry.
#[derive(Debug, PartialEq)]
pub struct CandidateRecord {
    /// Candidate id.
    pub id: String,
    /// Strategy label.
    pub strategy: String,
    /// Search backend.
    pub backend: String,
    /// Tree depth.
    pub depth: usize,
    /// Features referenced.
    pub features: Vec<usize>,
    /// Predicted proxy gain.
    pub predicted_gain: Double,
    /// Affected records on the search set.
    pub affected_records: u64,
    /// Affected fraction on the search set.
    pub affected_fraction: Double,
    /// Screen (sampled, non-authoritative) score.
    pub screen_score: Option<Double>,
    /// Screen score less the screen baseline score.
    pub screen_delta: Option<Double>,
    /// Promoted to full scoring by the screen.
    pub promoted: bool,
    /// Sent to full scoring by the exploratory bypass quota.
    pub bypass: bool,
    /// Authoritative full-corpus score.
    pub full_score: Option<Double>,
    /// Full score less the same-call full baseline score.
    pub full_delta: Option<Double>,
    /// The patch itself.
    pub patch: Patch,
    /// Further patches of a combination.
    pub combo: Vec<Patch>,
}

/// A candidate that came to nothing before scoring.
#[derive(Debug, PartialEq)]
pub struct DiscardRecord {
    /// Candidate id.
    pub id: String,
    /// Why.
    pub reason: String,
}

/// Screen stage summary.
#[derive(Debug, Clone, Copy, PartialEq, Eq, Structural)]
pub struct ScreenSummary {
    /// Sample rate.
    pub sample_rate: Double,
    /// Sample phase.
    pub sample_phase: u64,
    /// Baseline score under the sample.
    pub baseline_score: Double,
    /// Candidates screened.
    pub screened: u64,
    /// Candidates promoted.
    pub promoted: u64,
    /// Bypass candidates.
    pub bypass: u64,
    /// Scorer milliseconds.
    pub scorer_ms: u64,
}

/// Full-corpus stage summary.
#[derive(Debug, Clone, Copy, PartialEq, Eq, Structural)]
pub struct FullSummary {
    /// Same-call baseline score.
    pub baseline_score: Double,
    /// Same-call baseline less the authoritative one.
    pub baseline_drift: Double,
    /// Candidates scored.
    pub scored: u64,
    /// Scorer milliseconds.
    pub scorer_ms: u64,
}

/// One evolution iteration.
#[derive(Debug, PartialEq)]
pub struct ExperimentRecord {
    /// Iteration, counted from one.
    pub iteration: u64,
    /// Unix seconds.
    pub timestamp_unix: u64,
    /// Incumbent searched.
    pub incumbent_checksum: String,
    /// Authoritative baseline score of that incumbent.
    pub baseline_score: Double,
    /// Backend that produced split statistics.
    pub search_backend: String,
    /// Search set label.
    pub search_set: String,
    /// Records searched.
    pub search_records: u64,
    /// Features searched.
    pub search_features: u64,
    /// Strategy labels used this iteration.
    pub strategies: Vec<String>,
    /// Search milliseconds.
    pub search_ms: u64,
    /// Graft milliseconds.
    pub graft_ms: u64,
    /// Candidates generated, before grafting.
    pub candidates_generated: u64,
    /// Candidates that grafting discarded.
    pub candidates_discarded: u64,
    /// Those candidates.
    pub discarded: Vec<DiscardRecord>,
    /// Candidate details.
    pub candidates: Vec<CandidateRecord>,
    /// Screen stage.
    pub screen: Option<ScreenSummary>,
    /// Full stage.
    pub full: Option<FullSummary>,
    /// Winner id.
    pub winner: Option<String>,
    /// Authoritative improvement of the winner.
    pub improvement: Option<Double>,
    /// Whether a winner was accepted.
    pub accepted: bool,
    /// Checksum of the new incumbent when accepted.
    pub new_incumbent_checksum: Option<String>,
    /// Promoted candidates whose full result did not clear the threshold.
    pub screen_false_positives: u64,
    /// Bypass candidates whose full result cleared the threshold.
    pub screen_false_negatives: u64,
    /// Scorer error, if the iteration failed.
    pub scorer_error: Option<String>,
}

/// Run summary.
#[derive(Debug, PartialEq)]
pub struct SummaryRecord {
    /// Unix seconds.
    pub timestamp_unix: u64,
    /// Why the run stopped.
    pub stop_reason: String,
    /// Iterations run.
    pub iterations: u64,
    /// Accepted winners.
    pub acceptances: u64,
    /// Opening authoritative score.
    pub opening_score: Double,
    /// Final authoritative score.
    pub final_score: Double,
    /// Wall milliseconds.
    pub wall_ms: u64,
    /// Final incumbent checksum.
    pub final_checksum: String,
}

/// Journal line.
#[derive(Debug, PartialEq)]
pub enum JournalLine {
    /// First line of a run.
    RunHeader {
        /// Unix seconds.
        timestamp_unix: u64,
        /// Seed used.
        seed: u64,
        /// `supplied` or `drawn`.
        seed_source: String,
        /// Tool version.
        version: String,
        /// Source creature path.
        source_creature: String,
        /// Incumbent checksum.
        incumbent_checksum: String,
        /// Corpus identity.
        corpus_identity: String,
        /// Bin cache identity.
        bin_cache: String,
        /// Effective configuration, as JSON text.
        config: String,
    },
    /// Authoritative baseline (also written after each acceptance).
    Baseline(AuthoritativeBaseline),
    /// One iteration.
    Experiment(Box<ExperimentRecord>),
    /// Final summary.
    Summary(SummaryRecord),
}

/// What is said of a malformed line, counted from one.
pub open spec fn line_error(number: nat, error: Seq<char>) -> Seq<char> {
    "journal line "@ + text::decimal(number) + ": "@ + error
}

/// The lines that hold a record, up to `n`: those that are not blank.
pub open spec fn record_lines(lines: Seq<String>, n: int) -> Seq<usize>
    decreases n,
{
    if n <= 0 {
        Seq::empty()
    } else if text::bare(lines[n - 1]@).len() == 0 {
        record_lines(lines, n - 1)
    } else {
        record_lines(lines, n - 1).push((n - 1) as usize)
    }
}

/// Line `i` holds a record that could not be read.
pub open spec fn is_broken(lines: Seq<String>, errors: Seq<Option<String>>, i: int) -> bool {
    text::bare(lines[i]@).len() > 0 && errors[i] is Some
}

/// Read a journal: `errors` tells of each line why it could not be parsed, if it
/// could not. Blank lines are skipped. The first malformed line is an error.
pub fn read_journal(lines: &Vec<String>, errors: &Vec<Option<String>>) -> (r: Result<
    Vec<usize>,
    String,
>)
    requires
        errors@.len() == lines@.len(),
        lines@.len() < usize::MAX,
    ensures
        match r {
            Ok(kept) => {
                &&& forall|i: int| 0 <= i < lines@.len() ==> !#[trigger] is_broken(lines@, errors@, i)
                &&& kept@ == record_lines(lines@, lines@.len() as int)
            },
            Err(message) => exists|i: int|
                {
                    &&& 0 <= i < lines@.len()
                    &&& #[trigger] is_broken(lines@, errors@, i)
                    &&& forall|j: int| 0 <= j < i ==> !#[trigger] is_broken(lines@, errors@, j)
                    &&& message@ == line_error((i + 1) as nat, errors@[i]->0@)
                },
        },
{
    let mut out: Vec<usize> = Vec::new();
    let total: usize = lines.len();
    for i in 0..total
        invariant
            total == lines@.len(),
            total < usize::MAX,
            errors@.len() == lines@.len(),
            out@ == record_lines(lines@, i as int),
            forall|j: int| 0 <= j < i ==> !#[trigger] is_broken(lines@, errors@, j),
    {
        let bare = trim(lines[i].as_str());
        if bare.as_str().unicode_len() > 0 {
            if let Some(error) = &errors[i] {
                let mut message = "journal line ".to_owned();
                message.append(decimal_text(i as u64 + 1).as_str());
                message.append(": ");
                message.append(error.as_str());
                assert(is_broken(lines@, errors@, i as int));
                return Err(message);
            }
            out.push(i);
        } else {
            assert(!is_broken(lines@, errors@, i as int));
        }
    }
    Ok(out)
}

/// What the screen says of one candidate.
pub open spec fn screened_entry(
    before: CandidateRecord,
    screen: ScreenOutcome,
    delta: Option<Double>,
) -> CandidateRecord {
    let at = scorer::place(screen.scores@, before.id@, 0);
    CandidateRecord {
        screen_score: if at < screen.scores@.len() {
            Some(screen.scores@[at].1.score)
        } else {
            before.screen_score
        },
        screen_delta: if at < screen.scores@.len() {
            delta
        } else {
            before.screen_delta
        },
        promoted: text::texts(screen.promoted@).contains(before.id@),
        bypass: text::texts(screen.bypass@).contains(before.id@),
        ..before
    }
}

/// Enter the screen stage into a record. `deltas` holds, per candidate, its
/// sampled score less the sampled baseline.
pub fn enter_screen(
    record: &mut ExperimentRecord,
    screen: &ScreenOutcome,
    deltas: &Vec<Option<Double>>,
)
    requires
        deltas@.len() == old(record).candidates@.len(),
        screen.scores@.len() > 0,
    ensures
        final(record).candidates@.len() == old(record).candidates@.len(),
        forall|i: int|
            0 <= i < old(record).candidates@.len() ==> #[trigger] final(record).candidates@[i]
                == screened_entry(old(record).candidates@[i], *screen, deltas@[i]),
        final(record).screen == Some(
            ScreenSummary {
                sample_rate: screen.rate,
                sample_phase: screen.phase,
                baseline_score: screen.baseline_score,
                screened: (screen.scores@.len() - 1) as u64,
                promoted: screen.promoted@.len() as u64,
                bypass: screen.bypass@.len() as u64,
                scorer_ms: screen.scorer_ms,
            },
        ),
        *final(record) == (ExperimentRecord {
            candidates: final(record).candidates,
            screen: final(record).screen,
            ..*old(record)
        }),
{
    record.screen = Some(
        ScreenSummary {
            sample_rate: screen.rate,
            sample_phase: screen.phase,
            baseline_score: screen.baseline_score,
            screened: (screen.scores.len() - 1) as u64,
            promoted: screen.promoted.len() as u64,
            bypass: screen.bypass.len() as u64,
            scorer_ms: screen.scorer_ms,
        },
    );
    let ghost start = record.candidates@;
    let ghost entered = *record;
    let mut i: usize = 0;
    while i < record.candidates.len()
        invariant
            deltas@.len() == start.len(),
            record.candidates@.len() == start.len(),
            i <= start.len(),
            forall|k: int|
                0 <= k < i ==> #[trigger] record.candidates@[k] == screened_entry(
                    start[k],
                    *screen,
                    deltas@[k],
                ),
            forall|k: int| i <= k < start.len() ==> #[trigger] record.candidates@[k] == start[k],
            *record == (ExperimentRecord { candidates: record.candidates, ..entered }),
        decreases start.len() - i,
    {
        let at: usize = scorer::find(&screen.scores, record.candidates[i].id.as_str());
        let promoted = contains_text(&screen.promoted, record.candidates[i].id.as_str());
        let bypass = contains_text(&screen.bypass, record.candidates[i].id.as_str());
        let found = at < screen.scores.len();
        let score: Option<Double> = if found {
            Some(screen.scores[at].1.score)
        } else {
            None
        };
        let delta: Option<Double> = deltas[i];
        note_screen(&mut record.candidates[i], found, score, delta, promoted, bypass);
        i = i + 1;
    }
}

fn note_screen(
    c: &mut CandidateRecord,
    found: bool,
    score: Option<Double>,
    delta: Option<Double>,
    promoted: bool,
    bypass: bool,
)
    ensures
        *final(c) == (CandidateRecord {
            screen_score: if found {
                score
            } else {
                old(c).screen_score
            },
            screen_delta: if found {
                delta
            } else {
                old(c).screen_delta
            },
            promoted,
            bypass,
            ..*old(c)
        }),
{
    if found {
        c.screen_score = score;
        c.screen_delta = delta;
    }
    c.promoted = promoted;
    c.bypass = bypass;
}

/// Without a screen every candidate counts as promoted.
pub fn enter_unscreened(record: &mut ExperimentRecord)
    ensures
        final(record).candidates@.len() == old(record).candidates@.len(),
        forall|i: int|
            0 <= i < old(record).candidates@.len() ==> #[trigger] final(record).candidates@[i] == (
            CandidateRecord { promoted: true, ..old(record).candidates@[i] }),
        *final(record) == (ExperimentRecord {
            candidates: final(record).candidates,
            ..*old(record)
        }),
{
    let ghost start = record.candidates@;
    let ghost entered = *record;
    let mut i: usize = 0;
    while i < record.candidates.len()
        invariant
            record.candidates@.len() == start.len(),
            i <= start.len(),
            forall|k: int|
                0 <= k < i ==> #[trigger] record.candidates@[k] == (CandidateRecord {
                    promoted: true,
                    ..start[k]
                }),
            forall|k: int| i <= k < start.len() ==> #[trigger] record.candidates@[k] == start[k],
            *record == (ExperimentRecord { candidates: record.candidates, ..entered }),
        decreases start.len() - i,
    {
        mark_promoted(&mut record.candidates[i]);
        i = i + 1;
    }
}

fn mark_promoted(c: &mut CandidateRecord)
    ensures
        *final(c) == (CandidateRecord { promoted: true, ..*old(c) }),
{
    c.promoted = true;
}

/// What the full stage says of one candidate.
pub open spec fn scored_entry(
    before: CandidateRecord,
    full: FullOutcome,
    delta: Option<Double>,
) -> CandidateRecord {
    let at = scorer::place(full.scores@, before.id@, 0);
    if at < full.scores@.len() {
        CandidateRecord { full_score: Some(full.scores@[at].1.score), full_delta: delta, ..before }
    } else {
        before
    }
}

/// Enter the full stage into a record. `deltas` holds, per candidate, its full
/// score less the same-call baseline.
pub fn enter_full(record: &mut ExperimentRecord, full: &FullOutcome, deltas: &Vec<Option<Double>>)
    requires
        deltas@.len() == old(record).candidates@.len(),
        full.scores@.len() > 0,
    ensures
        final(record).candidates@.len() == old(record).candidates@.len(),
        forall|i: int|
            0 <= i < old(record).candidates@.len() ==> #[trigger] final(record).candidates@[i]
                == scored_entry(old(record).candidates@[i], *full, deltas@[i]),
        final(record).full == Some(
            FullSummary {
                baseline_score: full.baseline_score,
                baseline_drift: full.baseline_drift,
                scored: (full.scores@.len() - 1) as u64,
                scorer_ms: full.scorer_ms,
            },
        ),
        *final(record) == (ExperimentRecord {
            candidates: final(record).candidates,
            full: final(record).full,
            ..*old(record)
        }),
{
    record.full = Some(
        FullSummary {
            baseline_score: full.baseline_score,
            baseline_drift: full.baseline_drift,
            scored: (full.scores.len() - 1) as u64,
            scorer_ms: full.scorer_ms,
        },
    );
    let ghost start = record.candidates@;
    let ghost entered = *record;
    let mut i: usize = 0;
    while i < record.candidates.len()
        invariant
            deltas@.len() == start.len(),
            record.candidates@.len() == start.len(),
            i <= start.len(),
            forall|k: int|
                0 <= k < i ==> #[trigger] record.candidates@[k] == scored_entry(
                    start[k],
                    *full,
                    deltas@[k],
                ),
            forall|k: int| i <= k < start.len() ==> #[trigger] record.candidates@[k] == start[k],
            *record == (ExperimentRecord { candidates: record.candidates, ..entered }),
        decreases start.len() - i,
    {
        let at: usize = scorer::find(&full.scores, record.candidates[i].id.as_str());
        if at < full.scores.len() {
            let score: Double = full.scores[at].1.score;
            let delta: Option<Double> = deltas[i];
            note_full(&mut record.candidates[i], score, delta);
        }
        i = i + 1;
    }
}

fn note_full(c: &mut CandidateRecord, score: Double, delta: Option<Double>)
    ensures
        *final(c) == (CandidateRecord {
            full_score: Some(score),
            full_delta: delta,
            ..*old(c)
        }),
{
    c.full_score = Some(score);
    c.full_delta = delta;
}

/// An entry after both stages. Without a screen every candidate counts as
/// promoted.
pub open spec fn judged_entry(
    before: CandidateRecord,
    outcome: PromotionOutcome,
    screen_delta: Option<Double>,
    full_delta: Option<Double>,
) -> CandidateRecord {
    let ranked = match outcome.screen {
        Some(screen) => screened_entry(before, screen, screen_delta),
        None => CandidateRecord { promoted: true, ..before },
    };
    match outcome.full {
        Some(full) => scored_entry(ranked, full, full_delta),
        None => ranked,
    }
}

/// Summary of a screen stage.
pub open spec fn screen_summary(screen: ScreenOutcome) -> ScreenSummary {
    ScreenSummary {
        sample_rate: screen.rate,
        sample_phase: screen.phase,
        baseline_score: screen.baseline_score,
        screened: (screen.scores@.len() - 1) as u64,
        promoted: screen.promoted@.len() as u64,
        bypass: screen.bypass@.len() as u64,
        scorer_ms: screen.scorer_ms,
    }
}

/// Summary of a full stage.
pub open spec fn full_summary(full: FullOutcome) -> FullSummary {
    FullSummary {
        baseline_score: full.baseline_score,
        baseline_drift: full.baseline_drift,
        scored: (full.scores@.len() - 1) as u64,
        scorer_ms: full.scorer_ms,
    }
}

/// Enter the outcome of a cohort into a record: both stages, the counts of wrong
/// screen calls, and a veto as the scorer's error.
pub fn enter_outcome(
    record: &mut ExperimentRecord,
    outcome: &PromotionOutcome,
    screen_deltas: &Vec<Option<Double>>,
    full_deltas: &Vec<Option<Double>>,
)
    requires
        screen_deltas@.len() == old(record).candidates@.len(),
        full_deltas@.len() == old(record).candidates@.len(),
        outcome.screen matches Some(screen) ==> screen.scores@.len() > 0,
        outcome.full matches Some(full) ==> full.scores@.len() > 0,
    ensures
        final(record).candidates@.len() == old(record).candidates@.len(),
        forall|i: int|
            0 <= i < old(record).candidates@.len() ==> #[trigger] final(record).candidates@[i]
                == judged_entry(
                old(record).candidates@[i],
                *outcome,
                screen_deltas@[i],
                full_deltas@[i],
            ),
        final(record).screen == (match outcome.screen {
            Some(screen) => Some(screen_summary(screen)),
            None => old(record).screen,
        }),
        final(record).full == (match outcome.full {
            Some(full) => Some(full_summary(full)),
            None => old(record).full,
        }),
        match outcome.veto {
            Some(veto) => final(record).scorer_error matches Some(e) && e@ == veto@,
            None => final(record).scorer_error == old(record).scorer_error,
        },
        *final(record) == (ExperimentRecord {
            candidates: final(record).candidates,
            screen: final(record).screen,
            full: final(record).full,
            screen_false_positives: outcome.false_positives,
            screen_false_negatives: outcome.false_negatives,
            scorer_error: final(record).scorer_error,
            ..*old(record)
        }),
{
    match &outcome.screen {
        Some(screen) => enter_screen(record, screen, screen_deltas),
        None => enter_unscreened(record),
    }
    if let Some(full) = &outcome.full {
        enter_full(record, full, full_deltas);
    }
    record.screen_false_positives = outcome.false_positives;
    record.screen_false_negatives = outcome.false_negatives;
    if let Some(veto) = &outcome.veto {
        record.scorer_error = Some(veto.clone());
    }
}

/// Enter an accepted winner into a record.
pub fn enter_acceptance(
    record: &mut ExperimentRecord,
    winner: &str,
    improvement: Double,
    new_checksum: &str,
)
    ensures
        final(record).winner matches Some(w) && w@ == winner@,
        final(record).new_incumbent_checksum matches Some(c) && c@ == new_checksum@,
        *final(record) == (ExperimentRecord {
            winner: final(record).winner,
            improvement: Some(improvement),
            accepted: true,
            new_incumbent_checksum: final(record).new_incumbent_checksum,
            ..*old(record)
        }),
{
    record.winner = Some(winner.to_owned());
    record.improvement = Some(improvement);
    record.accepted = true;
    record.new_incumbent_checksum = Some(new_checksum.to_owned());
}

/// What surrounds the scoring of a cohort.
#[derive(Debug)]
pub struct Setting {
    /// Iteration.
    pub iteration: u64,
    /// Now, in Unix seconds.
    pub now_unix: u64,
    /// Incumbent checksum.
    pub incumbent_checksum: String,
    /// Authoritative score of the incumbent.
    pub baseline_score: Double,
    /// Search backend.
    pub search_backend: String,
    /// Search set label.
    pub search_set: String,
    /// Rows searched.
    pub search_records: u64,
    /// Features searched.
    pub search_features: u64,
    /// Strategies used.
    pub strategies: Vec<String>,
    /// Search milliseconds.
    pub search_ms: u64,
    /// Graft milliseconds.
    pub graft_ms: u64,
}

/// The record of a cohort before it is scored. `generated` counts what was
/// offered for grafting.
pub fn open_record(
    setting: Setting,
    generated: u64,
    discarded: Vec<DiscardRecord>,
    candidates: Vec<CandidateRecord>,
) -> (r: ExperimentRecord)
    ensures
        r == (ExperimentRecord {
            iteration: setting.iteration,
            timestamp_unix: setting.now_unix,
            incumbent_checksum: setting.incumbent_checksum,
            baseline_score: setting.baseline_score,
            search_backend: setting.search_backend,
            search_set: setting.search_set,
            search_records: setting.search_records,
            search_features: setting.search_features,
            strategies: setting.strategies,
            search_ms: setting.search_ms,
            graft_ms: setting.graft_ms,
            candidates_generated: generated,
            candidates_discarded: discarded@.len() as u64,
            discarded,
            candidates,
            screen: None,
            full: None,
            winner: None,
            improvement: None,
            accepted: false,
            new_incumbent_checksum: None,
            screen_false_positives: 0,
            screen_false_negatives: 0,
            scorer_error: None,
        }),
{
    ExperimentRecord {
        iteration: setting.iteration,
        timestamp_unix: setting.now_unix,
        incumbent_checksum: setting.incumbent_checksum,
        baseline_score: setting.baseline_score,
        search_backend: setting.search_backend,
        search_set: setting.search_set,
        search_records: setting.search_records,
        search_features: setting.search_features,
        strategies: setting.strategies,
        search_ms: setting.search_ms,
        graft_ms: setting.graft_ms,
        candidates_generated: generated,
        candidates_discarded: discarded.len() as u64,
        discarded,
        candidates,
        screen: None,
        full: None,
        winner: None,
        improvement: None,
        accepted: false,
        new_incumbent_checksum: None,
        screen_false_positives: 0,
        screen_false_negatives: 0,
        scorer_error: None,
    }
}

/// The entry of a candidate before it is scored. Its summed predicted gain and
/// its affected fraction are given.
pub fn candidate_record(c: &Candidate, predicted_gain: Double, affected_fraction: Double) -> (r:
    CandidateRecord)
    requires
        c.combo@.len() < u64::MAX,
        forall|i: int|
            0 <= i < c.members().len() ==> (#[trigger] c.members()[i]).root.depth() <= usize::MAX,
    ensures
        r.id@ == c.id@,
        r.strategy@ == c.strategy_text(),
        r.backend@ == c.patch.provenance.backend@,
        r.depth == candidates::greatest_depth(c.members()),
        patch::ascending(r.features@),
        forall|f: usize|
            #![trigger r.features@.contains(f)]
            r.features@.contains(f) <==> candidates::any_mentions(c.members(), f),
        r.predicted_gain == predicted_gain,
        r.affected_records == candidates::most_affected(c.members()),
        r.affected_fraction == affected_fraction,
        r.screen_score is None,
        r.screen_delta is None,
        !r.promoted,
        !r.bypass,
        r.full_score is None,
        r.full_delta is None,
        r.patch@ == c.patch@,
        patch::patch_models(r.combo@) == patch::patch_models(c.combo@),
{
    let combo = patch::copy_patches(&c.combo);
    CandidateRecord {
        id: c.id.clone(),
        strategy: c.strategy(),
        backend: c.patch.provenance.backend.clone(),
        depth: c.depth(),
        features: c.features(),
        predicted_gain,
        affected_records: c.affected_records(),
        affected_fraction,
        screen_score: None,
        screen_delta: None,
        promoted: false,
        bypass: false,
        full_score: None,
        full_delta: None,
        patch: c.patch.clone(),
        combo,
    }
}

proof fn records_are_listed(lines: Seq<String>, n: int)
    requires
        0 <= n <= lines.len() <= usize::MAX,
    ensures
        forall|i: int|
            0 <= i < record_lines(lines, n).len() ==> {
                let at = #[trigger] record_lines(lines, n)[i];
                at < n && text::bare(lines[at as int]@).len() > 0
            },
        forall|i: int, j: int|
            0 <= i < j < record_lines(lines, n).len() ==> record_lines(lines, n)[i]
                < record_lines(lines, n)[j],
        forall|k: int|
            0 <= k < n && text::bare(#[trigger] lines[k]@).len() > 0 ==> record_lines(
                lines,
                n,
            ).contains(k as usize),
    decreases n,
{
    if n > 0 {
        records_are_listed(lines, n - 1);
        let before = record_lines(lines, n - 1);
        let all = record_lines(lines, n);
        assert forall|k: int| 0 <= k < n && text::bare(
            #[trigger] lines[k]@,
        ).len() > 0 implies all.contains(k as usize) by {
            if k < n - 1 {
                let i = choose|i: int| 0 <= i < before.len() && before[i] == k as usize;
                assert(all[i] == k as usize);
            } else {
                assert(all[before.len() as int] == k as usize);
            }
        }
    }
}

/// Of a journal every line that is not blank is read, once and in order, and no
/// blank one.
pub proof fn every_record_is_read(lines: Seq<String>)
    requires
        lines.len() <= usize::MAX,
    ensures
        ({
            let kept = record_lines(lines, lines.len() as int);
            &&& forall|k: int|
                0 <= k < lines.len() ==> (kept.contains(k as usize) <==> text::bare(
                    #[trigger] lines[k]@,
                ).len() > 0)
            &&& forall|i: int, j: int| 0 <= i < j < kept.len() ==> kept[i] < kept[j]
        }),
{
    records_are_listed(lines, lines.len() as int);
    let kept = record_lines(lines, lines.len() as int);
    assert forall|k: int| 0 <= k < lines.len() && kept.contains(
        k as usize,
    ) implies text::bare(#[trigger] lines[k]@).len() > 0 by {
        let i = choose|i: int| 0 <= i < kept.len() && kept[i] == k as usize;
        assert(kept[i] == k as usize);
    }
}

/// A stage enters into a candidate's record what the scorer said under the
/// candidate's own name, and nothing when it said nothing: the scores of other
/// candidates are not touched on.
pub proof fn entries_hold_their_own_scores(
    before: CandidateRecord,
    outcome: PromotionOutcome,
    screen_delta: Option<Double>,
    full_delta: Option<Double>,
)
    ensures
        ({
            let after = judged_entry(before, outcome, screen_delta, full_delta);
            &&& match outcome.screen {
                Some(screen) => {
                    &&& after.promoted <==> text::texts(screen.promoted@).contains(before.id@)
                    &&& after.bypass <==> text::texts(screen.bypass@).contains(before.id@)
                    &&& forall|i: int|
                        #![trigger screen.scores@[i]]
                        0 <= i < screen.scores@.len() && screen.scores@[i].0@ == before.id@ && (
                        forall|j: int|
                            0 <= j < i ==> (#[trigger] screen.scores@[j]).0@ != before.id@)
                            ==> after.screen_score == Some(screen.scores@[i].1.score)
                            && after.screen_delta == screen_delta
                    &&& (forall|i: int|
                        0 <= i < screen.scores@.len() ==> (#[trigger] screen.scores@[i]).0@
                            != before.id@) ==> after.screen_score == before.screen_score
                        && after.screen_delta == before.screen_delta
                },
                None => {
                    &&& after.promoted
                    &&& after.bypass == before.bypass
                    &&& after.screen_score == before.screen_score
                    &&& after.screen_delta == before.screen_delta
                },
            }
            &&& match outcome.full {
                Some(full) => {
                    &&& forall|i: int|
                        #![trigger full.scores@[i]]
                        0 <= i < full.scores@.len() && full.scores@[i].0@ == before.id@ && (forall|
                            j: int,
                        |
                            0 <= j < i ==> (#[trigger] full.scores@[j]).0@ != before.id@)
                            ==> after.full_score == Some(full.scores@[i].1.score)
                            && after.full_delta == full_delta
                    &&& (forall|i: int|
                        0 <= i < full.scores@.len() ==> (#[trigger] full.scores@[i]).0@
                            != before.id@) ==> after.full_score == before.full_score
                        && after.full_delta == before.full_delta
                },
                None => after.full_score == before.full_score && after.full_delta
                    == before.full_delta,
            }
            &&& after.id == before.id
            &&& after.strategy == before.strategy
            &&& after.backend == before.backend
            &&& after.depth == before.depth
            &&& after.features == before.features
            &&& after.predicted_gain == before.predicted_gain
            &&& after.affected_records == before.affected_records
            &&& after.affected_fraction == before.affected_fraction
            &&& after.patch == before.patch
            &&& after.combo == before.combo
        }),
{
    if outcome.screen is Some {
        place_is_the_first(outcome.screen->0.scores@, before.id@, 0);
    }
    if outcome.full is Some {
        place_is_the_first(outcome.full->0.scores@, before.id@, 0);
    }
}

proof fn place_is_the_first(
    results: Seq<(String, scorer::ScoreResult)>,
    name: Seq<char>,
    from: int,
)
    requires
        0 <= from <= results.len(),
    ensures
        from <= scorer::place(results, name, from) <= results.len(),
        scorer::place(results, name, from) < results.len() ==> results[scorer::place(
            results,
            name,
            from,
        )].0@ == name,
        forall|k: int|
            from <= k < scorer::place(results, name, from) ==> (#[trigger] results[k]).0@ != name,
    decreases results.len() - from,
{
    if from < results.len() && results[from].0@ != name {
        place_is_the_first(results, name, from + 1);
    }
}

/// A stage is summed up by what was counted in it: the baseline is scored along
/// with the candidates and is none of them.
pub proof fn stages_are_summed_up(screen: ScreenOutcome, full: FullOutcome)
    requires
        0 < screen.scores@.len() <= u64::MAX,
        0 < full.scores@.len() <= u64::MAX,
        screen.promoted@.len() <= u64::MAX,
        screen.bypass@.len() <= u64::MAX,
    ensures
        screen_summary(screen).screened + 1 == screen.scores@.len(),
        screen_summary(screen).promoted == screen.promoted@.len(),
        screen_summary(screen).bypass == screen.bypass@.len(),
        screen_summary(screen).sample_rate == screen.rate,
        screen_summary(screen).sample_phase == screen.phase,
        screen_summary(screen).baseline_score == screen.baseline_score,
        screen_summary(screen).scorer_ms == screen.scorer_ms,
        full_summary(full).scored + 1 == full.scores@.len(),
        full_summary(full).baseline_score == full.baseline_score,
        full_summary(full).baseline_drift == full.baseline_drift,
        full_summary(full).scorer_ms == full.scorer_ms,
{
}

} // verus!
