//! The iterative evolution loop.
//!
//! ```text
//! load + copy immutable incumbent → bin cache → authoritative baseline
//!   ┌─▶ residuals → search set → histogram → stumps / trees / oblique
//!   │     → candidate population → screen → full-corpus promotion
//!   │     → accepted?  yes: promote clone to experimental incumbent, recompute
//!   └─────────────────  residuals, journal;  no: journal and continue
//! until timeout / max iterations / cancellation / repeated scorer failure
//! ```
//!
//! `best.json` starts as a byte-for-byte copy of the source creature and is only
//! ever replaced by a creature that the scorer verified on the full corpus in
//! the same call as its parent. [`RunLoop`] decides what happens next; whoever
//! drives it does the searching, grafting and scoring.

use vstd::prelude::*;
use vstd::string::*;

use crate::config::ForestsConfig;
use crate::floats::{Double, Single};
use crate::journal::SummaryRecord;
use crate::promote::PromoteConfig;
use crate::text;
use crate::text::decimal_text;
use crate::tools;
use crate::tools::promotion_config;

verus! {

/// Why the loop stopped.
#[derive(Debug, Clone, Copy, PartialEq, Eq, Structural)]
pub enum StopReason {
    /// Wall-clock budget exhausted.
    Timeout,
    /// `--max-iterations` reached.
    MaxIterations,
    /// SIGINT/SIGTERM.
    Cancelled,
    /// Too many consecutive scorer failures.
    ScorerFailures,
}

impl StopReason {
    /// What the label says.
    pub open spec fn label_text(self) -> Seq<char> {
        match self {
            StopReason::Timeout => "timeout"@,
            StopReason::MaxIterations => "max-iterations"@,
            StopReason::Cancelled => "cancelled"@,
            StopReason::ScorerFailures => "scorer-failures"@,
        }
    }

    /// Journal label.
    pub fn label(self) -> (r: &'static str)
        ensures
            r@ == self.label_text(),
    {
        match self {
            StopReason::Timeout => "timeout",
            StopReason::MaxIterations => "max-iterations",
            StopReason::Cancelled => "cancelled",
            StopReason::ScorerFailures => "scorer-failures",
        }
    }
}

/// Outcome of a run.
#[derive(Debug)]
pub struct RunResult {
    /// `best.json`.
    pub best_path: String,
    /// `experiments.jsonl`.
    pub journal_path: String,
    /// Opening authoritative score.
    pub opening_score: Double,
    /// Final authoritative score.
    pub best_score: Double,
    /// Iterations run.
    pub iterations: u64,
    /// Accepted winners.
    pub acceptances: u64,
    /// Stop reason.
    pub stop_reason: StopReason,
    /// Seed used.
    pub seed: u64,
    /// Wall milliseconds.
    pub wall_ms: u64,
    /// Final incumbent checksum.
    pub final_checksum: String,
    /// Iterations that failed on the scorer.
    pub scorer_failures: u64,
}

/// Label journalled as the search backend that produced a split.
pub const SEARCH_BACKEND: &'static str = "cpu";

/// Spreads the iteration number over the seed's bits.
pub const SEED_STEP: u64 = 0x9e37_79b9_7f4a_7c15;

/// Seed of an iteration.
pub open spec fn iteration_seed(seed: u64, iteration: u64) -> u64 {
    seed ^ iteration.wrapping_mul(SEED_STEP)
}

/// Where a seed came from.
pub fn seed_source(supplied: bool) -> (r: &'static str)
    ensures
        r@ == if supplied {
            "supplied"@
        } else {
            "drawn"@
        },
{
    if supplied {
        "supplied"
    } else {
        "drawn"
    }
}

/// What the journal's first line says of the bin cache.
pub fn bin_cache_label(corpus_identity: &str, requested_bins: usize) -> (r: String)
    ensures
        r@ == corpus_identity@ + ":"@ + text::decimal(requested_bins as nat),
{
    let mut out = corpus_identity.to_owned();
    out.append(":");
    out.append(decimal_text(requested_bins as u64).as_str());
    out
}

/// What comes next.
#[derive(Debug, Clone, Copy, PartialEq, Eq, Structural)]
pub enum Step {
    /// The run is over.
    Stop(StopReason),
    /// Another iteration.
    Iterate {
        /// Its seed.
        seed: u64,
        /// The output it corrects.
        output: usize,
    },
}

/// What becomes of a cohort once it is grafted.
#[derive(Debug, Clone, Copy, PartialEq, Eq, Structural)]
pub enum Cohort {
    /// Nothing to score: the iteration is journalled and over.
    Empty,
    /// The run was cancelled before any scorer work: it is over, and the
    /// iteration does not count.
    Abandoned,
    /// Score it.
    Score,
}

/// Counters of a run and what they decide.
#[derive(Debug, Clone, Copy, PartialEq, Eq, Structural)]
pub struct RunLoop {
    /// Seed of the run.
    pub seed: u64,
    /// Most iterations, if limited.
    pub max_iterations: Option<u64>,
    /// Consecutive scorer failures at which the run gives up.
    pub failure_limit: u32,
    /// Iterations begun.
    pub iterations: u64,
    /// Accepted winners.
    pub acceptances: u64,
    /// Iterations that failed on the scorer.
    pub scorer_failures: u64,
    /// Scorer failures since the last cohort that was scored.
    pub consecutive_failures: u32,
}

impl RunLoop {
    /// Every acceptance and every failure is an iteration, and no iteration is
    /// both.
    pub open spec fn well_formed(self) -> bool {
        &&& self.acceptances + self.scorer_failures <= self.iterations
        &&& self.consecutive_failures <= self.scorer_failures
        &&& self.max_iterations matches Some(m) ==> self.iterations <= m
    }

    /// An iteration is under way whose outcome is not counted yet.
    pub open spec fn in_iteration(self) -> bool {
        self.acceptances + self.scorer_failures < self.iterations
    }

    /// Why the run stops before its next iteration, if it does.
    pub open spec fn stop(self, cancelled: bool, timed_out: bool) -> Option<StopReason> {
        if cancelled {
            Some(StopReason::Cancelled)
        } else if timed_out {
            Some(StopReason::Timeout)
        } else if self.max_iterations matches Some(m) && self.iterations >= m {
            Some(StopReason::MaxIterations)
        } else if self.consecutive_failures >= self.failure_limit {
            Some(StopReason::ScorerFailures)
        } else {
            None
        }
    }

    /// A run that is about to begin.
    pub fn new(cfg: &ForestsConfig, seed: u64) -> (r: RunLoop)
        ensures
            r.well_formed(),
            r == (RunLoop {
                seed,
                max_iterations: cfg.max_iterations,
                failure_limit: cfg.max_consecutive_scorer_failures,
                iterations: 0,
                acceptances: 0,
                scorer_failures: 0,
                consecutive_failures: 0,
            }),
    {
        RunLoop {
            seed,
            max_iterations: cfg.max_iterations,
            failure_limit: cfg.max_consecutive_scorer_failures,
            iterations: 0,
            acceptances: 0,
            scorer_failures: 0,
            consecutive_failures: 0,
        }
    }

    /// What comes next. Iterations take the creature's outputs in turn.
    pub fn next(&mut self, cancelled: bool, timed_out: bool, outputs: usize) -> (r: Step)
        requires
            old(self).well_formed(),
            outputs > 0,
            old(self).iterations < u64::MAX,
        ensures
            final(self).well_formed(),
            match old(self).stop(cancelled, timed_out) {
                Some(reason) => r == Step::Stop(reason) && *final(self) == *old(self),
                None => {
                    &&& r == (Step::Iterate {
                        seed: iteration_seed(old(self).seed, (old(self).iterations + 1) as u64),
                        output: (old(self).iterations as int % outputs as int) as usize,
                    })
                    &&& *final(self) == (RunLoop {
                        iterations: (old(self).iterations + 1) as u64,
                        ..*old(self)
                    })
                    &&& final(self).in_iteration()
                },
            },
    {
        if cancelled {
            return Step::Stop(StopReason::Cancelled);
        }
        if timed_out {
            return Step::Stop(StopReason::Timeout);
        }
        if let Some(m) = self.max_iterations {
            if self.iterations >= m {
                return Step::Stop(StopReason::MaxIterations);
            }
        }
        if self.consecutive_failures >= self.failure_limit {
            return Step::Stop(StopReason::ScorerFailures);
        }
        let done: u64 = self.iterations;
        self.iterations = done + 1;
        let seed: u64 = self.seed ^ (done + 1).wrapping_mul(SEED_STEP);
        let output: usize = (done % outputs as u64) as usize;
        Step::Iterate { seed, output }
    }

    /// What becomes of the grafted cohort.
    pub fn after_grafting(&mut self, candidates: usize, cancelled: bool) -> (r: Cohort)
        requires
            old(self).well_formed(),
            old(self).in_iteration(),
        ensures
            final(self).well_formed(),
            r == if candidates == 0 {
                Cohort::Empty
            } else if cancelled {
                Cohort::Abandoned
            } else {
                Cohort::Score
            },
            *final(self) == if r == Cohort::Abandoned {
                RunLoop { iterations: (old(self).iterations - 1) as u64, ..*old(self) }
            } else {
                *old(self)
            },
    {
        if candidates == 0 {
            return Cohort::Empty;
        }
        if cancelled {
            self.iterations = self.iterations - 1;
            return Cohort::Abandoned;
        }
        Cohort::Score
    }

    /// The scorer failed on the cohort.
    pub fn scorer_failed(&mut self)
        requires
            old(self).well_formed(),
            old(self).in_iteration(),
            old(self).consecutive_failures < u32::MAX,
        ensures
            final(self).well_formed(),
            *final(self) == (RunLoop {
                scorer_failures: (old(self).scorer_failures + 1) as u64,
                consecutive_failures: (old(self).consecutive_failures + 1) as u32,
                ..*old(self)
            }),
    {
        self.scorer_failures = self.scorer_failures + 1;
        self.consecutive_failures = self.consecutive_failures + 1;
    }

    /// The cohort was scored.
    pub fn scored(&mut self)
        requires
            old(self).well_formed(),
        ensures
            final(self).well_formed(),
            *final(self) == (RunLoop { consecutive_failures: 0, ..*old(self) }),
    {
        self.consecutive_failures = 0;
    }

    /// A winner was accepted.
    pub fn accepted(&mut self)
        requires
            old(self).well_formed(),
            old(self).in_iteration(),
        ensures
            final(self).well_formed(),
            *final(self) == (RunLoop {
                acceptances: (old(self).acceptances + 1) as u64,
                ..*old(self)
            }),
    {
        self.acceptances = self.acceptances + 1;
    }

    /// The journal's last line.
    pub fn summary(
        &self,
        reason: StopReason,
        now_unix: u64,
        wall_ms: u64,
        opening_score: Double,
        final_score: Double,
        final_checksum: &str,
    ) -> (r: SummaryRecord)
        ensures
            r.timestamp_unix == now_unix,
            r.stop_reason@ == reason.label_text(),
            r.iterations == self.iterations,
            r.acceptances == self.acceptances,
            r.opening_score == opening_score,
            r.final_score == final_score,
            r.wall_ms == wall_ms,
            r.final_checksum@ == final_checksum@,
    {
        SummaryRecord {
            timestamp_unix: now_unix,
            stop_reason: reason.label().to_owned(),
            iterations: self.iterations,
            acceptances: self.acceptances,
            opening_score,
            final_score,
            wall_ms,
            final_checksum: final_checksum.to_owned(),
        }
    }

    /// What the caller of a run gets.
    pub fn result(
        &self,
        summary: &SummaryRecord,
        reason: StopReason,
        best_path: &str,
        journal_path: &str,
    ) -> (r: RunResult)
        ensures
            r.best_path@ == best_path@,
            r.journal_path@ == journal_path@,
            r.opening_score == summary.opening_score,
            r.best_score == summary.final_score,
            r.iterations == self.iterations,
            r.acceptances == self.acceptances,
            r.stop_reason == reason,
            r.seed == self.seed,
            r.wall_ms == summary.wall_ms,
            r.final_checksum@ == summary.final_checksum@,
            r.scorer_failures == self.scorer_failures,
    {
        RunResult {
            best_path: best_path.to_owned(),
            journal_path: journal_path.to_owned(),
            opening_score: summary.opening_score,
            best_score: summary.final_score,
            iterations: self.iterations,
            acceptances: self.acceptances,
            stop_reason: reason,
            seed: self.seed,
            wall_ms: summary.wall_ms,
            final_checksum: summary.final_checksum.clone(),
            scorer_failures: self.scorer_failures,
        }
    }
}

/// Cancellation wins over every other reason, and the time limit over the
/// remaining two.
pub proof fn cancellation_comes_first(run: RunLoop, timed_out: bool)
    ensures
        run.stop(true, timed_out) == Some(StopReason::Cancelled),
        run.stop(false, true) == Some(StopReason::Timeout),
{
}

/// The same seed gives every iteration the same seed again, and no two
/// iterations of a run share one.
pub proof fn iteration_seeds_differ(seed: u64, a: u64, b: u64)
    requires
        iteration_seed(seed, a) == iteration_seed(seed, b),
    ensures
        a == b,
{
    let x = a.wrapping_mul(SEED_STEP);
    let y = b.wrapping_mul(SEED_STEP);
    assert(x == y) by (bit_vector)
        requires
            seed ^ x == seed ^ y,
    ;
    wrapping_product_unfolds(a);
    wrapping_product_unfolds(b);
    undo_seed_step(a);
    undo_seed_step(b);
}

/// The factor that undoes [`SEED_STEP`], modulo 2^64.
pub const SEED_STEP_INVERSE: u64 = 0xf1de_83e1_9937_733d;

proof fn wrapping_product_unfolds(a: u64)
    ensures
        a.wrapping_mul(SEED_STEP) == (a * SEED_STEP) % 0x1_0000_0000_0000_0000,
{
}

proof fn undo_seed_step(a: u64)
    ensures
        (((a * SEED_STEP) % 0x1_0000_0000_0000_0000) * SEED_STEP_INVERSE)
            % 0x1_0000_0000_0000_0000 == a,
{
    let m = 0x1_0000_0000_0000_0000int;
    let s = SEED_STEP as int;
    let i = SEED_STEP_INVERSE as int;
    let x = a as int;
    vstd::arithmetic::div_mod::lemma_mul_mod_noop_left(x * s, i, m);
    assert((x * s) * i == x * (s * i)) by (nonlinear_arith);
    assert((s * i) % m == 1);
    vstd::arithmetic::div_mod::lemma_mul_mod_noop_right(x, s * i, m);
    vstd::arithmetic::div_mod::lemma_small_mod(a as nat, m as nat);
}

/// Directory name of an iteration and of a winner: the number in at least four
/// digits.
pub open spec fn padded(n: nat) -> Seq<char> {
    let digits = text::decimal(n);
    if n >= 1000 {
        digits
    } else if n >= 100 {
        "0"@ + digits
    } else if n >= 10 {
        "00"@ + digits
    } else {
        "000"@ + digits
    }
}

fn numbered(prefix: &str, n: u64) -> (r: String)
    ensures
        r@ == prefix@ + padded(n as nat),
{
    let mut out = prefix.to_owned();
    if n < 10 {
        out.append("000");
    } else if n < 100 {
        out.append("00");
    } else if n < 1000 {
        out.append("0");
    }
    let ghost head = out@;
    let digits = decimal_text(n);
    out.append(digits.as_str());
    assert(out@ =~= prefix@ + padded(n as nat));
    out
}

/// Name of an iteration's cohort directory.
pub fn iteration_name(iteration: u64) -> (r: String)
    ensures
        r@ == "iteration-"@ + padded(iteration as nat),
{
    numbered("iteration-", iteration)
}

/// Name of a winner, by the acceptances before it or with it.
pub fn winner_name(acceptances: u64) -> (r: String)
    ensures
        r@ == "winner-"@ + padded(acceptances as nat),
{
    numbered("winner-", acceptances)
}

/// Scale of random corrections where the residual has none.
pub const FALLBACK_SCALE: u32 = 0x3c23_d70a;

/// Scale of random corrections: the residual's spread, where it is finite and
/// above zero.
pub fn random_scale(sigma: Single) -> (r: Single)
    ensures
        r == if sigma.finite() && sigma.above(Single { bits: 0 }) {
            sigma
        } else {
            Single { bits: FALLBACK_SCALE }
        },
{
    if sigma.is_finite() && sigma.gt(Single::zero()) {
        sigma
    } else {
        Single { bits: FALLBACK_SCALE }
    }
}

/// The screen exists to choose the candidates to promote: when the cohort already
/// fits, it goes straight to the full call.
pub open spec fn frugal_rate(cfg: ForestsConfig, candidates: int) -> Option<Double> {
    if candidates <= cfg.promote_count {
        None
    } else {
        cfg.screen_sample_rate
    }
}

/// Promotion controls of an iteration.
pub fn iteration_promotion(
    cfg: &ForestsConfig,
    candidates: usize,
    iteration: u64,
    baseline: Double,
) -> (r: PromoteConfig)
    ensures
        r == tools::promotion(
            *cfg,
            frugal_rate(*cfg, candidates as int),
            iteration,
            baseline,
        ),
{
    let rate: Option<Double> = if candidates <= cfg.promote_count {
        None
    } else {
        cfg.screen_sample_rate
    };
    promotion_config(cfg, rate, iteration, baseline)
}

/// A run goes on exactly when it was not cancelled, has time left, iterations
/// left, and fewer failures in a row than it tolerates.
pub proof fn runs_go_on_while_nothing_stops_them(
    run: RunLoop,
    cancelled: bool,
    timed_out: bool,
)
    ensures
        run.stop(cancelled, timed_out) is None <==> {
            &&& !cancelled && !timed_out
            &&& run.max_iterations matches Some(m) ==> run.iterations < m
            &&& run.consecutive_failures < run.failure_limit
        },
        run.stop(cancelled, timed_out) == Some(StopReason::Cancelled) <==> cancelled,
        run.stop(cancelled, timed_out) == Some(StopReason::Timeout) <==> !cancelled && timed_out,
        run.stop(cancelled, timed_out) == Some(StopReason::MaxIterations) <==> !cancelled
            && !timed_out && run.max_iterations is Some && run.iterations
            >= run.max_iterations->0,
{
}

/// Every reason has a label of its own.
pub proof fn stop_labels_differ(a: StopReason, b: StopReason)
    ensures
        a.label_text() == b.label_text() ==> a == b,
{
    reveal_strlit("timeout");
    reveal_strlit("max-iterations");
    reveal_strlit("cancelled");
    reveal_strlit("scorer-failures");
    assert("timeout"@.len() == 7 && "max-iterations"@.len() == 14 && "cancelled"@.len() == 9
        && "scorer-failures"@.len() == 15);
}

/// A padded number has at least four digits and reads back as the number.
pub proof fn padded_numbers_read_back(n: nat)
    ensures
        padded(n).len() >= 4,
        text::all_digits(padded(n)),
        text::digits_value(padded(n)) == n,
        n < 10_000 ==> padded(n).len() == 4,
{
    text::decimal_reads_back(n);
    digits_of(n);
    reveal_strlit("0");
    reveal_strlit("00");
    reveal_strlit("000");
    zeros_spell_nothing("0"@, text::decimal(n));
    zeros_spell_nothing("00"@, text::decimal(n));
    zeros_spell_nothing("000"@, text::decimal(n));
}

proof fn zeros_spell_nothing(zeros: Seq<char>, s: Seq<char>)
    requires
        forall|i: int| 0 <= i < zeros.len() ==> #[trigger] zeros[i] == '0',
        text::all_digits(s),
    ensures
        text::all_digits(zeros + s),
        text::digits_value(zeros + s) == text::digits_value(s),
    decreases s.len(),
{
    if s.len() > 1 {
        zeros_spell_nothing(zeros, s.drop_last());
        assert((zeros + s).drop_last() =~= zeros + s.drop_last());
    } else {
        only_zeros(zeros);
        assert((zeros + s).drop_last() =~= zeros);
        assert(s.drop_last() =~= Seq::<char>::empty());
        reveal_with_fuel(text::digits_value, 2);
    }
}

proof fn only_zeros(zeros: Seq<char>)
    requires
        forall|i: int| 0 <= i < zeros.len() ==> #[trigger] zeros[i] == '0',
    ensures
        text::digits_value(zeros) == 0,
    decreases zeros.len(),
{
    if zeros.len() > 0 {
        assert(zeros.last() == '0');
        only_zeros(zeros.drop_last());
    }
}

proof fn digits_of(n: nat)
    ensures
        n < 10 ==> text::decimal(n).len() == 1,
        10 <= n < 100 ==> text::decimal(n).len() == 2,
        100 <= n < 1000 ==> text::decimal(n).len() == 3,
        1000 <= n < 10_000 ==> text::decimal(n).len() == 4,
        n >= 1000 ==> text::decimal(n).len() >= 4,
{
    reveal_with_fuel(text::decimal, 5);
}

/// A cohort is screened exactly when more candidates stand in it than may be
/// promoted.
pub proof fn small_cohorts_are_not_screened(cfg: ForestsConfig, candidates: int)
    ensures
        candidates <= cfg.promote_count ==> frugal_rate(cfg, candidates) is None,
        candidates > cfg.promote_count ==> frugal_rate(cfg, candidates) == cfg.screen_sample_rate,
{
}

} // verus!
