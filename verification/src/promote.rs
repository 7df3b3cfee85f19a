//! Two-phase screening and authoritative promotion.
//!
//! A sampled screen ranks candidates and proposes; the full-corpus scores of
//! one call, measured against the baseline of that same call, decide. A
//! candidate is accepted only when it clears the strict threshold there and the
//! same-call baseline agrees with the authoritative one.

use rand::rngs::StdRng;
use vstd::prelude::*;
use vstd::string::*;

use crate::floats::Double;
use crate::histogram;
use crate::random::pick_below;
use crate::ranking;
use crate::ranking::Ranked;
use crate::scorer::ScoreResult;
use crate::text;
use crate::text::{contains_text, is_text_before};

verus! {

/// Promotion controls.
#[derive(Debug, Clone, Copy, PartialEq)]
pub struct PromoteConfig {
    /// Screen sample rate (`None`: no screen).
    pub screen_sample_rate: Option<Double>,
    /// Phase of the screen stride (varies per iteration).
    pub screen_phase: u64,
    /// Promote when the sampled gain is above this.
    pub screen_threshold: Double,
    /// Most candidates promoted.
    pub promote_count: usize,
    /// Screen rejects that are scored fully anyway.
    pub explore_quota: usize,
    /// Strict authoritative threshold.
    pub min_improvement: Double,
    /// Authoritative baseline score that the same-call baseline must match.
    pub authoritative_baseline: Double,
    /// Tolerated distance between the two baselines.
    pub baseline_drift_epsilon: Double,
    /// Keep cohort directories.
    pub preserve_dirs: bool,
}

/// Screen results.
#[derive(Debug, PartialEq)]
pub struct ScreenOutcome {
    /// Sample rate.
    pub rate: Double,
    /// Phase.
    pub phase: u64,
    /// Sampled baseline score.
    pub baseline_score: Double,
    /// Sampled scores by candidate id.
    pub scores: Vec<(String, ScoreResult)>,
    /// Promoted ids, in rank order.
    pub promoted: Vec<String>,
    /// Bypass ids.
    pub bypass: Vec<String>,
    /// Scorer milliseconds.
    pub scorer_ms: u64,
}

/// Full-corpus results.
#[derive(Debug, PartialEq)]
pub struct FullOutcome {
    /// Same-call baseline.
    pub baseline_score: Double,
    /// Same-call baseline less the authoritative one.
    pub baseline_drift: Double,
    /// Full scores by candidate id.
    pub scores: Vec<(String, ScoreResult)>,
    /// Scorer milliseconds.
    pub scorer_ms: u64,
}

/// Complete outcome of one cohort.
#[derive(Debug, PartialEq)]
pub struct PromotionOutcome {
    /// Screen stage, if it ran.
    pub screen: Option<ScreenOutcome>,
    /// Full stage, if a candidate reached it.
    pub full: Option<FullOutcome>,
    /// Winner id and its authoritative improvement.
    pub winner: Option<(String, Double)>,
    /// Promoted candidates that failed the authoritative threshold.
    pub false_positives: u64,
    /// Bypass candidates that cleared the authoritative threshold.
    pub false_negatives: u64,
    /// Why nothing was accepted despite a full run (baseline disagreement).
    pub veto: Option<String>,
}

/// A candidate after a scorer call.
#[derive(Debug)]
pub struct Measured {
    /// Candidate id.
    pub id: String,
    /// Its score less the same-call baseline; `None` when the scorer did not
    /// name it.
    pub delta: Option<Double>,
}

/// A candidate that the screen scored.
#[derive(Debug)]
pub struct ScreenEntry {
    /// Position in the cohort.
    pub position: usize,
    /// Candidate id.
    pub id: String,
    /// Sampled gain.
    pub delta: Double,
}

impl Ranked for ScreenEntry {
    /// Larger gain first, then the id that comes first.
    open spec fn ahead(&self, other: &ScreenEntry) -> bool {
        if self.delta.order() != other.delta.order() {
            self.delta.order() > other.delta.order()
        } else {
            text::text_before(self.id@, other.id@)
        }
    }

    proof fn ahead_is_asymmetric(a: ScreenEntry, b: ScreenEntry) {
        text::text_before_is_asymmetric(a.id@, b.id@);
    }

    proof fn not_ahead_is_transitive(a: ScreenEntry, b: ScreenEntry, c: ScreenEntry) {
        if a.delta.order() == b.delta.order() && b.delta.order() == c.delta.order() {
            text::not_text_before_is_transitive(a.id@, b.id@, c.id@);
        }
    }

    fn is_ahead(&self, other: &ScreenEntry) -> (r: bool) {
        let a: i64 = self.delta.rank();
        let b: i64 = other.delta.rank();
        if a != b {
            a > b
        } else {
            is_text_before(self.id.as_str(), other.id.as_str())
        }
    }
}

/// The candidates that the scorer named, in cohort order.
pub open spec fn scored(cohort: Seq<Measured>, n: int) -> Seq<ScreenEntry>
    decreases n,
{
    if n <= 0 {
        Seq::empty()
    } else {
        match cohort[n - 1].delta {
            Some(delta) => scored(cohort, n - 1).push(
                ScreenEntry { position: (n - 1) as usize, id: cohort[n - 1].id, delta },
            ),
            None => scored(cohort, n - 1),
        }
    }
}

/// The screened candidates, best first.
pub open spec fn screen_ranking(cohort: Seq<Measured>) -> Seq<ScreenEntry> {
    ranking::sorted(scored(cohort, cohort.len() as int))
}

/// The best `count` of the candidates whose sampled gain is above `threshold`.
pub open spec fn promoted(cohort: Seq<Measured>, threshold: Double, count: int) -> Seq<
    ScreenEntry,
> {
    histogram::at_most(
        screen_ranking(cohort).filter(|e: ScreenEntry| e.delta.above(threshold)),
        count,
    )
}

/// Ids of the entries.
pub open spec fn entry_ids(entries: Seq<ScreenEntry>) -> Seq<Seq<char>> {
    entries.map_values(|e: ScreenEntry| e.id@)
}

/// Cohort positions of the entries.
pub open spec fn entry_positions(entries: Seq<ScreenEntry>) -> Seq<usize> {
    entries.map_values(|e: ScreenEntry| e.position)
}

/// The ranked candidates that were not promoted.
pub open spec fn rejected(cohort: Seq<Measured>, threshold: Double, count: int) -> Seq<
    ScreenEntry,
> {
    let ids = entry_ids(promoted(cohort, threshold, count));
    screen_ranking(cohort).filter(|e: ScreenEntry| !ids.contains(e.id@))
}

/// What the screen decides.
#[derive(Debug)]
pub struct ScreenPlan {
    /// Cohort positions of the promoted candidates, best first.
    pub promoted: Vec<usize>,
    /// Cohort positions of the others that were scored, best first.
    pub rejects: Vec<usize>,
}

fn gather_scored(cohort: &Vec<Measured>) -> (r: Vec<ScreenEntry>)
    ensures
        r@ == scored(cohort@, cohort@.len() as int),
        r@.len() <= cohort@.len(),
{
    let mut out: Vec<ScreenEntry> = Vec::new();
    for i in 0..cohort.len()
        invariant
            out@ == scored(cohort@, i as int),
            out@.len() <= i,
    {
        if let Some(delta) = cohort[i].delta {
            out.push(ScreenEntry { position: i, id: cohort[i].id.clone(), delta });
        }
    }
    out
}

/// Every screened entry is the candidate at its position.
proof fn scored_entries_are_candidates(cohort: Seq<Measured>, n: int)
    requires
        0 <= n <= cohort.len(),
        cohort.len() <= usize::MAX,
    ensures
        forall|k: int|
            0 <= k < scored(cohort, n).len() ==> {
                let e = #[trigger] scored(cohort, n)[k];
                &&& e.position < n
                &&& e.id == cohort[e.position as int].id
                &&& cohort[e.position as int].delta == Some(e.delta)
            },
        forall|a: int, b: int|
            #![trigger scored(cohort, n)[a], scored(cohort, n)[b]]
            0 <= a < b < scored(cohort, n).len() ==> scored(cohort, n)[a].position < scored(
                cohort,
                n,
            )[b].position,
    decreases n,
{
    if n > 0 {
        scored_entries_are_candidates(cohort, n - 1);
    }
}

/// One of the first `n` entries stands at `position`.
spec fn among(entries: Seq<ScreenEntry>, n: int, position: usize) -> bool {
    exists|a: int| 0 <= a < n && (#[trigger] entries[a]).position == position
}

/// Rank the screened candidates and part them into promoted and rejected.
pub fn plan_screen(cohort: &Vec<Measured>, cfg: &PromoteConfig) -> (r: ScreenPlan)
    ensures
        r.promoted@ == entry_positions(
            promoted(cohort@, cfg.screen_threshold, cfg.promote_count as int),
        ),
        r.rejects@ == entry_positions(
            rejected(cohort@, cfg.screen_threshold, cfg.promote_count as int),
        ),
        forall|k: int| 0 <= k < r.promoted@.len() ==> #[trigger] r.promoted@[k] < cohort@.len(),
        forall|k: int| 0 <= k < r.rejects@.len() ==> #[trigger] r.rejects@[k] < cohort@.len(),
        r.rejects@.no_duplicates(),
{
    let entries = gather_scored(cohort);
    let order = ranking::ranking(&entries);
    let ghost ranked = screen_ranking(cohort@);
    proof {
        scored_entries_are_candidates(cohort@, cohort@.len() as int);
        assert(cohort.len() == cohort@.len());
        assert forall|a: int, b: int| 0 <= a < b < order@.len() implies ranked[a].position
            != ranked[b].position by {
            assert(ranking::listed_before(entries@, order@[a] as int, order@[b] as int));
            if order@[a] == order@[b] {
                ScreenEntry::ahead_is_asymmetric(
                    entries@[order@[a] as int],
                    entries@[order@[a] as int],
                );
            }
            let x = order@[a] as int;
            let y = order@[b] as int;
            if x < y {
                assert(entries@[x].position < entries@[y].position);
            } else {
                assert(entries@[y].position < entries@[x].position);
            }
        }
    }
    let mut chosen: Vec<usize> = Vec::new();
    let mut chosen_ids: Vec<String> = Vec::new();
    let ghost keep = |e: ScreenEntry| e.delta.above(cfg.screen_threshold);
    for i in 0..order.len()
        invariant
            ranking::is_ranking(entries@, order@),
            ranked == ranking::picked(entries@, order@),
            ranked.len() == order@.len(),
            keep == (|e: ScreenEntry| e.delta.above(cfg.screen_threshold)),
            forall|k: int|
                0 <= k < entries@.len() ==> (#[trigger] entries@[k]).position < cohort@.len(),
            chosen@ == entry_positions(
                histogram::at_most(ranked.take(i as int).filter(keep), cfg.promote_count as int),
            ),
            text::texts(chosen_ids@) == entry_ids(
                histogram::at_most(ranked.take(i as int).filter(keep), cfg.promote_count as int),
            ),
            forall|k: int| 0 <= k < chosen@.len() ==> #[trigger] chosen@[k] < cohort@.len(),
    {
        let e = &entries[order[i]];
        let ghost before = ranked.take(i as int).filter(keep);
        proof {
            reveal(Seq::filter);
            assert(ranked.take(i as int + 1).drop_last() =~= ranked.take(i as int));
            assert(ranked[i as int] == *e);
        }
        let ghost old_ids = chosen_ids@;
        if e.delta.gt(cfg.screen_threshold) {
            proof {
                assert(ranked.take(i as int + 1).filter(keep) =~= before.push(*e));
            }
            if chosen.len() < cfg.promote_count {
                proof {
                    assert(histogram::at_most(before, cfg.promote_count as int) =~= before);
                }
                chosen.push(e.position);
                chosen_ids.push(e.id.clone());
                proof {
                    assert(text::texts(chosen_ids@) =~= text::texts(old_ids).push(e.id@));
                    assert(entry_ids(before.push(*e)) =~= entry_ids(before).push(e.id@));
                    assert(entry_positions(before.push(*e)) =~= entry_positions(before).push(
                        e.position,
                    ));
                }
            } else {
                proof {
                    assert(histogram::at_most(before.push(*e), cfg.promote_count as int)
                        =~= histogram::at_most(before, cfg.promote_count as int));
                }
            }
        }
    }
    proof {
        assert(ranked.take(order@.len() as int) =~= ranked);
    }
    let ghost ids = text::texts(chosen_ids@);
    let ghost rest = |e: ScreenEntry| !ids.contains(e.id@);
    let mut others: Vec<usize> = Vec::new();
    for i in 0..order.len()
        invariant
            ranking::is_ranking(entries@, order@),
            ranked == ranking::picked(entries@, order@),
            ranked.len() == order@.len(),
            ids == text::texts(chosen_ids@),
            rest == (|e: ScreenEntry| !ids.contains(e.id@)),
            forall|k: int|
                0 <= k < entries@.len() ==> (#[trigger] entries@[k]).position < cohort@.len(),
            forall|a: int, b: int|
                0 <= a < b < ranked.len() ==> ranked[a].position != ranked[b].position,
            others@ == entry_positions(ranked.take(i as int).filter(rest)),
            forall|k: int| 0 <= k < others@.len() ==> #[trigger] others@[k] < cohort@.len(),
            forall|k: int|
                0 <= k < others@.len() ==> among(ranked, i as int, #[trigger] others@[k]),
            others@.no_duplicates(),
    {
        let e = &entries[order[i]];
        let ghost before = ranked.take(i as int).filter(rest);
        let ghost old_others = others@;
        proof {
            reveal(Seq::filter);
            assert(ranked.take(i as int + 1).drop_last() =~= ranked.take(i as int));
            assert(ranked[i as int] == *e);
        }
        if !contains_text(&chosen_ids, e.id.as_str()) {
            others.push(e.position);
            proof {
                assert(ranked.take(i as int + 1).filter(rest) =~= before.push(*e));
                assert(entry_positions(before.push(*e)) =~= entry_positions(before).push(
                    e.position,
                ));
                assert(!among(ranked, i as int, e.position));
            }
        }
        proof {
            assert forall|k: int| 0 <= k < others@.len() implies among(
                ranked,
                i as int + 1,
                #[trigger] others@[k],
            ) by {
                if k < old_others.len() {
                    assert(others@[k] == old_others[k]);
                    let a = choose|a: int|
                        0 <= a < i && (#[trigger] ranked[a]).position == others@[k];
                    assert(ranked[a].position == others@[k]);
                } else {
                    assert(ranked[i as int].position == others@[k]);
                }
            }
        }
    }
    proof {
        assert(ranked.take(order@.len() as int) =~= ranked);
    }
    ScreenPlan { promoted: chosen, rejects: others }
}

/// `picks` can be drawn one after the other from a pool of `n`.
pub open spec fn drawable(n: int, picks: Seq<usize>) -> bool {
    &&& picks.len() <= n
    &&& forall|k: int| 0 <= k < picks.len() ==> #[trigger] picks[k] < n - k
}

/// What is drawn: each pick takes its item out, and the last one fills the gap.
pub open spec fn drawn(pool: Seq<usize>, picks: Seq<usize>) -> Seq<usize>
    decreases picks.len(),
{
    if picks.len() == 0 {
        Seq::empty()
    } else {
        seq![pool[picks[0] as int]] + drawn(
            pool.update(picks[0] as int, pool.last()).drop_last(),
            picks.drop_first(),
        )
    }
}

/// What is drawn is all from the pool, and nothing is drawn twice.
pub proof fn draws_are_distinct(pool: Seq<usize>, picks: Seq<usize>)
    requires
        pool.no_duplicates(),
        drawable(pool.len() as int, picks),
    ensures
        drawn(pool, picks).len() == picks.len(),
        drawn(pool, picks).no_duplicates(),
        forall|x: usize| #[trigger] drawn(pool, picks).contains(x) ==> pool.contains(x),
    decreases picks.len(),
{
    if picks.len() > 0 {
        let p = picks[0] as int;
        let rest = pool.update(p, pool.last()).drop_last();
        let later = picks.drop_first();
        assert(drawable(rest.len() as int, later)) by {
            assert forall|k: int| 0 <= k < later.len() implies #[trigger] later[k] < rest.len()
                - k by {
                assert(later[k] == picks[k + 1]);
            }
        }
        assert(rest.no_duplicates());
        draws_are_distinct(rest, later);
        let tail = drawn(rest, later);
        let all = drawn(pool, picks);
        assert(all =~= seq![pool[p]] + tail);
        assert forall|x: usize| #[trigger] rest.contains(x) implies pool.contains(x) && x
            != pool[p] by {
            let k = choose|k: int| 0 <= k < rest.len() && rest[k] == x;
            if k == p {
                assert(pool[pool.len() - 1] == x);
            } else {
                assert(pool[k] == x);
            }
        }
        assert forall|x: usize| #[trigger] all.contains(x) implies pool.contains(x) by {
            let k = choose|k: int| 0 <= k < all.len() && all[k] == x;
            if k == 0 {
                assert(pool[p] == x);
            } else {
                assert(tail[k - 1] == x);
                assert(tail.contains(x));
                assert(rest.contains(x));
            }
        }
        assert forall|a: int, b: int| 0 <= a < b < all.len() implies all[a] != all[b] by {
            if a == 0 {
                assert(tail[b - 1] == all[b]);
                assert(tail.contains(all[b]));
                assert(rest.contains(all[b]));
            } else {
                assert(tail[a - 1] == all[a] && tail[b - 1] == all[b]);
            }
        }
    }
}

/// Draw from the pool by the given picks.
pub fn draw(pool: &Vec<usize>, picks: &Vec<usize>) -> (r: Vec<usize>)
    requires
        drawable(pool@.len() as int, picks@),
    ensures
        r@ == drawn(pool@, picks@),
{
    let mut left: Vec<usize> = Vec::new();
    for i in 0..pool.len()
        invariant
            left@ == pool@.take(i as int),
    {
        left.push(pool[i]);
    }
    assert(left@ =~= pool@);
    let mut out: Vec<usize> = Vec::new();
    assert(picks@.skip(0) =~= picks@);
    assert(out@ + drawn(left@, picks@) =~= drawn(pool@, picks@));
    for i in 0..picks.len()
        invariant
            drawable(pool@.len() as int, picks@),
            left@.len() == pool@.len() - i,
            drawn(pool@, picks@) == out@ + drawn(left@, picks@.skip(i as int)),
    {
        let ghost ahead = picks@.skip(i as int);
        let ghost before = out@;
        let ghost pool_before = left@;
        assert(ahead[0] == picks@[i as int]);
        let x: usize = left.swap_remove(picks[i]);
        out.push(x);
        proof {
            assert(ahead.drop_first() =~= picks@.skip(i as int + 1));
            assert(drawn(pool_before, ahead) == seq![x] + drawn(left@, ahead.drop_first()));
            assert(out@ + drawn(left@, picks@.skip(i as int + 1)) =~= before + drawn(
                pool_before,
                ahead,
            ));
        }
    }
    assert(drawn(left@, picks@.skip(picks@.len() as int)) =~= Seq::<usize>::empty());
    assert(out@ =~= drawn(pool@, picks@));
    out
}

/// Exploratory bypass: as many random screen rejects as the quota and the
/// rejects allow are scored fully anyway.
pub fn draw_bypass(rejects: &Vec<usize>, quota: usize, rng: &mut StdRng) -> (r: Vec<usize>)
    ensures
        exists|picks: Seq<usize>|
            {
                &&& #[trigger] drawable(rejects@.len() as int, picks)
                &&& picks.len() == if quota <= rejects@.len() {
                    quota as nat
                } else {
                    rejects@.len()
                }
                &&& r@ == drawn(rejects@, picks)
            },
{
    let n: usize = if quota <= rejects.len() {
        quota
    } else {
        rejects.len()
    };
    let mut picks: Vec<usize> = Vec::new();
    for i in 0..n
        invariant
            n <= rejects@.len(),
            picks@.len() == i,
            forall|k: int| 0 <= k < picks@.len() ==> #[trigger] picks@[k] < rejects@.len() - k,
    {
        let p: usize = pick_below(rng, rejects.len() - i);
        picks.push(p);
    }
    assert(drawable(rejects@.len() as int, picks@));
    draw(rejects, &picks)
}

/// The cohort positions that go to full scoring: all of them without a screen,
/// else the promoted ones and then the bypass.
pub fn full_cohort(candidates: usize, screen: Option<(&Vec<usize>, &Vec<usize>)>) -> (r: Vec<
    usize,
>)
    ensures
        match screen {
            Some((promoted, bypass)) => r@ == promoted@ + bypass@,
            None => r@ == Seq::new(candidates as nat, |i: int| i as usize),
        },
{
    let mut out: Vec<usize> = Vec::new();
    match screen {
        Some((promoted, bypass)) => {
            for i in 0..promoted.len()
                invariant
                    out@ == promoted@.take(i as int),
            {
                out.push(promoted[i]);
            }
            for i in 0..bypass.len()
                invariant
                    out@ == promoted@ + bypass@.take(i as int),
            {
                out.push(bypass[i]);
                assert(out@ =~= promoted@ + bypass@.take(i as int + 1));
            }
            assert(bypass@.take(bypass@.len() as int) =~= bypass@);
        },
        None => {
            for i in 0..candidates
                invariant
                    out@ == Seq::new(i as nat, |k: int| k as usize),
            {
                out.push(i);
            }
        },
    }
    out
}

/// Error text for a candidate that takes the baseline's name.
pub const RESERVED_ID: &'static str = "candidate id `baseline` is reserved";

/// No candidate may be called `baseline`: that name is the incumbent's.
pub fn check_cohort_ids(ids: &Vec<String>) -> (r: Result<(), String>)
    ensures
        match r {
            Ok(()) => !text::texts(ids@).contains("baseline"@),
            Err(message) => text::texts(ids@).contains("baseline"@) && message@ == RESERVED_ID@,
        },
{
    if contains_text(ids, "baseline") {
        Err(RESERVED_ID.to_owned())
    } else {
        Ok(())
    }
}

/// The candidate cleared the strict authoritative threshold.
pub open spec fn cleared(m: Measured, min_improvement: Double) -> bool {
    m.delta matches Some(delta) && delta.above(min_improvement)
}

/// `a` is a better winner than `b`: larger gain, or the same and the id that
/// comes first.
pub open spec fn better(a: Measured, b: Measured) -> bool {
    &&& a.delta is Some
    &&& b.delta is Some
    &&& a.delta->0.above(b.delta->0) || (a.delta->0.same_value(b.delta->0) && text::text_before(
        a.id@,
        b.id@,
    ))
}

/// Position `i` is the best of the first `n` that cleared the threshold; of
/// equals the first.
pub open spec fn is_best(cohort: Seq<Measured>, n: int, min_improvement: Double, i: int) -> bool {
    &&& 0 <= i < n
    &&& cleared(cohort[i], min_improvement)
    &&& forall|j: int|
        0 <= j < n && cleared(#[trigger] cohort[j], min_improvement) ==> !better(
            cohort[j],
            cohort[i],
        )
    &&& forall|j: int|
        0 <= j < i && cleared(#[trigger] cohort[j], min_improvement) ==> better(
            cohort[i],
            cohort[j],
        )
}

/// Candidates that were promoted, and scored, and failed.
pub open spec fn false_positive_count(
    cohort: Seq<Measured>,
    n: int,
    bypass: Seq<Seq<char>>,
    min_improvement: Double,
) -> int
    decreases n,
{
    if n <= 0 {
        0
    } else {
        let m = cohort[n - 1];
        false_positive_count(cohort, n - 1, bypass, min_improvement) + if m.delta is Some
            && !bypass.contains(m.id@) && !cleared(m, min_improvement) {
            1int
        } else {
            0
        }
    }
}

/// Bypass candidates that cleared the threshold.
pub open spec fn false_negative_count(
    cohort: Seq<Measured>,
    n: int,
    bypass: Seq<Seq<char>>,
    min_improvement: Double,
) -> int
    decreases n,
{
    if n <= 0 {
        0
    } else {
        let m = cohort[n - 1];
        false_negative_count(cohort, n - 1, bypass, min_improvement) + if bypass.contains(m.id@)
            && cleared(m, min_improvement) {
            1int
        } else {
            0
        }
    }
}

/// Numbers of a baseline disagreement, as the message writes them.
#[derive(Debug)]
pub struct DriftTexts {
    /// Same-call baseline.
    pub baseline: String,
    /// Authoritative baseline.
    pub authoritative: String,
    /// Their difference, in scientific notation.
    pub drift: String,
    /// Tolerated difference.
    pub epsilon: String,
}

impl DriftTexts {
    /// Why a baseline disagreement blocks acceptance.
    pub open spec fn veto(&self) -> Seq<char> {
        "same-call full baseline "@ + self.baseline@
            + " disagrees with authoritative baseline "@ + self.authoritative@ + " by "@
            + self.drift@ + " (> "@ + self.epsilon@ + "); no acceptance"@
    }

    /// Why a baseline disagreement blocks acceptance.
    pub fn veto_message(&self) -> (r: String)
        ensures
            r@ == self.veto(),
    {
        let mut out = "same-call full baseline ".to_owned();
        out.append(self.baseline.as_str());
        out.append(" disagrees with authoritative baseline ");
        out.append(self.authoritative.as_str());
        out.append(" by ");
        out.append(self.drift.as_str());
        out.append(" (> ");
        out.append(self.epsilon.as_str());
        out.append("); no acceptance");
        out
    }
}

/// The two baselines are further apart than tolerated.
pub open spec fn drifted(full: FullOutcome, cfg: PromoteConfig) -> bool {
    Double { bits: full.baseline_drift.magnitude() as u64 }.above(cfg.baseline_drift_epsilon)
}

/// Ids that went to full scoring past the screen.
pub open spec fn bypass_of(screen: Option<ScreenOutcome>) -> Seq<Seq<char>> {
    match screen {
        Some(s) => text::texts(s.bypass@),
        None => Seq::empty(),
    }
}

/// What beats `b` beats whatever is not better than `b`.
proof fn beaten_stay_beaten(a: Measured, b: Measured, c: Measured)
    requires
        better(a, b),
        !better(c, b),
        c.delta is Some,
        !c.delta->0.nan(),
    ensures
        better(a, c),
{
    let (x, y, z) = (a.delta->0, b.delta->0, c.delta->0);
    if x.same_value(z) {
        if !text::text_before(a.id@, c.id@) {
            text::not_text_before_is_transitive(a.id@, c.id@, b.id@);
        }
    }
}

/// Judge a cohort by its full-corpus results. Accepts the best candidate that
/// cleared the threshold, unless the baselines disagree.
pub fn judge(
    screen: Option<ScreenOutcome>,
    full: FullOutcome,
    cohort: &Vec<Measured>,
    cfg: &PromoteConfig,
    texts: &DriftTexts,
) -> (r: PromotionOutcome)
    ensures
        r.screen == screen,
        r.full == Some(full),
        r.false_positives == false_positive_count(
            cohort@,
            cohort@.len() as int,
            bypass_of(screen),
            cfg.min_improvement,
        ),
        r.false_negatives == false_negative_count(
            cohort@,
            cohort@.len() as int,
            bypass_of(screen),
            cfg.min_improvement,
        ),
        match r.veto {
            Some(veto) => drifted(full, *cfg) && veto@ == texts.veto(),
            None => !drifted(full, *cfg),
        },
        match r.winner {
            Some((id, delta)) => !drifted(full, *cfg) && exists|i: int|
                {
                    &&& #[trigger] is_best(cohort@, cohort@.len() as int, cfg.min_improvement, i)
                    &&& cohort@[i].id@ == id@
                    &&& cohort@[i].delta == Some(delta)
                },
            None => drifted(full, *cfg) || forall|i: int|
                0 <= i < cohort@.len() ==> !cleared(#[trigger] cohort@[i], cfg.min_improvement),
        },
{
    let mut positives: u64 = 0;
    let mut negatives: u64 = 0;
    let mut best: Option<usize> = None;
    let none: Vec<String> = Vec::new();
    let bypass: &Vec<String> = match &screen {
        Some(s) => &s.bypass,
        None => &none,
    };
    proof {
        assert(text::texts(none@) =~= Seq::empty());
    }
    for i in 0..cohort.len()
        invariant
            text::texts(bypass@) == bypass_of(screen),
            positives == false_positive_count(
                cohort@,
                i as int,
                bypass_of(screen),
                cfg.min_improvement,
            ),
            negatives == false_negative_count(
                cohort@,
                i as int,
                bypass_of(screen),
                cfg.min_improvement,
            ),
            positives <= i,
            negatives <= i,
            match best {
                Some(b) => is_best(cohort@, i as int, cfg.min_improvement, b as int),
                None => forall|j: int|
                    0 <= j < i ==> !cleared(#[trigger] cohort@[j], cfg.min_improvement),
            },
    {
        let ghost was = best;
        if let Some(delta) = cohort[i].delta {
            let over = delta.gt(cfg.min_improvement);
            assert(over == cleared(cohort@[i as int], cfg.min_improvement));
            if contains_text(bypass, cohort[i].id.as_str()) {
                if over {
                    negatives = negatives + 1;
                }
            } else if !over {
                positives = positives + 1;
            }
            if over {
                let wins = match best {
                    None => true,
                    Some(b) => match cohort[b].delta {
                        None => false,
                        Some(d) => delta.gt(d) || (delta.eq_value(d) && is_text_before(
                            cohort[i].id.as_str(),
                            cohort[b].id.as_str(),
                        )),
                    },
                };
                if wins {
                    best = Some(i);
                }
                proof {
                    text::text_before_is_asymmetric(cohort@[i as int].id@, cohort@[i as int].id@);
                    if let Some(b) = was {
                        assert(wins == better(cohort@[i as int], cohort@[b as int]));
                        if wins {
                            assert forall|j: int|
                                0 <= j < i && cleared(
                                    #[trigger] cohort@[j],
                                    cfg.min_improvement,
                                ) implies better(cohort@[i as int], cohort@[j]) by {
                                beaten_stay_beaten(
                                    cohort@[i as int],
                                    cohort@[b as int],
                                    cohort@[j],
                                );
                            }
                            assert forall|j: int|
                                0 <= j < i + 1 && cleared(
                                    #[trigger] cohort@[j],
                                    cfg.min_improvement,
                                ) implies !better(cohort@[j], cohort@[i as int]) by {
                                text::text_before_is_asymmetric(
                                    cohort@[j].id@,
                                    cohort@[i as int].id@,
                                );
                            }
                        }
                    }
                }
            }
        }
    }
    let vetoed = full.baseline_drift.abs().gt(cfg.baseline_drift_epsilon);
    if vetoed {
        return PromotionOutcome {
            screen,
            full: Some(full),
            winner: None,
            false_positives: positives,
            false_negatives: negatives,
            veto: Some(texts.veto_message()),
        };
    }
    let winner = match best {
        None => None,
        Some(b) => match cohort[b].delta {
            None => None,
            Some(delta) => Some((cohort[b].id.clone(), delta)),
        },
    };
    PromotionOutcome {
        screen,
        full: Some(full),
        winner,
        false_positives: positives,
        false_negatives: negatives,
        veto: None,
    }
}

/// Only one position can be the best.
pub proof fn best_is_unique(cohort: Seq<Measured>, min_improvement: Double, a: int, b: int)
    requires
        is_best(cohort, cohort.len() as int, min_improvement, a),
        is_best(cohort, cohort.len() as int, min_improvement, b),
    ensures
        a == b,
{
    if a < b {
        assert(better(cohort[b], cohort[a]));
    } else if b < a {
        assert(better(cohort[a], cohort[b]));
    }
}

impl Default for PromotionOutcome {
    /// Nothing was screened, scored or accepted.
    fn default() -> (r: PromotionOutcome)
        ensures
            r == (PromotionOutcome {
                screen: None,
                full: None,
                winner: None,
                false_positives: 0,
                false_negatives: 0,
                veto: None,
            }),
    {
        PromotionOutcome {
            screen: None,
            full: None,
            winner: None,
            false_positives: 0,
            false_negatives: 0,
            veto: None,
        }
    }
}

/// Ids of the candidates at the positions.
pub open spec fn ids_at(cohort: Seq<Measured>, positions: Seq<usize>) -> Seq<Seq<char>> {
    positions.map_values(|p: usize| cohort[p as int].id@)
}

fn named(cohort: &Vec<Measured>, positions: &Vec<usize>) -> (r: Vec<String>)
    requires
        forall|i: int| 0 <= i < positions@.len() ==> #[trigger] positions@[i] < cohort@.len(),
    ensures
        text::texts(r@) == ids_at(cohort@, positions@),
{
    let n: usize = positions.len();
    let ghost want = ids_at(cohort@, positions@);
    let mut out: Vec<String> = Vec::new();
    for i in 0..n
        invariant
            n == positions@.len(),
            want == ids_at(cohort@, positions@),
            forall|i: int| 0 <= i < positions@.len() ==> #[trigger] positions@[i] < cohort@.len(),
            text::texts(out@) == want.take(i as int),
    {
        let ghost before = out@;
        let id = cohort[positions[i]].id.clone();
        out.push(id);
        assert(text::texts(out@) =~= text::texts(before).push(id@));
        assert(want.take(i as int + 1) =~= want.take(i as int).push(want[i as int]));
    }
    assert(text::texts(out@) =~= want);
    out
}

/// What is kept of a screen: its scores, and who was promoted and who bypassed
/// it, by the positions of the plan.
pub fn screen_outcome(
    cfg: &PromoteConfig,
    rate: Double,
    baseline_score: Double,
    scores: Vec<(String, ScoreResult)>,
    cohort: &Vec<Measured>,
    promoted: &Vec<usize>,
    bypass: &Vec<usize>,
    scorer_ms: u64,
) -> (r: ScreenOutcome)
    requires
        forall|i: int| 0 <= i < promoted@.len() ==> #[trigger] promoted@[i] < cohort@.len(),
        forall|i: int| 0 <= i < bypass@.len() ==> #[trigger] bypass@[i] < cohort@.len(),
    ensures
        r.rate == rate,
        r.phase == cfg.screen_phase,
        r.baseline_score == baseline_score,
        r.scores == scores,
        text::texts(r.promoted@) == ids_at(cohort@, promoted@),
        text::texts(r.bypass@) == ids_at(cohort@, bypass@),
        r.scorer_ms == scorer_ms,
{
    ScreenOutcome {
        rate,
        phase: cfg.screen_phase,
        baseline_score,
        scores,
        promoted: named(cohort, promoted),
        bypass: named(cohort, bypass),
        scorer_ms,
    }
}

/// A cohort that no candidate left for full scoring: only its screen is known.
pub fn unscored(screen: Option<ScreenOutcome>) -> (r: PromotionOutcome)
    ensures
        r == (PromotionOutcome {
            screen,
            full: None,
            winner: None,
            false_positives: 0,
            false_negatives: 0,
            veto: None,
        }),
{
    PromotionOutcome {
        screen,
        full: None,
        winner: None,
        false_positives: 0,
        false_negatives: 0,
        veto: None,
    }
}

/// Only a candidate that beat the strict threshold on the full corpus, in the
/// call that also scored the baseline, can be the best of its cohort.
pub proof fn only_the_full_corpus_accepts(
    cohort: Seq<Measured>,
    min_improvement: Double,
    i: int,
)
    requires
        is_best(cohort, cohort.len() as int, min_improvement, i),
    ensures
        cohort[i].delta is Some,
        cohort[i].delta->0.above(min_improvement),
        forall|j: int|
            0 <= j < cohort.len() && (#[trigger] cohort[j]).delta is Some
                ==> !cohort[j].delta->0.above(cohort[i].delta->0),
{
    assert(cleared(cohort[i], min_improvement));
    let best = cohort[i].delta->0;
    assert forall|j: int|
        0 <= j < cohort.len() && (#[trigger] cohort[j]).delta is Some implies !cohort[j].delta->0.above(
        best,
    ) by {
        if cohort[j].delta->0.above(best) {
            assert(cleared(cohort[j], min_improvement));
            assert(better(cohort[j], cohort[i]));
        }
    }
}

// ---------------------------------------------------------------------------
// Who is promoted, and who wins.
// ---------------------------------------------------------------------------

proof fn scored_has_every_score(cohort: Seq<Measured>, n: int, i: int)
    requires
        0 <= i < n <= cohort.len() <= usize::MAX,
        cohort[i].delta is Some,
    ensures
        exists|k: int|
            0 <= k < scored(cohort, n).len() && (#[trigger] scored(cohort, n)[k]).position == i,
    decreases n,
{
    let before = scored(cohort, n - 1);
    let all = scored(cohort, n);
    if i < n - 1 {
        scored_has_every_score(cohort, n - 1, i);
        let k = choose|k: int| 0 <= k < before.len() && (#[trigger] before[k]).position == i;
        assert(all[k] == before[k]);
    } else {
        assert(all[before.len() as int].position == i);
    }
}

proof fn filtering_keeps_the_order(
    entries: Seq<ScreenEntry>,
    keep: spec_fn(ScreenEntry) -> bool,
)
    ensures
        ({
            let kept = entries.filter(keep);
            &&& forall|a: int| 0 <= a < kept.len() ==> keep(#[trigger] kept[a]) && entries.contains(
                kept[a],
            )
            &&& forall|i: int|
                0 <= i < entries.len() && keep(#[trigger] entries[i]) ==> kept.contains(entries[i])
            &&& (forall|a: int, b: int|
                #![trigger entries[a], entries[b]]
                0 <= a < b < entries.len() ==> !entries[b].ahead(&entries[a])) ==> forall|
                a: int,
                b: int,
            |
                #![trigger kept[a], kept[b]]
                0 <= a < b < kept.len() ==> !kept[b].ahead(&kept[a])
        }),
    decreases entries.len(),
{
    reveal(Seq::filter);
    if entries.len() > 0 {
        let less = entries.drop_last();
        filtering_keeps_the_order(less, keep);
        let before = less.filter(keep);
        let kept = entries.filter(keep);
        let last = entries.last();
        assert(entries[entries.len() - 1] == last);
        assert forall|a: int| 0 <= a < kept.len() implies keep(#[trigger] kept[a])
            && entries.contains(kept[a]) by {
            if a < before.len() {
                assert(less.contains(before[a]));
                let i = choose|i: int| 0 <= i < less.len() && less[i] == before[a];
                assert(entries[i] == kept[a]);
            }
        }
        assert forall|i: int| 0 <= i < entries.len() && keep(#[trigger] entries[i]) implies kept.contains(
        entries[i]) by {
            if i < less.len() {
                assert(less[i] == entries[i]);
                assert(before.contains(less[i]));
                let a = choose|a: int| 0 <= a < before.len() && before[a] == less[i];
                assert(kept[a] == entries[i]);
            } else {
                assert(kept[before.len() as int] == last);
            }
        }
        if forall|a: int, b: int|
            #![trigger entries[a], entries[b]]
            0 <= a < b < entries.len() ==> !entries[b].ahead(&entries[a]) {
            assert forall|a: int, b: int|
                #![trigger less[a], less[b]]
                0 <= a < b < less.len() implies !less[b].ahead(&less[a]) by {
                assert(less[a] == entries[a]);
                assert(less[b] == entries[b]);
            }
            assert forall|a: int, b: int|
                #![trigger kept[a], kept[b]]
                0 <= a < b < kept.len() implies !kept[b].ahead(&kept[a]) by {
                if b < before.len() {
                    assert(before[a] == kept[a]);
                    assert(before[b] == kept[b]);
                } else {
                    assert(less.contains(before[a]));
                    let i = choose|i: int| 0 <= i < less.len() && less[i] == before[a];
                    assert(entries[i] == kept[a]);
                    assert(entries[entries.len() - 1] == kept[b]);
                }
            }
        }
    }
}

proof fn the_screen_ranks_the_scored(cohort: Seq<Measured>)
    requires
        cohort.len() <= usize::MAX,
        scored(cohort, cohort.len() as int).len() <= usize::MAX,
    ensures
        ({
            let entries = screen_ranking(cohort);
            &&& forall|k: int|
                0 <= k < entries.len() ==> {
                    let e = #[trigger] entries[k];
                    &&& e.position < cohort.len()
                    &&& e.id == cohort[e.position as int].id
                    &&& cohort[e.position as int].delta == Some(e.delta)
                }
            &&& forall|i: int|
                #![trigger cohort[i]]
                0 <= i < cohort.len() && cohort[i].delta is Some ==> entries.contains(
                    ScreenEntry {
                        position: i as usize,
                        id: cohort[i].id,
                        delta: cohort[i].delta->0,
                    },
                )
            &&& forall|a: int, b: int|
                #![trigger entries[a], entries[b]]
                0 <= a < b < entries.len() ==> !entries[b].ahead(&entries[a])
        }),
{
    let n = cohort.len() as int;
    let items = scored(cohort, n);
    let entries = screen_ranking(cohort);
    scored_entries_are_candidates(cohort, n);
    ranking::every_list_has_a_ranking(items);
    let order = ranking::the_ranking(items);
    ranking::sorted_is_in_order(items, order);
    assert forall|k: int| 0 <= k < entries.len() implies {
        let e = #[trigger] entries[k];
        &&& e.position < cohort.len()
        &&& e.id == cohort[e.position as int].id
        &&& cohort[e.position as int].delta == Some(e.delta)
    } by {
        assert(entries[k] == items[order[k] as int]);
    }
    assert forall|i: int|
        #![trigger cohort[i]]
        0 <= i < cohort.len() && cohort[i].delta is Some implies entries.contains(
        ScreenEntry { position: i as usize, id: cohort[i].id, delta: cohort[i].delta->0 },
    ) by {
        scored_has_every_score(cohort, n, i);
        let k = choose|k: int| 0 <= k < items.len() && (#[trigger] items[k]).position == i;
        assert(order.contains(k as usize));
        let at = choose|at: int| 0 <= at < order.len() && order[at] == k as usize;
        assert(entries[at] == items[k]);
    }
}

/// Promoted are candidates that the screen scored above the threshold, best gain
/// first and no more than asked for; one that is above the threshold and is not
/// promoted has no larger gain than any that is, and then there are as many as
/// asked for.
pub proof fn the_best_above_the_threshold_are_promoted(
    cohort: Seq<Measured>,
    threshold: Double,
    count: int,
)
    requires
        cohort.len() <= usize::MAX,
        scored(cohort, cohort.len() as int).len() <= usize::MAX,
        0 <= count,
    ensures
        ({
            let up = promoted(cohort, threshold, count);
            &&& up.len() <= count
            &&& forall|k: int|
                0 <= k < up.len() ==> {
                    let e = #[trigger] up[k];
                    &&& e.position < cohort.len()
                    &&& e.id == cohort[e.position as int].id
                    &&& cohort[e.position as int].delta == Some(e.delta)
                    &&& !e.delta.nan() && !threshold.nan() && e.delta.num() > threshold.num()
                }
            &&& forall|a: int, b: int|
                #![trigger up[a], up[b]]
                0 <= a < b < up.len() ==> up[a].delta.order() >= up[b].delta.order()
            &&& forall|i: int|
                #![trigger cohort[i]]
                0 <= i < cohort.len() && cohort[i].delta is Some && cohort[i].delta->0.above(
                    threshold,
                ) ==> entry_positions(up).contains(i as usize) || (up.len() == count && forall|k: int|
                    0 <= k < up.len() ==> (#[trigger] up[k]).delta.order()
                        >= cohort[i].delta->0.order())
        }),
{
    let entries = screen_ranking(cohort);
    let keep = |e: ScreenEntry| e.delta.above(threshold);
    let kept = entries.filter(keep);
    let up = promoted(cohort, threshold, count);
    the_screen_ranks_the_scored(cohort);
    filtering_keeps_the_order(entries, keep);
    assert forall|k: int| 0 <= k < up.len() implies {
        let e = #[trigger] up[k];
        &&& e.position < cohort.len()
        &&& e.id == cohort[e.position as int].id
        &&& cohort[e.position as int].delta == Some(e.delta)
        &&& !e.delta.nan() && !threshold.nan() && e.delta.num() > threshold.num()
    } by {
        assert(up[k] == kept[k]);
        assert(keep(kept[k]));
        let i = choose|i: int| 0 <= i < entries.len() && entries[i] == kept[k];
    }
    assert forall|a: int, b: int|
        #![trigger up[a], up[b]]
        0 <= a < b < up.len() implies up[a].delta.order() >= up[b].delta.order() by {
        assert(!kept[b].ahead(&kept[a]));
    }
    assert forall|i: int|
        #![trigger cohort[i]]
        0 <= i < cohort.len() && cohort[i].delta is Some && cohort[i].delta->0.above(
            threshold,
        ) implies entry_positions(up).contains(i as usize) || (up.len() == count && forall|k: int|
        0 <= k < up.len() ==> (#[trigger] up[k]).delta.order() >= cohort[i].delta->0.order()) by {
        let e = ScreenEntry {
            position: i as usize,
            id: cohort[i].id,
            delta: cohort[i].delta->0,
        };
        assert(entries.contains(e));
        let j = choose|j: int| 0 <= j < entries.len() && entries[j] == e;
        assert(keep(entries[j]));
        assert(kept.contains(e));
        let at = choose|at: int| 0 <= at < kept.len() && kept[at] == e;
        if at < up.len() {
            assert(entry_positions(up)[at] == i as usize);
        } else {
            assert forall|k: int| 0 <= k < up.len() implies (#[trigger] up[k]).delta.order()
                >= cohort[i].delta->0.order() by {
                assert(!kept[at].ahead(&kept[k]));
            }
        }
    }
}

/// Every candidate that the screen scored is promoted or rejected by its id, and
/// what is rejected is not promoted.
pub proof fn the_screen_parts_the_scored(
    cohort: Seq<Measured>,
    threshold: Double,
    count: int,
    i: int,
)
    requires
        cohort.len() <= usize::MAX,
        scored(cohort, cohort.len() as int).len() <= usize::MAX,
        0 <= i < cohort.len(),
        cohort[i].delta is Some,
    ensures
        ({
            let up = entry_ids(promoted(cohort, threshold, count));
            let out = rejected(cohort, threshold, count);
            &&& up.contains(cohort[i].id@) <==> !entry_positions(out).contains(i as usize)
            &&& forall|k: int| 0 <= k < out.len() ==> !up.contains((#[trigger] out[k]).id@)
        }),
{
    let entries = screen_ranking(cohort);
    let ids = entry_ids(promoted(cohort, threshold, count));
    let keep = |e: ScreenEntry| !ids.contains(e.id@);
    let out = rejected(cohort, threshold, count);
    the_screen_ranks_the_scored(cohort);
    filtering_keeps_the_order(entries, keep);
    assert forall|k: int| 0 <= k < out.len() implies !ids.contains((#[trigger] out[k]).id@) by {
        assert(keep(out[k]));
    }
    let e = ScreenEntry { position: i as usize, id: cohort[i].id, delta: cohort[i].delta->0 };
    assert(entries.contains(e));
    let j = choose|j: int| 0 <= j < entries.len() && entries[j] == e;
    if !ids.contains(cohort[i].id@) {
        assert(keep(entries[j]));
        assert(out.contains(e));
        let at = choose|at: int| 0 <= at < out.len() && out[at] == e;
        assert(entry_positions(out)[at] == i as usize);
    } else if entry_positions(out).contains(i as usize) {
        let at = choose|at: int|
            0 <= at < entry_positions(out).len() && entry_positions(out)[at] == i as usize;
        assert(out[at].position == i);
        assert(entries.contains(out[at]));
        let k = choose|k: int| 0 <= k < entries.len() && entries[k] == out[at];
        assert(entries[k].id == cohort[i].id);
    }
}

/// What is drawn first is the item picked, and what is drawn after it is drawn
/// from the others.
pub proof fn draws_take_what_is_picked(pool: Seq<usize>, picks: Seq<usize>)
    requires
        pool.no_duplicates(),
        drawable(pool.len() as int, picks),
        picks.len() > 0,
    ensures
        drawn(pool, picks).len() == picks.len(),
        drawn(pool, picks)[0] == pool[picks[0] as int],
        picks.len() > 1 && picks[1] != picks[0] ==> drawn(pool, picks)[1] == pool[picks[1] as int],
        picks.len() > 1 && picks[1] == picks[0] ==> drawn(pool, picks)[1] == pool.last(),
{
    draws_are_distinct(pool, picks);
    reveal_with_fuel(drawn, 3);
    if picks.len() > 1 {
        let left = pool.update(picks[0] as int, pool.last()).drop_last();
        assert(drawn(pool, picks)[1] == left[picks[1] as int]);
    }
}

/// False positives are the candidates that were scored without having bypassed
/// the screen and gained no more than asked for, false negatives those that
/// bypassed it and did gain more.
pub proof fn the_screen_is_judged_by_full_scores(
    cohort: Seq<Measured>,
    n: int,
    bypass: Seq<Seq<char>>,
    min_improvement: Double,
)
    requires
        0 <= n <= cohort.len(),
    ensures
        false_positive_count(cohort, n, bypass, min_improvement) == cohort.take(n).filter(
            |m: Measured|
                m.delta is Some && !bypass.contains(m.id@) && !m.delta->0.above(min_improvement),
        ).len(),
        false_negative_count(cohort, n, bypass, min_improvement) == cohort.take(n).filter(
            |m: Measured|
                m.delta is Some && bypass.contains(m.id@) && m.delta->0.above(min_improvement),
        ).len(),
    decreases n,
{
    reveal(Seq::filter);
    if n > 0 {
        the_screen_is_judged_by_full_scores(cohort, n - 1, bypass, min_improvement);
        assert(cohort.take(n).drop_last() =~= cohort.take(n - 1));
        assert(cohort.take(n).last() == cohort[n - 1]);
    }
}

/// A winner gained strictly more than asked for, no candidate gained more than
/// it did, and of those with the same gain it has the first name.
pub proof fn the_largest_gain_wins(cohort: Seq<Measured>, min_improvement: Double, i: int, j: int)
    requires
        is_best(cohort, cohort.len() as int, min_improvement, i),
        0 <= j < cohort.len(),
        cohort[j].delta is Some,
        !cohort[j].delta->0.nan(),
    ensures
        !min_improvement.nan(),
        cohort[i].delta->0.num() > min_improvement.num(),
        cohort[j].delta->0.num() <= cohort[i].delta->0.num(),
        cohort[j].delta->0.num() == cohort[i].delta->0.num() ==> !text::text_before(
            cohort[j].id@,
            cohort[i].id@,
        ),
{
    if cleared(cohort[j], min_improvement) {
        assert(!better(cohort[j], cohort[i]));
    }
}

/// The baselines disagree when their difference, either way, is larger than
/// tolerated.
pub proof fn drift_is_judged_by_its_size(full: FullOutcome, cfg: PromoteConfig)
    requires
        !full.baseline_drift.nan(),
        !cfg.baseline_drift_epsilon.nan(),
    ensures
        drifted(full, cfg) <==> {
            ||| full.baseline_drift.num() > cfg.baseline_drift_epsilon.num()
            ||| -full.baseline_drift.num() > cfg.baseline_drift_epsilon.num()
        },
{
}

/// Of candidates that the screen scored alike, the one whose name comes first is
/// ranked first.
pub proof fn alike_candidates_go_by_name(items: Seq<ScreenEntry>, a: int, b: int, k: int)
    requires
        items.len() <= usize::MAX,
        0 <= a < b < items.len(),
        ranking::sorted(items)[a].delta == ranking::sorted(items)[b].delta,
        ({
            let x = ranking::sorted(items)[a].id@;
            let y = ranking::sorted(items)[b].id@;
            &&& 0 <= k < x.len()
            &&& k < y.len()
            &&& forall|i: int| 0 <= i < k ==> x[i] == y[i]
            &&& x[k] != y[k]
        }),
    ensures
        ranking::sorted(items)[a].id@[k] < ranking::sorted(items)[b].id@[k],
{
    ranking::every_list_has_a_ranking(items);
    ranking::sorted_is_in_order(items, ranking::the_ranking(items));
    let x = ranking::sorted(items)[a];
    let y = ranking::sorted(items)[b];
    assert(!y.ahead(&x));
    text::the_first_difference_decides(y.id@, x.id@, k);
}

} // verus!
