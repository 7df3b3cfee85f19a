//! Economics report from a journal.
//!
//! The go/no-go metric is scorer-verified improvement per wall-clock hour.
//! Everything else is context: where the time went, which strategies, backends
//! and depths produced authoritative winners, and what the screen's false
//! positives and false negatives say. What is measured as a quotient is kept as
//! its two parts, and is absent when it cannot be measured.

use vstd::multiset::Multiset;
use vstd::prelude::*;
use vstd::string::*;

use crate::floats::Double;
use crate::journal::{CandidateRecord, ExperimentRecord, JournalLine};
use crate::text;
use crate::text::{contains_part, contains_text, decimal_text, is_text_before};

verus! {

/// A measured share: `part` of `whole`, and `whole` is not zero.
#[derive(Debug, Clone, Copy, PartialEq, Eq, Structural)]
pub struct Rate {
    /// Numerator.
    pub part: u64,
    /// Denominator.
    pub whole: u64,
}

/// A measured improvement of the score: the closing score less the opening one.
#[derive(Debug, Clone, Copy, PartialEq, Eq, Structural)]
pub struct Improvement {
    /// Opening score.
    pub opening: Double,
    /// Closing score.
    pub closing: Double,
}

/// A measured improvement over a stretch of wall time.
#[derive(Debug, Clone, Copy, PartialEq, Eq, Structural)]
pub struct ImprovementRate {
    /// The improvement.
    pub improvement: Improvement,
    /// Milliseconds that it took, more than none.
    pub wall_ms: u64,
}

/// Aggregate of a strategy, a backend or a depth.
#[derive(Debug, PartialEq)]
pub struct StrategyStats {
    /// Candidates generated.
    pub generated: u64,
    /// Promoted to full scoring.
    pub promoted: u64,
    /// Fully scored.
    pub full_scored: u64,
    /// Authoritative winners accepted.
    pub winners: u64,
    /// Accepted authoritative improvements, in order.
    pub accepted_gains: Vec<Double>,
    /// Full score differences of the fully scored candidates, in order.
    pub full_deltas: Vec<Double>,
}

impl StrategyStats {
    /// The score differences whose mean is the mean full difference; `None` when
    /// there are none.
    pub fn mean_full_delta(&self) -> (r: Option<&Vec<Double>>)
        ensures
            match r {
                Some(deltas) => self.full_deltas@.len() > 0 && *deltas == self.full_deltas,
                None => self.full_deltas@.len() == 0,
            },
    {
        if self.full_deltas.len() > 0 {
            Some(&self.full_deltas)
        } else {
            None
        }
    }
}

/// What a [`StrategyStats`] says.
pub struct StatsModel {
    pub generated: nat,
    pub promoted: nat,
    pub full_scored: nat,
    pub winners: nat,
    pub accepted_gains: Seq<Double>,
    pub full_deltas: Seq<Double>,
}

impl View for StrategyStats {
    type V = StatsModel;

    open spec fn view(&self) -> StatsModel {
        StatsModel {
            generated: self.generated as nat,
            promoted: self.promoted as nat,
            full_scored: self.full_scored as nat,
            winners: self.winners as nat,
            accepted_gains: self.accepted_gains@,
            full_deltas: self.full_deltas@,
        }
    }
}

/// An accepted gain and how concentrated it is.
#[derive(Debug, PartialEq)]
pub struct AcceptedGain {
    /// Iteration.
    pub iteration: u64,
    /// Winner id.
    pub id: String,
    /// Strategy.
    pub strategy: String,
    /// Depth.
    pub depth: usize,
    /// Authoritative improvement.
    pub improvement: Double,
    /// Affected fraction of the search set.
    pub affected_fraction: Double,
    /// Milliseconds since the run started.
    pub at_wall_ms: u64,
}

/// What an [`AcceptedGain`] says.
pub struct GainModel {
    pub iteration: u64,
    pub id: Seq<char>,
    pub strategy: Seq<char>,
    pub depth: usize,
    pub improvement: Double,
    pub affected_fraction: Double,
    pub at_wall_ms: int,
}

impl View for AcceptedGain {
    type V = GainModel;

    open spec fn view(&self) -> GainModel {
        GainModel {
            iteration: self.iteration,
            id: self.id@,
            strategy: self.strategy@,
            depth: self.depth,
            improvement: self.improvement,
            affected_fraction: self.affected_fraction,
            at_wall_ms: self.at_wall_ms as int,
        }
    }
}

/// By what candidates are grouped.
#[derive(Debug, Clone, Copy, PartialEq, Eq, Structural)]
pub enum Axis {
    /// Strategy label.
    Strategy,
    /// Search backend.
    Backend,
    /// Tree depth, written `depth<n>`.
    Depth,
}

/// The group of a candidate.
pub open spec fn group_of(c: CandidateRecord, axis: Axis) -> Seq<char> {
    match axis {
        Axis::Strategy => c.strategy@,
        Axis::Backend => c.backend@,
        Axis::Depth => "depth"@ + text::decimal(c.depth as nat),
    }
}

fn group_text(c: &CandidateRecord, axis: Axis) -> (r: String)
    ensures
        r@ == group_of(*c, axis),
{
    match axis {
        Axis::Strategy => c.strategy.clone(),
        Axis::Backend => c.backend.clone(),
        Axis::Depth => {
            let mut out = "depth".to_owned();
            out.append(decimal_text(c.depth as u64).as_str());
            out
        },
    }
}

/// Nothing counted.
pub open spec fn no_stats() -> StatsModel {
    StatsModel {
        generated: 0,
        promoted: 0,
        full_scored: 0,
        winners: 0,
        accepted_gains: Seq::empty(),
        full_deltas: Seq::empty(),
    }
}

/// The first `n` candidates of a group counted on top of `start`.
pub open spec fn candidate_stats(
    start: StatsModel,
    cs: Seq<CandidateRecord>,
    axis: Axis,
    key: Seq<char>,
    n: int,
) -> StatsModel
    decreases n,
{
    if n <= 0 {
        start
    } else {
        let before = candidate_stats(start, cs, axis, key, n - 1);
        let c = cs[n - 1];
        if group_of(c, axis) != key {
            before
        } else {
            StatsModel {
                generated: before.generated + 1,
                promoted: before.promoted + if c.promoted {
                    1nat
                } else {
                    0
                },
                full_scored: before.full_scored + if c.full_score is Some {
                    1nat
                } else {
                    0
                },
                full_deltas: match c.full_delta {
                    Some(d) => before.full_deltas.push(d),
                    None => before.full_deltas,
                },
                ..before
            }
        }
    }
}

/// First candidate with the id; their number when there is none.
pub open spec fn candidate_place(cs: Seq<CandidateRecord>, id: Seq<char>, from: int) -> int
    decreases cs.len() - from,
{
    if from < 0 || from >= cs.len() {
        cs.len() as int
    } else if cs[from].id@ == id {
        from
    } else {
        candidate_place(cs, id, from + 1)
    }
}

/// The iteration accepted a winner.
pub open spec fn has_winner(e: ExperimentRecord) -> bool {
    e.accepted && e.winner is Some && e.improvement is Some
}

/// The winning candidate's place; the number of candidates when there is none.
pub open spec fn winner_place(e: ExperimentRecord) -> int {
    if has_winner(e) {
        candidate_place(e.candidates@, e.winner->0@, 0)
    } else {
        e.candidates@.len() as int
    }
}

/// An iteration counted on top of `start`.
pub open spec fn experiment_stats(
    start: StatsModel,
    e: ExperimentRecord,
    axis: Axis,
    key: Seq<char>,
) -> StatsModel {
    let counted = candidate_stats(start, e.candidates@, axis, key, e.candidates@.len() as int);
    let w = winner_place(e);
    if w < e.candidates@.len() && group_of(e.candidates@[w], axis) == key {
        StatsModel {
            winners: counted.winners + 1,
            accepted_gains: counted.accepted_gains.push(e.improvement->0),
            ..counted
        }
    } else {
        counted
    }
}

/// What the first `n` lines say of a group.
pub open spec fn group_stats(lines: Seq<JournalLine>, axis: Axis, key: Seq<char>, n: int) -> StatsModel
    decreases n,
{
    if n <= 0 {
        no_stats()
    } else {
        match lines[n - 1] {
            JournalLine::Experiment(e) => experiment_stats(
                group_stats(lines, axis, key, n - 1),
                *e,
                axis,
                key,
            ),
            _ => group_stats(lines, axis, key, n - 1),
        }
    }
}

/// Some candidate of the first `n` lines is in the group.
pub open spec fn is_group(lines: Seq<JournalLine>, axis: Axis, key: Seq<char>, n: int) -> bool {
    exists|i: int, k: int|
        #![trigger in_group(lines, axis, key, i, k)]
        0 <= i < n && in_group(lines, axis, key, i, k)
}

/// Candidate `k` of line `i` is in the group.
pub open spec fn in_group(lines: Seq<JournalLine>, axis: Axis, key: Seq<char>, i: int, k: int) -> bool {
    lines[i] matches JournalLine::Experiment(e) && 0 <= k < e.candidates@.len() && group_of(
        e.candidates@[k],
        axis,
    ) == key
}

/// Candidates in the first `n` lines.
pub open spec fn candidate_total(lines: Seq<JournalLine>, n: int) -> nat
    decreases n,
{
    if n <= 0 {
        0
    } else {
        candidate_total(lines, n - 1) + match lines[n - 1] {
            JournalLine::Experiment(e) => e.candidates@.len(),
            _ => 0,
        }
    }
}

proof fn more_lines_have_more_candidates(lines: Seq<JournalLine>, n: int, m: int)
    requires
        0 <= n <= m,
    ensures
        candidate_total(lines, n) <= candidate_total(lines, m),
    decreases m,
{
    if n < m {
        more_lines_have_more_candidates(lines, n, m - 1);
    }
}

fn count_candidates(
    stats: &mut StrategyStats,
    cs: &Vec<CandidateRecord>,
    axis: Axis,
    key: &String,
    Ghost(base): Ghost<nat>,
)
    requires
        old(stats)@.generated <= base,
        old(stats)@.promoted <= base,
        old(stats)@.full_scored <= base,
        base + cs@.len() <= u64::MAX,
    ensures
        final(stats)@ == candidate_stats(old(stats)@, cs@, axis, key@, cs@.len() as int),
        final(stats)@.generated <= base + cs@.len(),
        final(stats)@.promoted <= base + cs@.len(),
        final(stats)@.full_scored <= base + cs@.len(),
        final(stats)@.winners == old(stats)@.winners,
{
    let ghost start = stats@;
    for i in 0..cs.len()
        invariant
            base + cs@.len() <= u64::MAX,
            stats@ == candidate_stats(start, cs@, axis, key@, i as int),
            stats@.generated <= base + i,
            stats@.promoted <= base + i,
            stats@.full_scored <= base + i,
            stats@.winners == start.winners,
    {
        let c = &cs[i];
        let own = group_text(c, axis);
        if own == *key {
            stats.generated = stats.generated + 1;
            if c.promoted {
                stats.promoted = stats.promoted + 1;
            }
            if c.full_score.is_some() {
                stats.full_scored = stats.full_scored + 1;
            }
            if let Some(d) = c.full_delta {
                stats.full_deltas.push(d);
            }
        }
    }
}

fn find_winner(e: &ExperimentRecord) -> (r: usize)
    ensures
        r == winner_place(*e),
        r <= e.candidates@.len(),
{
    let total: usize = e.candidates.len();
    if !e.accepted || e.improvement.is_none() {
        return total;
    }
    match &e.winner {
        None => total,
        Some(id) => {
            let mut i: usize = 0;
            while i < total
                invariant
                    total == e.candidates@.len(),
                    i <= total,
                    winner_place(*e) == candidate_place(
                        e.candidates@,
                        id@,
                        i as int,
                    ),
                decreases total - i,
            {
                if e.candidates[i].id == *id {
                    return i;
                }
                i = i + 1;
            }
            i
        },
    }
}

/// What the lines say of a group.
pub fn stats_of(lines: &Vec<JournalLine>, axis: Axis, key: &String) -> (r: StrategyStats)
    requires
        candidate_total(lines@, lines@.len() as int) <= u64::MAX,
    ensures
        r@ == group_stats(lines@, axis, key@, lines@.len() as int),
{
    let mut stats = StrategyStats {
        generated: 0,
        promoted: 0,
        full_scored: 0,
        winners: 0,
        accepted_gains: Vec::new(),
        full_deltas: Vec::new(),
    };
    assert(stats@.accepted_gains =~= Seq::empty() && stats@.full_deltas =~= Seq::empty());
    for n in 0..lines.len()
        invariant
            candidate_total(lines@, lines@.len() as int) <= u64::MAX,
            stats@ == group_stats(lines@, axis, key@, n as int),
            stats@.generated <= candidate_total(lines@, n as int),
            stats@.promoted <= candidate_total(lines@, n as int),
            stats@.full_scored <= candidate_total(lines@, n as int),
            stats@.winners <= n,
    {
        proof {
            more_lines_have_more_candidates(lines@, n as int + 1, lines@.len() as int);
        }
        if let JournalLine::Experiment(e) = &lines[n] {
            let ghost before = stats@;
            count_candidates(
                &mut stats,
                &e.candidates,
                axis,
                key,
                Ghost(candidate_total(lines@, n as int)),
            );
            let w: usize = find_winner(e);
            if w < e.candidates.len() {
                let own = group_text(&e.candidates[w], axis);
                if own == *key {
                    if let Some(gain) = e.improvement {
                        stats.winners = stats.winners + 1;
                        stats.accepted_gains.push(gain);
                    }
                }
            }
            assert(stats@ == experiment_stats(before, **e, axis, key@));
        }
    }
    stats
}

/// Strictly ascending in dictionary order.
pub open spec fn in_order(keys: Seq<Seq<char>>) -> bool {
    forall|a: int, b: int|
        0 <= a < b < keys.len() ==> text::text_before(#[trigger] keys[a], #[trigger] keys[b])
}

/// Put a key into its place among ascending keys, unless it is there.
fn insert_key(keys: &mut Vec<String>, key: String)
    requires
        in_order(text::texts(old(keys)@)),
    ensures
        in_order(text::texts(final(keys)@)),
        forall|x: Seq<char>|
            #![trigger text::texts(final(keys)@).contains(x)]
            text::texts(final(keys)@).contains(x) <==> text::texts(old(keys)@).contains(x) || x
                == key@,
{
    let ghost before = text::texts(keys@);
    let ghost old_keys = keys@;
    if contains_text(keys, key.as_str()) {
        return;
    }
    let mut at: usize = 0;
    while at < keys.len() && is_text_before(keys[at].as_str(), key.as_str())
        invariant
            before == text::texts(keys@),
            at <= keys@.len(),
            forall|k: int| 0 <= k < at ==> text::text_before(#[trigger] before[k], key@),
        decreases keys@.len() - at,
    {
        assert(before[at as int] == keys@[at as int]@);
        at = at + 1;
    }
    let ghost name = key@;
    proof {
        assert forall|k: int| at <= k < before.len() implies text::text_before(
            name,
            #[trigger] before[k],
        ) by {
            assert(before[at as int] == keys@[at as int]@);
            assert(!text::text_before(before[at as int], name));
            if !text::text_before(name, before[at as int]) {
                text::text_order_is_total(name, before[at as int]);
                assert(before.contains(name));
            }
            if k > at {
                assert(text::text_before(before[at as int], before[k]));
                text::text_before_is_asymmetric(before[at as int], before[k]);
                if !text::text_before(name, before[k]) {
                    text::not_text_before_is_transitive(name, before[k], before[at as int]);
                }
            }
        }
    }
    keys.insert(at, key);
    proof {
        let after = text::texts(keys@);
        assert(after =~= before.insert(at as int, name));
        assert forall|a: int, b: int| 0 <= a < b < after.len() implies text::text_before(
            #[trigger] after[a],
            #[trigger] after[b],
        ) by {
            let i = if a < at { a } else { a - 1 };
            let j = if b < at { b } else { b - 1 };
            if a == at {
                assert(after[b] == before[b - 1]);
            } else if b == at {
                assert(after[a] == before[a]);
            } else {
                assert(after[a] == before[i] && after[b] == before[j]);
            }
        }
        assert forall|x: Seq<char>|
            #![trigger after.contains(x)]
            after.contains(x) <==> before.contains(x) || x == name by {
            assert(after[at as int] == name);
            if before.contains(x) {
                let k = choose|k: int| 0 <= k < before.len() && before[k] == x;
                if k < at {
                    assert(after[k] == x);
                } else {
                    assert(after[k + 1] == x);
                }
            }
            if after.contains(x) && x != name {
                let k = choose|k: int| 0 <= k < after.len() && after[k] == x;
                if k < at {
                    assert(before[k] == x);
                } else {
                    assert(before[k - 1] == x);
                }
            }
        }
    }
}

/// The groups of the journal's candidates, ascending.
pub fn groups(lines: &Vec<JournalLine>, axis: Axis) -> (r: Vec<String>)
    ensures
        in_order(text::texts(r@)),
        forall|key: Seq<char>|
            #![trigger text::texts(r@).contains(key)]
            text::texts(r@).contains(key) <==> is_group(lines@, axis, key, lines@.len() as int),
{
    let mut keys: Vec<String> = Vec::new();
    assert(text::texts(keys@) =~= Seq::empty());
    for n in 0..lines.len()
        invariant
            in_order(text::texts(keys@)),
            forall|key: Seq<char>|
                #![trigger text::texts(keys@).contains(key)]
                text::texts(keys@).contains(key) <==> is_group(lines@, axis, key, n as int),
    {
        let ghost before = text::texts(keys@);
        if let JournalLine::Experiment(e) = &lines[n] {
            for k in 0..e.candidates.len()
                invariant
                    in_order(text::texts(keys@)),
                    n < lines@.len(),
                    lines@[n as int] == JournalLine::Experiment(*e),
                    forall|key: Seq<char>|
                        #![trigger text::texts(keys@).contains(key)]
                        text::texts(keys@).contains(key) <==> before.contains(key) || (exists|j: int|
                            0 <= j < k && #[trigger] in_group(lines@, axis, key, n as int, j)),
            {
                let ghost then = text::texts(keys@);
                let own = group_text(&e.candidates[k], axis);
                let ghost name = own@;
                insert_key(&mut keys, own);
                proof {
                    assert(in_group(lines@, axis, name, n as int, k as int));
                    assert forall|key: Seq<char>|
                        #![trigger text::texts(keys@).contains(key)]
                        text::texts(keys@).contains(key) <==> before.contains(key) || (exists|j: int|
                            0 <= j < k + 1 && #[trigger] in_group(lines@, axis, key, n as int, j)) by {
                        assert(then.contains(key) <==> before.contains(key) || (exists|j: int|
                            0 <= j < k && #[trigger] in_group(lines@, axis, key, n as int, j)));
                        if key == name {
                            assert(in_group(lines@, axis, key, n as int, k as int));
                        }
                    }
                }
            }
            proof {
                assert forall|key: Seq<char>|
                    #![trigger text::texts(keys@).contains(key)]
                    text::texts(keys@).contains(key) <==> is_group(
                        lines@,
                        axis,
                        key,
                        n as int + 1,
                    ) by {
                    group_steps(lines@, axis, key, n as int);
                    assert(before.contains(key) <==> is_group(lines@, axis, key, n as int));
                    if exists|j: int| #[trigger] in_group(lines@, axis, key, n as int, j) {
                        let j = choose|j: int| #[trigger] in_group(lines@, axis, key, n as int, j);
                        assert(0 <= j < e.candidates@.len());
                    }
                }
            }
        } else {
            proof {
                assert forall|key: Seq<char>|
                    #![trigger text::texts(keys@).contains(key)]
                    text::texts(keys@).contains(key) <==> is_group(
                        lines@,
                        axis,
                        key,
                        n as int + 1,
                    ) by {
                    group_steps(lines@, axis, key, n as int);
                    assert(before.contains(key) <==> is_group(lines@, axis, key, n as int));
                }
            }
        }
    }
    keys
}

proof fn group_steps(lines: Seq<JournalLine>, axis: Axis, key: Seq<char>, n: int)
    requires
        0 <= n,
    ensures
        is_group(lines, axis, key, n + 1) <==> is_group(lines, axis, key, n) || exists|j: int|
            #[trigger] in_group(lines, axis, key, n, j),
{
    if is_group(lines, axis, key, n) {
        let (i, k) = choose|i: int, k: int|
            #![trigger in_group(lines, axis, key, i, k)]
            0 <= i < n && in_group(lines, axis, key, i, k);
        assert(in_group(lines, axis, key, i, k));
    }
    if exists|j: int| #[trigger] in_group(lines, axis, key, n, j) {
        let j = choose|j: int| #[trigger] in_group(lines, axis, key, n, j);
        assert(in_group(lines, axis, key, n, j));
    }
    if is_group(lines, axis, key, n + 1) && !is_group(lines, axis, key, n) {
        let (i, k) = choose|i: int, k: int|
            #![trigger in_group(lines, axis, key, i, k)]
            0 <= i < n + 1 && in_group(lines, axis, key, i, k);
        assert(i == n);
    }
}

/// Sums over the iterations of a journal.
pub struct Totals {
    pub iterations: nat,
    pub acceptances: nat,
    pub generated: nat,
    pub discarded: nat,
    pub screened: nat,
    pub promoted: nat,
    pub full_scored: nat,
    pub search_ms: nat,
    pub graft_ms: nat,
    pub screen_scorer_ms: nat,
    pub full_scorer_ms: nat,
    pub false_positives: nat,
    pub false_negatives: nat,
    pub bypass_scored: nat,
    pub scorer_failures: nat,
    pub baseline_vetoes: nat,
}

/// One where it holds.
pub open spec fn count_if(b: bool) -> nat {
    if b {
        1
    } else {
        0
    }
}

/// The iteration was vetoed over a baseline disagreement.
pub open spec fn is_vetoed(e: ExperimentRecord) -> bool {
    e.scorer_error matches Some(m) && text::has_part(m@, "disagrees"@)
}

/// What the first `n` lines sum up to.
pub open spec fn totals(lines: Seq<JournalLine>, n: int) -> Totals
    decreases n,
{
    if n <= 0 {
        Totals {
            iterations: 0,
            acceptances: 0,
            generated: 0,
            discarded: 0,
            screened: 0,
            promoted: 0,
            full_scored: 0,
            search_ms: 0,
            graft_ms: 0,
            screen_scorer_ms: 0,
            full_scorer_ms: 0,
            false_positives: 0,
            false_negatives: 0,
            bypass_scored: 0,
            scorer_failures: 0,
            baseline_vetoes: 0,
        }
    } else {
        let t = totals(lines, n - 1);
        match lines[n - 1] {
            JournalLine::Experiment(e) => Totals {
                iterations: t.iterations + 1,
                acceptances: t.acceptances + count_if(has_winner(*e)),
                generated: t.generated + e.candidates_generated as nat,
                discarded: t.discarded + e.candidates_discarded as nat,
                screened: t.screened + match e.screen {
                    Some(s) => s.screened as nat,
                    None => 0,
                },
                promoted: t.promoted + match e.screen {
                    Some(s) => s.promoted as nat,
                    None => 0,
                },
                full_scored: t.full_scored + match e.full {
                    Some(f) => f.scored as nat,
                    None => 0,
                },
                search_ms: t.search_ms + e.search_ms as nat,
                graft_ms: t.graft_ms + e.graft_ms as nat,
                screen_scorer_ms: t.screen_scorer_ms + match e.screen {
                    Some(s) => s.scorer_ms as nat,
                    None => 0,
                },
                full_scorer_ms: t.full_scorer_ms + match e.full {
                    Some(f) => f.scorer_ms as nat,
                    None => 0,
                },
                false_positives: t.false_positives + e.screen_false_positives as nat,
                false_negatives: t.false_negatives + e.screen_false_negatives as nat,
                bypass_scored: t.bypass_scored + match e.screen {
                    Some(s) => s.bypass as nat,
                    None => 0,
                },
                scorer_failures: t.scorer_failures + count_if(e.scorer_error is Some),
                baseline_vetoes: t.baseline_vetoes + count_if(is_vetoed(*e)),
            },
            _ => t,
        }
    }
}

impl Totals {
    /// No sum is above its counterpart.
    pub open spec fn within(self, other: Totals) -> bool {
        &&& self.iterations <= other.iterations
        &&& self.acceptances <= other.acceptances
        &&& self.generated <= other.generated
        &&& self.discarded <= other.discarded
        &&& self.screened <= other.screened
        &&& self.promoted <= other.promoted
        &&& self.full_scored <= other.full_scored
        &&& self.search_ms <= other.search_ms
        &&& self.graft_ms <= other.graft_ms
        &&& self.screen_scorer_ms <= other.screen_scorer_ms
        &&& self.full_scorer_ms <= other.full_scorer_ms
        &&& self.false_positives <= other.false_positives
        &&& self.false_negatives <= other.false_negatives
        &&& self.bypass_scored <= other.bypass_scored
        &&& self.scorer_failures <= other.scorer_failures
        &&& self.baseline_vetoes <= other.baseline_vetoes
    }

    /// Every sum fits, the time sums together as well.
    pub open spec fn fits(self) -> bool {
        &&& self.generated <= u64::MAX
        &&& self.discarded <= u64::MAX
        &&& self.screened <= u64::MAX
        &&& self.promoted <= u64::MAX
        &&& self.full_scored <= u64::MAX
        &&& self.graft_ms <= u64::MAX
        &&& self.search_ms + self.screen_scorer_ms + self.full_scorer_ms <= u64::MAX
        &&& self.false_positives <= u64::MAX
        &&& self.false_negatives <= u64::MAX
        &&& self.bypass_scored <= u64::MAX
    }
}

proof fn totals_grow(lines: Seq<JournalLine>, n: int, m: int)
    requires
        0 <= n <= m,
    ensures
        totals(lines, n).within(totals(lines, m)),
    decreases m,
{
    if n < m {
        totals_grow(lines, n, m - 1);
    }
}

proof fn counts_are_few(lines: Seq<JournalLine>, n: int)
    requires
        0 <= n,
    ensures
        totals(lines, n).iterations <= n,
        totals(lines, n).acceptances <= n,
        totals(lines, n).scorer_failures <= n,
        totals(lines, n).baseline_vetoes <= n,
    decreases n,
{
    if n > 0 {
        counts_are_few(lines, n - 1);
    }
}

/// When the run started: the first header's time.
pub open spec fn run_start(lines: Seq<JournalLine>, n: int) -> Option<u64>
    decreases n,
{
    if n <= 0 {
        None
    } else {
        match (run_start(lines, n - 1), lines[n - 1]) {
            (None, JournalLine::RunHeader { timestamp_unix, .. }) => Some(timestamp_unix),
            (before, _) => before,
        }
    }
}

/// When the last iteration was recorded.
pub open spec fn last_iteration(lines: Seq<JournalLine>, n: int) -> Option<u64>
    decreases n,
{
    if n <= 0 {
        None
    } else {
        match lines[n - 1] {
            JournalLine::Experiment(e) => Some(e.timestamp_unix),
            _ => last_iteration(lines, n - 1),
        }
    }
}

/// The first score that a baseline or a summary gives.
pub open spec fn opening(lines: Seq<JournalLine>, n: int) -> Option<Double>
    decreases n,
{
    if n <= 0 {
        None
    } else {
        match (opening(lines, n - 1), lines[n - 1]) {
            (None, JournalLine::Baseline(b)) => Some(b.score),
            (None, JournalLine::Summary(s)) => Some(s.opening_score),
            (before, _) => before,
        }
    }
}

/// The last score that a baseline or a summary gives.
pub open spec fn closing(lines: Seq<JournalLine>, n: int) -> Option<Double>
    decreases n,
{
    if n <= 0 {
        None
    } else {
        match lines[n - 1] {
            JournalLine::Baseline(b) => Some(b.score),
            JournalLine::Summary(s) => Some(s.final_score),
            _ => closing(lines, n - 1),
        }
    }
}

/// The wall time and stop reason of the last summary.
pub open spec fn summary(lines: Seq<JournalLine>, n: int) -> Option<(u64, Seq<char>)>
    decreases n,
{
    if n <= 0 {
        None
    } else {
        match lines[n - 1] {
            JournalLine::Summary(s) => Some((s.wall_ms, s.stop_reason@)),
            _ => summary(lines, n - 1),
        }
    }
}

/// Milliseconds from the start to `at`; none when `at` lies before it.
pub open spec fn since(start: u64, at: u64) -> int {
    if at >= start {
        (at - start) * 1000
    } else {
        0
    }
}

/// Milliseconds into the run, as known after `n` lines.
pub open spec fn into_run(lines: Seq<JournalLine>, n: int, at: u64) -> int {
    match run_start(lines, n) {
        Some(start) => since(start, at),
        None => 0,
    }
}

/// Wall time covered by the journal: what the summary says, else the time from
/// the header to the last iteration.
pub open spec fn wall(lines: Seq<JournalLine>) -> int {
    let n = lines.len() as int;
    let said = match summary(lines, n) {
        Some((ms, _)) => ms as int,
        None => 0,
    };
    match (run_start(lines, n), last_iteration(lines, n)) {
        (Some(start), Some(end)) => if said == 0 {
            since(start, end)
        } else {
            said
        },
        _ => said,
    }
}

/// Wall time of the first acceptance in the first `n` lines.
pub open spec fn first_acceptance(lines: Seq<JournalLine>, n: int) -> Option<int>
    decreases n,
{
    if n <= 0 {
        None
    } else {
        match (first_acceptance(lines, n - 1), lines[n - 1]) {
            (None, JournalLine::Experiment(e)) => if has_winner(*e) {
                Some(into_run(lines, n - 1, e.timestamp_unix))
            } else {
                None
            },
            (before, _) => before,
        }
    }
}

/// The accepted gains of the first `n` lines whose winner is on record.
pub open spec fn gains(lines: Seq<JournalLine>, n: int) -> Seq<GainModel>
    decreases n,
{
    if n <= 0 {
        Seq::empty()
    } else {
        match lines[n - 1] {
            JournalLine::Experiment(e) => {
                let w = winner_place(*e);
                if w < e.candidates@.len() {
                    gains(lines, n - 1).push(
                        GainModel {
                            iteration: e.iteration,
                            id: e.winner->0@,
                            strategy: e.candidates@[w].strategy@,
                            depth: e.candidates@[w].depth,
                            improvement: e.improvement->0,
                            affected_fraction: e.candidates@[w].affected_fraction,
                            at_wall_ms: into_run(lines, n - 1, e.timestamp_unix),
                        },
                    )
                } else {
                    gains(lines, n - 1)
                }
            },
            _ => gains(lines, n - 1),
        }
    }
}

/// Baseline score and improvement of each acceptance in the first `n` lines.
pub open spec fn trajectory(lines: Seq<JournalLine>, n: int) -> Seq<(Double, Double)>
    decreases n,
{
    if n <= 0 {
        Seq::empty()
    } else {
        match lines[n - 1] {
            JournalLine::Experiment(e) => if has_winner(*e) {
                trajectory(lines, n - 1).push((e.baseline_score, e.improvement->0))
            } else {
                trajectory(lines, n - 1)
            },
            _ => trajectory(lines, n - 1),
        }
    }
}

/// The share, when there is anything to measure it by.
pub open spec fn share(part: nat, whole: nat) -> Option<Rate> {
    if whole > 0 {
        Some(Rate { part: part as u64, whole: whole as u64 })
    } else {
        None
    }
}

fn rate(part: u64, whole: u64) -> (r: Option<Rate>)
    ensures
        r == share(part as nat, whole as nat),
{
    if whole > 0 {
        Some(Rate { part, whole })
    } else {
        None
    }
}

/// The improvement, when both scores are known.
pub open spec fn improvement(opening: Option<Double>, closing: Option<Double>) -> Option<
    Improvement,
> {
    match (opening, closing) {
        (Some(opening), Some(closing)) => Some(Improvement { opening, closing }),
        _ => None,
    }
}

/// The improvement over time, when there is an improvement and a time.
pub open spec fn improvement_rate(gained: Option<Improvement>, wall_ms: int) -> Option<
    ImprovementRate,
> {
    match gained {
        Some(improvement) => if wall_ms > 0 {
            Some(ImprovementRate { improvement, wall_ms: wall_ms as u64 })
        } else {
            None
        },
        None => None,
    }
}

/// Every acceptance of the first `n` lines comes soon enough after the start of
/// the run for its milliseconds to be told.
pub open spec fn acceptances_fit(lines: Seq<JournalLine>, n: int) -> bool
    decreases n,
{
    n > 0 ==> acceptances_fit(lines, n - 1) && (lines[n - 1] matches JournalLine::Experiment(e)
        ==> has_winner(*e) ==> into_run(lines, n - 1, e.timestamp_unix) <= u64::MAX)
}

/// Every stretch of time that a report tells fits in milliseconds.
pub open spec fn times_fit(lines: Seq<JournalLine>) -> bool {
    acceptances_fit(lines, lines.len() as int) && wall(lines) <= u64::MAX
}

proof fn acceptances_fit_so_far(lines: Seq<JournalLine>, n: int, m: int)
    requires
        0 <= n <= m,
        acceptances_fit(lines, m),
    ensures
        acceptances_fit(lines, n),
    decreases m,
{
    if n < m {
        acceptances_fit_so_far(lines, n, m - 1);
    }
}

/// A journal can be reported on: its totals fit, and so do its times in
/// milliseconds.
pub open spec fn fits(lines: Seq<JournalLine>) -> bool {
    &&& totals(lines, lines.len() as int).fits()
    &&& candidate_total(lines, lines.len() as int) <= u64::MAX
    &&& times_fit(lines)
}

fn told_in_millis(start: Option<u64>, at: u64) -> (r: bool)
    ensures
        r == (match start {
            Some(start) => since(start, at),
            None => 0,
        } <= u64::MAX),
{
    match start {
        Some(start) => at < start || at - start <= u64::MAX / 1000,
        None => true,
    }
}

/// Whether a journal can be reported on.
pub fn journal_fits(lines: &Vec<JournalLine>) -> (r: bool)
    ensures
        r == fits(lines@),
{
    let n: usize = lines.len();
    let mut times: bool = true;
    let mut start: Option<u64> = None;
    let mut end: Option<u64> = None;
    let mut told: u64 = 0;
    let mut candidates: u128 = 0;
    let mut generated: u128 = 0;
    let mut discarded: u128 = 0;
    let mut screened: u128 = 0;
    let mut promoted: u128 = 0;
    let mut bypass: u128 = 0;
    let mut full_scored: u128 = 0;
    let mut graft_ms: u128 = 0;
    let mut search_ms: u128 = 0;
    let mut screen_ms: u128 = 0;
    let mut full_ms: u128 = 0;
    let mut positives: u128 = 0;
    let mut negatives: u128 = 0;
    for i in 0..n
        invariant
            n == lines@.len(),
            times == acceptances_fit(lines@, i as int),
            start == run_start(lines@, i as int),
            end == last_iteration(lines@, i as int),
            told == match summary(lines@, i as int) {
                Some((ms, _)) => ms,
                None => 0,
            },
            candidates == candidate_total(lines@, i as int),
            generated == totals(lines@, i as int).generated,
            discarded == totals(lines@, i as int).discarded,
            screened == totals(lines@, i as int).screened,
            promoted == totals(lines@, i as int).promoted,
            bypass == totals(lines@, i as int).bypass_scored,
            full_scored == totals(lines@, i as int).full_scored,
            graft_ms == totals(lines@, i as int).graft_ms,
            search_ms == totals(lines@, i as int).search_ms,
            screen_ms == totals(lines@, i as int).screen_scorer_ms,
            full_ms == totals(lines@, i as int).full_scorer_ms,
            positives == totals(lines@, i as int).false_positives,
            negatives == totals(lines@, i as int).false_negatives,
            candidates <= i * 0xffff_ffff_ffff_ffff,
            generated <= i * 0xffff_ffff_ffff_ffff,
            discarded <= i * 0xffff_ffff_ffff_ffff,
            screened <= i * 0xffff_ffff_ffff_ffff,
            promoted <= i * 0xffff_ffff_ffff_ffff,
            bypass <= i * 0xffff_ffff_ffff_ffff,
            full_scored <= i * 0xffff_ffff_ffff_ffff,
            graft_ms <= i * 0xffff_ffff_ffff_ffff,
            search_ms <= i * 0xffff_ffff_ffff_ffff,
            screen_ms <= i * 0xffff_ffff_ffff_ffff,
            full_ms <= i * 0xffff_ffff_ffff_ffff,
            positives <= i * 0xffff_ffff_ffff_ffff,
            negatives <= i * 0xffff_ffff_ffff_ffff,
    {
        if let JournalLine::RunHeader { timestamp_unix, .. } = &lines[i] {
            if start.is_none() {
                start = Some(*timestamp_unix);
            }
        }
        if let JournalLine::Summary(s) = &lines[i] {
            told = s.wall_ms;
        }
        if let JournalLine::Experiment(e) = &lines[i] {
            if e.accepted && e.winner.is_some() && e.improvement.is_some() {
                assert(has_winner(**e));
                times = times && told_in_millis(start, e.timestamp_unix);
            } else {
                assert(!has_winner(**e));
            }
            end = Some(e.timestamp_unix);
            candidates = candidates + e.candidates.len() as u128;
            generated = generated + e.candidates_generated as u128;
            discarded = discarded + e.candidates_discarded as u128;
            graft_ms = graft_ms + e.graft_ms as u128;
            search_ms = search_ms + e.search_ms as u128;
            positives = positives + e.screen_false_positives as u128;
            negatives = negatives + e.screen_false_negatives as u128;
            if let Some(s) = &e.screen {
                screened = screened + s.screened as u128;
                promoted = promoted + s.promoted as u128;
                bypass = bypass + s.bypass as u128;
                screen_ms = screen_ms + s.scorer_ms as u128;
            }
            if let Some(f) = &e.full {
                full_scored = full_scored + f.scored as u128;
                full_ms = full_ms + f.scorer_ms as u128;
            }
        }
    }
    if told == 0 {
        if let Some(at) = end {
            times = times && told_in_millis(start, at);
        }
    }
    let most: u128 = u64::MAX as u128;
    times && candidates <= most && generated <= most && discarded <= most && screened <= most
        && promoted <= most && bypass <= most && full_scored <= most && graft_ms <= most
        && search_ms <= most && screen_ms <= most && full_ms <= most && search_ms + screen_ms
        + full_ms <= most && positives <= most && negatives <= most
}

/// The report. What cannot be measured is `None`, never zero. Quotients and
/// differences are told by what they are taken of.
#[derive(Debug, PartialEq)]
pub struct JournalReport {
    /// Iterations.
    pub iterations: u64,
    /// Accepted winners.
    pub acceptances: u64,
    /// Opening authoritative score.
    pub opening_score: Option<Double>,
    /// Final authoritative score.
    pub final_score: Option<Double>,
    /// Final less opening score.
    pub cumulative_improvement: Option<Improvement>,
    /// Wall time covered by the journal, in milliseconds.
    pub wall_ms: u64,
    /// Improvement over wall time.
    pub improvement_per_wall_hour: Option<ImprovementRate>,
    /// Wall milliseconds to the first acceptance.
    pub time_to_first_acceptance_ms: Option<u64>,
    /// Candidates generated, before grafting.
    pub candidates_generated: u64,
    /// Candidates that grafting discarded.
    pub candidates_discarded: u64,
    /// Candidates screened.
    pub candidates_screened: u64,
    /// Candidates promoted.
    pub candidates_promoted: u64,
    /// Candidates fully scored.
    pub candidates_full_scored: u64,
    /// Iterations over wall milliseconds.
    pub searches_per_minute: Option<Rate>,
    /// Generated candidates over wall milliseconds.
    pub candidates_per_minute: Option<Rate>,
    /// Total search milliseconds.
    pub search_ms: u64,
    /// Total graft milliseconds.
    pub graft_ms: u64,
    /// Total screen scorer milliseconds.
    pub screen_scorer_ms: u64,
    /// Total full scorer milliseconds.
    pub full_scorer_ms: u64,
    /// Search time of search and scorer time.
    pub search_time_fraction: Option<Rate>,
    /// Screen false positives.
    pub screen_false_positives: u64,
    /// Screen false negatives (from exploratory bypasses).
    pub screen_false_negatives: u64,
    /// False positives of the promoted.
    pub screen_false_positive_rate: Option<Rate>,
    /// False negatives of the bypasses.
    pub screen_false_negative_rate: Option<Rate>,
    /// Bypass candidates fully scored.
    pub bypass_scored: u64,
    /// Iterations that failed on the scorer.
    pub scorer_failures: u64,
    /// Iterations vetoed by baseline disagreement.
    pub baseline_vetoes: u64,
    /// By strategy, ascending.
    pub by_strategy: Vec<(String, StrategyStats)>,
    /// By search backend, ascending.
    pub by_backend: Vec<(String, StrategyStats)>,
    /// By depth, ascending as text.
    pub by_depth: Vec<(String, StrategyStats)>,
    /// Accepted gains in order.
    pub accepted: Vec<AcceptedGain>,
    /// Baseline score and improvement of each acceptance.
    pub score_trajectory: Vec<(Double, Double)>,
    /// Stop reason.
    pub stop_reason: Option<String>,
}

/// The table lists exactly the groups of the journal, ascending, each with what
/// the journal says of it.
pub open spec fn is_table(
    table: Seq<(String, StrategyStats)>,
    lines: Seq<JournalLine>,
    axis: Axis,
) -> bool {
    let keys = table.map_values(|p: (String, StrategyStats)| p.0@);
    &&& in_order(keys)
    &&& forall|key: Seq<char>|
        #![trigger keys.contains(key)]
        keys.contains(key) <==> is_group(lines, axis, key, lines.len() as int)
    &&& forall|i: int|
        0 <= i < table.len() ==> (#[trigger] table[i]).1@ == group_stats(
            lines,
            axis,
            table[i].0@,
            lines.len() as int,
        )
}

/// The table of an axis.
pub fn table(lines: &Vec<JournalLine>, axis: Axis) -> (r: Vec<(String, StrategyStats)>)
    requires
        candidate_total(lines@, lines@.len() as int) <= u64::MAX,
    ensures
        is_table(r@, lines@, axis),
{
    let keys = groups(lines, axis);
    let mut out: Vec<(String, StrategyStats)> = Vec::new();
    for i in 0..keys.len()
        invariant
            candidate_total(lines@, lines@.len() as int) <= u64::MAX,
            out@.len() == i,
            forall|k: int| 0 <= k < i ==> (#[trigger] out@[k]).0@ == keys@[k]@,
            forall|k: int|
                0 <= k < i ==> (#[trigger] out@[k]).1@ == group_stats(
                    lines@,
                    axis,
                    out@[k].0@,
                    lines@.len() as int,
                ),
    {
        let stats = stats_of(lines, axis, &keys[i]);
        out.push((keys[i].clone(), stats));
    }
    proof {
        assert(out@.map_values(|p: (String, StrategyStats)| p.0@) =~= text::texts(keys@));
    }
    out
}

/// The report says what the journal's lines add up to.
pub open spec fn reports(r: JournalReport, lines: Seq<JournalLine>) -> bool {
    let n = lines.len() as int;
    let t = totals(lines, n);
    &&& r.iterations == t.iterations
    &&& r.acceptances == t.acceptances
    &&& r.opening_score == opening(lines, n)
    &&& r.final_score == closing(lines, n)
    &&& r.cumulative_improvement == improvement(opening(lines, n), closing(lines, n))
    &&& r.wall_ms == wall(lines)
    &&& r.improvement_per_wall_hour == improvement_rate(r.cumulative_improvement, wall(lines))
    &&& r.searches_per_minute == share(t.iterations, wall(lines) as nat)
    &&& r.candidates_per_minute == share(t.generated, wall(lines) as nat)
    &&& r.time_to_first_acceptance_ms == match first_acceptance(lines, n) {
        Some(ms) => Some(ms as u64),
        None => None,
    }
    &&& r.candidates_generated == t.generated
    &&& r.candidates_discarded == t.discarded
    &&& r.candidates_screened == t.screened
    &&& r.candidates_promoted == t.promoted
    &&& r.candidates_full_scored == t.full_scored
    &&& r.search_ms == t.search_ms
    &&& r.graft_ms == t.graft_ms
    &&& r.screen_scorer_ms == t.screen_scorer_ms
    &&& r.full_scorer_ms == t.full_scorer_ms
    &&& r.search_time_fraction == share(
        t.search_ms,
        t.search_ms + t.screen_scorer_ms + t.full_scorer_ms,
    )
    &&& r.screen_false_positives == t.false_positives
    &&& r.screen_false_negatives == t.false_negatives
    &&& r.screen_false_positive_rate == share(t.false_positives, t.promoted)
    &&& r.screen_false_negative_rate == share(t.false_negatives, t.bypass_scored)
    &&& r.bypass_scored == t.bypass_scored
    &&& r.scorer_failures == t.scorer_failures
    &&& r.baseline_vetoes == t.baseline_vetoes
    &&& is_table(r.by_strategy@, lines, Axis::Strategy)
    &&& is_table(r.by_backend@, lines, Axis::Backend)
    &&& is_table(r.by_depth@, lines, Axis::Depth)
    &&& r.accepted@.map_values(|g: AcceptedGain| g@) == gains(lines, n)
    &&& r.score_trajectory@ == trajectory(lines, n)
    &&& match (r.stop_reason, summary(lines, n)) {
        (Some(reason), Some((_, said))) => reason@ == said,
        (None, None) => true,
        _ => false,
    }
}

fn add_experiment(r: &mut JournalReport, e: &ExperimentRecord, Ghost(lines): Ghost<Seq<JournalLine>>, Ghost(n): Ghost<int>)
    requires
        0 <= n < lines.len(),
        lines[n] matches JournalLine::Experiment(x) && *x == *e,
        totals(lines, lines.len() as int).fits(),
        lines.len() <= usize::MAX,
        counts_match(*old(r), totals(lines, n)),
    ensures
        counts_match(*final(r), totals(lines, n + 1)),
        *final(r) == (JournalReport {
            iterations: final(r).iterations,
            candidates_generated: final(r).candidates_generated,
            candidates_discarded: final(r).candidates_discarded,
            candidates_screened: final(r).candidates_screened,
            candidates_promoted: final(r).candidates_promoted,
            candidates_full_scored: final(r).candidates_full_scored,
            search_ms: final(r).search_ms,
            graft_ms: final(r).graft_ms,
            screen_scorer_ms: final(r).screen_scorer_ms,
            full_scorer_ms: final(r).full_scorer_ms,
            screen_false_positives: final(r).screen_false_positives,
            screen_false_negatives: final(r).screen_false_negatives,
            bypass_scored: final(r).bypass_scored,
            scorer_failures: final(r).scorer_failures,
            baseline_vetoes: final(r).baseline_vetoes,
            ..*old(r)
        }),
{
    proof {
        totals_grow(lines, n + 1, lines.len() as int);
        counts_are_few(lines, n);
    }
    r.iterations = r.iterations + 1;
    r.search_ms = r.search_ms + e.search_ms;
    r.graft_ms = r.graft_ms + e.graft_ms;
    r.candidates_generated = r.candidates_generated + e.candidates_generated;
    r.candidates_discarded = r.candidates_discarded + e.candidates_discarded;
    r.screen_false_positives = r.screen_false_positives + e.screen_false_positives;
    r.screen_false_negatives = r.screen_false_negatives + e.screen_false_negatives;
    if let Some(s) = &e.screen {
        r.candidates_screened = r.candidates_screened + s.screened;
        r.candidates_promoted = r.candidates_promoted + s.promoted;
        r.bypass_scored = r.bypass_scored + s.bypass;
        r.screen_scorer_ms = r.screen_scorer_ms + s.scorer_ms;
    }
    if let Some(f) = &e.full {
        r.candidates_full_scored = r.candidates_full_scored + f.scored;
        r.full_scorer_ms = r.full_scorer_ms + f.scorer_ms;
    }
    if let Some(message) = &e.scorer_error {
        r.scorer_failures = r.scorer_failures + 1;
        if contains_part(message.as_str(), "disagrees") {
            r.baseline_vetoes = r.baseline_vetoes + 1;
        }
    }
}

/// The counted sums are the totals, but for the acceptances.
spec fn counts_match(r: JournalReport, t: Totals) -> bool {
    &&& r.iterations == t.iterations
    &&& r.candidates_generated == t.generated
    &&& r.candidates_discarded == t.discarded
    &&& r.candidates_screened == t.screened
    &&& r.candidates_promoted == t.promoted
    &&& r.candidates_full_scored == t.full_scored
    &&& r.search_ms == t.search_ms
    &&& r.graft_ms == t.graft_ms
    &&& r.screen_scorer_ms == t.screen_scorer_ms
    &&& r.full_scorer_ms == t.full_scorer_ms
    &&& r.screen_false_positives == t.false_positives
    &&& r.screen_false_negatives == t.false_negatives
    &&& r.bypass_scored == t.bypass_scored
    &&& r.scorer_failures == t.scorer_failures
    &&& r.baseline_vetoes == t.baseline_vetoes
}

fn millis_since(start: u64, at: u64) -> (r: u64)
    requires
        since(start, at) <= u64::MAX,
    ensures
        r == since(start, at),
{
    if at >= start {
        (at - start) * 1000
    } else {
        0
    }
}

impl Default for JournalReport {
    /// The report of an empty journal.
    fn default() -> (r: JournalReport)
        ensures
            reports(r, Seq::empty()),
    {
        let r = JournalReport {
            iterations: 0,
            acceptances: 0,
            opening_score: None,
            final_score: None,
            cumulative_improvement: None,
            wall_ms: 0,
            improvement_per_wall_hour: None,
            time_to_first_acceptance_ms: None,
            candidates_generated: 0,
            candidates_discarded: 0,
            candidates_screened: 0,
            candidates_promoted: 0,
            candidates_full_scored: 0,
            searches_per_minute: None,
            candidates_per_minute: None,
            search_ms: 0,
            graft_ms: 0,
            screen_scorer_ms: 0,
            full_scorer_ms: 0,
            search_time_fraction: None,
            screen_false_positives: 0,
            screen_false_negatives: 0,
            screen_false_positive_rate: None,
            screen_false_negative_rate: None,
            bypass_scored: 0,
            scorer_failures: 0,
            baseline_vetoes: 0,
            by_strategy: Vec::new(),
            by_backend: Vec::new(),
            by_depth: Vec::new(),
            accepted: Vec::new(),
            score_trajectory: Vec::new(),
            stop_reason: None,
        };
        assert(r.accepted@.map_values(|g: AcceptedGain| g@) =~= gains(Seq::empty(), 0));
        r
    }
}

/// Build a report from journal lines.
pub fn report_from_lines(lines: &Vec<JournalLine>) -> (r: JournalReport)
    requires
        fits(lines@),
    ensures
        reports(r, lines@),
{
    let mut r = JournalReport::default();
    r.by_strategy = table(lines, Axis::Strategy);
    r.by_backend = table(lines, Axis::Backend);
    r.by_depth = table(lines, Axis::Depth);
    let mut start: Option<u64> = None;
    let mut end: Option<u64> = None;
    let total: usize = lines.len();
    assert(r.accepted@.map_values(|g: AcceptedGain| g@) =~= gains(lines@, 0));
    for n in 0..total
        invariant
            total == lines@.len(),
            totals(lines@, lines@.len() as int).fits(),
            times_fit(lines@),
            counts_match(r, totals(lines@, n as int)),
            r.acceptances == totals(lines@, n as int).acceptances,
            start == run_start(lines@, n as int),
            end == last_iteration(lines@, n as int),
            r.opening_score == opening(lines@, n as int),
            r.final_score == closing(lines@, n as int),
            r.cumulative_improvement is None,
            r.improvement_per_wall_hour is None,
            r.wall_ms == match summary(lines@, n as int) {
                Some((ms, _)) => ms,
                None => 0,
            },
            match (r.stop_reason, summary(lines@, n as int)) {
                (Some(reason), Some((_, said))) => reason@ == said,
                (None, None) => true,
                _ => false,
            },
            match (r.time_to_first_acceptance_ms, first_acceptance(lines@, n as int)) {
                (Some(a), Some(b)) => a == b,
                (None, None) => true,
                _ => false,
            },
            r.accepted@.map_values(|g: AcceptedGain| g@) == gains(lines@, n as int),
            r.score_trajectory@ == trajectory(lines@, n as int),
            is_table(r.by_strategy@, lines@, Axis::Strategy),
            is_table(r.by_backend@, lines@, Axis::Backend),
            is_table(r.by_depth@, lines@, Axis::Depth),
    {
        proof {
            counts_are_few(lines@, n as int);
            acceptances_fit_so_far(lines@, n as int + 1, lines@.len() as int);
        }
        match &lines[n] {
            JournalLine::RunHeader { timestamp_unix, .. } => {
                if start.is_none() {
                    start = Some(*timestamp_unix);
                }
            },
            JournalLine::Baseline(b) => {
                if r.opening_score.is_none() {
                    r.opening_score = Some(b.score);
                }
                r.final_score = Some(b.score);
            },
            JournalLine::Summary(s) => {
                r.stop_reason = Some(s.stop_reason.clone());
                r.wall_ms = s.wall_ms;
                r.final_score = Some(s.final_score);
                if r.opening_score.is_none() {
                    r.opening_score = Some(s.opening_score);
                }
            },
            JournalLine::Experiment(e) => {
                assert(lines@[n as int] matches JournalLine::Experiment(x) && *x == **e);
                add_experiment(&mut r, e, Ghost(lines@), Ghost(n as int));
                end = Some(e.timestamp_unix);
                if e.accepted {
                    if let (Some(id), Some(gain)) = (&e.winner, e.improvement) {
                        assert(has_winner(**e));
                        r.acceptances = r.acceptances + 1;
                        let at: u64 = match start {
                            Some(s) => millis_since(s, e.timestamp_unix),
                            None => 0,
                        };
                        if r.time_to_first_acceptance_ms.is_none() {
                            r.time_to_first_acceptance_ms = Some(at);
                        }
                        let w: usize = find_winner(e);
                        if w < e.candidates.len() {
                            let ghost before = r.accepted@;
                            let own = AcceptedGain {
                                iteration: e.iteration,
                                id: id.clone(),
                                strategy: e.candidates[w].strategy.clone(),
                                depth: e.candidates[w].depth,
                                improvement: gain,
                                affected_fraction: e.candidates[w].affected_fraction,
                                at_wall_ms: at,
                            };
                            r.accepted.push(own);
                            assert(r.accepted@.map_values(|g: AcceptedGain| g@)
                                =~= before.map_values(|g: AcceptedGain| g@).push(own@));
                        }
                        r.score_trajectory.push((e.baseline_score, gain));
                    }
                }
            },
        }
    }
    if r.wall_ms == 0 {
        if let (Some(s), Some(e)) = (start, end) {
            r.wall_ms = millis_since(s, e);
        }
    }
    if let (Some(opening), Some(closing)) = (r.opening_score, r.final_score) {
        let improvement = Improvement { opening, closing };
        r.cumulative_improvement = Some(improvement);
        if r.wall_ms > 0 {
            r.improvement_per_wall_hour = Some(
                ImprovementRate { improvement, wall_ms: r.wall_ms },
            );
        }
    }
    r.searches_per_minute = rate(r.iterations, r.wall_ms);
    r.candidates_per_minute = rate(r.candidates_generated, r.wall_ms);
    let spent: u64 = r.search_ms + (r.screen_scorer_ms + r.full_scorer_ms);
    r.search_time_fraction = rate(r.search_ms, spent);
    r.screen_false_positive_rate = rate(r.screen_false_positives, r.candidates_promoted);
    r.screen_false_negative_rate = rate(r.screen_false_negatives, r.bypass_scored);
    r
}

/// An empty journal measures nothing: no score, no share, no rate and no time.
pub proof fn empty_journal_measures_nothing(r: JournalReport)
    requires
        reports(r, Seq::empty()),
    ensures
        r.iterations == 0,
        r.acceptances == 0,
        r.opening_score is None,
        r.final_score is None,
        r.cumulative_improvement is None,
        r.wall_ms == 0,
        r.improvement_per_wall_hour is None,
        r.time_to_first_acceptance_ms is None,
        r.searches_per_minute is None,
        r.candidates_per_minute is None,
        r.search_time_fraction is None,
        r.screen_false_positive_rate is None,
        r.screen_false_negative_rate is None,
        r.by_strategy@.len() == 0,
        r.by_backend@.len() == 0,
        r.by_depth@.len() == 0,
        r.accepted@.len() == 0,
        r.score_trajectory@.len() == 0,
        r.stop_reason is None,
{
    empty_table(r.by_strategy@, Axis::Strategy);
    empty_table(r.by_backend@, Axis::Backend);
    empty_table(r.by_depth@, Axis::Depth);
    assert(r.accepted@.map_values(|g: AcceptedGain| g@).len() == r.accepted@.len());
}

proof fn empty_table(table: Seq<(String, StrategyStats)>, axis: Axis)
    requires
        is_table(table, Seq::empty(), axis),
    ensures
        table.len() == 0,
{
    let keys = table.map_values(|p: (String, StrategyStats)| p.0@);
    if table.len() > 0 {
        assert(keys.contains(keys[0]));
    }
}

/// Every acceptance is an iteration, and every veto a scorer failure.
pub proof fn acceptances_are_iterations(lines: Seq<JournalLine>, n: int)
    requires
        0 <= n <= lines.len(),
    ensures
        totals(lines, n).acceptances <= totals(lines, n).iterations,
        totals(lines, n).baseline_vetoes <= totals(lines, n).scorer_failures
            <= totals(lines, n).iterations,
        trajectory(lines, n).len() == totals(lines, n).acceptances,
    decreases n,
{
    if n > 0 {
        acceptances_are_iterations(lines, n - 1);
    }
}

/// Candidates that the first `m` rows of a table count.
pub open spec fn counted(table: Seq<(String, StrategyStats)>, m: int) -> nat
    decreases m,
{
    if m <= 0 {
        0
    } else {
        counted(table, m - 1) + table[m - 1].1@.generated
    }
}

/// Candidates that the first `m` groups have in the first `n` lines.
spec fn grouped(
    lines: Seq<JournalLine>,
    axis: Axis,
    keys: Seq<Seq<char>>,
    n: int,
    m: int,
) -> nat
    decreases m,
{
    if m <= 0 {
        0
    } else {
        grouped(lines, axis, keys, n, m - 1) + group_stats(lines, axis, keys[m - 1], n).generated
    }
}

/// The same with the first `k` candidates of the next line.
spec fn grouped_within(
    lines: Seq<JournalLine>,
    axis: Axis,
    keys: Seq<Seq<char>>,
    n: int,
    cs: Seq<CandidateRecord>,
    k: int,
    m: int,
) -> nat
    decreases m,
{
    if m <= 0 {
        0
    } else {
        grouped_within(lines, axis, keys, n, cs, k, m - 1) + candidate_stats(
            group_stats(lines, axis, keys[m - 1], n),
            cs,
            axis,
            keys[m - 1],
            k,
        ).generated
    }
}

proof fn one_group_grows(
    lines: Seq<JournalLine>,
    axis: Axis,
    keys: Seq<Seq<char>>,
    n: int,
    cs: Seq<CandidateRecord>,
    k: int,
    m: int,
)
    requires
        keys.no_duplicates(),
        0 <= m <= keys.len(),
        0 <= k < cs.len(),
    ensures
        grouped_within(lines, axis, keys, n, cs, k + 1, m) == grouped_within(
            lines,
            axis,
            keys,
            n,
            cs,
            k,
            m,
        ) + if keys.take(m).contains(group_of(cs[k], axis)) {
            1nat
        } else {
            0
        },
    decreases m,
{
    if m > 0 {
        one_group_grows(lines, axis, keys, n, cs, k, m - 1);
        let key = group_of(cs[k], axis);
        let then = keys.take(m - 1);
        let now = keys.take(m);
        if then.contains(key) {
            let j = choose|j: int| 0 <= j < then.len() && then[j] == key;
            assert(now[j] == key);
            assert(keys[j] != keys[m - 1]);
        }
        if keys[m - 1] == key {
            assert(now[m - 1] == key);
        } else if now.contains(key) {
            let j = choose|j: int| 0 <= j < now.len() && now[j] == key;
            assert(then[j] == key);
        }
    }
}

proof fn every_candidate_is_grouped(
    lines: Seq<JournalLine>,
    axis: Axis,
    keys: Seq<Seq<char>>,
    n: int,
    cs: Seq<CandidateRecord>,
    k: int,
)
    requires
        keys.no_duplicates(),
        0 <= k <= cs.len(),
        forall|j: int| 0 <= j < cs.len() ==> keys.contains(group_of(#[trigger] cs[j], axis)),
    ensures
        grouped_within(lines, axis, keys, n, cs, k, keys.len() as int) == grouped(
            lines,
            axis,
            keys,
            n,
            keys.len() as int,
        ) + k,
    decreases k,
{
    if k > 0 {
        every_candidate_is_grouped(lines, axis, keys, n, cs, k - 1);
        one_group_grows(lines, axis, keys, n, cs, k - 1, keys.len() as int);
        assert(keys.take(keys.len() as int) =~= keys);
        assert(keys.contains(group_of(cs[k - 1], axis)));
    } else {
        nothing_more_is_grouped(lines, axis, keys, n, cs, keys.len() as int);
    }
}

proof fn nothing_more_is_grouped(
    lines: Seq<JournalLine>,
    axis: Axis,
    keys: Seq<Seq<char>>,
    n: int,
    cs: Seq<CandidateRecord>,
    m: int,
)
    ensures
        grouped_within(lines, axis, keys, n, cs, 0, m) == grouped(lines, axis, keys, n, m),
    decreases m,
{
    if m > 0 {
        nothing_more_is_grouped(lines, axis, keys, n, cs, m - 1);
    }
}

proof fn a_line_is_grouped(
    lines: Seq<JournalLine>,
    axis: Axis,
    keys: Seq<Seq<char>>,
    n: int,
    m: int,
)
    requires
        0 <= n < lines.len(),
    ensures
        grouped(lines, axis, keys, n + 1, m) == match lines[n] {
            JournalLine::Experiment(e) => grouped_within(
                lines,
                axis,
                keys,
                n,
                e.candidates@,
                e.candidates@.len() as int,
                m,
            ),
            _ => grouped(lines, axis, keys, n, m),
        },
    decreases m,
{
    if m > 0 {
        a_line_is_grouped(lines, axis, keys, n, m - 1);
    }
}

proof fn groups_hold_every_candidate(
    lines: Seq<JournalLine>,
    axis: Axis,
    keys: Seq<Seq<char>>,
    n: int,
)
    requires
        keys.no_duplicates(),
        0 <= n <= lines.len(),
        forall|key: Seq<char>|
            is_group(lines, axis, key, lines.len() as int) ==> #[trigger] keys.contains(key),
    ensures
        grouped(lines, axis, keys, n, keys.len() as int) == candidate_total(lines, n),
    decreases n,
{
    if n > 0 {
        groups_hold_every_candidate(lines, axis, keys, n - 1);
        a_line_is_grouped(lines, axis, keys, n - 1, keys.len() as int);
        if let JournalLine::Experiment(e) = lines[n - 1] {
            let cs = e.candidates@;
            assert forall|j: int| 0 <= j < cs.len() implies keys.contains(
                group_of(#[trigger] cs[j], axis),
            ) by {
                assert(in_group(lines, axis, group_of(cs[j], axis), n - 1, j));
            }
            every_candidate_is_grouped(lines, axis, keys, n - 1, cs, cs.len() as int);
        }
    } else {
        no_lines_group_nothing(lines, axis, keys, keys.len() as int);
    }
}

proof fn no_lines_group_nothing(
    lines: Seq<JournalLine>,
    axis: Axis,
    keys: Seq<Seq<char>>,
    m: int,
)
    ensures
        grouped(lines, axis, keys, 0, m) == 0,
    decreases m,
{
    if m > 0 {
        no_lines_group_nothing(lines, axis, keys, m - 1);
    }
}

proof fn rows_count_their_groups(
    table: Seq<(String, StrategyStats)>,
    lines: Seq<JournalLine>,
    axis: Axis,
    m: int,
)
    requires
        is_table(table, lines, axis),
        0 <= m <= table.len(),
    ensures
        counted(table, m) == grouped(
            lines,
            axis,
            table.map_values(|p: (String, StrategyStats)| p.0@),
            lines.len() as int,
            m,
        ),
    decreases m,
{
    if m > 0 {
        rows_count_their_groups(table, lines, axis, m - 1);
        assert(table[m - 1].1@ == group_stats(
            lines,
            axis,
            table[m - 1].0@,
            lines.len() as int,
        ));
    }
}

/// The rows of a table add up: together they count every candidate of the
/// journal once.
pub proof fn tables_count_every_candidate(
    table: Seq<(String, StrategyStats)>,
    lines: Seq<JournalLine>,
    axis: Axis,
)
    requires
        is_table(table, lines, axis),
    ensures
        counted(table, table.len() as int) == candidate_total(lines, lines.len() as int),
{
    let keys = table.map_values(|p: (String, StrategyStats)| p.0@);
    assert forall|a: int, b: int| 0 <= a < keys.len() && 0 <= b < keys.len() && a != b implies keys[a]
        != keys[b] by {
        text::text_before_is_asymmetric(keys[a], keys[b]);
        if a < b {
            assert(text::text_before(keys[a], keys[b]));
        } else {
            assert(text::text_before(keys[b], keys[a]));
        }
    }
    rows_count_their_groups(table, lines, axis, table.len() as int);
    groups_hold_every_candidate(lines, axis, keys, lines.len() as int);
}

// ---------------------------------------------------------------------------
// What the tables add up to.
// ---------------------------------------------------------------------------

/// The iteration accepted a winner, and a candidate of the winner's id is on
/// record.
pub open spec fn win_on_record(e: ExperimentRecord) -> bool {
    &&& e.accepted
    &&& e.improvement is Some
    &&& e.winner is Some
    &&& exists|k: int|
        0 <= k < e.candidates@.len() && (#[trigger] e.candidates@[k]).id@ == e.winner->0@
}

/// Candidate `k` is the first of the winner's id.
pub open spec fn wins_at(e: ExperimentRecord, k: int) -> bool {
    &&& win_on_record(e)
    &&& 0 <= k < e.candidates@.len()
    &&& e.candidates@[k].id@ == e.winner->0@
    &&& forall|j: int| 0 <= j < k ==> (#[trigger] e.candidates@[j]).id@ != e.winner->0@
}

proof fn candidate_place_is_the_first(cs: Seq<CandidateRecord>, id: Seq<char>, from: int)
    requires
        0 <= from <= cs.len(),
    ensures
        from <= candidate_place(cs, id, from) <= cs.len(),
        candidate_place(cs, id, from) < cs.len() ==> cs[candidate_place(cs, id, from)].id@ == id,
        forall|j: int|
            from <= j < candidate_place(cs, id, from) ==> (#[trigger] cs[j]).id@ != id,
    decreases cs.len() - from,
{
    if from < cs.len() && cs[from].id@ != id {
        candidate_place_is_the_first(cs, id, from + 1);
    }
}

proof fn winners_stand_at_their_place(e: ExperimentRecord)
    ensures
        0 <= winner_place(e) <= e.candidates@.len(),
        winner_place(e) < e.candidates@.len() <==> win_on_record(e),
        win_on_record(e) ==> wins_at(e, winner_place(e)),
        forall|k: int| #[trigger] wins_at(e, k) ==> k == winner_place(e),
{
    if has_winner(e) {
        candidate_place_is_the_first(e.candidates@, e.winner->0@, 0);
        let w = winner_place(e);
        if win_on_record(e) {
            let k = choose|k: int|
                0 <= k < e.candidates@.len() && (#[trigger] e.candidates@[k]).id@ == e.winner->0@;
            assert(w <= k);
        }
        if w < e.candidates@.len() {
            assert(e.candidates@[w].id@ == e.winner->0@);
        }
        assert forall|k: int| #[trigger] wins_at(e, k) implies k == w by {
            if k < w {
                assert(e.candidates@[k].id@ != e.winner->0@);
            } else if w < k {
                assert(e.candidates@[w].id@ != e.winner->0@);
            }
        }
    }
}

/// On each axis two candidates are in one group exactly when they share what the
/// axis is about.
pub proof fn groups_share_their_label(a: CandidateRecord, b: CandidateRecord)
    ensures
        group_of(a, Axis::Strategy) == group_of(b, Axis::Strategy) <==> a.strategy@ == b.strategy@,
        group_of(a, Axis::Backend) == group_of(b, Axis::Backend) <==> a.backend@ == b.backend@,
        group_of(a, Axis::Depth) == group_of(b, Axis::Depth) <==> a.depth == b.depth,
        group_of(a, Axis::Strategy) == a.strategy@,
        group_of(a, Axis::Backend) == a.backend@,
{
    let (x, y) = (text::decimal(a.depth as nat), text::decimal(b.depth as nat));
    if "depth"@ + x == "depth"@ + y {
        assert(("depth"@ + x).skip("depth"@.len() as int) =~= x);
        assert(("depth"@ + y).skip("depth"@.len() as int) =~= y);
        text::decimal_is_injective(a.depth as nat, b.depth as nat);
    }
}

/// An iteration counts for a group its own candidates, and its win for the group
/// of the winner alone, on every axis alike.
pub proof fn wins_count_for_their_own_group(
    start: StatsModel,
    e: ExperimentRecord,
    axis: Axis,
    key: Seq<char>,
    k: int,
)
    ensures
        wins_at(e, k) && group_of(e.candidates@[k], axis) == key ==> {
            let after = experiment_stats(start, e, axis, key);
            &&& after.winners == start.winners + 1
            &&& after.accepted_gains == start.accepted_gains.push(e.improvement->0)
        },
        wins_at(e, k) && group_of(e.candidates@[k], axis) != key || !win_on_record(e) ==> {
            let after = experiment_stats(start, e, axis, key);
            &&& after.winners == start.winners
            &&& after.accepted_gains == start.accepted_gains
        },
{
    winners_stand_at_their_place(e);
    candidates_win_nothing(start, e.candidates@, axis, key, e.candidates@.len() as int);
}

proof fn candidates_win_nothing(
    start: StatsModel,
    cs: Seq<CandidateRecord>,
    axis: Axis,
    key: Seq<char>,
    n: int,
)
    ensures
        candidate_stats(start, cs, axis, key, n).winners == start.winners,
        candidate_stats(start, cs, axis, key, n).accepted_gains == start.accepted_gains,
    decreases n,
{
    if n > 0 {
        candidates_win_nothing(start, cs, axis, key, n - 1);
    }
}

/// One more candidate counts once for its own group, as promoted, fully scored
/// and with its score difference where it is, and for no other group.
pub proof fn candidates_count_for_their_own_group(
    start: StatsModel,
    cs: Seq<CandidateRecord>,
    axis: Axis,
    key: Seq<char>,
    n: int,
)
    requires
        0 <= n < cs.len(),
    ensures
        ({
            let before = candidate_stats(start, cs, axis, key, n);
            let after = candidate_stats(start, cs, axis, key, n + 1);
            let c = cs[n];
            &&& group_of(c, axis) != key ==> after == before
            &&& group_of(c, axis) == key ==> {
                &&& after.generated - before.generated == 1
                &&& after.promoted - before.promoted == (if c.promoted { 1int } else { 0 })
                &&& after.full_scored - before.full_scored == (if c.full_score is Some {
                    1int
                } else {
                    0
                })
                &&& c.full_delta is None ==> after.full_deltas == before.full_deltas
                &&& c.full_delta matches Some(d) ==> after.full_deltas == before.full_deltas.push(d)
            }
        }),
{
}

/// No row has more of anything than candidates, and as many gains as winners.
pub proof fn rows_are_consistent(lines: Seq<JournalLine>, axis: Axis, key: Seq<char>, n: int)
    requires
        0 <= n <= lines.len(),
    ensures
        ({
            let s = group_stats(lines, axis, key, n);
            &&& s.promoted <= s.generated
            &&& s.full_scored <= s.generated
            &&& s.full_deltas.len() <= s.generated
            &&& s.winners <= s.generated
            &&& s.accepted_gains.len() == s.winners
        }),
    decreases n,
{
    if n > 0 {
        rows_are_consistent(lines, axis, key, n - 1);
        if let JournalLine::Experiment(e) = lines[n - 1] {
            let start = group_stats(lines, axis, key, n - 1);
            let cs = e.candidates@;
            counts_stay_within(start, cs, axis, key, cs.len() as int);
            winners_stand_at_their_place(*e);
            let w = winner_place(*e);
            if w < cs.len() && group_of(cs[w], axis) == key {
                counted_at_least_once(start, cs, axis, key, cs.len() as int, w);
            }
        }
    }
}

proof fn counts_stay_within(
    start: StatsModel,
    cs: Seq<CandidateRecord>,
    axis: Axis,
    key: Seq<char>,
    n: int,
)
    requires
        start.promoted <= start.generated,
        start.full_scored <= start.generated,
        start.full_deltas.len() <= start.generated,
    ensures
        ({
            let s = candidate_stats(start, cs, axis, key, n);
            &&& s.promoted <= s.generated
            &&& s.full_scored <= s.generated
            &&& s.full_deltas.len() <= s.generated
            &&& s.generated >= start.generated
            &&& s.winners == start.winners
            &&& s.accepted_gains == start.accepted_gains
        }),
    decreases n,
{
    if n > 0 {
        counts_stay_within(start, cs, axis, key, n - 1);
    }
}

proof fn counted_at_least_once(
    start: StatsModel,
    cs: Seq<CandidateRecord>,
    axis: Axis,
    key: Seq<char>,
    n: int,
    k: int,
)
    requires
        0 <= k < n <= cs.len(),
        group_of(cs[k], axis) == key,
    ensures
        candidate_stats(start, cs, axis, key, n).generated >= start.generated + 1,
    decreases n,
{
    if n - 1 > k {
        counted_at_least_once(start, cs, axis, key, n - 1, k);
    } else {
        counts_never_fall(start, cs, axis, key, n - 1);
    }
}

proof fn counts_never_fall(
    start: StatsModel,
    cs: Seq<CandidateRecord>,
    axis: Axis,
    key: Seq<char>,
    n: int,
)
    ensures
        candidate_stats(start, cs, axis, key, n).generated >= start.generated,
    decreases n,
{
    if n > 0 {
        counts_never_fall(start, cs, axis, key, n - 1);
    }
}

/// What the laws on tables count.
enum Count {
    Promoted,
    FullScored,
    Winners,
}

/// What the laws on tables collect.
enum Bag {
    Gains,
    Deltas,
}

proof fn pushing_adds_one(s: Seq<Double>, d: Double)
    ensures
        s.push(d).to_multiset() == s.to_multiset().add(Multiset::singleton(d)),
{
    broadcast use vstd::seq_lib::group_to_multiset_ensures;
    assert(s.push(d).to_multiset() =~= s.to_multiset().insert(d));
    assert(s.to_multiset().insert(d) =~= s.to_multiset().add(Multiset::singleton(d)));
}

/// What a row counts, of one sort.
spec fn count_of(s: StatsModel, sort: Count) -> nat {
    match sort {
        Count::Promoted => s.promoted,
        Count::FullScored => s.full_scored,
        Count::Winners => s.winners,
    }
}

/// What a candidate adds of it.
spec fn count_weight(c: CandidateRecord, sort: Count) -> nat {
    match sort {
        Count::Promoted => count_if(c.promoted),
        Count::FullScored => count_if(c.full_score is Some),
        Count::Winners => 0,
    }
}

/// What a win on record adds of it.
spec fn count_prize(e: ExperimentRecord, sort: Count) -> nat {
    match sort {
        Count::Winners => 1,
        _ => 0,
    }
}

/// What the first `k` candidates in one of the groups add.
spec fn count_among(
    cs: Seq<CandidateRecord>,
    axis: Axis,
    keys: Seq<Seq<char>>,
    k: int,
    sort: Count,
) -> nat
    decreases k,
{
    if k <= 0 {
        0nat
    } else if keys.contains(group_of(cs[k - 1], axis)) {
        count_among(cs, axis, keys, k - 1, sort) + (count_weight(cs[k - 1], sort))
    } else {
        count_among(cs, axis, keys, k - 1, sort)
    }
}

/// What the first `k` candidates add.
spec fn count_weights(cs: Seq<CandidateRecord>, k: int, sort: Count) -> nat
    decreases k,
{
    if k <= 0 {
        0nat
    } else {
        count_weights(cs, k - 1, sort) + (count_weight(cs[k - 1], sort))
    }
}

/// What the first `m` groups count in the first `n` lines.
spec fn count_rows(
    lines: Seq<JournalLine>,
    axis: Axis,
    keys: Seq<Seq<char>>,
    n: int,
    m: int,
    sort: Count,
) -> nat
    decreases m,
{
    if m <= 0 {
        0nat
    } else {
        count_rows(lines, axis, keys, n, m - 1, sort) + (count_of(
            group_stats(lines, axis, keys[m - 1], n),
            sort,
        ))
    }
}

/// What the first `n` lines have of it.
spec fn count_whole(lines: Seq<JournalLine>, n: int, sort: Count) -> nat
    decreases n,
{
    if n <= 0 {
        0nat
    } else {
        match lines[n - 1] {
            JournalLine::Experiment(e) => count_whole(lines, n - 1, sort) + (count_weights(
                e.candidates@,
                e.candidates@.len() as int,
                sort,
            )) + (if win_on_record(*e) {
                count_prize(*e, sort)
            } else {
                0nat
            }),
            _ => count_whole(lines, n - 1, sort),
        }
    }
}

proof fn count_of_one_group(
    start: StatsModel,
    cs: Seq<CandidateRecord>,
    axis: Axis,
    key: Seq<char>,
    k: int,
    sort: Count,
)
    requires
        0 <= k <= cs.len(),
    ensures
        count_of(candidate_stats(start, cs, axis, key, k), sort) == count_of(start, sort) + (count_among(
            cs,
            axis,
            seq![key],
            k,
            sort,
        )),
    decreases k,
{
    if k > 0 {
        count_of_one_group(start, cs, axis, key, k - 1, sort);
        let before = candidate_stats(start, cs, axis, key, k - 1);
        let own = group_of(cs[k - 1], axis);
        assert(seq![key][0] == key);
        assert(seq![key].contains(own) <==> own == key);
        
    }
    assert(count_of(candidate_stats(start, cs, axis, key, k), sort) =~= count_of(start, sort) + (
        count_among(cs, axis, seq![key], k, sort)
    ));
}

proof fn count_among_one_more(
    cs: Seq<CandidateRecord>,
    axis: Axis,
    keys: Seq<Seq<char>>,
    m: int,
    k: int,
    sort: Count,
)
    requires
        keys.no_duplicates(),
        0 < m <= keys.len(),
        0 <= k <= cs.len(),
    ensures
        count_among(cs, axis, keys.take(m), k, sort) == count_among(
            cs,
            axis,
            keys.take(m - 1),
            k,
            sort,
        ) + (count_among(cs, axis, seq![keys[m - 1]], k, sort)),
    decreases k,
{
    if k > 0 {
        count_among_one_more(cs, axis, keys, m, k - 1, sort);
        let own = group_of(cs[k - 1], axis);
        let (now, then, one) = (keys.take(m), keys.take(m - 1), seq![keys[m - 1]]);
        assert(one[0] == keys[m - 1]);
        assert(one.contains(own) <==> own == keys[m - 1]);
        if then.contains(own) {
            let j = choose|j: int| 0 <= j < then.len() && then[j] == own;
            assert(now[j] == own);
            assert(keys[j] != keys[m - 1]);
        }
        if own == keys[m - 1] {
            assert(now[m - 1] == own);
        } else if now.contains(own) {
            let j = choose|j: int| 0 <= j < now.len() && now[j] == own;
            assert(then[j] == own);
        }
    }
    assert(count_among(cs, axis, keys.take(m), k, sort) =~= count_among(
        cs,
        axis,
        keys.take(m - 1),
        k,
        sort,
    ) + (count_among(cs, axis, seq![keys[m - 1]], k, sort)));
}

proof fn count_rows_one_line(
    lines: Seq<JournalLine>,
    axis: Axis,
    keys: Seq<Seq<char>>,
    n: int,
    m: int,
    sort: Count,
)
    requires
        keys.no_duplicates(),
        0 <= m <= keys.len(),
        0 <= n < lines.len(),
        lines[n] is Experiment,
    ensures
        ({
            let e = *lines[n]->Experiment_0;
            let w = winner_place(e);
            count_rows(lines, axis, keys, n + 1, m, sort) == count_rows(lines, axis, keys, n, m, sort) + (
            count_among(e.candidates@, axis, keys.take(m), e.candidates@.len() as int, sort)) + (
            if win_on_record(e) && keys.take(m).contains(group_of(e.candidates@[w], axis)) {
                count_prize(e, sort)
            } else {
                0nat
            })
        }),
    decreases m,
{
    let e = *lines[n]->Experiment_0;
    let cs = e.candidates@;
    let len = cs.len() as int;
    let w = winner_place(e);
    winners_stand_at_their_place(e);
    if m > 0 {
        let key = keys[m - 1];
        let start = group_stats(lines, axis, key, n);
        count_rows_one_line(lines, axis, keys, n, m - 1, sort);
        count_of_one_group(start, cs, axis, key, len, sort);
        count_among_one_more(cs, axis, keys, m, len, sort);
        candidates_win_nothing(start, cs, axis, key, len);
        let own = group_of(cs[w], axis);
        let (now, then) = (keys.take(m), keys.take(m - 1));
        if then.contains(own) {
            let j = choose|j: int| 0 <= j < then.len() && then[j] == own;
            assert(now[j] == own);
            assert(keys[j] != key);
        }
        if own == key {
            assert(now[m - 1] == own);
        } else if now.contains(own) {
            let j = choose|j: int| 0 <= j < now.len() && now[j] == own;
            assert(then[j] == own);
        }
        let counted = candidate_stats(start, cs, axis, key, len);
        
        assert(count_of(experiment_stats(start, e, axis, key), sort) =~= count_of(counted, sort) + (
        if win_on_record(e) && own == key {
            count_prize(e, sort)
        } else {
            0nat
        }));
        assert(group_stats(lines, axis, key, n + 1) == experiment_stats(start, e, axis, key));
    } else {
        count_among_nobody(cs, axis, len, sort);
        assert(keys.take(0) =~= Seq::<Seq<char>>::empty());
    }
    assert(count_rows(lines, axis, keys, n + 1, m, sort) =~= count_rows(lines, axis, keys, n, m, sort) + (
    count_among(cs, axis, keys.take(m), len, sort)) + (
    if win_on_record(e) && keys.take(m).contains(group_of(cs[w], axis)) {
        count_prize(e, sort)
    } else {
        0nat
    }));
}

proof fn count_among_nobody(cs: Seq<CandidateRecord>, axis: Axis, k: int, sort: Count)
    ensures
        count_among(cs, axis, Seq::empty(), k, sort) == 0nat,
    decreases k,
{
    if k > 0 {
        count_among_nobody(cs, axis, k - 1, sort);
    }
}

proof fn count_among_everybody(
    cs: Seq<CandidateRecord>,
    axis: Axis,
    keys: Seq<Seq<char>>,
    k: int,
    sort: Count,
)
    requires
        0 <= k <= cs.len(),
        forall|j: int| 0 <= j < cs.len() ==> keys.contains(group_of(#[trigger] cs[j], axis)),
    ensures
        count_among(cs, axis, keys, k, sort) == count_weights(cs, k, sort),
    decreases k,
{
    if k > 0 {
        count_among_everybody(cs, axis, keys, k - 1, sort);
        assert(keys.contains(group_of(cs[k - 1], axis)));
    }
}

proof fn count_rows_are_the_whole(
    lines: Seq<JournalLine>,
    axis: Axis,
    keys: Seq<Seq<char>>,
    n: int,
    sort: Count,
)
    requires
        keys.no_duplicates(),
        0 <= n <= lines.len(),
        forall|key: Seq<char>|
            is_group(lines, axis, key, lines.len() as int) ==> #[trigger] keys.contains(key),
    ensures
        count_rows(lines, axis, keys, n, keys.len() as int, sort) == count_whole(lines, n, sort),
    decreases n,
{
    let all = keys.len() as int;
    if n > 0 {
        count_rows_are_the_whole(lines, axis, keys, n - 1, sort);
        if let JournalLine::Experiment(e) = lines[n - 1] {
            let cs = e.candidates@;
            assert forall|j: int| 0 <= j < cs.len() implies keys.contains(
                group_of(#[trigger] cs[j], axis),
            ) by {
                assert(in_group(lines, axis, group_of(cs[j], axis), n - 1, j));
            }
            count_rows_one_line(lines, axis, keys, n - 1, all, sort);
            count_among_everybody(cs, axis, keys, cs.len() as int, sort);
            winners_stand_at_their_place(*e);
            assert(keys.take(all) =~= keys);
            if win_on_record(*e) {
                assert(keys.contains(group_of(cs[winner_place(*e)], axis)));
            }
        } else {
            count_rows_skip_a_line(lines, axis, keys, n - 1, all, sort);
        }
    } else {
        count_no_rows(lines, axis, keys, all, sort);
    }
}

proof fn count_rows_skip_a_line(
    lines: Seq<JournalLine>,
    axis: Axis,
    keys: Seq<Seq<char>>,
    n: int,
    m: int,
    sort: Count,
)
    requires
        0 <= n < lines.len(),
        !(lines[n] is Experiment),
    ensures
        count_rows(lines, axis, keys, n + 1, m, sort) == count_rows(lines, axis, keys, n, m, sort),
    decreases m,
{
    if m > 0 {
        count_rows_skip_a_line(lines, axis, keys, n, m - 1, sort);
    }
}

proof fn count_no_rows(
    lines: Seq<JournalLine>,
    axis: Axis,
    keys: Seq<Seq<char>>,
    m: int,
    sort: Count,
)
    ensures
        count_rows(lines, axis, keys, 0, m, sort) == 0nat,
    decreases m,
{
    if m > 0 {
        count_no_rows(lines, axis, keys, m - 1, sort);
        
    }
    assert(count_rows(lines, axis, keys, 0, m, sort) =~= 0nat);
}

/// What a row counts, of one sort.
spec fn bag_of(s: StatsModel, sort: Bag) -> Multiset<Double> {
    match sort {
        Bag::Gains => s.accepted_gains.to_multiset(),
        Bag::Deltas => s.full_deltas.to_multiset(),
    }
}

/// What a candidate adds of it.
spec fn bag_weight(c: CandidateRecord, sort: Bag) -> Multiset<Double> {
    match (sort, c.full_delta) {
        (Bag::Deltas, Some(d)) => Multiset::singleton(d),
        _ => Multiset::empty(),
    }
}

/// What a win on record adds of it.
spec fn bag_prize(e: ExperimentRecord, sort: Bag) -> Multiset<Double> {
    match sort {
        Bag::Gains => Multiset::singleton(e.improvement->0),
        Bag::Deltas => Multiset::empty(),
    }
}

/// What the first `k` candidates in one of the groups add.
spec fn bag_among(
    cs: Seq<CandidateRecord>,
    axis: Axis,
    keys: Seq<Seq<char>>,
    k: int,
    sort: Bag,
) -> Multiset<Double>
    decreases k,
{
    if k <= 0 {
        Multiset::<Double>::empty()
    } else if keys.contains(group_of(cs[k - 1], axis)) {
        bag_among(cs, axis, keys, k - 1, sort).add(bag_weight(cs[k - 1], sort))
    } else {
        bag_among(cs, axis, keys, k - 1, sort)
    }
}

/// What the first `k` candidates add.
spec fn bag_weights(cs: Seq<CandidateRecord>, k: int, sort: Bag) -> Multiset<Double>
    decreases k,
{
    if k <= 0 {
        Multiset::<Double>::empty()
    } else {
        bag_weights(cs, k - 1, sort).add(bag_weight(cs[k - 1], sort))
    }
}

/// What the first `m` groups count in the first `n` lines.
spec fn bag_rows(
    lines: Seq<JournalLine>,
    axis: Axis,
    keys: Seq<Seq<char>>,
    n: int,
    m: int,
    sort: Bag,
) -> Multiset<Double>
    decreases m,
{
    if m <= 0 {
        Multiset::<Double>::empty()
    } else {
        bag_rows(lines, axis, keys, n, m - 1, sort).add(bag_of(
            group_stats(lines, axis, keys[m - 1], n),
            sort,
        ))
    }
}

/// What the first `n` lines have of it.
spec fn bag_whole(lines: Seq<JournalLine>, n: int, sort: Bag) -> Multiset<Double>
    decreases n,
{
    if n <= 0 {
        Multiset::<Double>::empty()
    } else {
        match lines[n - 1] {
            JournalLine::Experiment(e) => bag_whole(lines, n - 1, sort).add(bag_weights(
                e.candidates@,
                e.candidates@.len() as int,
                sort,
            )).add(if win_on_record(*e) {
                bag_prize(*e, sort)
            } else {
                Multiset::<Double>::empty()
            }),
            _ => bag_whole(lines, n - 1, sort),
        }
    }
}

proof fn bag_of_one_group(
    start: StatsModel,
    cs: Seq<CandidateRecord>,
    axis: Axis,
    key: Seq<char>,
    k: int,
    sort: Bag,
)
    requires
        0 <= k <= cs.len(),
    ensures
        bag_of(candidate_stats(start, cs, axis, key, k), sort) == bag_of(start, sort).add(bag_among(
            cs,
            axis,
            seq![key],
            k,
            sort,
        )),
    decreases k,
{
    if k > 0 {
        bag_of_one_group(start, cs, axis, key, k - 1, sort);
        let before = candidate_stats(start, cs, axis, key, k - 1);
        let own = group_of(cs[k - 1], axis);
        assert(seq![key][0] == key);
        assert(seq![key].contains(own) <==> own == key);
        if let Some(d) = cs[k - 1].full_delta {
            pushing_adds_one(before.full_deltas, d);
        }
    }
    assert(bag_of(candidate_stats(start, cs, axis, key, k), sort) =~= bag_of(start, sort).add(
        bag_among(cs, axis, seq![key], k, sort)
    ));
}

proof fn bag_among_one_more(
    cs: Seq<CandidateRecord>,
    axis: Axis,
    keys: Seq<Seq<char>>,
    m: int,
    k: int,
    sort: Bag,
)
    requires
        keys.no_duplicates(),
        0 < m <= keys.len(),
        0 <= k <= cs.len(),
    ensures
        bag_among(cs, axis, keys.take(m), k, sort) == bag_among(
            cs,
            axis,
            keys.take(m - 1),
            k,
            sort,
        ).add(bag_among(cs, axis, seq![keys[m - 1]], k, sort)),
    decreases k,
{
    if k > 0 {
        bag_among_one_more(cs, axis, keys, m, k - 1, sort);
        let own = group_of(cs[k - 1], axis);
        let (now, then, one) = (keys.take(m), keys.take(m - 1), seq![keys[m - 1]]);
        assert(one[0] == keys[m - 1]);
        assert(one.contains(own) <==> own == keys[m - 1]);
        if then.contains(own) {
            let j = choose|j: int| 0 <= j < then.len() && then[j] == own;
            assert(now[j] == own);
            assert(keys[j] != keys[m - 1]);
        }
        if own == keys[m - 1] {
            assert(now[m - 1] == own);
        } else if now.contains(own) {
            let j = choose|j: int| 0 <= j < now.len() && now[j] == own;
            assert(then[j] == own);
        }
    }
    assert(bag_among(cs, axis, keys.take(m), k, sort) =~= bag_among(
        cs,
        axis,
        keys.take(m - 1),
        k,
        sort,
    ).add(bag_among(cs, axis, seq![keys[m - 1]], k, sort)));
}

proof fn bag_rows_one_line(
    lines: Seq<JournalLine>,
    axis: Axis,
    keys: Seq<Seq<char>>,
    n: int,
    m: int,
    sort: Bag,
)
    requires
        keys.no_duplicates(),
        0 <= m <= keys.len(),
        0 <= n < lines.len(),
        lines[n] is Experiment,
    ensures
        ({
            let e = *lines[n]->Experiment_0;
            let w = winner_place(e);
            bag_rows(lines, axis, keys, n + 1, m, sort) == bag_rows(lines, axis, keys, n, m, sort).add(
            bag_among(e.candidates@, axis, keys.take(m), e.candidates@.len() as int, sort)).add(
            if win_on_record(e) && keys.take(m).contains(group_of(e.candidates@[w], axis)) {
                bag_prize(e, sort)
            } else {
                Multiset::<Double>::empty()
            })
        }),
    decreases m,
{
    let e = *lines[n]->Experiment_0;
    let cs = e.candidates@;
    let len = cs.len() as int;
    let w = winner_place(e);
    winners_stand_at_their_place(e);
    if m > 0 {
        let key = keys[m - 1];
        let start = group_stats(lines, axis, key, n);
        bag_rows_one_line(lines, axis, keys, n, m - 1, sort);
        bag_of_one_group(start, cs, axis, key, len, sort);
        bag_among_one_more(cs, axis, keys, m, len, sort);
        candidates_win_nothing(start, cs, axis, key, len);
        let own = group_of(cs[w], axis);
        let (now, then) = (keys.take(m), keys.take(m - 1));
        if then.contains(own) {
            let j = choose|j: int| 0 <= j < then.len() && then[j] == own;
            assert(now[j] == own);
            assert(keys[j] != key);
        }
        if own == key {
            assert(now[m - 1] == own);
        } else if now.contains(own) {
            let j = choose|j: int| 0 <= j < now.len() && now[j] == own;
            assert(then[j] == own);
        }
        let counted = candidate_stats(start, cs, axis, key, len);
        pushing_adds_one(counted.accepted_gains, e.improvement->0);
        assert(bag_of(experiment_stats(start, e, axis, key), sort) =~= bag_of(counted, sort).add(
        if win_on_record(e) && own == key {
            bag_prize(e, sort)
        } else {
            Multiset::<Double>::empty()
        }));
        assert(group_stats(lines, axis, key, n + 1) == experiment_stats(start, e, axis, key));
    } else {
        bag_among_nobody(cs, axis, len, sort);
        assert(keys.take(0) =~= Seq::<Seq<char>>::empty());
    }
    assert(bag_rows(lines, axis, keys, n + 1, m, sort) =~= bag_rows(lines, axis, keys, n, m, sort).add(
    bag_among(cs, axis, keys.take(m), len, sort)).add(
    if win_on_record(e) && keys.take(m).contains(group_of(cs[w], axis)) {
        bag_prize(e, sort)
    } else {
        Multiset::<Double>::empty()
    }));
}

proof fn bag_among_nobody(cs: Seq<CandidateRecord>, axis: Axis, k: int, sort: Bag)
    ensures
        bag_among(cs, axis, Seq::empty(), k, sort) == Multiset::<Double>::empty(),
    decreases k,
{
    if k > 0 {
        bag_among_nobody(cs, axis, k - 1, sort);
    }
}

proof fn bag_among_everybody(
    cs: Seq<CandidateRecord>,
    axis: Axis,
    keys: Seq<Seq<char>>,
    k: int,
    sort: Bag,
)
    requires
        0 <= k <= cs.len(),
        forall|j: int| 0 <= j < cs.len() ==> keys.contains(group_of(#[trigger] cs[j], axis)),
    ensures
        bag_among(cs, axis, keys, k, sort) == bag_weights(cs, k, sort),
    decreases k,
{
    if k > 0 {
        bag_among_everybody(cs, axis, keys, k - 1, sort);
        assert(keys.contains(group_of(cs[k - 1], axis)));
    }
}

proof fn bag_rows_are_the_whole(
    lines: Seq<JournalLine>,
    axis: Axis,
    keys: Seq<Seq<char>>,
    n: int,
    sort: Bag,
)
    requires
        keys.no_duplicates(),
        0 <= n <= lines.len(),
        forall|key: Seq<char>|
            is_group(lines, axis, key, lines.len() as int) ==> #[trigger] keys.contains(key),
    ensures
        bag_rows(lines, axis, keys, n, keys.len() as int, sort) == bag_whole(lines, n, sort),
    decreases n,
{
    let all = keys.len() as int;
    if n > 0 {
        bag_rows_are_the_whole(lines, axis, keys, n - 1, sort);
        if let JournalLine::Experiment(e) = lines[n - 1] {
            let cs = e.candidates@;
            assert forall|j: int| 0 <= j < cs.len() implies keys.contains(
                group_of(#[trigger] cs[j], axis),
            ) by {
                assert(in_group(lines, axis, group_of(cs[j], axis), n - 1, j));
            }
            bag_rows_one_line(lines, axis, keys, n - 1, all, sort);
            bag_among_everybody(cs, axis, keys, cs.len() as int, sort);
            winners_stand_at_their_place(*e);
            assert(keys.take(all) =~= keys);
            if win_on_record(*e) {
                assert(keys.contains(group_of(cs[winner_place(*e)], axis)));
            }
        } else {
            bag_rows_skip_a_line(lines, axis, keys, n - 1, all, sort);
        }
    } else {
        bag_no_rows(lines, axis, keys, all, sort);
    }
}

proof fn bag_rows_skip_a_line(
    lines: Seq<JournalLine>,
    axis: Axis,
    keys: Seq<Seq<char>>,
    n: int,
    m: int,
    sort: Bag,
)
    requires
        0 <= n < lines.len(),
        !(lines[n] is Experiment),
    ensures
        bag_rows(lines, axis, keys, n + 1, m, sort) == bag_rows(lines, axis, keys, n, m, sort),
    decreases m,
{
    if m > 0 {
        bag_rows_skip_a_line(lines, axis, keys, n, m - 1, sort);
    }
}

proof fn bag_no_rows(
    lines: Seq<JournalLine>,
    axis: Axis,
    keys: Seq<Seq<char>>,
    m: int,
    sort: Bag,
)
    ensures
        bag_rows(lines, axis, keys, 0, m, sort) == Multiset::<Double>::empty(),
    decreases m,
{
    if m > 0 {
        bag_no_rows(lines, axis, keys, m - 1, sort);
        broadcast use vstd::seq_lib::group_to_multiset_ensures;
        assert(no_stats().accepted_gains.to_multiset() =~= Multiset::<Double>::empty()) by {
            assert(Seq::<Double>::empty().to_multiset().len() == 0);
        }
        assert(no_stats().full_deltas.to_multiset() =~= Multiset::<Double>::empty());
    }
    assert(bag_rows(lines, axis, keys, 0, m, sort) =~= Multiset::<Double>::empty());
}

/// Acceptances in the first `n` lines whose winner is on record.
pub open spec fn wins_recorded(lines: Seq<JournalLine>, n: int) -> nat
    decreases n,
{
    if n <= 0 {
        0
    } else {
        wins_recorded(lines, n - 1) + match lines[n - 1] {
            JournalLine::Experiment(e) => count_if(win_on_record(*e)),
            _ => 0,
        }
    }
}

/// The improvements of those acceptances.
pub open spec fn improvements_recorded(lines: Seq<JournalLine>, n: int) -> Multiset<Double>
    decreases n,
{
    if n <= 0 {
        Multiset::empty()
    } else {
        match lines[n - 1] {
            JournalLine::Experiment(e) => if win_on_record(*e) {
                improvements_recorded(lines, n - 1).insert(e.improvement->0)
            } else {
                improvements_recorded(lines, n - 1)
            },
            _ => improvements_recorded(lines, n - 1),
        }
    }
}

/// What the first `m` rows of a table have for winners, gains, promotions and
/// full scores.
pub open spec fn rows_won(table: Seq<(String, StrategyStats)>, m: int) -> nat
    decreases m,
{
    if m <= 0 {
        0
    } else {
        rows_won(table, m - 1) + table[m - 1].1@.winners
    }
}

/// The accepted gains of the first `m` rows of a table.
pub open spec fn rows_gained(table: Seq<(String, StrategyStats)>, m: int) -> Multiset<Double>
    decreases m,
{
    if m <= 0 {
        Multiset::empty()
    } else {
        rows_gained(table, m - 1).add(table[m - 1].1@.accepted_gains.to_multiset())
    }
}

proof fn table_keys_are_distinct(
    table: Seq<(String, StrategyStats)>,
    lines: Seq<JournalLine>,
    axis: Axis,
)
    requires
        is_table(table, lines, axis),
    ensures
        table.map_values(|p: (String, StrategyStats)| p.0@).no_duplicates(),
{
    let keys = table.map_values(|p: (String, StrategyStats)| p.0@);
    assert forall|a: int, b: int|
        0 <= a < keys.len() && 0 <= b < keys.len() && a != b implies keys[a] != keys[b] by {
        text::text_before_is_asymmetric(keys[a], keys[b]);
        if a < b {
            assert(text::text_before(keys[a], keys[b]));
        } else {
            assert(text::text_before(keys[b], keys[a]));
        }
    }
}

proof fn rows_are_tallied(
    table: Seq<(String, StrategyStats)>,
    lines: Seq<JournalLine>,
    axis: Axis,
    m: int,
)
    requires
        is_table(table, lines, axis),
        0 <= m <= table.len(),
    ensures
        ({
            let keys = table.map_values(|p: (String, StrategyStats)| p.0@);
            let n = lines.len() as int;
            &&& rows_won(table, m) == count_rows(lines, axis, keys, n, m, Count::Winners)
            &&& rows_gained(table, m) == bag_rows(lines, axis, keys, n, m, Bag::Gains)
        }),
    decreases m,
{
    if m > 0 {
        rows_are_tallied(table, lines, axis, m - 1);
        assert(table[m - 1].1@ == group_stats(
            lines,
            axis,
            table[m - 1].0@,
            lines.len() as int,
        ));
    }
}

proof fn wholes_are_the_records(lines: Seq<JournalLine>, n: int)
    requires
        0 <= n <= lines.len(),
    ensures
        count_whole(lines, n, Count::Winners) == wins_recorded(lines, n),
        bag_whole(lines, n, Bag::Gains) == improvements_recorded(lines, n),
    decreases n,
{
    if n > 0 {
        wholes_are_the_records(lines, n - 1);
        if let JournalLine::Experiment(e) = lines[n - 1] {
            nothing_weighs(e.candidates@, e.candidates@.len() as int);
        }
        assert(bag_whole(lines, n, Bag::Gains) =~= improvements_recorded(lines, n));
    }
}

proof fn nothing_weighs(cs: Seq<CandidateRecord>, k: int)
    ensures
        count_weights(cs, k, Count::Winners) == 0,
        bag_weights(cs, k, Bag::Gains) == Multiset::<Double>::empty(),
    decreases k,
{
    if k > 0 {
        nothing_weighs(cs, k - 1);
        assert(bag_weights(cs, k, Bag::Gains) =~= Multiset::<Double>::empty());
    }
}

/// On every axis the winners of a table's rows add up to the acceptances whose
/// winner is on record, and the accepted gains of the rows are, taken together,
/// the improvements of those acceptances.
pub proof fn tables_credit_every_win(
    table: Seq<(String, StrategyStats)>,
    lines: Seq<JournalLine>,
    axis: Axis,
)
    requires
        is_table(table, lines, axis),
    ensures
        rows_won(table, table.len() as int) == wins_recorded(lines, lines.len() as int),
        rows_gained(table, table.len() as int) == improvements_recorded(
            lines,
            lines.len() as int,
        ),
{
    let keys = table.map_values(|p: (String, StrategyStats)| p.0@);
    let n = lines.len() as int;
    table_keys_are_distinct(table, lines, axis);
    rows_are_tallied(table, lines, axis, table.len() as int);
    count_rows_are_the_whole(lines, axis, keys, n, Count::Winners);
    bag_rows_are_the_whole(lines, axis, keys, n, Bag::Gains);
    wholes_are_the_records(lines, n);
}

/// Grouping loses nothing: whatever the axis, the rows of two tables of one
/// journal count the same promotions, full scores, winners, gains and score
/// differences in all.
pub proof fn tables_of_two_axes_agree(
    a: Seq<(String, StrategyStats)>,
    b: Seq<(String, StrategyStats)>,
    lines: Seq<JournalLine>,
    x: Axis,
    y: Axis,
)
    requires
        is_table(a, lines, x),
        is_table(b, lines, y),
    ensures
        ({
            let (m, k) = (a.len() as int, b.len() as int);
            &&& counted(a, m) == counted(b, k)
            &&& rows_won(a, m) == rows_won(b, k)
            &&& rows_gained(a, m) == rows_gained(b, k)
            &&& rows_promoted(a, m) == rows_promoted(b, k)
            &&& rows_scored(a, m) == rows_scored(b, k)
            &&& rows_differed(a, m) == rows_differed(b, k)
        }),
{
    let n = lines.len() as int;
    tables_count_every_candidate(a, lines, x);
    tables_count_every_candidate(b, lines, y);
    tables_credit_every_win(a, lines, x);
    tables_credit_every_win(b, lines, y);
    rows_hold_all_promotions(a, lines, x);
    rows_hold_all_promotions(b, lines, y);
}

/// Promotions that the first `m` rows count.
pub open spec fn rows_promoted(table: Seq<(String, StrategyStats)>, m: int) -> nat
    decreases m,
{
    if m <= 0 {
        0
    } else {
        rows_promoted(table, m - 1) + table[m - 1].1@.promoted
    }
}

/// Full scores that the first `m` rows count.
pub open spec fn rows_scored(table: Seq<(String, StrategyStats)>, m: int) -> nat
    decreases m,
{
    if m <= 0 {
        0
    } else {
        rows_scored(table, m - 1) + table[m - 1].1@.full_scored
    }
}

/// Score differences of the first `m` rows.
pub open spec fn rows_differed(table: Seq<(String, StrategyStats)>, m: int) -> Multiset<Double>
    decreases m,
{
    if m <= 0 {
        Multiset::empty()
    } else {
        rows_differed(table, m - 1).add(table[m - 1].1@.full_deltas.to_multiset())
    }
}

proof fn promotions_are_tallied(
    table: Seq<(String, StrategyStats)>,
    lines: Seq<JournalLine>,
    axis: Axis,
    m: int,
)
    requires
        is_table(table, lines, axis),
        0 <= m <= table.len(),
    ensures
        ({
            let keys = table.map_values(|p: (String, StrategyStats)| p.0@);
            let n = lines.len() as int;
            &&& rows_promoted(table, m) == count_rows(lines, axis, keys, n, m, Count::Promoted)
            &&& rows_scored(table, m) == count_rows(lines, axis, keys, n, m, Count::FullScored)
            &&& rows_differed(table, m) == bag_rows(lines, axis, keys, n, m, Bag::Deltas)
        }),
    decreases m,
{
    if m > 0 {
        promotions_are_tallied(table, lines, axis, m - 1);
        assert(table[m - 1].1@ == group_stats(
            lines,
            axis,
            table[m - 1].0@,
            lines.len() as int,
        ));
    }
}

proof fn rows_hold_all_promotions(
    table: Seq<(String, StrategyStats)>,
    lines: Seq<JournalLine>,
    axis: Axis,
)
    requires
        is_table(table, lines, axis),
    ensures
        rows_promoted(table, table.len() as int) == count_whole(
            lines,
            lines.len() as int,
            Count::Promoted,
        ),
        rows_scored(table, table.len() as int) == count_whole(
            lines,
            lines.len() as int,
            Count::FullScored,
        ),
        rows_differed(table, table.len() as int) == bag_whole(
            lines,
            lines.len() as int,
            Bag::Deltas,
        ),
{
    let keys = table.map_values(|p: (String, StrategyStats)| p.0@);
    let n = lines.len() as int;
    table_keys_are_distinct(table, lines, axis);
    promotions_are_tallied(table, lines, axis, table.len() as int);
    count_rows_are_the_whole(lines, axis, keys, n, Count::Promoted);
    count_rows_are_the_whole(lines, axis, keys, n, Count::FullScored);
    bag_rows_are_the_whole(lines, axis, keys, n, Bag::Deltas);
}

// ---------------------------------------------------------------------------
// What one more line adds, and what comes first and last.
// ---------------------------------------------------------------------------

/// One more iteration adds its own counts and times to the totals, and a line of
/// any other kind adds nothing.
pub proof fn iterations_add_up(lines: Seq<JournalLine>, n: int)
    requires
        0 <= n < lines.len(),
    ensures
        ({
            let a = totals(lines, n);
            let b = totals(lines, n + 1);
            &&& lines[n] matches JournalLine::Experiment(e) ==> {
                &&& b.iterations - a.iterations == 1
                &&& b.acceptances - a.acceptances == (if e.accepted && e.winner is Some
                    && e.improvement is Some {
                    1int
                } else {
                    0
                })
                &&& b.generated - a.generated == e.candidates_generated
                &&& b.discarded - a.discarded == e.candidates_discarded
                &&& b.search_ms - a.search_ms == e.search_ms
                &&& b.graft_ms - a.graft_ms == e.graft_ms
                &&& b.false_positives - a.false_positives == e.screen_false_positives
                &&& b.false_negatives - a.false_negatives == e.screen_false_negatives
                &&& b.scorer_failures - a.scorer_failures == (if e.scorer_error is Some {
                    1int
                } else {
                    0
                })
                &&& b.baseline_vetoes - a.baseline_vetoes <= b.scorer_failures - a.scorer_failures
                &&& e.screen matches Some(s) ==> {
                    &&& b.screened - a.screened == s.screened
                    &&& b.promoted - a.promoted == s.promoted
                    &&& b.bypass_scored - a.bypass_scored == s.bypass
                    &&& b.screen_scorer_ms - a.screen_scorer_ms == s.scorer_ms
                }
                &&& e.screen is None ==> b.screened == a.screened && b.promoted == a.promoted
                    && b.bypass_scored == a.bypass_scored && b.screen_scorer_ms
                    == a.screen_scorer_ms
                &&& e.full matches Some(f) ==> b.full_scored - a.full_scored == f.scored
                    && b.full_scorer_ms - a.full_scorer_ms == f.scorer_ms
                &&& e.full is None ==> b.full_scored == a.full_scored && b.full_scorer_ms
                    == a.full_scorer_ms
            }
            &&& !(lines[n] is Experiment) ==> b == a
        }),
{
}

/// The line gives a score: the one it opens and the one it closes with.
pub open spec fn scores_of(line: JournalLine) -> Option<(Double, Double)> {
    match line {
        JournalLine::Baseline(b) => Some((b.score, b.score)),
        JournalLine::Summary(s) => Some((s.opening_score, s.final_score)),
        _ => None,
    }
}

/// The opening score is that of the first line that gives one, the closing score
/// that of the last.
pub proof fn scores_open_first_and_close_last(lines: Seq<JournalLine>, n: int)
    requires
        0 <= n <= lines.len(),
    ensures
        match opening(lines, n) {
            Some(x) => exists|i: int|
                0 <= i < n && scores_of(#[trigger] lines[i]) is Some && scores_of(lines[i]).unwrap().0 == x
                    && forall|j: int| 0 <= j < i ==> scores_of(#[trigger] lines[j]) is None,
            None => forall|i: int| 0 <= i < n ==> scores_of(#[trigger] lines[i]) is None,
        },
        match closing(lines, n) {
            Some(x) => exists|i: int|
                0 <= i < n && scores_of(#[trigger] lines[i]) is Some && scores_of(lines[i]).unwrap().1 == x
                    && forall|j: int| i < j < n ==> scores_of(#[trigger] lines[j]) is None,
            None => forall|i: int| 0 <= i < n ==> scores_of(#[trigger] lines[i]) is None,
        },
    decreases n,
{
    if n > 0 {
        scores_open_first_and_close_last(lines, n - 1);
        if opening(lines, n - 1) is Some {
            let x = opening(lines, n - 1)->0;
            let i = choose|i: int|
                0 <= i < n - 1 && scores_of(#[trigger] lines[i]) is Some && scores_of(lines[i]).unwrap().0
                    == x && forall|j: int| 0 <= j < i ==> scores_of(#[trigger] lines[j]) is None;
            assert(scores_of(lines[i]).unwrap().0 == x);
        } else {
            assert(scores_of(lines[n - 1]) is Some || scores_of(lines[n - 1]) is None);
        }
        if scores_of(lines[n - 1]) is None && closing(lines, n - 1) is Some {
            let x = closing(lines, n - 1)->0;
            let i = choose|i: int|
                0 <= i < n - 1 && scores_of(#[trigger] lines[i]) is Some && scores_of(lines[i]).unwrap().1
                    == x && forall|j: int| i < j < n - 1 ==> scores_of(#[trigger] lines[j]) is None;
            assert(scores_of(lines[i]).unwrap().1 == x);
        }
    }
}

/// The run starts with the first header, ends with the last iteration, and its
/// last summary says how it stopped.
pub proof fn runs_start_first_and_stop_last(lines: Seq<JournalLine>, n: int)
    requires
        0 <= n <= lines.len(),
    ensures
        match run_start(lines, n) {
            Some(x) => exists|i: int|
                0 <= i < n && (#[trigger] lines[i]) is RunHeader
                    && lines[i]->RunHeader_timestamp_unix == x && forall|j: int|
                    0 <= j < i ==> !((#[trigger] lines[j]) is RunHeader),
            None => forall|i: int| 0 <= i < n ==> !((#[trigger] lines[i]) is RunHeader),
        },
        match last_iteration(lines, n) {
            Some(x) => exists|i: int|
                0 <= i < n && (#[trigger] lines[i]) is Experiment
                    && lines[i]->Experiment_0.timestamp_unix == x && forall|j: int|
                    i < j < n ==> !((#[trigger] lines[j]) is Experiment),
            None => forall|i: int| 0 <= i < n ==> !((#[trigger] lines[i]) is Experiment),
        },
        match summary(lines, n) {
            Some((ms, why)) => exists|i: int|
                0 <= i < n && (#[trigger] lines[i]) is Summary && lines[i]->Summary_0.wall_ms == ms
                    && lines[i]->Summary_0.stop_reason@ == why && forall|j: int|
                    i < j < n ==> !((#[trigger] lines[j]) is Summary),
            None => forall|i: int| 0 <= i < n ==> !((#[trigger] lines[i]) is Summary),
        },
    decreases n,
{
    if n > 0 {
        runs_start_first_and_stop_last(lines, n - 1);
        let l = lines[n - 1];
        if let Some(x) = run_start(lines, n - 1) {
            let i = choose|i: int|
                0 <= i < n - 1 && (#[trigger] lines[i]) is RunHeader
                    && lines[i]->RunHeader_timestamp_unix == x && forall|j: int|
                    0 <= j < i ==> !((#[trigger] lines[j]) is RunHeader);
            assert(lines[i] is RunHeader);
        }
        if !(l is Experiment) && last_iteration(lines, n - 1) is Some {
            let x = last_iteration(lines, n - 1)->0;
            let i = choose|i: int|
                0 <= i < n - 1 && (#[trigger] lines[i]) is Experiment
                    && lines[i]->Experiment_0.timestamp_unix == x && forall|j: int|
                    i < j < n - 1 ==> !((#[trigger] lines[j]) is Experiment);
            assert(lines[i] is Experiment);
        }
        if !(l is Summary) && summary(lines, n - 1) is Some {
            let (ms, why) = summary(lines, n - 1)->0;
            let i = choose|i: int|
                0 <= i < n - 1 && (#[trigger] lines[i]) is Summary && lines[i]->Summary_0.wall_ms
                    == ms && lines[i]->Summary_0.stop_reason@ == why && forall|j: int|
                    i < j < n - 1 ==> !((#[trigger] lines[j]) is Summary);
            assert(lines[i] is Summary);
        }
    }
}

/// The gains listed are those of the acceptances whose winner is on record, in
/// order: as many as there are, each with its improvement, naming the winner and
/// telling the first candidate of that name.
pub proof fn gains_are_the_recorded_wins(lines: Seq<JournalLine>, n: int)
    requires
        0 <= n < lines.len(),
    ensures
        gains(lines, n).len() == wins_recorded(lines, n),
        lines[n] matches JournalLine::Experiment(e) ==> forall|k: int| #[trigger]
            wins_at(*e, k) ==> {
                let g = gains(lines, n + 1).last();
                &&& gains(lines, n + 1).drop_last() == gains(lines, n)
                &&& gains(lines, n + 1).len() == gains(lines, n).len() + 1
                &&& g.iteration == e.iteration
                &&& Some(g.improvement) == e.improvement
                &&& g.id == e.candidates@[k].id@
                &&& g.strategy == e.candidates@[k].strategy@
                &&& g.depth == e.candidates@[k].depth
                &&& g.affected_fraction == e.candidates@[k].affected_fraction
                &&& run_start(lines, n) matches Some(t) ==> g.at_wall_ms == (if e.timestamp_unix
                    >= t {
                    1000 * (e.timestamp_unix - t)
                } else {
                    0
                })
            },
        lines[n] matches JournalLine::Experiment(e) ==> !win_on_record(*e) ==> gains(lines, n + 1)
            == gains(lines, n),
    decreases n,
{
    if n > 0 {
        gains_are_the_recorded_wins(lines, n - 1);
        if let JournalLine::Experiment(e) = lines[n - 1] {
            winners_stand_at_their_place(*e);
        }
    }
    if let JournalLine::Experiment(e) = lines[n] {
        winners_stand_at_their_place(*e);
        assert forall|k: int| #[trigger] wins_at(*e, k) implies gains(lines, n + 1).drop_last()
            == gains(lines, n) by {
            assert(gains(lines, n + 1).drop_last() =~= gains(lines, n));
        }
    }
}

/// The time to the first acceptance is that of the first iteration that accepted
/// one, and later lines do not change it.
pub proof fn first_acceptances_stay(lines: Seq<JournalLine>, n: int)
    requires
        0 <= n < lines.len(),
    ensures
        first_acceptance(lines, n) is Some ==> first_acceptance(lines, n + 1) == first_acceptance(
            lines,
            n,
        ),
        first_acceptance(lines, n) is None ==> (first_acceptance(lines, n + 1) is Some <==> (
        lines[n] matches JournalLine::Experiment(e) && e.accepted && e.winner is Some
            && e.improvement is Some)),
        first_acceptance(lines, n) is Some <==> totals(lines, n).acceptances > 0,
    decreases n,
{
    if n > 0 {
        first_acceptances_stay(lines, n - 1);
    }
}

/// The trajectory gets the score that an accepted iteration started from and
/// what it improved it by.
pub proof fn trajectories_follow_the_acceptances(lines: Seq<JournalLine>, n: int)
    requires
        0 <= n < lines.len(),
        lines[n] is Experiment,
    ensures
        ({
            let e = *lines[n]->Experiment_0;
            let accepted = e.accepted && e.winner is Some && e.improvement is Some;
            trajectory(lines, n + 1) == if accepted {
                trajectory(lines, n).push((e.baseline_score, e.improvement->0))
            } else {
                trajectory(lines, n)
            }
        }),
{
}

/// The quotients of a report are taken of its own counts and times, and are there
/// exactly when there is something to divide by.
pub proof fn quotients_are_of_the_reports_own_counts(r: JournalReport, lines: Seq<JournalLine>)
    requires
        reports(r, lines),
        fits(lines),
        lines.len() <= u64::MAX,
    ensures
        ({
            let times = r.search_ms + r.screen_scorer_ms + r.full_scorer_ms;
            &&& match r.search_time_fraction {
                Some(q) => q.part == r.search_ms && q.whole == times && times > 0,
                None => times == 0,
            }
            &&& match r.screen_false_positive_rate {
                Some(q) => q.part == r.screen_false_positives && q.whole == r.candidates_promoted
                    && q.whole > 0,
                None => r.candidates_promoted == 0,
            }
            &&& match r.screen_false_negative_rate {
                Some(q) => q.part == r.screen_false_negatives && q.whole == r.bypass_scored
                    && q.whole > 0,
                None => r.bypass_scored == 0,
            }
            &&& match r.searches_per_minute {
                Some(q) => q.part == r.iterations && q.whole == r.wall_ms && q.whole > 0,
                None => r.wall_ms == 0,
            }
            &&& match r.candidates_per_minute {
                Some(q) => q.part == r.candidates_generated && q.whole == r.wall_ms && q.whole > 0,
                None => r.wall_ms == 0,
            }
            &&& match r.cumulative_improvement {
                Some(i) => Some(i.opening) == r.opening_score && Some(i.closing) == r.final_score,
                None => r.opening_score is None || r.final_score is None,
            }
            &&& match r.improvement_per_wall_hour {
                Some(q) => Some(q.improvement) == r.cumulative_improvement && q.wall_ms == r.wall_ms
                    && r.wall_ms > 0,
                None => r.cumulative_improvement is None || r.wall_ms == 0,
            }
            &&& r.score_trajectory@.len() == r.acceptances
            &&& r.accepted@.len() <= r.acceptances
            &&& r.acceptances <= r.iterations
            &&& r.time_to_first_acceptance_ms is Some <==> r.acceptances > 0
        }),
{
    let n = lines.len() as int;
    counts_are_few(lines, n);
    acceptances_are_iterations(lines, n);
    gained_at_most_the_acceptances(lines, n);
    assert(r.accepted@.len() == gains(lines, n).len());
    accepted_or_not(lines, n);
}

proof fn accepted_or_not(lines: Seq<JournalLine>, n: int)
    ensures
        first_acceptance(lines, n) is Some <==> totals(lines, n).acceptances > 0,
    decreases n,
{
    if n > 0 {
        accepted_or_not(lines, n - 1);
    }
}

proof fn gained_at_most_the_acceptances(lines: Seq<JournalLine>, n: int)
    ensures
        gains(lines, n).len() <= totals(lines, n).acceptances,
    decreases n,
{
    if n > 0 {
        gained_at_most_the_acceptances(lines, n - 1);
        if let JournalLine::Experiment(e) = lines[n - 1] {
            winners_stand_at_their_place(*e);
        }
    }
}

/// The wall time is what the last summary says, unless it says nothing; then it
/// is the time from the header to the last iteration.
pub proof fn wall_time_is_said_or_measured(lines: Seq<JournalLine>)
    ensures
        ({
            let n = lines.len() as int;
            let said = summary(lines, n) is Some && summary(lines, n).unwrap().0 > 0;
            &&& said ==> wall(lines) == summary(lines, n).unwrap().0
            &&& !said && run_start(lines, n) is Some && last_iteration(lines, n) is Some ==> {
                let (a, b) = (run_start(lines, n)->0, last_iteration(lines, n)->0);
                wall(lines) == if b >= a { 1000 * (b - a) } else { 0 }
            }
            &&& !said && (run_start(lines, n) is None || last_iteration(lines, n) is None)
                ==> wall(lines) == 0
        }),
{
}

} // verus!
