//! Retention planning for a host's own records.

use vstd::prelude::*;

use super::model;
use super::model::{Learning, LearningModel, Outcome};
use crate::ranking;
use crate::ranking::Ranked;

verus! {

/// How long a host keeps its own records before dropping them.
#[derive(Debug, Clone, Copy)]
pub struct PrunePolicy {
    /// Rejections this old are dropped, which puts the experiment back on the
    /// table.
    pub rejected_after_secs: u64,
    /// Acceptances this old are dropped.
    pub accepted_after_secs: u64,
    /// Most records a host keeps, newest first (0 = no limit).
    pub max_records: usize,
    /// Now, in Unix seconds.
    pub now_unix: u64,
}

/// What a prune would do, before anything is written.
#[derive(Debug, Clone, Copy, PartialEq, Eq, Structural)]
pub struct PruneOutcome {
    /// Records read.
    pub read: usize,
    /// Records that survive.
    pub kept: usize,
    /// Rejections dropped for age.
    pub dropped_stale_rejected: usize,
    /// Acceptances dropped for age.
    pub dropped_stale_accepted: usize,
    /// Repeats of a candidate already filed against the same creature.
    pub dropped_duplicate: usize,
    /// Records dropped because there were more than `max_records`.
    pub dropped_over_cap: usize,
}

impl Default for PruneOutcome {
    /// Nothing read, nothing kept.
    fn default() -> (r: PruneOutcome)
        ensures
            r@ == OutcomeModel::nothing(),
            r == (PruneOutcome {
                read: 0,
                kept: 0,
                dropped_stale_rejected: 0,
                dropped_stale_accepted: 0,
                dropped_duplicate: 0,
                dropped_over_cap: 0,
            }),
    {
        PruneOutcome {
            read: 0,
            kept: 0,
            dropped_stale_rejected: 0,
            dropped_stale_accepted: 0,
            dropped_duplicate: 0,
            dropped_over_cap: 0,
        }
    }
}

impl PruneOutcome {
    /// Fold another corpus's outcome into this one.
    pub fn add(&mut self, other: &PruneOutcome)
        requires
            old(self)@.plus(other@).fits(),
        ensures
            final(self)@ == old(self)@.plus(other@),
            old(self)@.balances() && other@.balances() ==> final(self)@.balances(),
    {
        self.read = self.read + other.read;
        self.kept = self.kept + other.kept;
        self.dropped_stale_rejected = self.dropped_stale_rejected + other.dropped_stale_rejected;
        self.dropped_stale_accepted = self.dropped_stale_accepted + other.dropped_stale_accepted;
        self.dropped_duplicate = self.dropped_duplicate + other.dropped_duplicate;
        self.dropped_over_cap = self.dropped_over_cap + other.dropped_over_cap;
    }
}

/// What an outcome counts.
pub struct OutcomeModel {
    pub read: nat,
    pub kept: nat,
    pub dropped_stale_rejected: nat,
    pub dropped_stale_accepted: nat,
    pub dropped_duplicate: nat,
    pub dropped_over_cap: nat,
}

impl View for PruneOutcome {
    type V = OutcomeModel;

    open spec fn view(&self) -> OutcomeModel {
        OutcomeModel {
            read: self.read as nat,
            kept: self.kept as nat,
            dropped_stale_rejected: self.dropped_stale_rejected as nat,
            dropped_stale_accepted: self.dropped_stale_accepted as nat,
            dropped_duplicate: self.dropped_duplicate as nat,
            dropped_over_cap: self.dropped_over_cap as nat,
        }
    }
}

impl OutcomeModel {
    /// Nothing read, nothing kept.
    pub open spec fn nothing() -> OutcomeModel {
        OutcomeModel {
            read: 0,
            kept: 0,
            dropped_stale_rejected: 0,
            dropped_stale_accepted: 0,
            dropped_duplicate: 0,
            dropped_over_cap: 0,
        }
    }

    /// Both counts together.
    pub open spec fn plus(self, other: OutcomeModel) -> OutcomeModel {
        OutcomeModel {
            read: self.read + other.read,
            kept: self.kept + other.kept,
            dropped_stale_rejected: self.dropped_stale_rejected + other.dropped_stale_rejected,
            dropped_stale_accepted: self.dropped_stale_accepted + other.dropped_stale_accepted,
            dropped_duplicate: self.dropped_duplicate + other.dropped_duplicate,
            dropped_over_cap: self.dropped_over_cap + other.dropped_over_cap,
        }
    }

    /// Every record read is kept or dropped for exactly one reason.
    pub open spec fn balances(self) -> bool {
        self.read == self.kept + self.dropped_stale_rejected + self.dropped_stale_accepted
            + self.dropped_duplicate + self.dropped_over_cap
    }

    /// Every count fits its type.
    pub open spec fn fits(self) -> bool {
        &&& self.read <= usize::MAX
        &&& self.kept <= usize::MAX
        &&& self.dropped_stale_rejected <= usize::MAX
        &&& self.dropped_stale_accepted <= usize::MAX
        &&& self.dropped_duplicate <= usize::MAX
        &&& self.dropped_over_cap <= usize::MAX
    }
}

/// The outcomes of a list, added one after another to `start`.
pub open spec fn outcome_total(start: OutcomeModel, list: Seq<OutcomeModel>) -> OutcomeModel {
    list.fold_left(start, |sum: OutcomeModel, o: OutcomeModel| sum.plus(o))
}

/// Adding outcomes in any order gives the same total.
pub proof fn outcomes_add_in_any_order(
    start: OutcomeModel,
    a: Seq<OutcomeModel>,
    b: Seq<OutcomeModel>,
)
    requires
        a.to_multiset() == b.to_multiset(),
    ensures
        outcome_total(start, a) == outcome_total(start, b),
{
    let add_one = |sum: OutcomeModel, o: OutcomeModel| sum.plus(o);
    assert(vstd::seq_lib::commutative_foldl(add_one));
    vstd::seq_lib::lemma_fold_left_permutation(a, b, add_one, start);
}

/// An outcome of nothing changes nothing, and balanced outcomes add up to a
/// balanced one.
pub proof fn outcomes_add_up(a: OutcomeModel, b: OutcomeModel)
    ensures
        a.plus(OutcomeModel::nothing()) == a,
        OutcomeModel::nothing().plus(a) == a,
        a.plus(b) == b.plus(a),
        a.balances() && b.balances() ==> a.plus(b).balances(),
{
}

/// When a record was made, and where it stands in the file.
#[derive(Debug)]
pub struct Filed {
    /// Unix seconds.
    pub at: u64,
    /// Position in the file.
    pub index: usize,
}

impl Ranked for Filed {
    /// Newer first, and of equally old records the later one.
    open spec fn ahead(&self, other: &Filed) -> bool {
        self.at > other.at || (self.at == other.at && self.index > other.index)
    }

    proof fn ahead_is_asymmetric(a: Filed, b: Filed) {
    }

    proof fn not_ahead_is_transitive(a: Filed, b: Filed, c: Filed) {
    }

    fn is_ahead(&self, other: &Filed) -> (r: bool) {
        self.at > other.at || (self.at == other.at && self.index > other.index)
    }
}

/// The records with their positions.
pub open spec fn file_order(all: Seq<LearningModel>) -> Seq<Filed> {
    Seq::new(all.len(), |i: int| Filed { at: all[i].at_unix, index: i as usize })
}

/// The positions of the records, newest first.
pub open spec fn newest_first(all: Seq<LearningModel>) -> Seq<usize> {
    ranking::the_ranking(file_order(all))
}

/// Seconds from `at` to `now`, none when `at` lies ahead.
pub open spec fn age(now: u64, at: u64) -> int {
    if now >= at {
        now - at
    } else {
        0
    }
}

/// The record is past its window.
pub open spec fn is_stale(l: LearningModel, policy: PrunePolicy) -> bool {
    age(policy.now_unix, l.at_unix) >= match l.outcome {
        Outcome::Accepted => policy.accepted_after_secs,
        Outcome::Rejected => policy.rejected_after_secs,
    }
}

/// Both records are about the same candidate on the same creature.
pub open spec fn same_trial(a: LearningModel, b: LearningModel) -> bool {
    a.id == b.id && a.incumbent == b.incumbent
}

/// What becomes of a record.
#[derive(Debug, Clone, Copy, PartialEq, Eq, Structural)]
pub enum Fate {
    /// It stays.
    Kept,
    /// A newer record tells of the same trial.
    Duplicate,
    /// It is past its window.
    Stale,
    /// Enough newer records stay.
    OverCap,
}

/// How many of the records stay.
pub open spec fn kept_among(fates: Seq<Fate>) -> nat {
    fates.filter(|f: Fate| f == Fate::Kept).len()
}

/// A newer record than that at place `k` of the order tells of the same trial.
pub open spec fn superseded(all: Seq<LearningModel>, order: Seq<usize>, k: int) -> bool {
    exists|m: int|
        0 <= m < k && same_trial(all[(#[trigger] order[m]) as int], all[order[k] as int])
}

/// What becomes of the `n` newest records, newest first.
pub open spec fn fates(all: Seq<LearningModel>, policy: PrunePolicy, n: int) -> Seq<Fate>
    decreases n,
{
    if n <= 0 {
        Seq::empty()
    } else {
        let newer = fates(all, policy, n - 1);
        let order = newest_first(all);
        let l = all[order[n - 1] as int];
        newer.push(
            if superseded(all, order, n - 1) {
                Fate::Duplicate
            } else if is_stale(l, policy) {
                Fate::Stale
            } else if policy.max_records > 0 && kept_among(newer) >= policy.max_records {
                Fate::OverCap
            } else {
                Fate::Kept
            },
        )
    }
}

/// What becomes of every record, newest first.
pub open spec fn all_fates(all: Seq<LearningModel>, policy: PrunePolicy) -> Seq<Fate> {
    fates(all, policy, all.len() as int)
}

/// The record at position `i` stays.
pub open spec fn survives(all: Seq<LearningModel>, policy: PrunePolicy, i: int) -> bool {
    exists|k: int|
        0 <= k < all.len() && (#[trigger] newest_first(all)[k]) == i && all_fates(all, policy)[k]
            == Fate::Kept
}

/// The survivors among the first `n` records, in file order.
pub open spec fn survivors(all: Seq<LearningModel>, policy: PrunePolicy, n: int) -> Seq<
    LearningModel,
>
    decreases n,
{
    if n <= 0 {
        Seq::empty()
    } else if survives(all, policy, n - 1) {
        survivors(all, policy, n - 1).push(all[n - 1])
    } else {
        survivors(all, policy, n - 1)
    }
}

/// How many of the `n` newest records meet a fate.
pub open spec fn with_fate(all: Seq<LearningModel>, policy: PrunePolicy, n: int, fate: Fate) -> nat
    decreases n,
{
    if n <= 0 {
        0
    } else {
        with_fate(all, policy, n - 1, fate) + if fates(all, policy, n)[n - 1] == fate {
            1nat
        } else {
            0
        }
    }
}

/// How many of the `n` newest records are stale with the given outcome.
pub open spec fn stale_with(
    all: Seq<LearningModel>,
    policy: PrunePolicy,
    n: int,
    outcome: Outcome,
) -> nat
    decreases n,
{
    if n <= 0 {
        0
    } else {
        stale_with(all, policy, n - 1, outcome) + if fates(all, policy, n)[n - 1] == Fate::Stale
            && all[newest_first(all)[n - 1] as int].outcome == outcome {
            1nat
        } else {
            0
        }
    }
}

proof fn fates_grow(all: Seq<LearningModel>, policy: PrunePolicy, n: int, m: int)
    requires
        0 <= n <= m,
    ensures
        fates(all, policy, m).len() == m,
        fates(all, policy, m).take(n) == fates(all, policy, n),
    decreases m,
{
    if m == 0 {
        assert(fates(all, policy, m).take(0) =~= Seq::empty());
    } else if n == m {
        fates_grow(all, policy, n - 1, m - 1);
        assert(fates(all, policy, m).take(n) =~= fates(all, policy, n));
    } else {
        fates_grow(all, policy, n, m - 1);
        assert(fates(all, policy, m).take(n) =~= fates(all, policy, m - 1).take(n));
    }
}

proof fn kept_is_counted(all: Seq<LearningModel>, policy: PrunePolicy, n: int)
    requires
        0 <= n,
    ensures
        kept_among(fates(all, policy, n)) == with_fate(all, policy, n, Fate::Kept),
    decreases n,
{
    reveal(Seq::filter);
    if n > 0 {
        kept_is_counted(all, policy, n - 1);
        fates_grow(all, policy, n - 1, n);
        assert(fates(all, policy, n).drop_last() =~= fates(all, policy, n - 1));
    }
}

/// Keep, of a host's records, what its policy asks for. The survivors stand in
/// the order of the file. Of records of one trial the newest counts.
pub fn plan_prune(all: &Vec<Learning>, policy: &PrunePolicy) -> (r: (Vec<Learning>, PruneOutcome))
    ensures
        model::learning_models(r.0@) == survivors(
            model::learning_models(all@),
            *policy,
            all@.len() as int,
        ),
        r.1.read == all@.len(),
        r.1.kept == r.0@.len(),
        r.1.kept == with_fate(
            model::learning_models(all@),
            *policy,
            all@.len() as int,
            Fate::Kept,
        ),
        r.1.dropped_duplicate == with_fate(
            model::learning_models(all@),
            *policy,
            all@.len() as int,
            Fate::Duplicate,
        ),
        r.1.dropped_stale_rejected == stale_with(
            model::learning_models(all@),
            *policy,
            all@.len() as int,
            Outcome::Rejected,
        ),
        r.1.dropped_stale_accepted == stale_with(
            model::learning_models(all@),
            *policy,
            all@.len() as int,
            Outcome::Accepted,
        ),
        r.1.dropped_over_cap == with_fate(
            model::learning_models(all@),
            *policy,
            all@.len() as int,
            Fate::OverCap,
        ),
        r.1@.balances(),
{
    let ghost records = model::learning_models(all@);
    let mut filed: Vec<Filed> = Vec::new();
    for i in 0..all.len()
        invariant
            records == model::learning_models(all@),
            filed@ == file_order(records).take(i as int),
    {
        filed.push(Filed { at: all[i].at_unix, index: i });
        assert(filed@ =~= file_order(records).take(i as int + 1));
    }
    assert(filed@ =~= file_order(records));
    let order = ranking::ranking(&filed);
    assert(order@ == newest_first(records));
    let mut keep: Vec<bool> = Vec::new();
    for i in 0..all.len()
        invariant
            keep@.len() == i,
            forall|k: int| 0 <= k < i ==> !#[trigger] keep@[k],
    {
        keep.push(false);
    }
    let mut out = PruneOutcome::default();
    out.read = all.len();
    for k in 0..order.len()
        invariant
            records == model::learning_models(all@),
            order@ == newest_first(records),
            ranking::is_ranking(filed@, order@),
            filed@.len() == all@.len(),
            filed@ == file_order(records),
            order@.len() == all@.len(),
            keep@.len() == all@.len(),
            out.read == all@.len(),
            out.kept == with_fate(records, *policy, k as int, Fate::Kept),
            out.dropped_duplicate == with_fate(records, *policy, k as int, Fate::Duplicate),
            out.dropped_stale_rejected == stale_with(
                records,
                *policy,
                k as int,
                Outcome::Rejected,
            ),
            out.dropped_stale_accepted == stale_with(
                records,
                *policy,
                k as int,
                Outcome::Accepted,
            ),
            out.dropped_over_cap == with_fate(records, *policy, k as int, Fate::OverCap),
            k == out.kept + out.dropped_stale_rejected + out.dropped_stale_accepted
                + out.dropped_duplicate + out.dropped_over_cap,
            forall|i: int|
                0 <= i < all@.len() ==> (#[trigger] keep@[i] <==> stays(
                    records,
                    *policy,
                    k as int,
                    i,
                )),
    {
        let i: usize = order[k];
        let l = &all[i];
        assert(records[i as int] == l@);
        let ghost before = out;
        let ghost kept_before = keep@;
        proof {
            kept_is_counted(records, *policy, k as int);
            fates_grow(records, *policy, k as int, k as int + 1);
        }
        let duplicate = has_newer(all, &order, k);
        let elapsed: u64 = if policy.now_unix >= l.at_unix {
            policy.now_unix - l.at_unix
        } else {
            0
        };
        let stale = match l.outcome {
            Outcome::Accepted => elapsed >= policy.accepted_after_secs,
            Outcome::Rejected => elapsed >= policy.rejected_after_secs,
        };
        if duplicate {
            out.dropped_duplicate = out.dropped_duplicate + 1;
        } else if stale {
            match l.outcome {
                Outcome::Accepted => {
                    out.dropped_stale_accepted = out.dropped_stale_accepted + 1;
                },
                Outcome::Rejected => {
                    out.dropped_stale_rejected = out.dropped_stale_rejected + 1;
                },
            }
        } else if policy.max_records > 0 && out.kept >= policy.max_records {
            out.dropped_over_cap = out.dropped_over_cap + 1;
        } else {
            keep.set(i, true);
            out.kept = out.kept + 1;
        }
        proof {
            let now = fates(records, *policy, k as int + 1);
            assert forall|j: int| 0 <= j < all@.len() implies (#[trigger] keep@[j] <==> stays(
                records,
                *policy,
                k as int + 1,
                j,
            )) by {
                assert(kept_before[j] <==> stays(records, *policy, k as int, j));
                stays_steps(records, *policy, k as int, j);
                if j == i {
                    // No earlier place of the order is position `i`.
                    if stays(records, *policy, k as int, j) {
                        let m = choose|m: int|
                            0 <= m < k && (#[trigger] newest_first(records)[m]) == j && fates(
                                records,
                                *policy,
                                k as int,
                            )[m] == Fate::Kept;
                        assert(ranking::listed_before(
                            filed@,
                            order@[m] as int,
                            order@[k as int] as int,
                        ));
                    }
                }
            }
        }
    }
    let mut kept: Vec<Learning> = Vec::new();
    assert(model::learning_models(kept@) =~= Seq::empty());
    for i in 0..all.len()
        invariant
            records == model::learning_models(all@),
            keep@.len() == all@.len(),
            forall|i: int|
                0 <= i < all@.len() ==> (#[trigger] keep@[i] <==> stays(
                    records,
                    *policy,
                    all@.len() as int,
                    i,
                )),
            model::learning_models(kept@) == survivors(records, *policy, i as int),
    {
        assert(keep@[i as int] <==> survives(records, *policy, i as int));
        if keep[i] {
            let ghost before = kept@;
            let l = all[i].clone();
            kept.push(l);
            assert(records[i as int] == l@);
            assert(model::learning_models(kept@) =~= model::learning_models(before).push(l@));
        }
    }
    proof {
        survivors_are_the_kept(records, *policy);
        assert(model::learning_models(kept@).len() == kept@.len());
    }
    (kept, out)
}

/// Position `i` is kept among the `n` newest.
spec fn stays(all: Seq<LearningModel>, policy: PrunePolicy, n: int, i: int) -> bool {
    exists|k: int|
        0 <= k < n && (#[trigger] newest_first(all)[k]) == i && fates(all, policy, n)[k]
            == Fate::Kept
}

proof fn stays_steps(all: Seq<LearningModel>, policy: PrunePolicy, k: int, i: int)
    requires
        0 <= k,
    ensures
        stays(all, policy, k + 1, i) <==> stays(all, policy, k, i) || (newest_first(all)[k] == i
            && fates(all, policy, k + 1)[k] == Fate::Kept),
{
    fates_grow(all, policy, k, k + 1);
    let then = fates(all, policy, k);
    let now = fates(all, policy, k + 1);
    assert(forall|m: int| 0 <= m < k ==> now[m] == now.take(k)[m]);
    if stays(all, policy, k, i) {
        let m = choose|m: int|
            0 <= m < k && (#[trigger] newest_first(all)[m]) == i && then[m] == Fate::Kept;
        assert(newest_first(all)[m] == i && now[m] == Fate::Kept);
    }
    if newest_first(all)[k] == i && now[k] == Fate::Kept {
        assert(stays(all, policy, k + 1, i));
    }
    if stays(all, policy, k + 1, i) && !stays(all, policy, k, i) {
        let m = choose|m: int|
            0 <= m < k + 1 && (#[trigger] newest_first(all)[m]) == i && now[m] == Fate::Kept;
        if m < k {
            assert(newest_first(all)[m] == i && then[m] == Fate::Kept);
        }
    }
}

fn has_newer(all: &Vec<Learning>, order: &Vec<usize>, k: usize) -> (r: bool)
    requires
        k < order@.len(),
        forall|m: int| 0 <= m < order@.len() ==> #[trigger] order@[m] < all@.len(),
    ensures
        r == superseded(model::learning_models(all@), order@, k as int),
{
    let ghost records = model::learning_models(all@);
    let own = &all[order[k]];
    for m in 0..k
        invariant
            k < order@.len(),
            records == model::learning_models(all@),
            *own == all@[order@[k as int] as int],
            forall|m: int| 0 <= m < order@.len() ==> #[trigger] order@[m] < all@.len(),
            forall|j: int|
                0 <= j < m ==> !same_trial(
                    records[(#[trigger] order@[j]) as int],
                    records[order@[k as int] as int],
                ),
    {
        let other = &all[order[m]];
        assert(records[order@[m as int] as int] == other@);
        assert(records[order@[k as int] as int] == own@);
        if other.id == own.id && other.incumbent == own.incumbent {
            assert(same_trial(
                records[order@[m as int] as int],
                records[order@[k as int] as int],
            ));
            return true;
        }
    }
    false
}

/// Positions below `n` that stay among the `m` newest.
spec fn staying(all: Seq<LearningModel>, policy: PrunePolicy, m: int, n: int) -> nat
    decreases n,
{
    if n <= 0 {
        0
    } else {
        staying(all, policy, m, n - 1) + if stays(all, policy, m, n - 1) {
            1nat
        } else {
            0
        }
    }
}

proof fn staying_steps(all: Seq<LearningModel>, policy: PrunePolicy, m: int, n: int)
    requires
        0 <= m < all.len(),
        0 <= n <= all.len(),
        all.len() <= usize::MAX,
        ranking::is_ranking(file_order(all), newest_first(all)),
    ensures
        staying(all, policy, m + 1, n) == staying(all, policy, m, n) + if newest_first(all)[m] < n
            && fates(all, policy, m + 1)[m] == Fate::Kept {
            1nat
        } else {
            0
        },
    decreases n,
{
    if n > 0 {
        staying_steps(all, policy, m, n - 1);
        stays_steps(all, policy, m, n - 1);
        if newest_first(all)[m] == n - 1 && stays(all, policy, m, n - 1) {
            let k = choose|k: int|
                0 <= k < m && (#[trigger] newest_first(all)[k]) == n - 1 && fates(
                    all,
                    policy,
                    m,
                )[k] == Fate::Kept;
            assert(ranking::listed_before(
                file_order(all),
                newest_first(all)[k] as int,
                newest_first(all)[m] as int,
            ));
        }
    }
}

proof fn staying_counts(all: Seq<LearningModel>, policy: PrunePolicy, m: int)
    requires
        0 <= m <= all.len(),
        all.len() <= usize::MAX,
        ranking::is_ranking(file_order(all), newest_first(all)),
    ensures
        staying(all, policy, m, all.len() as int) == with_fate(all, policy, m, Fate::Kept),
    decreases m,
{
    if m == 0 {
        nothing_stays(all, policy, all.len() as int);
    } else {
        staying_counts(all, policy, m - 1);
        staying_steps(all, policy, m - 1, all.len() as int);
    }
}

proof fn nothing_stays(all: Seq<LearningModel>, policy: PrunePolicy, n: int)
    ensures
        staying(all, policy, 0, n) == 0,
    decreases n,
{
    if n > 0 {
        nothing_stays(all, policy, n - 1);
    }
}

proof fn survivors_are_staying(all: Seq<LearningModel>, policy: PrunePolicy, n: int)
    requires
        0 <= n <= all.len(),
    ensures
        survivors(all, policy, n).len() == staying(all, policy, all.len() as int, n),
    decreases n,
{
    if n > 0 {
        survivors_are_staying(all, policy, n - 1);
        assert(survives(all, policy, n - 1) == stays(all, policy, all.len() as int, n - 1));
    }
}

/// As many records survive as are counted kept.
pub proof fn survivors_are_the_kept(all: Seq<LearningModel>, policy: PrunePolicy)
    requires
        all.len() <= usize::MAX,
    ensures
        survivors(all, policy, all.len() as int).len() == with_fate(
            all,
            policy,
            all.len() as int,
            Fate::Kept,
        ),
{
    ranking::every_list_has_a_ranking(file_order(all));
    survivors_are_staying(all, policy, all.len() as int);
    staying_counts(all, policy, all.len() as int);
}

/// With a limit, at most that many records are kept.
pub proof fn the_cap_holds(all: Seq<LearningModel>, policy: PrunePolicy, n: int)
    requires
        policy.max_records > 0,
        0 <= n,
    ensures
        with_fate(all, policy, n, Fate::Kept) <= policy.max_records,
    decreases n,
{
    if n > 0 {
        the_cap_holds(all, policy, n - 1);
        kept_is_counted(all, policy, n - 1);
        fates_grow(all, policy, n - 1, n);
    }
}

/// A record that survives is within its window, and no newer record tells of
/// the same trial.
pub proof fn survivors_are_fresh_and_newest(all: Seq<LearningModel>, policy: PrunePolicy, i: int)
    requires
        0 <= i < all.len(),
        survives(all, policy, i),
        all.len() <= usize::MAX,
    ensures
        !is_stale(all[i], policy),
        forall|j: int|
            0 <= j < all.len() && (#[trigger] all[j]).at_unix > all[i].at_unix ==> !same_trial(
                all[j],
                all[i],
            ),
{
    let order = newest_first(all);
    let filed = file_order(all);
    ranking::every_list_has_a_ranking(filed);
    let k = choose|k: int|
        0 <= k < all.len() && (#[trigger] newest_first(all)[k]) == i && all_fates(all, policy)[k]
            == Fate::Kept;
    fates_grow(all, policy, k + 1, all.len() as int);
    fates_grow(all, policy, k, k + 1);
    assert(all_fates(all, policy).take(k + 1)[k] == Fate::Kept);
    assert(fates(all, policy, k + 1)[k] == Fate::Kept);
    assert forall|j: int|
        0 <= j < all.len() && (#[trigger] all[j]).at_unix > all[i].at_unix implies !same_trial(
        all[j],
        all[i],
    ) by {
        assert(order.contains(j as usize));
        let m = choose|m: int| 0 <= m < order.len() && order[m] == j as usize;
        if m > k {
            assert(ranking::listed_before(filed, order[k] as int, order[m] as int));
        }
        assert(m < k);
        if same_trial(all[j], all[i]) {
            assert(same_trial(all[order[m] as int], all[order[k] as int]));
            assert(superseded(all, order, k));
        }
    }
}

proof fn kept_at(all: Seq<LearningModel>, policy: PrunePolicy, i: int) -> (k: int)
    requires
        0 <= i < all.len(),
        survives(all, policy, i),
    ensures
        0 <= k < all.len(),
        newest_first(all)[k] == i,
        !superseded(all, newest_first(all), k),
        !is_stale(all[i], policy),
{
    let k = choose|k: int|
        0 <= k < all.len() && (#[trigger] newest_first(all)[k]) == i && all_fates(all, policy)[k]
            == Fate::Kept;
    fates_grow(all, policy, k + 1, all.len() as int);
    fates_grow(all, policy, k, k + 1);
    assert(all_fates(all, policy).take(k + 1)[k] == Fate::Kept);
    assert(fates(all, policy, k + 1)[k] == Fate::Kept);
    k
}

/// Two records that survive are of different trials.
proof fn survivors_differ(all: Seq<LearningModel>, policy: PrunePolicy, i: int, j: int)
    requires
        0 <= i < all.len(),
        0 <= j < all.len(),
        i != j,
        survives(all, policy, i),
        survives(all, policy, j),
    ensures
        !same_trial(all[i], all[j]),
{
    let k = kept_at(all, policy, i);
    let m = kept_at(all, policy, j);
    let order = newest_first(all);
    if same_trial(all[i], all[j]) {
        if k < m {
            assert(same_trial(all[order[k] as int], all[order[m] as int]));
        } else {
            assert(same_trial(all[order[m] as int], all[order[k] as int]));
        }
    }
}

/// The list's records are of different trials and within their windows.
spec fn settled(list: Seq<LearningModel>, policy: PrunePolicy) -> bool {
    &&& forall|i: int| 0 <= i < list.len() ==> !is_stale(#[trigger] list[i], policy)
    &&& forall|i: int, j: int|
        0 <= i < list.len() && 0 <= j < list.len() && i != j ==> !same_trial(
            #[trigger] list[i],
            #[trigger] list[j],
        )
}

/// One of the first `n` records survives and is the given one.
spec fn comes_from(all: Seq<LearningModel>, policy: PrunePolicy, n: int, l: LearningModel) -> bool {
    exists|i: int| 0 <= i < n && survives(all, policy, i) && #[trigger] all[i] == l
}

proof fn survivors_are_settled(all: Seq<LearningModel>, policy: PrunePolicy, n: int)
    requires
        0 <= n <= all.len(),
    ensures
        settled(survivors(all, policy, n), policy),
        forall|a: int|
            0 <= a < survivors(all, policy, n).len() ==> comes_from(
                all,
                policy,
                n,
                #[trigger] survivors(all, policy, n)[a],
            ),
    decreases n,
{
    if n > 0 {
        survivors_are_settled(all, policy, n - 1);
        let before = survivors(all, policy, n - 1);
        let now = survivors(all, policy, n);
        if survives(all, policy, n - 1) {
            let _ = kept_at(all, policy, n - 1);
            assert forall|a: int| 0 <= a < before.len() implies !same_trial(
                #[trigger] before[a],
                all[n - 1],
            ) && !same_trial(all[n - 1], before[a]) by {
                assert(comes_from(all, policy, n - 1, before[a]));
                let i = choose|i: int|
                    0 <= i < n - 1 && survives(all, policy, i) && #[trigger] all[i] == before[a];
                survivors_differ(all, policy, i, n - 1);
            }
            assert forall|i: int, j: int|
                0 <= i < now.len() && 0 <= j < now.len() && i != j implies !same_trial(
                #[trigger] now[i],
                #[trigger] now[j],
            ) by {
                if i < before.len() && j < before.len() {
                    assert(now[i] == before[i] && now[j] == before[j]);
                } else if i < before.len() {
                    assert(now[i] == before[i]);
                } else {
                    assert(now[j] == before[j]);
                }
            }
        }
        assert forall|a: int| 0 <= a < now.len() implies comes_from(
            all,
            policy,
            n,
            #[trigger] now[a],
        ) by {
            if a < before.len() {
                assert(comes_from(all, policy, n - 1, before[a]));
                let i = choose|i: int|
                    0 <= i < n - 1 && survives(all, policy, i) && #[trigger] all[i] == before[a];
                assert(all[i] == now[a]);
            } else {
                assert(all[n - 1] == now[a]);
            }
        }
    }
}

/// Of a settled list that is no longer than the limit, everything is kept.
proof fn settled_lists_are_kept(list: Seq<LearningModel>, policy: PrunePolicy, n: int)
    requires
        settled(list, policy),
        list.len() <= usize::MAX,
        policy.max_records > 0 ==> list.len() <= policy.max_records,
        0 <= n <= list.len(),
    ensures
        forall|k: int| 0 <= k < n ==> #[trigger] fates(list, policy, n)[k] == Fate::Kept,
        with_fate(list, policy, n, Fate::Kept) == n,
        with_fate(list, policy, n, Fate::Duplicate) == 0,
        with_fate(list, policy, n, Fate::OverCap) == 0,
        stale_with(list, policy, n, Outcome::Rejected) == 0,
        stale_with(list, policy, n, Outcome::Accepted) == 0,
    decreases n,
{
    if n > 0 {
        settled_lists_are_kept(list, policy, n - 1);
        let filed = file_order(list);
        let order = newest_first(list);
        ranking::every_list_has_a_ranking(filed);
        fates_grow(list, policy, n - 1, n);
        kept_is_counted(list, policy, n - 1);
        if superseded(list, order, n - 1) {
            let m = choose|m: int|
                0 <= m < n - 1 && same_trial(
                    list[(#[trigger] order[m]) as int],
                    list[order[n - 1] as int],
                );
            assert(ranking::listed_before(filed, order[m] as int, order[n - 1] as int));
            assert(order[m] != order[n - 1]);
            assert(!same_trial(list[order[m] as int], list[order[n - 1] as int]));
        }
        assert(!is_stale(list[order[n - 1] as int], policy));
        let now = fates(list, policy, n);
        assert(now[n - 1] == Fate::Kept);
        assert forall|k: int| 0 <= k < n implies #[trigger] now[k] == Fate::Kept by {
            if k < n - 1 {
                assert(now.take(n - 1)[k] == now[k]);
            }
        }
    }
}

proof fn kept_lists_survive(list: Seq<LearningModel>, policy: PrunePolicy, n: int)
    requires
        list.len() <= usize::MAX,
        0 <= n <= list.len(),
        forall|k: int| 0 <= k < list.len() ==> #[trigger] all_fates(list, policy)[k] == Fate::Kept,
    ensures
        survivors(list, policy, n) == list.take(n),
    decreases n,
{
    if n > 0 {
        kept_lists_survive(list, policy, n - 1);
        let order = newest_first(list);
        ranking::every_list_has_a_ranking(file_order(list));
        assert(order.contains((n - 1) as usize));
        let k = choose|k: int| 0 <= k < order.len() && order[k] == (n - 1) as usize;
        assert(newest_first(list)[k] == n - 1 && all_fates(list, policy)[k] == Fate::Kept);
        assert(survives(list, policy, n - 1));
        assert(list.take(n) =~= list.take(n - 1).push(list[n - 1]));
    } else {
        assert(list.take(0) =~= Seq::empty());
    }
}

/// Pruning what was kept, with the same policy, drops nothing.
pub proof fn pruning_twice_drops_nothing(all: Seq<LearningModel>, policy: PrunePolicy)
    requires
        all.len() <= usize::MAX,
    ensures
        ({
            let kept = survivors(all, policy, all.len() as int);
            let n = kept.len() as int;
            &&& survivors(kept, policy, n) == kept
            &&& with_fate(kept, policy, n, Fate::Kept) == n
            &&& with_fate(kept, policy, n, Fate::Duplicate) == 0
            &&& with_fate(kept, policy, n, Fate::OverCap) == 0
            &&& stale_with(kept, policy, n, Outcome::Rejected) == 0
            &&& stale_with(kept, policy, n, Outcome::Accepted) == 0
        }),
{
    let kept = survivors(all, policy, all.len() as int);
    survivors_are_settled(all, policy, all.len() as int);
    survivors_are_the_kept(all, policy);
    if policy.max_records > 0 {
        the_cap_holds(all, policy, all.len() as int);
    }
    survivors_are_few(all, policy, all.len() as int);
    settled_lists_are_kept(kept, policy, kept.len() as int);
    kept_lists_survive(kept, policy, kept.len() as int);
    assert(kept.take(kept.len() as int) =~= kept);
}

proof fn survivors_are_few(all: Seq<LearningModel>, policy: PrunePolicy, n: int)
    requires
        0 <= n,
    ensures
        survivors(all, policy, n).len() <= n,
    decreases n,
{
    if n > 0 {
        survivors_are_few(all, policy, n - 1);
    }
}

// ---------------------------------------------------------------------------
// Who stays.
// ---------------------------------------------------------------------------

/// Record `j` is newer than record `i`: made later, or at the same time and
/// further down the file.
pub open spec fn is_newer(all: Seq<LearningModel>, j: int, i: int) -> bool {
    all[j].at_unix > all[i].at_unix || (all[j].at_unix == all[i].at_unix && j > i)
}

/// The order of the records lists each once, newer ones first.
pub proof fn newer_records_come_first(all: Seq<LearningModel>)
    requires
        all.len() <= usize::MAX,
    ensures
        newest_first(all).len() == all.len(),
        forall|k: int| 0 <= k < all.len() ==> (#[trigger] newest_first(all)[k]) < all.len(),
        forall|i: int|
            0 <= i < all.len() ==> #[trigger] newest_first(all).contains(i as usize),
        forall|a: int, b: int|
            0 <= a < b < all.len() ==> is_newer(
                all,
                (#[trigger] newest_first(all)[a]) as int,
                (#[trigger] newest_first(all)[b]) as int,
            ),
{
    let items = file_order(all);
    ranking::every_list_has_a_ranking(items);
    let order = newest_first(all);
    assert forall|a: int, b: int| 0 <= a < b < all.len() implies is_newer(
        all,
        (#[trigger] newest_first(all)[a]) as int,
        (#[trigger] newest_first(all)[b]) as int,
    ) by {
        assert(ranking::listed_before(items, order[a] as int, order[b] as int));
        assert(items[order[a] as int].index == order[a]);
        assert(items[order[b] as int].index == order[b]);
    }
}

/// A record is past its window when it is at least as old as the window of its
/// own outcome; one from the future has no age.
pub proof fn windows_go_by_outcome(l: LearningModel, policy: PrunePolicy)
    ensures
        l.outcome == Outcome::Accepted && l.at_unix <= policy.now_unix ==> (is_stale(l, policy)
            <==> policy.now_unix >= l.at_unix + policy.accepted_after_secs),
        l.outcome == Outcome::Rejected && l.at_unix <= policy.now_unix ==> (is_stale(l, policy)
            <==> policy.now_unix >= l.at_unix + policy.rejected_after_secs),
        l.at_unix > policy.now_unix && policy.accepted_after_secs > 0
            && policy.rejected_after_secs > 0 ==> !is_stale(l, policy),
{
}

/// The record is within its window, and no newer one tells of the same candidate
/// on the same creature.
pub open spec fn is_worth_keeping(all: Seq<LearningModel>, policy: PrunePolicy, i: int) -> bool {
    &&& !is_stale(all[i], policy)
    &&& forall|j: int|
        0 <= j < all.len() && #[trigger] is_newer(all, j, i) ==> all[j].id != all[i].id
            || all[j].incumbent != all[i].incumbent
}

proof fn worth_and_superseded(all: Seq<LearningModel>, policy: PrunePolicy, k: int)
    requires
        all.len() <= usize::MAX,
        0 <= k < all.len(),
    ensures
        is_worth_keeping(all, policy, newest_first(all)[k] as int) <==> !is_stale(
            all[newest_first(all)[k] as int],
            policy,
        ) && !superseded(all, newest_first(all), k),
{
    newer_records_come_first(all);
    let order = newest_first(all);
    let i = order[k] as int;
    if superseded(all, order, k) {
        let m = choose|m: int|
            0 <= m < k && same_trial(all[(#[trigger] order[m]) as int], all[order[k] as int]);
        assert(is_newer(all, order[m] as int, i));
    } else if !is_stale(all[i], policy) {
        assert forall|j: int| 0 <= j < all.len() && #[trigger] is_newer(all, j, i) implies all[j].id
            != all[i].id || all[j].incumbent != all[i].incumbent by {
            assert(order.contains(j as usize));
            let m = choose|m: int| 0 <= m < order.len() && order[m] == j as usize;
            if k < m {
                assert(is_newer(all, order[k] as int, order[m] as int));
            }
            assert(m < k);
            assert(!same_trial(all[order[m] as int], all[order[k] as int]));
        }
    }
}

proof fn fate_at(all: Seq<LearningModel>, policy: PrunePolicy, k: int)
    requires
        0 <= k < all.len(),
    ensures
        all_fates(all, policy)[k] == fates(all, policy, k + 1)[k],
        all_fates(all, policy).take(k) == fates(all, policy, k),
        fates(all, policy, k).len() == k,
{
    fates_grow(all, policy, k + 1, all.len() as int);
    fates_grow(all, policy, k, all.len() as int);
    fates_grow(all, policy, k, k);
    assert(all_fates(all, policy).take(k + 1)[k] == all_fates(all, policy)[k]);
}

proof fn keeping_never_falls(all: Seq<LearningModel>, policy: PrunePolicy, a: int, b: int)
    requires
        0 <= a <= b,
    ensures
        with_fate(all, policy, a, Fate::Kept) <= with_fate(all, policy, b, Fate::Kept),
    decreases b,
{
    if a < b {
        keeping_never_falls(all, policy, a, b - 1);
    }
}

/// Only what is worth keeping stays. Without a limit all of it stays; with one,
/// nothing newer that is worth keeping is dropped for something older, and
/// nothing is dropped before there are as many as the limit.
pub proof fn what_is_worth_keeping_stays(
    all: Seq<LearningModel>,
    policy: PrunePolicy,
    i: int,
    j: int,
)
    requires
        all.len() <= usize::MAX,
        0 <= i < all.len(),
        0 <= j < all.len(),
    ensures
        survives(all, policy, i) ==> is_worth_keeping(all, policy, i),
        policy.max_records == 0 ==> (survives(all, policy, i) <==> is_worth_keeping(
            all,
            policy,
            i,
        )),
        survives(all, policy, i) && is_worth_keeping(all, policy, j) && is_newer(all, j, i)
            ==> survives(all, policy, j),
        is_worth_keeping(all, policy, j) && !survives(all, policy, j) ==> with_fate(
            all,
            policy,
            all.len() as int,
            Fate::Kept,
        ) >= policy.max_records,
{
    let order = newest_first(all);
    let n = all.len() as int;
    newer_records_come_first(all);
    assert(order.contains(i as usize));
    assert(order.contains(j as usize));
    let a = choose|a: int| 0 <= a < order.len() && order[a] == i as usize;
    let b = choose|b: int| 0 <= b < order.len() && order[b] == j as usize;
    fate_at(all, policy, a);
    fate_at(all, policy, b);
    worth_and_superseded(all, policy, a);
    worth_and_superseded(all, policy, b);
    kept_is_counted(all, policy, a);
    kept_is_counted(all, policy, b);
    assert(survives(all, policy, i) <==> all_fates(all, policy)[a] == Fate::Kept) by {
        if survives(all, policy, i) {
            let k = choose|k: int|
                0 <= k < n && (#[trigger] order[k]) == i && all_fates(all, policy)[k] == Fate::Kept;
            if k < a {
                assert(is_newer(all, order[k] as int, order[a] as int));
            } else if a < k {
                assert(is_newer(all, order[a] as int, order[k] as int));
            }
        }
    }
    if all_fates(all, policy)[b] == Fate::Kept {
        assert(order[b] == j);
        assert(survives(all, policy, j));
    }
    if is_newer(all, j, i) && a < b {
        assert(is_newer(all, order[a] as int, order[b] as int));
    }
    if is_worth_keeping(all, policy, j) && all_fates(all, policy)[b] != Fate::Kept {
        keeping_never_falls(all, policy, b, n);
        if b <= a {
            keeping_never_falls(all, policy, b, a);
        }
    }
}

/// Survivors stand in the order of the file, and they are all there.
pub proof fn survivors_keep_the_file_order(all: Seq<LearningModel>, policy: PrunePolicy, n: int)
    requires
        0 <= n < all.len(),
    ensures
        survivors(all, policy, n + 1) == if survives(all, policy, n) {
            survivors(all, policy, n).push(all[n])
        } else {
            survivors(all, policy, n)
        },
        survives(all, policy, n) ==> survivors(all, policy, n + 1).contains(all[n]),
{
    if survives(all, policy, n) {
        let s = survivors(all, policy, n + 1);
        assert(s[s.len() - 1] == all[n]);
    }
}

} // verus!
