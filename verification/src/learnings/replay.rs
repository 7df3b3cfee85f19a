//! Replay policy: which records a run offers back to a creature, and which
//! failures it keeps out of the cohort.

use vstd::prelude::*;
use vstd::string::*;

use super::model;
use super::model::{Learning, LearningModel, Outcome};
use super::prune;
use crate::creature::{Creature, NeuronModel};
use crate::floats::Double;
use crate::histogram;
use crate::ranking;
use crate::ranking::Ranked;
use crate::text;
use crate::text::{chars_of, contains_text, find_char, is_text_before, starts_with};

verus! {

/// Failures older than this may be tried again (7 days).
pub const DEFAULT_RETRY_AFTER_SECS: u64 = 604_800;

/// Which records a run is willing to replay.
#[derive(Debug, Clone, Copy)]
pub struct ReplayConfig {
    /// Most candidates replayed in one iteration.
    pub max: usize,
    /// A candidate that only ever failed is tried again once its most recent
    /// failure is this old.
    pub retry_after_secs: u64,
    /// Now, in Unix seconds.
    pub now_unix: u64,
}

fn elapsed(now: u64, at: u64) -> (r: u64)
    ensures
        r == prune::age(now, at),
{
    if now >= at {
        now - at
    } else {
        0
    }
}

/// The fleet has proved that the candidate does not work, and has not yet waited
/// long enough to try again: it only ever failed, and lately.
pub open spec fn is_known_failure(
    all: Seq<LearningModel>,
    cfg: ReplayConfig,
    id: Seq<char>,
) -> bool {
    &&& forall|i: int|
        0 <= i < all.len() && (#[trigger] all[i]).id == id ==> all[i].outcome == Outcome::Rejected
    &&& exists|i: int|
        0 <= i < all.len() && (#[trigger] all[i]).id == id && prune::age(
            cfg.now_unix,
            all[i].at_unix,
        ) < cfg.retry_after_secs
}

fn ever_worked(all: &Vec<Learning>, id: &String) -> (r: bool)
    ensures
        r == exists|i: int|
            0 <= i < all@.len() && (#[trigger] all@[i]).id@ == id@ && all@[i].outcome
                == Outcome::Accepted,
{
    for i in 0..all.len()
        invariant
            forall|k: int|
                0 <= k < i && (#[trigger] all@[k]).id@ == id@ ==> all@[k].outcome
                    != Outcome::Accepted,
    {
        if all[i].id == *id && all[i].outcome == Outcome::Accepted {
            return true;
        }
    }
    false
}

/// Ids of the candidates that are known not to work. Each is listed once. A
/// candidate that ever cleared the full scorer is never among them.
pub fn known_failures(all: &Vec<Learning>, cfg: &ReplayConfig) -> (r: Vec<String>)
    ensures
        text::texts(r@).no_duplicates(),
        forall|id: Seq<char>|
            #![trigger text::texts(r@).contains(id)]
            text::texts(r@).contains(id) <==> is_known_failure(
                model::learning_models(all@),
                *cfg,
                id,
            ),
{
    let ghost records = model::learning_models(all@);
    let mut out: Vec<String> = Vec::new();
    for i in 0..all.len()
        invariant
            records == model::learning_models(all@),
            text::texts(out@).no_duplicates(),
            forall|id: Seq<char>| #[trigger]
                text::texts(out@).contains(id) ==> is_known_failure(records, *cfg, id),
            forall|k: int|
                0 <= k < i && is_known_failure(records, *cfg, (#[trigger] records[k]).id)
                    && prune::age(cfg.now_unix, records[k].at_unix) < cfg.retry_after_secs
                    ==> text::texts(out@).contains(records[k].id),
    {
        let l = &all[i];
        assert(records[i as int] == l@);
        let ghost before = text::texts(out@);
        if elapsed(cfg.now_unix, l.at_unix) < cfg.retry_after_secs && !ever_worked(all, &l.id)
            && !contains_text(&out, l.id.as_str()) {
            proof {
                assert forall|k: int|
                    0 <= k < records.len() && (
                    #[trigger] records[k]).id == l.id@ implies records[k].outcome
                    == Outcome::Rejected by {
                    assert(records[k] == all@[k]@);
                }
                assert(is_known_failure(records, *cfg, l.id@));
            }
            let ghost old_out = out@;
            out.push(l.id.clone());
            proof {
                assert(text::texts(out@) =~= before.push(l.id@));
                assert forall|id: Seq<char>| #[trigger]
                    text::texts(out@).contains(id) implies is_known_failure(records, *cfg, id) by {
                    let k = choose|k: int|
                        0 <= k < text::texts(out@).len() && text::texts(out@)[k] == id;
                    if k < before.len() {
                        assert(before[k] == id);
                        assert(before.contains(id));
                    }
                }
                assert(text::texts(out@)[before.len() as int] == l.id@);
            }
        }
        proof {
            assert forall|k: int|
                0 <= k < i + 1 && is_known_failure(records, *cfg, (#[trigger] records[k]).id)
                    && prune::age(cfg.now_unix, records[k].at_unix)
                    < cfg.retry_after_secs implies text::texts(out@).contains(records[k].id) by {
                if k < i {
                    assert(before.contains(records[k].id));
                    let m = choose|m: int| 0 <= m < before.len() && before[m] == records[k].id;
                    assert(text::texts(out@)[m] == records[k].id);
                } else {
                    assert forall|j: int|
                        0 <= j < all@.len() && (#[trigger] all@[j]).id@
                            == l.id@ implies all@[j].outcome != Outcome::Accepted by {
                        assert(records[j] == all@[j]@);
                    }
                }
            }
        }
    }
    proof {
        assert forall|id: Seq<char>|
            #![trigger text::texts(out@).contains(id)]
            is_known_failure(records, *cfg, id) implies text::texts(out@).contains(id) by {
            let k = choose|k: int|
                0 <= k < records.len() && (#[trigger] records[k]).id == id && prune::age(
                    cfg.now_unix,
                    records[k].at_unix,
                ) < cfg.retry_after_secs;
            assert(text::texts(out@).contains(records[k].id));
        }
    }
    out
}

/// The patch that a neuron's uuid says it was grafted by:
/// `forest-<patch id>-<part>`, other than the shared constants `forest-one-..`.
pub open spec fn carried_id(uuid: Seq<char>) -> Option<Seq<char>> {
    let rest = uuid.skip("forest-"@.len() as int);
    let dash = text::first_at(rest, '-', 0);
    if text::has_prefix(uuid, "forest-"@) && 0 < dash < rest.len() - 1 && rest.take(dash)
        != "one"@ {
        Some(rest.take(dash))
    } else {
        None
    }
}

/// The patch that a uuid says its neuron was grafted by.
pub fn patch_of_uuid(uuid: &str) -> (r: Option<String>)
    ensures
        match r {
            Some(id) => carried_id(uuid@) == Some(id@),
            None => carried_id(uuid@) is None,
        },
{
    if !starts_with(uuid, "forest-") {
        return None;
    }
    let from: usize = "forest-".unicode_len();
    let rest = text::chars_from(uuid, from);
    let chars = chars_of(rest.as_str());
    let dash: usize = find_char(&chars, '-');
    if dash == 0 || dash >= chars.len() - 1 {
        return None;
    }
    let id = text::first_chars(rest.as_str(), dash);
    let one = "one".to_owned();
    if id == one {
        None
    } else {
        Some(id)
    }
}

/// Some neuron says it was grafted by the patch.
pub open spec fn carries(neurons: Seq<NeuronModel>, id: Seq<char>) -> bool {
    exists|i: int| 0 <= i < neurons.len() && carried_id((#[trigger] neurons[i]).uuid) == Some(id)
}

/// Patch ids that a creature already carries, read off the uuids a graft leaves
/// behind. Each is listed once.
pub fn grafted_patch_ids(creature: &Creature) -> (r: Vec<String>)
    ensures
        text::texts(r@).no_duplicates(),
        forall|id: Seq<char>|
            #![trigger text::texts(r@).contains(id)]
            text::texts(r@).contains(id) <==> carries(creature@.neurons, id),
{
    let ghost neurons = creature@.neurons;
    let mut out: Vec<String> = Vec::new();
    for i in 0..creature.neurons.len()
        invariant
            neurons == creature@.neurons,
            text::texts(out@).no_duplicates(),
            forall|id: Seq<char>|
                #![trigger text::texts(out@).contains(id)]
                text::texts(out@).contains(id) <==> carries(neurons.take(i as int), id),
    {
        let ghost before = text::texts(out@);
        assert(neurons[i as int] == creature.neurons@[i as int]@);
        let found = patch_of_uuid(creature.neurons[i].uuid.as_str());
        if let Some(id) = found {
            if !contains_text(&out, id.as_str()) {
                out.push(id);
                assert(text::texts(out@) =~= before.push(id@));
            }
        }
        proof {
            let own = carried_id(neurons[i as int].uuid);
            let then = neurons.take(i as int);
            let now = neurons.take(i as int + 1);
            assert forall|id: Seq<char>|
                #![trigger text::texts(out@).contains(id)]
                text::texts(out@).contains(id) <==> carries(now, id) by {
                assert(before.contains(id) <==> carries(then, id));
                if carries(then, id) {
                    let k = choose|k: int|
                        0 <= k < then.len() && carried_id((#[trigger] then[k]).uuid) == Some(id);
                    assert(now[k] == then[k]);
                }
                if own == Some(id) {
                    assert(carried_id(now[i as int].uuid) == Some(id));
                    assert(carries(now, id));
                }
                if carries(now, id) && own != Some(id) {
                    let k = choose|k: int|
                        0 <= k < now.len() && carried_id((#[trigger] now[k]).uuid) == Some(id);
                    assert(then[k] == now[k]);
                }
                if before.contains(id) {
                    let m = choose|m: int| 0 <= m < before.len() && before[m] == id;
                    assert(text::texts(out@)[m] == id);
                }
                if text::texts(out@).contains(id) && !before.contains(id) {
                    let m = choose|m: int|
                        0 <= m < text::texts(out@).len() && text::texts(out@)[m] == id;
                    if m < before.len() {
                        assert(before[m] == id);
                    }
                    assert(own == Some(id));
                }
                if own == Some(id) && !before.contains(id) {
                    assert(text::texts(out@)[before.len() as int] == id);
                }
            }
        }
    }
    assert(neurons.take(neurons.len() as int) =~= neurons);
    out
}

/// A neuron that a graft named after its patch is recognised: the patch id is
/// read back off the uuid.
pub proof fn grafted_names_read_back(id: Seq<char>, part: Seq<char>)
    requires
        id.len() > 0,
        forall|i: int| 0 <= i < id.len() ==> #[trigger] id[i] != '-',
        id != "one"@,
        part.len() > 0,
    ensures
        carried_id("forest-"@ + id + "-"@ + part) == Some(id),
{
    reveal_strlit("-");
    let uuid = "forest-"@ + id + "-"@ + part;
    let n = "forest-"@.len() as int;
    assert(uuid.take(n) =~= "forest-"@);
    let rest = uuid.skip(n);
    assert(rest =~= id + "-"@ + part);
    no_dash_before(rest, id.len() as int, 0);
    assert(rest.take(id.len() as int) =~= id);
}

proof fn no_dash_before(s: Seq<char>, n: int, from: int)
    requires
        0 <= from <= n < s.len(),
        forall|i: int| 0 <= i < n ==> #[trigger] s[i] != '-',
        s[n] == '-',
    ensures
        text::first_at(s, '-', from) == n,
    decreases n - from,
{
    if from < n {
        no_dash_before(s, n, from + 1);
    }
}

/// The creature that records are chosen for.
pub struct Target {
    pub incumbent: Seq<char>,
    pub inputs: usize,
    pub outputs: usize,
}

/// Record `i` is about candidate `id` on a creature of the target's width.
pub open spec fn about(all: Seq<LearningModel>, t: Target, id: Seq<char>, i: int) -> bool {
    all[i].inputs == t.inputs && all[i].outputs == t.outputs && all[i].id == id
}

/// Record `i` opens its candidate's records.
pub open spec fn opens(all: Seq<LearningModel>, t: Target, i: int) -> bool {
    &&& all[i].inputs == t.inputs
    &&& all[i].outputs == t.outputs
    &&& forall|j: int| 0 <= j < i ==> !#[trigger] about(all, t, all[i].id, j)
}

/// The candidate was tried on the target itself.
pub open spec fn was_tried(all: Seq<LearningModel>, t: Target, id: Seq<char>) -> bool {
    exists|i: int|
        0 <= i < all.len() && #[trigger] about(all, t, id, i) && all[i].incumbent == t.incumbent
}

/// Every one of the ids is carried.
pub open spec fn all_carried(ids: Seq<Seq<char>>, carried: Seq<Seq<char>>) -> bool {
    forall|k: int| 0 <= k < ids.len() ==> carried.contains(#[trigger] ids[k])
}

/// The creature contains every patch of every record of the candidate.
pub open spec fn is_carried(
    all: Seq<LearningModel>,
    patch_ids: Seq<Seq<Seq<char>>>,
    t: Target,
    id: Seq<char>,
    carried: Seq<Seq<char>>,
) -> bool {
    forall|i: int|
        0 <= i < all.len() && #[trigger] about(all, t, id, i) ==> all_carried(
            patch_ids[i],
            carried,
        )
}

/// How many of the first `n` records are about the candidate and ended so.
pub open spec fn ended(
    all: Seq<LearningModel>,
    t: Target,
    id: Seq<char>,
    outcome: Outcome,
    n: int,
) -> int
    decreases n,
{
    if n <= 0 {
        0
    } else {
        ended(all, t, id, outcome, n - 1) + if about(all, t, id, n - 1) && all[n - 1].outcome
            == outcome {
            1int
        } else {
            0
        }
    }
}

/// Win `a` is no worse than win `b`: by score difference, then by age.
pub open spec fn no_worse(a: LearningModel, b: LearningModel) -> bool {
    a.delta.order() > b.delta.order() || (a.delta.order() == b.delta.order() && a.at_unix
        >= b.at_unix)
}

/// The best win of the candidate among the first `n` records; of equals the
/// last.
pub open spec fn best_win(all: Seq<LearningModel>, t: Target, id: Seq<char>, n: int) -> Option<int>
    decreases n,
{
    if n <= 0 {
        None
    } else if about(all, t, id, n - 1) && all[n - 1].outcome == Outcome::Accepted {
        match best_win(all, t, id, n - 1) {
            Some(b) => if no_worse(all[n - 1], all[b]) {
                Some(n - 1)
            } else {
                Some(b)
            },
            None => Some(n - 1),
        }
    } else {
        best_win(all, t, id, n - 1)
    }
}

/// The newest record of the candidate among the first `n`; of equals the last.
pub open spec fn newest(all: Seq<LearningModel>, t: Target, id: Seq<char>, n: int) -> Option<int>
    decreases n,
{
    if n <= 0 {
        None
    } else if about(all, t, id, n - 1) {
        match newest(all, t, id, n - 1) {
            Some(b) => if all[n - 1].at_unix >= all[b].at_unix {
                Some(n - 1)
            } else {
                Some(b)
            },
            None => Some(n - 1),
        }
    } else {
        newest(all, t, id, n - 1)
    }
}

/// What the records of a candidate argue for.
pub enum Standing {
    /// Nothing to offer.
    Skip,
    /// A win worth replaying: that record.
    Win(int),
    /// A failure worth retrying: that record.
    Retry(int),
}

/// What the records of a candidate argue for: a win unless it was rejected more
/// often than accepted, else its newest record once that is old enough.
pub open spec fn standing(
    all: Seq<LearningModel>,
    patch_ids: Seq<Seq<Seq<char>>>,
    t: Target,
    carried: Seq<Seq<char>>,
    cfg: ReplayConfig,
    id: Seq<char>,
) -> Standing {
    let n = all.len() as int;
    if was_tried(all, t, id) || is_carried(all, patch_ids, t, id, carried) {
        Standing::Skip
    } else if best_win(all, t, id, n) is Some && ended(all, t, id, Outcome::Rejected, n) <= ended(
        all,
        t,
        id,
        Outcome::Accepted,
        n,
    ) {
        Standing::Win(best_win(all, t, id, n)->0)
    } else if newest(all, t, id, n) is Some && prune::age(
        cfg.now_unix,
        all[newest(all, t, id, n)->0].at_unix,
    ) >= cfg.retry_after_secs {
        Standing::Retry(newest(all, t, id, n)->0)
    } else {
        Standing::Skip
    }
}

/// A win in the replay queue.
#[derive(Debug)]
pub struct Win {
    /// Which record.
    pub index: usize,
    /// Score difference.
    pub delta: Double,
    /// Candidate id.
    pub id: String,
}

impl Ranked for Win {
    /// Larger score difference first, then the id that comes first.
    open spec fn ahead(&self, other: &Win) -> bool {
        if self.delta.order() != other.delta.order() {
            self.delta.order() > other.delta.order()
        } else {
            text::text_before(self.id@, other.id@)
        }
    }

    proof fn ahead_is_asymmetric(a: Win, b: Win) {
        text::text_before_is_asymmetric(a.id@, b.id@);
    }

    proof fn not_ahead_is_transitive(a: Win, b: Win, c: Win) {
        if a.delta.order() == b.delta.order() && b.delta.order() == c.delta.order() {
            text::not_text_before_is_transitive(a.id@, b.id@, c.id@);
        }
    }

    fn is_ahead(&self, other: &Win) -> (r: bool) {
        let a: i64 = self.delta.rank();
        let b: i64 = other.delta.rank();
        if a != b {
            a > b
        } else {
            is_text_before(self.id.as_str(), other.id.as_str())
        }
    }
}

/// A failure in the retry queue.
#[derive(Debug)]
pub struct Retry {
    /// Which record.
    pub index: usize,
    /// When it failed.
    pub at: u64,
    /// Candidate id.
    pub id: String,
}

impl Ranked for Retry {
    /// Longest untried first, then the id that comes first.
    open spec fn ahead(&self, other: &Retry) -> bool {
        if self.at != other.at {
            self.at < other.at
        } else {
            text::text_before(self.id@, other.id@)
        }
    }

    proof fn ahead_is_asymmetric(a: Retry, b: Retry) {
        text::text_before_is_asymmetric(a.id@, b.id@);
    }

    proof fn not_ahead_is_transitive(a: Retry, b: Retry, c: Retry) {
        if a.at == b.at && b.at == c.at {
            text::not_text_before_is_transitive(a.id@, b.id@, c.id@);
        }
    }

    fn is_ahead(&self, other: &Retry) -> (r: bool) {
        if self.at != other.at {
            self.at < other.at
        } else {
            is_text_before(self.id.as_str(), other.id.as_str())
        }
    }
}

/// The wins among the candidates that the first `n` records open.
pub open spec fn wins(
    all: Seq<Learning>,
    patch_ids: Seq<Seq<Seq<char>>>,
    t: Target,
    carried: Seq<Seq<char>>,
    cfg: ReplayConfig,
    n: int,
) -> Seq<Win>
    decreases n,
{
    if n <= 0 {
        Seq::empty()
    } else {
        let records = model::learning_models(all);
        let before = wins(all, patch_ids, t, carried, cfg, n - 1);
        if opens(records, t, n - 1) {
            match standing(records, patch_ids, t, carried, cfg, records[n - 1].id) {
                Standing::Win(w) => before.push(
                    Win { index: w as usize, delta: all[w].delta, id: all[w].id },
                ),
                _ => before,
            }
        } else {
            before
        }
    }
}

/// The retries among the candidates that the first `n` records open.
pub open spec fn retries(
    all: Seq<Learning>,
    patch_ids: Seq<Seq<Seq<char>>>,
    t: Target,
    carried: Seq<Seq<char>>,
    cfg: ReplayConfig,
    n: int,
) -> Seq<Retry>
    decreases n,
{
    if n <= 0 {
        Seq::empty()
    } else {
        let records = model::learning_models(all);
        let before = retries(all, patch_ids, t, carried, cfg, n - 1);
        if opens(records, t, n - 1) {
            match standing(records, patch_ids, t, carried, cfg, records[n - 1].id) {
                Standing::Retry(w) => before.push(
                    Retry { index: w as usize, at: all[w].at_unix, id: all[w].id },
                ),
                _ => before,
            }
        } else {
            before
        }
    }
}

/// Which records to replay: the wins, best first, and then the retries, longest
/// untried first.
pub open spec fn replay_order(
    all: Seq<Learning>,
    patch_ids: Seq<Seq<Seq<char>>>,
    t: Target,
    carried: Seq<Seq<char>>,
    cfg: ReplayConfig,
) -> Seq<usize> {
    let n = all.len() as int;
    ranking::sorted(wins(all, patch_ids, t, carried, cfg, n)).map_values(|w: Win| w.index)
        + ranking::sorted(retries(all, patch_ids, t, carried, cfg, n)).map_values(
        |r: Retry| r.index,
    )
}

/// What is replayed.
pub open spec fn chosen(
    all: Seq<Learning>,
    patch_ids: Seq<Seq<Seq<char>>>,
    t: Target,
    carried: Seq<Seq<char>>,
    cfg: ReplayConfig,
) -> Seq<LearningModel> {
    histogram::at_most(replay_order(all, patch_ids, t, carried, cfg), cfg.max as int).map_values(
        |i: usize| all[i as int]@,
    )
}

/// The ids of the patches of each record.
pub open spec fn id_lists(patch_ids: Seq<Vec<String>>) -> Seq<Seq<Seq<char>>> {
    patch_ids.map_values(|ids: Vec<String>| text::texts(ids@))
}

/// The creature that records are chosen for.
#[derive(Debug)]
pub struct Incoming<'a> {
    /// Checksum of the creature.
    pub incumbent: &'a str,
    /// Its input width.
    pub inputs: usize,
    /// Its output width.
    pub outputs: usize,
}

impl<'a> Incoming<'a> {
    /// The same in ghost terms.
    pub open spec fn target(&self) -> Target {
        Target { incumbent: self.incumbent@, inputs: self.inputs, outputs: self.outputs }
    }

    fn is_about(&self, l: &Learning, id: &String) -> (r: bool)
        ensures
            r == (l.inputs == self.inputs && l.outputs == self.outputs && l.id@ == id@),
    {
        l.inputs == self.inputs && l.outputs == self.outputs && l.id == *id
    }

    fn is_opened_by(&self, all: &Vec<Learning>, i: usize) -> (r: bool)
        requires
            i < all@.len(),
        ensures
            r == opens(model::learning_models(all@), self.target(), i as int),
    {
        let ghost records = model::learning_models(all@);
        let l = &all[i];
        assert(records[i as int] == l@);
        if l.inputs != self.inputs || l.outputs != self.outputs {
            return false;
        }
        for j in 0..i
            invariant
                i < all@.len(),
                records == model::learning_models(all@),
                *l == all@[i as int],
                records[i as int] == l@,
                forall|k: int|
                    0 <= k < j ==> !#[trigger] about(records, self.target(), l.id@, k),
        {
            assert(records[j as int] == all@[j as int]@);
            if self.is_about(&all[j], &l.id) {
                assert(about(records, self.target(), records[i as int].id, j as int));
                return false;
            }
        }
        true
    }
}

/// What the records of a candidate argue for, with the record.
#[derive(Debug, Clone, Copy)]
enum Advice {
    Skip,
    Win(usize),
    Retry(usize),
}

fn all_are_carried(ids: &Vec<String>, carried: &Vec<String>) -> (r: bool)
    ensures
        r == all_carried(text::texts(ids@), text::texts(carried@)),
{
    for k in 0..ids.len()
        invariant
            forall|j: int|
                0 <= j < k ==> text::texts(carried@).contains(#[trigger] text::texts(ids@)[j]),
    {
        assert(text::texts(ids@)[k as int] == ids@[k as int]@);
        if !contains_text(carried, ids[k].as_str()) {
            return false;
        }
    }
    true
}

fn advise(
    all: &Vec<Learning>,
    patch_ids: &Vec<Vec<String>>,
    to: &Incoming<'_>,
    carried: &Vec<String>,
    cfg: &ReplayConfig,
    id: &String,
) -> (r: Advice)
    requires
        patch_ids@.len() == all@.len(),
    ensures
        match r {
            Advice::Skip => standing(
                model::learning_models(all@),
                id_lists(patch_ids@),
                to.target(),
                text::texts(carried@),
                *cfg,
                id@,
            ) is Skip,
            Advice::Win(w) => w < all@.len() && standing(
                model::learning_models(all@),
                id_lists(patch_ids@),
                to.target(),
                text::texts(carried@),
                *cfg,
                id@,
            ) == Standing::Win(w as int),
            Advice::Retry(w) => w < all@.len() && standing(
                model::learning_models(all@),
                id_lists(patch_ids@),
                to.target(),
                text::texts(carried@),
                *cfg,
                id@,
            ) == Standing::Retry(w as int),
        },
{
    let ghost records = model::learning_models(all@);
    let ghost lists = id_lists(patch_ids@);
    let ghost t = to.target();
    let ghost names = text::texts(carried@);
    let incumbent = to.incumbent.to_owned();
    let mut tried = false;
    let mut carried_whole = true;
    let mut accepted: usize = 0;
    let mut rejected: usize = 0;
    let mut best: Option<usize> = None;
    let mut last: Option<usize> = None;
    for i in 0..all.len()
        invariant
            patch_ids@.len() == all@.len(),
            records == model::learning_models(all@),
            lists == id_lists(patch_ids@),
            t == to.target(),
            names == text::texts(carried@),
            incumbent@ == t.incumbent,
            tried == exists|k: int|
                0 <= k < i && #[trigger] about(records, t, id@, k) && records[k].incumbent
                    == t.incumbent,
            carried_whole == forall|k: int|
                0 <= k < i && #[trigger] about(records, t, id@, k) ==> all_carried(
                    lists[k],
                    names,
                ),
            accepted == ended(records, t, id@, Outcome::Accepted, i as int),
            rejected == ended(records, t, id@, Outcome::Rejected, i as int),
            accepted <= i,
            rejected <= i,
            best matches Some(b) ==> b < i,
            last matches Some(b) ==> b < i,
            best_win(records, t, id@, i as int) == match best {
                Some(b) => Some(b as int),
                None => None,
            },
            newest(records, t, id@, i as int) == match last {
                Some(b) => Some(b as int),
                None => None,
            },
    {
        let l = &all[i];
        assert(records[i as int] == l@);
        assert(lists[i as int] == text::texts(patch_ids@[i as int]@));
        let mine = to.is_about(l, id);
        assert(mine == about(records, t, id@, i as int));
        if mine {
            let same = l.incumbent == incumbent;
            let whole = all_are_carried(&patch_ids[i], carried);
            tried = tried || same;
            carried_whole = carried_whole && whole;
            match l.outcome {
                Outcome::Accepted => {
                    accepted = accepted + 1;
                    let better = match best {
                        Some(b) => {
                            let x: i64 = l.delta.rank();
                            let y: i64 = all[b].delta.rank();
                            assert(records[b as int] == all@[b as int]@);
                            x > y || (x == y && l.at_unix >= all[b].at_unix)
                        },
                        None => true,
                    };
                    if better {
                        best = Some(i);
                    }
                },
                Outcome::Rejected => {
                    rejected = rejected + 1;
                },
            }
            let later = match last {
                Some(b) => {
                    assert(records[b as int] == all@[b as int]@);
                    l.at_unix >= all[b].at_unix
                },
                None => true,
            };
            if later {
                last = Some(i);
            }
        }
        proof {
            if mine && records[i as int].incumbent == t.incumbent {
                assert(about(records, t, id@, i as int));
            }
        }
    }
    proof {
        assert(tried == was_tried(records, t, id@));
        assert(carried_whole == is_carried(records, lists, t, id@, names));
    }
    if tried || carried_whole {
        return Advice::Skip;
    }
    if let Some(b) = best {
        if rejected <= accepted {
            return Advice::Win(b);
        }
    }
    if let Some(b) = last {
        assert(records[b as int] == all@[b as int]@);
        if elapsed(cfg.now_unix, all[b].at_unix) >= cfg.retry_after_secs {
            return Advice::Retry(b);
        }
    }
    Advice::Skip
}

/// Choose what to replay onto a creature: candidates that some host got past
/// the full-corpus scorer, best first, then candidates whose failures are old
/// enough to retry, the longest untried first. Skipped is what was tried on this
/// very creature, what it already contains, and what was measured on creatures
/// of another width. `patch_ids` holds the ids of each record's patches.
pub fn choose_replays(
    all: &Vec<Learning>,
    patch_ids: &Vec<Vec<String>>,
    to: &Incoming<'_>,
    carried: &Vec<String>,
    cfg: &ReplayConfig,
) -> (r: Vec<Learning>)
    requires
        patch_ids@.len() == all@.len(),
    ensures
        model::learning_models(r@) == chosen(
            all@,
            id_lists(patch_ids@),
            to.target(),
            text::texts(carried@),
            *cfg,
        ),
{
    let ghost records = model::learning_models(all@);
    let ghost lists = id_lists(patch_ids@);
    let ghost t = to.target();
    let ghost names = text::texts(carried@);
    let mut out: Vec<Learning> = Vec::new();
    if cfg.max == 0 {
        proof {
            assert(model::learning_models(out@) =~= chosen(all@, lists, t, names, *cfg));
        }
        return out;
    }
    let mut best: Vec<Win> = Vec::new();
    let mut again: Vec<Retry> = Vec::new();
    for i in 0..all.len()
        invariant
            patch_ids@.len() == all@.len(),
            records == model::learning_models(all@),
            lists == id_lists(patch_ids@),
            t == to.target(),
            names == text::texts(carried@),
            best@ == wins(all@, lists, t, names, *cfg, i as int),
            again@ == retries(all@, lists, t, names, *cfg, i as int),
            forall|k: int| 0 <= k < best@.len() ==> (#[trigger] best@[k]).index < all@.len(),
            forall|k: int| 0 <= k < again@.len() ==> (#[trigger] again@[k]).index < all@.len(),
    {
        assert(records[i as int] == all@[i as int]@);
        if to.is_opened_by(all, i) {
            match advise(all, patch_ids, to, carried, cfg, &all[i].id) {
                Advice::Skip => {},
                Advice::Win(w) => {
                    best.push(Win { index: w, delta: all[w].delta, id: all[w].id.clone() });
                },
                Advice::Retry(w) => {
                    again.push(Retry { index: w, at: all[w].at_unix, id: all[w].id.clone() });
                },
            }
        }
    }
    let best_order = ranking::ranking(&best);
    let again_order = ranking::ranking(&again);
    let mut picks: Vec<usize> = Vec::new();
    let ghost first = ranking::sorted(best@).map_values(|w: Win| w.index);
    let ghost second = ranking::sorted(again@).map_values(|w: Retry| w.index);
    for k in 0..best_order.len()
        invariant
            ranking::is_ranking(best@, best_order@),
            best_order@ == ranking::the_ranking(best@),
            first == ranking::sorted(best@).map_values(|w: Win| w.index),
            forall|k: int| 0 <= k < best@.len() ==> (#[trigger] best@[k]).index < all@.len(),
            picks@ == first.take(k as int),
            forall|k: int| 0 <= k < picks@.len() ==> #[trigger] picks@[k] < all@.len(),
    {
        picks.push(best[best_order[k]].index);
        assert(first[k as int] == best@[best_order@[k as int] as int].index);
        assert(picks@ =~= first.take(k as int + 1));
    }
    assert(picks@ =~= first);
    for k in 0..again_order.len()
        invariant
            ranking::is_ranking(again@, again_order@),
            again_order@ == ranking::the_ranking(again@),
            second == ranking::sorted(again@).map_values(|w: Retry| w.index),
            forall|k: int| 0 <= k < again@.len() ==> (#[trigger] again@[k]).index < all@.len(),
            picks@ == first + second.take(k as int),
            forall|k: int| 0 <= k < picks@.len() ==> #[trigger] picks@[k] < all@.len(),
    {
        picks.push(again[again_order[k]].index);
        assert(second[k as int] == again@[again_order@[k as int] as int].index);
        assert(picks@ =~= first + second.take(k as int + 1));
    }
    let ghost order = replay_order(all@, lists, t, names, *cfg);
    assert(picks@ =~= order);
    let total: usize = if picks.len() <= cfg.max {
        picks.len()
    } else {
        cfg.max
    };
    let ghost kept = histogram::at_most(order, cfg.max as int);
    for k in 0..total
        invariant
            total <= picks@.len(),
            picks@ == order,
            total == kept.len(),
            kept == histogram::at_most(order, cfg.max as int),
            forall|k: int| 0 <= k < picks@.len() ==> #[trigger] picks@[k] < all@.len(),
            model::learning_models(out@) == kept.take(k as int).map_values(
                |i: usize| all@[i as int]@,
            ),
    {
        let ghost before = out@;
        let l = all[picks[k]].clone();
        out.push(l);
        proof {
            assert(kept[k as int] == picks@[k as int]);
            assert(model::learning_models(out@) =~= model::learning_models(before).push(l@));
            assert(kept.take(k as int + 1).map_values(|i: usize| all@[i as int]@) =~= kept.take(
                k as int,
            ).map_values(|i: usize| all@[i as int]@).push(all@[kept[k as int] as int]@));
        }
    }
    assert(kept.take(total as int) =~= kept);
    out
}

/// A candidate that was tried on the creature itself, or that it already
/// contains, is not offered.
pub proof fn tried_and_carried_are_not_offered(
    all: Seq<LearningModel>,
    patch_ids: Seq<Seq<Seq<char>>>,
    t: Target,
    carried: Seq<Seq<char>>,
    cfg: ReplayConfig,
    id: Seq<char>,
)
    requires
        was_tried(all, t, id) || is_carried(all, patch_ids, t, id, carried),
    ensures
        standing(all, patch_ids, t, carried, cfg, id) is Skip,
{
}

/// The best win is an accepted record of the candidate that no other win beats.
pub proof fn best_win_is_unbeaten(all: Seq<LearningModel>, t: Target, id: Seq<char>, n: int)
    requires
        0 <= n <= all.len(),
    ensures
        match best_win(all, t, id, n) {
            Some(b) => {
                &&& 0 <= b < n
                &&& about(all, t, id, b)
                &&& all[b].outcome == Outcome::Accepted
                &&& forall|i: int|
                    0 <= i < n && #[trigger] about(all, t, id, i) && all[i].outcome
                        == Outcome::Accepted ==> no_worse(all[b], all[i])
            },
            None => forall|i: int|
                0 <= i < n && #[trigger] about(all, t, id, i) ==> all[i].outcome
                    != Outcome::Accepted,
        },
    decreases n,
{
    if n > 0 {
        best_win_is_unbeaten(all, t, id, n - 1);
    }
}

/// A known failure has no win to replay, whatever creature is asked for.
pub proof fn known_failures_have_no_win(
    all: Seq<LearningModel>,
    cfg: ReplayConfig,
    t: Target,
    id: Seq<char>,
)
    requires
        is_known_failure(all, cfg, id),
    ensures
        best_win(all, t, id, all.len() as int) is None,
{
    best_win_is_unbeaten(all, t, id, all.len() as int);
}

// ---------------------------------------------------------------------------
// What is offered, what is kept out, and in which order.
// ---------------------------------------------------------------------------

/// A candidate that ever worked is no known failure; one that only ever failed
/// is, exactly as long as some failure is younger than the wait.
pub proof fn failures_are_known_for_a_while(
    all: Seq<LearningModel>,
    cfg: ReplayConfig,
    id: Seq<char>,
    i: int,
)
    requires
        0 <= i < all.len(),
        all[i].id == id,
    ensures
        all[i].outcome == Outcome::Accepted ==> !is_known_failure(all, cfg, id),
        (forall|j: int|
            0 <= j < all.len() && (#[trigger] all[j]).id == id ==> all[j].outcome
                != Outcome::Accepted) && cfg.now_unix < all[i].at_unix + cfg.retry_after_secs
            && cfg.retry_after_secs > 0 ==> is_known_failure(all, cfg, id),
        (forall|j: int|
            0 <= j < all.len() && (#[trigger] all[j]).id == id ==> cfg.now_unix >= all[j].at_unix
                + cfg.retry_after_secs) ==> !is_known_failure(all, cfg, id),
{
}

/// What a uuid says of its patch is what stands between `forest-` and the next
/// dash: never empty, without a dash, and not the name of the shared constants.
pub proof fn carried_ids_stand_in_the_name(uuid: Seq<char>)
    requires
        carried_id(uuid) is Some,
    ensures
        ({
            let id = carried_id(uuid)->0;
            &&& 0 < id.len()
            &&& id != "one"@
            &&& forall|i: int| 0 <= i < id.len() ==> #[trigger] id[i] != '-'
            &&& uuid.len() > "forest-"@.len() + id.len() + 1
            &&& uuid.take("forest-"@.len() as int) == "forest-"@
            &&& uuid.subrange(
                "forest-"@.len() as int,
                ("forest-"@.len() + id.len()) as int,
            ) == id
            &&& uuid[("forest-"@.len() + id.len()) as int] == '-'
        }),
{
    let p = "forest-"@.len() as int;
    let rest = uuid.skip(p);
    first_dash(rest, 0);
    let dash = text::first_at(rest, '-', 0);
    let id = rest.take(dash);
    assert(uuid.subrange(p, p + dash) =~= id);
    assert(uuid[p + dash] == rest[dash]);
    assert forall|i: int| 0 <= i < id.len() implies #[trigger] id[i] != '-' by {
        assert(rest[i] != '-');
    }
}

proof fn first_dash(s: Seq<char>, from: int)
    requires
        0 <= from <= s.len(),
    ensures
        from <= text::first_at(s, '-', from) <= s.len(),
        text::first_at(s, '-', from) < s.len() ==> s[text::first_at(s, '-', from)] == '-',
        forall|i: int| from <= i < text::first_at(s, '-', from) ==> #[trigger] s[i] != '-',
    decreases s.len() - from,
{
    if from < s.len() && s[from] != '-' {
        first_dash(s, from + 1);
    }
}

/// The newest record is about the candidate, and none about it is newer.
pub proof fn newest_is_not_outdone(all: Seq<LearningModel>, t: Target, id: Seq<char>, n: int)
    requires
        0 <= n <= all.len(),
    ensures
        match newest(all, t, id, n) {
            Some(b) => 0 <= b < n && about(all, t, id, b) && forall|i: int|
                0 <= i < n && #[trigger] about(all, t, id, i) ==> all[i].at_unix <= all[b].at_unix,
            None => forall|i: int| 0 <= i < n ==> !#[trigger] about(all, t, id, i),
        },
    decreases n,
{
    if n > 0 {
        newest_is_not_outdone(all, t, id, n - 1);
    }
}

/// The wins and failures of a candidate are its records that ended so.
pub proof fn endings_are_counted(
    all: Seq<LearningModel>,
    t: Target,
    id: Seq<char>,
    outcome: Outcome,
    n: int,
)
    requires
        0 <= n <= all.len(),
    ensures
        ended(all, t, id, outcome, n) == all.take(n).filter(
            |l: LearningModel|
                l.id == id && l.inputs == t.inputs && l.outputs == t.outputs && l.outcome
                    == outcome,
        ).len(),
    decreases n,
{
    reveal(Seq::filter);
    if n > 0 {
        endings_are_counted(all, t, id, outcome, n - 1);
        assert(all.take(n).drop_last() =~= all.take(n - 1));
        assert(all.take(n).last() == all[n - 1]);
    }
}

/// A record is about a candidate when it has its name and was measured on a
/// creature of the same width.
pub proof fn records_are_about_their_own(
    all: Seq<LearningModel>,
    t: Target,
    id: Seq<char>,
    i: int,
)
    requires
        0 <= i < all.len(),
    ensures
        about(all, t, id, i) <==> all[i].id == id && all[i].inputs == t.inputs && all[i].outputs
            == t.outputs,
        about(all, t, id, i) && all[i].incumbent == t.incumbent ==> was_tried(all, t, id),
{
}

/// What is offered is new to the creature. As a win it is offered exactly when
/// some host had it accepted and it failed no more often than it worked; else
/// it is retried once its newest record is old enough, and not before.
pub proof fn standings_follow_the_record(
    all: Seq<LearningModel>,
    patch_ids: Seq<Seq<Seq<char>>>,
    t: Target,
    carried: Seq<Seq<char>>,
    cfg: ReplayConfig,
    id: Seq<char>,
)
    ensures
        ({
            let n = all.len() as int;
            let s = standing(all, patch_ids, t, carried, cfg, id);
            let fresh = !was_tried(all, t, id) && !is_carried(all, patch_ids, t, id, carried);
            let worked = exists|i: int|
                0 <= i < n && #[trigger] about(all, t, id, i) && all[i].outcome
                    == Outcome::Accepted;
            let wins = ended(all, t, id, Outcome::Accepted, n);
            let losses = ended(all, t, id, Outcome::Rejected, n);
            &&& s is Win <==> fresh && worked && losses <= wins
            &&& s matches Standing::Win(w) ==> {
                &&& 0 <= w < n && about(all, t, id, w) && all[w].outcome == Outcome::Accepted
                &&& forall|i: int|
                    0 <= i < n && #[trigger] about(all, t, id, i) && all[i].outcome
                        == Outcome::Accepted ==> all[i].delta.order() <= all[w].delta.order()
            }
            &&& s matches Standing::Retry(w) ==> {
                &&& fresh && !(worked && losses <= wins)
                &&& 0 <= w < n && about(all, t, id, w)
                &&& forall|i: int|
                    0 <= i < n && #[trigger] about(all, t, id, i) ==> all[i].at_unix
                        <= all[w].at_unix
                &&& cfg.retry_after_secs == 0 || cfg.now_unix >= all[w].at_unix
                    + cfg.retry_after_secs
            }
            &&& s is Skip && fresh ==> forall|i: int|
                0 <= i < n && #[trigger] about(all, t, id, i) ==> exists|j: int|
                    0 <= j < n && #[trigger] about(all, t, id, j) && cfg.now_unix < all[j].at_unix
                        + cfg.retry_after_secs
        }),
{
    let n = all.len() as int;
    best_win_is_unbeaten(all, t, id, n);
    newest_is_not_outdone(all, t, id, n);
    let s = standing(all, patch_ids, t, carried, cfg, id);
    if let Some(b) = best_win(all, t, id, n) {
        assert(about(all, t, id, b));
    }
    if s is Skip && !was_tried(all, t, id) && !is_carried(all, patch_ids, t, id, carried) {
        assert forall|i: int| 0 <= i < n && #[trigger] about(all, t, id, i) implies exists|j: int|
            0 <= j < n && #[trigger] about(all, t, id, j) && cfg.now_unix < all[j].at_unix
                + cfg.retry_after_secs by {
            let b = newest(all, t, id, n)->0;
            assert(about(all, t, id, b));
        }
    }
}

/// Entry of a queue: the record that its candidate's standing names, of a
/// candidate that no other entry is about.
proof fn wins_are_standing(
    all: Seq<Learning>,
    patch_ids: Seq<Seq<Seq<char>>>,
    t: Target,
    carried: Seq<Seq<char>>,
    cfg: ReplayConfig,
    n: int,
)
    requires
        0 <= n <= all.len() <= usize::MAX,
    ensures
        ({
            let records = model::learning_models(all);
            let w = wins(all, patch_ids, t, carried, cfg, n);
            let r = retries(all, patch_ids, t, carried, cfg, n);
            &&& w.len() <= n && r.len() <= n
            &&& forall|k: int|
                0 <= k < w.len() ==> {
                    let e = #[trigger] w[k];
                    &&& e.index < all.len()
                    &&& e.delta == records[e.index as int].delta
                    &&& e.id@ == records[e.index as int].id
                    &&& standing(records, patch_ids, t, carried, cfg, e.id@) == Standing::Win(
                        e.index as int,
                    )
                }
            &&& forall|k: int|
                0 <= k < r.len() ==> {
                    let e = #[trigger] r[k];
                    &&& e.index < all.len()
                    &&& e.at == records[e.index as int].at_unix
                    &&& e.id@ == records[e.index as int].id
                    &&& standing(records, patch_ids, t, carried, cfg, e.id@) == Standing::Retry(
                        e.index as int,
                    )
                }
        }),
    decreases n,
{
    let records = model::learning_models(all);
    if n > 0 {
        wins_are_standing(all, patch_ids, t, carried, cfg, n - 1);
        let id = records[n - 1].id;
        standings_follow_the_record(records, patch_ids, t, carried, cfg, id);
        match standing(records, patch_ids, t, carried, cfg, id) {
            Standing::Win(w) => {
                assert(about(records, t, id, w));
                assert(records[w] == all[w]@);
            },
            Standing::Retry(w) => {
                assert(about(records, t, id, w));
                assert(records[w] == all[w]@);
            },
            Standing::Skip => {},
        }
    }
}

proof fn opened_candidates_are_queued(
    all: Seq<Learning>,
    patch_ids: Seq<Seq<Seq<char>>>,
    t: Target,
    carried: Seq<Seq<char>>,
    cfg: ReplayConfig,
    n: int,
    i: int,
)
    requires
        0 <= i < n <= all.len() <= usize::MAX,
        opens(model::learning_models(all), t, i),
    ensures
        ({
            let records = model::learning_models(all);
            let s = standing(records, patch_ids, t, carried, cfg, records[i].id);
            &&& s matches Standing::Win(w) ==> exists|k: int|
                0 <= k < wins(all, patch_ids, t, carried, cfg, n).len() && (#[trigger] wins(
                    all,
                    patch_ids,
                    t,
                    carried,
                    cfg,
                    n,
                )[k]).index == w
            &&& s matches Standing::Retry(w) ==> exists|k: int|
                0 <= k < retries(all, patch_ids, t, carried, cfg, n).len() && (#[trigger] retries(
                    all,
                    patch_ids,
                    t,
                    carried,
                    cfg,
                    n,
                )[k]).index == w
        }),
    decreases n,
{
    let records = model::learning_models(all);
    let id = records[i].id;
    standings_follow_the_record(records, patch_ids, t, carried, cfg, id);
    let (a, b) = (
        wins(all, patch_ids, t, carried, cfg, n - 1),
        retries(all, patch_ids, t, carried, cfg, n - 1),
    );
    let (c, d) = (
        wins(all, patch_ids, t, carried, cfg, n),
        retries(all, patch_ids, t, carried, cfg, n),
    );
    if i < n - 1 {
        opened_candidates_are_queued(all, patch_ids, t, carried, cfg, n - 1, i);
        match standing(records, patch_ids, t, carried, cfg, id) {
            Standing::Win(w) => {
                let k = choose|k: int| 0 <= k < a.len() && (#[trigger] a[k]).index == w;
                assert(c[k] == a[k]);
            },
            Standing::Retry(w) => {
                let k = choose|k: int| 0 <= k < b.len() && (#[trigger] b[k]).index == w;
                assert(d[k] == b[k]);
            },
            Standing::Skip => {},
        }
    } else {
        match standing(records, patch_ids, t, carried, cfg, id) {
            Standing::Win(w) => {
                assert(about(records, t, id, w));
                assert(c[a.len() as int].index == w);
            },
            Standing::Retry(w) => {
                assert(about(records, t, id, w));
                assert(d[b.len() as int].index == w);
            },
            Standing::Skip => {},
        }
    }
}

/// What is replayed is a record on file, measured on creatures of the same
/// width, of a candidate that is new to the creature; there is no more of it
/// than asked for. Wins stand in front, by score difference, and behind them
/// what failed, the longest untried first.
pub proof fn replays_are_in_order(
    all: Seq<Learning>,
    patch_ids: Seq<Seq<Seq<char>>>,
    t: Target,
    carried: Seq<Seq<char>>,
    cfg: ReplayConfig,
)
    requires
        all.len() <= usize::MAX,
    ensures
        ({
            let records = model::learning_models(all);
            let got = chosen(all, patch_ids, t, carried, cfg);
            let is_win = |l: LearningModel|
                standing(records, patch_ids, t, carried, cfg, l.id) is Win;
            &&& got.len() <= cfg.max
            &&& forall|k: int|
                0 <= k < got.len() ==> {
                    let l = #[trigger] got[k];
                    &&& records.contains(l)
                    &&& l.inputs == t.inputs && l.outputs == t.outputs
                    &&& l.incumbent != t.incumbent
                    &&& is_win(l) ==> l.outcome == Outcome::Accepted
                }
            &&& forall|a: int, b: int|
                #![trigger got[a], got[b]]
                0 <= a < b < got.len() ==> {
                    &&& is_win(got[b]) ==> is_win(got[a]) && got[a].delta.order()
                        >= got[b].delta.order()
                    &&& !is_win(got[a]) ==> !is_win(got[b]) && got[a].at_unix <= got[b].at_unix
                }
        }),
{
    let records = model::learning_models(all);
    let n = all.len() as int;
    let w = wins(all, patch_ids, t, carried, cfg, n);
    let r = retries(all, patch_ids, t, carried, cfg, n);
    wins_are_standing(all, patch_ids, t, carried, cfg, n);
    ranking::every_list_has_a_ranking(w);
    ranking::every_list_has_a_ranking(r);
    let (ow, or) = (ranking::the_ranking(w), ranking::the_ranking(r));
    ranking::sorted_is_in_order(w, ow);
    ranking::sorted_is_in_order(r, or);
    let (sw, sr) = (ranking::sorted(w), ranking::sorted(r));
    let order = replay_order(all, patch_ids, t, carried, cfg);
    let got = chosen(all, patch_ids, t, carried, cfg);
    let is_win = |l: LearningModel| standing(records, patch_ids, t, carried, cfg, l.id) is Win;
    assert forall|k: int| 0 <= k < got.len() implies {
        let l = #[trigger] got[k];
        &&& records.contains(l)
        &&& l.inputs == t.inputs && l.outputs == t.outputs
        &&& l.incumbent != t.incumbent
        &&& is_win(l) ==> l.outcome == Outcome::Accepted
        &&& is_win(l) == (k < sw.len())
        &&& k < sw.len() ==> l.delta == sw[k].delta
        &&& k >= sw.len() ==> l.at_unix == sr[k - sw.len()].at
    } by {
        let l = got[k];
        let at = order[k] as int;
        if k < sw.len() {
            assert(sw[k] == w[ow[k] as int]);
            assert(order[k] == sw[k].index);
        } else {
            let j = k - sw.len();
            assert(sr[j] == r[or[j] as int]);
            assert(order[k] == sr[j].index);
        }
        assert(l == all[at]@);
        assert(records[at] == l);
        standings_follow_the_record(records, patch_ids, t, carried, cfg, l.id);
        assert(about(records, t, l.id, at));
        if l.incumbent == t.incumbent {
            assert(was_tried(records, t, l.id));
        }
    }
    assert forall|a: int, b: int|
        #![trigger got[a], got[b]]
        0 <= a < b < got.len() implies {
        &&& is_win(got[b]) ==> is_win(got[a]) && got[a].delta.order() >= got[b].delta.order()
        &&& !is_win(got[a]) ==> !is_win(got[b]) && got[a].at_unix <= got[b].at_unix
    } by {
        if b < sw.len() {
            assert(!sw[b].ahead(&sw[a]));
        } else if a >= sw.len() {
            assert(!sr[b - sw.len()].ahead(&sr[a - sw.len()]));
        }
    }
}

/// With room for all of them, every candidate that its records argue for is
/// replayed.
pub proof fn everything_argued_for_is_replayed(
    all: Seq<Learning>,
    patch_ids: Seq<Seq<Seq<char>>>,
    t: Target,
    carried: Seq<Seq<char>>,
    cfg: ReplayConfig,
    i: int,
)
    requires
        all.len() <= usize::MAX,
        0 <= i < all.len(),
        opens(model::learning_models(all), t, i),
        replay_order(all, patch_ids, t, carried, cfg).len() <= cfg.max,
    ensures
        ({
            let records = model::learning_models(all);
            let got = chosen(all, patch_ids, t, carried, cfg);
            match standing(records, patch_ids, t, carried, cfg, records[i].id) {
                Standing::Win(w) => got.contains(records[w]),
                Standing::Retry(w) => got.contains(records[w]),
                Standing::Skip => true,
            }
        }),
{
    let records = model::learning_models(all);
    let n = all.len() as int;
    let w = wins(all, patch_ids, t, carried, cfg, n);
    let r = retries(all, patch_ids, t, carried, cfg, n);
    wins_are_standing(all, patch_ids, t, carried, cfg, n);
    opened_candidates_are_queued(all, patch_ids, t, carried, cfg, n, i);
    ranking::every_list_has_a_ranking(w);
    ranking::every_list_has_a_ranking(r);
    let (ow, or) = (ranking::the_ranking(w), ranking::the_ranking(r));
    ranking::sorted_is_in_order(w, ow);
    ranking::sorted_is_in_order(r, or);
    let (sw, sr) = (ranking::sorted(w), ranking::sorted(r));
    let order = replay_order(all, patch_ids, t, carried, cfg);
    let got = chosen(all, patch_ids, t, carried, cfg);
    match standing(records, patch_ids, t, carried, cfg, records[i].id) {
        Standing::Win(x) => {
            let k = choose|k: int| 0 <= k < w.len() && (#[trigger] w[k]).index == x;
            assert(ow.contains(k as usize));
            let at = choose|at: int| 0 <= at < ow.len() && ow[at] == k as usize;
            assert(sw[at] == w[k]);
            assert(order[at] == x);
            assert(got[at] == records[x]);
        },
        Standing::Retry(x) => {
            let k = choose|k: int| 0 <= k < r.len() && (#[trigger] r[k]).index == x;
            assert(or.contains(k as usize));
            let at = choose|at: int| 0 <= at < or.len() && or[at] == k as usize;
            assert(sr[at] == r[k]);
            assert(order[sw.len() + at] == x);
            assert(got[sw.len() + at] == records[x]);
        },
        Standing::Skip => {},
    }
}

/// Of wins by the same difference, and of failures equally long ago, the one whose
/// name comes first is offered first.
pub proof fn equals_are_offered_by_name(
    won: Seq<Win>,
    failed: Seq<Retry>,
    a: int,
    b: int,
    k: int,
)
    requires
        won.len() <= usize::MAX,
        failed.len() <= usize::MAX,
        0 <= a < b,
        0 <= k,
    ensures
        ({
            let x = ranking::sorted(won)[a];
            let y = ranking::sorted(won)[b];
            b < won.len() && x.delta == y.delta && k < x.id@.len() && k < y.id@.len() && (forall|
                i: int,
            |
                0 <= i < k ==> x.id@[i] == y.id@[i]) ==> x.id@[k] <= y.id@[k]
        }),
        ({
            let x = ranking::sorted(failed)[a];
            let y = ranking::sorted(failed)[b];
            b < failed.len() && x.at == y.at && k < x.id@.len() && k < y.id@.len() && (forall|
                i: int,
            |
                0 <= i < k ==> x.id@[i] == y.id@[i]) ==> x.id@[k] <= y.id@[k]
        }),
{
    ranking::every_list_has_a_ranking(won);
    ranking::sorted_is_in_order(won, ranking::the_ranking(won));
    ranking::every_list_has_a_ranking(failed);
    ranking::sorted_is_in_order(failed, ranking::the_ranking(failed));
    if b < won.len() {
        let x = ranking::sorted(won)[a];
        let y = ranking::sorted(won)[b];
        assert(!y.ahead(&x));
        if k < x.id@.len() && k < y.id@.len() && (forall|i: int|
            0 <= i < k ==> x.id@[i] == y.id@[i]) && x.id@[k] != y.id@[k] {
            text::the_first_difference_decides(y.id@, x.id@, k);
        }
    }
    if b < failed.len() {
        let x = ranking::sorted(failed)[a];
        let y = ranking::sorted(failed)[b];
        assert(!y.ahead(&x));
        if k < x.id@.len() && k < y.id@.len() && (forall|i: int|
            0 <= i < k ==> x.id@[i] == y.id@[i]) && x.id@[k] != y.id@[k] {
            text::the_first_difference_decides(y.id@, x.id@, k);
        }
    }
}

} // verus!
