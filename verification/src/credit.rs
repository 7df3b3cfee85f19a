//! What follows from a judged cohort: tags that credit the winner, near-winners
//! carried into the next iteration, and verdicts for the fleet's cache.

use vstd::prelude::*;
use vstd::string::*;

use crate::candidates::Candidate;
use crate::creature;
use crate::creature::Creature;
use crate::floats::Double;
use crate::journal::{CandidateRecord, ExperimentRecord};
use crate::learnings::model::{Outcome, Verdict, TOOL_VERSION};
use crate::meta;
use crate::meta::{CreatureMeta, Tag, TagModel};
use crate::patch;
use crate::patch::{copy_patches, Node, Patch, PatchModel, Tree};
use crate::text;
use crate::text::decimal_text;

verus! {

/// What is said of a winner that the cohort does not hold.
pub const UNKNOWN_WINNER: &'static str = "winner id not in cohort";

/// Position of the winner in its cohort.
pub fn find_winner(candidates: &Vec<Candidate>, id: &str) -> (r: Result<usize, String>)
    ensures
        match r {
            Ok(i) => {
                &&& i < candidates@.len()
                &&& candidates@[i as int].id@ == id@
                &&& forall|k: int| 0 <= k < i ==> (#[trigger] candidates@[k]).id@ != id@
            },
            Err(m) => {
                &&& m@ == UNKNOWN_WINNER@
                &&& forall|k: int|
                    0 <= k < candidates@.len() ==> (#[trigger] candidates@[k]).id@ != id@
            },
        },
{
    let key = id.to_owned();
    let n: usize = candidates.len();
    for i in 0..n
        invariant
            n == candidates@.len(),
            key@ == id@,
            forall|k: int| 0 <= k < i ==> (#[trigger] candidates@[k]).id@ != id@,
    {
        if candidates[i].id == key {
            return Ok(i);
        }
    }
    Err(UNKNOWN_WINNER.to_owned())
}

/// The uuid of an output neuron: the outputs are the last neurons of a creature.
pub fn output_uuid(creature: &Creature, output: usize) -> (r: String)
    requires
        creature.output <= creature.neurons@.len(),
        output < creature.output,
    ensures
        r@ == creature@.neurons[creature.neurons@.len() - creature.output + output].uuid,
{
    let n: usize = creature.neurons.len();
    let at: usize = n - creature.output + output;
    assert(creature@.neurons[at as int] == creature.neurons@[at as int]@);
    creature.neurons[at].uuid.clone()
}

/// A leaf's correction as text, or the word for anything larger.
pub open spec fn side_text(side: Tree, correction: Seq<char>) -> Seq<char> {
    match side {
        Tree::Leaf { .. } => correction,
        Tree::Split { .. } => "subtree"@,
    }
}

/// The numbers of a list, separated.
pub open spec fn listed(v: Seq<usize>, n: int) -> Seq<char>
    decreases n,
{
    if n <= 0 {
        Seq::empty()
    } else if n == 1 {
        text::decimal(v[0] as nat)
    } else {
        listed(v, n - 1) + ", "@ + text::decimal(v[n - 1] as nat)
    }
}

/// The features of a tree as a list.
pub open spec fn is_feature_text(root: Tree, features: Seq<usize>) -> bool {
    &&& patch::ascending(features)
    &&& forall|f: usize|
        #![trigger features.contains(f)]
        features.contains(f) <==> root.mentions(f)
}

fn list_text(v: &Vec<usize>) -> (r: String)
    ensures
        r@ == "["@ + listed(v@, v@.len() as int) + "]"@,
{
    let n: usize = v.len();
    let mut out = "[".to_owned();
    assert("["@ + listed(v@, 0) =~= "["@);
    for i in 0..n
        invariant
            n == v@.len(),
            out@ == "["@ + listed(v@, i as int),
    {
        let ghost before = out@;
        if i > 0 {
            out.append(", ");
        }
        let digits = decimal_text(v[i] as u64);
        out.append(digits.as_str());
        assert(out@ =~= "["@ + listed(v@, i as int + 1));
    }
    out.append("]");
    out
}

/// Numbers of a stump as text.
#[derive(Debug)]
pub struct StumpTexts {
    /// Threshold of the root.
    pub threshold: String,
    /// Correction of the right leaf.
    pub right: String,
    /// Correction of the left leaf.
    pub left: String,
}

/// What a patch does, in words.
pub open spec fn described(root: Tree, texts: StumpTexts, features: Seq<usize>) -> Seq<char> {
    match root {
        Tree::Split { rule, left, right } if rule.axis_aligned() => "input-"@ + text::decimal(
            rule.terms[0].feature as nat,
        ) + " > "@ + texts.threshold@ + " ? "@ + side_text(*right, texts.right@) + " : "@
            + side_text(*left, texts.left@),
        _ => "depth "@ + text::decimal(root.depth()) + " tree over inputs ["@ + listed(
            features,
            features.len() as int,
        ) + "]"@,
    }
}

fn side_words(side: &Node, correction: &str) -> (r: String)
    ensures
        r@ == side_text(side@, correction@),
{
    match side {
        Node::Leaf { .. } => correction.to_owned(),
        Node::Split { .. } => "subtree".to_owned(),
    }
}

/// What a patch does, in words.
pub fn describe(root: &Node, texts: &StumpTexts) -> (r: String)
    requires
        root@.depth() <= usize::MAX,
    ensures
        exists|features: Seq<usize>| #[trigger]
            is_feature_text(root@, features) && r@ == described(root@, *texts, features),
{
    let features = root.features();
    assert(is_feature_text(root@, features@));
    if let Node::Split { condition, left, right } = root {
        if condition.is_axis_aligned() {
            let mut out = "input-".to_owned();
            out.append(decimal_text(condition.terms[0].feature as u64).as_str());
            out.append(" > ");
            out.append(texts.threshold.as_str());
            out.append(" ? ");
            out.append(side_words(right, texts.right.as_str()).as_str());
            out.append(" : ");
            out.append(side_words(left, texts.left.as_str()).as_str());
            assert(out@ == described(root@, *texts, features@));
            return out;
        }
    }
    let mut out = "depth ".to_owned();
    out.append(decimal_text(root.depth() as u64).as_str());
    out.append(" tree over inputs ");
    out.append(list_text(&features).as_str());
    assert(out@ =~= described(root@, *texts, features@)) by {
        reveal_strlit(" tree over inputs [");
        reveal_strlit(" tree over inputs ");
        reveal_strlit("[");
        assert(" tree over inputs ["@ =~= " tree over inputs "@ + "["@);
    }
    out
}

/// The list of a tree's features is the only one: what [`describe`] says is
/// determined.
pub proof fn descriptions_are_determined(
    root: Tree,
    texts: StumpTexts,
    a: Seq<usize>,
    b: Seq<usize>,
)
    requires
        is_feature_text(root, a),
        is_feature_text(root, b),
    ensures
        described(root, texts, a) == described(root, texts, b),
{
    assert forall|f: usize| a.contains(f) <==> b.contains(f) by {
        assert(a.contains(f) <==> root.mentions(f));
        assert(b.contains(f) <==> root.mentions(f));
    }
    patch::ascending_lists_are_determined(a, b);
}

/// Who a winner's neurons are credited to.
#[derive(Debug)]
pub struct Credit<'a> {
    /// Iteration of the acceptance.
    pub iteration: u64,
    /// Patch id.
    pub patch_id: &'a str,
    /// Strategy of the patch.
    pub strategy: &'a str,
    /// Backend of the patch.
    pub backend: &'a str,
    /// Output neuron that the patch corrects.
    pub target: &'a str,
    /// What the patch does.
    pub description: &'a str,
    /// Authoritative improvement, as text.
    pub improvement: &'a str,
}

impl<'a> Credit<'a> {
    /// What the provenance tag says.
    pub open spec fn tag_text(&self) -> Seq<char> {
        "neat_ai_forests v"@ + TOOL_VERSION@ + " iteration "@ + text::decimal(
            self.iteration as nat,
        ) + " patch "@ + self.patch_id@ + " ("@ + self.strategy@ + ", "@ + self.backend@ + ") → "@
            + self.target@ + ": "@ + self.description@ + "; Δscore "@ + self.improvement@
            + " verified by NEAT-AI-scorer"@
    }

    /// The tags of a neuron that the patch appended.
    pub open spec fn tag_list(&self) -> Seq<TagModel> {
        seq![
            TagModel { name: "forests"@, value: self.tag_text() },
            TagModel { name: "forests-patch"@, value: self.patch_id@ },
        ]
    }

    /// The tags of a neuron that the patch appended.
    pub fn tags(&self) -> (r: Vec<Tag>)
        ensures
            meta::tag_models(r@) == self.tag_list(),
    {
        let mut value = "neat_ai_forests v".to_owned();
        value.append(TOOL_VERSION);
        value.append(" iteration ");
        value.append(decimal_text(self.iteration).as_str());
        value.append(" patch ");
        value.append(self.patch_id);
        value.append(" (");
        value.append(self.strategy);
        value.append(", ");
        value.append(self.backend);
        value.append(") → ");
        value.append(self.target);
        value.append(": ");
        value.append(self.description);
        value.append("; Δscore ");
        value.append(self.improvement);
        value.append(" verified by NEAT-AI-scorer");
        let mut out: Vec<Tag> = Vec::new();
        out.push(Tag::new("forests", value.as_str()));
        out.push(Tag::new("forests-patch", self.patch_id));
        assert(meta::tag_models(out@) =~= self.tag_list());
        out
    }
}

/// A neuron's tags after the first `n` of the listed neurons were tagged.
pub open spec fn tagged(
    own: Option<Seq<TagModel>>,
    uuids: Seq<Seq<char>>,
    n: int,
    uuid: Seq<char>,
    tags: Seq<TagModel>,
) -> Option<Seq<TagModel>>
    decreases n,
{
    if n <= 0 {
        own
    } else {
        let before = tagged(own, uuids, n - 1, uuid, tags);
        if uuids[n - 1] == uuid {
            Some(
                match before {
                    Some(t) => t + tags,
                    None => tags,
                },
            )
        } else {
            before
        }
    }
}

/// Tag every neuron that a winner's patch appended.
pub fn tag_neurons(target: &mut CreatureMeta, uuids: &Vec<String>, credit: &Credit<'_>)
    requires
        old(target).well_formed(),
    ensures
        final(target).well_formed(),
        final(target).tags == old(target).tags,
        forall|u: Seq<char>| #[trigger]
            final(target).tags_of(u) == tagged(
                old(target).tags_of(u),
                text::texts(uuids@),
                uuids@.len() as int,
                u,
                credit.tag_list(),
            ),
{
    let tags = credit.tags();
    let ghost start = *target;
    let ghost names = text::texts(uuids@);
    let n: usize = uuids.len();
    for i in 0..n
        invariant
            n == uuids@.len(),
            names == text::texts(uuids@),
            meta::tag_models(tags@) == credit.tag_list(),
            target.well_formed(),
            target.tags == start.tags,
            forall|u: Seq<char>| #[trigger]
                target.tags_of(u) == tagged(
                    start.tags_of(u),
                    names,
                    i as int,
                    u,
                    credit.tag_list(),
                ),
    {
        assert(names[i as int] == uuids@[i as int]@);
        target.tag_neuron(uuids[i].as_str(), &tags);
    }
}

/// Tagging one patch's neurons touches no other neuron.
pub proof fn other_neurons_keep_their_tags(
    own: Option<Seq<TagModel>>,
    uuids: Seq<Seq<char>>,
    n: int,
    uuid: Seq<char>,
    tags: Seq<TagModel>,
)
    requires
        0 <= n <= uuids.len(),
        !uuids.contains(uuid),
    ensures
        tagged(own, uuids, n, uuid, tags) == own,
    decreases n,
{
    if n > 0 {
        other_neurons_keep_their_tags(own, uuids, n - 1, uuid, tags);
        if uuids[n - 1] == uuid {
            assert(uuids.contains(uuid));
        }
    }
}

// ---------------------------------------------------------------------------
// Near-winners.
// ---------------------------------------------------------------------------

/// A candidate is carried forward: a single patch that is not the winner and that
/// the full corpus judged better than the incumbent.
pub open spec fn is_near_winner(
    candidates: Seq<Candidate>,
    deltas: Seq<Option<Double>>,
    winner: Option<Seq<char>>,
    i: int,
) -> bool {
    &&& winner != Some(candidates[i].id@)
    &&& candidates[i].combo@.len() == 0
    &&& deltas[i] matches Some(d) && d.above(Double { bits: 0 })
}

/// The first near-winners among the first `n` candidates, at most `limit`.
pub open spec fn near_winners(
    candidates: Seq<Candidate>,
    deltas: Seq<Option<Double>>,
    winner: Option<Seq<char>>,
    limit: int,
    n: int,
) -> Seq<PatchModel>
    decreases n,
{
    if n <= 0 {
        Seq::empty()
    } else {
        let before = near_winners(candidates, deltas, winner, limit, n - 1);
        if before.len() < limit && is_near_winner(candidates, deltas, winner, n - 1) {
            before.push(candidates[n - 1].patch@)
        } else {
            before
        }
    }
}

/// The near-winners of a cohort: `deltas` holds each candidate's full score less
/// the same-call baseline, where it was scored.
pub fn runner_ups(
    candidates: &Vec<Candidate>,
    deltas: &Vec<Option<Double>>,
    winner: Option<&str>,
    limit: usize,
) -> (r: Vec<Patch>)
    requires
        deltas@.len() == candidates@.len(),
    ensures
        patch::patch_models(r@) == near_winners(
            candidates@,
            deltas@,
            (match winner {
                Some(w) => Some(w@),
                None => None,
            }),
            limit as int,
            candidates@.len() as int,
        ),
{
    let ghost best: Option<Seq<char>> = match winner {
        Some(w) => Some(w@),
        None => None,
    };
    let n: usize = candidates.len();
    let mut out: Vec<Patch> = Vec::new();
    assert(patch::patch_models(out@) =~= Seq::empty());
    for i in 0..n
        invariant
            n == candidates@.len(),
            deltas@.len() == n,
            best == (match winner {
                Some(w) => Some(w@),
                None => None,
            }),
            patch::patch_models(out@) == near_winners(
                candidates@,
                deltas@,
                best,
                limit as int,
                i as int,
            ),
    {
        let c = &candidates[i];
        let wins: bool = match winner {
            Some(w) => c.id == w.to_owned(),
            None => false,
        };
        let gains: bool = match deltas[i] {
            Some(d) => d.gt(Double::zero()),
            None => false,
        };
        let single: bool = c.combo.len() == 0;
        assert((!wins && single && gains) == is_near_winner(candidates@, deltas@, best, i as int));
        assert(out@.len() == patch::patch_models(out@).len());
        if out.len() < limit && !wins && single && gains {
            let ghost before = out@;
            let p = c.patch.clone();
            out.push(p);
            assert(patch::patch_models(out@) =~= patch::patch_models(before).push(p@));
        }
    }
    out
}

// ---------------------------------------------------------------------------
// Verdicts.
// ---------------------------------------------------------------------------

/// What the full corpus said of a candidate: only a full call judges, and only
/// the winner of the record is accepted.
pub open spec fn is_verdict(record: ExperimentRecord, c: CandidateRecord, v: Verdict) -> bool {
    &&& v.id@ == c.id@
    &&& patch::patch_models(v.patches@) == seq![c.patch@] + patch::patch_models(c.combo@)
    &&& v.outcome == if creature::maybe_text(record.winner) == Some(c.id@) {
        Outcome::Accepted
    } else {
        Outcome::Rejected
    }
    &&& c.full_delta == Some(v.delta)
}

/// The candidates of the first `n` that a full call judged.
pub open spec fn judged(candidates: Seq<CandidateRecord>, n: int) -> Seq<CandidateRecord>
    decreases n,
{
    if n <= 0 {
        Seq::empty()
    } else if candidates[n - 1].full_delta is Some {
        judged(candidates, n - 1).push(candidates[n - 1])
    } else {
        judged(candidates, n - 1)
    }
}

/// This iteration's full-corpus verdicts, in the order of its candidates.
pub fn verdicts<'a>(record: &'a ExperimentRecord) -> (r: Vec<Verdict<'a>>)
    ensures
        r@.len() == judged(record.candidates@, record.candidates@.len() as int).len(),
        forall|i: int|
            0 <= i < r@.len() ==> is_verdict(
                *record,
                judged(record.candidates@, record.candidates@.len() as int)[i],
                #[trigger] r@[i],
            ),
{
    let n: usize = record.candidates.len();
    let ghost all = record.candidates@;
    let mut out: Vec<Verdict<'a>> = Vec::new();
    for i in 0..n
        invariant
            n == record.candidates@.len(),
            all == record.candidates@,
            out@.len() == judged(all, i as int).len(),
            forall|k: int|
                0 <= k < out@.len() ==> is_verdict(
                    *record,
                    judged(all, i as int)[k],
                    #[trigger] out@[k],
                ),
    {
        let c = &record.candidates[i];
        if let Some(delta) = c.full_delta {
            let accepted: bool = match &record.winner {
                Some(w) => c.id == *w,
                None => false,
            };
            let mut patches: Vec<Patch> = Vec::new();
            patches.push(c.patch.clone());
            let ghost first = patches@;
            assert(patch::patch_models(patches@) =~= seq![c.patch@]);
            let further = copy_patches(&c.combo);
            patch::append_patches(&mut patches, &further);
            let v = Verdict {
                id: c.id.as_str(),
                patches,
                outcome: if accepted {
                    Outcome::Accepted
                } else {
                    Outcome::Rejected
                },
                delta,
            };
            let ghost before = out@;
            out.push(v);
            proof {
                assert(is_verdict(*record, *c, v));
                assert forall|k: int| 0 <= k < out@.len() implies is_verdict(
                    *record,
                    judged(all, i as int + 1)[k],
                    #[trigger] out@[k],
                ) by {
                    if k < before.len() {
                        assert(out@[k] == before[k]);
                    }
                }
            }
        }
    }
    out
}

/// A candidate is accepted at most by being the record's winner: no two verdicts
/// of different candidates are both acceptances.
pub proof fn one_candidate_is_accepted(
    record: ExperimentRecord,
    a: CandidateRecord,
    v: Verdict,
    b: CandidateRecord,
    w: Verdict,
)
    requires
        is_verdict(record, a, v),
        is_verdict(record, b, w),
        v.outcome == Outcome::Accepted,
        w.outcome == Outcome::Accepted,
    ensures
        v.id@ == w.id@,
{
}

// ---------------------------------------------------------------------------
// The tags of `best.json`.
// ---------------------------------------------------------------------------

/// A run so far, as its summary tag tells it.
#[derive(Debug)]
pub struct RunTag<'a> {
    /// Accepted winners.
    pub acceptances: u64,
    /// Iterations.
    pub iterations: u64,
    /// Strategy of the last accepted candidate, empty when there is none.
    pub last_strategy: &'a str,
    /// Output neuron of the last accepted candidate.
    pub last_target: &'a str,
    /// Opening score.
    pub opening: Double,
    /// Score.
    pub score: Double,
    /// Score, to six places.
    pub score_text: &'a str,
    /// Score less the opening score, as text.
    pub gain_text: &'a str,
}

impl<'a> RunTag<'a> {
    /// What the tag says. The gain is told when there is one.
    pub open spec fn tag_text(&self) -> Seq<char> {
        let last = if self.last_strategy@.len() == 0 {
            "none"@
        } else {
            self.last_strategy@
        };
        let line = "🌳 Forests · "@ + text::decimal(self.acceptances as nat) + " accepts / "@
            + text::decimal(self.iterations as nat) + " iters · last: "@ + last + " · 🎯 "@
            + self.last_target@ + " · score: "@ + self.score_text@;
        if self.score.above(self.opening) {
            line + " improved by "@ + self.gain_text@
        } else {
            line
        }
    }

    /// What the detail says, a line each: the count, the last acceptance and the
    /// score.
    pub open spec fn detail_text(&self) -> Seq<char> {
        let last = if self.last_strategy@.len() == 0 {
            "none"@
        } else {
            self.last_strategy@ + " on "@ + self.last_target@
        };
        let lines = "accepted: "@ + text::decimal(self.acceptances as nat) + " of "@
            + text::decimal(self.iterations as nat) + " iterations\nlast: "@ + last + "\nscore: "@
            + self.score_text@;
        if self.score.above(self.opening) {
            lines + "\nimproved by: "@ + self.gain_text@
        } else {
            lines
        }
    }

    /// Detail of a run, a line per fact.
    pub fn forests_detail(&self) -> (r: String)
        ensures
            r@ == self.detail_text(),
    {
        let mut s = "accepted: ".to_owned();
        s.append(decimal_text(self.acceptances).as_str());
        s.append(" of ");
        s.append(decimal_text(self.iterations).as_str());
        s.append(" iterations\nlast: ");
        let ghost head = s@;
        if self.last_strategy.unicode_len() == 0 {
            s.append("none");
        } else {
            s.append(self.last_strategy);
            s.append(" on ");
            s.append(self.last_target);
            assert(s@ =~= head + (self.last_strategy@ + " on "@ + self.last_target@));
        }
        s.append("\nscore: ");
        s.append(self.score_text);
        if self.score.gt(self.opening) {
            s.append("\nimproved by: ");
            s.append(self.gain_text);
        }
        s
    }

    /// Summary of a run in one line.
    pub fn forests_tag(&self) -> (r: String)
        ensures
            r@ == self.tag_text(),
    {
        let mut s = "🌳 Forests · ".to_owned();
        s.append(decimal_text(self.acceptances).as_str());
        s.append(" accepts / ");
        s.append(decimal_text(self.iterations).as_str());
        s.append(" iters · last: ");
        if self.last_strategy.unicode_len() == 0 {
            s.append("none");
        } else {
            s.append(self.last_strategy);
        }
        s.append(" · 🎯 ");
        s.append(self.last_target);
        s.append(" · score: ");
        s.append(self.score_text);
        if self.score.gt(self.opening) {
            s.append(" improved by ");
            s.append(self.gain_text);
        }
        s
    }
}

/// Set the tags that every written creature carries: its score, its error, the
/// run's summary and its detail.
pub fn tag_best(target: &mut CreatureMeta, score: String, error: String, run: &RunTag<'_>)
    ensures
        meta::tag_models(final(target).tags@) == meta::upserted(
            meta::upserted(
                meta::upserted(
                    meta::upserted(meta::tag_models(old(target).tags@), "score"@, score@),
                    "error"@,
                    error@,
                ),
                "forests"@,
                run.tag_text(),
            ),
            "forests-detail"@,
            run.detail_text(),
        ),
        final(target).neuron_tags == old(target).neuron_tags,
{
    target.upsert("score", score);
    target.upsert("error", error);
    target.upsert("forests", run.forests_tag());
    target.upsert("forests-detail", run.forests_detail());
}

/// A neuron gets the tags of a patch once for every time it is listed, behind those
/// that it had: listed once, exactly those are new.
pub proof fn listed_neurons_get_the_tags_once(
    own: Option<Seq<TagModel>>,
    uuids: Seq<Seq<char>>,
    n: int,
    uuid: Seq<char>,
    tags: Seq<TagModel>,
    at: int,
)
    requires
        0 <= at < n <= uuids.len(),
        uuids[at] == uuid,
        forall|i: int| 0 <= i < n && i != at ==> #[trigger] uuids[i] != uuid,
    ensures
        tagged(own, uuids, n, uuid, tags) matches Some(after) && {
            let had: Seq<TagModel> = match own {
                Some(t) => t,
                None => Seq::empty(),
            };
            &&& after.len() == had.len() + tags.len()
            &&& forall|i: int| 0 <= i < had.len() ==> after[i] == had[i]
            &&& forall|i: int| 0 <= i < tags.len() ==> after[had.len() + i] == tags[i]
        },
    decreases n,
{
    if at == n - 1 {
        let front = uuids.take(n - 1);
        unlisted_neurons_keep_theirs(own, uuids, n - 1, uuid, tags);
        assert(front.len() == n - 1);
    } else {
        listed_neurons_get_the_tags_once(own, uuids, n - 1, uuid, tags, at);
    }
}

proof fn unlisted_neurons_keep_theirs(
    own: Option<Seq<TagModel>>,
    uuids: Seq<Seq<char>>,
    n: int,
    uuid: Seq<char>,
    tags: Seq<TagModel>,
)
    requires
        0 <= n <= uuids.len(),
        forall|i: int| 0 <= i < n ==> #[trigger] uuids[i] != uuid,
    ensures
        tagged(own, uuids, n, uuid, tags) == own,
    decreases n,
{
    if n > 0 {
        unlisted_neurons_keep_theirs(own, uuids, n - 1, uuid, tags);
    }
}

/// The candidate at `i` is a single patch other than the winner, and the full
/// corpus scored it above the incumbent.
pub open spec fn came_close(
    candidates: Seq<Candidate>,
    deltas: Seq<Option<Double>>,
    winner: Option<Seq<char>>,
    i: int,
) -> bool {
    &&& 0 <= i < candidates.len()
    &&& deltas[i] is Some
    &&& deltas[i]->0.order() > 0
    &&& !deltas[i]->0.nan()
    &&& winner is Some ==> candidates[i].id@ != winner->0
    &&& candidates[i].combo@ =~= Seq::empty()
}

/// The patch is that of one of the first `n` candidates that came close.
pub open spec fn is_of_a_close_one(
    candidates: Seq<Candidate>,
    deltas: Seq<Option<Double>>,
    winner: Option<Seq<char>>,
    n: int,
    patch: PatchModel,
) -> bool {
    exists|i: int|
        0 <= i < n && #[trigger] came_close(candidates, deltas, winner, i) && candidates[i].patch@
            == patch
}

/// Every patch that is carried forward is that of a candidate which came close; no
/// more are carried than the limit allows; and one that came close is left out only
/// when the limit is reached.
pub proof fn near_winners_came_close(
    candidates: Seq<Candidate>,
    deltas: Seq<Option<Double>>,
    winner: Option<Seq<char>>,
    limit: int,
    n: int,
)
    requires
        0 <= n <= candidates.len(),
        candidates.len() == deltas.len(),
        0 <= limit,
    ensures
        near_winners(candidates, deltas, winner, limit, n).len() <= limit,
        forall|k: int|
            0 <= k < near_winners(candidates, deltas, winner, limit, n).len()
                ==> is_of_a_close_one(
                candidates,
                deltas,
                winner,
                n,
                #[trigger] near_winners(candidates, deltas, winner, limit, n)[k],
            ),
        near_winners(candidates, deltas, winner, limit, n).len() < limit ==> forall|i: int|
            0 <= i < n && #[trigger] came_close(candidates, deltas, winner, i) ==> near_winners(
                candidates,
                deltas,
                winner,
                limit,
                n,
            ).contains(candidates[i].patch@),
    decreases n,
{
    if n > 0 {
        near_winners_came_close(candidates, deltas, winner, limit, n - 1);
        let before = near_winners(candidates, deltas, winner, limit, n - 1);
        let all = near_winners(candidates, deltas, winner, limit, n);
        assert(is_near_winner(candidates, deltas, winner, n - 1) <==> came_close(
            candidates,
            deltas,
            winner,
            n - 1,
        ));
        assert forall|k: int| 0 <= k < all.len() implies is_of_a_close_one(
            candidates,
            deltas,
            winner,
            n,
            #[trigger] all[k],
        ) by {
            if k < before.len() {
                assert(all[k] == before[k]);
                let i = choose|i: int|
                    0 <= i < n - 1 && #[trigger] came_close(candidates, deltas, winner, i)
                        && before[k] == candidates[i].patch@;
                assert(came_close(candidates, deltas, winner, i));
            } else {
                assert(came_close(candidates, deltas, winner, n - 1));
            }
        }
        if all.len() < limit {
            assert forall|i: int| 0 <= i < n && #[trigger] came_close(
                candidates,
                deltas,
                winner,
                i,
            ) implies all.contains(candidates[i].patch@) by {
                if i < n - 1 {
                    let k = choose|k: int|
                        0 <= k < before.len() && before[k] == candidates[i].patch@;
                    assert(all[k] == before[k]);
                } else {
                    assert(all[before.len() as int] == candidates[i].patch@);
                }
            }
        }
    }
}

/// The verdicts are those of the candidates that the full corpus scored, and of no
/// others, in their order.
pub proof fn every_scored_candidate_is_judged(candidates: Seq<CandidateRecord>)
    ensures
        judged(candidates, candidates.len() as int) == candidates.filter(
            |c: CandidateRecord| c.full_delta is Some,
        ),
{
    judged_so_far(candidates, candidates.len() as int);
    assert(candidates.take(candidates.len() as int) =~= candidates);
}

proof fn judged_so_far(candidates: Seq<CandidateRecord>, n: int)
    requires
        0 <= n <= candidates.len(),
    ensures
        judged(candidates, n) == candidates.take(n).filter(
            |c: CandidateRecord| c.full_delta is Some,
        ),
    decreases n,
{
    reveal(Seq::filter);
    if n > 0 {
        judged_so_far(candidates, n - 1);
        assert(candidates.take(n).drop_last() =~= candidates.take(n - 1));
        assert(candidates.take(n).last() == candidates[n - 1]);
    }
}

/// A verdict accepts the record's winner and rejects every other candidate; it
/// carries the candidate's own patches, the leading one first, and its own gain.
pub proof fn verdicts_follow_the_record(record: ExperimentRecord, c: CandidateRecord, v: Verdict)
    requires
        is_verdict(record, c, v),
    ensures
        v.outcome == Outcome::Accepted <==> (record.winner matches Some(w) && w@ == c.id@),
        v.outcome == Outcome::Accepted || v.outcome == Outcome::Rejected,
        v.id@ == c.id@,
        c.full_delta is Some && c.full_delta->0 == v.delta,
        v.patches@.len() == c.combo@.len() + 1,
        v.patches@[0]@ == c.patch@,
        forall|i: int| 0 <= i < c.combo@.len() ==> v.patches@[i + 1]@ == (#[trigger] c.combo@[i])@,
{
    let models = patch::patch_models(v.patches@);
    assert(models.len() == v.patches@.len());
    assert(models[0] == v.patches@[0]@);
    assert forall|i: int| 0 <= i < c.combo@.len() implies v.patches@[i + 1]@ == (
    #[trigger] c.combo@[i])@ by {
        assert(models[i + 1] == v.patches@[i + 1]@);
        assert(models[i + 1] == patch::patch_models(c.combo@)[i]);
    }
}

/// The credit of a neuron names the patch twice: in a tag of its own, and in the
/// sentence that goes with it.
pub proof fn credit_names_the_patch(credit: Credit)
    ensures
        credit.tag_list().len() == 2,
        credit.tag_list()[1].value == credit.patch_id@,
        text::has_part(credit.tag_list()[0].value, credit.patch_id@),
        text::has_part(credit.tag_list()[0].value, credit.strategy@),
        text::has_part(credit.tag_list()[0].value, credit.target@),
        text::has_part(credit.tag_list()[0].value, credit.description@),
        text::has_part(credit.tag_list()[0].value, credit.improvement@),
        credit.tag_list()[0].name != credit.tag_list()[1].name,
{
    reveal_strlit("forests");
    reveal_strlit("forests-patch");
    assert("forests"@.len() != "forests-patch"@.len());
    let whole = credit.tag_text();
    let head = "neat_ai_forests v"@ + TOOL_VERSION@ + " iteration "@ + text::decimal(
        credit.iteration as nat,
    ) + " patch "@;
    let to_id = head + credit.patch_id@;
    let to_strategy = to_id + " ("@;
    let to_target = to_strategy + credit.strategy@ + ", "@ + credit.backend@ + ") → "@;
    let to_words = to_target + credit.target@ + ": "@;
    let to_gain = to_words + credit.description@ + "; Δscore "@;
    assert(whole.subrange(head.len() as int, (head.len() + credit.patch_id@.len()) as int)
        =~= credit.patch_id@);
    assert(whole.subrange(
        to_strategy.len() as int,
        (to_strategy.len() + credit.strategy@.len()) as int,
    ) =~= credit.strategy@);
    assert(whole.subrange(
        to_target.len() as int,
        (to_target.len() + credit.target@.len()) as int,
    ) =~= credit.target@);
    assert(whole.subrange(
        to_words.len() as int,
        (to_words.len() + credit.description@.len()) as int,
    ) =~= credit.description@);
    assert(whole.subrange(
        to_gain.len() as int,
        (to_gain.len() + credit.improvement@.len()) as int,
    ) =~= credit.improvement@);
}

/// The gain of a run is told only when its score is above the one it opened with.
pub proof fn only_gains_are_told(run: RunTag, other: RunTag)
    requires
        run.acceptances == other.acceptances,
        run.iterations == other.iterations,
        run.last_strategy@ == other.last_strategy@,
        run.last_target@ == other.last_target@,
        run.score_text@ == other.score_text@,
        run.score.above(run.opening),
        !other.score.above(other.opening),
    ensures
        run.tag_text() == other.tag_text() + " improved by "@ + run.gain_text@,
        run.detail_text() == other.detail_text() + "\nimproved by: "@ + run.gain_text@,
{
}

/// A stump is told as a question: whether its input is above the threshold, then the
/// right leaf, then the left one. A side that is no leaf is called a subtree.
pub proof fn stumps_are_told_as_questions(
    rule: patch::Rule,
    left: Tree,
    right: Tree,
    texts: StumpTexts,
    features: Seq<usize>,
)
    requires
        rule.axis_aligned(),
    ensures
        ({
            let told = described(
                Tree::Split { rule, left: Box::new(left), right: Box::new(right) },
                texts,
                features,
            );
            let question = "input-"@ + text::decimal(rule.terms[0].feature as nat) + " > "@
                + texts.threshold@ + " ? "@;
            &&& left is Leaf && right is Leaf ==> told == question + texts.right@ + " : "@
                + texts.left@
            &&& left is Split && right is Leaf ==> told == question + texts.right@ + " : "@
                + "subtree"@
            &&& left is Leaf && right is Split ==> told == question + "subtree"@ + " : "@
                + texts.left@
        }),
{
}

/// A run that accepted nothing names no strategy, and any other names that of its
/// last acceptance, with its target.
pub proof fn the_last_acceptance_is_told(run: RunTag)
    ensures
        run.last_strategy@ == Seq::<char>::empty() ==> {
            &&& text::has_part(run.tag_text(), " iters · last: none · 🎯 "@)
            &&& text::has_part(run.detail_text(), "\nlast: none\nscore: "@)
        },
        text::has_part(run.tag_text(), run.last_strategy@),
        text::has_part(run.tag_text(), run.last_target@),
        text::has_part(run.detail_text(), run.last_strategy@),
        run.last_strategy@.len() > 0 ==> text::has_part(
            run.detail_text(),
            run.last_strategy@ + " on "@ + run.last_target@,
        ),
        text::has_part(run.tag_text(), run.score_text@),
        text::has_part(run.detail_text(), run.score_text@),
{
    reveal_strlit("none");
    reveal_strlit(" iters · last: ");
    reveal_strlit(" · 🎯 ");
    reveal_strlit(" iters · last: none · 🎯 ");
    reveal_strlit(" iterations\nlast: ");
    reveal_strlit("\nscore: ");
    reveal_strlit("\nlast: none\nscore: ");
    let last = if run.last_strategy@.len() == 0 {
        "none"@
    } else {
        run.last_strategy@
    };
    let tag = run.tag_text();
    let t0 = "🌳 Forests · "@ + text::decimal(run.acceptances as nat) + " accepts / "@
        + text::decimal(run.iterations as nat);
    let t1 = t0 + " iters · last: "@;
    let t2 = t1 + last + " · 🎯 "@;
    let t3 = t2 + run.last_target@ + " · score: "@;
    assert(tag.subrange(t2.len() as int, (t2.len() + run.last_target@.len()) as int)
        =~= run.last_target@);
    assert(tag.subrange(t3.len() as int, (t3.len() + run.score_text@.len()) as int)
        =~= run.score_text@);
    assert(tag.subrange(t1.len() as int, (t1.len() + run.last_strategy@.len()) as int)
        =~= run.last_strategy@);
    let detail = run.detail_text();
    let d0 = "accepted: "@ + text::decimal(run.acceptances as nat) + " of "@ + text::decimal(
        run.iterations as nat,
    );
    let d1 = d0 + " iterations\nlast: "@;
    let whole = if run.last_strategy@.len() == 0 {
        "none"@
    } else {
        run.last_strategy@ + " on "@ + run.last_target@
    };
    let d2 = d1 + whole + "\nscore: "@;
    assert(detail.subrange(d1.len() as int, (d1.len() + run.last_strategy@.len()) as int)
        =~= run.last_strategy@);
    assert(detail.subrange(d2.len() as int, (d2.len() + run.score_text@.len()) as int)
        =~= run.score_text@);
    if run.last_strategy@.len() > 0 {
        assert(detail.subrange(d1.len() as int, (d1.len() + whole.len()) as int) =~= whole);
    } else {
        let said = " iters · last: none · 🎯 "@;
        assert(said =~= " iters · last: "@ + "none"@ + " · 🎯 "@);
        assert(tag.subrange(t0.len() as int, (t0.len() + said.len()) as int) =~= said);
        let line = "\nlast: none\nscore: "@;
        let at = d0.len() as int + 11;
        assert(detail.subrange(at, (at + line.len()) as int) =~= line);
    }
}

} // verus!
