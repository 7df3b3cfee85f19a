//! What one record says, and filing verdicts as records.

use vstd::prelude::*;
use vstd::string::*;

use crate::floats::Double;
use crate::patch;
use crate::patch::{Origin, Patch, PatchModel, Provenance, PATCH_FORMAT_VERSION};
use crate::text;
use crate::text::prefix_bytes;

verus! {

/// Current learnings format version.
pub const LEARNINGS_FORMAT_VERSION: u32 = 1;

/// Version of this tool, as records name it.
pub const TOOL_VERSION: &'static str = "0.1.0";

/// How a candidate ended.
#[derive(Debug, Clone, Copy, PartialEq, Eq, Structural)]
pub enum Outcome {
    /// The authoritative full-corpus scorer accepted it: a known win.
    Accepted,
    /// Fully scored and not good enough.
    Rejected,
}

/// One thing the fleet has learned: a portable candidate and how it ended.
#[derive(Debug, PartialEq)]
pub struct Learning {
    /// Format version.
    pub version: u32,
    /// Candidate identity: the patch id, or the id of a combination.
    pub id: String,
    /// The patch itself, replayable as it is onto any creature of the same
    /// width.
    pub patch: Patch,
    /// The remaining patches of a combination, in graft order.
    pub combo: Option<Vec<Patch>>,
    /// What the full-corpus scorer decided.
    pub outcome: Outcome,
    /// Score difference against the incumbent it was tried on.
    pub delta: Double,
    /// Corpus identity.
    pub corpus: String,
    /// Creature input width.
    pub inputs: usize,
    /// Creature output width.
    pub outputs: usize,
    /// Checksum of the creature it was tried on.
    pub incumbent: String,
    /// That creature's authoritative score.
    pub incumbent_score: Double,
    /// Host that tried it.
    pub host: String,
    /// When, in Unix seconds.
    pub at_unix: u64,
    /// Tool version that recorded it.
    pub tool_version: String,
    /// Free text.
    pub notes: Vec<String>,
}

/// What a [`Learning`] says.
pub struct LearningModel {
    pub version: u32,
    pub id: Seq<char>,
    pub patch: PatchModel,
    pub combo: Option<Seq<PatchModel>>,
    pub outcome: Outcome,
    pub delta: Double,
    pub corpus: Seq<char>,
    pub inputs: usize,
    pub outputs: usize,
    pub incumbent: Seq<char>,
    pub incumbent_score: Double,
    pub host: Seq<char>,
    pub at_unix: u64,
    pub tool_version: Seq<char>,
    pub notes: Seq<Seq<char>>,
}

/// The further patches of a combination.
pub open spec fn combo_model(combo: Option<Vec<Patch>>) -> Option<Seq<PatchModel>> {
    match combo {
        Some(patches) => Some(patch::patch_models(patches@)),
        None => None,
    }
}

impl View for Learning {
    type V = LearningModel;

    open spec fn view(&self) -> LearningModel {
        LearningModel {
            version: self.version,
            id: self.id@,
            patch: self.patch@,
            combo: combo_model(self.combo),
            outcome: self.outcome,
            delta: self.delta,
            corpus: self.corpus@,
            inputs: self.inputs,
            outputs: self.outputs,
            incumbent: self.incumbent@,
            incumbent_score: self.incumbent_score,
            host: self.host@,
            at_unix: self.at_unix,
            tool_version: self.tool_version@,
            notes: text::texts(self.notes@),
        }
    }
}

/// What each record says.
pub open spec fn learning_models(all: Seq<Learning>) -> Seq<LearningModel> {
    all.map_values(|l: Learning| l@)
}

impl LearningModel {
    /// Every patch of the candidate, in graft order.
    pub open spec fn members(self) -> Seq<PatchModel> {
        seq![self.patch] + match self.combo {
            Some(further) => further,
            None => Seq::empty(),
        }
    }
}

fn copy_patches(patches: &Vec<Patch>) -> (r: Vec<Patch>)
    ensures
        patch::patch_models(r@) == patch::patch_models(patches@),
{
    let mut out: Vec<Patch> = Vec::new();
    for i in 0..patches.len()
        invariant
            patch::patch_models(out@) == patch::patch_models(patches@).take(i as int),
    {
        let ghost before = out@;
        let p = patches[i].clone();
        out.push(p);
        assert(patch::patch_models(out@) =~= patch::patch_models(before).push(p@));
        assert(patch::patch_models(patches@).take(i as int + 1) =~= patch::patch_models(
            patches@,
        ).take(i as int).push(patches@[i as int]@));
    }
    assert(patch::patch_models(out@) =~= patch::patch_models(patches@));
    out
}

/// Copies of the strings.
pub(crate) fn copy_texts(v: &Vec<String>) -> (r: Vec<String>)
    ensures
        text::texts(r@) == text::texts(v@),
{
    let mut out: Vec<String> = Vec::new();
    for i in 0..v.len()
        invariant
            text::texts(out@) == text::texts(v@).take(i as int),
    {
        let ghost before = out@;
        out.push(v[i].clone());
        assert(text::texts(out@) =~= text::texts(before).push(v@[i as int]@));
        assert(text::texts(v@).take(i as int + 1) =~= text::texts(v@).take(i as int).push(
            v@[i as int]@,
        ));
    }
    assert(text::texts(out@) =~= text::texts(v@));
    out
}

impl Clone for Learning {
    fn clone(&self) -> (r: Learning)
        ensures
            r@ == self@,
    {
        Learning {
            version: self.version,
            id: self.id.clone(),
            patch: self.patch.clone(),
            combo: match &self.combo {
                Some(patches) => Some(copy_patches(patches)),
                None => None,
            },
            outcome: self.outcome,
            delta: self.delta,
            corpus: self.corpus.clone(),
            inputs: self.inputs,
            outputs: self.outputs,
            incumbent: self.incumbent.clone(),
            incumbent_score: self.incumbent_score,
            host: self.host.clone(),
            at_unix: self.at_unix,
            tool_version: self.tool_version.clone(),
            notes: copy_texts(&self.notes),
        }
    }
}

/// What the outcome is called in a replay note.
pub open spec fn outcome_word(outcome: Outcome) -> Seq<char> {
    match outcome {
        Outcome::Accepted => "accepted"@,
        Outcome::Rejected => "rejected"@,
    }
}

/// The note that says where a replayed patch comes from. `delta` is the score
/// difference as text.
pub open spec fn replay_note(l: LearningModel, delta: Seq<char>) -> Seq<char> {
    "replayed from "@ + l.host + " on "@ + text::before_byte(l.incumbent, 12) + " ("@
        + outcome_word(l.outcome) + " "@ + delta + ")"@
}

/// A patch of a record, to be grafted again: the tree is untouched, and its
/// provenance says that it came from the cache.
pub open spec fn replayed(
    l: LearningModel,
    p: PatchModel,
    incumbent: Seq<char>,
    delta: Seq<char>,
) -> PatchModel {
    PatchModel {
        version: PATCH_FORMAT_VERSION,
        output: p.output,
        root: p.root,
        provenance: Origin {
            strategy: "replay"@,
            backend: "learnings"@,
            predicted_gain: p.provenance.predicted_gain,
            affected_records: p.provenance.affected_records,
            search_records: p.provenance.search_records,
            incumbent_checksum: incumbent,
            seed: p.provenance.seed,
            notes: seq![replay_note(l, delta), "origin strategy "@ + p.provenance.strategy]
                + p.provenance.notes,
        },
    }
}

impl Learning {
    /// Every patch of the candidate, in graft order.
    pub fn patches(&self) -> (r: Vec<&Patch>)
        ensures
            r@.len() == self@.members().len(),
            forall|i: int| 0 <= i < r@.len() ==> (#[trigger] r@[i])@ == self@.members()[i],
    {
        let mut out: Vec<&Patch> = Vec::new();
        out.push(&self.patch);
        if let Some(further) = &self.combo {
            assert(self@.members() =~= seq![self.patch@] + patch::patch_models(further@));
            for i in 0..further.len()
                invariant
                    self@.members() == seq![self.patch@] + patch::patch_models(further@),
                    out@.len() == i + 1,
                    forall|k: int|
                        0 <= k < out@.len() ==> (#[trigger] out@[k])@ == self@.members()[k],
            {
                out.push(&further[i]);
                assert(self@.members()[i + 1] == further@[i as int]@);
            }
        }
        out
    }

    fn note(&self, delta: &str) -> (r: String)
        requires
            text::splits_at_byte(self.incumbent@, 12),
        ensures
            r@ == replay_note(self@, delta@),
    {
        let mut note = "replayed from ".to_owned();
        note.append(self.host.as_str());
        note.append(" on ");
        note.append(prefix_bytes(self.incumbent.as_str(), 12).as_str());
        note.append(" (");
        note.append(
            match self.outcome {
                Outcome::Accepted => "accepted",
                Outcome::Rejected => "rejected",
            },
        );
        note.append(" ");
        note.append(delta);
        note.append(")");
        note
    }

    /// The candidate as patches to graft again, with provenance rewritten to
    /// say honestly that it came from the cache and not from this run's search.
    /// `delta` is the score difference as text.
    pub fn replay(&self, incumbent: &str, delta: &str) -> (r: Vec<Patch>)
        requires
            text::splits_at_byte(self.incumbent@, 12),
        ensures
            patch::patch_models(r@) == self@.members().map_values(
                |p: PatchModel| replayed(self@, p, incumbent@, delta@),
            ),
    {
        let members = self.patches();
        let ghost all = self@.members();
        let ghost again = |p: PatchModel| replayed(self@, p, incumbent@, delta@);
        let mut out: Vec<Patch> = Vec::new();
        for i in 0..members.len()
            invariant
                text::splits_at_byte(self.incumbent@, 12),
                all == self@.members(),
                again == (|p: PatchModel| replayed(self@, p, incumbent@, delta@)),
                members@.len() == all.len(),
                forall|k: int| 0 <= k < members@.len() ==> (#[trigger] members@[k])@ == all[k],
                patch::patch_models(out@) == all.take(i as int).map_values(again),
        {
            let p = members[i];
            assert(p@ == all[i as int]);
            let mut notes: Vec<String> = Vec::new();
            notes.push(self.note(delta));
            let mut origin = "origin strategy ".to_owned();
            origin.append(p.provenance.strategy.as_str());
            notes.push(origin);
            let ghost head = seq![
                replay_note(self@, delta@),
                "origin strategy "@ + p.provenance.strategy@,
            ];
            assert(text::texts(notes@) =~= head);
            for k in 0..p.provenance.notes.len()
                invariant
                    text::texts(notes@) == head + text::texts(p.provenance.notes@).take(k as int),
            {
                let ghost before = notes@;
                notes.push(p.provenance.notes[k].clone());
                assert(text::texts(notes@) =~= text::texts(before).push(
                    p.provenance.notes@[k as int]@,
                ));
                assert(text::texts(p.provenance.notes@).take(k as int + 1) =~= text::texts(
                    p.provenance.notes@,
                ).take(k as int).push(p.provenance.notes@[k as int]@));
            }
            assert(text::texts(notes@) =~= head + text::texts(p.provenance.notes@));
            let copy = Patch::new(
                p.output,
                p.root.clone(),
                Provenance {
                    strategy: "replay".to_owned(),
                    backend: "learnings".to_owned(),
                    predicted_gain: p.provenance.predicted_gain,
                    affected_records: p.provenance.affected_records,
                    search_records: p.provenance.search_records,
                    incumbent_checksum: incumbent.to_owned(),
                    seed: p.provenance.seed,
                    notes,
                },
            );
            let ghost before = out@;
            out.push(copy);
            proof {
                assert(copy@ == again(all[i as int]));
                assert(patch::patch_models(out@) =~= patch::patch_models(before).push(copy@));
                assert(all.take(i as int + 1).map_values(again) =~= all.take(i as int).map_values(
                    again,
                ).push(again(all[i as int])));
            }
        }
        assert(all.take(all.len() as int) =~= all);
        out
    }
}

/// What one full-corpus verdict looked like, before it is filed.
#[derive(Debug)]
pub struct Verdict<'a> {
    /// Candidate id.
    pub id: &'a str,
    /// The candidate's patches, in graft order.
    pub patches: Vec<Patch>,
    /// Accepted or rejected.
    pub outcome: Outcome,
    /// Score difference against the incumbent.
    pub delta: Double,
}

/// Where and when a batch of verdicts was reached.
#[derive(Debug)]
pub struct Context {
    /// Corpus identity.
    pub corpus: String,
    /// Creature input width.
    pub inputs: usize,
    /// Creature output width.
    pub outputs: usize,
    /// Checksum of the creature the verdicts were reached against.
    pub incumbent: String,
    /// That creature's authoritative score.
    pub incumbent_score: Double,
    /// Host recording them.
    pub host: String,
    /// Now, in Unix seconds.
    pub at_unix: u64,
}

/// A patch with its run-local provenance notes dropped.
pub open spec fn trimmed_patch(p: PatchModel) -> PatchModel {
    PatchModel { provenance: Origin { notes: Seq::empty(), ..p.provenance }, ..p }
}

/// A record of the candidate on the creature exists.
pub open spec fn is_known(known: Seq<LearningModel>, id: Seq<char>, incumbent: Seq<char>) -> bool {
    exists|i: int|
        0 <= i < known.len() && (#[trigger] known[i]).id == id && known[i].incumbent == incumbent
}

/// The record of a verdict.
pub open spec fn record_of(v: Verdict, ctx: Context) -> LearningModel {
    let trimmed = patch::patch_models(v.patches@).map_values(|p: PatchModel| trimmed_patch(p));
    LearningModel {
        version: LEARNINGS_FORMAT_VERSION,
        id: v.id@,
        patch: trimmed[0],
        combo: if trimmed.len() > 1 {
            Some(trimmed.skip(1))
        } else {
            None
        },
        outcome: v.outcome,
        delta: v.delta,
        corpus: ctx.corpus@,
        inputs: ctx.inputs,
        outputs: ctx.outputs,
        incumbent: ctx.incumbent@,
        incumbent_score: ctx.incumbent_score,
        host: ctx.host@,
        at_unix: ctx.at_unix,
        tool_version: TOOL_VERSION@,
        notes: Seq::empty(),
    }
}

/// The records of the first `n` verdicts: without those that are known for the
/// same candidate on the same creature, and without empty candidates.
pub open spec fn filed(
    verdicts: Seq<Verdict>,
    n: int,
    ctx: Context,
    known: Seq<LearningModel>,
) -> Seq<LearningModel>
    decreases n,
{
    if n <= 0 {
        Seq::empty()
    } else if is_known(known, verdicts[n - 1].id@, ctx.incumbent@) || verdicts[n
        - 1].patches@.len() == 0 {
        filed(verdicts, n - 1, ctx, known)
    } else {
        filed(verdicts, n - 1, ctx, known).push(record_of(verdicts[n - 1], ctx))
    }
}

fn trimmed(p: &Patch) -> (r: Patch)
    ensures
        r@ == trimmed_patch(p@),
{
    let mut out = p.clone();
    out.provenance.notes = Vec::new();
    assert(text::texts(out.provenance.notes@) =~= Seq::empty());
    out
}

fn knows(known: &Vec<Learning>, id: &str, incumbent: &String) -> (r: bool)
    ensures
        r == is_known(learning_models(known@), id@, incumbent@),
{
    let key = id.to_owned();
    for i in 0..known.len()
        invariant
            key@ == id@,
            forall|k: int|
                #![trigger known@[k]]
                0 <= k < i ==> known@[k].id@ != id@ || known@[k].incumbent@ != incumbent@,
    {
        if known[i].id == key && known[i].incumbent == *incumbent {
            assert(learning_models(known@)[i as int] == known@[i as int]@);
            return true;
        }
    }
    assert forall|k: int| 0 <= k < known@.len() implies !((#[trigger] learning_models(
        known@,
    )[k]).id == id@ && learning_models(known@)[k].incumbent == incumbent@) by {
        assert(learning_models(known@)[k] == known@[k]@);
    }
    false
}

fn file_one(v: &Verdict<'_>, ctx: &Context) -> (r: Learning)
    requires
        v.patches@.len() > 0,
    ensures
        r@ == record_of(*v, *ctx),
{
    let ghost whole = patch::patch_models(v.patches@).map_values(
        |p: PatchModel| trimmed_patch(p),
    );
    let first = trimmed(&v.patches[0]);
    let mut combo: Vec<Patch> = Vec::new();
    assert(patch::patch_models(combo@) =~= whole.subrange(1, 1));
    for i in 1..v.patches.len()
        invariant
            1 <= i <= v.patches@.len(),
            whole == patch::patch_models(v.patches@).map_values(
                |p: PatchModel| trimmed_patch(p),
            ),
            combo@.len() == i - 1,
            patch::patch_models(combo@) == whole.subrange(1, i as int),
    {
        let ghost before = combo@;
        let p = trimmed(&v.patches[i]);
        combo.push(p);
        assert(patch::patch_models(combo@) =~= patch::patch_models(before).push(p@));
        assert(whole[i as int] == p@);
        assert(whole.subrange(1, i as int + 1) =~= whole.subrange(1, i as int).push(
            whole[i as int],
        ));
    }
    assert(whole.subrange(1, whole.len() as int) =~= whole.skip(1));
    let further = if combo.len() == 0 {
        None
    } else {
        Some(combo)
    };
    let notes: Vec<String> = Vec::new();
    assert(text::texts(notes@) =~= Seq::empty());
    Learning {
        version: LEARNINGS_FORMAT_VERSION,
        id: v.id.to_owned(),
        patch: first,
        combo: further,
        outcome: v.outcome,
        delta: v.delta,
        corpus: ctx.corpus.clone(),
        inputs: ctx.inputs,
        outputs: ctx.outputs,
        incumbent: ctx.incumbent.clone(),
        incumbent_score: ctx.incumbent_score,
        host: ctx.host.clone(),
        at_unix: ctx.at_unix,
        tool_version: TOOL_VERSION.to_owned(),
        notes,
    }
}

/// File verdicts as records, dropping anything `known` already records for the
/// same candidate on the same creature.
pub fn file_verdicts(verdicts: &Vec<Verdict<'_>>, ctx: &Context, known: &Vec<Learning>) -> (r: Vec<
    Learning,
>)
    ensures
        learning_models(r@) == filed(
            verdicts@,
            verdicts@.len() as int,
            *ctx,
            learning_models(known@),
        ),
{
    let mut out: Vec<Learning> = Vec::new();
    assert(learning_models(out@) =~= Seq::empty());
    for i in 0..verdicts.len()
        invariant
            learning_models(out@) == filed(
                verdicts@,
                i as int,
                *ctx,
                learning_models(known@),
            ),
    {
        let v = &verdicts[i];
        if !knows(known, v.id, &ctx.incumbent) && v.patches.len() > 0 {
            let l = file_one(v, ctx);
            let ghost before = out@;
            out.push(l);
            assert(learning_models(out@) =~= learning_models(before).push(l@));
        }
    }
    out
}

/// Verdicts that were filed are not filed again on the same creature.
pub proof fn filing_twice_adds_nothing(
    verdicts: Seq<Verdict>,
    n: int,
    ctx: Context,
    known: Seq<LearningModel>,
)
    requires
        0 <= n <= verdicts.len(),
    ensures
        filed(verdicts, n, ctx, known + filed(verdicts, verdicts.len() as int, ctx, known)).len()
            == 0,
    decreases n,
{
    if n > 0 {
        let all = verdicts.len() as int;
        let later = known + filed(verdicts, all, ctx, known);
        filing_twice_adds_nothing(verdicts, n - 1, ctx, known);
        let v = verdicts[n - 1];
        if v.patches@.len() > 0 && !is_known(known, v.id@, ctx.incumbent@) {
            let k = filed_somewhere(verdicts, n, all, ctx, known);
            assert(later[known.len() + k] == record_of(v, ctx));
            assert(is_known(later, v.id@, ctx.incumbent@));
        } else if is_known(known, v.id@, ctx.incumbent@) {
            let k = choose|k: int|
                0 <= k < known.len() && (#[trigger] known[k]).id == v.id@ && known[k].incumbent
                    == ctx.incumbent@;
            assert(later[k] == known[k]);
            assert(is_known(later, v.id@, ctx.incumbent@));
        }
    }
}

proof fn filed_somewhere(
    verdicts: Seq<Verdict>,
    n: int,
    all: int,
    ctx: Context,
    known: Seq<LearningModel>,
) -> (k: int)
    requires
        0 < n <= all <= verdicts.len(),
        verdicts[n - 1].patches@.len() > 0,
        !is_known(known, verdicts[n - 1].id@, ctx.incumbent@),
    ensures
        0 <= k < filed(verdicts, all, ctx, known).len(),
        filed(verdicts, all, ctx, known)[k] == record_of(verdicts[n - 1], ctx),
    decreases all,
{
    if all == n {
        filed(verdicts, all, ctx, known).len() - 1
    } else {
        filed_somewhere(verdicts, n, all - 1, ctx, known)
    }
}

/// Replaying a record that was just filed gives back every tree of the verdict,
/// in graft order and on the same output.
pub proof fn filed_trees_replay_unchanged(
    v: Verdict,
    ctx: Context,
    incumbent: Seq<char>,
    delta: Seq<char>,
    i: int,
)
    requires
        0 <= i < v.patches@.len(),
    ensures
        record_of(v, ctx).members().len() == v.patches@.len(),
        replayed(record_of(v, ctx), record_of(v, ctx).members()[i], incumbent, delta).root
            == v.patches@[i].root@,
        replayed(record_of(v, ctx), record_of(v, ctx).members()[i], incumbent, delta).output
            == v.patches@[i].output,
{
    let trimmed = patch::patch_models(v.patches@).map_values(|p: PatchModel| trimmed_patch(p));
    assert(record_of(v, ctx).members() =~= trimmed);
    assert(trimmed[i] == trimmed_patch(v.patches@[i]@));
}

/// Every verdict on a candidate that has patches and is not on file for the
/// creature is filed as it was reached, in order; no other is.
pub proof fn new_verdicts_are_filed(
    verdicts: Seq<Verdict>,
    n: int,
    ctx: Context,
    known: Seq<LearningModel>,
)
    requires
        0 <= n < verdicts.len(),
    ensures
        ({
            let v = verdicts[n];
            let before = filed(verdicts, n, ctx, known);
            let after = filed(verdicts, n + 1, ctx, known);
            let on_file = exists|i: int|
                0 <= i < known.len() && (#[trigger] known[i]).id == v.id@ && known[i].incumbent
                    == ctx.incumbent@;
            &&& on_file || v.patches@.len() == 0 ==> after == before
            &&& !on_file && v.patches@.len() > 0 ==> {
                let l = after.last();
                &&& after.len() == before.len() + 1
                &&& after.drop_last() == before
                &&& l.id == v.id@ && l.outcome == v.outcome && l.delta == v.delta
                &&& l.incumbent == ctx.incumbent@ && l.incumbent_score == ctx.incumbent_score
                &&& l.corpus == ctx.corpus@ && l.host == ctx.host@ && l.at_unix == ctx.at_unix
                &&& l.inputs == ctx.inputs && l.outputs == ctx.outputs
                &&& l.members().len() == v.patches@.len()
                &&& forall|i: int|
                    0 <= i < v.patches@.len() ==> {
                        let m = #[trigger] l.members()[i];
                        let p = v.patches@[i]@;
                        &&& m.root == p.root && m.output == p.output
                        &&& m.provenance.strategy == p.provenance.strategy
                        &&& m.provenance.predicted_gain == p.provenance.predicted_gain
                        &&& m.provenance.notes.len() == 0
                    }
            }
        }),
{
    let v = verdicts[n];
    if v.patches@.len() > 0 {
        let l = record_of(v, ctx);
        let trimmed = patch::patch_models(v.patches@).map_values(|p: PatchModel| trimmed_patch(p));
        assert(l.members() =~= trimmed);
        let before = filed(verdicts, n, ctx, known);
        assert(before.push(l).drop_last() =~= before);
    }
}

/// Replaying keeps the tree, the output and what was measured, is for the
/// incumbent asked for, and puts its own notes before those of the patch.
pub proof fn replays_keep_what_was_measured(
    l: LearningModel,
    p: PatchModel,
    incumbent: Seq<char>,
    delta: Seq<char>,
)
    ensures
        ({
            let r = replayed(l, p, incumbent, delta);
            &&& r.root == p.root && r.output == p.output
            &&& r.provenance.predicted_gain == p.provenance.predicted_gain
            &&& r.provenance.affected_records == p.provenance.affected_records
            &&& r.provenance.search_records == p.provenance.search_records
            &&& r.provenance.seed == p.provenance.seed
            &&& r.provenance.incumbent_checksum == incumbent
            &&& r.provenance.notes.len() == p.provenance.notes.len() + 2
            &&& r.provenance.notes.skip(2) == p.provenance.notes
        }),
{
    let r = replayed(l, p, incumbent, delta);
    assert(r.provenance.notes.skip(2) =~= p.provenance.notes);
}

/// The patches of a candidate are its primary patch and the others behind it.
pub proof fn members_are_in_graft_order(l: LearningModel)
    ensures
        l.members()[0] == l.patch,
        l.combo matches Some(further) ==> l.members().skip(1) == further,
        l.combo is None ==> l.members().len() == 1,
{
    if let Some(further) = l.combo {
        assert(l.members().skip(1) =~= further);
    }
}

} // verus!
