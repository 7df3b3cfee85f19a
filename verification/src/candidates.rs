//! Candidate population generation.
//!
//! Turns search discoveries (stumps, trees, oblique splits) into patches:
//! several leaf magnitudes around the analytical optimum, one-sided variants
//! where a side can be exactly zero, neighbouring thresholds, and deliberately
//! random stumps as first-class controls. Nothing here accepts anything.

use rand::rngs::StdRng;
use vstd::prelude::*;
use vstd::string::*;

use crate::bins::BinCache;
use crate::config::GraftConstants;
use crate::creature::Creature;
use crate::digest;
use crate::digest::sha256_hex;
use crate::floats::{Double, Single, SINGLE_ONE};
use crate::histogram::{StumpCandidate, StumpKind};
use crate::patch;
use crate::patch::{
    Condition, Node, Origin, Patch, PatchModel, Provenance, Rule, Term, Tree, PATCH_FORMAT_VERSION,
};
use crate::random::pick_below;
use crate::text;
use crate::text::{contains_text, decimal_text, first_chars};
use crate::tree::TreeCandidate;

verus! {

/// A leaf scale and the way notes write it.
#[derive(Debug)]
pub struct Scale {
    /// Factor.
    pub value: Single,
    /// The factor as text.
    pub text: String,
}

/// Generation controls.
#[derive(Debug)]
pub struct CandidateConfig {
    /// Leaf scales tried (`1.0` is the analytical optimum).
    pub magnitude_scales: Vec<Scale>,
    /// Random stumps to add.
    pub random_candidates: usize,
    /// Most candidates returned.
    pub max_candidates: usize,
    /// Search backend label for histogram discoveries.
    pub backend: String,
    /// Records searched (for provenance).
    pub search_records: u64,
    /// Neighbouring bins tried around each stump threshold (0 = off).
    pub threshold_jitter: usize,
    /// Further provenance notes from the search set.
    pub notes: Vec<String>,
    /// Whose constants a candidate's nodes hang off.
    pub graft_constants: GraftConstants,
}

/// A discovery waiting to become a candidate.
#[derive(Debug)]
pub struct Discovery {
    /// Root node (creature feature space).
    pub root: Node,
    /// Strategy label.
    pub strategy: String,
    /// Backend label.
    pub backend: String,
    /// Proxy gain.
    pub gain: Double,
    /// Affected records, whole.
    pub affected: u64,
    /// Records on the left and the right side of the root split, when known.
    pub side_records: Option<(u64, u64)>,
    /// Notes.
    pub notes: Vec<String>,
}

/// What a [`Discovery`] is.
pub struct DiscoveryModel {
    pub root: Tree,
    pub strategy: Seq<char>,
    pub backend: Seq<char>,
    pub gain: Double,
    pub affected: u64,
    pub side_records: Option<(u64, u64)>,
    pub notes: Seq<Seq<char>>,
}

impl View for Discovery {
    type V = DiscoveryModel;

    open spec fn view(&self) -> DiscoveryModel {
        DiscoveryModel {
            root: self.root@,
            strategy: self.strategy@,
            backend: self.backend@,
            gain: self.gain,
            affected: self.affected,
            side_records: self.side_records,
            notes: text::texts(self.notes@),
        }
    }
}

/// An axis-aligned split with two leaves.
pub open spec fn stump_tree(feature: usize, threshold: Single, left: Single, right: Single) -> Tree {
    Tree::Split {
        rule: Rule {
            terms: seq![Term { feature, weight: Single { bits: SINGLE_ONE } }],
            threshold,
        },
        left: Box::new(Tree::Leaf { correction: left }),
        right: Box::new(Tree::Leaf { correction: right }),
    }
}

/// The kind as notes write it.
pub open spec fn kind_name(kind: StumpKind) -> Seq<char> {
    match kind {
        StumpKind::LeftOnly => "LeftOnly"@,
        StumpKind::RightOnly => "RightOnly"@,
        StumpKind::TwoLeaf => "TwoLeaf"@,
    }
}

/// Note on a stump's kind and bin.
pub open spec fn stump_note(kind: StumpKind, bin: nat) -> Seq<char> {
    "kind="@ + kind_name(kind) + " bin="@ + text::decimal(bin)
}

fn stump_note_text(kind: StumpKind, bin: usize) -> (r: String)
    ensures
        r@ == stump_note(kind, bin as nat),
{
    let mut note = "kind=".to_owned();
    note.append(
        match kind {
            StumpKind::LeftOnly => "LeftOnly",
            StumpKind::RightOnly => "RightOnly",
            StumpKind::TwoLeaf => "TwoLeaf",
        },
    );
    note.append(" bin=");
    note.append(decimal_text(bin as u64).as_str());
    note
}

/// A list that holds one string.
fn one_text(s: String) -> (r: Vec<String>)
    ensures
        text::texts(r@) == seq![s@],
{
    let mut out: Vec<String> = Vec::new();
    out.push(s);
    assert(text::texts(out@) =~= seq![s@]);
    out
}

impl Discovery {
    /// From a histogram stump, its feature already mapped to the creature's and
    /// its record counts given whole.
    pub fn from_stump(
        s: &StumpCandidate,
        feature: usize,
        backend: &str,
        affected: u64,
        sides: (u64, u64),
    ) -> (r: Discovery)
        ensures
            r@ == (DiscoveryModel {
                root: stump_tree(feature, s.threshold, s.left_correction, s.right_correction),
                strategy: "histogram-stump"@,
                backend: backend@,
                gain: s.gain,
                affected,
                side_records: Some(sides),
                notes: seq![stump_note(s.kind, s.bin as nat)],
            }),
    {
        let root = Node::stump(feature, s.threshold, s.left_correction, s.right_correction);
        Discovery {
            root,
            strategy: "histogram-stump".to_owned(),
            backend: backend.to_owned(),
            gain: s.gain,
            affected,
            side_records: Some(sides),
            notes: one_text(stump_note_text(s.kind, s.bin)),
        }
    }

    /// From a grown tree.
    pub fn from_tree(t: &TreeCandidate, backend: &str, affected: u64) -> (r: Discovery)
        ensures
            r@ == (DiscoveryModel {
                root: t.root@,
                strategy: "histogram-tree-depth"@ + text::decimal(t.depth as nat),
                backend: backend@,
                gain: t.gain,
                affected,
                side_records: None,
                notes: seq!["growth="@ + t.growth@],
            }),
    {
        let mut strategy = "histogram-tree-depth".to_owned();
        strategy.append(decimal_text(t.depth as u64).as_str());
        let mut note = "growth=".to_owned();
        note.append(t.growth.as_str());
        Discovery {
            root: t.root.clone(),
            strategy,
            backend: backend.to_owned(),
            gain: t.gain,
            affected,
            side_records: None,
            notes: one_text(note),
        }
    }

    /// From an oblique split.
    pub fn from_oblique(root: &Node, gain: Double, affected: u64, origin: &str) -> (r: Discovery)
        ensures
            r@ == (DiscoveryModel {
                root: root@,
                strategy: "oblique-split"@,
                backend: "cpu-raw-sample"@,
                gain,
                affected,
                side_records: None,
                notes: seq!["origin="@ + origin@],
            }),
    {
        let mut note = "origin=".to_owned();
        note.append(origin);
        Discovery {
            root: root.clone(),
            strategy: "oblique-split".to_owned(),
            backend: "cpu-raw-sample".to_owned(),
            gain,
            affected,
            side_records: None,
            notes: one_text(note),
        }
    }
}

/// The terms compare equal as numbers.
pub open spec fn same_terms(a: Seq<Term>, b: Seq<Term>) -> bool {
    &&& a.len() == b.len()
    &&& forall|i: int|
        #![trigger a[i]]
        0 <= i < a.len() ==> a[i].feature == b[i].feature && a[i].weight.same_value(b[i].weight)
}

/// The trees compare equal as numbers: both zeros are one value, and NaN differs
/// from itself.
pub open spec fn same_tree(a: Tree, b: Tree) -> bool
    decreases a,
{
    match (a, b) {
        (Tree::Leaf { correction: x }, Tree::Leaf { correction: y }) => x.same_value(y),
        (
            Tree::Split { rule: ra, left: la, right: ha },
            Tree::Split { rule: rb, left: lb, right: hb },
        ) => same_terms(ra.terms, rb.terms) && ra.threshold.same_value(rb.threshold) && same_tree(
            *la,
            *lb,
        ) && same_tree(*ha, *hb),
        _ => false,
    }
}

/// Some leaf is a number other than zero.
pub open spec fn moves(t: Tree) -> bool {
    exists|i: int|
        0 <= i < t.leaves().len() && !(#[trigger] t.leaves()[i]).nan() && t.leaves()[i].magnitude()
            > 0
}

/// Every leaf that is a number is zero, and there is one.
pub open spec fn is_idle(t: Tree) -> bool {
    &&& !moves(t)
    &&& exists|i: int| 0 <= i < t.leaves().len() && !(#[trigger] t.leaves()[i]).nan()
}

impl Node {
    /// `true` when the two trees compare equal as numbers.
    pub fn equals(&self, other: &Node) -> (r: bool)
        ensures
            r == same_tree(self@, other@),
        decreases self,
    {
        match (self, other) {
            (Node::Leaf { correction: x }, Node::Leaf { correction: y }) => x.eq_value(*y),
            (
                Node::Split { condition: ca, left: la, right: ha },
                Node::Split { condition: cb, left: lb, right: hb },
            ) => {
                if !ca.equals(cb) {
                    return false;
                }
                la.equals(lb) && ha.equals(hb)
            },
            _ => false,
        }
    }

    /// `true` when some leaf is a number other than zero.
    pub fn has_correction(&self) -> (r: bool)
        ensures
            r == moves(self@),
    {
        let most = self.max_abs_correction();
        let r = most.gt(Single::zero());
        proof {
            let leaves = self@.leaves();
            if r {
                let i = choose|i: int|
                    0 <= i < leaves.len() && (#[trigger] leaves[i]).magnitude() == most.bits;
                assert(!leaves[i].nan() && leaves[i].magnitude() > 0);
            }
        }
        r
    }

    /// `true` when the largest correction is zero.
    pub fn is_all_zero(&self) -> (r: bool)
        ensures
            r == is_idle(self@),
    {
        let most = self.max_abs_correction();
        let r = most.eq_value(Single::zero());
        proof {
            let leaves = self@.leaves();
            if !most.nan() {
                let i = choose|i: int|
                    0 <= i < leaves.len() && (#[trigger] leaves[i]).magnitude() == most.bits;
                assert(!leaves[i].nan());
                if !r {
                    assert(leaves[i].magnitude() > 0);
                }
            }
        }
        r
    }
}

impl Condition {
    /// `true` when the two conditions compare equal as numbers.
    pub fn equals(&self, other: &Condition) -> (r: bool)
        ensures
            r == (same_terms(self@.terms, other@.terms) && self@.threshold.same_value(
                other@.threshold,
            )),
    {
        if self.terms.len() != other.terms.len() {
            return false;
        }
        for i in 0..self.terms.len()
            invariant
                self.terms@.len() == other.terms@.len(),
                forall|j: int|
                    #![trigger self.terms@[j]]
                    0 <= j < i ==> self.terms@[j].feature == other.terms@[j].feature
                        && self.terms@[j].weight.same_value(other.terms@[j].weight),
        {
            if self.terms[i].feature != other.terms[i].feature || !self.terms[i].weight.eq_value(
                other.terms[i].weight,
            ) {
                assert(self@.terms[i as int] == self.terms@[i as int]);
                return false;
            }
        }
        self.threshold.eq_value(other.threshold)
    }
}

/// The tree with one side of its root replaced by a zero leaf, if that changes
/// it and leaves a correction.
pub open spec fn zeroed(t: Tree, right_side: bool) -> Option<Tree> {
    match t {
        Tree::Leaf { .. } => None,
        Tree::Split { rule, left, right } => {
            let zero = Tree::Leaf { correction: Single { bits: 0 } };
            let l = if right_side {
                *left
            } else {
                zero
            };
            let h = if right_side {
                zero
            } else {
                *right
            };
            if (!same_tree(*left, l) || !same_tree(*right, h)) && (moves(l) || moves(h)) {
                Some(Tree::Split { rule, left: Box::new(l), right: Box::new(h) })
            } else {
                None
            }
        },
    }
}

fn zero_side(node: &Node, right_side: bool) -> (r: Option<Node>)
    ensures
        match r {
            Some(n) => zeroed(node@, right_side) == Some(n@),
            None => zeroed(node@, right_side) is None,
        },
{
    if let Node::Split { condition, left, right } = node {
        let l: Node = if right_side {
            (**left).clone()
        } else {
            Node::leaf(Single::zero())
        };
        let h: Node = if right_side {
            Node::leaf(Single::zero())
        } else {
            (**right).clone()
        };
        if (!left.equals(&l) || !right.equals(&h)) && (l.has_correction() || h.has_correction()) {
            return Some(
                Node::Split { condition: condition.clone(), left: Box::new(l), right: Box::new(h) },
            );
        }
    }
    None
}

/// What every patch of one expansion shares.
pub struct Setting {
    pub output: usize,
    pub checksum: Seq<char>,
    pub seed: u64,
    pub search_records: u64,
    pub notes: Seq<Seq<char>>,
}

/// A patch made of a discovery: its own notes come first, then those of the
/// search set, then what is particular to the patch.
pub open spec fn derived(
    d: DiscoveryModel,
    s: Setting,
    root: Tree,
    strategy: Seq<char>,
    gain: Double,
    affected: u64,
    extra: Seq<Seq<char>>,
) -> PatchModel {
    PatchModel {
        version: PATCH_FORMAT_VERSION,
        output: s.output,
        root,
        provenance: Origin {
            strategy,
            backend: d.backend,
            predicted_gain: gain,
            affected_records: affected,
            search_records: s.search_records,
            incumbent_checksum: s.checksum,
            seed: Some(s.seed),
            notes: d.notes + s.notes + extra,
        },
    }
}

/// The analytical optimum.
pub open spec fn base_patch(d: DiscoveryModel, s: Setting) -> PatchModel {
    derived(d, s, d.root, d.strategy, d.gain, d.affected, Seq::empty())
}

/// Records that a one-sided variant affects: those of the kept side, if known.
pub open spec fn kept_records(d: DiscoveryModel, right_side: bool) -> u64 {
    match d.side_records {
        Some((l, h)) => if right_side {
            l
        } else {
            h
        },
        None => d.affected,
    }
}

/// The variant with one side zeroed, if there is one.
pub open spec fn one_sided(d: DiscoveryModel, s: Setting, right_side: bool) -> Seq<PatchModel> {
    match zeroed(d.root, right_side) {
        Some(root) => seq![
            derived(
                d,
                s,
                root,
                d.strategy + "/one-sided"@,
                d.gain,
                kept_records(d, right_side),
                seq!["zeroed="@ + if right_side { "right"@ } else { "left"@ }],
            ),
        ],
        None => Seq::empty(),
    }
}

/// One-sided variants of the first `n` discoveries, left side zeroed first.
pub open spec fn one_sided_pass(ds: Seq<DiscoveryModel>, s: Setting, n: int) -> Seq<PatchModel>
    decreases n,
{
    if n <= 0 {
        Seq::empty()
    } else {
        one_sided_pass(ds, s, n - 1) + one_sided(ds[n - 1], s, false) + one_sided(
            ds[n - 1],
            s,
            true,
        )
    }
}

/// A discovery scaled: its leaves times the factor, and the gain that predicts.
#[derive(Debug)]
pub struct ScaledCopy {
    /// Scaled leaves, left to right.
    pub leaves: Vec<Single>,
    /// Predicted gain at that scale.
    pub gain: Double,
}

/// The scaled variant of a discovery.
pub open spec fn scaled_patch(
    d: DiscoveryModel,
    s: Setting,
    scale: Seq<char>,
    copy: ScaledCopy,
) -> PatchModel {
    derived(
        d,
        s,
        d.root.with_leaves(copy.leaves@),
        d.strategy + "/scale"@,
        copy.gain,
        d.affected,
        seq!["scale="@ + scale],
    )
}

/// Scaled variants of every discovery for each of the first `n` scales, a scale
/// of one left out.
pub open spec fn scale_pass(
    ds: Seq<DiscoveryModel>,
    s: Setting,
    scales: Seq<Scale>,
    copies: Seq<Vec<ScaledCopy>>,
    n: int,
) -> Seq<PatchModel>
    decreases n,
{
    if n <= 0 {
        Seq::empty()
    } else if scales[n - 1].value.bits == SINGLE_ONE {
        scale_pass(ds, s, scales, copies, n - 1)
    } else {
        scale_pass(ds, s, scales, copies, n - 1) + Seq::new(
            ds.len(),
            |i: int| scaled_patch(ds[i], s, scales[n - 1].text@, copies[n - 1]@[i]),
        )
    }
}

/// Bins up to `j` steps away from bin `b` of `len`, nearest first, the lower of
/// a pair first.
pub open spec fn neighbours(len: int, b: int, j: int) -> Seq<int>
    decreases j,
{
    if j <= 0 {
        Seq::empty()
    } else {
        neighbours(len, b, j - 1) + (if b - j >= 0 {
            seq![b - j]
        } else {
            Seq::empty()
        }) + (if b + j < len {
            seq![b + j]
        } else {
            Seq::empty()
        })
    }
}

/// First edge equal to the threshold, as floats compare.
pub open spec fn edge_position(edges: Seq<Single>, threshold: Single, from: int) -> int
    decreases edges.len() - from,
{
    if from < 0 || from >= edges.len() {
        edges.len() as int
    } else if edges[from].same_value(threshold) {
        from
    } else {
        edge_position(edges, threshold, from + 1)
    }
}

/// The variant with the root's threshold moved to the edge after bin `nb`.
pub open spec fn jittered(
    d: DiscoveryModel,
    s: Setting,
    feature: usize,
    edges: Seq<Single>,
    nb: int,
) -> PatchModel {
    derived(
        d,
        s,
        Tree::Split {
            rule: Rule {
                terms: seq![Term { feature, weight: Single { bits: SINGLE_ONE } }],
                threshold: edges[nb],
            },
            left: d.root->left,
            right: d.root->right,
        },
        "threshold-jitter"@,
        Double { bits: 0 },
        d.affected,
        seq!["jitter-bin="@ + text::decimal(nb as nat)],
    )
}

/// The bins that threshold jitter moves a discovery to.
pub open spec fn jitter_bins(d: DiscoveryModel, edges: Seq<Seq<Single>>, jitter: int) -> Seq<int> {
    match d.root {
        Tree::Split { rule, .. } => if rule.axis_aligned() {
            let own = edges[rule.terms[0].feature as int];
            let b = edge_position(own, rule.threshold, 0);
            if b < own.len() {
                neighbours(own.len() as int, b, jitter)
            } else {
                Seq::empty()
            }
        } else {
            Seq::empty()
        },
        Tree::Leaf { .. } => Seq::empty(),
    }
}

/// The feature of an axis-aligned root.
pub open spec fn root_feature(d: DiscoveryModel) -> usize {
    d.root->rule.terms[0].feature
}

/// Jittered variants of the first `n` discoveries.
pub open spec fn jitter_pass(
    ds: Seq<DiscoveryModel>,
    s: Setting,
    edges: Seq<Seq<Single>>,
    jitter: int,
    n: int,
) -> Seq<PatchModel>
    decreases n,
{
    if n <= 0 {
        Seq::empty()
    } else {
        let d = ds[n - 1];
        let f = root_feature(d);
        jitter_pass(ds, s, edges, jitter, n - 1) + jitter_bins(d, edges, jitter).map_values(
            |nb: int| jittered(d, s, f, edges[f as int], nb),
        )
    }
}

/// All patches of an expansion, in order.
pub open spec fn expanded(
    ds: Seq<DiscoveryModel>,
    s: Setting,
    scales: Seq<Scale>,
    copies: Seq<Vec<ScaledCopy>>,
    edges: Seq<Seq<Single>>,
    jitter: int,
) -> Seq<PatchModel> {
    Seq::new(ds.len(), |i: int| base_patch(ds[i], s)) + one_sided_pass(ds, s, ds.len() as int)
        + scale_pass(ds, s, scales, copies, scales.len() as int) + jitter_pass(
        ds,
        s,
        edges,
        jitter,
        ds.len() as int,
    )
}

/// What each discovery is.
pub open spec fn discovery_models(ds: Seq<Discovery>) -> Seq<DiscoveryModel> {
    ds.map_values(|d: Discovery| d@)
}

/// Every jittered discovery splits on a feature that the cache has.
pub open spec fn features_known(ds: Seq<DiscoveryModel>, features: int) -> bool {
    forall|i: int|
        0 <= i < ds.len() ==> ((#[trigger] ds[i]).root matches Tree::Split { rule, .. }
            ==> (rule.axis_aligned() ==> rule.terms[0].feature < features))
}

/// The scaled copies fit the discoveries.
pub open spec fn copies_fit(
    ds: Seq<DiscoveryModel>,
    scales: Seq<Scale>,
    copies: Seq<Vec<ScaledCopy>>,
) -> bool {
    &&& copies.len() == scales.len()
    &&& forall|k: int, i: int|
        #![trigger copies[k]@[i]]
        0 <= k < scales.len() && scales[k].value.bits != SINGLE_ONE && 0 <= i < ds.len()
            ==> copies[k]@[i].leaves@.len() == ds[i].root.leaves().len()
    &&& forall|k: int|
        0 <= k < scales.len() && (#[trigger] scales[k]).value.bits != SINGLE_ONE
            ==> copies[k]@.len() == ds.len()
}

/// No note, or one.
pub open spec fn extra_notes(extra: Option<String>) -> Seq<Seq<char>> {
    match extra {
        Some(note) => seq![note@],
        None => Seq::empty(),
    }
}

/// Where the patches of an expansion go and what they say of themselves.
#[derive(Debug)]
pub struct Expansion<'a> {
    /// Output neuron index.
    pub output: usize,
    /// Incumbent checksum.
    pub checksum: &'a str,
    /// Seed.
    pub seed: u64,
    /// Controls.
    pub cfg: &'a CandidateConfig,
}

impl<'a> Expansion<'a> {
    /// What the patches share.
    pub open spec fn setting(&self) -> Setting {
        Setting {
            output: self.output,
            checksum: self.checksum@,
            seed: self.seed,
            search_records: self.cfg.search_records,
            notes: text::texts(self.cfg.notes@),
        }
    }

    fn make(
        &self,
        d: &Discovery,
        root: Node,
        strategy: String,
        gain: Double,
        affected: u64,
        extra: Option<String>,
    ) -> (r: Patch)
        ensures
            r@ == derived(
                d@,
                self.setting(),
                root@,
                strategy@,
                gain,
                affected,
                extra_notes(extra),
            ),
    {
        let mut notes: Vec<String> = Vec::new();
        for i in 0..d.notes.len()
            invariant
                text::texts(notes@) == text::texts(d.notes@).take(i as int),
        {
            let ghost before = notes@;
            notes.push(d.notes[i].clone());
            assert(text::texts(notes@) =~= text::texts(before).push(d.notes@[i as int]@));
            assert(text::texts(d.notes@).take(i as int + 1) =~= text::texts(d.notes@).take(
                i as int,
            ).push(d.notes@[i as int]@));
        }
        assert(text::texts(notes@) =~= text::texts(d.notes@));
        for i in 0..self.cfg.notes.len()
            invariant
                text::texts(notes@) == text::texts(d.notes@) + text::texts(self.cfg.notes@).take(
                    i as int,
                ),
        {
            let ghost before = notes@;
            notes.push(self.cfg.notes[i].clone());
            assert(text::texts(notes@) =~= text::texts(before).push(self.cfg.notes@[i as int]@));
            assert(text::texts(self.cfg.notes@).take(i as int + 1) =~= text::texts(
                self.cfg.notes@,
            ).take(i as int).push(self.cfg.notes@[i as int]@));
        }
        let ghost general = text::texts(d.notes@) + text::texts(self.cfg.notes@);
        assert(text::texts(notes@) =~= general);
        let ghost last = extra_notes(extra);
        if let Some(note) = extra {
            let ghost before = notes@;
            notes.push(note);
            assert(text::texts(notes@) =~= text::texts(before).push(note@));
        }
        assert(text::texts(notes@) =~= general + last);
        Patch::new(
            self.output,
            root,
            Provenance {
                strategy,
                backend: d.backend.clone(),
                predicted_gain: gain,
                affected_records: affected,
                search_records: self.cfg.search_records,
                incumbent_checksum: self.checksum.to_owned(),
                seed: Some(self.seed),
                notes,
            },
        )
    }

    fn push_base(&self, ds: &Vec<Discovery>, out: &mut Vec<Patch>)
        ensures
            patch::patch_models(final(out)@) == patch::patch_models(old(out)@) + Seq::new(
                ds@.len(),
                |i: int| base_patch(ds@[i]@, self.setting()),
            ),
    {
        let ghost start = patch::patch_models(out@);
        for i in 0..ds.len()
            invariant
                patch::patch_models(out@) == start + Seq::new(
                    i as nat,
                    |k: int| base_patch(ds@[k]@, self.setting()),
                ),
        {
            let ghost before = out@;
            let d = &ds[i];
            let p = self.make(d, d.root.clone(), d.strategy.clone(), d.gain, d.affected, None);
            out.push(p);
            assert(patch::patch_models(out@) =~= patch::patch_models(before).push(p@));
            assert(Seq::new((i + 1) as nat, |k: int| base_patch(ds@[k]@, self.setting()))
                =~= Seq::new(i as nat, |k: int| base_patch(ds@[k]@, self.setting())).push(
                base_patch(ds@[i as int]@, self.setting()),
            ));
        }
    }

    fn push_one_sided(&self, d: &Discovery, right_side: bool, out: &mut Vec<Patch>)
        ensures
            patch::patch_models(final(out)@) == patch::patch_models(old(out)@) + one_sided(
                d@,
                self.setting(),
                right_side,
            ),
    {
        let ghost before = out@;
        if let Some(root) = zero_side(&d.root, right_side) {
            let mut strategy = d.strategy.clone();
            strategy.append("/one-sided");
            let mut note = "zeroed=".to_owned();
            note.append(
                if right_side {
                    "right"
                } else {
                    "left"
                },
            );
            let affected: u64 = match d.side_records {
                Some((l, h)) => if right_side {
                    l
                } else {
                    h
                },
                None => d.affected,
            };
            let p = self.make(d, root, strategy, d.gain, affected, Some(note));
            out.push(p);
            assert(patch::patch_models(out@) =~= patch::patch_models(before).push(p@));
            assert(patch::patch_models(out@) =~= patch::patch_models(before) + one_sided(
                d@,
                self.setting(),
                right_side,
            ));
        } else {
            assert(patch::patch_models(out@) =~= patch::patch_models(before) + one_sided(
                d@,
                self.setting(),
                right_side,
            ));
        }
    }

    fn push_scaled(
        &self,
        ds: &Vec<Discovery>,
        scale: &Scale,
        copies: &Vec<ScaledCopy>,
        out: &mut Vec<Patch>,
    )
        requires
            copies@.len() == ds@.len(),
            forall|i: int|
                0 <= i < ds@.len() ==> (#[trigger] copies@[i]).leaves@.len()
                    == ds@[i]@.root.leaves().len(),
        ensures
            patch::patch_models(final(out)@) == patch::patch_models(old(out)@) + Seq::new(
                ds@.len(),
                |i: int| scaled_patch(ds@[i]@, self.setting(), scale.text@, copies@[i]),
            ),
    {
        let ghost start = patch::patch_models(out@);
        for i in 0..ds.len()
            invariant
                copies@.len() == ds@.len(),
                forall|i: int|
                    0 <= i < ds@.len() ==> (#[trigger] copies@[i]).leaves@.len()
                        == ds@[i]@.root.leaves().len(),
                patch::patch_models(out@) == start + Seq::new(
                    i as nat,
                    |k: int| scaled_patch(ds@[k]@, self.setting(), scale.text@, copies@[k]),
                ),
        {
            let ghost before = out@;
            let d = &ds[i];
            let root = d.root.with_leaves(&copies[i].leaves);
            let mut strategy = d.strategy.clone();
            strategy.append("/scale");
            let mut note = "scale=".to_owned();
            note.append(scale.text.as_str());
            let p = self.make(d, root, strategy, copies[i].gain, d.affected, Some(note));
            out.push(p);
            assert(patch::patch_models(out@) =~= patch::patch_models(before).push(p@));
            assert(Seq::new(
                (i + 1) as nat,
                |k: int| scaled_patch(ds@[k]@, self.setting(), scale.text@, copies@[k]),
            ) =~= Seq::new(
                i as nat,
                |k: int| scaled_patch(ds@[k]@, self.setting(), scale.text@, copies@[k]),
            ).push(
                scaled_patch(ds@[i as int]@, self.setting(), scale.text@, copies@[i as int]),
            ));
        }
    }

    fn push_jittered(
        &self,
        d: &Discovery,
        feature: usize,
        edges: &Vec<Single>,
        nb: usize,
        out: &mut Vec<Patch>,
    )
        requires
            d@.root is Split,
            nb < edges@.len(),
        ensures
            patch::patch_models(final(out)@) == patch::patch_models(old(out)@).push(
                jittered(d@, self.setting(), feature, edges@, nb as int),
            ),
    {
        let ghost before = out@;
        if let Node::Split { left, right, .. } = &d.root {
            let root = Node::Split {
                condition: Condition::axis(feature, edges[nb]),
                left: Box::new((**left).clone()),
                right: Box::new((**right).clone()),
            };
            let mut note = "jitter-bin=".to_owned();
            note.append(decimal_text(nb as u64).as_str());
            let p = self.make(
                d,
                root,
                "threshold-jitter".to_owned(),
                Double::zero(),
                d.affected,
                Some(note),
            );
            out.push(p);
            assert(patch::patch_models(out@) =~= patch::patch_models(before).push(p@));
        }
    }

    fn push_jitter(&self, d: &Discovery, cache: &BinCache, out: &mut Vec<Patch>)
        requires
            d@.root matches Tree::Split { rule, .. } ==> (rule.axis_aligned()
                ==> rule.terms[0].feature < cache.edges@.len()),
        ensures
            patch::patch_models(final(out)@) == patch::patch_models(old(out)@) + jitter_bins(
                d@,
                crate::bins::edge_lists(cache.edges@),
                self.cfg.threshold_jitter as int,
            ).map_values(
                |nb: int|
                    jittered(
                        d@,
                        self.setting(),
                        root_feature(d@),
                        crate::bins::edge_lists(cache.edges@)[root_feature(d@) as int],
                        nb,
                    ),
            ),
    {
        let ghost start = patch::patch_models(out@);
        let ghost lists = crate::bins::edge_lists(cache.edges@);
        let ghost f = root_feature(d@);
        let ghost variant = |nb: int| jittered(d@, self.setting(), f, lists[f as int], nb);
        if let Node::Split { condition, .. } = &d.root {
            if condition.is_axis_aligned() {
                let feature: usize = condition.terms[0].feature;
                let edges: &Vec<Single> = &cache.edges[feature];
                assert(lists[f as int] == edges@);
                let b: usize = find_edge(edges, condition.threshold);
                if b < edges.len() {
                    let len: usize = edges.len();
                    let steps: usize = if self.cfg.threshold_jitter <= len {
                        self.cfg.threshold_jitter
                    } else {
                        len
                    };
                    proof {
                        far_steps_find_nothing(
                            len as int,
                            b as int,
                            len as int,
                            self.cfg.threshold_jitter as int,
                        );
                        assert(start + neighbours(len as int, b as int, 0).map_values(variant)
                            =~= start);
                    }
                    let mut j: usize = 0;
                    while j < steps
                        invariant
                            j <= steps <= len,
                            len == edges@.len(),
                            b < len,
                            f == feature,
                            d@.root is Split,
                            lists[f as int] == edges@,
                            variant == (|nb: int|
                                jittered(d@, self.setting(), f, lists[f as int], nb)),
                            patch::patch_models(out@) == start + neighbours(
                                len as int,
                                b as int,
                                j as int,
                            ).map_values(variant),
                        decreases steps - j,
                    {
                        j = j + 1;
                        let ghost seen = neighbours(len as int, b as int, j - 1);
                        let ghost low = if b - j >= 0 {
                            seq![b - j]
                        } else {
                            Seq::empty()
                        };
                        let ghost high = if b + j < len {
                            seq![b + j]
                        } else {
                            Seq::empty()
                        };
                        if j <= b {
                            self.push_jittered(d, feature, edges, b - j, out);
                        }
                        proof {
                            assert(patch::patch_models(out@) =~= start + (seen + low).map_values(
                                variant,
                            ));
                        }
                        if j < len - b {
                            self.push_jittered(d, feature, edges, b + j, out);
                        }
                        proof {
                            assert(patch::patch_models(out@) =~= start + (seen + low
                                + high).map_values(variant));
                        }
                    }
                    return;
                }
            }
        }
        assert(start + Seq::<int>::empty().map_values(variant) =~= start);
    }
}

proof fn far_steps_find_nothing(len: int, b: int, near: int, far: int)
    requires
        0 <= b < len,
        near >= len,
    ensures
        far >= near ==> neighbours(len, b, far) == neighbours(len, b, near),
    decreases far,
{
    if far > near {
        far_steps_find_nothing(len, b, near, far - 1);
        assert(neighbours(len, b, far) =~= neighbours(len, b, far - 1));
    }
}

proof fn no_jitter_adds_nothing(
    ds: Seq<DiscoveryModel>,
    s: Setting,
    edges: Seq<Seq<Single>>,
    n: int,
)
    ensures
        jitter_pass(ds, s, edges, 0, n) == Seq::<PatchModel>::empty(),
    decreases n,
{
    if n > 0 {
        no_jitter_adds_nothing(ds, s, edges, n - 1);
        let d = ds[n - 1];
        let f = root_feature(d);
        assert(jitter_bins(d, edges, 0) =~= Seq::empty());
        assert(jitter_pass(ds, s, edges, 0, n) =~= Seq::empty());
    }
}

/// First edge equal to the threshold; the number of edges when there is none.
fn find_edge(edges: &Vec<Single>, threshold: Single) -> (r: usize)
    ensures
        r == edge_position(edges@, threshold, 0),
        r <= edges@.len(),
{
    let mut i: usize = 0;
    while i < edges.len()
        invariant
            i <= edges@.len(),
            edge_position(edges@, threshold, 0) == edge_position(edges@, threshold, i as int),
        decreases edges@.len() - i,
    {
        if edges[i].eq_value(threshold) {
            return i;
        }
        i = i + 1;
    }
    i
}

/// Expand discoveries into patches: first the analytical optimum of each, then
/// one-sided variants, then magnitude variants, then threshold jitter. The
/// scaled leaves and gains are given, one copy per scale and discovery.
pub fn expand_discoveries(
    discoveries: &Vec<Discovery>,
    cache: &BinCache,
    at: &Expansion<'_>,
    copies: &Vec<Vec<ScaledCopy>>,
) -> (r: Vec<Patch>)
    requires
        at.cfg.threshold_jitter > 0 ==> features_known(
            discovery_models(discoveries@),
            cache.edges@.len() as int,
        ),
        copies_fit(discovery_models(discoveries@), at.cfg.magnitude_scales@, copies@),
    ensures
        patch::patch_models(r@) == expanded(
            discovery_models(discoveries@),
            at.setting(),
            at.cfg.magnitude_scales@,
            copies@,
            crate::bins::edge_lists(cache.edges@),
            at.cfg.threshold_jitter as int,
        ),
{
    let ghost ds = discovery_models(discoveries@);
    let ghost s = at.setting();
    let mut out: Vec<Patch> = Vec::new();
    at.push_base(discoveries, &mut out);
    let ghost base = Seq::new(ds.len(), |i: int| base_patch(ds[i], s));
    assert(patch::patch_models(out@) =~= base);
    for i in 0..discoveries.len()
        invariant
            ds == discovery_models(discoveries@),
            s == at.setting(),
            patch::patch_models(out@) == base + one_sided_pass(ds, s, i as int),
    {
        assert(ds[i as int] == discoveries@[i as int]@);
        at.push_one_sided(&discoveries[i], false, &mut out);
        at.push_one_sided(&discoveries[i], true, &mut out);
        assert(patch::patch_models(out@) =~= base + one_sided_pass(ds, s, i as int + 1));
    }
    let ghost sided = base + one_sided_pass(ds, s, ds.len() as int);
    let ghost scales = at.cfg.magnitude_scales@;
    assert(patch::patch_models(out@) =~= sided + scale_pass(ds, s, scales, copies@, 0));
    for k in 0..at.cfg.magnitude_scales.len()
        invariant
            ds == discovery_models(discoveries@),
            s == at.setting(),
            scales == at.cfg.magnitude_scales@,
            copies_fit(ds, scales, copies@),
            patch::patch_models(out@) == sided + scale_pass(ds, s, scales, copies@, k as int),
    {
        let scale = &at.cfg.magnitude_scales[k];
        if scale.value.bits != SINGLE_ONE {
            let ghost before = patch::patch_models(out@);
            proof {
                assert(scales[k as int].value.bits != SINGLE_ONE);
                assert forall|i: int| 0 <= i < discoveries@.len() implies (
                #[trigger] copies@[k as int]@[i]).leaves@.len()
                    == discoveries@[i]@.root.leaves().len() by {
                    assert(ds[i] == discoveries@[i]@);
                }
            }
            at.push_scaled(discoveries, scale, &copies[k], &mut out);
            proof {
                let own = Seq::new(
                    ds.len(),
                    |i: int| scaled_patch(ds[i], s, scale.text@, copies@[k as int]@[i]),
                );
                assert(own =~= Seq::new(
                    discoveries@.len(),
                    |i: int|
                        scaled_patch(discoveries@[i]@, s, scale.text@, copies@[k as int]@[i]),
                ));
                assert(patch::patch_models(out@) == before + own);
                assert(scale_pass(ds, s, scales, copies@, k as int + 1) == scale_pass(
                    ds,
                    s,
                    scales,
                    copies@,
                    k as int,
                ) + Seq::new(
                    ds.len(),
                    |i: int|
                        scaled_patch(ds[i], s, scales[k as int].text@, copies@[k as int]@[i]),
                ));
                assert(own =~= Seq::new(
                    ds.len(),
                    |i: int|
                        scaled_patch(ds[i], s, scales[k as int].text@, copies@[k as int]@[i]),
                ));
                assert(before + own =~= sided + scale_pass(ds, s, scales, copies@, k as int + 1));
            }
        }
    }
    let ghost scaled = sided + scale_pass(ds, s, scales, copies@, scales.len() as int);
    let ghost lists = crate::bins::edge_lists(cache.edges@);
    let ghost jitter = at.cfg.threshold_jitter as int;
    assert(patch::patch_models(out@) =~= scaled + jitter_pass(ds, s, lists, jitter, 0));
    if at.cfg.threshold_jitter == 0 {
        proof {
            no_jitter_adds_nothing(ds, s, lists, ds.len() as int);
        }
        return out;
    }
    for i in 0..discoveries.len()
        invariant
            ds == discovery_models(discoveries@),
            s == at.setting(),
            lists == crate::bins::edge_lists(cache.edges@),
            jitter == at.cfg.threshold_jitter,
            features_known(ds, cache.edges@.len() as int),
            patch::patch_models(out@) == scaled + jitter_pass(ds, s, lists, jitter, i as int),
    {
        assert(ds[i as int] == discoveries@[i as int]@);
        let ghost d = ds[i as int];
        let ghost f = root_feature(d);
        at.push_jitter(&discoveries[i], cache, &mut out);
        proof {
            assert(jitter_pass(ds, s, lists, jitter, i as int + 1) == jitter_pass(
                ds,
                s,
                lists,
                jitter,
                i as int,
            ) + jitter_bins(d, lists, jitter).map_values(
                |nb: int| jittered(d, s, f, lists[f as int], nb),
            ));
            assert(jitter_bins(d, lists, jitter).map_values(
                |nb: int| jittered(d, s, f, lists[f as int], nb),
            ) =~= jitter_bins(discoveries@[i as int]@, lists, jitter).map_values(
                |nb: int|
                    jittered(
                        discoveries@[i as int]@,
                        at.setting(),
                        root_feature(discoveries@[i as int]@),
                        lists[root_feature(discoveries@[i as int]@) as int],
                        nb,
                    ),
            ));
            assert(patch::patch_models(out@) =~= scaled + jitter_pass(
                ds,
                s,
                lists,
                jitter,
                i as int + 1,
            ));
        }
    }
    out
}

/// The stump kind that a draw below three stands for.
pub open spec fn drawn_kind(pick: int) -> StumpKind {
    if pick == 0 {
        StumpKind::LeftOnly
    } else if pick == 1 {
        StumpKind::RightOnly
    } else {
        StumpKind::TwoLeaf
    }
}

/// The stump kind that a draw stands for.
pub fn kind_of(pick: usize) -> (r: StumpKind)
    ensures
        r == drawn_kind(pick as int),
{
    if pick == 0 {
        StumpKind::LeftOnly
    } else if pick == 1 {
        StumpKind::RightOnly
    } else {
        StumpKind::TwoLeaf
    }
}

/// A random stump kind.
pub fn draw_kind(rng: &mut StdRng) -> (r: StumpKind)
    ensures
        exists|pick: int| 0 <= pick < 3 && r == #[trigger] drawn_kind(pick),
{
    let pick: usize = pick_below(rng, 3);
    assert(0 <= pick as int && (pick as int) < 3);
    kind_of(pick)
}

/// A random feature and one of its bins; `None` when the feature has no edge.
pub fn draw_site(cache: &BinCache, rng: &mut StdRng) -> (r: Option<(usize, usize)>)
    requires
        cache.edges@.len() > 0,
    ensures
        match r {
            Some((f, b)) => f < cache.edges@.len() && b < cache.edges@[f as int]@.len(),
            None => exists|f: int|
                0 <= f < cache.edges@.len() && (#[trigger] cache.edges@[f])@.len() == 0,
        },
{
    let f: usize = pick_below(rng, cache.edges.len());
    let n: usize = cache.edges[f].len();
    if n == 0 {
        assert(cache.edges@[f as int]@.len() == 0);
        return None;
    }
    Some((f, pick_below(rng, n)))
}

/// Another random stump is to be tried: too few so far, and fewer than twenty
/// tries per wanted one.
pub fn wants_another(have: usize, tries: usize, wanted: usize) -> (r: bool)
    ensures
        r == (have < wanted && tries < 20 * wanted),
{
    have < wanted && tries / 20 < wanted
}

/// The leaves of a random stump of the given kind and size.
pub open spec fn random_leaves(kind: StumpKind, size: Single) -> (Single, Single) {
    match kind {
        StumpKind::LeftOnly => (size, Single { bits: 0 }),
        StumpKind::RightOnly => (Single { bits: 0 }, size),
        StumpKind::TwoLeaf => (size, size.negated()),
    }
}

/// What a random stump is.
pub open spec fn random_patch(
    s: Setting,
    feature: usize,
    bin: int,
    threshold: Single,
    size: Single,
    kind: StumpKind,
) -> PatchModel {
    let leaves = random_leaves(kind, size);
    PatchModel {
        version: PATCH_FORMAT_VERSION,
        output: s.output,
        root: stump_tree(feature, threshold, leaves.0, leaves.1),
        provenance: Origin {
            strategy: "random-stump"@,
            backend: "random"@,
            predicted_gain: Double { bits: 0 },
            affected_records: 0,
            search_records: s.search_records,
            incumbent_checksum: s.checksum,
            seed: Some(s.seed),
            notes: seq![stump_note(kind, bin as nat)],
        },
    }
}

/// A deliberately random stump: an honest control, and a legitimate winner.
/// `None` when the drawn size is zero.
pub fn random_stump(
    cache: &BinCache,
    at: &Expansion<'_>,
    feature: usize,
    bin: usize,
    size: Single,
    kind: StumpKind,
) -> (r: Option<Patch>)
    requires
        feature < cache.edges@.len(),
        bin < cache.edges@[feature as int]@.len(),
    ensures
        match r {
            Some(p) => !size.same_value(Single { bits: 0 }) && p@ == random_patch(
                at.setting(),
                feature,
                bin as int,
                cache.edges@[feature as int]@[bin as int],
                size,
                kind,
            ),
            None => size.same_value(Single { bits: 0 }),
        },
{
    if size.eq_value(Single::zero()) {
        return None;
    }
    let (l, h) = match kind {
        StumpKind::LeftOnly => (size, Single::zero()),
        StumpKind::RightOnly => (Single::zero(), size),
        StumpKind::TwoLeaf => (size, size.neg()),
    };
    Some(
        Patch::new(
            at.output,
            Node::stump(feature, cache.edges[feature][bin], l, h),
            Provenance {
                strategy: "random-stump".to_owned(),
                backend: "random".to_owned(),
                predicted_gain: Double::zero(),
                affected_records: 0,
                search_records: at.cfg.search_records,
                incumbent_checksum: at.checksum.to_owned(),
                seed: Some(at.seed),
                notes: one_text(stump_note_text(kind, bin)),
            },
        ),
    )
}

/// A grafted candidate.
#[derive(Debug)]
pub struct Candidate {
    /// Candidate id: the patch id, or a hash of the member ids for a
    /// combination.
    pub id: String,
    /// Primary patch (first member for a combination).
    pub patch: Patch,
    /// Further patches stacked on top of `patch` (empty for a single graft).
    pub combo: Vec<Patch>,
    /// Complete candidate creature.
    pub creature: Creature,
    /// Neuron uuids appended, per member patch (`patch` first).
    pub added_uuids: Vec<Vec<String>>,
}

/// Largest affected-record count of the patches.
pub open spec fn most_affected(members: Seq<PatchModel>) -> nat
    decreases members.len(),
{
    if members.len() == 0 {
        0
    } else {
        patch::larger(
            most_affected(members.drop_last()),
            members.last().provenance.affected_records as nat,
        )
    }
}

/// Depth of the deepest patch.
pub open spec fn greatest_depth(members: Seq<PatchModel>) -> nat
    decreases members.len(),
{
    if members.len() == 0 {
        0
    } else {
        patch::larger(greatest_depth(members.drop_last()), members.last().root.depth())
    }
}

/// `feature` occurs in one of the patches.
pub open spec fn any_mentions(members: Seq<PatchModel>, feature: usize) -> bool {
    exists|i: int| 0 <= i < members.len() && (#[trigger] members[i]).root.mentions(feature)
}

impl Candidate {
    /// Every member patch, primary first.
    pub open spec fn members(&self) -> Seq<PatchModel> {
        seq![self.patch@] + patch::patch_models(self.combo@)
    }

    /// Strategy label.
    pub open spec fn strategy_text(&self) -> Seq<char> {
        if self.combo@.len() == 0 {
            self.patch.provenance.strategy@
        } else {
            "combo/"@ + text::decimal(self.combo@.len() + 1) + ":"@
                + self.patch.provenance.strategy@
        }
    }

    /// Every member patch, primary first.
    pub fn patches(&self) -> (r: Vec<&Patch>)
        ensures
            r@.len() == self.members().len(),
            forall|i: int| 0 <= i < r@.len() ==> (#[trigger] r@[i])@ == self.members()[i],
    {
        let mut out: Vec<&Patch> = Vec::new();
        out.push(&self.patch);
        for i in 0..self.combo.len()
            invariant
                out@.len() == i + 1,
                forall|k: int| 0 <= k < out@.len() ==> (#[trigger] out@[k])@ == self.members()[k],
        {
            out.push(&self.combo[i]);
            assert(self.members()[i + 1] == self.combo@[i as int]@);
        }
        out
    }

    /// Strategy label (`combo/<k>:<primary>` for combinations).
    pub fn strategy(&self) -> (r: String)
        requires
            self.combo@.len() < u64::MAX,
        ensures
            r@ == self.strategy_text(),
    {
        if self.combo.len() == 0 {
            self.patch.provenance.strategy.clone()
        } else {
            let mut out = "combo/".to_owned();
            out.append(decimal_text(self.combo.len() as u64 + 1).as_str());
            out.append(":");
            out.append(self.patch.provenance.strategy.as_str());
            out
        }
    }

    /// Predicted gains of the members, primary first.
    pub fn member_gains(&self) -> (r: Vec<Double>)
        ensures
            r@ == self.members().map_values(|p: PatchModel| p.provenance.predicted_gain),
    {
        let members = self.patches();
        let mut out: Vec<Double> = Vec::new();
        for i in 0..members.len()
            invariant
                members@.len() == self.members().len(),
                forall|k: int|
                    0 <= k < members@.len() ==> (#[trigger] members@[k])@ == self.members()[k],
                out@.len() == i,
                forall|k: int|
                    0 <= k < i ==> #[trigger] out@[k]
                        == self.members()[k].provenance.predicted_gain,
        {
            assert(members@[i as int]@ == self.members()[i as int]);
            out.push(members[i].provenance.predicted_gain);
        }
        assert(out@ =~= self.members().map_values(|p: PatchModel| p.provenance.predicted_gain));
        out
    }

    /// Largest member affected-record count.
    pub fn affected_records(&self) -> (r: u64)
        ensures
            r == most_affected(self.members()),
    {
        let members = self.patches();
        let mut most: u64 = 0;
        for i in 0..members.len()
            invariant
                members@.len() == self.members().len(),
                forall|k: int|
                    0 <= k < members@.len() ==> (#[trigger] members@[k])@ == self.members()[k],
                most == most_affected(self.members().take(i as int)),
        {
            assert(members@[i as int]@ == self.members()[i as int]);
            assert(self.members().take(i as int + 1).drop_last() =~= self.members().take(i as int));
            let own: u64 = members[i].provenance.affected_records;
            if own > most {
                most = own;
            }
        }
        assert(self.members().take(self.members().len() as int) =~= self.members());
        most
    }

    /// Deepest member.
    pub fn depth(&self) -> (r: usize)
        requires
            forall|i: int|
                0 <= i < self.members().len() ==> (#[trigger] self.members()[i]).root.depth()
                    <= usize::MAX,
        ensures
            r == greatest_depth(self.members()),
    {
        let members = self.patches();
        let mut most: usize = 0;
        for i in 0..members.len()
            invariant
                members@.len() == self.members().len(),
                forall|i: int|
                    0 <= i < self.members().len() ==> (#[trigger] self.members()[i]).root.depth()
                        <= usize::MAX,
                forall|k: int|
                    0 <= k < members@.len() ==> (#[trigger] members@[k])@ == self.members()[k],
                most == greatest_depth(self.members().take(i as int)),
        {
            assert(members@[i as int]@ == self.members()[i as int]);
            assert(self.members().take(i as int + 1).drop_last() =~= self.members().take(i as int));
            let own: usize = members[i].root.depth();
            if own > most {
                most = own;
            }
        }
        assert(self.members().take(self.members().len() as int) =~= self.members());
        most
    }

    /// Union of member features, ascending.
    pub fn features(&self) -> (r: Vec<usize>)
        ensures
            patch::ascending(r@),
            forall|f: usize|
                #![trigger r@.contains(f)]
                r@.contains(f) <==> any_mentions(self.members(), f),
    {
        let members = self.patches();
        let ghost all = self.members();
        let mut out: Vec<usize> = Vec::new();
        for i in 0..members.len()
            invariant
                members@.len() == all.len(),
                forall|k: int| 0 <= k < members@.len() ==> (#[trigger] members@[k])@ == all[k],
                patch::ascending(out@),
                forall|f: usize|
                    #![trigger out@.contains(f)]
                    out@.contains(f) <==> any_mentions(all.take(i as int), f),
        {
            let ghost before = out@;
            assert(members@[i as int]@ == all[i as int]);
            members[i].root.collect_features(&mut out);
            proof {
                let now = all.take(i as int + 1);
                let then = all.take(i as int);
                assert forall|f: usize|
                    #![trigger out@.contains(f)]
                    out@.contains(f) <==> any_mentions(now, f) by {
                    assert(before.contains(f) <==> any_mentions(then, f));
                    if any_mentions(then, f) {
                        let k = choose|k: int|
                            0 <= k < then.len() && (#[trigger] then[k]).root.mentions(f);
                        assert(now[k] == then[k]);
                    }
                    if all[i as int].root.mentions(f) {
                        assert(now[i as int].root.mentions(f));
                    }
                    if any_mentions(now, f) && !all[i as int].root.mentions(f) {
                        let k = choose|k: int|
                            0 <= k < now.len() && (#[trigger] now[k]).root.mentions(f);
                        assert(then[k] == now[k]);
                    }
                }
            }
        }
        assert(all.take(all.len() as int) =~= all);
        out
    }
}

/// What happens to an offered patch.
#[derive(Debug, Clone, Copy, PartialEq, Eq, Structural)]
pub enum Admission {
    /// There are enough candidates: stop offering.
    Enough,
    /// A patch with this id was offered before.
    Duplicate,
    /// The patch corrects nothing.
    Idle,
    /// Graft it, and report how that went.
    Graft,
}

/// The candidates of one iteration, as they are admitted.
#[derive(Debug)]
pub struct Population {
    /// Most candidates.
    pub max: usize,
    /// Ids offered so far.
    pub seen: Vec<String>,
    /// Ids of the candidates.
    pub kept: Vec<String>,
    /// Ids that came to nothing, with the reason.
    pub discarded: Vec<(String, String)>,
    /// The last id offered is being grafted.
    pub grafting: bool,
}

/// What a [`Population`] is.
pub struct PopulationModel {
    pub max: usize,
    pub seen: Seq<Seq<char>>,
    pub kept: Seq<Seq<char>>,
    pub discarded: Seq<(Seq<char>, Seq<char>)>,
    pub grafting: bool,
}

impl View for Population {
    type V = PopulationModel;

    open spec fn view(&self) -> PopulationModel {
        PopulationModel {
            max: self.max,
            seen: text::texts(self.seen@),
            kept: text::texts(self.kept@),
            discarded: self.discarded@.map_values(|p: (String, String)| (p.0@, p.1@)),
            grafting: self.grafting,
        }
    }
}

impl PopulationModel {
    /// No id is seen twice, the candidates are distinct ids that were seen, and
    /// there are at most `max` of them.
    pub open spec fn well_formed(self) -> bool {
        &&& self.seen.no_duplicates()
        &&& self.kept.no_duplicates()
        &&& forall|i: int| 0 <= i < self.kept.len() ==> self.seen.contains(#[trigger] self.kept[i])
        &&& self.kept.len() <= self.max
        &&& self.grafting ==> {
            &&& self.seen.len() > 0
            &&& !self.kept.contains(self.seen.last())
            &&& self.kept.len() < self.max
        }
    }

    /// What is decided on a patch.
    pub open spec fn admission(self, id: Seq<char>, root: Tree) -> Admission {
        if self.kept.len() >= self.max {
            Admission::Enough
        } else if self.seen.contains(id) {
            Admission::Duplicate
        } else if is_idle(root) {
            Admission::Idle
        } else {
            Admission::Graft
        }
    }

    /// The population after a patch was offered.
    pub open spec fn offered(self, id: Seq<char>, root: Tree) -> PopulationModel {
        match self.admission(id, root) {
            Admission::Enough => self,
            Admission::Duplicate => self,
            Admission::Idle => PopulationModel {
                seen: self.seen.push(id),
                discarded: self.discarded.push((id, "all-zero correction"@)),
                ..self
            },
            Admission::Graft => PopulationModel {
                seen: self.seen.push(id),
                grafting: true,
                ..self
            },
        }
    }

    /// The population after the graft went well, or failed for a reason.
    pub open spec fn settled(self, failure: Option<Seq<char>>) -> PopulationModel {
        match failure {
            None => PopulationModel {
                kept: self.kept.push(self.seen.last()),
                grafting: false,
                ..self
            },
            Some(reason) => PopulationModel {
                discarded: self.discarded.push((self.seen.last(), reason)),
                grafting: false,
                ..self
            },
        }
    }
}

impl Population {
    /// Nothing yet.
    pub fn new(max: usize) -> (r: Population)
        ensures
            r@.max == max,
            r@.seen.len() == 0,
            r@.kept.len() == 0,
            r@.discarded.len() == 0,
            !r@.grafting,
            r@.well_formed(),
    {
        Population {
            max,
            seen: Vec::new(),
            kept: Vec::new(),
            discarded: Vec::new(),
            grafting: false,
        }
    }

    /// Offer a patch: de-duplicated by id, capped, and dropped when it corrects
    /// nothing.
    pub fn offer(&mut self, id: &str, root: &Node) -> (r: Admission)
        requires
            old(self)@.well_formed(),
            !old(self)@.grafting,
        ensures
            r == old(self)@.admission(id@, root@),
            final(self)@ == old(self)@.offered(id@, root@),
            final(self)@.well_formed(),
    {
        if self.kept.len() >= self.max {
            return Admission::Enough;
        }
        if contains_text(&self.seen, id) {
            return Admission::Duplicate;
        }
        let ghost seen = self.seen@;
        let ghost dropped = self.discarded@;
        let ghost was = self@;
        self.seen.push(id.to_owned());
        proof {
            assert(text::texts(self.seen@) =~= text::texts(seen).push(id@));
            assert(was.seen.push(id@).no_duplicates());
            assert forall|i: int| 0 <= i < was.kept.len() implies was.seen.push(id@).contains(
                #[trigger] was.kept[i],
            ) by {
                let k = choose|k: int| 0 <= k < was.seen.len() && was.seen[k] == was.kept[i];
                assert(was.seen.push(id@)[k] == was.kept[i]);
            }
            assert(was.seen.push(id@).last() == id@);
            assert(!was.kept.contains(id@)) by {
                if was.kept.contains(id@) {
                    let k = choose|k: int| 0 <= k < was.kept.len() && was.kept[k] == id@;
                    assert(was.seen.contains(was.kept[k]));
                }
            }
        }
        if root.is_all_zero() {
            self.discarded.push((id.to_owned(), "all-zero correction".to_owned()));
            assert(self@.discarded =~= was.discarded.push((id@, "all-zero correction"@)));
            Admission::Idle
        } else {
            self.grafting = true;
            Admission::Graft
        }
    }

    /// Report how the graft of the offered patch went.
    pub fn settle(&mut self, failure: Option<String>)
        requires
            old(self)@.well_formed(),
            old(self)@.grafting,
        ensures
            final(self)@ == old(self)@.settled(
                match failure {
                    None => None,
                    Some(reason) => Some(reason@),
                },
            ),
            final(self)@.well_formed(),
            !final(self)@.grafting,
    {
        let ghost was = self@;
        let id = self.seen[self.seen.len() - 1].clone();
        self.grafting = false;
        match failure {
            None => {
                self.kept.push(id);
                proof {
                    assert(self@.kept =~= was.kept.push(was.seen.last()));
                    assert forall|i: int| 0 <= i < self@.kept.len() implies self@.seen.contains(
                        #[trigger] self@.kept[i],
                    ) by {
                        if i < was.kept.len() {
                            assert(was.seen.contains(was.kept[i]));
                        } else {
                            assert(self@.seen[self@.seen.len() - 1] == self@.kept[i]);
                        }
                    }
                }
            },
            Some(reason) => {
                self.discarded.push((id, reason));
                assert(self@.discarded =~= was.discarded.push((was.seen.last(), reason@)));
            },
        }
    }
}

/// The ids joined by plus signs.
pub open spec fn joined_ids(ids: Seq<Seq<char>>) -> Seq<char>
    decreases ids.len(),
{
    if ids.len() == 0 {
        Seq::empty()
    } else if ids.len() == 1 {
        ids[0]
    } else {
        joined_ids(ids.drop_last()) + "+"@ + ids.last()
    }
}

/// Id of a combination: hash of the member ids in order.
pub open spec fn combination_id(ids: Seq<Seq<char>>) -> Seq<char> {
    digest::digest_hex(vstd::utf8::encode_utf8(joined_ids(ids))).take(16)
}

/// Id of a combination whose members have the given ids.
pub fn combo_id(ids: &Vec<String>) -> (r: String)
    ensures
        r@ == combination_id(text::texts(ids@)),
        r@.len() == 16,
{
    let ghost all = text::texts(ids@);
    let mut joined = String::new();
    for i in 0..ids.len()
        invariant
            all == text::texts(ids@),
            joined@ == joined_ids(all.take(i as int)),
    {
        proof {
            assert(all.take(i as int + 1).drop_last() =~= all.take(i as int));
            assert(all[i as int] == ids@[i as int]@);
        }
        let ghost before = joined@;
        if i > 0 {
            joined.append("+");
        }
        joined.append(ids[i].as_str());
        proof {
            if i == 0 {
                assert(before =~= Seq::empty());
                assert(joined@ =~= ids@[0]@);
            }
        }
    }
    assert(all.take(all.len() as int) =~= all);
    let hex = sha256_hex(joined.as_str().as_bytes());
    first_chars(hex.as_str(), 16)
}

/// Positions among the first `n` ids at which an id occurs for the first time.
pub open spec fn first_occurrences(ids: Seq<Seq<char>>, n: int) -> Seq<usize>
    decreases n,
{
    if n <= 0 {
        Seq::empty()
    } else if ids.take(n - 1).contains(ids[n - 1]) {
        first_occurrences(ids, n - 1)
    } else {
        first_occurrences(ids, n - 1).push((n - 1) as usize)
    }
}

/// The ids at the given positions.
pub open spec fn ids_at(ids: Seq<Seq<char>>, positions: Seq<usize>) -> Seq<Seq<char>> {
    positions.map_values(|p: usize| ids[p as int])
}

/// A combination to graft.
#[derive(Debug)]
pub struct ComboPlan {
    /// Which group it comes from.
    pub group: usize,
    /// Its members, as positions in the group.
    pub members: Vec<usize>,
    /// Its id.
    pub id: String,
}

/// What a [`ComboPlan`] is.
pub struct ComboModel {
    pub group: int,
    pub members: Seq<usize>,
    pub id: Seq<char>,
}

impl View for ComboPlan {
    type V = ComboModel;

    open spec fn view(&self) -> ComboModel {
        ComboModel { group: self.group as int, members: self.members@, id: self.id@ }
    }
}

/// What each plan is.
pub open spec fn combo_models(plans: Seq<ComboPlan>) -> Seq<ComboModel> {
    plans.map_values(|p: ComboPlan| p@)
}

/// The ids of each group.
pub open spec fn group_ids(groups: Seq<Vec<String>>) -> Seq<Seq<Seq<char>>> {
    groups.map_values(|g: Vec<String>| text::texts(g@))
}

/// One of the plans has the id.
pub open spec fn planned_already(plans: Seq<ComboModel>, id: Seq<char>) -> bool {
    exists|i: int| 0 <= i < plans.len() && (#[trigger] plans[i]).id == id
}

/// The combinations of the first `n` groups: each has two or more distinct
/// members, and no two have the same id.
pub open spec fn combos(groups: Seq<Seq<Seq<char>>>, n: int) -> Seq<ComboModel>
    decreases n,
{
    if n <= 0 {
        Seq::empty()
    } else {
        let before = combos(groups, n - 1);
        let members = first_occurrences(groups[n - 1], groups[n - 1].len() as int);
        let id = combination_id(ids_at(groups[n - 1], members));
        if members.len() < 2 || planned_already(before, id) {
            before
        } else {
            before.push(ComboModel { group: n - 1, members, id })
        }
    }
}

fn distinct_members(ids: &Vec<String>) -> (r: Vec<usize>)
    ensures
        r@ == first_occurrences(text::texts(ids@), ids@.len() as int),
        forall|k: int| 0 <= k < r@.len() ==> #[trigger] r@[k] < ids@.len(),
{
    let ghost all = text::texts(ids@);
    let mut out: Vec<usize> = Vec::new();
    let mut seen: Vec<String> = Vec::new();
    for i in 0..ids.len()
        invariant
            all == text::texts(ids@),
            out@ == first_occurrences(all, i as int),
            forall|k: int| 0 <= k < out@.len() ==> #[trigger] out@[k] < i,
            forall|x: Seq<char>|
                #![trigger text::texts(seen@).contains(x)]
                text::texts(seen@).contains(x) <==> all.take(i as int).contains(x),
    {
        let ghost before = seen@;
        proof {
            assert(all[i as int] == ids@[i as int]@);
            assert(all.take(i as int + 1) =~= all.take(i as int).push(all[i as int]));
        }
        if !contains_text(&seen, ids[i].as_str()) {
            seen.push(ids[i].clone());
            out.push(i);
            assert(text::texts(seen@) =~= text::texts(before).push(all[i as int]));
        }
        proof {
            assert forall|x: Seq<char>|
                #![trigger text::texts(seen@).contains(x)]
                text::texts(seen@).contains(x) <==> all.take(i as int + 1).contains(x) by {
                let old_list = all.take(i as int);
                let old_seen = text::texts(before);
                pushing_adds_one(old_list, all[i as int], x);
                pushing_adds_one(old_seen, all[i as int], x);
                assert(old_seen.contains(x) <==> old_list.contains(x));
            }
        }
    }
    out
}

proof fn pushing_adds_one(s: Seq<Seq<char>>, y: Seq<char>, x: Seq<char>)
    ensures
        s.push(y).contains(x) <==> s.contains(x) || x == y,
{
    if s.contains(x) {
        let k = choose|k: int| 0 <= k < s.len() && s[k] == x;
        assert(s.push(y)[k] == x);
    }
    assert(s.push(y)[s.len() as int] == y);
    if s.push(y).contains(x) && x != y {
        let k = choose|k: int| 0 <= k < s.push(y).len() && s.push(y)[k] == x;
        assert(s[k] == x);
    }
}

/// Plan the combinations: members of a group that occur in it before are
/// dropped, groups with fewer than two left are skipped, and so is a
/// combination planned before.
pub fn plan_combos(groups: &Vec<Vec<String>>) -> (r: Vec<ComboPlan>)
    ensures
        combo_models(r@) == combos(group_ids(groups@), groups@.len() as int),
{
    let ghost all = group_ids(groups@);
    let mut out: Vec<ComboPlan> = Vec::new();
    assert(combo_models(out@) =~= Seq::empty());
    for i in 0..groups.len()
        invariant
            all == group_ids(groups@),
            combo_models(out@) == combos(all, i as int),
    {
        let group = &groups[i];
        let ghost ids = text::texts(group@);
        assert(all[i as int] == ids);
        let members = distinct_members(group);
        if members.len() >= 2 {
            let own = member_ids(group, &members);
            let id = combo_id(&own);
            let mut known = false;
            for k in 0..out.len()
                invariant
                    known == planned_already(combo_models(out@).take(k as int), id@),
            {
                let ghost plans = combo_models(out@);
                let same = out[k].id == id;
                proof {
                    assert(plans[k as int].id == out@[k as int].id@);
                    let then = plans.take(k as int);
                    let now = plans.take(k as int + 1);
                    if planned_already(then, id@) {
                        let j = choose|j: int| 0 <= j < then.len() && (#[trigger] then[j]).id == id@;
                        assert(now[j].id == id@);
                    }
                    if same {
                        assert(now[k as int].id == id@);
                    }
                    if planned_already(now, id@) && !same {
                        let j = choose|j: int| 0 <= j < now.len() && (#[trigger] now[j]).id == id@;
                        assert(then[j].id == id@);
                    }
                }
                known = known || same;
            }
            assert(combo_models(out@).take(out@.len() as int) =~= combo_models(out@));
            if !known {
                let ghost before = out@;
                let plan = ComboPlan { group: i, members, id };
                out.push(plan);
                assert(combo_models(out@) =~= combo_models(before).push(plan@));
            }
        }
    }
    out
}

/// Why a group is no combination.
pub const TOO_FEW_MEMBERS: &'static str = "fewer than two distinct members";

/// The groups among the first `n` that have fewer than two distinct members, by
/// the id that their distinct members would give a combination, each with the
/// reason.
pub open spec fn thin_groups(groups: Seq<Seq<Seq<char>>>, n: int) -> Seq<(Seq<char>, Seq<char>)>
    decreases n,
{
    if n <= 0 {
        Seq::empty()
    } else {
        let before = thin_groups(groups, n - 1);
        let members = first_occurrences(groups[n - 1], groups[n - 1].len() as int);
        if members.len() < 2 {
            before.push((combination_id(ids_at(groups[n - 1], members)), TOO_FEW_MEMBERS@))
        } else {
            before
        }
    }
}

/// What discards say: an id and a reason each.
pub open spec fn discard_models(discards: Seq<(String, String)>) -> Seq<(Seq<char>, Seq<char>)> {
    discards.map_values(|d: (String, String)| (d.0@, d.1@))
}

fn member_ids(group: &Vec<String>, members: &Vec<usize>) -> (r: Vec<String>)
    requires
        forall|k: int| 0 <= k < members@.len() ==> #[trigger] members@[k] < group@.len(),
    ensures
        text::texts(r@) == ids_at(text::texts(group@), members@),
{
    let ghost ids = text::texts(group@);
    let mut own: Vec<String> = Vec::new();
    for k in 0..members.len()
        invariant
            ids == text::texts(group@),
            forall|k: int| 0 <= k < members@.len() ==> #[trigger] members@[k] < group@.len(),
            text::texts(own@) == ids_at(ids, members@).take(k as int),
    {
        let ghost before = own@;
        own.push(group[members[k]].clone());
        proof {
            assert(text::texts(own@) =~= text::texts(before).push(ids[members@[k as int] as int]));
            assert(ids_at(ids, members@).take(k as int + 1) =~= ids_at(ids, members@).take(
                k as int,
            ).push(ids[members@[k as int] as int]));
        }
    }
    assert(ids_at(ids, members@).take(members@.len() as int) =~= ids_at(ids, members@));
    own
}

/// The groups that are discarded because they have fewer than two distinct
/// members, each with the reason.
pub fn discard_groups(groups: &Vec<Vec<String>>) -> (r: Vec<(String, String)>)
    ensures
        discard_models(r@) == thin_groups(group_ids(groups@), groups@.len() as int),
{
    let ghost all = group_ids(groups@);
    let mut out: Vec<(String, String)> = Vec::new();
    assert(discard_models(out@) =~= Seq::empty());
    for i in 0..groups.len()
        invariant
            all == group_ids(groups@),
            discard_models(out@) == thin_groups(all, i as int),
    {
        let group = &groups[i];
        assert(all[i as int] == text::texts(group@));
        let members = distinct_members(group);
        if members.len() < 2 {
            let own = member_ids(group, &members);
            let ghost before = out@;
            let entry = (combo_id(&own), TOO_FEW_MEMBERS.to_owned());
            out.push(entry);
            assert(discard_models(out@) =~= discard_models(before).push((entry.0@, entry.1@)));
        }
    }
    out
}

/// Every group is a combination, a repeat of one or discarded: what is planned
/// and what is discarded are different groups.
pub proof fn thin_groups_are_not_planned(groups: Seq<Seq<Seq<char>>>, n: int, k: int)
    requires
        0 <= n <= groups.len(),
        0 <= k < combos(groups, n).len(),
    ensures
        0 <= combos(groups, n)[k].group < n,
        first_occurrences(
            groups[combos(groups, n)[k].group],
            groups[combos(groups, n)[k].group].len() as int,
        ).len() >= 2,
    decreases n,
{
    if n > 0 && k < combos(groups, n - 1).len() {
        thin_groups_are_not_planned(groups, n - 1, k);
    }
}

/// The candidate of a combination: the first patch of the group is the primary
/// one and gets the note.
pub fn combo_candidate(
    id: String,
    group: &Vec<Patch>,
    strategy_note: &str,
    creature: Creature,
    added_uuids: Vec<Vec<String>>,
) -> (r: Candidate)
    requires
        group@.len() > 0,
    ensures
        r.id == id,
        r.patch@ == (PatchModel {
            provenance: Origin {
                notes: group@[0]@.provenance.notes.push(strategy_note@),
                ..group@[0]@.provenance
            },
            ..group@[0]@
        }),
        patch::patch_models(r.combo@) == patch::patch_models(group@).skip(1),
        r.creature == creature,
        r.added_uuids == added_uuids,
{
    let mut primary = group[0].clone();
    let ghost notes = primary.provenance.notes@;
    primary.provenance.notes.push(strategy_note.to_owned());
    assert(text::texts(primary.provenance.notes@) =~= text::texts(notes).push(strategy_note@));
    let mut combo: Vec<Patch> = Vec::new();
    assert(patch::patch_models(combo@) =~= patch::patch_models(group@).subrange(1, 1));
    for i in 1..group.len()
        invariant
            1 <= i <= group@.len(),
            patch::patch_models(combo@) == patch::patch_models(group@).subrange(1, i as int),
    {
        let ghost before = combo@;
        let p = group[i].clone();
        combo.push(p);
        assert(patch::patch_models(combo@) =~= patch::patch_models(before).push(p@));
        assert(patch::patch_models(group@).subrange(1, i as int + 1) =~= patch::patch_models(
            group@,
        ).subrange(1, i as int).push(group@[i as int]@));
    }
    assert(patch::patch_models(group@).subrange(1, group@.len() as int) =~= patch::patch_models(
        group@,
    ).skip(1));
    Candidate { id, patch: primary, combo, creature, added_uuids }
}

/// The two trees read the same features.
pub open spec fn same_features(a: Tree, b: Tree) -> bool {
    forall|f: usize| #[trigger] a.mentions(f) == b.mentions(f)
}

/// One of the patches reads the same features as the tree.
pub open spec fn features_taken(picked: Seq<PatchModel>, root: Tree) -> bool {
    exists|i: int| 0 <= i < picked.len() && same_features((#[trigger] picked[i]).root, root)
}

/// The first of the ranked patches with distinct feature sets, at most `max`.
pub open spec fn distinct_patches(ranked: Seq<PatchModel>, n: int, max: int) -> Seq<PatchModel>
    decreases n,
{
    if n <= 0 {
        Seq::empty()
    } else {
        let before = distinct_patches(ranked, n - 1, max);
        if before.len() >= max || features_taken(before, ranked[n - 1].root) {
            before
        } else {
            before.push(ranked[n - 1])
        }
    }
}

/// The top two, the top three and so on.
pub open spec fn cumulative(picked: Seq<PatchModel>) -> Seq<Seq<PatchModel>> {
    if picked.len() < 2 {
        Seq::empty()
    } else {
        Seq::new((picked.len() - 1) as nat, |k: int| picked.take(k + 2))
    }
}

/// What each group is.
pub open spec fn group_models(groups: Seq<Vec<Patch>>) -> Seq<Seq<PatchModel>> {
    groups.map_values(|g: Vec<Patch>| patch::patch_models(g@))
}

/// Combination groups from ranked discoveries: the top two, top three, up to
/// the top `max` patches on distinct features, stacked cumulatively.
pub fn top_k_groups(ranked: &Vec<Patch>, max: usize) -> (r: Vec<Vec<Patch>>)
    ensures
        group_models(r@) == cumulative(
            distinct_patches(patch::patch_models(ranked@), ranked@.len() as int, max as int),
        ),
{
    let ghost all = patch::patch_models(ranked@);
    let mut picked: Vec<usize> = Vec::new();
    let mut used: Vec<Vec<usize>> = Vec::new();
    for i in 0..ranked.len()
        invariant
            all == patch::patch_models(ranked@),
            picked@.len() == used@.len(),
            forall|k: int| 0 <= k < picked@.len() ==> #[trigger] picked@[k] < ranked@.len(),
            picked@.map_values(|p: usize| all[p as int]) == distinct_patches(
                all,
                i as int,
                max as int,
            ),
            forall|k: int|
                0 <= k < used@.len() ==> is_feature_list(
                    (#[trigger] used@[k])@,
                    all[picked@[k] as int].root,
                ),
    {
        let ghost chosen = distinct_patches(all, i as int, max as int);
        assert(chosen.len() == picked@.len());
        assert(all[i as int] == ranked@[i as int]@);
        if picked.len() < max {
            let own = ranked[i].root.features();
            let mut known = false;
            for k in 0..used.len()
                invariant
                    all == patch::patch_models(ranked@),
                    picked@.len() == used@.len(),
                    i < ranked@.len(),
                    is_feature_list(own@, all[i as int].root),
                    forall|k: int|
                        0 <= k < used@.len() ==> is_feature_list(
                            (#[trigger] used@[k])@,
                            all[picked@[k] as int].root,
                        ),
                    chosen == picked@.map_values(|p: usize| all[p as int]),
                    known == features_taken(chosen.take(k as int), all[i as int].root),
            {
                let same = same_list(&used[k], &own);
                proof {
                    let root = all[i as int].root;
                    let then = chosen.take(k as int);
                    let now = chosen.take(k as int + 1);
                    assert(chosen[k as int] == all[picked@[k as int] as int]);
                    lists_tell_features(used@[k as int]@, chosen[k as int].root, own@, root);
                    if features_taken(then, root) {
                        let j = choose|j: int|
                            0 <= j < then.len() && same_features((#[trigger] then[j]).root, root);
                        assert(now[j] == then[j]);
                    }
                    if same {
                        assert(same_features(now[k as int].root, root));
                    }
                    if features_taken(now, root) && !same {
                        let j = choose|j: int|
                            0 <= j < now.len() && same_features((#[trigger] now[j]).root, root);
                        assert(then[j] == now[j]);
                    }
                }
                known = known || same;
            }
            assert(chosen.take(used@.len() as int) =~= chosen);
            if !known {
                let ghost before = picked@;
                picked.push(i);
                used.push(own);
                assert(picked@.map_values(|p: usize| all[p as int]) =~= before.map_values(
                    |p: usize| all[p as int],
                ).push(all[i as int]));
            }
        }
    }
    let ghost chosen = distinct_patches(all, all.len() as int, max as int);
    let mut groups: Vec<Vec<Patch>> = Vec::new();
    let total: usize = picked.len();
    let mut k: usize = 2;
    assert(group_models(groups@) =~= Seq::new(0, |m: int| chosen.take(m + 2)));
    while k <= total
        invariant
            2 <= k,
            k <= total + 1 || k == 2,
            total == picked@.len(),
            all == patch::patch_models(ranked@),
            chosen == distinct_patches(all, ranked@.len() as int, max as int),
            chosen == picked@.map_values(|p: usize| all[p as int]),
            forall|k: int| 0 <= k < picked@.len() ==> #[trigger] picked@[k] < ranked@.len(),
            group_models(groups@) == Seq::new((k - 2) as nat, |m: int| chosen.take(m + 2)),
        decreases total + 1 - k,
    {
        let mut group: Vec<Patch> = Vec::new();
        for j in 0..k
            invariant
                k <= picked@.len(),
                all == patch::patch_models(ranked@),
                chosen == picked@.map_values(|p: usize| all[p as int]),
                forall|k: int| 0 <= k < picked@.len() ==> #[trigger] picked@[k] < ranked@.len(),
                patch::patch_models(group@) == chosen.take(j as int),
        {
            let ghost before = group@;
            let p = ranked[picked[j]].clone();
            group.push(p);
            assert(patch::patch_models(group@) =~= patch::patch_models(before).push(p@));
            assert(chosen[j as int] == p@);
            assert(chosen.take(j as int + 1) =~= chosen.take(j as int).push(chosen[j as int]));
        }
        let ghost before = groups@;
        groups.push(group);
        proof {
            assert(group_models(groups@) =~= group_models(before).push(chosen.take(k as int)));
            assert(Seq::new((k - 1) as nat, |m: int| chosen.take(m + 2)) =~= Seq::new(
                (k - 2) as nat,
                |m: int| chosen.take(m + 2),
            ).push(chosen.take(k as int)));
        }
        if k == total {
            assert(group_models(groups@) =~= cumulative(chosen));
            return groups;
        }
        k = k + 1;
    }
    groups
}

/// The list holds the features of the tree, ascending.
pub open spec fn is_feature_list(list: Seq<usize>, root: Tree) -> bool {
    &&& patch::ascending(list)
    &&& forall|f: usize| #[trigger] list.contains(f) <==> root.mentions(f)
}

proof fn lists_tell_features(a: Seq<usize>, s: Tree, b: Seq<usize>, t: Tree)
    requires
        is_feature_list(a, s),
        is_feature_list(b, t),
    ensures
        a == b <==> same_features(s, t),
{
    if a == b {
        assert forall|f: usize| #[trigger] s.mentions(f) == t.mentions(f) by {
            assert(a.contains(f) <==> s.mentions(f));
            assert(b.contains(f) <==> t.mentions(f));
        }
    }
    if same_features(s, t) {
        assert forall|f: usize| a.contains(f) <==> b.contains(f) by {
            assert(s.mentions(f) == t.mentions(f));
        }
        patch::ascending_lists_are_determined(a, b);
    }
}

fn same_list(a: &Vec<usize>, b: &Vec<usize>) -> (r: bool)
    ensures
        r == (a@ == b@),
{
    if a.len() != b.len() {
        return false;
    }
    for i in 0..a.len()
        invariant
            a@.len() == b@.len(),
            forall|k: int| 0 <= k < i ==> a@[k] == b@[k],
    {
        if a[i] != b[i] {
            return false;
        }
    }
    assert(a@ =~= b@);
    true
}

/// The patches of a combination group read pairwise different feature sets, and
/// there are at most `max` of them.
pub proof fn groups_have_distinct_features(ranked: Seq<PatchModel>, n: int, max: int)
    requires
        0 <= n <= ranked.len(),
        0 <= max,
    ensures
        distinct_patches(ranked, n, max).len() <= max,
        forall|a: int, b: int|
            #![trigger distinct_patches(ranked, n, max)[a], distinct_patches(ranked, n, max)[b]]
            0 <= a < b < distinct_patches(ranked, n, max).len() ==> !same_features(
                distinct_patches(ranked, n, max)[a].root,
                distinct_patches(ranked, n, max)[b].root,
            ),
    decreases n,
{
    if n > 0 {
        groups_have_distinct_features(ranked, n - 1, max);
        let before = distinct_patches(ranked, n - 1, max);
        let now = distinct_patches(ranked, n, max);
        assert forall|a: int, b: int|
            #![trigger now[a], now[b]]
            0 <= a < b < now.len() implies !same_features(now[a].root, now[b].root) by {
            if b < before.len() {
                assert(before[a] == now[a] && before[b] == now[b]);
            } else {
                assert(now[a] == before[a]);
            }
        }
    }
}

/// Every planned combination has two or more members, and no two combinations
/// have the same id.
pub proof fn combos_are_distinct(groups: Seq<Seq<Seq<char>>>, n: int)
    requires
        0 <= n <= groups.len(),
    ensures
        forall|i: int|
            0 <= i < combos(groups, n).len() ==> (#[trigger] combos(groups, n)[i]).members.len()
                >= 2,
        forall|i: int, j: int|
            #![trigger combos(groups, n)[i], combos(groups, n)[j]]
            0 <= i < j < combos(groups, n).len() ==> combos(groups, n)[i].id != combos(
                groups,
                n,
            )[j].id,
    decreases n,
{
    if n > 0 {
        combos_are_distinct(groups, n - 1);
        let before = combos(groups, n - 1);
        let now = combos(groups, n);
        assert forall|i: int, j: int|
            #![trigger now[i], now[j]]
            0 <= i < j < now.len() implies now[i].id != now[j].id by {
            if j < before.len() {
                assert(before[i] == now[i] && before[j] == now[j]);
            } else {
                assert(before[i] == now[i]);
            }
        }
    }
}

/// A one-sided variant leaves every record of the zeroed side alone and treats
/// the others as before.
pub proof fn one_sided_variant_keeps_the_other_side(
    t: Tree,
    right_side: bool,
    inputs: Seq<Single>,
)
    requires
        zeroed(t, right_side) is Some,
        t.axis_aligned(),
    ensures
        t->rule.axis_holds(inputs) == right_side ==> zeroed(t, right_side)->0.axis_value(
            inputs,
        ).num() == 0,
        t->rule.axis_holds(inputs) != right_side ==> zeroed(t, right_side)->0.axis_value(inputs)
            == t.axis_value(inputs),
{
    let z = zeroed(t, right_side)->0;
    reveal_with_fuel(Tree::axis_value, 2);
}

// ---------------------------------------------------------------------------
// What variants do to records.
// ---------------------------------------------------------------------------

/// A stump gives its right correction to the records whose feature lies above
/// its threshold, and its left one to all others.
pub proof fn stumps_correct_by_side(
    feature: usize,
    threshold: Single,
    left: Single,
    right: Single,
    inputs: Seq<Single>,
)
    ensures
        ({
            let t = stump_tree(feature, threshold, left, right);
            let x = patch::input_value(inputs, feature as int);
            let up = !x.nan() && !threshold.nan() && x.num() > threshold.num();
            &&& t.axis_aligned()
            &&& t.axis_value(inputs) == if up { right } else { left }
            &&& t.leaves() == seq![left, right]
            &&& t.depth() == 1
        }),
{
    reveal_with_fuel(Tree::axis_value, 2);
    reveal_with_fuel(Tree::axis_aligned, 2);
    reveal_with_fuel(Tree::leaves, 2);
    reveal_with_fuel(Tree::depth, 2);
    assert(stump_tree(feature, threshold, left, right).leaves() =~= seq![left, right]);
}

/// A jittered variant differs from its discovery only in the root's threshold: a
/// record on the same side of both thresholds gets the same correction from
/// both, and any other gets what the discovery has for the other side.
pub proof fn jitter_moves_only_the_threshold(
    d: DiscoveryModel,
    s: Setting,
    edges: Seq<Single>,
    nb: int,
    inputs: Seq<Single>,
)
    requires
        d.root is Split,
        d.root->rule.axis_aligned(),
        0 <= nb < edges.len(),
    ensures
        ({
            let f = d.root->rule.terms[0].feature;
            let v = jittered(d, s, f, edges, nb);
            let x = patch::input_value(inputs, f as int);
            &&& v.root is Split
            &&& v.root->rule.threshold == edges[nb]
            &&& v.root->rule.terms == d.root->rule.terms
            &&& v.root.leaves() == d.root.leaves()
            &&& v.root.depth() == d.root.depth()
            &&& x.above(edges[nb]) == x.above(d.root->rule.threshold) ==> v.root.axis_value(inputs)
                == d.root.axis_value(inputs)
            &&& x.above(edges[nb]) ==> v.root.axis_value(inputs) == (*d.root->right).axis_value(
                inputs,
            )
            &&& !x.above(edges[nb]) ==> v.root.axis_value(inputs) == (*d.root->left).axis_value(
                inputs,
            )
            &&& v.output == s.output && v.provenance.seed == Some(s.seed)
            &&& v.provenance.backend == d.backend && v.provenance.affected_records == d.affected
        }),
{
    let f = d.root->rule.terms[0].feature;
    let v = jittered(d, s, f, edges, nb);
    assert(v.root->rule.terms =~= d.root->rule.terms);
}

/// The neighbours of a bin are the other bins no further away than the steps
/// allowed, each once.
pub proof fn neighbours_are_near(len: int, b: int, j: int)
    requires
        0 <= b < len,
    ensures
        forall|x: int|
            #[trigger] neighbours(len, b, j).contains(x) <==> 0 <= x < len && x != b && b - j <= x
                <= b + j,
        neighbours(len, b, j).no_duplicates(),
        forall|i: int, k: int|
            0 <= i < k < neighbours(len, b, j).len() ==> {
                let (x, y) = (#[trigger] neighbours(len, b, j)[i], #[trigger] neighbours(
                    len,
                    b,
                    j,
                )[k]);
                let (dx, dy) = (
                    if x < b { b - x } else { x - b },
                    if y < b { b - y } else { y - b },
                );
                dx < dy || (dx == dy && x < y)
            },
    decreases j,
{
    if j > 0 {
        neighbours_are_near(len, b, j - 1);
        let before = neighbours(len, b, j - 1);
        let low = if b - j >= 0 { seq![b - j] } else { Seq::<int>::empty() };
        let high = if b + j < len { seq![b + j] } else { Seq::<int>::empty() };
        let all = neighbours(len, b, j);
        assert(all == before + low + high);
        assert forall|i: int| 0 <= i < before.len() implies {
            let x = #[trigger] before[i];
            x != b && b - (j - 1) <= x <= b + (j - 1)
        } by {
            assert(before.contains(before[i]));
        }
        assert forall|x: int| #[trigger] neighbours(len, b, j).contains(x) <==> 0 <= x < len && x
            != b && b - j <= x <= b + j by {
            if neighbours(len, b, j).contains(x) {
                let i = choose|i: int| 0 <= i < all.len() && all[i] == x;
                if i < before.len() {
                    assert(before.contains(before[i]));
                }
            }
            if 0 <= x < len && x != b && b - j <= x <= b + j {
                if x == b - j {
                    assert(all[before.len() as int] == x);
                } else if x == b + j {
                    assert(all[(before.len() + low.len()) as int] == x);
                } else {
                    assert(before.contains(x));
                    let i = choose|i: int| 0 <= i < before.len() && before[i] == x;
                    assert(all[i] == x);
                }
            }
        }
        assert forall|i: int, k: int| 0 <= i < k < all.len() implies {
            let (x, y) = (#[trigger] all[i], #[trigger] all[k]);
            let (dx, dy) = (if x < b { b - x } else { x - b }, if y < b { b - y } else { y - b });
            dx < dy || (dx == dy && x < y)
        } by {
            if k < before.len() {
                assert(before[i] == all[i]);
                assert(before[k] == all[k]);
            } else if i < before.len() {
                assert(before[i] == all[i]);
            }
        }
    }
}

/// Jitter moves a discovery to the edges near its own threshold, and only when
/// its root is axis-aligned and stands at an edge.
pub proof fn jitter_stays_near_the_threshold(
    d: DiscoveryModel,
    edges: Seq<Seq<Single>>,
    jitter: int,
)
    requires
        d.root is Split,
        d.root->rule.axis_aligned(),
    ensures
        ({
            let own = edges[d.root->rule.terms[0].feature as int];
            let t = d.root->rule.threshold;
            forall|b: int|
                0 <= b < own.len() && (#[trigger] own[b]).same_value(t) && (forall|c: int|
                    0 <= c < b ==> !(#[trigger] own[c]).same_value(t)) ==> forall|x: int|
                    #[trigger] jitter_bins(d, edges, jitter).contains(x) <==> 0 <= x < own.len()
                        && x != b && b - jitter <= x <= b + jitter
        }),
        ({
            let own = edges[d.root->rule.terms[0].feature as int];
            (forall|b: int|
                0 <= b < own.len() ==> !(#[trigger] own[b]).same_value(d.root->rule.threshold))
                ==> jitter_bins(d, edges, jitter).len() == 0
        }),
{
    let own = edges[d.root->rule.terms[0].feature as int];
    let t = d.root->rule.threshold;
    edge_position_is_the_first(own, t, 0);
    let at = edge_position(own, t, 0);
    assert forall|b: int|
        0 <= b < own.len() && (#[trigger] own[b]).same_value(t) && (forall|c: int|
            0 <= c < b ==> !(#[trigger] own[c]).same_value(t)) implies forall|x: int|
        #[trigger] jitter_bins(d, edges, jitter).contains(x) <==> 0 <= x < own.len() && x != b && b
            - jitter <= x <= b + jitter by {
        assert(at == b);
        neighbours_are_near(own.len() as int, b, jitter);
    }
}

proof fn edge_position_is_the_first(edges: Seq<Single>, threshold: Single, from: int)
    requires
        0 <= from <= edges.len(),
    ensures
        from <= edge_position(edges, threshold, from) <= edges.len(),
        edge_position(edges, threshold, from) < edges.len() ==> edges[edge_position(
            edges,
            threshold,
            from,
        )].same_value(threshold),
        forall|c: int|
            from <= c < edge_position(edges, threshold, from) ==> !(#[trigger] edges[c]).same_value(
                threshold,
            ),
    decreases edges.len() - from,
{
    if from < edges.len() && !edges[from].same_value(threshold) {
        edge_position_is_the_first(edges, threshold, from + 1);
    }
}

/// A one-sided variant has a zero leaf on the side named and the discovery's own
/// subtree on the other, under the same condition; it counts the records of the
/// side that it keeps, where the sides are known. There is one exactly when the
/// side kept corrects something and the variant compares unequal.
pub proof fn one_sided_variants_keep_one_side(d: DiscoveryModel, s: Setting, right_side: bool)
    requires
        d.root is Split,
    ensures
        ({
            let made = one_sided(d, s, right_side);
            let kept = if right_side { *d.root->left } else { *d.root->right };
            let dropped = if right_side { *d.root->right } else { *d.root->left };
            let zero = Tree::Leaf { correction: Single { bits: 0 } };
            &&& made.len() <= 1
            &&& made.len() == 1 <==> moves(kept) && (!same_tree(dropped, zero) || !same_tree(
                kept,
                kept,
            ))
            &&& made.len() == 1 ==> {
                let v = made[0];
                &&& v.root is Split
                &&& v.root->rule == d.root->rule
                &&& right_side ==> *v.root->left == kept && *v.root->right == zero
                &&& !right_side ==> *v.root->left == zero && *v.root->right == kept
                &&& d.side_records matches Some((l, r)) ==> v.provenance.affected_records == (
                if right_side {
                    l
                } else {
                    r
                })
                &&& d.side_records is None ==> v.provenance.affected_records == d.affected
                &&& v.provenance.predicted_gain == d.gain
                &&& v.provenance.backend == d.backend
                &&& v.output == s.output
            }
        }),
{
    let zero = Tree::Leaf { correction: Single { bits: 0 } };
    reveal_with_fuel(Tree::leaves, 2);
    assert(zero.leaves() =~= seq![Single { bits: 0 }]);
    assert(!moves(zero));
    assert(same_tree(zero, zero));
}

/// A scaled variant routes every record as its discovery does and gives it the
/// scaled correction of the leaf that the record reaches.
pub proof fn scaled_variants_scale_each_leaf(t: Tree, values: Seq<Single>, inputs: Seq<Single>) -> (i:
    int)
    requires
        values.len() == t.leaves().len(),
    ensures
        0 <= i < values.len(),
        t.axis_value(inputs) == t.leaves()[i],
        t.with_leaves(values).axis_value(inputs) == values[i],
    decreases t,
{
    match t {
        Tree::Leaf { .. } => 0,
        Tree::Split { rule, left, right } => {
            let n = left.leaves().len() as int;
            patch::leaves_are_splits_plus_one(*left);
            if rule.axis_holds(inputs) {
                let i = scaled_variants_scale_each_leaf(*right, values.skip(n), inputs);
                assert(t.leaves()[n + i] == right.leaves()[i]);
                n + i
            } else {
                let i = scaled_variants_scale_each_leaf(*left, values.take(n), inputs);
                assert(t.leaves()[i] == left.leaves()[i]);
                i
            }
        },
    }
}

/// A scaled variant is its discovery with other leaves and the gain that they
/// predict; nothing else of the split changes.
pub proof fn scaled_variants_keep_the_conditions(
    d: DiscoveryModel,
    s: Setting,
    scale: Seq<char>,
    copy: ScaledCopy,
)
    requires
        copy.leaves@.len() == d.root.leaves().len(),
    ensures
        ({
            let v = scaled_patch(d, s, scale, copy);
            &&& v.root.leaves() == copy.leaves@
            &&& v.root.with_leaves(d.root.leaves()) == d.root
            &&& v.provenance.predicted_gain == copy.gain
            &&& v.provenance.affected_records == d.affected
            &&& v.provenance.backend == d.backend
            &&& v.output == s.output
            &&& v.provenance.incumbent_checksum == s.checksum
        }),
{
    patch::replacing_leaves_keeps_the_shape(d.root, copy.leaves@);
    leaves_can_be_put_back(d.root, copy.leaves@);
}

proof fn leaves_can_be_put_back(t: Tree, values: Seq<Single>)
    requires
        values.len() == t.leaves().len(),
    ensures
        t.with_leaves(values).with_leaves(t.leaves()) == t,
    decreases t,
{
    if let Tree::Split { left, right, .. } = t {
        let n = left.leaves().len() as int;
        patch::replacing_leaves_keeps_the_shape(*left, values.take(n));
        leaves_can_be_put_back(*left, values.take(n));
        leaves_can_be_put_back(*right, values.skip(n));
        assert(t.leaves().take(n) =~= left.leaves());
        assert(t.leaves().skip(n) =~= right.leaves());
    }
}

/// A patch is for the output, the incumbent and the search that the expansion is
/// about.
pub open spec fn is_of(p: PatchModel, s: Setting) -> bool {
    &&& p.version == PATCH_FORMAT_VERSION
    &&& p.output == s.output
    &&& p.provenance.incumbent_checksum == s.checksum
    &&& p.provenance.seed == Some(s.seed)
    &&& p.provenance.search_records == s.search_records
}

/// A discovery's own tree, the tree with a side zeroed, with other leaves, or
/// with another threshold at its root.
pub open spec fn varies(p: PatchModel, d: DiscoveryModel) -> bool {
    ||| p.root == d.root
    ||| zeroed(d.root, false) == Some(p.root)
    ||| zeroed(d.root, true) == Some(p.root)
    ||| p.root == d.root.with_leaves(p.root.leaves())
    ||| {
        &&& p.root is Split && d.root is Split
        &&& p.root->rule.terms == d.root->rule.terms
        &&& p.root->left == d.root->left
        &&& p.root->right == d.root->right
    }
}

/// The patch is a variant of one of the discoveries.
pub open spec fn varies_one(p: PatchModel, ds: Seq<DiscoveryModel>) -> bool {
    exists|i: int| 0 <= i < ds.len() && varies(p, #[trigger] ds[i])
}

proof fn one_sided_pass_varies(ds: Seq<DiscoveryModel>, s: Setting, n: int)
    requires
        0 <= n <= ds.len(),
    ensures
        forall|i: int|
            0 <= i < one_sided_pass(ds, s, n).len() ==> is_of(
                #[trigger] one_sided_pass(ds, s, n)[i],
                s,
            ) && varies_one(one_sided_pass(ds, s, n)[i], ds),
        forall|k: int, side: bool|
            #![trigger zeroed(ds[k].root, side)]
            0 <= k < n && zeroed(ds[k].root, side) is Some ==> exists|i: int|
                0 <= i < one_sided_pass(ds, s, n).len() && (#[trigger] one_sided_pass(
                    ds,
                    s,
                    n,
                )[i]).root == zeroed(ds[k].root, side)->0,
    decreases n,
{
    if n > 0 {
        one_sided_pass_varies(ds, s, n - 1);
        let before = one_sided_pass(ds, s, n - 1);
        let (a, b) = (one_sided(ds[n - 1], s, false), one_sided(ds[n - 1], s, true));
        let all = one_sided_pass(ds, s, n);
        assert(all == before + a + b);
        assert forall|i: int| 0 <= i < all.len() implies is_of(#[trigger] all[i], s) && varies_one(
            all[i],
            ds,
        ) by {
            if i < before.len() {
                assert(all[i] == before[i]);
            } else {
                assert(varies(all[i], ds[n - 1]));
            }
        }
        assert forall|k: int, side: bool|
            #![trigger zeroed(ds[k].root, side)]
            0 <= k < n && zeroed(ds[k].root, side) is Some implies exists|i: int|
            0 <= i < all.len() && (#[trigger] all[i]).root == zeroed(ds[k].root, side)->0 by {
            if k < n - 1 {
                let i = choose|i: int|
                    0 <= i < before.len() && (#[trigger] before[i]).root == zeroed(
                        ds[k].root,
                        side,
                    )->0;
                assert(all[i] == before[i]);
            } else if side {
                assert(all[(before.len() + a.len()) as int] == b[0]);
            } else {
                assert(all[before.len() as int] == a[0]);
            }
        }
    }
}

proof fn scale_pass_varies(
    ds: Seq<DiscoveryModel>,
    s: Setting,
    scales: Seq<Scale>,
    copies: Seq<Vec<ScaledCopy>>,
    n: int,
)
    requires
        0 <= n <= scales.len(),
        copies_fit(ds, scales, copies),
    ensures
        forall|i: int|
            0 <= i < scale_pass(ds, s, scales, copies, n).len() ==> is_of(
                #[trigger] scale_pass(ds, s, scales, copies, n)[i],
                s,
            ) && varies_one(scale_pass(ds, s, scales, copies, n)[i], ds),
        forall|k: int, j: int|
            #![trigger copies[k]@[j]]
            0 <= k < n && scales[k].value.bits != SINGLE_ONE && 0 <= j < ds.len() ==> scale_pass(
                ds,
                s,
                scales,
                copies,
                n,
            ).contains(scaled_patch(ds[j], s, scales[k].text@, copies[k]@[j])),
    decreases n,
{
    if n > 0 {
        scale_pass_varies(ds, s, scales, copies, n - 1);
        let before = scale_pass(ds, s, scales, copies, n - 1);
        let all = scale_pass(ds, s, scales, copies, n);
        if scales[n - 1].value.bits != SINGLE_ONE {
            let more = Seq::new(
                ds.len(),
                |i: int| scaled_patch(ds[i], s, scales[n - 1].text@, copies[n - 1]@[i]),
            );
            assert(all == before + more);
            assert forall|i: int| 0 <= i < all.len() implies is_of(#[trigger] all[i], s)
                && varies_one(all[i], ds) by {
                if i < before.len() {
                    assert(all[i] == before[i]);
                } else {
                    let j = i - before.len();
                    assert(copies[n - 1]@[j].leaves@.len() == ds[j].root.leaves().len());
                    patch::replacing_leaves_keeps_the_shape(ds[j].root, copies[n - 1]@[j].leaves@);
                    assert(varies(all[i], ds[j]));
                }
            }
            assert forall|k: int, j: int|
                #![trigger copies[k]@[j]]
                0 <= k < n && scales[k].value.bits != SINGLE_ONE && 0 <= j < ds.len() implies all.contains(
            scaled_patch(ds[j], s, scales[k].text@, copies[k]@[j])) by {
                let p = scaled_patch(ds[j], s, scales[k].text@, copies[k]@[j]);
                if k < n - 1 {
                    assert(before.contains(p));
                    let i = choose|i: int| 0 <= i < before.len() && before[i] == p;
                    assert(all[i] == p);
                } else {
                    assert(all[before.len() + j] == p);
                }
            }
        }
    }
}

proof fn jitter_pass_varies(
    ds: Seq<DiscoveryModel>,
    s: Setting,
    edges: Seq<Seq<Single>>,
    jitter: int,
    n: int,
)
    requires
        0 <= n <= ds.len(),
    ensures
        forall|i: int|
            0 <= i < jitter_pass(ds, s, edges, jitter, n).len() ==> is_of(
                #[trigger] jitter_pass(ds, s, edges, jitter, n)[i],
                s,
            ) && varies_one(jitter_pass(ds, s, edges, jitter, n)[i], ds),
        forall|k: int, nb: int|
            #![trigger jitter_bins(ds[k], edges, jitter).contains(nb)]
            0 <= k < n && jitter_bins(ds[k], edges, jitter).contains(nb) ==> exists|i: int|
                0 <= i < jitter_pass(ds, s, edges, jitter, n).len() && (#[trigger] jitter_pass(
                    ds,
                    s,
                    edges,
                    jitter,
                    n,
                )[i]).root->rule.threshold == edges[ds[k].root->rule.terms[0].feature as int][nb]
                    && jitter_pass(ds, s, edges, jitter, n)[i].root->left == ds[k].root->left
                    && jitter_pass(ds, s, edges, jitter, n)[i].root->right == ds[k].root->right,
    decreases n,
{
    if n > 0 {
        jitter_pass_varies(ds, s, edges, jitter, n - 1);
        let d = ds[n - 1];
        let f = root_feature(d);
        let before = jitter_pass(ds, s, edges, jitter, n - 1);
        let bins = jitter_bins(d, edges, jitter);
        let more = bins.map_values(|nb: int| jittered(d, s, f, edges[f as int], nb));
        let all = jitter_pass(ds, s, edges, jitter, n);
        assert(all == before + more);
        assert forall|i: int| 0 <= i < all.len() implies is_of(#[trigger] all[i], s) && varies_one(
            all[i],
            ds,
        ) by {
            if i < before.len() {
                assert(all[i] == before[i]);
            } else {
                assert(all[i] == jittered(d, s, f, edges[f as int], bins[i - before.len()]));
                assert(all[i].root->rule.terms =~= d.root->rule.terms);
                assert(varies(all[i], ds[n - 1]));
            }
        }
        assert forall|k: int, nb: int|
            #![trigger jitter_bins(ds[k], edges, jitter).contains(nb)]
            0 <= k < n && jitter_bins(ds[k], edges, jitter).contains(nb) implies exists|i: int|
            0 <= i < all.len() && (#[trigger] all[i]).root->rule.threshold
                == edges[ds[k].root->rule.terms[0].feature as int][nb] && all[i].root->left
                == ds[k].root->left && all[i].root->right == ds[k].root->right by {
            if k < n - 1 {
                let i = choose|i: int|
                    0 <= i < before.len() && (#[trigger] before[i]).root->rule.threshold
                        == edges[ds[k].root->rule.terms[0].feature as int][nb]
                        && before[i].root->left == ds[k].root->left && before[i].root->right
                        == ds[k].root->right;
                assert(all[i] == before[i]);
            } else {
                let j = choose|j: int| 0 <= j < bins.len() && bins[j] == nb;
                assert(all[before.len() + j] == jittered(d, s, f, edges[f as int], nb));
            }
        }
    }
}

/// An expansion starts with the discoveries as they are, in order, and every
/// patch of it is a variant of one of them for the same output and incumbent.
pub proof fn expansions_vary_the_discoveries(
    ds: Seq<DiscoveryModel>,
    s: Setting,
    scales: Seq<Scale>,
    copies: Seq<Vec<ScaledCopy>>,
    edges: Seq<Seq<Single>>,
    jitter: int,
)
    requires
        copies_fit(ds, scales, copies),
    ensures
        ({
            let all = expanded(ds, s, scales, copies, edges, jitter);
            &&& all.len() >= ds.len()
            &&& forall|i: int|
                0 <= i < ds.len() ==> {
                    let p = #[trigger] all[i];
                    &&& p.root == ds[i].root
                    &&& p.provenance.strategy == ds[i].strategy
                    &&& p.provenance.backend == ds[i].backend
                    &&& p.provenance.predicted_gain == ds[i].gain
                    &&& p.provenance.affected_records == ds[i].affected
                    &&& p.provenance.notes == ds[i].notes + s.notes
                }
            &&& forall|i: int|
                0 <= i < all.len() ==> is_of(#[trigger] all[i], s) && varies_one(all[i], ds)
        }),
{
    let n = ds.len() as int;
    let base = Seq::new(ds.len(), |i: int| base_patch(ds[i], s));
    let one = one_sided_pass(ds, s, n);
    let scaled = scale_pass(ds, s, scales, copies, scales.len() as int);
    let moved = jitter_pass(ds, s, edges, jitter, n);
    let all = expanded(ds, s, scales, copies, edges, jitter);
    assert(all == base + one + scaled + moved);
    one_sided_pass_varies(ds, s, n);
    scale_pass_varies(ds, s, scales, copies, scales.len() as int);
    jitter_pass_varies(ds, s, edges, jitter, n);
    assert forall|i: int| 0 <= i < ds.len() implies (
    #[trigger] all[i]).provenance.notes == ds[i].notes + s.notes by {
        assert(all[i] == base_patch(ds[i], s));
        assert(ds[i].notes + s.notes + Seq::<Seq<char>>::empty() =~= ds[i].notes + s.notes);
    }
    assert forall|i: int| 0 <= i < all.len() implies is_of(#[trigger] all[i], s) && varies_one(
        all[i],
        ds,
    ) by {
        if i < base.len() {
            assert(varies(all[i], ds[i]));
        } else if i < base.len() + one.len() {
            assert(all[i] == one[i - base.len()]);
        } else if i < base.len() + one.len() + scaled.len() {
            assert(all[i] == scaled[i - base.len() - one.len()]);
        } else {
            assert(all[i] == moved[i - base.len() - one.len() - scaled.len()]);
        }
    }
}

/// An expansion tries every variant there is: each discovery with either side
/// zeroed where that makes one, at each scale other than one, and at each edge
/// that jitter moves it to.
pub proof fn expansions_try_every_variant(
    ds: Seq<DiscoveryModel>,
    s: Setting,
    scales: Seq<Scale>,
    copies: Seq<Vec<ScaledCopy>>,
    edges: Seq<Seq<Single>>,
    jitter: int,
    d: int,
)
    requires
        copies_fit(ds, scales, copies),
        0 <= d < ds.len(),
    ensures
        ({
            let all = expanded(ds, s, scales, copies, edges, jitter);
            &&& forall|side: bool| #[trigger]
                zeroed(ds[d].root, side) is Some ==> exists|i: int|
                    0 <= i < all.len() && (#[trigger] all[i]).root == zeroed(ds[d].root, side)->0
            &&& forall|k: int|
                #![trigger scales[k]]
                0 <= k < scales.len() && scales[k].value.bits != SINGLE_ONE ==> exists|i: int|
                    0 <= i < all.len() && (#[trigger] all[i]).root == ds[d].root.with_leaves(
                        copies[k]@[d].leaves@,
                    ) && all[i].provenance.predicted_gain == copies[k]@[d].gain
            &&& forall|nb: int| #[trigger]
                jitter_bins(ds[d], edges, jitter).contains(nb) ==> exists|i: int|
                    0 <= i < all.len() && (#[trigger] all[i]).root->rule.threshold
                        == edges[ds[d].root->rule.terms[0].feature as int][nb]
                        && all[i].root->left == ds[d].root->left && all[i].root->right
                        == ds[d].root->right
        }),
{
    let n = ds.len() as int;
    let base = Seq::new(ds.len(), |i: int| base_patch(ds[i], s));
    let one = one_sided_pass(ds, s, n);
    let scaled = scale_pass(ds, s, scales, copies, scales.len() as int);
    let moved = jitter_pass(ds, s, edges, jitter, n);
    let all = expanded(ds, s, scales, copies, edges, jitter);
    assert(all == base + one + scaled + moved);
    one_sided_pass_varies(ds, s, n);
    scale_pass_varies(ds, s, scales, copies, scales.len() as int);
    jitter_pass_varies(ds, s, edges, jitter, n);
    assert forall|side: bool| #[trigger] zeroed(ds[d].root, side) is Some implies exists|i: int|
        0 <= i < all.len() && (#[trigger] all[i]).root == zeroed(ds[d].root, side)->0 by {
        let i = choose|i: int|
            0 <= i < one.len() && (#[trigger] one[i]).root == zeroed(ds[d].root, side)->0;
        assert(all[base.len() + i] == one[i]);
    }
    assert forall|k: int|
        #![trigger scales[k]]
        0 <= k < scales.len() && scales[k].value.bits != SINGLE_ONE implies exists|i: int|
        0 <= i < all.len() && (#[trigger] all[i]).root == ds[d].root.with_leaves(
            copies[k]@[d].leaves@,
        ) && all[i].provenance.predicted_gain == copies[k]@[d].gain by {
        let p = scaled_patch(ds[d], s, scales[k].text@, copies[k]@[d]);
        assert(scaled.contains(p));
        let i = choose|i: int| 0 <= i < scaled.len() && scaled[i] == p;
        assert(all[base.len() + one.len() + i] == p);
    }
    assert forall|nb: int| #[trigger]
        jitter_bins(ds[d], edges, jitter).contains(nb) implies exists|i: int|
        0 <= i < all.len() && (#[trigger] all[i]).root->rule.threshold
            == edges[ds[d].root->rule.terms[0].feature as int][nb] && all[i].root->left
            == ds[d].root->left && all[i].root->right == ds[d].root->right by {
        let i = choose|i: int|
            0 <= i < moved.len() && (#[trigger] moved[i]).root->rule.threshold
                == edges[ds[d].root->rule.terms[0].feature as int][nb] && moved[i].root->left
                == ds[d].root->left && moved[i].root->right == ds[d].root->right;
        assert(all[base.len() + one.len() + scaled.len() + i] == moved[i]);
    }
}

/// A random stump corrects, by its size, the side that its kind names and leaves
/// the other alone; with two leaves the other side is corrected the other way.
pub proof fn random_stumps_correct_by_kind(
    s: Setting,
    feature: usize,
    bin: int,
    threshold: Single,
    size: Single,
    kind: StumpKind,
    inputs: Seq<Single>,
)
    ensures
        ({
            let p = random_patch(s, feature, bin, threshold, size, kind);
            let got = p.root.axis_value(inputs);
            let up = patch::input_value(inputs, feature as int).above(threshold);
            &&& p.root.axis_aligned()
            &&& kind == StumpKind::LeftOnly ==> got == if up { Single { bits: 0 } } else { size }
            &&& kind == StumpKind::RightOnly ==> got == if up { size } else { Single { bits: 0 } }
            &&& kind == StumpKind::TwoLeaf && !up ==> got == size
            &&& kind == StumpKind::TwoLeaf && up ==> got.num() == -size.num()
            &&& p.output == s.output && p.provenance.incumbent_checksum == s.checksum
            &&& p.provenance.predicted_gain.bits == 0 && p.provenance.affected_records == 0
        }),
{
    reveal_with_fuel(Tree::axis_value, 2);
    reveal_with_fuel(Tree::axis_aligned, 2);
}

/// Every kind can be drawn.
pub proof fn every_kind_is_drawn(kind: StumpKind) -> (pick: int)
    ensures
        0 <= pick < 3,
        drawn_kind(pick) == kind,
{
    match kind {
        StumpKind::LeftOnly => 0,
        StumpKind::RightOnly => 1,
        StumpKind::TwoLeaf => 2,
    }
}

/// The largest count and the greatest depth are those of some member, and no
/// member has more.
pub proof fn members_are_bounded(members: Seq<PatchModel>)
    ensures
        forall|i: int|
            0 <= i < members.len() ==> (#[trigger] members[i]).provenance.affected_records
                <= most_affected(members) && members[i].root.depth() <= greatest_depth(members),
        members.len() > 0 ==> exists|i: int|
            0 <= i < members.len() && (#[trigger] members[i]).provenance.affected_records
                == most_affected(members),
        members.len() > 0 ==> exists|i: int|
            0 <= i < members.len() && (#[trigger] members[i]).root.depth() == greatest_depth(
                members,
            ),
    decreases members.len(),
{
    if members.len() > 0 {
        let less = members.drop_last();
        members_are_bounded(less);
        assert forall|i: int| 0 <= i < members.len() implies (
        #[trigger] members[i]).provenance.affected_records <= most_affected(members)
            && members[i].root.depth() <= greatest_depth(members) by {
            if i < less.len() {
                assert(less[i] == members[i]);
            }
        }
        let last = members.len() - 1;
        if members[last].provenance.affected_records != most_affected(members) {
            let i = choose|i: int|
                0 <= i < less.len() && (#[trigger] less[i]).provenance.affected_records
                    == most_affected(less);
            assert(members[i].provenance.affected_records == most_affected(members));
        }
        if members[last].root.depth() != greatest_depth(members) {
            let i = choose|i: int|
                0 <= i < less.len() && (#[trigger] less[i]).root.depth() == greatest_depth(less);
            assert(members[i].root.depth() == greatest_depth(members));
        }
    }
}

/// An id is grafted at most once, what corrects nothing never, and nothing once
/// there are enough; offering keeps no candidate, and a settled graft is kept
/// exactly when it did not fail.
pub proof fn populations_admit_once(
    p: PopulationModel,
    id: Seq<char>,
    root: Tree,
    again: Tree,
    failure: Option<Seq<char>>,
)
    requires
        p.well_formed(),
        !p.grafting,
    ensures
        ({
            let after = p.offered(id, root);
            let done = after.settled(failure);
            let grafts = p.admission(id, root) == Admission::Graft;
            &&& grafts <==> p.kept.len() < p.max && !p.seen.contains(id) && !is_idle(root)
            &&& p.kept.len() < p.max ==> after.admission(id, again) != Admission::Graft
            &&& p.kept.len() >= p.max ==> p.admission(id, root) == Admission::Enough && after == p
            &&& p.kept.len() < p.max && p.seen.contains(id) ==> p.admission(id, root)
                == Admission::Duplicate && after == p
            &&& after.kept == p.kept && after.max == p.max
            &&& after.grafting == grafts
            &&& grafts && failure is None ==> done.kept == p.kept.push(id) && done.discarded
                == p.discarded
            &&& grafts && failure is Some ==> done.kept == p.kept && done.discarded
                == p.discarded.push((id, failure->0))
            &&& p.admission(id, root) == Admission::Idle ==> is_idle(root)
                && after.discarded.len() == p.discarded.len() + 1 && after.discarded.last().0 == id
        }),
{
    let after = p.offered(id, root);
    assert(p.seen.push(id).contains(id)) by {
        assert(p.seen.push(id)[p.seen.len() as int] == id);
    }
}

/// The first occurrences are the positions, ascending, of ids that do not occur
/// before: every id of the list has one, and no two of them have the same id.
pub proof fn first_occurrences_are_distinct(ids: Seq<Seq<char>>, n: int)
    requires
        0 <= n <= ids.len() <= usize::MAX,
    ensures
        ({
            let at = first_occurrences(ids, n);
            &&& at.len() <= n
            &&& forall|k: int|
                0 <= k < at.len() ==> #[trigger] at[k] < n && forall|j: int|
                    0 <= j < at[k] ==> #[trigger] ids[j] != ids[at[k] as int]
            &&& forall|a: int, b: int|
                0 <= a < b < at.len() ==> #[trigger] at[a] < #[trigger] at[b]
            &&& forall|i: int|
                #![trigger ids[i]]
                0 <= i < n ==> ids_at(ids, at).contains(ids[i])
        }),
    decreases n,
{
    if n > 0 {
        first_occurrences_are_distinct(ids, n - 1);
        let before = first_occurrences(ids, n - 1);
        let at = first_occurrences(ids, n);
        let id = ids[n - 1];
        if !ids.take(n - 1).contains(id) {
            assert forall|j: int| 0 <= j < n - 1 implies #[trigger] ids[j] != id by {
                assert(ids.take(n - 1)[j] == ids[j]);
            }
        }
        assert forall|i: int| #![trigger ids[i]] 0 <= i < n implies ids_at(ids, at).contains(
            ids[i],
        ) by {
            if i == n - 1 && at.len() > before.len() {
                assert(ids_at(ids, at)[before.len() as int] == id);
            } else {
                let j = if i < n - 1 {
                    i
                } else {
                    choose|j: int| 0 <= j < n - 1 && #[trigger] ids.take(n - 1)[j] == id
                };
                assert(ids[j] == ids[i]);
                assert(ids_at(ids, before).contains(ids[j]));
                let k = choose|k: int|
                    0 <= k < ids_at(ids, before).len() && ids_at(ids, before)[k] == ids[j];
                assert(ids_at(ids, at)[k] == ids[j]);
            }
        }
    }
}

/// A combination is named by the ids of its own group's distinct members; every
/// group with two of them has a combination of that name, and every group with
/// fewer is discarded with a reason.
pub proof fn groups_are_planned_or_discarded(groups: Seq<Seq<Seq<char>>>, n: int)
    requires
        0 <= n <= groups.len(),
    ensures
        forall|k: int|
            0 <= k < combos(groups, n).len() ==> {
                let c = #[trigger] combos(groups, n)[k];
                &&& 0 <= c.group < n
                &&& c.id == combination_id(ids_at(groups[c.group], c.members))
                &&& c.members == first_occurrences(
                    groups[c.group],
                    groups[c.group].len() as int,
                )
            },
        forall|g: int|
            #![trigger groups[g]]
            0 <= g < n ==> {
                let members = first_occurrences(groups[g], groups[g].len() as int);
                let id = combination_id(ids_at(groups[g], members));
                if members.len() >= 2 {
                    planned_already(combos(groups, n), id)
                } else {
                    exists|i: int|
                        0 <= i < thin_groups(groups, n).len() && (#[trigger] thin_groups(
                            groups,
                            n,
                        )[i]).0 == id
                }
            },
        combos(groups, n).len() + thin_groups(groups, n).len() <= n,
    decreases n,
{
    if n > 0 {
        groups_are_planned_or_discarded(groups, n - 1);
        let before = combos(groups, n - 1);
        let after = combos(groups, n);
        let thin = thin_groups(groups, n - 1);
        let thinner = thin_groups(groups, n);
        assert forall|g: int| #![trigger groups[g]] 0 <= g < n implies {
            let members = first_occurrences(groups[g], groups[g].len() as int);
            let id = combination_id(ids_at(groups[g], members));
            if members.len() >= 2 {
                planned_already(after, id)
            } else {
                exists|i: int| 0 <= i < thinner.len() && (#[trigger] thinner[i]).0 == id
            }
        } by {
            let members = first_occurrences(groups[g], groups[g].len() as int);
            let id = combination_id(ids_at(groups[g], members));
            if g < n - 1 {
                if members.len() >= 2 {
                    let i = choose|i: int| 0 <= i < before.len() && (#[trigger] before[i]).id == id;
                    assert(after[i].id == id);
                } else {
                    let i = choose|i: int| 0 <= i < thin.len() && (#[trigger] thin[i]).0 == id;
                    assert(thinner[i].0 == id);
                }
            } else if members.len() >= 2 {
                if planned_already(before, id) {
                } else {
                    assert(after[before.len() as int].id == id);
                }
            } else {
                assert(thinner[thin.len() as int].0 == id);
            }
        }
    }
}

/// Names are joined by one plus sign between neighbours, in order.
pub proof fn joined_ids_keep_their_order(a: Seq<Seq<char>>, b: Seq<Seq<char>>)
    requires
        a.len() > 0,
        b.len() > 0,
    ensures
        joined_ids(a + b) == joined_ids(a) + "+"@ + joined_ids(b),
        joined_ids(seq![a[0]]) == a[0],
    decreases b.len(),
{
    reveal_with_fuel(joined_ids, 2);
    if b.len() == 1 {
        assert((a + b).drop_last() =~= a);
        assert(joined_ids(a + b) =~= joined_ids(a) + "+"@ + joined_ids(b));
    } else {
        joined_ids_keep_their_order(a, b.drop_last());
        assert((a + b).drop_last() =~= a + b.drop_last());
        assert(joined_ids(a + b) =~= joined_ids(a) + "+"@ + joined_ids(b));
    }
}

/// Of ranked patches every one is picked unless an earlier pick reads the same
/// features or there are enough; the first is always picked.
pub proof fn distinct_patches_are_taken_in_rank_order(
    ranked: Seq<PatchModel>,
    n: int,
    max: int,
)
    requires
        0 <= n <= ranked.len(),
        0 < max,
    ensures
        ({
            let picked = distinct_patches(ranked, n, max);
            &&& n > 0 ==> picked.len() > 0 && picked[0] == ranked[0]
            &&& picked.len() <= n
            &&& forall|k: int| 0 <= k < picked.len() ==> ranked.contains(#[trigger] picked[k])
            &&& forall|i: int|
                #![trigger ranked[i]]
                0 <= i < n && picked.len() < max ==> picked.contains(ranked[i]) || features_taken(
                    picked,
                    ranked[i].root,
                )
        }),
    decreases n,
{
    if n > 0 {
        distinct_patches_are_taken_in_rank_order(ranked, n - 1, max);
        let before = distinct_patches(ranked, n - 1, max);
        let picked = distinct_patches(ranked, n, max);
        assert forall|i: int| #![trigger ranked[i]] 0 <= i < n && picked.len() < max implies picked.contains(
        ranked[i]) || features_taken(picked, ranked[i].root) by {
            if i < n - 1 {
                if before.contains(ranked[i]) {
                    let k = choose|k: int| 0 <= k < before.len() && before[k] == ranked[i];
                    assert(picked[k] == ranked[i]);
                } else {
                    let k = choose|k: int|
                        0 <= k < before.len() && same_features(
                            (#[trigger] before[k]).root,
                            ranked[i].root,
                        );
                    assert(same_features(picked[k].root, ranked[i].root));
                }
            } else if picked.len() > before.len() {
                assert(picked[before.len() as int] == ranked[n - 1]);
            }
        }
        assert forall|k: int| 0 <= k < picked.len() implies ranked.contains(#[trigger] picked[k]) by {
            if k < before.len() {
                assert(picked[k] == before[k]);
            } else {
                assert(picked[k] == ranked[n - 1]);
            }
        }
    }
}

/// Groups stack: the first holds the two best, each next one more, and the last
/// all of them.
pub proof fn groups_stack(picked: Seq<PatchModel>)
    requires
        picked.len() >= 2,
    ensures
        ({
            let groups = cumulative(picked);
            &&& groups.len() == picked.len() - 1
            &&& groups[0] == seq![picked[0], picked[1]]
            &&& groups.last() == picked
            &&& forall|k: int|
                1 <= k < groups.len() ==> #[trigger] groups[k] == groups[k - 1].push(picked[k + 1])
        }),
{
    let groups = cumulative(picked);
    assert(groups[0] =~= seq![picked[0], picked[1]]);
    assert(groups.last() =~= picked);
    assert forall|k: int| 1 <= k < groups.len() implies #[trigger] groups[k] == groups[k - 1].push(
        picked[k + 1],
    ) by {
        assert(groups[k] =~= groups[k - 1].push(picked[k + 1]));
    }
}

} // verus!
