//! The portable Forest patch: a tiny tree of residual corrections for one
//! output.
//!
//! A condition that holds takes the right branch, and only a sum strictly above
//! zero holds, so NaN falls to the left, as it does inside a creature's `IF`
//! neuron.

use vstd::prelude::*;
use vstd::string::*;

use crate::digest;
use crate::digest::sha256_hex;
use crate::floats::{Single, Double, SINGLE_ONE};
use crate::text;
use crate::text::{decimal_text, first_chars};

verus! {

/// Current patch format version.
pub const PATCH_FORMAT_VERSION: u32 = 1;

/// One weighted feature in a (possibly oblique) condition.
#[derive(Debug, Clone, Copy, PartialEq, Eq, Structural)]
pub struct Term {
    /// Input observation index.
    pub feature: usize,
    /// Synapse weight (exactly `1.0` for axis-aligned splits).
    pub weight: Single,
}

/// `Σ weight·x > threshold` takes the right branch.
#[derive(Debug, PartialEq)]
pub struct Condition {
    /// Feature terms (one for axis-aligned splits, two or three for oblique).
    pub terms: Vec<Term>,
    /// Threshold, the exact value that the creature will carry.
    pub threshold: Single,
}

/// Tree node.
#[derive(Debug, PartialEq)]
pub enum Node {
    /// Constant correction.
    Leaf {
        /// Added to the pre-squash sum of the target output neuron.
        correction: Single,
    },
    /// Binary split.
    Split {
        /// Branch condition.
        condition: Condition,
        /// Taken when the condition does not hold.
        left: Box<Node>,
        /// Taken when the condition holds.
        right: Box<Node>,
    },
}

/// Where a patch came from. Every strategy describes itself honestly.
#[derive(Debug, PartialEq)]
pub struct Provenance {
    /// Strategy label, e.g. `histogram-stump`, `random-stump`, `xgboost-import`.
    pub strategy: String,
    /// Search backend that produced the split statistics.
    pub backend: String,
    /// Predicted proxy gain. Not a score.
    pub predicted_gain: Double,
    /// Records whose correction is non-zero under the patch.
    pub affected_records: u64,
    /// Rows in the search set.
    pub search_records: u64,
    /// Checksum of the incumbent the patch was searched against.
    pub incumbent_checksum: String,
    /// Seed that generated this candidate, if any randomness was involved.
    pub seed: Option<u64>,
    /// Free-form notes (sampling rates, jitter offsets, scale factor …).
    pub notes: Vec<String>,
}

/// A complete patch.
#[derive(Debug, PartialEq)]
pub struct Patch {
    /// Format version.
    pub version: u32,
    /// Output neuron index the correction feeds.
    pub output: usize,
    /// Tree root.
    pub root: Node,
    /// Provenance.
    pub provenance: Provenance,
}

/// What a [`Condition`] says.
pub struct Rule {
    pub terms: Seq<Term>,
    pub threshold: Single,
}

/// What a [`Node`] is.
pub enum Tree {
    Leaf { correction: Single },
    Split { rule: Rule, left: Box<Tree>, right: Box<Tree> },
}

/// What a [`Provenance`] says.
pub struct Origin {
    pub strategy: Seq<char>,
    pub backend: Seq<char>,
    pub predicted_gain: Double,
    pub affected_records: u64,
    pub search_records: u64,
    pub incumbent_checksum: Seq<char>,
    pub seed: Option<u64>,
    pub notes: Seq<Seq<char>>,
}

/// What a [`Patch`] is.
pub struct PatchModel {
    pub version: u32,
    pub output: usize,
    pub root: Tree,
    pub provenance: Origin,
}

impl View for Condition {
    type V = Rule;

    open spec fn view(&self) -> Rule {
        Rule { terms: self.terms@, threshold: self.threshold }
    }
}

impl Node {
    /// The tree that the node is the root of.
    pub open spec fn tree(self) -> Tree
        decreases self,
    {
        match self {
            Node::Leaf { correction } => Tree::Leaf { correction },
            Node::Split { condition, left, right } => Tree::Split {
                rule: condition@,
                left: Box::new(left.tree()),
                right: Box::new(right.tree()),
            },
        }
    }
}

impl View for Node {
    type V = Tree;

    open spec fn view(&self) -> Tree {
        self.tree()
    }
}

impl View for Provenance {
    type V = Origin;

    open spec fn view(&self) -> Origin {
        Origin {
            strategy: self.strategy@,
            backend: self.backend@,
            predicted_gain: self.predicted_gain,
            affected_records: self.affected_records,
            search_records: self.search_records,
            incumbent_checksum: self.incumbent_checksum@,
            seed: self.seed,
            notes: text::texts(self.notes@),
        }
    }
}

impl View for Patch {
    type V = PatchModel;

    open spec fn view(&self) -> PatchModel {
        PatchModel {
            version: self.version,
            output: self.output,
            root: self.root@,
            provenance: self.provenance@,
        }
    }
}

/// What each patch is.
pub open spec fn patch_models(patches: Seq<Patch>) -> Seq<PatchModel> {
    patches.map_values(|p: Patch| p@)
}

/// The value a record has for `feature`: a feature it lacks counts as zero.
pub open spec fn input_value(inputs: Seq<Single>, feature: int) -> Single {
    if 0 <= feature < inputs.len() {
        inputs[feature]
    } else {
        Single { bits: 0 }
    }
}

impl Rule {
    /// One feature with unit weight.
    pub open spec fn axis_aligned(self) -> bool {
        self.terms.len() == 1 && self.terms[0].weight.bits == SINGLE_ONE
    }

    /// An axis-aligned rule holds of a record when its feature's value is above
    /// the threshold.
    pub open spec fn axis_holds(self, inputs: Seq<Single>) -> bool {
        input_value(inputs, self.terms[0].feature as int).above(self.threshold)
    }

    /// Every number is finite.
    pub open spec fn finite(self) -> bool {
        &&& self.threshold.finite()
        &&& forall|i: int| 0 <= i < self.terms.len() ==> (#[trigger] self.terms[i]).weight.finite()
    }

    /// `feature` is one of the rule's features.
    pub open spec fn mentions(self, feature: usize) -> bool {
        exists|i: int| 0 <= i < self.terms.len() && (#[trigger] self.terms[i]).feature == feature
    }
}

/// The larger of two naturals.
pub open spec fn larger(a: nat, b: nat) -> nat {
    if a >= b {
        a
    } else {
        b
    }
}

impl Tree {
    /// Longest path from the root to a leaf.
    pub open spec fn depth(self) -> nat
        decreases self,
    {
        match self {
            Tree::Leaf { .. } => 0,
            Tree::Split { left, right, .. } => 1 + larger(left.depth(), right.depth()),
        }
    }

    /// Number of splits.
    pub open spec fn splits(self) -> nat
        decreases self,
    {
        match self {
            Tree::Leaf { .. } => 0,
            Tree::Split { left, right, .. } => 1 + left.splits() + right.splits(),
        }
    }

    /// The corrections of the leaves, left to right.
    pub open spec fn leaves(self) -> Seq<Single>
        decreases self,
    {
        match self {
            Tree::Leaf { correction } => seq![correction],
            Tree::Split { left, right, .. } => left.leaves() + right.leaves(),
        }
    }

    /// `feature` occurs in some condition.
    pub open spec fn mentions(self, feature: usize) -> bool
        decreases self,
    {
        match self {
            Tree::Leaf { .. } => false,
            Tree::Split { rule, left, right } => rule.mentions(feature) || left.mentions(feature)
                || right.mentions(feature),
        }
    }

    /// Every number in the tree is finite.
    pub open spec fn finite(self) -> bool
        decreases self,
    {
        match self {
            Tree::Leaf { correction } => correction.finite(),
            Tree::Split { rule, left, right } => rule.finite() && left.finite() && right.finite(),
        }
    }

    /// Every condition is axis-aligned.
    pub open spec fn axis_aligned(self) -> bool
        decreases self,
    {
        match self {
            Tree::Leaf { .. } => true,
            Tree::Split { rule, left, right } => rule.axis_aligned() && left.axis_aligned()
                && right.axis_aligned(),
        }
    }

    /// Correction that an axis-aligned tree gives to a record.
    pub open spec fn axis_value(self, inputs: Seq<Single>) -> Single
        decreases self,
    {
        match self {
            Tree::Leaf { correction } => correction,
            Tree::Split { rule, left, right } => if rule.axis_holds(inputs) {
                right.axis_value(inputs)
            } else {
                left.axis_value(inputs)
            },
        }
    }

    /// Correction that the tree gives to a record whose weighted sums, each less
    /// its threshold, are `sums`: those of the tree's splits stand in it from `at`
    /// on, each split before its left side, and that before its right side.
    pub open spec fn sum_value(self, sums: Seq<Single>, at: int) -> Single
        decreases self,
    {
        match self {
            Tree::Leaf { correction } => correction,
            Tree::Split { left, right, .. } => if sums[at].above(Single { bits: 0 }) {
                right.sum_value(sums, at + 1 + left.splits())
            } else {
                left.sum_value(sums, at + 1)
            },
        }
    }

    /// Each of the sums is positive exactly when its split's rule holds of the
    /// record, for an axis-aligned tree.
    pub open spec fn sums_agree(self, sums: Seq<Single>, at: int, inputs: Seq<Single>) -> bool
        decreases self,
    {
        match self {
            Tree::Leaf { .. } => true,
            Tree::Split { rule, left, right } => {
                &&& sums[at].above(Single { bits: 0 }) == rule.axis_holds(inputs)
                &&& left.sums_agree(sums, at + 1, inputs)
                &&& right.sums_agree(sums, at + 1 + left.splits(), inputs)
            },
        }
    }

    /// The tree with its leaves replaced, left to right.
    pub open spec fn with_leaves(self, values: Seq<Single>) -> Tree
        decreases self,
    {
        match self {
            Tree::Leaf { .. } => Tree::Leaf { correction: values[0] },
            Tree::Split { rule, left, right } => Tree::Split {
                rule,
                left: Box::new(left.with_leaves(values.take(left.leaves().len() as int))),
                right: Box::new(right.with_leaves(values.skip(left.leaves().len() as int))),
            },
        }
    }
}

/// How many of `values` are zero.
pub open spec fn zeros(values: Seq<Single>) -> nat {
    values.filter(|v: Single| v.same_value(Single { bits: 0 })).len()
}

/// A tree has one leaf more than it has splits.
pub proof fn leaves_are_splits_plus_one(t: Tree)
    ensures
        t.leaves().len() == t.splits() + 1,
        t.depth() <= t.splits(),
    decreases t,
{
    if let Tree::Split { left, right, .. } = t {
        leaves_are_splits_plus_one(*left);
        leaves_are_splits_plus_one(*right);
    }
}

/// Replacing the leaves keeps every condition: depth, split count, features and
/// the routing of records stay as they were.
pub proof fn replacing_leaves_keeps_the_shape(t: Tree, values: Seq<Single>)
    requires
        values.len() == t.leaves().len(),
    ensures
        t.with_leaves(values).leaves() == values,
        t.with_leaves(values).depth() == t.depth(),
        t.with_leaves(values).splits() == t.splits(),
        t.with_leaves(values).axis_aligned() == t.axis_aligned(),
        forall|f: usize| t.with_leaves(values).mentions(f) == t.mentions(f),
    decreases t,
{
    match t {
        Tree::Leaf { .. } => {
            assert(t.with_leaves(values).leaves() =~= values);
        },
        Tree::Split { left, right, .. } => {
            let n = left.leaves().len() as int;
            replacing_leaves_keeps_the_shape(*left, values.take(n));
            replacing_leaves_keeps_the_shape(*right, values.skip(n));
            assert(values.take(n) + values.skip(n) =~= values);
            let w = t.with_leaves(values);
            assert forall|f: usize| w.mentions(f) == t.mentions(f) by {
                let l = left.with_leaves(values.take(n));
                let h = right.with_leaves(values.skip(n));
                assert(l.mentions(f) == left.mentions(f));
                assert(h.mentions(f) == right.mentions(f));
            }
        },
    }
}

/// Putting a tree's own leaves back gives the tree.
pub proof fn own_leaves_change_nothing(t: Tree)
    ensures
        t.with_leaves(t.leaves()) == t,
    decreases t,
{
    if let Tree::Split { left, right, .. } = t {
        let n = left.leaves().len() as int;
        assert(t.leaves().take(n) =~= left.leaves());
        assert(t.leaves().skip(n) =~= right.leaves());
        own_leaves_change_nothing(*left);
        own_leaves_change_nothing(*right);
    }
}

/// How many numbers the JSON form of a tree writes.
pub open spec fn number_count(t: Tree) -> nat
    decreases t,
{
    match t {
        Tree::Leaf { .. } => 1,
        Tree::Split { rule, left, right } => rule.terms.len() + 1 + number_count(*left)
            + number_count(*right),
    }
}

/// JSON of a term whose weight is written `weight`.
pub open spec fn term_json(term: Term, weight: Seq<char>) -> Seq<char> {
    "{\"feature\":"@ + text::decimal(term.feature as nat) + ",\"weight\":"@ + weight + "}"@
}

/// JSON of the terms, separated by commas.
pub open spec fn terms_json(terms: Seq<Term>, weights: Seq<Seq<char>>) -> Seq<char>
    decreases terms.len(),
{
    if terms.len() == 0 {
        Seq::empty()
    } else if terms.len() == 1 {
        term_json(terms[0], weights[0])
    } else {
        terms_json(terms.drop_last(), weights.drop_last()) + ","@ + term_json(
            terms.last(),
            weights.last(),
        )
    }
}

/// JSON of a tree whose numbers are written as `numbers`, in the order in which
/// they occur: the weights and the threshold of a split, then its left and its
/// right subtree.
pub open spec fn tree_json(t: Tree, numbers: Seq<Seq<char>>) -> Seq<char>
    decreases t,
{
    match t {
        Tree::Leaf { .. } => "{\"kind\":\"leaf\",\"correction\":"@ + numbers[0] + "}"@,
        Tree::Split { rule, left, right } => {
            let n = rule.terms.len() as int;
            let l = n + 1 + number_count(*left);
            "{\"kind\":\"split\",\"condition\":{\"terms\":["@ + terms_json(
                rule.terms,
                numbers.take(n),
            ) + "],\"threshold\":"@ + numbers[n] + "},\"left\":"@ + tree_json(
                *left,
                numbers.subrange(n + 1, l),
            ) + ",\"right\":"@ + tree_json(*right, numbers.skip(l)) + "}"@
        },
    }
}

/// The text that a patch's identity is the checksum of.
pub open spec fn canonical(output: nat, root: Tree, numbers: Seq<Seq<char>>) -> Seq<char> {
    "["@ + text::decimal(output) + ","@ + tree_json(root, numbers) + "]"@
}

/// A patch's identity: the first 16 characters of the checksum.
pub open spec fn patch_id(output: nat, root: Tree, numbers: Seq<Seq<char>>) -> Seq<char> {
    digest::digest_hex(vstd::utf8::encode_utf8(canonical(output, root, numbers))).take(16)
}

fn push_terms(out: &mut String, terms: &Vec<Term>, numbers: &Vec<String>, at: usize)
    requires
        at + terms@.len() <= numbers@.len(),
    ensures
        final(out)@ == old(out)@ + terms_json(
            terms@,
            text::texts(numbers@).subrange(at as int, at + terms@.len()),
        ),
{
    let ghost start = out@;
    let ghost weights = text::texts(numbers@).subrange(at as int, at + terms@.len());
    proof {
        assert(out@ =~= start + terms_json(terms@.take(0), weights.take(0)));
    }
    for i in 0..terms.len()
        invariant
            at + terms@.len() <= numbers@.len(),
            weights == text::texts(numbers@).subrange(at as int, at + terms@.len()),
            out@ == start + terms_json(terms@.take(i as int), weights.take(i as int)),
    {
        let ghost before = out@;
        if i > 0 {
            out.append(",");
        }
        out.append("{\"feature\":");
        let feature = decimal_text(terms[i].feature as u64);
        out.append(feature.as_str());
        out.append(",\"weight\":");
        assert(numbers.len() == numbers@.len());
        out.append(numbers[at + i].as_str());
        out.append("}");
        proof {
            let now = terms@.take(i as int + 1);
            let w = weights.take(i as int + 1);
            assert(now.drop_last() =~= terms@.take(i as int));
            assert(w.drop_last() =~= weights.take(i as int));
            assert(w.last() == numbers@[at + i]@);
            if i == 0 {
                assert(before =~= start);
            }
            assert(out@ =~= start + terms_json(now, w));
        }
    }
    proof {
        assert(terms@.take(terms@.len() as int) =~= terms@);
        assert(weights.take(terms@.len() as int) =~= weights);
    }
}

impl Node {
    /// Leaf helper.
    pub fn leaf(correction: Single) -> (r: Node)
        ensures
            r@ == (Tree::Leaf { correction }),
    {
        Node::Leaf { correction }
    }

    /// Axis-aligned split helper.
    pub fn stump(feature: usize, threshold: Single, left: Single, right: Single) -> (r: Node)
        ensures
            r@ matches Tree::Split { rule, left: l, right: h } && {
                &&& rule.terms == seq![Term { feature, weight: Single { bits: SINGLE_ONE } }]
                &&& rule.threshold == threshold
                &&& *l == (Tree::Leaf { correction: left })
                &&& *h == (Tree::Leaf { correction: right })
            },
    {
        let l = Node::leaf(left);
        let h = Node::leaf(right);
        Node::Split {
            condition: Condition::axis(feature, threshold),
            left: Box::new(l),
            right: Box::new(h),
        }
    }

    /// Correction for one record, under an axis-aligned tree.
    pub fn evaluate(&self, inputs: &Vec<Single>) -> (r: Single)
        requires
            self@.axis_aligned(),
        ensures
            r == self@.axis_value(inputs@),
        decreases self,
    {
        match self {
            Node::Leaf { correction } => *correction,
            Node::Split { condition, left, right } => {
                if condition.goes_right(inputs) {
                    right.evaluate(inputs)
                } else {
                    left.evaluate(inputs)
                }
            },
        }
    }

    fn evaluate_from(&self, sums: &Vec<Single>, at: usize) -> (r: (Single, usize))
        requires
            at + self@.splits() <= sums@.len(),
        ensures
            r.0 == self@.sum_value(sums@, at as int),
            r.1 == at + self@.splits(),
        decreases self,
    {
        match self {
            Node::Leaf { correction } => (*correction, at),
            Node::Split { left, right, .. } => {
                let total: usize = sums.len();
                assert(at < total);
                let (l, middle) = left.evaluate_from(sums, at + 1);
                let (h, end) = right.evaluate_from(sums, middle);
                if Condition::sum_goes_right(sums[at]) {
                    (h, end)
                } else {
                    (l, end)
                }
            },
        }
    }

    /// Correction for one record, oblique splits included, from its weighted sum
    /// at every split, less the threshold: a split before its left side, and that
    /// before its right side.
    pub fn evaluate_sums(&self, sums: &Vec<Single>) -> (r: Single)
        requires
            sums@.len() == self@.splits(),
        ensures
            r == self@.sum_value(sums@, 0),
    {
        self.evaluate_from(sums, 0).0
    }

    /// Maximum depth (a leaf is depth 0, a stump depth 1).
    pub fn depth(&self) -> (r: usize)
        requires
            self@.depth() <= usize::MAX,
        ensures
            r == self@.depth(),
        decreases self,
    {
        match self {
            Node::Leaf { .. } => 0,
            Node::Split { left, right, .. } => {
                let l: usize = left.depth();
                let h: usize = right.depth();
                if l >= h {
                    1 + l
                } else {
                    1 + h
                }
            },
        }
    }

    /// Number of split nodes.
    pub fn split_count(&self) -> (r: usize)
        requires
            self@.splits() <= usize::MAX,
        ensures
            r == self@.splits(),
        decreases self,
    {
        match self {
            Node::Leaf { .. } => 0,
            Node::Split { left, right, .. } => 1 + left.split_count() + right.split_count(),
        }
    }

    /// Number of leaves whose correction is exactly zero.
    pub fn zero_leaves(&self) -> (r: usize)
        requires
            self@.leaves().len() <= usize::MAX,
        ensures
            r == zeros(self@.leaves()),
            r <= self@.leaves().len(),
        decreases self,
    {
        let is_zero = Ghost(|v: Single| v.same_value(Single { bits: 0 }));
        match self {
            Node::Leaf { correction } => {
                proof {
                    let one = seq![*correction];
                    assert(one.drop_last() =~= Seq::<Single>::empty());
                    reveal(Seq::filter);
                    assert(Seq::<Single>::empty().filter(is_zero@).len() == 0);
                }
                if correction.eq_value(Single::zero()) {
                    1
                } else {
                    0
                }
            },
            Node::Split { left, right, .. } => {
                proof {
                    Seq::filter_distributes_over_add(left@.leaves(), right@.leaves(), is_zero@);
                }
                let l: usize = left.zero_leaves();
                let h: usize = right.zero_leaves();
                l + h
            },
        }
    }

    /// Largest absolute leaf correction; NaN leaves count only when there is
    /// nothing else.
    pub fn max_abs_correction(&self) -> (r: Single)
        ensures
            !r.negative(),
            r.nan() <==> (forall|i: int|
                0 <= i < self@.leaves().len() ==> (#[trigger] self@.leaves()[i]).nan()),
            !r.nan() ==> {
                &&& exists|i: int|
                    0 <= i < self@.leaves().len() && (#[trigger] self@.leaves()[i]).magnitude()
                        == r.bits
                &&& forall|i: int|
                    0 <= i < self@.leaves().len() && !(#[trigger] self@.leaves()[i]).nan()
                        ==> self@.leaves()[i].magnitude() <= r.bits
            },
        decreases self,
    {
        match self {
            Node::Leaf { correction } => {
                let r = correction.abs();
                assert(self@.leaves()[0] == *correction);
                r
            },
            Node::Split { left, right, .. } => {
                let l = left.max_abs_correction();
                let h = right.max_abs_correction();
                let ghost n = left@.leaves().len() as int;
                let ghost all = self@.leaves();
                proof {
                    assert(forall|i: int| 0 <= i < n ==> all[i] == left@.leaves()[i]);
                    assert forall|i: int| 0 <= i < right@.leaves().len() implies
                        #[trigger] right@.leaves()[i] == all[n + i] by {}
                    assert(forall|i: int| n <= i < all.len() ==> all[i] == right@.leaves()[i - n]);
                }
                if l.is_nan() {
                    h
                } else if h.is_nan() || l.bits >= h.bits {
                    proof {
                        let k = choose|i: int|
                            0 <= i < left@.leaves().len() && (
                            #[trigger] left@.leaves()[i]).magnitude() == l.bits;
                        assert(all[k].magnitude() == l.bits);
                    }
                    l
                } else {
                    proof {
                        let k = choose|i: int|
                            0 <= i < right@.leaves().len() && (
                            #[trigger] right@.leaves()[i]).magnitude() == h.bits;
                        assert(all[n + k].magnitude() == h.bits);
                    }
                    h
                }
            },
        }
    }

    /// Distinct features referenced by any condition, ascending.
    pub fn features(&self) -> (r: Vec<usize>)
        ensures
            ascending(r@),
            forall|f: usize| r@.contains(f) <==> self@.mentions(f),
    {
        let mut out: Vec<usize> = Vec::new();
        self.collect_features(&mut out);
        out
    }

    pub(crate) fn collect_features(&self, out: &mut Vec<usize>)
        requires
            ascending(old(out)@),
        ensures
            ascending(final(out)@),
            forall|f: usize|
                #![trigger final(out)@.contains(f)]
                final(out)@.contains(f) <==> old(out)@.contains(f) || self@.mentions(f),
        decreases self,
    {
        if let Node::Split { condition, left, right } = self {
            let ghost rule = condition@;
            for i in 0..condition.terms.len()
                invariant
                    rule == condition@,
                    ascending(out@),
                    forall|f: usize|
                        out@.contains(f) <==> old(out)@.contains(f) || (exists|j: int|
                            0 <= j < i && (#[trigger] rule.terms[j]).feature == f),
            {
                let ghost before = out@;
                insert_feature(out, condition.terms[i].feature);
                proof {
                    assert forall|f: usize|
                        out@.contains(f) <==> old(out)@.contains(f) || (exists|j: int|
                            0 <= j < i + 1 && (#[trigger] rule.terms[j]).feature == f) by {
                        if f == rule.terms[i as int].feature {
                            assert(rule.terms[i as int].feature == f);
                        }
                        if before.contains(f) && !old(out)@.contains(f) {
                            let j = choose|j: int|
                                0 <= j < i && (#[trigger] rule.terms[j]).feature == f;
                            assert(rule.terms[j].feature == f);
                        }
                    }
                }
            }
            let ghost own = out@;
            left.collect_features(out);
            let ghost below = out@;
            right.collect_features(out);
            proof {
                assert forall|f: usize| out@.contains(f) <==> old(out)@.contains(f)
                    || self@.mentions(f) by {
                    assert(own.contains(f) <==> old(out)@.contains(f) || rule.mentions(f));
                    assert(below.contains(f) <==> own.contains(f) || (**left)@.mentions(f));
                    assert(self@.mentions(f) == (rule.mentions(f) || (**left)@.mentions(f) || (
                    **right)@.mentions(f)));
                }
            }
        }
    }

    /// The corrections of the leaves, left to right.
    pub fn leaves(&self) -> (r: Vec<Single>)
        ensures
            r@ == self@.leaves(),
        decreases self,
    {
        match self {
            Node::Leaf { correction } => {
                let mut out: Vec<Single> = Vec::new();
                out.push(*correction);
                assert(out@ =~= self@.leaves());
                out
            },
            Node::Split { left, right, .. } => {
                let mut out = left.leaves();
                let mut rest = right.leaves();
                out.append(&mut rest);
                assert(out@ =~= self@.leaves());
                out
            },
        }
    }

    /// The same tree with other leaves (used for magnitude variants, whose
    /// scaled corrections the caller computes).
    pub fn with_leaves(&self, values: &Vec<Single>) -> (r: Node)
        requires
            values@.len() == self@.leaves().len(),
        ensures
            r@ == self@.with_leaves(values@),
    {
        let (node, used) = self.with_leaves_from(values, 0);
        proof {
            assert(values@.subrange(0, used as int) =~= values@);
        }
        node
    }

    fn with_leaves_from(&self, values: &Vec<Single>, at: usize) -> (r: (Node, usize))
        requires
            at + self@.leaves().len() <= values@.len(),
        ensures
            r.1 == at + self@.leaves().len(),
            r.0@ == self@.with_leaves(values@.subrange(at as int, r.1 as int)),
        decreases self,
    {
        proof {
            leaves_are_splits_plus_one(self@);
        }
        match self {
            Node::Leaf { .. } => {
                assert(self@.leaves().len() == 1 && values.len() == values@.len());
                (Node::Leaf { correction: values[at] }, at + 1)
            },
            Node::Split { condition, left, right } => {
                let (l, mid) = left.with_leaves_from(values, at);
                let (h, end) = right.with_leaves_from(values, mid);
                proof {
                    let own = values@.subrange(at as int, end as int);
                    let n = left@.leaves().len() as int;
                    assert(own.take(n) =~= values@.subrange(at as int, mid as int));
                    assert(own.skip(n) =~= values@.subrange(mid as int, end as int));
                }
                (
                    Node::Split {
                        condition: condition.clone(),
                        left: Box::new(l),
                        right: Box::new(h),
                    },
                    end,
                )
            },
        }
    }

    #[verifier::spinoff_prover]
    #[verifier::rlimit(60)]
    fn push_json(&self, out: &mut String, numbers: &Vec<String>, at: usize) -> (r: usize)
        requires
            at + number_count(self@) <= numbers@.len(),
        ensures
            r == at + number_count(self@),
            final(out)@ == old(out)@ + tree_json(
                self@,
                text::texts(numbers@).subrange(at as int, r as int),
            ),
        decreases self,
    {
        let ghost start = out@;
        assert(numbers.len() == numbers@.len());
        match self {
            Node::Leaf { .. } => {
                out.append("{\"kind\":\"leaf\",\"correction\":");
                out.append(numbers[at].as_str());
                out.append("}");
                proof {
                    let own = text::texts(numbers@).subrange(at as int, at + 1);
                    assert(own[0] == numbers@[at as int]@);
                    assert(out@ =~= start + tree_json(self@, own));
                }
                at + 1
            },
            Node::Split { condition, left, right } => {
                let n: usize = condition.terms.len();
                out.append("{\"kind\":\"split\",\"condition\":{\"terms\":[");
                push_terms(out, &condition.terms, numbers, at);
                out.append("],\"threshold\":");
                out.append(numbers[at + n].as_str());
                out.append("},\"left\":");
                let mid: usize = left.push_json(out, numbers, at + n + 1);
                out.append(",\"right\":");
                let end: usize = right.push_json(out, numbers, mid);
                out.append("}");
                proof {
                    let all = text::texts(numbers@);
                    let own = all.subrange(at as int, end as int);
                    let l = n + 1 + number_count((**left)@);
                    assert(own.take(n as int) =~= all.subrange(at as int, at + n));
                    assert(own[n as int] == numbers@[at + n]@);
                    assert(own.subrange(n + 1, l as int) =~= all.subrange(at + n + 1, mid as int));
                    assert(own.skip(l as int) =~= all.subrange(mid as int, end as int));
                    assert(out@ =~= start + tree_json(self@, own));
                }
                end
            },
        }
    }

    /// `true` if every value is finite.
    pub fn is_finite(&self) -> (r: bool)
        ensures
            r == self@.finite(),
        decreases self,
    {
        match self {
            Node::Leaf { correction } => correction.is_finite(),
            Node::Split { condition, left, right } => {
                condition.is_finite() && left.is_finite() && right.is_finite()
            },
        }
    }
}

impl Condition {
    /// Axis-aligned `x[feature] > threshold`.
    pub fn axis(feature: usize, threshold: Single) -> (r: Condition)
        ensures
            r@.terms == seq![Term { feature, weight: Single { bits: SINGLE_ONE } }],
            r@.threshold == threshold,
            r@.axis_aligned(),
    {
        let mut terms: Vec<Term> = Vec::new();
        terms.push(Term { feature, weight: Single::one() });
        assert(terms@ =~= seq![Term { feature, weight: Single { bits: SINGLE_ONE } }]);
        Condition { terms, threshold }
    }

    /// `true` when a record whose weighted sum, less the threshold, is `sum`
    /// takes the right branch.
    pub fn sum_goes_right(sum: Single) -> (r: bool)
        ensures
            r == sum.above(Single { bits: 0 }),
    {
        sum.gt(Single::zero())
    }

    /// `true` when the record takes the right branch of an axis-aligned
    /// condition.
    pub fn goes_right(&self, inputs: &Vec<Single>) -> (r: bool)
        requires
            self@.axis_aligned(),
        ensures
            r == self@.axis_holds(inputs@),
    {
        let feature: usize = self.terms[0].feature;
        let x = if feature < inputs.len() {
            inputs[feature]
        } else {
            Single::zero()
        };
        x.gt(self.threshold)
    }

    /// `true` when the only term is a single unit-weight feature.
    pub fn is_axis_aligned(&self) -> (r: bool)
        ensures
            r == self@.axis_aligned(),
    {
        self.terms.len() == 1 && self.terms[0].weight.eq_value(Single::one())
    }

    /// `true` if every value is finite.
    pub fn is_finite(&self) -> (r: bool)
        ensures
            r == self@.finite(),
    {
        for i in 0..self.terms.len()
            invariant
                forall|j: int| 0 <= j < i ==> (#[trigger] self@.terms[j]).weight.finite(),
        {
            if !self.terms[i].weight.is_finite() {
                assert(!self@.terms[i as int].weight.finite());
                return false;
            }
        }
        self.threshold.is_finite()
    }

}

impl Patch {
    /// New patch in the current format.
    pub fn new(output: usize, root: Node, provenance: Provenance) -> (r: Patch)
        ensures
            r.version == PATCH_FORMAT_VERSION,
            r.output == output,
            r.root == root,
            r.provenance == provenance,
    {
        Patch { version: PATCH_FORMAT_VERSION, output, root, provenance }
    }

    /// The text that the identity is taken of: output and root, without the
    /// provenance. `numbers` are the tree's numbers as JSON writes them, in the
    /// order in which they occur.
    pub fn canonical_json(&self, numbers: &Vec<String>) -> (r: String)
        requires
            numbers@.len() == number_count(self.root@),
        ensures
            r@ == canonical(self.output as nat, self.root@, text::texts(numbers@)),
    {
        let mut out = String::new();
        out.append("[");
        let output = decimal_text(self.output as u64);
        out.append(output.as_str());
        out.append(",");
        let end: usize = self.root.push_json(&mut out, numbers, 0);
        out.append("]");
        proof {
            assert(text::texts(numbers@).subrange(0, end as int) =~= text::texts(numbers@));
            assert(out@ =~= canonical(self.output as nat, self.root@, text::texts(numbers@)));
        }
        out
    }

    /// Deterministic identity: the start of the SHA-256 of the output and the
    /// canonical root.
    pub fn id(&self, numbers: &Vec<String>) -> (r: String)
        requires
            numbers@.len() == number_count(self.root@),
        ensures
            r@ == patch_id(self.output as nat, self.root@, text::texts(numbers@)),
            r@.len() == 16,
    {
        let canonical = self.canonical_json(numbers);
        let hex = sha256_hex(canonical.as_str().as_bytes());
        first_chars(hex.as_str(), 16)
    }

    /// Correction for one record, under an axis-aligned tree.
    pub fn evaluate(&self, inputs: &Vec<Single>) -> (r: Single)
        requires
            self.root@.axis_aligned(),
        ensures
            r == self.root@.axis_value(inputs@),
    {
        self.root.evaluate(inputs)
    }
}

impl Clone for Condition {
    fn clone(&self) -> (r: Condition)
        ensures
            r@ == self@,
    {
        let terms = self.terms.clone();
        assert(terms@ =~= self.terms@);
        Condition { terms, threshold: self.threshold }
    }
}

impl Clone for Node {
    fn clone(&self) -> (r: Node)
        ensures
            r@ == self@,
        decreases self,
    {
        match self {
            Node::Leaf { correction } => Node::Leaf { correction: *correction },
            Node::Split { condition, left, right } => Node::Split {
                condition: condition.clone(),
                left: Box::new((&**left).clone()),
                right: Box::new((&**right).clone()),
            },
        }
    }
}

impl Clone for Provenance {
    fn clone(&self) -> (r: Provenance)
        ensures
            r@ == self@,
    {
        let notes = self.notes.clone();
        assert(text::texts(notes@) =~= text::texts(self.notes@));
        Provenance {
            strategy: self.strategy.clone(),
            backend: self.backend.clone(),
            predicted_gain: self.predicted_gain,
            affected_records: self.affected_records,
            search_records: self.search_records,
            incumbent_checksum: self.incumbent_checksum.clone(),
            seed: self.seed,
            notes,
        }
    }
}

impl Clone for Patch {
    fn clone(&self) -> (r: Patch)
        ensures
            r@ == self@,
    {
        Patch {
            version: self.version,
            output: self.output,
            root: self.root.clone(),
            provenance: self.provenance.clone(),
        }
    }
}

/// Put `feature` into an ascending list without repeats.
pub(crate) fn insert_feature(out: &mut Vec<usize>, feature: usize)
    requires
        ascending(old(out)@),
    ensures
        ascending(final(out)@),
        forall|f: usize|
            final(out)@.contains(f) <==> old(out)@.contains(f) || f == feature,
{
    let mut at: usize = 0;
    while at < out.len() && out[at] < feature
        invariant
            at <= out.len(),
            forall|k: int| 0 <= k < at ==> out[k] < feature,
        decreases out.len() - at,
    {
        at = at + 1;
    }
    if at < out.len() && out[at] == feature {
        assert(out@[at as int] == feature);
    } else {
        let ghost before = out@;
        out.insert(at, feature);
        proof {
            assert(out@ =~= before.insert(at as int, feature));
            assert(out@[at as int] == feature);
            assert forall|f: usize| out@.contains(f) <==> before.contains(f) || f == feature by {
                if before.contains(f) {
                    let k = choose|k: int| 0 <= k < before.len() && before[k] == f;
                    if k < at {
                        assert(out@[k] == f);
                    } else {
                        assert(out@[k + 1] == f);
                    }
                }
                if out@.contains(f) && f != feature {
                    let k = choose|k: int| 0 <= k < out@.len() && out@[k] == f;
                    if k < at {
                        assert(before[k] == f);
                    } else {
                        assert(before[k - 1] == f);
                    }
                }
            }
            assert forall|a: int, b: int| 0 <= a < b < out@.len() implies out@[a] < out@[b] by {
                if a < at && b > at {
                    assert(before[a] < before[b - 1]);
                } else if a > at {
                    assert(before[a - 1] < before[b - 1]);
                } else if a == at {
                    assert(before[at as int] <= before[b - 1]);
                }
            }
        }
    }
}

/// Append copies of patches, in order.
pub(crate) fn append_patches(to: &mut Vec<Patch>, from: &Vec<Patch>)
    ensures
        patch_models(final(to)@) == patch_models(old(to)@) + patch_models(
            from@,
        ),
{
    let n: usize = from.len();
    let ghost head = patch_models(to@);
    assert(patch_models(to@) =~= head + patch_models(from@).take(0));
    for i in 0..n
        invariant
            n == from@.len(),
            patch_models(to@) == head + patch_models(from@).take(i as int),
    {
        let ghost before = to@;
        let p = from[i].clone();
        to.push(p);
        assert(patch_models(to@) =~= patch_models(before).push(p@));
        assert(patch_models(to@) =~= head + patch_models(from@).take(i as int + 1));
    }
    assert(patch_models(from@).take(n as int) =~= patch_models(from@));
}

/// Copies of patches, in order.
pub(crate) fn copy_patches(patches: &Vec<Patch>) -> (r: Vec<Patch>)
    ensures
        patch_models(r@) == patch_models(patches@),
{
    let n: usize = patches.len();
    let mut out: Vec<Patch> = Vec::new();
    for i in 0..n
        invariant
            n == patches@.len(),
            patch_models(out@) == patch_models(patches@).take(i as int),
    {
        let ghost before = out@;
        let p = patches[i].clone();
        out.push(p);
        assert(patch_models(out@) =~= patch_models(before).push(p@));
        assert(patch_models(patches@).take(i as int + 1) =~= patch_models(patches@).take(
            i as int,
        ).push(patches@[i as int]@));
    }
    assert(patch_models(out@) =~= patch_models(patches@));
    out
}

/// Strictly ascending: sorted, no value twice.
pub open spec fn ascending(v: Seq<usize>) -> bool {
    forall|a: int, b: int| 0 <= a < b < v.len() ==> v[a] < v[b]
}

/// Strictly ascending lists with the same members are equal.
pub proof fn ascending_lists_are_determined(a: Seq<usize>, b: Seq<usize>)
    requires
        ascending(a),
        ascending(b),
        forall|f: usize| a.contains(f) <==> b.contains(f),
    ensures
        a == b,
    decreases a.len(),
{
    if a.len() == 0 {
        if b.len() > 0 {
            assert(b.contains(b[0]));
        }
        assert(a =~= b);
    } else {
        assert(a.contains(a[0]));
        let q = choose|q: int| 0 <= q < b.len() && b[q] == a[0];
        assert(b.contains(b[0]));
        let p = choose|p: int| 0 <= p < a.len() && a[p] == b[0];
        assert(a[0] == b[0]);
        let ra = a.drop_first();
        let rb = b.drop_first();
        assert forall|f: usize| ra.contains(f) <==> rb.contains(f) by {
            if ra.contains(f) {
                let k = choose|k: int| 0 <= k < ra.len() && ra[k] == f;
                assert(a[k + 1] == f);
                assert(b.contains(f));
                let m = choose|m: int| 0 <= m < b.len() && b[m] == f;
                assert(rb[m - 1] == f);
            }
            if rb.contains(f) {
                let k = choose|k: int| 0 <= k < rb.len() && rb[k] == f;
                assert(b[k + 1] == f);
                assert(a.contains(f));
                let m = choose|m: int| 0 <= m < a.len() && a[m] == f;
                assert(ra[m - 1] == f);
            }
        }
        ascending_lists_are_determined(ra, rb);
        assert(a =~= seq![a[0]] + ra);
        assert(b =~= seq![b[0]] + rb);
    }
}

/// By its sums or by its values, an axis-aligned tree gives a record the same
/// correction.
pub proof fn sums_evaluate_as_values(tree: Tree, sums: Seq<Single>, at: int, inputs: Seq<Single>)
    requires
        tree.axis_aligned(),
        tree.sums_agree(sums, at, inputs),
    ensures
        tree.sum_value(sums, at) == tree.axis_value(inputs),
    decreases tree,
{
    if let Tree::Split { left, right, .. } = tree {
        sums_evaluate_as_values(*left, sums, at + 1, inputs);
        sums_evaluate_as_values(*right, sums, at + 1 + left.splits(), inputs);
    }
}

/// A record above the threshold of a stump gets the right leaf, and every other one
/// the left leaf, one without a number among them.
pub proof fn stumps_send_the_larger_right(
    rule: Rule,
    left: Single,
    right: Single,
    inputs: Seq<Single>,
)
    requires
        rule.axis_aligned(),
        0 <= rule.terms[0].feature < inputs.len(),
    ensures
        ({
            let x = inputs[rule.terms[0].feature as int];
            let stump = Tree::Split {
                rule,
                left: Box::new(Tree::Leaf { correction: left }),
                right: Box::new(Tree::Leaf { correction: right }),
            };
            &&& x.above(rule.threshold) ==> stump.axis_value(inputs) == right
            &&& rule.threshold.above(x) || rule.threshold.same_value(x) || x.nan()
                ==> stump.axis_value(inputs) == left
        }),
{
    reveal_with_fuel(Tree::axis_value, 2);
}

/// What a tree gives a record is what one of its sides gives it, and in the end the
/// correction of one of its leaves.
pub proof fn values_are_those_of_a_leaf(t: Tree, inputs: Seq<Single>)
    ensures
        t.leaves().contains(t.axis_value(inputs)),
    decreases t,
{
    match t {
        Tree::Leaf { correction } => {
            assert(t.leaves()[0] == correction);
        },
        Tree::Split { rule, left, right } => {
            values_are_those_of_a_leaf(*left, inputs);
            values_are_those_of_a_leaf(*right, inputs);
            let value = t.axis_value(inputs);
            if rule.axis_holds(inputs) {
                let k = choose|k: int| 0 <= k < right.leaves().len() && right.leaves()[k] == value;
                assert(t.leaves()[left.leaves().len() + k] == value);
            } else {
                let k = choose|k: int| 0 <= k < left.leaves().len() && left.leaves()[k] == value;
                assert(t.leaves()[k] == value);
            }
        },
    }
}

/// A feature that no condition names does not matter.
pub proof fn only_mentioned_features_matter(t: Tree, a: Seq<Single>, b: Seq<Single>)
    requires
        t.axis_aligned(),
        a.len() == b.len(),
        forall|f: usize| #[trigger]
            t.mentions(f) ==> input_value(a, f as int) == input_value(b, f as int),
    ensures
        t.axis_value(a) == t.axis_value(b),
    decreases t,
{
    match t {
        Tree::Leaf { .. } => {},
        Tree::Split { rule, left, right } => {
            let f = rule.terms[0].feature;
            assert(rule.terms[0].feature == f && rule.mentions(f));
            assert(t.mentions(f));
            assert forall|g: usize| #[trigger] left.mentions(g) implies input_value(a, g as int)
                == input_value(b, g as int) by {
                assert(t.mentions(g));
            }
            assert forall|g: usize| #[trigger] right.mentions(g) implies input_value(a, g as int)
                == input_value(b, g as int) by {
                assert(t.mentions(g));
            }
            only_mentioned_features_matter(*left, a, b);
            only_mentioned_features_matter(*right, a, b);
        },
    }
}

/// A tree with a leaf that is no finite number is not finite.
pub proof fn finite_trees_have_finite_leaves(t: Tree)
    requires
        t.finite(),
    ensures
        forall|i: int| 0 <= i < t.leaves().len() ==> (#[trigger] t.leaves()[i]).finite(),
    decreases t,
{
    match t {
        Tree::Leaf { .. } => {},
        Tree::Split { rule, left, right } => {
            finite_trees_have_finite_leaves(*left);
            finite_trees_have_finite_leaves(*right);
            assert forall|i: int| 0 <= i < t.leaves().len() implies (
            #[trigger] t.leaves()[i]).finite() by {
                if i < left.leaves().len() {
                    assert(t.leaves()[i] == left.leaves()[i]);
                } else {
                    assert(t.leaves()[i] == right.leaves()[i - left.leaves().len()]);
                }
            }
        },
    }
}

/// A tree of depth `d` has at most `2^d` leaves.
pub proof fn shallow_trees_have_few_leaves(t: Tree)
    ensures
        t.leaves().len() <= vstd::arithmetic::power2::pow2(t.depth()),
    decreases t,
{
    match t {
        Tree::Leaf { .. } => {
            vstd::arithmetic::power2::lemma2_to64();
        },
        Tree::Split { left, right, .. } => {
            shallow_trees_have_few_leaves(*left);
            shallow_trees_have_few_leaves(*right);
            let d = larger(left.depth(), right.depth());
            if left.depth() < d {
                vstd::arithmetic::power2::lemma_pow2_strictly_increases(left.depth(), d);
            }
            if right.depth() < d {
                vstd::arithmetic::power2::lemma_pow2_strictly_increases(right.depth(), d);
            }
            vstd::arithmetic::power2::lemma_pow2_unfold(d + 1);
        },
    }
}

/// The zeros among values are those of each part of them: all of them when every
/// value is zero, of either sign, and none when no value is.
pub proof fn zeros_add_up(a: Seq<Single>, b: Seq<Single>)
    ensures
        zeros(a + b) == zeros(a) + zeros(b),
        zeros(a) <= a.len(),
        (forall|i: int| 0 <= i < a.len() ==> (#[trigger] a[i]).num() == 0) ==> zeros(a) == a.len(),
        (forall|i: int| 0 <= i < a.len() ==> (#[trigger] a[i]).num() != 0) ==> zeros(a) == 0,
    decreases a.len() + b.len(),
{
    reveal(Seq::filter);
    if b.len() == 0 {
        assert(a + b =~= a);
        if a.len() > 0 {
            zeros_add_up(a.drop_last(), b);
            assert(a.last() == a[a.len() - 1]);
            assert forall|i: int| 0 <= i < a.len() - 1 implies a.drop_last()[i] == #[trigger] a[i] by {}
        }
    } else {
        zeros_add_up(a, b.drop_last());
        assert((a + b).drop_last() =~= a + b.drop_last());
        assert((a + b).last() == b.last());
    }
}

/// The JSON of an axis-aligned tree writes a weight and a threshold per split, and a
/// correction per leaf.
pub proof fn axis_aligned_trees_write_three_numbers_a_split(t: Tree)
    requires
        t.axis_aligned(),
    ensures
        number_count(t) == 2 * t.splits() + t.leaves().len(),
    decreases t,
{
    match t {
        Tree::Leaf { .. } => {},
        Tree::Split { left, right, .. } => {
            axis_aligned_trees_write_three_numbers_a_split(*left);
            axis_aligned_trees_write_three_numbers_a_split(*right);
        },
    }
}

/// The JSON of a stump on one feature: its weight, its threshold, then the left and
/// the right leaf.
pub proof fn stumps_are_written_left_to_right(
    rule: Rule,
    left: Single,
    right: Single,
    weight: Seq<char>,
    threshold: Seq<char>,
    low: Seq<char>,
    high: Seq<char>,
)
    requires
        rule.terms.len() == 1,
    ensures
        ({
            let stump = Tree::Split {
                rule,
                left: Box::new(Tree::Leaf { correction: left }),
                right: Box::new(Tree::Leaf { correction: right }),
            };
            tree_json(stump, seq![weight, threshold, low, high])
                == "{\"kind\":\"split\",\"condition\":{\"terms\":["@ + ("{\"feature\":"@
                + text::decimal(rule.terms[0].feature as nat) + ",\"weight\":"@ + weight + "}"@)
                + "],\"threshold\":"@ + threshold + "},\"left\":"@ + (
            "{\"kind\":\"leaf\",\"correction\":"@ + low + "}"@) + ",\"right\":"@ + (
            "{\"kind\":\"leaf\",\"correction\":"@ + high + "}"@) + "}"@
        }),
{
    reveal_with_fuel(tree_json, 2);
    reveal_with_fuel(number_count, 2);
    let numbers = seq![weight, threshold, low, high];
    assert(numbers.take(1)[0] == weight);
    assert(numbers.subrange(2, 3)[0] == low);
    assert(numbers.skip(3)[0] == high);
}

} // verus!
