//! Residual trees of depth two and three.
//!
//! A tree grows on the quantised search set, level by level or best leaf first.
//! A leaf is the path of comparisons that leads to it; a record reaches the leaf
//! whose path it follows. Sums over the records of a leaf are the caller's; the
//! choice of what to split, the paths and the finished tree are made here.

use vstd::prelude::*;
use vstd::slice::slice_subrange;
use vstd::string::*;

use crate::bins;
use crate::bins::BinCache;
use crate::config::GrowthPolicy;
use crate::floats::{Double, Single};
use crate::histogram::{BinnedChunk, SearchControls, StumpCandidate, StumpKind};
use crate::math;
use crate::math::clamp_size;
use crate::patch;
use crate::patch::{Condition, Node, Rule, Term, Tree};
use crate::ranking::Ranked;

verus! {

/// One comparison on the way to a leaf.
#[derive(Debug, Clone, Copy, PartialEq, Eq, Structural)]
pub struct PathStep {
    /// Feature, in the search set's numbering.
    pub feature: usize,
    /// The comparison is with the edge after this bin.
    pub bin: usize,
    /// The path takes the right branch.
    pub right: bool,
}

/// The record whose bins these are takes the step.
pub open spec fn takes(step: PathStep, row: Seq<u8>) -> bool {
    (row[step.feature as int] > step.bin) == step.right
}

/// The record takes every step.
pub open spec fn follows(path: Seq<PathStep>, row: Seq<u8>) -> bool {
    forall|i: int| 0 <= i < path.len() ==> takes(#[trigger] path[i], row)
}

/// Every step compares a feature that the rows have.
pub open spec fn within(path: Seq<PathStep>, features: int) -> bool {
    forall|i: int| 0 <= i < path.len() ==> (#[trigger] path[i]).feature < features
}

/// Every record follows the empty path, and the two paths that a split makes of
/// a path part its records: one that follows the path follows exactly one of
/// them, the right one when its bin lies above the split, and one that does not
/// follows neither.
pub proof fn children_part_their_parent(
    path: Seq<PathStep>,
    feature: usize,
    bin: usize,
    row: Seq<u8>,
)
    ensures
        follows(Seq::empty(), row),
        ({
            let left = path.push(PathStep { feature, bin, right: false });
            let right = path.push(PathStep { feature, bin, right: true });
            &&& follows(path, row) ==> (follows(right, row) <==> row[feature as int] > bin)
            &&& follows(path, row) ==> (follows(left, row) <==> row[feature as int] <= bin)
            &&& !follows(path, row) ==> !follows(left, row) && !follows(right, row)
        }),
{
    step_is_followed(path, PathStep { feature, bin, right: false }, row);
    step_is_followed(path, PathStep { feature, bin, right: true }, row);
}

proof fn step_is_followed(path: Seq<PathStep>, step: PathStep, row: Seq<u8>)
    ensures
        follows(path.push(step), row) <==> follows(path, row) && takes(step, row),
{
    let longer = path.push(step);
    assert(longer[path.len() as int] == step);
    if follows(longer, row) {
        assert forall|i: int| 0 <= i < path.len() implies takes(#[trigger] path[i], row) by {
            assert(longer[i] == path[i]);
        }
    }
}

/// The record with the given bins reaches the leaf at the end of `path`.
pub fn reaches(path: &Vec<PathStep>, bins: &[u8]) -> (r: bool)
    requires
        within(path@, bins@.len() as int),
    ensures
        r == follows(path@, bins@),
{
    for i in 0..path.len()
        invariant
            within(path@, bins@.len() as int),
            forall|j: int| 0 <= j < i ==> takes(#[trigger] path@[j], bins@),
    {
        let s = path[i];
        assert(path@[i as int].feature < bins@.len());
        if (bins[s.feature] as usize > s.bin) != s.right {
            assert(!takes(path@[i as int], bins@));
            return false;
        }
    }
    true
}

/// Which records of a chunk reach the leaf at the end of `path`.
pub fn leaf_mask(path: &Vec<PathStep>, chunk: &BinnedChunk) -> (r: Vec<bool>)
    requires
        chunk.well_formed(),
        within(path@, chunk.features as int),
    ensures
        r@ == Seq::new(chunk.records as nat, |i: int| follows(path@, chunk.row(i))),
{
    let mut out: Vec<bool> = Vec::new();
    let total: usize = chunk.bins.len();
    for i in 0..chunk.records
        invariant
            total == chunk.bins@.len(),
            chunk.well_formed(),
            within(path@, chunk.features as int),
            out@ == Seq::new(i as nat, |k: int| follows(path@, chunk.row(k))),
    {
        assert(i * chunk.features + chunk.features <= chunk.records * chunk.features)
            by (nonlinear_arith)
            requires
                i + 1 <= chunk.records,
        ;
        assert((i + 1) * chunk.features == i * chunk.features + chunk.features)
            by (nonlinear_arith);
        assert(0 <= i * chunk.features) by (nonlinear_arith);
        let from: usize = i * chunk.features;
        let row = slice_subrange(chunk.bins.as_slice(), from, from + chunk.features);
        out.push(reaches(path, row));
        assert(out@ =~= Seq::new((i + 1) as nat, |k: int| follows(path@, chunk.row(k))));
    }
    out
}

// ---------------------------------------------------------------------------
// Roots.
// ---------------------------------------------------------------------------

/// A feature is among the first entries.
pub open spec fn has_feature(roots: Seq<(usize, usize)>, feature: usize) -> bool {
    exists|i: int| 0 <= i < roots.len() && (#[trigger] roots[i]).0 == feature
}

/// The best-ranked stump of each distinct feature, in rank order, as long as
/// there are fewer than `limit`.
pub open spec fn distinct_roots(
    stumps: Seq<StumpCandidate>,
    n: int,
    limit: int,
) -> Seq<(usize, usize)>
    decreases n,
{
    if n <= 0 {
        Seq::empty()
    } else {
        let before = distinct_roots(stumps, n - 1, limit);
        let s = stumps[n - 1];
        if before.len() < limit && !has_feature(before, s.feature) {
            before.push((s.feature, s.bin))
        } else {
            before
        }
    }
}

/// The `(feature, bin)` roots to grow trees from: the best-ranked stumps, one
/// per distinct feature, at most `limit` of them.
pub fn root_features(stumps: &Vec<StumpCandidate>, limit: usize) -> (r: Vec<(usize, usize)>)
    ensures
        r@ == distinct_roots(stumps@, stumps@.len() as int, limit as int),
{
    let mut out: Vec<(usize, usize)> = Vec::new();
    for i in 0..stumps.len()
        invariant
            out@ == distinct_roots(stumps@, i as int, limit as int),
    {
        let feature: usize = stumps[i].feature;
        if out.len() < limit {
            let mut j: usize = 0;
            while j < out.len() && out[j].0 != feature
                invariant
                    j <= out@.len(),
                    forall|k: int| 0 <= k < j ==> (#[trigger] out@[k]).0 != feature,
                decreases out@.len() - j,
            {
                j = j + 1;
            }
            if j == out.len() {
                assert(!has_feature(out@, feature));
                out.push((feature, stumps[i].bin));
            } else {
                assert(out@[j as int].0 == feature);
            }
        }
    }
    out
}

/// No two roots share a feature, and there are never more than the limit.
pub proof fn roots_have_distinct_features(stumps: Seq<StumpCandidate>, n: int, limit: int)
    requires
        0 <= n <= stumps.len(),
        0 <= limit,
    ensures
        distinct_roots(stumps, n, limit).len() <= limit,
        forall|i: int, j: int|
            0 <= i < j < distinct_roots(stumps, n, limit).len() ==> (
            #[trigger] distinct_roots(stumps, n, limit)[i]).0 != (#[trigger] distinct_roots(
                stumps,
                n,
                limit,
            )[j]).0,
    decreases n,
{
    if n > 0 {
        roots_have_distinct_features(stumps, n - 1, limit);
        let before = distinct_roots(stumps, n - 1, limit);
        let now = distinct_roots(stumps, n, limit);
        assert forall|i: int, j: int| 0 <= i < j < now.len() implies (#[trigger] now[i]).0 != (
        #[trigger] now[j]).0 by {
            if j == before.len() {
                assert(now[i] == before[i]);
            }
        }
    }
}

// ---------------------------------------------------------------------------
// Shapes.
// ---------------------------------------------------------------------------

/// The comparisons of a growing tree.
pub enum Shape {
    Leaf,
    Split { feature: usize, bin: usize, left: Box<Shape>, right: Box<Shape> },
}

impl Shape {
    /// Number of leaves.
    pub open spec fn leaves(self) -> nat
        decreases self,
    {
        match self {
            Shape::Leaf => 1,
            Shape::Split { left, right, .. } => left.leaves() + right.leaves(),
        }
    }

    /// Number of splits.
    pub open spec fn splits(self) -> nat
        decreases self,
    {
        match self {
            Shape::Leaf => 0,
            Shape::Split { left, right, .. } => 1 + left.splits() + right.splits(),
        }
    }

    /// Longest path.
    pub open spec fn depth(self) -> nat
        decreases self,
    {
        match self {
            Shape::Leaf => 0,
            Shape::Split { left, right, .. } => 1 + patch::larger(left.depth(), right.depth()),
        }
    }

    /// The paths to the leaves, left to right, each behind `prefix`.
    pub open spec fn paths(self, prefix: Seq<PathStep>) -> Seq<Seq<PathStep>>
        decreases self,
    {
        match self {
            Shape::Leaf => seq![prefix],
            Shape::Split { feature, bin, left, right } => left.paths(
                prefix.push(PathStep { feature, bin, right: false }),
            ) + right.paths(prefix.push(PathStep { feature, bin, right: true })),
        }
    }

    /// The value of the leaf that a record reaches.
    pub open spec fn value(self, values: Seq<Single>, row: Seq<u8>) -> Single
        decreases self,
    {
        match self {
            Shape::Leaf => values[0],
            Shape::Split { feature, bin, left, right } => if row[feature as int] > bin {
                right.value(values.skip(left.leaves() as int), row)
            } else {
                left.value(values.take(left.leaves() as int), row)
            },
        }
    }

    /// The shape with some leaves split, leaf by leaf.
    pub open spec fn split_leaves(self, choices: Seq<Option<(usize, usize)>>) -> Shape
        decreases self,
    {
        match self {
            Shape::Leaf => match choices[0] {
                Some((feature, bin)) => Shape::Split {
                    feature,
                    bin,
                    left: Box::new(Shape::Leaf),
                    right: Box::new(Shape::Leaf),
                },
                None => Shape::Leaf,
            },
            Shape::Split { feature, bin, left, right } => Shape::Split {
                feature,
                bin,
                left: Box::new(left.split_leaves(choices.take(left.leaves() as int))),
                right: Box::new(right.split_leaves(choices.skip(left.leaves() as int))),
            },
        }
    }

    /// The tree with this shape and these leaves.
    pub open spec fn tree(self, values: Seq<Single>, cuts: Cuts) -> Tree
        decreases self,
    {
        match self {
            Shape::Leaf => Tree::Leaf { correction: values[0] },
            Shape::Split { feature, bin, left, right } => Tree::Split {
                rule: cuts.rule(feature, bin),
                left: Box::new(left.tree(values.take(left.leaves() as int), cuts)),
                right: Box::new(right.tree(values.skip(left.leaves() as int), cuts)),
            },
        }
    }

    /// Every comparison is with an edge that its feature has.
    pub open spec fn cut_by(self, cuts: Cuts) -> bool
        decreases self,
    {
        match self {
            Shape::Leaf => true,
            Shape::Split { feature, bin, left, right } => {
                &&& feature < cuts.features.len()
                &&& cuts.features[feature as int] < cuts.edges.len()
                &&& bin < cuts.edges[cuts.features[feature as int] as int].len()
                &&& left.cut_by(cuts)
                &&& right.cut_by(cuts)
            },
        }
    }
}

/// What a search set's features and bins stand for.
pub struct Cuts {
    /// The edges of each input.
    pub edges: Seq<Seq<Single>>,
    /// The input that each feature of the set is.
    pub features: Seq<usize>,
}

impl Cuts {
    /// The threshold after a bin; zero where there is no such edge.
    pub open spec fn threshold(self, feature: usize, bin: usize) -> Single {
        let own = self.edges[self.features[feature as int] as int];
        if bin < own.len() {
            own[bin as int]
        } else {
            Single { bits: 0 }
        }
    }

    /// The condition that a comparison stands for.
    pub open spec fn rule(self, feature: usize, bin: usize) -> Rule {
        Rule {
            terms: seq![
                Term {
                    feature: self.features[feature as int],
                    weight: Single { bits: crate::floats::SINGLE_ONE },
                },
            ],
            threshold: self.threshold(feature, bin),
        }
    }

    /// The bins of a record's features.
    pub open spec fn row(self, inputs: Seq<Single>) -> Seq<u8> {
        Seq::new(
            self.features.len(),
            |i: int|
                (bins::bin_index(
                    self.edges[self.features[i] as int],
                    patch::input_value(inputs, self.features[i] as int),
                ) % 256) as u8,
        )
    }

    /// The edges ascend and are few enough for bins to fit a byte.
    pub open spec fn well_formed(self) -> bool {
        forall|f: int|
            0 <= f < self.edges.len() ==> bins::strictly_ascending(#[trigger] self.edges[f])
                && self.edges[f].len() < 256
    }
}

/// A shape has one leaf more than it has splits, as many paths as leaves, and
/// fewer splits than a full tree of its depth.
pub proof fn shape_counts(s: Shape, prefix: Seq<PathStep>)
    ensures
        s.leaves() == s.splits() + 1,
        s.paths(prefix).len() == s.leaves(),
        s.splits() < vstd::arithmetic::power2::pow2(s.depth()),
        forall|i: int|
            0 <= i < s.leaves() ==> {
                let p = #[trigger] s.paths(prefix)[i];
                prefix.len() <= p.len() <= prefix.len() + s.depth() && p.take(prefix.len() as int)
                    == prefix
            },
    decreases s,
{
    match s {
        Shape::Leaf => {
            vstd::arithmetic::power2::lemma2_to64();
            assert(prefix.take(prefix.len() as int) =~= prefix);
        },
        Shape::Split { feature, bin, left, right } => {
            let l = prefix.push(PathStep { feature, bin, right: false });
            let h = prefix.push(PathStep { feature, bin, right: true });
            shape_counts(*left, l);
            shape_counts(*right, h);
            let d = patch::larger(left.depth(), right.depth());
            pow2_grows(left.depth(), d);
            pow2_grows(right.depth(), d);
            vstd::arithmetic::power2::lemma_pow2_unfold((1 + d) as nat);
            let all = s.paths(prefix);
            assert forall|i: int| 0 <= i < s.leaves() implies {
                let p = #[trigger] all[i];
                prefix.len() <= p.len() <= prefix.len() + s.depth() && p.take(prefix.len() as int)
                    == prefix
            } by {
                if i < left.leaves() {
                    let p = left.paths(l)[i];
                    assert(all[i] == p);
                    assert(p.take(prefix.len() as int) =~= p.take(l.len() as int).take(
                        prefix.len() as int,
                    ));
                    assert(l.take(prefix.len() as int) =~= prefix);
                } else {
                    let p = right.paths(h)[i - left.leaves()];
                    assert(all[i] == p);
                    assert(p.take(prefix.len() as int) =~= p.take(h.len() as int).take(
                        prefix.len() as int,
                    ));
                    assert(h.take(prefix.len() as int) =~= prefix);
                }
            }
        },
    }
}

proof fn pow2_grows(a: nat, b: nat)
    requires
        a <= b,
    ensures
        vstd::arithmetic::power2::pow2(a) <= vstd::arithmetic::power2::pow2(b),
    decreases b,
{
    if a < b {
        pow2_grows(a, (b - 1) as nat);
        vstd::arithmetic::power2::lemma_pow2_unfold(b);
    }
}

proof fn follows_prefix(prefix: Seq<PathStep>, p: Seq<PathStep>, row: Seq<u8>)
    requires
        p.len() >= prefix.len(),
        p.take(prefix.len() as int) == prefix,
        follows(p, row),
    ensures
        follows(prefix, row),
{
    assert forall|i: int| 0 <= i < prefix.len() implies takes(#[trigger] prefix[i], row) by {
        assert(p[i] == prefix[i]);
    }
}

/// A record reaches exactly one leaf of a tree, and its value there is what the
/// tree gives the record.
pub proof fn every_record_reaches_one_leaf(
    s: Shape,
    prefix: Seq<PathStep>,
    values: Seq<Single>,
    row: Seq<u8>,
) -> (i: int)
    requires
        follows(prefix, row),
        values.len() == s.leaves(),
    ensures
        0 <= i < s.leaves(),
        follows(s.paths(prefix)[i], row),
        s.value(values, row) == values[i],
        forall|j: int| 0 <= j < s.leaves() && j != i ==> !follows(#[trigger] s.paths(prefix)[j], row),
    decreases s,
{
    match s {
        Shape::Leaf => 0,
        Shape::Split { feature, bin, left, right } => {
            let l = prefix.push(PathStep { feature, bin, right: false });
            let h = prefix.push(PathStep { feature, bin, right: true });
            let n = left.leaves() as int;
            shape_counts(*left, l);
            shape_counts(*right, h);
            shape_counts(s, prefix);
            let all = s.paths(prefix);
            if row[feature as int] > bin {
                assert(follows(h, row));
                let k = every_record_reaches_one_leaf(*right, h, values.skip(n), row);
                assert(all[n + k] == right.paths(h)[k]);
                assert forall|j: int| 0 <= j < s.leaves() && j != n + k implies !follows(
                    #[trigger] all[j],
                    row,
                ) by {
                    if j < n {
                        let p = left.paths(l)[j];
                        assert(all[j] == p);
                        if follows(p, row) {
                            follows_prefix(l, p, row);
                            assert(takes(l.last(), row));
                        }
                    } else {
                        assert(all[j] == right.paths(h)[j - n]);
                    }
                }
                n + k
            } else {
                assert(follows(l, row));
                let k = every_record_reaches_one_leaf(*left, l, values.take(n), row);
                assert(all[k] == left.paths(l)[k]);
                assert forall|j: int| 0 <= j < s.leaves() && j != k implies !follows(
                    #[trigger] all[j],
                    row,
                ) by {
                    if j >= n {
                        let p = right.paths(h)[j - n];
                        assert(all[j] == p);
                        if follows(p, row) {
                            follows_prefix(h, p, row);
                            assert(takes(h.last(), row));
                        }
                    } else {
                        assert(all[j] == left.paths(l)[j]);
                    }
                }
                k
            }
        },
    }
}

/// The finished tree gives a record, by its values, what the growing tree gives
/// it by its bins: quantisation changes no route.
pub proof fn tree_agrees_with_bins(s: Shape, values: Seq<Single>, cuts: Cuts, inputs: Seq<Single>)
    requires
        values.len() == s.leaves(),
        s.cut_by(cuts),
        cuts.well_formed(),
    ensures
        s.tree(values, cuts).axis_aligned(),
        s.tree(values, cuts).axis_value(inputs) == s.value(values, cuts.row(inputs)),
        s.tree(values, cuts).leaves() == values,
        s.tree(values, cuts).depth() == s.depth(),
        s.tree(values, cuts).splits() == s.splits(),
    decreases s,
{
    match s {
        Shape::Leaf => {
            assert(s.tree(values, cuts).leaves() =~= values);
        },
        Shape::Split { feature, bin, left, right } => {
            shape_counts(*left, Seq::empty());
            shape_counts(*right, Seq::empty());
            let n = left.leaves() as int;
            tree_agrees_with_bins(*left, values.take(n), cuts, inputs);
            tree_agrees_with_bins(*right, values.skip(n), cuts, inputs);
            let own = cuts.edges[cuts.features[feature as int] as int];
            let x = patch::input_value(inputs, cuts.features[feature as int] as int);
            bins::bins_agree_with_thresholds(own, x, bin as int);
            assert(bins::bin_index(own, x) < 256);
            assert(cuts.row(inputs)[feature as int] == bins::bin_index(own, x));
            assert(values.take(n) + values.skip(n) =~= values);
        },
    }
}

/// Splitting leaves puts, for each leaf that is split, its two children in its
/// place.
pub open spec fn split_paths(
    paths: Seq<Seq<PathStep>>,
    choices: Seq<Option<(usize, usize)>>,
) -> Seq<Seq<PathStep>>
    decreases paths.len(),
{
    if paths.len() == 0 {
        Seq::empty()
    } else {
        let p = paths.last();
        split_paths(paths.drop_last(), choices.drop_last()) + match choices.last() {
            Some((feature, bin)) => seq![
                p.push(PathStep { feature, bin, right: false }),
                p.push(PathStep { feature, bin, right: true }),
            ],
            None => seq![p],
        }
    }
}

proof fn split_paths_concatenate(
    a: Seq<Seq<PathStep>>,
    b: Seq<Seq<PathStep>>,
    ca: Seq<Option<(usize, usize)>>,
    cb: Seq<Option<(usize, usize)>>,
)
    requires
        a.len() == ca.len(),
        b.len() == cb.len(),
    ensures
        split_paths(a + b, ca + cb) == split_paths(a, ca) + split_paths(b, cb),
    decreases b.len(),
{
    if b.len() == 0 {
        assert(a + b =~= a);
        assert(ca + cb =~= ca);
        assert(split_paths(a, ca) + split_paths(b, cb) =~= split_paths(a, ca));
    } else {
        split_paths_concatenate(a, b.drop_last(), ca, cb.drop_last());
        assert((a + b).drop_last() =~= a + b.drop_last());
        assert((ca + cb).drop_last() =~= ca + cb.drop_last());
        let tail = match cb.last() {
            Some((feature, bin)) => seq![
                b.last().push(PathStep { feature, bin, right: false }),
                b.last().push(PathStep { feature, bin, right: true }),
            ],
            None => seq![b.last()],
        };
        assert(split_paths(a, ca) + (split_paths(b.drop_last(), cb.drop_last()) + tail) =~= (
        split_paths(a, ca) + split_paths(b.drop_last(), cb.drop_last())) + tail);
    }
}

/// The shape that results from splitting leaves has the paths that result.
pub proof fn split_shape_has_split_paths(
    s: Shape,
    prefix: Seq<PathStep>,
    choices: Seq<Option<(usize, usize)>>,
)
    requires
        choices.len() == s.leaves(),
    ensures
        s.split_leaves(choices).paths(prefix) == split_paths(s.paths(prefix), choices),
    decreases s,
{
    shape_counts(s, prefix);
    match s {
        Shape::Leaf => {
            let one = seq![prefix];
            assert(one.drop_last() =~= Seq::empty());
            assert(choices.last() == choices[0]);
            assert(split_paths(one.drop_last(), choices.drop_last()) =~= Seq::empty());
            match choices[0] {
                Some((feature, bin)) => {
                    let l = prefix.push(PathStep { feature, bin, right: false });
                    let h = prefix.push(PathStep { feature, bin, right: true });
                    let r = s.split_leaves(choices);
                    assert(Shape::Leaf.paths(l) =~= seq![l]);
                    assert(Shape::Leaf.paths(h) =~= seq![h]);
                    assert(r.paths(prefix) =~= seq![l, h]);
                    assert(split_paths(one, choices) =~= seq![l, h]);
                },
                None => {
                    assert(split_paths(one, choices) =~= one);
                },
            }
        },
        Shape::Split { feature, bin, left, right } => {
            let l = prefix.push(PathStep { feature, bin, right: false });
            let h = prefix.push(PathStep { feature, bin, right: true });
            let n = left.leaves() as int;
            shape_counts(*left, l);
            shape_counts(*right, h);
            split_shape_has_split_paths(*left, l, choices.take(n));
            split_shape_has_split_paths(*right, h, choices.skip(n));
            split_paths_concatenate(
                left.paths(l),
                right.paths(h),
                choices.take(n),
                choices.skip(n),
            );
            assert(choices.take(n) + choices.skip(n) =~= choices);
        },
    }
}

/// How many leaves are split.
pub open spec fn chosen(choices: Seq<Option<(usize, usize)>>) -> nat
    decreases choices.len(),
{
    if choices.len() == 0 {
        0
    } else {
        chosen(choices.drop_last()) + if choices.last() is Some {
            1nat
        } else {
            0
        }
    }
}

proof fn chosen_adds(a: Seq<Option<(usize, usize)>>, b: Seq<Option<(usize, usize)>>)
    ensures
        chosen(a + b) == chosen(a) + chosen(b),
    decreases b.len(),
{
    if b.len() == 0 {
        assert(a + b =~= a);
    } else {
        chosen_adds(a, b.drop_last());
        assert((a + b).drop_last() =~= a + b.drop_last());
    }
}

/// Splitting adds one split per leaf chosen, and deepens the tree by no more
/// than the leaves chosen lie deep and one.
pub proof fn splitting_counts(
    s: Shape,
    prefix: Seq<PathStep>,
    choices: Seq<Option<(usize, usize)>>,
    max: nat,
)
    requires
        choices.len() == s.leaves(),
        prefix.len() + s.depth() <= max,
        forall|i: int|
            0 <= i < choices.len() && (#[trigger] choices[i]) is Some ==> s.paths(prefix)[i].len()
                < max,
    ensures
        s.split_leaves(choices).splits() == s.splits() + chosen(choices),
        prefix.len() + s.split_leaves(choices).depth() <= max,
    decreases s,
{
    shape_counts(s, prefix);
    match s {
        Shape::Leaf => {
            assert(choices.drop_last() =~= Seq::empty());
            assert(choices.last() == choices[0]);
            assert(chosen(choices.drop_last()) == 0);
            assert(s.paths(prefix)[0] == prefix);
            let r = s.split_leaves(choices);
            if choices[0] is Some {
                assert(r.depth() == 1) by {
                    reveal_with_fuel(Shape::depth, 3);
                }
                assert(r.splits() == 1) by {
                    reveal_with_fuel(Shape::splits, 3);
                }
            }
        },
        Shape::Split { feature, bin, left, right } => {
            let l = prefix.push(PathStep { feature, bin, right: false });
            let h = prefix.push(PathStep { feature, bin, right: true });
            let n = left.leaves() as int;
            shape_counts(*left, l);
            shape_counts(*right, h);
            assert forall|i: int| 0 <= i < n && (#[trigger] choices.take(n)[i]) is Some implies
                left.paths(l)[i].len() < max by {
                assert(choices[i] is Some);
                assert(s.paths(prefix)[i] == left.paths(l)[i]);
            }
            assert forall|i: int|
                0 <= i < right.leaves() && (#[trigger] choices.skip(n)[i]) is Some implies
                right.paths(h)[i].len() < max by {
                assert(choices[n + i] is Some);
                assert(s.paths(prefix)[n + i] == right.paths(h)[i]);
            }
            splitting_counts(*left, l, choices.take(n), max);
            splitting_counts(*right, h, choices.skip(n), max);
            chosen_adds(choices.take(n), choices.skip(n));
            assert(choices.take(n) + choices.skip(n) =~= choices);
        },
    }
}

// ---------------------------------------------------------------------------
// Growing.
// ---------------------------------------------------------------------------

/// A leaf of a growing tree.
#[derive(Debug, PartialEq)]
pub struct Leaf {
    /// The comparisons that lead to it.
    pub path: Vec<PathStep>,
    /// Weighted records.
    pub count: Double,
    /// Weighted residual sum.
    pub sum: Double,
    /// Best split found for it in the last pass.
    pub best: Option<StumpCandidate>,
    /// Residual sum that the best split leaves on the left.
    pub left_sum: Double,
    /// Residual sum that the best split leaves on the right.
    pub right_sum: Double,
    /// Passed over: its records are not looked at again.
    pub frozen: bool,
}

/// What a [`Leaf`] is.
pub struct LeafModel {
    pub path: Seq<PathStep>,
    pub count: Double,
    pub sum: Double,
    pub best: Option<StumpCandidate>,
    pub left_sum: Double,
    pub right_sum: Double,
    pub frozen: bool,
}

impl View for Leaf {
    type V = LeafModel;

    open spec fn view(&self) -> LeafModel {
        LeafModel {
            path: self.path@,
            count: self.count,
            sum: self.sum,
            best: self.best,
            left_sum: self.left_sum,
            right_sum: self.right_sum,
            frozen: self.frozen,
        }
    }
}

/// What the leaves are.
pub open spec fn leaf_models(v: Seq<Leaf>) -> Seq<LeafModel> {
    v.map_values(|l: Leaf| l@)
}

/// The paths of the leaves.
pub open spec fn leaf_paths(v: Seq<LeafModel>) -> Seq<Seq<PathStep>> {
    v.map_values(|l: LeafModel| l.path)
}

/// The leaf whose best split ranks first: none ranks ahead of it, and those
/// that tie with it come later.
pub open spec fn has_best_split(leaves: Seq<LeafModel>, i: int) -> bool {
    &&& leaves[i].best is Some
    &&& forall|j: int|
        0 <= j < leaves.len() && (#[trigger] leaves[j]).best is Some ==> {
            &&& !leaves[j].best->0.ahead(&leaves[i].best->0)
            &&& j < i ==> leaves[i].best->0.ahead(&leaves[j].best->0)
        }
}

/// The policy has the leaf split.
pub open spec fn selected(leaves: Seq<LeafModel>, policy: GrowthPolicy, i: int) -> bool {
    match policy {
        GrowthPolicy::LevelWise => !leaves[i].frozen && leaves[i].best is Some,
        GrowthPolicy::BestFirst => has_best_split(leaves, i),
    }
}

/// For each leaf the split it gets, if it gets one: the policy has it split and
/// it is not at the depth limit.
pub open spec fn choices(
    leaves: Seq<LeafModel>,
    policy: GrowthPolicy,
    max_depth: int,
) -> Seq<Option<(usize, usize)>> {
    Seq::new(
        leaves.len(),
        |i: int|
            if selected(leaves, policy, i) && leaves[i].path.len() < max_depth {
                Some((leaves[i].best->0.feature, leaves[i].best->0.bin))
            } else {
                None
            },
    )
}

/// A child of a leaf that is split.
pub open spec fn child_of(leaf: LeafModel, feature: usize, bin: usize, right: bool) -> LeafModel {
    LeafModel {
        path: leaf.path.push(PathStep { feature, bin, right }),
        count: if right {
            leaf.best->0.right_records
        } else {
            leaf.best->0.left_records
        },
        sum: if right {
            leaf.right_sum
        } else {
            leaf.left_sum
        },
        best: None,
        left_sum: Double { bits: 0 },
        right_sum: Double { bits: 0 },
        frozen: false,
    }
}

/// The leaves after a pass: a split leaf gives way to its two children, any
/// other is frozen.
pub open spec fn grown(
    leaves: Seq<LeafModel>,
    picks: Seq<Option<(usize, usize)>>,
) -> Seq<LeafModel>
    decreases leaves.len(),
{
    if leaves.len() == 0 {
        Seq::empty()
    } else {
        let leaf = leaves.last();
        grown(leaves.drop_last(), picks.drop_last()) + match picks.last() {
            Some((feature, bin)) => seq![
                child_of(leaf, feature, bin, false),
                child_of(leaf, feature, bin, true),
            ],
            None => seq![LeafModel { frozen: true, ..leaf }],
        }
    }
}

/// Longest of the paths.
pub open spec fn deepest(leaves: Seq<LeafModel>) -> nat
    decreases leaves.len(),
{
    if leaves.len() == 0 {
        0
    } else {
        patch::larger(deepest(leaves.drop_last()), leaves.last().path.len())
    }
}

proof fn grown_has_split_paths(leaves: Seq<LeafModel>, picks: Seq<Option<(usize, usize)>>)
    requires
        leaves.len() == picks.len(),
    ensures
        leaf_paths(grown(leaves, picks)) == split_paths(leaf_paths(leaves), picks),
    decreases leaves.len(),
{
    if leaves.len() == 0 {
        assert(leaf_paths(grown(leaves, picks)) =~= split_paths(leaf_paths(leaves), picks));
    } else {
        grown_has_split_paths(leaves.drop_last(), picks.drop_last());
        assert(leaf_paths(leaves).drop_last() =~= leaf_paths(leaves.drop_last()));
        assert(leaf_paths(leaves).last() == leaves.last().path);
        assert(leaf_paths(grown(leaves, picks)) =~= split_paths(leaf_paths(leaves), picks));
    }
}

/// What became of a pass.
#[derive(Debug, Clone, Copy, PartialEq, Eq, Structural)]
pub struct GrowthStep {
    /// Some leaf was to be split. Nothing else happens when none was.
    pub grew: bool,
    /// The tree as it now stands is a candidate.
    pub snapshot: bool,
    /// No further pass.
    pub done: bool,
}

/// A growing tree.
pub struct Growth {
    /// Its leaves, left to right.
    pub leaves: Vec<Leaf>,
    /// Splits made.
    pub splits: usize,
    /// Depth at the last candidate.
    pub depth: usize,
    /// Depth limit, one to three.
    pub max_depth: usize,
    /// Growth policy.
    pub policy: GrowthPolicy,
    /// The comparisons made so far.
    pub shape: Ghost<Shape>,
}

/// The splits of a full tree of a depth.
pub open spec fn full_splits(depth: int) -> int {
    if depth <= 1 {
        1
    } else if depth == 2 {
        3
    } else {
        7
    }
}

impl Growth {
    /// The comparisons made so far.
    pub open spec fn shape(&self) -> Shape {
        self.shape@
    }

    /// The leaves are those of the shape, within the depth limit.
    pub open spec fn well_formed(&self) -> bool {
        &&& 1 <= self.max_depth <= 3
        &&& leaf_paths(leaf_models(self.leaves@)) == self.shape().paths(Seq::empty())
        &&& self.splits == self.shape().splits()
        &&& self.shape().depth() <= self.max_depth
    }

    /// A tree of one leaf. The depth limit is brought into `1..=3`.
    pub fn new(max_depth: usize, policy: GrowthPolicy) -> (r: Growth)
        ensures
            r.well_formed(),
            r.shape() == Shape::Leaf,
            r.max_depth == math::clamped(max_depth as int, 1, 3),
            r.policy == policy,
            r.splits == 0,
            r.depth == 0,
            leaf_models(r.leaves@) == seq![
                LeafModel {
                    path: Seq::empty(),
                    count: Double { bits: 0 },
                    sum: Double { bits: 0 },
                    best: None,
                    left_sum: Double { bits: 0 },
                    right_sum: Double { bits: 0 },
                    frozen: false,
                },
            ],
    {
        let mut leaves: Vec<Leaf> = Vec::new();
        leaves.push(
            Leaf {
                path: Vec::new(),
                count: Double::zero(),
                sum: Double::zero(),
                best: None,
                left_sum: Double::zero(),
                right_sum: Double::zero(),
                frozen: false,
            },
        );
        let ghost only = LeafModel {
            path: Seq::empty(),
            count: Double { bits: 0 },
            sum: Double { bits: 0 },
            best: None,
            left_sum: Double { bits: 0 },
            right_sum: Double { bits: 0 },
            frozen: false,
        };
        proof {
            assert(leaf_models(leaves@) =~= seq![only]);
            assert(leaf_paths(leaf_models(leaves@)) =~= Shape::Leaf.paths(Seq::empty()));
        }
        Growth {
            leaves,
            splits: 0,
            depth: 0,
            max_depth: clamp_size(max_depth, 1, 3),
            policy,
            shape: Ghost(Shape::Leaf),
        }
    }

    /// Record what the last pass found at a leaf; a frozen leaf keeps what it
    /// has.
    pub fn report(
        &mut self,
        at: usize,
        count: Double,
        sum: Double,
        best: Option<StumpCandidate>,
        left_sum: Double,
        right_sum: Double,
    )
        requires
            old(self).well_formed(),
            at < old(self).leaves@.len(),
        ensures
            final(self).well_formed(),
            final(self).shape() == old(self).shape(),
            final(self).splits == old(self).splits,
            final(self).depth == old(self).depth,
            final(self).max_depth == old(self).max_depth,
            final(self).policy == old(self).policy,
            leaf_models(final(self).leaves@) == (if old(self).leaves@[at as int].frozen {
                leaf_models(old(self).leaves@)
            } else {
                leaf_models(old(self).leaves@).update(
                    at as int,
                    LeafModel {
                        count,
                        sum,
                        best,
                        left_sum,
                        right_sum,
                        ..old(self).leaves@[at as int]@
                    },
                )
            }),
    {
        let ghost before = leaf_models(self.leaves@);
        if !self.leaves[at].frozen {
            let path = self.leaves[at].path.clone();
            proof {
                assert(path@ =~= self.leaves@[at as int].path@);
            }
            let leaf = Leaf { path, count, sum, best, left_sum, right_sum, frozen: false };
            self.leaves.set(at, leaf);
            proof {
                let want = before.update(at as int, leaf@);
                assert(leaf_models(self.leaves@) =~= want);
                assert(leaf_paths(leaf_models(self.leaves@)) =~= leaf_paths(before));
            }
        }
    }

    fn best_leaf(&self) -> (r: Option<usize>)
        ensures
            match r {
                Some(i) => i < self.leaves@.len() && has_best_split(
                    leaf_models(self.leaves@),
                    i as int,
                ),
                None => forall|i: int|
                    0 <= i < self.leaves@.len() ==> (#[trigger] self.leaves@[i]).best is None,
            },
    {
        let ghost all = leaf_models(self.leaves@);
        let mut best: Option<usize> = None;
        for i in 0..self.leaves.len()
            invariant
                all == leaf_models(self.leaves@),
                match best {
                    Some(k) => {
                        &&& k < i
                        &&& self.leaves@[k as int].best is Some
                        &&& forall|j: int|
                            0 <= j < i && (#[trigger] self.leaves@[j]).best is Some ==> {
                                &&& !self.leaves@[j].best->0.ahead(&self.leaves@[k as int].best->0)
                                &&& j < k ==> self.leaves@[k as int].best->0.ahead(
                                    &self.leaves@[j].best->0,
                                )
                            }
                    },
                    None => forall|j: int|
                        0 <= j < i ==> (#[trigger] self.leaves@[j]).best is None,
                },
        {
            if let Some(c) = &self.leaves[i].best {
                match best {
                    None => {
                        proof {
                            StumpCandidate::ahead_is_asymmetric(*c, *c);
                        }
                        best = Some(i);
                    },
                    Some(k) => {
                        if let Some(b) = &self.leaves[k].best {
                            if c.is_ahead(b) {
                                proof {
                                    assert forall|j: int|
                                        0 <= j < i + 1 && (
                                        #[trigger] self.leaves@[j]).best is Some implies {
                                        &&& !self.leaves@[j].best->0.ahead(c)
                                        &&& j < i ==> c.ahead(&self.leaves@[j].best->0)
                                    } by {
                                        let x = self.leaves@[j].best->0;
                                        if j < i {
                                            StumpCandidate::ahead_is_asymmetric(*c, x);
                                            if !c.ahead(&x) {
                                                StumpCandidate::not_ahead_is_transitive(*c, x, *b);
                                            }
                                        } else {
                                            StumpCandidate::ahead_is_asymmetric(*c, *c);
                                        }
                                    }
                                }
                                best = Some(i);
                            }
                        }
                    },
                }
            }
        }
        proof {
            if let Some(k) = best {
                assert forall|j: int| 0 <= j < all.len() && (#[trigger] all[j]).best is Some implies {
                    &&& !all[j].best->0.ahead(&all[k as int].best->0)
                    &&& j < k ==> all[k as int].best->0.ahead(&all[j].best->0)
                } by {
                    assert(all[j].best == self.leaves@[j].best);
                }
            }
        }
        best
    }

    /// Split the leaves that the policy selects, and freeze the others.
    pub fn advance(&mut self) -> (r: GrowthStep)
        requires
            old(self).well_formed(),
        ensures
            final(self).well_formed(),
            final(self).max_depth == old(self).max_depth,
            final(self).policy == old(self).policy,
            ({
                let leaves = leaf_models(old(self).leaves@);
                let picks = choices(leaves, old(self).policy, old(self).max_depth as int);
                let depth = deepest(grown(leaves, picks));
                if exists|i: int|
                    0 <= i < leaves.len() && #[trigger] selected(leaves, old(self).policy, i) {
                    &&& r.grew
                    &&& leaf_models(final(self).leaves@) == grown(leaves, picks)
                    &&& final(self).shape() == old(self).shape().split_leaves(picks)
                    &&& final(self).splits == old(self).splits + chosen(picks)
                    &&& r.snapshot == (depth > old(self).depth || old(self).policy
                        == GrowthPolicy::BestFirst)
                    &&& final(self).depth == (if r.snapshot {
                        depth
                    } else {
                        old(self).depth as nat
                    })
                    &&& r.done == (depth >= old(self).max_depth || final(self).splits
                        >= full_splits(old(self).max_depth as int))
                } else {
                    &&& !r.grew && !r.snapshot && r.done
                    &&& leaf_models(final(self).leaves@) == leaves
                    &&& final(self).shape() == old(self).shape()
                    &&& final(self).splits == old(self).splits
                    &&& final(self).depth == old(self).depth
                }
            }),
    {
        let ghost leaves = leaf_models(self.leaves@);
        let ghost policy = self.policy;
        let ghost picks = choices(leaves, policy, self.max_depth as int);
        let best: Option<usize> = match self.policy {
            GrowthPolicy::LevelWise => None,
            GrowthPolicy::BestFirst => self.best_leaf(),
        };
        let max_depth: usize = self.max_depth;
        let mut any = false;
        let mut next: Vec<Leaf> = Vec::new();
        let mut depth: usize = 0;
        let mut made: usize = 0;
        proof {
            assert(leaves.take(0) =~= Seq::empty());
            assert(leaf_models(next@) =~= grown(leaves.take(0), picks.take(0)));
            shape_counts(self.shape(), Seq::empty());
            assert forall|k: int| 0 <= k < leaves.len() implies (#[trigger] leaves[k]).path.len()
                <= max_depth by {
                assert(leaf_paths(leaves)[k] == leaves[k].path);
            }
        }
        for i in 0..self.leaves.len()
            invariant
                *self == *old(self),
                leaves == leaf_models(self.leaves@),
                policy == self.policy,
                max_depth == self.max_depth,
                1 <= max_depth <= 3,
                picks == choices(leaves, policy, max_depth as int),
                forall|k: int| 0 <= k < leaves.len() ==> (#[trigger] leaves[k]).path.len() <= max_depth,
                policy == GrowthPolicy::BestFirst ==> match best {
                    Some(b) => b < leaves.len() && has_best_split(leaves, b as int),
                    None => forall|k: int|
                        0 <= k < self.leaves@.len() ==> (#[trigger] self.leaves@[k]).best is None,
                },
                leaf_models(next@) == grown(leaves.take(i as int), picks.take(i as int)),
                made == chosen(picks.take(i as int)),
                made <= i,
                depth == deepest(leaf_models(next@)),
                depth <= max_depth,
                any == (exists|k: int| 0 <= k < i && #[trigger] selected(leaves, policy, k)),
        {
            let leaf = &self.leaves[i];
            let wanted = match self.policy {
                GrowthPolicy::LevelWise => !leaf.frozen && leaf.best.is_some(),
                GrowthPolicy::BestFirst => match best {
                    Some(b) => b == i,
                    None => false,
                },
            };
            proof {
                assert(leaves[i as int] == leaf@);
                if policy == GrowthPolicy::BestFirst {
                    if let Some(b) = best {
                        if b != i && has_best_split(leaves, i as int) {
                            assert(leaves[b as int].best is Some);
                            StumpCandidate::ahead_is_asymmetric(
                                leaves[i as int].best->0,
                                leaves[b as int].best->0,
                            );
                        }
                    }
                }
                assert(wanted == selected(leaves, policy, i as int));
                assert(leaves.take(i as int + 1).drop_last() =~= leaves.take(i as int));
                assert(picks.take(i as int + 1).drop_last() =~= picks.take(i as int));
                assert(picks.take(i as int + 1).last() == picks[i as int]);
                assert(leaves.take(i as int + 1).last() == leaf@);
            }
            if wanted {
                any = true;
            }
            let ghost before = next@;
            let ghost depth_before = depth as nat;
            if wanted && leaf.path.len() < max_depth {
                if let Some(c) = &leaf.best {
                    let mut left_path = leaf.path.clone();
                    assert(left_path@ =~= leaf.path@);
                    left_path.push(PathStep { feature: c.feature, bin: c.bin, right: false });
                    let mut right_path = leaf.path.clone();
                    assert(right_path@ =~= leaf.path@);
                    right_path.push(PathStep { feature: c.feature, bin: c.bin, right: true });
                    let d: usize = left_path.len();
                    let l = Leaf {
                        path: left_path,
                        count: c.left_records,
                        sum: leaf.left_sum,
                        best: None,
                        left_sum: Double::zero(),
                        right_sum: Double::zero(),
                        frozen: false,
                    };
                    let h = Leaf {
                        path: right_path,
                        count: c.right_records,
                        sum: leaf.right_sum,
                        best: None,
                        left_sum: Double::zero(),
                        right_sum: Double::zero(),
                        frozen: false,
                    };
                    proof {
                        assert(l@ == child_of(leaf@, c.feature, c.bin, false));
                        assert(h@ == child_of(leaf@, c.feature, c.bin, true));
                    }
                    next.push(l);
                    let ghost middle = next@;
                    next.push(h);
                    made = made + 1;
                    proof {
                        assert(leaf_models(middle) =~= leaf_models(before).push(l@));
                        assert(leaf_models(next@) =~= leaf_models(middle).push(h@));
                        assert(leaf_models(middle).drop_last() =~= leaf_models(before));
                        assert(leaf_models(next@).drop_last() =~= leaf_models(middle));
                        assert(deepest(leaf_models(middle)) == patch::larger(
                            depth_before,
                            l@.path.len(),
                        ));
                        assert(deepest(leaf_models(next@)) == patch::larger(
                            deepest(leaf_models(middle)),
                            h@.path.len(),
                        ));
                        assert(leaf_models(next@) =~= grown(
                            leaves.take(i as int + 1),
                            picks.take(i as int + 1),
                        ));
                    }
                    if d > depth {
                        depth = d;
                    }
                }
            } else {
                let path = leaf.path.clone();
                assert(path@ =~= leaf.path@);
                let d: usize = path.len();
                let kept = Leaf {
                    path,
                    count: leaf.count,
                    sum: leaf.sum,
                    best: match &leaf.best {
                        Some(c) => Some(c.clone()),
                        None => None,
                    },
                    left_sum: leaf.left_sum,
                    right_sum: leaf.right_sum,
                    frozen: true,
                };
                next.push(kept);
                proof {
                    assert(leaf_models(next@) =~= leaf_models(before).push(kept@));
                    assert(leaf_models(next@).drop_last() =~= leaf_models(before));
                    assert(deepest(leaf_models(next@)) == patch::larger(
                        depth_before,
                        kept@.path.len(),
                    ));
                    assert(leaf_models(next@) =~= grown(
                        leaves.take(i as int + 1),
                        picks.take(i as int + 1),
                    ));
                }
                if d > depth {
                    depth = d;
                }
            }
        }
        proof {
            assert(leaves.take(leaves.len() as int) =~= leaves);
            assert(picks.take(picks.len() as int) =~= picks);
        }
        if !any {
            return GrowthStep { grew: false, snapshot: false, done: true };
        }
        let ghost shape = self.shape();
        proof {
            shape_counts(shape, Seq::empty());
            assert(leaf_paths(leaves).len() == leaves.len());
            assert forall|i: int| 0 <= i < picks.len() && (#[trigger] picks[i]) is Some implies
                shape.paths(Seq::empty())[i].len() < max_depth by {
                assert(leaf_paths(leaves)[i] == leaves[i].path);
            }
            splitting_counts(shape, Seq::empty(), picks, max_depth as nat);
            split_shape_has_split_paths(shape, Seq::empty(), picks);
            grown_has_split_paths(leaves, picks);
            let after = shape.split_leaves(picks);
            shape_counts(after, Seq::empty());
            pow2_grows(after.depth(), 3);
            vstd::arithmetic::power2::lemma2_to64();
        }
        self.leaves = next;
        self.splits = self.splits + made;
        self.shape = Ghost(shape.split_leaves(picks));
        let snapshot = depth > self.depth || self.policy == GrowthPolicy::BestFirst;
        if snapshot {
            self.depth = depth;
        }
        let full: usize = if max_depth <= 1 {
            1
        } else if max_depth == 2 {
            3
        } else {
            7
        };
        let done = depth >= max_depth || self.splits >= full;
        GrowthStep { grew: true, snapshot, done }
    }
}

/// What a cache and a feature map stand for.
pub open spec fn cuts_of(cache: BinCache, features: Seq<usize>) -> Cuts {
    Cuts { edges: bins::edge_lists(cache.edges@), features }
}

impl Growth {
    /// The tree as it stands, with `corrections` for its leaves.
    pub fn tree(
        &self,
        corrections: &Vec<Single>,
        cache: &BinCache,
        features: &Vec<usize>,
    ) -> (r: Node)
        requires
            self.well_formed(),
            corrections@.len() == self.leaves@.len(),
            forall|i: int|
                0 <= i < self.leaves@.len() ==> within(
                    (#[trigger] self.leaves@[i]).path@,
                    features@.len() as int,
                ),
            forall|i: int|
                0 <= i < features@.len() ==> (#[trigger] features@[i]) < cache.edges@.len(),
        ensures
            r@ == self.shape().tree(corrections@, cuts_of(*cache, features@)),
            r@.depth() <= self.max_depth,
            r@.splits() == self.splits,
    {
        proof {
            shape_counts(self.shape(), Seq::empty());
            assert(leaf_paths(leaf_models(self.leaves@)).len() == self.leaves@.len());
            assert(leaf_paths(leaf_models(self.leaves@)).subrange(0, self.leaves@.len() as int)
                =~= leaf_paths(leaf_models(self.leaves@)));
            assert(corrections@.subrange(0, corrections@.len() as int) =~= corrections@);
            tree_has_the_shape(self.shape(), corrections@, cuts_of(*cache, features@));
        }
        self.build(
            0,
            self.leaves.len(),
            0,
            corrections,
            cache,
            features,
            Ghost(self.shape()),
            Ghost(Seq::empty()),
        )
    }

    fn build(
        &self,
        lo: usize,
        hi: usize,
        depth: usize,
        corrections: &Vec<Single>,
        cache: &BinCache,
        features: &Vec<usize>,
        Ghost(shape): Ghost<Shape>,
        Ghost(prefix): Ghost<Seq<PathStep>>,
    ) -> (r: Node)
        requires
            lo < hi <= self.leaves@.len(),
            corrections@.len() == self.leaves@.len(),
            prefix.len() == depth,
            leaf_paths(leaf_models(self.leaves@)).subrange(lo as int, hi as int) == shape.paths(
                prefix,
            ),
            forall|i: int|
                0 <= i < self.leaves@.len() ==> within(
                    (#[trigger] self.leaves@[i]).path@,
                    features@.len() as int,
                ),
            forall|i: int|
                0 <= i < features@.len() ==> (#[trigger] features@[i]) < cache.edges@.len(),
        ensures
            r@ == shape.tree(
                corrections@.subrange(lo as int, hi as int),
                cuts_of(*cache, features@),
            ),
        decreases shape,
    {
        let ghost all = leaf_paths(leaf_models(self.leaves@));
        let ghost own = all.subrange(lo as int, hi as int);
        proof {
            shape_counts(shape, prefix);
            assert(own[0] == all[lo as int]);
            assert(all[lo as int] == self.leaves@[lo as int].path@);
        }
        if self.leaves[lo].path.len() == depth {
            proof {
                if let Shape::Split { feature, bin, left, right } = shape {
                    let l = prefix.push(PathStep { feature, bin, right: false });
                    shape_counts(*left, l);
                    assert(own[0] == left.paths(l)[0]);
                    assert(false);
                }
                assert(corrections@.subrange(lo as int, hi as int)[0] == corrections@[lo as int]);
            }
            return Node::leaf(corrections[lo]);
        }
        let step = self.leaves[lo].path[depth];
        let ghost (fl, fr) = match shape {
            Shape::Split { left, right, .. } => (*left, *right),
            Shape::Leaf => (Shape::Leaf, Shape::Leaf),
        };
        let ghost l = prefix.push(PathStep { feature: step.feature, bin: step.bin, right: false });
        let ghost h = prefix.push(PathStep { feature: step.feature, bin: step.bin, right: true });
        let ghost n = fl.leaves() as int;
        proof {
            if let Shape::Split { feature, bin, left, right } = shape {
                let l0 = prefix.push(PathStep { feature, bin, right: false });
                let h0 = prefix.push(PathStep { feature, bin, right: true });
                shape_counts(*left, l0);
                shape_counts(*right, h0);
                assert(own[0] == left.paths(l0)[0]);
                let p = left.paths(l0)[0];
                assert(p.take(l0.len() as int)[depth as int] == l0[depth as int]);
                assert(step == l0[depth as int]);
                assert forall|i: int| 0 <= i < n implies !(#[trigger] own[i])[depth as int].right
                    && own[i].len() > depth by {
                    assert(own[i] == left.paths(l0)[i]);
                    assert(own[i].take(l0.len() as int)[depth as int] == l0[depth as int]);
                }
                assert forall|i: int| n <= i < own.len() implies (
                #[trigger] own[i])[depth as int].right && own[i].len() > depth by {
                    assert(own[i] == right.paths(h0)[i - n]);
                    assert(own[i].take(h0.len() as int)[depth as int] == h0[depth as int]);
                }
                assert(all.subrange(lo as int, lo + n) =~= own.subrange(0, n));
                assert(own.subrange(0, n) =~= left.paths(l0));
                assert(all.subrange(lo + n, hi as int) =~= own.subrange(n, own.len() as int));
                assert(own.subrange(n, own.len() as int) =~= right.paths(h0));
            }
        }
        let mut mid: usize = lo + 1;
        while mid < hi && !self.leaves[mid].path[depth].right
            invariant
                lo < mid <= hi <= self.leaves@.len(),
                all == leaf_paths(leaf_models(self.leaves@)),
                own == all.subrange(lo as int, hi as int),
                1 <= n < own.len(),
                own.len() == hi - lo,
                mid - lo <= n,
                forall|i: int|
                    0 <= i < n ==> !(#[trigger] own[i])[depth as int].right && own[i].len() > depth,
                forall|i: int|
                    n <= i < own.len() ==> (#[trigger] own[i])[depth as int].right && own[i].len()
                        > depth,
                forall|i: int|
                    lo <= i < hi ==> own[i - lo] == (#[trigger] self.leaves@[i]).path@,
            decreases hi - mid,
        {
            assert(own[mid - lo] == self.leaves@[mid as int].path@);
            mid = mid + 1;
        }
        proof {
            if mid < hi {
                assert(own[mid - lo] == self.leaves@[mid as int].path@);
            }
            assert(mid == lo + n);
            assert(within(self.leaves@[lo as int].path@, features@.len() as int));
            let values = corrections@.subrange(lo as int, hi as int);
            assert(values.take(n) =~= corrections@.subrange(lo as int, mid as int));
            assert(values.skip(n) =~= corrections@.subrange(mid as int, hi as int));
        }
        let left = self.build(
            lo,
            mid,
            depth + 1,
            corrections,
            cache,
            features,
            Ghost(fl),
            Ghost(l),
        );
        let right = self.build(
            mid,
            hi,
            depth + 1,
            corrections,
            cache,
            features,
            Ghost(fr),
            Ghost(h),
        );
        let input: usize = features[step.feature];
        let threshold = match cache.threshold(input, step.bin) {
            Some(t) => t,
            None => Single::zero(),
        };
        let condition = Condition::axis(input, threshold);
        proof {
            let cuts = cuts_of(*cache, features@);
            assert(cuts.edges[input as int] == cache.edges@[input as int]@);
            assert(condition@.terms =~= cuts.rule(step.feature, step.bin).terms);
            assert(condition@ == cuts.rule(step.feature, step.bin));
        }
        Node::Split { condition, left: Box::new(left), right: Box::new(right) }
    }
}

proof fn tree_has_the_shape(s: Shape, values: Seq<Single>, cuts: Cuts)
    ensures
        s.tree(values, cuts).depth() == s.depth(),
        s.tree(values, cuts).splits() == s.splits(),
    decreases s,
{
    if let Shape::Split { left, right, .. } = s {
        tree_has_the_shape(*left, values.take(left.leaves() as int), cuts);
        tree_has_the_shape(*right, values.skip(left.leaves() as int), cuts);
    }
}

/// A finished tree gives each record the correction of the leaf that the record
/// reached while the tree grew.
pub proof fn finished_tree_is_faithful(
    g: Growth,
    corrections: Seq<Single>,
    cuts: Cuts,
    inputs: Seq<Single>,
    i: int,
)
    requires
        g.well_formed(),
        corrections.len() == g.leaves@.len(),
        g.shape().cut_by(cuts),
        cuts.well_formed(),
        0 <= i < g.leaves@.len(),
        follows(g.leaves@[i].path@, cuts.row(inputs)),
    ensures
        g.shape().tree(corrections, cuts).axis_value(inputs) == corrections[i],
{
    let s = g.shape();
    let row = cuts.row(inputs);
    let all = leaf_paths(leaf_models(g.leaves@));
    shape_counts(s, Seq::empty());
    assert(all.len() == g.leaves@.len());
    tree_agrees_with_bins(s, corrections, cuts, inputs);
    let k = every_record_reaches_one_leaf(s, Seq::empty(), corrections, row);
    assert(all[i] == g.leaves@[i].path@);
}

/// No growing tree is deeper than three or has more than seven splits.
pub proof fn growth_is_bounded(g: Growth)
    requires
        g.well_formed(),
    ensures
        g.shape().depth() <= 3,
        g.splits <= 7,
        g.leaves@.len() <= 8,
{
    let s = g.shape();
    shape_counts(s, Seq::empty());
    pow2_grows(s.depth(), 3);
    vstd::arithmetic::power2::lemma2_to64();
    assert(leaf_paths(leaf_models(g.leaves@)).len() == g.leaves@.len());
}

/// Where a feature stands in a feature map, from `from` on; the map's length when
/// it does not.
pub open spec fn feature_place(features: Seq<usize>, feature: usize, from: int) -> int
    decreases features.len() - from,
{
    if from < 0 || from >= features.len() {
        features.len() as int
    } else if features[from] == feature {
        from
    } else {
        feature_place(features, feature, from + 1)
    }
}

/// Where a threshold stands among edges, from `from` on; their number when it
/// does not.
pub open spec fn edge_place(edges: Seq<Single>, threshold: Single, from: int) -> int
    decreases edges.len() - from,
{
    if from < 0 || from >= edges.len() {
        edges.len() as int
    } else if edges[from] == threshold {
        from
    } else {
        edge_place(edges, threshold, from + 1)
    }
}

impl Cuts {
    /// Whether a record goes right at a rule, by its bins; `None` when the bins
    /// cannot tell, because the rule is oblique, its feature is not in the set, or
    /// its threshold is no edge.
    pub open spec fn binned_side(self, rule: Rule, row: Seq<u8>) -> Option<bool> {
        let feature = rule.terms[0].feature;
        let place = feature_place(self.features, feature, 0);
        if !rule.axis_aligned() || place >= self.features.len() {
            None
        } else {
            let own = self.edges[feature as int];
            let edge = edge_place(own, rule.threshold, 0);
            if edge >= own.len() {
                None
            } else {
                Some(row[place] > edge)
            }
        }
    }

    /// Correction that a tree gives to a record, by the record's bins; `None` when
    /// the bins cannot tell.
    pub open spec fn binned_value(self, tree: Tree, row: Seq<u8>) -> Option<Single>
        decreases tree,
    {
        match tree {
            Tree::Leaf { correction } => Some(correction),
            Tree::Split { rule, left, right } => match self.binned_side(rule, row) {
                None => None,
                Some(true) => self.binned_value(*right, row),
                Some(false) => self.binned_value(*left, row),
            },
        }
    }
}

proof fn feature_place_is_one(features: Seq<usize>, feature: usize, from: int)
    requires
        0 <= from,
    ensures
        feature_place(features, feature, from) >= features.len() || {
            &&& from <= feature_place(features, feature, from)
            &&& features[feature_place(features, feature, from)] == feature
        },
    decreases features.len() - from,
{
    if from < features.len() && features[from] != feature {
        feature_place_is_one(features, feature, from + 1);
    }
}

proof fn edge_place_is_one(edges: Seq<Single>, threshold: Single, from: int)
    requires
        0 <= from,
    ensures
        edge_place(edges, threshold, from) >= edges.len() || {
            &&& from <= edge_place(edges, threshold, from)
            &&& edges[edge_place(edges, threshold, from)] == threshold
        },
    decreases edges.len() - from,
{
    if from < edges.len() && edges[from] != threshold {
        edge_place_is_one(edges, threshold, from + 1);
    }
}

fn binned_side(rule: &Condition, cache: &BinCache, features: &Vec<usize>, row: &[u8]) -> (r: Option<
    bool,
>)
    requires
        row@.len() == features@.len(),
        forall|i: int| 0 <= i < features@.len() ==> (#[trigger] features@[i]) < cache.edges@.len(),
    ensures
        r == cuts_of(*cache, features@).binned_side(rule@, row@),
{
    if !rule.is_axis_aligned() {
        return None;
    }
    let feature: usize = rule.terms[0].feature;
    let many: usize = features.len();
    let mut place: usize = 0;
    while place < many && features[place] != feature
        invariant
            many == features@.len(),
            place <= many,
            feature_place(features@, feature, 0) == feature_place(features@, feature, place as int),
        decreases many - place,
    {
        place = place + 1;
    }
    if place == many {
        return None;
    }
    assert(features@[place as int] < cache.edges@.len());
    let own = &cache.edges[feature];
    let edges: usize = own.len();
    let mut edge: usize = 0;
    while edge < edges && own[edge] != rule.threshold
        invariant
            edges == own@.len(),
            edge <= edges,
            edge_place(own@, rule.threshold, 0) == edge_place(own@, rule.threshold, edge as int),
        decreases edges - edge,
    {
        edge = edge + 1;
    }
    if edge == edges {
        return None;
    }
    Some(row[place] as usize > edge)
}

/// Correction that a patch gives to a binned record; `None` when the bins cannot
/// tell.
pub fn binned_correction(
    root: &Node,
    cache: &BinCache,
    features: &Vec<usize>,
    row: &[u8],
) -> (r: Option<Single>)
    requires
        row@.len() == features@.len(),
        forall|i: int| 0 <= i < features@.len() ==> (#[trigger] features@[i]) < cache.edges@.len(),
    ensures
        r == cuts_of(*cache, features@).binned_value(root@, row@),
    decreases root,
{
    match root {
        Node::Leaf { correction } => Some(*correction),
        Node::Split { condition, left, right } => match binned_side(condition, cache, features, row) {
            None => None,
            Some(goes_right) => if goes_right {
                binned_correction(right, cache, features, row)
            } else {
                binned_correction(left, cache, features, row)
            },
        },
    }
}

/// Where the bins can tell a record's correction, it is the one that the patch
/// gives the record by its values.
pub proof fn binned_correction_is_faithful(tree: Tree, cuts: Cuts, inputs: Seq<Single>)
    requires
        cuts.well_formed(),
        forall|i: int|
            0 <= i < cuts.features.len() ==> (#[trigger] cuts.features[i]) < cuts.edges.len(),
    ensures
        cuts.binned_value(tree, cuts.row(inputs)) matches Some(v) ==> v == tree.axis_value(inputs),
    decreases tree,
{
    if let Tree::Split { rule, left, right } = tree {
        binned_correction_is_faithful(*left, cuts, inputs);
        binned_correction_is_faithful(*right, cuts, inputs);
        if let Some(side) = cuts.binned_side(rule, cuts.row(inputs)) {
            let feature = rule.terms[0].feature;
            let place = feature_place(cuts.features, feature, 0);
            feature_place_is_one(cuts.features, feature, 0);
            let own = cuts.edges[feature as int];
            let edge = edge_place(own, rule.threshold, 0);
            edge_place_is_one(own, rule.threshold, 0);
            let x = patch::input_value(inputs, feature as int);
            bins::bins_agree_with_thresholds(own, x, edge);
            assert(cuts.row(inputs)[place] == bins::bin_index(own, x));
            assert(side == rule.axis_holds(inputs));
        }
    }
}

/// The split that a leaf gets offered: at the root, where a root is asked for,
/// the candidate for it; elsewhere the best candidate. One whose left side is
/// too small is not offered.
pub open spec fn offered_split(
    candidates: Seq<StumpCandidate>,
    root: Option<(usize, usize)>,
    min_leaf: Double,
) -> Option<StumpCandidate> {
    let at = match root {
        Some((f, b)) => first_at(candidates, f, b, 0),
        None => 0,
    };
    if 0 <= at < candidates.len() && !min_leaf.above(candidates[at].left_records) {
        Some(candidates[at])
    } else {
        None
    }
}

/// Position of the first candidate for a feature and bin, from `from` on; the
/// length if there is none.
pub open spec fn first_at(
    candidates: Seq<StumpCandidate>,
    feature: usize,
    bin: usize,
    from: int,
) -> int
    decreases candidates.len() - from,
{
    if from >= candidates.len() || (candidates[from].feature == feature && candidates[from].bin
        == bin) {
        from
    } else {
        first_at(candidates, feature, bin, from + 1)
    }
}

/// The split that a leaf gets offered. `root` is given for the first leaf only.
pub fn offer_split(
    candidates: &Vec<StumpCandidate>,
    root: Option<(usize, usize)>,
    min_leaf: Double,
) -> (r: Option<StumpCandidate>)
    ensures
        r == offered_split(candidates@, root, min_leaf),
{
    let mut at: usize = 0;
    if let Some((f, b)) = root {
        while at < candidates.len() && !(candidates[at].feature == f && candidates[at].bin == b)
            invariant
                at <= candidates@.len(),
                first_at(candidates@, f, b, 0) == first_at(candidates@, f, b, at as int),
            decreases candidates@.len() - at,
        {
            at = at + 1;
        }
    }
    if at < candidates.len() && !min_leaf.gt(candidates[at].left_records) {
        Some(candidates[at].clone())
    } else {
        None
    }
}

/// Label of a growth policy.
pub fn growth_label(policy: GrowthPolicy) -> (r: String)
    ensures
        r@ == (match policy {
            GrowthPolicy::LevelWise => "level-wise"@,
            GrowthPolicy::BestFirst => "best-first"@,
        }),
{
    match policy {
        GrowthPolicy::LevelWise => "level-wise".to_owned(),
        GrowthPolicy::BestFirst => "best-first".to_owned(),
    }
}

/// Position of the first listed candidate of a depth, from `from` on; the
/// length if there is none.
pub open spec fn listed_at(depths: Seq<usize>, listed: Seq<int>, depth: usize, from: int) -> int
    decreases listed.len() - from,
{
    if from >= listed.len() || depths[listed[from]] == depth {
        from
    } else {
        listed_at(depths, listed, depth, from + 1)
    }
}

/// Of the first `n` candidates the last of each depth, in the order in which the
/// depths first occur.
pub open spec fn last_of_each_depth(depths: Seq<usize>, n: int) -> Seq<int>
    decreases n,
{
    if n <= 0 {
        Seq::empty()
    } else {
        let before = last_of_each_depth(depths, n - 1);
        let at = listed_at(depths, before, depths[n - 1], 0);
        if at < before.len() {
            before.update(at, n - 1)
        } else {
            before.push(n - 1)
        }
    }
}

/// Best-first growth passes the same depth repeatedly: keep the last candidate
/// of each depth.
pub fn keep_last_per_depth(depths: &Vec<usize>) -> (r: Vec<usize>)
    ensures
        r@.map_values(|i: usize| i as int) == last_of_each_depth(
            depths@,
            depths@.len() as int,
        ),
        forall|k: int| 0 <= k < r@.len() ==> (#[trigger] r@[k]) < depths@.len(),
{
    let mut out: Vec<usize> = Vec::new();
    proof {
        assert(out@.map_values(|i: usize| i as int) =~= last_of_each_depth(depths@, 0));
    }
    for i in 0..depths.len()
        invariant
            out@.map_values(|k: usize| k as int) == last_of_each_depth(depths@, i as int),
            forall|k: int| 0 <= k < out@.len() ==> (#[trigger] out@[k]) < i,
    {
        let ghost listed = out@.map_values(|k: usize| k as int);
        let depth: usize = depths[i];
        let mut at: usize = 0;
        while at < out.len() && depths[out[at]] != depth
            invariant
                i < depths@.len(),
                at <= out@.len(),
                listed == out@.map_values(|k: usize| k as int),
                forall|k: int| 0 <= k < out@.len() ==> (#[trigger] out@[k]) < i,
                listed_at(depths@, listed, depth, 0) == listed_at(
                    depths@,
                    listed,
                    depth,
                    at as int,
                ),
            decreases out@.len() - at,
        {
            assert(listed[at as int] == out@[at as int]);
            at = at + 1;
        }
        if at < out.len() {
            assert(listed[at as int] == out@[at as int]);
            out.set(at, i);
            assert(out@.map_values(|k: usize| k as int) =~= listed.update(at as int, i as int));
        } else {
            out.push(i);
            assert(out@.map_values(|k: usize| k as int) =~= listed.push(i as int));
        }
    }
    out
}

/// Tree search controls.
#[derive(Debug, PartialEq)]
pub struct TreeSearchControls {
    /// Stump controls (min leaf, clamp, kinds).
    pub stump: SearchControls,
    /// Maximum depth (at most 3).
    pub max_depth: usize,
    /// Growth policy.
    pub growth: GrowthPolicy,
}

impl TreeSearchControls {
    /// Controls of the search at a leaf: every split that corrects both sides is
    /// a candidate.
    pub fn leaf_controls(&self) -> (r: SearchControls)
        ensures
            r.min_leaf_records == self.stump.min_leaf_records,
            r.max_correction == self.stump.max_correction,
            r.min_gain == self.stump.min_gain,
            r.kinds@ == seq![StumpKind::TwoLeaf],
            r.top_k == usize::MAX,
            r.max_per_feature == 0,
    {
        let mut kinds: Vec<StumpKind> = Vec::new();
        kinds.push(StumpKind::TwoLeaf);
        assert(kinds@ =~= seq![StumpKind::TwoLeaf]);
        SearchControls {
            min_leaf_records: self.stump.min_leaf_records,
            max_correction: self.stump.max_correction,
            min_gain: self.stump.min_gain,
            kinds,
            top_k: usize::MAX,
            max_per_feature: 0,
        }
    }
}

/// A grown tree with diagnostics.
#[derive(Debug, PartialEq)]
pub struct TreeCandidate {
    /// Root.
    pub root: Node,
    /// Predicted SSE reduction.
    pub gain: Double,
    /// Records with non-zero correction.
    pub affected_records: Double,
    /// Records in the search set.
    pub total_records: Double,
    /// Depth.
    pub depth: usize,
    /// Growth policy label.
    pub growth: String,
}

// ---------------------------------------------------------------------------
// What a pass does to each leaf.
// ---------------------------------------------------------------------------

/// Of the leaves before `i` those that a pass splits, each of which puts two
/// leaves in its place.
spec fn split_before(picks: Seq<Option<(usize, usize)>>, i: int) -> int {
    chosen(picks.take(i)) as int
}

proof fn a_pass_keeps_the_places(
    leaves: Seq<LeafModel>,
    picks: Seq<Option<(usize, usize)>>,
    i: int,
)
    requires
        leaves.len() == picks.len(),
        0 <= i < leaves.len(),
    ensures
        grown(leaves, picks).len() == leaves.len() + chosen(picks),
        ({
            let after = grown(leaves, picks);
            let at = i + split_before(picks, i);
            &&& picks[i] matches Some((feature, bin)) ==> 0 <= at && at + 1 < after.len()
                && after[at] == child_of(leaves[i], feature, bin, false) && after[at + 1]
                == child_of(leaves[i], feature, bin, true)
            &&& picks[i] is None ==> 0 <= at < after.len() && after[at] == (LeafModel {
                frozen: true,
                ..leaves[i]
            })
        }),
    decreases leaves.len(),
{
    let less = leaves.drop_last();
    let fewer = picks.drop_last();
    reveal_with_fuel(grown, 2);
    reveal_with_fuel(chosen, 2);
    if less.len() > 0 {
        a_pass_keeps_the_places(
            less,
            fewer,
            if i < less.len() {
                i
            } else {
                0
            },
        );
    }
    if i < less.len() {
        assert(fewer.take(i) =~= picks.take(i));
        assert(less[i] == leaves[i]);
        assert(fewer[i] == picks[i]);
    } else {
        assert(picks.take(i) =~= fewer);
        assert(grown(less, fewer).len() == less.len() + chosen(fewer));
        assert(picks.last() == picks[i]);
        assert(leaves.last() == leaves[i]);
    }
}

/// How many of the leaves are still open, have a split to offer and lie above
/// the depth limit.
pub open spec fn open_leaves(leaves: Seq<LeafModel>, max_depth: int) -> nat {
    leaves.filter(|l: LeafModel| !l.frozen && l.best is Some && l.path.len() < max_depth).len()
}

proof fn level_wise_picks_the_open_leaves(leaves: Seq<LeafModel>, max_depth: int, n: int)
    requires
        0 <= n <= leaves.len(),
    ensures
        chosen(choices(leaves, GrowthPolicy::LevelWise, max_depth).take(n)) == open_leaves(
            leaves.take(n),
            max_depth,
        ),
    decreases n,
{
    let picks = choices(leaves, GrowthPolicy::LevelWise, max_depth);
    let open = |l: LeafModel| !l.frozen && l.best is Some && l.path.len() < max_depth;
    reveal(Seq::filter);
    if n > 0 {
        level_wise_picks_the_open_leaves(leaves, max_depth, n - 1);
        assert(picks.take(n).drop_last() =~= picks.take(n - 1));
        assert(leaves.take(n).drop_last() =~= leaves.take(n - 1));
        assert(leaves.take(n).last() == leaves[n - 1]);
        assert(picks.take(n).last() == picks[n - 1]);
    }
}

/// The leaf gave way to its two children, next to each other: on the left the
/// records at or below the edge of its best split, on the right those above it,
/// each with the count and the sum that the split left on that side, and both
/// open.
pub open spec fn gave_way(leaf: LeafModel, after: Seq<LeafModel>, at: int) -> bool {
    let split = leaf.best->0;
    let step = PathStep { feature: split.feature, bin: split.bin, right: false };
    &&& leaf.best is Some
    &&& 0 <= at && at + 1 < after.len()
    &&& after[at].path == leaf.path.push(step)
    &&& after[at + 1].path == leaf.path.push(PathStep { right: true, ..step })
    &&& after[at].count == split.left_records && after[at + 1].count == split.right_records
    &&& after[at].sum == leaf.left_sum && after[at + 1].sum == leaf.right_sum
    &&& after[at].best is None && after[at + 1].best is None
    &&& !after[at].frozen && !after[at + 1].frozen
}

/// The leaf is still there as it was, and frozen.
pub open spec fn stayed(leaf: LeafModel, after: Seq<LeafModel>, at: int) -> bool {
    &&& 0 <= at < after.len()
    &&& after[at].frozen
    &&& after[at].path == leaf.path && after[at].count == leaf.count && after[at].sum == leaf.sum
    &&& after[at].best == leaf.best
    &&& after[at].left_sum == leaf.left_sum && after[at].right_sum == leaf.right_sum
}

/// The leaf stayed, no further left than its place.
pub open spec fn stayed_behind(leaf: LeafModel, after: Seq<LeafModel>, place: int) -> bool {
    exists|at: int| place <= at && #[trigger] stayed(leaf, after, at)
}

/// A level-wise pass splits every leaf that is open, has a split to offer and is
/// above the depth limit, whatever its place, and no other; the leaves become
/// more by as many as were split.
pub proof fn level_wise_splits_every_open_leaf(leaves: Seq<LeafModel>, max_depth: int)
    ensures
        ({
            let picks = choices(leaves, GrowthPolicy::LevelWise, max_depth);
            let after = grown(leaves, picks);
            &&& after.len() == leaves.len() + open_leaves(leaves, max_depth)
            &&& chosen(picks) == open_leaves(leaves, max_depth)
            &&& forall|i: int|
                #![trigger leaves[i]]
                0 <= i < leaves.len() ==> if !leaves[i].frozen && leaves[i].best is Some
                    && leaves[i].path.len() < max_depth {
                    exists|at: int| i <= at && #[trigger] gave_way(leaves[i], after, at)
                } else {
                    stayed_behind(leaves[i], after, i)
                }
        }),
{
    let picks = choices(leaves, GrowthPolicy::LevelWise, max_depth);
    let after = grown(leaves, picks);
    level_wise_picks_the_open_leaves(leaves, max_depth, leaves.len() as int);
    assert(picks.take(leaves.len() as int) =~= picks);
    assert(leaves.take(leaves.len() as int) =~= leaves);
    if leaves.len() > 0 {
        a_pass_keeps_the_places(leaves, picks, 0);
    }
    assert forall|i: int| #![trigger leaves[i]] 0 <= i < leaves.len() implies if !leaves[i].frozen
        && leaves[i].best is Some && leaves[i].path.len() < max_depth {
        exists|at: int| i <= at && #[trigger] gave_way(leaves[i], after, at)
    } else {
        stayed_behind(leaves[i], after, i)
    } by {
        a_pass_keeps_the_places(leaves, picks, i);
        let at = i + split_before(picks, i);
        if !leaves[i].frozen && leaves[i].best is Some && leaves[i].path.len() < max_depth {
            assert(gave_way(leaves[i], after, at));
        } else {
            assert(stayed(leaves[i], after, at));
        }
    }
}

/// No leaf offers a split that ranks before this one's, whichever has the larger
/// gain or, of equal gains, the smaller feature, bin and kind, or comes first.
pub open spec fn offers_the_best(leaves: Seq<LeafModel>, i: int) -> bool {
    &&& 0 <= i < leaves.len()
    &&& leaves[i].best is Some
    &&& forall|j: int|
        0 <= j < leaves.len() && j != i && (#[trigger] leaves[j]).best is Some ==> {
            let (a, b) = (leaves[i].best->0, leaves[j].best->0);
            ||| a.gain.order() > b.gain.order()
            ||| a.gain.order() == b.gain.order() && (a.feature, a.bin) == (b.feature, b.bin)
                && a.kind == b.kind && i < j
            ||| a.gain.order() == b.gain.order() && (a.feature < b.feature || (a.feature
                == b.feature && (a.bin < b.bin || (a.bin == b.bin && a.kind.place()
                < b.kind.place()))))
        }
}

/// A best-first pass splits the one leaf that offers the best split, if it lies
/// above the depth limit, and leaves every other as it is.
pub proof fn best_first_splits_the_best_leaf(leaves: Seq<LeafModel>, max_depth: int, best: int)
    requires
        offers_the_best(leaves, best),
    ensures
        ({
            let picks = choices(leaves, GrowthPolicy::BestFirst, max_depth);
            let after = grown(leaves, picks);
            let splits = leaves[best].path.len() < max_depth;
            &&& after.len() == leaves.len() + if splits { 1int } else { 0 }
            &&& splits ==> exists|at: int| #[trigger] gave_way(leaves[best], after, at)
            &&& forall|i: int|
                #![trigger leaves[i]]
                0 <= i < leaves.len() && (i != best || !splits) ==> stayed_behind(
                    leaves[i],
                    after,
                    i,
                )
        }),
{
    let picks = choices(leaves, GrowthPolicy::BestFirst, max_depth);
    let after = grown(leaves, picks);
    let splits = leaves[best].path.len() < max_depth;
    assert(has_best_split(leaves, best)) by {
        assert forall|j: int|
            0 <= j < leaves.len() && (#[trigger] leaves[j]).best is Some implies {
            &&& !leaves[j].best->0.ahead(&leaves[best].best->0)
            &&& j < best ==> leaves[best].best->0.ahead(&leaves[j].best->0)
        } by {
            if j == best {
                StumpCandidate::ahead_is_asymmetric(leaves[j].best->0, leaves[j].best->0);
            }
        }
    }
    assert forall|i: int| 0 <= i < leaves.len() && i != best implies !has_best_split(
        leaves,
        i,
    ) by {
        if leaves[i].best is Some {
            StumpCandidate::ahead_is_asymmetric(leaves[i].best->0, leaves[best].best->0);
            assert(leaves[best].best is Some);
        }
    }
    assert(selected(leaves, GrowthPolicy::BestFirst, best));
    assert((picks[best] is Some) == splits);
    assert forall|i: int| 0 <= i < picks.len() && i != best implies (#[trigger] picks[i]) is None by {
        assert(!selected(leaves, GrowthPolicy::BestFirst, i));
    }
    only_one_is_chosen(picks, best, picks.len() as int);
    assert(picks.take(picks.len() as int) =~= picks);
    a_pass_keeps_the_places(leaves, picks, best);
    assert(after.len() == leaves.len() + if splits { 1int } else { 0 });
    if splits {
        assert(gave_way(leaves[best], after, best + split_before(picks, best)));
    }
    assert forall|i: int|
        #![trigger leaves[i]]
        0 <= i < leaves.len() && (i != best || !splits) implies stayed_behind(
        leaves[i],
        after,
        i,
    ) by {
        a_pass_keeps_the_places(leaves, picks, i);
        assert(stayed(leaves[i], after, i + split_before(picks, i)));
    }
}

proof fn only_one_is_chosen(picks: Seq<Option<(usize, usize)>>, best: int, n: int)
    requires
        0 <= best < picks.len(),
        0 <= n <= picks.len(),
        forall|i: int| 0 <= i < picks.len() && i != best ==> (#[trigger] picks[i]) is None,
    ensures
        chosen(picks.take(n)) == if best < n && picks[best] is Some {
            1nat
        } else {
            0
        },
    decreases n,
{
    if n > 0 {
        only_one_is_chosen(picks, best, n - 1);
        assert(picks.take(n).drop_last() =~= picks.take(n - 1));
        assert(picks.take(n).last() == picks[n - 1]);
    }
}

/// Whatever the policy, a pass in which some leaf offers a split selects one,
/// unless all that offer one are frozen and the policy is level-wise.
pub proof fn a_pass_selects_where_it_can(leaves: Seq<LeafModel>, i: int)
    requires
        0 <= i < leaves.len(),
        leaves[i].best is Some,
    ensures
        selected(leaves, GrowthPolicy::LevelWise, i) == !leaves[i].frozen,
        exists|j: int| 0 <= j < leaves.len() && selected(leaves, GrowthPolicy::BestFirst, j),
{
    let j = best_of_the_first(leaves, leaves.len() as int, i);
    assert(selected(leaves, GrowthPolicy::BestFirst, j));
}

proof fn best_of_the_first(leaves: Seq<LeafModel>, n: int, some: int) -> (j: int)
    requires
        0 <= some < n <= leaves.len(),
        leaves[some].best is Some,
    ensures
        0 <= j < n,
        leaves[j].best is Some,
        forall|k: int|
            0 <= k < n && (#[trigger] leaves[k]).best is Some ==> {
                &&& !leaves[k].best->0.ahead(&leaves[j].best->0)
                &&& k < j ==> leaves[j].best->0.ahead(&leaves[k].best->0)
            },
    decreases n,
{
    StumpCandidate::ahead_is_asymmetric(leaves[n - 1].best->0, leaves[n - 1].best->0);
    if exists|k: int| 0 <= k < n - 1 && (#[trigger] leaves[k]).best is Some {
        let k = choose|k: int| 0 <= k < n - 1 && (#[trigger] leaves[k]).best is Some;
        let j = best_of_the_first(leaves, n - 1, k);
        let (a, b) = (leaves[n - 1].best->0, leaves[j].best->0);
        if leaves[n - 1].best is Some && a.ahead(&b) {
            StumpCandidate::ahead_is_asymmetric(a, b);
            assert forall|k: int| 0 <= k < n && (#[trigger] leaves[k]).best is Some implies {
                &&& !leaves[k].best->0.ahead(&a)
                &&& k < n - 1 ==> a.ahead(&leaves[k].best->0)
            } by {
                if k < n - 1 {
                    let c = leaves[k].best->0;
                    if !a.ahead(&c) {
                        StumpCandidate::not_ahead_is_transitive(a, c, b);
                    }
                    StumpCandidate::ahead_is_asymmetric(a, c);
                }
            }
            n - 1
        } else {
            j
        }
    } else {
        n - 1
    }
}

/// The deepest path is as long as one of the paths, and none is longer.
pub proof fn deepest_is_the_longest_path(leaves: Seq<LeafModel>)
    ensures
        forall|i: int| 0 <= i < leaves.len() ==> (#[trigger] leaves[i]).path.len() <= deepest(leaves),
        leaves.len() > 0 ==> exists|i: int|
            0 <= i < leaves.len() && (#[trigger] leaves[i]).path.len() == deepest(leaves),
    decreases leaves.len(),
{
    if leaves.len() > 0 {
        let less = leaves.drop_last();
        deepest_is_the_longest_path(less);
        assert forall|i: int| 0 <= i < leaves.len() implies (#[trigger] leaves[i]).path.len()
            <= deepest(leaves) by {
            if i < less.len() {
                assert(less[i] == leaves[i]);
            }
        }
        if leaves.last().path.len() == deepest(leaves) {
            assert(leaves[leaves.len() - 1].path.len() == deepest(leaves));
        } else {
            let i = choose|i: int|
                0 <= i < less.len() && (#[trigger] less[i]).path.len() == deepest(less);
            assert(leaves[i].path.len() == deepest(leaves));
        }
    }
}

/// A full tree of a depth has one split less than two to that depth.
pub proof fn full_trees_double(depth: nat)
    requires
        1 <= depth <= 3,
    ensures
        full_splits(depth as int) == vstd::arithmetic::power2::pow2(depth) - 1,
{
    vstd::arithmetic::power2::lemma2_to64();
}

/// A root is the first stump of its feature; and a feature is missing only when
/// there are as many roots as asked for.
pub proof fn roots_are_first_of_their_feature(
    stumps: Seq<StumpCandidate>,
    n: int,
    limit: int,
)
    requires
        0 <= n <= stumps.len(),
        0 <= limit,
    ensures
        ({
            let roots = distinct_roots(stumps, n, limit);
            &&& forall|r: int|
                0 <= r < roots.len() ==> exists|i: int|
                    0 <= i < n && #[trigger] stumps[i].feature == (#[trigger] roots[r]).0
                        && stumps[i].bin == roots[r].1 && forall|j: int|
                        0 <= j < i ==> (#[trigger] stumps[j]).feature != roots[r].0
            &&& forall|i: int|
                0 <= i < n && roots.len() < limit ==> has_feature(
                    roots,
                    (#[trigger] stumps[i]).feature,
                )
        }),
    decreases n,
{
    if n > 0 {
        roots_are_first_of_their_feature(stumps, n - 1, limit);
        let before = distinct_roots(stumps, n - 1, limit);
        let roots = distinct_roots(stumps, n, limit);
        let s = stumps[n - 1];
        assert forall|r: int| 0 <= r < roots.len() implies exists|i: int|
            0 <= i < n && #[trigger] stumps[i].feature == (#[trigger] roots[r]).0 && stumps[i].bin
                == roots[r].1 && forall|j: int|
                0 <= j < i ==> (#[trigger] stumps[j]).feature != roots[r].0 by {
            if r < before.len() {
                assert(roots[r] == before[r]);
                let i = choose|i: int|
                    0 <= i < n - 1 && #[trigger] stumps[i].feature == before[r].0 && stumps[i].bin
                        == before[r].1 && forall|j: int|
                        0 <= j < i ==> (#[trigger] stumps[j]).feature != before[r].0;
                assert(stumps[i].feature == roots[r].0);
            } else {
                assert(stumps[n - 1].feature == roots[r].0);
                assert forall|j: int| 0 <= j < n - 1 implies (#[trigger] stumps[j]).feature
                    != roots[r].0 by {
                    assert(has_feature(before, stumps[j].feature));
                }
            }
        }
        assert forall|i: int| 0 <= i < n && roots.len() < limit implies has_feature(
            roots,
            (#[trigger] stumps[i]).feature,
        ) by {
            if i < n - 1 {
                assert(has_feature(before, stumps[i].feature));
                let k = choose|k: int|
                    0 <= k < before.len() && (#[trigger] before[k]).0 == stumps[i].feature;
                assert(roots[k].0 == stumps[i].feature);
            } else if has_feature(before, s.feature) {
            } else {
                assert(roots[before.len() as int].0 == s.feature);
            }
        }
    }
}

/// A leaf is offered the first candidate, or at the root the first one for the
/// root asked for, and only when its left side is large enough; where such a
/// candidate is there, it is offered.
pub proof fn offers_are_the_first_that_fit(
    candidates: Seq<StumpCandidate>,
    root: Option<(usize, usize)>,
    min_leaf: Double,
)
    ensures
        ({
            let fits = |c: StumpCandidate|
                root matches Some((f, b)) ==> c.feature == f && c.bin == b;
            match offered_split(candidates, root, min_leaf) {
                Some(c) => exists|i: int|
                    0 <= i < candidates.len() && #[trigger] candidates[i] == c && fits(c)
                        && !min_leaf.above(c.left_records) && forall|j: int|
                        0 <= j < i ==> !fits(#[trigger] candidates[j]),
                None => forall|i: int|
                    0 <= i < candidates.len() && fits(#[trigger] candidates[i]) ==> exists|j: int|
                        0 <= j <= i && fits(#[trigger] candidates[j]) && min_leaf.above(
                            candidates[j].left_records,
                        ),
            }
        }),
{
    let fits = |c: StumpCandidate| root matches Some((f, b)) ==> c.feature == f && c.bin == b;
    let at = match root {
        Some((f, b)) => first_at(candidates, f, b, 0),
        None => 0,
    };
    if let Some((f, b)) = root {
        first_at_is_the_first(candidates, f, b, 0);
    }
    match offered_split(candidates, root, min_leaf) {
        Some(c) => {
            assert(candidates[at] == c);
        },
        None => {
            assert forall|i: int|
                0 <= i < candidates.len() && fits(#[trigger] candidates[i]) implies exists|j: int|
                0 <= j <= i && fits(#[trigger] candidates[j]) && min_leaf.above(
                    candidates[j].left_records,
                ) by {
                assert(at <= i);
                assert(fits(candidates[at]));
            }
        },
    }
}

proof fn first_at_is_the_first(
    candidates: Seq<StumpCandidate>,
    feature: usize,
    bin: usize,
    from: int,
)
    requires
        0 <= from <= candidates.len(),
    ensures
        from <= first_at(candidates, feature, bin, from) <= candidates.len(),
        ({
            let at = first_at(candidates, feature, bin, from);
            &&& at < candidates.len() ==> candidates[at].feature == feature && candidates[at].bin
                == bin
            &&& forall|j: int|
                from <= j < at ==> !((#[trigger] candidates[j]).feature == feature
                    && candidates[j].bin == bin)
        }),
    decreases candidates.len() - from,
{
    if from < candidates.len() && !(candidates[from].feature == feature && candidates[from].bin
        == bin) {
        first_at_is_the_first(candidates, feature, bin, from + 1);
    }
}

/// Position `i` is the last among the first `n` with its depth.
pub open spec fn last_of_its_depth(depths: Seq<usize>, n: int, i: int) -> bool {
    0 <= i < n && forall|j: int| i < j < n ==> #[trigger] depths[j] != depths[i]
}

/// What is kept are the last candidates of their depths, all of them, each once.
pub proof fn kept_candidates_are_last_of_their_depth(depths: Seq<usize>, n: int)
    requires
        0 <= n <= depths.len(),
    ensures
        forall|i: int|
            #[trigger] last_of_each_depth(depths, n).contains(i) <==> last_of_its_depth(
                depths,
                n,
                i,
            ),
        last_of_each_depth(depths, n).no_duplicates(),
    decreases n,
{
    if n > 0 {
        kept_candidates_are_last_of_their_depth(depths, n - 1);
        let before = last_of_each_depth(depths, n - 1);
        let kept = last_of_each_depth(depths, n);
        let d = depths[n - 1];
        listed_at_is_the_first(depths, before, d, 0);
        let at = listed_at(depths, before, d, 0);
        assert forall|k: int| 0 <= k < before.len() implies last_of_its_depth(
            depths,
            n - 1,
            #[trigger] before[k],
        ) by {
            assert(before.contains(before[k]));
        }
        assert forall|i: int|
            #[trigger] last_of_each_depth(depths, n).contains(i) implies last_of_its_depth(
            depths,
            n,
            i,
        ) by {
            let k = choose|k: int| 0 <= k < kept.len() && kept[k] == i;
            if k != at {
                assert(kept[k] == before[k]);
                assert(last_of_its_depth(depths, n - 1, i));
                if depths[i] == d {
                    assert(at < before.len() && at < k) by {
                        if k < at {
                            assert(depths[before[k]] != d);
                        }
                    }
                    let x = before[at];
                    assert(last_of_its_depth(depths, n - 1, x));
                    assert(depths[x] == d);
                    assert(x == i);
                    assert(before[at] == before[k]);
                }
            }
        }
        assert forall|i: int| last_of_its_depth(depths, n, i) implies #[trigger] last_of_each_depth(
            depths,
            n,
        ).contains(i) by {
            if i == n - 1 {
                assert(kept[at] == i);
            } else {
                assert(depths[n - 1] != depths[i]);
                assert(last_of_its_depth(depths, n - 1, i));
                assert(before.contains(i));
                let k = choose|k: int| 0 <= k < before.len() && before[k] == i;
                assert(kept[k] == i);
            }
        }
    }
}

proof fn listed_at_is_the_first(depths: Seq<usize>, listed: Seq<int>, depth: usize, from: int)
    requires
        0 <= from <= listed.len(),
    ensures
        from <= listed_at(depths, listed, depth, from) <= listed.len(),
        listed_at(depths, listed, depth, from) < listed.len() ==> depths[listed[listed_at(
            depths,
            listed,
            depth,
            from,
        )]] == depth,
        forall|k: int|
            from <= k < listed_at(depths, listed, depth, from) ==> depths[#[trigger] listed[k]]
                != depth,
    decreases listed.len() - from,
{
    if from < listed.len() && depths[listed[from]] != depth {
        listed_at_is_the_first(depths, listed, depth, from + 1);
    }
}

} // verus!
