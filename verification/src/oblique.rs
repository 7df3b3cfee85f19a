//! Oblique (multi-feature linear) splits: `w1·x1 + w2·x2 (+ w3·x3) > threshold`.
//!
//! Candidates come from a promising axis-aligned split plus a second feature, or
//! from random sparse combinations. Each is tried by brute force on the raw
//! sample (project, sort, prefix scan), and coordinate jitter refines the best.
//! All of it is a heuristic proposal; the scorer judges. Projections and prefix
//! sums arrive as values; which cut, which hyperplane and which refinement wins
//! is decided here.

use rand::rngs::StdRng;
use vstd::prelude::*;
use vstd::string::*;

use crate::floats::{Double, Single};
use crate::histogram;
use crate::histogram::{SearchControls, StumpKind};
use crate::math;
use crate::math::clamp_size;
use crate::patch::{Condition, Node, Rule, Term, Tree};
use crate::random::pick_below;
use crate::ranking;
use crate::ranking::Ranked;
use crate::strategies::RawSample;

verus! {

/// Origin of a candidate around a promising axis split.
pub const ORIGIN_AXIS: &'static str = "axis+1";

/// Origin of a random sparse candidate.
pub const ORIGIN_RANDOM: &'static str = "random-sparse";

/// Origin of a refined candidate.
pub const ORIGIN_JITTER: &'static str = "jitter";

/// An oblique split proposal.
#[derive(Debug, PartialEq)]
pub struct ObliqueCandidate {
    /// Root split.
    pub root: Node,
    /// Predicted SSE reduction.
    pub gain: Double,
    /// Records corrected.
    pub affected_records: Double,
    /// Records in the sample.
    pub total_records: Double,
    /// How it was generated (`axis+1`, `random-sparse`, `jitter`).
    pub origin: String,
}

/// Oblique search controls.
#[derive(Debug, PartialEq)]
pub struct ObliqueControls {
    /// Stump controls (min leaf, clamp).
    pub stump: SearchControls,
    /// Candidates to return.
    pub count: usize,
    /// Random sparse combinations to try.
    pub random_combos: usize,
    /// Coordinate-jitter rounds per hyperplane.
    pub jitter_rounds: usize,
    /// Maximum terms (2 or 3).
    pub max_terms: usize,
}

// ---------------------------------------------------------------------------
// Choosing the threshold.
// ---------------------------------------------------------------------------

/// A projected record.
#[derive(Debug)]
pub struct Projected {
    /// Value of the projection.
    pub value: Single,
}

impl Ranked for Projected {
    /// Smaller projection first.
    open spec fn ahead(&self, other: &Projected) -> bool {
        self.value.order() < other.value.order()
    }

    proof fn ahead_is_asymmetric(a: Projected, b: Projected) {
    }

    proof fn not_ahead_is_transitive(a: Projected, b: Projected, c: Projected) {
    }

    fn is_ahead(&self, other: &Projected) -> (r: bool) {
        self.value.rank() < other.value.rank()
    }
}

/// The projected records.
pub open spec fn projected(p: Seq<Single>) -> Seq<Projected> {
    Seq::new(p.len(), |i: int| Projected { value: p[i] })
}

/// The records by projection, smallest first, ties in record order.
pub fn projection_order(p: &Vec<Single>) -> (r: Vec<usize>)
    ensures
        r@ == ranking::the_ranking(projected(p@)),
        ranking::is_ranking(projected(p@), r@),
{
    let n: usize = p.len();
    let mut items: Vec<Projected> = Vec::new();
    for i in 0..n
        invariant
            n == p@.len(),
            items@ == projected(p@).take(i as int),
    {
        items.push(Projected { value: p[i] });
        assert(items@ =~= projected(p@).take(i as int + 1));
    }
    assert(items@ =~= projected(p@));
    ranking::ranking(&items)
}

/// What the sums on the two sides of a cut come to, the left side holding the
/// records up to and with the cut's own.
#[derive(Debug, Clone, Copy, PartialEq, Eq, Structural)]
pub struct CutSums {
    /// Records on the left.
    pub left_records: Double,
    /// Records on the right.
    pub right_records: Double,
    /// Records on both sides.
    pub both_records: Double,
    /// Clamped mean residual on the left.
    pub left_correction: Single,
    /// Clamped mean residual on the right.
    pub right_correction: Single,
    /// SSE reduction of the left correction.
    pub left_gain: Double,
    /// SSE reduction of the right correction.
    pub right_gain: Double,
    /// SSE reduction of both corrections.
    pub both_gain: Double,
}

/// A threshold with its corrections.
#[derive(Debug, Clone, Copy, PartialEq, Eq, Structural)]
pub struct Cut {
    /// Threshold.
    pub threshold: Single,
    /// Correction on the left.
    pub left: Single,
    /// Correction on the right.
    pub right: Single,
    /// Predicted SSE reduction.
    pub gain: Double,
    /// Records corrected.
    pub affected: Double,
}

/// The cut that a kind of correction makes.
pub open spec fn cut_of(t: Single, s: CutSums, kind: StumpKind) -> Cut {
    let zero = Single { bits: 0 };
    match kind {
        StumpKind::LeftOnly => Cut {
            threshold: t,
            left: s.left_correction,
            right: zero,
            gain: s.left_gain,
            affected: s.left_records,
        },
        StumpKind::RightOnly => Cut {
            threshold: t,
            left: zero,
            right: s.right_correction,
            gain: s.right_gain,
            affected: s.right_records,
        },
        StumpKind::TwoLeaf => Cut {
            threshold: t,
            left: s.left_correction,
            right: s.right_correction,
            gain: s.both_gain,
            affected: s.both_records,
        },
    }
}

/// A threshold can stand behind place `k` of the order: the value there is
/// finite, the next one differs, and neither side is short of records.
pub open spec fn can_cut(
    p: Seq<Single>,
    order: Seq<usize>,
    sums: Seq<CutSums>,
    min_leaf: Double,
    k: int,
) -> bool {
    let t = p[order[k] as int];
    &&& 0 <= k < order.len()
    &&& t.finite()
    &&& k + 1 < order.len() ==> !p[order[k + 1] as int].same_value(t)
    &&& !min_leaf.above(sums[k].left_records)
    &&& !min_leaf.above(sums[k].right_records)
}

/// The cut at a place of the order, for a kind.
pub open spec fn cut_at(
    p: Seq<Single>,
    order: Seq<usize>,
    sums: Seq<CutSums>,
    kinds: Seq<StumpKind>,
    k: int,
    j: int,
) -> Cut {
    cut_of(p[order[k] as int], sums[k], kinds[j])
}

/// A kind of correction gains something at a place of the order.
pub open spec fn gains(
    p: Seq<Single>,
    order: Seq<usize>,
    sums: Seq<CutSums>,
    min_leaf: Double,
    kinds: Seq<StumpKind>,
    k: int,
    j: int,
) -> bool {
    &&& can_cut(p, order, sums, min_leaf, k)
    &&& 0 <= j < kinds.len()
    &&& cut_at(p, order, sums, kinds, k, j).gain.above(Double { bits: 0 })
}

/// Place `k` and kind `j` come before place `k2` and kind `j2`.
pub open spec fn tried_before(k: int, j: int, k2: int, j2: int) -> bool {
    k < k2 || (k == k2 && j < j2)
}

/// Of what was tried before `(k, j)`, the cut at `(bk, bj)` is the first with the
/// largest gain.
pub open spec fn best_before(
    p: Seq<Single>,
    order: Seq<usize>,
    sums: Seq<CutSums>,
    min_leaf: Double,
    kinds: Seq<StumpKind>,
    bk: int,
    bj: int,
    k: int,
    j: int,
) -> bool {
    let best = cut_at(p, order, sums, kinds, bk, bj).gain;
    &&& gains(p, order, sums, min_leaf, kinds, bk, bj)
    &&& tried_before(bk, bj, k, j)
    &&& forall|k2: int, j2: int| #[trigger]
        gains(p, order, sums, min_leaf, kinds, k2, j2) && tried_before(k2, j2, k, j) ==> {
            let other = cut_at(p, order, sums, kinds, k2, j2).gain;
            &&& !other.above(best)
            &&& tried_before(k2, j2, bk, bj) ==> best.above(other)
        }
}

fn make_cut(t: Single, s: &CutSums, kind: StumpKind) -> (r: Cut)
    ensures
        r == cut_of(t, *s, kind),
{
    match kind {
        StumpKind::LeftOnly => Cut {
            threshold: t,
            left: s.left_correction,
            right: Single::zero(),
            gain: s.left_gain,
            affected: s.left_records,
        },
        StumpKind::RightOnly => Cut {
            threshold: t,
            left: Single::zero(),
            right: s.right_correction,
            gain: s.right_gain,
            affected: s.right_records,
        },
        StumpKind::TwoLeaf => Cut {
            threshold: t,
            left: s.left_correction,
            right: s.right_correction,
            gain: s.both_gain,
            affected: s.both_records,
        },
    }
}

/// Best threshold for a projection: the cut with the largest positive gain, the
/// first of equals, in the order of the projection and of the kinds.
/// `sums[k]` belongs to the cut behind place `k` of the order.
pub fn best_threshold(
    p: &Vec<Single>,
    order: &Vec<usize>,
    sums: &Vec<CutSums>,
    controls: &SearchControls,
) -> (r: Option<Cut>)
    requires
        ranking::is_ranking(projected(p@), order@),
        sums@.len() == p@.len(),
    ensures
        match r {
            None => forall|k: int, j: int|
                !#[trigger] gains(
                    p@,
                    order@,
                    sums@,
                    controls.min_leaf_records,
                    controls.kinds@,
                    k,
                    j,
                ),
            Some(cut) => exists|k: int, j: int|
                #[trigger] best_before(
                    p@,
                    order@,
                    sums@,
                    controls.min_leaf_records,
                    controls.kinds@,
                    k,
                    j,
                    p@.len() as int,
                    0,
                ) && cut == cut_at(p@, order@, sums@, controls.kinds@, k, j),
        },
{
    let n: usize = p.len();
    let min: Double = controls.min_leaf_records;
    let kinds = &controls.kinds;
    let m: usize = kinds.len();
    let ghost ps = p@;
    let ghost os = order@;
    let ghost ss = sums@;
    let ghost ks = kinds@;
    let mut best: Option<Cut> = None;
    let ghost mut bk: int = 0;
    let ghost mut bj: int = 0;
    for k in 0..n
        invariant
            n == p@.len(),
            m == kinds@.len(),
            ps == p@,
            os == order@,
            ss == sums@,
            ks == kinds@,
            os.len() == n,
            ss.len() == n,
            forall|i: int| 0 <= i < n ==> #[trigger] os[i] < n,
            match best {
                None => forall|k2: int, j2: int| #[trigger]
                    gains(ps, os, ss, min, ks, k2, j2) ==> !tried_before(k2, j2, k as int, 0),
                Some(cut) => best_before(ps, os, ss, min, ks, bk, bj, k as int, 0) && cut == cut_at(
                    ps,
                    os,
                    ss,
                    ks,
                    bk,
                    bj,
                ),
            },
    {
        let t: Single = p[order[k]];
        let last: bool = k + 1 == n || !p[order[k + 1]].eq_value(t);
        let s: CutSums = sums[k];
        let fits: bool = t.is_finite() && last && !min.gt(s.left_records) && !min.gt(
            s.right_records,
        );
        assert(fits == can_cut(ps, os, ss, min, k as int));
        if fits {
            for j in 0..m
                invariant
                    n == p@.len(),
                    m == kinds@.len(),
                    ps == p@,
                    os == order@,
                    ss == sums@,
                    ks == kinds@,
                    k < n,
                    os.len() == n,
                    ss.len() == n,
                    t == ps[os[k as int] as int],
                    s == ss[k as int],
                    can_cut(ps, os, ss, min, k as int),
                    match best {
                        None => forall|k2: int, j2: int| #[trigger]
                            gains(ps, os, ss, min, ks, k2, j2) ==> !tried_before(
                                k2,
                                j2,
                                k as int,
                                j as int,
                            ),
                        Some(cut) => best_before(ps, os, ss, min, ks, bk, bj, k as int, j as int)
                            && cut == cut_at(ps, os, ss, ks, bk, bj),
                    },
            {
                let cut = make_cut(t, &s, kinds[j]);
                assert(cut == cut_at(ps, os, ss, ks, k as int, j as int));
                let better: bool = match best {
                    None => true,
                    Some(b) => cut.gain.gt(b.gain),
                };
                let counts: bool = cut.gain.gt(Double::zero());
                assert(counts == gains(ps, os, ss, min, ks, k as int, j as int));
                proof {
                    if counts && better {
                        assert forall|k2: int, j2: int| #[trigger]
                            gains(ps, os, ss, min, ks, k2, j2) && tried_before(
                                k2,
                                j2,
                                k as int,
                                j + 1,
                            ) implies {
                            let other = cut_at(ps, os, ss, ks, k2, j2).gain;
                            &&& !other.above(cut.gain)
                            &&& tried_before(k2, j2, k as int, j as int) ==> cut.gain.above(other)
                        } by {
                        }
                        bk = k as int;
                        bj = j as int;
                    }
                }
                if counts && better {
                    best = Some(cut);
                }
            }
        }
    }
    best
}

// ---------------------------------------------------------------------------
// Candidates.
// ---------------------------------------------------------------------------

/// The terms of a hyperplane over columns of a sample.
pub open spec fn column_terms(features: Seq<usize>, cols: Seq<usize>, weights: Seq<Single>) -> Seq<
    Term,
> {
    Seq::new(
        cols.len(),
        |i: int| Term { feature: features[cols[i] as int], weight: weights[i] },
    )
}

/// The split of a hyperplane.
pub open spec fn oblique_tree(terms: Seq<Term>, cut: Cut) -> Tree {
    Tree::Split {
        rule: Rule { terms, threshold: cut.threshold },
        left: Box::new(Tree::Leaf { correction: cut.left }),
        right: Box::new(Tree::Leaf { correction: cut.right }),
    }
}

impl ObliqueCandidate {
    /// The candidate that a cut of a hyperplane makes. `total` is the number of
    /// records in the sample.
    pub fn new(
        sample: &RawSample,
        cols: &Vec<usize>,
        weights: &Vec<Single>,
        cut: &Cut,
        total: Double,
        origin: &str,
    ) -> (r: ObliqueCandidate)
        requires
            cols@.len() == weights@.len(),
            forall|i: int| 0 <= i < cols@.len() ==> #[trigger] cols@[i] < sample.features@.len(),
        ensures
            r.root@ == oblique_tree(column_terms(sample.features@, cols@, weights@), *cut),
            r.gain == cut.gain,
            r.affected_records == cut.affected,
            r.total_records == total,
            r.origin@ == origin@,
    {
        let n: usize = cols.len();
        let ghost want = column_terms(sample.features@, cols@, weights@);
        let mut terms: Vec<Term> = Vec::new();
        for i in 0..n
            invariant
                n == cols@.len(),
                cols@.len() == weights@.len(),
                want == column_terms(sample.features@, cols@, weights@),
                forall|i: int|
                    0 <= i < cols@.len() ==> #[trigger] cols@[i] < sample.features@.len(),
                terms@ == want.take(i as int),
        {
            terms.push(Term { feature: sample.features[cols[i]], weight: weights[i] });
            assert(terms@ =~= want.take(i as int + 1));
        }
        assert(terms@ =~= want);
        let left = Node::leaf(cut.left);
        let right = Node::leaf(cut.right);
        let root = Node::Split {
            condition: Condition { terms, threshold: cut.threshold },
            left: Box::new(left),
            right: Box::new(right),
        };
        ObliqueCandidate {
            root,
            gain: cut.gain,
            affected_records: cut.affected,
            total_records: total,
            origin: origin.to_owned(),
        }
    }
}

impl Ranked for ObliqueCandidate {
    /// Larger gain first.
    open spec fn ahead(&self, other: &ObliqueCandidate) -> bool {
        self.gain.order() > other.gain.order()
    }

    proof fn ahead_is_asymmetric(a: ObliqueCandidate, b: ObliqueCandidate) {
    }

    proof fn not_ahead_is_transitive(
        a: ObliqueCandidate,
        b: ObliqueCandidate,
        c: ObliqueCandidate,
    ) {
    }

    fn is_ahead(&self, other: &ObliqueCandidate) -> (r: bool) {
        self.gain.rank() > other.gain.rank()
    }
}

/// The search has something to look at: two columns and a record.
pub fn can_search(sample: &RawSample) -> (r: bool)
    ensures
        r == (sample.features@.len() >= 2 && sample.residual@.len() > 0),
{
    sample.features.len() >= 2 && sample.records() > 0
}

/// The second columns to try beside an axis, below column `n`: every other one,
/// with a positive and then a negative (`true`) coefficient.
pub open spec fn partners(axis: int, n: int) -> Seq<(usize, bool)>
    decreases n,
{
    if n <= 0 {
        seq![]
    } else if n - 1 == axis {
        partners(axis, n - 1)
    } else {
        partners(axis, n - 1) + seq![((n - 1) as usize, false), ((n - 1) as usize, true)]
    }
}

/// The second columns to try beside an axis.
pub fn axis_partners(axis: usize, columns: usize) -> (r: Vec<(usize, bool)>)
    ensures
        r@ == partners(axis as int, columns as int),
{
    let mut out: Vec<(usize, bool)> = Vec::new();
    for b in 0..columns
        invariant
            out@ == partners(axis as int, b as int),
    {
        if b != axis {
            let ghost before = out@;
            out.push((b, false));
            out.push((b, true));
            assert(out@ =~= before + seq![(b, false), (b, true)]);
        }
    }
    out
}

/// Most terms of a random combination: two or three, and no more than columns.
pub open spec fn term_cap(max_terms: int, columns: int) -> int {
    let wanted = math::clamped(max_terms, 2, 3);
    if wanted <= columns {
        wanted
    } else {
        columns
    }
}

/// Most terms of a random combination.
pub fn term_limit(max_terms: usize, columns: usize) -> (r: usize)
    ensures
        r == term_cap(max_terms as int, columns as int),
{
    let wanted: usize = clamp_size(max_terms, 2, 3);
    if wanted <= columns {
        wanted
    } else {
        columns
    }
}

/// How many terms a random combination has: from two to the limit.
pub fn draw_terms(limit: usize, rng: &mut StdRng) -> (r: usize)
    requires
        limit >= 2,
    ensures
        2 <= r <= limit,
{
    2 + pick_below(rng, limit - 1)
}

/// Take a column that is not there yet. Returns whether it was taken.
pub fn offer_column(cols: &mut Vec<usize>, c: usize) -> (r: bool)
    ensures
        r == !old(cols)@.contains(c),
        final(cols)@ == if r {
            old(cols)@.push(c)
        } else {
            old(cols)@
        },
{
    let n: usize = cols.len();
    for i in 0..n
        invariant
            n == cols@.len(),
            cols@ == old(cols)@,
            forall|x: int| 0 <= x < i ==> #[trigger] cols@[x] != c,
    {
        if cols[i] == c {
            assert(old(cols)@[i as int] == c);
            return false;
        }
    }
    cols.push(c);
    true
}

/// Draw a column, and take it when it is not there yet.
pub fn draw_column(cols: &mut Vec<usize>, columns: usize, rng: &mut StdRng) -> (r: bool)
    requires
        columns > 0,
    ensures
        r ==> exists|c: usize|
            c < columns && !old(cols)@.contains(c) && final(cols)@ == old(cols)@.push(c),
        !r ==> final(cols)@ == old(cols)@,
        !r ==> exists|c: usize| c < columns && old(cols)@.contains(c),
{
    let c: usize = pick_below(rng, columns);
    offer_column(cols, c)
}

/// Offered columns repeat nothing.
pub proof fn offered_columns_are_distinct(cols: Seq<usize>, c: usize)
    requires
        cols.no_duplicates(),
        !cols.contains(c),
    ensures
        cols.push(c).no_duplicates(),
{
}

/// The positions of the `count` candidates with the largest gains, best first,
/// equals in the order in which they were found.
pub fn keep_best(found: &Vec<ObliqueCandidate>, count: usize) -> (r: Vec<usize>)
    ensures
        r@ == histogram::at_most(ranking::the_ranking(found@), count as int),
        forall|i: int| 0 <= i < r@.len() ==> #[trigger] r@[i] < found@.len(),
{
    let mut order = ranking::ranking(found);
    if order.len() > count {
        order.truncate(count);
    }
    assert(order@ =~= histogram::at_most(ranking::the_ranking(found@), count as int));
    order
}

/// How many found candidates are refined: the count asked for, at least one.
pub fn refined_count(count: usize) -> (r: usize)
    ensures
        r == if count == 0 {
            1
        } else {
            count
        },
{
    if count == 0 {
        1
    } else {
        count
    }
}

/// A column of the sample that holds a feature: the first.
pub open spec fn is_column_of(features: Seq<usize>, feature: usize, c: usize) -> bool {
    &&& c < features.len()
    &&& features[c as int] == feature
    &&& forall|x: int| 0 <= x < c ==> #[trigger] features[x] != feature
}

/// The columns of a hyperplane's terms.
pub fn term_columns(features: &Vec<usize>, terms: &Vec<Term>) -> (r: Vec<usize>)
    requires
        forall|i: int| 0 <= i < terms@.len() ==> features@.contains(#[trigger] terms@[i].feature),
    ensures
        r@.len() == terms@.len(),
        forall|i: int|
            0 <= i < terms@.len() ==> is_column_of(
                features@,
                terms@[i].feature,
                #[trigger] r@[i],
            ),
{
    let n: usize = terms.len();
    let columns: usize = features.len();
    let mut out: Vec<usize> = Vec::new();
    for i in 0..n
        invariant
            n == terms@.len(),
            columns == features@.len(),
            forall|i: int|
                0 <= i < terms@.len() ==> features@.contains(#[trigger] terms@[i].feature),
            out@.len() == i,
            forall|x: int|
                0 <= x < i ==> is_column_of(features@, terms@[x].feature, #[trigger] out@[x]),
    {
        let f: usize = terms[i].feature;
        assert(features@.contains(terms@[i as int].feature));
        let mut c: usize = 0;
        while features[c] != f
            invariant
                features@.contains(f),
                columns == features@.len(),
                c < columns,
                forall|x: int| 0 <= x < c ==> #[trigger] features@[x] != f,
            decreases columns - c,
        {
            proof {
                let w = choose|w: int| 0 <= w < features@.len() && features@[w] == f;
                assert(w > c);
            }
            c = c + 1;
        }
        out.push(c);
    }
    out
}

/// A coordinate step: which weight, and whether it grows or shrinks.
#[derive(Debug, Clone, Copy, PartialEq, Eq, Structural)]
pub struct JitterStep {
    /// Index of the weight.
    pub term: usize,
    /// It grows.
    pub grow: bool,
}

/// The steps of one round over the first `n` weights: each shrinks, then grows.
pub open spec fn round_steps(n: int) -> Seq<JitterStep>
    decreases n,
{
    if n <= 0 {
        seq![]
    } else {
        round_steps(n - 1).push(JitterStep { term: (n - 1) as usize, grow: false }).push(
            JitterStep { term: (n - 1) as usize, grow: true },
        )
    }
}

/// The steps of one jitter round over a hyperplane's weights.
pub fn jitter_round(terms: usize) -> (r: Vec<JitterStep>)
    ensures
        r@ == round_steps(terms as int),
{
    let mut out: Vec<JitterStep> = Vec::new();
    for i in 0..terms
        invariant
            out@ == round_steps(i as int),
    {
        out.push(JitterStep { term: i, grow: false });
        out.push(JitterStep { term: i, grow: true });
    }
    out
}

/// A hyperplane under refinement.
#[derive(Debug)]
pub struct Refinement {
    /// Best candidate so far.
    pub best: ObliqueCandidate,
    /// Its weights.
    pub weights: Vec<Single>,
}

impl Refinement {
    /// Offer the candidate of jittered weights: it replaces the best when its gain
    /// is strictly larger.
    pub fn offer(&mut self, candidate: ObliqueCandidate, weights: Vec<Single>)
        ensures
            candidate.gain.above(old(self).best.gain) ==> {
                &&& final(self).best == candidate
                &&& final(self).weights == weights
            },
            !candidate.gain.above(old(self).best.gain) ==> *final(self) == *old(self),
    {
        if candidate.gain.gt(self.best.gain) {
            self.best = candidate;
            self.weights = weights;
        }
    }
}

/// Refining never loses gain.
pub proof fn refining_never_loses(before: Refinement, after: Refinement, offered: ObliqueCandidate)
    requires
        offered.gain.above(before.best.gain) ==> after.best == offered,
        !offered.gain.above(before.best.gain) ==> after == before,
    ensures
        !before.best.gain.above(after.best.gain),
{
}

// ---------------------------------------------------------------------------
// What a cut, a hyperplane and a round say.
// ---------------------------------------------------------------------------

/// A cut stands at its threshold and corrects a side by that side's own clamped
/// mean or not at all; its gain is that of exactly the corrections it carries,
/// and what it affects are the records of the sides that it corrects.
pub proof fn cuts_correct_a_side_by_its_own_mean(t: Single, s: CutSums, kind: StumpKind)
    ensures
        ({
            let c = cut_of(t, s, kind);
            let left = kind == StumpKind::LeftOnly || kind == StumpKind::TwoLeaf;
            let right = kind == StumpKind::RightOnly || kind == StumpKind::TwoLeaf;
            &&& c.threshold == t
            &&& left ==> c.left == s.left_correction
            &&& !left ==> c.left.bits == 0
            &&& right ==> c.right == s.right_correction
            &&& !right ==> c.right.bits == 0
            &&& left && right ==> c.gain == s.both_gain && c.affected == s.both_records
            &&& left && !right ==> c.gain == s.left_gain && c.affected == s.left_records
            &&& !left && right ==> c.gain == s.right_gain && c.affected == s.right_records
        }),
{
}

/// Neither side is favoured: exchanging the sums of the sides exchanges the
/// corrections.
pub proof fn cuts_treat_sides_alike(t: Single, s: CutSums)
    ensures
        ({
            let e = CutSums {
                left_records: s.right_records,
                right_records: s.left_records,
                left_correction: s.right_correction,
                right_correction: s.left_correction,
                left_gain: s.right_gain,
                right_gain: s.left_gain,
                ..s
            };
            let (l, r) = (cut_of(t, s, StumpKind::LeftOnly), cut_of(t, e, StumpKind::RightOnly));
            let (b, c) = (cut_of(t, s, StumpKind::TwoLeaf), cut_of(t, e, StumpKind::TwoLeaf));
            &&& l.left == r.right && l.right == r.left && l.gain == r.gain && l.affected
                == r.affected
            &&& b.left == c.right && b.right == c.left && b.gain == c.gain && b.affected
                == c.affected
        }),
{
}

/// The best cut parts the records by their projection: those up to its place lie
/// at or below its threshold and those behind it above, neither side is short of
/// records, its gain is positive, and no cut that could be made gains more.
pub proof fn best_cuts_part_the_records(
    p: Seq<Single>,
    order: Seq<usize>,
    sums: Seq<CutSums>,
    min_leaf: Double,
    kinds: Seq<StumpKind>,
    k: int,
    j: int,
)
    requires
        ranking::is_ranking(projected(p), order),
        sums.len() == p.len(),
        best_before(p, order, sums, min_leaf, kinds, k, j, p.len() as int, 0),
    ensures
        0 <= k < p.len(),
        0 <= j < kinds.len(),
        ({
            let c = cut_at(p, order, sums, kinds, k, j);
            &&& c.threshold == p[order[k] as int]
            &&& c.threshold.finite()
            &&& c.gain.num() > 0 && !c.gain.nan()
            &&& forall|i: int|
                0 <= i <= k && !p[#[trigger] order[i] as int].nan() ==> p[order[i] as int].num()
                    <= c.threshold.num()
            &&& forall|i: int|
                k < i < p.len() && !p[#[trigger] order[i] as int].nan() ==> p[order[i] as int].num()
                    > c.threshold.num()
            &&& !min_leaf.nan() && !sums[k].left_records.nan() ==> sums[k].left_records.num()
                >= min_leaf.num()
            &&& !min_leaf.nan() && !sums[k].right_records.nan() ==> sums[k].right_records.num()
                >= min_leaf.num()
            &&& forall|k2: int, j2: int|
                #![trigger sums[k2], kinds[j2]]
                can_cut(p, order, sums, min_leaf, k2) && 0 <= j2 < kinds.len() ==> {
                    let other = cut_of(p[order[k2] as int], sums[k2], kinds[j2]).gain;
                    other.nan() || other.num() <= c.gain.num()
                }
        }),
{
    let items = projected(p);
    let c = cut_at(p, order, sums, kinds, k, j);
    let t = c.threshold;
    assert(gains(p, order, sums, min_leaf, kinds, k, j));
    assert forall|i: int| 0 <= i < order.len() implies items[#[trigger] order[i] as int].value
        == p[order[i] as int] by {}
    assert forall|i: int| 0 <= i <= k && !p[#[trigger] order[i] as int].nan() implies p[order[i]
        as int].num() <= t.num() by {
        if i < k {
            assert(ranking::listed_before(items, order[i] as int, order[k] as int));
            assert(items[order[i] as int].value == p[order[i] as int]);
            assert(items[order[k] as int].value == p[order[k] as int]);
        }
    }
    assert forall|i: int| k < i < p.len() && !p[#[trigger] order[i] as int].nan() implies p[order[
        i] as int].num() > t.num() by {
        let next = p[order[k + 1] as int];
        assert(ranking::listed_before(items, order[k] as int, order[k + 1] as int));
        assert(items[order[k] as int].value == t);
        assert(items[order[k + 1] as int].value == next);
        if i > k + 1 {
            assert(ranking::listed_before(items, order[k + 1] as int, order[i] as int));
            assert(items[order[i] as int].value == p[order[i] as int]);
        }
        assert(!next.same_value(t));
    }
    assert forall|k2: int, j2: int|
        #![trigger sums[k2], kinds[j2]]
        can_cut(p, order, sums, min_leaf, k2) && 0 <= j2 < kinds.len() implies {
        let other = cut_of(p[order[k2] as int], sums[k2], kinds[j2]).gain;
        other.nan() || other.num() <= c.gain.num()
    } by {
        let other = cut_at(p, order, sums, kinds, k2, j2).gain;
        if other.above(Double { bits: 0 }) {
            assert(gains(p, order, sums, min_leaf, kinds, k2, j2));
            assert(tried_before(k2, j2, p.len() as int, 0));
        }
    }
}

/// A record whose weighted sum, less the threshold, is positive gets the right
/// correction of a hyperplane, any other the left one; and the hyperplane weighs
/// the features of its columns, each by its own weight.
pub proof fn hyperplanes_correct_by_their_sum(
    features: Seq<usize>,
    cols: Seq<usize>,
    weights: Seq<Single>,
    cut: Cut,
    sum: Single,
)
    requires
        cols.len() == weights.len(),
    ensures
        ({
            let t = oblique_tree(column_terms(features, cols, weights), cut);
            let right = !sum.nan() && sum.num() > 0;
            &&& t.sum_value(seq![sum], 0) == if right { cut.right } else { cut.left }
            &&& t->rule.threshold == cut.threshold
            &&& t->rule.terms.len() == cols.len()
            &&& forall|i: int|
                0 <= i < cols.len() ==> (#[trigger] t->rule.terms[i]).feature
                    == features[cols[i] as int] && t->rule.terms[i].weight == weights[i]
        }),
{
    reveal_with_fuel(Tree::sum_value, 2);
}

/// The partners of an axis are all the other columns, each once with either
/// sign, in the order of the columns and the positive sign first.
pub proof fn partners_are_the_other_columns(axis: int, n: int)
    requires
        0 <= n <= usize::MAX,
    ensures
        partners(axis, n).len() == 2 * (n - if 0 <= axis < n {
            1int
        } else {
            0
        }),
        forall|i: int|
            0 <= i < partners(axis, n).len() ==> {
                let at = i / 2;
                let c = if 0 <= axis <= at { at + 1 } else { at };
                (#[trigger] partners(axis, n)[i]).0 == c && partners(axis, n)[i].1 == (i % 2 == 1)
            },
    decreases n,
{
    if n > 0 {
        partners_are_the_other_columns(axis, n - 1);
    }
}

/// A round tries every weight twice: smaller, then larger.
pub proof fn rounds_try_every_weight_both_ways(n: int)
    requires
        0 <= n <= usize::MAX,
    ensures
        round_steps(n).len() == 2 * n,
        forall|i: int|
            0 <= i < 2 * n ==> (#[trigger] round_steps(n)[i]).term == i / 2 && round_steps(
                n,
            )[i].grow == (i % 2 == 1),
    decreases n,
{
    if n > 0 {
        rounds_try_every_weight_both_ways(n - 1);
    }
}

/// A random combination has two or three terms, and never more than there are
/// columns.
pub proof fn combinations_are_small(max_terms: int, columns: int)
    requires
        columns >= 2,
    ensures
        2 <= term_cap(max_terms, columns) <= 3,
        term_cap(max_terms, columns) <= columns,
        term_cap(max_terms, columns) <= max_terms || term_cap(max_terms, columns) == 2,
        max_terms >= 3 && columns >= 3 ==> term_cap(max_terms, columns) == 3,
{
}

/// What is kept are different candidates, as many as asked for where there are
/// that many, and none that is passed over has a larger gain than one kept.
pub proof fn kept_candidates_are_the_best(found: Seq<ObliqueCandidate>, count: int, i: int, j: int)
    requires
        found.len() <= usize::MAX,
        0 <= count,
        0 <= i < histogram::at_most(ranking::the_ranking(found), count).len(),
        0 <= j < found.len(),
    ensures
        ({
            let kept = histogram::at_most(ranking::the_ranking(found), count);
            &&& kept.len() == if found.len() <= count { found.len() as int } else { count }
            &&& kept.no_duplicates()
            &&& kept[i] < found.len()
            &&& !kept.contains(j as usize) ==> found[kept[i] as int].gain.order()
                >= found[j].gain.order()
        }),
{
    ranking::every_list_has_a_ranking(found);
    let order = ranking::the_ranking(found);
    let kept = histogram::at_most(order, count);
    assert forall|a: int, b: int| 0 <= a < kept.len() && 0 <= b < kept.len() && a != b implies kept[
        a] != kept[b] by {
        if a < b {
            assert(ranking::listed_before(found, order[a] as int, order[b] as int));
        } else {
            assert(ranking::listed_before(found, order[b] as int, order[a] as int));
        }
        ObliqueCandidate::ahead_is_asymmetric(found[order[a] as int], found[order[b] as int]);
    }
    if !kept.contains(j as usize) {
        assert(order.contains(j as usize));
        let at = choose|at: int| 0 <= at < order.len() && order[at] == j as usize;
        if at < kept.len() {
            assert(kept[at] == j as usize);
        }
        assert(ranking::listed_before(found, order[i] as int, order[at] as int));
    }
}

/// A threshold can stand behind a place of the order exactly when the value
/// there is finite, no later value is the same, and both sides have as many
/// records as asked for.
pub proof fn thresholds_stand_between_values(
    p: Seq<Single>,
    order: Seq<usize>,
    sums: Seq<CutSums>,
    min_leaf: Double,
    k: int,
)
    requires
        ranking::is_ranking(projected(p), order),
        sums.len() == p.len(),
        0 <= k < p.len(),
        !min_leaf.nan(),
        !sums[k].left_records.nan(),
        !sums[k].right_records.nan(),
    ensures
        can_cut(p, order, sums, min_leaf, k) <==> {
            let t = p[order[k] as int];
            &&& t.finite()
            &&& k + 1 < p.len() ==> p[order[k + 1] as int].nan() || p[order[k + 1] as int].num()
                != t.num()
            &&& sums[k].left_records.num() >= min_leaf.num()
            &&& sums[k].right_records.num() >= min_leaf.num()
        },
{
}

/// Of cuts with the same largest gain the first is taken: the one at the earlier
/// place, and of those at one place the one of the earlier kind.
pub proof fn the_first_of_equal_cuts_is_taken(
    p: Seq<Single>,
    order: Seq<usize>,
    sums: Seq<CutSums>,
    min_leaf: Double,
    kinds: Seq<StumpKind>,
    k: int,
    j: int,
    k2: int,
    j2: int,
)
    requires
        ranking::is_ranking(projected(p), order),
        sums.len() == p.len(),
        best_before(p, order, sums, min_leaf, kinds, k, j, p.len() as int, 0),
        gains(p, order, sums, min_leaf, kinds, k2, j2),
        cut_at(p, order, sums, kinds, k2, j2).gain.num() == cut_at(
            p,
            order,
            sums,
            kinds,
            k,
            j,
        ).gain.num(),
    ensures
        k <= k2,
        k == k2 ==> j <= j2,
{
    assert(tried_before(k2, j2, p.len() as int, 0));
}

} // verus!
