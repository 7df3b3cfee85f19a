//! Describe a patch as `IF` structure to be grafted onto a creature.
//!
//! ```text
//! constants:  three of bias 1, one per synapse role, that all patches of a
//!             creature share or that each patch has for itself
//! per split:  an IF neuron of bias 0
//!                 condition:  input-f (its weight) per term, and the condition
//!                             constant (weight = −threshold)
//!                 positive:   right child (weight 1)  |  positive constant (weight = right leaf)
//!                 negative:   left child (weight 1)   |  negative constant (weight = left leaf)
//! root ──(weight 1, untyped)──▶ output                          (point-wise output squash)
//! root ──(positive)──▶ output, root ─▶ relay ──(negative)──▶ output        (IF output)
//! ```
//!
//! No ordered pair of neurons is joined twice: a loader that keys synapses by
//! that pair would drop one of them.

use vstd::prelude::*;
use vstd::string::*;

use crate::config::GraftConstants;
use crate::creature;
use crate::creature::{Creature, CreatureModel, Neuron, NeuronModel};
use crate::floats::{Double, Single};
use crate::patch::{Node, Patch, Rule, Term, Tree};
use crate::text;
use crate::text::{contains_text, decimal_text};

verus! {

/// What the shared validator found wrong.
#[derive(Debug, PartialEq)]
pub struct ValidationFailure {
    /// Class of rule.
    pub class: String,
    /// Rule.
    pub reason: String,
    /// Explanation.
    pub message: String,
    /// Neuron at fault.
    pub neuron_index: Option<usize>,
    /// Synapse at fault.
    pub synapse_index: Option<usize>,
}

/// Graft failure (nothing is emitted).
#[derive(Debug, PartialEq)]
pub enum GraftError {
    /// Patch references an input beyond the creature's width.
    FeatureOutOfRange {
        /// Offending feature.
        feature: usize,
        /// Creature input width.
        input: usize,
    },
    /// Patch targets an output beyond the creature's width.
    OutputOutOfRange {
        /// Offending output.
        output: usize,
        /// Creature output width.
        outputs: usize,
    },
    /// Patch root is a bare leaf: a no-op that would still add structure.
    RootIsLeaf,
    /// Patch contains non-finite numbers.
    NonFinite,
    /// A generated uuid already exists in the creature.
    UuidCollision(String),
    /// A (from, to) synapse pair would be repeated.
    DuplicateSynapse(String),
    /// Output neurons are not trailing.
    OutputsNotLast,
    /// The result does not compile.
    Compile(String),
    /// The target output neuron is an aggregate whose activation is not additive
    /// in an extra synapse.
    UnsupportedOutputSquash(String),
    /// The structural validator rejected the result.
    Integrity {
        /// Validator code.
        code: i32,
        /// Neuron or synapse index reported by the validator.
        index: i32,
    },
    /// The shared creature validator rejected the finished candidate.
    Invalid(Box<ValidationFailure>),
    /// The canonical graft helper refused the node.
    Canonical(String),
}

/// What a [`GraftError`] says.
pub enum GraftFault {
    FeatureOutOfRange { feature: usize, input: usize },
    OutputOutOfRange { output: usize, outputs: usize },
    RootIsLeaf,
    NonFinite,
    UuidCollision(Seq<char>),
    DuplicateSynapse(Seq<char>),
    OutputsNotLast,
    Compile(Seq<char>),
    UnsupportedOutputSquash(Seq<char>),
    Integrity { code: i32, index: i32 },
    Invalid {
        class: Seq<char>,
        reason: Seq<char>,
        message: Seq<char>,
        neuron_index: Option<usize>,
        synapse_index: Option<usize>,
    },
    Canonical(Seq<char>),
}

impl View for GraftError {
    type V = GraftFault;

    open spec fn view(&self) -> GraftFault {
        match self {
            GraftError::FeatureOutOfRange { feature, input } => GraftFault::FeatureOutOfRange {
                feature: *feature,
                input: *input,
            },
            GraftError::OutputOutOfRange { output, outputs } => GraftFault::OutputOutOfRange {
                output: *output,
                outputs: *outputs,
            },
            GraftError::RootIsLeaf => GraftFault::RootIsLeaf,
            GraftError::NonFinite => GraftFault::NonFinite,
            GraftError::UuidCollision(u) => GraftFault::UuidCollision(u@),
            GraftError::DuplicateSynapse(p) => GraftFault::DuplicateSynapse(p@),
            GraftError::OutputsNotLast => GraftFault::OutputsNotLast,
            GraftError::Compile(m) => GraftFault::Compile(m@),
            GraftError::UnsupportedOutputSquash(s) => GraftFault::UnsupportedOutputSquash(s@),
            GraftError::Integrity { code, index } => GraftFault::Integrity {
                code: *code,
                index: *index,
            },
            GraftError::Invalid(f) => GraftFault::Invalid {
                class: f.class@,
                reason: f.reason@,
                message: f.message@,
                neuron_index: f.neuron_index,
                synapse_index: f.synapse_index,
            },
            GraftError::Canonical(m) => GraftFault::Canonical(m@),
        }
    }
}

/// A bracketed index, if there is one.
pub open spec fn index_note(label: Seq<char>, index: Option<usize>) -> Seq<char> {
    match index {
        Some(i) => " ["@ + label + " index "@ + text::decimal(i as nat) + "]"@,
        None => Seq::empty(),
    }
}

/// The sentence for an index with sign.
pub open spec fn signed_decimal(i: i32) -> Seq<char> {
    if i < 0 {
        "-"@ + text::decimal((-i) as nat)
    } else {
        text::decimal(i as nat)
    }
}

impl GraftFault {
    /// The message shown to the operator.
    pub open spec fn message(self) -> Seq<char> {
        match self {
            GraftFault::FeatureOutOfRange { feature, input } => "feature "@ + text::decimal(
                feature as nat,
            ) + " >= input width "@ + text::decimal(input as nat),
            GraftFault::OutputOutOfRange { output, outputs } => "output "@ + text::decimal(
                output as nat,
            ) + " >= output width "@ + text::decimal(outputs as nat),
            GraftFault::RootIsLeaf => "patch root is a leaf; refusing a split-free graft"@,
            GraftFault::NonFinite => "patch contains non-finite values"@,
            GraftFault::UuidCollision(u) => "uuid `"@ + u + "` already exists in the incumbent"@,
            GraftFault::DuplicateSynapse(p) => "duplicate synapse "@ + p
                + "; NEAT-AI collapses repeated (from, to) pairs"@,
            GraftFault::OutputsNotLast => {
                "output neurons are not the trailing entries of `neurons`"@
            },
            GraftFault::Compile(m) => "grafted creature does not compile: "@ + m,
            GraftFault::UnsupportedOutputSquash(s) => "output neuron squash `"@ + s
                + "` is an aggregate whose value is not additive in a new synapse; refusing to graft"@,
            GraftFault::Integrity { code, index } => "structural validation failed: code "@
                + signed_decimal(code) + " at "@ + signed_decimal(index),
            GraftFault::Invalid { class, reason, message, neuron_index, synapse_index } => {
                "grafted creature is invalid: "@ + class + " ("@ + reason + "): "@ + message
                    + index_note("neuron"@, neuron_index) + index_note("synapse"@, synapse_index)
            },
            GraftFault::Canonical(m) => "NEAT-AI-core refused the canonical IF graft: "@ + m,
        }
    }
}

fn push_signed(out: &mut String, i: i32)
    ensures
        final(out)@ == old(out)@ + signed_decimal(i),
{
    let ghost start = out@;
    if i < 0 {
        out.append("-");
        let n: u64 = (-(i as i64)) as u64;
        let d = decimal_text(n);
        out.append(d.as_str());
    } else {
        let d = decimal_text(i as u64);
        out.append(d.as_str());
    }
    assert(out@ =~= start + signed_decimal(i));
}

fn push_index_note(out: &mut String, label: &str, index: Option<usize>)
    ensures
        final(out)@ == old(out)@ + index_note(label@, index),
{
    let ghost start = out@;
    if let Some(i) = index {
        out.append(" [");
        out.append(label);
        out.append(" index ");
        let d = decimal_text(i as u64);
        out.append(d.as_str());
        out.append("]");
    }
    assert(out@ =~= start + index_note(label@, index));
}

impl GraftError {
    /// The message shown to the operator.
    pub fn message(&self) -> (r: String)
        ensures
            r@ == self@.message(),
    {
        match self {
            GraftError::FeatureOutOfRange { feature, input } => {
                let mut m = "feature ".to_owned();
                let f = decimal_text(*feature as u64);
                m.append(f.as_str());
                m.append(" >= input width ");
                let w = decimal_text(*input as u64);
                m.append(w.as_str());
                m
            },
            GraftError::OutputOutOfRange { output, outputs } => {
                let mut m = "output ".to_owned();
                let o = decimal_text(*output as u64);
                m.append(o.as_str());
                m.append(" >= output width ");
                let w = decimal_text(*outputs as u64);
                m.append(w.as_str());
                m
            },
            GraftError::RootIsLeaf => {
                "patch root is a leaf; refusing a split-free graft".to_owned()
            },
            GraftError::NonFinite => "patch contains non-finite values".to_owned(),
            GraftError::UuidCollision(u) => {
                let mut m = "uuid `".to_owned();
                m.append(u.as_str());
                m.append("` already exists in the incumbent");
                m
            },
            GraftError::DuplicateSynapse(p) => {
                let mut m = "duplicate synapse ".to_owned();
                m.append(p.as_str());
                m.append("; NEAT-AI collapses repeated (from, to) pairs");
                m
            },
            GraftError::OutputsNotLast => {
                "output neurons are not the trailing entries of `neurons`".to_owned()
            },
            GraftError::Compile(c) => {
                let mut m = "grafted creature does not compile: ".to_owned();
                m.append(c.as_str());
                m
            },
            GraftError::UnsupportedOutputSquash(s) => {
                let mut m = "output neuron squash `".to_owned();
                m.append(s.as_str());
                m.append(
                    "` is an aggregate whose value is not additive in a new synapse; refusing to graft",
                );
                m
            },
            GraftError::Integrity { code, index } => {
                let mut m = "structural validation failed: code ".to_owned();
                push_signed(&mut m, *code);
                m.append(" at ");
                push_signed(&mut m, *index);
                m
            },
            GraftError::Invalid(f) => {
                let mut m = "grafted creature is invalid: ".to_owned();
                m.append(f.class.as_str());
                m.append(" (");
                m.append(f.reason.as_str());
                m.append("): ");
                m.append(f.message.as_str());
                push_index_note(&mut m, "neuron", f.neuron_index);
                push_index_note(&mut m, "synapse", f.synapse_index);
                m
            },
            GraftError::Canonical(c) => {
                let mut m = "NEAT-AI-core refused the canonical IF graft: ".to_owned();
                m.append(c.as_str());
                m
            },
        }
    }
}

// ---------------------------------------------------------------------------
// Names for shared constants.
// ---------------------------------------------------------------------------

/// The `k`-th name offered for a shared constant: `forest-one-a`, `-b`, `-c`,
/// then the same with `2`, with `3` and so on.
pub open spec fn one_name(k: nat) -> Seq<char> {
    if k < 3 {
        "forest-one-"@.push(one_letter(k))
    } else {
        "forest-one-"@.push(one_letter(k)) + text::decimal(k / 3 + 1)
    }
}

/// The letter of the `k`-th name.
pub open spec fn one_letter(k: nat) -> char {
    if k % 3 == 0 {
        'a'
    } else if k % 3 == 1 {
        'b'
    } else {
        'c'
    }
}

/// No two offered names are the same.
pub proof fn one_names_differ(i: nat, j: nat)
    requires
        one_name(i) == one_name(j),
    ensures
        i == j,
{
    let stem = "forest-one-"@.len() as int;
    assert(one_name(i)[stem] == one_letter(i));
    assert(one_name(j)[stem] == one_letter(j));
    assert(i % 3 == j % 3);
    let a = one_name(i).skip(stem + 1);
    let b = one_name(j).skip(stem + 1);
    text::decimal_reads_back(i / 3 + 1);
    text::decimal_reads_back(j / 3 + 1);
    if i < 3 && j >= 3 {
        assert(b =~= text::decimal(j / 3 + 1));
        assert(a.len() == 0);
        assert(false);
    }
    if j < 3 && i >= 3 {
        assert(a =~= text::decimal(i / 3 + 1));
        assert(b.len() == 0);
        assert(false);
    }
    if i >= 3 && j >= 3 {
        assert(a =~= text::decimal(i / 3 + 1));
        assert(b =~= text::decimal(j / 3 + 1));
        text::decimal_is_injective(i / 3 + 1, j / 3 + 1);
        assert(i / 3 == j / 3);
    }
}

/// The names among the first `n` offered that nobody carries.
pub open spec fn free_names(existing: Seq<Seq<char>>, n: nat) -> Seq<Seq<char>>
    decreases n,
{
    if n == 0 {
        Seq::empty()
    } else {
        let before = free_names(existing, (n - 1) as nat);
        let name = one_name((n - 1) as nat);
        if existing.contains(name) {
            before
        } else {
            before.push(name)
        }
    }
}

/// How many of the first `n` offered names are carried.
pub open spec fn taken_names(existing: Seq<Seq<char>>, n: nat) -> nat
    decreases n,
{
    if n == 0 {
        0
    } else {
        taken_names(existing, (n - 1) as nat) + if existing.contains(one_name((n - 1) as nat)) {
            1nat
        } else {
            0
        }
    }
}

proof fn free_and_taken(existing: Seq<Seq<char>>, n: nat)
    ensures
        free_names(existing, n).len() + taken_names(existing, n) == n,
    decreases n,
{
    if n > 0 {
        free_and_taken(existing, (n - 1) as nat);
    }
}

proof fn nobody_takes_more_names_than_they_have(existing: Seq<Seq<char>>, n: nat)
    ensures
        taken_names(existing, n) <= existing.len(),
    decreases existing.len(),
{
    if existing.len() == 0 {
        nothing_is_taken(existing, n);
    } else {
        let rest = existing.drop_last();
        nobody_takes_more_names_than_they_have(rest, n);
        one_more_takes_at_most_one(existing, n);
    }
}

proof fn nothing_is_taken(existing: Seq<Seq<char>>, n: nat)
    requires
        existing.len() == 0,
    ensures
        taken_names(existing, n) == 0,
    decreases n,
{
    if n > 0 {
        nothing_is_taken(existing, (n - 1) as nat);
    }
}

proof fn one_more_takes_at_most_one(existing: Seq<Seq<char>>, n: nat)
    requires
        existing.len() > 0,
    ensures
        taken_names(existing, n) <= taken_names(existing.drop_last(), n) + 1,
        taken_names(existing, n) > taken_names(existing.drop_last(), n) ==> exists|k: nat|
            k < n && one_name(k) == existing.last(),
    decreases n,
{
    let rest = existing.drop_last();
    if n > 0 {
        let m = (n - 1) as nat;
        one_more_takes_at_most_one(existing, m);
        let name = one_name(m);
        if existing.contains(name) {
            if name == existing.last() {
                if taken_names(existing, m) > taken_names(rest, m) {
                    let k = choose|k: nat| k < m && one_name(k) == existing.last();
                    one_names_differ(k, m);
                }
            } else {
                let i = choose|i: int| 0 <= i < existing.len() && existing[i] == name;
                assert(rest[i] == name);
            }
        }
        if rest.contains(name) {
            let i = choose|i: int| 0 <= i < rest.len() && rest[i] == name;
            assert(existing[i] == name);
        }
        if taken_names(existing, m) > taken_names(rest, m) {
            let k = choose|k: nat| k < m && one_name(k) == existing.last();
            assert(k < n && one_name(k) == existing.last());
        }
    }
}

proof fn free_names_grow(existing: Seq<Seq<char>>, m: nat, n: nat)
    requires
        m <= n,
    ensures
        free_names(existing, m).len() <= free_names(existing, n).len(),
        free_names(existing, m) == free_names(existing, n).take(
            free_names(existing, m).len() as int,
        ),
    decreases n,
{
    if m < n {
        free_names_grow(existing, m, (n - 1) as nat);
        let before = free_names(existing, (n - 1) as nat);
        let now = free_names(existing, n);
        let k = free_names(existing, m).len() as int;
        assert(now.take(k) =~= before.take(k));
    } else {
        assert(free_names(existing, n).take(free_names(existing, n).len() as int) =~= free_names(
            existing,
            n,
        ));
    }
}

/// The first `wanted` free names. A name that is taken is skipped, never a
/// reason to refuse: there are always three.
pub open spec fn chosen_names(existing: Seq<Seq<char>>, wanted: nat) -> Seq<Seq<char>> {
    free_names(existing, existing.len() + 3).take(wanted as int)
}

/// There are always three free names among as many as are carried and three
/// more.
pub proof fn three_names_are_free(existing: Seq<Seq<char>>)
    ensures
        free_names(existing, existing.len() + 3).len() >= 3,
{
    free_and_taken(existing, existing.len() + 3);
    nobody_takes_more_names_than_they_have(existing, existing.len() + 3);
}

fn offered_name(k: usize) -> (r: String)
    requires
        k / 3 < usize::MAX,
    ensures
        r@ == one_name(k as nat),
{
    let mut out = "forest-one-".to_owned();
    if k % 3 == 0 {
        out.push('a');
    } else if k % 3 == 1 {
        out.push('b');
    } else {
        out.push('c');
    }
    if k >= 3 {
        let n: usize = k / 3 + 1;
        let d = decimal_text(n as u64);
        out.append(d.as_str());
    }
    out
}

/// `wanted` uuids for shared constants that no neuron carries already.
pub fn free_one_names(existing: &Vec<String>, wanted: usize) -> (r: Vec<String>)
    requires
        wanted <= 3,
        existing@.len() + 3 <= usize::MAX,
    ensures
        text::texts(r@) == chosen_names(text::texts(existing@), wanted as nat),
        r@.len() == wanted,
{
    let ghost names = text::texts(existing@);
    let mut out: Vec<String> = Vec::new();
    let mut k: usize = 0;
    proof {
        three_names_are_free(names);
        assert(text::texts(out@) =~= free_names(names, 0));
    }
    while out.len() < wanted
        invariant
            wanted <= 3,
            names == text::texts(existing@),
            existing@.len() + 3 <= usize::MAX,
            k <= existing@.len() + 3,
            out@.len() <= wanted,
            free_names(names, names.len() + 3).len() >= 3,
            text::texts(out@) == free_names(names, k as nat),
        decreases existing@.len() + 3 - k,
    {
        let ghost before = out@;
        proof {
            if k == existing@.len() + 3 {
                assert(text::texts(out@).len() == out@.len());
            }
        }
        let name = offered_name(k);
        if !contains_text(existing, name.as_str()) {
            out.push(name);
            assert(text::texts(out@) =~= text::texts(before).push(name@));
        }
        k = k + 1;
    }
    proof {
        assert(text::texts(out@).len() == out@.len());
        free_names_grow(names, k as nat, names.len() + 3);
    }
    out
}

// ---------------------------------------------------------------------------
// Describing a tree.
// ---------------------------------------------------------------------------

/// A weighted source of a neuron.
#[derive(Debug, PartialEq)]
pub struct Edge {
    /// Source neuron.
    pub source: String,
    /// Synapse weight.
    pub weight: Single,
}

/// Role of a synapse at its target.
#[derive(Debug, Clone, Copy, PartialEq, Eq, Structural)]
pub enum Role {
    /// Adds to the target's sum.
    Untyped,
    /// Feeds the positive branch of an `IF` target.
    Positive,
    /// Feeds the negative branch of an `IF` target.
    Negative,
}

/// An edge of weight 1 out of a described neuron.
#[derive(Debug, PartialEq)]
pub struct Outward {
    /// Target neuron.
    pub target: String,
    /// Role there.
    pub role: Role,
}

/// An `IF` neuron to be grafted.
#[derive(Debug, PartialEq)]
pub struct IfNode {
    /// Identity.
    pub uuid: String,
    /// What the condition sums.
    pub condition: Vec<Edge>,
    /// Source of the branch taken when the sum is above zero.
    pub positive: Edge,
    /// Source of the other branch.
    pub negative: Edge,
    /// Edge out of the node, where no other node reads it.
    pub outward: Option<Outward>,
}

/// An identity neuron that carries the root into an output's negative branch.
#[derive(Debug, PartialEq)]
pub struct Relay {
    /// Identity.
    pub uuid: String,
    /// Source, with weight 1.
    pub source: String,
    /// Target, with weight 1 and the negative role.
    pub target: String,
}

/// What an [`Edge`] is.
pub struct EdgeModel {
    pub source: Seq<char>,
    pub weight: Single,
}

/// What an [`Outward`] is.
pub struct OutwardModel {
    pub target: Seq<char>,
    pub role: Role,
}

/// What an [`IfNode`] is.
pub struct IfModel {
    pub uuid: Seq<char>,
    pub condition: Seq<EdgeModel>,
    pub positive: EdgeModel,
    pub negative: EdgeModel,
    pub outward: Option<OutwardModel>,
}

/// What a [`Relay`] is.
pub struct RelayModel {
    pub uuid: Seq<char>,
    pub source: Seq<char>,
    pub target: Seq<char>,
}

impl View for Edge {
    type V = EdgeModel;

    open spec fn view(&self) -> EdgeModel {
        EdgeModel { source: self.source@, weight: self.weight }
    }
}

impl View for Outward {
    type V = OutwardModel;

    open spec fn view(&self) -> OutwardModel {
        OutwardModel { target: self.target@, role: self.role }
    }
}

/// What the edges are.
pub open spec fn edge_models(v: Seq<Edge>) -> Seq<EdgeModel> {
    v.map_values(|e: Edge| e@)
}

impl View for IfNode {
    type V = IfModel;

    open spec fn view(&self) -> IfModel {
        IfModel {
            uuid: self.uuid@,
            condition: edge_models(self.condition@),
            positive: self.positive@,
            negative: self.negative@,
            outward: match self.outward {
                Some(o) => Some(o@),
                None => None,
            },
        }
    }
}

impl View for Relay {
    type V = RelayModel;

    open spec fn view(&self) -> RelayModel {
        RelayModel { uuid: self.uuid@, source: self.source@, target: self.target@ }
    }
}

/// What the nodes are.
pub open spec fn if_models(v: Seq<IfNode>) -> Seq<IfModel> {
    v.map_values(|n: IfNode| n@)
}

/// What the description of a tree depends on.
pub struct Setting {
    /// Start of every generated uuid.
    pub prefix: Seq<char>,
    /// The constant of each role.
    pub condition: Seq<char>,
    pub positive: Seq<char>,
    pub negative: Seq<char>,
    /// Input width.
    pub input: usize,
    /// The uuids that the creature carries.
    pub existing: Seq<Seq<char>>,
}

/// A described subtree: the edge by which its parent reads it, its nodes, each
/// child before the parent that reads it, and the next number to use.
pub struct Described {
    pub edge: EdgeModel,
    pub nodes: Seq<IfModel>,
    pub next: nat,
}

/// A generated uuid.
pub open spec fn generated(prefix: Seq<char>, tag: Seq<char>, number: nat) -> Seq<char> {
    prefix + "-"@ + tag + text::decimal(number)
}

/// The uuid of an input.
pub open spec fn input_uuid(feature: nat) -> Seq<char> {
    "input-"@ + text::decimal(feature)
}

/// What is wrong with the first `n` terms of a condition, if anything: a feature
/// beyond the input width, or one that occurred before.
pub open spec fn term_fault(
    terms: Seq<Term>,
    n: int,
    uuid: Seq<char>,
    input: usize,
) -> Option<GraftFault>
    decreases n,
{
    if n <= 0 {
        None
    } else {
        let before = term_fault(terms, n - 1, uuid, input);
        let feature = terms[n - 1].feature;
        if before is Some {
            before
        } else if feature >= input {
            Some(GraftFault::FeatureOutOfRange { feature, input })
        } else if exists|j: int| 0 <= j < n - 1 && (#[trigger] terms[j]).feature == feature {
            Some(GraftFault::DuplicateSynapse(input_uuid(feature as nat) + " → "@ + uuid))
        } else {
            None
        }
    }
}

/// The edges that a condition sums: its features, then the threshold, turned, on
/// the shared constant.
pub open spec fn condition_edges(rule: Rule, one: Seq<char>) -> Seq<EdgeModel> {
    rule.terms.map_values(
        |t: Term| EdgeModel { source: input_uuid(t.feature as nat), weight: t.weight },
    ).push(EdgeModel { source: one, weight: rule.threshold.negated() })
}

/// Description of a subtree that is its parent's right (`right`) or left branch.
pub open spec fn described(
    t: Tree,
    right: bool,
    s: Setting,
    next: nat,
) -> Result<Described, GraftFault>
    decreases t,
{
    match t {
        Tree::Leaf { correction } => Ok(
            Described {
                edge: EdgeModel {
                    source: if right {
                        s.positive
                    } else {
                        s.negative
                    },
                    weight: correction,
                },
                nodes: Seq::empty(),
                next,
            },
        ),
        Tree::Split { rule, left, right: high } => match described(*left, false, s, next) {
            Err(e) => Err(e),
            Ok(l) => match described(*high, true, s, l.next) {
                Err(e) => Err(e),
                Ok(h) => {
                    let uuid = generated(s.prefix, "if"@, h.next);
                    let fault = term_fault(rule.terms, rule.terms.len() as int, uuid, s.input);
                    if s.existing.contains(uuid) {
                        Err(GraftFault::UuidCollision(uuid))
                    } else if fault is Some {
                        Err(fault->0)
                    } else {
                        Ok(
                            Described {
                                edge: EdgeModel {
                                    source: uuid,
                                    weight: Single { bits: crate::floats::SINGLE_ONE },
                                },
                                nodes: (l.nodes + h.nodes).push(
                                    IfModel {
                                        uuid,
                                        condition: condition_edges(rule, s.condition),
                                        positive: h.edge,
                                        negative: l.edge,
                                        outward: None,
                                    },
                                ),
                                next: h.next + 1,
                            },
                        )
                    }
                },
            },
        },
    }
}

/// The three constants that nodes hang off, one per synapse role.
#[derive(Debug, PartialEq)]
pub struct SharedOnes {
    /// Carries thresholds.
    pub condition: String,
    /// Carries right leaves.
    pub positive: String,
    /// Carries left leaves.
    pub negative: String,
}

struct Emitter {
    prefix: String,
    ones: SharedOnes,
    input: usize,
    existing: Vec<String>,
}

impl Emitter {
    closed spec fn setting(&self) -> Setting {
        Setting {
            prefix: self.prefix@,
            condition: self.ones.condition@,
            positive: self.ones.positive@,
            negative: self.ones.negative@,
            input: self.input,
            existing: text::texts(self.existing@),
        }
    }

    fn fresh(&self, tag: &str, number: usize) -> (r: Result<String, GraftError>)
        ensures
            ({
                let uuid = generated(self.setting().prefix, tag@, number as nat);
                if self.setting().existing.contains(uuid) {
                    r matches Err(e) && e@ == GraftFault::UuidCollision(uuid)
                } else {
                    r matches Ok(u) && u@ == uuid
                }
            }),
    {
        let mut uuid = self.prefix.clone();
        uuid.append("-");
        uuid.append(tag);
        let n = decimal_text(number as u64);
        uuid.append(n.as_str());
        if contains_text(&self.existing, uuid.as_str()) {
            Err(GraftError::UuidCollision(uuid))
        } else {
            Ok(uuid)
        }
    }

    fn conditions(&self, terms: &Vec<Term>, threshold: Single, uuid: &String) -> (r: Result<
        Vec<Edge>,
        GraftError,
    >)
        ensures
            ({
                let s = self.setting();
                let fault = term_fault(terms@, terms@.len() as int, uuid@, s.input);
                match fault {
                    Some(f) => r matches Err(e) && e@ == f,
                    None => r matches Ok(edges) && edge_models(edges@) == condition_edges(
                        Rule { terms: terms@, threshold },
                        s.condition,
                    ),
                }
            }),
    {
        let mut out: Vec<Edge> = Vec::new();
        let ghost to_edge = |t: Term|
            EdgeModel { source: input_uuid(t.feature as nat), weight: t.weight };
        let ghost input = self.input;
        proof {
            assert(edge_models(out@) =~= terms@.take(0).map_values(to_edge));
        }
        for i in 0..terms.len()
            invariant
                to_edge == (|t: Term|
                    EdgeModel { source: input_uuid(t.feature as nat), weight: t.weight }),
                input == self.input,
                term_fault(terms@, i as int, uuid@, input) is None,
                edge_models(out@) == terms@.take(i as int).map_values(to_edge),
        {
            let feature: usize = terms[i].feature;
            let mut name = "input-".to_owned();
            let d = decimal_text(feature as u64);
            name.append(d.as_str());
            if feature >= self.input {
                proof {
                    term_fault_stays(terms@, i as int + 1, uuid@, input);
                }
                return Err(GraftError::FeatureOutOfRange { feature, input: self.input });
            }
            let mut j: usize = 0;
            while j < i && terms[j].feature != feature
                invariant
                    j <= i,
                    i < terms@.len(),
                    forall|k: int| 0 <= k < j ==> (#[trigger] terms@[k]).feature != feature,
                decreases i - j,
            {
                j = j + 1;
            }
            if j < i {
                name.append(" → ");
                name.append(uuid.as_str());
                proof {
                    assert(terms@[j as int].feature == feature);
                    term_fault_stays(terms@, i as int + 1, uuid@, input);
                    assert(name@ =~= input_uuid(feature as nat) + " → "@ + uuid@);
                }
                return Err(GraftError::DuplicateSynapse(name));
            }
            let ghost before = out@;
            out.push(Edge { source: name, weight: terms[i].weight });
            proof {
                assert(edge_models(out@) =~= edge_models(before).push(to_edge(terms@[i as int])));
                assert(edge_models(out@) =~= terms@.take(i as int + 1).map_values(to_edge));
            }
        }
        let ghost before = out@;
        out.push(Edge { source: self.ones.condition.clone(), weight: threshold.neg() });
        proof {
            assert(terms@.take(terms@.len() as int) =~= terms@);
            assert(edge_models(out@) =~= condition_edges(
                Rule { terms: terms@, threshold },
                self.ones.condition@,
            ));
        }
        Ok(out)
    }

    fn describe(
        &self,
        node: &Node,
        right: bool,
        nodes: &mut Vec<IfNode>,
        next: usize,
    ) -> (r: Result<(Edge, usize), GraftError>)
        requires
            next + node@.splits() <= usize::MAX,
        ensures
            match described(node@, right, self.setting(), next as nat) {
                Err(f) => r matches Err(e) && e@ == f,
                Ok(d) => {
                    &&& r matches Ok((edge, after)) && edge@ == d.edge && after == d.next
                    &&& if_models(final(nodes)@) == if_models(old(nodes)@) + d.nodes
                    &&& d.next == next + node@.splits()
                },
            },
        decreases node,
    {
        let ghost start = nodes@;
        match node {
            Node::Leaf { correction } => {
                let source = if right {
                    self.ones.positive.clone()
                } else {
                    self.ones.negative.clone()
                };
                assert(if_models(start) + Seq::<IfModel>::empty() =~= if_models(start));
                Ok((Edge { source, weight: *correction }, next))
            },
            Node::Split { condition, left, right: high } => {
                let (negative, after_left) = match self.describe(left, false, nodes, next) {
                    Ok(d) => d,
                    Err(e) => {
                        return Err(e);
                    },
                };
                let (positive, after_high) = match self.describe(high, true, nodes, after_left) {
                    Ok(d) => d,
                    Err(e) => {
                        return Err(e);
                    },
                };
                let uuid = match self.fresh("if", after_high) {
                    Ok(u) => u,
                    Err(e) => {
                        return Err(e);
                    },
                };
                let edges = match self.conditions(&condition.terms, condition.threshold, &uuid) {
                    Ok(c) => c,
                    Err(e) => {
                        return Err(e);
                    },
                };
                let ghost before = nodes@;
                let reader = Edge { source: uuid.clone(), weight: Single::one() };
                nodes.push(
                    IfNode { uuid, condition: edges, positive, negative, outward: None },
                );
                proof {
                    let d = described(node@, right, self.setting(), next as nat);
                    assert(if_models(nodes@) =~= if_models(before).push(nodes@.last()@));
                    assert(d is Ok);
                    assert(if_models(nodes@) =~= if_models(start) + d->Ok_0.nodes);
                }
                Ok((reader, after_high + 1))
            },
        }
    }
}

proof fn term_fault_stays(terms: Seq<Term>, n: int, uuid: Seq<char>, input: usize)
    requires
        0 <= n <= terms.len(),
        term_fault(terms, n, uuid, input) is Some,
    ensures
        term_fault(terms, terms.len() as int, uuid, input) == term_fault(terms, n, uuid, input),
    decreases terms.len() - n,
{
    if n < terms.len() {
        assert(term_fault(terms, n + 1, uuid, input) == term_fault(terms, n, uuid, input));
        term_fault_stays(terms, n + 1, uuid, input);
    }
}

// ---------------------------------------------------------------------------
// Planning a graft.
// ---------------------------------------------------------------------------

/// How the target output combines its sources.
#[derive(Debug, Clone, Copy, PartialEq, Eq, Structural)]
pub enum SquashClass {
    /// A function of the sum: one more synapse adds to it.
    Pointwise,
    /// An `IF` aggregate.
    If,
    /// Any other aggregate: not additive.
    Aggregate,
}

/// Everything that is to be added to a creature for one patch.
#[derive(Debug, PartialEq)]
pub struct GraftPlan {
    /// The creature with the new constants listed.
    pub base: Creature,
    /// The constants that the nodes hang off.
    pub ones: SharedOnes,
    /// The nodes, each child before the parent that reads it.
    pub nodes: Vec<IfNode>,
    /// The root's uuid.
    pub root: String,
    /// The relay into an `IF` output.
    pub relay: Option<Relay>,
}

/// What a [`GraftPlan`] is.
pub struct PlanModel {
    pub base: CreatureModel,
    pub condition: Seq<char>,
    pub positive: Seq<char>,
    pub negative: Seq<char>,
    pub nodes: Seq<IfModel>,
    pub root: Seq<char>,
    pub relay: Option<RelayModel>,
}

impl View for GraftPlan {
    type V = PlanModel;

    open spec fn view(&self) -> PlanModel {
        PlanModel {
            base: self.base@,
            condition: self.ones.condition@,
            positive: self.ones.positive@,
            negative: self.ones.negative@,
            nodes: if_models(self.nodes@),
            root: self.root@,
            relay: match self.relay {
                Some(x) => Some(x@),
                None => None,
            },
        }
    }
}

/// A constant that a graft can hang off: bias 1, no squash.
pub open spec fn is_one(n: NeuronModel) -> bool {
    n.kind == "constant"@ && n.bias.bits == crate::floats::DOUBLE_ONE && n.squash is None
}

/// The uuids of the constants that can be reused.
pub open spec fn reusable(neurons: Seq<NeuronModel>) -> Seq<Seq<char>> {
    creature::uuids(neurons.filter(|n: NeuronModel| is_one(n)))
}

/// At most the first three.
pub open spec fn first_three(v: Seq<Seq<char>>) -> Seq<Seq<char>> {
    if v.len() <= 3 {
        v
    } else {
        v.take(3)
    }
}

/// The three constants: those of the creature first, then new ones.
pub open spec fn shared_ones(neurons: Seq<NeuronModel>) -> Seq<Seq<char>> {
    first_three(reusable(neurons)) + new_ones(neurons)
}

/// The names of the constants that are added.
pub open spec fn new_ones(neurons: Seq<NeuronModel>) -> Seq<Seq<char>> {
    chosen_names(creature::uuids(neurons), (3 - first_three(reusable(neurons)).len()) as nat)
}

/// Where new constants go: before the first neuron among the first `n` that is
/// not a constant.
pub open spec fn constants_end(neurons: Seq<NeuronModel>, from: int, n: int) -> int
    decreases n - from,
{
    if from >= n || neurons[from].kind != "constant"@ {
        from
    } else {
        constants_end(neurons, from + 1, n)
    }
}

/// A new constant.
pub open spec fn constant_model(name: Seq<char>) -> NeuronModel {
    NeuronModel {
        kind: "constant"@,
        uuid: name,
        bias: Double { bits: crate::floats::DOUBLE_ONE },
        squash: None,
    }
}

/// The creature with constants added in front of its first other neuron.
pub open spec fn with_constants_model(c: CreatureModel, names: Seq<Seq<char>>) -> CreatureModel {
    let at = constants_end(c.neurons, 0, c.neurons.len() - c.output);
    CreatureModel {
        neurons: c.neurons.take(at) + names.map_values(|n: Seq<char>| constant_model(n))
            + c.neurons.skip(at),
        ..c
    }
}

/// What the description of a patch with identity `id` depends on.
pub open spec fn graft_setting(c: CreatureModel, id: Seq<char>) -> Setting {
    let ones = shared_ones(c.neurons);
    Setting {
        prefix: "forest-"@ + id,
        condition: ones[0],
        positive: ones[1],
        negative: ones[2],
        input: c.input,
        existing: creature::uuids(c.neurons),
    }
}

/// The target neuron of a patch for `output`.
pub open spec fn target_of(c: CreatureModel, output: usize) -> NeuronModel {
    c.neurons[c.neurons.len() - c.output + output]
}

/// The squash name of a neuron: identity where it names none.
pub open spec fn squash_name(n: NeuronModel) -> Seq<char> {
    match n.squash {
        Some(s) => s,
        None => "IDENTITY"@,
    }
}

/// The nodes with an edge out of the last one.
pub open spec fn with_outward(nodes: Seq<IfModel>, target: Seq<char>, role: Role) -> Seq<IfModel> {
    nodes.update(
        nodes.len() - 1,
        IfModel { outward: Some(OutwardModel { target, role }), ..nodes.last() },
    )
}

/// Why a tree is not grafted whatever the constants, if there is such a reason.
pub open spec fn refusal(c: CreatureModel, output: usize, root: Tree) -> Option<GraftFault> {
    if !root.finite() {
        Some(GraftFault::NonFinite)
    } else if root is Leaf {
        Some(GraftFault::RootIsLeaf)
    } else if output >= c.output {
        Some(GraftFault::OutputOutOfRange { output, outputs: c.output })
    } else if !c.outputs_end_it() {
        Some(GraftFault::OutputsNotLast)
    } else {
        None
    }
}

/// The plan for grafting a tree in a setting, with new constants of the given
/// names, or the first reason not to. `squash` says how the target's squash name
/// reads.
pub open spec fn planned_in(
    c: CreatureModel,
    output: usize,
    root: Tree,
    s: Setting,
    names: Seq<Seq<char>>,
    squash: Result<SquashClass, Seq<char>>,
) -> Result<PlanModel, GraftFault> {
    let target = target_of(c, output);
    match described(root, true, s, 0) {
        Err(e) => Err(e),
        Ok(d) => match squash {
            Err(m) => Err(GraftFault::Compile(m)),
            Ok(SquashClass::Aggregate) => Err(
                GraftFault::UnsupportedOutputSquash(squash_name(target)),
            ),
            Ok(SquashClass::Pointwise) => Ok(
                PlanModel {
                    base: with_constants_model(c, names),
                    condition: s.condition,
                    positive: s.positive,
                    negative: s.negative,
                    nodes: with_outward(d.nodes, target.uuid, Role::Untyped),
                    root: d.edge.source,
                    relay: None,
                },
            ),
            Ok(SquashClass::If) => {
                let relay = generated(s.prefix, "relay"@, d.next);
                if s.existing.contains(relay) {
                    Err(GraftFault::UuidCollision(relay))
                } else {
                    Ok(
                        PlanModel {
                            base: with_constants_model(c, names),
                            condition: s.condition,
                            positive: s.positive,
                            negative: s.negative,
                            nodes: with_outward(d.nodes, target.uuid, Role::Positive),
                            root: d.edge.source,
                            relay: Some(
                                RelayModel {
                                    uuid: relay,
                                    source: d.edge.source,
                                    target: target.uuid,
                                },
                            ),
                        },
                    )
                }
            },
        },
    }
}

/// The plan for grafting a tree with identity `id` onto a creature with shared
/// constants, or the first reason not to. `squash` says how the target's squash
/// name reads.
pub open spec fn planned(
    c: CreatureModel,
    output: usize,
    root: Tree,
    id: Seq<char>,
    squash: Result<SquashClass, Seq<char>>,
) -> Result<PlanModel, GraftFault> {
    match refusal(c, output, root) {
        Some(f) => Err(f),
        None => planned_in(c, output, root, graft_setting(c, id), new_ones(c.neurons), squash),
    }
}

/// The constants of a patch with identity `id` that shares none: one for
/// conditions, one for right leaves and one for left leaves.
pub open spec fn own_ones(id: Seq<char>) -> Seq<Seq<char>> {
    let prefix = "forest-"@ + id;
    seq![prefix + "-one-c"@, prefix + "-one-p"@, prefix + "-one-n"@]
}

/// What the description of a patch with constants of its own depends on.
pub open spec fn own_setting(c: CreatureModel, id: Seq<char>) -> Setting {
    let ones = own_ones(id);
    Setting {
        prefix: "forest-"@ + id,
        condition: ones[0],
        positive: ones[1],
        negative: ones[2],
        input: c.input,
        existing: creature::uuids(c.neurons),
    }
}

/// The first of the names that is carried already.
pub open spec fn first_taken(existing: Seq<Seq<char>>, names: Seq<Seq<char>>) -> Option<Seq<char>>
    decreases names.len(),
{
    if names.len() == 0 {
        None
    } else if existing.contains(names[0]) {
        Some(names[0])
    } else {
        first_taken(existing, names.drop_first())
    }
}

/// The plan for grafting a tree with identity `id` onto a creature, or the first
/// reason not to, with constants that are shared or the patch's own.
pub open spec fn planned_with(
    c: CreatureModel,
    output: usize,
    root: Tree,
    id: Seq<char>,
    squash: Result<SquashClass, Seq<char>>,
    constants: GraftConstants,
) -> Result<PlanModel, GraftFault> {
    match constants {
        GraftConstants::Shared => planned(c, output, root, id, squash),
        GraftConstants::PerPatch => match refusal(c, output, root) {
            Some(f) => Err(f),
            None => match first_taken(creature::uuids(c.neurons), own_ones(id)) {
                Some(name) => Err(GraftFault::UuidCollision(name)),
                None => planned_in(c, output, root, own_setting(c, id), own_ones(id), squash),
            },
        },
    }
}

/// The squash name of the output that a patch targets, when there is such an
/// output.
pub fn target_squash(incumbent: &Creature, output: usize) -> (r: Option<String>)
    ensures
        r is Some <==> output < incumbent.output && incumbent@.outputs_end_it(),
        r matches Some(s) ==> s@ == squash_name(target_of(incumbent@, output)),
{
    if output >= incumbent.output || !incumbent.has_trailing_outputs() {
        return None;
    }
    let at: usize = incumbent.neurons.len() - incumbent.output + output;
    match &incumbent.neurons[at].squash {
        Some(s) => Some(s.clone()),
        None => Some("IDENTITY".to_owned()),
    }
}

fn reusable_ones(incumbent: &Creature) -> (r: Vec<String>)
    ensures
        text::texts(r@) == first_three(reusable(incumbent@.neurons)),
{
    let ghost p = |n: NeuronModel| is_one(n);
    let ghost all = incumbent@.neurons;
    let mut out: Vec<String> = Vec::new();
    let constant = "constant".to_owned();
    let mut i: usize = 0;
    proof {
        reveal(Seq::filter);
        assert(all.take(0).filter(p) =~= Seq::empty());
        assert(text::texts(out@) =~= reusable(all.take(0)));
    }
    while i < incumbent.neurons.len() && out.len() < 3
        invariant
            p == (|n: NeuronModel| is_one(n)),
            all == incumbent@.neurons,
            constant@ == "constant"@,
            i <= all.len(),
            out@.len() <= 3,
            text::texts(out@) == reusable(all.take(i as int)),
        decreases all.len() - i,
    {
        let n = &incumbent.neurons[i];
        let ghost before = out@;
        proof {
            reveal(Seq::filter);
            assert(all.take(i as int + 1).drop_last() =~= all.take(i as int));
            assert(all[i as int] == n@);
        }
        if n.kind == constant && n.bias.eq_value(Double::one()) && n.squash.is_none() {
            let uuid = n.uuid.clone();
            out.push(uuid);
            proof {
                assert(is_one(n@));
                assert(all.take(i as int + 1).filter(p) =~= all.take(i as int).filter(p).push(n@));
                assert(text::texts(out@) =~= text::texts(before).push(uuid@));
                assert(text::texts(out@) =~= reusable(all.take(i as int + 1)));
            }
        } else {
            assert(!is_one(n@));
            assert(all.take(i as int + 1).filter(p) =~= all.take(i as int).filter(p));
        }
        i = i + 1;
    }
    proof {
        assert(text::texts(out@).len() == out@.len());
        filter_prefix(all, i as int, p);
        if i == all.len() {
            assert(all.take(i as int) =~= all);
        } else {
            assert(text::texts(out@) =~= reusable(all).take(3));
        }
        if reusable(all).len() == 3 {
            assert(reusable(all).take(3) =~= reusable(all));
        }
    }
    out
}

proof fn filter_prefix(all: Seq<NeuronModel>, n: int, p: spec_fn(NeuronModel) -> bool)
    requires
        0 <= n <= all.len(),
    ensures
        all.take(n).filter(p).len() <= all.filter(p).len(),
        all.filter(p).take(all.take(n).filter(p).len() as int) == all.take(n).filter(p),
{
    assert(all =~= all.take(n) + all.skip(n));
    Seq::filter_distributes_over_add(all.take(n), all.skip(n), p);
    let a = all.take(n).filter(p);
    assert((a + all.skip(n).filter(p)).take(a.len() as int) =~= a);
}

fn with_constants(incumbent: &Creature, names: &Vec<String>) -> (r: Creature)
    requires
        incumbent.output <= incumbent.neurons@.len(),
    ensures
        r@ == with_constants_model(incumbent@, text::texts(names@)),
{
    let first_output: usize = incumbent.neurons.len() - incumbent.output;
    let ghost old_neurons = incumbent@.neurons;
    let constant = "constant".to_owned();
    let mut at: usize = 0;
    while at < first_output && incumbent.neurons[at].kind == constant
        invariant
            constant@ == "constant"@,
            old_neurons == incumbent@.neurons,
            at <= first_output,
            first_output <= old_neurons.len(),
            constants_end(old_neurons, 0, first_output as int) == constants_end(
                old_neurons,
                at as int,
                first_output as int,
            ),
        decreases first_output - at,
    {
        at = at + 1;
    }
    let mut neurons: Vec<Neuron> = Vec::new();
    for i in 0..at
        invariant
            old_neurons == incumbent@.neurons,
            at <= old_neurons.len(),
            creature::neuron_models(neurons@) == old_neurons.take(i as int),
    {
        let ghost before = neurons@;
        let n = incumbent.neurons[i].clone();
        neurons.push(n);
        proof {
            assert(creature::neuron_models(neurons@) =~= creature::neuron_models(before).push(n@));
            assert(creature::neuron_models(neurons@) =~= old_neurons.take(i as int + 1));
        }
    }
    let ghost added = text::texts(names@).map_values(|n: Seq<char>| constant_model(n));
    let ghost front = old_neurons.take(at as int);
    proof {
        assert(front + added.take(0) =~= front);
    }
    for i in 0..names.len()
        invariant
            added == text::texts(names@).map_values(|n: Seq<char>| constant_model(n)),
            creature::neuron_models(neurons@) == front + added.take(i as int),
    {
        let ghost before = neurons@;
        let n = Neuron {
            kind: "constant".to_owned(),
            uuid: names[i].clone(),
            bias: Double::one(),
            squash: None,
        };
        assert(n@ == added[i as int]);
        neurons.push(n);
        proof {
            assert(creature::neuron_models(neurons@) =~= creature::neuron_models(before).push(n@));
            assert(creature::neuron_models(neurons@) =~= front + added.take(i as int + 1));
        }
    }
    proof {
        assert(added.take(added.len() as int) =~= added);
        assert(front + added + old_neurons.subrange(at as int, at as int) =~= front + added);
    }
    for i in at..incumbent.neurons.len()
        invariant
            old_neurons == incumbent@.neurons,
            at <= i <= old_neurons.len(),
            creature::neuron_models(neurons@) == front + added + old_neurons.subrange(
                at as int,
                i as int,
            ),
    {
        let ghost before = neurons@;
        let n = incumbent.neurons[i].clone();
        neurons.push(n);
        proof {
            assert(creature::neuron_models(neurons@) =~= creature::neuron_models(before).push(n@));
            assert(creature::neuron_models(neurons@) =~= front + added + old_neurons.subrange(
                at as int,
                i as int + 1,
            ));
        }
    }
    proof {
        assert(old_neurons.subrange(at as int, old_neurons.len() as int) =~= old_neurons.skip(
            at as int,
        ));
    }
    let mut creature = incumbent.clone();
    creature.neurons = neurons;
    assert(creature@.neurons =~= with_constants_model(incumbent@, text::texts(names@)).neurons);
    creature
}

/// How the squash reads, as far as contracts speak of it.
pub open spec fn squash_reading(squash: Result<SquashClass, String>) -> Result<
    SquashClass,
    Seq<char>,
> {
    match squash {
        Ok(c) => Ok(c),
        Err(m) => Err(m@),
    }
}

fn check_target(incumbent: &Creature, patch: &Patch) -> (r: Result<(), GraftError>)
    ensures
        match refusal(incumbent@, patch.output, patch.root@) {
            Some(f) => r matches Err(e) && e@ == f,
            None => r is Ok,
        },
{
    if !patch.root.is_finite() {
        return Err(GraftError::NonFinite);
    }
    if let Node::Leaf { .. } = patch.root {
        return Err(GraftError::RootIsLeaf);
    }
    if patch.output >= incumbent.output {
        return Err(
            GraftError::OutputOutOfRange { output: patch.output, outputs: incumbent.output },
        );
    }
    if !incumbent.has_trailing_outputs() {
        return Err(GraftError::OutputsNotLast);
    }
    Ok(())
}

fn graft_prefix(id: &str) -> (r: String)
    ensures
        r@ == "forest-"@ + id@,
{
    let mut prefix = "forest-".to_owned();
    prefix.append(id);
    prefix
}

/// Plan the graft of `patch`, whose identity is `id`, onto `incumbent`, which is
/// never modified, with constants that every patch shares. `squash` says how the
/// squash name of the target (see [`target_squash`]) reads.
pub fn plan_graft(
    incumbent: &Creature,
    patch: &Patch,
    id: &str,
    squash: &Result<SquashClass, String>,
) -> (r: Result<GraftPlan, GraftError>)
    requires
        patch.root@.splits() < usize::MAX,
        incumbent.neurons@.len() + 3 <= usize::MAX,
    ensures
        match planned(incumbent@, patch.output, patch.root@, id@, squash_reading(*squash)) {
            Ok(p) => r matches Ok(plan) && plan@ == p,
            Err(f) => r matches Err(e) && e@ == f,
        },
{
    match check_target(incumbent, patch) {
        Ok(()) => {},
        Err(e) => {
            return Err(e);
        },
    }
    let ghost c = incumbent@;
    let existing = incumbent.uuids();
    let mut ones = reusable_ones(incumbent);
    proof {
        assert(text::texts(ones@).len() == ones@.len());
        assert(text::texts(existing@).len() == existing@.len());
    }
    let names = free_one_names(&existing, 3 - ones.len());
    proof {
        assert(text::texts(names@) == new_ones(c.neurons));
    }
    let ghost reused = ones@;
    proof {
        assert(text::texts(ones@) =~= text::texts(reused) + text::texts(names@.take(0)));
    }
    for i in 0..names.len()
        invariant
            text::texts(ones@) == text::texts(reused) + text::texts(names@.take(i as int)),
    {
        let ghost before = ones@;
        let name = names[i].clone();
        ones.push(name);
        proof {
            assert(text::texts(ones@) =~= text::texts(before).push(name@));
            assert(text::texts(names@.take(i as int + 1)) =~= text::texts(names@.take(i as int)).push(
                name@,
            ));
            assert(text::texts(ones@) =~= text::texts(reused) + text::texts(
                names@.take(i as int + 1),
            ));
        }
    }
    proof {
        assert(names@.take(names@.len() as int) =~= names@);
        assert(text::texts(ones@) == shared_ones(c.neurons));
        assert(text::texts(ones@).len() == ones@.len());
    }
    let emitter = Emitter {
        prefix: graft_prefix(id),
        ones: SharedOnes {
            condition: ones[0].clone(),
            positive: ones[1].clone(),
            negative: ones[2].clone(),
        },
        input: incumbent.input,
        existing,
    };
    proof {
        assert(text::texts(ones@)[0] == ones@[0]@);
        assert(text::texts(ones@)[1] == ones@[1]@);
        assert(text::texts(ones@)[2] == ones@[2]@);
        assert(emitter.setting() == graft_setting(c, id@));
    }
    emitter.plan(incumbent, patch, &names, squash)
}

fn own_one(id: &str, role: &str) -> (r: String)
    ensures
        r@ == "forest-"@ + id@ + role@,
{
    let mut name = graft_prefix(id);
    name.append(role);
    name
}

/// Plan the graft of `patch`, whose identity is `id`, onto `incumbent`, which is
/// never modified, with constants that are shared or the patch's own. `squash`
/// says how the squash name of the target (see [`target_squash`]) reads.
pub fn plan_graft_with(
    incumbent: &Creature,
    patch: &Patch,
    id: &str,
    squash: &Result<SquashClass, String>,
    constants: GraftConstants,
) -> (r: Result<GraftPlan, GraftError>)
    requires
        patch.root@.splits() < usize::MAX,
        incumbent.neurons@.len() + 3 <= usize::MAX,
    ensures
        match planned_with(
            incumbent@,
            patch.output,
            patch.root@,
            id@,
            squash_reading(*squash),
            constants,
        ) {
            Ok(p) => r matches Ok(plan) && plan@ == p,
            Err(f) => r matches Err(e) && e@ == f,
        },
{
    match constants {
        GraftConstants::Shared => plan_graft(incumbent, patch, id, squash),
        GraftConstants::PerPatch => {
            match check_target(incumbent, patch) {
                Ok(()) => {},
                Err(e) => {
                    return Err(e);
                },
            }
            let ghost taken = creature::uuids(incumbent@.neurons);
            let ghost own = own_ones(id@);
            let existing = incumbent.uuids();
            let mut names: Vec<String> = Vec::new();
            names.push(own_one(id, "-one-c"));
            names.push(own_one(id, "-one-p"));
            names.push(own_one(id, "-one-n"));
            proof {
                assert(text::texts(names@) =~= own);
                assert(own.skip(0) =~= own);
            }
            for i in 0..names.len()
                invariant
                    taken == text::texts(existing@),
                    taken == creature::uuids(incumbent@.neurons),
                    own == own_ones(id@),
                    text::texts(names@) == own,
                    refusal(incumbent@, patch.output, patch.root@) is None,
                    first_taken(taken, own) == first_taken(taken, own.skip(i as int)),
                    constants == GraftConstants::PerPatch,
            {
                proof {
                    assert(own.skip(i as int)[0] == names@[i as int]@);
                    assert(own.skip(i as int).drop_first() =~= own.skip(i as int + 1));
                }
                if contains_text(&existing, names[i].as_str()) {
                    return Err(GraftError::UuidCollision(names[i].clone()));
                }
            }
            let emitter = Emitter {
                prefix: graft_prefix(id),
                ones: SharedOnes {
                    condition: names[0].clone(),
                    positive: names[1].clone(),
                    negative: names[2].clone(),
                },
                input: incumbent.input,
                existing,
            };
            proof {
                assert(own.skip(names@.len() as int) =~= Seq::empty());
                assert(text::texts(names@)[0] == names@[0]@);
                assert(text::texts(names@)[1] == names@[1]@);
                assert(text::texts(names@)[2] == names@[2]@);
                assert(emitter.setting() == own_setting(incumbent@, id@));
            }
            emitter.plan(incumbent, patch, &names, squash)
        },
    }
}

impl Emitter {
    fn plan(
        self,
        incumbent: &Creature,
        patch: &Patch,
        names: &Vec<String>,
        squash: &Result<SquashClass, String>,
    ) -> (r: Result<GraftPlan, GraftError>)
        requires
            patch.root@.splits() < usize::MAX,
            refusal(incumbent@, patch.output, patch.root@) is None,
        ensures
            match planned_in(
                incumbent@,
                patch.output,
                patch.root@,
                self.setting(),
                text::texts(names@),
                squash_reading(*squash),
            ) {
                Ok(p) => r matches Ok(plan) && plan@ == p,
                Err(f) => r matches Err(e) && e@ == f,
            },
    {
        let emitter = self;
        let ghost s = self.setting();
        let mut nodes: Vec<IfNode> = Vec::new();
        let (edge, next) = match emitter.describe(&patch.root, true, &mut nodes, 0) {
            Ok(d) => d,
            Err(e) => {
                return Err(e);
            },
        };
        let ghost d = described(patch.root@, true, s, 0)->Ok_0;
        proof {
            assert(if_models(Seq::<IfNode>::empty()) + d.nodes =~= d.nodes);
            assert(if_models(nodes@) =~= d.nodes);
        }
        let at: usize = incumbent.neurons.len() - incumbent.output + patch.output;
        let target = incumbent.neurons[at].uuid.clone();
        let class = match squash {
            Ok(k) => *k,
            Err(m) => {
                return Err(GraftError::Compile(m.clone()));
            },
        };
        let (role, relay) = match class {
            SquashClass::Aggregate => {
                let name = match &incumbent.neurons[at].squash {
                    Some(s) => s.clone(),
                    None => "IDENTITY".to_owned(),
                };
                return Err(GraftError::UnsupportedOutputSquash(name));
            },
            SquashClass::Pointwise => (Role::Untyped, None),
            SquashClass::If => {
                let uuid = match emitter.fresh("relay", next) {
                    Ok(u) => u,
                    Err(e) => {
                        return Err(e);
                    },
                };
                (
                    Role::Positive,
                    Some(Relay { uuid, source: edge.source.clone(), target: target.clone() }),
                )
            },
        };
        let ghost before = nodes@;
        proof {
            assert(d.nodes.len() > 0);
            assert(if_models(nodes@).len() == nodes@.len());
        }
        match nodes.pop() {
            Some(mut root) => {
                root.outward = Some(Outward { target, role });
                nodes.push(root);
                proof {
                    assert(before.drop_last().push(before.last()) =~= before);
                    assert(if_models(nodes@) =~= with_outward(d.nodes, target@, role));
                }
            },
            None => {},
        }
        let base = with_constants(incumbent, names);
        let Emitter { ones: shared, .. } = emitter;
        Ok(GraftPlan { base, ones: shared, nodes, root: edge.source, relay })
    }
}

// ---------------------------------------------------------------------------
// What a description promises.
// ---------------------------------------------------------------------------

/// Generated uuids with one tag differ when their numbers do.
pub proof fn generated_uuids_differ(prefix: Seq<char>, tag: Seq<char>, a: nat, b: nat)
    requires
        generated(prefix, tag, a) == generated(prefix, tag, b),
    ensures
        a == b,
{
    let n = (prefix + "-"@ + tag).len() as int;
    assert(generated(prefix, tag, a).skip(n) =~= text::decimal(a));
    assert(generated(prefix, tag, b).skip(n) =~= text::decimal(b));
    text::decimal_is_injective(a, b);
}

/// Inputs have different uuids.
pub proof fn input_uuids_differ(a: nat, b: nat)
    requires
        input_uuid(a) == input_uuid(b),
    ensures
        a == b,
{
    let n = "input-"@.len() as int;
    assert(input_uuid(a).skip(n) =~= text::decimal(a));
    assert(input_uuid(b).skip(n) =~= text::decimal(b));
    text::decimal_is_injective(a, b);
}

/// The nodes of a description are numbered in the order in which they are
/// listed, one per split; none of their uuids is carried by the creature; and a
/// split is read through the last of them.
pub proof fn described_nodes_are_numbered(t: Tree, right: bool, s: Setting, next: nat)
    requires
        described(t, right, s, next) is Ok,
    ensures
        ({
            let d = described(t, right, s, next)->Ok_0;
            &&& d.nodes.len() == t.splits()
            &&& d.next == next + t.splits()
            &&& forall|i: int|
                0 <= i < d.nodes.len() ==> (#[trigger] d.nodes[i]).uuid == generated(
                    s.prefix,
                    "if"@,
                    (next + i) as nat,
                ) && !s.existing.contains(d.nodes[i].uuid) && d.nodes[i].outward is None
            &&& t is Split ==> d.nodes.len() > 0 && d.edge.source == d.nodes.last().uuid
            &&& t is Leaf ==> d.edge.source == if right { s.positive } else { s.negative }
        }),
    decreases t,
{
    if let Tree::Split { left, right: high, .. } = t {
        described_nodes_are_numbered(*left, false, s, next);
        let l = described(*left, false, s, next)->Ok_0;
        described_nodes_are_numbered(*high, true, s, l.next);
        let h = described(*high, true, s, l.next)->Ok_0;
        let d = described(t, right, s, next)->Ok_0;
        assert forall|i: int| 0 <= i < d.nodes.len() implies (#[trigger] d.nodes[i]).uuid
            == generated(s.prefix, "if"@, (next + i) as nat) && !s.existing.contains(
            d.nodes[i].uuid,
        ) && d.nodes[i].outward is None by {
            if i < l.nodes.len() {
                assert(d.nodes[i] == l.nodes[i]);
            } else if i < l.nodes.len() + h.nodes.len() {
                assert(d.nodes[i] == h.nodes[i - l.nodes.len()]);
            }
        }
    }
}

/// The sources that a node is joined from.
pub open spec fn sources(n: IfModel) -> Seq<Seq<char>> {
    n.condition.map_values(|e: EdgeModel| e.source).push(n.positive.source).push(
        n.negative.source,
    )
}

/// The constants are three different neurons, none of which is an input
/// or has a generated uuid; and a generated uuid is no input's.
pub open spec fn sound(s: Setting) -> bool {
    &&& s.condition != s.positive
    &&& s.condition != s.negative
    &&& s.positive != s.negative
    &&& s.prefix.len() > 0
    &&& s.prefix[0] != 'i'
    &&& forall|f: nat| #![trigger input_uuid(f)]
        input_uuid(f) != s.condition && input_uuid(f) != s.positive && input_uuid(f) != s.negative
    &&& forall|k: nat|
        #![trigger generated(s.prefix, "if"@, k)]
        {
            let g = generated(s.prefix, "if"@, k);
            !s.existing.contains(g) ==> g != s.condition && g != s.positive && g != s.negative
        }
}

proof fn no_term_fault_means_distinct(terms: Seq<Term>, n: int, uuid: Seq<char>, input: usize)
    requires
        0 <= n <= terms.len(),
        term_fault(terms, n, uuid, input) is None,
    ensures
        forall|i: int, j: int|
            0 <= i < j < n ==> (#[trigger] terms[i]).feature != (#[trigger] terms[j]).feature,
        forall|i: int| 0 <= i < n ==> (#[trigger] terms[i]).feature < input,
    decreases n,
{
    if n > 0 {
        no_term_fault_means_distinct(terms, n - 1, uuid, input);
    }
}

/// No node is joined twice from the same source.
pub proof fn nodes_have_distinct_sources(t: Tree, right: bool, s: Setting, next: nat, i: int)
    requires
        described(t, right, s, next) is Ok,
        sound(s),
        0 <= i < described(t, right, s, next)->Ok_0.nodes.len(),
    ensures
        sources(described(t, right, s, next)->Ok_0.nodes[i]).no_duplicates(),
    decreases t,
{
    if let Tree::Split { rule, left, right: high } = t {
        let l = described(*left, false, s, next)->Ok_0;
        let h = described(*high, true, s, l.next)->Ok_0;
        let d = described(t, right, s, next)->Ok_0;
        described_nodes_are_numbered(*left, false, s, next);
        described_nodes_are_numbered(*high, true, s, l.next);
        if i < l.nodes.len() {
            nodes_have_distinct_sources(*left, false, s, next, i);
            assert(d.nodes[i] == l.nodes[i]);
        } else if i < l.nodes.len() + h.nodes.len() {
            nodes_have_distinct_sources(*high, true, s, l.next, i - l.nodes.len());
            assert(d.nodes[i] == h.nodes[i - l.nodes.len()]);
        } else {
            let node = d.nodes[i];
            let n = rule.terms.len() as int;
            no_term_fault_means_distinct(rule.terms, n, node.uuid, s.input);
            let all = sources(node);
            assert(all.len() == n + 3);
            assert forall|k: int| 0 <= k < n implies all[k] == input_uuid(
                (#[trigger] rule.terms[k]).feature as nat,
            ) by {
                assert(node.condition[k].source == input_uuid(rule.terms[k].feature as nat));
            }
            assert(all[n] == s.condition) by {
                assert(node.condition[n].source == s.condition);
            }
            assert(all[n + 1] == h.edge.source);
            assert(all[n + 2] == l.edge.source);
            let hk = (l.next + h.nodes.len() - 1) as nat;
            let lk = (next + l.nodes.len() - 1) as nat;
            if *high is Split {
                assert(h.edge.source == generated(s.prefix, "if"@, hk));
                assert(generated(s.prefix, "if"@, hk)[0] == s.prefix[0]);
            }
            if *left is Split {
                assert(l.edge.source == generated(s.prefix, "if"@, lk));
                assert(generated(s.prefix, "if"@, lk)[0] == s.prefix[0]);
            }
            if *high is Split && *left is Split && h.edge.source == l.edge.source {
                generated_uuids_differ(s.prefix, "if"@, hk, lk);
            }
            reveal_strlit("input-");
            assert forall|a: int, b: int| 0 <= a < b < all.len() implies all[a] != all[b] by {
                if a < n {
                    let f = rule.terms[a].feature as nat;
                    assert(all[a] == input_uuid(f));
                    assert(input_uuid(f)[0] == 'i');
                    if b < n {
                        assert(all[b] == input_uuid(rule.terms[b].feature as nat));
                        if all[a] == all[b] {
                            input_uuids_differ(f, rule.terms[b].feature as nat);
                        }
                    }
                }
            }
        }
    }
}

/// No ordered pair of neurons is joined twice by the described nodes: two
/// synapses that are not the same one differ in source or in target.
pub proof fn no_pair_is_joined_twice(
    t: Tree,
    right: bool,
    s: Setting,
    next: nat,
    i: int,
    a: int,
    j: int,
    b: int,
)
    requires
        described(t, right, s, next) is Ok,
        sound(s),
        0 <= i < described(t, right, s, next)->Ok_0.nodes.len(),
        0 <= j < described(t, right, s, next)->Ok_0.nodes.len(),
        0 <= a < sources(described(t, right, s, next)->Ok_0.nodes[i]).len(),
        0 <= b < sources(described(t, right, s, next)->Ok_0.nodes[j]).len(),
        i != j || a != b,
    ensures
        ({
            let nodes = described(t, right, s, next)->Ok_0.nodes;
            sources(nodes[i])[a] != sources(nodes[j])[b] || nodes[i].uuid != nodes[j].uuid
        }),
{
    described_nodes_are_numbered(t, right, s, next);
    let nodes = described(t, right, s, next)->Ok_0.nodes;
    if i == j {
        nodes_have_distinct_sources(t, right, s, next, i);
    } else if nodes[i].uuid == nodes[j].uuid {
        generated_uuids_differ(s.prefix, "if"@, (next + i) as nat, (next + j) as nat);
    }
}

/// The rule that a condition's edges spell.
pub open spec fn rule_of(edges: Seq<EdgeModel>) -> Rule {
    Rule {
        terms: edges.drop_last().map_values(
            |e: EdgeModel|
                Term {
                    feature: choose|f: usize| input_uuid(f as nat) == e.source,
                    weight: e.weight,
                },
        ),
        threshold: edges.last().weight.negated(),
    }
}

/// Position of the node with a uuid, from `from` on; the length if there is
/// none.
pub open spec fn node_position(nodes: Seq<IfModel>, uuid: Seq<char>, from: int) -> int
    decreases nodes.len() - from,
{
    if from >= nodes.len() || nodes[from].uuid == uuid {
        from
    } else {
        node_position(nodes, uuid, from + 1)
    }
}

/// The tree that an edge into a list of nodes stands for: a constant is a leaf
/// with the edge's weight, a node is a split.
pub open spec fn read_back(nodes: Seq<IfModel>, edge: EdgeModel, right: bool, s: Setting) -> Tree
    decreases nodes.len(),
{
    let at = node_position(nodes, edge.source, 0);
    if edge.source == (if right { s.positive } else { s.negative }) || !(0 <= at < nodes.len()) {
        Tree::Leaf { correction: edge.weight }
    } else {
        Tree::Split {
            rule: rule_of(nodes[at].condition),
            left: Box::new(read_back(nodes.take(at), nodes[at].negative, false, s)),
            right: Box::new(read_back(nodes.take(at), nodes[at].positive, true, s)),
        }
    }
}

proof fn numbered_node_is_found(nodes: Seq<IfModel>, prefix: Seq<char>, base: nat, i: int, from: int)
    requires
        0 <= from <= i < nodes.len(),
        forall|k: int|
            0 <= k < nodes.len() ==> (#[trigger] nodes[k]).uuid == generated(
                prefix,
                "if"@,
                (base + k) as nat,
            ),
    ensures
        node_position(nodes, generated(prefix, "if"@, (base + i) as nat), from) == i,
    decreases i - from,
{
    if from < i {
        if nodes[from].uuid == generated(prefix, "if"@, (base + i) as nat) {
            generated_uuids_differ(prefix, "if"@, (base + from) as nat, (base + i) as nat);
        }
        numbered_node_is_found(nodes, prefix, base, i, from + 1);
    }
}

proof fn rule_reads_back(rule: Rule, one: Seq<char>)
    ensures
        rule_of(condition_edges(rule, one)).terms == rule.terms,
        rule_of(condition_edges(rule, one)).threshold == rule.threshold,
{
    let edges = condition_edges(rule, one);
    let back = rule_of(edges);
    assert forall|i: int| 0 <= i < rule.terms.len() implies back.terms[i] == rule.terms[i] by {
        let e = edges.drop_last()[i];
        let f = choose|f: usize| input_uuid(f as nat) == e.source;
        assert(input_uuid(rule.terms[i].feature as nat) == e.source);
        input_uuids_differ(f as nat, rule.terms[i].feature as nat);
    }
    assert(back.terms =~= rule.terms);
}

/// The description says what the tree says: read back from the nodes, in any
/// numbered list that holds them, it is the tree again.
#[verifier::spinoff_prover]
#[verifier::rlimit(80)]
pub proof fn description_reads_back(
    t: Tree,
    right: bool,
    s: Setting,
    next: nat,
    nodes: Seq<IfModel>,
    base: nat,
)
    requires
        described(t, right, s, next) is Ok,
        sound(s),
        base <= next,
        ({
            let d = described(t, right, s, next)->Ok_0;
            &&& next - base + d.nodes.len() <= nodes.len()
            &&& nodes.subrange(next - base, next - base + d.nodes.len()) == d.nodes
        }),
        forall|k: int|
            0 <= k < nodes.len() ==> (#[trigger] nodes[k]).uuid == generated(
                s.prefix,
                "if"@,
                (base + k) as nat,
            ),
    ensures
        read_back(nodes, described(t, right, s, next)->Ok_0.edge, right, s) == t,
    decreases t,
{
    let d = described(t, right, s, next)->Ok_0;
    described_nodes_are_numbered(t, right, s, next);
    if let Tree::Split { rule, left, right: high } = t {
        let l = described(*left, false, s, next)->Ok_0;
        let h = described(*high, true, s, l.next)->Ok_0;
        described_nodes_are_numbered(*left, false, s, next);
        described_nodes_are_numbered(*high, true, s, l.next);
        let a = next - base;
        let at = a + d.nodes.len() - 1;
        numbered_node_is_found(nodes, s.prefix, base, at, 0);
        let own = nodes.subrange(a, a + d.nodes.len());
        assert(nodes[at] == own[d.nodes.len() - 1]);
        let before = nodes.take(at);
        assert(before.subrange(a, a + l.nodes.len()) =~= l.nodes) by {
            assert forall|k: int| 0 <= k < l.nodes.len() implies before[a + k] == l.nodes[k] by {
                assert(own[k] == d.nodes[k]);
            }
        }
        let b = l.next - base;
        assert(before.subrange(b, b + h.nodes.len()) =~= h.nodes) by {
            assert forall|k: int| 0 <= k < h.nodes.len() implies before[b + k] == h.nodes[k] by {
                assert(own[l.nodes.len() + k] == d.nodes[l.nodes.len() + k]);
            }
        }
        description_reads_back(*left, false, s, next, before, base);
        description_reads_back(*high, true, s, l.next, before, base);
        rule_reads_back(rule, s.condition);
        let uuid = generated(s.prefix, "if"@, (base + at) as nat);
        assert(d.edge.source == uuid);
        assert(!s.existing.contains(uuid));
        assert(nodes[at].condition == condition_edges(rule, s.condition));
        assert(nodes[at].negative == l.edge);
        assert(nodes[at].positive == h.edge);
    }
}

/// The whole description, read back, is the tree.
pub proof fn graft_says_what_the_patch_says(t: Tree, s: Setting)
    requires
        described(t, true, s, 0) is Ok,
        sound(s),
    ensures
        ({
            let d = described(t, true, s, 0)->Ok_0;
            read_back(d.nodes, d.edge, true, s) == t
        }),
{
    described_nodes_are_numbered(t, true, s, 0);
    let d = described(t, true, s, 0)->Ok_0;
    assert(d.nodes.subrange(0, d.nodes.len() as int) =~= d.nodes);
    description_reads_back(t, true, s, 0, d.nodes, 0);
}

proof fn free_names_are_free(existing: Seq<Seq<char>>, n: nat)
    ensures
        free_names(existing, n).no_duplicates(),
        forall|i: int|
            0 <= i < free_names(existing, n).len() ==> !existing.contains(
                #[trigger] free_names(existing, n)[i],
            ) && exists|k: nat| k < n && free_names(existing, n)[i] == one_name(k),
    decreases n,
{
    if n > 0 {
        let m = (n - 1) as nat;
        free_names_are_free(existing, m);
        let before = free_names(existing, m);
        let now = free_names(existing, n);
        assert forall|i: int| 0 <= i < now.len() implies !existing.contains(#[trigger] now[i])
            && exists|k: nat| k < n && now[i] == one_name(k) by {
            if i < before.len() {
                assert(now[i] == before[i]);
                let k = choose|k: nat| k < m && before[i] == one_name(k);
                assert(k < n && now[i] == one_name(k));
            } else {
                assert(m < n && now[i] == one_name(m));
            }
        }
        assert forall|i: int, j: int| 0 <= i < j < now.len() implies now[i] != now[j] by {
            if j == before.len() {
                assert(now[i] == before[i]);
                let k = choose|k: nat| k < m && before[i] == one_name(k);
                if now[i] == now[j] {
                    one_names_differ(k, m);
                }
            }
        }
    }
}

proof fn filtered_uuids_stay_distinct(neurons: Seq<NeuronModel>, p: spec_fn(NeuronModel) -> bool)
    requires
        creature::uuids(neurons).no_duplicates(),
    ensures
        creature::uuids(neurons.filter(p)).no_duplicates(),
        forall|i: int|
            0 <= i < neurons.filter(p).len() ==> creature::uuids(neurons).contains(
                #[trigger] creature::uuids(neurons.filter(p))[i],
            ),
    decreases neurons.len(),
{
    reveal(Seq::filter);
    if neurons.len() > 0 {
        let rest = neurons.drop_last();
        let all = creature::uuids(neurons);
        let ids = creature::uuids(rest);
        assert(ids =~= all.drop_last());
        filtered_uuids_stay_distinct(rest, p);
        let before = rest.filter(p);
        let now = neurons.filter(p);
        assert forall|i: int| 0 <= i < now.len() implies all.contains(
            #[trigger] creature::uuids(now)[i],
        ) by {
            if i < before.len() {
                assert(creature::uuids(now)[i] == creature::uuids(before)[i]);
                let k = choose|k: int| 0 <= k < ids.len() && ids[k] == creature::uuids(before)[i];
                assert(all[k] == ids[k]);
            } else {
                assert(all[neurons.len() - 1] == creature::uuids(now)[i]);
            }
        }
        assert forall|i: int, j: int| 0 <= i < j < now.len() implies creature::uuids(now)[i]
            != creature::uuids(now)[j] by {
            assert(creature::uuids(now)[i] == creature::uuids(before)[i]);
            if j < before.len() {
                assert(creature::uuids(now)[j] == creature::uuids(before)[j]);
            } else {
                let k = choose|k: int| 0 <= k < ids.len() && ids[k] == creature::uuids(before)[i];
                assert(all[k] == ids[k]);
                assert(all[neurons.len() - 1] == creature::uuids(now)[j]);
            }
        }
    }
}

/// On a creature whose neurons have different uuids, none of them an input's,
/// the shared constants of a patch with a checksum for its identity are three
/// neurons of their own.
pub proof fn graft_settings_are_sound(c: CreatureModel, id: Seq<char>)
    requires
        creature::uuids(c.neurons).no_duplicates(),
        forall|i: int, f: nat|
            0 <= i < c.neurons.len() ==> (#[trigger] c.neurons[i]).uuid != #[trigger] input_uuid(f),
        id.len() > 0,
        id[0] != 'o',
    ensures
        sound(graft_setting(c, id)),
        shared_ones(c.neurons).len() == 3,
{
    reveal_strlit("forest-");
    reveal_strlit("forest-one-");
    reveal_strlit("input-");
    let s = graft_setting(c, id);
    let all = creature::uuids(c.neurons);
    let p = |n: NeuronModel| is_one(n);
    let reused = first_three(reusable(c.neurons));
    let new = new_ones(c.neurons);
    let free = free_names(all, all.len() + 3);
    filtered_uuids_stay_distinct(c.neurons, p);
    three_names_are_free(all);
    free_names_are_free(all, all.len() + 3);
    let ones = shared_ones(c.neurons);
    assert(new.len() == 3 - reused.len());
    assert forall|i: int| 0 <= i < reused.len() implies all.contains(#[trigger] reused[i]) by {
        assert(reused[i] == reusable(c.neurons)[i]);
    }
    assert forall|i: int| 0 <= i < new.len() implies !all.contains(#[trigger] new[i]) && exists|
        k: nat,
    | new[i] == one_name(k) by {
        assert(new[i] == free[i]);
    }
    assert(ones[0] != ones[1] && ones[0] != ones[2] && ones[1] != ones[2]) by {
        assert forall|i: int, j: int| 0 <= i < j < 3 implies ones[i] != ones[j] by {
            if j < reused.len() {
                assert(reused[i] == reusable(c.neurons)[i]);
                assert(reused[j] == reusable(c.neurons)[j]);
            } else if i < reused.len() {
                assert(all.contains(reused[i]));
                assert(!all.contains(new[j - reused.len()]));
            } else {
                assert(new[i - reused.len()] == free[i - reused.len()]);
                assert(new[j - reused.len()] == free[j - reused.len()]);
            }
        }
    }
    assert(s.prefix[0] == 'f');
    assert(s.prefix[7] == id[0]);
    assert forall|f: nat, i: int| 0 <= i < 3 implies #[trigger] input_uuid(f)
        != #[trigger] ones[i] by {
        assert(input_uuid(f)[0] == 'i');
        if i < reused.len() {
            assert(all.contains(reused[i]));
            let k = choose|k: int| 0 <= k < all.len() && all[k] == reused[i];
            assert(c.neurons[k].uuid == reused[i]);
        } else {
            let k = choose|k: nat| new[i - reused.len()] == one_name(k);
            assert(one_name(k)[0] == 'f');
        }
    }
    assert forall|k: nat, i: int| 0 <= i < 3 && !all.contains(generated(s.prefix, "if"@, k)) implies
        #[trigger] generated(s.prefix, "if"@, k) != #[trigger] ones[i] by {
        let g = generated(s.prefix, "if"@, k);
        assert(g[7] == id[0]);
        if i < reused.len() {
            assert(all.contains(reused[i]));
        } else {
            let m = choose|m: nat| new[i - reused.len()] == one_name(m);
            assert(one_name(m)[7] == 'o');
        }
    }
    assert forall|f: nat| #![trigger input_uuid(f)] input_uuid(f) != s.condition && input_uuid(f)
        != s.positive && input_uuid(f) != s.negative by {
        assert(input_uuid(f) != ones[0] && input_uuid(f) != ones[1] && input_uuid(f) != ones[2]);
    }
    assert forall|k: nat|
        #![trigger generated(s.prefix, "if"@, k)]
        !s.existing.contains(generated(s.prefix, "if"@, k)) implies generated(s.prefix, "if"@, k)
        != s.condition && generated(s.prefix, "if"@, k) != s.positive && generated(
        s.prefix,
        "if"@,
        k,
    ) != s.negative by {
        let g = generated(s.prefix, "if"@, k);
        assert(g != ones[0] && g != ones[1] && g != ones[2]);
    }
}

/// The constants of a patch that shares none are three neurons of their own.
pub proof fn own_settings_are_sound(c: CreatureModel, id: Seq<char>)
    ensures
        sound(own_setting(c, id)),
{
    reveal_strlit("forest-");
    reveal_strlit("input-");
    reveal_strlit("-one-c");
    reveal_strlit("-one-p");
    reveal_strlit("-one-n");
    reveal_strlit("-");
    reveal_strlit("if");
    let s = own_setting(c, id);
    let at = s.prefix.len() as int;
    assert(s.prefix[0] == 'f');
    assert(s.condition[0] == 'f' && s.positive[0] == 'f' && s.negative[0] == 'f');
    assert(s.condition[at + 5] == 'c' && s.positive[at + 5] == 'p' && s.negative[at + 5] == 'n');
    assert(s.condition[at + 1] == 'o' && s.positive[at + 1] == 'o' && s.negative[at + 1] == 'o');
    assert forall|f: nat| #![trigger input_uuid(f)] input_uuid(f) != s.condition && input_uuid(f)
        != s.positive && input_uuid(f) != s.negative by {
        assert(input_uuid(f)[0] == 'i');
    }
    assert forall|k: nat|
        #![trigger generated(s.prefix, "if"@, k)]
        !s.existing.contains(generated(s.prefix, "if"@, k)) implies generated(s.prefix, "if"@, k)
        != s.condition && generated(s.prefix, "if"@, k) != s.positive && generated(
        s.prefix,
        "if"@,
        k,
    ) != s.negative by {
        assert(generated(s.prefix, "if"@, k)[at + 1] == 'i');
    }
}

/// Patches of different identities share no constant.
pub proof fn own_constants_differ(a: Seq<char>, b: Seq<char>, i: int, j: int)
    requires
        a != b,
        0 <= i < 3,
        0 <= j < 3,
    ensures
        own_ones(a)[i] != own_ones(b)[j],
{
    reveal_strlit("-one-c");
    reveal_strlit("-one-p");
    reveal_strlit("-one-n");
    let x = own_ones(a)[i];
    let y = own_ones(b)[j];
    if x == y {
        assert(x.last() == if i == 0 { 'c' } else if i == 1 { 'p' } else { 'n' });
        assert(y.last() == if j == 0 { 'c' } else if j == 1 { 'p' } else { 'n' });
        let n = "forest-"@.len() as int;
        assert(x.subrange(n, x.len() - 6) =~= a);
        assert(y.subrange(n, y.len() - 6) =~= b);
    }
}

/// The names of a node's sources: inputs, nodes of the same description and the
/// setting's constants.
proof fn sources_are_inputs_nodes_or_constants(
    t: Tree,
    right: bool,
    s: Setting,
    next: nat,
    i: int,
    a: int,
)
    requires
        described(t, right, s, next) is Ok,
        0 <= i < described(t, right, s, next)->Ok_0.nodes.len(),
        0 <= a < sources(described(t, right, s, next)->Ok_0.nodes[i]).len(),
    ensures
        is_known_source(s, sources(described(t, right, s, next)->Ok_0.nodes[i])[a]),
    decreases t,
{
    if let Tree::Split { rule, left, right: high } = t {
        let l = described(*left, false, s, next)->Ok_0;
        let h = described(*high, true, s, l.next)->Ok_0;
        let d = described(t, right, s, next)->Ok_0;
        described_nodes_are_numbered(*left, false, s, next);
        described_nodes_are_numbered(*high, true, s, l.next);
        if i < l.nodes.len() {
            assert(d.nodes[i] == l.nodes[i]);
            sources_are_inputs_nodes_or_constants(*left, false, s, next, i, a);
        } else if i < l.nodes.len() + h.nodes.len() {
            let k = i - l.nodes.len();
            assert(d.nodes[i] == h.nodes[k]);
            sources_are_inputs_nodes_or_constants(*high, true, s, l.next, k, a);
        } else {
            let node = d.nodes[i];
            let n = rule.terms.len() as int;
            let all = sources(node);
            assert(all.len() == n + 3);
            if a < n {
                assert(node.condition[a].source == input_uuid(rule.terms[a].feature as nat));
                assert(all[a] == input_uuid(rule.terms[a].feature as nat));
            } else if a == n {
                assert(node.condition[n].source == s.condition);
            } else if a == n + 1 {
                assert(all[a] == h.edge.source);
                if *high is Split {
                    let k = (l.next + h.nodes.len() - 1) as nat;
                    assert(h.edge.source == generated(s.prefix, "if"@, k));
                }
            } else {
                assert(all[a] == l.edge.source);
                if *left is Split {
                    let k = (next + l.nodes.len() - 1) as nat;
                    assert(l.edge.source == generated(s.prefix, "if"@, k));
                }
            }
        }
    }
}

/// The source is an input, a node that the setting names or one of its constants.
pub open spec fn is_known_source(s: Setting, source: Seq<char>) -> bool {
    ||| exists|f: nat| source == #[trigger] input_uuid(f)
    ||| exists|k: nat| source == #[trigger] generated(s.prefix, "if"@, k)
    ||| source == s.condition
    ||| source == s.positive
    ||| source == s.negative
}

proof fn decimals_end_in_a_digit(n: nat)
    ensures
        text::decimal(n).len() > 0,
        '0' <= text::decimal(n).last() <= '9',
    decreases n,
{
    if n >= 10 {
        decimals_end_in_a_digit(n / 10);
    }
}

/// Under constants of its own, everything that a node of a patch reads is an
/// input, a node of the patch or a constant that is new and named for the patch:
/// no constant of another patch is read.
pub proof fn constants_stay_within_their_patch(
    c: CreatureModel,
    output: usize,
    root: Tree,
    id: Seq<char>,
    squash: Result<SquashClass, Seq<char>>,
    other: Seq<char>,
    i: int,
    a: int,
)
    requires
        planned_with(c, output, root, id, squash, GraftConstants::PerPatch) is Ok,
        other != id,
        ({
            let plan = planned_with(c, output, root, id, squash, GraftConstants::PerPatch)->Ok_0;
            0 <= i < plan.nodes.len() && 0 <= a < sources(plan.nodes[i]).len()
        }),
    ensures
        ({
            let plan = planned_with(c, output, root, id, squash, GraftConstants::PerPatch)->Ok_0;
            let source = sources(plan.nodes[i])[a];
            &&& seq![plan.condition, plan.positive, plan.negative] == own_ones(id)
            &&& plan.base == with_constants_model(c, own_ones(id))
            &&& is_known_source(own_setting(c, id), source)
            &&& !own_ones(other).contains(source)
            &&& forall|k: int|
                0 <= k < 3 ==> !creature::uuids(c.neurons).contains(#[trigger] own_ones(id)[k])
        }),
{
    reveal_strlit("-one-c");
    reveal_strlit("-one-p");
    reveal_strlit("-one-n");
    let s = own_setting(c, id);
    let plan = planned_with(c, output, root, id, squash, GraftConstants::PerPatch)->Ok_0;
    let d = described(root, true, s, 0)->Ok_0;
    described_nodes_are_numbered(root, true, s, 0);
    assert(plan.nodes.len() == d.nodes.len());
    assert(sources(plan.nodes[i]) == sources(d.nodes[i]));
    sources_are_inputs_nodes_or_constants(root, true, s, 0, i, a);
    assert(seq![plan.condition, plan.positive, plan.negative] =~= own_ones(id));
    let source = sources(plan.nodes[i])[a];
    if own_ones(other).contains(source) {
        let j = choose|j: int| 0 <= j < own_ones(other).len() && own_ones(other)[j] == source;
        assert(source.last() == 'c' || source.last() == 'p' || source.last() == 'n');
        own_constants_differ(id, other, 0, j);
        own_constants_differ(id, other, 1, j);
        own_constants_differ(id, other, 2, j);
        if exists|f: nat| source == #[trigger] input_uuid(f) {
            let f = choose|f: nat| source == #[trigger] input_uuid(f);
            decimals_end_in_a_digit(f);
        } else {
            let k = choose|k: nat| source == #[trigger] generated(s.prefix, "if"@, k);
            decimals_end_in_a_digit(k);
        }
    }
    let taken = creature::uuids(c.neurons);
    let own = own_ones(id);
    assert(own.drop_first()[0] == own[1]);
    assert(own.drop_first().drop_first()[0] == own[2]);
    reveal_with_fuel(first_taken, 4);
}

/// New constants leave every neuron of the creature as it was, in order, and
/// the outputs at the end.
pub proof fn constants_change_nothing_else(c: CreatureModel, names: Seq<Seq<char>>)
    requires
        c.outputs_end_it(),
    ensures
        ({
            let base = with_constants_model(c, names);
            let at = constants_end(c.neurons, 0, c.neurons.len() - c.output);
            &&& 0 <= at <= c.neurons.len() - c.output
            &&& base.neurons.len() == c.neurons.len() + names.len()
            &&& forall|i: int| 0 <= i < at ==> #[trigger] base.neurons[i] == c.neurons[i]
            &&& forall|i: int|
                at <= i < c.neurons.len() ==> base.neurons[i + names.len()]
                    == #[trigger] c.neurons[i]
            &&& base.synapses == c.synapses
            &&& base.outputs_end_it()
        }),
{
    let n = c.neurons.len() - c.output;
    constants_end_is_in_range(c.neurons, 0, n);
    let base = with_constants_model(c, names);
    let at = constants_end(c.neurons, 0, n);
    assert forall|i: int| at <= i < c.neurons.len() implies base.neurons[i + names.len()]
        == #[trigger] c.neurons[i] by {
        assert(c.neurons.skip(at)[i - at] == c.neurons[i]);
    }
    assert forall|i: int| base.neurons.len() - base.output <= i < base.neurons.len() implies (
    #[trigger] base.neurons[i]).kind == "output"@ by {
        assert(base.neurons[i] == c.neurons[i - names.len()]);
    }
}

proof fn constants_end_is_in_range(neurons: Seq<NeuronModel>, from: int, n: int)
    requires
        0 <= from <= n,
    ensures
        from <= constants_end(neurons, from, n) <= n,
    decreases n - from,
{
    if from < n {
        constants_end_is_in_range(neurons, from + 1, n);
    }
}

// ---------------------------------------------------------------------------
// After the graft.
// ---------------------------------------------------------------------------

/// Reject any repeated (from, to) synapse pair: a loader that keys synapses by
/// the pair would drop one of the two.
pub fn check_no_duplicate_synapses(creature: &Creature) -> (r: Result<(), GraftError>)
    ensures
        r is Ok <==> (forall|k: int|
            0 <= k < creature@.synapses.len() ==> !creature@.repeats_pair(k)),
        r matches Err(e) ==> exists|k: int|
            0 <= k < creature@.synapses.len() && #[trigger] creature@.repeats_pair(k) && (forall|
                j: int,
            |
                0 <= j < k ==> !creature@.repeats_pair(j)) && e@ == GraftFault::DuplicateSynapse(
                creature@.synapses[k].from_uuid + " → "@ + creature@.synapses[k].to_uuid,
            ),
{
    match creature.repeated_pair() {
        None => Ok(()),
        Some(k) => {
            let mut pair = creature.synapses[k].from_uuid.clone();
            pair.append(" → ");
            pair.append(creature.synapses[k].to_uuid.as_str());
            proof {
                assert(creature@.repeats_pair(k as int));
                assert(pair@ == creature@.synapses[k as int].from_uuid + " → "@
                    + creature@.synapses[k as int].to_uuid);
            }
            Err(GraftError::DuplicateSynapse(pair))
        },
    }
}

/// Result of a graft: the new creature and what was appended.
#[derive(Debug, PartialEq)]
pub struct Grafted {
    /// The candidate creature (incumbent and appended structure).
    pub creature: Creature,
    /// Neurons appended.
    pub added_neurons: usize,
    /// Synapses appended.
    pub added_synapses: usize,
    /// uuids of the neurons appended, in listed order.
    pub added_uuids: Vec<String>,
}

/// What was appended to `incumbent` to make `creature`.
pub fn grafted(incumbent: &Creature, creature: Creature) -> (r: Grafted)
    requires
        incumbent.neurons@.len() <= creature.neurons@.len(),
        incumbent.synapses@.len() <= creature.synapses@.len(),
    ensures
        r.creature == creature,
        r.added_neurons == creature.neurons@.len() - incumbent.neurons@.len(),
        r.added_synapses == creature.synapses@.len() - incumbent.synapses@.len(),
        text::texts(r.added_uuids@) == creature::uuids(creature@.neurons).filter(
            |u: Seq<char>| !creature::uuids(incumbent@.neurons).contains(u),
        ),
{
    let existing = incumbent.uuids();
    let ghost p = |u: Seq<char>| !creature::uuids(incumbent@.neurons).contains(u);
    let ghost all = creature::uuids(creature@.neurons);
    let mut added: Vec<String> = Vec::new();
    proof {
        reveal(Seq::filter);
        assert(text::texts(added@) =~= all.take(0).filter(p));
    }
    for i in 0..creature.neurons.len()
        invariant
            text::texts(existing@) == creature::uuids(incumbent@.neurons),
            p == (|u: Seq<char>| !creature::uuids(incumbent@.neurons).contains(u)),
            all == creature::uuids(creature@.neurons),
            text::texts(added@) == all.take(i as int).filter(p),
    {
        let uuid = creature.neurons[i].uuid.clone();
        let ghost before = added@;
        proof {
            reveal(Seq::filter);
            assert(all[i as int] == uuid@);
            assert(all.take(i as int + 1).drop_last() =~= all.take(i as int));
        }
        if !contains_text(&existing, uuid.as_str()) {
            added.push(uuid);
            assert(text::texts(added@) =~= text::texts(before).push(uuid@));
        }
    }
    assert(all.take(all.len() as int) =~= all);
    let added_neurons: usize = creature.neurons.len() - incumbent.neurons.len();
    let added_synapses: usize = creature.synapses.len() - incumbent.synapses.len();
    Grafted { creature, added_neurons, added_synapses, added_uuids: added }
}

/// A compiled neuron, as far as the structural validator looks at it.
#[derive(Debug, Clone, Copy, PartialEq, Eq, Structural)]
pub struct CompiledNeuron {
    /// A constant.
    pub is_constant: bool,
    /// Squash code.
    pub squash_type: u8,
    /// Bias.
    pub bias: Single,
    /// First synapse.
    pub start_synapse: usize,
    /// Synapses.
    pub num_synapses: usize,
}

/// A compiled synapse.
#[derive(Debug, Clone, Copy, PartialEq, Eq, Structural)]
pub struct CompiledSynapse {
    /// Source index.
    pub from_index: u32,
    /// Role code.
    pub synapse_type: u8,
}

/// The columns that the structural validator takes.
#[derive(Debug, PartialEq)]
pub struct StructureColumns {
    /// Source of each synapse, neuron by neuron.
    pub from: Vec<u32>,
    /// Target of each synapse.
    pub to: Vec<u32>,
    /// Role of each synapse.
    pub types: Vec<u8>,
    /// Per neuron, inputs included.
    pub is_constant: Vec<u8>,
    /// Per neuron, inputs included.
    pub squash: Vec<u8>,
    /// Per neuron, inputs included.
    pub biases: Vec<Single>,
}

/// The synapses of the first `n` neurons, each with its target's index.
pub open spec fn targeted_synapses(
    neurons: Seq<CompiledNeuron>,
    synapses: Seq<CompiledSynapse>,
    inputs: int,
    n: int,
) -> Seq<(CompiledSynapse, int)>
    decreases n,
{
    if n <= 0 {
        Seq::empty()
    } else {
        let m = neurons[n - 1];
        targeted_synapses(neurons, synapses, inputs, n - 1) + synapses.subrange(
            m.start_synapse as int,
            m.start_synapse + m.num_synapses,
        ).map_values(|s: CompiledSynapse| (s, inputs + n - 1))
    }
}

/// Lay out a compiled creature for the structural validator.
pub fn structure_columns(
    neurons: &Vec<CompiledNeuron>,
    synapses: &Vec<CompiledSynapse>,
    inputs: usize,
) -> (r: StructureColumns)
    requires
        inputs + neurons@.len() <= u32::MAX,
        forall|i: int|
            0 <= i < neurons@.len() ==> (#[trigger] neurons@[i]).start_synapse
                + neurons@[i].num_synapses <= synapses@.len(),
    ensures
        ({
            let all = targeted_synapses(
                neurons@,
                synapses@,
                inputs as int,
                neurons@.len() as int,
            );
            &&& r.from@ == all.map_values(|s: (CompiledSynapse, int)| s.0.from_index)
            &&& r.to@ == all.map_values(|s: (CompiledSynapse, int)| s.1 as u32)
            &&& r.types@ == all.map_values(|s: (CompiledSynapse, int)| s.0.synapse_type)
        }),
        r.is_constant@ == Seq::new(
            (inputs + neurons@.len()) as nat,
            |i: int|
                if i >= inputs && neurons@[i - inputs].is_constant {
                    1u8
                } else {
                    0u8
                },
        ),
        r.squash@ == Seq::new(
            (inputs + neurons@.len()) as nat,
            |i: int|
                if i >= inputs {
                    neurons@[i - inputs].squash_type
                } else {
                    0u8
                },
        ),
        r.biases@ == Seq::new(
            (inputs + neurons@.len()) as nat,
            |i: int|
                if i >= inputs {
                    neurons@[i - inputs].bias
                } else {
                    Single { bits: 0 }
                },
        ),
{
    let mut from: Vec<u32> = Vec::new();
    let mut to: Vec<u32> = Vec::new();
    let mut types: Vec<u8> = Vec::new();
    let mut is_constant: Vec<u8> = Vec::new();
    let mut squash: Vec<u8> = Vec::new();
    let mut biases: Vec<Single> = Vec::new();
    for i in 0..inputs
        invariant
            is_constant@ == Seq::new(i as nat, |k: int| 0u8),
            squash@ == Seq::new(i as nat, |k: int| 0u8),
            biases@ == Seq::new(i as nat, |k: int| Single { bits: 0 }),
    {
        is_constant.push(0);
        squash.push(0);
        biases.push(Single::zero());
        assert(is_constant@ =~= Seq::new((i + 1) as nat, |k: int| 0u8));
        assert(squash@ =~= Seq::new((i + 1) as nat, |k: int| 0u8));
        assert(biases@ =~= Seq::new((i + 1) as nat, |k: int| Single { bits: 0 }));
    }
    for i in 0..neurons.len()
        invariant
            inputs + neurons@.len() <= u32::MAX,
            forall|k: int|
                0 <= k < neurons@.len() ==> (#[trigger] neurons@[k]).start_synapse
                    + neurons@[k].num_synapses <= synapses@.len(),
            from@ == targeted_synapses(neurons@, synapses@, inputs as int, i as int).map_values(
                |s: (CompiledSynapse, int)| s.0.from_index,
            ),
            to@ == targeted_synapses(neurons@, synapses@, inputs as int, i as int).map_values(
                |s: (CompiledSynapse, int)| s.1 as u32,
            ),
            types@ == targeted_synapses(neurons@, synapses@, inputs as int, i as int).map_values(
                |s: (CompiledSynapse, int)| s.0.synapse_type,
            ),
            is_constant@.len() == inputs + i,
            squash@.len() == inputs + i,
            biases@.len() == inputs + i,
            forall|k: int|
                0 <= k < inputs + i ==> #[trigger] is_constant@[k] == if k >= inputs
                    && neurons@[k - inputs].is_constant {
                    1u8
                } else {
                    0u8
                },
            forall|k: int|
                0 <= k < inputs + i ==> #[trigger] squash@[k] == if k >= inputs {
                    neurons@[k - inputs].squash_type
                } else {
                    0u8
                },
            forall|k: int|
                0 <= k < inputs + i ==> #[trigger] biases@[k] == if k >= inputs {
                    neurons@[k - inputs].bias
                } else {
                    Single { bits: 0 }
                },
    {
        let n = neurons[i];
        is_constant.push(
            if n.is_constant {
                1
            } else {
                0
            },
        );
        squash.push(n.squash_type);
        biases.push(n.bias);
        let ghost before = targeted_synapses(neurons@, synapses@, inputs as int, i as int);
        let ghost own = synapses@.subrange(
            n.start_synapse as int,
            n.start_synapse + n.num_synapses,
        ).map_values(|s: CompiledSynapse| (s, inputs as int + i as int));
        proof {
            assert(before + own.take(0) =~= before);
        }
        for k in 0..n.num_synapses
            invariant
                n == neurons@[i as int],
                i < neurons@.len(),
                inputs + neurons@.len() <= u32::MAX,
                n.start_synapse + n.num_synapses <= synapses@.len(),
                own == synapses@.subrange(
                    n.start_synapse as int,
                    n.start_synapse + n.num_synapses,
                ).map_values(|s: CompiledSynapse| (s, inputs as int + i as int)),
                from@ == (before + own.take(k as int)).map_values(
                    |s: (CompiledSynapse, int)| s.0.from_index,
                ),
                to@ == (before + own.take(k as int)).map_values(
                    |s: (CompiledSynapse, int)| s.1 as u32,
                ),
                types@ == (before + own.take(k as int)).map_values(
                    |s: (CompiledSynapse, int)| s.0.synapse_type,
                ),
        {
            assert(synapses.len() == synapses@.len());
            let s = synapses[n.start_synapse + k];
            from.push(s.from_index);
            to.push((inputs + i) as u32);
            types.push(s.synapse_type);
            proof {
                assert(own[k as int] == (s, inputs as int + i as int));
                let all = before + own.take(k as int + 1);
                assert(all =~= (before + own.take(k as int)).push(own[k as int]));
                assert(from@ =~= all.map_values(|s: (CompiledSynapse, int)| s.0.from_index));
                assert(to@ =~= all.map_values(|s: (CompiledSynapse, int)| s.1 as u32));
                assert(types@ =~= all.map_values(|s: (CompiledSynapse, int)| s.0.synapse_type));
            }
        }
        proof {
            assert(own.take(own.len() as int) =~= own);
        }
    }
    let r = StructureColumns { from, to, types, is_constant, squash, biases };
    proof {
        assert(r.is_constant@ =~= Seq::new(
            (inputs + neurons@.len()) as nat,
            |i: int|
                if i >= inputs && neurons@[i - inputs].is_constant {
                    1u8
                } else {
                    0u8
                },
        ));
        assert(r.squash@ =~= Seq::new(
            (inputs + neurons@.len()) as nat,
            |i: int|
                if i >= inputs {
                    neurons@[i - inputs].squash_type
                } else {
                    0u8
                },
        ));
        assert(r.biases@ =~= Seq::new(
            (inputs + neurons@.len()) as nat,
            |i: int|
                if i >= inputs {
                    neurons@[i - inputs].bias
                } else {
                    Single { bits: 0 }
                },
        ));
    }
    r
}

/// What the structural validator's answer means: a code and an index, the code
/// `valid` when nothing is wrong.
pub fn structure_verdict(answer: &Vec<i32>, valid: i32) -> (r: Result<(), GraftError>)
    ensures
        r is Ok <==> answer@.len() == 2 && answer@[0] == valid,
        r matches Err(e) ==> e@ == (if answer@.len() == 2 {
            GraftFault::Integrity { code: answer@[0], index: answer@[1] }
        } else {
            GraftFault::Integrity { code: -1i32, index: 0 }
        }),
{
    if answer.len() == 2 {
        if answer[0] == valid {
            Ok(())
        } else {
            Err(GraftError::Integrity { code: answer[0], index: answer[1] })
        }
    } else {
        Err(GraftError::Integrity { code: -1, index: 0 })
    }
}

// ---------------------------------------------------------------------------
// Where a plan joins, and what it refuses.
// ---------------------------------------------------------------------------

/// New constants go behind the constants that the creature starts with and in
/// front of its first other neuron.
pub proof fn constants_stay_together(neurons: Seq<NeuronModel>, from: int, n: int)
    requires
        0 <= from <= n <= neurons.len(),
    ensures
        from <= constants_end(neurons, from, n) <= n,
        forall|i: int|
            from <= i < constants_end(neurons, from, n) ==> (#[trigger] neurons[i]).kind
                == "constant"@,
        constants_end(neurons, from, n) < n ==> neurons[constants_end(neurons, from, n)].kind
            != "constant"@,
    decreases n - from,
{
    if from < n && neurons[from].kind == "constant"@ {
        constants_stay_together(neurons, from + 1, n);
    }
}

proof fn distinct_terms_have_no_fault(terms: Seq<Term>, n: int, uuid: Seq<char>, input: usize)
    requires
        0 <= n <= terms.len(),
        forall|i: int| 0 <= i < n ==> (#[trigger] terms[i]).feature < input,
        forall|i: int, j: int|
            0 <= i < j < n ==> (#[trigger] terms[i]).feature != (#[trigger] terms[j]).feature,
    ensures
        term_fault(terms, n, uuid, input) is None,
    decreases n,
{
    if n > 0 {
        distinct_terms_have_no_fault(terms, n - 1, uuid, input);
    }
}

/// A condition is described exactly when each of its features is one of the
/// creature's inputs and none occurs twice.
pub proof fn faulty_terms_are_refused(terms: Seq<Term>, uuid: Seq<char>, input: usize)
    ensures
        term_fault(terms, terms.len() as int, uuid, input) is None <==> {
            &&& forall|i: int| 0 <= i < terms.len() ==> (#[trigger] terms[i]).feature < input
            &&& forall|i: int, j: int|
                0 <= i < j < terms.len() ==> (#[trigger] terms[i]).feature != (
                #[trigger] terms[j]).feature
        },
{
    if term_fault(terms, terms.len() as int, uuid, input) is None {
        no_term_fault_means_distinct(terms, terms.len() as int, uuid, input);
    } else if (forall|i: int| 0 <= i < terms.len() ==> (#[trigger] terms[i]).feature < input) && (
    forall|i: int, j: int|
        0 <= i < j < terms.len() ==> (#[trigger] terms[i]).feature != (
        #[trigger] terms[j]).feature) {
        distinct_terms_have_no_fault(terms, terms.len() as int, uuid, input);
    }
}

/// The fault of a condition is that of its first bad term: one whose feature is
/// beyond the inputs, or one whose feature an earlier term has.
pub proof fn the_first_bad_term_is_told(terms: Seq<Term>, n: int, uuid: Seq<char>, input: usize)
    requires
        0 <= n <= terms.len(),
        term_fault(terms, n, uuid, input) is Some,
    ensures
        exists|k: int|
            #![trigger terms[k]]
            {
                &&& 0 <= k < n
                &&& forall|i: int| 0 <= i < k ==> (#[trigger] terms[i]).feature < input
                &&& forall|i: int, j: int|
                    0 <= i < j < k ==> (#[trigger] terms[i]).feature != (
                    #[trigger] terms[j]).feature
                &&& match term_fault(terms, n, uuid, input)->0 {
                    GraftFault::FeatureOutOfRange { feature, input: width } => {
                        &&& feature == terms[k].feature
                        &&& width == input
                        &&& feature >= width
                    },
                    GraftFault::DuplicateSynapse(pair) => {
                        &&& pair == input_uuid(terms[k].feature as nat) + " → "@ + uuid
                        &&& terms[k].feature < input
                        &&& exists|i: int|
                            0 <= i < k && (#[trigger] terms[i]).feature == terms[k].feature
                    },
                    _ => false,
                }
            },
    decreases n,
{
    if term_fault(terms, n - 1, uuid, input) is Some {
        the_first_bad_term_is_told(terms, n - 1, uuid, input);
    } else {
        no_term_fault_means_distinct(terms, n - 1, uuid, input);
        assert(terms[n - 1] == terms[n - 1]);
    }
}

/// Of names that are wanted, the first that is carried already is told, and none
/// when none is.
pub proof fn the_first_taken_name_is_told(existing: Seq<Seq<char>>, names: Seq<Seq<char>>)
    ensures
        match first_taken(existing, names) {
            Some(name) => exists|k: int|
                {
                    &&& 0 <= k < names.len()
                    &&& #[trigger] names[k] == name
                    &&& existing.contains(name)
                    &&& forall|j: int| 0 <= j < k ==> !existing.contains(#[trigger] names[j])
                },
            None => forall|k: int|
                0 <= k < names.len() ==> !existing.contains(#[trigger] names[k]),
        },
    decreases names.len(),
{
    if names.len() > 0 {
        if existing.contains(names[0]) {
            assert(names[0] == names[0]);
        } else {
            let rest = names.drop_first();
            the_first_taken_name_is_told(existing, rest);
            match first_taken(existing, rest) {
                Some(name) => {
                    let k = choose|k: int|
                        {
                            &&& 0 <= k < rest.len()
                            &&& #[trigger] rest[k] == name
                            &&& existing.contains(name)
                            &&& forall|j: int| 0 <= j < k ==> !existing.contains(#[trigger] rest[j])
                        };
                    assert(names[k + 1] == name);
                    assert forall|j: int| 0 <= j < k + 1 implies !existing.contains(
                        #[trigger] names[j],
                    ) by {
                        if j > 0 {
                            assert(rest[j - 1] == names[j]);
                        }
                    }
                },
                None => {
                    assert forall|j: int| 0 <= j < names.len() implies !existing.contains(
                        #[trigger] names[j],
                    ) by {
                        if j > 0 {
                            assert(rest[j - 1] == names[j]);
                        }
                    }
                },
            }
        }
    }
}

/// The constants that patches share are neurons of bias 1 that the creature has
/// already, in the order in which it lists them; only what is missing to three is
/// added, under names that no neuron carries.
pub proof fn ones_are_reused_before_any_is_added(neurons: Seq<NeuronModel>)
    ensures
        ({
            let ones = neurons.filter(
                |n: NeuronModel|
                    n.kind == "constant"@ && n.bias.bits == crate::floats::DOUBLE_ONE
                        && n.squash is None,
            );
            let k: int = if ones.len() < 3 {
                ones.len() as int
            } else {
                3
            };
            &&& shared_ones(neurons).len() == 3
            &&& new_ones(neurons).len() == 3 - k
            &&& forall|i: int| 0 <= i < k ==> #[trigger] shared_ones(neurons)[i] == ones[i].uuid
            &&& forall|i: int|
                k <= i < 3 ==> #[trigger] shared_ones(neurons)[i] == new_ones(neurons)[i - k]
                    && !creature::uuids(neurons).contains(shared_ones(neurons)[i])
        }),
{
    let wanted = |n: NeuronModel|
        n.kind == "constant"@ && n.bias.bits == crate::floats::DOUBLE_ONE && n.squash is None;
    assert(wanted =~= (|n: NeuronModel| is_one(n)));
    let existing = creature::uuids(neurons);
    three_names_are_free(existing);
    free_names_are_free(existing, existing.len() + 3);
    let free = free_names(existing, existing.len() + 3);
    let ones = neurons.filter(wanted);
    assert(reusable(neurons).len() == ones.len());
    let chosen = new_ones(neurons);
    let k = first_three(reusable(neurons)).len() as int;
    assert(chosen == free.take(3 - k));
    assert forall|i: int| k <= i < 3 implies #[trigger] shared_ones(neurons)[i] == chosen[i - k]
        && !existing.contains(shared_ones(neurons)[i]) by {
        assert(chosen[i - k] == free[i - k]);
    }
}

/// The names of new constants are the first on offer that nobody carries: a free
/// name is passed over only once enough earlier ones were taken.
pub proof fn the_first_free_names_are_chosen(existing: Seq<Seq<char>>, wanted: nat, k: nat)
    requires
        wanted <= 3,
        k < existing.len() + 3,
        !existing.contains(one_name(k)),
        !chosen_names(existing, wanted).contains(one_name(k)),
    ensures
        chosen_names(existing, wanted).len() == wanted,
        forall|i: int|
            0 <= i < wanted ==> exists|j: nat|
                j < k && #[trigger] chosen_names(existing, wanted)[i] == #[trigger] one_name(j),
{
    let n = existing.len() + 3;
    let free = free_names(existing, n);
    three_names_are_free(existing);
    free_names_grow(existing, k + 1, n);
    free_names_grow(existing, k, n);
    free_names_are_free(existing, k);
    let p = free_names(existing, k).len() as int;
    assert(free_names(existing, k + 1) == free_names(existing, k).push(one_name(k)));
    assert(free_names(existing, k + 1)[p] == one_name(k));
    assert(free[p] == free.take(p + 1)[p]);
    if p < wanted {
        assert(chosen_names(existing, wanted)[p] == one_name(k));
    }
    assert forall|i: int| 0 <= i < wanted implies exists|j: nat|
        j < k && #[trigger] chosen_names(existing, wanted)[i] == #[trigger] one_name(j) by {
        assert(chosen_names(existing, wanted)[i] == free[i]);
        assert(free.take(p)[i] == free_names(existing, k)[i]);
        assert(free[i] == free_names(existing, k)[i]);
    }
}

/// Every condition of the tree uses inputs of the creature, none of them twice.
pub open spec fn fits(t: Tree, input: usize) -> bool
    decreases t,
{
    match t {
        Tree::Leaf { .. } => true,
        Tree::Split { rule, left, right } => {
            &&& forall|i: int|
                0 <= i < rule.terms.len() ==> (#[trigger] rule.terms[i]).feature < input
            &&& forall|i: int, j: int|
                0 <= i < j < rule.terms.len() ==> (#[trigger] rule.terms[i]).feature != (
                #[trigger] rule.terms[j]).feature
            &&& fits(*left, input)
            &&& fits(*right, input)
        },
    }
}

/// A tree is described only if its conditions fit the creature; and it is
/// described if they do and no neuron carries a name that the description needs.
pub proof fn fitting_trees_are_described(t: Tree, right: bool, s: Setting, next: nat)
    ensures
        described(t, right, s, next) is Ok ==> fits(t, s.input),
        fits(t, s.input) && (forall|k: nat|
            !s.existing.contains(#[trigger] generated(s.prefix, "if"@, k))) ==> described(
            t,
            right,
            s,
            next,
        ) is Ok,
    decreases t,
{
    match t {
        Tree::Leaf { .. } => {},
        Tree::Split { rule, left, right: high } => {
            fitting_trees_are_described(*left, false, s, next);
            if described(*left, false, s, next) is Ok {
                let l = described(*left, false, s, next)->Ok_0;
                fitting_trees_are_described(*high, true, s, l.next);
                if described(*high, true, s, l.next) is Ok {
                    let h = described(*high, true, s, l.next)->Ok_0;
                    let uuid = generated(s.prefix, "if"@, h.next);
                    faulty_terms_are_refused(rule.terms, uuid, s.input);
                }
            }
        },
    }
}

/// A plan joins the root, the last of its nodes, to the output that the patch
/// names and to nothing else: added to the sum of a point-wise output, and to both
/// branches of an `IF` output, the negative one through a relay. No name of the
/// creature is used again, and nothing of it is changed.
pub proof fn plans_reach_their_output(
    c: CreatureModel,
    output: usize,
    root: Tree,
    id: Seq<char>,
    squash: Result<SquashClass, Seq<char>>,
    constants: GraftConstants,
)
    requires
        planned_with(c, output, root, id, squash, constants) is Ok,
    ensures
        ({
            let plan = planned_with(c, output, root, id, squash, constants)->Ok_0;
            let target = c.neurons[c.neurons.len() - c.output + output];
            &&& root.finite()
            &&& root is Split
            &&& output < c.output <= c.neurons.len()
            &&& target.kind == "output"@
            &&& fits(root, c.input)
            &&& plan.nodes.len() == root.splits()
            &&& plan.nodes.len() > 0
            &&& plan.root == plan.nodes.last().uuid
            &&& forall|i: int|
                0 <= i < plan.nodes.len() ==> !creature::uuids(c.neurons).contains(
                    (#[trigger] plan.nodes[i]).uuid,
                )
            &&& forall|i: int|
                0 <= i < plan.nodes.len() - 1 ==> (#[trigger] plan.nodes[i]).outward is None
            &&& plan.nodes.last().outward matches Some(edge) && edge.target == target.uuid
            &&& match squash {
                Ok(SquashClass::Pointwise) => {
                    &&& plan.nodes.last().outward->0.role == Role::Untyped
                    &&& plan.relay is None
                },
                Ok(SquashClass::If) => {
                    &&& plan.nodes.last().outward->0.role == Role::Positive
                    &&& plan.relay matches Some(relay) && {
                        &&& relay.source == plan.root
                        &&& relay.target == target.uuid
                        &&& !creature::uuids(c.neurons).contains(relay.uuid)
                    }
                },
                _ => false,
            }
            &&& plan.base.synapses == c.synapses
            &&& plan.base.input == c.input
            &&& plan.base.output == c.output
            &&& plan.base.forward_only == c.forward_only
            &&& plan.base.semantic_version == c.semantic_version
        }),
{
    let s = match constants {
        GraftConstants::Shared => graft_setting(c, id),
        GraftConstants::PerPatch => own_setting(c, id),
    };
    described_nodes_are_numbered(root, true, s, 0);
    fitting_trees_are_described(root, true, s, 0);
}

/// What is refused, and why: a tree with a number that is not finite, else one
/// without a split, else an output that the creature lacks, else a creature whose
/// outputs are not its last neurons.
pub proof fn plans_are_refused_in_order(
    c: CreatureModel,
    output: usize,
    root: Tree,
    id: Seq<char>,
    squash: Result<SquashClass, Seq<char>>,
    constants: GraftConstants,
)
    ensures
        ({
            let plan = planned_with(c, output, root, id, squash, constants);
            &&& !root.finite() ==> plan == Err::<PlanModel, GraftFault>(GraftFault::NonFinite)
            &&& root.finite() && root.splits() == 0 ==> plan == Err::<PlanModel, GraftFault>(
                GraftFault::RootIsLeaf,
            )
            &&& root.finite() && root.splits() > 0 && output >= c.output ==> plan == Err::<
                PlanModel,
                GraftFault,
            >(GraftFault::OutputOutOfRange { output, outputs: c.output })
            &&& root.finite() && root.splits() > 0 && output < c.output && c.output
                > c.neurons.len() ==> plan == Err::<PlanModel, GraftFault>(
                GraftFault::OutputsNotLast,
            )
            &&& root.finite() && root.splits() > 0 && output < c.output && (exists|i: int|
                0 <= i < c.neurons.len() && c.neurons.len() - c.output <= i && (
                #[trigger] c.neurons[i]).kind != "output"@) ==> plan == Err::<
                PlanModel,
                GraftFault,
            >(GraftFault::OutputsNotLast)
            &&& squash matches Ok(SquashClass::Aggregate) ==> plan is Err
            &&& squash is Err ==> plan is Err
        }),
{
}

/// Synapses of the first `n` neurons.
pub open spec fn synapses_before(neurons: Seq<CompiledNeuron>, n: int) -> int
    decreases n,
{
    if n <= 0 {
        0
    } else {
        synapses_before(neurons, n - 1) + neurons[n - 1].num_synapses
    }
}

/// The columns list the synapses neuron by neuron: the `j`-th one of neuron `i`
/// stands behind all those of earlier neurons and `j` of its own, and its target is
/// that neuron, counted behind the inputs.
pub proof fn synapses_are_laid_out_by_neuron(
    neurons: Seq<CompiledNeuron>,
    synapses: Seq<CompiledSynapse>,
    inputs: int,
    n: int,
)
    requires
        0 <= n <= neurons.len(),
        forall|i: int|
            0 <= i < neurons.len() ==> (#[trigger] neurons[i]).start_synapse
                + neurons[i].num_synapses <= synapses.len(),
    ensures
        ({
            let all = targeted_synapses(neurons, synapses, inputs, n);
            &&& all.len() == synapses_before(neurons, n)
            &&& forall|i: int, j: int|
                0 <= i < n && 0 <= j < neurons[i].num_synapses ==> {
                    let at = #[trigger] synapse_place(neurons, i, j);
                    &&& 0 <= at < all.len()
                    &&& all[at].0 == synapses[neurons[i].start_synapse + j]
                    &&& all[at].1 == inputs + i
                }
        }),
    decreases n,
{
    if n > 0 {
        synapses_are_laid_out_by_neuron(neurons, synapses, inputs, n - 1);
        let before = targeted_synapses(neurons, synapses, inputs, n - 1);
        let all = targeted_synapses(neurons, synapses, inputs, n);
        let m = neurons[n - 1];
        let own = synapses.subrange(
            m.start_synapse as int,
            m.start_synapse + m.num_synapses,
        ).map_values(|s: CompiledSynapse| (s, inputs + n - 1));
        assert(all == before + own);
        assert forall|i: int, j: int| 0 <= i < n && 0 <= j < neurons[i].num_synapses implies {
            let at = #[trigger] synapse_place(neurons, i, j);
            &&& 0 <= at < all.len()
            &&& all[at].0 == synapses[neurons[i].start_synapse + j]
            &&& all[at].1 == inputs + i
        } by {
            let at = synapse_place(neurons, i, j);
            if i < n - 1 {
                assert(all[at] == before[at]);
            } else {
                assert(at == before.len() + j);
                assert(all[at] == own[j]);
            }
        }
    }
}

/// Where the `j`-th synapse of neuron `i` stands.
pub open spec fn synapse_place(neurons: Seq<CompiledNeuron>, i: int, j: int) -> int {
    synapses_before(neurons, i) + j
}

/// The names on offer go through three letters in turn, the first three without a
/// number and every further three with the next one.
pub proof fn offered_names_go_round(k: nat)
    ensures
        k == 0 ==> one_name(0) == "forest-one-a"@,
        k == 0 ==> one_name(1) == "forest-one-b"@,
        k == 0 ==> one_name(2) == "forest-one-c"@,
        k > 0 ==> one_name(3 * k) == "forest-one-a"@ + text::decimal(k + 1),
        k > 0 ==> one_name(3 * k + 1) == "forest-one-b"@ + text::decimal(k + 1),
        k > 0 ==> one_name(3 * k + 2) == "forest-one-c"@ + text::decimal(k + 1),
{
    reveal_strlit("forest-one-");
    reveal_strlit("forest-one-a");
    reveal_strlit("forest-one-b");
    reveal_strlit("forest-one-c");
    assert("forest-one-"@.push('a') =~= "forest-one-a"@);
    assert("forest-one-"@.push('b') =~= "forest-one-b"@);
    assert("forest-one-"@.push('c') =~= "forest-one-c"@);
    assert((3 * k) / 3 == k && (3 * k + 1) / 3 == k && (3 * k + 2) / 3 == k);
    assert((3 * k) % 3 == 0 && (3 * k + 1) % 3 == 1 && (3 * k + 2) % 3 == 2);
}

} // verus!
