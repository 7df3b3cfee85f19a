//! Immutable incumbent creature.
//!
//! The supplied creature is read once, checksummed, checked and copied byte for
//! byte into the workspace of a run. Nothing ever writes to the source.

use vstd::prelude::*;
use vstd::string::*;

use crate::creature;
use crate::creature::{Creature, CreatureModel};
use crate::digest;
use crate::digest::sha256_hex;
use crate::graft;
use crate::graft::check_no_duplicate_synapses;
use crate::learnings::model::TOOL_VERSION;
use crate::text;
use crate::text::first_chars;

verus! {

/// Errors establishing the incumbent.
#[derive(Debug)]
pub enum IncumbentError {
    /// Filesystem failure: path and reason.
    Io(String, String),
    /// The creature was rejected.
    Creature(String),
    /// Writing and reading back did not reproduce the creature.
    RoundTrip(String),
    /// Output neurons are not the last `output` entries of `neurons`.
    OutputsNotLast,
    /// Checksum of the workspace copy differs from the source.
    CopyDrift {
        /// Checksum of the source.
        expected: String,
        /// Checksum of the copy.
        observed: String,
    },
}

/// What an [`IncumbentError`] says.
pub enum IncumbentFault {
    Io(Seq<char>, Seq<char>),
    Creature(Seq<char>),
    RoundTrip(Seq<char>),
    OutputsNotLast,
    CopyDrift { expected: Seq<char>, observed: Seq<char> },
}

impl View for IncumbentError {
    type V = IncumbentFault;

    open spec fn view(&self) -> IncumbentFault {
        match *self {
            IncumbentError::Io(path, e) => IncumbentFault::Io(path@, e@),
            IncumbentError::Creature(m) => IncumbentFault::Creature(m@),
            IncumbentError::RoundTrip(m) => IncumbentFault::RoundTrip(m@),
            IncumbentError::OutputsNotLast => IncumbentFault::OutputsNotLast,
            IncumbentError::CopyDrift { expected, observed } => IncumbentFault::CopyDrift {
                expected: expected@,
                observed: observed@,
            },
        }
    }
}

impl IncumbentFault {
    /// The message.
    pub open spec fn text(self) -> Seq<char> {
        match self {
            IncumbentFault::Io(path, e) => path + ": "@ + e,
            IncumbentFault::Creature(m) => "creature rejected by NEAT-AI-core: "@ + m,
            IncumbentFault::RoundTrip(m) => "creature does not round-trip through NEAT-AI-core: "@
                + m,
            IncumbentFault::OutputsNotLast =>
                "creature output neurons are not the trailing entries of `neurons`; refusing to graft"@,
            IncumbentFault::CopyDrift { expected, observed } => "workspace copy checksum "@
                + observed + " != source "@ + expected,
        }
    }
}

impl IncumbentError {
    /// The message.
    pub fn message(&self) -> (r: String)
        ensures
            r@ == self@.text(),
    {
        match self {
            IncumbentError::Io(path, e) => {
                let mut out = path.clone();
                out.append(": ");
                out.append(e.as_str());
                out
            },
            IncumbentError::Creature(m) => {
                let mut out = "creature rejected by NEAT-AI-core: ".to_owned();
                out.append(m.as_str());
                out
            },
            IncumbentError::RoundTrip(m) => {
                let mut out = "creature does not round-trip through NEAT-AI-core: ".to_owned();
                out.append(m.as_str());
                out
            },
            IncumbentError::OutputsNotLast =>
                "creature output neurons are not the trailing entries of `neurons`; refusing to graft".to_owned(),
            IncumbentError::CopyDrift { expected, observed } => {
                let mut out = "workspace copy checksum ".to_owned();
                out.append(observed.as_str());
                out.append(" != source ");
                out.append(expected.as_str());
                out
            },
        }
    }
}

/// Which numbers of two creatures lie within the relative tolerance of each
/// other, by position.
#[derive(Debug)]
pub struct Closeness {
    /// Per neuron: the biases are close.
    pub biases: Vec<bool>,
    /// Per synapse: the weights are close.
    pub weights: Vec<bool>,
}

/// Neuron `i` differs.
pub open spec fn neuron_differs(a: CreatureModel, b: CreatureModel, close: Closeness, i: int) -> bool {
    a.neurons[i].uuid != b.neurons[i].uuid || a.neurons[i].kind != b.neurons[i].kind
        || a.neurons[i].squash != b.neurons[i].squash || !close.biases@[i]
}

/// Synapse `i` differs.
pub open spec fn synapse_differs(a: CreatureModel, b: CreatureModel, close: Closeness, i: int) -> bool {
    a.synapses[i].from_uuid != b.synapses[i].from_uuid || a.synapses[i].to_uuid
        != b.synapses[i].to_uuid || a.synapses[i].role != b.synapses[i].role || !close.weights@[i]
}

/// First neuron from `from` on that differs; their number when none does.
pub open spec fn first_odd_neuron(
    a: CreatureModel,
    b: CreatureModel,
    close: Closeness,
    from: int,
) -> int
    decreases a.neurons.len() - from,
{
    if from < 0 || from >= a.neurons.len() {
        a.neurons.len() as int
    } else if neuron_differs(a, b, close, from) {
        from
    } else {
        first_odd_neuron(a, b, close, from + 1)
    }
}

/// First synapse from `from` on that differs; their number when none does.
pub open spec fn first_odd_synapse(
    a: CreatureModel,
    b: CreatureModel,
    close: Closeness,
    from: int,
) -> int
    decreases a.synapses.len() - from,
{
    if from < 0 || from >= a.synapses.len() {
        a.synapses.len() as int
    } else if synapse_differs(a, b, close, from) {
        from
    } else {
        first_odd_synapse(a, b, close, from + 1)
    }
}

/// How two creatures differ, if they do: header, counts, neurons, synapses, in
/// that order.
pub open spec fn difference(a: CreatureModel, b: CreatureModel, close: Closeness) -> Option<
    Seq<char>,
> {
    let i = first_odd_neuron(a, b, close, 0);
    let j = first_odd_synapse(a, b, close, 0);
    if a.input != b.input || a.output != b.output || a.forward_only != b.forward_only
        || a.semantic_version != b.semantic_version {
        Some("header differs"@)
    } else if a.neurons.len() != b.neurons.len() || a.synapses.len() != b.synapses.len() {
        Some("neuron/synapse counts differ"@)
    } else if i < a.neurons.len() {
        Some("neuron `"@ + a.neurons[i].uuid + "` differs"@)
    } else if j < a.synapses.len() {
        Some(
            "synapse `"@ + a.synapses[j].from_uuid + "`→`"@ + a.synapses[j].to_uuid
                + "` differs"@,
        )
    } else {
        None
    }
}

/// The closeness flags cover two creatures of the same size.
pub open spec fn covers(close: Closeness, a: CreatureModel, b: CreatureModel) -> bool {
    a.neurons.len() == b.neurons.len() && a.synapses.len() == b.synapses.len() ==> {
        &&& close.biases@.len() == a.neurons.len()
        &&& close.weights@.len() == a.synapses.len()
    }
}

fn same_maybe(a: &Option<String>, b: &Option<String>) -> (r: bool)
    ensures
        r == (creature::maybe_text(*a) == creature::maybe_text(*b)),
{
    match (a, b) {
        (None, None) => true,
        (Some(x), Some(y)) => *x == *y,
        _ => false,
    }
}

/// Structural equality, with the given closeness of weights and biases.
pub fn creatures_equivalent(a: &Creature, b: &Creature, close: &Closeness) -> (r: Result<
    (),
    String,
>)
    requires
        covers(*close, a@, b@),
    ensures
        match r {
            Ok(()) => difference(a@, b@, *close) is None,
            Err(m) => difference(a@, b@, *close) == Some(m@),
        },
{
    if a.input != b.input || a.output != b.output || a.forward_only != b.forward_only
        || !same_maybe(&a.semantic_version, &b.semantic_version) {
        return Err("header differs".to_owned());
    }
    if a.neurons.len() != b.neurons.len() || a.synapses.len() != b.synapses.len() {
        return Err("neuron/synapse counts differ".to_owned());
    }
    let ghost x = a@;
    let ghost y = b@;
    for i in 0..a.neurons.len()
        invariant
            x == a@,
            y == b@,
            a.neurons@.len() == b.neurons@.len(),
            close.biases@.len() == a.neurons@.len(),
            first_odd_neuron(x, y, *close, 0) == first_odd_neuron(x, y, *close, i as int),
            x.input == y.input && x.output == y.output && x.forward_only == y.forward_only
                && x.semantic_version == y.semantic_version,
            x.neurons.len() == y.neurons.len() && x.synapses.len() == y.synapses.len(),
    {
        assert(x.neurons[i as int] == a.neurons@[i as int]@);
        assert(y.neurons[i as int] == b.neurons@[i as int]@);
        if a.neurons[i].uuid != b.neurons[i].uuid || a.neurons[i].kind != b.neurons[i].kind
            || !same_maybe(&a.neurons[i].squash, &b.neurons[i].squash) || !close.biases[i] {
            let mut m = "neuron `".to_owned();
            m.append(a.neurons[i].uuid.as_str());
            m.append("` differs");
            return Err(m);
        }
    }
    for i in 0..a.synapses.len()
        invariant
            x == a@,
            y == b@,
            a.synapses@.len() == b.synapses@.len(),
            close.weights@.len() == a.synapses@.len(),
            first_odd_neuron(x, y, *close, 0) == x.neurons.len(),
            first_odd_synapse(x, y, *close, 0) == first_odd_synapse(x, y, *close, i as int),
            x.input == y.input && x.output == y.output && x.forward_only == y.forward_only
                && x.semantic_version == y.semantic_version,
            x.neurons.len() == y.neurons.len() && x.synapses.len() == y.synapses.len(),
    {
        assert(x.synapses[i as int] == a.synapses@[i as int]@);
        assert(y.synapses[i as int] == b.synapses@[i as int]@);
        if a.synapses[i].from_uuid != b.synapses[i].from_uuid || a.synapses[i].to_uuid
            != b.synapses[i].to_uuid || !same_maybe(&a.synapses[i].role, &b.synapses[i].role)
            || !close.weights[i] {
            let mut m = "synapse `".to_owned();
            m.append(a.synapses[i].from_uuid.as_str());
            m.append("`→`");
            m.append(a.synapses[i].to_uuid.as_str());
            m.append("` differs");
            return Err(m);
        }
    }
    Ok(())
}

/// What came of writing a creature and reading it back.
#[derive(Debug)]
pub enum RoundTrip {
    /// It could not be written or read.
    Failed(String),
    /// It came back as this creature, with these numbers close.
    Read(Creature, Closeness),
}

/// The first synapse that repeats an earlier one's pair.
pub open spec fn first_repeat(c: CreatureModel, j: int) -> bool {
    0 <= j < c.synapses.len() && c.repeats_pair(j) && forall|k: int|
        0 <= k < j ==> !c.repeats_pair(k)
}

/// What is wrong with a creature, if anything: it must compile, repeat no
/// synapse, survive a round trip and end in its outputs, checked in that order.
pub open spec fn validity(
    c: CreatureModel,
    refusal: Option<Seq<char>>,
    trip: RoundTrip,
    fault: Option<IncumbentFault>,
) -> bool {
    if refusal is Some {
        fault == Some(IncumbentFault::Creature(refusal->0))
    } else if exists|j: int| first_repeat(c, j) {
        exists|j: int|
            #[trigger] first_repeat(c, j) && fault == Some(
                IncumbentFault::Creature(
                    graft::GraftFault::DuplicateSynapse(
                        c.synapses[j].from_uuid + " → "@ + c.synapses[j].to_uuid,
                    ).message(),
                ),
            )
    } else {
        match trip {
            RoundTrip::Failed(m) => fault == Some(IncumbentFault::RoundTrip(m@)),
            RoundTrip::Read(again, close) => match difference(c, again@, close) {
                Some(m) => fault == Some(IncumbentFault::RoundTrip(m)),
                None => if c.outputs_are_last() {
                    fault is None
                } else {
                    fault == Some(IncumbentFault::OutputsNotLast)
                },
            },
        }
    }
}

/// Check a creature: compiles, repeats no synapse, round-trips, outputs are
/// trailing. What compiling and the round trip gave is given.
pub fn validate_creature(creature: &Creature, refusal: &Option<String>, trip: &RoundTrip) -> (r:
    Result<(), IncumbentError>)
    requires
        *trip matches RoundTrip::Read(again, close) ==> covers(close, creature@, again@),
    ensures
        validity(
            creature@,
            creature::maybe_text(*refusal),
            *trip,
            match r {
                Ok(()) => None,
                Err(e) => Some(e@),
            },
        ),
{
    if let Some(e) = refusal {
        return Err(IncumbentError::Creature(e.clone()));
    }
    if let Err(e) = check_no_duplicate_synapses(creature) {
        proof {
            let k = choose|k: int|
                0 <= k < creature@.synapses.len() && #[trigger] creature@.repeats_pair(k) && (
                forall|j: int| 0 <= j < k ==> !creature@.repeats_pair(j)) && e@
                    == graft::GraftFault::DuplicateSynapse(
                    creature@.synapses[k].from_uuid + " → "@ + creature@.synapses[k].to_uuid,
                );
            assert(first_repeat(creature@, k));
        }
        return Err(IncumbentError::Creature(e.message()));
    }
    assert(!exists|j: int| first_repeat(creature@, j));
    match trip {
        RoundTrip::Failed(m) => Err(IncumbentError::RoundTrip(m.clone())),
        RoundTrip::Read(again, close) => {
            if let Err(m) = creatures_equivalent(creature, again, close) {
                return Err(IncumbentError::RoundTrip(m));
            }
            if creature.has_only_trailing_outputs() {
                Ok(())
            } else {
                Err(IncumbentError::OutputsNotLast)
            }
        },
    }
}

/// The immutable starting creature.
#[derive(Debug)]
pub struct Incumbent {
    /// Where it was read from, or what it is called.
    pub source_path: String,
    /// Exact source text.
    pub text: String,
    /// SHA-256 of `text`.
    pub checksum: String,
    /// Parsed creature.
    pub creature: Creature,
}

/// Metadata written beside the workspace copy.
#[derive(Debug, PartialEq)]
pub struct IncumbentMeta {
    /// SHA-256 of the source bytes.
    pub checksum: String,
    /// Source path as supplied.
    pub source_path: String,
    /// Input width.
    pub input: usize,
    /// Output width.
    pub output: usize,
    /// Listed neurons.
    pub neurons: usize,
    /// Synapses.
    pub synapses: usize,
    /// Feed-forward only.
    pub forward_only: bool,
    /// Unix seconds when the workspace copy was made.
    pub created_at_unix: u64,
    /// Tool version that made the copy.
    pub forests_version: String,
}

/// Checksum of a text.
pub open spec fn text_checksum(text: Seq<char>) -> Seq<char> {
    digest::digest_hex(vstd::utf8::encode_utf8(text))
}

impl Incumbent {
    /// The checksum is that of the text.
    pub open spec fn well_formed(&self) -> bool {
        self.checksum@ == text_checksum(self.text@) && self.checksum@.len() == 64
    }

    /// An incumbent from its text and the creature that the text holds.
    pub fn new(source_path: &str, text: String, creature: Creature) -> (r: Incumbent)
        ensures
            r.well_formed(),
            r.source_path@ == source_path@,
            r.text == text,
            r.creature == creature,
    {
        let checksum = sha256_hex(text.as_str().as_bytes());
        Incumbent { source_path: source_path.to_owned(), text, checksum, creature }
    }

    /// Short checksum prefix for file names and logs.
    pub fn short_checksum(&self) -> (r: String)
        requires
            self.well_formed(),
        ensures
            r@ == self.checksum@.take(12),
    {
        first_chars(self.checksum.as_str(), 12)
    }

    /// Verify the workspace copy: its checksum must be that of the source.
    pub fn check_copy(&self, copy: &[u8]) -> (r: Result<(), IncumbentError>)
        ensures
            match r {
                Ok(()) => digest::digest_hex(copy@) == self.checksum@,
                Err(e) => digest::digest_hex(copy@) != self.checksum@ && e@ == (
                IncumbentFault::CopyDrift {
                    expected: self.checksum@,
                    observed: digest::digest_hex(copy@),
                }),
            },
    {
        let observed = sha256_hex(copy);
        if observed == self.checksum {
            Ok(())
        } else {
            Err(IncumbentError::CopyDrift { expected: self.checksum.clone(), observed })
        }
    }

    /// What is written beside the workspace copy.
    pub fn meta(&self, now_unix: u64) -> (r: IncumbentMeta)
        ensures
            r.checksum@ == self.checksum@,
            r.source_path@ == self.source_path@,
            r.input == self.creature.input,
            r.output == self.creature.output,
            r.neurons == self.creature.neurons@.len(),
            r.synapses == self.creature.synapses@.len(),
            r.forward_only == self.creature.forward_only,
            r.created_at_unix == now_unix,
            r.forests_version@ == TOOL_VERSION@,
    {
        IncumbentMeta {
            checksum: self.checksum.clone(),
            source_path: self.source_path.clone(),
            input: self.creature.input,
            output: self.creature.output,
            neurons: self.creature.neurons.len(),
            synapses: self.creature.synapses.len(),
            forward_only: self.creature.forward_only,
            created_at_unix: now_unix,
            forests_version: TOOL_VERSION.to_owned(),
        }
    }
}

/// A byte-for-byte copy of the incumbent passes the copy check.
pub proof fn faithful_copies_pass(incumbent: Incumbent, copy: Seq<u8>)
    requires
        incumbent.well_formed(),
        copy == vstd::utf8::encode_utf8(incumbent.text@),
    ensures
        digest::digest_hex(copy) == incumbent.checksum@,
{
}

proof fn odd_neurons_are_found(a: CreatureModel, b: CreatureModel, close: Closeness, from: int)
    requires
        0 <= from <= a.neurons.len(),
    ensures
        from <= first_odd_neuron(a, b, close, from) <= a.neurons.len(),
        forall|i: int|
            from <= i < first_odd_neuron(a, b, close, from) ==> !#[trigger] neuron_differs(
                a,
                b,
                close,
                i,
            ),
        first_odd_neuron(a, b, close, from) < a.neurons.len() ==> neuron_differs(
            a,
            b,
            close,
            first_odd_neuron(a, b, close, from),
        ),
    decreases a.neurons.len() - from,
{
    if from < a.neurons.len() && !neuron_differs(a, b, close, from) {
        odd_neurons_are_found(a, b, close, from + 1);
    }
}

proof fn odd_synapses_are_found(a: CreatureModel, b: CreatureModel, close: Closeness, from: int)
    requires
        0 <= from <= a.synapses.len(),
    ensures
        from <= first_odd_synapse(a, b, close, from) <= a.synapses.len(),
        forall|i: int|
            from <= i < first_odd_synapse(a, b, close, from) ==> !#[trigger] synapse_differs(
                a,
                b,
                close,
                i,
            ),
        first_odd_synapse(a, b, close, from) < a.synapses.len() ==> synapse_differs(
            a,
            b,
            close,
            first_odd_synapse(a, b, close, from),
        ),
    decreases a.synapses.len() - from,
{
    if from < a.synapses.len() && !synapse_differs(a, b, close, from) {
        odd_synapses_are_found(a, b, close, from + 1);
    }
}

/// Neuron `i` of two creatures is the same, its bias nearly so.
pub open spec fn same_neuron(a: CreatureModel, b: CreatureModel, close: Closeness, i: int) -> bool {
    &&& a.neurons[i].uuid == b.neurons[i].uuid
    &&& a.neurons[i].kind == b.neurons[i].kind
    &&& a.neurons[i].squash == b.neurons[i].squash
    &&& close.biases@[i]
}

/// Synapse `i` of two creatures is the same, its weight nearly so.
pub open spec fn same_synapse(a: CreatureModel, b: CreatureModel, close: Closeness, i: int) -> bool {
    &&& a.synapses[i].from_uuid == b.synapses[i].from_uuid
    &&& a.synapses[i].to_uuid == b.synapses[i].to_uuid
    &&& a.synapses[i].role == b.synapses[i].role
    &&& close.weights@[i]
}

/// Two creatures are equivalent exactly when every part of one is that of the other,
/// place by place, weights and biases within the tolerance.
pub proof fn equivalent_creatures_agree_everywhere(
    a: CreatureModel,
    b: CreatureModel,
    close: Closeness,
)
    ensures
        difference(a, b, close) is None <==> {
            &&& a.input == b.input
            &&& a.output == b.output
            &&& a.forward_only == b.forward_only
            &&& a.semantic_version == b.semantic_version
            &&& a.neurons.len() == b.neurons.len()
            &&& a.synapses.len() == b.synapses.len()
            &&& forall|i: int|
                0 <= i < a.neurons.len() ==> #[trigger] same_neuron(a, b, close, i)
            &&& forall|i: int|
                0 <= i < a.synapses.len() ==> #[trigger] same_synapse(a, b, close, i)
        },
{
    odd_neurons_are_found(a, b, close, 0);
    odd_synapses_are_found(a, b, close, 0);
    let i = first_odd_neuron(a, b, close, 0);
    let j = first_odd_synapse(a, b, close, 0);
    assert forall|k: int| 0 <= k < a.neurons.len() implies #[trigger] same_neuron(a, b, close, k)
        == !neuron_differs(a, b, close, k) by {}
    assert forall|k: int| 0 <= k < a.synapses.len() implies #[trigger] same_synapse(a, b, close, k)
        == !synapse_differs(a, b, close, k) by {}
    if i < a.neurons.len() {
        assert(!same_neuron(a, b, close, i));
    }
    if j < a.synapses.len() {
        assert(!same_synapse(a, b, close, j));
    }
    if i >= a.neurons.len() && j >= a.synapses.len() {
        assert forall|k: int| 0 <= k < a.neurons.len() implies #[trigger] same_neuron(
            a,
            b,
            close,
            k,
        ) by {
            assert(!neuron_differs(a, b, close, k));
        }
        assert forall|k: int| 0 <= k < a.synapses.len() implies #[trigger] same_synapse(
            a,
            b,
            close,
            k,
        ) by {
            assert(!synapse_differs(a, b, close, k));
        }
    }
}

/// A creature passes only if it compiles, joins no pair twice, comes back from a
/// round trip as it was, and has its outputs, all of them, at the end.
pub proof fn valid_creatures_are_sound(
    c: CreatureModel,
    refusal: Option<Seq<char>>,
    trip: RoundTrip,
)
    requires
        validity(c, refusal, trip, None),
    ensures
        refusal is None,
        forall|i: int, j: int|
            0 <= i < j < c.synapses.len() ==> (#[trigger] c.synapses[i]).from_uuid != (
            #[trigger] c.synapses[j]).from_uuid || c.synapses[i].to_uuid != c.synapses[j].to_uuid,
        trip matches RoundTrip::Read(again, close) && difference(c, again@, close) is None,
        forall|i: int|
            0 <= i < c.neurons.len() ==> ((#[trigger] c.neurons[i]).kind == "output"@ <==> i
                >= c.neurons.len() - c.output),
{
    assert forall|i: int, j: int| 0 <= i < j < c.synapses.len() implies (
    #[trigger] c.synapses[i]).from_uuid != (#[trigger] c.synapses[j]).from_uuid
        || c.synapses[i].to_uuid != c.synapses[j].to_uuid by {
        if c.synapses[i].from_uuid == c.synapses[j].from_uuid && c.synapses[i].to_uuid
            == c.synapses[j].to_uuid {
            assert(c.repeats_pair(j));
            some_repeat_is_first(c, j);
        }
    }
}

proof fn some_repeat_is_first(c: CreatureModel, j: int)
    requires
        0 <= j < c.synapses.len(),
        c.repeats_pair(j),
    ensures
        exists|k: int| first_repeat(c, k),
    decreases j,
{
    if exists|k: int| 0 <= k < j && c.repeats_pair(k) {
        let k = choose|k: int| 0 <= k < j && c.repeats_pair(k);
        some_repeat_is_first(c, k);
    } else {
        assert(first_repeat(c, j));
    }
}

} // verus!
