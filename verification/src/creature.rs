//! The parts of a NEAT creature that the library reads and extends.

use vstd::prelude::*;
use vstd::string::*;

use crate::floats::Double;
use crate::text;

verus! {

/// A listed neuron.
#[derive(Debug, PartialEq)]
pub struct Neuron {
    /// `constant`, `hidden` or `output`.
    pub kind: String,
    /// Identity.
    pub uuid: String,
    /// Bias.
    pub bias: Double,
    /// Squash name.
    pub squash: Option<String>,
}

/// A synapse.
#[derive(Debug, PartialEq)]
pub struct Synapse {
    /// Source.
    pub from_uuid: String,
    /// Target.
    pub to_uuid: String,
    /// Weight.
    pub weight: Double,
    /// Role at an `IF` target.
    pub role: Option<String>,
}

/// A creature's structure.
#[derive(Debug, PartialEq)]
pub struct Creature {
    /// Input width.
    pub input: usize,
    /// Output width.
    pub output: usize,
    /// Listed neurons; inputs are implicit.
    pub neurons: Vec<Neuron>,
    /// Synapses.
    pub synapses: Vec<Synapse>,
    /// Format version.
    pub semantic_version: Option<String>,
    /// Feed-forward only.
    pub forward_only: bool,
}

/// What a [`Neuron`] is.
pub struct NeuronModel {
    pub kind: Seq<char>,
    pub uuid: Seq<char>,
    pub bias: Double,
    pub squash: Option<Seq<char>>,
}

/// What a [`Synapse`] is.
pub struct SynapseModel {
    pub from_uuid: Seq<char>,
    pub to_uuid: Seq<char>,
    pub weight: Double,
    pub role: Option<Seq<char>>,
}

/// What a [`Creature`] is.
pub struct CreatureModel {
    pub input: usize,
    pub output: usize,
    pub neurons: Seq<NeuronModel>,
    pub synapses: Seq<SynapseModel>,
    pub semantic_version: Option<Seq<char>>,
    pub forward_only: bool,
}

/// What an optional string holds.
pub open spec fn maybe_text(s: Option<String>) -> Option<Seq<char>> {
    match s {
        Some(t) => Some(t@),
        None => None,
    }
}

impl View for Neuron {
    type V = NeuronModel;

    open spec fn view(&self) -> NeuronModel {
        NeuronModel {
            kind: self.kind@,
            uuid: self.uuid@,
            bias: self.bias,
            squash: maybe_text(self.squash),
        }
    }
}

impl View for Synapse {
    type V = SynapseModel;

    open spec fn view(&self) -> SynapseModel {
        SynapseModel {
            from_uuid: self.from_uuid@,
            to_uuid: self.to_uuid@,
            weight: self.weight,
            role: maybe_text(self.role),
        }
    }
}

/// What the neurons are.
pub open spec fn neuron_models(v: Seq<Neuron>) -> Seq<NeuronModel> {
    v.map_values(|n: Neuron| n@)
}

/// What the synapses are.
pub open spec fn synapse_models(v: Seq<Synapse>) -> Seq<SynapseModel> {
    v.map_values(|s: Synapse| s@)
}

impl View for Creature {
    type V = CreatureModel;

    open spec fn view(&self) -> CreatureModel {
        CreatureModel {
            input: self.input,
            output: self.output,
            neurons: neuron_models(self.neurons@),
            synapses: synapse_models(self.synapses@),
            semantic_version: maybe_text(self.semantic_version),
            forward_only: self.forward_only,
        }
    }
}

/// The identities of the neurons.
pub open spec fn uuids(neurons: Seq<NeuronModel>) -> Seq<Seq<char>> {
    neurons.map_values(|n: NeuronModel| n.uuid)
}

impl Clone for Neuron {
    fn clone(&self) -> (r: Neuron)
        ensures
            r@ == self@,
    {
        Neuron {
            kind: self.kind.clone(),
            uuid: self.uuid.clone(),
            bias: self.bias,
            squash: copy_maybe(&self.squash),
        }
    }
}

impl Clone for Synapse {
    fn clone(&self) -> (r: Synapse)
        ensures
            r@ == self@,
    {
        Synapse {
            from_uuid: self.from_uuid.clone(),
            to_uuid: self.to_uuid.clone(),
            weight: self.weight,
            role: copy_maybe(&self.role),
        }
    }
}

impl Clone for Creature {
    fn clone(&self) -> (r: Creature)
        ensures
            r@ == self@,
    {
        let neurons = self.neurons.clone();
        let synapses = self.synapses.clone();
        assert(neuron_models(neurons@) =~= neuron_models(self.neurons@));
        assert(synapse_models(synapses@) =~= synapse_models(self.synapses@));
        Creature {
            input: self.input,
            output: self.output,
            neurons,
            synapses,
            semantic_version: copy_maybe(&self.semantic_version),
            forward_only: self.forward_only,
        }
    }
}

/// A copy of an optional string.
pub fn copy_maybe(s: &Option<String>) -> (r: Option<String>)
    ensures
        maybe_text(r) == maybe_text(*s),
        r == *s,
{
    match s {
        Some(t) => Some(t.clone()),
        None => None,
    }
}

impl CreatureModel {
    /// The last `output` neurons are outputs.
    pub open spec fn outputs_end_it(self) -> bool {
        &&& self.output <= self.neurons.len()
        &&& forall|i: int|
            self.neurons.len() - self.output <= i < self.neurons.len()
                ==> (#[trigger] self.neurons[i]).kind == "output"@
    }

    /// The last `output` neurons are outputs, and no other neuron is.
    pub open spec fn outputs_are_last(self) -> bool {
        &&& self.outputs_end_it()
        &&& forall|i: int|
            0 <= i < self.neurons.len() - self.output ==> (#[trigger] self.neurons[i]).kind
                != "output"@
    }

    /// Two synapses, the second at `j`, join the same ordered pair.
    pub open spec fn repeats_pair(self, j: int) -> bool {
        exists|i: int|
            0 <= i < j && (#[trigger] self.synapses[i]).from_uuid == self.synapses[j].from_uuid
                && self.synapses[i].to_uuid == self.synapses[j].to_uuid
    }
}

impl Creature {
    /// The identities of the listed neurons.
    pub fn uuids(&self) -> (r: Vec<String>)
        ensures
            text::texts(r@) == uuids(self@.neurons),
    {
        let mut out: Vec<String> = Vec::new();
        for i in 0..self.neurons.len()
            invariant
                text::texts(out@) == uuids(self@.neurons).take(i as int),
        {
            let uuid = self.neurons[i].uuid.clone();
            let ghost before = out@;
            assert(uuids(self@.neurons)[i as int] == uuid@);
            out.push(uuid);
            assert(text::texts(out@) =~= text::texts(before).push(uuid@));
            assert(text::texts(out@) =~= uuids(self@.neurons).take(i as int + 1));
        }
        assert(text::texts(out@) =~= uuids(self@.neurons));
        out
    }

    /// `true` when the trailing neurons are the outputs.
    pub fn has_trailing_outputs(&self) -> (r: bool)
        ensures
            r == self@.outputs_end_it(),
    {
        let n: usize = self.neurons.len();
        if n < self.output {
            return false;
        }
        let output = "output".to_owned();
        for i in n - self.output..n
            invariant
                n == self@.neurons.len(),
                self.output <= n,
                output@ == "output"@,
                forall|j: int|
                    n - self.output <= j < i ==> (#[trigger] self@.neurons[j]).kind == "output"@,
        {
            if self.neurons[i].kind != output {
                assert(self@.neurons[i as int].kind != "output"@);
                return false;
            }
        }
        true
    }

    /// `true` when the trailing neurons are the outputs and no other neuron is
    /// one.
    pub fn has_only_trailing_outputs(&self) -> (r: bool)
        ensures
            r == self@.outputs_are_last(),
    {
        if !self.has_trailing_outputs() {
            return false;
        }
        let n: usize = self.neurons.len() - self.output;
        let output = "output".to_owned();
        for i in 0..n
            invariant
                n == self@.neurons.len() - self.output,
                output@ == "output"@,
                forall|j: int| 0 <= j < i ==> (#[trigger] self@.neurons[j]).kind != "output"@,
        {
            if self.neurons[i].kind == output {
                assert(self@.neurons[i as int].kind == "output"@);
                return false;
            }
        }
        true
    }

    /// The first synapse that repeats the ordered pair of an earlier one.
    pub fn repeated_pair(&self) -> (r: Option<usize>)
        ensures
            match r {
                Some(j) => j < self@.synapses.len() && self@.repeats_pair(j as int) && forall|k: int|
                    0 <= k < j ==> !self@.repeats_pair(k),
                None => forall|k: int| 0 <= k < self@.synapses.len() ==> !self@.repeats_pair(k),
            },
    {
        for j in 0..self.synapses.len()
            invariant
                forall|k: int| 0 <= k < j ==> !self@.repeats_pair(k),
        {
            for i in 0..j
                invariant
                    j < self.synapses@.len(),
                    forall|k: int|
                        0 <= k < i ==> !((#[trigger] self@.synapses[k]).from_uuid
                            == self@.synapses[j as int].from_uuid && self@.synapses[k].to_uuid
                            == self@.synapses[j as int].to_uuid),
                    forall|k: int| 0 <= k < j ==> !self@.repeats_pair(k),
            {
                if self.synapses[i].from_uuid == self.synapses[j].from_uuid
                    && self.synapses[i].to_uuid == self.synapses[j].to_uuid {
                    proof {
                        assert(self@.synapses[i as int].from_uuid
                            == self@.synapses[j as int].from_uuid);
                        assert(self@.repeats_pair(j as int));
                    }
                    return Some(j);
                }
            }
            assert(!self@.repeats_pair(j as int));
        }
        None
    }
}

} // verus!
