//! Small creatures for trials and benchmarks.

use vstd::prelude::*;
use vstd::string::*;

use crate::creature;
use crate::creature::{Creature, Neuron, NeuronModel, Synapse, SynapseModel};
use crate::floats::{Double, DOUBLE_ONE};
use crate::text;
use crate::text::decimal_text;

verus! {

/// Format version of the creatures.
pub const FIXTURE_VERSION: &'static str = "4.0.0";

/// A numbered name.
pub open spec fn numbered(prefix: Seq<char>, n: nat) -> Seq<char> {
    prefix + text::decimal(n)
}

fn name(prefix: &str, n: usize) -> (r: String)
    ensures
        r@ == numbered(prefix@, n as nat),
{
    let mut out = prefix.to_owned();
    out.append(decimal_text(n as u64).as_str());
    out
}

/// The input that output `j` repeats: its own, or the last one.
pub open spec fn repeated_input(inputs: int, j: int) -> int {
    if j < inputs {
        j
    } else {
        inputs - 1
    }
}

/// Output neuron `j` of an identity creature.
pub open spec fn identity_neuron(j: int) -> NeuronModel {
    NeuronModel {
        kind: "output"@,
        uuid: numbered("output-"@, j as nat),
        bias: Double { bits: 0 },
        squash: Some("IDENTITY"@),
    }
}

/// Synapse `j` of an identity creature.
pub open spec fn identity_synapse(inputs: int, j: int) -> SynapseModel {
    SynapseModel {
        from_uuid: numbered("input-"@, repeated_input(inputs, j) as nat),
        to_uuid: numbered("output-"@, j as nat),
        weight: Double { bits: DOUBLE_ONE },
        role: None,
    }
}

/// Minimal forward-only creature: each output is the identity of the input of the
/// same number, or of the last input when there are fewer inputs than outputs.
pub fn identity_creature(inputs: usize, outputs: usize) -> (r: Creature)
    requires
        inputs > 0,
    ensures
        r.input == inputs,
        r.output == outputs,
        r@.neurons == Seq::new(outputs as nat, |j: int| identity_neuron(j)),
        r@.synapses == Seq::new(outputs as nat, |j: int| identity_synapse(inputs as int, j)),
        creature::maybe_text(r.semantic_version) == Some(FIXTURE_VERSION@),
        r.forward_only,
{
    let ghost all_neurons = Seq::new(outputs as nat, |j: int| identity_neuron(j));
    let ghost all_synapses = Seq::new(
        outputs as nat,
        |j: int| identity_synapse(inputs as int, j),
    );
    let mut neurons: Vec<Neuron> = Vec::new();
    let mut synapses: Vec<Synapse> = Vec::new();
    for j in 0..outputs
        invariant
            inputs > 0,
            all_neurons == Seq::new(outputs as nat, |j: int| identity_neuron(j)),
            all_synapses == Seq::new(
                outputs as nat,
                |j: int| identity_synapse(inputs as int, j),
            ),
            creature::neuron_models(neurons@) == all_neurons.take(j as int),
            creature::synapse_models(synapses@) == all_synapses.take(j as int),
    {
        let neuron = Neuron {
            kind: "output".to_owned(),
            uuid: name("output-", j),
            bias: Double::zero(),
            squash: Some("IDENTITY".to_owned()),
        };
        let from: usize = if j < inputs {
            j
        } else {
            inputs - 1
        };
        let synapse = plain_synapse(name("input-", from), name("output-", j), Double::one());
        let ghost n = neurons@;
        let ghost s = synapses@;
        neurons.push(neuron);
        synapses.push(synapse);
        proof {
            assert(neuron@ == all_neurons[j as int]);
            assert(synapse@ == all_synapses[j as int]);
            assert(creature::neuron_models(neurons@) =~= creature::neuron_models(n).push(neuron@));
            assert(creature::synapse_models(synapses@) =~= creature::synapse_models(s).push(
                synapse@,
            ));
            assert(all_neurons.take(j + 1) =~= all_neurons.take(j as int).push(
                all_neurons[j as int],
            ));
            assert(all_synapses.take(j + 1) =~= all_synapses.take(j as int).push(
                all_synapses[j as int],
            ));
        }
    }
    proof {
        assert(all_neurons.take(outputs as int) =~= all_neurons);
        assert(all_synapses.take(outputs as int) =~= all_synapses);
    }
    Creature {
        input: inputs,
        output: outputs,
        neurons,
        synapses,
        semantic_version: Some(FIXTURE_VERSION.to_owned()),
        forward_only: true,
    }
}

fn plain_synapse(from_uuid: String, to_uuid: String, weight: Double) -> (r: Synapse)
    ensures
        r@ == (SynapseModel { from_uuid: from_uuid@, to_uuid: to_uuid@, weight, role: None }),
{
    Synapse { from_uuid, to_uuid, weight, role: None }
}

fn role_synapse(from_uuid: &str, to_uuid: &str, weight: Double, role: &str) -> (r: Synapse)
    ensures
        r@ == (SynapseModel {
            from_uuid: from_uuid@,
            to_uuid: to_uuid@,
            weight,
            role: Some(role@),
        }),
{
    Synapse {
        from_uuid: from_uuid.to_owned(),
        to_uuid: to_uuid.to_owned(),
        weight,
        role: Some(role.to_owned()),
    }
}

/// A creature whose single output is itself an `IF` aggregate: condition on
/// `input-0`, positive branch twice `input-1`, negative branch minus `input-2`.
pub fn if_output_creature(inputs: usize) -> (r: Creature)
    requires
        inputs >= 3,
    ensures
        r.input == inputs,
        r.output == 1,
        r@.neurons == seq![
            NeuronModel {
                kind: "output"@,
                uuid: "output-0"@,
                bias: Double { bits: 0x3f84_7ae1_47ae_147b },
                squash: Some("IF"@),
            },
        ],
        r@.synapses == seq![
            SynapseModel {
                from_uuid: "input-0"@,
                to_uuid: "output-0"@,
                weight: Double { bits: DOUBLE_ONE },
                role: Some("condition"@),
            },
            SynapseModel {
                from_uuid: "input-1"@,
                to_uuid: "output-0"@,
                weight: Double { bits: 0x4000_0000_0000_0000 },
                role: Some("positive"@),
            },
            SynapseModel {
                from_uuid: "input-2"@,
                to_uuid: "output-0"@,
                weight: Double { bits: 0xbff0_0000_0000_0000 },
                role: Some("negative"@),
            },
        ],
        creature::maybe_text(r.semantic_version) == Some(FIXTURE_VERSION@),
        r.forward_only,
{
    let mut neurons: Vec<Neuron> = Vec::new();
    neurons.push(
        Neuron {
            kind: "output".to_owned(),
            uuid: "output-0".to_owned(),
            bias: Double { bits: 0x3f84_7ae1_47ae_147b },
            squash: Some("IF".to_owned()),
        },
    );
    let mut synapses: Vec<Synapse> = Vec::new();
    synapses.push(role_synapse("input-0", "output-0", Double::one(), "condition"));
    synapses.push(
        role_synapse("input-1", "output-0", Double { bits: 0x4000_0000_0000_0000 }, "positive"),
    );
    synapses.push(
        role_synapse("input-2", "output-0", Double { bits: 0xbff0_0000_0000_0000 }, "negative"),
    );
    let c = Creature {
        input: inputs,
        output: 1,
        neurons,
        synapses,
        semantic_version: Some(FIXTURE_VERSION.to_owned()),
        forward_only: true,
    };
    assert(c@.neurons.len() == 1);
    assert(c@.synapses.len() == 3);
    c
}

/// A creature whose neurons are listed `hidden, constant, output`: a constant
/// behind a hidden neuron, which nothing but the shared validator refuses.
pub fn constant_after_hidden_creature() -> (r: Creature)
    ensures
        r.input == 2,
        r.output == 1,
        r@.neurons == seq![
            NeuronModel {
                kind: "hidden"@,
                uuid: "hidden-0"@,
                bias: Double { bits: 0 },
                squash: Some("TANH"@),
            },
            NeuronModel {
                kind: "constant"@,
                uuid: "const-1"@,
                bias: Double { bits: DOUBLE_ONE },
                squash: None,
            },
            NeuronModel {
                kind: "output"@,
                uuid: "output-0"@,
                bias: Double { bits: 0 },
                squash: Some("IDENTITY"@),
            },
        ],
        r@.synapses == seq![
            SynapseModel {
                from_uuid: "input-0"@,
                to_uuid: "hidden-0"@,
                weight: Double { bits: DOUBLE_ONE },
                role: None,
            },
            SynapseModel {
                from_uuid: "input-1"@,
                to_uuid: "hidden-0"@,
                weight: Double { bits: DOUBLE_ONE },
                role: None,
            },
            SynapseModel {
                from_uuid: "hidden-0"@,
                to_uuid: "output-0"@,
                weight: Double { bits: DOUBLE_ONE },
                role: None,
            },
            SynapseModel {
                from_uuid: "const-1"@,
                to_uuid: "output-0"@,
                weight: Double { bits: 0x3fb9_9999_9999_999a },
                role: None,
            },
        ],
        creature::maybe_text(r.semantic_version) == Some(FIXTURE_VERSION@),
        r.forward_only,
{
    let mut neurons: Vec<Neuron> = Vec::new();
    neurons.push(
        Neuron {
            kind: "hidden".to_owned(),
            uuid: "hidden-0".to_owned(),
            bias: Double::zero(),
            squash: Some("TANH".to_owned()),
        },
    );
    neurons.push(
        Neuron {
            kind: "constant".to_owned(),
            uuid: "const-1".to_owned(),
            bias: Double::one(),
            squash: None,
        },
    );
    neurons.push(
        Neuron {
            kind: "output".to_owned(),
            uuid: "output-0".to_owned(),
            bias: Double::zero(),
            squash: Some("IDENTITY".to_owned()),
        },
    );
    let mut synapses: Vec<Synapse> = Vec::new();
    synapses.push(plain_synapse("input-0".to_owned(), "hidden-0".to_owned(), Double::one()));
    synapses.push(plain_synapse("input-1".to_owned(), "hidden-0".to_owned(), Double::one()));
    synapses.push(plain_synapse("hidden-0".to_owned(), "output-0".to_owned(), Double::one()));
    synapses.push(
        plain_synapse(
            "const-1".to_owned(),
            "output-0".to_owned(),
            Double { bits: 0x3fb9_9999_9999_999a },
        ),
    );
    let c = Creature {
        input: 2,
        output: 1,
        neurons,
        synapses,
        semantic_version: Some(FIXTURE_VERSION.to_owned()),
        forward_only: true,
    };
    assert(c@.neurons.len() == 3);
    assert(c@.synapses.len() == 4);
    c
}

/// Every output of an identity creature has a synapse of weight 1 from an input that
/// the creature has: its own, or the last one where it has none.
pub proof fn identities_read_an_input(inputs: int, j: int)
    requires
        0 < inputs,
        0 <= j,
    ensures
        identity_synapse(inputs, j).to_uuid == identity_neuron(j).uuid,
        identity_synapse(inputs, j).weight.bits == 0x3ff0_0000_0000_0000,
        identity_synapse(inputs, j).role is None,
        identity_neuron(j).bias.bits == 0,
        identity_neuron(j).kind == "output"@,
        j < inputs ==> identity_synapse(inputs, j).from_uuid == "input-"@ + text::decimal(j as nat),
        j >= inputs ==> identity_synapse(inputs, j).from_uuid == "input-"@ + text::decimal(
            (inputs - 1) as nat,
        ),
{
}

} // verus!
