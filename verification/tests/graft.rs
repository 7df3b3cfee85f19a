use std::collections::{HashMap, HashSet};

use neat_ai_forests::config::GraftConstants;
use neat_ai_forests::creature::{Creature, Neuron, Synapse};
use neat_ai_forests::fixtures::{
    constant_after_hidden_creature, identity_creature, if_output_creature,
};
use neat_ai_forests::floats::{Double, Single};
use neat_ai_forests::graft::{
    check_no_duplicate_synapses, free_one_names, grafted, plan_graft, plan_graft_with,
    structure_columns, structure_verdict, target_squash, CompiledNeuron, CompiledSynapse, Edge, GraftError, GraftPlan,
    Grafted, IfNode, Outward, Relay, Role, SquashClass, ValidationFailure,
};
use neat_ai_forests::patch::{Condition, Node, Patch, Provenance, Term};

fn s(x: f32) -> Single {
    Single { bits: x.to_bits() }
}

fn f(x: Single) -> f32 {
    f32::from_bits(x.bits)
}

fn d(x: f64) -> Double {
    Double { bits: x.to_bits() }
}

fn g(x: Double) -> f64 {
    f64::from_bits(x.bits)
}

fn patch(output: usize, root: Node) -> Patch {
    Patch::new(
        output,
        root,
        Provenance {
            strategy: String::new(),
            backend: String::new(),
            predicted_gain: d(0.0),
            affected_records: 0,
            search_records: 0,
            incumbent_checksum: String::new(),
            seed: None,
            notes: Vec::new(),
        },
    )
}

fn stump(feature: usize, threshold: f32, left: f32, right: f32) -> Node {
    Node::stump(feature, s(threshold), s(left), s(right))
}

fn axis(feature: usize, threshold: f32) -> Condition {
    Condition::axis(feature, s(threshold))
}

fn push_numbers(node: &Node, out: &mut Vec<String>) {
    match node {
        Node::Leaf { correction } => out.push(serde_json::to_string(&f(*correction)).unwrap()),
        Node::Split {
            condition,
            left,
            right,
        } => {
            for t in &condition.terms {
                out.push(serde_json::to_string(&f(t.weight)).unwrap());
            }
            out.push(serde_json::to_string(&f(condition.threshold)).unwrap());
            push_numbers(left, out);
            push_numbers(right, out);
        }
    }
}

fn id_of(p: &Patch) -> String {
    let mut numbers = Vec::new();
    push_numbers(&p.root, &mut numbers);
    p.id(&numbers)
}

fn squash_class(name: &str) -> Result<SquashClass, String> {
    match name {
        "IF" => Ok(SquashClass::If),
        "MINIMUM" | "MAXIMUM" | "MEAN" | "HYPOT" => Ok(SquashClass::Aggregate),
        "IDENTITY" | "TANH" | "LOGISTIC" => Ok(SquashClass::Pointwise),
        other => Err(format!("unknown squash {other}")),
    }
}

fn plan(incumbent: &Creature, p: &Patch) -> Result<GraftPlan, GraftError> {
    let class = match target_squash(incumbent, p.output) {
        Some(name) => squash_class(&name),
        None => Ok(SquashClass::Pointwise),
    };
    plan_graft(incumbent, p, &id_of(p), &class)
}

fn plan_with(
    incumbent: &Creature,
    p: &Patch,
    constants: GraftConstants,
) -> Result<GraftPlan, GraftError> {
    let class = match target_squash(incumbent, p.output) {
        Some(name) => squash_class(&name),
        None => Ok(SquashClass::Pointwise),
    };
    plan_graft_with(incumbent, p, &id_of(p), &class, constants)
}

fn neuron(kind: &str, uuid: &str, bias: f64, squash: Option<&str>) -> Neuron {
    Neuron {
        kind: kind.to_string(),
        uuid: uuid.to_string(),
        bias: d(bias),
        squash: squash.map(str::to_string),
    }
}

fn synapse(from: &str, to: &str, weight: f64, role: Option<&str>) -> Synapse {
    Synapse {
        from_uuid: from.to_string(),
        to_uuid: to.to_string(),
        weight: d(weight),
        role: role.map(str::to_string),
    }
}

/// Place what a plan describes in front of the outputs.
fn build(plan: GraftPlan) -> Creature {
    let mut c = plan.base;
    let edge = |c: &mut Creature, e: &Edge, to: &str, role: &str| {
        c.synapses
            .push(synapse(&e.source, to, f64::from(f(e.weight)), Some(role)))
    };
    for node in &plan.nodes {
        let at = c.neurons.len() - c.output;
        c.neurons
            .insert(at, neuron("hidden", &node.uuid, 0.0, Some("IF")));
        for e in &node.condition {
            edge(&mut c, e, &node.uuid, "condition");
        }
        edge(&mut c, &node.positive, &node.uuid, "positive");
        edge(&mut c, &node.negative, &node.uuid, "negative");
        if let Some(out) = &node.outward {
            let role = match out.role {
                Role::Untyped => None,
                Role::Positive => Some("positive"),
                Role::Negative => Some("negative"),
            };
            c.synapses
                .push(synapse(&node.uuid, &out.target, 1.0, role));
        }
    }
    if let Some(r) = &plan.relay {
        let at = c.neurons.len() - c.output;
        c.neurons
            .insert(at, neuron("hidden", &r.uuid, 0.0, Some("IDENTITY")));
        c.synapses.push(synapse(&r.source, &r.uuid, 1.0, None));
        c.synapses
            .push(synapse(&r.uuid, &r.target, 1.0, Some("negative")));
    }
    c
}

fn graft_patch(incumbent: &Creature, p: &Patch) -> Result<Grafted, GraftError> {
    let c = build(plan(incumbent, p)?);
    check_no_duplicate_synapses(&c)?;
    Ok(grafted(incumbent, c))
}

fn graft_patches(
    incumbent: &Creature,
    patches: &[Patch],
) -> Result<(Creature, Vec<Vec<String>>), GraftError> {
    let mut c = incumbent.clone();
    let mut added = Vec::new();
    for p in patches {
        let g = graft_patch(&c, p)?;
        c = g.creature;
        added.push(g.added_uuids);
    }
    Ok((c, added))
}

/// Pre-squash sums and activations of the outputs.
fn activate(c: &Creature, rec: &[f32]) -> Vec<(f32, f32)> {
    let mut value: HashMap<String, f32> = rec
        .iter()
        .enumerate()
        .map(|(i, &x)| (format!("input-{i}"), x))
        .collect();
    let mut out = Vec::new();
    for n in &c.neurons {
        let mut sums: HashMap<&str, f32> = HashMap::new();
        for syn in c.synapses.iter().filter(|x| x.to_uuid == n.uuid) {
            let role = syn.role.as_deref().unwrap_or("positive");
            *sums.entry(role).or_insert(0.0) += value[&syn.from_uuid] * g(syn.weight) as f32;
        }
        let sum = |role: &str| sums.get(role).copied().unwrap_or(0.0);
        let bias = g(n.bias) as f32;
        let (hint, act) = if n.kind == "constant" {
            (bias, bias)
        } else {
            match n.squash.as_deref().unwrap_or("IDENTITY") {
                "IF" => {
                    let branch = if sum("condition") > 0.0 {
                        "positive"
                    } else {
                        "negative"
                    };
                    let x = bias + sum(branch);
                    (x, x)
                }
                "TANH" => {
                    let x = bias + sum("positive");
                    (x, x.tanh())
                }
                "LOGISTIC" => {
                    let x = bias + sum("positive");
                    (x, 1.0 / (1.0 + (-x).exp()))
                }
                _ => {
                    let x = bias + sum("positive");
                    (x, x)
                }
            }
        };
        value.insert(n.uuid.clone(), act);
        if n.kind == "output" {
            out.push((hint, act));
        }
    }
    out
}

fn small_mlp(inputs: usize) -> Creature {
    let mut neurons = Vec::new();
    let mut synapses = Vec::new();
    for h in 0..3 {
        neurons.push(neuron(
            "hidden",
            &format!("hidden-{h}"),
            0.1 * h as f64,
            Some("TANH"),
        ));
        for i in 0..inputs {
            synapses.push(synapse(
                &format!("input-{i}"),
                &format!("hidden-{h}"),
                0.3 * (h as f64 + 1.0) - 0.1 * i as f64,
                None,
            ));
        }
    }
    neurons.push(neuron("output", "output-0", 0.05, Some("LOGISTIC")));
    for h in 0..3 {
        synapses.push(synapse(
            &format!("hidden-{h}"),
            "output-0",
            0.5 - 0.2 * h as f64,
            None,
        ));
    }
    Creature {
        input: inputs,
        output: 1,
        neurons,
        synapses,
        semantic_version: Some("4.0.0".to_string()),
        forward_only: true,
    }
}

fn records(n: usize, width: usize) -> Vec<Vec<f32>> {
    let mut seed = 0x9e37_79b9_7f4a_7c15u64;
    (0..n)
        .map(|_| {
            (0..width)
                .map(|_| {
                    seed = seed
                        .wrapping_mul(6364136223846793005)
                        .wrapping_add(1442695040888963407);
                    ((seed >> 40) as f32) / (1u64 << 23) as f32 * 2.0 - 1.0
                })
                .collect()
        })
        .collect()
}

fn goes_right(c: &Condition, rec: &[f32]) -> bool {
    let mut sum = 0.0f32;
    for t in &c.terms {
        sum += rec[t.feature] * f(t.weight);
    }
    Condition::sum_goes_right(s(sum + -f(c.threshold)))
}

fn evaluate(node: &Node, rec: &[f32]) -> f32 {
    match node {
        Node::Leaf { correction } => f(*correction),
        Node::Split {
            condition,
            left,
            right,
        } => evaluate(if goes_right(condition, rec) { right } else { left }, rec),
    }
}

fn assert_graft_matches_evaluator(incumbent: &Creature, p: &Patch, tol: f32) {
    let graft = graft_patch(incumbent, p).unwrap();
    let n_out = incumbent.output;
    let keep = incumbent.neurons.len() - n_out;
    let kept: Vec<&Neuron> = graft
        .creature
        .neurons
        .iter()
        .filter(|n| incumbent.neurons.contains(n))
        .collect();
    assert_eq!(
        kept,
        incumbent.neurons.iter().collect::<Vec<_>>(),
        "every incumbent neuron survives unchanged, in order"
    );
    assert_eq!(
        &graft.creature.neurons[graft.creature.neurons.len() - n_out..],
        &incumbent.neurons[keep..],
        "outputs stay trailing"
    );
    for x in &incumbent.synapses {
        assert!(
            graft.creature.synapses.contains(x),
            "incumbent synapse {} → {} was altered by the graft",
            x.from_uuid,
            x.to_uuid
        );
    }
    assert_eq!(
        graft.creature.synapses.len(),
        incumbent.synapses.len() + graft.added_synapses,
        "the graft only adds synapses"
    );
    let (mut left, mut right) = (0, 0);
    for rec in records(400, incumbent.input) {
        let expected = evaluate(&p.root, &rec);
        let b = activate(incumbent, &rec);
        let c = activate(&graft.creature, &rec);
        assert!(
            ((c[p.output].0 - b[p.output].0) - expected).abs() <= tol,
            "pre-squash delta {} != patch {expected}",
            c[p.output].0 - b[p.output].0
        );
        for (k, (x, y)) in b.iter().zip(&c).enumerate() {
            if k != p.output || expected == 0.0 {
                assert!((x.1 - y.1).abs() <= 1e-6);
            }
        }
        if let Node::Split { condition, .. } = &p.root {
            if goes_right(condition, &rec) {
                right += 1
            } else {
                left += 1
            }
        }
    }
    assert!(left > 0 && right > 0, "fixture must cover both branches");
}

fn constants(c: &Creature) -> usize {
    c.neurons.iter().filter(|n| n.kind == "constant").count()
}

#[test]
fn depth1_identity_output_matches_evaluator() {
    let inc = identity_creature(4, 1);
    let p = patch(0, stump(2, 0.1, 0.0, 0.013));
    assert_graft_matches_evaluator(&inc, &p, 1e-6);
    let graft = graft_patch(&inc, &p).unwrap();
    assert_eq!(graft.added_neurons, 4); // three shared constants (first graft only) + if
    assert_eq!(graft.added_synapses, 5); // input→if, one_c→if, one_p→if, one_n→if, if→output
    // A second graft reuses the shared constants and adds only its node.
    let again = graft_patch(&graft.creature, &patch(0, stump(1, 0.3, 0.0, 0.02))).unwrap();
    assert_eq!(again.added_neurons, 1);
    assert_eq!(constants(&again.creature), 3);
}

#[test]
fn depth2_and_logistic_output_match_evaluator() {
    let inc = small_mlp(3);
    let root = Node::Split {
        condition: axis(0, 0.0),
        left: Box::new(stump(1, -0.5, -0.2, 0.0)),
        right: Box::new(stump(2, 0.3, 0.0, 0.4)),
    };
    assert_graft_matches_evaluator(&inc, &patch(0, root), 1e-6);
}

fn oblique(terms: &[(usize, f32)], threshold: f32) -> Condition {
    Condition {
        terms: terms
            .iter()
            .map(|&(feature, w)| Term {
                feature,
                weight: s(w),
            })
            .collect(),
        threshold: s(threshold),
    }
}

#[test]
fn oblique_condition_matches_evaluator() {
    let inc = identity_creature(3, 2);
    let root = Node::Split {
        condition: oblique(&[(0, 0.8), (2, -1.3)], 0.05),
        left: Box::new(Node::leaf(s(0.0))),
        right: Box::new(Node::leaf(s(-0.07))),
    };
    assert_graft_matches_evaluator(&inc, &patch(1, root), 1e-6);
}

#[test]
fn if_output_neuron_receives_the_correction_on_both_branches() {
    let inc = if_output_creature(4);
    let p = patch(0, stump(3, 0.0, -0.05, 0.07));
    let graft = graft_patch(&inc, &p).unwrap();
    // Two typed synapses into the IF output, none untyped.
    let into_out: Vec<_> = graft
        .creature
        .synapses
        .iter()
        .filter(|x| x.to_uuid == "output-0" && x.from_uuid.starts_with("forest-"))
        .collect();
    assert_eq!(into_out.len(), 2);
    assert_eq!(
        into_out
            .iter()
            .map(|x| x.role.as_deref())
            .collect::<Vec<_>>(),
        [Some("positive"), Some("negative")]
    );
    let (mut pos, mut neg) = (0, 0);
    for rec in records(300, 4) {
        let delta = activate(&graft.creature, &rec)[0].1 - activate(&inc, &rec)[0].1;
        let want = evaluate(&p.root, &rec);
        assert!((delta - want).abs() < 1e-6, "delta {delta} vs {want}");
        if rec[0] > 0.0 {
            pos += 1
        } else {
            neg += 1
        }
    }
    assert!(pos > 0 && neg > 0);
    // A MAXIMUM output is refused.
    let mut max_out = inc.clone();
    max_out.neurons[0].squash = Some("MAXIMUM".to_string());
    assert!(matches!(
        graft_patch(&max_out, &p),
        Err(GraftError::UnsupportedOutputSquash(_))
    ));
}

#[test]
fn combined_patches_stack_additively() {
    let inc = identity_creature(4, 1);
    let a = patch(0, stump(0, 0.0, 0.0, 0.1));
    let b = patch(0, stump(1, 0.2, -0.05, 0.0));
    let (creature, added) = graft_patches(&inc, &[a.clone(), b.clone()]).unwrap();
    assert_eq!(added.len(), 2);
    assert_eq!(added[0].len(), 4);
    assert_eq!(added[1].len(), 1); // shared constants already present
    assert_eq!(constants(&creature), 3);
    for rec in records(200, 4) {
        let delta = activate(&creature, &rec)[0].1 - activate(&inc, &rec)[0].1;
        let want = evaluate(&a.root, &rec) + evaluate(&b.root, &rec);
        assert!((delta - want).abs() < 1e-6);
    }
}

#[test]
fn invalid_requests_fail_closed() {
    let inc = identity_creature(2, 1);
    let bad = |root| plan(&inc, &patch(0, root)).unwrap_err();
    assert_eq!(
        bad(stump(5, 0.0, 0.0, 1.0)),
        GraftError::FeatureOutOfRange {
            feature: 5,
            input: 2
        }
    );
    assert_eq!(bad(Node::leaf(s(1.0))), GraftError::RootIsLeaf);
    let nan = patch(0, stump(0, f32::NAN, 0.0, 1.0));
    assert_eq!(
        plan_graft(&inc, &nan, "x", &Ok(SquashClass::Pointwise)).unwrap_err(),
        GraftError::NonFinite
    );
    let p = patch(3, stump(0, 0.0, 0.0, 1.0));
    assert_eq!(
        plan(&inc, &p).unwrap_err(),
        GraftError::OutputOutOfRange {
            output: 3,
            outputs: 1
        }
    );
}

#[test]
fn every_refusal_has_its_own_words() {
    let inc = identity_creature(2, 1);
    let ok = patch(0, stump(0, 0.0, 0.0, 1.0));
    let mut hidden_last = identity_creature(2, 1);
    hidden_last
        .neurons
        .push(neuron("hidden", "late", 0.0, Some("TANH")));
    assert_eq!(
        plan(&hidden_last, &ok).unwrap_err(),
        GraftError::OutputsNotLast
    );
    assert_eq!(
        plan_graft(&inc, &ok, "x", &Err("no such squash".to_string())).unwrap_err(),
        GraftError::Compile("no such squash".to_string())
    );
    let mut taken = identity_creature(2, 1);
    taken
        .neurons
        .insert(0, neuron("hidden", "forest-x-if0", 0.0, Some("TANH")));
    let e = plan_graft(&taken, &ok, "x", &Ok(SquashClass::Pointwise)).unwrap_err();
    assert_eq!(e, GraftError::UuidCollision("forest-x-if0".to_string()));
    assert!(e.message().contains("forest-x-if0"));
    assert!(structure_verdict(&vec![0, 7], 0).is_ok());
    assert_eq!(
        structure_verdict(&vec![3, 7], 0).unwrap_err(),
        GraftError::Integrity { code: 3, index: 7 }
    );
    assert_eq!(
        structure_verdict(&vec![], 0).unwrap_err(),
        GraftError::Integrity { code: -1, index: 0 }
    );
    let invalid = GraftError::Invalid(Box::new(ValidationFailure {
        class: "order".to_string(),
        reason: "NEURON_ORDER".to_string(),
        message: "const-1 follows a hidden neuron".to_string(),
        neuron_index: Some(5),
        synapse_index: None,
    }));
    let text = invalid.message();
    assert!(text.contains("NEURON_ORDER"), "{text}");
    assert!(text.contains("const-1 follows a hidden neuron"), "{text}");
    assert!(text.contains("neuron index 5"), "{text}");
    assert!(GraftError::Canonical("cycle".to_string())
        .message()
        .contains("cycle"));
}

fn mixed_root() -> Node {
    Node::Split {
        condition: axis(0, 0.1),
        left: Box::new(stump(1, -0.5, -0.2, 0.0)),
        right: Box::new(Node::Split {
            condition: oblique(&[(1, 0.7), (2, -0.4)], 0.05),
            left: Box::new(Node::leaf(s(0.3))),
            right: Box::new(Node::leaf(s(0.0))),
        }),
    }
}

#[test]
fn grafts_never_repeat_a_synapse_pair() {
    for inc in [identity_creature(4, 2), small_mlp(3), if_output_creature(4)] {
        let graft = graft_patch(&inc, &patch(0, mixed_root())).unwrap();
        check_no_duplicate_synapses(&graft.creature).unwrap();
    }
    let mut dup = identity_creature(2, 1);
    dup.synapses.push(dup.synapses[0].clone());
    assert!(matches!(
        check_no_duplicate_synapses(&dup),
        Err(GraftError::DuplicateSynapse(_))
    ));
    // A condition naming the same feature twice is refused.
    let bad = Node::Split {
        condition: oblique(&[(0, 1.0), (0, 1.0)], 0.0),
        left: Box::new(Node::leaf(s(0.0))),
        right: Box::new(Node::leaf(s(1.0))),
    };
    assert!(matches!(
        plan(&identity_creature(2, 1), &patch(0, bad)),
        Err(GraftError::DuplicateSynapse(_))
    ));
}

#[test]
fn existing_bias_one_constants_are_reused() {
    let mut inc = identity_creature(2, 1);
    inc.neurons
        .insert(0, neuron("constant", "const-1", 1.0, None));
    inc.neurons
        .insert(1, neuron("constant", "const-half", 0.5, None));
    inc.synapses.push(synapse("const-1", "output-0", 0.1, None));
    inc.synapses
        .push(synapse("const-half", "output-0", 0.1, None));
    let p = patch(0, stump(0, 0.0, -0.2, 0.4));
    let graft = graft_patch(&inc, &p).unwrap();
    let consts: Vec<_> = graft
        .creature
        .neurons
        .iter()
        .filter(|n| n.kind == "constant")
        .map(|n| n.uuid.as_str())
        .collect();
    // `const-1` is reused for the condition role; two more are created.
    assert_eq!(
        consts,
        ["const-1", "const-half", "forest-one-a", "forest-one-b"]
    );
    assert!(graft
        .creature
        .synapses
        .iter()
        .any(|x| x.from_uuid == "const-1" && x.role.as_deref() == Some("condition")));
    assert!(graft
        .creature
        .synapses
        .iter()
        .any(|x| x.from_uuid == "forest-one-a"
            && x.role.as_deref() == Some("positive")
            && (g(x.weight) - 0.4).abs() < 1e-6));
    for rec in records(100, 2) {
        let delta = activate(&graft.creature, &rec)[0].1 - activate(&inc, &rec)[0].1;
        assert!((delta - evaluate(&p.root, &rec)).abs() < 1e-6);
    }
}

#[test]
fn constant_after_hidden_fixture_clears_every_other_gate() {
    // Only the shared validator refuses the order of its neurons.
    let inc = constant_after_hidden_creature();
    assert_eq!(inc.neurons[0].kind, "hidden");
    assert_eq!(inc.neurons[1].kind, "constant");
    check_no_duplicate_synapses(&inc).expect("fixture has no duplicate pairs");
    assert!(plan(&inc, &patch(0, stump(0, 0.0, -0.2, 0.4))).is_ok());
}

fn inward<'a>(creature: &'a Creature, node: &str, role: &str) -> Vec<(&'a str, f64)> {
    creature
        .synapses
        .iter()
        .filter(|x| x.to_uuid == node && x.role.as_deref() == Some(role))
        .map(|x| (x.from_uuid.as_str(), g(x.weight)))
        .collect()
}

#[test]
fn grafted_split_uses_the_canonical_condition_shape() {
    let inc = identity_creature(2, 1);
    let graft = graft_patch(&inc, &patch(0, stump(0, 0.25, -0.1, 0.4))).unwrap();
    let added: Vec<&Neuron> = graft
        .creature
        .neurons
        .iter()
        .filter(|n| !inc.neurons.contains(n))
        .collect();
    let ones: Vec<&&Neuron> = added
        .iter()
        .filter(|n| n.kind == "constant" && g(n.bias) == 1.0 && n.squash.is_none())
        .collect();
    assert_eq!(ones.len(), 3, "one shared bias-1 constant per synapse role");
    let nodes: Vec<&&Neuron> = added
        .iter()
        .filter(|n| n.squash.as_deref() == Some("IF"))
        .collect();
    assert_eq!(nodes.len(), 1);
    assert_eq!(added.len(), 4, "three constants and the IF node");
    let node = nodes[0].uuid.as_str();
    assert_eq!(g(nodes[0].bias), 0.0);
    let condition = inward(&graft.creature, node, "condition");
    assert_eq!(condition.len(), 2, "one term plus the threshold offset");
    assert!(
        condition.contains(&("input-0", 1.0)),
        "the split feature enters the condition sum directly: {condition:?}"
    );
    let offset = condition
        .iter()
        .find(|(from, _)| *from != "input-0")
        .expect("threshold offset edge");
    assert!(
        ones.iter().any(|c| c.uuid == offset.0),
        "the offset hangs off a shared bias-1 constant: {offset:?}"
    );
    assert!(
        (offset.1 - -0.25).abs() < 1e-9,
        "offset weight is -threshold"
    );
    let positive = inward(&graft.creature, node, "positive");
    let negative = inward(&graft.creature, node, "negative");
    assert_eq!(positive.len(), 1);
    assert_eq!(negative.len(), 1);
    assert!((positive[0].1 - 0.4).abs() < 1e-6);
    assert!((negative[0].1 - -0.1).abs() < 1e-6);
    let sources = [offset.0, positive[0].0, negative[0].0];
    assert_eq!(
        sources.iter().collect::<HashSet<_>>().len(),
        3,
        "the three roles take three distinct constants: {sources:?}"
    );
}

fn edge(source: &str, weight: f32) -> Edge {
    Edge {
        source: source.to_string(),
        weight: s(weight),
    }
}

#[test]
fn stump_graft_is_built_by_the_canonical_helper() {
    let inc = small_mlp(3);
    let p = patch(0, stump(1, 0.2, -0.1, 0.35));
    let ours = plan(&inc, &p).unwrap();
    assert_eq!(
        ours.base
            .neurons
            .iter()
            .take(3)
            .map(|n| n.uuid.as_str())
            .collect::<Vec<_>>(),
        ["forest-one-a", "forest-one-b", "forest-one-c"]
    );
    assert_eq!(
        ours.nodes,
        vec![IfNode {
            uuid: format!("forest-{}-if0", id_of(&p)),
            condition: vec![edge("input-1", 1.0), edge("forest-one-a", -0.2)],
            positive: edge("forest-one-b", 0.35),
            negative: edge("forest-one-c", -0.1),
            outward: Some(Outward {
                target: "output-0".to_string(),
                role: Role::Untyped
            }),
        }]
    );
    assert_eq!(ours.relay, None);
}

#[test]
fn nested_graft_is_built_by_the_canonical_batch_helper() {
    let inc = identity_creature(2, 1);
    let p = patch(
        0,
        Node::Split {
            condition: axis(0, 0.1),
            left: Box::new(Node::leaf(s(-0.2))),
            right: Box::new(stump(1, 0.3, 0.0, 0.4)),
        },
    );
    let ours = plan(&inc, &p).unwrap();
    let id = id_of(&p);
    let child = IfNode {
        uuid: format!("forest-{id}-if0"),
        condition: vec![edge("input-1", 1.0), edge("forest-one-a", -0.3)],
        positive: edge("forest-one-b", 0.4),
        negative: edge("forest-one-c", 0.0),
        outward: None,
    };
    let root = IfNode {
        uuid: format!("forest-{id}-if1"),
        condition: vec![edge("input-0", 1.0), edge("forest-one-a", -0.1)],
        positive: edge(&format!("forest-{id}-if0"), 1.0),
        negative: edge("forest-one-c", -0.2),
        outward: Some(Outward {
            target: "output-0".to_string(),
            role: Role::Untyped,
        }),
    };
    assert_eq!(ours.nodes, vec![child, root]);
}

#[test]
fn if_output_graft_is_built_by_the_canonical_helpers() {
    let inc = if_output_creature(4);
    let p = patch(0, stump(3, 0.25, -0.05, 0.07));
    let ours = plan(&inc, &p).unwrap();
    let id = id_of(&p);
    assert_eq!(
        ours.nodes,
        vec![IfNode {
            uuid: format!("forest-{id}-if0"),
            condition: vec![edge("input-3", 1.0), edge("forest-one-a", -0.25)],
            positive: edge("forest-one-b", 0.07),
            negative: edge("forest-one-c", -0.05),
            outward: Some(Outward {
                target: "output-0".to_string(),
                role: Role::Positive
            }),
        }]
    );
    assert_eq!(
        ours.relay,
        Some(Relay {
            uuid: format!("forest-{id}-relay1"),
            source: format!("forest-{id}-if0"),
            target: "output-0".to_string(),
        })
    );
}

fn assert_no_repeats(creature: &Creature, what: &str) {
    let mut seen: HashSet<(&str, &str)> = HashSet::new();
    for x in &creature.synapses {
        assert!(
            seen.insert((x.from_uuid.as_str(), x.to_uuid.as_str())),
            "{what}: duplicate synapse {} → {}",
            x.from_uuid,
            x.to_uuid
        );
    }
}

fn assert_graft_is_sound(inc: &Creature, p: &Patch, what: &str) -> Grafted {
    let graft =
        graft_patch(inc, p).unwrap_or_else(|e| panic!("{what}: graft refused: {}", e.message()));
    assert_no_repeats(&graft.creature, what);
    let target = &inc.neurons[inc.neurons.len() - inc.output + p.output];
    if target.squash.as_deref() == Some("IF") {
        let (mut left, mut right) = (0, 0);
        for rec in records(300, inc.input) {
            let delta = activate(&graft.creature, &rec)[p.output].1
                - activate(inc, &rec)[p.output].1;
            let want = evaluate(&p.root, &rec);
            assert!(
                (delta - want).abs() <= 1e-6,
                "{what}: delta {delta} != {want}"
            );
            if let Node::Split { condition, .. } = &p.root {
                if goes_right(condition, &rec) {
                    right += 1
                } else {
                    left += 1
                }
            }
        }
        assert!(
            left > 0 && right > 0,
            "{what}: fixture must cover both branches"
        );
    } else {
        assert_graft_matches_evaluator(inc, p, 1e-6);
    }
    graft
}

fn shapes(depth: usize) -> Vec<Node> {
    if depth == 0 {
        return vec![Node::leaf(s(0.0))];
    }
    let mut out = vec![Node::leaf(s(0.0))];
    for l in shapes(depth - 1) {
        for r in shapes(depth - 1) {
            out.push(Node::Split {
                condition: axis(0, 0.0),
                left: Box::new(l.clone()),
                right: Box::new(r),
            });
        }
    }
    out
}

fn decorate(node: &Node, k: &mut usize, inputs: usize) -> Node {
    *k += 1;
    let step = *k;
    match node {
        Node::Leaf { .. } => Node::leaf(s(0.02 * (step % 7) as f32 - 0.06)),
        Node::Split { left, right, .. } => Node::Split {
            condition: axis(step % inputs, 0.1 * (step % 5) as f32 - 0.2),
            left: Box::new(decorate(left, k, inputs)),
            right: Box::new(decorate(right, k, inputs)),
        },
    }
}

fn creature_carrying(inputs: usize, extra: &[Neuron]) -> Creature {
    let mut c = identity_creature(inputs, 1);
    for (i, n) in extra.iter().enumerate() {
        if n.kind == "hidden" {
            c.synapses.push(synapse("input-0", &n.uuid, 0.5, None));
        }
        c.synapses.push(synapse(&n.uuid, "output-0", 0.01, None));
        c.neurons.insert(i, n.clone());
    }
    c
}

fn constant(uuid: &str, bias: f64) -> Neuron {
    neuron("constant", uuid, bias, None)
}

#[test]
fn every_tree_shape_grafts_to_a_valid_duplicate_free_creature() {
    for inc in [identity_creature(4, 2), small_mlp(3), if_output_creature(4)] {
        for (i, shape) in shapes(3).iter().enumerate() {
            if matches!(shape, Node::Leaf { .. }) {
                continue; // a bare leaf is refused as `RootIsLeaf`
            }
            let mut k = 0;
            let p = patch(0, decorate(shape, &mut k, inc.input));
            assert_graft_is_sound(&inc, &p, &format!("shape {i} on {} inputs", inc.input));
        }
    }
}

#[test]
fn any_number_of_existing_bias_one_constants_yields_three_distinct_sources() {
    for k in 0..=5usize {
        let extra: Vec<Neuron> = (0..k)
            .map(|i| constant(&format!("const-{i}"), 1.0))
            .collect();
        let inc = creature_carrying(3, &extra);
        let what = format!("{k} pre-existing bias-1 constants");
        let graft = assert_graft_is_sound(&inc, &patch(0, stump(0, 0.0, -0.03, 0.05)), &what);
        assert_eq!(
            graft
                .creature
                .neurons
                .iter()
                .filter(|n| n.kind == "constant" && g(n.bias) == 1.0)
                .count(),
            k.max(3),
            "{what}: three bias-1 constants must be available"
        );
        let node = graft
            .added_uuids
            .iter()
            .find(|u| u.contains("-if"))
            .expect("the graft added an IF node");
        let sources: HashSet<&str> = graft
            .creature
            .synapses
            .iter()
            .filter(|x| &x.to_uuid == node)
            .map(|x| x.from_uuid.as_str())
            .collect();
        assert_eq!(
            sources.len(),
            4,
            "{what}: roles share a source: {sources:?}"
        );
    }
}

#[test]
fn the_shared_constant_names_being_taken_never_blocks_a_graft() {
    let cases: Vec<(&str, Vec<Neuron>)> = vec![
        (
            "all three present and usable",
            vec![
                constant("forest-one-a", 1.0),
                constant("forest-one-b", 1.0),
                constant("forest-one-c", 1.0),
            ],
        ),
        (
            "one name taken by a constant of another bias",
            vec![constant("forest-one-a", 0.5)],
        ),
        (
            "one usable, the next name taken by another bias",
            vec![constant("forest-one-a", 1.0), constant("forest-one-b", 0.5)],
        ),
        (
            "all three names taken by constants of another bias",
            vec![
                constant("forest-one-a", 0.5),
                constant("forest-one-b", 0.25),
                constant("forest-one-c", -1.0),
            ],
        ),
        (
            "a name taken by a hidden neuron",
            vec![neuron("hidden", "forest-one-c", 0.0, Some("TANH"))],
        ),
    ];
    for (what, extra) in cases {
        let inc = creature_carrying(3, &extra);
        let graft = assert_graft_is_sound(&inc, &patch(0, stump(1, 0.0, -0.02, 0.06)), what);
        for n in &extra {
            let after = graft
                .creature
                .neurons
                .iter()
                .find(|x| x.uuid == n.uuid)
                .unwrap_or_else(|| panic!("{what}: {} was dropped", n.uuid));
            assert_eq!(after, n, "{what}: {} was rewritten", n.uuid);
        }
        let again = patch(0, stump(2, 0.1, 0.04, 0.0));
        assert_graft_is_sound(&graft.creature, &again, &format!("{what}, second graft"));
    }
}

#[test]
fn free_names_skip_those_in_use() {
    let taken = vec!["forest-one-a".to_string(), "forest-one-c".to_string()];
    assert_eq!(
        free_one_names(&taken, 3),
        vec!["forest-one-b", "forest-one-a2", "forest-one-b2"]
    );
    assert!(free_one_names(&taken, 0).is_empty());
}

#[test]
fn oblique_multi_term_conditions_stay_duplicate_free() {
    let three = |a: usize, b: usize, c: Option<usize>, threshold: f32| {
        let mut terms = vec![(a, 0.8f32), (b, -1.3)];
        if let Some(c) = c {
            terms.push((c, 0.45));
        }
        oblique(&terms, threshold)
    };
    let root = Node::Split {
        condition: three(0, 1, Some(2), 0.05),
        left: Box::new(Node::Split {
            condition: three(1, 2, None, -0.1),
            left: Box::new(Node::leaf(s(0.03))),
            right: Box::new(Node::Split {
                condition: three(0, 3, Some(1), 0.2),
                left: Box::new(Node::leaf(s(-0.02))),
                right: Box::new(Node::leaf(s(0.0))),
            }),
        }),
        right: Box::new(Node::Split {
            condition: three(3, 0, None, 0.0),
            left: Box::new(Node::leaf(s(0.07))),
            right: Box::new(Node::leaf(s(-0.05))),
        }),
    };
    for inc in [identity_creature(4, 1), small_mlp(4), if_output_creature(4)] {
        assert_graft_is_sound(&inc, &patch(0, root.clone()), "oblique depth-3 tree");
    }
}

#[test]
fn stacked_patches_share_the_constants_without_repeating_a_pair() {
    let patches = vec![
        patch(0, stump(0, 0.0, -0.04, 0.06)),
        patch(
            0,
            Node::Split {
                condition: axis(1, -0.15),
                left: Box::new(stump(2, 0.1, 0.02, -0.03)),
                right: Box::new(Node::leaf(s(0.05))),
            },
        ),
        patch(
            0,
            Node::Split {
                condition: axis(2, 0.05),
                left: Box::new(Node::leaf(s(-0.01))),
                right: Box::new(stump(3, 0.0, 0.03, -0.02)),
            },
        ),
    ];
    for inc in [identity_creature(4, 1), small_mlp(4), if_output_creature(4)] {
        let (stacked, added) = graft_patches(&inc, &patches).unwrap();
        assert_eq!(added.len(), 3);
        assert_no_repeats(&stacked, "three stacked patches");
        assert_eq!(
            stacked
                .neurons
                .iter()
                .filter(|n| n.kind == "constant" && g(n.bias) == 1.0)
                .count(),
            3,
            "the shared constants are created once, not per patch"
        );
        for rec in records(200, inc.input) {
            let delta = activate(&stacked, &rec)[0].0 - activate(&inc, &rec)[0].0;
            let want: f32 = patches.iter().map(|p| evaluate(&p.root, &rec)).sum();
            assert!((delta - want).abs() < 1e-5, "delta {delta} != {want}");
        }
    }
}

#[test]
fn per_patch_constants_stay_within_their_patch() {
    let patches = [
        patch(0, stump(0, 0.0, -0.04, 0.06)),
        patch(
            0,
            Node::Split {
                condition: axis(1, -0.15),
                left: Box::new(stump(2, 0.1, 0.02, -0.03)),
                right: Box::new(Node::leaf(s(0.05))),
            },
        ),
        patch(0, oblique_stump()),
    ];
    for inc in [identity_creature(4, 1), small_mlp(4), if_output_creature(4)] {
        let mut c = inc.clone();
        for p in &patches {
            c = build(plan_with(&c, p, GraftConstants::PerPatch).unwrap());
        }
        assert_no_repeats(&c, "three patches with constants of their own");
        let ones: Vec<&str> = c
            .neurons
            .iter()
            .filter(|n| n.kind == "constant" && g(n.bias) == 1.0)
            .map(|n| n.uuid.as_str())
            .collect();
        assert_eq!(ones.len(), 9);
        let patch_of = |uuid: &str, sep: &str| -> Option<String> {
            uuid.strip_prefix("forest-")
                .and_then(|rest| rest.split_once(sep))
                .map(|(id, _)| id.to_string())
        };
        for one in &ones {
            let owner = patch_of(one, "-one-").unwrap();
            for x in c.synapses.iter().filter(|x| x.from_uuid == **one) {
                assert_eq!(patch_of(&x.to_uuid, "-if"), Some(owner.clone()), "{one}");
            }
        }
        for rec in records(200, inc.input) {
            let delta = activate(&c, &rec)[0].0 - activate(&inc, &rec)[0].0;
            let want: f32 = patches.iter().map(|p| evaluate(&p.root, &rec)).sum();
            assert!((delta - want).abs() < 1e-5, "delta {delta} != {want}");
        }
    }
}

fn oblique_stump() -> Node {
    Node::Split {
        condition: oblique(&[(0, 0.8), (3, -1.3)], 0.05),
        left: Box::new(Node::leaf(s(-0.02))),
        right: Box::new(Node::leaf(s(0.01))),
    }
}

#[test]
fn per_patch_constants_are_named_for_their_patch() {
    let inc = identity_creature(4, 1);
    let p = patch(0, stump(2, 0.1, 0.0, 0.013));
    let id = id_of(&p);
    let own = |role: &str| format!("forest-{id}-one-{role}");
    let plan = plan_with(&inc, &p, GraftConstants::PerPatch).unwrap();
    let added: Vec<&str> = plan
        .base
        .neurons
        .iter()
        .filter(|n| n.kind == "constant")
        .map(|n| n.uuid.as_str())
        .collect();
    assert_eq!(added, [own("c"), own("p"), own("n")]);
    let node = &plan.nodes[0];
    assert!(node.condition.iter().any(|e| e.source == own("c")));
    assert_eq!(node.positive.source, own("p"));
    assert_eq!(node.negative.source, own("n"));
    // Constants that are there already are not taken.
    let carrying = creature_carrying(4, &[constant("forest-one-a", 1.0)]);
    let beside = plan_with(&carrying, &p, GraftConstants::PerPatch).unwrap();
    assert_eq!(beside.nodes[0].positive.source, own("p"));
    assert_eq!(constants(&beside.base), 4);
    // A name that is taken is a collision.
    for role in ["c", "p", "n"] {
        let taken = creature_carrying(4, &[constant(&own(role), 1.0)]);
        assert_eq!(
            plan_with(&taken, &p, GraftConstants::PerPatch).unwrap_err(),
            GraftError::UuidCollision(own(role))
        );
    }
    let twice = build(plan);
    assert_eq!(
        plan_with(&twice, &p, GraftConstants::PerPatch).unwrap_err(),
        GraftError::UuidCollision(own("c"))
    );
}

#[test]
fn shared_constants_are_the_plain_plan() {
    for inc in [identity_creature(4, 1), small_mlp(4), if_output_creature(4)] {
        let p = patch(0, stump(1, 0.0, -0.02, 0.06));
        assert_eq!(plan_with(&inc, &p, GraftConstants::Shared), plan(&inc, &p));
    }
    let leaf = patch(0, Node::leaf(s(0.5)));
    let inc = identity_creature(4, 1);
    for constants in [GraftConstants::Shared, GraftConstants::PerPatch] {
        assert_eq!(plan_with(&inc, &leaf, constants), Err(GraftError::RootIsLeaf));
    }
}

#[test]
fn the_validation_gate_itself_rejects_a_duplicate_pair() {
    let mut dup = identity_creature(2, 1);
    dup.synapses.push(dup.synapses[0].clone());
    let err = check_no_duplicate_synapses(&dup)
        .expect_err("a repeated (from, to) pair must be rejected");
    assert!(
        matches!(err, GraftError::DuplicateSynapse(_)),
        "expected a duplicate-synapse failure, got {}",
        err.message()
    );
    assert!(err.message().contains("input-0"), "{}", err.message());
    // A creature without duplicates still passes.
    check_no_duplicate_synapses(&identity_creature(2, 1)).expect("a clean creature passes");
}

#[test]
fn compiled_creatures_are_laid_out_for_the_validator() {
    let neurons = vec![
        CompiledNeuron {
            is_constant: true,
            squash_type: 1,
            bias: s(1.0),
            start_synapse: 0,
            num_synapses: 0,
        },
        CompiledNeuron {
            is_constant: false,
            squash_type: 4,
            bias: s(0.5),
            start_synapse: 0,
            num_synapses: 2,
        },
    ];
    let synapses = vec![
        CompiledSynapse {
            from_index: 0,
            synapse_type: 0,
        },
        CompiledSynapse {
            from_index: 2,
            synapse_type: 3,
        },
    ];
    let c = structure_columns(&neurons, &synapses, 2);
    assert_eq!(c.from, vec![0, 2]);
    assert_eq!(c.to, vec![3, 3]);
    assert_eq!(c.types, vec![0, 3]);
    assert_eq!(c.is_constant, vec![0, 0, 1, 0]);
    assert_eq!(c.squash, vec![0, 0, 1, 4]);
    assert_eq!(c.biases, vec![s(0.0), s(0.0), s(1.0), s(0.5)]);
}
