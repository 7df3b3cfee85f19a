use std::collections::{HashMap, HashSet};

use neat_ai_forests::baseline::{
    check_parity, establish_baseline, AuthoritativeBaseline, BaselineRun, ParityMeasure,
    ParityPolicy,
};
use neat_ai_forests::bins::{BinCache, BinMeta};
use neat_ai_forests::candidates::{
    combo_candidate, combo_id, discard_groups, draw_kind, draw_site, expand_discoveries, plan_combos, random_stump,
    top_k_groups, wants_another, Admission, Candidate, CandidateConfig, Discovery, Expansion,
    Population, Scale, ScaledCopy,
};
use neat_ai_forests::config::GraftConstants;
use neat_ai_forests::corpus::CorpusInfo;
use neat_ai_forests::creature::{Creature, Neuron, Synapse};
use neat_ai_forests::digest::sha256_hex;
use neat_ai_forests::fixtures::{
    constant_after_hidden_creature, identity_creature, if_output_creature,
};
use neat_ai_forests::floats::{Double, Single};
use neat_ai_forests::graft::{
    check_no_duplicate_synapses, grafted, plan_graft, target_squash, Edge, GraftError, GraftPlan,
    Grafted, Role, SquashClass,
};
use neat_ai_forests::histogram::{StumpCandidate, StumpKind};
use neat_ai_forests::incumbent::Incumbent;
use neat_ai_forests::local::{
    has_baseline, hidden_neurons, is_scored, local_result, LocalMseScorer, Reply, LOCAL_IDENTITY,
};
use neat_ai_forests::patch::{Node, Patch, Provenance};
use neat_ai_forests::promote::{
    check_cohort_ids, draw, draw_bypass, full_cohort, judge, plan_screen, screen_outcome, unscored,
    DriftTexts, FullOutcome, Measured, PromoteConfig, PromotionOutcome,
};
use neat_ai_forests::residuals::{
    assemble_residuals, cache_path, correction, count_above, header_range, hint_offset,
    residual_tail, worker_rows, ResidualBuffer, ResidualCache, ResidualError, ResidualMeta,
    ResidualStats,
};
use neat_ai_forests::scorer::{find, ScoreResult, ScorerMode};
use rand::rngs::StdRng;
use rand::{Rng, SeedableRng};

fn s(x: f32) -> Single {
    Single { bits: x.to_bits() }
}

fn f(x: Single) -> f32 {
    f32::from_bits(x.bits)
}

fn d(x: f64) -> Double {
    Double { bits: x.to_bits() }
}

fn g(x: Double) -> f64 {
    f64::from_bits(x.bits)
}

fn text(x: &str) -> String {
    x.to_string()
}

fn provenance(strategy: &str) -> Provenance {
    Provenance {
        strategy: text(strategy),
        backend: String::new(),
        predicted_gain: d(0.0),
        affected_records: 0,
        search_records: 0,
        incumbent_checksum: String::new(),
        seed: None,
        notes: Vec::new(),
    }
}

fn stump(feature: usize, threshold: f32, left: f32, right: f32) -> Node {
    Node::stump(feature, s(threshold), s(left), s(right))
}

fn incumbent(creature: Creature, name: &str) -> Incumbent {
    let body = format!("{creature:?}");
    Incumbent::new(name, body, creature)
}

fn push_numbers(node: &Node, out: &mut Vec<String>) {
    match node {
        Node::Leaf { correction } => out.push(serde_json::to_string(&f(*correction)).unwrap()),
        Node::Split {
            condition,
            left,
            right,
        } => {
            for t in &condition.terms {
                out.push(serde_json::to_string(&f(t.weight)).unwrap());
            }
            out.push(serde_json::to_string(&f(condition.threshold)).unwrap());
            push_numbers(left, out);
            push_numbers(right, out);
        }
    }
}

fn id_of(p: &Patch) -> String {
    let mut numbers = Vec::new();
    push_numbers(&p.root, &mut numbers);
    p.id(&numbers)
}

fn squash_class(name: &str) -> Result<SquashClass, String> {
    match name {
        "IF" => Ok(SquashClass::If),
        "MINIMUM" | "MAXIMUM" | "MEAN" | "HYPOT" => Ok(SquashClass::Aggregate),
        "IDENTITY" | "TANH" | "LOGISTIC" => Ok(SquashClass::Pointwise),
        other => Err(format!("unknown squash {other}")),
    }
}

fn plan(incumbent: &Creature, p: &Patch) -> Result<GraftPlan, GraftError> {
    let class = match target_squash(incumbent, p.output) {
        Some(name) => squash_class(&name),
        None => Ok(SquashClass::Pointwise),
    };
    plan_graft(incumbent, p, &id_of(p), &class)
}

fn neuron(kind: &str, uuid: &str, bias: f64, squash: Option<&str>) -> Neuron {
    Neuron {
        kind: kind.to_string(),
        uuid: uuid.to_string(),
        bias: d(bias),
        squash: squash.map(str::to_string),
    }
}

fn synapse(from: &str, to: &str, weight: f64, role: Option<&str>) -> Synapse {
    Synapse {
        from_uuid: from.to_string(),
        to_uuid: to.to_string(),
        weight: d(weight),
        role: role.map(str::to_string),
    }
}

/// Place what a plan describes in front of the outputs.
fn build(plan: GraftPlan) -> Creature {
    let mut c = plan.base;
    let edge = |c: &mut Creature, e: &Edge, to: &str, role: &str| {
        c.synapses
            .push(synapse(&e.source, to, f64::from(f(e.weight)), Some(role)))
    };
    for node in &plan.nodes {
        let at = c.neurons.len() - c.output;
        c.neurons
            .insert(at, neuron("hidden", &node.uuid, 0.0, Some("IF")));
        for e in &node.condition {
            edge(&mut c, e, &node.uuid, "condition");
        }
        edge(&mut c, &node.positive, &node.uuid, "positive");
        edge(&mut c, &node.negative, &node.uuid, "negative");
        if let Some(out) = &node.outward {
            let role = match out.role {
                Role::Untyped => None,
                Role::Positive => Some("positive"),
                Role::Negative => Some("negative"),
            };
            c.synapses
                .push(synapse(&node.uuid, &out.target, 1.0, role));
        }
    }
    if let Some(r) = &plan.relay {
        let at = c.neurons.len() - c.output;
        c.neurons
            .insert(at, neuron("hidden", &r.uuid, 0.0, Some("IDENTITY")));
        c.synapses.push(synapse(&r.source, &r.uuid, 1.0, None));
        c.synapses
            .push(synapse(&r.uuid, &r.target, 1.0, Some("negative")));
    }
    c
}

fn graft_patch(incumbent: &Creature, p: &Patch) -> Result<Grafted, GraftError> {
    let c = build(plan(incumbent, p)?);
    check_no_duplicate_synapses(&c)?;
    Ok(grafted(incumbent, c))
}

/// Pre-squash sums and activations of the outputs.
fn activate(c: &Creature, rec: &[f32]) -> Vec<(f32, f32)> {
    let mut value: HashMap<String, f32> = rec
        .iter()
        .enumerate()
        .map(|(i, &x)| (format!("input-{i}"), x))
        .collect();
    let mut out = Vec::new();
    for n in &c.neurons {
        let mut sums: HashMap<&str, f32> = HashMap::new();
        for syn in c.synapses.iter().filter(|x| x.to_uuid == n.uuid) {
            let role = syn.role.as_deref().unwrap_or("positive");
            *sums.entry(role).or_insert(0.0) += value[&syn.from_uuid] * g(syn.weight) as f32;
        }
        let sum = |role: &str| sums.get(role).copied().unwrap_or(0.0);
        let bias = g(n.bias) as f32;
        let (hint, act) = if n.kind == "constant" {
            (bias, bias)
        } else {
            match n.squash.as_deref().unwrap_or("IDENTITY") {
                "IF" => {
                    let branch = if sum("condition") > 0.0 {
                        "positive"
                    } else {
                        "negative"
                    };
                    let x = bias + sum(branch);
                    (x, x)
                }
                "TANH" => {
                    let x = bias + sum("positive");
                    (x, x.tanh())
                }
                "LOGISTIC" => {
                    let x = bias + sum("positive");
                    (x, 1.0 / (1.0 + (-x).exp()))
                }
                _ => {
                    let x = bias + sum("positive");
                    (x, x)
                }
            }
        };
        value.insert(n.uuid.clone(), act);
        if n.kind == "output" {
            out.push((hint, act));
        }
    }
    out
}

fn small_mlp(inputs: usize) -> Creature {
    let mut neurons = Vec::new();
    let mut synapses = Vec::new();
    for h in 0..3 {
        neurons.push(neuron(
            "hidden",
            &format!("hidden-{h}"),
            0.1 * h as f64,
            Some("TANH"),
        ));
        for i in 0..inputs {
            synapses.push(synapse(
                &format!("input-{i}"),
                &format!("hidden-{h}"),
                0.3 * (h as f64 + 1.0) - 0.1 * i as f64,
                None,
            ));
        }
    }
    neurons.push(neuron("output", "output-0", 0.05, Some("LOGISTIC")));
    for h in 0..3 {
        synapses.push(synapse(
            &format!("hidden-{h}"),
            "output-0",
            0.5 - 0.2 * h as f64,
            None,
        ));
    }
    Creature {
        input: inputs,
        output: 1,
        neurons,
        synapses,
        semantic_version: Some("4.0.0".to_string()),
        forward_only: true,
    }
}


fn cache() -> BinCache {
    BinCache {
        meta: BinMeta {
            format_version: 1,
            algorithm_version: 1,
            input_count: 2,
            output_count: 1,
            record_count: 10,
            corpus_identity: text("t"),
            requested_bins: 4,
            effective_bins: vec![4, 5],
            non_finite_counts: vec![0, 0],
            non_finite_policy: String::new(),
            sample_records: 10,
            sample_stride: 1,
            created_at_unix: 0,
        },
        edges: vec![
            vec![s(0.0), s(0.5), s(1.0)],
            vec![s(-1.0), s(0.0), s(1.0), s(2.0)],
        ],
    }
}

fn candidate_config() -> CandidateConfig {
    let scale = |x: f32| Scale { value: s(x), text: format!("{x}") };
    CandidateConfig {
        magnitude_scales: vec![scale(1.0), scale(0.5), scale(-1.0)],
        random_candidates: 3,
        max_candidates: 100,
        backend: text("cpu"),
        search_records: 10,
        threshold_jitter: 1,
        notes: Vec::new(),
        graft_constants: GraftConstants::Shared,
    }
}

fn leaves(node: &Node, out: &mut Vec<f32>) {
    match node {
        Node::Leaf { correction } => out.push(f(*correction)),
        Node::Split { left, right, .. } => {
            leaves(left, out);
            leaves(right, out);
        }
    }
}

fn scaled(ds: &[Discovery], cfg: &CandidateConfig) -> Vec<Vec<ScaledCopy>> {
    cfg.magnitude_scales
        .iter()
        .map(|scale| {
            let k = f(scale.value);
            ds.iter()
                .map(|x| {
                    let mut all = Vec::new();
                    leaves(&x.root, &mut all);
                    let r = f64::from(k);
                    ScaledCopy {
                        leaves: all.iter().map(|l| s(l * k)).collect(),
                        gain: d(g(x.gain) * (2.0 * r - r * r)),
                    }
                })
                .collect()
        })
        .collect()
}

fn random_stumps(cache: &BinCache, at: &Expansion<'_>, rng: &mut StdRng) -> Vec<Patch> {
    let mut out = Vec::new();
    let mut tries = 0;
    while wants_another(out.len(), tries, at.cfg.random_candidates) {
        tries += 1;
        let Some((feature, bin)) = draw_site(cache, rng) else {
            continue;
        };
        let size = rng.random_range(-1.0f32..1.0) * 0.2;
        let kind = draw_kind(rng);
        if let Some(p) = random_stump(cache, at, feature, bin, s(size), kind) {
            out.push(p);
        }
    }
    out
}

fn generate_candidates(
    inc: &Incumbent,
    patches: Vec<Patch>,
    max: usize,
    refusal: impl Fn(&Creature) -> Option<String>,
) -> (Vec<Candidate>, Vec<(String, String)>) {
    let mut population = Population::new(max);
    let mut out = Vec::new();
    for p in patches {
        let id = id_of(&p);
        match population.offer(&id, &p.root) {
            Admission::Enough => break,
            Admission::Duplicate | Admission::Idle => continue,
            Admission::Graft => {}
        }
        let made = graft_patch(&inc.creature, &p).map_err(|e| e.message());
        let made = made.and_then(|g| match refusal(&g.creature) {
            Some(reason) => Err(reason),
            None => Ok(g),
        });
        match made {
            Ok(g) => {
                population.settle(None);
                out.push(Candidate {
                    id,
                    patch: p,
                    combo: Vec::new(),
                    creature: g.creature,
                    added_uuids: vec![g.added_uuids],
                });
            }
            Err(reason) => population.settle(Some(reason)),
        }
    }
    assert_eq!(population.kept.len(), out.len());
    (out, population.discarded)
}

fn two_leaf() -> StumpCandidate {
    StumpCandidate {
        feature: 1,
        bin: 1,
        threshold: s(0.0),
        kind: StumpKind::TwoLeaf,
        left_correction: s(-0.1),
        right_correction: s(0.2),
        gain: d(1.0),
        left_records: d(5.0),
        right_records: d(5.0),
        affected_records: d(10.0),
        affected_fraction: d(1.0),
        backend: text("cpu"),
    }
}

#[test]
fn population_is_deterministic_and_grafts_load() {
    let inc = incumbent(identity_creature(2, 1), "t");
    let found = vec![Discovery::from_stump(&two_leaf(), 1, "cpu", 10, (5, 5))];
    let cfg = candidate_config();
    let make = || {
        let at = Expansion { output: 0, checksum: &inc.checksum, seed: 7, cfg: &cfg };
        let mut patches = expand_discoveries(&found, &cache(), &at, &scaled(&found, &cfg));
        let mut rng = StdRng::seed_from_u64(7);
        patches.extend(random_stumps(&cache(), &at, &mut rng));
        patches
    };
    let patches = make();
    let (cands, discarded) = generate_candidates(&inc, make(), cfg.max_candidates, |_| None);
    assert!(discarded.is_empty(), "{discarded:?}");
    // base + 2 one-sided + 2 scales + 2 jitter + 3 random
    assert_eq!(cands.len(), 10);
    let strategies: HashSet<&str> = cands
        .iter()
        .map(|c| c.patch.provenance.strategy.as_str())
        .collect();
    assert!(strategies.contains("random-stump"));
    assert!(strategies.contains("histogram-stump/one-sided"));
    assert!(strategies.contains("threshold-jitter"));
    for c in &cands {
        assert!(activate(&c.creature, &[0.3, -0.4])[0].1.is_finite());
        assert_eq!(c.patch.provenance.incumbent_checksum, inc.checksum);
        assert_eq!(c.patch.provenance.seed, Some(7));
    }
    assert_eq!(make(), patches);
    // Cap and dedup.
    let doubled: Vec<Patch> = make().into_iter().chain(make()).collect();
    assert_eq!(generate_candidates(&inc, doubled, 3, |_| None).0.len(), 3);
    let doubled: Vec<Patch> = make().into_iter().chain(make()).collect();
    assert_eq!(generate_candidates(&inc, doubled, 100, |_| None).0.len(), 10);
}

#[test]
fn invalid_patches_are_discarded_before_scoring() {
    let inc = incumbent(identity_creature(2, 1), "t");
    let bad = Patch::new(0, stump(9, 0.0, 0.0, 1.0), provenance(""));
    let zero = Patch::new(0, stump(0, 0.0, 0.0, 0.0), provenance(""));
    let (c, gone) = generate_candidates(&inc, vec![bad, zero], 100, |_| None);
    assert!(c.is_empty());
    assert_eq!(gone.len(), 2);
    assert!(gone[0].1.contains("feature 9"));
    assert_eq!(gone[1].1, "all-zero correction");
}

fn constant_after_hidden(c: &Creature) -> Option<String> {
    let first = c.neurons.iter().position(|n| n.kind == "hidden")?;
    let at = c.neurons.iter().rposition(|n| n.kind == "constant")?;
    (at > first).then(|| {
        format!("NEURON_ORDER: constant behind a hidden neuron, neuron index {}", c.input + at)
    })
}

#[test]
fn validation_failures_are_recorded_against_the_candidate() {
    let inc = incumbent(constant_after_hidden_creature(), "t");
    let p = Patch::new(0, stump(0, 0.0, -0.2, 0.4), provenance(""));
    let id = id_of(&p);
    let (cands, discarded) = generate_candidates(&inc, vec![p], 100, constant_after_hidden);
    assert!(cands.is_empty());
    assert_eq!(discarded.len(), 1);
    assert_eq!(discarded[0].0, id);
    assert!(discarded[0].1.contains("NEURON_ORDER"), "{discarded:?}");
    assert!(discarded[0].1.contains("neuron index"), "{discarded:?}");
}

#[test]
fn expansion_says_how_each_variant_came_about() {
    let found = vec![Discovery::from_stump(&two_leaf(), 1, "cpu", 10, (4, 6))];
    let cfg = candidate_config();
    let at = Expansion { output: 0, checksum: "abc", seed: 7, cfg: &cfg };
    let patches = expand_discoveries(&found, &cache(), &at, &scaled(&found, &cfg));
    assert_eq!(patches.len(), 7);
    let mut all = Vec::new();
    leaves(&patches[0].root, &mut all);
    assert_eq!(all, [-0.1, 0.2]);
    assert_eq!(patches[0].provenance.notes, ["kind=TwoLeaf bin=1"]);
    let one_sided: Vec<u64> = patches[1..3]
        .iter()
        .map(|p| p.provenance.affected_records)
        .collect();
    assert_eq!(one_sided, [6, 4]);
    let mut half = Vec::new();
    leaves(&patches[3].root, &mut half);
    assert_eq!(half, [-0.05, 0.1]);
    assert_eq!(g(patches[3].provenance.predicted_gain), 0.75);
    let thresholds: Vec<f32> = patches[5..]
        .iter()
        .map(|p| match &p.root {
            Node::Split { condition, .. } => f(condition.threshold),
            Node::Leaf { .. } => f32::NAN,
        })
        .collect();
    assert_eq!(thresholds, [-1.0, 1.0]);
}

#[test]
fn combinations_are_planned_once_and_named_by_their_members() {
    let ids: Vec<String> = ["aa", "bb", "cc"].map(text).to_vec();
    assert_eq!(combo_id(&ids), &sha256_hex(b"aa+bb+cc")[..16]);
    let groups = vec![
        vec![text("aa"), text("aa")],
        vec![text("aa"), text("bb"), text("aa")],
        vec![text("aa"), text("bb")],
        vec![text("bb"), text("aa")],
    ];
    let plans = plan_combos(&groups);
    assert_eq!(plans.len(), 2);
    assert_eq!(
        discard_groups(&groups),
        [(combo_id(&vec![text("aa")]), text("fewer than two distinct members"))]
    );
    let none = discard_groups(&vec![Vec::new()]);
    assert_eq!(none.len(), 1);
    assert_eq!(none[0].0, &sha256_hex(b"")[..16]);
    assert!(discard_groups(&groups[1..].to_vec()).is_empty());
    assert_eq!((plans[0].group, &plans[0].members), (1, &vec![0, 1]));
    assert_eq!((plans[1].group, &plans[1].members), (3, &vec![0, 1]));
    assert_eq!(plans[0].id, &sha256_hex(b"aa+bb")[..16]);
    let ranked = vec![
        Patch::new(0, stump(0, 0.0, 0.0, 1.0), provenance("a")),
        Patch::new(0, stump(0, 0.5, 0.0, 1.0), provenance("b")),
        Patch::new(0, stump(1, 0.0, 0.0, 1.0), provenance("c")),
        Patch::new(0, stump(2, 0.0, 0.0, 1.0), provenance("d")),
    ];
    let groups = top_k_groups(&ranked, 3);
    let names: Vec<Vec<&str>> = groups
        .iter()
        .map(|k| k.iter().map(|p| p.provenance.strategy.as_str()).collect())
        .collect();
    assert_eq!(names, [vec!["a", "c"], vec!["a", "c", "d"]]);
    let c = combo_candidate(text("x"), &groups[1], "top-k", identity_creature(3, 1), Vec::new());
    assert_eq!(c.patch.provenance.notes, ["top-k"]);
    assert_eq!(c.combo.len(), 2);
}

// ---------------------------------------------------------------------------
// Scoring.
// ---------------------------------------------------------------------------

type Records = Vec<(Vec<f32>, Vec<f32>)>;

fn score_all(
    scorer: &LocalMseScorer,
    named: &[(String, &Creature)],
    records: &Records,
    mode: ScorerMode,
) -> Result<Vec<(String, ScoreResult)>, String> {
    match scorer.reply() {
        Reply::Fail(m) => return Err(format!("scorer failed (exit 1): {m}")),
        Reply::Raw(raw) => {
            let v: serde_json::Value =
                serde_json::from_str(raw).map_err(|e| format!("malformed scorer output: {e}"))?;
            let mut out = Vec::new();
            for (name, r) in v.as_object().unwrap() {
                let records = r.get("recordCount").and_then(|n| n.as_u64()).unwrap_or(0);
                let number = |k: &str| d(r[k].as_f64().unwrap());
                out.push((
                    name.clone(),
                    local_result(number("score"), number("error"), d(0.0), records, mode),
                ));
            }
            return if has_baseline(&out) { Ok(out) } else { Err(text("no `baseline` entry")) };
        }
        Reply::Score => {}
    }
    let mut sorted: Vec<&(String, &Creature)> = named.iter().collect();
    sorted.sort_by(|a, b| a.0.cmp(&b.0));
    let mut out = Vec::new();
    for (stem, creature) in sorted {
        let (stride, phase) = match mode {
            ScorerMode::Full => (1, 0),
            ScorerMode::Sample { rate, phase } => ((1.0 / g(rate)).round().max(1.0) as u64, phase),
        };
        let (mut sum, mut n) = (0.0, 0u64);
        for (i, (x, t)) in records.iter().enumerate() {
            if !is_scored(i as u64, phase, stride) {
                continue;
            }
            let y = activate(creature, x)[0].1;
            sum += f64::from(t[0] - y) * f64::from(t[0] - y);
            n += 1;
        }
        let error = if n == 0 { 0.0 } else { sum / n as f64 };
        let penalty = 1e-7 * hidden_neurons(creature) as f64;
        let score = 1.0 - error - penalty + g(scorer.bias(stem, mode));
        out.push((stem.clone(), local_result(d(score), d(error), d(penalty), n, mode)));
    }
    assert!(has_baseline(&out));
    Ok(out)
}

/// `target = x0 + 0.3·[x1 > 0]`; the identity creature is off by 0.3 on the right.
fn setup() -> (Records, Incumbent, Vec<Candidate>) {
    let records: Records = (0..400)
        .map(|i| {
            let x0 = (i % 13) as f32 / 13.0;
            let x1 = if (i * 7) % 5 < 2 { 1.0 } else { -1.0 };
            (vec![x0, x1], vec![x0 + if x1 > 0.0 { 0.3 } else { 0.0 }])
        })
        .collect();
    let inc = incumbent(identity_creature(2, 1), "t");
    let cands = [
        (stump(1, 0.0, 0.0, 0.3), "winner"),
        (stump(1, 0.0, 0.0, 0.1), "partial"),
        (stump(1, 0.0, 0.0, -0.3), "loser"),
        (stump(0, 0.5, -0.3, 0.0), "noise"),
    ]
    .into_iter()
    .map(|(root, tag)| {
        let patch = Patch::new(0, root, provenance(tag));
        Candidate {
            id: id_of(&patch),
            creature: graft_patch(&inc.creature, &patch).unwrap().creature,
            patch,
            combo: Vec::new(),
            added_uuids: Vec::new(),
        }
    })
    .collect();
    (records, inc, cands)
}

fn promote_config(base: f64) -> PromoteConfig {
    PromoteConfig {
        screen_sample_rate: Some(d(0.5)),
        screen_phase: 0,
        screen_threshold: d(0.0),
        promote_count: 2,
        explore_quota: 1,
        min_improvement: d(1e-6),
        authoritative_baseline: d(base),
        baseline_drift_epsilon: d(1e-9),
        preserve_dirs: false,
    }
}

fn baseline_score(records: &Records, inc: &Incumbent) -> f64 {
    let named = vec![(text("baseline"), &inc.creature)];
    let out = score_all(&LocalMseScorer::new(), &named, records, ScorerMode::Full).unwrap();
    g(out[0].1.score)
}

fn measure(ids: &[String], results: &Vec<(String, ScoreResult)>) -> (f64, Vec<Measured>) {
    let base = g(results[find(results, "baseline")].1.score);
    let cohort = ids
        .iter()
        .map(|id| {
            let at = find(results, id);
            Measured {
                id: id.clone(),
                delta: results.get(at).map(|r| d(g(r.1.score) - base)),
            }
        })
        .collect();
    (base, cohort)
}

fn screen_and_promote(
    cands: &[Candidate],
    inc: &Incumbent,
    records: &Records,
    scorer: &LocalMseScorer,
    cfg: &PromoteConfig,
    rng: &mut StdRng,
    calls: &mut Vec<String>,
) -> Result<PromotionOutcome, String> {
    let score = |picked: &[usize], mode: ScorerMode| {
        let mut named = vec![(text("baseline"), &inc.creature)];
        for i in picked {
            named.push((cands[*i].id.clone(), &cands[*i].creature));
        }
        score_all(scorer, &named, records, mode)
    };
    let ids: Vec<String> = cands.iter().map(|c| c.id.clone()).collect();
    check_cohort_ids(&ids)?;
    let all: Vec<usize> = (0..cands.len()).collect();
    let mut screen = None;
    let picked = match cfg.screen_sample_rate {
        Some(rate) => {
            let mode = ScorerMode::Sample { rate, phase: cfg.screen_phase };
            calls.push(mode.label());
            let results = score(&all, mode)?;
            let (base, cohort) = measure(&ids, &results);
            let plan = plan_screen(&cohort, cfg);
            let bypass = draw_bypass(&plan.rejects, cfg.explore_quota, rng);
            let picked = full_cohort(cands.len(), Some((&plan.promoted, &bypass)));
            let scores = results;
            screen = Some(screen_outcome(
                cfg, rate, d(base), scores, &cohort, &plan.promoted, &bypass, 0,
            ));
            picked
        }
        None => full_cohort(cands.len(), None),
    };
    if picked.is_empty() {
        return Ok(unscored(screen));
    }
    calls.push(ScorerMode::Full.label());
    let results = score(&picked, ScorerMode::Full)?;
    let picked_ids: Vec<String> = picked.iter().map(|i| ids[*i].clone()).collect();
    let (base, cohort) = measure(&picked_ids, &results);
    let drift = base - g(cfg.authoritative_baseline);
    let full = FullOutcome {
        baseline_score: d(base),
        baseline_drift: d(drift),
        scores: results,
        scorer_ms: 0,
    };
    let texts = DriftTexts {
        baseline: format!("{base}"),
        authoritative: format!("{}", g(cfg.authoritative_baseline)),
        drift: format!("{drift:e}"),
        epsilon: format!("{}", g(cfg.baseline_drift_epsilon)),
    };
    Ok(judge(screen, full, &cohort, cfg, &texts))
}

#[test]
fn scoring_calls_are_taken_down() {
    let mut scorer = LocalMseScorer::new();
    assert!(scorer.calls.is_empty());
    let sampled = ScorerMode::Sample { rate: d(0.5), phase: 0 };
    scorer.record_call(sampled, vec![text("a"), text("baseline")]);
    scorer.record_call(ScorerMode::Full, vec![text("baseline")]);
    assert_eq!(
        scorer.calls,
        [
            (text("sample"), vec![text("a"), text("baseline")]),
            (text("full"), vec![text("baseline")]),
        ]
    );
}

#[test]
fn winner_is_accepted_only_on_full_corpus_and_journal_separates_stages() {
    let (records, inc, cands) = setup();
    let base = baseline_score(&records, &inc);
    let mut rng = StdRng::seed_from_u64(1);
    let mut calls = Vec::new();
    let out = screen_and_promote(
        &cands, &inc, &records, &LocalMseScorer::new(), &promote_config(base), &mut rng, &mut calls,
    )
    .unwrap();
    let screen = out.screen.as_ref().unwrap();
    assert_eq!(screen.promoted, vec![cands[0].id.clone(), cands[1].id.clone()]);
    assert_eq!(screen.bypass.len(), 1);
    let full = out.full.as_ref().unwrap();
    assert!(g(full.baseline_drift).abs() < 1e-12);
    assert_eq!(full.scores.len(), 4); // baseline + 2 promoted + 1 bypass
    let (id, delta) = out.winner.unwrap();
    assert_eq!(id, cands[0].id);
    assert!((g(delta) - 0.036).abs() < 1e-3, "{}", g(delta)); // 0.3² × 0.4 of records
    assert_eq!(calls, ["sample", "full"]);
}

#[test]
fn screen_false_positive_is_caught_and_losers_rejected() {
    let (records, inc, cands) = setup();
    let base = baseline_score(&records, &inc);
    // Optimistic screen: every candidate looks +0.5 better than it is.
    let mut scorer = LocalMseScorer::new();
    scorer.sample_bias = d(0.5);
    let mut rng = StdRng::seed_from_u64(1);
    let losers: Vec<Candidate> = cands.into_iter().skip(2).collect();
    let out = screen_and_promote(
        &losers, &inc, &records, &scorer, &promote_config(base), &mut rng, &mut Vec::new(),
    )
    .unwrap();
    assert_eq!(out.screen.as_ref().unwrap().promoted.len(), 2);
    assert!(out.winner.is_none());
    assert_eq!(out.false_positives, 2);
    assert_eq!(out.false_negatives, 0);
}

#[test]
fn scorer_failures_and_baseline_disagreement_block_acceptance() {
    let (records, inc, cands) = setup();
    let mut rng = StdRng::seed_from_u64(1);
    let mut failing = LocalMseScorer::new();
    failing.fail_with = Some(text("crash"));
    let mut run = |scorer: &LocalMseScorer, base: f64| {
        screen_and_promote(
            &cands, &inc, &records, scorer, &promote_config(base), &mut rng, &mut Vec::new(),
        )
    };
    assert!(run(&failing, 0.9).is_err());
    let mut malformed = LocalMseScorer::new();
    malformed.raw_output = Some(text(r#"{"nope":{"score":1,"error":0}}"#));
    assert_eq!(run(&malformed, 0.9).unwrap_err(), "no `baseline` entry");
    // A baseline that the same-call baseline cannot match vetoes acceptance.
    let out = run(&LocalMseScorer::new(), 0.123).unwrap();
    assert!(out.winner.is_none());
    assert!(out.veto.unwrap().contains("disagrees"));
}

#[test]
fn no_screen_scores_everything_fully() {
    let (records, inc, cands) = setup();
    let base = baseline_score(&records, &inc);
    let mut cfg = promote_config(base);
    cfg.screen_sample_rate = None;
    let mut rng = StdRng::seed_from_u64(1);
    let out = screen_and_promote(
        &cands, &inc, &records, &LocalMseScorer::new(), &cfg, &mut rng, &mut Vec::new(),
    )
    .unwrap();
    assert!(out.screen.is_none());
    assert_eq!(out.full.unwrap().scores.len(), 5);
    assert_eq!(out.winner.unwrap().0, cands[0].id);
}

#[test]
fn bypass_draws_are_distinct_rejects() {
    let rejects: Vec<usize> = (10..30).collect();
    let mut rng = StdRng::seed_from_u64(3);
    let drawn = draw_bypass(&rejects, 8, &mut rng);
    assert_eq!(drawn.len(), 8);
    let distinct: HashSet<usize> = drawn.iter().copied().collect();
    assert_eq!(distinct.len(), 8);
    assert!(drawn.iter().all(|x| rejects.contains(x)));
    let mut again = StdRng::seed_from_u64(3);
    assert_eq!(draw_bypass(&rejects, 8, &mut again), drawn);
    assert_eq!(draw_bypass(&rejects, 99, &mut rng).len(), 20);
    assert_eq!(draw(&vec![5, 6, 7], &vec![2, 0]), [7, 5]);
    // Each place is reached.
    let mut seen = HashSet::new();
    for _ in 0..200 {
        seen.insert(draw_bypass(&vec![1, 2, 3], 1, &mut rng)[0]);
    }
    assert_eq!(seen.len(), 3);
}

#[test]
fn the_name_of_the_baseline_is_reserved() {
    assert!(check_cohort_ids(&vec![text("a"), text("b")]).is_ok());
    assert!(check_cohort_ids(&vec![text("a"), text("baseline")]).is_err());
    let out = unscored(None);
    assert_eq!(out, PromotionOutcome::default());
}

fn tied(id: &str, delta: f64) -> Measured {
    Measured { id: text(id), delta: Some(d(delta)) }
}

#[test]
fn ties_go_to_the_first_id_and_unnamed_candidates_lose() {
    let cfg = promote_config(0.5);
    let cohort = vec![
        tied("c", 0.2),
        tied("b", 0.2),
        Measured { id: text("a"), delta: None },
        tied("d", -0.1),
    ];
    let plan = plan_screen(&cohort, &cfg);
    assert_eq!(plan.promoted, [1, 0]);
    assert_eq!(plan.rejects, [3]);
    let full = FullOutcome {
        baseline_score: d(0.5),
        baseline_drift: d(0.0),
        scores: Vec::new(),
        scorer_ms: 0,
    };
    let texts = DriftTexts {
        baseline: String::new(),
        authoritative: String::new(),
        drift: String::new(),
        epsilon: String::new(),
    };
    let out = judge(None, full, &cohort, &cfg, &texts);
    assert_eq!(out.winner.unwrap().0, "b");
    assert_eq!(out.veto, None);
}

// ---------------------------------------------------------------------------
// Baseline.
// ---------------------------------------------------------------------------

fn measured(policy: ParityPolicy, local: Option<f64>, error: f64) -> ParityMeasure {
    let (abs, rel) = match policy {
        ParityPolicy::Abort { abs, rel } => (g(abs), g(rel)),
        ParityPolicy::Skip => (0.0, 0.0),
    };
    let local = local.unwrap_or(0.0);
    let difference = (local - error).abs();
    ParityMeasure {
        difference: d(difference),
        limit: d(abs + rel * error.abs()),
        local: format!("{local}"),
        error: format!("{error}"),
        difference_text: format!("{difference}"),
        difference_short: format!("{difference:.3e}"),
        abs: format!("{abs}"),
        rel: format!("{rel}"),
    }
}

fn establish(
    scorer: &LocalMseScorer,
    policy: ParityPolicy,
    local: Option<f64>,
) -> Result<AuthoritativeBaseline, String> {
    let records: Records = (0..8)
        .map(|i| (vec![i as f32], vec![i as f32 + 0.5]))
        .collect();
    let inc = incumbent(identity_creature(1, 1), "t");
    let corpus = CorpusInfo {
        identity: text("corpus"),
        record_count: 8,
        input_count: 1,
        output_count: 1,
    };
    let named = vec![(text("baseline"), &inc.creature)];
    let results = score_all(scorer, &named, &records, ScorerMode::Full)?;
    let run = BaselineRun {
        incumbent_checksum: &inc.checksum,
        scorer_identity: LOCAL_IDENTITY,
        local_mse: local.map(d),
        scorer_ms: 3,
        now_unix: 17,
    };
    let error = g(results[0].1.error);
    let b = establish_baseline(&results, &corpus, &run, policy, &measured(policy, local, error))?;
    assert_eq!(b.incumbent_checksum, inc.checksum);
    Ok(b)
}

#[test]
fn baseline_is_recorded_and_parity_verified() {
    let b = establish(&LocalMseScorer::new(), ParityPolicy::default(), Some(0.25)).unwrap();
    assert!((g(b.error) - 0.25).abs() < 1e-9);
    assert!(b.parity.starts_with("verified"));
    assert_eq!(b.record_count, 8);
    assert_eq!(b.scorer_identity, "fake:local-mse");
    assert_eq!(b.cost_name.as_deref(), Some("MSE"));
    assert_eq!((b.scorer_ms, b.created_at_unix), (3, 17));
}

#[test]
fn parity_mismatch_failure_and_malformed_abort() {
    let scorer = LocalMseScorer::new();
    let err = establish(&scorer, ParityPolicy::default(), Some(0.9)).unwrap_err();
    assert!(err.contains("parity mismatch"), "{err}");
    let skip = establish(&scorer, ParityPolicy::Skip, Some(0.9)).unwrap();
    assert!(skip.parity.starts_with("skipped"));
    let mut failing = LocalMseScorer::new();
    failing.fail_with = Some(text("boom"));
    assert!(establish(&failing, ParityPolicy::Skip, None)
        .unwrap_err()
        .contains("boom"));
    let mut malformed = LocalMseScorer::new();
    malformed.raw_output = Some(text("{not json"));
    assert!(establish(&malformed, ParityPolicy::Skip, None)
        .unwrap_err()
        .contains("malformed"));
    let mut wrong_count = LocalMseScorer::new();
    wrong_count.raw_output =
        Some(text(r#"{"baseline":{"score":0.5,"error":0.5,"recordCount":3}}"#));
    assert!(establish(&wrong_count, ParityPolicy::Skip, None)
        .unwrap_err()
        .contains("records"));
    let mut crowd = LocalMseScorer::new();
    crowd.raw_output = Some(text(
        r#"{"baseline":{"score":0.5,"error":0.5},"other":{"score":0.5,"error":0.5}}"#,
    ));
    assert_eq!(
        establish(&crowd, ParityPolicy::Skip, None).unwrap_err(),
        "baseline: scorer returned 2 entries for a single creature"
    );
}

#[test]
fn parity_is_not_judged_without_a_local_error_or_on_another_cost() {
    let policy = ParityPolicy::default();
    let far = measured(policy, Some(0.9), 0.25);
    assert_eq!(
        check_parity(policy, false, &Some(text("MSE")), &far).unwrap(),
        "unavailable: no local MSE supplied"
    );
    assert_eq!(
        check_parity(policy, true, &Some(text("MAE")), &far).unwrap(),
        "disabled: scorer cost MAE is not MSE; local proxies unverified"
    );
    assert!(check_parity(policy, true, &None, &far).is_err());
}

// ---------------------------------------------------------------------------
// Residuals.
// ---------------------------------------------------------------------------

fn stats_for(values: &Vec<Single>, corrections: &Vec<Single>) -> ResidualStats {
    let tail = residual_tail(values);
    let n = tail.deviations.len() as f64;
    let over = |fold: &dyn Fn(f64) -> f64| -> f64 {
        values
            .iter()
            .filter(|v| v.is_finite())
            .map(|v| fold(f64::from(f(*v))))
            .sum()
    };
    let mean = over(&|x| x) / n;
    let sse = over(&|x| x * x);
    let variance = over(&|x| (x - mean) * (x - mean)) / n;
    let sizes: Vec<Double> = tail
        .deviations
        .iter()
        .map(|t| d(f64::from(f(t.size))))
        .collect();
    let sd = variance.sqrt();
    let quantile = |q: f64| {
        let at = ((1.0 - q) * n) as usize;
        d(f64::from(f(tail.size_at(at).unwrap_or(s(0.0)))))
    };
    let worst: f64 = tail
        .deviations
        .iter()
        .take(tail.worst)
        .map(|t| f64::from(f(t.size)) * f64::from(f(t.size)))
        .sum();
    let correction_sse: f64 = corrections.iter().map(|c| f64::from(f(*c)) * f64::from(f(*c))).sum();
    let finite: Vec<f64> = values
        .iter()
        .filter(|v| v.is_finite())
        .map(|v| f64::from(f(*v)))
        .collect();
    ResidualStats {
        count: values.len() as u64,
        mean: d(mean),
        variance: d(variance),
        mae: d(over(&|x| x.abs()) / n),
        sse: d(sse),
        mse: d(sse / n),
        correction_mse: d(correction_sse / corrections.len() as f64),
        min: d(finite.iter().copied().fold(f64::INFINITY, f64::min)),
        max: d(finite.iter().copied().fold(f64::NEG_INFINITY, f64::max)),
        abs_quantiles: [0.5, 0.9, 0.99, 0.999].map(quantile).to_vec(),
        tail_counts: (
            count_above(&sizes, d(2.0 * sd)),
            count_above(&sizes, d(3.0 * sd)),
        ),
        top_percent_sse_share: d(if sse > 0.0 { worst / sse } else { 0.0 }),
        non_finite: tail.non_finite,
        top_records: tail.top_records,
    }
}

fn logit(y: f32) -> f32 {
    (y / (1.0 - y)).ln()
}

fn compute_residuals(
    inc: &Incumbent,
    corpus: &CorpusInfo,
    records: &Records,
    chunk: usize,
    threads: usize,
) -> ResidualCache {
    let out = inc.creature.output;
    let squash = target_squash(&inc.creature, 0).unwrap();
    let aggregate = !matches!(squash_class(&squash), Ok(SquashClass::Pointwise));
    let mut buffer = ResidualBuffer::new(records.len(), out);
    let mut sse = 0.0;
    for first in (0..records.len()).step_by(chunk) {
        let rows = &records[first..records.len().min(first + chunk)];
        let (mut res, mut cor) = (Vec::new(), Vec::new());
        for (start, count) in worker_rows(rows.len(), threads) {
            for (x, t) in &rows[start..start + count] {
                let (hint, y) = activate(&inc.creature, x)[0];
                let r = t[0] - y;
                let before = if squash == "LOGISTIC" { logit(t[0]) } else { t[0] };
                res.push(s(r));
                cor.push(correction(aggregate, s(r), s(before), s(before - hint)));
                sse += f64::from(r) * f64::from(r);
            }
        }
        buffer.store(first, out, &res, &cor);
    }
    let stats = stats_for(
        &neat_ai_forests::residuals::column(&buffer.residual, out, 0),
        &neat_ai_forests::residuals::column(&buffer.correction, out, 0),
    );
    let mse = sse / records.len() as f64;
    assemble_residuals(inc, corpus, vec![squash], vec![stats], d(mse), buffer, 5)
}

fn corpus_of(records: &Records) -> CorpusInfo {
    CorpusInfo {
        identity: sha256_hex(format!("{records:?}").as_bytes()),
        record_count: records.len() as u64,
        input_count: records[0].0.len(),
        output_count: records[0].1.len(),
    }
}

#[test]
fn identity_residuals_match_hand_calculation() {
    let records: Records = vec![
        (vec![1.0, 0.0], vec![1.5]),
        (vec![2.0, 0.0], vec![1.0]),
        (vec![-1.0, 0.0], vec![-1.0]),
        (vec![0.5, 0.0], vec![0.0]),
    ];
    let inc = incumbent(identity_creature(2, 1), "t");
    let cache = compute_residuals(&inc, &corpus_of(&records), &records, 3, 2);
    let plain: Vec<f32> = cache.residual.iter().map(|x| f(*x)).collect();
    assert_eq!(plain, vec![0.5, -1.0, 0.0, -0.5]);
    assert_eq!(cache.correction, cache.residual);
    let st = &cache.meta.stats[0];
    assert_eq!(st.count, 4);
    assert!((g(st.mean) + 0.25).abs() < 1e-9);
    assert!((g(st.sse) - 1.5).abs() < 1e-9);
    assert!((g(cache.meta.local_mse) - 0.375).abs() < 1e-9);
    assert_eq!(st.top_records[0], (1, s(-1.0)));
    assert_eq!(g(st.max), 0.5);
    assert_eq!(g(st.min), -1.0);
}

#[test]
fn logistic_output_yields_pre_squash_correction() {
    let records: Records = (0..20)
        .map(|i| {
            (
                vec![i as f32 / 10.0 - 1.0, 0.3],
                vec![if i % 2 == 0 { 0.8 } else { 0.2 }],
            )
        })
        .collect();
    let inc = incumbent(small_mlp(2), "t");
    let cache = compute_residuals(&inc, &corpus_of(&records), &records, 7, 1);
    assert_eq!(cache.meta.output_squashes, ["LOGISTIC"]);
    for (i, (x, t)) in records.iter().enumerate() {
        let (hint, pred) = activate(&inc.creature, x)[0];
        assert!((f(cache.residual_at(i, 0)) - (t[0] - pred)).abs() < 1e-6);
        // Applying the correction pre-squash reproduces the target.
        let z = hint + f(cache.correction_at(i, 0));
        let fixed = 1.0 / (1.0 + (-z).exp());
        assert!((fixed - t[0]).abs() < 1e-4, "{fixed} vs {}", t[0]);
        assert_ne!(cache.residual_at(i, 0), cache.correction_at(i, 0));
    }
}

#[test]
fn if_output_uses_output_space_as_correction_space() {
    let records: Records = (0..12)
        .map(|i| (vec![i as f32 - 6.0, 0.5, 0.25], vec![i as f32 * 0.1]))
        .collect();
    let inc = incumbent(if_output_creature(3), "t");
    let cache = compute_residuals(&inc, &corpus_of(&records), &records, 5, 2);
    assert_eq!(cache.meta.output_squashes, ["IF"]);
    assert_eq!(cache.residual, cache.correction);
    assert!(cache.correction.iter().any(|c| f(*c) != 0.0));
    assert!(g(cache.meta.stats[0].correction_mse) > 0.0);
}

fn meta_of(a: &ResidualMeta) -> ResidualMeta {
    ResidualMeta {
        format_version: a.format_version,
        algorithm_version: a.algorithm_version,
        incumbent_checksum: a.incumbent_checksum.clone(),
        corpus_identity: a.corpus_identity.clone(),
        record_count: a.record_count,
        output_count: a.output_count,
        output_squashes: a.output_squashes.clone(),
        stats: Vec::new(),
        local_mse: a.local_mse,
        has_sample_weights: a.has_sample_weights,
        created_at_unix: a.created_at_unix,
    }
}

#[test]
fn sidecar_round_trips_and_invalidates() {
    let mut records: Records = (0..9)
        .map(|i| (vec![i as f32], vec![i as f32 * 0.5]))
        .collect();
    let inc = incumbent(identity_creature(1, 1), "t");
    let corpus = corpus_of(&records);
    let mut a = compute_residuals(&inc, &corpus, &records, 4, 1);
    a.meta.stats = Vec::new();
    let bytes = a.to_bytes(&b"{\"meta\":1}".to_vec());
    let (start, end) = header_range(&bytes).unwrap();
    assert_eq!(&bytes[start..end], b"{\"meta\":1}");
    let b = ResidualCache::from_bytes(&bytes, Ok(meta_of(&a.meta))).unwrap();
    assert_eq!(a, b);
    assert!(a.check_compatible(&inc, &corpus).is_ok());
    let mut changed = identity_creature(1, 1);
    changed.neurons[0].bias = d(0.1);
    let other = incumbent(changed, "other");
    assert!(matches!(
        a.check_compatible(&other, &corpus),
        Err(ResidualError::Stale(_))
    ));
    records.push((vec![1.0], vec![1.0]));
    assert!(matches!(
        a.check_compatible(&inc, &corpus_of(&records)),
        Err(ResidualError::Stale(_))
    ));
    let cut = &bytes[..bytes.len() - 4];
    let err = ResidualCache::from_bytes(cut, Ok(meta_of(&a.meta))).unwrap_err();
    assert!(matches!(err, ResidualError::Corrupt(_)));
    assert!(err.calls_for_recompute());
    assert!(header_range(b"NOPE00000000").is_err());
    assert!(ResidualCache::from_bytes(&bytes, Err(text("bad header"))).is_err());
    let path = cache_path("cache", &inc);
    assert_eq!(
        path,
        format!("cache/forests-residuals-{}.cache", &inc.checksum[..12])
    );
}

#[test]
fn residual_errors_say_what_happened() {
    assert_eq!(ResidualError::Io(text("p"), text("e")).message(), "p: e");
    assert_eq!(
        ResidualError::Corrupt(text("x")).message(),
        "residual cache corrupt: x"
    );
    assert_eq!(ResidualError::Stale(text("x")).message(), "residual cache stale: x");
    assert_eq!(ResidualError::Other(text("x")).message(), "x");
    assert!(!ResidualError::Other(text("x")).calls_for_recompute());
}

#[test]
fn rows_are_shared_out_and_values_before_the_squash_found() {
    assert_eq!(worker_rows(10, 3), [(0, 4), (4, 4), (8, 2)]);
    assert_eq!(worker_rows(2, 8), [(0, 1), (1, 1)]);
    assert_eq!(worker_rows(5, 0), [(0, 5)]);
    assert_eq!(worker_rows(0, 3), []);
    // One output of four neurons: behind 1 output, 4 activations, 3 other sums.
    assert_eq!(hint_offset(1, 4), 8);
    assert_eq!(correction(true, s(1.0), s(2.0), s(3.0)), s(1.0));
    assert_eq!(correction(false, s(1.0), s(2.0), s(3.0)), s(3.0));
    assert_eq!(correction(false, s(1.0), s(f32::INFINITY), s(3.0)), s(0.0));
    let tail = residual_tail(&vec![s(1.0), s(f32::NAN), s(-3.0), s(3.0)]);
    assert_eq!(tail.non_finite, 1);
    assert_eq!(tail.top_records, [(2, s(-3.0)), (3, s(3.0)), (0, s(1.0))]);
    assert_eq!(tail.worst, 1);
}
