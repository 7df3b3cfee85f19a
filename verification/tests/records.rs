use neat_ai_forests::baseline::AuthoritativeBaseline;
use neat_ai_forests::creature::{Neuron, Synapse};
use neat_ai_forests::digest::sha256_hex;
use neat_ai_forests::enhancements::{check_mirrored_id, producer, BundleStep, EnhancementLog};
use neat_ai_forests::fixtures::identity_creature;
use neat_ai_forests::floats::{Double, Single};
use neat_ai_forests::incumbent::{
    creatures_equivalent, validate_creature, Closeness, Incumbent, IncumbentError, RoundTrip,
};
use neat_ai_forests::journal::{
    read_journal, CandidateRecord, ExperimentRecord, FullSummary, JournalLine, ScreenSummary,
    SummaryRecord,
};
use neat_ai_forests::meta::{CreatureMeta, Tag};
use neat_ai_forests::patch::{Condition, Node, Patch, Provenance, Term};
use neat_ai_forests::report::{
    groups, journal_fits, report_from_lines, stats_of, table, Axis, Improvement, JournalReport,
    Rate, StrategyStats,
};
use serde_json::Value;

fn s(x: f32) -> Single {
    Single { bits: x.to_bits() }
}

fn d(x: f64) -> Double {
    Double { bits: x.to_bits() }
}

fn g(x: Double) -> f64 {
    f64::from_bits(x.bits)
}

fn text(x: &str) -> String {
    x.to_string()
}

fn provenance() -> Provenance {
    Provenance {
        strategy: String::new(),
        backend: String::new(),
        predicted_gain: d(0.0),
        affected_records: 0,
        search_records: 0,
        incumbent_checksum: String::new(),
        seed: None,
        notes: Vec::new(),
    }
}

fn cand(id: &str, strategy: &str, promoted: bool, full: Option<f64>) -> CandidateRecord {
    CandidateRecord {
        id: text(id),
        strategy: text(strategy),
        backend: text("cpu"),
        depth: 1,
        features: vec![0],
        predicted_gain: d(1.0),
        affected_records: 10,
        affected_fraction: d(0.1),
        screen_score: Some(d(0.5)),
        screen_delta: Some(d(0.01)),
        promoted,
        bypass: !promoted,
        full_score: full.map(|x| d(0.5 + x)),
        full_delta: full.map(d),
        patch: Patch::new(0, Node::stump(0, s(0.0), s(0.0), s(1.0)), provenance()),
        combo: Vec::new(),
    }
}

fn baseline(score: f64, checksum: &str) -> AuthoritativeBaseline {
    AuthoritativeBaseline {
        incumbent_checksum: text(checksum),
        score: d(score),
        error: d(0.5),
        complexity_penalty: d(0.0),
        record_count: 10,
        scorer_identity: text("t"),
        cost_name: None,
        scorer_backend: None,
        corpus_identity: text("c"),
        corpus_record_count: 10,
        local_mse: None,
        parity: text("skipped"),
        scorer_ms: 1,
        created_at_unix: 0,
    }
}

fn experiment() -> ExperimentRecord {
    ExperimentRecord {
        iteration: 1,
        timestamp_unix: 1060,
        incumbent_checksum: text("a"),
        baseline_score: d(0.5),
        search_backend: text("cpu"),
        search_set: text("memory-full"),
        search_records: 10,
        search_features: 2,
        strategies: vec![text("histogram-stump")],
        search_ms: 100,
        graft_ms: 10,
        candidates_generated: 3,
        candidates_discarded: 0,
        discarded: Vec::new(),
        candidates: vec![
            cand("w", "histogram-stump", true, Some(0.02)),
            cand("l", "histogram-stump", true, Some(-0.01)),
            cand("b", "random-stump", false, Some(0.005)),
        ],
        screen: Some(ScreenSummary {
            sample_rate: d(0.1),
            sample_phase: 0,
            baseline_score: d(0.5),
            screened: 3,
            promoted: 2,
            bypass: 1,
            scorer_ms: 50,
        }),
        full: Some(FullSummary {
            baseline_score: d(0.5),
            baseline_drift: d(0.0),
            scored: 3,
            scorer_ms: 250,
        }),
        winner: Some(text("w")),
        improvement: Some(d(0.02)),
        accepted: true,
        new_incumbent_checksum: Some(text("b")),
        screen_false_positives: 1,
        screen_false_negatives: 1,
        scorer_error: None,
    }
}

fn header() -> JournalLine {
    JournalLine::RunHeader {
        timestamp_unix: 1000,
        seed: 1,
        seed_source: text("supplied"),
        version: text("v"),
        source_creature: text("c"),
        incumbent_checksum: text("a"),
        corpus_identity: text("c"),
        bin_cache: text("c:256"),
        config: text("{}"),
    }
}

fn journal() -> Vec<JournalLine> {
    vec![
        header(),
        JournalLine::Baseline(baseline(0.5, "a")),
        JournalLine::Experiment(Box::new(experiment())),
        JournalLine::Baseline(baseline(0.52, "b")),
        JournalLine::Summary(SummaryRecord {
            timestamp_unix: 1120,
            stop_reason: text("timeout"),
            iterations: 1,
            acceptances: 1,
            opening_score: d(0.5),
            final_score: d(0.52),
            wall_ms: 120_000,
            final_checksum: text("b"),
        }),
    ]
}

fn entry<'a>(rows: &'a [(String, StrategyStats)], key: &str) -> &'a StrategyStats {
    &rows.iter().find(|r| r.0 == key).unwrap().1
}

fn ratio(rate: Option<Rate>) -> Option<f64> {
    rate.map(|r| r.part as f64 / r.whole as f64)
}

#[test]
fn aggregates_strategies_and_economics() {
    let r = report_from_lines(&journal());
    assert_eq!(r.iterations, 1);
    assert_eq!(r.acceptances, 1);
    let gain = |i: Improvement| g(i.closing) - g(i.opening);
    assert!((gain(r.cumulative_improvement.unwrap()) - 0.02).abs() < 1e-12);
    let hourly = r.improvement_per_wall_hour.unwrap();
    let hours = hourly.wall_ms as f64 / 3_600_000.0;
    assert!((gain(hourly.improvement) / hours - 0.6).abs() < 1e-9);
    assert_eq!(r.searches_per_minute, Some(Rate { part: 1, whole: 120_000 }));
    assert_eq!(r.candidates_per_minute, Some(Rate { part: 3, whole: 120_000 }));
    assert_eq!(r.time_to_first_acceptance_ms, Some(60_000));
    assert_eq!(entry(&r.by_strategy, "histogram-stump").winners, 1);
    assert_eq!(entry(&r.by_strategy, "random-stump").winners, 0);
    assert_eq!(entry(&r.by_strategy, "random-stump").full_scored, 1);
    assert_eq!(ratio(r.screen_false_positive_rate), Some(0.5));
    assert_eq!(ratio(r.screen_false_negative_rate), Some(1.0));
    assert!((ratio(r.search_time_fraction).unwrap() - 0.25).abs() < 1e-9);
    assert_eq!(r.accepted[0].affected_fraction, d(0.1));
    assert_eq!(r.stop_reason.as_deref(), Some("timeout"));
    let trajectory: Vec<f64> = r
        .score_trajectory
        .iter()
        .map(|(b, i)| g(*b) + g(*i))
        .collect();
    assert_eq!(trajectory, vec![0.52]);
    assert_eq!(r.candidates_generated, 3);
    assert_eq!(r.candidates_discarded, 0);
    assert_eq!(r.candidates_screened, 3);
    assert_eq!(r.candidates_promoted, 2);
    assert_eq!(r.candidates_full_scored, 3);
    assert_eq!((r.search_ms, r.graft_ms), (100, 10));
    assert_eq!((r.screen_scorer_ms, r.full_scorer_ms), (50, 250));
    assert_eq!(r.bypass_scored, 1);
    assert_eq!(r.accepted[0].at_wall_ms, 60_000);
    assert_eq!(r.accepted[0].id, "w");
}

#[test]
fn empty_journal_reports_none_not_zero() {
    let r = report_from_lines(&Vec::new());
    assert_eq!(r.improvement_per_wall_hour, None);
    assert_eq!(r.searches_per_minute, None);
    assert_eq!(r, JournalReport::default());
    assert_eq!(r.candidates_per_minute, None);
    assert_eq!(r.cumulative_improvement, None);
    assert_eq!(r.wall_ms, 0);
    assert_eq!(r.iterations, 0);
    assert!(r.opening_score.is_none() && r.final_score.is_none());
    assert!(r.search_time_fraction.is_none());
    assert!(r.screen_false_positive_rate.is_none());
    assert!(r.screen_false_negative_rate.is_none());
    assert!(r.by_strategy.is_empty() && r.accepted.is_empty());
    assert!(r.stop_reason.is_none());
}

#[test]
fn a_run_without_a_summary_is_timed_by_its_last_line() {
    let mut lines = journal();
    lines.pop();
    let r = report_from_lines(&lines);
    assert_eq!(r.wall_ms, 60_000);
    assert_eq!(r.stop_reason, None);
    assert_eq!(r.final_score, Some(d(0.52)));
}

#[test]
fn a_journal_whose_totals_overflow_is_not_reported_on() {
    assert!(journal_fits(&journal()));
    assert!(journal_fits(&Vec::new()));
    let two = |change: fn(&mut ExperimentRecord)| {
        let mut first = experiment();
        change(&mut first);
        journal_fits(&vec![
            JournalLine::Experiment(Box::new(first)),
            JournalLine::Experiment(Box::new(experiment())),
        ])
    };
    assert!(two(|_| {}));
    assert!(two(|e| e.candidates_generated = u64::MAX - 3));
    assert!(!two(|e| e.candidates_generated = u64::MAX - 2));
    assert!(!two(|e| e.graft_ms = u64::MAX));
    // The three searching and scoring times are told together.
    assert!(two(|e| e.search_ms = u64::MAX - 700));
    assert!(!two(|e| e.search_ms = u64::MAX - 699));
    assert!(!two(|e| e.screen_false_negatives = u64::MAX));
    // Without a start no time is told.
    assert!(two(|e| e.timestamp_unix = u64::MAX));
}

#[test]
fn only_the_time_since_the_start_must_fit() {
    let run = |from: u64, to: u64, accepted: bool, told: Option<u64>| {
        let mut start = header();
        if let JournalLine::RunHeader { timestamp_unix, .. } = &mut start {
            *timestamp_unix = from;
        }
        let mut e = experiment();
        e.timestamp_unix = to;
        e.accepted = accepted;
        let mut lines = vec![start, JournalLine::Experiment(Box::new(e))];
        if let Some(wall_ms) = told {
            lines.push(JournalLine::Summary(SummaryRecord {
                timestamp_unix: to,
                stop_reason: text("timeout"),
                iterations: 1,
                acceptances: 0,
                opening_score: d(0.5),
                final_score: d(0.5),
                wall_ms,
                final_checksum: text("b"),
            }));
        }
        lines
    };
    let most = u64::MAX / 1000;
    assert!(journal_fits(&run(0, most, true, None)));
    assert!(!journal_fits(&run(0, most + 1, true, None)));
    assert!(!journal_fits(&run(0, most + 1, false, None)));
    // A summary tells the wall time, so only an acceptance needs the difference.
    assert!(journal_fits(&run(0, most + 1, false, Some(5))));
    assert!(!journal_fits(&run(0, most + 1, true, Some(5))));
    let late = run(u64::MAX - 7, u64::MAX, true, None);
    assert!(journal_fits(&late));
    let r = report_from_lines(&late);
    assert_eq!((r.wall_ms, r.time_to_first_acceptance_ms), (7000, Some(7000)));
    assert!(journal_fits(&run(u64::MAX, 0, true, None)));
}

#[test]
fn vetoes_are_counted_among_the_scorer_failures() {
    let mut failed = experiment();
    failed.accepted = false;
    failed.winner = None;
    failed.scorer_error = Some(text("scorer crashed"));
    let mut vetoed = experiment();
    vetoed.accepted = false;
    vetoed.winner = None;
    vetoed.scorer_error = Some(text("baseline disagrees by 1e-3"));
    let lines = vec![
        header(),
        JournalLine::Experiment(Box::new(failed)),
        JournalLine::Experiment(Box::new(vetoed)),
    ];
    let r = report_from_lines(&lines);
    assert_eq!(r.scorer_failures, 2);
    assert_eq!(r.baseline_vetoes, 1);
    assert_eq!(r.acceptances, 0);
    assert!(r.accepted.is_empty());
    assert_eq!(r.time_to_first_acceptance_ms, None);
}

#[test]
fn tables_are_grouped_and_ordered() {
    let lines = journal();
    assert_eq!(
        groups(&lines, Axis::Strategy),
        vec![text("histogram-stump"), text("random-stump")]
    );
    assert_eq!(groups(&lines, Axis::Backend), vec![text("cpu")]);
    assert_eq!(groups(&lines, Axis::Depth), vec![text("depth1")]);
    let stats = stats_of(&lines, Axis::Strategy, &text("histogram-stump"));
    assert_eq!(stats.mean_full_delta(), Some(&vec![d(0.02), d(-0.01)]));
    assert_eq!(stats_of(&lines, Axis::Strategy, &text("other")).mean_full_delta(), None);
    assert_eq!(stats.generated, 2);
    assert_eq!(stats.promoted, 2);
    assert_eq!(stats.full_deltas, vec![d(0.02), d(-0.01)]);
    assert_eq!(stats.accepted_gains, vec![d(0.02)]);
    let rows = table(&lines, Axis::Depth);
    assert_eq!(rows.len(), 1);
    assert_eq!(rows[0].1.generated, 3);
    let none = stats_of(&lines, Axis::Strategy, &text("oblique"));
    assert_eq!(none.generated, 0);
    // However they are grouped, every candidate is counted once.
    for axis in [Axis::Strategy, Axis::Backend, Axis::Depth] {
        let total: u64 = table(&lines, axis).iter().map(|row| row.1.generated).sum();
        assert_eq!(total, 3);
    }
}

fn line_errors(lines: &[String]) -> Vec<Option<String>> {
    lines
        .iter()
        .map(|l| serde_json::from_str::<Value>(l).err().map(|e| e.to_string()))
        .collect()
}

#[test]
fn lines_round_trip_and_malformed_is_error() {
    let mut lines = vec![
        text("{\"record\":\"runHeader\",\"seed\":2}"),
        text("{\"record\":\"summary\",\"wallMs\":10}"),
    ];
    let errors = line_errors(&lines);
    assert_eq!(read_journal(&lines, &errors).unwrap(), vec![0, 1]);
    lines.push(text("{\"record\":\"exp"));
    let errors = line_errors(&lines);
    assert!(read_journal(&lines, &errors)
        .unwrap_err()
        .contains("journal line 3"));
}

#[test]
fn blank_lines_are_skipped_and_the_first_malformed_line_is_named() {
    let lines = vec![text("{}"), text("  \t"), text("{}")];
    let errors = line_errors(&lines);
    assert_eq!(read_journal(&lines, &errors).unwrap(), vec![0, 2]);
    let lines = vec![text(""), text("no"), text("neither")];
    let errors = vec![Some(text("x")), Some(text("first")), Some(text("second"))];
    assert_eq!(
        read_journal(&lines, &errors).unwrap_err(),
        "journal line 2: first"
    );
}

fn stump(feature: usize, right: f32) -> Patch {
    let mut made = provenance();
    made.strategy = text("histogram-stump");
    made.backend = text("cpu");
    made.predicted_gain = d(1.5);
    made.affected_records = 10;
    made.search_records = 100;
    made.incumbent_checksum = text("abc");
    made.seed = Some(7);
    made.notes = vec![text("sampled")];
    Patch::new(0, Node::stump(feature, s(0.25), s(0.0), s(right)), made)
}

fn push_numbers(node: &Node, out: &mut Vec<String>) {
    match node {
        Node::Leaf { correction } => {
            out.push(serde_json::to_string(&f32::from_bits(correction.bits)).unwrap())
        }
        Node::Split { condition, left, right } => {
            for t in &condition.terms {
                out.push(serde_json::to_string(&f32::from_bits(t.weight.bits)).unwrap());
            }
            out.push(serde_json::to_string(&f32::from_bits(condition.threshold.bits)).unwrap());
            push_numbers(left, out);
            push_numbers(right, out);
        }
    }
}

fn id_of(p: &Patch) -> String {
    let mut numbers = Vec::new();
    push_numbers(&p.root, &mut numbers);
    p.id(&numbers)
}

/// A bundle as the log's decisions shape it: each acceptance files the patches
/// that were not filed before, and a patch outside the creature is refused.
struct Bundle {
    log: EnhancementLog,
    filed: Vec<(String, f64)>,
}

impl Bundle {
    fn file(&mut self, patches: &[Patch], score: f64) -> Result<usize, String> {
        let mut fresh = Vec::new();
        let mut outcome = Ok(0);
        for p in patches {
            let id = id_of(p);
            if p.root.features().iter().any(|f| *f >= 3) {
                outcome = Err(format!("feature {} is outside the creature", p.root.features()[0]));
                break;
            }
            if !self.filed.iter().any(|(k, _)| *k == id) {
                fresh.push((id, score));
                outcome = Ok(fresh.len());
            }
        }
        if outcome.is_ok() && self.log.is_on() {
            self.filed.append(&mut fresh);
        }
        self.log.accept(outcome)
    }
}

fn number(x: Single) -> Value {
    Value::from(f64::from(f32::from_bits(x.bits)))
}

fn object(fields: Vec<(&str, Value)>) -> Value {
    Value::Object(fields.into_iter().map(|(k, v)| (text(k), v)).collect())
}

fn node_json(node: &Node) -> Value {
    match node {
        Node::Leaf { correction } => object(vec![("correction", number(*correction))]),
        Node::Split { condition, left, right } => object(vec![
            (
                "terms",
                condition
                    .terms
                    .iter()
                    .map(|t| {
                        object(vec![
                            ("feature", Value::from(t.feature)),
                            ("weight", number(t.weight)),
                        ])
                    })
                    .collect(),
            ),
            ("threshold", number(condition.threshold)),
            ("left", node_json(left)),
            ("right", node_json(right)),
        ]),
    }
}

fn single_in(v: &Value) -> Single {
    s(v.as_f64().unwrap() as f32)
}

fn node_in(v: &Value) -> Node {
    if let Some(correction) = v.get("correction") {
        return Node::Leaf { correction: single_in(correction) };
    }
    Node::Split {
        condition: Condition {
            terms: v["terms"]
                .as_array()
                .unwrap()
                .iter()
                .map(|t| Term {
                    feature: t["feature"].as_u64().unwrap() as usize,
                    weight: single_in(&t["weight"]),
                })
                .collect(),
            threshold: single_in(&v["threshold"]),
        },
        left: Box::new(node_in(&v["left"])),
        right: Box::new(node_in(&v["right"])),
    }
}

/// The patch as another program reads it: through the text of its JSON.
fn translate(p: &Patch) -> Patch {
    let made = &p.provenance;
    let json = object(vec![
        ("version", Value::from(p.version)),
        ("output", Value::from(p.output)),
        ("root", node_json(&p.root)),
        ("strategy", Value::from(made.strategy.as_str())),
        ("backend", Value::from(made.backend.as_str())),
        ("predictedGain", Value::from(g(made.predicted_gain))),
        ("affectedRecords", Value::from(made.affected_records)),
        ("searchRecords", Value::from(made.search_records)),
        ("incumbentChecksum", Value::from(made.incumbent_checksum.as_str())),
        ("seed", Value::from(made.seed)),
        ("notes", Value::from(made.notes.clone())),
    ]);
    let v: Value = serde_json::from_str(&json.to_string()).unwrap();
    let string = |name: &str| text(v[name].as_str().unwrap());
    let mut read = Patch::new(
        v["output"].as_u64().unwrap() as usize,
        node_in(&v["root"]),
        Provenance {
            strategy: string("strategy"),
            backend: string("backend"),
            predicted_gain: d(v["predictedGain"].as_f64().unwrap()),
            affected_records: v["affectedRecords"].as_u64().unwrap(),
            search_records: v["searchRecords"].as_u64().unwrap(),
            incumbent_checksum: string("incumbentChecksum"),
            seed: v["seed"].as_u64(),
            notes: v["notes"]
                .as_array()
                .unwrap()
                .iter()
                .map(|n| text(n.as_str().unwrap()))
                .collect(),
        },
    );
    read.version = v["version"].as_u64().unwrap() as u32;
    read
}

#[test]
fn translation_preserves_the_patch_id_and_its_provenance() {
    let p = stump(1, 0.02);
    let mirrored = translate(&p);
    assert_eq!(id_of(&mirrored), id_of(&p));
    assert!(check_mirrored_id(&id_of(&p), &id_of(&mirrored)).is_ok());
    assert_eq!(mirrored.output, p.output);
    assert_eq!(mirrored.version, p.version);
    assert_eq!(mirrored.provenance.strategy, "histogram-stump");
    assert_eq!(mirrored.provenance.seed, Some(7));
    assert_eq!(mirrored.provenance.notes, vec![text("sampled")]);
    let moved = check_mirrored_id("ab", "cd").unwrap_err();
    assert_eq!(
        moved,
        "patch id changed in translation (ab → cd); the graft's `forest-<id>-…` names would not match"
    );
}

#[test]
fn a_switched_off_log_records_nothing_and_writes_nothing() {
    let mut bundle = Bundle { log: EnhancementLog::off(), filed: Vec::new() };
    assert!(!bundle.log.is_on());
    assert_eq!(bundle.file(&[stump(0, 0.01)], 0.51).unwrap(), 0);
    assert_eq!(bundle.log.write_bundle().unwrap(), BundleStep::Nothing);
    assert!(bundle.filed.is_empty());
}

#[test]
fn accepted_patches_are_filed_in_order_and_never_twice() {
    let mut bundle = Bundle { log: EnhancementLog::open(Ok(())).unwrap(), filed: Vec::new() };
    let seed = stump(0, 0.01);
    let grown = stump(1, 0.02);
    assert_eq!(bundle.file(std::slice::from_ref(&seed), 0.51).unwrap(), 1);
    assert_eq!(bundle.file(&[stump(0, 0.01), stump(1, 0.02)], 0.55).unwrap(), 1);
    assert_eq!(bundle.log.filed(), 2);
    assert_eq!(bundle.log.write_bundle().unwrap(), BundleStep::Write);
    let ids: Vec<&str> = bundle.filed.iter().map(|f| f.0.as_str()).collect();
    assert_eq!(ids, vec![id_of(&seed), id_of(&grown)]);
    assert!((bundle.filed[0].1 - 0.51).abs() < 1e-12);
    assert!(producer().starts_with("neat-ai-forests/"));
}

#[test]
fn a_run_that_accepted_nothing_writes_no_bundle() {
    let log = EnhancementLog::open(Ok(())).unwrap();
    assert!(log.is_on());
    assert_eq!(log.write_bundle().unwrap(), BundleStep::Nothing);
}

#[test]
fn a_refused_patch_poisons_the_bundle_instead_of_shortening_it() {
    let mut bundle = Bundle { log: EnhancementLog::open(Ok(())).unwrap(), filed: Vec::new() };
    bundle.file(&[stump(0, 0.01)], 0.51).unwrap();
    let err = bundle.file(&[stump(9, 0.03)], 0.52).unwrap_err();
    assert!(err.contains("feature 9"), "{err}");
    let err = bundle.log.write_bundle().unwrap_err();
    assert!(err.contains("incomplete enhancement bundle"), "{err}");
    // A later success does not lift it, and the first refusal is the one named.
    bundle.file(&[stump(1, 0.02)], 0.53).unwrap();
    let _ = bundle.file(&[stump(8, 0.03)], 0.54);
    assert!(bundle.log.write_bundle().unwrap_err().contains("feature 9"));
}

#[test]
fn a_non_finite_baseline_is_refused_at_open() {
    let err = EnhancementLog::open(Err(text("baseScore is not finite"))).unwrap_err();
    assert!(err.contains("baseScore"), "{err}");
}

fn read_back(inputs: usize, outputs: usize) -> RoundTrip {
    let again = identity_creature(inputs, outputs);
    let close = Closeness {
        biases: vec![true; again.neurons.len()],
        weights: vec![true; again.synapses.len()],
    };
    RoundTrip::Read(again, close)
}

#[test]
fn source_is_untouched_and_copy_matches() {
    let source = text("{\"input\":2,\"output\":1}");
    let inc = Incumbent::new("creature.json", source.clone(), identity_creature(2, 1));
    assert!(inc.check_copy(source.as_bytes()).is_ok());
    assert_eq!(inc.text, source);
    let meta = inc.meta(17);
    assert_eq!(meta.checksum, sha256_hex(source.as_bytes()));
    assert_eq!(meta.input, 2);
    assert_eq!(meta.created_at_unix, 17);
    assert_eq!(inc.short_checksum(), &meta.checksum[..12]);
    let err = inc.check_copy(b"{}").unwrap_err();
    assert!(matches!(&err, IncumbentError::CopyDrift { expected, observed }
        if *expected == meta.checksum && *observed == sha256_hex(b"{}")));
    assert!(err.message().starts_with("workspace copy checksum "));
}

#[test]
fn malformed_creature_is_refused() {
    let refusal = Some(text("missing field `neurons`"));
    let err = validate_creature(&identity_creature(1, 1), &refusal, &read_back(1, 1)).unwrap_err();
    assert!(matches!(err, IncumbentError::Creature(_)));
    assert_eq!(
        err.message(),
        "creature rejected by NEAT-AI-core: missing field `neurons`"
    );
}

#[test]
fn duplicate_synapses_are_refused() {
    let mut c = identity_creature(2, 1);
    let first = &c.synapses[0];
    let again = Synapse {
        from_uuid: first.from_uuid.clone(),
        to_uuid: first.to_uuid.clone(),
        weight: first.weight,
        role: first.role.clone(),
    };
    c.synapses.push(again);
    let err = validate_creature(&c, &None, &RoundTrip::Failed(text("unused")))
        .unwrap_err()
        .message();
    assert!(err.contains("duplicate synapse"), "{err}");
}

#[test]
fn outputs_must_be_trailing() {
    let grow = || {
        let mut c = identity_creature(1, 1);
        c.neurons.push(Neuron {
            kind: text("hidden"),
            uuid: text("h"),
            bias: d(0.0),
            squash: Some(text("IDENTITY")),
        });
        c.synapses.push(Synapse {
            from_uuid: text("input-0"),
            to_uuid: text("h"),
            weight: d(1.0),
            role: None,
        });
        c
    };
    let close = Closeness { biases: vec![true; 2], weights: vec![true; 2] };
    let err = validate_creature(&grow(), &None, &RoundTrip::Read(grow(), close)).unwrap_err();
    assert!(matches!(err, IncumbentError::OutputsNotLast));
    assert!(err.message().contains("trailing entries"));
}

#[test]
fn a_creature_that_reads_back_differently_is_refused() {
    let c = identity_creature(2, 1);
    assert!(validate_creature(&c, &None, &read_back(2, 1)).is_ok());
    let err = validate_creature(&c, &None, &RoundTrip::Failed(text("broken pipe"))).unwrap_err();
    assert!(matches!(&err, IncumbentError::RoundTrip(m) if m == "broken pipe"));
    let err = validate_creature(&c, &None, &read_back(3, 1)).unwrap_err();
    assert!(matches!(err, IncumbentError::RoundTrip(_)));
    let far = Closeness { biases: vec![false], weights: vec![true] };
    assert!(creatures_equivalent(&c, &identity_creature(2, 1), &far).is_err());
    let near = Closeness { biases: vec![true], weights: vec![true] };
    assert!(creatures_equivalent(&c, &identity_creature(2, 1), &near).is_ok());
    let io = IncumbentError::Io(text("a/b"), text("denied"));
    assert_eq!(io.message(), "a/b: denied");
}

const SRC: &str = r#"{"input":1,"output":1,"uuid":"abc","memetic":{"x":1},
    "tags":[{"name":"score","value":"0.5"},{"name":"x","value":3}],
    "neurons":[{"type":"output","uuid":"output-0","bias":0,"squash":"IDENTITY",
                "tags":[{"name":"discovered","value":"ReLU6"},{"name":"intelligentDesign","value":"SELU -> BENT"}]}],
    "synapses":[{"fromUUID":"input-0","toUUID":"output-0","weight":1}]}"#;

const IDENTITY: &str = r#"{"input":1,"output":1,
    "neurons":[{"type":"output","uuid":"output-0","bias":0,"squash":"IDENTITY"}],
    "synapses":[{"fromUUID":"input-0","toUUID":"output-0","weight":1}]}"#;

fn neuron_tags<'a>(meta: &'a CreatureMeta, uuid: &str) -> Option<&'a Vec<Tag>> {
    meta.neuron_tags.iter().find(|e| e.0 == uuid).map(|e| &e.1)
}

#[test]
fn creature_and_neuron_tags_survive_uuid_and_memetic_do_not() {
    let mut meta = CreatureMeta::from_json(SRC);
    assert_eq!(meta.tags.len(), 2);
    assert_eq!(meta.tags[1].value, "3");
    assert_eq!(neuron_tags(&meta, "output-0").unwrap().len(), 2);
    meta.upsert("score", text("0.6"));
    meta.upsert("forests", text("hi"));
    meta.tag_neuron("output-0", &vec![Tag::new("forests", "touched")]);
    meta.tag_neuron("ghost", &vec![Tag::new("forests", "dropped")]);
    assert_eq!(meta.tagged_neurons(), 2);
    let json = meta.serialize_with(IDENTITY, true).unwrap();
    let v: Value = serde_json::from_str(&json).unwrap();
    assert!(v.get("uuid").is_none() && v.get("memetic").is_none());
    let back = CreatureMeta::from_json(&json);
    let names: Vec<&str> = back.tags.iter().map(|t| t.name.as_str()).collect();
    assert_eq!(names, ["score", "x", "forests"]);
    assert_eq!(back.tags[0].value, "0.6");
    let names: Vec<&str> = neuron_tags(&back, "output-0")
        .unwrap()
        .iter()
        .map(|t| t.name.as_str())
        .collect();
    assert_eq!(names, ["discovered", "intelligentDesign", "forests"]);
    assert!(neuron_tags(&back, "ghost").is_none());
}

#[test]
fn memetic_is_dropped_from_a_creature_that_carries_one() {
    let carrying = IDENTITY.replacen('{', "{\"memetic\":{\"biases\":{\"1\":0.25}},", 1);
    assert!(carrying.contains("memetic"));
    let json = CreatureMeta::default()
        .serialize_with(&carrying, true)
        .unwrap();
    let v: Value = serde_json::from_str(&json).unwrap();
    assert!(v.get("memetic").is_none(), "{json}");
    assert!(v.get("neurons").is_some());
}

#[test]
fn only_named_entries_are_tags() {
    let meta = CreatureMeta::from_json(
        r#"{"tags":[{"name":"a"},{"name":"b","value":true},{"name":"c","value":[1, null]},
            {"name":7,"value":"x"},{"value":"y"},"text",{"name":"d","value":""}],
            "neurons":[{"uuid":"n","tags":[{"name":"one","value":"1"}]},
                {"uuid":"n","tags":[{"name":"two","value":"2"}]},
                {"uuid":"n","tags":[]},{"tags":[{"name":"lost","value":""}]},
                {"uuid":"m","tags":"none"},3]}"#,
    );
    let tags: Vec<(&str, &str)> =
        meta.tags.iter().map(|t| (t.name.as_str(), t.value.as_str())).collect();
    assert_eq!(tags, [("a", ""), ("b", "true"), ("c", "[1,null]"), ("d", "")]);
    assert_eq!(meta.tagged_neurons(), 1);
    assert_eq!(neuron_tags(&meta, "n"), Some(&vec![Tag::new("two", "2")]));
}

#[test]
fn what_is_no_creature_has_no_tags() {
    for text in ["", "{", "[]", "null", "{\"tags\":{}}"] {
        assert_eq!(CreatureMeta::from_json(text), CreatureMeta::default());
    }
    let value: Value = serde_json::from_str(SRC).unwrap();
    assert_eq!(CreatureMeta::from_value(value), CreatureMeta::from_json(SRC));
}

#[test]
fn a_creature_is_written_compact_or_indented() {
    let mut meta = CreatureMeta::default();
    meta.upsert("score", text("1"));
    let creature = r#"{"neurons":[{"uuid":"a","bias":0.5},{"uuid":7}],"input":1}"#;
    meta.tag_neuron("a", &vec![Tag::new("forests", "x\"y")]);
    assert_eq!(
        meta.serialize_with(creature, false).unwrap(),
        r#"{"input":1,"neurons":[{"bias":0.5,"tags":[{"name":"forests","value":"x\"y"}],"uuid":"a"},{"uuid":7}],"tags":[{"name":"score","value":"1"}]}"#
    );
    let pretty = meta.serialize_with(creature, true).unwrap();
    assert!(pretty.starts_with("{\n  \"input\": 1,\n"));
    let (a, b): (Value, Value) = (
        serde_json::from_str(&pretty).unwrap(),
        serde_json::from_str(&meta.serialize_with(creature, false).unwrap()).unwrap(),
    );
    assert_eq!(a, b);
    // Without tags nothing is attached.
    let none = CreatureMeta::default();
    assert_eq!(none.serialize_with(r#"{"b":1,"a":2}"#, false).unwrap(), r#"{"a":2,"b":1}"#);
    // Neurons that are no list are left alone.
    assert_eq!(
        meta.serialize_with(r#"{"neurons":3}"#, false).unwrap(),
        r#"{"neurons":3,"tags":[{"name":"score","value":"1"}]}"#
    );
    let broken = meta.serialize_with("{", false).unwrap_err();
    assert!(broken.contains("EOF while parsing"), "{broken}");
    assert!(meta.serialize_with("[]", false).is_err());
}

#[test]
fn a_tagged_creature_can_be_read_however_deep_it_is_nested() {
    let mut meta = CreatureMeta::default();
    meta.upsert("score", text("1"));
    meta.tag_neuron("a", &vec![Tag::new("forests", "y")]);
    for depth in [1usize, 50, 98] {
        let extra = format!("{}{}", "[".repeat(depth), "]".repeat(depth));
        let creature = format!(r#"{{"neurons":[{{"uuid":"a","bias":0.5}}],"extra":{extra}}}"#);
        for pretty in [false, true] {
            let written = meta.serialize_with(&creature, pretty).unwrap();
            assert!(serde_json::from_str::<Value>(&written).is_ok(), "depth {depth}");
            assert_eq!(CreatureMeta::from_json(&written), meta);
        }
    }
}

#[test]
fn a_neuron_without_tags_is_not_counted() {
    let mut meta = CreatureMeta::default();
    assert_eq!(meta.tagged_neurons(), 0);
    meta.tag_neuron("n", &Vec::new());
    assert_eq!(meta.tagged_neurons(), 0);
    meta.tag_neuron("m", &vec![Tag::new("a", "b")]);
    assert_eq!(meta.tagged_neurons(), 1);
    meta.tag_neuron("n", &vec![Tag::new("c", "d")]);
    assert_eq!(meta.tagged_neurons(), 2);
}

#[test]
fn what_is_read_off_a_written_creature_is_what_was_written() {
    // The text has an identity, a lineage record and tags of its own.
    let mut meta = CreatureMeta::default();
    meta.tag_neuron("output-0", &Vec::new());
    let bare = meta.serialize_with(SRC, false).unwrap();
    let v: Value = serde_json::from_str(&bare).unwrap();
    assert!(v.get("uuid").is_none() && v.get("memetic").is_none() && v.get("tags").is_none());
    assert_eq!(v["neurons"][0]["uuid"], "output-0");
    assert_eq!(CreatureMeta::from_json(&bare), CreatureMeta::default());
    meta.tag_neuron("output-0", &vec![Tag::new("a", "1")]);
    meta.tag_neuron("elsewhere", &vec![Tag::new("b", "2")]);
    meta.upsert("score", text("0.7"));
    let back = CreatureMeta::from_json(&meta.serialize_with(SRC, true).unwrap());
    assert_eq!(back.tags, meta.tags);
    assert_eq!(neuron_tags(&back, "output-0"), neuron_tags(&meta, "output-0"));
    assert_eq!(back.tagged_neurons(), 1);
}
