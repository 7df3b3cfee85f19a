use neat_ai_forests::candidates::{Candidate, Discovery};
use neat_ai_forests::cli::{
    check_retention, hours_to_seconds, mib_to_bytes, parity_tolerance, parse_kind, prune_policy,
    screen_rate,
};
use neat_ai_forests::cohort::{
    avoid_failures, boost_groups, boost_patch, carry_forward, combine, place_replays,
    room_for_singles, Used,
};
use neat_ai_forests::config::{ForestsConfig, GraftConstants, GrowthPolicy};
use neat_ai_forests::creature::Creature;
use neat_ai_forests::credit::{
    describe, find_winner, output_uuid, runner_ups, tag_best, tag_neurons, verdicts, Credit, RunTag,
    StumpTexts, UNKNOWN_WINNER,
};
use neat_ai_forests::fixtures::identity_creature;
use neat_ai_forests::floats::{Double, Single};
use neat_ai_forests::histogram::StumpKind;
use neat_ai_forests::journal::{
    candidate_record, enter_acceptance, enter_full, enter_outcome, enter_screen, enter_unscreened,
    open_record, CandidateRecord, DiscardRecord, ExperimentRecord, Setting,
};
use neat_ai_forests::learnings::model::{Outcome, TOOL_VERSION};
use neat_ai_forests::meta::{CreatureMeta, Tag};
use neat_ai_forests::patch::{Condition, Node, Patch, Provenance, Term};
use neat_ai_forests::promote::{FullOutcome, PromotionOutcome, ScreenOutcome};
use neat_ai_forests::run::{
    bin_cache_label, iteration_name, iteration_promotion, random_scale, seed_source, winner_name,
    Cohort, RunLoop, Step, StopReason, SEED_STEP,
};
use neat_ai_forests::scorer::ScoreResult;
use neat_ai_forests::text::{
    contains_part, decimal_text, first_chars, is_text_before, path_join, prefix_bytes, starts_with,
    trim,
};
use neat_ai_forests::tools::{
    check_converted, check_output, dump_note, import_generation, import_promotion, import_record,
    NOTHING_CONVERTED,
};
use neat_ai_forests::tree::TreeCandidate;

fn s(x: f32) -> Single {
    Single { bits: x.to_bits() }
}

fn d(x: f64) -> Double {
    Double { bits: x.to_bits() }
}

fn text(x: &str) -> String {
    x.to_string()
}

fn config() -> ForestsConfig {
    ForestsConfig::default()
}

fn patch(feature: usize, strategy: &str) -> Patch {
    Patch::new(
        0,
        Node::stump(feature, s(0.25), s(0.0), s(0.5)),
        Provenance {
            strategy: text(strategy),
            backend: text("cpu"),
            predicted_gain: d(1.0),
            affected_records: 10,
            search_records: 100,
            incumbent_checksum: text("abc"),
            seed: Some(7),
            notes: vec![text("n")],
        },
    )
}

fn candidate(id: &str, feature: usize) -> Candidate {
    Candidate {
        id: text(id),
        patch: patch(feature, "histogram-stump"),
        combo: Vec::new(),
        creature: identity_creature(3, 1),
        added_uuids: Vec::new(),
    }
}

fn strategies(patches: &[Patch]) -> Vec<&str> {
    patches.iter().map(|p| p.provenance.strategy.as_str()).collect()
}

// ---------------------------------------------------------------------------
// The loop.
// ---------------------------------------------------------------------------

#[test]
fn cancellation_is_honoured_and_journal_stays_valid() {
    let mut run = RunLoop::new(&config(), 5);
    let Step::Stop(reason) = run.next(true, true, 1) else {
        panic!("a cancelled run does not iterate");
    };
    assert_eq!(reason, StopReason::Cancelled);
    assert_eq!(run.iterations, 0);
    let summary = run.summary(reason, 9, 12, d(0.5), d(0.5), "abc");
    assert_eq!(summary.stop_reason, "cancelled");
    let result = run.result(&summary, reason, "out/best.json", "out/experiments.jsonl");
    assert_eq!(result.stop_reason, StopReason::Cancelled);
    assert_eq!((result.iterations, result.seed, result.wall_ms), (0, 5, 12));
    assert_eq!(result.best_score, result.opening_score);
}

#[test]
fn repeated_scorer_failures_stop_the_run() {
    let mut cfg = config();
    cfg.max_iterations = None;
    cfg.max_consecutive_scorer_failures = 3;
    let mut run = RunLoop::new(&cfg, 5);
    for _ in 0..2 {
        assert!(matches!(run.next(false, false, 1), Step::Iterate { .. }));
        run.scorer_failed();
    }
    // A cohort that is scored ends the streak.
    assert!(matches!(run.next(false, false, 1), Step::Iterate { .. }));
    run.scored();
    for _ in 0..3 {
        assert!(matches!(run.next(false, false, 1), Step::Iterate { .. }));
        run.scorer_failed();
    }
    assert_eq!(run.next(false, false, 1), Step::Stop(StopReason::ScorerFailures));
    assert_eq!(run.scorer_failures, 5);
    assert_eq!(run.iterations, 6);
    assert_eq!(run.acceptances, 0);
}

#[test]
fn the_run_stops_for_the_first_reason_that_applies() {
    let mut cfg = config();
    cfg.max_iterations = Some(1);
    cfg.max_consecutive_scorer_failures = 1;
    let mut run = RunLoop::new(&cfg, 5);
    assert!(matches!(run.next(false, false, 1), Step::Iterate { .. }));
    run.scorer_failed();
    assert_eq!(run.next(true, true, 1), Step::Stop(StopReason::Cancelled));
    assert_eq!(run.next(false, true, 1), Step::Stop(StopReason::Timeout));
    assert_eq!(run.next(false, false, 1), Step::Stop(StopReason::MaxIterations));
    assert_eq!(StopReason::Timeout.label(), "timeout");
    assert_eq!(StopReason::MaxIterations.label(), "max-iterations");
    assert_eq!(StopReason::ScorerFailures.label(), "scorer-failures");
}

#[test]
fn iterations_take_their_outputs_in_turn_and_their_own_seeds() {
    let mut cfg = config();
    cfg.max_iterations = Some(3);
    let mut run = RunLoop::new(&cfg, 5);
    let mut outputs = Vec::new();
    let mut seeds = Vec::new();
    while let Step::Iterate { seed, output } = run.next(false, false, 2) {
        outputs.push(output);
        seeds.push(seed);
        assert_eq!(run.after_grafting(1, false), Cohort::Score);
        run.scored();
        run.accepted();
    }
    assert_eq!(outputs, [0, 1, 0]);
    let expected: Vec<u64> = (1..=3u64).map(|i| 5 ^ i.wrapping_mul(SEED_STEP)).collect();
    assert_eq!(seeds, expected);
    assert_eq!(run.acceptances, 3);
    // The same seed gives the same iterations.
    let mut again = RunLoop::new(&cfg, 5);
    assert_eq!(
        again.next(false, false, 2),
        Step::Iterate { seed: expected[0], output: 0 }
    );
}

#[test]
fn a_cohort_cancelled_before_scoring_does_not_count() {
    let mut run = RunLoop::new(&config(), 5);
    run.next(false, false, 1);
    assert_eq!(run.after_grafting(0, true), Cohort::Empty);
    assert_eq!(run.iterations, 1);
    run.next(false, false, 1);
    assert_eq!(run.after_grafting(4, true), Cohort::Abandoned);
    assert_eq!(run.iterations, 1);
}

#[test]
fn a_small_cohort_is_not_screened() {
    let mut cfg = config();
    cfg.promote_count = 4;
    cfg.screen_sample_rate = Some(d(0.5));
    assert_eq!(iteration_promotion(&cfg, 4, 9, d(0.7)).screen_sample_rate, None);
    let screened = iteration_promotion(&cfg, 5, 9, d(0.7));
    assert_eq!(screened.screen_sample_rate, Some(d(0.5)));
    assert_eq!(screened.screen_phase, 9);
    assert_eq!(screened.authoritative_baseline, d(0.7));
}

#[test]
fn names_and_labels() {
    assert_eq!(iteration_name(7), "iteration-0007");
    assert_eq!(winner_name(12), "winner-0012");
    assert_eq!(winner_name(123), "winner-0123");
    assert_eq!(iteration_name(12345), "iteration-12345");
    assert_eq!(seed_source(true), "supplied");
    assert_eq!(seed_source(false), "drawn");
    assert_eq!(bin_cache_label("def", 256), "def:256");
    assert_eq!(random_scale(s(0.3)), s(0.3));
    assert_eq!(random_scale(s(0.0)), s(0.01));
    assert_eq!(random_scale(s(f32::NAN)), s(0.01));
}

// ---------------------------------------------------------------------------
// The cohort.
// ---------------------------------------------------------------------------

#[test]
fn boost_rounds_grow_into_bundles() {
    let found = |feature: usize| Discovery {
        root: Node::stump(feature, s(0.0), s(0.0), s(0.3)),
        strategy: text("histogram-stump"),
        backend: text("cpu"),
        gain: d(2.0),
        affected: 4,
        side_records: None,
        notes: Vec::new(),
    };
    let notes = vec![text("sampled")];
    let bundle: Vec<Patch> = (0..3)
        .map(|round| boost_patch(0, &found(round), 600, "abc", 5, round + 1, &notes))
        .collect();
    assert_eq!(bundle[1].provenance.strategy, "boost-round");
    assert_eq!(bundle[1].provenance.notes, ["boost-round=2", "sampled"]);
    assert_eq!(bundle[1].provenance.search_records, 600);
    let groups = boost_groups(&bundle);
    let sizes: Vec<usize> = groups.iter().map(Vec::len).collect();
    assert_eq!(sizes, [2, 3]);
    let used = Used {
        max_depth: 1,
        oblique: false,
        random_candidates: 2,
        replayed: 0,
        dropped: 0,
        bundle: 3,
        carried: 0,
        combo_candidates: 4,
    };
    assert_eq!(
        used.strategies(),
        ["histogram-stump", "random-stump", "boost-rounds/3", "combo"]
    );
}

#[test]
fn every_strategy_in_use_is_named() {
    let used = Used {
        max_depth: 3,
        oblique: true,
        random_candidates: 1,
        replayed: 1,
        dropped: 1,
        bundle: 2,
        carried: 1,
        combo_candidates: 1,
    };
    assert_eq!(
        used.strategies(),
        [
            "histogram-stump",
            "histogram-tree-depth3",
            "oblique-split",
            "random-stump",
            "replay",
            "avoid-known-failures",
            "boost-rounds/2",
            "carry-forward",
            "combo"
        ]
    );
}

#[test]
fn replays_come_first_and_known_failures_are_dropped() {
    let own = vec![patch(0, "own-a"), patch(1, "own-b")];
    let replays = vec![
        vec![patch(2, "lone")],
        vec![patch(0, "pair-a"), patch(1, "pair-b")],
    ];
    let (patches, groups) = place_replays(&own, &replays);
    assert_eq!(strategies(&patches), ["lone", "own-a", "own-b"]);
    assert_eq!(groups.len(), 1);
    let ids = vec![text("i0"), text("i1"), text("i2")];
    let group_ids = vec![vec![text("g0"), text("g1")]];
    let avoided = avoid_failures(&patches, &ids, &groups, &group_ids, &vec![text("i1")]);
    assert_eq!(strategies(&avoided.patches), ["lone", "own-b"]);
    assert_eq!(avoided.groups.len(), 1);
    assert_eq!(avoided.dropped, 1);
    let combo = neat_ai_forests::candidates::combo_id(&group_ids[0]);
    let avoided = avoid_failures(&patches, &ids, &groups, &group_ids, &vec![combo]);
    assert_eq!(avoided.patches.len(), 3);
    assert!(avoided.groups.is_empty());
    assert_eq!(avoided.dropped, 1);
}

#[test]
fn runner_ups_are_carried_into_the_next_iteration() {
    let carried = carry_forward(&vec![patch(1, "histogram-stump")], 4);
    assert_eq!(carried[0].provenance.strategy, "carry-forward:histogram-stump");
    assert_eq!(carried[0].provenance.notes, ["n", "carried from iteration 4"]);
    let mut patches = vec![patch(0, "a"), patch(1, "b")];
    let mut groups = Vec::new();
    combine(&mut patches, &mut groups, 2, &vec![patch(2, "c")], 4, 3);
    assert!(strategies(&patches).contains(&"carry-forward:c"));
    assert!(!groups.is_empty());
    assert_eq!(room_for_singles(10, 3), 7);
    assert_eq!(room_for_singles(3, 10), 0);
}

// ---------------------------------------------------------------------------
// Credit.
// ---------------------------------------------------------------------------

fn texts() -> StumpTexts {
    StumpTexts { threshold: text("0.25"), right: text("+0.5"), left: text("+0") }
}

#[test]
fn patches_are_described() {
    assert_eq!(
        describe(&patch(2, "x").root, &texts()),
        "input-2 > 0.25 ? +0.5 : +0"
    );
    let deep = Node::Split {
        condition: Condition::axis(3, s(0.25)),
        left: Box::new(Node::leaf(s(0.0))),
        right: Box::new(patch(1, "x").root),
    };
    assert_eq!(describe(&deep, &texts()), "input-3 > 0.25 ? subtree : +0");
    let oblique = Node::Split {
        condition: Condition {
            terms: vec![
                Term { feature: 4, weight: s(1.0) },
                Term { feature: 1, weight: s(-1.0) },
            ],
            threshold: s(0.0),
        },
        left: Box::new(Node::leaf(s(0.0))),
        right: Box::new(Node::leaf(s(1.0))),
    };
    assert_eq!(describe(&oblique, &texts()), "depth 1 tree over inputs [1, 4]");
}

#[test]
fn winners_are_found_and_credited() {
    let cohort = vec![candidate("a", 0), candidate("b", 1)];
    assert_eq!(find_winner(&cohort, "b").unwrap(), 1);
    assert_eq!(find_winner(&cohort, "z").unwrap_err(), UNKNOWN_WINNER);
    let creature: Creature = identity_creature(3, 2);
    assert_eq!(output_uuid(&creature, 1), creature.neurons[1].uuid);
    let credit = Credit {
        iteration: 3,
        patch_id: "beef",
        strategy: "histogram-stump",
        backend: "cpu",
        target: "output-0",
        description: "input-2 > 0.25 ? +0.5 : +0",
        improvement: "+1.000e-3",
    };
    let value = format!(
        "neat_ai_forests v{TOOL_VERSION} iteration 3 patch beef (histogram-stump, cpu) → output-0: \
         input-2 > 0.25 ? +0.5 : +0; Δscore +1.000e-3 verified by NEAT-AI-scorer"
    );
    assert_eq!(
        credit.tags(),
        vec![Tag::new("forests", &value), Tag::new("forests-patch", "beef")]
    );
    let mut meta = CreatureMeta::default();
    meta.tag_neuron("old", &vec![Tag::new("x", "y")]);
    tag_neurons(&mut meta, &vec![text("n1"), text("n2")], &credit);
    assert_eq!(meta.tagged_neurons(), 3);
    assert_eq!(meta.neuron_tags[0].1, vec![Tag::new("x", "y")]);
    assert_eq!(meta.neuron_tags[2].1.len(), 2);
}

#[test]
fn the_best_creature_carries_the_run() {
    let mut run = RunTag {
        acceptances: 2,
        iterations: 4,
        last_strategy: "histogram-stump",
        last_target: "output-0",
        opening: d(0.5),
        score: d(0.52),
        score_text: "0.520000",
        gain_text: "+2.000e-2",
    };
    assert_eq!(
        run.forests_tag(),
        "🌳 Forests · 2 accepts / 4 iters · last: histogram-stump · 🎯 output-0 · score: 0.520000 improved by +2.000e-2"
    );
    let mut meta = CreatureMeta::default();
    meta.upsert("score", text("0.5"));
    tag_best(&mut meta, text("0.52"), text("0.48"), &run);
    let names: Vec<&str> = meta.tags.iter().map(|t| t.name.as_str()).collect();
    assert_eq!(names, ["score", "error", "forests", "forests-detail"]);
    assert_eq!(meta.tags[0].value, "0.52");
    assert_eq!(
        meta.tags[3].value,
        "accepted: 2 of 4 iterations\nlast: histogram-stump on output-0\nscore: 0.520000\nimproved by: +2.000e-2"
    );
    run.last_strategy = "";
    run.score = d(0.5);
    assert!(!run.forests_tag().contains("improved by"));
    assert!(run.forests_tag().contains("last: none"));
    assert_eq!(
        run.forests_detail(),
        "accepted: 2 of 4 iterations\nlast: none\nscore: 0.520000"
    );
}

#[test]
fn near_winners_are_the_improving_losers() {
    let mut cohort = vec![
        candidate("a", 0),
        candidate("b", 1),
        candidate("c", 2),
        candidate("d", 0),
        candidate("e", 1),
    ];
    cohort[2].combo.push(patch(0, "x"));
    let deltas = vec![Some(d(0.2)), Some(d(0.1)), Some(d(0.3)), Some(d(-0.1)), None];
    let ups = runner_ups(&cohort, &deltas, Some("a"), 4);
    assert_eq!(ups.len(), 1);
    assert_eq!(ups[0].root.features(), [1]);
    assert_eq!(runner_ups(&cohort, &deltas, None, 1)[0].root.features(), [0]);
}

// ---------------------------------------------------------------------------
// The journal of an iteration.
// ---------------------------------------------------------------------------

fn setting() -> Setting {
    Setting {
        iteration: 2,
        now_unix: 77,
        incumbent_checksum: text("abc"),
        baseline_score: d(0.5),
        search_backend: text("cpu"),
        search_set: text("memory-full"),
        search_records: 100,
        search_features: 3,
        strategies: vec![text("histogram-stump")],
        search_ms: 5,
        graft_ms: 6,
    }
}

fn entries() -> Vec<CandidateRecord> {
    ["a", "b", "c"]
        .iter()
        .enumerate()
        .map(|(i, id)| candidate_record(&candidate(id, i), d(1.0), d(0.1)))
        .collect()
}

fn record() -> ExperimentRecord {
    let gone = vec![DiscardRecord { id: text("z"), reason: text("why") }];
    open_record(setting(), 4, gone, entries())
}

fn result(score: f64) -> ScoreResult {
    ScoreResult {
        score: d(score),
        error: d(1.0 - score),
        complexity_penalty: d(0.0),
        record_count: 10,
        sample_rate: None,
        gpu_backend: None,
        cost_name: None,
        time_taken: d(0.0),
    }
}

fn outcome() -> PromotionOutcome {
    PromotionOutcome {
        screen: Some(ScreenOutcome {
            rate: d(0.5),
            phase: 2,
            baseline_score: d(0.5),
            scores: vec![
                (text("a"), result(0.6)),
                (text("b"), result(0.55)),
                (text("baseline"), result(0.5)),
                (text("c"), result(0.4)),
            ],
            promoted: vec![text("a"), text("b")],
            bypass: vec![text("c")],
            scorer_ms: 11,
        }),
        full: Some(FullOutcome {
            baseline_score: d(0.5),
            baseline_drift: d(0.0),
            scores: vec![
                (text("a"), result(0.58)),
                (text("b"), result(0.45)),
                (text("baseline"), result(0.5)),
            ],
            scorer_ms: 12,
        }),
        winner: Some((text("a"), d(0.08))),
        false_positives: 1,
        false_negatives: 0,
        veto: None,
    }
}

#[test]
fn an_outcome_is_entered_into_the_record() {
    let mut r = record();
    assert_eq!(r.candidates_generated, 4);
    assert_eq!(r.candidates_discarded, 1);
    assert_eq!((r.iteration, r.timestamp_unix), (2, 77));
    let screen = vec![Some(d(0.1)), Some(d(0.05)), Some(d(-0.1))];
    let full = vec![Some(d(0.08)), Some(d(-0.05)), None];
    enter_outcome(&mut r, &outcome(), &screen, &full);
    assert_eq!(r.screen.as_ref().unwrap().screened, 3);
    assert_eq!(r.screen.as_ref().unwrap().promoted, 2);
    assert_eq!(r.screen.as_ref().unwrap().bypass, 1);
    assert_eq!(r.full.as_ref().unwrap().scored, 2);
    let a = &r.candidates[0];
    assert_eq!(a.screen_score, Some(d(0.6)));
    assert_eq!(a.screen_delta, Some(d(0.1)));
    assert_eq!(a.full_score, Some(d(0.58)));
    assert_eq!(a.full_delta, Some(d(0.08)));
    assert!(a.promoted && !a.bypass);
    let c = &r.candidates[2];
    assert!(!c.promoted && c.bypass);
    assert_eq!(c.full_score, None);
    assert_eq!(r.screen_false_positives, 1);
    assert!(!r.accepted);
    enter_acceptance(&mut r, "a", d(0.08), "def");
    assert!(r.accepted);
    assert_eq!(r.winner.as_deref(), Some("a"));
    assert_eq!(r.improvement, Some(d(0.08)));
    assert_eq!(r.new_incumbent_checksum.as_deref(), Some("def"));
    // Those that the full scorer judged become verdicts.
    let judged = verdicts(&r);
    let said: Vec<(&str, Outcome)> = judged.iter().map(|v| (v.id, v.outcome)).collect();
    assert_eq!(said, [("a", Outcome::Accepted), ("b", Outcome::Rejected)]);
    assert_eq!(judged[1].delta, d(-0.05));
}

#[test]
fn stages_are_entered_one_by_one() {
    let out = outcome();
    let mut r = record();
    enter_screen(&mut r, out.screen.as_ref().unwrap(), &vec![Some(d(0.1)), None, None]);
    assert_eq!(r.candidates[0].screen_delta, Some(d(0.1)));
    assert!(r.full.is_none());
    enter_full(&mut r, out.full.as_ref().unwrap(), &vec![Some(d(0.2)), None, None]);
    assert_eq!(r.candidates[0].full_delta, Some(d(0.2)));
    let mut plain = record();
    enter_unscreened(&mut plain);
    assert!(plain.candidates.iter().all(|c| c.promoted && !c.bypass));
}

// ---------------------------------------------------------------------------
// Imports and the command line.
// ---------------------------------------------------------------------------

#[test]
fn imports_are_generated_scored_and_journalled_plainly() {
    assert!(check_output(0, 1).is_ok());
    assert_eq!(check_output(2, 1).unwrap_err(), "--output 2 >= creature output width 1");
    assert_eq!(dump_note("d.json"), "dump=d.json");
    assert_eq!(check_converted(&Vec::new()).unwrap_err(), NOTHING_CONVERTED);
    assert!(check_converted(&vec![patch(0, "x")]).is_ok());
    let mut cfg = config();
    cfg.candidates = 9;
    let made = import_generation(&cfg);
    assert_eq!((made.max_candidates, made.random_candidates), (9, 0));
    assert_eq!(made.magnitude_scales[0].value, s(1.0));
    assert!(made.graft_constants == GraftConstants::Shared);
    cfg.graft_constants = GraftConstants::PerPatch;
    assert!(import_generation(&cfg).graft_constants == GraftConstants::PerPatch);
    assert_eq!(import_promotion(&cfg, d(0.25)).authoritative_baseline, d(0.25));
    let gone = vec![DiscardRecord { id: text("z"), reason: text("why") }];
    let r = import_record(5, "abc", d(0.5), 3, gone, &vec![candidate("a", 1)]);
    assert_eq!(r.candidates_generated, 2);
    assert_eq!(r.candidates[0].features, [1]);
    assert_eq!(r.search_set, "xgboost-dump");
    assert_eq!(r.strategies, ["xgboost-import"]);
}

#[test]
fn a_cache_that_nothing_is_replayed_from_is_only_written_to() {
    let mut cfg = config();
    assert_eq!(cfg.learnings_replay, 8);
    assert!(cfg.reads_learnings());
    cfg.learnings_replay = 0;
    assert!(!cfg.reads_learnings());
    cfg.learnings_replay = 1;
    assert!(cfg.reads_learnings());
}

#[test]
fn arguments_are_read() {
    assert_eq!(parse_kind("left-only"), Ok(StumpKind::LeftOnly));
    assert_eq!(parse_kind("right-only"), Ok(StumpKind::RightOnly));
    assert_eq!(parse_kind("two-leaf"), Ok(StumpKind::TwoLeaf));
    assert_eq!(
        parse_kind("both").unwrap_err(),
        "unknown stump kind `both` (left-only|right-only|two-leaf)"
    );
    assert_eq!(screen_rate(d(0.05)), Some(d(0.05)));
    assert_eq!(screen_rate(d(0.0)), None);
    assert_eq!(screen_rate(d(1.0)), None);
    assert_eq!(screen_rate(d(f64::NAN)), None);
    assert_eq!(parity_tolerance(true, d(1.0)), None);
    assert_eq!(parity_tolerance(false, d(1.0)), Some(d(1.0)));
    assert_eq!(hours_to_seconds(2), 7200);
    assert_eq!(hours_to_seconds(u64::MAX), u64::MAX);
    assert_eq!(mib_to_bytes(3), 3 << 20);
    assert_eq!(mib_to_bytes(usize::MAX), usize::MAX);
    assert!(check_retention(25, 24).is_ok());
    assert!(check_retention(24, 24).unwrap_err().starts_with("--rejected-after-hours 24 must"));
    let policy = prune_policy(1, 2, 3, 4);
    assert_eq!((policy.rejected_after_secs, policy.accepted_after_secs), (3600, 7200));
    assert_eq!((policy.max_records, policy.now_unix), (3, 4));
}

#[test]
fn discoveries_name_how_they_grew() {
    let tree = TreeCandidate {
        root: patch(0, "x").root,
        gain: d(2.0),
        depth: 2,
        affected_records: d(8.0),
        total_records: d(10.0),
        growth: text("level-wise"),
    };
    let found = Discovery::from_tree(&tree, "cpu", 8);
    assert_eq!(found.strategy, "histogram-tree-depth2");
    assert_eq!(found.notes, ["growth=level-wise"]);
    let found = Discovery::from_oblique(&patch(0, "x").root, d(1.0), 4, "axis+1");
    assert_eq!(found.strategy, "oblique-split");
    assert_eq!(found.notes, ["origin=axis+1"]);
    assert_ne!(GrowthPolicy::LevelWise, GrowthPolicy::BestFirst);
}

// ---------------------------------------------------------------------------
// Text.
// ---------------------------------------------------------------------------

#[test]
fn text_helpers_work_by_character() {
    assert_eq!(decimal_text(0), "0");
    assert_eq!(decimal_text(18446744073709551615), "18446744073709551615");
    assert_eq!(first_chars("→ab", 2), "→a");
    assert_eq!(path_join("a", "b"), "a/b");
    assert_eq!(path_join("a/", "b"), "a/b");
    assert_eq!(prefix_bytes("→ab", 3), "→");
    assert_eq!(trim(" \t x y \n"), "x y");
    assert!(starts_with("forest-1", "forest-"));
    assert!(!starts_with("for", "forest-"));
    assert!(is_text_before("a", "b") && is_text_before("a", "ab") && !is_text_before("a", "a"));
    assert!(contains_part("it disagrees by", "disagrees"));
    assert!(!contains_part("agrees", "disagrees"));
}
