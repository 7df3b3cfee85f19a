use neat_ai_forests::candidates::combo_id;
use neat_ai_forests::fixtures::identity_creature;
use neat_ai_forests::floats::{Double, Single};
use neat_ai_forests::graft::{plan_graft, SquashClass};
use neat_ai_forests::learnings::model::{
    file_verdicts, Context, Learning, Outcome, Verdict, LEARNINGS_FORMAT_VERSION, TOOL_VERSION,
};
use neat_ai_forests::learnings::prune::{plan_prune, PruneOutcome, PrunePolicy};
use neat_ai_forests::learnings::replay::{
    choose_replays, grafted_patch_ids, known_failures, patch_of_uuid, Incoming, ReplayConfig,
    DEFAULT_RETRY_AFTER_SECS,
};
use neat_ai_forests::learnings::store::{
    cache_files, check_unchanged, corpora, corpus_name, host_from, needs_rewrite, sanitise,
    CorpusId, HostName, LearningsStore,
};
use neat_ai_forests::patch::{Node, Patch, Provenance};

fn s(x: f32) -> Single {
    Single { bits: x.to_bits() }
}

fn d(x: f64) -> Double {
    Double { bits: x.to_bits() }
}

fn push_numbers(node: &Node, out: &mut Vec<String>) {
    match node {
        Node::Leaf { correction } => {
            out.push(serde_json::to_string(&f32::from_bits(correction.bits)).unwrap())
        }
        Node::Split {
            condition,
            left,
            right,
        } => {
            for t in &condition.terms {
                out.push(serde_json::to_string(&f32::from_bits(t.weight.bits)).unwrap());
            }
            out.push(serde_json::to_string(&f32::from_bits(condition.threshold.bits)).unwrap());
            push_numbers(left, out);
            push_numbers(right, out);
        }
    }
}

fn id_of(p: &Patch) -> String {
    let mut numbers = Vec::new();
    push_numbers(&p.root, &mut numbers);
    p.id(&numbers)
}

fn provenance(strategy: &str, backend: &str) -> Provenance {
    Provenance {
        strategy: strategy.to_string(),
        backend: backend.to_string(),
        predicted_gain: d(0.0),
        affected_records: 0,
        search_records: 0,
        incumbent_checksum: String::new(),
        seed: None,
        notes: Vec::new(),
    }
}

fn patch(feature: usize, correction: f32) -> Patch {
    Patch::new(
        0,
        Node::stump(feature, s(0.5), s(0.0), s(correction)),
        provenance("histogram-stump", "cpu"),
    )
}

fn learning(p: Patch, outcome: Outcome, delta: f64, at: u64, host: &str) -> Learning {
    Learning {
        version: LEARNINGS_FORMAT_VERSION,
        id: id_of(&p),
        patch: p,
        combo: None,
        outcome,
        delta: d(delta),
        corpus: "abc123".to_string(),
        inputs: 8,
        outputs: 1,
        incumbent: format!("creature-{at}"),
        incumbent_score: d(0.5),
        host: host.to_string(),
        at_unix: at,
        tool_version: "test".to_string(),
        notes: Vec::new(),
    }
}

fn policy(now: u64) -> PrunePolicy {
    PrunePolicy {
        rejected_after_secs: 100,
        accepted_after_secs: 1000,
        max_records: 0,
        now_unix: now,
    }
}

fn config(max: usize, now: u64) -> ReplayConfig {
    ReplayConfig {
        max,
        retry_after_secs: 100,
        now_unix: now,
    }
}

fn offered(
    all: &Vec<Learning>,
    incumbent: &str,
    inputs: usize,
    outputs: usize,
    carried: &Vec<String>,
    cfg: &ReplayConfig,
) -> Vec<Learning> {
    let ids: Vec<Vec<String>> = all
        .iter()
        .map(|l| l.patches().into_iter().map(id_of).collect())
        .collect();
    choose_replays(
        all,
        &ids,
        &Incoming {
            incumbent,
            inputs,
            outputs,
        },
        carried,
        cfg,
    )
}

fn nothing_carried() -> Vec<String> {
    Vec::new()
}

fn check_win_before_retry() {
    let all = vec![
        learning(patch(1, 0.1), Outcome::Accepted, 2e-5, 10, "host-a"),
        learning(patch(2, 0.2), Outcome::Accepted, 9e-5, 20, "host-b"),
        // Old enough to retry.
        learning(patch(3, 0.3), Outcome::Rejected, -1e-5, 30, "host-a"),
    ];
    let picked = offered(
        &all,
        "somewhere-else",
        8,
        1,
        &nothing_carried(),
        &config(8, 1000),
    );
    assert_eq!(
        picked.iter().map(|l| l.id.clone()).collect::<Vec<_>>(),
        vec![
            id_of(&patch(2, 0.2)),
            id_of(&patch(1, 0.1)),
            id_of(&patch(3, 0.3))
        ],
        "wins by Δscore, then retries"
    );
}

#[test]
fn learnings_a_win_on_another_creature_is_replayed_before_a_retry() {
    check_win_before_retry();
}

#[test]
fn replay_a_win_on_another_creature_is_replayed_before_a_retry() {
    check_win_before_retry();
}

fn check_recent_failure() {
    let all = vec![learning(
        patch(1, 0.1),
        Outcome::Rejected,
        -1e-5,
        950,
        "host-a",
    )];
    assert!(offered(&all, "elsewhere", 8, 1, &nothing_carried(), &config(8, 1000)).is_empty());
    assert_eq!(
        offered(&all, "elsewhere", 8, 1, &nothing_carried(), &config(8, 1100)).len(),
        1
    );
}

#[test]
fn learnings_a_recent_failure_is_left_alone_until_the_wait_is_over() {
    check_recent_failure();
}

#[test]
fn replay_a_recent_failure_is_left_alone_until_the_wait_is_over() {
    check_recent_failure();
}

fn check_carried() {
    let p = patch(1, 0.1);
    let all = vec![learning(p.clone(), Outcome::Accepted, 2e-5, 10, "host-a")];
    let carried = vec![id_of(&p)];
    assert!(offered(&all, "elsewhere", 8, 1, &carried, &config(8, 1000)).is_empty());
    assert_eq!(
        offered(&all, "elsewhere", 8, 1, &nothing_carried(), &config(8, 1000)).len(),
        1
    );
}

#[test]
fn learnings_a_patch_the_creature_already_carries_is_not_offered_back_to_it() {
    check_carried();
}

#[test]
fn replay_a_patch_the_creature_already_carries_is_not_offered_back_to_it() {
    check_carried();
}

fn check_graft_uuids() {
    let c = identity_creature(3, 1);
    let p = Patch::new(
        0,
        Node::stump(1, s(0.0), s(0.0), s(0.2)),
        provenance("", ""),
    );
    let expected = id_of(&p);
    let plan = plan_graft(&c, &p, &expected, &Ok(SquashClass::Pointwise)).unwrap();
    let mut grafted = plan.base;
    let outputs = grafted.neurons.len() - grafted.output;
    for node in &plan.nodes {
        let mut neuron = grafted.neurons[outputs].clone();
        neuron.kind = "hidden".to_string();
        neuron.uuid = node.uuid.clone();
        neuron.squash = Some("IF".to_string());
        grafted.neurons.insert(outputs, neuron);
    }
    let carried = grafted_patch_ids(&grafted);
    assert!(carried.contains(&expected), "{carried:?}");
    // The shared bias-1 constants are not patches.
    assert!(!carried.iter().any(|id| id == "one"), "{carried:?}");
}

#[test]
fn learnings_the_uuids_a_graft_leaves_behind_say_which_patches_a_creature_carries() {
    check_graft_uuids();
}

#[test]
fn replay_the_uuids_a_graft_leaves_behind_say_which_patches_a_creature_carries() {
    check_graft_uuids();
}

fn check_rejected_win() {
    let p = patch(1, 0.1);
    let mut all = vec![learning(p.clone(), Outcome::Accepted, 2e-5, 10, "host-a")];
    // One win, one later rejection: still worth another creature.
    all.push(learning(p.clone(), Outcome::Rejected, -1e-6, 20, "host-b"));
    let picked = offered(&all, "elsewhere", 8, 1, &nothing_carried(), &config(8, 30));
    assert_eq!(picked.len(), 1, "still offered while the evidence is even");
    assert_eq!(picked[0].outcome, Outcome::Accepted);
    // A second rejection tips it: it now waits its turn in the retry queue.
    all.push(learning(p, Outcome::Rejected, -2e-6, 25, "host-c"));
    assert!(
        offered(&all, "elsewhere", 8, 1, &nothing_carried(), &config(8, 30)).is_empty(),
        "not offered again until the retry window has passed"
    );
    assert_eq!(
        offered(&all, "elsewhere", 8, 1, &nothing_carried(), &config(8, 200)).len(),
        1
    );
}

#[test]
fn learnings_a_win_the_fleet_keeps_rejecting_stops_taking_a_replay_slot() {
    check_rejected_win();
}

#[test]
fn replay_a_win_the_fleet_keeps_rejecting_stops_taking_a_replay_slot() {
    check_rejected_win();
}

fn check_known_failure() {
    let (bad, good) = (patch(1, 0.1), patch(2, 0.2));
    let all = vec![
        learning(bad.clone(), Outcome::Rejected, -1e-5, 990, "host-a"),
        learning(good.clone(), Outcome::Accepted, 2e-5, 990, "host-b"),
    ];
    let avoid = known_failures(&all, &config(8, 1000));
    assert!(avoid.contains(&id_of(&bad)), "the rejected split is avoided");
    assert!(
        !avoid.contains(&id_of(&good)),
        "a patch that worked is never avoided"
    );
    // Once the wait is over the mistake is worth making again.
    assert!(known_failures(&all, &config(8, 2000)).is_empty());
    // What failed does not depend on how much is replayed.
    assert_eq!(known_failures(&all, &config(0, 1000)), avoid);
}

#[test]
fn learnings_a_known_failure_is_kept_out_of_this_iteration_s_cohort() {
    check_known_failure();
}

#[test]
fn replay_a_known_failure_is_kept_out_of_this_iteration_s_cohort() {
    check_known_failure();
}

fn check_worked_somewhere() {
    let p = patch(1, 0.1);
    let all = vec![
        learning(p.clone(), Outcome::Accepted, 2e-5, 900, "host-a"),
        learning(p.clone(), Outcome::Rejected, -1e-6, 990, "host-b"),
    ];
    assert!(!known_failures(&all, &config(8, 1000)).contains(&id_of(&p)));
}

#[test]
fn learnings_a_patch_that_worked_somewhere_is_never_avoided_even_after_a_failure() {
    check_worked_somewhere();
}

#[test]
fn replay_a_patch_that_worked_somewhere_is_never_avoided_even_after_a_failure() {
    check_worked_somewhere();
}

fn context() -> Context {
    Context {
        corpus: "abc123".to_string(),
        inputs: 8,
        outputs: 1,
        incumbent: "creature-a".to_string(),
        incumbent_score: d(0.5),
        host: "host-a".to_string(),
        at_unix: 100,
    }
}

fn check_filing() {
    let mut p = patch(1, 0.1);
    p.provenance.notes = vec!["stride 12".to_string(), "jitter 2".to_string()];
    let ctx = context();
    let id = id_of(&p);
    let verdicts = vec![Verdict {
        id: &id,
        patches: vec![p.clone()],
        outcome: Outcome::Accepted,
        delta: d(1e-5),
    }];
    let filed = file_verdicts(&verdicts, &ctx, &Vec::new());
    assert_eq!(filed.len(), 1);
    assert!(
        filed[0].patch.provenance.notes.is_empty(),
        "run-local notes are not the fleet's business"
    );
    assert_eq!(filed[0].patch.root, p.root, "the tree is kept verbatim");
    assert_eq!(filed[0].incumbent, "creature-a");
    assert_eq!(filed[0].tool_version, TOOL_VERSION);
    // The same candidate on the same creature is not filed twice, however many
    // cycles start from that creature.
    assert!(file_verdicts(&verdicts, &ctx, &filed).is_empty());
}

#[test]
fn learnings_filing_drops_what_is_already_known_and_the_run_local_notes() {
    check_filing();
}

#[test]
fn model_filing_drops_what_is_already_known_and_the_run_local_notes() {
    check_filing();
}

fn check_combination() {
    let (a, b) = (patch(1, 0.1), patch(2, 0.2));
    let id = combo_id(&vec![id_of(&a), id_of(&b)]);
    let ctx = context();
    let filed = file_verdicts(
        &vec![Verdict {
            id: &id,
            patches: vec![a.clone(), b.clone()],
            outcome: Outcome::Accepted,
            delta: d(4e-5),
        }],
        &ctx,
        &Vec::new(),
    );
    assert_eq!(filed.len(), 1);
    assert_eq!(filed[0].patches().len(), 2);
    let replayed = filed[0].replay("creature-b", "+4.000e-5");
    assert_eq!(replayed.len(), 2, "both halves come back");
    assert_eq!(replayed[0].root, a.root);
    assert_eq!(replayed[1].root, b.root);
}

#[test]
fn learnings_a_combination_is_filed_and_replayed_whole() {
    check_combination();
}

#[test]
fn model_a_combination_is_filed_and_replayed_whole() {
    check_combination();
}

fn check_tried() {
    let mut win = learning(patch(1, 0.1), Outcome::Accepted, 2e-5, 10, "host-a");
    win.incumbent = "here".to_string();
    assert!(offered(
        &vec![win],
        "here",
        8,
        1,
        &nothing_carried(),
        &config(8, 1000)
    )
    .is_empty());
}

#[test]
fn learnings_what_this_creature_has_already_tried_is_not_offered_again() {
    check_tried();
}

#[test]
fn replay_what_this_creature_has_already_tried_is_not_offered_again() {
    check_tried();
}

fn check_widths() {
    let all = vec![learning(
        patch(1, 0.1),
        Outcome::Accepted,
        2e-5,
        10,
        "host-a",
    )];
    assert!(offered(&all, "elsewhere", 9, 1, &nothing_carried(), &config(8, 1000)).is_empty());
    assert!(offered(&all, "elsewhere", 8, 2, &nothing_carried(), &config(8, 1000)).is_empty());
    assert_eq!(
        offered(&all, "elsewhere", 8, 1, &nothing_carried(), &config(8, 1000)).len(),
        1
    );
}

#[test]
fn learnings_a_creature_of_another_width_is_never_replayed_onto() {
    check_widths();
}

#[test]
fn replay_a_creature_of_another_width_is_never_replayed_onto() {
    check_widths();
}

fn check_replay() {
    let original = patch(4, 0.25);
    let l = learning(original.clone(), Outcome::Accepted, 3e-5, 10, "host-c");
    let replayed = l.replay("new-incumbent", "+3.000e-5");
    assert_eq!(replayed.len(), 1);
    assert_eq!(replayed[0].root, original.root, "the tree is untouched");
    assert_eq!(id_of(&replayed[0]), id_of(&original), "so is its identity");
    assert_eq!(replayed[0].provenance.strategy, "replay");
    assert_eq!(replayed[0].provenance.backend, "learnings");
    assert_eq!(replayed[0].provenance.incumbent_checksum, "new-incumbent");
    assert!(
        replayed[0].provenance.notes[0].contains("host-c"),
        "says where it came from: {:?}",
        replayed[0].provenance.notes
    );
    assert!(
        replayed[0]
            .provenance
            .notes
            .iter()
            .any(|n| n.contains("histogram-stump")),
        "and how it was found first time"
    );
    assert_eq!(
        replayed[0].provenance.notes[0],
        "replayed from host-c on creature-10 (accepted +3.000e-5)"
    );
}

#[test]
fn learnings_replay_keeps_the_tree_and_rewrites_the_provenance() {
    check_replay();
}

#[test]
fn model_replay_keeps_the_tree_and_rewrites_the_provenance() {
    check_replay();
}

fn check_safe_paths() {
    let store = LearningsStore::new(
        "/tmp/x",
        CorpusId::new("../../etc/passwd"),
        HostName::new("host name/../.."),
    );
    assert_eq!(store.file(), "/tmp/x/corpus-etc-passwd/host-name.jsonl");
    assert!(!store.file().contains("/.."));
}

#[test]
fn learnings_paths_stay_safe_whatever_the_corpus_identity_and_host_are() {
    check_safe_paths();
}

#[test]
fn store_paths_stay_safe_whatever_the_corpus_identity_and_host_are() {
    check_safe_paths();
}

#[test]
fn corpus_and_host_are_typed_and_file_under_their_own_slots() {
    let corpus = CorpusId::new("corpus/one");
    let host = HostName::new("host-a");
    assert_eq!(corpus.as_str(), "corpus/one");
    assert_eq!(host.as_str(), "host-a");
    let store = LearningsStore::new("/tmp/x", corpus, host);
    assert_eq!(store.host(), "host-a");
    assert_eq!(store.corpus_dir(), "/tmp/x/corpus-corpus-one");
    assert_eq!(store.file(), "/tmp/x/corpus-corpus-one/host-a.jsonl");
}

#[test]
fn an_old_rejection_is_dropped_and_a_win_of_the_same_age_is_not() {
    let all = vec![
        learning(patch(1, 0.1), Outcome::Rejected, -1e-5, 10, "host-a"),
        learning(patch(2, 0.2), Outcome::Accepted, 2e-5, 10, "host-a"),
        learning(patch(3, 0.3), Outcome::Rejected, -1e-5, 950, "host-a"),
    ];
    let (kept, out) = plan_prune(&all, &policy(1000));
    assert_eq!(out.dropped_stale_rejected, 1);
    assert_eq!(out.dropped_stale_accepted, 0);
    assert_eq!(
        kept.iter().map(|l| l.id.clone()).collect::<Vec<_>>(),
        vec![id_of(&patch(2, 0.2)), id_of(&patch(3, 0.3))],
        "the win stays, the recent rejection stays, the old rejection goes"
    );
    // A win outlives its window too, eventually.
    let (kept, out) = plan_prune(&all, &policy(2000));
    assert_eq!(out.dropped_stale_accepted, 1);
    assert!(kept.is_empty());
}

#[test]
fn a_repeat_of_the_same_candidate_on_the_same_creature_keeps_the_newest() {
    let mut first = learning(patch(1, 0.1), Outcome::Rejected, -1e-5, 900, "host-a");
    first.incumbent = "creature-x".to_string();
    let mut second = first.clone();
    second.at_unix = 950;
    second.delta = d(-2e-5);
    let mut elsewhere = second.clone();
    elsewhere.incumbent = "creature-y".to_string();
    let (kept, out) = plan_prune(&vec![first, second.clone(), elsewhere], &policy(1000));
    assert_eq!(out.dropped_duplicate, 1);
    assert_eq!(kept.len(), 2);
    assert!(
        kept.iter().any(|l| l.at_unix == 950 && l.delta == d(-2e-5)),
        "the newer verdict is the one kept"
    );
}

#[test]
fn a_capped_file_keeps_the_newest_records() {
    let all: Vec<Learning> = (0..5)
        .map(|i| {
            learning(
                patch(i, 0.1 * (i + 1) as f32),
                Outcome::Accepted,
                1e-5,
                900 + i as u64,
                "host-a",
            )
        })
        .collect();
    let (kept, out) = plan_prune(
        &all,
        &PrunePolicy {
            max_records: 2,
            ..policy(1000)
        },
    );
    assert_eq!(out.dropped_over_cap, 3);
    assert_eq!(
        kept.iter().map(|l| l.at_unix).collect::<Vec<_>>(),
        vec![903, 904],
        "newest two, still in file order"
    );
}

#[test]
fn planning_never_reorders_what_it_keeps() {
    let all: Vec<Learning> = (0..4)
        .map(|i| {
            learning(
                patch(i, 0.1 * (i + 1) as f32),
                Outcome::Accepted,
                1e-5,
                // Deliberately out of order in the file.
                [950u64, 910, 940, 920][i],
                "host-a",
            )
        })
        .collect();
    let (kept, _) = plan_prune(&all, &policy(1000));
    assert_eq!(
        kept.iter().map(|l| l.at_unix).collect::<Vec<_>>(),
        vec![950, 910, 940, 920],
        "a pruned file reads like the one it replaced, minus what went"
    );
}

#[test]
fn every_concern_has_its_own_module_and_the_old_paths_still_reach_it() {
    let l = learning(patch(1, 0.1), Outcome::Accepted, 1e-5, 10, "host-a");
    let (kept, out) = plan_prune(&vec![l.clone()], &policy(20));
    assert_eq!(out.kept, 1);
    let store = LearningsStore::new("/tmp/x", CorpusId::new("c"), HostName::new("host-a"));
    let dir = store.corpus_dir();
    let name = dir.rsplit('/').next().unwrap().to_string();
    assert_eq!(corpora(&vec![name]), vec!["c".to_string()]);
    let cfg = ReplayConfig {
        max: 1,
        retry_after_secs: DEFAULT_RETRY_AFTER_SECS,
        now_unix: 20,
    };
    let picked = offered(&kept, "elsewhere", 8, 1, &nothing_carried(), &cfg);
    assert_eq!(picked, vec![l]);
}

// ---------------------------------------------------------------------------

#[test]
fn a_prune_balances_and_the_cap_holds() {
    let all: Vec<Learning> = (0..6)
        .map(|i| {
            learning(
                patch(i, 0.1),
                if i % 2 == 0 {
                    Outcome::Accepted
                } else {
                    Outcome::Rejected
                },
                1e-5,
                if i < 3 { 0 } else { 940 + i as u64 },
                "host-a",
            )
        })
        .collect();
    let (kept, out) = plan_prune(
        &all,
        &PrunePolicy {
            max_records: 2,
            ..policy(1000)
        },
    );
    assert_eq!(out.read, 6);
    assert_eq!(out.kept, 2);
    assert_eq!(kept.len(), 2);
    assert_eq!(
        out.read,
        out.kept
            + out.dropped_stale_rejected
            + out.dropped_stale_accepted
            + out.dropped_duplicate
            + out.dropped_over_cap
    );
    let mut total = PruneOutcome::default();
    total.add(&out);
    total.add(&out);
    assert_eq!(total.read, 12);
    assert_eq!(total.kept, 4);
    // Adding in another order, or nothing at all, gives the same total.
    let (_, other) = plan_prune(&all, &policy(2000));
    let sum = |list: [&PruneOutcome; 3]| {
        let mut total = PruneOutcome::default();
        for o in list {
            total.add(o);
        }
        total
    };
    let none = PruneOutcome::default();
    assert_eq!(sum([&out, &other, &none]), sum([&none, &other, &out]));
    assert_eq!(sum([&none, &out, &none]), out);
    // Pruning again drops nothing.
    let again = PrunePolicy {
        max_records: 2,
        ..policy(1000)
    };
    let (still, second) = plan_prune(&kept, &again);
    assert_eq!(still, kept);
    assert_eq!(
        second,
        PruneOutcome {
            read: 2,
            kept: 2,
            ..PruneOutcome::default()
        }
    );
    assert!(needs_rewrite(&out, false));
    assert!(!needs_rewrite(&out, true));
    assert!(!needs_rewrite(&PruneOutcome::default(), false));
}

#[test]
fn sanitising_is_stable_and_never_empty() {
    assert_eq!(sanitise("a.b c"), "a-b-c");
    assert_eq!(sanitise("--x--"), "x");
    assert_eq!(sanitise("..."), "unknown");
    assert_eq!(sanitise(""), "unknown");
    let once = sanitise("é/weird name!");
    assert_eq!(sanitise(&once), once);
}

#[test]
fn directories_and_files_are_listed_in_order() {
    let names = vec![
        "corpus-b".to_string(),
        "other".to_string(),
        "corpus-a".to_string(),
    ];
    assert_eq!(corpora(&names), vec!["a".to_string(), "b".to_string()]);
    assert_eq!(corpus_name("corpus-x-1"), Some("x-1".to_string()));
    assert_eq!(corpus_name("x"), None);
    let files = vec![
        "host-b.jsonl".to_string(),
        "host-a.jsonl".to_string(),
        "host-a.jsonl.tmp".to_string(),
        ".jsonl".to_string(),
    ];
    assert_eq!(
        cache_files(&files),
        vec!["host-a.jsonl".to_string(), "host-b.jsonl".to_string()]
    );
}

#[test]
fn the_host_name_is_the_first_one_that_says_something() {
    assert_eq!(
        host_from(&vec![None, Some("  ".to_string()), Some(" box ".to_string())]),
        "box"
    );
    assert_eq!(host_from(&vec![None, None]), "unknown");
}

#[test]
fn a_file_that_grew_is_left_alone() {
    assert!(check_unchanged("/tmp/f", 10, 10).is_ok());
    assert_eq!(
        check_unchanged("/tmp/f", 10, 12).unwrap_err(),
        "/tmp/f grew from 10 to 12 bytes while pruning; run it when this host is idle"
    );
}

#[test]
fn patch_names_read_back_from_uuids() {
    assert_eq!(
        patch_of_uuid("forest-0123456789abcdef-if0"),
        Some("0123456789abcdef".to_string())
    );
    assert_eq!(patch_of_uuid("hidden-3"), None);
}
