use neat_ai_forests::bins::{
    assemble_cache, bin_of, cache_path, header_range, occupancy, plan_bins, quantile_edges,
    robust_scale, BinBuildOptions, BinCache, BinCacheError, ColumnBlock, CACHE_FILE_NAME,
};
use neat_ai_forests::config::ForestsConfig;
use neat_ai_forests::corpus::{records_in, Chunk, CorpusInfo};
use neat_ai_forests::digest::sha256_hex;
use neat_ai_forests::floats::{Double, Single};
use neat_ai_forests::patch::{Condition, Node, Patch, Provenance, Term};
use neat_ai_forests::xgboost::{
    convert_dump, export_stride, is_exported, matrix_header, matrix_line, prev_f32, DumpNode,
    MatrixMeta,
};

fn s(x: f32) -> Single {
    Single { bits: x.to_bits() }
}

fn f(x: Single) -> f32 {
    f32::from_bits(x.bits)
}

fn d(x: f64) -> Double {
    Double { bits: x.to_bits() }
}

fn singles(v: &[f32]) -> Vec<Single> {
    v.iter().map(|&x| s(x)).collect()
}

fn provenance(strategy: &str) -> Provenance {
    Provenance {
        strategy: strategy.to_string(),
        backend: String::new(),
        predicted_gain: d(0.0),
        affected_records: 0,
        search_records: 0,
        incumbent_checksum: String::new(),
        seed: None,
        notes: Vec::new(),
    }
}

fn push_numbers(node: &Node, out: &mut Vec<String>) {
    match node {
        Node::Leaf { correction } => out.push(serde_json::to_string(&f(*correction)).unwrap()),
        Node::Split {
            condition,
            left,
            right,
        } => {
            for t in &condition.terms {
                out.push(serde_json::to_string(&f(t.weight)).unwrap());
            }
            out.push(serde_json::to_string(&f(condition.threshold)).unwrap());
            push_numbers(left, out);
            push_numbers(right, out);
        }
    }
}

fn numbers_of(p: &Patch) -> Vec<String> {
    let mut numbers = Vec::new();
    push_numbers(&p.root, &mut numbers);
    numbers
}

// Patches.

#[test]
fn stump_evaluates_with_strict_greater_than_and_nan_left() {
    let n = Node::stump(0, s(0.5), s(-1.0), s(1.0));
    let at = |x: f32| f(n.evaluate(&vec![s(x)]));
    assert_eq!(at(0.5), -1.0);
    assert_eq!(at(0.5000001), 1.0);
    assert_eq!(at(f32::NAN), -1.0);
    assert_eq!(at(f32::INFINITY), 1.0);
    assert_eq!(at(f32::NEG_INFINITY), -1.0);
    assert_eq!(n.depth(), 1);
    assert_eq!(n.split_count(), 1);
}

#[test]
fn json_round_trip_and_id_ignore_provenance() {
    let p = Patch::new(
        0,
        Node::stump(3, s(0.25), s(0.0), s(0.01)),
        provenance(""),
    );
    let back = p.clone();
    assert_eq!(back, p);
    let mut q = p.clone();
    q.provenance.strategy = "other".to_string();
    assert_eq!(p.id(&numbers_of(&p)), q.id(&numbers_of(&q)));
    let r = Patch::new(1, p.root.clone(), provenance(""));
    assert_ne!(p.id(&numbers_of(&p)), r.id(&numbers_of(&r)));
}

#[test]
fn oblique_condition_accumulates_in_order() {
    let c = Condition {
        terms: vec![
            Term {
                feature: 0,
                weight: s(0.5),
            },
            Term {
                feature: 1,
                weight: s(-1.0),
            },
        ],
        threshold: s(0.0),
    };
    let right = |x: [f32; 2]| {
        let mut sum = 0.0f32;
        for t in &c.terms {
            sum += x[t.feature] * f(t.weight);
        }
        sum += -f(c.threshold);
        Condition::sum_goes_right(s(sum))
    };
    assert!(right([2.0, 0.5]));
    assert!(!right([2.0, 1.0]));
    assert!(!c.is_axis_aligned());
}

#[test]
fn weighted_sums_route_a_record_like_its_values() {
    let inner = Node::stump(1, s(2.0), s(10.0), s(20.0));
    let root = Node::Split {
        condition: Condition {
            terms: vec![
                Term {
                    feature: 0,
                    weight: s(0.5),
                },
                Term {
                    feature: 1,
                    weight: s(-1.0),
                },
            ],
            threshold: s(0.0),
        },
        left: Box::new(inner),
        right: Box::new(Node::Leaf {
            correction: s(-1.0),
        }),
    };
    // The root's sum comes first, then that of its left side.
    assert_eq!(root.evaluate_sums(&singles(&[0.5, -1.5])), s(-1.0));
    assert_eq!(root.evaluate_sums(&singles(&[0.0, -1.5])), s(10.0));
    assert_eq!(root.evaluate_sums(&singles(&[-2.0, 0.5])), s(20.0));
    // What is no number goes left.
    assert_eq!(root.evaluate_sums(&singles(&[f32::NAN, f32::NAN])), s(10.0));
    let leaf = Node::Leaf { correction: s(4.0) };
    assert_eq!(leaf.evaluate_sums(&Vec::new()), s(4.0));
}

#[test]
fn records_are_read_inputs_before_targets() {
    let mut data: Vec<u8> = Vec::new();
    for x in [1.0f32, -2.5, 0.25, 3.0, f32::INFINITY, -0.0] {
        data.extend(x.to_le_bytes());
    }
    let chunk = Chunk::from_bytes(&data, 7, 2, 2, 1);
    assert_eq!(chunk.first_index, 7);
    assert_eq!(chunk.records, 2);
    assert_eq!(chunk.inputs, singles(&[1.0, -2.5, 3.0, f32::INFINITY]));
    assert_eq!(chunk.targets, singles(&[0.25, -0.0]));
    let none = Chunk::from_bytes(&[], 0, 0, 2, 1);
    assert!(none.inputs.is_empty() && none.targets.is_empty());
}

#[test]
fn a_file_holds_whole_records_only() {
    assert_eq!(records_in(24, 3), Some(2));
    assert_eq!(records_in(0, 3), Some(0));
    assert_eq!(records_in(25, 3), None);
    assert_eq!(records_in(24, 0), None);
}

#[test]
fn identity_is_the_start_of_a_known_checksum() {
    let p = Patch::new(2, Node::leaf(s(0.5)), provenance(""));
    let numbers = numbers_of(&p);
    let text = p.canonical_json(&numbers);
    assert_eq!(text, "[2,{\"kind\":\"leaf\",\"correction\":0.5}]");
    assert_eq!(p.id(&numbers), sha256_hex(text.as_bytes())[..16].to_string());
    let stump = Patch::new(0, Node::stump(3, s(0.25), s(0.0), s(0.01)), provenance(""));
    assert_eq!(
        stump.canonical_json(&numbers_of(&stump)),
        "[0,{\"kind\":\"split\",\"condition\":{\"terms\":[{\"feature\":3,\"weight\":1.0}],\"threshold\":0.25},\"left\":{\"kind\":\"leaf\",\"correction\":0.0},\"right\":{\"kind\":\"leaf\",\"correction\":0.01}}]"
    );
}

#[test]
fn checksums_are_sha_256_in_hexadecimal() {
    assert_eq!(
        sha256_hex(b"abc"),
        "ba7816bf8f01cfea414140de5dae2223b00361a396177a9cb410ff61f20015ad"
    );
    assert_eq!(
        sha256_hex(b""),
        "e3b0c44298fc1c149afbf4c8996fb92427ae41e4649b934ca495991b7852b855"
    );
}

#[test]
fn tree_measures_and_leaf_replacement() {
    let tree = Node::Split {
        condition: Condition::axis(4, s(1.0)),
        left: Box::new(Node::stump(2, s(0.0), s(0.0), s(-0.75))),
        right: Box::new(Node::leaf(s(0.5))),
    };
    assert_eq!(tree.depth(), 2);
    assert_eq!(tree.split_count(), 2);
    assert_eq!(tree.zero_leaves(), 1);
    assert_eq!(tree.features(), vec![2, 4]);
    assert_eq!(f(tree.max_abs_correction()), 0.75);
    assert_eq!(tree.leaves(), singles(&[0.0, -0.75, 0.5]));
    let other = tree.with_leaves(&singles(&[1.0, 2.0, 3.0]));
    assert_eq!(other.leaves(), singles(&[1.0, 2.0, 3.0]));
    assert_eq!(other.features(), tree.features());
    assert_eq!(tree.with_leaves(&tree.leaves()), tree);
    assert!(tree.is_finite());
    assert!(!tree.with_leaves(&singles(&[1.0, f32::NAN, 3.0])).is_finite());
}

// Bins.

fn lcg(seed: &mut u64) -> f32 {
    *seed = seed
        .wrapping_mul(6364136223846793005)
        .wrapping_add(1442695040888963407);
    ((*seed >> 33) as f32) / (u32::MAX as f32 / 2.0)
}

fn skewed_corpus(n: usize) -> Chunk {
    let mut seed = 7u64;
    let mut inputs = Vec::new();
    for i in 0..n {
        let u = lcg(&mut seed).max(1e-6);
        let skew = (-u.ln()).powi(3); // heavy right tail
        let nan = if i % 50 == 0 { f32::NAN } else { i as f32 };
        inputs.push(s(skew));
        inputs.push(s(nan));
    }
    Chunk {
        first_index: 0,
        records: n,
        inputs,
        targets: vec![s(0.0); n],
    }
}

fn corpus_info(n: usize) -> CorpusInfo {
    CorpusInfo {
        identity: "c0ffee".to_string(),
        record_count: n as u64,
        input_count: 2,
        output_count: 1,
    }
}

fn build_bin_cache(chunk: &Chunk, corpus: &CorpusInfo, opts: &BinBuildOptions) -> BinCache {
    let plan = plan_bins(corpus.record_count, 2, opts);
    let mut edges = Vec::new();
    let mut non_finite = Vec::new();
    let mut start = 0;
    while start < 2 {
        let end = (start + plan.block).min(2);
        let mut block = ColumnBlock::new(start, end);
        block.add_chunk(chunk, 2, plan.stride);
        non_finite.extend(block.non_finite.clone());
        edges.extend(block.into_edges(plan.bins));
        start = end;
    }
    assemble_cache(&plan, corpus, 1, edges, non_finite, 0)
}

#[test]
fn edges_are_deterministic_and_round_trip() {
    let chunk = skewed_corpus(2000);
    let corpus = corpus_info(2000);
    let opts = BinBuildOptions {
        bins: 16,
        ..Default::default()
    };
    let a = build_bin_cache(&chunk, &corpus, &opts);
    let b = build_bin_cache(&chunk, &corpus, &opts);
    assert_eq!(a.edges, b.edges);
    assert_eq!(a.meta.non_finite_counts[1], 40);
    let json = b"{}".to_vec();
    let bytes = a.to_bytes(&json);
    assert_eq!(header_range(&bytes), Ok((12, 14)));
    let back = BinCache::from_bytes(&bytes, Ok(b.meta)).unwrap();
    assert_eq!(back.edges, a.edges);
    assert_eq!(back.meta.corpus_identity, corpus.identity);
    back.check_compatible(&corpus, 16).unwrap();
}

#[test]
fn skewed_feature_gets_far_better_occupancy_than_equal_width() {
    let chunk = skewed_corpus(5000);
    let corpus = corpus_info(5000);
    let cache = build_bin_cache(
        &chunk,
        &corpus,
        &BinBuildOptions {
            bins: 32,
            ..Default::default()
        },
    );
    let values: Vec<Single> = chunk.inputs.chunks(2).map(|r| r[0]).collect();
    let q = occupancy(&cache.edges[0], &values);
    let (min, max) = values
        .iter()
        .fold((f32::MAX, f32::MIN), |(a, b), &v| (a.min(f(v)), b.max(f(v))));
    let width: Vec<Single> = (1..32)
        .map(|i| s(min + (max - min) * i as f32 / 32.0))
        .collect();
    let w = occupancy(&width, &values);
    let share = |c: &[u64]| *c.iter().max().unwrap() as f64 / values.len() as f64;
    assert!(share(&q) < 0.08, "quantile max share {}", share(&q));
    assert!(share(&w) > 0.5, "equal-width max share {}", share(&w));
    assert!(q.iter().filter(|&&c| c == 0).count() <= 1);
    assert_eq!(q.iter().sum::<u64>(), 5000);
}

#[test]
fn mapping_handles_boundaries_duplicates_and_non_finite() {
    let edges = singles(&[0.0, 1.0, 2.0]);
    assert_eq!(bin_of(&edges, s(-5.0)), 0);
    assert_eq!(bin_of(&edges, s(0.0)), 0);
    assert_eq!(bin_of(&edges, s(0.0000001)), 1);
    assert_eq!(bin_of(&edges, s(1.0)), 1);
    assert_eq!(bin_of(&edges, s(2.0)), 2);
    assert_eq!(bin_of(&edges, s(2.5)), 3);
    assert_eq!(bin_of(&edges, s(f32::NAN)), 0);
    assert_eq!(bin_of(&edges, s(f32::INFINITY)), 3);
    assert_eq!(bin_of(&edges, s(f32::NEG_INFINITY)), 0);
    let mut dup = vec![s(1.0); 100];
    dup.extend(vec![s(2.0); 100]);
    let e = quantile_edges(&mut dup, 8);
    assert_eq!(e, singles(&[1.0]));
    let mut constant = vec![s(3.0); 50];
    assert!(quantile_edges(&mut constant, 8).is_empty());
}

#[test]
fn every_bin_of_a_sample_holds_a_value() {
    let samples: Vec<Vec<f32>> = vec![
        vec![7.0],
        (0..37).map(|i| (i * i % 11) as f32).collect(),
        (0..100).map(|i| if i < 90 { 0.0 } else { i as f32 }).collect(),
        vec![-0.0, 0.0, 1.0, -1.0, 0.0],
    ];
    for sample in samples {
        for bins in [2usize, 3, 8, 64] {
            let values = singles(&sample);
            let edges = quantile_edges(&mut values.clone(), bins);
            let counts = occupancy(&edges, &values);
            assert_eq!(counts.len(), edges.len() + 1);
            assert!(counts.iter().all(|c| *c > 0), "{bins} bins: {counts:?}");
        }
    }
}

#[test]
fn stale_and_corrupt_caches_fail_clearly() {
    let chunk = skewed_corpus(300);
    let corpus = corpus_info(300);
    let opts = BinBuildOptions {
        bins: 8,
        ..Default::default()
    };
    let cache = build_bin_cache(&chunk, &corpus, &opts);
    assert!(matches!(
        cache.check_compatible(&corpus, 9),
        Err(BinCacheError::Stale(_))
    ));
    let mut other = corpus_info(300);
    other.identity = "ffff".to_string();
    assert!(matches!(
        cache.check_compatible(&other, 8),
        Err(BinCacheError::Stale(_))
    ));
    let bytes = cache.to_bytes(&b"{}".to_vec());
    let again = || Ok(build_bin_cache(&chunk, &corpus, &opts).meta);
    assert!(matches!(
        BinCache::from_bytes(&bytes[..bytes.len() - 3], again()),
        Err(BinCacheError::Corrupt(_))
    ));
    assert!(matches!(
        BinCache::from_bytes(b"junk", again()),
        Err(BinCacheError::Corrupt(_))
    ));
    let refused = BinCache::from_bytes(&bytes[..20], again()).unwrap_err();
    assert!(refused.calls_for_rebuild());
    let bad_json = BinCache::from_bytes(&bytes, Err("no".to_string())).unwrap_err();
    assert!(bad_json.message().contains("header json: no"));
    let more = corpus_info(301);
    assert!(matches!(
        cache.check_compatible(&more, 8),
        Err(BinCacheError::Stale(_))
    ));
}

#[test]
fn a_cache_of_any_other_length_is_corrupt() {
    let chunk = skewed_corpus(60);
    let corpus = corpus_info(60);
    let opts = BinBuildOptions {
        bins: 4,
        ..Default::default()
    };
    let cache = build_bin_cache(&chunk, &corpus, &opts);
    let json = b"{\"a\":1}".to_vec();
    let bytes = cache.to_bytes(&json);
    let again = || Ok(build_bin_cache(&chunk, &corpus, &opts).meta);
    assert_eq!(BinCache::from_bytes(&bytes, again()).unwrap().edges, cache.edges);
    for n in 0..bytes.len() {
        assert!(
            matches!(BinCache::from_bytes(&bytes[..n], again()), Err(BinCacheError::Corrupt(_))),
            "{n} bytes"
        );
    }
    let mut longer = bytes;
    longer.push(0);
    let refused = BinCache::from_bytes(&longer, again()).unwrap_err();
    assert!(refused.message().contains("trailing bytes"));
    assert_eq!(header_range(&longer).unwrap(), (12, 12 + json.len()));
}

#[test]
fn thresholds_scales_and_rows_of_a_cache() {
    let chunk = skewed_corpus(300);
    let corpus = corpus_info(300);
    let cache = build_bin_cache(
        &chunk,
        &corpus,
        &BinBuildOptions {
            bins: 8,
            ..Default::default()
        },
    );
    assert_eq!(cache.features(), 2);
    assert_eq!(cache.bins(0), cache.edges[0].len() + 1);
    assert_eq!(cache.max_bins(), 8);
    assert_eq!(cache.threshold(0, 0), Some(cache.edges[0][0]));
    assert_eq!(cache.threshold(0, cache.edges[0].len()), None);
    let mut rows = Vec::new();
    cache.bin_rows(&chunk.inputs, 2, &mut rows);
    assert_eq!(rows.len(), 600);
    for (r, row) in chunk.inputs.chunks(2).enumerate() {
        assert_eq!(rows[2 * r], cache.bin(0, row[0]));
        assert_eq!(rows[2 * r + 1], cache.bin(1, row[1]));
    }
    // A value is above a threshold exactly when its bin lies behind it.
    for b in 0..cache.edges[0].len() {
        for row in chunk.inputs.chunks(2) {
            assert_eq!(
                f(row[0]) > f(cache.edges[0][b]),
                cache.bin(0, row[0]) as usize > b
            );
        }
    }
    assert_eq!(f(robust_scale(s(2.0))), 2.0);
    assert_eq!(f(robust_scale(s(0.0))), 1.0);
    assert_eq!(f(robust_scale(s(f32::NAN))), 1.0);
    assert_eq!(cache_path("/data"), format!("/data/{CACHE_FILE_NAME}"));
}

#[test]
fn a_build_keeps_to_its_sample_and_budget() {
    let plan = plan_bins(
        1000,
        10,
        &BinBuildOptions {
            bins: 1,
            sample_records: 300,
            memory_budget_bytes: 3000,
            chunk_records: 100,
        },
    );
    assert_eq!(plan.bins, 2);
    assert_eq!(plan.stride, 4);
    assert_eq!(plan.sample_records, 250);
    assert_eq!(plan.block, 3);
}

// XGBoost.

fn leaf(nodeid: u32, value: f32) -> DumpNode {
    DumpNode {
        nodeid,
        split: None,
        split_condition: None,
        yes: None,
        no: None,
        missing: None,
        leaf: Some(s(value)),
        children: Vec::new(),
    }
}

fn split(
    nodeid: u32,
    feature: &str,
    condition: f32,
    yes: u32,
    no: u32,
    missing: u32,
    children: Vec<DumpNode>,
) -> DumpNode {
    DumpNode {
        nodeid,
        split: Some(feature.to_string()),
        split_condition: Some(s(condition)),
        yes: Some(yes),
        no: Some(no),
        missing: Some(missing),
        leaf: None,
        children,
    }
}

fn dump() -> Vec<DumpNode> {
    vec![
        split(
            0,
            "f2",
            0.5,
            1,
            2,
            1,
            vec![
                split(
                    1,
                    "f0",
                    -1.25,
                    3,
                    4,
                    3,
                    vec![leaf(3, 0.01), leaf(4, -0.02)],
                ),
                leaf(2, 0.03),
            ],
        ),
        leaf(0, 0.5),
        split(0, "f1", 0.0, 1, 2, 2, vec![leaf(1, 1.0), leaf(2, -1.0)]),
    ]
}

#[test]
fn prev_f32_makes_ge_exact() {
    for t in [0.5f32, -1.25, 0.0, 1e-30, 123456.0] {
        let p = f(prev_f32(s(t)));
        assert!(p < t);
        assert!(t > p); // t itself goes right
        let below = f(prev_f32(s(p)));
        assert!(below <= p); // anything below stays left
    }
}

#[test]
fn dump_converts_with_exact_routing_and_rejects_divergent_missing() {
    let dump = dump();
    let (patches, rejected) = convert_dump(&dump, 3, 0, "abc", false, &Vec::new());
    assert_eq!(patches.len(), 1);
    assert_eq!(rejected.len(), 2);
    assert!(rejected[0].reason.contains("single leaf"));
    assert!(rejected[1].reason.contains("missing"));
    let p = &patches[0];
    assert_eq!(p.provenance.strategy, "xgboost-import");
    let at = |x: [f32; 3]| f(p.evaluate(&singles(&x)));
    // x2 = 0.5 → xgboost "no" (>=) → right → 0.03
    assert_eq!(at([0.0, 0.0, 0.5]), 0.03);
    assert_eq!(at([0.0, 0.0, 0.49]), -0.02); // yes → f0 < -1.25? no → -0.02
    assert_eq!(at([-2.0, 0.0, 0.49]), 0.01); // yes → yes
    assert_eq!(at([-1.25, 0.0, 0.49]), -0.02); // x0 == split → xgboost "no"
    assert_eq!(at([f32::NAN, 0.0, 0.49]), 0.01); // missing → yes
    let (allowed, rej) = convert_dump(&dump, 3, 0, "abc", true, &Vec::new());
    assert_eq!(allowed.len(), 2);
    assert_eq!(rej.len(), 1);
    assert!(allowed[1]
        .provenance
        .notes
        .iter()
        .any(|n| n.contains("missing-divergence")));
    let (_, rej) = convert_dump(&dump, 1, 0, "abc", true, &Vec::new());
    assert!(rej.iter().any(|r| r.reason.contains("input width")));
}

#[test]
fn every_fault_of_a_dump_is_named() {
    let reason = |node: DumpNode| {
        let (patches, rejected) = convert_dump(&vec![node], 3, 0, "abc", false, &Vec::new());
        assert!(patches.is_empty());
        rejected[0].reason.clone()
    };
    let kids = || vec![leaf(1, 1.0), leaf(2, -1.0)];
    let whole = || split(0, "f1", 0.0, 1, 2, 1, kids());
    assert_eq!(
        reason(DumpNode {
            split: None,
            ..whole()
        }),
        "split node without `split`"
    );
    assert_eq!(
        reason(split(0, "x1", 0.0, 1, 2, 1, kids())),
        "cannot parse feature name `x1` (expected fN)"
    );
    assert_eq!(
        reason(split(0, "f3", 0.0, 1, 2, 1, kids())),
        "feature 3 >= input width 3"
    );
    assert_eq!(
        reason(DumpNode {
            split_condition: None,
            ..whole()
        }),
        "split node without `split_condition`"
    );
    assert_eq!(
        reason(DumpNode {
            yes: None,
            ..whole()
        }),
        "split node without `yes`"
    );
    assert_eq!(
        reason(DumpNode {
            no: None,
            ..whole()
        }),
        "split node without `no`"
    );
    assert!(reason(split(0, "f1", 0.0, 7, 2, 7, kids())).contains("child"));
}

#[test]
fn matrices_are_exported_at_a_stride() {
    assert_eq!(export_stride(1000, 0), 1);
    assert_eq!(export_stride(1000, 300), 4);
    assert_eq!(export_stride(10, 300), 1);
    assert!(is_exported(8, 4));
    assert!(!is_exported(9, 4));
    assert_eq!(matrix_header(2), "f0,f1,residual,correction");
}

// Configuration.

#[test]
fn a_matrix_is_described_beside_it() {
    let cells = vec!["0.5".to_string(), "-1".to_string()];
    assert_eq!(matrix_line(&cells, "0.25", "0.125"), "0.5,-1,0.25,0.125");
    assert_eq!(matrix_line(&Vec::new(), "1", "2"), "1,2");
    let mut meta = MatrixMeta {
        incumbent_checksum: "ab".to_string(),
        corpus_identity: "c\"d".to_string(),
        corpus_records: 100,
        exported_records: u64::MAX,
        stride: 3,
        output: 0,
        output_squash: Some("TANH".to_string()),
        created_at_unix: 1_700_000_000,
    };
    let text = meta.to_json().unwrap();
    assert!(text.starts_with("{\n  \"corpusIdentity\": \"c\\\"d\",\n  \"corpusRecords\": 100,\n"));
    let v: serde_json::Value = serde_json::from_str(&text).unwrap();
    assert_eq!(v.as_object().unwrap().len(), 9);
    assert_eq!(v["incumbentChecksum"], "ab");
    assert_eq!(v["exportedRecords"], u64::MAX);
    assert_eq!(v["stride"], 3);
    assert_eq!(v["output"], 0);
    assert_eq!(v["outputSquash"], "TANH");
    assert_eq!(v["createdAtUnix"], 1_700_000_000);
    assert_eq!(
        v["target"],
        "correction (pre-squash residual; train XGBoost on this column with base_score=0)"
    );
    meta.output_squash = None;
    let v: serde_json::Value = serde_json::from_str(&meta.to_json().unwrap()).unwrap();
    assert!(v["outputSquash"].is_null());
}

#[test]
fn defaults_validate_and_bad_values_name_the_flag() {
    let c = ForestsConfig::default;
    c().validate().unwrap();
    let bad = ForestsConfig {
        screen_sample_rate: Some(d(1.5)),
        ..c()
    };
    assert!(bad.validate().unwrap_err().contains("--screen-sample-rate"));
    let bad = ForestsConfig {
        max_depth: 4,
        ..c()
    };
    assert!(bad.validate().unwrap_err().contains("--max-depth"));
    let bad = ForestsConfig { bins: 1, ..c() };
    assert!(bad.validate().unwrap_err().contains("--bins"));
}

#[test]
fn every_flag_has_its_own_complaint() {
    let c = ForestsConfig::default;
    let says = |bad: ForestsConfig, flag: &str| {
        let e = bad.validate().unwrap_err();
        assert!(e.contains(flag), "{e} names {flag}");
    };
    says(
        ForestsConfig {
            min_improvement: d(0.0),
            ..c()
        },
        "--min-improvement",
    );
    says(
        ForestsConfig {
            boost_rounds: 9,
            ..c()
        },
        "--boost-rounds",
    );
    says(
        ForestsConfig {
            candidates: 0,
            ..c()
        },
        "--candidates",
    );
    says(
        ForestsConfig {
            analysis_threads: 0,
            ..c()
        },
        "--analysis-threads",
    );
    says(
        ForestsConfig {
            feature_fraction: d(1.5),
            ..c()
        },
        "--feature-fraction",
    );
    says(
        ForestsConfig {
            stump_kinds: Vec::new(),
            ..c()
        },
        "--stump-kinds",
    );
    says(
        ForestsConfig {
            magnitude_scales: vec![s(f32::NAN)],
            ..c()
        },
        "--magnitude-scales",
    );
    says(
        ForestsConfig {
            max_correction: d(-1.0),
            ..c()
        },
        "--max-correction",
    );
    let mut dirs = c();
    dirs.training_data = "/corpus".to_string();
    assert_eq!(dirs.cache_dir(), "/corpus");
    dirs.cache_dir = Some("/cache".to_string());
    assert_eq!(dirs.cache_dir(), "/cache");
}
