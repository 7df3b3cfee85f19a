use neat_ai_forests::bins::{quantile_edges, BinCache, BinMeta};
use neat_ai_forests::cohort::{growth_roots, oblique_controls, oblique_features};
use neat_ai_forests::config::{FeatureSelection, ForestsConfig, GpuMode, GrowthPolicy, RowSampling};
use neat_ai_forests::corpus::Chunk;
use neat_ai_forests::floats::{Double, Single};
use neat_ai_forests::gpu::{
    batch_records, choose_backend, pack_bins, plan_dispatch, Backend, Batch, MAX_BATCH_RECORDS,
};
use neat_ai_forests::histogram::{
    feature_ranges, rank_order, search_stumps, BinnedChunk, MemorySource, SearchControls, SplitStats,
    StumpCandidate, StumpKind,
};
use neat_ai_forests::oblique::{
    axis_partners, best_threshold, can_search, draw_column, draw_terms, jitter_round, keep_best,
    offer_column, projection_order, refined_count, term_columns, term_limit, Cut, CutSums,
    ObliqueCandidate, ObliqueControls, Refinement, ORIGIN_AXIS, ORIGIN_JITTER, ORIGIN_RANDOM,
};
use neat_ai_forests::patch::{Node, Term};
use neat_ai_forests::strategies::{
    assemble_set, decide_rows, draw_rows, feature_note, feature_quota, project_features,
    quantise_chunk, random_features, ranked_features, row_note, sample_target, shuffled_features,
    stratified_trials, stratum_quota, stratum_sizes, stride_plan, uniform_trials, weighted_trials,
    RawReader, RawSample, SearchSet, Trial,
};
use neat_ai_forests::tree::{
    binned_correction, growth_label, keep_last_per_depth, leaf_mask, offer_split, reaches,
    root_features, Growth, PathStep, TreeCandidate, TreeSearchControls,
};
use rand::rngs::StdRng;
use rand::{Rng, SeedableRng};

fn s(x: f32) -> Single {
    Single { bits: x.to_bits() }
}

fn f(x: Single) -> f32 {
    f32::from_bits(x.bits)
}

fn d(x: f64) -> Double {
    Double { bits: x.to_bits() }
}

fn g(x: Double) -> f64 {
    f64::from_bits(x.bits)
}

fn singles(v: &[f32]) -> Vec<Single> {
    v.iter().map(|&x| s(x)).collect()
}

// Sums over the records, which the library takes as values.

#[derive(Debug, Clone, PartialEq)]
struct Hist {
    count: Vec<f64>,
    sum: Vec<f64>,
}

#[derive(Debug, Clone, PartialEq)]
struct HistSet {
    features: Vec<Hist>,
    records: u64,
    total_sum: f64,
    total_count: f64,
}

fn empty_set(bins: &[usize]) -> HistSet {
    HistSet {
        features: bins
            .iter()
            .map(|&b| Hist {
                count: vec![0.0; b],
                sum: vec![0.0; b],
            })
            .collect(),
        records: 0,
        total_sum: 0.0,
        total_count: 0.0,
    }
}

fn accumulate(set: &mut HistSet, chunk: &BinnedChunk, mask: Option<&Vec<bool>>) {
    let nf = chunk.features;
    for r in 0..chunk.records {
        if mask.is_some_and(|m| !m[r]) {
            continue;
        }
        let w = chunk.weight.as_ref().map_or(1.0, |w| f64::from(f(w[r])));
        let res = f64::from(f(chunk.residual[r]));
        for (h, &b) in set
            .features
            .iter_mut()
            .zip(&chunk.bins[r * nf..(r + 1) * nf])
        {
            let b = usize::from(b).min(h.count.len() - 1);
            h.count[b] += w;
            h.sum[b] += w * res;
        }
        set.records += 1;
        set.total_count += w;
        set.total_sum += w * res;
    }
}

fn from_source(src: &MemorySource, bins: &[usize]) -> HistSet {
    let mut set = empty_set(bins);
    for c in &src.chunks {
        accumulate(&mut set, c, None);
    }
    set
}

fn clamp_correction(s: f64, n: f64, max: f64) -> (f64, f64) {
    if n <= 0.0 {
        return (0.0, 0.0);
    }
    let c = (s / n).clamp(-max, max);
    (c, 2.0 * c * s - n * c * c)
}

fn split(
    nl: f64,
    sl: f64,
    nr: f64,
    sr: f64,
    total: f64,
    max: f64,
    threshold: Option<Single>,
) -> SplitStats {
    let (cl, gl) = clamp_correction(sl, nl, max);
    let (cr, gr) = clamp_correction(sr, nr, max);
    let share = |n: f64| d(if total > 0.0 { n / total } else { 0.0 });
    SplitStats {
        threshold,
        left_records: d(nl),
        right_records: d(nr),
        both_records: d(nl + nr),
        left_correction: s(cl as f32),
        right_correction: s(cr as f32),
        left_gain: d(gl),
        right_gain: d(gr),
        both_gain: d(gl + gr),
        left_fraction: share(nl),
        right_fraction: share(nr),
        both_fraction: share(nl + nr),
    }
}

fn stats(set: &HistSet, cache: &BinCache, max: f64) -> Vec<Vec<SplitStats>> {
    set.features
        .iter()
        .enumerate()
        .map(|(feature, h)| {
            let n_total: f64 = h.count.iter().sum();
            let s_total: f64 = h.sum.iter().sum();
            let (mut nl, mut sl) = (0.0, 0.0);
            (0..h.count.len().saturating_sub(1))
                .map(|b| {
                    nl += h.count[b];
                    sl += h.sum[b];
                    split(
                        nl,
                        sl,
                        n_total - nl,
                        s_total - sl,
                        set.total_count,
                        max,
                        cache.threshold(feature, b),
                    )
                })
                .collect()
        })
        .collect()
}

fn search(set: &HistSet, cache: &BinCache, controls: &SearchControls) -> Vec<StumpCandidate> {
    search_stumps(
        &stats(set, cache, g(controls.max_correction)),
        controls,
        &"cpu".to_string(),
    )
}

fn cache_for(values: &[Vec<f32>], bins: usize) -> BinCache {
    let features = values[0].len();
    let edges: Vec<Vec<Single>> = (0..features)
        .map(|c| quantile_edges(&mut values.iter().map(|v| s(v[c])).collect(), bins))
        .collect();
    BinCache {
        meta: BinMeta {
            format_version: 1,
            algorithm_version: 1,
            input_count: features,
            output_count: 1,
            record_count: values.len() as u64,
            corpus_identity: "test".to_string(),
            requested_bins: bins,
            effective_bins: edges.iter().map(|e| (e.len() + 1) as u16).collect(),
            non_finite_counts: vec![0; features],
            non_finite_policy: String::new(),
            sample_records: values.len() as u64,
            sample_stride: 1,
            created_at_unix: 0,
        },
        edges,
    }
}

fn flat(values: &[Vec<f32>]) -> Vec<Single> {
    values.iter().flatten().map(|&x| s(x)).collect()
}

fn source(cache: &BinCache, values: &[Vec<f32>], residual: &[f32]) -> MemorySource {
    let features = values[0].len();
    let mut bins = Vec::new();
    cache.bin_rows(&flat(values), features, &mut bins);
    MemorySource {
        chunks: vec![BinnedChunk {
            records: values.len(),
            features,
            bins,
            residual: singles(residual),
            weight: None,
            first_index: 0,
        }],
        label: "test".to_string(),
    }
}

fn widths(cache: &BinCache) -> Vec<usize> {
    (0..cache.features()).map(|c| cache.bins(c)).collect()
}

#[test]
fn finds_known_optimal_split_and_leaf_value() {
    // Feature 1 carries the signal: residual = +0.5 when x1 > 0.3 else 0.
    let values: Vec<Vec<f32>> = (0..200)
        .map(|i| vec![(i % 7) as f32, i as f32 / 200.0])
        .collect();
    let residual: Vec<f32> = values
        .iter()
        .map(|v| if v[1] > 0.3 { 0.5 } else { 0.0 })
        .collect();
    let cache = cache_for(&values, 20);
    let src = source(&cache, &values, &residual);
    let set = from_source(&src, &widths(&cache));
    let controls = SearchControls {
        min_leaf_records: d(5.0),
        top_k: 5,
        ..Default::default()
    };
    let top = search(&set, &cache, &controls);
    let best = &top[0];
    assert_eq!(best.feature, 1);
    assert!(
        f(best.threshold) >= 0.295 && f(best.threshold) < 0.305,
        "threshold {}",
        f(best.threshold)
    );
    assert_eq!(best.kind, StumpKind::RightOnly);
    assert!((f(best.right_correction) - 0.5).abs() < 1e-6);
    assert_eq!(f(best.left_correction), 0.0);
    let expected_gain = 0.25 * residual.iter().filter(|&&r| r > 0.0).count() as f64;
    assert!((g(best.gain) - expected_gain).abs() < 1e-9);
    assert_eq!(
        g(best.affected_records),
        residual.iter().filter(|&&r| r > 0.0).count() as f64
    );
}

fn brute_force_best_stump(
    values: &[Vec<f32>],
    residual: &[f32],
    feature: usize,
    controls: &SearchControls,
) -> Option<StumpCandidate> {
    let mut idx: Vec<usize> = (0..values.len()).collect();
    idx.sort_by(|&a, &b| values[a][feature].total_cmp(&values[b][feature]));
    let total_n = values.len() as f64;
    let total_s: f64 = residual.iter().map(|&r| f64::from(r)).sum();
    let (mut nl, mut sl) = (0.0, 0.0);
    let mut own = Vec::new();
    for (k, &i) in idx.iter().enumerate() {
        nl += 1.0;
        sl += f64::from(residual[i]);
        let t = values[i][feature];
        let stop = t.is_nan() || idx.get(k + 1).is_some_and(|&j| values[j][feature] == t);
        own.push(split(
            nl,
            sl,
            total_n - nl,
            total_s - sl,
            total_n,
            g(controls.max_correction),
            if stop { None } else { Some(s(t)) },
        ));
    }
    let one = SearchControls {
        top_k: 1,
        ..controls.clone()
    };
    search_stumps(&vec![own], &one, &"brute-force".to_string())
        .into_iter()
        .next()
}

#[test]
fn histogram_matches_brute_force_when_bins_resolve_every_value() {
    let values: Vec<Vec<f32>> = (0..60)
        .map(|i| {
            vec![
                ((i * 37) % 61) as f32 / 10.0,
                ((i * 11) % 13) as f32,
                ((i * 5) % 17) as f32 - 8.0,
            ]
        })
        .collect();
    let residual: Vec<f32> = values
        .iter()
        .map(|v| (v[0] * 0.3 - 1.0).sin() + if v[2] > 0.0 { 0.4 } else { -0.1 })
        .collect();
    let cache = cache_for(&values, 256);
    let src = source(&cache, &values, &residual);
    let set = from_source(&src, &widths(&cache));
    let controls = SearchControls {
        min_leaf_records: d(3.0),
        top_k: 1000,
        ..Default::default()
    };
    let hist = search(&set, &cache, &controls);
    for c in 0..3 {
        let brute = brute_force_best_stump(&values, &residual, c, &controls).unwrap();
        let h = hist.iter().find(|x| x.feature == c).unwrap();
        assert!(
            (g(h.gain) - g(brute.gain)).abs() < 1e-6,
            "feature {c}: {} vs {}",
            g(h.gain),
            g(brute.gain)
        );
        assert_eq!(h.kind, brute.kind);
        assert_eq!(h.threshold, brute.threshold);
    }
}

#[test]
fn threaded_accumulation_matches_sequential() {
    let values: Vec<Vec<f32>> = (0..500)
        .map(|i| vec![((i * 37) % 61) as f32, ((i * 11) % 13) as f32])
        .collect();
    let residual: Vec<f32> = values
        .iter()
        .map(|v| (v[0] * 0.1).sin() + v[1] * 0.01)
        .collect();
    let cache = cache_for(&values, 32);
    let mut src = source(&cache, &values, &residual);
    // Split into 7 chunks.
    let one = src.chunks.remove(0);
    let nf = one.features;
    for (k, rows) in (0..one.records).collect::<Vec<_>>().chunks(73).enumerate() {
        let mut c = BinnedChunk {
            records: rows.len(),
            features: nf,
            bins: Vec::new(),
            residual: Vec::new(),
            weight: None,
            first_index: k as u64,
        };
        for &r in rows {
            c.bins.extend_from_slice(&one.bins[r * nf..(r + 1) * nf]);
            c.residual.push(one.residual[r]);
        }
        src.chunks.push(c);
    }
    assert_eq!(src.chunks.len(), 7);
    let bins = widths(&cache);
    let seq = from_source(&src, &bins);
    // Every worker owns a range of features and sees every record in order.
    let mut par = empty_set(&[]);
    for (lo, hi) in feature_ranges(bins.len(), 4) {
        let mut own = from_source(&src, &bins);
        par.features.extend(own.features.drain(lo..hi));
        par.records = own.records;
        par.total_sum = own.total_sum;
        par.total_count = own.total_count;
    }
    assert_eq!(seq, par);
}

#[test]
fn controls_are_enforced_and_ranking_is_deterministic() {
    let values: Vec<Vec<f32>> = (0..100).map(|i| vec![i as f32]).collect();
    let residual: Vec<f32> = values
        .iter()
        .map(|v| if v[0] > 94.0 { 10.0 } else { 0.0 })
        .collect();
    let cache = cache_for(&values, 100);
    let src = source(&cache, &values, &residual);
    let set = from_source(&src, &[cache.bins(0)]);
    let strict = SearchControls {
        min_leaf_records: d(10.0),
        max_correction: d(1.0),
        top_k: 3,
        ..Default::default()
    };
    let top = search(&set, &cache, &strict);
    for c in &top {
        assert!(f(c.left_correction).abs() <= 1.0 && f(c.right_correction).abs() <= 1.0);
        assert!(g(c.affected_records) >= 10.0);
    }
    let again = search(&set, &cache, &strict);
    assert_eq!(top, again);
    let none = SearchControls {
        min_gain: d(1e12),
        ..strict.clone()
    };
    assert!(search(&set, &cache, &none).is_empty());
    let one_per = SearchControls {
        max_per_feature: 1,
        top_k: 10,
        ..strict
    };
    assert_eq!(search(&set, &cache, &one_per).len(), 1);
}

#[test]
fn feature_ranges_cover_every_feature_once() {
    assert_eq!(feature_ranges(10, 4), vec![(0, 3), (3, 6), (6, 9), (9, 10)]);
    assert_eq!(feature_ranges(2, 8), vec![(0, 1), (1, 2)]);
    assert_eq!(feature_ranges(3, 0), vec![(0, 3)]);
    assert!(feature_ranges(0, 4).is_empty());
}

// Trees.

fn stump(feature: usize, bin: usize, gain: f64) -> StumpCandidate {
    StumpCandidate {
        feature,
        bin,
        threshold: s(0.0),
        kind: StumpKind::TwoLeaf,
        left_correction: s(-0.1),
        right_correction: s(0.1),
        gain: d(gain),
        left_records: d(5.0),
        right_records: d(5.0),
        affected_records: d(10.0),
        affected_fraction: d(1.0),
        backend: "cpu".to_string(),
    }
}

#[test]
fn stumps_rank_by_gain_and_place() {
    let order = |a: &StumpCandidate, b: &StumpCandidate| rank_order(a, b);
    assert_eq!(order(&stump(3, 1, 2.0), &stump(0, 0, 1.0)), std::cmp::Ordering::Less);
    assert_eq!(order(&stump(3, 1, 1.0), &stump(0, 0, 1.0)), std::cmp::Ordering::Greater);
    assert_eq!(order(&stump(0, 0, 1.0), &stump(0, 1, 1.0)), std::cmp::Ordering::Less);
    assert_eq!(order(&stump(0, 1, 1.0), &stump(0, 1, 1.0)), std::cmp::Ordering::Equal);
}

#[test]
fn tree_roots_takes_the_best_distinct_features_up_to_the_limit() {
    let stumps = vec![
        stump(2, 3, 9.0),
        stump(2, 3, 8.0),
        stump(5, 3, 7.0),
        stump(1, 3, 6.0),
        stump(7, 3, 5.0),
    ];
    assert_eq!(root_features(&stumps, 3), vec![(2, 3), (5, 3), (1, 3)]);
    assert_eq!(root_features(&stumps, 1), vec![(2, 3)]);
    assert_eq!(
        root_features(&stumps, 99),
        vec![(2, 3), (5, 3), (1, 3), (7, 3)],
        "never more roots than there are distinct features"
    );
    assert!(root_features(&stumps, 0).is_empty());
    assert_eq!(
        growth_roots(&stumps, 1),
        vec![None, Some((2, 3))],
        "the free choice comes first"
    );
}

fn and_fixture() -> (BinCache, MemorySource, Vec<Vec<f32>>, Vec<f32>) {
    // residual = 0.6 when x0 > 0 AND x1 > 0, else 0.
    let mut values = Vec::new();
    let mut residual = Vec::new();
    let mut seed = 11u64;
    for _ in 0..2000 {
        let mut next = || {
            seed = seed
                .wrapping_mul(6364136223846793005)
                .wrapping_add(1442695040888963407);
            ((seed >> 40) as f32) / (1u64 << 24) as f32 * 2.0 - 1.0
        };
        let (a, b, c) = (next(), next(), next());
        values.push(vec![a, b, c]);
        residual.push(if a > 0.0 && b > 0.0 { 0.6 } else { 0.0 });
    }
    let cache = cache_for(&values, 64);
    let src = source(&cache, &values, &residual);
    (cache, src, values, residual)
}

fn leaf_correction(sum: f64, count: f64, max: f64) -> f32 {
    if count <= 0.0 {
        0.0
    } else {
        (sum / count).clamp(-max, max) as f32
    }
}

fn grow_tree(
    src: &MemorySource,
    cache: &BinCache,
    controls: &TreeSearchControls,
    root: Option<(usize, usize)>,
) -> Vec<TreeCandidate> {
    let bins = widths(cache);
    let map: Vec<usize> = (0..bins.len()).collect();
    let max = g(controls.stump.max_correction);
    let two_leaf = controls.leaf_controls();
    let mut growth = Growth::new(controls.max_depth, controls.growth);
    let mut out: Vec<TreeCandidate> = Vec::new();
    loop {
        let sets: Vec<HistSet> = growth
            .leaves
            .iter()
            .map(|leaf| {
                let mut set = empty_set(&bins);
                if !leaf.frozen {
                    for c in &src.chunks {
                        accumulate(&mut set, c, Some(&leaf_mask(&leaf.path, c)));
                    }
                }
                set
            })
            .collect();
        let total = sets
            .iter()
            .map(|x| x.total_count)
            .sum::<f64>()
            .max(growth.leaves.iter().map(|l| g(l.count)).sum());
        for (i, set) in sets.iter().enumerate() {
            if growth.leaves[i].frozen {
                continue;
            }
            let found = search(set, cache, &two_leaf);
            let fixed = if growth.leaves[i].path.is_empty() {
                root
            } else {
                None
            };
            let best = offer_split(&found, fixed, controls.stump.min_leaf_records);
            let (ls, rs) = best.as_ref().map_or((0.0, 0.0), |c| {
                let sums = &set.features[c.feature].sum;
                (
                    sums[..=c.bin].iter().sum::<f64>(),
                    sums[c.bin + 1..].iter().sum::<f64>(),
                )
            });
            growth.report(
                i,
                d(set.total_count),
                d(set.total_sum),
                best,
                d(ls),
                d(rs),
            );
        }
        let step = growth.advance();
        if !step.grew {
            break;
        }
        if step.snapshot {
            let corrections: Vec<Single> = growth
                .leaves
                .iter()
                .map(|l| s(leaf_correction(g(l.sum), g(l.count), max)))
                .collect();
            let node = growth.tree(&corrections, cache, &map);
            let gain: f64 = growth
                .leaves
                .iter()
                .map(|l| {
                    let c = f64::from(leaf_correction(g(l.sum), g(l.count), max));
                    2.0 * c * g(l.sum) - g(l.count) * c * c
                })
                .sum();
            let affected: f64 = growth
                .leaves
                .iter()
                .filter(|l| leaf_correction(g(l.sum), g(l.count), max) != 0.0)
                .map(|l| g(l.count))
                .sum();
            out.push(TreeCandidate {
                depth: node.depth(),
                root: node,
                gain: d(gain),
                affected_records: d(affected),
                total_records: d(total),
                growth: growth_label(controls.growth),
            });
        }
        if step.done {
            break;
        }
    }
    let depths: Vec<usize> = out.iter().map(|t| t.depth).collect();
    let keep = keep_last_per_depth(&depths);
    let mut out: Vec<Option<TreeCandidate>> = out.into_iter().map(Some).collect();
    keep.into_iter().map(|i| out[i].take().unwrap()).collect()
}

#[test]
fn depth2_finds_interaction_a_stump_cannot() {
    let (cache, src, values, residual) = and_fixture();
    let bins = widths(&cache);
    let stump_controls = SearchControls {
        min_leaf_records: d(20.0),
        top_k: 5,
        ..Default::default()
    };
    let set = from_source(&src, &bins);
    let stumps = search(&set, &cache, &stump_controls);
    let sse: f64 = residual.iter().map(|r| f64::from(*r) * f64::from(*r)).sum();
    let stump_gain = stumps.first().map_or(0.0, |x| g(x.gain));
    assert!(stump_gain < 0.6 * sse, "stump gain {stump_gain} of {sse}");
    for growth in [GrowthPolicy::LevelWise, GrowthPolicy::BestFirst] {
        let controls = TreeSearchControls {
            stump: stump_controls.clone(),
            max_depth: 2,
            growth,
        };
        let trees = grow_tree(&src, &cache, &controls, None);
        let deep = trees.iter().find(|t| t.depth == 2).expect("depth-2 tree");
        assert!(
            g(deep.gain) > 0.85 * sse,
            "{growth:?} gain {} of {sse}",
            g(deep.gain)
        );
        assert!(g(deep.gain) > 1.5 * stump_gain);
        let hits = values
            .iter()
            .zip(&residual)
            .filter(|(v, r)| (f(deep.root.evaluate(&singles(v))) - **r).abs() < 0.15)
            .count();
        assert!(hits > 1850, "{growth:?} hits {hits}");
        assert_eq!(deep.root.features().len(), 2);
    }
}

#[test]
fn depth3_obeys_leaf_and_depth_limits() {
    let (cache, src, _, _) = and_fixture();
    let controls = TreeSearchControls {
        stump: SearchControls {
            min_leaf_records: d(150.0),
            ..Default::default()
        },
        max_depth: 3,
        growth: GrowthPolicy::LevelWise,
    };
    let trees = grow_tree(&src, &cache, &controls, None);
    assert!(!trees.is_empty());
    for t in &trees {
        assert!(t.depth <= 3);
        assert!(t.root.split_count() <= 7);
    }
    // With a huge leaf minimum nothing can split.
    let strict = TreeSearchControls {
        stump: SearchControls {
            min_leaf_records: d(5000.0),
            ..Default::default()
        },
        ..controls
    };
    assert!(grow_tree(&src, &cache, &strict, None).is_empty());
}

#[test]
fn a_grown_tree_agrees_with_the_bins_it_grew_on() {
    let (cache, src, values, _) = and_fixture();
    let controls = TreeSearchControls {
        stump: SearchControls {
            min_leaf_records: d(20.0),
            ..Default::default()
        },
        max_depth: 2,
        growth: GrowthPolicy::LevelWise,
    };
    let first = root_features(
        &search(&from_source(&src, &widths(&cache)), &cache, &controls.stump),
        1,
    )[0];
    let trees = grow_tree(&src, &cache, &controls, Some(first));
    let deep = trees.last().unwrap();
    assert_eq!(deep.root.features().contains(&first.0), true);
    // Every record reaches exactly one leaf: the masks of the two sides of the
    // root part the records.
    let left = leaf_mask(
        &vec![PathStep {
            feature: first.0,
            bin: first.1,
            right: false,
        }],
        &src.chunks[0],
    );
    let right = leaf_mask(
        &vec![PathStep {
            feature: first.0,
            bin: first.1,
            right: true,
        }],
        &src.chunks[0],
    );
    let t = cache.threshold(first.0, first.1).unwrap();
    for (r, v) in values.iter().enumerate() {
        assert!(left[r] != right[r]);
        assert_eq!(right[r], v[first.0] > f(t));
    }
    assert_eq!(keep_last_per_depth(&vec![1, 2, 2, 1]), vec![3, 2]);
}

#[test]
fn a_patch_corrects_a_binned_record_as_it_corrects_the_record() {
    let (cache, src, values, _) = and_fixture();
    let controls = TreeSearchControls {
        stump: SearchControls {
            min_leaf_records: d(20.0),
            ..Default::default()
        },
        max_depth: 2,
        growth: GrowthPolicy::LevelWise,
    };
    let trees = grow_tree(&src, &cache, &controls, None);
    let root = &trees.last().unwrap().root;
    let features: Vec<usize> = (0..cache.features()).collect();
    let nf = features.len();
    for (r, v) in values.iter().enumerate() {
        let row = &src.chunks[0].bins[r * nf..(r + 1) * nf];
        let expected = project_and_evaluate(root, v);
        assert_eq!(binned_correction(root, &cache, &features, row), Some(s(expected)));
    }
}

#[test]
fn two_children_part_the_records_of_their_parent() {
    let (_, src, _, _) = and_fixture();
    let chunk = &src.chunks[0];
    let step = |feature: usize, bin: usize, right: bool| PathStep {
        feature,
        bin,
        right,
    };
    assert!(leaf_mask(&Vec::new(), chunk).iter().all(|m| *m));
    let path = vec![step(0, 1, true)];
    let parent = leaf_mask(&path, chunk);
    let left = leaf_mask(&vec![path[0], step(1, 1, false)], chunk);
    let right = leaf_mask(&vec![path[0], step(1, 1, true)], chunk);
    assert!(parent.contains(&true) && parent.contains(&false));
    for r in 0..chunk.records {
        let above = chunk.bins[r * chunk.features + 1] > 1;
        assert_eq!(right[r], parent[r] && above);
        assert_eq!(left[r], parent[r] && !above);
    }
}

#[test]
fn a_record_reaches_a_leaf_by_every_step_of_its_path() {
    let step = |feature: usize, bin: usize, right: bool| PathStep {
        feature,
        bin,
        right,
    };
    assert!(reaches(&Vec::new(), &[]));
    // A record goes right where its bin is above the split's.
    assert!(!reaches(&vec![step(0, 2, true)], &[2]));
    assert!(reaches(&vec![step(0, 2, false)], &[2]));
    assert!(reaches(&vec![step(0, 2, true)], &[3]));
    let path = vec![step(1, 0, true), step(0, 2, false)];
    assert!(reaches(&path, &[1, 1]));
    assert!(!reaches(&path, &[3, 1]));
    assert!(!reaches(&path, &[1, 0]));
}

#[test]
fn bins_that_cannot_tell_give_no_correction() {
    let values: Vec<Vec<f32>> = (0..8).map(|i| vec![i as f32, (i % 4) as f32]).collect();
    let cache = cache_for(&values, 8);
    let edge = cache.threshold(1, 1).unwrap();
    let stump = Node::stump(1, edge, s(-0.5), s(0.25));
    // The columns of a set may come in another order than those of the corpus.
    let turned = vec![1, 0];
    assert_eq!(binned_correction(&stump, &cache, &turned, &[1, 7]), Some(s(-0.5)));
    assert_eq!(binned_correction(&stump, &cache, &turned, &[2, 0]), Some(s(0.25)));
    // A feature that the set lacks.
    assert_eq!(binned_correction(&stump, &cache, &vec![0], &[2]), None);
    // A threshold between the edges.
    let between = Node::stump(1, s(f(edge) + 0.125), s(-0.5), s(0.25));
    assert_eq!(binned_correction(&between, &cache, &turned, &[2, 0]), None);
    // A weighted sum of several features.
    let mut oblique = stump;
    if let Node::Split { condition, .. } = &mut oblique {
        condition.terms.push(Term {
            feature: 0,
            weight: s(1.0),
        });
    }
    assert_eq!(binned_correction(&oblique, &cache, &turned, &[2, 0]), None);
    // A leaf asks no question.
    let leaf = Node::Leaf { correction: s(3.0) };
    assert_eq!(binned_correction(&leaf, &cache, &turned, &[0, 0]), Some(s(3.0)));
}

// Oblique splits.

fn best_cut(p: &Vec<Single>, sample: &RawSample, controls: &SearchControls) -> Option<Cut> {
    let order = projection_order(p);
    let weight: Vec<f64> = sample.weight.iter().map(|&w| f64::from(f(w))).collect();
    let residual: Vec<f64> = sample.residual.iter().map(|&r| f64::from(f(r))).collect();
    let total_n: f64 = weight.iter().sum();
    let total_s: f64 = residual.iter().zip(&weight).map(|(r, w)| r * w).sum();
    let (mut nl, mut sl) = (0.0, 0.0);
    let max = g(controls.max_correction);
    let sums: Vec<CutSums> = order
        .iter()
        .map(|&i| {
            nl += weight[i];
            sl += residual[i] * weight[i];
            let (nr, sr) = (total_n - nl, total_s - sl);
            let clamp = |s: f64, n: f64| (s / n).clamp(-max, max);
            let (cl, cr) = (clamp(sl, nl), clamp(sr, nr));
            let (gl, gr) = (
                2.0 * cl * sl - nl * cl * cl,
                2.0 * cr * sr - nr * cr * cr,
            );
            CutSums {
                left_records: d(nl),
                right_records: d(nr),
                both_records: d(nl + nr),
                left_correction: s(cl as f32),
                right_correction: s(cr as f32),
                left_gain: d(gl),
                right_gain: d(gr),
                both_gain: d(gl + gr),
            }
        })
        .collect();
    best_threshold(p, &order, &sums, controls)
}

fn evaluate(
    sample: &RawSample,
    cols: &Vec<usize>,
    weights: &Vec<Single>,
    controls: &SearchControls,
    origin: &str,
) -> Option<ObliqueCandidate> {
    let k = sample.features.len();
    let p: Vec<Single> = sample
        .values
        .chunks_exact(k)
        .map(|row| {
            let mut sum = 0.0f32;
            for (&c, &w) in cols.iter().zip(weights) {
                sum += f(row[c]) * f(w);
            }
            s(sum)
        })
        .collect();
    let cut = best_cut(&p, sample, controls)?;
    Some(ObliqueCandidate::new(
        sample,
        cols,
        weights,
        &cut,
        d(sample.residual.len() as f64),
        origin,
    ))
}

fn take_at(found: Vec<ObliqueCandidate>, places: Vec<usize>) -> Vec<ObliqueCandidate> {
    let mut found: Vec<Option<ObliqueCandidate>> = found.into_iter().map(Some).collect();
    places.into_iter().map(|i| found[i].take().unwrap()).collect()
}

fn search_oblique(
    sample: &RawSample,
    scales: &[f32],
    controls: &ObliqueControls,
    seed_axis: Option<usize>,
    rng: &mut StdRng,
) -> Vec<ObliqueCandidate> {
    if !can_search(sample) {
        return Vec::new();
    }
    let k = sample.features.len();
    let norm = |c: usize, w: f32| s(w / scales[c].max(1e-12));
    let mut found = Vec::new();
    if let Some(a) = seed_axis {
        for (b, negative) in axis_partners(a, k) {
            let sign = if negative { -1.0 } else { 1.0 };
            let w = vec![norm(a, 1.0), norm(b, 0.5 * sign)];
            found.extend(evaluate(
                sample,
                &vec![a, b],
                &w,
                &controls.stump,
                ORIGIN_AXIS,
            ));
        }
    }
    let limit = term_limit(controls.max_terms, k);
    for _ in 0..controls.random_combos {
        let terms = draw_terms(limit, rng);
        let mut cols = Vec::new();
        while cols.len() < terms {
            draw_column(&mut cols, k, rng);
        }
        let w: Vec<Single> = cols
            .iter()
            .map(|&c| norm(c, rng.random_range(-1.0f32..1.0)))
            .collect();
        found.extend(evaluate(sample, &cols, &w, &controls.stump, ORIGIN_RANDOM));
    }
    let places = keep_best(&found, refined_count(controls.count));
    let mut refined = Vec::new();
    for cand in take_at(found, places) {
        let Node::Split { condition, .. } = &cand.root else {
            continue;
        };
        let cols = term_columns(&sample.features, &condition.terms);
        let weights: Vec<Single> = condition.terms.iter().map(|t| t.weight).collect();
        let mut r = Refinement {
            best: cand,
            weights,
        };
        for _ in 0..controls.jitter_rounds {
            for step in jitter_round(r.weights.len()) {
                let mut w = r.weights.clone();
                let delta = if step.grow { 1.25f32 } else { 0.8 };
                w[step.term] = s(f(w[step.term]) * delta);
                if let Some(c) = evaluate(sample, &cols, &w, &controls.stump, ORIGIN_JITTER) {
                    r.offer(c, w);
                }
            }
        }
        refined.push(r.best);
    }
    let places = keep_best(&refined, controls.count);
    take_at(refined, places)
}

fn push_sums(root: &Node, row: &[f32], sums: &mut Vec<Single>) {
    if let Node::Split {
        condition,
        left,
        right,
    } = root
    {
        let mut sum = 0.0f32;
        for t in &condition.terms {
            sum += row[t.feature] * f(t.weight);
        }
        sums.push(s(sum + -f(condition.threshold)));
        push_sums(left, row, sums);
        push_sums(right, row, sums);
    }
}

fn project_and_evaluate(root: &Node, row: &[f32]) -> f32 {
    let mut sums = Vec::new();
    push_sums(root, row, &mut sums);
    f(root.evaluate_sums(&sums))
}

#[test]
fn oblique_boundary_beats_every_single_feature_stump() {
    // residual = 0.5 if x0 + x1 > 0 else -0.5
    let mut seed = 3u64;
    let mut next = move || {
        seed = seed
            .wrapping_mul(6364136223846793005)
            .wrapping_add(1442695040888963407);
        ((seed >> 40) as f32) / (1u64 << 24) as f32 * 2.0 - 1.0
    };
    let mut values = Vec::new();
    let mut residual = Vec::new();
    for _ in 0..1500 {
        let (a, b, c) = (next(), next(), next());
        values.push(vec![a, b, c]);
        residual.push(if a + b > 0.0 { 0.5f32 } else { -0.5 });
    }
    let sample = RawSample {
        features: vec![0, 1, 2],
        values: flat(&values),
        residual: singles(&residual),
        weight: vec![s(1.0); 1500],
    };
    let controls = SearchControls {
        min_leaf_records: d(20.0),
        ..Default::default()
    };
    let sse: f64 = residual.iter().map(|r| f64::from(*r) * f64::from(*r)).sum();
    let best_stump = (0..3)
        .filter_map(|c| brute_force_best_stump(&values, &residual, c, &controls))
        .map(|c| g(c.gain))
        .fold(0.0, f64::max);
    let ob = ObliqueControls {
        stump: controls,
        count: 3,
        random_combos: 20,
        jitter_rounds: 3,
        max_terms: 2,
    };
    let mut rng = StdRng::seed_from_u64(1);
    let found = search_oblique(&sample, &[1.0, 1.0, 1.0], &ob, Some(0), &mut rng);
    assert!(found.len() <= 3);
    let top = &found[0];
    assert!(
        g(top.gain) > 1.5 * best_stump,
        "oblique {} vs stump {best_stump}",
        g(top.gain)
    );
    assert!(g(top.gain) > 0.7 * sse);
    let hits = values
        .iter()
        .zip(&residual)
        .filter(|(v, r)| (project_and_evaluate(&top.root, v) - **r).abs() < 0.25)
        .count();
    assert!(hits > 1300, "{hits}");
    // Reproducible with the seed.
    let mut rng2 = StdRng::seed_from_u64(1);
    assert_eq!(
        found,
        search_oblique(&sample, &[1.0, 1.0, 1.0], &ob, Some(0), &mut rng2)
    );
}

#[test]
fn a_column_is_drawn_unless_it_is_there() {
    let mut rng = StdRng::seed_from_u64(5);
    let mut cols = Vec::new();
    assert!(draw_column(&mut cols, 3, &mut rng));
    assert!(cols.len() == 1 && cols[0] < 3);
    while cols.len() < 3 {
        let before = cols.clone();
        let taken = draw_column(&mut cols, 3, &mut rng);
        assert_eq!(cols.len(), before.len() + usize::from(taken));
        assert_eq!(cols[..before.len()], before[..]);
    }
    cols.sort_unstable();
    assert_eq!(cols, [0, 1, 2]);
    assert!(!draw_column(&mut cols, 3, &mut rng));
}

#[test]
fn oblique_search_plans_its_trials() {
    assert_eq!(
        axis_partners(1, 3),
        vec![(0, false), (0, true), (2, false), (2, true)]
    );
    assert_eq!(term_limit(9, 5), 3);
    assert_eq!(term_limit(0, 5), 2);
    assert_eq!(term_limit(3, 2), 2);
    assert_eq!(refined_count(0), 1);
    let mut cols = vec![4];
    assert!(!offer_column(&mut cols, 4));
    assert!(offer_column(&mut cols, 1));
    assert_eq!(cols, vec![4, 1]);
    let mut rng = StdRng::seed_from_u64(8);
    let mut seen = [0usize; 2];
    for _ in 0..50 {
        seen[draw_terms(3, &mut rng) - 2] += 1;
    }
    assert!(seen[0] > 0 && seen[1] > 0);
    let steps = jitter_round(2);
    assert_eq!(steps.len(), 4);
    assert!(!steps[0].grow && steps[1].grow && steps[2].term == 1);
    // Ties and values that are not finite are no place for a threshold.
    let p = singles(&[1.0, f32::NAN, 1.0, 0.0]);
    assert_eq!(projection_order(&p), vec![3, 0, 2, 1]);
    let sample = RawSample {
        features: vec![0, 1],
        values: Vec::new(),
        residual: singles(&[1.0, 1.0, 1.0, -1.0]),
        weight: vec![s(1.0); 4],
    };
    let controls = SearchControls {
        min_leaf_records: d(1.0),
        ..Default::default()
    };
    let cut = best_cut(&p, &sample, &controls).unwrap();
    assert_eq!(f(cut.threshold), 0.0);
    assert_eq!((f(cut.left), f(cut.right)), (-1.0, 1.0));
    assert_eq!(g(cut.gain), 4.0);
    assert_eq!(g(cut.affected), 4.0);
    let none = SearchControls {
        min_leaf_records: d(3.0),
        ..Default::default()
    };
    assert!(best_cut(&p, &sample, &none).is_none());
}

#[test]
fn oblique_features_are_those_of_the_best_stumps() {
    let map = vec![10, 11, 12, 13, 14, 15, 16, 17];
    let stumps: Vec<StumpCandidate> = [3, 3, 0, 1, 2, 4, 5, 6, 7]
        .iter()
        .map(|&x| stump(x, 0, 1.0))
        .collect();
    assert_eq!(
        oblique_features(&stumps, &map),
        vec![13, 10, 11, 12, 14, 15]
    );
    let cfg = ForestsConfig {
        oblique_candidates: 5,
        ..ForestsConfig::default()
    };
    let ob = oblique_controls(&cfg);
    assert_eq!(
        (ob.count, ob.random_combos, ob.jitter_rounds, ob.max_terms),
        (5, 20, 2, 3)
    );
}

// Search sets.

fn fixture(n: usize) -> (BinCache, Chunk, Vec<Single>) {
    let values: Vec<Vec<f32>> = (0..n)
        .map(|i| {
            let x0 = (i % 17) as f32 / 17.0;
            let x1 = ((i * 7) % 23) as f32 / 23.0;
            let x2 = (i % 3) as f32;
            vec![x0, x1, x2]
        })
        .collect();
    // The identity incumbent leaves the second feature's step as its residual.
    let column: Vec<Single> = values
        .iter()
        .map(|v| {
            let target = v[0] + if v[1] > 0.6 { 0.5f32 } else { 0.0 };
            s(target - v[0])
        })
        .collect();
    let cache = cache_for(&values, 32);
    let chunk = Chunk {
        first_index: 0,
        records: n,
        inputs: flat(&values),
        targets: Vec::new(),
    };
    (cache, chunk, column)
}

fn cut_of(p: f64) -> u64 {
    (p.clamp(0.0, 1.0) * (1u64 << 53) as f64).ceil() as u64
}

fn build_search_set(
    cfg: &ForestsConfig,
    cache: &BinCache,
    chunk: &Chunk,
    column: &Vec<Single>,
    seed: u64,
) -> SearchSet {
    let n = column.len();
    let mut rng = StdRng::seed_from_u64(seed);
    let target = sample_target(cfg.search_records, n);
    let (keep, detail) = match cfg.row_sampling {
        RowSampling::Stride => {
            let (keep, stride) = stride_plan(n, target);
            (keep, format!("{stride}"))
        }
        RowSampling::Uniform => {
            let p = target as f64 / n as f64;
            let trials = uniform_trials(n, cut_of(p));
            (draw_rows(n, &trials, &mut rng), format!("{p:.4}"))
        }
        RowSampling::Stratified => {
            let per = stratum_quota(target);
            let odds: Vec<(u64, Single)> = stratum_sizes(n)
                .iter()
                .map(|&pop| {
                    let p = (per as f64 / pop as f64).min(1.0);
                    (cut_of(p), s((1.0 / p) as f32))
                })
                .collect();
            let trials = stratified_trials(column, &odds);
            (draw_rows(n, &trials, &mut rng), format!("{per}"))
        }
        RowSampling::ResidualWeighted => {
            let eps = 1e-6f64;
            let size = |r: Single| f64::from(f(r).abs()) + eps;
            let total: f64 = column.iter().map(|&r| size(r)).sum();
            let odds: Vec<(u64, Single)> = column
                .iter()
                .map(|&r| {
                    let p = (size(r) / total * target as f64).min(1.0);
                    (cut_of(p), s((1.0 / p) as f32))
                })
                .collect();
            let trials = weighted_trials(&odds);
            (draw_rows(n, &trials, &mut rng), format!("{target}"))
        }
    };
    let notes = vec![row_note(cfg.row_sampling, &detail)];
    let part = quantise_chunk(cache, chunk, &keep, column);
    let mut set = assemble_set(
        vec![part],
        cache.features(),
        cfg.search_records,
        n as u64,
        0,
        cfg.row_sampling,
        cfg.feature_selection,
        notes,
    );
    let all = set.feature_map.len();
    let wanted = (all as f64 * g(cfg.feature_fraction)).ceil() as usize;
    let keep = feature_quota(wanted, all);
    let selected = match cfg.feature_selection {
        FeatureSelection::All => return set,
        FeatureSelection::Random => random_features(all, keep, &mut rng),
        FeatureSelection::ErrorRanked => {
            let bins = set.bins_per_feature(cache);
            let hist = from_source(&set.source, &bins);
            let scores: Vec<Double> = hist
                .features
                .iter()
                .map(|h| {
                    let n: f64 = h.count.iter().sum();
                    let mean = h.sum.iter().sum::<f64>() / n;
                    d(h.count
                        .iter()
                        .zip(&h.sum)
                        .filter(|(c, _)| **c > 0.0)
                        .map(|(c, x)| c * (x / c - mean).powi(2))
                        .sum())
                })
                .collect();
            ranked_features(&scores, keep)
        }
    };
    set.notes
        .extend(feature_note(cfg.feature_selection, keep, all));
    project_features(&mut set, &selected);
    set
}

#[test]
fn stride_set_is_deterministic_and_complete_when_unsampled() {
    let (cache, chunk, column) = fixture(300);
    let cfg = ForestsConfig {
        search_records: 0,
        ..ForestsConfig::default()
    };
    let a = build_search_set(&cfg, &cache, &chunk, &column, 1);
    let b = build_search_set(&cfg, &cache, &chunk, &column, 2);
    assert_eq!(a.records(), 300);
    assert_eq!(a.record_indices, b.record_indices);
    assert_eq!(a.label(), "memory-full");
    let cfg = ForestsConfig {
        search_records: 100,
        ..ForestsConfig::default()
    };
    let c = build_search_set(&cfg, &cache, &chunk, &column, 1);
    assert_eq!(c.records(), 100);
    assert!(c.label().starts_with("memory-sample/100"));
}

#[test]
fn random_strategies_reproduce_with_seed_and_weight_correctly() {
    let (cache, chunk, column) = fixture(400);
    for sampling in [
        RowSampling::Uniform,
        RowSampling::Stratified,
        RowSampling::ResidualWeighted,
    ] {
        let cfg = ForestsConfig {
            search_records: 120,
            row_sampling: sampling,
            ..ForestsConfig::default()
        };
        let a = build_search_set(&cfg, &cache, &chunk, &column, 42);
        let b = build_search_set(&cfg, &cache, &chunk, &column, 42);
        let c = build_search_set(&cfg, &cache, &chunk, &column, 43);
        assert_eq!(a.record_indices, b.record_indices, "{sampling:?}");
        assert_ne!(a.record_indices, c.record_indices, "{sampling:?}");
        assert!(
            a.records() > 30 && a.records() < 300,
            "{sampling:?} {}",
            a.records()
        );
        if sampling != RowSampling::Uniform {
            assert!(a.source.chunks.iter().any(|c| c.weight.is_some()));
        }
        assert!(a.notes.iter().any(|n| n.contains("row-sampling")));
    }
}

#[test]
fn feature_selection_projects_and_error_ranked_keeps_the_signal() {
    let (cache, chunk, column) = fixture(400);
    let cfg = ForestsConfig {
        feature_selection: FeatureSelection::ErrorRanked,
        feature_fraction: d(0.3),
        ..ForestsConfig::default()
    };
    let a = build_search_set(&cfg, &cache, &chunk, &column, 1);
    assert_eq!(a.feature_map, vec![1]);
    assert_eq!(a.source.chunks[0].features, 1);
    let cfg = ForestsConfig {
        feature_selection: FeatureSelection::Random,
        feature_fraction: d(0.67),
        ..ForestsConfig::default()
    };
    let r = build_search_set(&cfg, &cache, &chunk, &column, 9);
    assert_eq!(
        r.feature_map.len(),
        3usize.min(((3.0f64 * 0.67).ceil()) as usize)
    );
    let mut reader = RawReader::new(&r, &vec![1], 3);
    reader.read_chunk(&chunk).unwrap();
    let raw = reader.finish();
    assert_eq!(raw.records(), 400);
    // raw feature 1 of record i equals ((i*7)%23)/23
    assert!((f(raw.values[5]) - ((5 * 7 % 23) as f32 / 23.0)).abs() < 1e-6);
    assert_eq!(raw.residual[5], column[5]);
}

#[test]
fn rows_are_kept_when_the_draw_falls_below_the_cut() {
    let trials = vec![
        Trial {
            row: 0,
            cut: 1,
            weight: s(2.0),
        },
        Trial {
            row: 2,
            cut: 1,
            weight: s(3.0),
        },
    ];
    // The upper 53 bits count: 2047 draws zero, 2048 draws one.
    assert_eq!(
        decide_rows(3, &trials, &vec![2047, 2048]),
        vec![Some(s(2.0)), None, None]
    );
    assert_eq!(shuffled_features(4, &vec![3, 0]), vec![1, 3]);
    assert_eq!(stratum_sizes(10), vec![2, 3, 2, 3]);
    assert_eq!(stratum_quota(10), 3);
    assert_eq!(
        feature_note(FeatureSelection::Random, 2, 5),
        Some("feature-selection=random 2/5".to_string())
    );
    assert_eq!(feature_note(FeatureSelection::All, 2, 5), None);
    let mut rng = StdRng::seed_from_u64(4);
    let mut picked = random_features(6, 6, &mut rng);
    picked.sort_unstable();
    assert_eq!(picked, vec![0, 1, 2, 3, 4, 5]);
    let sure = uniform_trials(3, 1u64 << 53);
    assert_eq!(draw_rows(3, &sure, &mut rng), vec![Some(s(1.0)); 3]);
    let never = uniform_trials(3, 0);
    assert_eq!(draw_rows(3, &never, &mut rng), vec![None; 3]);
}

#[test]
fn a_set_that_lacks_residuals_is_reported() {
    let (cache, chunk, column) = fixture(10);
    let cfg = ForestsConfig {
        search_records: 0,
        ..ForestsConfig::default()
    };
    let mut set = build_search_set(&cfg, &cache, &chunk, &column, 1);
    set.source.chunks.clear();
    let mut reader = RawReader::new(&set, &vec![0], 3);
    assert_eq!(
        reader.read_chunk(&chunk).unwrap_err(),
        "search set / corpus record mismatch"
    );
}

// GPU planning.

#[test]
fn off_mode_always_uses_cpu() {
    let backend = choose_backend(GpuMode::Off, &Ok("adapter".to_string())).unwrap();
    assert_eq!(backend, Backend::Cpu);
    assert_eq!(backend.label(), "cpu");
    let src = MemorySource {
        chunks: vec![],
        label: "t".to_string(),
    };
    assert_eq!(src.records(), 0);
}

#[test]
fn on_mode_fails_clearly_without_feature() {
    let none = Err("built without the `gpu` feature".to_string());
    let err = choose_backend(GpuMode::On, &none).unwrap_err();
    assert!(err.contains("--gpu on") && err.contains("gpu"), "{err}");
    let backend = choose_backend(GpuMode::Auto, &none).unwrap();
    assert_eq!(backend, Backend::Cpu);
    let there = choose_backend(GpuMode::Auto, &Ok("X".to_string())).unwrap();
    assert_eq!(there.label(), "gpu:X");
}

#[test]
fn batches_fit_the_adapter_and_drop_nothing() {
    let limit = 1 << 20;
    let batch = batch_records(limit, 37, 32).unwrap();
    // Bins: 2^20 / 37; partials: 2^20 / (12·37·32) slices of 8192.
    assert_eq!(batch, (limit / 37).min((limit / (12 * 37 * 32)) * 8192));
    assert!(plan_dispatch(batch, 37, 32, limit).is_ok());
    assert_eq!(
        batch_records(100, 37, 32).unwrap_err(),
        "features×bins partials (14208 B) exceed the storage binding limit (100 B)"
    );
    assert_eq!(
        batch_records(12, 20, 0x1).unwrap_err(),
        "features×bins partials (240 B) exceed the storage binding limit (12 B)"
    );
    assert_eq!(batch_records(1 << 40, 1, 2).unwrap(), MAX_BATCH_RECORDS);
    assert_eq!(batch_records(usize::MAX, 1, 1).unwrap(), MAX_BATCH_RECORDS);
    let chunk = BinnedChunk {
        records: 5,
        features: 2,
        bins: (0..10).collect(),
        residual: singles(&[1.0, 2.0, 3.0, 4.0, 5.0]),
        weight: None,
        first_index: 0,
    };
    let mut b = Batch::new(2, 3);
    let mut offset = 0;
    let mut seen = Vec::new();
    while offset < chunk.records {
        offset += b.fill(&chunk, offset);
        if b.is_full() || offset == chunk.records {
            seen.extend(b.residual.iter().map(|&r| f(r)));
            assert_eq!(b.bins.len(), 2 * b.records);
            assert_eq!(b.weights, vec![s(1.0); b.records]);
            b.clear();
        }
    }
    assert_eq!(seen, vec![1.0, 2.0, 3.0, 4.0, 5.0]);
}

#[test]
fn dispatches_keep_invocations_apart() {
    let plan = plan_dispatch(8193, 65, 4, 1 << 30).unwrap();
    assert_eq!(plan.slices, 2);
    assert_eq!(plan.section, 2 * 65 * 4);
    assert_eq!(plan.partial_bytes, 12 * plan.section);
    assert_eq!(plan.bin_bytes, (8193 * 65 + 3) / 4 * 4);
    assert_eq!(plan.workgroups, 2);
    let mut places = Vec::new();
    for sum in 0..3 {
        for slice in 0..2 {
            for feature in 0..65 {
                for bin in 0..4 {
                    places.push(plan.place(sum, slice, feature, bin));
                }
            }
        }
    }
    let n = places.len();
    assert_eq!(4 * n, plan.partial_bytes);
    places.sort_unstable();
    places.dedup();
    assert_eq!(places.len(), n);
    assert_eq!(*places.last().unwrap(), n - 1);
    assert_eq!(
        plan_dispatch(10, 10, 4, 50).unwrap_err(),
        "bins buffer (100 B) exceeds the storage binding limit (50 B)"
    );
    assert_eq!(
        plan_dispatch(10, 10, 4, 200).unwrap_err(),
        "partials buffer (480 B) exceeds the storage binding limit (200 B)"
    );
    assert_eq!(pack_bins(&vec![1, 2, 3, 4, 5]), vec![1, 2, 3, 4, 5, 0, 0, 0]);
    assert!(pack_bins(&Vec::new()).is_empty());
}
