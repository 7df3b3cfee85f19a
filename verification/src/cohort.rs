//! What an iteration offers for grafting: its own discoveries, what the fleet's
//! cache knows to work, boosted bundles, and combinations with the near-winners
//! of the iteration before.

use vstd::prelude::*;
use vstd::string::*;

use crate::candidates;
use crate::candidates::{combo_id, top_k_groups, Discovery};
use crate::config::ForestsConfig;
use crate::histogram;
use crate::histogram::StumpCandidate;
use crate::oblique::ObliqueControls;
use crate::patch;
use crate::patch::{append_patches, copy_patches, Origin, Patch, PatchModel, Provenance, PATCH_FORMAT_VERSION};
use crate::text;
use crate::text::{contains_text, decimal_text};
use crate::tree;
use crate::tree::root_features;

verus! {

// ---------------------------------------------------------------------------
// Searches to run.
// ---------------------------------------------------------------------------

/// Most features of an oblique search.
pub const OBLIQUE_FEATURES: usize = 6;

/// The first distinct features that the first `n` stumps split on, as the
/// creature numbers them.
pub open spec fn stump_features(stumps: Seq<StumpCandidate>, map: Seq<usize>, n: int) -> Seq<usize>
    decreases n,
{
    if n <= 0 {
        Seq::empty()
    } else {
        let before = stump_features(stumps, map, n - 1);
        let f = map[stumps[n - 1].feature as int];
        if before.len() >= OBLIQUE_FEATURES || before.contains(f) {
            before
        } else {
            before.push(f)
        }
    }
}

/// The features that an oblique search looks at: those of the best stumps.
pub fn oblique_features(stumps: &Vec<StumpCandidate>, map: &Vec<usize>) -> (r: Vec<usize>)
    requires
        forall|i: int| 0 <= i < stumps@.len() ==> (#[trigger] stumps@[i]).feature < map@.len(),
    ensures
        r@ == stump_features(stumps@, map@, stumps@.len() as int),
{
    let n: usize = stumps.len();
    let mut out: Vec<usize> = Vec::new();
    for i in 0..n
        invariant
            n == stumps@.len(),
            forall|i: int| 0 <= i < stumps@.len() ==> (#[trigger] stumps@[i]).feature < map@.len(),
            out@ == stump_features(stumps@, map@, i as int),
    {
        let f: usize = map[stumps[i].feature];
        if out.len() < OBLIQUE_FEATURES {
            let mut j: usize = 0;
            while j < out.len() && out[j] != f
                invariant
                    j <= out@.len(),
                    forall|k: int| 0 <= k < j ==> #[trigger] out@[k] != f,
                decreases out@.len() - j,
            {
                j = j + 1;
            }
            if j == out.len() {
                assert(!out@.contains(f));
                out.push(f);
            } else {
                assert(out@[j as int] == f);
            }
        }
    }
    out
}

/// An oblique search looks at distinct features, and never at too many.
pub proof fn oblique_features_are_distinct(stumps: Seq<StumpCandidate>, map: Seq<usize>, n: int)
    requires
        0 <= n,
    ensures
        stump_features(stumps, map, n).no_duplicates(),
        stump_features(stumps, map, n).len() <= OBLIQUE_FEATURES,
    decreases n,
{
    if n > 0 {
        oblique_features_are_distinct(stumps, map, n - 1);
    }
}

/// Controls of an iteration's oblique search.
pub fn oblique_controls(cfg: &ForestsConfig) -> (r: ObliqueControls)
    requires
        4 * cfg.oblique_candidates <= usize::MAX,
    ensures
        r.stump.min_leaf_records == cfg.min_leaf_records,
        r.stump.max_correction == cfg.max_correction,
        r.stump.min_gain == cfg.min_gain,
        r.stump.kinds@ == cfg.stump_kinds@,
        r.stump.top_k == cfg.top_k,
        r.stump.max_per_feature == cfg.max_per_feature,
        r.count == cfg.oblique_candidates,
        r.random_combos == 4 * cfg.oblique_candidates,
        r.jitter_rounds == 2,
        r.max_terms == 3,
{
    ObliqueControls {
        stump: cfg.search_controls(),
        count: cfg.oblique_candidates,
        random_combos: 4 * cfg.oblique_candidates,
        jitter_rounds: 2,
        max_terms: 3,
    }
}

/// The roots that an iteration grows trees from: first the free choice (`None`),
/// then the best stumps, one per distinct feature.
pub fn growth_roots(stumps: &Vec<StumpCandidate>, limit: usize) -> (r: Vec<
    Option<(usize, usize)>,
>)
    ensures
        r@ == seq![None::<(usize, usize)>] + tree::distinct_roots(
            stumps@,
            stumps@.len() as int,
            limit as int,
        ).map_values(|x: (usize, usize)| Some(x)),
{
    let roots = root_features(stumps, limit);
    let n: usize = roots.len();
    let ghost some = |x: (usize, usize)| Some(x);
    let mut out: Vec<Option<(usize, usize)>> = Vec::new();
    out.push(None);
    assert(out@ =~= seq![None::<(usize, usize)>] + roots@.map_values(some).take(0));
    for i in 0..n
        invariant
            n == roots@.len(),
            some == (|x: (usize, usize)| Some(x)),
            out@ == seq![None::<(usize, usize)>] + roots@.map_values(some).take(i as int),
    {
        out.push(Some(roots[i]));
        assert(out@ =~= seq![None::<(usize, usize)>] + roots@.map_values(some).take(i as int + 1));
    }
    assert(roots@.map_values(some).take(n as int) =~= roots@.map_values(some));
    out
}

// ---------------------------------------------------------------------------
// The fleet's cache.
// ---------------------------------------------------------------------------

/// The patches of the first `n` groups that hold one patch each.
pub open spec fn lone(groups: Seq<Seq<PatchModel>>, n: int) -> Seq<PatchModel>
    decreases n,
{
    if n <= 0 {
        Seq::empty()
    } else if groups[n - 1].len() == 1 {
        lone(groups, n - 1).push(groups[n - 1][0])
    } else {
        lone(groups, n - 1)
    }
}

/// The other ones of the first `n` groups.
pub open spec fn stacked(groups: Seq<Seq<PatchModel>>, n: int) -> Seq<Seq<PatchModel>>
    decreases n,
{
    if n <= 0 {
        Seq::empty()
    } else if groups[n - 1].len() == 1 {
        stacked(groups, n - 1)
    } else {
        stacked(groups, n - 1).push(groups[n - 1])
    }
}

/// Place replayed candidates: single patches go ahead of this iteration's own,
/// the cohort being capped and known-good beating predicted-good; the others
/// become combinations.
pub fn place_replays(own: &Vec<Patch>, replays: &Vec<Vec<Patch>>) -> (r: (
    Vec<Patch>,
    Vec<Vec<Patch>>,
))
    ensures
        patch::patch_models(r.0@) == lone(
            candidates::group_models(replays@),
            replays@.len() as int,
        ) + patch::patch_models(own@),
        candidates::group_models(r.1@) == stacked(
            candidates::group_models(replays@),
            replays@.len() as int,
        ),
{
    let n: usize = replays.len();
    let ghost all = candidates::group_models(replays@);
    let mut first: Vec<Patch> = Vec::new();
    let mut groups: Vec<Vec<Patch>> = Vec::new();
    assert(patch::patch_models(first@) =~= lone(all, 0));
    assert(candidates::group_models(groups@) =~= stacked(all, 0));
    for i in 0..n
        invariant
            n == replays@.len(),
            all == candidates::group_models(replays@),
            patch::patch_models(first@) == lone(all, i as int),
            candidates::group_models(groups@) == stacked(all, i as int),
    {
        assert(all[i as int] == patch::patch_models(replays@[i as int]@));
        let copies = copy_patches(&replays[i]);
        if copies.len() == 1 {
            let ghost before = first@;
            let p = copies[0].clone();
            assert(p@ == patch::patch_models(copies@)[0]);
            first.push(p);
            assert(patch::patch_models(first@) =~= patch::patch_models(before).push(p@));
        } else {
            let ghost before = groups@;
            groups.push(copies);
            assert(candidates::group_models(groups@) =~= candidates::group_models(before).push(
                patch::patch_models(copies@),
            ));
        }
    }
    let ghost head = patch::patch_models(first@);
    append_patches(&mut first, own);
    (first, groups)
}

/// Of the first `n` patches those whose id is not to be avoided.
pub open spec fn kept_patches(
    patches: Seq<PatchModel>,
    ids: Seq<Seq<char>>,
    avoid: Seq<Seq<char>>,
    n: int,
) -> Seq<PatchModel>
    decreases n,
{
    if n <= 0 {
        Seq::empty()
    } else if avoid.contains(ids[n - 1]) {
        kept_patches(patches, ids, avoid, n - 1)
    } else {
        kept_patches(patches, ids, avoid, n - 1).push(patches[n - 1])
    }
}

/// Of the first `n` groups those whose combination id is not to be avoided.
pub open spec fn kept_groups(
    groups: Seq<Seq<PatchModel>>,
    ids: Seq<Seq<Seq<char>>>,
    avoid: Seq<Seq<char>>,
    n: int,
) -> Seq<Seq<PatchModel>>
    decreases n,
{
    if n <= 0 {
        Seq::empty()
    } else if avoid.contains(candidates::combination_id(ids[n - 1])) {
        kept_groups(groups, ids, avoid, n - 1)
    } else {
        kept_groups(groups, ids, avoid, n - 1).push(groups[n - 1])
    }
}

/// What is left after known failures were dropped.
#[derive(Debug)]
pub struct Avoided {
    /// Patches left.
    pub patches: Vec<Patch>,
    /// Groups left.
    pub groups: Vec<Vec<Patch>>,
    /// How many of both were dropped.
    pub dropped: usize,
}

/// Drop what the fleet has already proved does not work. `ids` holds each
/// patch's id, `group_ids` those of each group's members.
pub fn avoid_failures(
    patches: &Vec<Patch>,
    ids: &Vec<String>,
    groups: &Vec<Vec<Patch>>,
    group_ids: &Vec<Vec<String>>,
    avoid: &Vec<String>,
) -> (r: Avoided)
    requires
        ids@.len() == patches@.len(),
        group_ids@.len() == groups@.len(),
        patches@.len() + groups@.len() <= usize::MAX,
    ensures
        patch::patch_models(r.patches@) == kept_patches(
            patch::patch_models(patches@),
            text::texts(ids@),
            text::texts(avoid@),
            patches@.len() as int,
        ),
        candidates::group_models(r.groups@) == kept_groups(
            candidates::group_models(groups@),
            candidates::group_ids(group_ids@),
            text::texts(avoid@),
            groups@.len() as int,
        ),
        r.dropped == patches@.len() + groups@.len() - r.patches@.len() - r.groups@.len(),
{
    let n: usize = patches.len();
    let m: usize = groups.len();
    let ghost all = patch::patch_models(patches@);
    let ghost every = candidates::group_models(groups@);
    let ghost names = text::texts(ids@);
    let ghost group_names = candidates::group_ids(group_ids@);
    let ghost bad = text::texts(avoid@);
    let mut kept: Vec<Patch> = Vec::new();
    assert(patch::patch_models(kept@) =~= kept_patches(all, names, bad, 0));
    for i in 0..n
        invariant
            n == patches@.len(),
            ids@.len() == n,
            all == patch::patch_models(patches@),
            names == text::texts(ids@),
            bad == text::texts(avoid@),
            kept@.len() <= i,
            patch::patch_models(kept@) == kept_patches(all, names, bad, i as int),
    {
        assert(names[i as int] == ids@[i as int]@);
        if !contains_text(avoid, ids[i].as_str()) {
            let ghost before = kept@;
            let p = patches[i].clone();
            kept.push(p);
            assert(patch::patch_models(kept@) =~= patch::patch_models(before).push(p@));
            assert(all[i as int] == p@);
        }
    }
    let mut left: Vec<Vec<Patch>> = Vec::new();
    assert(candidates::group_models(left@) =~= kept_groups(every, group_names, bad, 0));
    for i in 0..m
        invariant
            m == groups@.len(),
            group_ids@.len() == m,
            every == candidates::group_models(groups@),
            group_names == candidates::group_ids(group_ids@),
            bad == text::texts(avoid@),
            left@.len() <= i,
            candidates::group_models(left@) == kept_groups(every, group_names, bad, i as int),
    {
        assert(group_names[i as int] == text::texts(group_ids@[i as int]@));
        let id = combo_id(&group_ids[i]);
        if !contains_text(avoid, id.as_str()) {
            let ghost before = left@;
            let copies = copy_patches(&groups[i]);
            left.push(copies);
            assert(candidates::group_models(left@) =~= candidates::group_models(before).push(
                patch::patch_models(copies@),
            ));
            assert(every[i as int] == patch::patch_models(copies@));
        }
    }
    let dropped: usize = (n - kept.len()) + (m - left.len());
    Avoided { patches: kept, groups: left, dropped }
}

/// Nothing that is to be avoided is left: every patch that stays has an id that
/// is not to be avoided.
pub proof fn avoided_patches_are_gone(
    patches: Seq<PatchModel>,
    ids: Seq<Seq<char>>,
    avoid: Seq<Seq<char>>,
    n: int,
    k: int,
)
    requires
        0 <= n <= patches.len(),
        ids.len() == patches.len(),
        0 <= k < kept_patches(patches, ids, avoid, n).len(),
    ensures
        exists|i: int|
            0 <= i < n && #[trigger] patches[i] == kept_patches(patches, ids, avoid, n)[k]
                && !avoid.contains(ids[i]),
    decreases n,
{
    if n > 0 {
        let before = kept_patches(patches, ids, avoid, n - 1);
        if avoid.contains(ids[n - 1]) || k < before.len() {
            avoided_patches_are_gone(patches, ids, avoid, n - 1, k);
            let i = choose|i: int|
                0 <= i < n - 1 && #[trigger] patches[i] == before[k] && !avoid.contains(ids[i]);
            assert(patches[i] == kept_patches(patches, ids, avoid, n)[k]);
        } else {
            assert(patches[n - 1] == kept_patches(patches, ids, avoid, n)[k]);
        }
    }
}

// ---------------------------------------------------------------------------
// Boosting.
// ---------------------------------------------------------------------------

/// The patch that a boosting round adds to its bundle.
pub open spec fn boosted(
    output: usize,
    d: candidates::DiscoveryModel,
    search_records: u64,
    checksum: Seq<char>,
    seed: u64,
    round: nat,
    set_notes: Seq<Seq<char>>,
) -> PatchModel {
    PatchModel {
        version: PATCH_FORMAT_VERSION,
        output,
        root: d.root,
        provenance: Origin {
            strategy: "boost-round"@,
            backend: d.backend,
            predicted_gain: d.gain,
            affected_records: d.affected,
            search_records,
            incumbent_checksum: checksum,
            seed: Some(seed),
            notes: seq!["boost-round="@ + text::decimal(round)] + set_notes,
        },
    }
}

/// The patch that a boosting round adds to its bundle.
pub fn boost_patch(
    output: usize,
    d: &Discovery,
    search_records: u64,
    checksum: &str,
    seed: u64,
    round: usize,
    set_notes: &Vec<String>,
) -> (r: Patch)
    ensures
        r@ == boosted(
            output,
            d@,
            search_records,
            checksum@,
            seed,
            round as nat,
            text::texts(set_notes@),
        ),
{
    let mut first = "boost-round=".to_owned();
    first.append(decimal_text(round as u64).as_str());
    let n: usize = set_notes.len();
    let mut notes: Vec<String> = Vec::new();
    notes.push(first);
    let ghost head = seq!["boost-round="@ + text::decimal(round as nat)];
    assert(text::texts(notes@) =~= head + text::texts(set_notes@).take(0));
    for i in 0..n
        invariant
            n == set_notes@.len(),
            text::texts(notes@) == head + text::texts(set_notes@).take(i as int),
    {
        let ghost before = notes@;
        notes.push(set_notes[i].clone());
        assert(text::texts(notes@) =~= text::texts(before).push(set_notes@[i as int]@));
        assert(text::texts(notes@) =~= head + text::texts(set_notes@).take(i as int + 1));
    }
    assert(text::texts(set_notes@).take(n as int) =~= text::texts(set_notes@));
    Patch::new(
        output,
        d.root.clone(),
        Provenance {
            strategy: "boost-round".to_owned(),
            backend: d.backend.clone(),
            predicted_gain: d.gain,
            affected_records: d.affected,
            search_records,
            incumbent_checksum: checksum.to_owned(),
            seed: Some(seed),
            notes,
        },
    )
}

/// The combinations that a boosted bundle is verified as: its first two patches,
/// its first three, and so on.
pub fn boost_groups(bundle: &Vec<Patch>) -> (r: Vec<Vec<Patch>>)
    ensures
        candidates::group_models(r@) == candidates::cumulative(patch::patch_models(bundle@)),
{
    let n: usize = bundle.len();
    let ghost all = patch::patch_models(bundle@);
    let mut out: Vec<Vec<Patch>> = Vec::new();
    if n < 2 {
        assert(candidates::group_models(out@) =~= candidates::cumulative(all));
        return out;
    }
    let mut prefix: Vec<Patch> = Vec::new();
    prefix.push(bundle[0].clone());
    assert(patch::patch_models(prefix@) =~= all.take(1));
    assert(candidates::group_models(out@) =~= candidates::cumulative(all).take(0));
    for k in 1..n
        invariant
            1 <= k <= n,
            n == bundle@.len(),
            n >= 2,
            all == patch::patch_models(bundle@),
            patch::patch_models(prefix@) == all.take(k as int),
            candidates::group_models(out@) == candidates::cumulative(all).take(k - 1),
    {
        let ghost shorter = prefix@;
        let p = bundle[k].clone();
        prefix.push(p);
        assert(patch::patch_models(prefix@) =~= patch::patch_models(shorter).push(p@));
        assert(patch::patch_models(prefix@) =~= all.take(k + 1));
        let ghost before = out@;
        let group = copy_patches(&prefix);
        out.push(group);
        proof {
            assert(candidates::group_models(out@) =~= candidates::group_models(before).push(
                patch::patch_models(group@),
            ));
            assert(candidates::cumulative(all)[k - 1] == all.take(k + 1));
            assert(candidates::group_models(out@) =~= candidates::cumulative(all).take(k as int));
        }
    }
    assert(candidates::cumulative(all).take(n - 1) =~= candidates::cumulative(all));
    out
}

// ---------------------------------------------------------------------------
// Combinations.
// ---------------------------------------------------------------------------

/// A near-winner of the iteration before, on the new incumbent.
pub open spec fn carried_patch(p: PatchModel, iteration: nat) -> PatchModel {
    PatchModel {
        provenance: Origin {
            strategy: "carry-forward:"@ + p.provenance.strategy,
            notes: p.provenance.notes.push("carried from iteration "@ + text::decimal(iteration)),
            ..p.provenance
        },
        ..p
    }
}

/// The near-winners of iteration `iteration`, as they are offered in the next.
pub fn carry_forward(runner_ups: &Vec<Patch>, iteration: u64) -> (r: Vec<Patch>)
    ensures
        patch::patch_models(r@) == patch::patch_models(runner_ups@).map_values(
            |p: PatchModel| carried_patch(p, iteration as nat),
        ),
{
    let n: usize = runner_ups.len();
    let ghost again = |p: PatchModel| carried_patch(p, iteration as nat);
    let ghost want = patch::patch_models(runner_ups@).map_values(again);
    let mut out: Vec<Patch> = Vec::new();
    assert(patch::patch_models(out@) =~= want.take(0));
    for i in 0..n
        invariant
            n == runner_ups@.len(),
            again == (|p: PatchModel| carried_patch(p, iteration as nat)),
            want == patch::patch_models(runner_ups@).map_values(again),
            patch::patch_models(out@) == want.take(i as int),
    {
        let p = &runner_ups[i];
        let mut strategy = "carry-forward:".to_owned();
        strategy.append(p.provenance.strategy.as_str());
        let mut note = "carried from iteration ".to_owned();
        note.append(decimal_text(iteration).as_str());
        let mut copy = p.clone();
        let ghost notes = copy.provenance.notes@;
        copy.provenance.strategy = strategy;
        copy.provenance.notes.push(note);
        assert(text::texts(copy.provenance.notes@) =~= text::texts(notes).push(note@));
        let ghost before = out@;
        out.push(copy);
        assert(copy@ == again(patch::patch_models(runner_ups@)[i as int]));
        assert(patch::patch_models(out@) =~= patch::patch_models(before).push(copy@));
        assert(patch::patch_models(out@) =~= want.take(i as int + 1));
    }
    assert(want.take(n as int) =~= want);
    out
}

/// The larger of two numbers.
pub open spec fn at_least(n: int, least: int) -> int {
    if n < least {
        least
    } else {
        n
    }
}

/// The combinations with near-winners: all of them together, and all of them on
/// top of this iteration's best.
pub open spec fn carried_groups(ranked: Seq<PatchModel>, carried: Seq<PatchModel>) -> Seq<
    Seq<PatchModel>,
> {
    let together = if carried.len() >= 2 {
        seq![carried]
    } else {
        Seq::empty()
    };
    let on_best = if ranked.len() > 0 {
        seq![seq![ranked[0]] + carried]
    } else {
        Seq::empty()
    };
    together + on_best
}

/// Combine: stack the best distinct discoveries, and offer the near-winners of
/// the iteration before alone, together, and together with this iteration's
/// best. `ranked` are this iteration's best patches.
pub open spec fn combined(
    patches: Seq<PatchModel>,
    groups: Seq<Seq<PatchModel>>,
    ranked: Seq<PatchModel>,
    carried: Seq<PatchModel>,
    limit: int,
) -> (Seq<PatchModel>, Seq<Seq<PatchModel>>) {
    let stacks = groups + candidates::cumulative(
        candidates::distinct_patches(ranked, ranked.len() as int, at_least(limit, 2)),
    );
    if carried.len() == 0 {
        (patches, stacks)
    } else {
        (patches + carried, stacks + carried_groups(ranked, carried))
    }
}

/// Combine this iteration's patches. `discoveries` is the number of its
/// discoveries, `iteration` the one the near-winners come from. With a limit of
/// zero nothing is combined.
pub fn combine(
    patches: &mut Vec<Patch>,
    groups: &mut Vec<Vec<Patch>>,
    discoveries: usize,
    runner_ups: &Vec<Patch>,
    iteration: u64,
    limit: usize,
)
    ensures
        ({
            let before = patch::patch_models(old(patches)@);
            let stacks = candidates::group_models(old(groups)@);
            let carried = patch::patch_models(runner_ups@).map_values(
                |p: PatchModel| carried_patch(p, iteration as nat),
            );
            let after = (
                patch::patch_models(final(patches)@),
                candidates::group_models(final(groups)@),
            );
            after == if limit == 0 {
                (before, stacks)
            } else {
                combined(before, stacks, histogram::at_most(before, discoveries as int), carried, limit as int)
            }
        }),
{
    if limit == 0 {
        return;
    }
    let ghost before = patch::patch_models(patches@);
    let ghost stacks = candidates::group_models(groups@);
    let ranked = first_patches(patches, discoveries);
    let ghost best = histogram::at_most(before, discoveries as int);
    let carried = carry_forward(runner_ups, iteration);
    let ghost again = patch::patch_models(carried@);
    let stacked = top_k_groups(
        &ranked,
        if limit < 2 {
            2
        } else {
            limit
        },
    );
    append_groups(groups, &stacked);
    let ghost more = candidates::group_models(groups@);
    if carried.len() > 0 {
        append_patches(patches, &carried);
        if carried.len() >= 2 {
            let ghost prior = groups@;
            let together = copy_patches(&carried);
            groups.push(together);
            assert(candidates::group_models(groups@) =~= candidates::group_models(prior).push(
                again,
            ));
        }
        let ghost middle = candidates::group_models(groups@);
        if ranked.len() > 0 {
            let ghost prior = groups@;
            let mut on_best: Vec<Patch> = Vec::new();
            on_best.push(ranked[0].clone());
            assert(patch::patch_models(on_best@) =~= seq![best[0]]);
            append_patches(&mut on_best, &carried);
            groups.push(on_best);
            assert(candidates::group_models(groups@) =~= candidates::group_models(prior).push(
                patch::patch_models(on_best@),
            ));
        }
        assert(candidates::group_models(groups@) =~= more + carried_groups(best, again));
    }
}

fn first_patches(patches: &Vec<Patch>, n: usize) -> (r: Vec<Patch>)
    ensures
        patch::patch_models(r@) == histogram::at_most(patch::patch_models(patches@), n as int),
{
    let ghost all = patch::patch_models(patches@);
    let total: usize = patches.len();
    let count: usize = if n <= total {
        n
    } else {
        total
    };
    let mut out: Vec<Patch> = Vec::new();
    assert(patch::patch_models(out@) =~= all.take(0));
    for i in 0..count
        invariant
            count <= total,
            total == patches@.len(),
            all == patch::patch_models(patches@),
            patch::patch_models(out@) == all.take(i as int),
    {
        let ghost before = out@;
        let p = patches[i].clone();
        out.push(p);
        assert(patch::patch_models(out@) =~= patch::patch_models(before).push(p@));
        assert(all.take(i as int + 1) =~= all.take(i as int).push(all[i as int]));
    }
    assert(all.take(total as int) =~= all);
    out
}

fn append_groups(to: &mut Vec<Vec<Patch>>, from: &Vec<Vec<Patch>>)
    ensures
        candidates::group_models(final(to)@) == candidates::group_models(old(to)@)
            + candidates::group_models(from@),
{
    let n: usize = from.len();
    let ghost start = candidates::group_models(to@);
    let ghost all = candidates::group_models(from@);
    assert(candidates::group_models(to@) =~= start + all.take(0));
    for i in 0..n
        invariant
            n == from@.len(),
            all == candidates::group_models(from@),
            candidates::group_models(to@) == start + all.take(i as int),
    {
        let ghost before = to@;
        let copies = copy_patches(&from[i]);
        to.push(copies);
        assert(candidates::group_models(to@) =~= candidates::group_models(before).push(
            patch::patch_models(copies@),
        ));
        assert(all[i as int] == patch::patch_models(copies@));
        assert(candidates::group_models(to@) =~= start + all.take(i as int + 1));
    }
    assert(all.take(n as int) =~= all);
}

/// Room left for single candidates beside the combinations that were kept.
pub fn room_for_singles(limit: usize, combos: usize) -> (r: usize)
    ensures
        r == if combos < limit {
            limit - combos
        } else {
            0
        },
{
    if combos < limit {
        limit - combos
    } else {
        0
    }
}

// ---------------------------------------------------------------------------
// What the journal says was used.
// ---------------------------------------------------------------------------

/// What an iteration used.
#[derive(Debug, Clone, Copy, PartialEq, Eq, Structural)]
pub struct Used {
    /// Depth to which trees were grown.
    pub max_depth: usize,
    /// An oblique search ran.
    pub oblique: bool,
    /// Random stumps asked for.
    pub random_candidates: usize,
    /// Cached candidates replayed.
    pub replayed: usize,
    /// Known failures dropped.
    pub dropped: usize,
    /// Patches in the boosted bundle.
    pub bundle: usize,
    /// Near-winners carried forward.
    pub carried: usize,
    /// Combinations asked for.
    pub combo_candidates: usize,
}

/// One label, when it applies.
pub open spec fn label_if(applies: bool, label: Seq<char>) -> Seq<Seq<char>> {
    if applies {
        seq![label]
    } else {
        Seq::empty()
    }
}

impl Used {
    /// The strategy labels, in the order in which the iteration went through
    /// them.
    pub open spec fn labels(self) -> Seq<Seq<char>> {
        seq!["histogram-stump"@] + label_if(
            self.max_depth > 1,
            "histogram-tree-depth"@ + text::decimal(self.max_depth as nat),
        ) + label_if(self.oblique, "oblique-split"@) + label_if(
            self.random_candidates > 0,
            "random-stump"@,
        ) + label_if(self.replayed > 0, "replay"@) + label_if(
            self.dropped > 0,
            "avoid-known-failures"@,
        ) + label_if(self.bundle > 1, "boost-rounds/"@ + text::decimal(self.bundle as nat))
            + label_if(self.combo_candidates > 0 && self.carried > 0, "carry-forward"@) + label_if(
            self.combo_candidates > 0,
            "combo"@,
        )
    }

    /// The strategy labels.
    pub fn strategies(&self) -> (r: Vec<String>)
        ensures
            text::texts(r@) == self.labels(),
    {
        let mut out: Vec<String> = Vec::new();
        out.push("histogram-stump".to_owned());
        assert(text::texts(out@) =~= seq!["histogram-stump"@]);
        let mut depth = "histogram-tree-depth".to_owned();
        depth.append(decimal_text(self.max_depth as u64).as_str());
        push_if(&mut out, self.max_depth > 1, depth);
        push_if(&mut out, self.oblique, "oblique-split".to_owned());
        push_if(&mut out, self.random_candidates > 0, "random-stump".to_owned());
        push_if(&mut out, self.replayed > 0, "replay".to_owned());
        push_if(&mut out, self.dropped > 0, "avoid-known-failures".to_owned());
        let mut rounds = "boost-rounds/".to_owned();
        rounds.append(decimal_text(self.bundle as u64).as_str());
        push_if(&mut out, self.bundle > 1, rounds);
        push_if(
            &mut out,
            self.combo_candidates > 0 && self.carried > 0,
            "carry-forward".to_owned(),
        );
        push_if(&mut out, self.combo_candidates > 0, "combo".to_owned());
        out
    }
}

fn push_if(out: &mut Vec<String>, applies: bool, label: String)
    ensures
        text::texts(final(out)@) == text::texts(old(out)@) + label_if(applies, label@),
{
    let ghost before = out@;
    if applies {
        out.push(label);
        assert(text::texts(out@) =~= text::texts(before).push(label@));
    }
    assert(text::texts(out@) =~= text::texts(before) + label_if(applies, label@));
}

// ---------------------------------------------------------------------------
// What is left, what is offered, and what is said of it.
// ---------------------------------------------------------------------------

/// An oblique search looks at the features of the best stumps: the first one's
/// first, and a stump's feature is missing only when there are enough.
pub proof fn oblique_features_are_those_of_the_best(
    stumps: Seq<StumpCandidate>,
    map: Seq<usize>,
    n: int,
)
    requires
        0 <= n <= stumps.len(),
    ensures
        ({
            let found = stump_features(stumps, map, n);
            &&& n > 0 ==> found.len() > 0 && found[0] == map[stumps[0].feature as int]
            &&& forall|k: int|
                0 <= k < found.len() ==> exists|i: int|
                    0 <= i < n && map[(#[trigger] stumps[i]).feature as int] == #[trigger] found[k]
            &&& forall|i: int|
                0 <= i < n && found.len() < OBLIQUE_FEATURES ==> found.contains(
                    map[(#[trigger] stumps[i]).feature as int],
                )
        }),
    decreases n,
{
    if n > 0 {
        oblique_features_are_those_of_the_best(stumps, map, n - 1);
        let before = stump_features(stumps, map, n - 1);
        let found = stump_features(stumps, map, n);
        let f = map[stumps[n - 1].feature as int];
        assert forall|k: int| 0 <= k < found.len() implies exists|i: int|
            0 <= i < n && map[(#[trigger] stumps[i]).feature as int] == #[trigger] found[k] by {
            if k < before.len() {
                assert(found[k] == before[k]);
                let i = choose|i: int|
                    0 <= i < n - 1 && map[(#[trigger] stumps[i]).feature as int] == before[k];
                assert(map[stumps[i].feature as int] == found[k]);
            } else {
                assert(map[stumps[n - 1].feature as int] == found[k]);
            }
        }
        assert forall|i: int| 0 <= i < n && found.len() < OBLIQUE_FEATURES implies found.contains(
            map[(#[trigger] stumps[i]).feature as int],
        ) by {
            let g = map[stumps[i].feature as int];
            if i < n - 1 || before.contains(f) {
                assert(before.contains(g));
                let k = choose|k: int| 0 <= k < before.len() && before[k] == g;
                assert(found[k] == g);
            } else {
                assert(found[before.len() as int] == g);
            }
        }
    }
}

/// Replayed groups are all placed: those of one patch as that patch, all others
/// as they are.
pub proof fn replays_are_all_placed(groups: Seq<Seq<PatchModel>>, n: int)
    requires
        0 <= n <= groups.len(),
    ensures
        lone(groups, n).len() + stacked(groups, n).len() == n,
        forall|i: int|
            #![trigger groups[i]]
            0 <= i < n ==> if groups[i].len() == 1 {
                lone(groups, n).contains(groups[i][0])
            } else {
                stacked(groups, n).contains(groups[i])
            },
        forall|k: int| 0 <= k < stacked(groups, n).len() ==> groups.contains(
            #[trigger] stacked(groups, n)[k],
        ) && stacked(groups, n)[k].len() != 1,
    decreases n,
{
    if n > 0 {
        replays_are_all_placed(groups, n - 1);
        let (a, b) = (lone(groups, n - 1), lone(groups, n));
        let (c, d) = (stacked(groups, n - 1), stacked(groups, n));
        assert forall|i: int| #![trigger groups[i]] 0 <= i < n implies if groups[i].len() == 1 {
            b.contains(groups[i][0])
        } else {
            d.contains(groups[i])
        } by {
            if i < n - 1 {
                if groups[i].len() == 1 {
                    let k = choose|k: int| 0 <= k < a.len() && a[k] == groups[i][0];
                    assert(b[k] == groups[i][0]);
                } else {
                    let k = choose|k: int| 0 <= k < c.len() && c[k] == groups[i];
                    assert(d[k] == groups[i]);
                }
            } else if groups[i].len() == 1 {
                assert(b[a.len() as int] == groups[i][0]);
            } else {
                assert(d[c.len() as int] == groups[i]);
            }
        }
        assert forall|k: int| 0 <= k < d.len() implies groups.contains(#[trigger] d[k])
            && d[k].len() != 1 by {
            if k < c.len() {
                assert(d[k] == c[k]);
            } else {
                assert(groups[n - 1] == d[k]);
            }
        }
    }
}

/// Nothing is dropped but what is to be avoided: every patch with another id
/// stays, and so does every group with another combination id.
pub proof fn what_is_not_avoided_stays(
    patches: Seq<PatchModel>,
    ids: Seq<Seq<char>>,
    avoid: Seq<Seq<char>>,
    n: int,
)
    requires
        0 <= n <= patches.len(),
        ids.len() == patches.len(),
    ensures
        forall|i: int|
            0 <= i < n && !avoid.contains(#[trigger] ids[i]) ==> kept_patches(
                patches,
                ids,
                avoid,
                n,
            ).contains(patches[i]),
        kept_patches(patches, ids, avoid, n).len() == ids.take(n).filter(
            |x: Seq<char>| !avoid.contains(x),
        ).len(),
    decreases n,
{
    reveal(Seq::filter);
    if n > 0 {
        what_is_not_avoided_stays(patches, ids, avoid, n - 1);
        let before = kept_patches(patches, ids, avoid, n - 1);
        let after = kept_patches(patches, ids, avoid, n);
        assert(ids.take(n).drop_last() =~= ids.take(n - 1));
        assert(ids.take(n).last() == ids[n - 1]);
        assert forall|i: int|
            0 <= i < n && !avoid.contains(#[trigger] ids[i]) implies after.contains(patches[i]) by {
            if i < n - 1 {
                assert(before.contains(patches[i]));
                let k = choose|k: int| 0 <= k < before.len() && before[k] == patches[i];
                assert(after[k] == patches[i]);
            } else {
                assert(after[before.len() as int] == patches[i]);
            }
        }
    }
}

/// Groups are dropped exactly when their combination is to be avoided.
pub proof fn groups_not_avoided_stay(
    groups: Seq<Seq<PatchModel>>,
    ids: Seq<Seq<Seq<char>>>,
    avoid: Seq<Seq<char>>,
    n: int,
)
    requires
        0 <= n <= groups.len(),
        ids.len() == groups.len(),
    ensures
        forall|i: int|
            0 <= i < n && !avoid.contains(candidates::combination_id(#[trigger] ids[i]))
                ==> kept_groups(groups, ids, avoid, n).contains(groups[i]),
        forall|k: int|
            0 <= k < kept_groups(groups, ids, avoid, n).len() ==> exists|i: int|
                0 <= i < n && groups[i] == #[trigger] kept_groups(groups, ids, avoid, n)[k]
                    && !avoid.contains(candidates::combination_id(#[trigger] ids[i])),
    decreases n,
{
    if n > 0 {
        groups_not_avoided_stay(groups, ids, avoid, n - 1);
        let before = kept_groups(groups, ids, avoid, n - 1);
        let after = kept_groups(groups, ids, avoid, n);
        assert forall|i: int|
            0 <= i < n && !avoid.contains(
                candidates::combination_id(#[trigger] ids[i]),
            ) implies after.contains(groups[i]) by {
            if i < n - 1 {
                assert(before.contains(groups[i]));
                let k = choose|k: int| 0 <= k < before.len() && before[k] == groups[i];
                assert(after[k] == groups[i]);
            } else {
                assert(after[before.len() as int] == groups[i]);
            }
        }
        assert forall|k: int| 0 <= k < after.len() implies exists|i: int|
            0 <= i < n && groups[i] == #[trigger] after[k] && !avoid.contains(
                candidates::combination_id(#[trigger] ids[i]),
            ) by {
            if k < before.len() {
                assert(after[k] == before[k]);
                let i = choose|i: int|
                    0 <= i < n - 1 && groups[i] == before[k] && !avoid.contains(
                        candidates::combination_id(#[trigger] ids[i]),
                    );
                assert(!avoid.contains(candidates::combination_id(ids[i])));
            } else {
                assert(!avoid.contains(candidates::combination_id(ids[n - 1])));
            }
        }
    }
}

/// A patch that is carried forward or boosted corrects exactly as what it was
/// made of, for the same output; only what it says of itself changes.
pub proof fn carrying_keeps_the_tree(
    p: PatchModel,
    iteration: nat,
    output: usize,
    d: candidates::DiscoveryModel,
    search_records: u64,
    checksum: Seq<char>,
    seed: u64,
    notes: Seq<Seq<char>>,
)
    ensures
        ({
            let c = carried_patch(p, iteration);
            let b = boosted(output, d, search_records, checksum, seed, iteration, notes);
            &&& c.root == p.root && c.output == p.output && c.version == p.version
            &&& c.provenance.predicted_gain == p.provenance.predicted_gain
            &&& c.provenance.affected_records == p.provenance.affected_records
            &&& c.provenance.backend == p.provenance.backend
            &&& c.provenance.notes.drop_last() == p.provenance.notes
            &&& b.root == d.root && b.output == output
            &&& b.provenance.predicted_gain == d.gain
            &&& b.provenance.affected_records == d.affected
            &&& b.provenance.incumbent_checksum == checksum
            &&& b.provenance.seed == Some(seed)
            &&& b.provenance.notes.skip(1) == notes
        }),
{
    let c = carried_patch(p, iteration);
    let b = boosted(output, d, search_records, checksum, seed, iteration, notes);
    assert(c.provenance.notes.drop_last() =~= p.provenance.notes);
    assert(b.provenance.notes.skip(1) =~= notes);
}

/// Combining adds and takes nothing away: what was offered stays in front, every
/// near-winner is offered alone behind it, two or more also together, and all of
/// them on top of this iteration's best.
pub proof fn combining_only_adds(
    patches: Seq<PatchModel>,
    groups: Seq<Seq<PatchModel>>,
    ranked: Seq<PatchModel>,
    carried: Seq<PatchModel>,
    limit: int,
)
    ensures
        ({
            let (p, g) = combined(patches, groups, ranked, carried, limit);
            &&& p == patches + carried
            &&& g.len() >= groups.len() && g.take(groups.len() as int) == groups
            &&& carried.len() >= 2 ==> g.contains(carried)
            &&& carried.len() > 0 && ranked.len() > 0 ==> g.last() == seq![ranked[0]] + carried
            &&& carried.len() == 0 || ranked.len() == 0 ==> g.len() <= groups.len()
                + candidates::cumulative(
                candidates::distinct_patches(ranked, ranked.len() as int, at_least(limit, 2)),
            ).len() + 1
            &&& forall|k: int|
                0 <= k < candidates::cumulative(
                    candidates::distinct_patches(ranked, ranked.len() as int, at_least(limit, 2)),
                ).len() ==> g[groups.len() + k] == #[trigger] candidates::cumulative(
                    candidates::distinct_patches(ranked, ranked.len() as int, at_least(limit, 2)),
                )[k]
        }),
        at_least(limit, 2) >= 2 && at_least(limit, 2) >= limit,
        limit >= 2 ==> at_least(limit, 2) == limit,
{
    let (p, g) = combined(patches, groups, ranked, carried, limit);
    let own = candidates::cumulative(
        candidates::distinct_patches(ranked, ranked.len() as int, at_least(limit, 2)),
    );
    assert(p =~= patches + carried);
    assert(g.take(groups.len() as int) =~= groups);
    if carried.len() >= 2 {
        assert(g[(groups.len() + own.len()) as int] == carried);
    }
}

/// One where it applies.
pub open spec fn one_if(applies: bool) -> nat {
    if applies {
        1
    } else {
        0
    }
}

/// The labels tell what was used and nothing else: there is one for each thing
/// used, and each is among them.
pub proof fn labels_tell_what_was_used(u: Used)
    ensures
        ({
            let l = u.labels();
            &&& l[0] == "histogram-stump"@
            &&& u.max_depth > 1 ==> l.contains(
                "histogram-tree-depth"@ + text::decimal(u.max_depth as nat),
            )
            &&& u.oblique ==> l.contains("oblique-split"@)
            &&& u.random_candidates > 0 ==> l.contains("random-stump"@)
            &&& u.replayed > 0 ==> l.contains("replay"@)
            &&& u.dropped > 0 ==> l.contains("avoid-known-failures"@)
            &&& u.bundle > 1 ==> l.contains("boost-rounds/"@ + text::decimal(u.bundle as nat))
            &&& u.combo_candidates > 0 && u.carried > 0 ==> l.contains("carry-forward"@)
            &&& u.combo_candidates > 0 ==> l.contains("combo"@)
            &&& l.len() == 1 + one_if(u.max_depth > 1) + one_if(u.oblique) + one_if(
                u.random_candidates > 0,
            ) + one_if(u.replayed > 0) + one_if(u.dropped > 0) + one_if(u.bundle > 1) + one_if(
                u.combo_candidates > 0 && u.carried > 0,
            ) + one_if(u.combo_candidates > 0)
        }),
{
    let l = u.labels();
    let n1 = 1int;
    let n2 = n1 + one_if(u.max_depth > 1);
    let n3 = n2 + one_if(u.oblique);
    let n4 = n3 + one_if(u.random_candidates > 0);
    let n5 = n4 + one_if(u.replayed > 0);
    let n6 = n5 + one_if(u.dropped > 0);
    let n7 = n6 + one_if(u.bundle > 1);
    let n8 = n7 + one_if(u.combo_candidates > 0 && u.carried > 0);
    if u.max_depth > 1 {
        assert(l[n1] == "histogram-tree-depth"@ + text::decimal(u.max_depth as nat));
    }
    if u.oblique {
        assert(l[n2] == "oblique-split"@);
    }
    if u.random_candidates > 0 {
        assert(l[n3] == "random-stump"@);
    }
    if u.replayed > 0 {
        assert(l[n4] == "replay"@);
    }
    if u.dropped > 0 {
        assert(l[n5] == "avoid-known-failures"@);
    }
    if u.bundle > 1 {
        assert(l[n6] == "boost-rounds/"@ + text::decimal(u.bundle as nat));
    }
    if u.combo_candidates > 0 && u.carried > 0 {
        assert(l[n7] == "carry-forward"@);
    }
    if u.combo_candidates > 0 {
        assert(l[n8] == "combo"@);
    }
}

} // verus!
