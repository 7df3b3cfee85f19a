//! Authoritative baseline and scorer parity gate.
//!
//! Before any search the incumbent is scored on the full corpus; that score is
//! what every candidate must beat. A local forward-pass error is compared with
//! the scorer's, and a disagreement beyond the tolerance aborts the run, unless
//! the comparison was switched off or the scorer's cost is another one.

use vstd::prelude::*;
use vstd::string::*;

use crate::corpus::CorpusInfo;
use crate::creature;
use crate::creature::copy_maybe;
use crate::floats::Double;
use crate::scorer;
use crate::scorer::ScoreResult;
use crate::text;
use crate::text::{chars_of, decimal_text};

verus! {

/// How to treat a disagreement between the local error and the scorer's.
#[derive(Debug, Clone, Copy, PartialEq, Eq, Structural)]
pub enum ParityPolicy {
    /// Abort when the difference exceeds an absolute plus a relative tolerance.
    Abort {
        /// Absolute tolerance.
        abs: Double,
        /// Relative tolerance.
        rel: Double,
    },
    /// Do not compare: local proxies are flagged as unverified.
    Skip,
}

/// Bit pattern of the default absolute tolerance, `1e-7`.
pub const DEFAULT_PARITY_ABS: u64 = 0x3e7a_d7f2_9abc_af48;

/// Bit pattern of the default relative tolerance, `1e-4`.
pub const DEFAULT_PARITY_REL: u64 = 0x3f1a_36e2_eb1c_432d;

impl Default for ParityPolicy {
    /// Abort beyond `1e-7` plus `1e-4` of the error.
    fn default() -> (r: ParityPolicy)
        ensures
            r == (ParityPolicy::Abort {
                abs: Double { bits: DEFAULT_PARITY_ABS },
                rel: Double { bits: DEFAULT_PARITY_REL },
            }),
    {
        ParityPolicy::Abort {
            abs: Double { bits: DEFAULT_PARITY_ABS },
            rel: Double { bits: DEFAULT_PARITY_REL },
        }
    }
}

/// Scorer-verified baseline for one incumbent.
#[derive(Debug, PartialEq)]
pub struct AuthoritativeBaseline {
    /// Incumbent checksum.
    pub incumbent_checksum: String,
    /// Authoritative score; larger is better.
    pub score: Double,
    /// Authoritative error.
    pub error: Double,
    /// Complexity penalty.
    pub complexity_penalty: Double,
    /// Records the scorer saw.
    pub record_count: u64,
    /// Scorer identity.
    pub scorer_identity: String,
    /// Cost function the scorer reported.
    pub cost_name: Option<String>,
    /// Scorer backend label.
    pub scorer_backend: Option<String>,
    /// Corpus identity.
    pub corpus_identity: String,
    /// Corpus record count.
    pub corpus_record_count: u64,
    /// Local forward-pass error, when computed.
    pub local_mse: Option<Double>,
    /// What became of the parity check.
    pub parity: String,
    /// Scorer milliseconds.
    pub scorer_ms: u64,
    /// Unix seconds.
    pub created_at_unix: u64,
}

/// What an [`AuthoritativeBaseline`] says.
pub struct BaselineModel {
    pub incumbent_checksum: Seq<char>,
    pub score: Double,
    pub error: Double,
    pub complexity_penalty: Double,
    pub record_count: u64,
    pub scorer_identity: Seq<char>,
    pub cost_name: Option<Seq<char>>,
    pub scorer_backend: Option<Seq<char>>,
    pub corpus_identity: Seq<char>,
    pub corpus_record_count: u64,
    pub local_mse: Option<Double>,
    pub parity: Seq<char>,
    pub scorer_ms: u64,
    pub created_at_unix: u64,
}

impl View for AuthoritativeBaseline {
    type V = BaselineModel;

    open spec fn view(&self) -> BaselineModel {
        BaselineModel {
            incumbent_checksum: self.incumbent_checksum@,
            score: self.score,
            error: self.error,
            complexity_penalty: self.complexity_penalty,
            record_count: self.record_count,
            scorer_identity: self.scorer_identity@,
            cost_name: creature::maybe_text(self.cost_name),
            scorer_backend: creature::maybe_text(self.scorer_backend),
            corpus_identity: self.corpus_identity@,
            corpus_record_count: self.corpus_record_count,
            local_mse: self.local_mse,
            parity: self.parity@,
            scorer_ms: self.scorer_ms,
            created_at_unix: self.created_at_unix,
        }
    }
}

/// How far the local error is from the scorer's, and how far it may be, with
/// the numbers as messages write them.
#[derive(Debug)]
pub struct ParityMeasure {
    /// Absolute difference.
    pub difference: Double,
    /// Absolute tolerance plus the relative tolerance of the scorer's error.
    pub limit: Double,
    /// Local error.
    pub local: String,
    /// Scorer's error.
    pub error: String,
    /// Difference.
    pub difference_text: String,
    /// Difference in scientific notation.
    pub difference_short: String,
    /// Absolute tolerance.
    pub abs: String,
    /// Relative tolerance.
    pub rel: String,
}

/// The character is the given letter in either case.
pub open spec fn is_letter(c: char, lower: char, upper: char) -> bool {
    c == lower || c == upper
}

/// The cost is the mean squared error: unnamed, or `MSE` in any case.
pub open spec fn is_mse(cost: Option<Seq<char>>) -> bool {
    match cost {
        None => true,
        Some(name) => name.len() == 3 && is_letter(name[0], 'm', 'M') && is_letter(
            name[1],
            's',
            'S',
        ) && is_letter(name[2], 'e', 'E'),
    }
}

fn names_mse(cost: &Option<String>) -> (r: bool)
    ensures
        r == is_mse(creature::maybe_text(*cost)),
{
    match cost {
        None => true,
        Some(name) => {
            let c = chars_of(name.as_str());
            c.len() == 3 && (c[0] == 'm' || c[0] == 'M') && (c[1] == 's' || c[1] == 'S') && (c[2]
                == 'e' || c[2] == 'E')
        },
    }
}

impl ParityMeasure {
    /// The errors agree.
    pub open spec fn agrees(&self) -> bool {
        !self.difference.above(self.limit)
    }

    /// What is said when they do not.
    pub open spec fn mismatch(&self) -> Seq<char> {
        "baseline parity mismatch: local MSE "@ + self.local@ + " vs scorer error "@ + self.error@
            + " (|Δ|="@ + self.difference_text@ + " > "@ + self.abs@ + "+"@ + self.rel@
            + "·|error|); aborting before search"@
    }

    /// What is said when they do.
    pub open spec fn verified(&self) -> Seq<char> {
        "verified: |Δ|="@ + self.difference_short@ + " within "@ + self.abs@ + "+"@ + self.rel@
            + "·|error|"@
    }

    fn mismatch_text(&self) -> (r: String)
        ensures
            r@ == self.mismatch(),
    {
        let mut out = "baseline parity mismatch: local MSE ".to_owned();
        out.append(self.local.as_str());
        out.append(" vs scorer error ");
        out.append(self.error.as_str());
        out.append(" (|Δ|=");
        out.append(self.difference_text.as_str());
        out.append(" > ");
        out.append(self.abs.as_str());
        out.append("+");
        out.append(self.rel.as_str());
        out.append("·|error|); aborting before search");
        out
    }

    fn verified_text(&self) -> (r: String)
        ensures
            r@ == self.verified(),
    {
        let mut out = "verified: |Δ|=".to_owned();
        out.append(self.difference_short.as_str());
        out.append(" within ");
        out.append(self.abs.as_str());
        out.append("+");
        out.append(self.rel.as_str());
        out.append("·|error|");
        out
    }
}

/// What the parity check says: a label, or why the run must not go on.
pub open spec fn parity_verdict(
    policy: ParityPolicy,
    local: bool,
    cost: Option<Seq<char>>,
    measure: ParityMeasure,
) -> Result<Seq<char>, Seq<char>> {
    match policy {
        ParityPolicy::Skip => Ok("skipped: local proxies unverified against scorer"@),
        ParityPolicy::Abort { .. } => if !local {
            Ok("unavailable: no local MSE supplied"@)
        } else if !is_mse(cost) {
            Ok(
                "disabled: scorer cost "@ + cost->0
                    + " is not MSE; local proxies unverified"@,
            )
        } else if measure.agrees() {
            Ok(measure.verified())
        } else {
            Err(measure.mismatch())
        },
    }
}

/// Compare the local error with the scorer's.
pub fn check_parity(
    policy: ParityPolicy,
    local: bool,
    cost: &Option<String>,
    measure: &ParityMeasure,
) -> (r: Result<String, String>)
    ensures
        match r {
            Ok(label) => parity_verdict(policy, local, creature::maybe_text(*cost), *measure) == Ok::<
                Seq<char>,
                Seq<char>,
            >(label@),
            Err(message) => parity_verdict(
                policy,
                local,
                creature::maybe_text(*cost),
                *measure,
            ) == Err::<Seq<char>, Seq<char>>(message@),
        },
{
    match policy {
        ParityPolicy::Skip => Ok("skipped: local proxies unverified against scorer".to_owned()),
        ParityPolicy::Abort { .. } => {
            if !local {
                return Ok("unavailable: no local MSE supplied".to_owned());
            }
            if !names_mse(cost) {
                let mut label = "disabled: scorer cost ".to_owned();
                if let Some(name) = cost {
                    label.append(name.as_str());
                }
                label.append(" is not MSE; local proxies unverified");
                return Ok(label);
            }
            if measure.difference.gt(measure.limit) {
                Err(measure.mismatch_text())
            } else {
                Ok(measure.verified_text())
            }
        },
    }
}

/// What surrounds the scoring of a baseline.
#[derive(Debug)]
pub struct BaselineRun<'a> {
    /// Incumbent checksum.
    pub incumbent_checksum: &'a str,
    /// Scorer identity.
    pub scorer_identity: &'a str,
    /// Local forward-pass error, when computed.
    pub local_mse: Option<Double>,
    /// Scorer milliseconds.
    pub scorer_ms: u64,
    /// Now, in Unix seconds.
    pub now_unix: u64,
}

/// The record of a scored baseline.
pub open spec fn baseline_of(
    r: ScoreResult,
    corpus: CorpusInfo,
    run: BaselineRun,
    parity: Seq<char>,
) -> BaselineModel {
    BaselineModel {
        incumbent_checksum: run.incumbent_checksum@,
        score: r.score,
        error: r.error,
        complexity_penalty: r.complexity_penalty,
        record_count: r.record_count,
        scorer_identity: run.scorer_identity@,
        cost_name: creature::maybe_text(r.cost_name),
        scorer_backend: creature::maybe_text(r.gpu_backend),
        corpus_identity: corpus.identity@,
        corpus_record_count: corpus.record_count,
        local_mse: run.local_mse,
        parity,
        scorer_ms: run.scorer_ms,
        created_at_unix: run.now_unix,
    }
}

/// The baseline that a scorer call establishes, or why it does not: the call
/// must name the baseline and nothing else, on the records of the corpus, and
/// its error must pass the parity check.
pub open spec fn established(
    results: Seq<(String, ScoreResult)>,
    corpus: CorpusInfo,
    run: BaselineRun,
    policy: ParityPolicy,
    measure: ParityMeasure,
) -> Result<BaselineModel, Seq<char>> {
    let at = scorer::place(results, "baseline"@, 0);
    let r = results[at].1;
    if at >= results.len() {
        Err("baseline: scorer returned no `baseline` entry"@)
    } else if results.len() != 1 {
        Err(
            "baseline: scorer returned "@ + text::decimal(results.len())
                + " entries for a single creature"@,
        )
    } else if r.record_count != 0 && r.record_count != corpus.record_count {
        Err(
            "baseline: scorer saw "@ + text::decimal(r.record_count as nat)
                + " records but the corpus has "@ + text::decimal(corpus.record_count as nat)
                + " — refusing to continue"@,
        )
    } else {
        match parity_verdict(
            policy,
            run.local_mse is Some,
            creature::maybe_text(r.cost_name),
            measure,
        ) {
            Ok(label) => Ok(baseline_of(r, corpus, run, label)),
            Err(message) => Err(message),
        }
    }
}

/// Record the authoritative baseline from the scorer's results.
pub fn establish_baseline(
    results: &Vec<(String, ScoreResult)>,
    corpus: &CorpusInfo,
    run: &BaselineRun<'_>,
    policy: ParityPolicy,
    measure: &ParityMeasure,
) -> (r: Result<AuthoritativeBaseline, String>)
    ensures
        match r {
            Ok(b) => established(results@, *corpus, *run, policy, *measure) == Ok::<
                BaselineModel,
                Seq<char>,
            >(b@),
            Err(message) => established(results@, *corpus, *run, policy, *measure) == Err::<
                BaselineModel,
                Seq<char>,
            >(message@),
        },
{
    let at: usize = scorer::find(results, "baseline");
    let total: usize = results.len();
    if at >= total {
        return Err("baseline: scorer returned no `baseline` entry".to_owned());
    }
    if total != 1 {
        let mut message = "baseline: scorer returned ".to_owned();
        message.append(decimal_text(total as u64).as_str());
        message.append(" entries for a single creature");
        return Err(message);
    }
    let entry = &results[at].1;
    if entry.record_count != 0 && entry.record_count != corpus.record_count {
        let mut message = "baseline: scorer saw ".to_owned();
        message.append(decimal_text(entry.record_count).as_str());
        message.append(" records but the corpus has ");
        message.append(decimal_text(corpus.record_count).as_str());
        message.append(" — refusing to continue");
        return Err(message);
    }
    match check_parity(policy, run.local_mse.is_some(), &entry.cost_name, measure) {
        Err(message) => Err(message),
        Ok(label) => Ok(record_baseline(entry, corpus, run, label)),
    }
}

fn record_baseline(
    entry: &ScoreResult,
    corpus: &CorpusInfo,
    run: &BaselineRun<'_>,
    parity: String,
) -> (r: AuthoritativeBaseline)
    ensures
        r@ == baseline_of(*entry, *corpus, *run, parity@),
{
    AuthoritativeBaseline {
        incumbent_checksum: run.incumbent_checksum.to_owned(),
        score: entry.score,
        error: entry.error,
        complexity_penalty: entry.complexity_penalty,
        record_count: entry.record_count,
        scorer_identity: run.scorer_identity.to_owned(),
        cost_name: copy_maybe(&entry.cost_name),
        scorer_backend: copy_maybe(&entry.gpu_backend),
        corpus_identity: corpus.identity.clone(),
        corpus_record_count: corpus.record_count,
        local_mse: run.local_mse,
        parity,
        scorer_ms: run.scorer_ms,
        created_at_unix: run.now_unix,
    }
}

/// What an accepted winner's baseline says of parity.
pub const INHERITED_PARITY: &'static str =
    "inherited: scored in the same authoritative call as its parent";

/// The baseline of an accepted winner: its full-corpus result from the call in
/// which its parent was scored as well.
pub fn inherited_baseline(entry: &ScoreResult, corpus: &CorpusInfo, run: &BaselineRun<'_>) -> (r:
    AuthoritativeBaseline)
    requires
        run.local_mse is None,
    ensures
        r@ == baseline_of(*entry, *corpus, *run, INHERITED_PARITY@),
{
    record_baseline(entry, corpus, run, INHERITED_PARITY.to_owned())
}

/// A run is stopped for parity only when the comparison is on, there is a local
/// error to compare, the scorer's cost is that error, and the two are further apart
/// than they may be.
pub proof fn only_real_mismatches_abort(
    policy: ParityPolicy,
    local: bool,
    cost: Option<Seq<char>>,
    measure: ParityMeasure,
)
    ensures
        parity_verdict(policy, local, cost, measure) is Err <==> {
            &&& policy is Abort
            &&& local
            &&& cost matches Some(name) ==> {
                &&& name.len() == 3
                &&& name[0] == 'm' || name[0] == 'M'
                &&& name[1] == 's' || name[1] == 'S'
                &&& name[2] == 'e' || name[2] == 'E'
            }
            &&& measure.difference.above(measure.limit)
        },
{
}

proof fn lone_results_are_found(results: Seq<(String, ScoreResult)>)
    requires
        results.len() == 1,
    ensures
        scorer::place(results, "baseline"@, 0) == if results[0].0@ == "baseline"@ {
            0int
        } else {
            1int
        },
{
    reveal_with_fuel(scorer::place, 3);
}

/// A baseline is established only by a call that scored one creature, the baseline,
/// on as many records as the corpus has or without telling how many; and it records
/// what that call said of it and nothing else.
pub proof fn baselines_record_their_own_call(
    results: Seq<(String, ScoreResult)>,
    corpus: CorpusInfo,
    run: BaselineRun,
    policy: ParityPolicy,
    measure: ParityMeasure,
)
    requires
        established(results, corpus, run, policy, measure) is Ok,
    ensures
        ({
            let b = established(results, corpus, run, policy, measure)->Ok_0;
            let r = results[0].1;
            &&& results.len() == 1
            &&& results[0].0@ == "baseline"@
            &&& r.record_count == 0 || r.record_count == corpus.record_count
            &&& b.score == r.score
            &&& b.error == r.error
            &&& b.complexity_penalty == r.complexity_penalty
            &&& b.record_count == r.record_count
            &&& b.corpus_record_count == corpus.record_count
            &&& b.corpus_identity == corpus.identity@
            &&& b.incumbent_checksum == run.incumbent_checksum@
            &&& b.scorer_identity == run.scorer_identity@
            &&& b.local_mse == run.local_mse
            &&& b.scorer_ms == run.scorer_ms
            &&& b.created_at_unix == run.now_unix
            &&& r.cost_name matches Some(name) ==> b.cost_name == Some(name@)
            &&& r.cost_name is None ==> b.cost_name is None
            &&& r.gpu_backend matches Some(name) ==> b.scorer_backend == Some(name@)
            &&& r.gpu_backend is None ==> b.scorer_backend is None
            &&& parity_verdict(
                policy,
                run.local_mse is Some,
                creature::maybe_text(r.cost_name),
                measure,
            ) == Ok::<Seq<char>, Seq<char>>(b.parity)
        }),
{
    if results.len() == 1 {
        lone_results_are_found(results);
    }
}

/// A call that scored the baseline alone, on the records of the corpus, establishes
/// it unless parity forbids.
pub proof fn sound_calls_establish_a_baseline(
    results: Seq<(String, ScoreResult)>,
    corpus: CorpusInfo,
    run: BaselineRun,
    policy: ParityPolicy,
    measure: ParityMeasure,
)
    requires
        results.len() == 1,
        results[0].0@ == "baseline"@,
        results[0].1.record_count == corpus.record_count || results[0].1.record_count == 0,
        policy is Skip || run.local_mse is None || !measure.difference.above(measure.limit),
    ensures
        established(results, corpus, run, policy, measure) is Ok,
{
    lone_results_are_found(results);
}

} // verus!
