//! An in-process scorer: a real forward pass over the corpus, for trying the
//! pipeline without the external one.
//!
//! `score = 1 − error − 1e-7·hidden`. Which records count, what is charged for
//! and how a call is answered is decided here; the forward pass and the sums are
//! done by whoever runs it.

use vstd::prelude::*;
use vstd::string::*;

use crate::creature;
use crate::creature::{Creature, NeuronModel};
use crate::floats::Double;
use crate::scorer;
use crate::scorer::{ScoreResult, ScorerMode};

verus! {

/// Identity of the scorer.
pub const LOCAL_IDENTITY: &'static str = "fake:local-mse";

/// A scorer that can be told to misbehave.
#[derive(Debug)]
pub struct LocalMseScorer {
    /// Calls that scored: what each scored on, and the names of what it scored.
    pub calls: Vec<(String, Vec<String>)>,
    /// When set, every call fails with this message.
    pub fail_with: Option<String>,
    /// When set, the output is this raw string (to simulate malformed output).
    pub raw_output: Option<String>,
    /// Added to every candidate's sampled score: simulates screen optimism.
    pub sample_bias: Double,
}

/// How a call is answered.
#[derive(Debug)]
pub enum Reply<'a> {
    /// It fails with this message.
    Fail(&'a str),
    /// It answers with this text, whatever it is.
    Raw(&'a str),
    /// It scores.
    Score,
}

impl LocalMseScorer {
    /// A scorer that behaves.
    pub fn new() -> (r: LocalMseScorer)
        ensures
            r.calls@.len() == 0,
            r.fail_with is None,
            r.raw_output is None,
            r.sample_bias == (Double { bits: 0 }),
    {
        LocalMseScorer {
            calls: Vec::new(),
            fail_with: None,
            raw_output: None,
            sample_bias: Double::zero(),
        }
    }

    /// Take down a call.
    pub fn record_call(&mut self, mode: ScorerMode, stems: Vec<String>)
        ensures
            final(self).calls@.len() == old(self).calls@.len() + 1,
            final(self).calls@.drop_last() == old(self).calls@,
            final(self).calls@.last().0@ == mode.name(),
            final(self).calls@.last().1 == stems,
            *final(self) == (LocalMseScorer { calls: final(self).calls, ..*old(self) }),
    {
        self.calls.push((mode.label(), stems));
        assert(self.calls@.drop_last() =~= old(self).calls@);
    }

    /// How the next call is answered: a failure before a raw answer.
    pub fn reply(&self) -> (r: Reply<'_>)
        ensures
            match (self.fail_with, self.raw_output) {
                (Some(m), _) => r matches Reply::Fail(f) && f@ == m@,
                (None, Some(raw)) => r matches Reply::Raw(t) && t@ == raw@,
                (None, None) => r is Score,
            },
    {
        if let Some(m) = &self.fail_with {
            return Reply::Fail(m.as_str());
        }
        if let Some(raw) = &self.raw_output {
            return Reply::Raw(raw.as_str());
        }
        Reply::Score
    }

    /// What is added to a score: nothing for the baseline, and nothing on the full
    /// corpus.
    pub fn bias(&self, stem: &str, mode: ScorerMode) -> (r: Double)
        ensures
            r == if stem@ == "baseline"@ || mode is Full {
                Double { bits: 0 }
            } else {
                self.sample_bias
            },
    {
        if stem.to_owned() == "baseline".to_owned() || mode.is_authoritative() {
            Double::zero()
        } else {
            self.sample_bias
        }
    }
}

/// A record is scored when it lies on the stride.
pub fn is_scored(index: u64, phase: u64, stride: u64) -> (r: bool)
    requires
        stride > 0,
        index + phase <= u64::MAX,
    ensures
        r == ((index + phase) % (stride as int) == 0),
{
    (index + phase) % stride == 0
}

/// Hidden neurons among the first `n`.
pub open spec fn hidden_count(neurons: Seq<NeuronModel>, n: int) -> nat
    decreases n,
{
    if n <= 0 {
        0
    } else if neurons[n - 1].kind == "hidden"@ {
        hidden_count(neurons, n - 1) + 1
    } else {
        hidden_count(neurons, n - 1)
    }
}

/// Neurons that the score charges for.
pub fn hidden_neurons(c: &Creature) -> (r: usize)
    ensures
        r == hidden_count(c@.neurons, c@.neurons.len() as int),
{
    let hidden = "hidden".to_owned();
    let n: usize = c.neurons.len();
    let mut count: usize = 0;
    for i in 0..n
        invariant
            n == c.neurons@.len(),
            hidden@ == "hidden"@,
            count <= i,
            count == hidden_count(c@.neurons, i as int),
    {
        assert(c@.neurons[i as int] == c.neurons@[i as int]@);
        if c.neurons[i].kind == hidden {
            count = count + 1;
        }
    }
    count
}

/// What the scorer reports of a creature.
pub fn local_result(
    score: Double,
    error: Double,
    penalty: Double,
    records: u64,
    mode: ScorerMode,
) -> (r: ScoreResult)
    ensures
        r.score == score,
        r.error == error,
        r.complexity_penalty == penalty,
        r.record_count == records,
        r.sample_rate == (match mode {
            ScorerMode::Full => None,
            ScorerMode::Sample { rate, .. } => Some(rate),
        }),
        creature::maybe_text(r.gpu_backend) == Some("fake"@),
        creature::maybe_text(r.cost_name) == Some("MSE"@),
        r.time_taken == (Double { bits: 0 }),
{
    ScoreResult {
        score,
        error,
        complexity_penalty: penalty,
        record_count: records,
        sample_rate: match mode {
            ScorerMode::Full => None,
            ScorerMode::Sample { rate, .. } => Some(rate),
        },
        gpu_backend: Some("fake".to_owned()),
        cost_name: Some("MSE".to_owned()),
        time_taken: Double::zero(),
    }
}

/// A call must have scored the baseline.
pub fn has_baseline(results: &Vec<(String, ScoreResult)>) -> (r: bool)
    ensures
        r == scorer::names(results@).contains("baseline"@),
{
    let at: usize = scorer::find(results, "baseline");
    proof {
        if at < results@.len() {
            assert(scorer::names(results@)[at as int] == "baseline"@);
        } else if scorer::names(results@).contains("baseline"@) {
            let k = choose|k: int|
                0 <= k < results@.len() && scorer::names(results@)[k] == "baseline"@;
            scorer::place_is_first(results@, "baseline"@, 0, k);
        }
    }
    at < results.len()
}

/// The score charges for the hidden neurons, each once.
pub proof fn hidden_neurons_are_charged_once(neurons: Seq<NeuronModel>, n: int)
    requires
        0 <= n <= neurons.len(),
    ensures
        hidden_count(neurons, n) == neurons.take(n).filter(
            |x: NeuronModel| x.kind == "hidden"@,
        ).len(),
    decreases n,
{
    reveal(Seq::filter);
    if n > 0 {
        hidden_neurons_are_charged_once(neurons, n - 1);
        assert(neurons.take(n).drop_last() =~= neurons.take(n - 1));
        assert(neurons.take(n).last() == neurons[n - 1]);
    }
}

} // verus!
