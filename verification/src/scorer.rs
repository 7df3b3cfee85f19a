//! What the external scorer reports.

use vstd::prelude::*;
use vstd::string::*;

use crate::floats::Double;

verus! {

/// What the scorer says of one creature.
#[derive(Debug, PartialEq)]
pub struct ScoreResult {
    /// Score; larger is better.
    pub score: Double,
    /// Error behind the score.
    pub error: Double,
    /// Complexity penalty.
    pub complexity_penalty: Double,
    /// Records the scorer saw.
    pub record_count: u64,
    /// Sample rate, when it scored a sample.
    pub sample_rate: Option<Double>,
    /// Backend label.
    pub gpu_backend: Option<String>,
    /// Cost function.
    pub cost_name: Option<String>,
    /// Time the scorer took.
    pub time_taken: Double,
}

/// What a call scores on.
#[derive(Debug, Clone, Copy, PartialEq, Eq, Structural)]
pub enum ScorerMode {
    /// The full corpus; only such a call decides.
    Full,
    /// A sample of it, for ranking.
    Sample {
        /// Sample rate.
        rate: Double,
        /// Phase of the sample's stride.
        phase: u64,
    },
}

impl ScorerMode {
    /// Scores of such a call may decide.
    pub fn is_authoritative(self) -> (r: bool)
        ensures
            r == (self is Full),
    {
        match self {
            ScorerMode::Full => true,
            ScorerMode::Sample { .. } => false,
        }
    }

    /// What the mode is called.
    pub open spec fn name(self) -> Seq<char> {
        match self {
            ScorerMode::Full => "full"@,
            ScorerMode::Sample { .. } => "sample"@,
        }
    }

    /// What the mode is called.
    pub fn label(self) -> (r: String)
        ensures
            r@ == self.name(),
    {
        match self {
            ScorerMode::Full => "full".to_owned(),
            ScorerMode::Sample { .. } => "sample".to_owned(),
        }
    }
}

/// Names and results, as a scorer call returns them: each name once, ascending.
pub open spec fn names(results: Seq<(String, ScoreResult)>) -> Seq<Seq<char>> {
    results.map_values(|p: (String, ScoreResult)| p.0@)
}

/// Where a name stands in the results; their number when it does not.
pub open spec fn place(results: Seq<(String, ScoreResult)>, name: Seq<char>, from: int) -> int
    decreases results.len() - from,
{
    if from < 0 || from >= results.len() {
        results.len() as int
    } else if results[from].0@ == name {
        from
    } else {
        place(results, name, from + 1)
    }
}

/// A name stands no later than where it is seen.
pub proof fn place_is_first(
    results: Seq<(String, ScoreResult)>,
    name: Seq<char>,
    from: int,
    k: int,
)
    requires
        0 <= from <= k < results.len(),
        results[k].0@ == name,
    ensures
        place(results, name, from) <= k,
    decreases k - from,
{
    if results[from].0@ != name {
        place_is_first(results, name, from + 1, k);
    }
}

/// Where a name stands in the results; their number when it does not.
pub fn find(results: &Vec<(String, ScoreResult)>, name: &str) -> (r: usize)
    ensures
        r == place(results@, name@, 0),
        r <= results@.len(),
        r < results@.len() ==> results@[r as int].0@ == name@,
{
    let key = name.to_owned();
    let mut i: usize = 0;
    while i < results.len()
        invariant
            key@ == name@,
            i <= results@.len(),
            place(results@, name@, 0) == place(results@, name@, i as int),
        decreases results@.len() - i,
    {
        if results[i].0 == key {
            return i;
        }
        i = i + 1;
    }
    i
}

/// Where a name is found it stands, and it is not found only when it stands
/// nowhere.
pub proof fn names_are_found(results: Seq<(String, ScoreResult)>, name: Seq<char>, from: int)
    requires
        0 <= from <= results.len(),
    ensures
        from <= place(results, name, from) <= results.len(),
        place(results, name, from) < results.len() ==> results[place(results, name, from)].0@
            == name,
        forall|k: int|
            from <= k < place(results, name, from) ==> (#[trigger] results[k]).0@ != name,
    decreases results.len() - from,
{
    if from < results.len() && results[from].0@ != name {
        names_are_found(results, name, from + 1);
    }
}

} // verus!
