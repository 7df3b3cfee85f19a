//! Filing accepted patches as an enhancement bundle.
//!
//! Filing records what was accepted and never takes part in the decision. A
//! bundle that lacks one accepted patch would claim scores that were measured on
//! creatures it does not reproduce, so the first filing failure poisons it.

use vstd::prelude::*;
use vstd::string::*;

use crate::learnings::model::TOOL_VERSION;

verus! {

/// Producer name stamped on every enhancement.
pub open spec fn producer_name() -> Seq<char> {
    "neat-ai-forests/"@ + TOOL_VERSION@
}

/// Producer name stamped on every enhancement this build files.
pub fn producer() -> (r: String)
    ensures
        r@ == producer_name(),
{
    let mut out = "neat-ai-forests/".to_owned();
    out.append(TOOL_VERSION);
    out
}

/// What is said when a patch id does not survive translation.
pub open spec fn moved_id(own: Seq<char>, mirrored: Seq<char>) -> Seq<char> {
    "patch id changed in translation ("@ + own + " → "@ + mirrored
        + "); the graft's `forest-<id>-…` names would not match"@
}

/// A translated patch must keep its id: it is the id that the graft names its
/// structure with.
pub fn check_mirrored_id(own: &str, mirrored: &str) -> (r: Result<(), String>)
    ensures
        match r {
            Ok(()) => own@ == mirrored@,
            Err(message) => own@ != mirrored@ && message@ == moved_id(own@, mirrored@),
        },
{
    let a = own.to_owned();
    let b = mirrored.to_owned();
    if a == b {
        return Ok(());
    }
    let mut message = "patch id changed in translation (".to_owned();
    message.append(own);
    message.append(" → ");
    message.append(mirrored);
    message.append("); the graft's `forest-<id>-…` names would not match");
    Err(message)
}

/// The run's accepted patches, filed or switched off. Off is the default:
/// nothing is recorded and no file is written.
#[derive(Debug)]
pub struct EnhancementLog {
    /// Patches filed so far; `None` when switched off.
    pub filed: Option<usize>,
    /// First filing failure, if any. Poisons the bundle.
    pub failure: Option<String>,
}

/// What to do about the bundle at the end of a run.
#[derive(Debug, Clone, Copy, PartialEq, Eq, Structural)]
pub enum BundleStep {
    /// Write nothing.
    Nothing,
    /// Write what was filed.
    Write,
}

impl EnhancementLog {
    /// A switched-off log.
    pub fn off() -> (r: EnhancementLog)
        ensures
            r.filed is None,
            r.failure is None,
    {
        EnhancementLog { filed: None, failure: None }
    }

    /// A log on the creature that the run starts from. `opened` tells why the
    /// opening facts could not be recorded, if they could not.
    pub fn open(opened: Result<(), String>) -> (r: Result<EnhancementLog, String>)
        ensures
            match r {
                Ok(log) => opened is Ok && log.filed == Some(0usize) && log.failure is None,
                Err(e) => opened == Err::<(), String>(e),
            },
    {
        match opened {
            Ok(()) => Ok(EnhancementLog { filed: Some(0), failure: None }),
            Err(e) => Err(e),
        }
    }

    /// `true` when this run is filing enhancements.
    pub fn is_on(&self) -> (r: bool)
        ensures
            r == self.filed is Some,
    {
        self.filed.is_some()
    }

    /// Patches filed so far.
    pub fn filed(&self) -> (r: usize)
        ensures
            r == match self.filed {
                Some(n) => n,
                None => 0,
            },
    {
        match self.filed {
            Some(n) => n,
            None => 0,
        }
    }

    /// Take note of how the filing of an acceptance went: how many patches were
    /// newly filed, or why it was refused. A switched-off log files nothing. The
    /// first refusal is remembered.
    pub fn accept(&mut self, outcome: Result<usize, String>) -> (r: Result<usize, String>)
        requires
            old(self).filed matches Some(n) ==> (outcome matches Ok(k) ==> n + k <= usize::MAX),
        ensures
            old(self).filed is None ==> *final(self) == *old(self) && r == Ok::<usize, String>(
                0usize,
            ),
            old(self).filed matches Some(n) ==> {
                &&& match (r, outcome) {
                    (Ok(a), Ok(b)) => a == b,
                    (Err(a), Err(b)) => a@ == b@,
                    _ => false,
                }
                &&& final(self).filed == Some(
                    match outcome {
                        Ok(k) => (n + k) as usize,
                        Err(_) => n,
                    },
                )
                &&& match (old(self).failure, outcome) {
                    (Some(first), _) => final(self).failure == Some(first),
                    (None, Err(e)) => final(self).failure is Some && final(self).failure->0@ == e@,
                    (None, Ok(_)) => final(self).failure is None,
                }
            },
    {
        match self.filed {
            None => Ok(0),
            Some(n) => match outcome {
                Ok(k) => {
                    self.filed = Some(n + k);
                    Ok(k)
                },
                Err(e) => {
                    if self.failure.is_none() {
                        self.failure = Some(e.clone());
                    }
                    Err(e)
                },
            },
        }
    }

    /// Whether to write the bundle. Refused after any filing failure; nothing is
    /// written when the log is off or nothing was filed.
    pub fn write_bundle(&self) -> (r: Result<BundleStep, String>)
        ensures
            match r {
                Ok(step) => self.failure is None && (step == BundleStep::Write <==> (
                self.filed matches Some(n) && n > 0)),
                Err(message) => self.failure matches Some(e) && message@
                    == "refusing to write an incomplete enhancement bundle: "@ + e@,
            },
    {
        if let Some(e) = &self.failure {
            let mut message = "refusing to write an incomplete enhancement bundle: ".to_owned();
            message.append(e.as_str());
            return Err(message);
        }
        match self.filed {
            Some(n) => if n > 0 {
                Ok(BundleStep::Write)
            } else {
                Ok(BundleStep::Nothing)
            },
            None => Ok(BundleStep::Nothing),
        }
    }
}

} // verus!
