//! Rules of the command line.

use vstd::prelude::*;
use vstd::string::*;

use crate::floats::{Double, DOUBLE_ONE};
use crate::histogram::StumpKind;
use crate::learnings::prune::PrunePolicy;
use crate::text;
use crate::text::decimal_text;

verus! {

/// Seconds in an hour.
pub const SECONDS_PER_HOUR: u64 = 3600;

/// Bytes in a mebibyte.
pub const BYTES_PER_MIB: usize = 1_048_576;

/// The kind that a word names.
pub open spec fn named_kind(s: Seq<char>) -> Option<StumpKind> {
    if s == "left-only"@ {
        Some(StumpKind::LeftOnly)
    } else if s == "right-only"@ {
        Some(StumpKind::RightOnly)
    } else if s == "two-leaf"@ {
        Some(StumpKind::TwoLeaf)
    } else {
        None
    }
}

/// Read a stump kind.
pub fn parse_kind(s: &str) -> (r: Result<StumpKind, String>)
    ensures
        match r {
            Ok(kind) => named_kind(s@) == Some(kind),
            Err(m) => named_kind(s@) is None && m@ == "unknown stump kind `"@ + s@
                + "` (left-only|right-only|two-leaf)"@,
        },
{
    let word = s.to_owned();
    if word == "left-only".to_owned() {
        Ok(StumpKind::LeftOnly)
    } else if word == "right-only".to_owned() {
        Ok(StumpKind::RightOnly)
    } else if word == "two-leaf".to_owned() {
        Ok(StumpKind::TwoLeaf)
    } else {
        let mut m = "unknown stump kind `".to_owned();
        m.append(s);
        m.append("` (left-only|right-only|two-leaf)");
        Err(m)
    }
}

/// The kinds that labels name are read back.
pub proof fn labels_read_back(kind: StumpKind)
    ensures
        named_kind(kind.label_text()) == Some(kind),
{
    reveal_strlit("left-only");
    reveal_strlit("right-only");
    reveal_strlit("two-leaf");
    assert("left-only"@.len() == 9);
    assert("right-only"@.len() == 10);
    assert("two-leaf"@.len() == 8);
}

/// Screen sample rate: only a rate strictly between zero and one screens.
pub fn screen_rate(rate: Double) -> (r: Option<Double>)
    ensures
        r == if rate.above(Double { bits: 0 }) && (Double { bits: DOUBLE_ONE }).above(rate) {
            Some(rate)
        } else {
            None
        },
{
    if rate.gt(Double::zero()) && Double::one().gt(rate) {
        Some(rate)
    } else {
        None
    }
}

/// Parity tolerance, unless parity is skipped.
pub fn parity_tolerance(skip: bool, abs: Double) -> (r: Option<Double>)
    ensures
        r == if skip {
            None
        } else {
            Some(abs)
        },
{
    if skip {
        None
    } else {
        Some(abs)
    }
}

/// Hours in seconds, as many as can be counted.
pub open spec fn hours(n: u64) -> u64 {
    if n * SECONDS_PER_HOUR > u64::MAX {
        u64::MAX
    } else {
        (n * SECONDS_PER_HOUR) as u64
    }
}

/// Hours in seconds, as many as can be counted.
pub fn hours_to_seconds(n: u64) -> (r: u64)
    ensures
        r == hours(n),
{
    if n > u64::MAX / SECONDS_PER_HOUR {
        u64::MAX
    } else {
        n * SECONDS_PER_HOUR
    }
}

/// Mebibytes in bytes, as many as can be counted.
pub fn mib_to_bytes(n: usize) -> (r: usize)
    ensures
        r == if n * BYTES_PER_MIB > usize::MAX {
            usize::MAX as int
        } else {
            n * BYTES_PER_MIB
        },
{
    if n > usize::MAX / BYTES_PER_MIB {
        usize::MAX
    } else {
        n * BYTES_PER_MIB
    }
}

/// Pruning must never race the retry window: a rejection that is dropped before
/// it is offered again is an experiment silently skipped.
pub fn check_retention(rejected_after_hours: u64, retry_after_hours: u64) -> (r: Result<
    (),
    String,
>)
    ensures
        match r {
            Ok(()) => rejected_after_hours > retry_after_hours,
            Err(m) => rejected_after_hours <= retry_after_hours && m@
                == "--rejected-after-hours "@ + text::decimal(rejected_after_hours as nat)
                + " must exceed --learnings-retry-after-hours "@ + text::decimal(
                retry_after_hours as nat,
            ) + ", or a rejection is dropped before it is ever retried"@,
        },
{
    if rejected_after_hours > retry_after_hours {
        return Ok(());
    }
    let mut m = "--rejected-after-hours ".to_owned();
    m.append(decimal_text(rejected_after_hours).as_str());
    m.append(" must exceed --learnings-retry-after-hours ");
    m.append(decimal_text(retry_after_hours).as_str());
    m.append(", or a rejection is dropped before it is ever retried");
    Err(m)
}

/// The policy of a prune.
pub fn prune_policy(
    rejected_after_hours: u64,
    accepted_after_hours: u64,
    max_records: usize,
    now_unix: u64,
) -> (r: PrunePolicy)
    ensures
        r.rejected_after_secs == hours(rejected_after_hours),
        r.accepted_after_secs == hours(accepted_after_hours),
        r.max_records == max_records,
        r.now_unix == now_unix,
{
    PrunePolicy {
        rejected_after_secs: hours_to_seconds(rejected_after_hours),
        accepted_after_secs: hours_to_seconds(accepted_after_hours),
        max_records,
        now_unix,
    }
}

/// An hour has sixty times sixty seconds; more hours are never fewer seconds, and
/// what cannot be counted is the most that can.
pub proof fn hours_are_counted_in_seconds(n: u64, m: u64)
    requires
        n <= m,
    ensures
        n * 3600 <= u64::MAX ==> hours(n) == n * 3600,
        n * 3600 > u64::MAX ==> hours(n) == u64::MAX,
        hours(n) <= hours(m),
{
}

} // verus!
