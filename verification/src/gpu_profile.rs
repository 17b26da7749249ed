//! The explicit GPU test profile.
//!
//! Outside the profile a busy GPU, a missing fixture or a kernel error is a
//! skip. Under it the same condition is a hard failure, so that a broken run
//! cannot hide behind a skip. The profile takes both its switch and a recent
//! preflight pass.

use crate::text::{around, decimal};
use crate::types::ComputeError;
use vstd::prelude::*;
use vstd::string::StringExecFns;

verus! {

/// How long a passed preflight authorizes the profile for, in nanoseconds.
pub const PREFLIGHT_MAX_AGE_NANOS: u128 = 1_800_000_000_000;

/// Whether a preflight marker stamped at `stamped` records a pass recent
/// enough at `now`. One stamped in the future is a clock adjustment, not a
/// stale pass.
pub fn preflight_passed(stamped: Option<u128>, now: u128) -> (passed: bool)
    ensures
        passed == (match stamped {
            None => false,
            Some(at) => now <= at + PREFLIGHT_MAX_AGE_NANOS,
        }),
        stamped is None ==> !passed,
        stamped matches Some(at) ==> (passed <==> now <= at + 30 * 60 * 1_000_000_000),
{
    match stamped {
        None => false,
        Some(at) => at >= now || now - at <= PREFLIGHT_MAX_AGE_NANOS,
    }
}

/// Whether the profile's switch is on.
pub open spec fn switched_on(var: Option<String>) -> bool {
    var matches Some(value) && value@ == "1"@
}

/// Whether the profile is active. Its switch without a preflight pass is
/// refused.
pub fn active_impl(var: Option<String>, preflight_passed: bool) -> (active: bool)
    requires
        switched_on(var) ==> preflight_passed,
    ensures
        active == switched_on(var),
        var is None ==> !active,
        var matches Some(value) ==> active == (value@ == "1"@),
{
    match var {
        None => false,
        Some(value) => value == "1".to_owned(),
    }
}

/// What a condition comes to.
#[derive(Debug)]
pub enum Verdict {
    /// Nothing is wrong.
    Proceed,
    /// The test is skipped, for this reason.
    Skip(String),
    /// The test fails, for this reason.
    Fail(String),
}

/// A condition that is a skip outside the profile and a failure under it.
pub open spec fn weighed(reason: Seq<char>, profile_active: bool, verdict: Verdict) -> bool {
    if profile_active {
        verdict matches Verdict::Fail(why) && why@ == reason
    } else {
        verdict matches Verdict::Skip(why) && why@ == reason
    }
}

/// Weigh a condition that is a skip outside the profile and a failure under it.
pub fn weigh(reason: String, profile_active: bool) -> (verdict: Verdict)
    ensures
        weighed(reason@, profile_active, verdict),
        profile_active ==> (verdict matches Verdict::Fail(why) && why@ == reason@),
        !profile_active ==> (verdict matches Verdict::Skip(why) && why@ == reason@),
{
    if profile_active {
        Verdict::Fail(reason)
    } else {
        Verdict::Skip(reason)
    }
}

/// A number in decimal, with its sign where it is negative.
pub open spec fn signed_decimal(n: int) -> Seq<char> {
    if n < 0 {
        "-"@ + decimal((-n) as nat)
    } else {
        decimal(n as nat)
    }
}

/// Why a return code is not a success.
pub open spec fn rc_reason(rc: i32, what: Seq<char>) -> Seq<char> {
    what + " returned "@ + signed_decimal(rc as int) + " (GPU busy/unavailable)"@
}

/// Weigh a kernel's return code.
pub fn weigh_rc(rc: i32, what: &str, profile_active: bool) -> (verdict: Verdict)
    ensures
        rc == 0 ==> verdict matches Verdict::Proceed,
        rc != 0 ==> weighed(rc_reason(rc, what@), profile_active, verdict),
        rc > 0 && profile_active ==> (verdict matches Verdict::Fail(why) && why@ == what@
            + " returned "@ + decimal(rc as nat) + " (GPU busy/unavailable)"@),
        rc > 0 && !profile_active ==> (verdict matches Verdict::Skip(why) && why@ == what@
            + " returned "@ + decimal(rc as nat) + " (GPU busy/unavailable)"@),
        rc < 0 && profile_active ==> (verdict matches Verdict::Fail(why) && why@ == what@
            + " returned "@ + ("-"@ + decimal((-rc) as nat)) + " (GPU busy/unavailable)"@),
        rc < 0 && !profile_active ==> (verdict matches Verdict::Skip(_)),
{
    if rc == 0 {
        return Verdict::Proceed;
    }
    let mut before: String = what.to_owned();
    before.append(" returned ");
    if rc < 0 {
        before.append("-");
    }
    let magnitude: u64 = if rc < 0 {
        (-(rc as i64)) as u64
    } else {
        rc as u64
    };
    let reason = around(before.as_str(), magnitude, " (GPU busy/unavailable)");
    assert(reason@ =~= rc_reason(rc, what@));
    weigh(reason, profile_active)
}

/// Weigh a compute error: a soft stop is no fault.
pub fn weigh_compute_err(e: &ComputeError, what: &str, profile_active: bool) -> (verdict: Verdict)
    ensures
        match *e {
            ComputeError::Kernel(rc) => if rc == 0 {
                verdict matches Verdict::Proceed
            } else {
                weighed(rc_reason(rc, what@), profile_active, verdict)
            },
            ComputeError::Stopped => verdict matches Verdict::Proceed,
        },
{
    match e {
        ComputeError::Kernel(rc) => weigh_rc(*rc, what, profile_active),
        ComputeError::Stopped => Verdict::Proceed,
    }
}

/// A condition that is a skip outside the profile; under it there is no way on.
pub fn skip_or_fail(reason: &str, profile_active: bool) -> (skip: bool)
    requires
        !profile_active,
    ensures
        skip,
{
    matches!(weigh(reason.to_owned(), profile_active), Verdict::Skip(_))
}

/// Whether a kernel's return code is a skip.
pub fn check_rc(rc: i32, what: &str, profile_active: bool) -> (skip: bool)
    requires
        rc != 0 ==> !profile_active,
    ensures
        skip == (rc != 0),
{
    matches!(weigh_rc(rc, what, profile_active), Verdict::Skip(_))
}

/// Whether a compute error is a skip.
pub fn check_compute_err(e: &ComputeError, what: &str, profile_active: bool) -> (skip: bool)
    requires
        *e matches ComputeError::Kernel(rc) ==> rc != 0 ==> !profile_active,
    ensures
        skip == (*e matches ComputeError::Kernel(rc) && rc != 0),
{
    matches!(weigh_compute_err(e, what, profile_active), Verdict::Skip(_))
}

} // verus!
