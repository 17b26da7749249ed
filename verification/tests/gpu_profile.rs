//! The explicit GPU test profile.

use ignis_core::gpu_profile::{
    active_impl, check_compute_err, check_rc, preflight_passed, skip_or_fail, weigh,
    weigh_compute_err, weigh_rc, Verdict, PREFLIGHT_MAX_AGE_NANOS,
};
use ignis_core::types::ComputeError;

#[test]
fn active_impl_stays_off_without_the_switch_however_the_preflight_went() {
    for preflight_passed in [false, true] {
        assert!(!active_impl(None, preflight_passed));
        assert!(!active_impl(Some("0".to_string()), preflight_passed));
        assert!(!active_impl(Some("true".to_string()), preflight_passed));
    }
}

#[test]
fn active_impl_is_on_when_the_switch_and_a_preflight_pass_agree() {
    assert!(active_impl(Some("1".to_string()), true));
}

#[test]
fn a_missing_marker_is_not_a_preflight_pass() {
    assert!(!preflight_passed(None, 1_000));
}

#[test]
fn a_fresh_marker_is_a_preflight_pass() {
    assert!(
        preflight_passed(Some(5_000), 5_000),
        "a marker stamped just now must authorize the profile"
    );
}

#[test]
fn a_marker_older_than_the_max_age_is_not_a_preflight_pass() {
    let stamped: u128 = 7_000;
    let later = stamped + PREFLIGHT_MAX_AGE_NANOS + 60 * 1_000_000_000;
    assert!(
        !preflight_passed(Some(stamped), later),
        "a pass older than the bound must not authorize a run"
    );
    assert!(preflight_passed(Some(stamped), stamped + PREFLIGHT_MAX_AGE_NANOS));
    assert!(preflight_passed(Some(later), stamped), "a clock adjustment is no stale pass");
}

#[test]
fn check_rc_ok_never_skips_or_fails() {
    assert!(!check_rc(0, "thing", false));
    assert!(!check_rc(0, "thing", true));
}

#[test]
fn check_rc_skips_when_profile_inactive() {
    assert!(check_rc(-1, "thing", false));
}

#[test]
fn check_compute_err_stopped_is_never_a_skip_or_failure() {
    assert!(!check_compute_err(&ComputeError::Stopped, "thing", false));
    assert!(!check_compute_err(&ComputeError::Stopped, "thing", true));
}

#[test]
fn check_compute_err_kernel_skips_when_profile_inactive() {
    assert!(check_compute_err(&ComputeError::Kernel(-1), "thing", false));
}

#[test]
fn a_fault_under_the_profile_fails_with_its_code() {
    match weigh_rc(-1, "thing", true) {
        Verdict::Fail(why) => assert_eq!(why, "thing returned -1 (GPU busy/unavailable)"),
        other => panic!("a fault under the profile is a failure, got {other:?}"),
    }
    match weigh_compute_err(&ComputeError::Kernel(719), "launch", false) {
        Verdict::Skip(why) => assert_eq!(why, "launch returned 719 (GPU busy/unavailable)"),
        other => panic!("a fault outside the profile is a skip, got {other:?}"),
    }
    match weigh_rc(i32::MIN, "edge", false) {
        Verdict::Skip(why) => {
            assert_eq!(why, "edge returned -2147483648 (GPU busy/unavailable)")
        }
        other => panic!("a fault outside the profile is a skip, got {other:?}"),
    }
    assert!(matches!(weigh_rc(0, "thing", true), Verdict::Proceed));
}

#[test]
fn a_missing_fixture_is_a_skip_outside_the_profile() {
    assert!(skip_or_fail("no artifact", false));
    assert!(matches!(weigh("no artifact".to_string(), true), Verdict::Fail(_)));
}
