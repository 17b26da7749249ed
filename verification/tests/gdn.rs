//! Recurrent-state boundaries.

use ignis_core::gdn::GdnState;

#[test]
fn initial_position_is_a_boundary() {
    let state = GdnState::new();
    assert_eq!(state.position(), 0);
    assert!(state.can_resume_at(0));
    let mut state = GdnState::new();
    assert!(state.restore(0));
}

#[test]
fn resumable_only_at_boundaries() {
    let mut state = GdnState::new();
    state.checkpoint(512);
    assert!(state.can_resume_at(512));
    assert!(!state.can_resume_at(511));
    assert!(!state.can_resume_at(513));
    assert!(!state.restore(511), "mid-prefill restore must fail");
    assert!(state.restore(512));
    assert_eq!(state.position(), 512);
}

#[test]
fn host_tier_respects_the_gdn_boundary() {
    let mut state = GdnState::new();
    state.checkpoint(256);
    assert!(state.is_valid_snapshot_point(256));
    assert!(!state.is_valid_snapshot_point(128));
}

#[test]
fn checkpoint_at_current_position_records_a_boundary() {
    let mut state = GdnState::new();
    state.checkpoint(64);
    assert_eq!(state.position(), 64);
    state.checkpoint(64);
    assert!(state.is_valid_snapshot_point(64), "the current position is a boundary");
    assert_eq!(state.position(), 64);
    state.checkpoint(128);
    assert!(state.is_valid_snapshot_point(128));
    assert_eq!(state.position(), 128);
}

#[test]
fn advance_moves_without_recording_a_boundary() {
    let mut state = GdnState::new();
    state.advance(128);
    assert_eq!(state.position(), 128);
    assert!(
        !state.is_valid_snapshot_point(128),
        "a mid-prefill (advanced) position is not a snapshot point"
    );
    assert!(state.is_valid_snapshot_point(0));
    state.checkpoint(256);
    assert!(state.is_valid_snapshot_point(256));
    assert_eq!(state.position(), 256);
}

#[test]
fn advance_is_monotonic() {
    let mut state = GdnState::new();
    state.advance(64);
    assert_eq!(state.position(), 64);
    state.advance(64);
    assert_eq!(state.position(), 64);
    state.advance(32);
    assert_eq!(state.position(), 64, "a backwards advance is ignored");
    state.advance(128);
    assert_eq!(state.position(), 128);
}
