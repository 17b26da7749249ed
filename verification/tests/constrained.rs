//! Schedules of permitted tokens.

use ignis_core::constrained::{Draw, Schedule, MAX_PERMITTED_TOKENS};
use ignis_core::types::TokenId;

#[test]
fn a_schedule_refuses_what_the_leaf_would_refuse() {
    assert!(Schedule::new(Vec::new()).is_err(), "an empty schedule");
    assert!(
        Schedule::new(vec![vec![1, 2], Vec::new()]).is_err(),
        "a step that permits nothing"
    );
    let too_wide: Vec<TokenId> = (0..=MAX_PERMITTED_TOKENS as TokenId).collect();
    let refusal = Schedule::new(vec![too_wide]).expect_err("a step past the cap");
    assert!(
        refusal.contains("refused, never truncated"),
        "and says so rather than quietly cutting it: {refusal}"
    );
}

#[test]
fn the_cap_is_the_leafs_cap() {
    assert_eq!(MAX_PERMITTED_TOKENS, 32);
}

#[test]
fn a_schedule_hands_out_its_steps_and_then_stops() {
    let schedule = Schedule::new(vec![vec![1, 2], vec![3]]).expect("two steps");
    assert_eq!(schedule.len(), 2);
    assert_eq!(schedule.step(0).as_deref(), Some(&[1, 2][..]));
    assert_eq!(schedule.step(1).as_deref(), Some(&[3][..]));
    assert_eq!(schedule.step(2), None, "the last round draws nothing wanted");
}

#[test]
fn a_refused_schedule_says_which_step() {
    assert_eq!(
        Schedule::new(Vec::new()).err().as_deref(),
        Some("a constrained decode must carry at least one step")
    );
    assert_eq!(
        Schedule::new(vec![vec![1], Vec::new()]).err().as_deref(),
        Some("schedule step 1 permits no token at all")
    );
    assert_eq!(
        Schedule::new(vec![vec![1], vec![2], (0..40).collect()]).err().as_deref(),
        Some(
            "schedule step 2 permits 40 tokens; 32 is the leaf's cap, and a set past it is \
             refused, never truncated"
        )
    );
    assert!(Schedule::new(vec![(0..32).collect()]).is_ok());
}

#[test]
fn a_terminator_is_one_that_can_be_drawn() {
    let schedule = Schedule::new(vec![vec![1, 2], vec![3]]).unwrap();
    assert_eq!(schedule.terminator(), None);
    assert!(!schedule.ends_on(3));
    let ending = schedule.ending_on(3).unwrap();
    assert_eq!(ending.terminator(), Some(3));
    assert!(ending.ends_on(3) && !ending.ends_on(1));
    assert!(!ending.is_empty());
    assert_eq!(ending.steps().len(), 2);
    assert!(Schedule::new(vec![vec![1]]).unwrap().ending_on(9).is_err());
    let draw = Draw { token: 4, probability_bits: 1 };
    assert_eq!(draw.token, 4);
}
