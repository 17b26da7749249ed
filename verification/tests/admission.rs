//! The protection arithmetic and the victim order.

use ignis_core::admission::{
    choose_retained_lane_victim, make_admission_protection, persistent_backfill_is_safe,
    protected_head_safe_without_temporal, protection_frontier_distance, ActiveAdmissionSnapshot,
    AdmissionResources, RetainedLaneCandidate,
};
use ignis_core::types::{BackfillClass, RequestClass, RequestId};

fn res(lanes: u32, kv_pages: u32, backend_pages: u32) -> AdmissionResources {
    AdmissionResources {
        lanes,
        kv_pages,
        backend_pages,
    }
}

fn snap(
    id: RequestId,
    resources: AdmissionResources,
    work: u64,
    epoch: u64,
    class: BackfillClass,
) -> ActiveAdmissionSnapshot {
    ActiveAdmissionSnapshot {
        request_id: id,
        resources,
        remaining_work_quanta: work,
        backfill_epoch: epoch,
        backfill_class: class,
    }
}

#[test]
fn donor_selection_freezes_the_earliest_sufficient_incumbent() {
    let capacity = res(4, 160, 128);
    let head = res(1, 64, 48);
    let incumbents = [
        snap(1, res(1, 64, 32), 100, 0, BackfillClass::Plain),
        snap(2, res(1, 48, 64), 20, 0, BackfillClass::Plain),
    ];
    let protection = make_admission_protection(7, 10, head, &incumbents, &capacity)
        .expect("the head is blocked by the frozen incumbents");
    assert_eq!(protection.donor_ids, vec![2], "the earliest-completion incumbent (work 20) is the single donor");
    assert_eq!(protection.temporal_credit, 20, "the credit is the frozen donor's remaining work");
    assert_eq!(protection.incumbent_ids, vec![1, 2]);
    assert_eq!(
        protection_frontier_distance(&protection, &incumbents),
        20,
        "frontier distance follows the frozen donor"
    );
}

#[test]
fn persistent_backfill_respects_the_protected_future_capacity() {
    let capacity = res(4, 160, 128);
    let head = res(1, 64, 48);
    let incumbents = [
        snap(1, res(1, 64, 32), 100, 0, BackfillClass::Plain),
        snap(2, res(1, 48, 64), 20, 0, BackfillClass::Plain),
    ];
    let protection = make_admission_protection(7, 10, head, &incumbents, &capacity).unwrap();
    assert!(
        persistent_backfill_is_safe(&protection, &incumbents, &res(1, 24, 40), &capacity),
        "a future-resource surplus must not reject a persistent-safe backfill"
    );
    assert!(
        !persistent_backfill_is_safe(&protection, &incumbents, &res(1, 40, 60), &capacity),
        "a persistent backfill must not borrow protected future capacity"
    );
}

#[test]
fn the_persistent_ledger_accumulates_earlier_backfills() {
    let capacity = res(4, 160, 128);
    let head = res(1, 64, 48);
    let incumbents = [
        snap(1, res(1, 64, 32), 100, 0, BackfillClass::Plain),
        snap(2, res(1, 48, 64), 20, 0, BackfillClass::Plain),
    ];
    let protection = make_admission_protection(7, 10, head, &incumbents, &capacity).unwrap();
    let with_persistent = [
        incumbents[0],
        incumbents[1],
        snap(3, res(1, 24, 40), 50, 7, BackfillClass::Persistent),
    ];
    assert!(
        !persistent_backfill_is_safe(&protection, &with_persistent, &res(1, 9, 9), &capacity),
        "the persistent ledger must accumulate earlier backfills"
    );
}

#[test]
fn later_temporal_work_does_not_move_the_frozen_frontier() {
    let capacity = res(4, 160, 128);
    let head = res(1, 64, 48);
    let incumbents = [
        snap(1, res(1, 64, 32), 100, 0, BackfillClass::Plain),
        snap(2, res(1, 48, 64), 20, 0, BackfillClass::Plain),
    ];
    let protection = make_admission_protection(7, 10, head, &incumbents, &capacity).unwrap();
    let after_donor = [
        incumbents[0],
        snap(4, res(1, 32, 64), 8, 7, BackfillClass::Temporal),
    ];
    assert_eq!(
        protection_frontier_distance(&protection, &after_donor),
        0,
        "later temporal work must not move the frozen frontier"
    );
    assert!(
        protected_head_safe_without_temporal(&protection, &after_donor, &capacity),
        "the head is safe without the current-epoch temporal borrowers"
    );
}

#[test]
fn independent_kv_pools_are_not_interchangeable() {
    let capacity = res(4, 160, 128);
    assert!(
        !res(1, 161, 1).fits(&capacity),
        "main-pool overflow must not fit"
    );
    assert!(
        !res(1, 1, 129).fits(&capacity),
        "backend-pool overflow must not fit"
    );
}

const POOL: AdmissionResources = AdmissionResources {
    lanes: 3,
    kv_pages: 10,
    backend_pages: 0,
};
const LARGE: AdmissionResources = AdmissionResources {
    lanes: 1,
    kv_pages: 4,
    backend_pages: 0,
};
const TINY: AdmissionResources = AdmissionResources {
    lanes: 1,
    kv_pages: 2,
    backend_pages: 0,
};

fn two_large() -> [ActiveAdmissionSnapshot; 2] {
    [
        snap(11, LARGE, 48, 0, BackfillClass::Plain),
        snap(12, LARGE, 40, 0, BackfillClass::Plain),
    ]
}

#[test]
fn fits_now_backfill_into_leftover_capacity() {
    let two_large = two_large();
    let protection = make_admission_protection(3, 13, LARGE, &two_large, &POOL)
        .expect("the head is blocked by the frozen incumbents");
    assert_eq!(
        protection.donor_ids,
        vec![12],
        "the earliest 4-page donor (work 40) is frozen"
    );
    assert!(
        persistent_backfill_is_safe(&protection, &two_large, &TINY, &POOL),
        "a fits-now backfill must be admitted with leftover pages and a free lane"
    );
    assert!(
        !persistent_backfill_is_safe(&protection, &two_large, &LARGE, &POOL),
        "a candidate may not backfill into the protected head's leftover"
    );
    assert!(
        !persistent_backfill_is_safe(&protection, &two_large, &res(1, 3, 0), &POOL),
        "a 3-page candidate steals a leftover page from the protected head"
    );
}

#[test]
fn a_second_backfill_sees_the_first_persistent_occupant() {
    let two_large = two_large();
    let protection = make_admission_protection(3, 13, LARGE, &two_large, &POOL).unwrap();
    let after_tiny = [
        two_large[0],
        two_large[1],
        snap(14, TINY, 2, 3, BackfillClass::Persistent),
    ];
    assert!(
        !persistent_backfill_is_safe(&protection, &after_tiny, &TINY, &POOL),
        "the second backfill must see the first persistent occupant"
    );
}

#[test]
fn a_leftover_zero_occupancy_cannot_spare_pages() {
    let two_five = [
        snap(21, res(1, 5, 0), 10, 0, BackfillClass::Plain),
        snap(22, res(1, 5, 0), 8, 0, BackfillClass::Plain),
    ];
    let protection = make_admission_protection(4, 23, res(1, 5, 0), &two_five, &POOL).unwrap();
    assert_eq!(protection.donor_ids, vec![22], "the work-8 donor is frozen");
    assert!(
        !persistent_backfill_is_safe(&protection, &two_five, &TINY, &POOL),
        "a leftover-0 occupancy cannot spare pages for a backfill"
    );
}

#[test]
fn occupied_lanes_block_the_page_fit() {
    let two_lanes = res(2, 10, 0);
    let two_large = two_large();
    let protection =
        make_admission_protection(5, 33, LARGE, &two_large, &two_lanes).unwrap();
    assert!(
        !persistent_backfill_is_safe(&protection, &two_large, &TINY, &two_lanes),
        "the 2-page leftover fit must still respect the lane dimension"
    );
}

#[test]
fn retained_lane_victims_prefer_agents_then_lru() {
    let mut retained = [
        RetainedLaneCandidate {
            lane: 0,
            owner: RequestClass::Interactive,
            use_tick: 1,
            reserved_for_earlier_interactive: false,
        },
        RetainedLaneCandidate {
            lane: 1,
            owner: RequestClass::Agent,
            use_tick: 9,
            reserved_for_earlier_interactive: false,
        },
        RetainedLaneCandidate {
            lane: 2,
            owner: RequestClass::Agent,
            use_tick: 4,
            reserved_for_earlier_interactive: false,
        },
        RetainedLaneCandidate {
            lane: 3,
            owner: RequestClass::Agent,
            use_tick: 6,
            reserved_for_earlier_interactive: false,
        },
    ];
    assert_eq!(
        choose_retained_lane_victim(&retained),
        Some(2),
        "the Agent lane with the lowest use tick (LRU) is the first victim"
    );
    retained[2].reserved_for_earlier_interactive = true;
    assert_eq!(
        choose_retained_lane_victim(&retained),
        Some(3),
        "a reserved lane is not a victim"
    );
    retained[3].reserved_for_earlier_interactive = true;
    assert_eq!(
        choose_retained_lane_victim(&retained),
        Some(1),
        "after the Agent reservations the last Agent lane is the victim"
    );
    retained[1].reserved_for_earlier_interactive = true;
    retained[0].reserved_for_earlier_interactive = true;
    assert_eq!(
        choose_retained_lane_victim(&retained),
        None,
        "pending-interactive reservations pin every matching lane"
    );
}

#[test]
fn retained_lane_ties_break_on_lane_id() {
    let candidates = [
        RetainedLaneCandidate {
            lane: 5,
            owner: RequestClass::Agent,
            use_tick: 7,
            reserved_for_earlier_interactive: false,
        },
        RetainedLaneCandidate {
            lane: 3,
            owner: RequestClass::Agent,
            use_tick: 7,
            reserved_for_earlier_interactive: false,
        },
    ];
    assert_eq!(
        choose_retained_lane_victim(&candidates),
        Some(3),
        "same class and tick: the lower lane id wins"
    );
}
