//! What holds of the scheduler between any two calls.

use crate::admission::AdmissionProtection;
use crate::checkpoint::CheckpointLookup;
use crate::chunks::capture_plan;
use crate::concrete::{request_ok, snapshotted, ConcreteScheduler};
use crate::host::{blob_bytes, live_bytes};
use crate::identity::MatchKey;
use crate::ledger::{charged, lane_charge, residents, tally};
use crate::lifecycle::was_submitted;
use crate::plan::{budget, MAX_PREFILL_ATTEMPTS};
use crate::prefix::{held, retained_count};
use crate::request::Request;
use crate::reuse::looked_up;
use crate::scheduler::{Clock, Compute};
use crate::serving::advanced;
use crate::types::{LaneId, RequestClass, RequestInput, RequestState, N_DECODE_LANES};
use vstd::prelude::*;

verus! {

/// Every KV page in use is charged exactly once: to the resident request that
/// holds it, to the shared prefix it is part of, or to the checkpoint whose
/// tail it is. The pool is never overrun, and neither are the device's slots.
pub proof fn every_page_is_charged_once<C: Compute, K: Clock>(s: ConcreteScheduler<C, K>)
    requires
        s.wf(),
    ensures
        s.kv_used_pages == charged(s.requests@) + s.prefix.pins() + s.tail_pages@.len(),
        s.kv_used_pages <= s.config.kv_capacity_pages,
        s.resident_slots_used == residents(s.requests@),
        s.resident_slots_used <= s.config.resident_slot_capacity,
{
}

/// The lanes the first `n` requests hold.
spec fn lanes_held(reqs: Seq<Request>, n: int) -> Set<LaneId>
    decreases n,
{
    if n <= 0 {
        Set::empty()
    } else {
        match reqs[n - 1].lane {
            Some(lane) => lanes_held(reqs, n - 1).insert(lane),
            None => lanes_held(reqs, n - 1),
        }
    }
}

proof fn lanes_held_are_counted(reqs: Seq<Request>, n: int)
    requires
        0 <= n <= reqs.len(),
        forall|i: int, j: int|
            0 <= i < j < reqs.len() && (#[trigger] reqs[i]).lane is Some && (
            #[trigger] reqs[j]).lane is Some ==> reqs[i].lane != reqs[j].lane,
    ensures
        lanes_held(reqs, n).finite(),
        lanes_held(reqs, n).len() == tally(reqs, lane_charge(), n),
        forall|lane: LaneId| #[trigger]
            lanes_held(reqs, n).contains(lane) <==> exists|i: int|
                0 <= i < n && (#[trigger] reqs[i]).lane == Some(lane),
    decreases n,
{
    if n > 0 {
        lanes_held_are_counted(reqs, n - 1);
        let was = lanes_held(reqs, n - 1);
        if let Some(lane) = reqs[n - 1].lane {
            if was.contains(lane) {
                let i = choose|i: int| 0 <= i < n - 1 && (#[trigger] reqs[i]).lane == Some(lane);
                assert(reqs[i].lane != reqs[n - 1].lane);
            }
        }
        assert forall|lane: LaneId| #[trigger]
            lanes_held(reqs, n).contains(lane) <==> exists|i: int|
                0 <= i < n && (#[trigger] reqs[i]).lane == Some(lane) by {
            if was.contains(lane) {
                let i = choose|i: int| 0 <= i < n - 1 && (#[trigger] reqs[i]).lane == Some(lane);
                assert(0 <= i < n && reqs[i].lane == Some(lane));
            }
            if reqs[n - 1].lane == Some(lane) {
                assert(0 <= n - 1 < n && reqs[n - 1].lane == Some(lane));
            }
            if exists|i: int| 0 <= i < n && (#[trigger] reqs[i]).lane == Some(lane) {
                let i = choose|i: int| 0 <= i < n && (#[trigger] reqs[i]).lane == Some(lane);
                if i < n - 1 {
                    assert(was.contains(lane));
                }
            }
        }
    }
}

/// Every lane is free or held by exactly one running request, never both.
pub proof fn every_lane_is_free_or_held_once<C: Compute, K: Clock>(
    s: ConcreteScheduler<C, K>,
    lane: LaneId,
)
    requires
        s.wf(),
        lane < N_DECODE_LANES,
    ensures
        s.free_lanes@.contains(lane) <==> !exists|i: int|
            0 <= i < s.requests@.len() && (#[trigger] s.requests@[i]).lane == Some(lane),
        forall|i: int, j: int|
            0 <= i < s.requests@.len() && 0 <= j < s.requests@.len() && (
            #[trigger] s.requests@[i]).lane == Some(lane) && (#[trigger] s.requests@[j]).lane
                == Some(lane) ==> i == j,
        forall|i: int|
            0 <= i < s.requests@.len() && (#[trigger] s.requests@[i]).lane == Some(lane)
                ==> s.requests@[i].state == RequestState::Running,
{
    let reqs = s.requests@;
    let free = s.free_lanes@;
    let n = reqs.len() as int;
    lanes_held_are_counted(reqs, n);
    let taken = lanes_held(reqs, n);
    let open = free.to_set();
    free.unique_seq_to_set();
    let all = Set::<LaneId>::range(0, N_DECODE_LANES);
    let both = taken.union(open);
    assert(taken.disjoint(open)) by {
        assert forall|x: LaneId| !(taken.contains(x) && open.contains(x)) by {
            if taken.contains(x) {
                let i = choose|i: int| 0 <= i < n && (#[trigger] reqs[i]).lane == Some(x);
                assert(!free.contains(x));
            }
        }
    }
    vstd::set_lib::lemma_set_disjoint_lens(taken, open);
    assert(both.subset_of(all)) by {
        assert forall|x: LaneId| both.contains(x) implies all.contains(x) by {
            if taken.contains(x) {
                let i = choose|i: int| 0 <= i < n && (#[trigger] reqs[i]).lane == Some(x);
            } else {
                let a = choose|a: int| 0 <= a < free.len() && free[a] == x;
                assert(free[a] < N_DECODE_LANES);
            }
        }
    }
    vstd::set_lib::lemma_subset_equality(both, all);
    assert(all.contains(lane));
    if !free.contains(lane) {
        assert(taken.contains(lane));
    }
    assert forall|i: int|
        0 <= i < reqs.len() && (#[trigger] reqs[i]).lane == Some(lane) implies reqs[i].state
        == RequestState::Running by {
        assert(request_ok(reqs[i], s.config, s.prefix.entries@));
    }
}

/// A request is suspended exactly while the host tier holds its snapshot.
pub proof fn a_request_is_suspended_while_it_is_snapshotted<C: Compute, K: Clock>(
    s: ConcreteScheduler<C, K>,
    i: int,
)
    requires
        s.wf(),
        0 <= i < s.requests@.len(),
    ensures
        s.requests@[i].state == RequestState::Evicted <==> snapshotted(
            s.host.live@,
            s.requests@[i].id,
        ),
{
    let reqs = s.requests@;
    let live = s.host.live@;
    if snapshotted(live, reqs[i].id) {
        let k = choose|k: int| 0 <= k < live.len() && (#[trigger] live[k]).request == reqs[i].id;
        assert(crate::concrete::resumes(reqs, live[k]));
        let j = choose|j: int| #[trigger] crate::concrete::resumes_at(reqs, live[k], j);
        if i < j {
            assert(reqs[i].id < reqs[j].id);
        } else if j < i {
            assert(reqs[j].id < reqs[i].id);
        }
    }
}

/// What a request stands on is in the cache, and is not let go under it.
pub proof fn what_a_request_stands_on_is_held<C: Compute, K: Clock>(
    s: ConcreteScheduler<C, K>,
    i: int,
)
    requires
        s.wf(),
        0 <= i < s.requests@.len(),
        s.requests@[i].prefix_entry is Some,
    ensures
        held(s.prefix.entries@, s.requests@[i].prefix_entry->Some_0),
        s.prefix.refs(s.requests@[i].prefix_entry->Some_0) >= 1,
{
    s.standing_is_held(Seq::empty(), i);
    crate::ledger::debt_grows(Seq::empty(), 0, s.requests@[i].prefix_entry->Some_0);
}

/// With reuse off exactly nothing is retained, so no request resumes from what
/// another left: no checkpoint is in the ledger, no prefix outlives its last
/// holder, and no plan captures.
pub proof fn without_reuse_nothing_is_retained<C: Compute, K: Clock>(
    s: ConcreteScheduler<C, K>,
    keys: Seq<MatchKey>,
    r: Request,
    publish_at: u32,
)
    requires
        s.wf(),
        !s.config.prompt_reuse,
    ensures
        s.checkpoints.entries@.len() == 0,
        retained_count(s.prefix.entries@) == 0,
        looked_up(s.checkpoints, keys) == (CheckpointLookup { device: None, kv_ram: None }),
        capture_plan(s.config, s.checkpoints, r, publish_at) == 0,
{
}

/// Only a request whose whole prompt is prefilled holds a lane, and it alone is
/// sent a decode round.
pub proof fn no_half_prefilled_request_decodes<C: Compute, K: Clock>(
    s: ConcreteScheduler<C, K>,
    i: int,
)
    requires
        s.wf(),
        0 <= i < s.requests@.len(),
        s.requests@[i].state == RequestState::Running || s.requests@[i].lane is Some,
    ensures
        s.requests@[i].prefilled(),
        s.requests@[i].resident,
{
    assert(request_ok(s.requests@[i], s.config, s.prefix.entries@));
}

/// No request is tried past its last attempt.
pub proof fn no_one_is_tried_past_the_last_attempt<C: Compute, K: Clock>(
    s: ConcreteScheduler<C, K>,
    i: int,
)
    requires
        s.wf(),
        0 <= i < s.requests@.len(),
        s.requests@[i].state != RequestState::Done,
    ensures
        s.requests@[i].prefill_failures < MAX_PREFILL_ATTEMPTS,
{
    assert(request_ok(s.requests@[i], s.config, s.prefix.entries@));
}

/// The host tier holds what its snapshots and copies take, and never more than
/// its budget; each suspended request's snapshot stands at a position it can be
/// resumed from.
pub proof fn the_host_tier_keeps_its_budget<C: Compute, K: Clock>(s: ConcreteScheduler<C, K>)
    requires
        s.wf(),
    ensures
        s.host.used_bytes == live_bytes(s.host.live@, s.host.live@.len() as int) + blob_bytes(
            s.host.retained@,
            s.host.retained@.len() as int,
        ),
        s.host.used_bytes <= s.host.capacity_bytes,
        forall|k: int|
            0 <= k < s.host.live@.len() ==> (#[trigger] s.host.live@[k]).gdn@.boundaries.contains(
                s.host.live@[k].gdn@.position,
            ),
{
}

/// While a protection stands, no eviction takes a donor off its lane.
pub proof fn a_donor_keeps_its_lane<C: Compute, K: Clock>(
    before: ConcreteScheduler<C, K>,
    after: ConcreteScheduler<C, K>,
    exclude: int,
    p: AdmissionProtection,
    i: int,
)
    requires
        after.only_evictions(before, exclude),
        after.protection == Some(p),
        0 <= i < before.requests@.len(),
        before.requests@[i].state == RequestState::Running,
        p.donor(before.requests@[i].id),
    ensures
        after.requests@[i] == before.requests@[i],
{
}

/// No request outgrows its budget or the context window.
pub proof fn a_request_stays_within_its_budget<C: Compute, K: Clock>(
    s: ConcreteScheduler<C, K>,
    i: int,
)
    requires
        s.wf(),
        0 <= i < s.requests@.len(),
    ensures
        s.requests@[i].tokens <= budget(s.config, s.requests@[i].input),
        s.requests@[i].input.tokens@.len() + s.requests@[i].tokens <= s.config.max_sequence_tokens,
{
    assert(request_ok(s.requests@[i], s.config, s.prefix.entries@));
}

/// A decision generates nothing, and a constrained run draws no token past the
/// last step of its schedule.
pub proof fn a_bound_run_draws_no_more_than_it_asked<C: Compute, K: Clock>(
    s: ConcreteScheduler<C, K>,
    i: int,
)
    requires
        s.wf(),
        0 <= i < s.requests@.len(),
    ensures
        s.requests@[i].input.decision is Some ==> s.requests@[i].tokens == 0,
        s.requests@[i].input.decision is None ==> (s.requests@[i].input.constrained matches Some(
            schedule,
        ) ==> s.requests@[i].tokens <= schedule.steps@.len()),
{
    assert(request_ok(s.requests@[i], s.config, s.prefix.entries@));
}

/// An id names one request, and no later submission is given it again.
pub proof fn an_id_names_one_request<C: Compute, K: Clock>(
    before: ConcreteScheduler<C, K>,
    after: ConcreteScheduler<C, K>,
    input: RequestInput,
    class: RequestClass,
    i: int,
    j: int,
)
    requires
        before.wf(),
        was_submitted(before, input, class, after),
        0 <= i < after.requests@.len(),
        0 <= j < after.requests@.len(),
        after.requests@[i].id == after.requests@[j].id,
    ensures
        i == j,
        i < before.requests@.len() ==> after.requests@[i] == before.requests@[i],
{
    let n = before.requests@.len() as int;
    assert forall|k: int| 0 <= k < n implies (#[trigger] after.requests@[k])
        == before.requests@[k] by {
        assert(after.requests@.drop_last()[k] == before.requests@[k]);
    }
    if i < n && j < n {
        if i < j {
            assert(before.requests@[i].id < before.requests@[j].id);
        } else if j < i {
            assert(before.requests@[j].id < before.requests@[i].id);
        }
    } else if i < n {
        assert(before.requests@[i].id < before.next_id);
    } else if j < n {
        assert(before.requests@[j].id < before.next_id);
    }
}

/// Letting a request off undoes charging it, to the page.
pub proof fn letting_off_undoes_charging<C: Compute, K: Clock>(
    before: ConcreteScheduler<C, K>,
    charged: ConcreteScheduler<C, K>,
    after: ConcreteScheduler<C, K>,
    i: int,
)
    requires
        0 <= i < before.requests@.len(),
        !before.requests@[i].resident,
        before.kv_used_pages + before.requests@[i].resources.kv_pages <= u32::MAX,
        before.resident_slots_used < u32::MAX,
        charged.charged_for(before, i),
        after.let_off(charged, i),
    ensures
        after == (ConcreteScheduler { requests: after.requests, ..before }),
        after.requests@ == before.requests@,
{
    assert(after.requests@ =~= before.requests@);
}

/// What is done stays done, untouched by any advance.
pub proof fn done_is_for_good(before: Request, after: Request)
    requires
        before.state == RequestState::Done,
        advanced(before, after),
    ensures
        after == before,
{
}

/// A cancelled request is let go by the next advance: it holds no lane, no
/// place on the device and no shared prefix, and generates nothing more.
pub proof fn a_cancelled_request_is_let_go(before: Request, after: Request)
    requires
        before.cancelled,
        before.state != RequestState::Done,
        advanced(before, after),
    ensures
        after.state == RequestState::Done,
        after.lane is None,
        !after.resident,
        after.prefix_entry is None,
        after.tokens == before.tokens,
{
}

} // verus!
