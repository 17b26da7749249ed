//! What an advance does for those who wait: who is sent a chunk, who is dealt a
//! lane, who is sent a round and who comes back.

use crate::chunks::{is_prefill_job, ChunkPlan};
use crate::concrete::ConcreteScheduler;
use crate::host::{is_next_snapshot, ResumePhase};
use crate::plan::{chunk, SchedulerConfig};
use crate::prefill::{half_prefilled, is_prefill_queue};
use crate::request::Request;
use crate::rounds::has_decided;
use crate::scheduler::{Clock, Compute, PrefillJob};
use crate::service::{only_who_may_generate_goes_on, running_is_among_lanes};
use crate::serving::DecodeTrace;
use crate::types::{RequestState, SchedEvent};
use vstd::prelude::*;

verus! {

/// Every running request that may still generate is sent one round, and the
/// backend is asked for it; one that may not has ended before.
pub proof fn every_running_lane_is_sent_a_round<C: Compute, K: Clock>(
    trace: DecodeTrace<C, K>,
    before: ConcreteScheduler<C, K>,
    after: ConcreteScheduler<C, K>,
    first: Seq<SchedEvent>,
    last: Seq<SchedEvent>,
    i: int,
) -> (k: int)
    requires
        trace.explains(before, after, first, last),
        before.requests@.len() <= usize::MAX,
        0 <= i < before.requests@.len(),
        before.requests@[i].state == RequestState::Running,
    ensures
        before.requests@[i].remaining_work > 0 ==> {
            &&& 0 <= k < trace.jobs@.len()
            &&& trace.jobs@[k].request == before.requests@[i].id
            &&& Some(trace.jobs@[k].lane) == before.requests@[i].lane
            &&& trace.jobs@[k].remaining_tokens == before.requests@[i].remaining_work
            &&& trace.answer matches Some(answer) && call_ensures(
                C::decode_step,
                (&*before.compute, &trace.jobs),
                answer,
            )
        },
        before.requests@[i].remaining_work == 0 ==> trace.spent.requests@[i].state
            == RequestState::Done,
{
    reveal(DecodeTrace::explains);
    reveal(ConcreteScheduler::budgets_ended);
    let reqs = before.requests@;
    running_is_among_lanes(reqs, trace.lanes, i);
    let m = choose|m: int| 0 <= m < trace.lanes.len() && trace.lanes[m] == i as usize;
    let n = trace.lanes.len() as int;
    only_who_may_generate_goes_on(reqs, trace.lanes, n, m);
    assert(reqs[trace.lanes[m] as int] == reqs[i]);
    if reqs[i].remaining_work > 0 {
        let k = choose|k: int| 0 <= k < trace.going.len() && trace.going[k] == trace.lanes[m];
        assert(trace.spent.requests@[trace.going[k] as int] == reqs[i]);
        k
    } else {
        0
    }
}

/// A chunk is as wide as it may be but for a point it is to publish or capture at:
/// with none inside it, a job takes the whole of its request's next chunk; with
/// one, up to it.
pub proof fn a_job_stops_short_only_at_a_point(
    job: PrefillJob,
    r: Request,
    config: SchedulerConfig,
    plan: ChunkPlan,
)
    requires
        is_prefill_job(job, r, config, plan),
        r.prefill_progress <= r.input.tokens@.len() <= u32::MAX,
    ensures
        ({
            let start = r.prefill_progress;
            let whole = chunk(r, config.serving_chunk_tokens);
            let ends = start + job.tokens@.len();
            let inside = |point: u32| start < point < start + whole;
            &&& !inside(plan.publish_at) && !inside(plan.capture_at) ==> job.tokens@.len() == whole
            &&& inside(plan.publish_at) && !inside(plan.capture_at) ==> ends == plan.publish_at
            &&& !inside(plan.publish_at) && inside(plan.capture_at) ==> ends == plan.capture_at
            &&& inside(plan.publish_at) && inside(plan.capture_at) ==> ends == (
            if plan.publish_at < plan.capture_at {
                plan.publish_at
            } else {
                plan.capture_at
            })
        }),
{
    crate::chunks::chunk_is_bounded(r, config.serving_chunk_tokens);
}

impl<C: Compute, K: Clock> ConcreteScheduler<C, K> {
    /// A prompt half-way through is sent its next chunk, alone, wherever there is
    /// room for it. Where no one is half-way, the front of the queue is sent its
    /// first wherever there is room for it: no one is sent anything only where no
    /// one waits, or where the first in the queue finds no room.
    pub proof fn the_front_of_the_queue_is_served(
        self,
        before: Self,
        batch: Seq<usize>,
        first: Seq<SchedEvent>,
        last: Seq<SchedEvent>,
    )
        requires
            self.selects(before, batch, first, last),
            self.config.max_prefill_batch > 0,
        ensures
            forall|i: int|
                0 <= i < before.requests@.len() && half_prefilled(#[trigger] before.requests@[i])
                    && (forall|j: int|
                    0 <= j < i ==> !half_prefilled(#[trigger] before.requests@[j])) ==> batch
                    == seq![i as usize] || (batch.len() == 0 && (self.kv_used_pages
                    + before.requests@[i].resources.kv_pages > self.capacity.kv_pages
                    || self.resident_slots_used + 1 > self.config.resident_slot_capacity)),
            (forall|i: int|
                0 <= i < before.requests@.len() ==> !half_prefilled(
                    #[trigger] before.requests@[i],
                )) && batch.len() == 0 ==> exists|queue: Seq<usize>| #[trigger]
                is_prefill_queue(before.requests@, queue) && (queue.len() == 0
                    || self.kv_used_pages + self.requests@[queue[0] as int].resources.kv_pages
                    > self.capacity.kv_pages || self.resident_slots_used + 1
                    > self.config.resident_slot_capacity),
            (forall|i: int|
                0 <= i < before.requests@.len() ==> !half_prefilled(
                    #[trigger] before.requests@[i],
                )) ==> exists|queue: Seq<usize>| #[trigger]
                is_prefill_queue(before.requests@, queue) && batch.len() <= queue.len() && batch
                    == queue.take(batch.len() as int),
            (forall|i: int|
                0 <= i < before.requests@.len() ==> !half_prefilled(
                    #[trigger] before.requests@[i],
                )) ==> batch.len() <= before.config.max_prefill_batch,
    {
        if forall|i: int|
            0 <= i < before.requests@.len() ==> !half_prefilled(#[trigger] before.requests@[i]) {
            let (queue, taken, told) = choose|queue: Seq<usize>, taken: Self, told: Seq<SchedEvent>|
                is_prefill_queue(before.requests@, queue) && self.serves_front(queue, batch)
                    && #[trigger] taken.front_claimed(before, queue, first, told)
                    && crate::retention::grew(told, last) && self.charges(taken, batch)
                    && self.admits_of(taken, queue, batch.len() as int, told, last);
            assert(is_prefill_queue(before.requests@, queue));
        }
    }

    /// Bringing back ends only where no one is suspended, or where the next in turn
    /// finds no lane to go on decoding on, or no room on the device.
    pub proof fn whoever_has_a_place_comes_back(
        self,
        before: Self,
        first: Seq<SchedEvent>,
        last: Seq<SchedEvent>,
    ) -> (at: int)
        requires
            self.brought_back(before, first, last),
        ensures
            self.host.live@.len() > 0 ==> {
                let e = self.host.live@[at];
                &&& is_next_snapshot(self.host.live@, at)
                &&& (e.resume_phase == ResumePhase::Running && self.free_lanes@.len() == 0)
                    || self.kv_used_pages + e.pages > self.capacity.kv_pages
                    || self.resident_slots_used + 1 > self.config.resident_slot_capacity
            },
    {
        reveal(ConcreteScheduler::brought_back);
        if self.host.live@.len() > 0 {
            choose|at: int| #[trigger]
                is_next_snapshot(self.host.live@, at) && self.has_no_place(at)
        } else {
            0
        }
    }

    /// Every decision whose prompt is prefilled is done with it, and no one else
    /// ends there.
    pub proof fn every_decision_ends_once_its_prompt_is_in(
        self,
        before: Self,
        first: Seq<SchedEvent>,
        last: Seq<SchedEvent>,
        i: int,
    )
        requires
            self.decisions_made(before, first, last),
            0 <= i < before.requests@.len(),
        ensures
            before.requests@[i].input.decision is Some && before.requests@[i].state
                == RequestState::Prefilling && before.requests@[i].prefill_progress
                >= before.requests@[i].input.tokens@.len() ==> self.requests@[i].state
                == RequestState::Done,
            !has_decided(before.requests@[i]) ==> self.requests@[i] == before.requests@[i],
    {
        reveal(ConcreteScheduler::decisions_made);
    }

    /// A free lane goes to the first in the queue for one, and as many more as
    /// there are lanes and requests for them.
    pub proof fn a_free_lane_goes_to_the_first_in_the_queue(
        self,
        before: Self,
        queue: Seq<usize>,
        first: Seq<SchedEvent>,
        last: Seq<SchedEvent>,
        k: int,
    )
        requires
            self.dealt(before, queue, first, last),
            0 <= k < queue.len(),
            k < before.free_lanes@.len(),
        ensures
            self.requests@[queue[k] as int].state == RequestState::Running,
            self.requests@[queue[k] as int].lane is Some,
            first.len() + k < last.len(),
            last[first.len() + k] matches SchedEvent::Admitted { request, lane, .. } && request
                == before.requests@[queue[k] as int].id && self.requests@[queue[k] as int].lane
                == Some(lane),
    {
        reveal(ConcreteScheduler::dealt);
        let n = choose|n: int| #[trigger]
            self.dealt_in_order(before, queue, n) && (n == queue.len() || n
                == before.free_lanes@.len()) && last == first + before.dealt_events(queue, n);
        assert(self.dealt_in_order(before, queue, n));
        assert(self.requests@[queue[k] as int].state == RequestState::Running);
    }
}

} // verus!
