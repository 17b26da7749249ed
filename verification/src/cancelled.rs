//! What a request that is done hears no more of: nothing an advance reports
//! names it.

use crate::admission::{donors_are_incumbents, AdmissionProtection};
use crate::concrete::ConcreteScheduler;
use crate::deal::{active_in, active_snapshot, is_lane_queue, lane_queue_is_queued};
use crate::landing::{
    chunks_reported, claim_events, done_events, is_chunk_report, miss_events, outcome_of, spent_in,
};
use crate::lifecycle::{names, spared, spares};
use crate::prefill::{carries_on, sendable};
use crate::request::Request;
use crate::retention::{grew, longer};
use crate::rounds::{
    decided_events, has_decided, lanes_are_running, rounds_reported, spent_events,
};
use crate::scheduler::{Clock, Compute, PrefillJob, PrefillOutcome};
use crate::serving::{
    a_cancelled_request_is_sent_nothing, ids_tell_apart, AdvanceTrace, DecodeTrace, PrefillTrace,
    ServeTrace,
};
use crate::types::{BackfillClass, ComputeError, FinishReason, RequestId, RequestState, SchedEvent};
use vstd::prelude::*;

verus! {

/// None of the events names the request `id`.
pub open spec fn names_not(events: Seq<SchedEvent>, id: RequestId) -> bool {
    forall|i: int| 0 <= i < events.len() ==> !names(#[trigger] events[i], id)
}

/// What was reported from `first` to `last` does not name the request `id`.
pub open spec fn leaves_out(first: Seq<SchedEvent>, last: Seq<SchedEvent>, id: RequestId) -> bool {
    &&& longer(first, last)
    &&& forall|i: int| first.len() <= i < last.len() ==> !names(#[trigger] last[i], id)
}

proof fn left_out_on(
    first: Seq<SchedEvent>,
    until: Seq<SchedEvent>,
    last: Seq<SchedEvent>,
    id: RequestId,
)
    requires
        leaves_out(first, until, id),
        leaves_out(until, last, id),
    ensures
        leaves_out(first, last, id),
{
    assert forall|i: int| first.len() <= i < last.len() implies !names(#[trigger] last[i], id) by {
        if i < until.len() {
            assert(last[i] == until[i]);
        }
    }
    assert forall|i: int| 0 <= i < first.len() implies first[i] == last[i] by {
        assert(first[i] == until[i]);
        assert(until[i] == last[i]);
    }
}

proof fn appended_leaves_out(first: Seq<SchedEvent>, more: Seq<SchedEvent>, id: RequestId)
    requires
        names_not(more, id),
    ensures
        leaves_out(first, first + more, id),
{
    let last = first + more;
    assert forall|i: int| first.len() <= i < last.len() implies !names(#[trigger] last[i], id) by {
        assert(last[i] == more[i - first.len()]);
    }
}

proof fn all_reports_leave_out(reports: Seq<Seq<SchedEvent>>, id: RequestId)
    requires
        forall|n: int| 0 <= n < reports.len() ==> names_not(#[trigger] reports[n], id),
    ensures
        names_not(reports.flatten_alt(), id),
    decreases reports.len(),
{
    if reports.len() > 0 {
        let before = reports.drop_last();
        assert forall|n: int| 0 <= n < before.len() implies names_not(#[trigger] before[n], id) by {
            assert(before[n] == reports[n]);
        }
        all_reports_leave_out(before, id);
        let flat = reports.flatten_alt();
        assert(flat == before.flatten_alt() + reports.last());
        assert forall|i: int| 0 <= i < flat.len() implies !names(#[trigger] flat[i], id) by {
            if i < before.flatten_alt().len() {
                assert(flat[i] == before.flatten_alt()[i]);
            } else {
                assert(flat[i] == reports.last()[i - before.flatten_alt().len()]);
            }
        }
    }
}

proof fn ends_leave_out(
    reqs: Seq<Request>,
    list: Seq<usize>,
    reason: FinishReason,
    n: int,
    id: RequestId,
)
    requires
        forall|k: int| 0 <= k < n ==> reqs[(#[trigger] list[k]) as int].id != id,
    ensures
        names_not(done_events(reqs, list, reason, n), id),
    decreases n,
{
    if n > 0 {
        ends_leave_out(reqs, list, reason, n - 1, id);
        assert(reqs[list[n - 1] as int].id != id);
    }
}

proof fn spent_leave_out(reqs: Seq<Request>, list: Seq<usize>, n: int, id: RequestId)
    requires
        forall|k: int| 0 <= k < n ==> reqs[(#[trigger] list[k]) as int].id != id,
    ensures
        names_not(spent_events(reqs, list, n), id),
    decreases n,
{
    if n > 0 {
        spent_leave_out(reqs, list, n - 1, id);
        assert(reqs[list[n - 1] as int].id != id);
    }
}

proof fn decided_leave_out(reqs: Seq<Request>, n: int, id: RequestId)
    requires
        0 <= n <= reqs.len(),
        forall|k: int|
            0 <= k < reqs.len() && has_decided(#[trigger] reqs[k]) ==> reqs[k].id != id,
    ensures
        names_not(decided_events(reqs, n), id),
    decreases n,
{
    if n > 0 {
        decided_leave_out(reqs, n - 1, id);
        if has_decided(reqs[n - 1]) {
            assert(reqs[n - 1].id != id);
        }
    }
}

/// Whoever is active is a running request.
proof fn active_is_running(reqs: Seq<Request>, n: int, k: int) -> (j: int)
    requires
        0 <= n <= reqs.len(),
        0 <= k < active_in(reqs, n).len(),
    ensures
        0 <= j < n,
        reqs[j].state == RequestState::Running,
        reqs[j].id == active_in(reqs, n)[k].request_id,
    decreases n,
{
    if reqs[n - 1].state == RequestState::Running && reqs[n - 1].remaining_work > 0 && k
        == active_in(reqs, n - 1).len() {
        n - 1
    } else {
        active_is_running(reqs, n - 1, k)
    }
}

/// Those out of attempts are of the batch.
proof fn spent_are_of_the_batch(reqs: Seq<Request>, batch: Seq<usize>, n: int)
    requires
        0 <= n <= batch.len(),
    ensures
        forall|k: int|
            0 <= k < spent_in(reqs, batch, n).len() ==> batch.contains(
                #[trigger] spent_in(reqs, batch, n)[k],
            ),
    decreases n,
{
    if n > 0 {
        spent_are_of_the_batch(reqs, batch, n - 1);
        let fewer = spent_in(reqs, batch, n - 1);
        let spent = spent_in(reqs, batch, n);
        assert forall|k: int| 0 <= k < spent.len() implies batch.contains(#[trigger] spent[k]) by {
            if k < fewer.len() {
                assert(spent[k] == fewer[k]);
            } else {
                assert(spent[k] == batch[n - 1]);
            }
        }
    }
}

proof fn chunk_leaves_out(
    r: Request,
    job: PrefillJob,
    outcome: PrefillOutcome,
    report: Seq<SchedEvent>,
    id: RequestId,
)
    requires
        is_chunk_report(r, job, outcome, report),
        r.id != id,
    ensures
        names_not(report, id),
{
    let tail = claim_events(r.id, job.checkpoint, outcome.restore_micros) + miss_events(
        r.pending_retained_misses,
    );
    let cut = report.len() - tail.len();
    assert forall|k: int| 0 <= k < report.len() implies !names(#[trigger] report[k], id) by {
        if k >= cut {
            assert(report[k] == report.skip(cut)[k - cut]);
            assert(report[k] == tail[k - cut]);
        }
    }
}

impl<C: Compute, K: Clock> ConcreteScheduler<C, K> {
    /// A settled prefill step names those it was for.
    proof fn settles_for_the_batch(
        self,
        before: Self,
        batch: Seq<usize>,
        jobs: Seq<PrefillJob>,
        answer: Result<Vec<PrefillOutcome>, ComputeError>,
        first: Seq<SchedEvent>,
        last: Seq<SchedEvent>,
        id: RequestId,
    )
        requires
            self.prefill_settled(before, batch, jobs, answer, first, last),
            forall|n: int|
                0 <= n < batch.len() ==> before.requests@[(#[trigger] batch[n]) as int].id != id,
        ensures
            leaves_out(first, last, id),
    {
        reveal(ConcreteScheduler::prefill_settled);
        match answer {
            Ok(outcomes) => {
                let reports = choose|reports: Seq<Seq<SchedEvent>>| #[trigger]
                    chunks_reported(before.requests@, batch, jobs, outcomes@, reports)
                        && reports.len() == batch.len() && last == first + reports.flatten_alt();
                assert forall|n: int| 0 <= n < reports.len() implies names_not(
                    #[trigger] reports[n],
                    id,
                ) by {
                    chunk_leaves_out(
                        before.requests@[batch[n] as int],
                        jobs[n],
                        outcome_of(outcomes@, n),
                        reports[n],
                        id,
                    );
                }
                all_reports_leave_out(reports, id);
                appended_leaves_out(first, reports.flatten_alt(), id);
            },
            Err(_) => {
                let spent = spent_in(before.requests@, batch, batch.len() as int);
                let ends = spent.len() as int;
                spent_are_of_the_batch(before.requests@, batch, batch.len() as int);
                assert forall|k: int| 0 <= k < spent.len() implies before.requests@[(
                #[trigger] spent[k]) as int].id != id by {
                    assert(batch.contains(spent[k]));
                }
                ends_leave_out(before.requests@, spent, FinishReason::Error, ends, id);
                appended_leaves_out(
                    first,
                    done_events(before.requests@, spent, FinishReason::Error, ends),
                    id,
                );
            },
        }
    }
}

impl<C: Compute, K: Clock> PrefillTrace<C, K> {
    /// Who is done is not named by a prefill step.
    proof fn leaves_out_the_done(
        self,
        before: ConcreteScheduler<C, K>,
        after: ConcreteScheduler<C, K>,
        first: Seq<SchedEvent>,
        last: Seq<SchedEvent>,
        i: int,
    )
        requires
            self.explains(before, after, first, last),
            0 <= i < before.requests@.len(),
            before.requests@[i].state == RequestState::Done,
        ensures
            leaves_out(first, last, before.requests@[i].id),
    {
        reveal(PrefillTrace::explains);
        let id = before.requests@[i].id;
        let planned = self.planned;
        assert(carries_on(before.requests@[i], planned.requests@[i]));
        assert(leaves_out(first, self.told_selected, id)) by {
            reveal(spares);
        }
        assert(leaves_out(self.told_selected, self.told, id)) by {
            reveal(spares);
        }
        left_out_on(first, self.told_selected, self.told, id);
        if let Some(answer) = self.answer {
            assert forall|n: int| 0 <= n < self.batch.len() implies planned.requests@[(
            #[trigger] self.batch[n]) as int].id != id by {
                assert(sendable(planned.requests@[self.batch[n] as int]));
                ids_tell_apart(planned.requests@, planned.next_id, self.batch[n] as int, i);
            }
            after.settles_for_the_batch(
                planned,
                self.batch,
                self.jobs@,
                answer,
                self.told,
                last,
                id,
            );
            left_out_on(first, self.told, last, id);
        }
    }
}

impl<C: Compute, K: Clock> DecodeTrace<C, K> {
    /// Who is done is not named by a decode round.
    proof fn leaves_out_the_done(
        self,
        before: ConcreteScheduler<C, K>,
        after: ConcreteScheduler<C, K>,
        first: Seq<SchedEvent>,
        last: Seq<SchedEvent>,
        i: int,
    )
        requires
            before.wf(),
            self.explains(before, after, first, last),
            0 <= i < before.requests@.len(),
            before.requests@[i].state == RequestState::Done,
        ensures
            leaves_out(first, last, before.requests@[i].id),
    {
        reveal(DecodeTrace::explains);
        let id = before.requests@[i].id;
        let spent = self.spent;
        assert(carries_on(before.requests@[i], spent.requests@[i]));
        assert(before.requests@.len() == before.requests.len());
        lanes_are_running(before.requests@, self.lanes);
        assert forall|k: int| 0 <= k < self.lanes.len() implies before.requests@[(
        #[trigger] self.lanes[k]) as int].id != id by {
            ids_tell_apart(before.requests@, before.next_id, self.lanes[k] as int, i);
        }
        spent_leave_out(before.requests@, self.lanes, self.lanes.len() as int, id);
        appended_leaves_out(
            first,
            spent_events(before.requests@, self.lanes, self.lanes.len() as int),
            id,
        );
        assert(leaves_out(first, self.told, id)) by {
            reveal(ConcreteScheduler::budgets_ended);
        }
        if let Some(answer) = self.answer {
            assert forall|k: int| 0 <= k < self.going.len() implies spent.requests@[(
            #[trigger] self.going[k]) as int].id != id by {
                ids_tell_apart(spent.requests@, spent.next_id, self.going[k] as int, i);
            }
            reveal(ConcreteScheduler::decode_settled);
            match answer {
                Ok(outcomes) => {
                    let reports = choose|reports: Seq<Seq<SchedEvent>>| #[trigger]
                        rounds_reported(spent.requests@, self.going, outcomes@, reports)
                            && reports.len() == (if self.going.len() < outcomes@.len() {
                            self.going.len()
                        } else {
                            outcomes@.len()
                        }) && last == self.told + reports.flatten_alt();
                    assert forall|k: int| 0 <= k < reports.len() implies names_not(
                        #[trigger] reports[k],
                        id,
                    ) by {
                        assert(spent.requests@[self.going[k] as int].id != id);
                    }
                    all_reports_leave_out(reports, id);
                    appended_leaves_out(self.told, reports.flatten_alt(), id);
                },
                Err(_) => {
                    ends_leave_out(
                        spent.requests@,
                        self.going,
                        FinishReason::Error,
                        self.going.len() as int,
                        id,
                    );
                    appended_leaves_out(
                        self.told,
                        done_events(
                            spent.requests@,
                            self.going,
                            FinishReason::Error,
                            self.going.len() as int,
                        ),
                        id,
                    );
                },
            }
            left_out_on(first, self.told, last, id);
        }
    }
}

impl<C: Compute, K: Clock> ConcreteScheduler<C, K> {
    /// Who is done does not come back.
    proof fn brings_back_no_one_done(
        self,
        before: Self,
        first: Seq<SchedEvent>,
        last: Seq<SchedEvent>,
        i: int,
    )
        requires
            before.wf(),
            self.brought_back(before, first, last),
            self.ran_on(before, first, last),
            0 <= i < before.requests@.len(),
            before.requests@[i].state == RequestState::Done,
        ensures
            leaves_out(first, last, before.requests@[i].id),
    {
        reveal(ConcreteScheduler::brought_back);
        let id = before.requests@[i].id;
        let back = choose|back: Seq<int>| #[trigger] self.returned(before, back, first, last);
        assert forall|k: int| first.len() <= k < last.len() implies !names(
            #[trigger] last[k],
            id,
        ) by {
            let at = back[k - first.len()];
            assert(last[first.len() + (k - first.len())] == last[k]);
            ids_tell_apart(before.requests@, before.next_id, at, i);
            assert(carries_on(before.requests@[at], self.requests@[at]));
        }
    }

    /// Who is done is no donor, and no head a protection is opened for.
    proof fn protects_no_one_done(
        self,
        protected: Self,
        head: int,
        first: Seq<SchedEvent>,
        last: Seq<SchedEvent>,
        i: int,
    )
        requires
            self.wf(),
            protected.protects(self, head, first, last),
            0 <= head < self.requests@.len(),
            0 <= i < self.requests@.len(),
            self.requests@[i].state == RequestState::Done,
            self.requests@[head].id != self.requests@[i].id,
        ensures
            leaves_out(first, last, self.requests@[i].id),
    {
        let id = self.requests@[i].id;
        let active = active_in(self.requests@, self.requests@.len() as int);
        if self.protection is None {
            let p = choose|p: AdmissionProtection| #[trigger]
                self.opens_for(head, p, first, last) && protected == (ConcreteScheduler {
                    protection: Some(crate::deal::drained(p, active)),
                    protection_epoch: (self.protection_epoch + 1) as u64,
                    ..self
                });
            if p.donor(id) {
                let r = self.requests@[head];
                donors_are_incumbents(
                    p,
                    self.protection_epoch,
                    r.id,
                    active_snapshot(r).resources,
                    active,
                    self.capacity,
                    id,
                );
                let k = choose|k: int|
                    0 <= k < p.incumbent_ids@.len() && p.incumbent_ids@[k] == id;
                assert(active[k].request_id == id);
                let j = active_is_running(self.requests@, self.requests@.len() as int, k);
                ids_tell_apart(self.requests@, self.next_id, j, i);
            }
            assert(last[last.len() - 1] == last.last());
        }
    }

    /// Who is done is dealt no lane.
    proof fn deals_no_one_done(
        self,
        before: Self,
        queue: Seq<usize>,
        first: Seq<SchedEvent>,
        last: Seq<SchedEvent>,
        i: int,
    )
        requires
            before.wf(),
            is_lane_queue(before.requests@, queue),
            self.dealt(before, queue, first, last),
            self.ran_on(before, first, last),
            0 <= i < before.requests@.len(),
            before.requests@[i].state == RequestState::Done,
        ensures
            leaves_out(first, last, before.requests@[i].id),
    {
        reveal(ConcreteScheduler::dealt);
        let id = before.requests@[i].id;
        assert(before.requests@.len() == before.requests.len());
        lane_queue_is_queued(before.requests@, queue);
        assert forall|k: int| 0 <= k < queue.len() implies before.requests@[(
        #[trigger] queue[k]) as int].id != id by {
            ids_tell_apart(before.requests@, before.next_id, queue[k] as int, i);
        }
        if queue.len() > 0 && before.free_lanes@.len() > 0 {
            let n = choose|n: int| #[trigger]
                self.dealt_in_order(before, queue, n) && (n == queue.len() || n
                    == before.free_lanes@.len()) && last == first + before.dealt_events(queue, n);
            let told = before.dealt_events(queue, n);
            assert forall|k: int| 0 <= k < told.len() implies !names(#[trigger] told[k], id) by {
                assert(before.requests@[queue[k] as int].id != id);
            }
            appended_leaves_out(first, told, id);
        } else if queue.len() > 0 {
            let head = queue[0] as int;
            assert(before.requests@[queue[0] as int].id != id);
            assert(carries_on(before.requests@[head], self.requests@[head]));
            assert(self.head_had_its_turn(before, head, first, last));
            reveal(ConcreteScheduler::head_had_its_turn);
            if last != first {
                let (protected, opened, freed, told) = choose|
                    protected: Self,
                    opened: Seq<SchedEvent>,
                    freed: Self,
                    told: Seq<SchedEvent>,
                |
                    protected.protects(before, head, first, opened) && #[trigger] freed.made_way(
                        protected,
                        None,
                        Some(head as usize),
                        opened,
                        told,
                    ) && grew(opened, told) && spared(before.requests@, opened, told)
                        && #[trigger] self.head_served(freed, head, told, last);
                before.protects_no_one_done(protected, head, first, opened, i);
                assert(leaves_out(opened, told, id)) by {
                    reveal(spares);
                }
                left_out_on(first, opened, told, id);
                if freed.free_lanes@.len() > 0 {
                    assert(self.requests@[head] == freed.dealt_request(
                        head,
                        BackfillClass::Plain,
                    ));
                    assert(freed.requests@[head].id == before.requests@[head].id);
                }
                assert(leaves_out(told, last, id));
                left_out_on(first, told, last, id);
            }
        }
    }
}

impl<C: Compute, K: Clock> ServeTrace<C, K> {
    /// Who is done is not named once the prefill step is settled.
    proof fn leaves_out_the_done(
        self,
        before: ConcreteScheduler<C, K>,
        after: ConcreteScheduler<C, K>,
        first: Seq<SchedEvent>,
        last: Seq<SchedEvent>,
        i: int,
    )
        requires
            before.wf(),
            self.explains(before, after, first, last),
            0 <= i < before.requests@.len(),
            before.requests@[i].state == RequestState::Done,
        ensures
            leaves_out(first, last, before.requests@[i].id),
    {
        reveal(ServeTrace::explains);
        let id = before.requests@[i].id;
        assert(carries_on(before.requests@[i], self.decided.requests@[i]));
        assert(carries_on(self.decided.requests@[i], self.back.requests@[i]));
        assert(carries_on(self.back.requests@[i], self.dealt.requests@[i]));
        assert(carries_on(self.dealt.requests@[i], self.decoded.requests@[i]));
        assert(leaves_out(first, self.told_decided, id)) by {
            reveal(ConcreteScheduler::decisions_made);
            assert forall|k: int|
                0 <= k < before.requests@.len() && has_decided(
                    #[trigger] before.requests@[k],
                ) implies before.requests@[k].id != id by {
                ids_tell_apart(before.requests@, before.next_id, k, i);
            }
            decided_leave_out(before.requests@, before.requests@.len() as int, id);
            appended_leaves_out(
                first,
                decided_events(before.requests@, before.requests@.len() as int),
                id,
            );
        }
        self.back.brings_back_no_one_done(self.decided, self.told_decided, self.told_back, i);
        left_out_on(first, self.told_decided, self.told_back, id);
        self.dealt.deals_no_one_done(self.back, self.queue, self.told_back, self.told_dealt, i);
        left_out_on(first, self.told_back, self.told_dealt, id);
        self.decode.leaves_out_the_done(
            self.dealt,
            self.decoded,
            self.told_dealt,
            self.told_decoded,
            i,
        );
        left_out_on(first, self.told_dealt, self.told_decoded, id);
        after.brings_back_no_one_done(self.decoded, self.told_decoded, last, i);
        left_out_on(first, self.told_decoded, last, id);
    }
}

/// Nothing an advance reports names a request that was cancelled before it.
pub proof fn a_cancelled_request_is_not_named<C: Compute, K: Clock>(
    trace: AdvanceTrace<C, K>,
    before: ConcreteScheduler<C, K>,
    after: ConcreteScheduler<C, K>,
    events: Seq<SchedEvent>,
    i: int,
)
    requires
        trace.explains(before, after, events),
        0 <= i < before.requests@.len(),
        before.requests@[i].cancelled,
    ensures
        names_not(events, before.requests@[i].id),
{
    let id = before.requests@[i].id;
    a_cancelled_request_is_sent_nothing(trace, before, after, events, i);
    assert(trace.begun.requests@[i].state == RequestState::Done);
    assert(trace.begun.requests@[i].id == id);
    trace.prefill.leaves_out_the_done(
        trace.begun,
        trace.settled,
        Seq::empty(),
        trace.told_settled,
        i,
    );
    trace.prefill.ends_well(trace.begun, trace.settled, Seq::empty(), trace.told_settled, i);
    if let Some(serve) = trace.serve {
        serve.leaves_out_the_done(
            trace.settled,
            trace.served,
            trace.told_settled,
            trace.told_served,
            i,
        );
        left_out_on(Seq::empty(), trace.told_settled, trace.told_served, id);
    }
    assert(leaves_out(Seq::empty(), trace.told_served, id));
    assert forall|k: int| 0 <= k < events.len() implies !names(#[trigger] events[k], id) by {
        if k < trace.told_served.len() {
            assert(events[k] == trace.told_served[k]);
        }
    }
}

impl<C: Compute, K: Clock> PrefillTrace<C, K> {
    /// The step keeps the invariant, and who is done stays so.
    proof fn ends_well(
        self,
        before: ConcreteScheduler<C, K>,
        after: ConcreteScheduler<C, K>,
        first: Seq<SchedEvent>,
        last: Seq<SchedEvent>,
        i: int,
    )
        requires
            self.explains(before, after, first, last),
            0 <= i < before.requests@.len(),
            before.requests@[i].state == RequestState::Done,
        ensures
            after.wf(),
            i < after.requests@.len(),
            after.requests@[i].id == before.requests@[i].id,
            after.requests@[i].state == RequestState::Done,
    {
        reveal(PrefillTrace::explains);
        assert(carries_on(before.requests@[i], self.planned.requests@[i]));
        assert(carries_on(self.planned.requests@[i], after.requests@[i]));
    }
}

} // verus!
