//! One advance of the scheduler: cancelled requests are let go, at most one
//! prefill step is run, suspended requests come back, lanes are dealt and every
//! running lane decodes a round.
//!
//! The two steps the backend runs are settled by [`ConcreteScheduler::settle_prefill`]
//! and [`ConcreteScheduler::settle_decode`], which take what it answered and
//! hold whatever that was.

use crate::chunks::{chunk_is_bounded, is_prefill_job, lands_exactly, ChunkPlan};
use crate::concrete::{request_ok, ConcreteScheduler};
use crate::deal::{is_lane_queue, lane_queue_is_queued};
use crate::eviction::came_back;
use crate::host::is_next_snapshot;
use crate::landing::{
    attempt_failed, chunk_arrived, chunks_reported, done_events, is_last_attempt, job_fits,
    outcome_of, spent_in,
};
use crate::lifecycle::{
    ended_request, is_told, moves_told, moves_told_on, spared, spared_on, told_longer,
};
use crate::prefill::{carries_on, sendable, waits};
use crate::request::Request;
use crate::retention::{grew, longer, took_up};
use crate::rounds::{
    all_running, are_lanes, decided_events, has_decided, is_decode_job, rounds_reported,
    spent_events, with_budget,
};
use crate::scheduler::{Clock, Compute, DecodeJob, DecodeOutcome, PrefillJob, PrefillOutcome};
use crate::types::{ComputeError, FinishReason, RequestState, SchedEvent};
use vstd::prelude::*;

verus! {

/// What an advance may do to a request: one cancelled before it is ended, one
/// that is done stays as it is, and everyone else is who they were.
pub open spec fn advanced(a: Request, b: Request) -> bool {
    if a.cancelled && a.state != RequestState::Done {
        b == ended_request(a)
    } else {
        carries_on(a, b)
    }
}

/// What the prefill step of an advance went through: who was selected and
/// planned for, the jobs sent, what was reported up to then, and what the
/// backend answered, if it was asked.
pub struct PrefillTrace<C: Compute, K: Clock> {
    pub selected: ConcreteScheduler<C, K>,
    pub told_selected: Seq<SchedEvent>,
    pub planned: ConcreteScheduler<C, K>,
    pub batch: Seq<usize>,
    pub plans: Seq<ChunkPlan>,
    pub jobs: Vec<PrefillJob>,
    pub told: Seq<SchedEvent>,
    pub answer: Option<Result<Vec<PrefillOutcome>, ComputeError>>,
}

impl<C: Compute, K: Clock> PrefillTrace<C, K> {
    /// The step that led from `before` to `after`: the backend is asked exactly
    /// where there is someone to send a chunk for.
    #[verifier::opaque]
    pub open spec fn explains(
        self,
        before: ConcreteScheduler<C, K>,
        after: ConcreteScheduler<C, K>,
        first: Seq<SchedEvent>,
        last: Seq<SchedEvent>,
    ) -> bool {
        &&& self.selected.selects(before, self.batch, first, self.told_selected)
        &&& self.selected.ran_on(before, first, self.told_selected)
        // Up to here nothing but upkeep and heads taken up is reported, and
        // while the chunks are planned only upkeep.
        &&& took_up(first, self.told_selected)
        &&& grew(self.told_selected, self.told)
        // And no one who is done is named.
        &&& spared(before.requests@, first, self.told_selected)
        &&& spared(before.requests@, self.told_selected, self.told)
        &&& self.planned.ran_on(before, first, self.told)
        &&& self.planned.batch_ready(self.batch, 0)
        &&& self.planned.settled_but(self.batch, 0)
        &&& self.planned.only_retention_moved(self.selected)
        &&& self.planned.last_error == before.last_error
        &&& self.plans.len() == self.batch.len()
        &&& self.planned.slots_taken(
            self.selected,
            self.batch,
            self.plans,
            self.batch.len() as int,
            self.told_selected,
            self.told,
        )
        &&& forall|n: int|
            0 <= n < self.batch.len() ==> self.selected.settles_wish(
                self.batch,
                n,
                #[trigger] self.plans[n],
            )
        &&& self.jobs@.len() == self.batch.len()
        &&& forall|n: int|
            0 <= n < self.batch.len() ==> is_prefill_job(
                #[trigger] self.jobs@[n],
                self.planned.requests@[self.batch[n] as int],
                self.planned.config,
                self.plans[n],
            )
        &&& match self.answer {
            None => self.batch.len() == 0 && after == self.planned && last == self.told,
            Some(answer) => self.batch.len() > 0 && call_ensures(
                C::prefill_step,
                (&*before.compute, &self.jobs),
                answer,
            ) && after.prefill_settled(
                self.planned,
                self.batch,
                self.jobs@,
                answer,
                self.told,
                last,
            ) && after.ran_on(self.planned, self.told, last),
        }
    }
}

/// What the decode round of an advance went through: the running lanes, those
/// whose budget was spent ended, the rounds sent to the others, what was
/// reported up to then, and what the backend answered, if it was asked.
pub struct DecodeTrace<C: Compute, K: Clock> {
    pub lanes: Seq<usize>,
    pub spent: ConcreteScheduler<C, K>,
    pub going: Seq<usize>,
    pub jobs: Vec<DecodeJob>,
    pub told: Seq<SchedEvent>,
    pub answer: Option<Result<Vec<DecodeOutcome>, ComputeError>>,
}

impl<C: Compute, K: Clock> DecodeTrace<C, K> {
    /// The round that led from `before` to `after`: the backend is asked
    /// exactly where a lane may still generate.
    #[verifier::opaque]
    pub open spec fn explains(
        self,
        before: ConcreteScheduler<C, K>,
        after: ConcreteScheduler<C, K>,
        first: Seq<SchedEvent>,
        last: Seq<SchedEvent>,
    ) -> bool {
        &&& are_lanes(before.requests@, self.lanes)
        &&& self.going == with_budget(before.requests@, self.lanes, self.lanes.len() as int)
        &&& self.spent.budgets_ended(before, self.lanes, first, self.told)
        &&& self.spent.ran_on(before, first, self.told)
        &&& all_running(self.spent.requests@, self.going)
        &&& self.jobs@.len() == self.going.len()
        &&& forall|k: int|
            0 <= k < self.going.len() ==> is_decode_job(
                #[trigger] self.jobs@[k],
                self.spent.requests@[self.going[k] as int],
            )
        &&& match self.answer {
            None => self.going.len() == 0 && after == self.spent && last == self.told,
            Some(answer) => self.going.len() > 0 && call_ensures(
                C::decode_step,
                (&*before.compute, &self.jobs),
                answer,
            ) && after.decode_settled(
                self.spent,
                self.going,
                answer,
                self.told,
                last,
            ) && after.ran_on(self.spent, self.told, last),
        }
    }
}

/// What an advance went through once its prefill step was settled: decisions
/// made, requests brought back, lanes dealt, the decode round, and requests
/// brought back again; with what was reported up to each.
pub struct ServeTrace<C: Compute, K: Clock> {
    pub decided: ConcreteScheduler<C, K>,
    pub told_decided: Seq<SchedEvent>,
    pub back: ConcreteScheduler<C, K>,
    pub told_back: Seq<SchedEvent>,
    pub queue: Seq<usize>,
    pub dealt: ConcreteScheduler<C, K>,
    pub told_dealt: Seq<SchedEvent>,
    pub decode: DecodeTrace<C, K>,
    pub decoded: ConcreteScheduler<C, K>,
    pub told_decoded: Seq<SchedEvent>,
}

impl<C: Compute, K: Clock> ServeTrace<C, K> {
    /// What led from `before` to `after`.
    #[verifier::opaque]
    pub open spec fn explains(
        self,
        before: ConcreteScheduler<C, K>,
        after: ConcreteScheduler<C, K>,
        first: Seq<SchedEvent>,
        last: Seq<SchedEvent>,
    ) -> bool {
        &&& self.decided.decisions_made(before, first, self.told_decided)
        &&& self.decided.ran_on(before, first, self.told_decided)
        &&& self.back.brought_back(self.decided, self.told_decided, self.told_back)
        &&& self.back.ran_on(self.decided, self.told_decided, self.told_back)
        &&& is_lane_queue(self.back.requests@, self.queue)
        &&& self.dealt.dealt(self.back, self.queue, self.told_back, self.told_dealt)
        &&& self.dealt.ran_on(self.back, self.told_back, self.told_dealt)
        &&& self.decode.explains(self.dealt, self.decoded, self.told_dealt, self.told_decoded)
        &&& self.decoded.ran_on(self.dealt, self.told_dealt, self.told_decoded)
        &&& after.brought_back(self.decoded, self.told_decoded, last)
        &&& after.ran_on(self.decoded, self.told_decoded, last)
    }
}

/// What one advance went through: where it began, its prefill step, and, unless
/// that failed, what it served; with what was reported up to each.
pub struct AdvanceTrace<C: Compute, K: Clock> {
    pub begun: ConcreteScheduler<C, K>,
    pub prefill: PrefillTrace<C, K>,
    pub settled: ConcreteScheduler<C, K>,
    pub told_settled: Seq<SchedEvent>,
    pub serve: Option<ServeTrace<C, K>>,
    pub served: ConcreteScheduler<C, K>,
    pub told_served: Seq<SchedEvent>,
}

impl<C: Compute, K: Clock> AdvanceTrace<C, K> {
    /// The advance that led from `before` to `after` and reported `events`.
    pub open spec fn explains(
        self,
        before: ConcreteScheduler<C, K>,
        after: ConcreteScheduler<C, K>,
        events: Seq<SchedEvent>,
    ) -> bool {
        &&& self.begun.began(before)
        &&& self.begun.wf()
        &&& self.begun.settled()
        &&& self.prefill.explains(self.begun, self.settled, Seq::empty(), self.told_settled)
        &&& match self.serve {
            None => self.served == self.settled && self.told_served == self.told_settled && (
            self.prefill.answer matches Some(Err(_))),
            Some(serve) => serve.explains(
                self.settled,
                self.served,
                self.told_settled,
                self.told_served,
            ) && !(self.prefill.answer matches Some(Err(_))),
        }
        // The slots in use are reported last, where their number changed.
        &&& events == (if self.served.reported_slots != self.served.retained.used() {
            self.told_served.push(
                SchedEvent::RetainedSlots {
                    in_use: self.served.retained.used() as u32,
                    capacity: self.served.retained.slots@.len() as u32,
                },
            )
        } else {
            self.told_served
        })
        &&& after == (ConcreteScheduler { reported_slots: after.reported_slots, ..self.served })
    }
}

impl<C: Compute, K: Clock> AdvanceTrace<C, K> {
    /// The error the backend answered with, if it did.
    pub open spec fn error(self) -> Option<ComputeError> {
        match self.prefill.answer {
            Some(Err(error)) => Some(error),
            _ => match self.serve {
                Some(serve) => match serve.decode.answer {
                    Some(Err(error)) => Some(error),
                    _ => None,
                },
                None => None,
            },
        }
    }
}

/// The last error is the one this advance hit, and none where it hit none.
pub proof fn the_last_error_is_this_advances<C: Compute, K: Clock>(
    trace: AdvanceTrace<C, K>,
    before: ConcreteScheduler<C, K>,
    after: ConcreteScheduler<C, K>,
    events: Seq<SchedEvent>,
)
    requires
        trace.explains(before, after, events),
    ensures
        after.last_error == trace.error(),
{
    trace.prefill.error_is_noted(
        trace.begun,
        trace.settled,
        Seq::empty(),
        trace.told_settled,
    );
    if let Some(serve) = trace.serve {
        serve.error_is_noted(
            trace.settled,
            trace.served,
            trace.told_settled,
            trace.told_served,
        );
    }
}

impl<C: Compute, K: Clock> PrefillTrace<C, K> {
    proof fn error_is_noted(
        self,
        before: ConcreteScheduler<C, K>,
        after: ConcreteScheduler<C, K>,
        first: Seq<SchedEvent>,
        last: Seq<SchedEvent>,
    )
        requires
            self.explains(before, after, first, last),
        ensures
            after.last_error == (match self.answer {
                Some(Err(error)) => Some(error),
                _ => before.last_error,
            }),
    {
        reveal(PrefillTrace::explains);
        reveal(ConcreteScheduler::prefill_settled);
    }

    /// Who is done is sent no chunk, and stays as it is.
    proof fn sends_the_done_nothing(
        self,
        before: ConcreteScheduler<C, K>,
        after: ConcreteScheduler<C, K>,
        first: Seq<SchedEvent>,
        last: Seq<SchedEvent>,
        i: int,
    )
        requires
            self.explains(before, after, first, last),
            0 <= i < before.requests@.len(),
            before.requests@[i].state == RequestState::Done,
        ensures
            after.requests@.len() == before.requests@.len(),
            after.requests@[i] == before.requests@[i],
            forall|n: int|
                0 <= n < self.jobs@.len() ==> (#[trigger] self.jobs@[n]).request
                    != before.requests@[i].id,
    {
        reveal(PrefillTrace::explains);
        let planned = self.planned;
        assert(carries_on(before.requests@[i], planned.requests@[i]));
        assert forall|n: int| 0 <= n < self.jobs@.len() implies (#[trigger] self.jobs@[n]).request
            != before.requests@[i].id by {
            let at = self.batch[n] as int;
            assert(sendable(planned.requests@[at]));
            ids_tell_apart(planned.requests@, planned.next_id, at, i);
        }
        assert(carries_on(planned.requests@[i], after.requests@[i]));
    }
}

impl<C: Compute, K: Clock> DecodeTrace<C, K> {
    proof fn error_is_noted(
        self,
        before: ConcreteScheduler<C, K>,
        after: ConcreteScheduler<C, K>,
        first: Seq<SchedEvent>,
        last: Seq<SchedEvent>,
    )
        requires
            self.explains(before, after, first, last),
        ensures
            after.last_error == (match self.answer {
                Some(Err(error)) => Some(error),
                _ => before.last_error,
            }),
    {
        reveal(DecodeTrace::explains);
        reveal(ConcreteScheduler::budgets_ended);
        reveal(ConcreteScheduler::decode_settled);
    }

    /// Who is done is sent no round.
    proof fn sends_the_done_nothing(
        self,
        before: ConcreteScheduler<C, K>,
        after: ConcreteScheduler<C, K>,
        first: Seq<SchedEvent>,
        last: Seq<SchedEvent>,
        i: int,
    )
        requires
            self.explains(before, after, first, last),
            0 <= i < before.requests@.len(),
            before.requests@[i].state == RequestState::Done,
        ensures
            forall|k: int|
                0 <= k < self.jobs@.len() ==> (#[trigger] self.jobs@[k]).request
                    != before.requests@[i].id,
    {
        reveal(DecodeTrace::explains);
        let spent = self.spent;
        assert(carries_on(before.requests@[i], spent.requests@[i]));
        assert forall|k: int| 0 <= k < self.jobs@.len() implies (#[trigger] self.jobs@[k]).request
            != before.requests@[i].id by {
            let at = self.going[k] as int;
            assert(spent.requests@[at].state == RequestState::Running);
            ids_tell_apart(spent.requests@, spent.next_id, at, i);
        }
    }
}

impl<C: Compute, K: Clock> ServeTrace<C, K> {
    proof fn error_is_noted(
        self,
        before: ConcreteScheduler<C, K>,
        after: ConcreteScheduler<C, K>,
        first: Seq<SchedEvent>,
        last: Seq<SchedEvent>,
    )
        requires
            self.explains(before, after, first, last),
        ensures
            after.last_error == (match self.decode.answer {
                Some(Err(error)) => Some(error),
                _ => before.last_error,
            }),
    {
        reveal(ServeTrace::explains);
        assert(self.decided.last_error == before.last_error) by {
            reveal(ConcreteScheduler::decisions_made);
        }
        assert(self.back.last_error == self.decided.last_error) by {
            reveal(ConcreteScheduler::brought_back);
        }
        assert(self.dealt.last_error == self.back.last_error) by {
            reveal(ConcreteScheduler::dealt);
        }
        self.decode.error_is_noted(
            self.dealt,
            self.decoded,
            self.told_dealt,
            self.told_decoded,
        );
        assert(after.last_error == self.decoded.last_error) by {
            reveal(ConcreteScheduler::brought_back);
        }
    }

    /// Who is done is sent no round, and stays as it is.
    proof fn sends_the_done_nothing(
        self,
        before: ConcreteScheduler<C, K>,
        after: ConcreteScheduler<C, K>,
        first: Seq<SchedEvent>,
        last: Seq<SchedEvent>,
        i: int,
    )
        requires
            self.explains(before, after, first, last),
            0 <= i < before.requests@.len(),
            before.requests@[i].state == RequestState::Done,
        ensures
            after.requests@[i] == before.requests@[i],
            forall|k: int|
                0 <= k < self.decode.jobs@.len() ==> (#[trigger] self.decode.jobs@[k]).request
                    != before.requests@[i].id,
    {
        reveal(ServeTrace::explains);
        assert(carries_on(before.requests@[i], self.decided.requests@[i]));
        assert(carries_on(self.decided.requests@[i], self.back.requests@[i]));
        assert(carries_on(self.back.requests@[i], self.dealt.requests@[i]));
        assert(carries_on(self.dealt.requests@[i], self.decoded.requests@[i]));
        assert(carries_on(self.decoded.requests@[i], after.requests@[i]));
        self.decode.sends_the_done_nothing(
            self.dealt,
            self.decoded,
            self.told_dealt,
            self.told_decoded,
            i,
        );
    }
}

/// Whoever was cancelled before an advance is sent no chunk and no round in
/// it, and is done after it.
pub proof fn a_cancelled_request_is_sent_nothing<C: Compute, K: Clock>(
    trace: AdvanceTrace<C, K>,
    before: ConcreteScheduler<C, K>,
    after: ConcreteScheduler<C, K>,
    events: Seq<SchedEvent>,
    i: int,
)
    requires
        trace.explains(before, after, events),
        0 <= i < before.requests@.len(),
        before.requests@[i].cancelled,
    ensures
        forall|n: int|
            0 <= n < trace.prefill.jobs@.len() ==> (#[trigger] trace.prefill.jobs@[n]).request
                != before.requests@[i].id,
        trace.serve matches Some(serve) ==> forall|k: int|
            0 <= k < serve.decode.jobs@.len() ==> (#[trigger] serve.decode.jobs@[k]).request
                != before.requests@[i].id,
        after.requests@[i].state == RequestState::Done,
{
    assert(trace.begun.requests@[i].state == RequestState::Done);
    assert(trace.begun.requests@[i].id == before.requests@[i].id);
    trace.prefill.sends_the_done_nothing(
        trace.begun,
        trace.settled,
        Seq::empty(),
        trace.told_settled,
        i,
    );
    if let Some(serve) = trace.serve {
        serve.sends_the_done_nothing(
            trace.settled,
            trace.served,
            trace.told_settled,
            trace.told_served,
            i,
        );
    }
}

/// No two requests have one id.
pub proof fn ids_tell_apart(reqs: Seq<Request>, bound: crate::types::RequestId, a: int, b: int)
    requires
        crate::ledger::requests_ascend(reqs, bound),
        0 <= a < reqs.len(),
        0 <= b < reqs.len(),
        a != b,
    ensures
        reqs[a].id != reqs[b].id,
{
    if a < b {
        assert(reqs[a].id < reqs[b].id);
    } else {
        assert(reqs[b].id < reqs[a].id);
    }
}

impl<C: Compute, K: Clock> ConcreteScheduler<C, K> {
    /// The advance began: the last error is forgotten, the tick has moved on,
    /// and whoever was cancelled is let go.
    pub open spec fn began(self, before: Self) -> bool {
        &&& self.tick == before.tick + 1
        &&& self.last_error is None
        &&& self.config == before.config
        &&& self.compute == before.compute
        &&& self.clock == before.clock
        &&& self.capacity == before.capacity
        &&& self.next_id == before.next_id
        &&& self.protection_epoch == before.protection_epoch
        &&& self.protection is None || self.protection == before.protection
        &&& before.cancelled_freed(before.requests@.len() as int)
        &&& self.only_let_go(before)
        &&& self.requests@.len() == before.requests@.len()
        &&& (forall|i: int|
            0 <= i < before.requests@.len() && (#[trigger] before.requests@[i]).cancelled
                ==> before.requests@[i].state == RequestState::Done) ==> self == (
        ConcreteScheduler { tick: self.tick, last_error: None, ..before })
        &&& forall|i: int|
            0 <= i < before.requests@.len() ==> (#[trigger] self.requests@[i]) == (
            if before.requests@[i].cancelled && before.requests@[i].state != RequestState::Done {
                ended_request(before.requests@[i])
            } else {
                before.requests@[i]
            })
    }

    /// The prefill step was settled: every chunk landed, or none did.
    #[verifier::opaque]
    pub open spec fn prefill_settled(
        self,
        before: Self,
        batch: Seq<usize>,
        jobs: Seq<PrefillJob>,
        answer: Result<Vec<PrefillOutcome>, ComputeError>,
        first: Seq<SchedEvent>,
        last: Seq<SchedEvent>,
    ) -> bool {
        &&& self.last_error == (match answer {
            Ok(_) => before.last_error,
            Err(error) => Some(error),
        })
        &&& match answer {
            Ok(outcomes) => self.lands(
                before,
                batch,
                jobs,
                outcomes@,
                batch.len() as int,
                first,
                last,
            ) && exists|reports: Seq<Seq<SchedEvent>>| #[trigger]
                chunks_reported(before.requests@, batch, jobs, outcomes@, reports) && reports.len()
                    == batch.len() && last == first + reports.flatten_alt(),
            Err(_) => {
                let spent = spent_in(before.requests@, batch, batch.len() as int);
                &&& self.batch_failed(before, jobs)
                &&& last == first + done_events(
                    before.requests@,
                    spent,
                    FinishReason::Error,
                    spent.len() as int,
                )
            },
        }
        &&& forall|n: int|
            0 <= n < batch.len() ==> {
                let r = before.requests@[(#[trigger] batch[n]) as int];
                let after = self.requests@[batch[n] as int];
                match answer {
                    Ok(outcomes) => chunk_arrived(r, jobs[n], outcome_of(outcomes@, n), after),
                    Err(_) => if is_last_attempt(r) {
                        before.finished(attempt_failed(r), after)
                    } else {
                        after == attempt_failed(r)
                    },
                }
            }
        &&& forall|i: int|
            0 <= i < before.requests@.len() && !batch.contains(i as usize) ==> (
            #[trigger] self.requests@[i]) == before.requests@[i]
    }

    /// Every decision whose prompt is prefilled has ended, and no one else.
    #[verifier::opaque]
    pub open spec fn decisions_made(
        self,
        before: Self,
        first: Seq<SchedEvent>,
        last: Seq<SchedEvent>,
    ) -> bool {
        &&& self.last_error == before.last_error
        &&& self.only_let_go(before)
        &&& last == first + decided_events(before.requests@, before.requests@.len() as int)
        &&& forall|i: int|
            0 <= i < before.requests@.len() ==> if has_decided(before.requests@[i]) {
                before.finished(before.requests@[i], #[trigger] self.requests@[i])
            } else {
                self.requests@[i] == before.requests@[i]
            }
    }

    /// Suspended requests came back, as many as there is room for.
    #[verifier::opaque]
    pub open spec fn brought_back(
        self,
        before: Self,
        first: Seq<SchedEvent>,
        last: Seq<SchedEvent>,
    ) -> bool {
        &&& self.only_restores(before)
        &&& exists|back: Seq<int>| #[trigger] self.returned(before, back, first, last)
        &&& exists|n: int| 0 <= n && #[trigger] self.restored_in_turn(before, n, first, last)
        &&& self.host.live@.len() == 0 || exists|at: int| #[trigger]
            is_next_snapshot(self.host.live@, at) && self.has_no_place(at)
    }

    /// Every lane whose budget is spent has ended, and no one else.
    #[verifier::opaque]
    pub open spec fn budgets_ended(
        self,
        before: Self,
        lanes: Seq<usize>,
        first: Seq<SchedEvent>,
        last: Seq<SchedEvent>,
    ) -> bool {
        &&& self.last_error == before.last_error
        &&& self.only_let_go(before)
        &&& last == first + spent_events(before.requests@, lanes, lanes.len() as int)
        &&& forall|k: int|
            0 <= k < lanes.len() ==> if before.requests@[(
            #[trigger] lanes[k]) as int].remaining_work == 0 {
                before.finished(before.requests@[lanes[k] as int], self.requests@[lanes[k] as int])
            } else {
                self.requests@[lanes[k] as int] == before.requests@[lanes[k] as int]
            }
        &&& forall|i: int|
            0 <= i < before.requests@.len() && !lanes.contains(i as usize) ==> (
            #[trigger] self.requests@[i]) == before.requests@[i]
    }

    /// The decode round was settled: every lane took its part, or all ended.
    #[verifier::opaque]
    pub open spec fn decode_settled(
        self,
        before: Self,
        going: Seq<usize>,
        answer: Result<Vec<DecodeOutcome>, ComputeError>,
        first: Seq<SchedEvent>,
        last: Seq<SchedEvent>,
    ) -> bool {
        &&& match answer {
            Ok(outcomes) => exists|reports: Seq<Seq<SchedEvent>>| #[trigger]
                rounds_reported(before.requests@, going, outcomes@, reports) && reports.len() == (
                if going.len() < outcomes@.len() {
                    going.len()
                } else {
                    outcomes@.len()
                }) && last == first + reports.flatten_alt(),
            Err(_) => last == first + done_events(
                before.requests@,
                going,
                FinishReason::Error,
                going.len() as int,
            ),
        }
        &&& self.last_error == (match answer {
            Ok(_) => before.last_error,
            Err(error) => Some(error),
        })
        &&& self.only_let_go(before)
        &&& forall|k: int|
            0 <= k < going.len() ==> {
                let r = before.requests@[(#[trigger] going[k]) as int];
                let after = self.requests@[going[k] as int];
                match answer {
                    Ok(outcomes) => if k < outcomes@.len() {
                        before.round_settled(r, outcomes@[k], after)
                    } else {
                        after == r
                    },
                    Err(_) => before.finished(r, after),
                }
            }
        &&& forall|i: int|
            0 <= i < before.requests@.len() && !going.contains(i as usize) ==> (
            #[trigger] self.requests@[i]) == before.requests@[i]
    }

    /// A stretch of an advance: the invariant is kept, everyone is who they
    /// were, and whoever ended is reported.
    pub open spec fn ran_on(
        self,
        before: Self,
        first: Seq<SchedEvent>,
        last: Seq<SchedEvent>,
    ) -> bool {
        &&& self.wf()
        &&& self.carried(before)
        &&& self.protection_epoch >= before.protection_epoch
        &&& longer(first, last)
        &&& moves_told(before.requests@, self.requests@, first, last)
    }

    pub proof fn ran_on_on(
        self,
        middle: Self,
        before: Self,
        first: Seq<SchedEvent>,
        until: Seq<SchedEvent>,
        last: Seq<SchedEvent>,
    )
        requires
            middle.ran_on(before, first, until),
            self.ran_on(middle, until, last),
        ensures
            self.ran_on(before, first, last),
    {
        assert forall|i: int| 0 <= i < before.requests@.len() implies carries_on(
            before.requests@[i],
            #[trigger] self.requests@[i],
        ) by {
            assert(carries_on(before.requests@[i], middle.requests@[i]));
            assert(carries_on(middle.requests@[i], self.requests@[i]));
        }
        assert forall|i: int| 0 <= i < before.requests@.len() implies (
        #[trigger] middle.requests@[i]).id == before.requests@[i].id by {
            assert(carries_on(before.requests@[i], middle.requests@[i]));
        }
        moves_told_on(
            before.requests@,
            middle.requests@,
            self.requests@,
            first,
            until,
            last,
        );
    }

    /// Begin an advance: the last error is forgotten, and whoever was cancelled
    /// since the last one is let go.
    fn begin_advance(&mut self)
        requires
            old(self).wf(),
            old(self).settled(),
            old(self).tick < u64::MAX,
        ensures
            final(self).wf(),
            final(self).settled(),
            final(self).began(*old(self)),
            final(self).config == old(self).config,
            final(self).compute == old(self).compute,
            final(self).clock == old(self).clock,
            final(self).capacity == old(self).capacity,
            final(self).next_id == old(self).next_id,
            final(self).protection_epoch == old(self).protection_epoch,
    {
        let ghost before = *self;
        self.last_error = None;
        self.tick = self.tick + 1;
        let ghost begun = *self;
        self.sweep_cancelled();
        proof {
            begun.lets_nothing_go(before);
            self.let_go_on(begun, before);
        }
    }

    /// The jobs of this advance's prefill step, with the requests they are for.
    fn plan_prefill(&mut self, events: &mut Vec<SchedEvent>) -> (plan: (
        Vec<usize>,
        Vec<PrefillJob>,
        Ghost<PrefillTrace<C, K>>,
    ))
        requires
            old(self).wf(),
            old(self).settled(),
        ensures
            final(self).ran_on(*old(self), old(events)@, final(events)@),
            final(self).protection_epoch == old(self).protection_epoch,
            final(self).last_error == old(self).last_error,
            final(self).none_ended(*old(self)),
            final(self).batch_ready(plan.0@, 0),
            final(self).settled_but(plan.0@, 0),
            plan.1@.len() == plan.0@.len(),
            forall|n: int|
                0 <= n < plan.0@.len() ==> job_fits(
                    #[trigger] plan.1@[n],
                    final(self).requests@[plan.0@[n] as int],
                ),
            plan.2@.batch == plan.0@,
            plan.2@.jobs == plan.1,
            plan.2@.planned == *final(self),
            plan.2@.answer is None,
            plan.2@.told == final(events)@,
            plan.2@.selected.selects(*old(self), plan.0@, old(events)@, plan.2@.told_selected),
            plan.2@.selected.ran_on(*old(self), old(events)@, plan.2@.told_selected),
            took_up(old(events)@, plan.2@.told_selected),
            grew(plan.2@.told_selected, final(events)@),
            spared(old(self).requests@, old(events)@, plan.2@.told_selected),
            spared(old(self).requests@, plan.2@.told_selected, final(events)@),
            plan.2@.planned.only_retention_moved(plan.2@.selected),
            plan.2@.plans.len() == plan.0@.len(),
            plan.2@.planned.slots_taken(
                plan.2@.selected,
                plan.0@,
                plan.2@.plans,
                plan.0@.len() as int,
                plan.2@.told_selected,
                final(events)@,
            ),
            forall|n: int|
                0 <= n < plan.0@.len() ==> plan.2@.selected.settles_wish(
                    plan.0@,
                    n,
                    #[trigger] plan.2@.plans[n],
                ),
            forall|n: int|
                0 <= n < plan.0@.len() ==> is_prefill_job(
                    #[trigger] plan.1@[n],
                    final(self).requests@[plan.0@[n] as int],
                    final(self).config,
                    plan.2@.plans[n],
                ),
    {
        let ghost before = *self;
        let ghost first_events = events@;
        let batch = self.select_batch(events);
        let ghost selected = *self;
        let ghost until = events@;
        let plans = self.plan_chunks(&batch, events);
        proof {
            selected.done_carry(before);
            spared_on(before.requests@, selected.requests@, until, until, events@);
            assert forall|k: int| 0 <= k < batch@.len() implies (#[trigger] batch@[k])
                < self.requests@.len() && sendable(self.requests@[batch@[k] as int]) by {
                assert(sendable(selected.requests@[batch@[k] as int]));
            }
            assert forall|i: int| 0 <= i < before.requests@.len() implies carries_on(
                before.requests@[i],
                #[trigger] self.requests@[i],
            ) by {
                assert(carries_on(before.requests@[i], selected.requests@[i]));
            }
            assert forall|i: int|
                0 <= i < before.requests@.len() && (#[trigger] self.requests@[i]).state
                    != before.requests@[i].state implies is_told(
                first_events,
                events@,
                before.requests@[i].id,
                self.requests@[i].state,
            ) by {
                assert(self.requests@[i] == selected.requests@[i]);
                told_longer(
                    first_events,
                    first_events,
                    until,
                    events@,
                    before.requests@[i].id,
                    self.requests@[i].state,
                );
            }
        }
        let jobs = self.prefill_jobs(&batch, &plans);
        proof {
            assert forall|n: int| 0 <= n < batch@.len() implies job_fits(
                #[trigger] jobs@[n],
                self.requests@[batch@[n] as int],
            ) by {
                let r = self.requests@[batch@[n] as int];
                assert(sendable(r));
                assert(request_ok(r, self.config, self.prefix.entries@));
                assert(is_prefill_job(jobs@[n], r, self.config, plans@[n]));
                assert(lands_exactly(r, self.config, plans@[n]));
                chunk_is_bounded(r, self.config.serving_chunk_tokens);
            }
        }
        let ghost trace = PrefillTrace {
            selected,
            told_selected: until,
            planned: *self,
            batch: batch@,
            plans: plans@,
            jobs,
            told: events@,
            answer: None,
        };
        (batch, jobs, Ghost(trace))
    }

    /// Settle the prefill step the backend answered with `result`. Where it
    /// ran, every chunk landed. Where it failed, nothing did: no member is on
    /// the device, each may be tried again while it has attempts left, and the
    /// rest of the advance is skipped. Whether the advance goes on.
    pub fn settle_prefill(
        &mut self,
        batch: &Vec<usize>,
        jobs: &Vec<PrefillJob>,
        result: Result<Vec<PrefillOutcome>, ComputeError>,
        events: &mut Vec<SchedEvent>,
    ) -> (go_on: bool)
        requires
            old(self).wf(),
            old(self).batch_ready(batch@, 0),
            old(self).settled_but(batch@, 0),
            jobs@.len() == batch@.len(),
            forall|n: int|
                0 <= n < batch@.len() ==> job_fits(
                    #[trigger] jobs@[n],
                    old(self).requests@[batch@[n] as int],
                ),
        ensures
            final(self).ran_on(*old(self), old(events)@, final(events)@),
            final(self).settled(),
            final(self).protection_epoch == old(self).protection_epoch,
            go_on == result is Ok,
            final(self).prefill_settled(
                *old(self),
                batch@,
                jobs@,
                result,
                old(events)@,
                final(events)@,
            ),
    {
        let ghost before = *self;
        reveal(ConcreteScheduler::prefill_settled);
        match result {
            Ok(outcomes) => {
                self.land_batch(batch, jobs, outcomes, events);
                proof {
                    assert forall|i: int|
                        0 <= i < before.requests@.len() && (#[trigger] self.requests@[i]).state
                            == RequestState::Done implies before.requests@[i].state
                        == RequestState::Done by {
                        if batch@.contains(i as usize) {
                            assert(self.requests@.len() == self.requests.len());
                            let k = choose|k: int| 0 <= k < batch@.len() && batch@[k] == i as usize;
                            assert(chunk_arrived(
                                before.requests@[batch@[k] as int],
                                jobs@[k],
                                outcome_of(outcomes@, k),
                                self.requests@[batch@[k] as int],
                            ));
                        }
                    }
                }
                true
            },
            Err(error) => {
                self.fail_batch(batch, jobs, error, events);
                false
            },
        }
    }

    /// Complete every decision whose prompt is prefilled.
    fn make_decisions(&mut self, events: &mut Vec<SchedEvent>)
        requires
            old(self).wf(),
            old(self).settled(),
        ensures
            final(self).ran_on(*old(self), old(events)@, final(events)@),
            final(self).settled(),
            final(self).protection_epoch == old(self).protection_epoch,
            final(self).decisions_made(*old(self), old(events)@, final(events)@),
    {
        self.finish_decided(events);
        reveal(ConcreteScheduler::decisions_made);
    }

    /// Bring back who can come back; everyone stays who they were.
    fn bring_back(&mut self, events: &mut Vec<SchedEvent>)
        requires
            old(self).wf(),
            old(self).settled(),
        ensures
            final(self).ran_on(*old(self), old(events)@, final(events)@),
            final(self).settled(),
            final(self).protection_epoch == old(self).protection_epoch,
            final(self).last_error == old(self).last_error,
            final(self).brought_back(*old(self), old(events)@, final(events)@),
    {
        let ghost before = *self;
        self.restore_pass(events);
        proof {
            reveal(ConcreteScheduler::brought_back);
            assert forall|i: int| 0 <= i < before.requests@.len() implies carries_on(
                before.requests@[i],
                #[trigger] self.requests@[i],
            ) && (self.requests@[i].state == RequestState::Done ==> before.requests@[i].state
                == RequestState::Done) by {
                assert(self.requests@[i] == before.requests@[i] || came_back(
                    before.requests@[i],
                    self.requests@[i],
                    before.config,
                ));
            }
        }
    }

    /// Deal lanes; everyone stays who they were.
    fn deal(&mut self, events: &mut Vec<SchedEvent>) -> (queue: Ghost<Seq<usize>>)
        requires
            old(self).wf(),
            old(self).settled(),
            old(self).protection_epoch <= old(self).tick,
            old(self).protection_epoch < u64::MAX,
        ensures
            final(self).ran_on(*old(self), old(events)@, final(events)@),
            final(self).settled(),
            final(self).last_error == old(self).last_error,
            is_lane_queue(old(self).requests@, queue@),
            final(self).dealt(*old(self), queue@, old(events)@, final(events)@),
    {
        let ghost before = *self;
        let ghost first_events = events@;
        self.run_admission(events);
        let ghost queue: Seq<usize>;
        proof {
            queue = choose|queue: Seq<usize>| #[trigger]
                is_lane_queue(before.requests@, queue) && self.dealt(
                    before,
                    queue,
                    first_events,
                    events@,
                );
            assert(self.requests@.len() == self.requests.len());
            assert(before.requests@.len() == before.requests.len());
            lane_queue_is_queued(before.requests@, queue);
            self.dealing_carries(before, queue, first_events, events@);
        }
        Ghost(queue)
    }

    proof fn dealing_carries(
        self,
        before: Self,
        queue: Seq<usize>,
        first: Seq<SchedEvent>,
        last: Seq<SchedEvent>,
    )
        requires
            self.dealt(before, queue, first, last),
            before.wf(),
            before.requests@.len() <= usize::MAX,
            forall|k: int|
                0 <= k < queue.len() ==> (#[trigger] queue[k]) < before.requests@.len()
                    && crate::deal::queued(before.requests@[queue[k] as int]),
        ensures
            self.carried(before),
            self.none_ended(before),
            self.protection_epoch >= before.protection_epoch,
            self.last_error == before.last_error,
    {
        reveal(ConcreteScheduler::dealt);
        if queue.len() > 0 && before.free_lanes@.len() > 0 {
            let n = choose|n: int| #[trigger]
                self.dealt_in_order(before, queue, n) && (n == queue.len() || n
                    == before.free_lanes@.len());
            let front = queue.take(n);
            assert forall|i: int| 0 <= i < before.requests@.len() implies carries_on(
                before.requests@[i],
                #[trigger] self.requests@[i],
            ) && (self.requests@[i].state == RequestState::Done ==> before.requests@[i].state
                == RequestState::Done) by {
                if front.contains(i as usize) {
                    let k = choose|k: int| 0 <= k < front.len() && front[k] == i as usize;
                    assert(queue[k] == i as usize);
                    assert(crate::deal::queued(before.requests@[queue[k] as int]));
                } else {
                    assert(self.requests@[i] == before.requests@[i]);
                }
            }
        } else if queue.len() > 0 {
            let head = queue[0] as int;
            assert(crate::deal::queued(before.requests@[queue[0] as int]));
            assert forall|i: int| 0 <= i < before.requests@.len() implies carries_on(
                before.requests@[i],
                #[trigger] self.requests@[i],
            ) && (self.requests@[i].state == RequestState::Done ==> before.requests@[i].state
                == RequestState::Done) by {
                assert(request_ok(before.requests@[i], before.config, before.prefix.entries@));
            }
        }
    }

    /// The jobs of this advance's decode round, with the requests they are for,
    /// by lane. A lane whose budget is spent is completed instead.
    fn plan_decode(&mut self, events: &mut Vec<SchedEvent>) -> (plan: (
        Vec<usize>,
        Vec<DecodeJob>,
        Ghost<Seq<usize>>,
    ))
        requires
            old(self).wf(),
            old(self).settled(),
        ensures
            final(self).ran_on(*old(self), old(events)@, final(events)@),
            final(self).settled(),
            final(self).protection_epoch == old(self).protection_epoch,
            final(self).last_error == old(self).last_error,
            are_lanes(old(self).requests@, plan.2@),
            plan.0@ == with_budget(old(self).requests@, plan.2@, plan.2@.len() as int),
            final(self).budgets_ended(*old(self), plan.2@, old(events)@, final(events)@),
            all_running(final(self).requests@, plan.0@),
            forall|k: int|
                0 <= k < plan.0@.len() ==> final(self).requests@[(
                #[trigger] plan.0@[k]) as int].remaining_work > 0,
            plan.1@.len() == plan.0@.len(),
            forall|k: int|
                0 <= k < plan.0@.len() ==> is_decode_job(
                    #[trigger] plan.1@[k],
                    final(self).requests@[plan.0@[k] as int],
                ),
    {
        let lanes = self.running_lanes();
        let going = self.finish_spent(&lanes, events);
        let jobs = self.decode_jobs(&going);
        proof {
            reveal(ConcreteScheduler::budgets_ended);
        }
        (going, jobs, Ghost(lanes@))
    }

    /// Settle the decode round the backend answered with `result`. Where it
    /// ran, each lane took its part. Where it failed, every lane sent a round
    /// ends in an error.
    pub fn settle_decode(
        &mut self,
        going: &Vec<usize>,
        result: Result<Vec<DecodeOutcome>, ComputeError>,
        events: &mut Vec<SchedEvent>,
    )
        requires
            old(self).wf(),
            old(self).settled(),
            all_running(old(self).requests@, going@),
            forall|k: int|
                0 <= k < going@.len() ==> old(self).requests@[(
                #[trigger] going@[k]) as int].remaining_work > 0,
        ensures
            final(self).ran_on(*old(self), old(events)@, final(events)@),
            final(self).settled(),
            final(self).protection_epoch == old(self).protection_epoch,
            final(self).decode_settled(
                *old(self),
                going@,
                result,
                old(events)@,
                final(events)@,
            ),
    {
        reveal(ConcreteScheduler::decode_settled);
        match result {
            Ok(outcomes) => {
                self.land_rounds(going, &outcomes, events);
            },
            Err(error) => {
                self.fail_rounds(going, error, events);
            },
        }
    }

    /// Run at most one prefill step. Whether the advance goes on.
    fn prefill_phase(&mut self, events: &mut Vec<SchedEvent>) -> (done: (
        bool,
        Ghost<PrefillTrace<C, K>>,
    ))
        requires
            old(self).wf(),
            old(self).settled(),
        ensures
            final(self).ran_on(*old(self), old(events)@, final(events)@),
            final(self).settled(),
            final(self).protection_epoch == old(self).protection_epoch,
            done.1@.explains(*old(self), *final(self), old(events)@, final(events)@),
            done.0 == !(done.1@.answer matches Some(Err(_))),
    {
        let ghost before = *self;
        let ghost first_events = events@;
        let (batch, jobs, plan) = self.plan_prefill(events);
        if jobs.len() == 0 {
            proof {
                assert forall|i: int|
                    0 <= i < self.requests@.len() && (#[trigger] self.requests@[i]).state
                        == RequestState::Admitted implies !self.requests@[i].resident by {
                    assert(waits(self.requests@[i]));
                    assert(batch@.skip(0).len() == 0);
                }
            }
            reveal(PrefillTrace::explains);
            return (true, plan);
        }
        let ghost planned = *self;
        let ghost until = events@;
        let answer = self.compute.prefill_step(&jobs);
        let ghost trace = PrefillTrace { answer: Some(answer), ..plan@ };
        let go_on: bool = self.settle_prefill(&batch, &jobs, answer, events);
        proof {
            self.ran_on_on(planned, before, first_events, until, events@);
        }
        reveal(PrefillTrace::explains);
        (go_on, Ghost(trace))
    }

    /// Run at most one decode round.
    fn decode_phase(&mut self, events: &mut Vec<SchedEvent>) -> (trace: Ghost<DecodeTrace<C, K>>)
        requires
            old(self).wf(),
            old(self).settled(),
        ensures
            final(self).ran_on(*old(self), old(events)@, final(events)@),
            final(self).settled(),
            final(self).protection_epoch == old(self).protection_epoch,
            trace@.explains(*old(self), *final(self), old(events)@, final(events)@),
    {
        let ghost before = *self;
        let ghost first_events = events@;
        let (going, jobs, lanes) = self.plan_decode(events);
        let ghost spent = *self;
        let ghost until = events@;
        let ghost mut answer: Option<Result<Vec<DecodeOutcome>, ComputeError>> = None;
        if jobs.len() > 0 {
            let result = self.compute.decode_step(&jobs);
            proof {
                answer = Some(result);
            }
            self.settle_decode(&going, result, events);
            proof {
                self.ran_on_on(spent, before, first_events, until, events@);
            }
        }
        reveal(DecodeTrace::explains);
        Ghost(
            DecodeTrace { lanes: lanes@, spent, going: going@, jobs, told: until, answer },
        )
    }

    /// Deal lanes and decode, once the prefill step is settled.
    fn serve_lanes(&mut self, events: &mut Vec<SchedEvent>) -> (trace: Ghost<ServeTrace<C, K>>)
        requires
            old(self).wf(),
            old(self).settled(),
            old(self).protection_epoch <= old(self).tick,
            old(self).protection_epoch < u64::MAX,
        ensures
            final(self).ran_on(*old(self), old(events)@, final(events)@),
            final(self).settled(),
            trace@.explains(*old(self), *final(self), old(events)@, final(events)@),
    {
        let ghost start = *self;
        let ghost e0 = events@;
        self.make_decisions(events);
        let ghost decided = *self;
        let ghost e1 = events@;
        self.bring_back(events);
        let ghost back = *self;
        let ghost e2 = events@;
        let queue = self.deal(events);
        let ghost dealt = *self;
        let ghost e3 = events@;
        let decode = self.decode_phase(events);
        let ghost decoded = *self;
        let ghost e4 = events@;
        self.bring_back(events);
        let ghost trace = ServeTrace {
            decided,
            told_decided: e1,
            back,
            told_back: e2,
            queue: queue@,
            dealt,
            told_dealt: e3,
            decode: decode@,
            decoded,
            told_decoded: e4,
        };
        proof {
            reveal(ServeTrace::explains);
            back.ran_on_on(decided, start, e0, e1, e2);
            dealt.ran_on_on(back, start, e0, e2, e3);
            decoded.ran_on_on(dealt, start, e0, e3, e4);
            self.ran_on_on(decoded, start, e0, e4, events@);
        }
        Ghost(trace)
    }

    /// One advance. Whoever was cancelled is let go and sent nothing more; at
    /// most one prefill step is run, and where it fails the advance ends there;
    /// otherwise suspended requests come back, lanes are dealt and every
    /// running lane decodes a round.
    pub fn advance(&mut self) -> (events: Vec<SchedEvent>)
        requires
            old(self).wf(),
            old(self).settled(),
            old(self).tick < u64::MAX - 1,
        ensures
            final(self).wf(),
            final(self).settled(),
            final(self).tick == old(self).tick + 1,
            final(self).config == old(self).config,
            final(self).compute == old(self).compute,
            final(self).clock == old(self).clock,
            final(self).capacity == old(self).capacity,
            final(self).next_id == old(self).next_id,
            final(self).requests@.len() == old(self).requests@.len(),
            forall|i: int|
                0 <= i < old(self).requests@.len() ==> advanced(
                    old(self).requests@[i],
                    #[trigger] final(self).requests@[i],
                ),
            // Whoever was not cancelled and is in another state now is reported.
            forall|i: int|
                0 <= i < old(self).requests@.len() && (#[trigger] final(self).requests@[i]).state
                    != old(self).requests@[i].state && !old(self).requests@[i].cancelled
                    ==> is_told(
                    Seq::empty(),
                    events@,
                    old(self).requests@[i].id,
                    final(self).requests@[i].state,
                ),
            final(self).reported_slots == final(self).retained.used(),
            // What it went through.
            exists|trace: AdvanceTrace<C, K>| #[trigger]
                trace.explains(*old(self), *final(self), events@),
    {
        let ghost before = *self;
        let mut events: Vec<SchedEvent> = Vec::new();
        let ghost none = events@;
        self.begin_advance();
        let ghost begun = *self;
        let (go_on, prefill) = self.prefill_phase(&mut events);
        let ghost prefilled = *self;
        let ghost until = events@;
        let ghost mut serve: Option<ServeTrace<C, K>> = None;
        if go_on {
            let served = self.serve_lanes(&mut events);
            proof {
                serve = Some(served@);
                self.ran_on_on(prefilled, begun, none, until, events@);
            }
        }
        let ghost served = *self;
        let ghost told = events@;
        self.report_retained_slots(&mut events);
        proof {
            let trace = AdvanceTrace {
                begun,
                prefill: prefill@,
                settled: prefilled,
                told_settled: until,
                serve,
                served,
                told_served: told,
            };
            assert(none =~= Seq::empty());
            assert(trace.explains(before, *self, events@));
            self.slots_reported(served);
            assert forall|i: int| 0 <= i < before.requests@.len() implies advanced(
                before.requests@[i],
                #[trigger] self.requests@[i],
            ) by {
                assert(carries_on(begun.requests@[i], self.requests@[i]));
            }
            assert forall|i: int|
                0 <= i < before.requests@.len() && (#[trigger] self.requests@[i]).state
                    != before.requests@[i].state && !before.requests@[i].cancelled implies is_told(
                Seq::empty(),
                events@,
                before.requests@[i].id,
                self.requests@[i].state,
            ) by {
                assert(begun.requests@[i] == before.requests@[i]);
                told_longer(
                    Seq::empty(),
                    none,
                    told,
                    events@,
                    before.requests@[i].id,
                    self.requests@[i].state,
                );
            }
        }
        events
    }

    /// The count last reported is no part of the invariant.
    proof fn slots_reported(self, before: Self)
        requires
            before.wf(),
            before.settled(),
            self == (ConcreteScheduler { reported_slots: self.reported_slots, ..before }),
        ensures
            self.wf(),
            self.settled(),
    {
        assert forall|p: crate::types::PrefixId| #[trigger]
            self.prefix.refs(p) == crate::ledger::standing(self.requests@, p)
                + crate::ledger::holding(self.checkpoints.entries@, p) + crate::ledger::debt(
                Seq::empty(),
                p,
            ) by {
            assert(before.prefix.refs(p) == self.prefix.refs(p));
        }
    }
}

} // verus!
