//! What holds after any run of calls.

use crate::cancelled::{a_cancelled_request_is_not_named, names_not};
use crate::checkpoint::{
    attempts, holds_id, retain_left, was_claimed, CheckpointCapture, CheckpointId, CheckpointPool,
    RetainRefused, Retained,
};
use crate::concrete::ConcreteScheduler;
use crate::lifecycle::{was_cancelled, was_submitted};
use crate::reuse::lives;
use crate::scheduler::{Clock, Compute};
use crate::serving::{
    a_cancelled_request_is_sent_nothing, ids_tell_apart, the_last_error_is_this_advances,
    AdvanceTrace,
};
use crate::types::{
    ComputeError, RequestClass, RequestId, RequestInput, RequestState, SchedEvent,
};
use vstd::prelude::*;

verus! {

/// A call on a pool of checkpoints. A discard takes the entry at `at`, or finds
/// none to take.
pub enum PoolCall {
    Retain { capture: CheckpointCapture, use_tick: u64, result: Result<Retained, RetainRefused> },
    Claim { id: CheckpointId, use_tick: u64 },
    Discard { at: Option<int> },
}

impl PoolCall {
    /// The call leads from `before` to `after`.
    pub open spec fn leads(self, before: CheckpointPool, after: CheckpointPool) -> bool {
        match self {
            PoolCall::Retain { capture, use_tick, result } => retain_left(
                before,
                capture,
                use_tick,
                result,
                after,
            ),
            PoolCall::Claim { id, use_tick } => if holds_id(before.entries@, id) {
                was_claimed(before, id, use_tick, after)
            } else {
                after == before
            },
            PoolCall::Discard { at: Some(at) } => {
                &&& 0 <= at < before.entries@.len()
                &&& after.entries@ == before.entries@.remove(at)
                &&& after.counters == before.discarded(1)
            },
            PoolCall::Discard { at: None } => after == before,
        }
    }
}

/// How many of the first `n` calls were to retain something.
pub open spec fn retains(calls: Seq<PoolCall>, n: int) -> int
    decreases n,
{
    if n <= 0 {
        0
    } else {
        retains(calls, n - 1) + (if calls[n - 1] is Retain {
            1int
        } else {
            0
        })
    }
}

/// The pool went through `pools` by `calls`, and began with nothing counted.
pub open spec fn is_pool_run(pools: Seq<CheckpointPool>, calls: Seq<PoolCall>) -> bool {
    &&& pools.len() == calls.len() + 1
    &&& pools[0].entries@.len() == 0
    &&& attempts(pools[0].counters) == 0
    &&& forall|k: int| 0 <= k < pools.len() ==> (#[trigger] pools[k]).wf()
    &&& forall|k: int| #![trigger calls[k]]
        0 <= k < calls.len() ==> calls[k].leads(pools[k], pools[k + 1])
}

/// After any run of retains, claims and discards, every call to retain was
/// counted once, as captured, skipped or refused, and what was captured is held
/// or was discarded.
pub proof fn every_retain_is_counted(pools: Seq<CheckpointPool>, calls: Seq<PoolCall>)
    requires
        is_pool_run(pools, calls),
        calls.len() <= u64::MAX,
    ensures
        attempts(pools.last().counters) == retains(calls, calls.len() as int),
        pools.last().counters.captures == pools.last().entries@.len()
            + pools.last().counters.discards,
{
    retains_are_counted(pools, calls, calls.len() as int);
}

proof fn retains_are_counted(pools: Seq<CheckpointPool>, calls: Seq<PoolCall>, n: int)
    requires
        is_pool_run(pools, calls),
        calls.len() <= u64::MAX,
        0 <= n <= calls.len(),
    ensures
        attempts(pools[n].counters) == retains(calls, n),
        retains(calls, n) <= n,
    decreases n,
{
    if n > 0 {
        retains_are_counted(pools, calls, n - 1);
        assert(calls[n - 1].leads(pools[n - 1], pools[n]));
    }
}

/// A call on the scheduler.
pub enum SchedulerCall<C: Compute, K: Clock> {
    Submit { input: RequestInput, class: RequestClass },
    Cancel { request: RequestId },
    Advance { trace: AdvanceTrace<C, K>, events: Seq<SchedEvent> },
}

impl<C: Compute, K: Clock> SchedulerCall<C, K> {
    /// The call leads from `before` to `after`.
    pub open spec fn leads(
        self,
        before: ConcreteScheduler<C, K>,
        after: ConcreteScheduler<C, K>,
    ) -> bool {
        match self {
            SchedulerCall::Submit { input, class } => match before.refusal(input) {
                Some(_) => after == before,
                None => was_submitted(before, input, class, after),
            },
            SchedulerCall::Cancel { request } => if lives(before.requests@, request) {
                was_cancelled(before, request, after)
            } else {
                after == before
            },
            SchedulerCall::Advance { trace, events } => trace.explains(before, after, events),
        }
    }
}

/// The scheduler went through `states` by `calls`, from one that was fresh.
pub open spec fn is_run<C: Compute, K: Clock>(
    states: Seq<ConcreteScheduler<C, K>>,
    calls: Seq<SchedulerCall<C, K>>,
) -> bool {
    &&& states.len() == calls.len() + 1
    &&& states[0].is_fresh()
    &&& forall|k: int| 0 <= k < states.len() ==> (#[trigger] states[k]).wf()
    &&& forall|k: int| #![trigger calls[k]]
        0 <= k < calls.len() ==> calls[k].leads(states[k], states[k + 1])
}

/// The error the latest advance among the first `n` calls hit: none where it
/// hit none, and none before the first.
pub open spec fn latest_error<C: Compute, K: Clock>(
    calls: Seq<SchedulerCall<C, K>>,
    n: int,
) -> Option<ComputeError>
    decreases n,
{
    if n <= 0 {
        None
    } else {
        match calls[n - 1] {
            SchedulerCall::Advance { trace, .. } => trace.error(),
            _ => latest_error(calls, n - 1),
        }
    }
}

/// After any run of submits, cancels and advances, the last error is the one
/// the latest advance hit.
pub proof fn the_last_error_is_the_latest_advances<C: Compute, K: Clock>(
    states: Seq<ConcreteScheduler<C, K>>,
    calls: Seq<SchedulerCall<C, K>>,
)
    requires
        is_run(states, calls),
    ensures
        states.last().last_error == latest_error(calls, calls.len() as int),
{
    errors_are_the_latest(states, calls, calls.len() as int);
}

proof fn errors_are_the_latest<C: Compute, K: Clock>(
    states: Seq<ConcreteScheduler<C, K>>,
    calls: Seq<SchedulerCall<C, K>>,
    n: int,
)
    requires
        is_run(states, calls),
        0 <= n <= calls.len(),
    ensures
        states[n].last_error == latest_error(calls, n),
    decreases n,
{
    if n > 0 {
        errors_are_the_latest(states, calls, n - 1);
        assert(calls[n - 1].leads(states[n - 1], states[n]));
        if let SchedulerCall::Advance { trace, events } = calls[n - 1] {
            the_last_error_is_this_advances(trace, states[n - 1], states[n], events);
        }
    }
}

/// A cancel of a request that is not done moves nothing but its mark: no
/// request changes its state, and nothing is freed. The next advance sends no
/// chunk and no round for it, reports nothing that names it, and leaves it
/// done.
pub proof fn a_cancel_is_heeded_by_the_next_advance<C: Compute, K: Clock>(
    states: Seq<ConcreteScheduler<C, K>>,
    calls: Seq<SchedulerCall<C, K>>,
    a: int,
    b: int,
    i: int,
)
    requires
        is_run(states, calls),
        0 <= a < b < calls.len(),
        0 <= i < states[a].requests@.len(),
        states[a].requests@[i].state != RequestState::Done,
        calls[a] == (SchedulerCall::<C, K>::Cancel { request: states[a].requests@[i].id }),
        forall|k: int| a < k < b ==> !((#[trigger] calls[k]) is Advance),
        calls[b] is Advance,
    ensures
        states[a + 1] == (ConcreteScheduler { requests: states[a + 1].requests, ..states[a] }),
        states[a + 1].requests@.len() == states[a].requests@.len(),
        forall|j: int|
            0 <= j < states[a].requests@.len() ==> (#[trigger] states[a + 1].requests@[j]).state
                == states[a].requests@[j].state,
        calls[b] matches SchedulerCall::Advance { trace, events } ==> {
            &&& names_not(events, states[a].requests@[i].id)
            &&& forall|n: int|
                0 <= n < trace.prefill.jobs@.len() ==> (#[trigger] trace.prefill.jobs@[n]).request
                    != states[a].requests@[i].id
            &&& trace.serve matches Some(serve) ==> forall|n: int|
                0 <= n < serve.decode.jobs@.len() ==> (#[trigger] serve.decode.jobs@[n]).request
                    != states[a].requests@[i].id
        },
        states[b + 1].requests@[i].state == RequestState::Done,
{
    let request = states[a].requests@[i].id;
    assert(lives(states[a].requests@, request));
    assert(calls[a].leads(states[a], states[a + 1]));
    assert(was_cancelled(states[a], request, states[a + 1]));
    let at = choose|at: int|
        0 <= at < states[a].requests@.len() && (#[trigger] states[a].requests@[at]).id == request
            && states[a].requests@[at].state != RequestState::Done && states[a + 1] == (
        ConcreteScheduler { requests: states[a + 1].requests, ..states[a] })
            && states[a + 1].requests@ == states[a].requests@.update(
            at,
            crate::request::Request { cancelled: true, ..states[a].requests@[at] },
        );
    if at != i {
        assert(states[a].wf());
        ids_tell_apart(states[a].requests@, states[a].next_id, at, i);
    }
    marked_until(states, calls, a + 1, b, i);
    assert(calls[b].leads(states[b], states[b + 1]));
    if let SchedulerCall::Advance { trace, events } = calls[b] {
        a_cancelled_request_is_sent_nothing(trace, states[b], states[b + 1], events, i);
        a_cancelled_request_is_not_named(trace, states[b], states[b + 1], events, i);
    }
}

/// A mark stays until an advance.
proof fn marked_until<C: Compute, K: Clock>(
    states: Seq<ConcreteScheduler<C, K>>,
    calls: Seq<SchedulerCall<C, K>>,
    a: int,
    n: int,
    i: int,
)
    requires
        is_run(states, calls),
        0 <= a <= n < states.len(),
        0 <= i < states[a].requests@.len(),
        states[a].requests@[i].cancelled,
        forall|k: int| a <= k < n ==> !((#[trigger] calls[k]) is Advance),
    ensures
        i < states[n].requests@.len(),
        states[n].requests@[i].cancelled,
        states[n].requests@[i].id == states[a].requests@[i].id,
    decreases n,
{
    if n > a {
        marked_until(states, calls, a, n - 1, i);
        assert(calls[n - 1].leads(states[n - 1], states[n]));
        let before = states[n - 1].requests@;
        if let SchedulerCall::Submit { input, class } = calls[n - 1] {
            if states[n - 1].refusal(input) is None {
                assert(states[n].requests@.drop_last()[i] == before[i]);
            }
        }
    }
}

} // verus!
