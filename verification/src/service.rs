//! What the steps of an advance owe the requests they serve, and what they
//! count.

use crate::chunks::{capture_plan, head_of, is_kept, is_prefill_job, publish_plan, ChunkPlan};
use crate::checkpoint::{CheckpointCapture, CheckpointPool, ReuseSource};
use crate::concrete::ConcreteScheduler;
use crate::constrained::Draw;
use crate::deal::{queued, service_keys};
use crate::eviction::{is_requeued, suspended_request};
use crate::identity::{content_key, one_token_tells_content_apart};
use crate::landing::{attempt_failed, is_last_attempt};
use crate::ledger::{
    charged, flight_charge, flying, lane_charge, laned, page_charge, residents, slot_charge,
    standing, stands_on, tally,
};
use crate::lifecycle::{done_event, ended_request};
use crate::order::{is_service_order, picks, precedes};
use crate::plan::{reserved, SchedulerConfig};
use crate::prefill::{is_prefill_queue, waiting_in};
use crate::request::Request;
use crate::reuse::{is_capture_of, own_keys};
use crate::rounds::{
    a_round_never_overruns, are_lanes, decision_reason, draws_of, has_decided, is_decode_job,
    lane_keys, round_end, round_landed, running_in, spent_reason, taken_of, token_events,
    with_budget,
};
use crate::scheduler::{Clock, Compute, DecodeJob, DecodeOutcome, PrefillJob};
use crate::types::{
    DecisionRead, FinishReason, PrefixId, RequestClass, RequestState, SchedEvent, TokenId,
};
use vstd::prelude::*;

verus! {

/// A request takes a round's tokens in order: what it takes is spent from its
/// budget and added to what it has, it never takes more than its budget or than
/// came, it takes none past the one that ends its run, and it leaves none that
/// it could have taken. Who it is and where it stands otherwise do not change.
pub proof fn a_round_is_spent_from_the_budget(
    r: Request,
    outcome: DecodeOutcome,
    after: Request,
)
    requires
        round_landed(r, outcome, after),
        r.remaining_work > 0,
        r.tokens + r.remaining_work <= u32::MAX,
    ensures
        after.tokens + after.remaining_work == r.tokens + r.remaining_work,
        r.tokens <= after.tokens <= r.tokens + outcome.tokens@.len(),
        ({
            let n = after.tokens - r.tokens;
            &&& r.input.constrained matches Some(schedule) ==> forall|k: int|
                0 <= k < n - 1 ==> schedule.terminator != Some(#[trigger] outcome.tokens@[k])
            &&& n < outcome.tokens@.len() && after.remaining_work > 0 ==> n > 0 && (
            r.input.constrained matches Some(schedule) && schedule.terminator == Some(
                outcome.tokens@[n - 1],
            ))
            &&& r.input.constrained is None && outcome.tokens@.len() <= r.remaining_work ==> n
                == outcome.tokens@.len()
            &&& r.input.constrained is None && outcome.tokens@.len() >= r.remaining_work ==> n
                == r.remaining_work
        }),
        after.id == r.id,
        after.input == r.input,
        after.state == r.state,
        after.lane == r.lane,
        after.resources == r.resources,
        after.prefill_progress == r.prefill_progress,
        after.prefix_entry == r.prefix_entry,
{
    a_round_never_overruns(r, outcome.tokens@, 0);
    let n = taken_of(r, outcome.tokens@, 0);
    assert(n == after.tokens - r.tokens);
    if let Some(schedule) = r.input.constrained {
        assert forall|k: int| 0 <= k < n - 1 implies schedule.terminator != Some(
            #[trigger] outcome.tokens@[k],
        ) by {
            assert(!crate::rounds::ends_run(r, outcome.tokens@[k]));
        }
    }
}

/// Each token taken is recorded with its own probability, in order, as far as
/// probabilities came; and each is reported, in order, for the request that took
/// it.
pub proof fn a_round_is_recorded_and_reported_in_order(
    r: Request,
    outcome: DecodeOutcome,
    after: Request,
    k: int,
)
    requires
        round_landed(r, outcome, after),
        r.remaining_work > 0,
        r.tokens + r.remaining_work <= u32::MAX,
        0 <= k < after.tokens - r.tokens,
    ensures
        ({
            let n = after.tokens - r.tokens;
            let told = token_events(r.id, outcome.tokens@, n);
            &&& told.len() == n
            &&& told[k] == (SchedEvent::Token { request: r.id, token: outcome.tokens@[k] })
            &&& k < outcome.probability_bits@.len() ==> after.drawn@[r.drawn@.len() + k] == (Draw {
                token: outcome.tokens@[k],
                probability_bits: outcome.probability_bits@[k],
            })
            &&& after.drawn@.len() == r.drawn@.len() + (if n < outcome.probability_bits@.len() {
                n
            } else {
                outcome.probability_bits@.len() as int
            })
            &&& after.drawn@.take(r.drawn@.len() as int) == r.drawn@
        }),
{
    a_round_never_overruns(r, outcome.tokens@, 0);
    let n = taken_of(r, outcome.tokens@, 0);
    assert(n == after.tokens - r.tokens);
    draws_stand(outcome.tokens@, outcome.probability_bits@, n);
    assert(after.drawn@.take(r.drawn@.len() as int) =~= r.drawn@);
}

proof fn draws_stand(tokens: Seq<TokenId>, bits: Seq<u32>, n: int)
    requires
        0 <= n <= tokens.len(),
    ensures
        draws_of(tokens, bits, n).len() == (if n < bits.len() {
            n
        } else {
            bits.len() as int
        }),
        forall|k: int|
            0 <= k < n && k < bits.len() ==> #[trigger] draws_of(tokens, bits, n)[k] == (Draw {
                token: tokens[k],
                probability_bits: bits[k],
            }),
    decreases n,
{
    if n > 0 {
        draws_stand(tokens, bits, n - 1);
        let (before, now) = (draws_of(tokens, bits, n - 1), draws_of(tokens, bits, n));
        assert forall|k: int| 0 <= k < n && k < bits.len() implies #[trigger] now[k] == (Draw {
            token: tokens[k],
            probability_bits: bits[k],
        }) by {
            if k < n - 1 {
                assert(now[k] == before[k]);
            }
        }
    }
}

/// A request ends with a round that ran into its terminator, that the backend
/// ended with the last token it took, or that spent its budget, for that reason
/// in that order; and with no other. A bound run that spent its budget came to
/// its end; any other was cut at its length.
pub proof fn a_round_ends_a_request_for_a_reason(
    r: Request,
    outcome: DecodeOutcome,
    after: Request,
)
    requires
        round_landed(r, outcome, after),
        r.remaining_work > 0,
        r.tokens + r.remaining_work <= u32::MAX,
    ensures
        ({
            let n = after.tokens - r.tokens;
            let end = round_end(r, outcome);
            let stopped = n > 0 && (r.input.constrained matches Some(schedule)
                && schedule.terminator == Some(outcome.tokens@[n - 1]));
            let told = n == outcome.tokens@.len() && outcome.finish is Some;
            &&& stopped ==> end == Some(FinishReason::Stop)
            &&& !stopped && told ==> end == outcome.finish
            &&& !stopped && !told && after.remaining_work == 0 ==> end == Some(
                if r.input.constrained is Some {
                    FinishReason::Stop
                } else {
                    FinishReason::Length
                },
            )
            &&& !stopped && !told && after.remaining_work > 0 ==> end is None
            &&& after.remaining_work == 0 ==> end is Some
        }),
{
    a_round_never_overruns(r, outcome.tokens@, 0);
}

/// A request whose budget is spent was cut at its length, but for a bound run,
/// which came to its end. A decision is answered where what it asked for came
/// back, and failed where it did not.
pub proof fn an_end_has_its_reason(r: Request)
    ensures
        r.input.constrained is None ==> spent_reason(r) == FinishReason::Length,
        r.input.constrained is Some ==> spent_reason(r) == FinishReason::Stop,
        r.input.decision matches Some(DecisionRead::Answers(_)) ==> decision_reason(r) == (
        if r.readout is Some {
            FinishReason::Stop
        } else {
            FinishReason::Error
        }),
        r.input.decision matches Some(DecisionRead::Attention(_)) ==> decision_reason(r) == (
        if r.attention is Some {
            FinishReason::Stop
        } else {
            FinishReason::Error
        }),
        has_decided(r) <==> r.input.decision is Some && r.state == RequestState::Prefilling
            && r.prefill_progress >= r.input.tokens@.len(),
{
}

/// A round is asked for of its own request, on its own lane, for as much as it
/// may still generate, under its own sampling; a bound run draws from the set of
/// the step after those already out, of which the prefill drew the first.
pub proof fn a_round_is_asked_for_as_the_request_asked(job: DecodeJob, r: Request)
    requires
        is_decode_job(job, r),
    ensures
        job.request == r.id,
        r.lane == Some(job.lane),
        job.params == r.input.params,
        job.remaining_tokens == r.remaining_work,
        r.input.constrained is None ==> job.permitted is None,
        r.input.constrained matches Some(schedule) ==> match job.permitted {
            Some(set) => r.tokens + 1 < schedule.steps@.len() && set@ == schedule.steps@[r.tokens
                + 1]@,
            None => r.tokens + 1 >= schedule.steps@.len(),
        },
{
}

proof fn running_are_listed(reqs: Seq<Request>, n: int, i: int)
    requires
        0 <= i < n <= reqs.len(),
        reqs.len() <= usize::MAX,
    ensures
        reqs[i].state == RequestState::Running ==> running_in(reqs, n).contains(i as usize),
    decreases n,
{
    let (before, now) = (running_in(reqs, n - 1), running_in(reqs, n));
    if reqs[i].state == RequestState::Running {
        if i == n - 1 {
            assert(now[before.len() as int] == i as usize);
        } else {
            running_are_listed(reqs, n - 1, i);
            let k = choose|k: int| 0 <= k < before.len() && before[k] == i as usize;
            assert(now[k] == i as usize);
        }
    }
}

/// Every running request is among the lanes a round is sent on.
pub proof fn running_is_among_lanes(reqs: Seq<Request>, lanes: Seq<usize>, i: int)
    requires
        are_lanes(reqs, lanes),
        reqs.len() <= usize::MAX,
        0 <= i < reqs.len(),
        reqs[i].state == RequestState::Running,
    ensures
        lanes.contains(i as usize),
{
    let items = running_in(reqs, reqs.len() as int);
    let keys = lane_keys(reqs, items);
    running_are_listed(reqs, reqs.len() as int, i);
    let order = choose|order: Seq<usize>|
        is_service_order(keys, order) && #[trigger] picks(items, order, lanes);
    let k = choose|k: int| 0 <= k < items.len() && items[k] == i as usize;
    running_are_few(reqs, reqs.len() as int);
    listed_is_ordered(keys, order, k);
    let m = choose|m: int| 0 <= m < order.len() && #[trigger] order[m] as int == k;
    assert(lanes[m] == items[k]);
}

/// The lanes a round is sent on stand in their own order.
pub proof fn rounds_go_by_lane(reqs: Seq<Request>, lanes: Seq<usize>, a: int, b: int)
    requires
        are_lanes(reqs, lanes),
        0 <= a < b < lanes.len(),
    ensures
        reqs[lanes[a] as int].lane matches Some(x) ==> (reqs[lanes[b] as int].lane matches Some(y)
            ==> x <= y),
{
    let items = running_in(reqs, reqs.len() as int);
    let keys = lane_keys(reqs, items);
    let order = choose|order: Seq<usize>|
        is_service_order(keys, order) && #[trigger] picks(items, order, lanes);
    assert(precedes(keys, order[a] as int, order[b] as int));
    assert(lanes[a] == items[order[a] as int]);
    assert(lanes[b] == items[order[b] as int]);
}

proof fn listed_is_ordered(keys: Seq<(u64, u64)>, order: Seq<usize>, k: int)
    requires
        is_service_order(keys, order),
        keys.len() <= usize::MAX,
        0 <= k < keys.len(),
    ensures
        exists|m: int| 0 <= m < order.len() && #[trigger] order[m] as int == k,
{
    assert(order.contains(k as usize));
    let m = choose|m: int| 0 <= m < order.len() && order[m] == k as usize;
    assert(order[m] as int == k);
}

proof fn running_are_few(reqs: Seq<Request>, n: int)
    requires
        0 <= n,
    ensures
        running_in(reqs, n).len() <= n,
    decreases n,
{
    if n > 0 {
        running_are_few(reqs, n - 1);
    }
}

/// A round goes on for those of the lanes that may still generate, and for no
/// other.
pub proof fn only_who_may_generate_goes_on(reqs: Seq<Request>, lanes: Seq<usize>, n: int, k: int)
    requires
        0 <= k < n <= lanes.len(),
    ensures
        reqs[lanes[k] as int].remaining_work > 0 ==> with_budget(reqs, lanes, n).contains(lanes[k]),
        forall|m: int|
            0 <= m < with_budget(reqs, lanes, n).len() ==> reqs[(#[trigger] with_budget(
                reqs,
                lanes,
                n,
            )[m]) as int].remaining_work > 0,
    decreases n,
{
    let (before, now) = (with_budget(reqs, lanes, n - 1), with_budget(reqs, lanes, n));
    if n > 1 {
        let j = if k < n - 1 {
            k
        } else {
            0
        };
        only_who_may_generate_goes_on(reqs, lanes, n - 1, j);
    } else {
        assert(before =~= Seq::empty());
    }
    assert forall|m: int| 0 <= m < now.len() implies reqs[(
    #[trigger] now[m]) as int].remaining_work > 0 by {
        if m < before.len() {
            assert(now[m] == before[m]);
        }
    }
    if reqs[lanes[k] as int].remaining_work > 0 {
        if k == n - 1 {
            assert(now[before.len() as int] == lanes[k]);
        } else {
            let m = choose|m: int| 0 <= m < before.len() && before[m] == lanes[k];
            assert(now[m] == lanes[k]);
        }
    }
}

proof fn waiting_are_listed(reqs: Seq<Request>, n: int, i: int)
    requires
        0 <= i < n <= reqs.len(),
        reqs.len() <= usize::MAX,
    ensures
        reqs[i].state == RequestState::Admitted ==> waiting_in(reqs, n).contains(i as usize),
        waiting_in(reqs, n).len() <= n,
        forall|k: int|
            0 <= k < waiting_in(reqs, n).len() ==> (#[trigger] waiting_in(reqs, n)[k]) < n,
    decreases n,
{
    let (before, now) = (waiting_in(reqs, n - 1), waiting_in(reqs, n));
    if n > 1 {
        let j = if i < n - 1 {
            i
        } else {
            0
        };
        waiting_are_listed(reqs, n - 1, j);
    } else {
        assert(before =~= Seq::empty());
    }
    if reqs[i].state == RequestState::Admitted {
        if i == n - 1 {
            assert(now[before.len() as int] == i as usize);
        } else {
            let k = choose|k: int| 0 <= k < before.len() && before[k] == i as usize;
            assert(now[k] == i as usize);
        }
    }
    assert forall|k: int| 0 <= k < now.len() implies (#[trigger] now[k]) < n by {
        if k < before.len() {
            assert(now[k] == before[k]);
        }
    }
}

/// Whoever waits for a first chunk is in the queue for it, and the queue is
/// served Interactive requests first and the older of a class first.
pub proof fn the_prefill_queue_is_served_by_class_and_age(
    reqs: Seq<Request>,
    queue: Seq<usize>,
    i: int,
    a: int,
    b: int,
)
    requires
        is_prefill_queue(reqs, queue),
        reqs.len() <= usize::MAX,
        0 <= i < reqs.len(),
        reqs[i].state == RequestState::Admitted,
        0 <= a < b < queue.len(),
    ensures
        queue.contains(i as usize),
        reqs[queue[a] as int].class == RequestClass::Agent ==> reqs[queue[b] as int].class
            == RequestClass::Agent,
        reqs[queue[a] as int].class == reqs[queue[b] as int].class ==> reqs[queue[a] as int].id
            <= reqs[queue[b] as int].id,
{
    let items = waiting_in(reqs, reqs.len() as int);
    let keys = service_keys(reqs, items);
    waiting_are_listed(reqs, reqs.len() as int, i);
    let order = choose|order: Seq<usize>|
        is_service_order(keys, order) && #[trigger] picks(items, order, queue);
    let k = choose|k: int| 0 <= k < items.len() && items[k] == i as usize;
    listed_is_ordered(keys, order, k);
    let m = choose|m: int| 0 <= m < order.len() && #[trigger] order[m] as int == k;
    assert(queue[m] == items[k]);
    assert(precedes(keys, order[a] as int, order[b] as int));
    assert(queue[a] == items[order[a] as int]);
    assert(queue[b] == items[order[b] as int]);
}

/// A request is queued for a lane once its whole prompt is prefilled, and not
/// before.
pub proof fn only_the_prefilled_queue_for_a_lane(r: Request)
    ensures
        queued(r) <==> r.state == RequestState::Prefilling && r.prefill_progress
            >= r.input.tokens@.len(),
{
}

/// A request that lost its place begins again: it has generated nothing, has all
/// it may generate before it, holds nothing, is charged what a fresh one is, and
/// is still the request it was.
pub proof fn a_requeued_request_begins_again(
    before: Request,
    after: Request,
    config: SchedulerConfig,
)
    requires
        is_requeued(before, after, config),
        config.kv_page_tokens > 0,
        before.input.tokens@.len() + crate::plan::budget(config, before.input) <= u32::MAX,
    ensures
        after.state == RequestState::Admitted,
        after.id == before.id,
        after.class == before.class,
        after.input == before.input,
        after.cancelled == before.cancelled,
        after.tokens == 0,
        after.prefill_progress == 0,
        after.drawn@.len() == 0,
        after.lane is None,
        !after.resident,
        after.prefix_entry is None,
        after.checkpoint_entry is None,
        after.shared_pages == 0,
        after.readout is None,
        after.attention is None,
        after.gdn@.position == 0,
        before.input.decision is None && before.input.constrained is None ==> (
        before.input.params.max_tokens matches Some(asked) ==> after.remaining_work == asked),
        before.input.decision is None && before.input.constrained is None
            && before.input.params.max_tokens is None && before.input.tokens@.len()
            <= config.max_sequence_tokens ==> before.input.tokens@.len() + after.remaining_work
            == config.max_sequence_tokens,
        after.resources.kv_pages * config.kv_page_tokens >= before.input.tokens@.len()
            + after.remaining_work,
        (after.resources.kv_pages - 1) * config.kv_page_tokens < before.input.tokens@.len()
            + after.remaining_work,
{
    let whole = reserved(config, before.input);
    crate::plan::pages_hold_and_no_fewer_would(whole, config.kv_page_tokens);
    crate::plan::pages_for_fits(whole, config.kv_page_tokens);
}

/// Suspending a request keeps what it has generated, what it may still generate
/// and how far its prompt is; and one that resumes is where it stopped.
pub proof fn a_suspended_request_keeps_its_place(r: Request, config: SchedulerConfig)
    ensures
        ({
            let off = suspended_request(r, config);
            &&& off.state == RequestState::Evicted
            &&& off.lane is None
            &&& !off.resident
            &&& off.prefix_entry is None
            &&& off.id == r.id
            &&& off.class == r.class
            &&& off.input == r.input
            &&& off.tokens == r.tokens
            &&& off.remaining_work == r.remaining_work
            &&& off.prefill_progress == r.prefill_progress
            &&& off.gdn == r.gdn
            &&& off.drawn == r.drawn
            &&& off.readout == r.readout
            &&& off.cancelled == r.cancelled
            &&& r.prefix_entry is None ==> off.resources == r.resources
        }),
{
}

/// A prefill that failed is counted against its request, which leaves the
/// device; the third in a row is the last.
pub proof fn the_third_failed_prefill_is_the_last(r: Request)
    requires
        r.prefill_failures < u32::MAX,
    ensures
        is_last_attempt(r) <==> r.prefill_failures >= 2,
        !attempt_failed(r).resident,
        r.prefill_failures < 2 ==> attempt_failed(r).prefill_failures == r.prefill_failures + 1,
        attempt_failed(r) == (Request {
            resident: false,
            prefill_failures: attempt_failed(r).prefill_failures,
            ..r
        }),
{
}

/// A request that has ended is done and holds nothing: no lane, no place on the
/// device, no prefix and no claim. What it came to is told of it as it is.
pub proof fn an_ended_request_holds_nothing(r: Request, reason: FinishReason)
    ensures
        ended_request(r).state == RequestState::Done,
        ended_request(r).lane is None,
        !ended_request(r).resident,
        ended_request(r).prefix_entry is None,
        ended_request(r).shared_pages == 0,
        ended_request(r).kv_ram_claim is None,
        ended_request(r).id == r.id,
        ended_request(r).tokens == r.tokens,
        ended_request(r).input == r.input,
        ended_request(r).class == r.class,
        done_event(r, reason) matches SchedEvent::Done {
            request,
            tokens,
            reason: why,
            spec,
            readout,
            attention,
            drawn,
        } && request == r.id && tokens == r.tokens && why == reason && spec == r.spec && readout
            == r.readout && attention == r.attention && (r.input.constrained is Some ==> drawn
            == Some(r.drawn)) && (r.input.constrained is None ==> drawn is None),
{
}

/// What the ledgers count of the requests is what each charges: a resident its
/// own pages and a place, one on a lane the lane, one on a prefix that prefix,
/// and one that is not done a place in flight.
pub proof fn every_request_is_counted_for_itself(reqs: Seq<Request>, r: Request, p: PrefixId)
    ensures
        charged(reqs.push(r)) == charged(reqs) + (if r.resident {
            r.resources.kv_pages as int
        } else {
            0
        }),
        residents(reqs.push(r)) == residents(reqs) + (if r.resident {
            1int
        } else {
            0
        }),
        laned(reqs.push(r)) == laned(reqs) + (if r.lane is Some {
            1int
        } else {
            0
        }),
        standing(reqs.push(r), p) == standing(reqs, p) + (if r.prefix_entry == Some(p) {
            1int
        } else {
            0
        }),
        flying(reqs.push(r)) == flying(reqs) + (if r.state == RequestState::Done {
            0int
        } else {
            1
        }),
        charged(Seq::<Request>::empty()) == 0,
        flying(Seq::<Request>::empty()) == 0,
{
    let n = reqs.len() as int;
    tally_of_more(reqs, r, page_charge(), n);
    tally_of_more(reqs, r, slot_charge(), n);
    tally_of_more(reqs, r, lane_charge(), n);
    tally_of_more(reqs, r, stands_on(p), n);
    tally_of_more(reqs, r, flight_charge(), n);
}

proof fn tally_of_more(reqs: Seq<Request>, r: Request, f: spec_fn(Request) -> int, n: int)
    requires
        0 <= n <= reqs.len(),
    ensures
        tally(reqs.push(r), f, n) == tally(reqs, f, n),
        n == reqs.len() ==> tally(reqs.push(r), f, n + 1) == tally(reqs, f, n) + f(r),
    decreases n,
{
    if n > 0 {
        tally_of_more(reqs, r, f, n - 1);
        assert(reqs.push(r)[n - 1] == reqs[n - 1]);
    }
    if n == reqs.len() {
        let more = reqs.push(r);
        assert(more[n] == r);
        assert(tally(more, f, n + 1) == tally(more, f, n) + f(more[n]));
    }
}

/// Each member of a batch publishes at its own point or not at all, and not at
/// all only where an earlier member publishes the same head.
pub proof fn a_member_publishes_at_its_own_point(
    reqs: Seq<Request>,
    batch: Seq<usize>,
    page_tokens: u32,
    n: int,
)
    requires
        0 < n <= batch.len(),
    ensures
        ({
            let plan = publish_plan(reqs, batch, page_tokens, n);
            let r = reqs[batch[n - 1] as int];
            let own = r.publishes_at(page_tokens) as u32;
            &&& plan.len() == n
            &&& plan[n - 1] == own || plan[n - 1] == 0
            &&& plan[n - 1] != own ==> exists|m: int|
                0 <= m < n - 1 && #[trigger] plan[m] == own && content_key(
                    reqs[batch[m] as int].input.tokens@,
                    reqs[batch[m] as int].input.media(),
                    own as int,
                ) == content_key(r.input.tokens@, r.input.media(), own as int)
            &&& forall|m: int|
                0 <= m < n - 1 ==> #[trigger] plan[m] == publish_plan(
                    reqs,
                    batch,
                    page_tokens,
                    n - 1,
                )[m]
        }),
{
    plans_are_as_long(reqs, batch, page_tokens, n - 1);
    let before = publish_plan(reqs, batch, page_tokens, n - 1);
    let plan = publish_plan(reqs, batch, page_tokens, n);
    let r = reqs[batch[n - 1] as int];
    let own = r.publishes_at(page_tokens) as u32;
    if plan[n - 1] != own {
        let m = choose|m: int|
            0 <= m < n - 1 && #[trigger] before[m] == own && head_of(
                reqs[batch[m] as int],
                own as int,
            ) == head_of(reqs[batch[n - 1] as int], own as int);
        assert(plan[m] == own);
    }
}

proof fn plans_are_as_long(reqs: Seq<Request>, batch: Seq<usize>, page_tokens: u32, n: int)
    requires
        0 <= n,
    ensures
        publish_plan(reqs, batch, page_tokens, n).len() == n,
    decreases n,
{
    if n > 0 {
        plans_are_as_long(reqs, batch, page_tokens, n - 1);
    }
}

/// A checkpoint is captured at the generation opener and nowhere else, only
/// where state outlives its request, never of a decision, once at most, and not
/// where the same content is kept already; and where the opener is where the
/// request publishes, or what follows its shared pages, it is captured.
pub proof fn a_checkpoint_is_captured_at_the_opener(
    config: SchedulerConfig,
    pool: CheckpointPool,
    r: Request,
    publish_at: u32,
)
    requires
        config.kv_page_tokens > 0,
    ensures
        ({
            let at = capture_plan(config, pool, r, publish_at);
            &&& at != 0 ==> {
                &&& r.input.opener_tokens matches Some(opener) && opener == at
                &&& config.prompt_reuse
                &&& r.input.decision is None
                &&& !r.checkpoint_captured
                &&& forall|i: int|
                    0 <= i < pool.entries@.len() ==> (#[trigger] pool.entries@[i]).key
                        != content_key(r.input.tokens@, r.input.media(), at)
            }
            &&& config.prompt_reuse && r.input.decision is None && !r.checkpoint_captured
                && publish_at > 0 && r.input.opener_tokens == Some(publish_at) && (forall|i: int|
                0 <= i < pool.entries@.len() ==> (#[trigger] pool.entries@[i]).key != content_key(
                    r.input.tokens@,
                    r.input.media(),
                    publish_at as int,
                )) ==> at == publish_at
        }),
{
    let at = capture_plan(config, pool, r, publish_at);
    if at != 0 {
        assert forall|i: int| 0 <= i < pool.entries@.len() implies (
        #[trigger] pool.entries@[i]).key != content_key(
            r.input.tokens@,
            r.input.media(),
            at,
        ) by {
            if pool.entries@[i].key == head_of(r, at) {
                assert(is_kept(pool, head_of(r, at)));
            }
        }
    }
}

/// A job is its request's next tokens in order, for the whole reservation; what
/// is read off the last position, and what samples there, goes with the chunk
/// that ends the prompt and with no other; a claim goes with the first chunk past
/// what was claimed. It does not run past a point it is to publish or capture at.
pub proof fn a_job_is_the_next_of_its_prompt(
    job: PrefillJob,
    r: Request,
    config: SchedulerConfig,
    plan: ChunkPlan,
    k: int,
)
    requires
        is_prefill_job(job, r, config, plan),
        r.prefill_progress < r.input.tokens@.len() <= u32::MAX,
        config.serving_chunk_tokens > 0,
        0 <= k < job.tokens@.len(),
    ensures
        ({
            let end = job.start_position + job.tokens@.len();
            let last = end == r.input.tokens@.len();
            &&& job.request == r.id
            &&& job.start_position == r.prefill_progress
            &&& end <= r.input.tokens@.len()
            &&& job.tokens@[k] == r.input.tokens@[r.prefill_progress + k]
            &&& last ==> job.params == r.input.params
            &&& !last ==> job.params.temperature_bits == 0 && job.params.top_k == 0
                && job.readout is None && job.permitted is None && job.attention is None
            &&& last ==> (r.input.decision matches Some(DecisionRead::Answers(asked)) ==> (
            job.readout matches Some(read) && read@ == asked@))
            &&& last ==> (r.input.decision matches Some(DecisionRead::Attention(asked)) ==> (
            job.attention matches Some(read) && read.positions@ == asked.positions@))
            &&& last ==> (r.input.constrained matches Some(schedule) ==> schedule.steps@.len() > 0
                ==> (job.permitted matches Some(set) && set@ == schedule.steps@[0]@))
            &&& job.shared_prefix matches Some(claim) ==> r.prefix_publisher == Some(
                claim.publisher,
            ) && claim.tokens == r.shared_prefix_tokens == r.prefill_progress
            &&& job.checkpoint matches Some(claim) ==> r.checkpoint_publisher == Some(
                claim.publisher,
            ) && claim.tokens == r.checkpoint_tokens == r.prefill_progress
            &&& plan.publish_at > r.prefill_progress ==> end <= plan.publish_at
            &&& plan.capture_at > r.prefill_progress ==> end <= plan.capture_at
        }),
{
    crate::chunks::chunk_is_bounded(r, config.serving_chunk_tokens);
    crate::chunks::a_job_is_one_chunk(job, r, config, plan);
}

/// A prompt is looked up by its own content: two prompts that differ in a token
/// share no key at a length that takes it in, and a capture is kept under the
/// content its own prompt has up to it.
pub proof fn a_prompt_is_looked_up_by_its_own_content(
    a: Request,
    b: Request,
    at: int,
    n: int,
    capture: CheckpointCapture,
    length: u32,
)
    requires
        a.input.media() == b.input.media(),
        0 <= at < n,
        n < own_keys(a).len(),
        n < own_keys(b).len(),
        n <= a.input.tokens@.len(),
        n <= b.input.tokens@.len(),
        a.input.tokens@[at] != b.input.tokens@[at],
        forall|i: int| 0 <= i < n && i != at ==> a.input.tokens@[i] == b.input.tokens@[i],
        is_capture_of(capture, a, length),
        length == n,
    ensures
        own_keys(a)[n] != own_keys(b)[n],
        capture.key == own_keys(a)[n],
        capture.key != own_keys(b)[n],
        capture.tokens == n,
        capture.publisher == a.id,
        capture.tier == ReuseSource::Device,
        a.prefix_entry == Some(capture.prefix),
{
    one_token_tells_content_apart(a.input.tokens@, b.input.tokens@, a.input.media(), at, n);
}

impl<C: Compute, K: Clock> ConcreteScheduler<C, K> {
    /// The head a request publishes is whole pages of what it may share, none
    /// past its opener where state outlives it, and no page fewer than that.
    pub proof fn the_head_to_publish_is_whole_pages(self, input: crate::types::RequestInput)
        requires
            self.config.kv_page_tokens > 0,
            input.tokens@.len() <= u32::MAX,
        ensures
            ({
                let page = self.config.kv_page_tokens as int;
                let head = self.head_to_publish(input);
                let bound = match input.opener_tokens {
                    Some(opener) if self.config.prompt_reuse && opener < input.shares() =>
                        opener as int,
                    _ => input.shares(),
                };
                &&& 0 <= head <= bound < head + page
                &&& head % page == 0
            }),
    {
        let page = self.config.kv_page_tokens as int;
        let shares = input.shares();
        crate::request::pages_around(shares, page, shares / page);
        vstd::arithmetic::div_mod::lemma_div_pos_is_pos(shares, page);
        whole(shares / page, page);
        if let Some(opener) = input.opener_tokens {
            let o = opener as int;
            crate::request::pages_around(o, page, o / page);
            vstd::arithmetic::div_mod::lemma_div_pos_is_pos(o, page);
            whole(o / page, page);
            if o < shares {
                vstd::arithmetic::div_mod::lemma_div_is_ordered(o, shares, page);
                assert((o / page) * page <= (shares / page) * page) by (nonlinear_arith)
                    requires
                        o / page <= shares / page,
                        page > 0,
                ;
                assert((o / page) * page == (shares / page) * page ==> o / page == shares / page)
                    by (nonlinear_arith)
                    requires
                        page > 0,
                ;
            } else {
                vstd::arithmetic::div_mod::lemma_div_is_ordered(shares, o, page);
                assert((shares / page) * page <= (o / page) * page) by (nonlinear_arith)
                    requires
                        shares / page <= o / page,
                        page > 0,
                ;
            }
        }
    }
}

proof fn whole(n: int, page: int)
    requires
        page > 0,
        n >= 0,
    ensures
        (n * page) % page == 0,
        n * page >= 0,
{
    vstd::arithmetic::div_mod::lemma_mod_multiples_basic(n, page);
    assert(n * page >= 0) by (nonlinear_arith)
        requires
            page > 0,
            n >= 0,
    ;
}

/// A chunk that landed takes its prompt as much further and is resumable there;
/// it starts a prompt that had not started, ends a run of failures, and keeps
/// what was read before where nothing was read of it.
pub proof fn a_landed_chunk_moves_its_prompt_on(
    r: Request,
    width: int,
    readout: Option<crate::decision::Readout>,
    attention: Option<crate::types::AttentionScores>,
    after: Request,
)
    requires
        r.chunk_landed(width, readout, attention, after),
        0 <= width,
        r.prefill_progress + width <= u32::MAX,
        r.prefill_progress >= r.gdn@.position,
    ensures
        after.prefill_progress == r.prefill_progress + width,
        after.prefill_failures == 0,
        after.state == RequestState::Prefilling || after.state == r.state,
        r.state == RequestState::Admitted ==> after.state == RequestState::Prefilling,
        r.state != RequestState::Admitted ==> after.state == r.state,
        after.gdn@.boundaries.contains((r.prefill_progress + width) as nat),
        after.gdn@.position == r.prefill_progress + width,
        readout is Some ==> after.readout == readout,
        readout is None ==> after.readout == r.readout,
        attention is Some ==> after.attention == attention,
        attention is None ==> after.attention == r.attention,
        after.tokens == r.tokens,
        after.remaining_work == r.remaining_work,
        after.id == r.id,
        after.resources == r.resources,
{
}

/// A head published passes as many pages from the request's own to those it
/// shares, and the request is its publisher.
pub proof fn a_published_head_moves_its_pages(r: Request, entry: PrefixId, pages: int)
    requires
        0 <= pages <= r.resources.kv_pages,
        r.shared_pages + pages <= u32::MAX,
    ensures
        ({
            let after = r.published(entry, pages);
            &&& after.resources.kv_pages + after.shared_pages == r.resources.kv_pages
                + r.shared_pages
            &&& after.shared_pages == r.shared_pages + pages
            &&& after.prefix_entry == Some(entry)
            &&& after.prefix_publisher == Some(r.id)
            &&& after.resources.lanes == r.resources.lanes
            &&& after.prefill_progress == r.prefill_progress
        }),
{
}

/// A claim that was restored is reported reused and restored, under the tier and
/// for the tokens it was claimed for; a lookup that found nothing is reported
/// missed once for each tier it found nothing in.
pub proof fn a_claim_is_reported_as_it_was(
    request: crate::types::RequestId,
    claim: crate::scheduler::CheckpointClaim,
    restore_micros: u64,
    misses: crate::checkpoint::RetainedMisses,
)
    ensures
        crate::landing::claim_events(request, None, restore_micros).len() == 0,
        ({
            let told = crate::landing::claim_events(request, Some(claim), restore_micros);
            &&& told.len() == 2
            &&& told[0] matches SchedEvent::StateReused {
                request: who,
                source,
                tokens,
                restore_micros: took,
                ..
            } && who == request && source == claim.source && tokens == claim.tokens && took
                == restore_micros
            &&& told[1] matches SchedEvent::RetainedState { operation, source, .. } && operation
                == crate::checkpoint::RetainedStateOperation::Restore && source == claim.source
        }),
        ({
            let told = crate::landing::miss_events(misses);
            &&& told.len() == (if misses.device {
                1int
            } else {
                0
            }) + (if misses.kv_ram {
                1int
            } else {
                0
            })
            &&& forall|k: int|
                0 <= k < told.len() ==> (#[trigger] told[k] matches SchedEvent::RetainedState {
                    operation,
                    source,
                    ..
                } && operation == crate::checkpoint::RetainedStateOperation::Miss && (source
                    == ReuseSource::Device ==> misses.device) && (source == ReuseSource::KvRam
                    ==> misses.kv_ram))
        }),
{
}

/// A tier is missed where it is carried and nothing was found in it.
pub proof fn a_tier_is_missed_where_nothing_was_found(
    tiers: crate::checkpoint::TierList,
    lookup: crate::checkpoint::CheckpointLookup,
)
    ensures
        lookup.device is Some ==> !crate::reuse::missed(tiers, lookup).device,
        lookup.kv_ram is Some ==> !crate::reuse::missed(tiers, lookup).kv_ram,
        lookup.device is None ==> crate::reuse::missed(tiers, lookup).device == tiers.carries(
            ReuseSource::Device,
        ),
        lookup.kv_ram is None ==> crate::reuse::missed(tiers, lookup).kv_ram == tiers.carries(
            ReuseSource::KvRam,
        ),
{
}

/// Whoever runs and has work left is active, with its lane, its work and how it
/// was dealt, and no one else is.
pub proof fn whoever_runs_with_work_left_is_active(reqs: Seq<Request>, n: int)
    requires
        0 <= n < reqs.len(),
    ensures
        ({
            let r = reqs[n];
            let (before, now) = (
                crate::deal::active_in(reqs, n),
                crate::deal::active_in(reqs, n + 1),
            );
            &&& crate::deal::active_in(reqs, 0).len() == 0
            &&& r.state == RequestState::Running && r.remaining_work > 0 ==> {
                &&& now.len() == before.len() + 1
                &&& now.take(before.len() as int) == before
                &&& now.last().request_id == r.id
                &&& now.last().remaining_work_quanta == r.remaining_work
                &&& now.last().resources.lanes == r.resources.lanes
                &&& now.last().resources.kv_pages == 0
                &&& now.last().backfill_epoch == r.backfill_epoch
                &&& now.last().backfill_class == r.backfill_class
            }
            &&& r.state != RequestState::Running || r.remaining_work == 0 ==> now == before
        }),
{
    let (before, now) = (crate::deal::active_in(reqs, n), crate::deal::active_in(reqs, n + 1));
    if reqs[n].state == RequestState::Running && reqs[n].remaining_work > 0 {
        assert(now.take(before.len() as int) =~= before);
    }
}

/// Host memory is the tier behind the device where there is one, and a match in
/// it has to save more than a thousand tokens over any on the device; what leaves
/// the device goes there, and nowhere without it.
pub proof fn host_memory_is_the_tier_behind_the_device()
    ensures
        crate::concrete::device_tier().len() == 1,
        crate::concrete::device_tier()[0].source == ReuseSource::Device,
        crate::concrete::device_tier()[0].restore_floor_tokens == 0,
        crate::concrete::with_host_tier().len() == 2,
        crate::concrete::with_host_tier()[0].source == ReuseSource::Device,
        crate::concrete::with_host_tier()[0].restore_floor_tokens == 0,
        crate::concrete::with_host_tier()[1].source == ReuseSource::KvRam,
        crate::concrete::with_host_tier()[1].restore_floor_tokens == 1024,
{
}

impl<C: Compute, K: Clock> ConcreteScheduler<C, K> {
    /// State spills to host memory exactly where there is such a tier.
    pub proof fn state_spills_where_there_is_a_tier_for_it(self)
        requires
            self.checkpoints.tiers.wf(),
        ensures
            self.checkpoints.tiers.order@ == crate::concrete::with_host_tier()
                ==> self.spills_to_host(),
            self.checkpoints.tiers.order@ == crate::concrete::device_tier()
                ==> !self.spills_to_host(),
    {
        crate::checkpoint::state_goes_down_one_tier(self.checkpoints.tiers, 0);
    }

    /// A copy is brought back only where it saves more than a thousand tokens
    /// over the longest head on the device and over the checkpoint found there;
    /// with no checkpoint found, exactly where it does so over the head.
    pub proof fn a_copy_is_brought_back_where_it_saves_enough(
        self,
        keys: Seq<crate::identity::MatchKey>,
        lookup: crate::checkpoint::CheckpointLookup,
        k: int,
    )
        requires
            ({
                let copies = self.prefix.spilled@;
                let found = crate::prefix::longest_copy(copies, keys, copies.len() as int);
                &&& 0 <= k < copies.len()
                &&& found == Some(k)
            }),
            self.shared_by(keys) + 1024 <= u32::MAX,
        ensures
            ({
                let saved = self.prefix.spilled@[k].length_tokens;
                let image = crate::checkpoint::resolved_tokens(
                    self.checkpoints,
                    lookup.device,
                    ReuseSource::Device,
                );
                &&& self.worth_bringing(keys, lookup) ==> saved >= self.shared_by(keys) + 1024
                &&& self.worth_bringing(keys, lookup) && image + 1024 <= u32::MAX ==> saved >= image
                    + 1024
                &&& lookup.device is None && lookup.kv_ram is None ==> (self.worth_bringing(
                    keys,
                    lookup,
                ) <==> saved >= self.shared_by(keys) + 1024)
            }),
    {
    }

    /// Room is there where the pages in use and those asked for are within the
    /// pool, and the sequences likewise.
    pub proof fn room_is_what_is_not_in_use(self, pages: u32, slots: u32)
        ensures
            self.has_room_for(pages, slots) <==> self.kv_used_pages + pages
                <= self.capacity.kv_pages && self.resident_slots_used + slots
                <= self.config.resident_slot_capacity,
    {
    }

    proof fn lanes_are_candidates(self, n: int, w: int) -> (k: int)
        requires
            0 <= w < n <= self.requests@.len(),
            self.evictable_lane(self.requests@[w]),
        ensures
            0 <= k < self.lane_candidates(n).len(),
            self.lane_candidates(n)[k] == self.candidate(self.requests@[w]),
        decreases n,
    {
        let before = self.lane_candidates(n - 1);
        if w == n - 1 {
            before.len() as int
        } else {
            let k = self.lanes_are_candidates(n - 1, w);
            assert(self.lane_candidates(n)[k] == before[k]);
            k
        }
    }

    /// The lane victim runs, donates to no protection and is not kept for an
    /// earlier Interactive request; of the lanes like it, it is an Agent's where
    /// any is, and the lowest of its class.
    pub proof fn the_lane_given_up_is_worth_least(self, v: int, w: int)
        requires
            self.is_lane_victim_at(v),
            0 <= w < self.requests@.len(),
            self.requests@[w].state == RequestState::Running,
            self.protection matches Some(p) ==> !p.donor_ids@.contains(self.requests@[w].id),
            !self.is_reserved(self.requests@[w]),
        ensures
            ({
                let (a, b) = (self.requests@[v], self.requests@[w]);
                &&& a.state == RequestState::Running
                &&& self.protection matches Some(p) ==> !p.donor_ids@.contains(a.id)
                &&& !self.is_reserved(a)
                &&& a.class == RequestClass::Interactive ==> b.class == RequestClass::Interactive
                &&& a.class == b.class ==> a.lane->Some_0 <= b.lane->Some_0
            }),
    {
        let n = self.requests@.len() as int;
        let all = self.lane_candidates(n);
        assert(self.evictable_lane(self.requests@[w]));
        let k = self.lanes_are_candidates(n, w);
        let at = choose|at: int| #[trigger]
            crate::admission::is_lane_victim(all, at) && all[at] == self.candidate(
                self.requests@[v],
            );
        crate::admission::the_lane_victim_is_worth_least(all, at, k);
    }

    /// A lane is kept for an earlier Interactive request that still waits on the
    /// prefix its holder stands on, and for no other.
    pub proof fn a_lane_is_kept_for_an_earlier_request(self, r: Request, i: int)
        requires
            0 <= i < self.requests@.len(),
            r.prefix_entry is Some,
            self.requests@[i].prefix_entry == r.prefix_entry,
            self.requests@[i].class == RequestClass::Interactive,
            self.requests@[i].id < r.id,
            self.requests@[i].state == RequestState::Admitted || self.requests@[i].state
                == RequestState::Prefilling,
        ensures
            self.is_reserved(r),
    {
        assert(self.waits_earlier(i, r.prefix_entry->Some_0, r.id));
    }

    /// A suspended request that resumes is on the device again where it stopped:
    /// decoding, on a lane that was free, or prefilling; and nothing else of it
    /// has changed.
    pub proof fn a_resumed_request_is_where_it_stopped(
        self,
        i: int,
        phase: crate::host::ResumePhase,
    )
        requires
            0 <= i < self.requests@.len(),
            self.free_lanes@.len() > 0,
        ensures
            ({
                let (r, after) = (self.requests@[i], self.resumed_request(i, phase));
                &&& after.resident
                &&& after == (Request { state: after.state, lane: after.lane, resident: true, ..r })
                &&& phase == crate::host::ResumePhase::Running ==> after.state
                    == RequestState::Running && (after.lane matches Some(lane)
                    && self.free_lanes@.contains(lane))
                &&& phase == crate::host::ResumePhase::Prefilling ==> after.state
                    == RequestState::Prefilling && after.lane == r.lane
            }),
    {
        let n = self.free_lanes@.len() - 1;
        assert(self.free_lanes@[n] == self.free_lanes@.last());
    }
}

/// What is left of a pool is what no one pins for good, and never less than
/// nothing.
pub proof fn what_is_left_is_what_is_not_pinned(capacity: int, pinned: int, back: int)
    requires
        0 <= back <= pinned <= capacity,
    ensures
        crate::deal::pages_left(capacity, pinned, back) == capacity - pinned + back,
{
}

/// A protection drains once its head would have a lane beside everyone but this
/// epoch's borrowers, and stays as it is otherwise; nothing else of it changes.
pub proof fn a_protection_drains_once_its_head_has_a_lane(
    p: crate::admission::AdmissionProtection,
    active: Seq<crate::admission::ActiveAdmissionSnapshot>,
)
    ensures
        ({
            let after = crate::deal::drained(p, active);
            let held = crate::admission::held_by(active, crate::admission::not_a_borrower(p)).lanes;
            &&& held < 8 ==> after.phase == crate::admission::ProtectionPhase::Drain
            &&& held >= 8 ==> after.phase == p.phase
            &&& after == (crate::admission::AdmissionProtection { phase: after.phase, ..p })
        }),
        crate::deal::persists_beside(p, active) <==> crate::admission::protected_future(
            p,
            active,
        ).lanes - p.head_resources.lanes <= 6,
{
}

impl<C: Compute, K: Clock> ConcreteScheduler<C, K> {
    /// A request that is dealt a lane runs on one that was free; as a backfill it
    /// is of the standing protection's epoch, and of none otherwise. Nothing else
    /// of it changes.
    pub proof fn a_dealt_request_runs_on_a_free_lane(
        self,
        i: int,
        backfill: crate::types::BackfillClass,
    )
        requires
            self.free_lanes@.len() > 0,
        ensures
            ({
                let (r, after) = (self.requests@[i], self.dealt_request(i, backfill));
                &&& after.state == RequestState::Running
                &&& after.lane matches Some(lane) && self.free_lanes@.contains(lane)
                &&& after.backfill_class == backfill
                &&& backfill == crate::types::BackfillClass::Plain ==> after.backfill_epoch == 0
                &&& backfill != crate::types::BackfillClass::Plain ==> (
                self.protection matches Some(p) ==> after.backfill_epoch == p.epoch_id)
                &&& after == (Request {
                    state: after.state,
                    lane: after.lane,
                    backfill_class: after.backfill_class,
                    backfill_epoch: after.backfill_epoch,
                    ..r
                })
            }),
    {
        let n = self.free_lanes@.len() - 1;
        assert(self.free_lanes@[n] == self.free_lanes@.last());
    }

    /// The device checkpoint given up for its slot is one no request is about to
    /// be built from, an Agent's where any such is, and the least recently used of
    /// its class; the one given up for its pages is the least recently used of
    /// those that give any.
    pub proof fn the_checkpoint_given_up_is_worth_least(self, at: int, j: int)
        requires
            0 <= j < self.checkpoints.entries@.len(),
            self.checkpoints.entries@[j].tier == ReuseSource::Device,
        ensures
            ({
                let (a, b) = (self.checkpoints.entries@[at], self.checkpoints.entries@[j]);
                &&& self.is_cheapest_image(at) ==> {
                    &&& a.tier == ReuseSource::Device
                    &&& !self.is_claimed_image(a.id)
                    &&& !self.is_claimed_image(b.id) && a.owner == RequestClass::Interactive
                        ==> b.owner == RequestClass::Interactive
                    &&& !self.is_claimed_image(b.id) && a.owner == b.owner ==> a.use_tick
                        <= b.use_tick
                }
                &&& self.is_stalest_image(at) ==> {
                    &&& a.tier == ReuseSource::Device
                    &&& self.reclaimable(a.prefix) || (self.tail_pages@.contains(a.publisher)
                        && !self.is_claimed_image(a.id))
                    &&& self.reclaimable(b.prefix) || (self.tail_pages@.contains(b.publisher)
                        && !self.is_claimed_image(b.id)) ==> a.use_tick <= b.use_tick
                }
            }),
    {
        let b = self.checkpoints.entries@[j];
        assert(self.gives_pages_now(b) <==> self.reclaimable(b.prefix) || (
        self.tail_pages@.contains(b.publisher) && !self.is_claimed_image(b.id)));
    }

    /// An image is claimed where a request that has not started is to be built
    /// from it on the device.
    pub proof fn an_image_is_claimed_by_who_is_to_be_built_from_it(
        self,
        i: int,
        id: crate::checkpoint::CheckpointId,
    )
        requires
            0 <= i < self.requests@.len(),
            self.requests@[i].state == RequestState::Admitted,
            self.requests@[i].reuse_source == Some(ReuseSource::Device),
            self.requests@[i].checkpoint_entry == Some(id),
        ensures
            self.is_claimed_image(id),
    {
        assert(self.claims_image(i, id));
    }

    /// The prefix given up for its slot, or for its pages, is held by its
    /// retention alone; it is the least recently used, for its slot an Agent's
    /// where any is.
    pub proof fn the_prefix_given_up_is_worth_least(self, p: PrefixId, j: int)
        requires
            0 <= j < self.prefix.entries@.len(),
            self.prefix.entries@[j].retained is Some,
            self.prefix.entries@[j].refcount == 1,
        ensures
            ({
                let a = crate::prefix::entry_of(self.prefix.entries@, p);
                let b = self.prefix.entries@[j];
                let (x, y) = (a.retained->Some_0, b.retained->Some_0);
                &&& self.is_cheapest_prefix(p) ==> {
                    &&& a.refcount == 1 && a.retained is Some
                    &&& x.class == RequestClass::Interactive ==> y.class
                        == RequestClass::Interactive
                    &&& x.class == y.class ==> x.at <= y.at
                }
                &&& self.is_stalest_prefix(p) ==> {
                    &&& a.refcount == 1 && a.retained is Some
                    &&& x.at <= y.at
                }
            }),
    {
        assert(crate::prefix::only_retained(self.prefix.entries@[j]));
    }

    /// A copy yields to a newcomer that it ranks under, being unclaimed, on
    /// probation or stale, and used before it; one that is claimed never does.
    pub proof fn a_copy_yields_to_what_it_ranks_under(
        self,
        owner: RequestClass,
        used_at: u64,
        now: u64,
        at: int,
    )
        requires
            self.yields_to(owner, used_at, now, at),
        ensures
            ({
                let e = self.host.retained@[at];
                let ttl = self.host.ttl;
                let stale = owner == RequestClass::Agent || used_at + ttl < now;
                let e_is_stale = e.owner == RequestClass::Agent || e.used_at + ttl < now;
                &&& e.claims == 0
                &&& stale ==> e_is_stale
                &&& e_is_stale == stale ==> e.tier == crate::host::Tier::Probation && e.used_at
                    < used_at
            }),
    {
        let e = self.host.retained@[at];
        let ranks = crate::host::blob_ranks(self.host.retained@, now, self.host.ttl);
        assert(ranks[at] == crate::host::blob_rank(e.owner, e.tier, e.used_at, now, self.host.ttl));
    }
}

/// A job reserves for the whole of what its request may come to: its prompt, and
/// as much as it asked for, or the whole context where it asked for no length.
pub proof fn a_job_reserves_for_the_whole_sequence(
    job: PrefillJob,
    r: Request,
    config: SchedulerConfig,
    plan: ChunkPlan,
)
    requires
        is_prefill_job(job, r, config, plan),
        r.input.tokens@.len() <= config.max_sequence_tokens,
    ensures
        r.input.decision is Some ==> job.context_tokens == r.input.tokens@.len(),
        r.input.decision is None && r.input.constrained is None ==> match r.input.params.max_tokens {
            Some(asked) => r.input.tokens@.len() + asked <= u32::MAX ==> job.context_tokens
                == r.input.tokens@.len() + asked,
            None => job.context_tokens == config.max_sequence_tokens,
        },
        job.multimodal is Some <==> r.input.multimodal is Some,
{
}

/// A snapshot holds what its request resumes by: where it stopped, what it has
/// generated and may still generate, its recurrent state, whose it is, and the
/// pages its whole sequence takes back where it stood on a prefix.
pub proof fn a_snapshot_holds_what_its_request_resumes_by(
    e: crate::host::HostEntry,
    config: SchedulerConfig,
    r: Request,
    bytes: u64,
    tick: u64,
)
    requires
        crate::eviction::is_snapshot_of(e, config, r, bytes, tick),
        r.state == RequestState::Running || r.state == RequestState::Prefilling,
        config.kv_page_tokens > 0,
    ensures
        e.request == r.id,
        e.owner == r.class,
        e.bytes == bytes,
        e.use_tick == tick,
        e.tokens == r.tokens,
        e.remaining_work == r.remaining_work,
        e.prefill_progress == r.prefill_progress,
        e.gdn@ == r.gdn@,
        e.lane == r.lane,
        r.state == RequestState::Running <==> e.resume_phase == crate::host::ResumePhase::Running,
        r.prefix_entry is None ==> e.pages == r.resources.kv_pages,
        r.prefix_entry is Some ==> e.pages * config.kv_page_tokens >= reserved(config, r.input),
{
    crate::plan::pages_hold_and_no_fewer_would(reserved(config, r.input), config.kv_page_tokens);
    crate::plan::pages_for_fits(reserved(config, r.input), config.kv_page_tokens);
}

impl<C: Compute, K: Clock> ConcreteScheduler<C, K> {
    /// A head a request published is kept under the content its own prompt has up
    /// to it, and is all of that; the request stands on it. It outlives the
    /// request where state does and it lies within the system block, and nowhere
    /// else.
    pub proof fn a_published_head_is_of_its_own_prompt(
        self,
        before: Self,
        i: int,
        published: u32,
    )
        requires
            self.published_head(before, i, published),
            before.config.kv_page_tokens > 0,
            before.prefix.page_tokens == before.config.kv_page_tokens,
            0 <= i < before.requests@.len(),
            self.prefix.entries@.len() > before.prefix.entries@.len(),
            before.prefix.registrable(
                head_of(before.requests@[i], published as int),
                published,
                before.requests@[i].gdn,
                before.requests@[i].prefix_entry,
            ),
        ensures
            ({
                let r = before.requests@[i];
                let e = self.prefix.entries@.last();
                &&& e.key == content_key(r.input.tokens@, r.input.media(), published as int)
                &&& e.length_tokens == published
                &&& e.publisher == r.id
                &&& self.requests@[i].prefix_entry == Some(e.id)
                &&& e.parent == r.prefix_entry
                &&& e.retained is Some <==> before.config.prompt_reuse && (
                r.input.system_block_tokens matches Some(at) && published <= at)
                &&& e.retained matches Some(kept) ==> kept.class == r.class && kept.at
                    == before.tick
            }),
    {
        reveal(ConcreteScheduler::published_head);
        let r = before.requests@[i];
        let page = before.config.kv_page_tokens as int;
        if let Some(at) = r.input.system_block_tokens {
            crate::request::pages_around(at as int, page, at as int / page);
            let block = (at as int / page) * page;
            vstd::arithmetic::div_mod::lemma_fundamental_div_mod(published as int, page);
            let q = published as int / page;
            let b = at as int / page;
            assert(published == q * page) by (nonlinear_arith)
                requires
                    published == page * q,
            ;
            if published <= at {
                assert(q <= b) by (nonlinear_arith)
                    requires
                        q * page <= at,
                        at < b * page + page,
                        page > 0,
                ;
                assert(q * page <= b * page) by (nonlinear_arith)
                    requires
                        q <= b,
                        page > 0,
                ;
            }
        }
    }

    /// A head brought back from host memory is the head that was copied: of the
    /// same content and length, its own pages charged, and its copy still there.
    pub proof fn a_head_comes_back_as_it_was_copied(
        self,
        before: Self,
        copy: crate::prefix::SpilledPrefix,
        now: u64,
    )
        requires
            self.head_came_back(before, copy, now),
            before.prefix.page_tokens > 0,
        ensures
            ({
                let e = self.prefix.entries@.last();
                &&& e.key == copy.key
                &&& e.length_tokens == copy.length_tokens
                &&& e.publisher == copy.publisher
                &&& e.gdn@ == copy.gdn@
                &&& e.copy == Some(copy.id)
                &&& e.parent is None
                &&& e.retained is Some
                &&& self.kv_used_pages - before.kv_used_pages == e.own_pages
                &&& e.own_pages * before.prefix.page_tokens <= copy.length_tokens < (e.own_pages
                    + 1) * before.prefix.page_tokens
                &&& self.prefix.spilled == before.prefix.spilled
                &&& self.requests == before.requests
                &&& self.checkpoints == before.checkpoints
            }),
    {
        crate::prefix::whole_pages_are_filled(copy.length_tokens, before.prefix.page_tokens);
    }

    /// What a request resumed from is reported: a checkpoint as a hit of the tier
    /// it was in, a shared head as reused for the tokens it saves, and as retained
    /// where its publisher is gone; nothing where it resumed from nothing.
    pub proof fn what_was_reused_is_reported(self, after: Request)
        ensures
            ({
                let told = self.claim_report(after);
                &&& after.checkpoint_publisher is None && after.prefix_entry is None ==> told.len()
                    == 0
                &&& after.checkpoint_publisher is Some ==> told.len() == 1 && (
                told[0] matches SchedEvent::RetainedState { operation, source, .. } && operation
                    == crate::checkpoint::RetainedStateOperation::Hit && (
                after.reuse_source matches Some(tier) ==> source == tier))
                &&& after.checkpoint_publisher is None && after.prefix_entry is Some ==> told.len()
                    == 1 && (told[0] matches SchedEvent::PrefixReused { request, tokens, retained }
                    && request == after.id && tokens == after.shared_prefix_tokens && (
                after.prefix_publisher matches Some(publisher) ==> (retained <==> forall|j: int|
                    0 <= j < self.requests@.len() && (#[trigger] self.requests@[j]).id == publisher
                        ==> self.requests@[j].state == RequestState::Done)))
            }),
    {
        if let Some(publisher) = after.prefix_publisher {
            if !self.serves(publisher) {
                assert forall|j: int|
                    0 <= j < self.requests@.len() && (#[trigger] self.requests@[j]).id
                        == publisher implies self.requests@[j].state == RequestState::Done by {
                    if self.requests@[j].state != RequestState::Done {
                        assert(self.serves(publisher));
                    }
                }
            }
        }
    }
}

/// A round that drew anything leaves its request resumable where it then stands:
/// past its prompt and all it has generated. What was drafted and kept adds up.
pub proof fn a_round_leaves_its_request_resumable(
    r: Request,
    outcome: DecodeOutcome,
    after: Request,
)
    requires
        round_landed(r, outcome, after),
        r.remaining_work > 0,
        r.tokens + r.remaining_work <= u32::MAX,
        r.gdn@.position <= r.input.tokens@.len() + r.tokens,
    ensures
        outcome.tokens@.len() > 0 ==> {
            &&& after.gdn@.position == r.input.tokens@.len() + after.tokens
            &&& after.gdn@.boundaries.contains((r.input.tokens@.len() + after.tokens) as nat)
            &&& after.tokens > r.tokens
        },
        outcome.tokens@.len() == 0 ==> after.gdn@ == r.gdn@ && after.tokens == r.tokens,
        outcome.spec is None ==> after.spec == r.spec,
        outcome.spec matches Some(s) ==> match r.spec {
            None => after.spec == Some(s),
            Some(so_far) => so_far.drafted + s.drafted <= u64::MAX && so_far.accepted + s.accepted
                <= u64::MAX ==> (after.spec matches Some(sum) && sum.drafted == so_far.drafted
                + s.drafted && sum.accepted == so_far.accepted + s.accepted),
        },
{
    a_round_never_overruns(r, outcome.tokens@, 0);
}

/// Whoever is listed is reported done, in the order of the list, each for the same
/// reason.
pub proof fn the_listed_are_reported_in_order(
    reqs: Seq<Request>,
    list: Seq<usize>,
    reason: FinishReason,
    n: int,
    k: int,
)
    requires
        0 <= k < n <= list.len(),
    ensures
        crate::landing::done_events(reqs, list, reason, n).len() == n,
        crate::landing::done_events(reqs, list, reason, n)[k] == done_event(
            reqs[list[k] as int],
            reason,
        ),
    decreases n,
{
    if n > 1 {
        let j = if k < n - 1 {
            k
        } else {
            0
        };
        the_listed_are_reported_in_order(reqs, list, reason, n - 1, j);
    } else {
        assert(crate::landing::done_events(reqs, list, reason, 0).len() == 0);
    }
}

/// Every decision that has been answered is reported done among the first `n`, and
/// nothing is reported that is no end of one.
pub proof fn every_decision_made_is_reported(reqs: Seq<Request>, n: int, i: int)
    requires
        0 <= i < n <= reqs.len(),
    ensures
        has_decided(reqs[i]) ==> crate::rounds::decided_events(reqs, n).contains(
            done_event(reqs[i], decision_reason(reqs[i])),
        ),
        crate::rounds::decided_events(reqs, n).len() <= n,
        !has_decided(reqs[n - 1]) ==> crate::rounds::decided_events(reqs, n)
            == crate::rounds::decided_events(reqs, n - 1),
    decreases n,
{
    let before = crate::rounds::decided_events(reqs, n - 1);
    let now = crate::rounds::decided_events(reqs, n);
    if n > 1 {
        let j = if i < n - 1 {
            i
        } else {
            0
        };
        every_decision_made_is_reported(reqs, n - 1, j);
    } else {
        assert(before.len() == 0);
    }
    if has_decided(reqs[i]) {
        let told = done_event(reqs[i], decision_reason(reqs[i]));
        if i == n - 1 {
            assert(now[before.len() as int] == told);
        } else {
            let k = choose|k: int| 0 <= k < before.len() && before[k] == told;
            assert(now[k] == told);
        }
    }
}

/// A copy given up is reported discarded from host memory, as the kind of state it
/// holds; what becomes of a prefix or a checkpoint is reported as of its kind.
pub proof fn what_becomes_of_state_is_reported_by_kind(
    operation: crate::checkpoint::RetainedStateOperation,
    source: ReuseSource,
    id: crate::checkpoint::CheckpointId,
    copy: crate::prefix::SpilledPrefixId,
)
    ensures
        crate::retention::copy_told(crate::host::RetainedBlob::Checkpoint(id)) == (
        SchedEvent::RetainedState {
            operation: crate::checkpoint::RetainedStateOperation::Discard,
            source: ReuseSource::KvRam,
            kind: crate::checkpoint::RetainedKind::Checkpoint,
        }),
        crate::retention::copy_told(crate::host::RetainedBlob::Prefix(copy)) == (
        SchedEvent::RetainedState {
            operation: crate::checkpoint::RetainedStateOperation::Discard,
            source: ReuseSource::KvRam,
            kind: crate::checkpoint::RetainedKind::Prefix,
        }),
        crate::retention::prefix_told(operation, source) == (SchedEvent::RetainedState {
            operation,
            source,
            kind: crate::checkpoint::RetainedKind::Prefix,
        }),
        crate::retention::image_told(operation, source) == (SchedEvent::RetainedState {
            operation,
            source,
            kind: crate::checkpoint::RetainedKind::Checkpoint,
        }),
{
}

/// A request that claims a head, or resumes from a checkpoint, begins at its end,
/// passes its pages from its own to those it shares, and is otherwise the request
/// it was; a copy in host memory is shared with no one.
pub proof fn a_claim_begins_where_the_reused_ends(
    r: Request,
    after: Request,
    e: crate::prefix::PrefixEntry,
    m: crate::checkpoint::CheckpointMatch,
    page_tokens: u32,
)
    requires
        page_tokens > 0,
        m.pages <= r.resources.kv_pages,
        crate::prefix::whole_pages(e.length_tokens, page_tokens) <= r.resources.kv_pages,
        r.shared_pages == 0,
    ensures
        crate::reuse::stood_on(r, after, e, page_tokens) ==> {
            &&& after.prefix_entry == Some(e.id)
            &&& after.prefill_progress == e.length_tokens
            &&& after.shared_prefix_tokens == e.length_tokens
            &&& after.prefix_publisher == Some(e.publisher)
            &&& after.shared_pages * page_tokens <= e.length_tokens < (after.shared_pages + 1)
                * page_tokens
            &&& after.resources.kv_pages + after.shared_pages == r.resources.kv_pages
            &&& after.gdn@ == e.gdn@
            &&& after.id == r.id && after.input == r.input && after.state == r.state
        },
        crate::reuse::resumed_from(r, after, m) ==> {
            &&& after.checkpoint_entry == Some(m.id)
            &&& after.checkpoint_publisher == Some(m.publisher)
            &&& after.prefill_progress == m.tokens
            &&& after.checkpoint_tokens == m.tokens
            &&& after.reuse_source == Some(m.source)
            &&& after.resources.kv_pages + after.shared_pages == r.resources.kv_pages
            &&& m.source == ReuseSource::Device ==> after.prefix_entry == Some(m.prefix)
                && after.shared_pages == m.pages && after.kv_ram_claim == r.kv_ram_claim
            &&& m.source == ReuseSource::KvRam ==> after.shared_pages == 0 && after.kv_ram_claim
                == Some(m.id) && after.standalone_tokens == m.tokens
            &&& after.id == r.id && after.input == r.input && after.state == r.state
        },
{
    crate::prefix::whole_pages_are_filled(e.length_tokens, page_tokens);
    vstd::arithmetic::div_mod::lemma_div_pos_is_pos(e.length_tokens as int, page_tokens as int);
}

impl<C: Compute, K: Clock> ConcreteScheduler<C, K> {
    /// Free lanes go to the queue in its order: the first of the queue are dealt
    /// one each, all of them or as many as there are lanes, and everyone else is
    /// as they were.
    pub proof fn lanes_go_to_the_front_of_the_queue(
        self,
        before: Self,
        queue: Seq<usize>,
        n: int,
        k: int,
        i: int,
    )
        requires
            self.dealt_in_order(before, queue, n),
            0 <= k < n,
            0 <= i < before.requests@.len(),
            forall|m: int| 0 <= m < n ==> #[trigger] queue[m] != i as usize,
            before.requests@.len() <= usize::MAX,
        ensures
            ({
                let (r, after) = (
                    before.requests@[queue[k] as int],
                    self.requests@[queue[k] as int],
                );
                &&& after.state == RequestState::Running
                &&& after.lane matches Some(lane) && before.free_lanes@.contains(lane)
                    && after.id == r.id
                &&& after.remaining_work == r.remaining_work
            }),
            self.requests@[i] == before.requests@[i],
            self.free_lanes@.len() == before.free_lanes@.len() - n,
    {
        let at = before.free_lanes@.len() - 1 - k;
        assert(before.free_lanes@[at] == self.requests@[queue[k] as int].lane->Some_0);
        if queue.take(n).contains(i as usize) {
            let m = choose|m: int| 0 <= m < n && queue.take(n)[m] == i as usize;
            assert(queue[m] == i as usize);
        }
    }
}

/// A request waits for its first chunk, is half-way through its prompt, or has all
/// of it prefilled, by how far it is; a chunk may be sent for it on the device
/// alone, and while there is some of its prompt to send.
pub proof fn a_request_is_sent_chunks_until_its_prompt_ends(r: Request)
    ensures
        crate::prefill::waits(r) <==> r.state == RequestState::Admitted,
        crate::prefill::half_prefilled(r) <==> r.state == RequestState::Prefilling
            && r.prefill_progress < r.input.tokens@.len(),
        crate::prefill::sendable(r) <==> r.resident && (r.state == RequestState::Admitted || (
        r.state == RequestState::Prefilling && r.prefill_progress < r.input.tokens@.len())),
        crate::eviction::suspendable(r) <==> r.resident && (r.state == RequestState::Running
            || r.state == RequestState::Prefilling),
{
}

impl<C: Compute, K: Clock> ConcreteScheduler<C, K> {
    /// A prompt ends with its next chunk exactly where the chunk takes all that is
    /// left of it; a text of no more than the serving width does.
    pub proof fn a_prompt_ends_with_the_chunk_that_takes_the_rest(self, i: int)
        requires
            0 <= i < self.requests@.len(),
            self.requests@[i].prefill_progress <= self.requests@[i].input.tokens@.len()
                <= u32::MAX,
        ensures
            ({
                let r = self.requests@[i];
                let width = self.config.serving_chunk_tokens;
                let left = r.input.tokens@.len() - r.prefill_progress;
                &&& self.one_chunk(i) <==> crate::plan::chunk(r, width) == left
                &&& r.input.multimodal is None && left <= width ==> self.one_chunk(i)
                &&& left > width ==> !self.one_chunk(i)
            }),
    {
        let r = self.requests@[i];
        crate::chunks::chunk_is_bounded(r, self.config.serving_chunk_tokens);
        crate::plan::a_chunk_is_as_wide_as_it_may_be(r, self.config.serving_chunk_tokens);
    }

    /// A checkpoint is kept where state outlives its request, there is a prefix for
    /// it to stand on, the ledger has room for it, and a page of the pool for what
    /// it has past whole pages.
    pub proof fn a_checkpoint_is_kept_where_it_can_stand(self, r: Request, at: u32)
        requires
            self.config.kv_page_tokens > 0,
        ensures
            self.keeps_checkpoint(r, at) ==> self.config.prompt_reuse && r.prefix_entry is Some
                && self.checkpoints.used_bytes < self.checkpoints.capacity_bytes,
            self.keeps_checkpoint(r, at) && at as int % self.config.kv_page_tokens as int != 0
                ==> self.kv_used_pages < self.capacity.kv_pages,
            !self.config.prompt_reuse ==> !self.keeps_checkpoint(r, at),
    {
    }
}

impl<C: Compute, K: Clock> ConcreteScheduler<C, K> {
    /// A match is resumed from where it still is what was found: in the tier it was
    /// found in, under the content the prompt itself has at its length, and, on the
    /// device, on a prefix that can be held once more and whose pages the request
    /// has reserved.
    pub proof fn a_match_is_resumed_where_it_can_be_held(
        self,
        r: Request,
        m: crate::checkpoint::CheckpointMatch,
        keys: Seq<crate::identity::MatchKey>,
        i: int,
    )
        requires
            self.wf(),
            0 <= i < self.checkpoints.entries@.len(),
            self.checkpoints.entries@[i].id == m.id,
        ensures
            ({
                let e = self.checkpoints.entries@[i];
                let page = self.config.kv_page_tokens;
                &&& self.can_resume(r, m, keys) ==> e.tier == m.source && m.tokens < keys.len()
                    && keys[m.tokens as int] == e.key
                &&& self.can_resume(r, m, keys) && m.source == ReuseSource::Device ==> {
                    &&& crate::prefix::held(self.prefix.entries@, m.prefix)
                    &&& m.pages <= r.resources.kv_pages
                }
                &&& m.source == ReuseSource::Device && e.tier == ReuseSource::Device && m.tokens
                    < keys.len() && keys[m.tokens as int] == e.key && crate::prefix::held(
                    self.prefix.entries@,
                    m.prefix,
                ) && crate::prefix::entry_of(self.prefix.entries@, m.prefix).refcount < u32::MAX
                    && m.pages == crate::prefix::entry_of(
                    self.prefix.entries@,
                    m.prefix,
                ).length_tokens as int / page as int && m.pages <= r.resources.kv_pages
                    ==> self.can_resume(r, m, keys)
            }),
    {
        let entries = self.checkpoints.entries@;
        let p = crate::checkpoint::place_of(entries, m.id);
        assert(entries[i].id == m.id);
        assert(0 <= p < entries.len() && entries[p].id == m.id);
        if p < i {
            assert(entries[p].id < entries[i].id);
        } else if i < p {
            assert(entries[i].id < entries[p].id);
        }
    }
}

} // verus!
