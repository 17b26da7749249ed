//! Decode rounds: one round over every running lane, what each committed, and
//! why a request ended.

use crate::concrete::{request_ok, ConcreteScheduler};
use crate::constrained::{Draw, PermittedSet};
use crate::landing::done_events;
use crate::lifecycle::{done_event, moves_told, moves_told_on, one_end_told};
use crate::moves::{hosted_kept, lanes_kept};
use crate::order::{in_service_order, is_service_order, ordered_by, picks};
use crate::prefill::carries_on;
use crate::request::Request;
use crate::retention::longer;
use crate::scheduler::{Clock, Compute, DecodeJob, DecodeOutcome};
use crate::types::{
    ComputeError, DecisionRead, FinishReason, LaneId, RequestId, RequestState, SchedEvent, TokenId,
};
use vstd::prelude::*;

verus! {

/// Whether a request's run ends on `token`.
pub open spec fn ends_run(r: Request, token: TokenId) -> bool {
    r.input.constrained matches Some(schedule) && schedule.terminator == Some(token)
}

/// How many of a round's tokens a request takes, `n` of them taken already:
/// up to and with the one that ends its run, and no more than its budget.
pub open spec fn taken_of(r: Request, tokens: Seq<TokenId>, n: int) -> int
    decreases tokens.len() - n,
{
    if n < 0 || n >= tokens.len() {
        n
    } else if ends_run(r, tokens[n]) || n + 1 >= r.remaining_work {
        n + 1
    } else {
        taken_of(r, tokens, n + 1)
    }
}

/// The draws the first `n` tokens are recorded with: those that came back with
/// a probability.
pub open spec fn draws_of(tokens: Seq<TokenId>, probability_bits: Seq<u32>, n: int) -> Seq<Draw>
    decreases n,
{
    if n <= 0 {
        Seq::empty()
    } else if n - 1 < probability_bits.len() {
        draws_of(tokens, probability_bits, n - 1).push(
            Draw { token: tokens[n - 1], probability_bits: probability_bits[n - 1] },
        )
    } else {
        draws_of(tokens, probability_bits, n - 1)
    }
}

/// How the first `n` tokens are reported.
pub open spec fn token_events(request: RequestId, tokens: Seq<TokenId>, n: int) -> Seq<SchedEvent> {
    Seq::new(n as nat, |k: int| SchedEvent::Token { request, token: tokens[k] })
}

/// The request after it took its part of a round.
pub open spec fn round_landed(r: Request, outcome: DecodeOutcome, after: Request) -> bool {
    let n = taken_of(r, outcome.tokens@, 0);
    &&& after == (Request {
        tokens: (r.tokens + n) as u32,
        remaining_work: (r.remaining_work - n) as u64,
        drawn: after.drawn,
        gdn: after.gdn,
        spec: match (r.spec, outcome.spec) {
            (old_spec, None) => old_spec,
            (None, Some(s)) => Some(s),
            (Some(so_far), Some(s)) => Some(so_far.total(s)),
        },
        ..r
    })
    &&& after.drawn@ == r.drawn@ + draws_of(outcome.tokens@, outcome.probability_bits@, n)
    &&& after.gdn@ == (if outcome.tokens@.len() > 0 {
        r.gdn@.checkpointed((r.input.tokens@.len() + r.tokens + n) as nat)
    } else {
        r.gdn@
    })
}

/// Why a request whose budget is spent stopped.
pub open spec fn spent_reason(r: Request) -> FinishReason {
    if r.input.constrained is Some {
        FinishReason::Stop
    } else {
        FinishReason::Length
    }
}

/// Whether a request ends with this round, and why: its run terminated; the
/// backend said so of a token it took; or its budget is spent.
pub open spec fn round_end(r: Request, outcome: DecodeOutcome) -> Option<FinishReason> {
    let tokens = outcome.tokens@;
    let n = taken_of(r, tokens, 0);
    let terminated = n > 0 && ends_run(r, tokens[n - 1]);
    if terminated {
        Some(FinishReason::Stop)
    } else if outcome.finish is Some && n == tokens.len() {
        outcome.finish
    } else if n == r.remaining_work {
        Some(spent_reason(r))
    } else {
        None
    }
}

/// A request takes no more than its budget, and all of a round that neither
/// ends its run nor spends its budget.
pub proof fn a_round_never_overruns(r: Request, tokens: Seq<TokenId>, n: int)
    requires
        0 <= n < r.remaining_work,
        n <= tokens.len(),
    ensures
        n <= taken_of(r, tokens, n) <= tokens.len(),
        taken_of(r, tokens, n) <= r.remaining_work,
        n < tokens.len() ==> taken_of(r, tokens, n) > n,
        taken_of(r, tokens, n) < tokens.len() ==> taken_of(r, tokens, n) == r.remaining_work
            || ends_run(r, tokens[taken_of(r, tokens, n) - 1]),
        forall|k: int|
            n <= k < taken_of(r, tokens, n) - 1 ==> !ends_run(r, #[trigger] tokens[k]),
    decreases tokens.len() - n,
{
    if n < tokens.len() && !(ends_run(r, tokens[n]) || n + 1 >= r.remaining_work) {
        a_round_never_overruns(r, tokens, n + 1);
    }
}

impl Request {
    /// Whether `token` ends this request's run.
    fn run_ends_on(&self, token: TokenId) -> (ends: bool)
        ensures
            ends == ends_run(*self, token),
    {
        match &self.input.constrained {
            Some(schedule) => schedule.ends_on(token),
            None => false,
        }
    }

    /// Take this request's part of a round. Gives why it ended, if it did, by
    /// anything but its budget alone, and how many tokens it took.
    fn land_round(&mut self, outcome: &DecodeOutcome, events: &mut Vec<SchedEvent>) -> (end: Option<
        FinishReason,
    >)
        requires
            old(self).remaining_work > 0,
            old(self).tokens + old(self).remaining_work <= u32::MAX,
            old(self).input.tokens@.len() + old(self).tokens + old(self).remaining_work
                <= u32::MAX,
        ensures
            round_landed(*old(self), *outcome, *final(self)),
            end == round_end(*old(self), *outcome),
            final(events)@ == old(events)@ + token_events(
                old(self).id,
                outcome.tokens@,
                taken_of(*old(self), outcome.tokens@, 0),
            ),
    {
        let ghost before = *self;
        let ghost tokens = outcome.tokens@;
        let ghost bits = outcome.probability_bits@;
        let ghost first_events = events@;
        let ghost total = taken_of(before, tokens, 0);
        proof {
            a_round_never_overruns(before, tokens, 0);
        }
        if let Some(spec) = outcome.spec {
            self.spec = match self.spec {
                Some(so_far) => Some(so_far.plus(spec)),
                None => Some(spec),
            };
        }
        let ghost counted = self.spec;
        let id: RequestId = self.id;
        let mut n: usize = 0;
        let mut terminated: bool = false;
        assert(self.drawn@ =~= before.drawn@ + draws_of(tokens, bits, 0));
        assert(events@ =~= first_events + token_events(id, tokens, 0));
        while n < outcome.tokens.len() && self.remaining_work > 0 && !terminated
            invariant
                tokens == outcome.tokens@,
                bits == outcome.probability_bits@,
                id == before.id,
                total == taken_of(before, tokens, 0),
                total <= before.remaining_work,
                before.tokens + before.remaining_work <= u32::MAX,
                *self == (Request {
                    tokens: (before.tokens + n) as u32,
                    remaining_work: (before.remaining_work - n) as u64,
                    drawn: self.drawn,
                    spec: counted,
                    ..before
                }),
                self.drawn@ == before.drawn@ + draws_of(tokens, bits, n as int),
                events@ == first_events + token_events(id, tokens, n as int),
                n <= total <= tokens.len(),
                terminated == (n > 0 && ends_run(before, tokens[n - 1])),
                terminated || self.remaining_work == 0 || n == tokens.len() ==> n == total,
                !terminated && self.remaining_work > 0 ==> total == taken_of(
                    before,
                    tokens,
                    n as int,
                ),
            decreases outcome.tokens@.len() - n,
        {
            let token: TokenId = outcome.tokens[n];
            let ghost drawn = self.drawn@;
            proof {
                a_round_never_overruns(before, tokens, n as int);
            }
            if n < outcome.probability_bits.len() {
                self.drawn.push(
                    Draw { token, probability_bits: outcome.probability_bits[n] },
                );
            }
            self.tokens = self.tokens + 1;
            self.remaining_work = self.remaining_work - 1;
            events.push(SchedEvent::Token { request: id, token });
            terminated = self.run_ends_on(token);
            n = n + 1;
            proof {
                assert(self.drawn@ =~= before.drawn@ + draws_of(tokens, bits, n as int));
                assert(events@ =~= first_events + token_events(id, tokens, n as int));
                assert(terminated == ends_run(before, tokens[n - 1]));
            }
        }
        if outcome.tokens.len() > 0 {
            let position: usize = self.input.tokens.len() + self.tokens as usize;
            self.checkpoint(position);
        }
        if terminated {
            return Some(FinishReason::Stop);
        }
        match outcome.finish {
            Some(reason) if n == outcome.tokens.len() => Some(reason),
            _ => if self.remaining_work == 0 {
                if self.input.is_constrained() {
                    Some(FinishReason::Stop)
                } else {
                    Some(FinishReason::Length)
                }
            } else {
                None
            },
        }
    }
}

/// A decision whose prompt is prefilled.
pub open spec fn has_decided(r: Request) -> bool {
    r.state == RequestState::Prefilling && r.prefilled() && r.input.decides()
}

/// How a decision ends: answered, or without the readout it asked for.
pub open spec fn decision_reason(r: Request) -> FinishReason {
    let answered = match r.input.decision {
        Some(DecisionRead::Attention(_)) => r.attention is Some,
        _ => r.readout is Some,
    };
    if answered {
        FinishReason::Stop
    } else {
        FinishReason::Error
    }
}

/// How the decisions among the first `n` requests are reported.
pub open spec fn decided_events(reqs: Seq<Request>, n: int) -> Seq<SchedEvent>
    decreases n,
{
    if n <= 0 {
        Seq::empty()
    } else if has_decided(reqs[n - 1]) {
        decided_events(reqs, n - 1).push(done_event(reqs[n - 1], decision_reason(reqs[n - 1])))
    } else {
        decided_events(reqs, n - 1)
    }
}

/// The positions among the first `n` requests that are running.
pub open spec fn running_in(reqs: Seq<Request>, n: int) -> Seq<usize>
    decreases n,
{
    if n <= 0 {
        Seq::empty()
    } else if reqs[n - 1].state == RequestState::Running {
        running_in(reqs, n - 1).push((n - 1) as usize)
    } else {
        running_in(reqs, n - 1)
    }
}

/// The keys lanes are ordered by.
pub open spec fn lane_keys(reqs: Seq<Request>, items: Seq<usize>) -> Seq<(u64, u64)> {
    Seq::new(
        items.len(),
        |k: int|
            (
                match reqs[items[k] as int].lane {
                    Some(lane) => lane as u64,
                    None => 0,
                },
                reqs[items[k] as int].id,
            ),
    )
}

/// `lanes` are the running requests, by lane.
pub open spec fn are_lanes(reqs: Seq<Request>, lanes: Seq<usize>) -> bool {
    let items = running_in(reqs, reqs.len() as int);
    ordered_by(items, lane_keys(reqs, items), lanes)
}

/// Positions of running requests, each once.
pub open spec fn all_running(reqs: Seq<Request>, list: Seq<usize>) -> bool {
    &&& forall|k: int|
        0 <= k < list.len() ==> (#[trigger] list[k]) < reqs.len() && reqs[list[k] as int].state
            == RequestState::Running
    &&& forall|a: int, b: int| 0 <= a < b < list.len() ==> #[trigger] list[a] != #[trigger] list[b]
}

proof fn running_in_is_running(reqs: Seq<Request>, n: int)
    requires
        0 <= n <= reqs.len(),
        reqs.len() <= usize::MAX,
    ensures
        forall|k: int|
            0 <= k < running_in(reqs, n).len() ==> (#[trigger] running_in(reqs, n)[k]) < n
                && reqs[running_in(reqs, n)[k] as int].state == RequestState::Running,
        forall|a: int, b: int|
            0 <= a < b < running_in(reqs, n).len() ==> (#[trigger] running_in(reqs, n)[a]) < (
            #[trigger] running_in(reqs, n)[b]),
    decreases n,
{
    if n > 0 {
        running_in_is_running(reqs, n - 1);
        let was = running_in(reqs, n - 1);
        let now = running_in(reqs, n);
        assert forall|k: int| 0 <= k < now.len() implies (#[trigger] now[k]) < n
            && reqs[now[k] as int].state == RequestState::Running by {
            if k < was.len() {
                assert(now[k] == was[k]);
            }
        }
        assert forall|a: int, b: int| 0 <= a < b < now.len() implies (#[trigger] now[a]) < (
        #[trigger] now[b]) by {
            assert(now[a] == was[a]);
            if b < was.len() {
                assert(now[b] == was[b]);
            }
        }
    }
}

pub proof fn lanes_are_running(reqs: Seq<Request>, lanes: Seq<usize>)
    requires
        are_lanes(reqs, lanes),
        reqs.len() <= usize::MAX,
    ensures
        all_running(reqs, lanes),
{
    let items = running_in(reqs, reqs.len() as int);
    let keys = lane_keys(reqs, items);
    running_in_is_running(reqs, reqs.len() as int);
    let order = choose|order: Seq<usize>|
        is_service_order(keys, order) && #[trigger] picks(items, order, lanes);
    assert forall|k: int| 0 <= k < lanes.len() implies (#[trigger] lanes[k]) < reqs.len()
        && reqs[lanes[k] as int].state == RequestState::Running by {
        assert(lanes[k] == items[order[k] as int]);
    }
    assert forall|a: int, b: int| 0 <= a < b < lanes.len() implies #[trigger] lanes[a]
        != #[trigger] lanes[b] by {
        assert(lanes[a] == items[order[a] as int]);
        assert(lanes[b] == items[order[b] as int]);
        assert(crate::order::precedes(keys, order[a] as int, order[b] as int));
        if order[a] < order[b] {
            assert(items[order[a] as int] < items[order[b] as int]);
        } else {
            assert(items[order[b] as int] < items[order[a] as int]);
        }
    }
}

/// Those of the first `n` of `list` that may still generate.
pub open spec fn with_budget(reqs: Seq<Request>, list: Seq<usize>, n: int) -> Seq<usize>
    decreases n,
{
    if n <= 0 {
        Seq::empty()
    } else if reqs[list[n - 1] as int].remaining_work > 0 {
        with_budget(reqs, list, n - 1).push(list[n - 1])
    } else {
        with_budget(reqs, list, n - 1)
    }
}

/// How those of the first `n` of `list` whose budget is spent are reported.
pub open spec fn spent_events(reqs: Seq<Request>, list: Seq<usize>, n: int) -> Seq<SchedEvent>
    decreases n,
{
    if n <= 0 {
        Seq::empty()
    } else {
        let r = reqs[list[n - 1] as int];
        if r.remaining_work == 0 {
            spent_events(reqs, list, n - 1).push(done_event(r, spent_reason(r)))
        } else {
            spent_events(reqs, list, n - 1)
        }
    }
}

/// `job` is a round of `r`.
pub open spec fn is_decode_job(job: DecodeJob, r: Request) -> bool {
    &&& job.request == r.id
    &&& Some(job.lane) == r.lane
    &&& job.params == r.input.params
    &&& job.remaining_tokens == r.remaining_work
    // The prefill drew the first token: this round draws the one after those
    // already out.
    &&& match job.permitted {
        Some(set) => r.input.constrained matches Some(schedule) && r.tokens + 1
            < schedule.steps@.len() && set@ == schedule.steps@[r.tokens + 1]@,
        None => !(r.input.constrained matches Some(schedule) && r.tokens + 1
            < schedule.steps@.len()),
    }
}

/// The round of `r`.
pub fn decode_job(r: &Request, lane: LaneId) -> (job: DecodeJob)
    requires
        r.lane == Some(lane),
        r.remaining_work <= u32::MAX,
        r.tokens < u32::MAX,
    ensures
        is_decode_job(job, *r),
{
    let permitted: Option<PermittedSet> = match &r.input.constrained {
        Some(schedule) => schedule.step(r.tokens as usize + 1),
        None => None,
    };
    DecodeJob {
        request: r.id,
        lane,
        params: r.input.params,
        remaining_tokens: r.remaining_work as u32,
        permitted,
    }
}

impl<C: Compute, K: Clock> ConcreteScheduler<C, K> {
    /// What became of a request that was sent a round.
    pub open spec fn round_settled(
        self,
        r: Request,
        outcome: DecodeOutcome,
        after: Request,
    ) -> bool {
        match round_end(r, outcome) {
            Some(_) => exists|at_end: Request| #[trigger]
                round_landed(r, outcome, at_end) && self.finished(at_end, after),
            None => round_landed(r, outcome, after),
        }
    }
}

/// What a round of `r` is reported as: its tokens, and its end if it ended.
pub open spec fn is_round_report(
    r: Request,
    outcome: DecodeOutcome,
    report: Seq<SchedEvent>,
) -> bool {
    let n = taken_of(r, outcome.tokens@, 0);
    let tokens = token_events(r.id, outcome.tokens@, n);
    match round_end(r, outcome) {
        Some(reason) => exists|at_end: Request| #[trigger]
            round_landed(r, outcome, at_end) && report == tokens.push(done_event(at_end, reason)),
        None => report == tokens,
    }
}

/// `reports` are the reports of the rounds that came back, by lane.
pub open spec fn rounds_reported(
    reqs: Seq<Request>,
    going: Seq<usize>,
    outcomes: Seq<DecodeOutcome>,
    reports: Seq<Seq<SchedEvent>>,
) -> bool {
    forall|k: int|
        0 <= k < reports.len() ==> is_round_report(
            reqs[going[k] as int],
            outcomes[k],
            #[trigger] reports[k],
        )
}

impl<C: Compute, K: Clock> ConcreteScheduler<C, K> {
    /// Complete every decision whose prompt is prefilled: it generates nothing.
    pub(crate) fn finish_decided(&mut self, events: &mut Vec<SchedEvent>)
        requires
            old(self).wf(),
            old(self).settled(),
        ensures
            moves_told(old(self).requests@, final(self).requests@, old(events)@, final(events)@),
            final(self).wf(),
            final(self).settled(),
            final(self).carried(*old(self)),
            final(self).same_run(*old(self)),
            final(events)@ == old(events)@ + decided_events(
                old(self).requests@,
                old(self).requests@.len() as int,
            ),
            forall|i: int|
                0 <= i < old(self).requests@.len() ==> if has_decided(old(self).requests@[i]) {
                    old(self).finished(old(self).requests@[i], #[trigger] final(self).requests@[i])
                } else {
                    final(self).requests@[i] == old(self).requests@[i]
                },
            final(self).only_let_go(*old(self)),
    {
        let ghost before = *self;
        let ghost first_events = events@;
        let mut i: usize = 0;
        proof {
            self.lets_nothing_go(before);
        }
        assert(events@ =~= first_events + decided_events(before.requests@, 0));
        while i < self.requests.len()
            invariant
                before == *old(self),
                first_events == old(events)@,
                self.wf(),
                self.settled(),
                self.carried(before),
                self.same_run(before),
                longer(first_events, events@),
                moves_told(before.requests@, self.requests@, first_events, events@),
                i <= self.requests@.len(),
                self.only_let_go(before),
                events@ == first_events + decided_events(before.requests@, i as int),
                forall|j: int|
                    0 <= j < before.requests@.len() ==> if j < i && has_decided(
                        before.requests@[j],
                    ) {
                        before.finished(before.requests@[j], #[trigger] self.requests@[j])
                    } else {
                        self.requests@[j] == before.requests@[j]
                    },
            decreases self.requests@.len() - i,
        {
            assert(self.requests@[i as int] == before.requests@[i as int]);
            let decided: bool = self.requests[i].state == RequestState::Prefilling
                && self.requests[i].prefill_complete() && self.requests[i].input.is_decision();
            if decided {
                let ghost middle = *self;
                let ghost until = events@;
                let answered: bool = match &self.requests[i].input.decision {
                    Some(DecisionRead::Attention(_)) => self.requests[i].attention.is_some(),
                    _ => self.requests[i].readout.is_some(),
                };
                let reason = if answered {
                    FinishReason::Stop
                } else {
                    FinishReason::Error
                };
                self.mark_done(i, events, reason);
                proof {
                    self.let_go_on(middle, before);
                    one_end_told(
                        middle.requests@,
                        self.requests@,
                        i as int,
                        reason,
                        until,
                        middle.requests@[i as int],
                    );
                    moves_told_on(
                        before.requests@,
                        middle.requests@,
                        self.requests@,
                        first_events,
                        until,
                        events@,
                    );
                    assert(events@ =~= first_events + decided_events(before.requests@, i + 1));
                    assert forall|j: int| 0 <= j < before.requests@.len() implies carries_on(
                        before.requests@[j],
                        #[trigger] self.requests@[j],
                    ) by {
                        assert(carries_on(before.requests@[j], middle.requests@[j]));
                        if j != i {
                            assert(self.requests@[j] == middle.requests@[j]);
                        }
                    }
                    assert forall|j: int| 0 <= j < before.requests@.len() implies if j < i + 1
                        && has_decided(before.requests@[j]) {
                        before.finished(before.requests@[j], #[trigger] self.requests@[j])
                    } else {
                        self.requests@[j] == before.requests@[j]
                    } by {
                        if j != i {
                            assert(self.requests@[j] == middle.requests@[j]);
                        }
                    }
                }
            }
            i = i + 1;
        }
    }

    /// The running requests, by lane.
    pub(crate) fn running_lanes(&self) -> (lanes: Vec<usize>)
        requires
            self.wf(),
        ensures
            are_lanes(self.requests@, lanes@),
            all_running(self.requests@, lanes@),
    {
        let mut items: Vec<usize> = Vec::new();
        let mut keys: Vec<(u64, u64)> = Vec::new();
        let mut i: usize = 0;
        while i < self.requests.len()
            invariant
                i <= self.requests@.len(),
                items@ == running_in(self.requests@, i as int),
                keys@.len() == items@.len(),
                forall|k: int|
                    0 <= k < keys@.len() ==> #[trigger] keys@[k] == lane_keys(
                        self.requests@,
                        items@,
                    )[k],
            decreases self.requests@.len() - i,
        {
            let r = &self.requests[i];
            if r.state == RequestState::Running {
                let ghost was = items@;
                let lane: u64 = match r.lane {
                    Some(lane) => lane as u64,
                    None => 0,
                };
                items.push(i);
                keys.push((lane, r.id));
                assert forall|k: int| 0 <= k < keys@.len() implies #[trigger] keys@[k] == lane_keys(
                    self.requests@,
                    items@,
                )[k] by {
                    if k < was.len() {
                        assert(keys@[k] == lane_keys(self.requests@, was)[k]);
                    }
                }
            }
            i = i + 1;
        }
        assert(keys@ =~= lane_keys(self.requests@, items@));
        let lanes = in_service_order(&items, &keys);
        proof {
            assert(self.requests@.len() == self.requests.len());
            lanes_are_running(self.requests@, lanes@);
        }
        lanes
    }

    /// Complete every lane whose budget is spent; gives the others.
    pub(crate) fn finish_spent(&mut self, lanes: &Vec<usize>, events: &mut Vec<SchedEvent>) -> (
        going: Vec<usize>)
        requires
            old(self).wf(),
            old(self).settled(),
            all_running(old(self).requests@, lanes@),
        ensures
            moves_told(old(self).requests@, final(self).requests@, old(events)@, final(events)@),
            final(self).wf(),
            final(self).settled(),
            final(self).carried(*old(self)),
            final(self).same_run(*old(self)),
            going@ == with_budget(old(self).requests@, lanes@, lanes@.len() as int),
            all_running(final(self).requests@, going@),
            forall|k: int|
                0 <= k < going@.len() ==> final(self).requests@[(#[trigger] going@[k]) as int]
                    == old(self).requests@[going@[k] as int]
                    && final(self).requests@[going@[k] as int].remaining_work > 0,
            final(events)@ == old(events)@ + spent_events(
                old(self).requests@,
                lanes@,
                lanes@.len() as int,
            ),
            forall|k: int|
                0 <= k < lanes@.len() ==> if old(self).requests@[(
                #[trigger] lanes@[k]) as int].remaining_work == 0 {
                    old(self).finished(
                        old(self).requests@[lanes@[k] as int],
                        final(self).requests@[lanes@[k] as int],
                    )
                } else {
                    final(self).requests@[lanes@[k] as int] == old(self).requests@[lanes@[k] as int]
                },
            forall|i: int|
                0 <= i < old(self).requests@.len() && !lanes@.contains(i as usize) ==> (
                #[trigger] final(self).requests@[i]) == old(self).requests@[i],
            final(self).only_let_go(*old(self)),
    {
        let ghost before = *self;
        let ghost first_events = events@;
        proof {
            self.lets_nothing_go(before);
        }
        let mut going: Vec<usize> = Vec::new();
        let mut n: usize = 0;
        assert(events@ =~= first_events + spent_events(before.requests@, lanes@, 0));
        while n < lanes.len()
            invariant
                before == *old(self),
                first_events == old(events)@,
                self.wf(),
                self.settled(),
                self.carried(before),
                self.same_run(before),
                longer(first_events, events@),
                moves_told(before.requests@, self.requests@, first_events, events@),
                all_running(before.requests@, lanes@),
                self.only_let_go(before),
                n <= lanes@.len(),
                going@ == with_budget(before.requests@, lanes@, n as int),
                forall|k: int|
                    0 <= k < going@.len() ==> lanes@.take(n as int).contains(#[trigger] going@[k])
                        && self.requests@[going@[k] as int] == before.requests@[going@[k] as int]
                        && self.requests@[going@[k] as int].remaining_work > 0 && going@[k]
                        < before.requests@.len(),
                forall|a: int, b: int|
                    0 <= a < b < going@.len() ==> #[trigger] going@[a] != #[trigger] going@[b],
                events@ == first_events + spent_events(before.requests@, lanes@, n as int),
                forall|k: int|
                    0 <= k < n ==> if before.requests@[(
                    #[trigger] lanes@[k]) as int].remaining_work == 0 {
                        before.finished(
                            before.requests@[lanes@[k] as int],
                            self.requests@[lanes@[k] as int],
                        )
                    } else {
                        self.requests@[lanes@[k] as int] == before.requests@[lanes@[k] as int]
                    },
                forall|k: int|
                    n <= k < lanes@.len() ==> self.requests@[(#[trigger] lanes@[k]) as int]
                        == before.requests@[lanes@[k] as int],
                forall|i: int|
                    0 <= i < before.requests@.len() && !lanes@.contains(i as usize) ==> (
                    #[trigger] self.requests@[i]) == before.requests@[i],
            decreases lanes@.len() - n,
        {
            let i: usize = lanes[n];
            let ghost middle = *self;
            let ghost until = events@;
            let ghost was = going@;
            proof {
                assert(self.requests@[lanes@[n as int] as int] == before.requests@[i as int]);
                assert(lanes@.contains(i));
                let front = lanes@.take(n as int);
                let more = lanes@.take(n + 1);
                assert forall|k: int| 0 <= k < was.len() implies more.contains(#[trigger] was[k])
                    && was[k] != i by {
                    assert(front.contains(was[k]));
                    let m = choose|m: int| 0 <= m < front.len() && front[m] == was[k];
                    assert(more[m] == was[k]);
                    assert(lanes@[m] == was[k]);
                    assert(lanes@[m] != lanes@[n as int]);
                }
                assert(more[n as int] == i);
            }
            if self.requests[i].remaining_work == 0 {
                let reason = self.budget_spent_reason(i);
                self.mark_done(i, events, reason);
                proof {
                    self.let_go_on(middle, before);
                    one_end_told(
                        middle.requests@,
                        self.requests@,
                        i as int,
                        reason,
                        until,
                        middle.requests@[i as int],
                    );
                    moves_told_on(
                        before.requests@,
                        middle.requests@,
                        self.requests@,
                        first_events,
                        until,
                        events@,
                    );
                    assert(events@ =~= first_events + spent_events(
                        before.requests@,
                        lanes@,
                        n + 1,
                    ));
                    assert forall|j: int| 0 <= j < before.requests@.len() implies carries_on(
                        before.requests@[j],
                        #[trigger] self.requests@[j],
                    ) by {
                        assert(carries_on(before.requests@[j], middle.requests@[j]));
                        if j != i {
                            assert(self.requests@[j] == middle.requests@[j]);
                        }
                    }
                    assert forall|k: int| 0 <= k < n implies self.requests@[(
                    #[trigger] lanes@[k]) as int] == middle.requests@[lanes@[k] as int] by {
                        assert(lanes@[k] != lanes@[n as int]);
                        assert(before.requests@[lanes@[k] as int].state == RequestState::Running);
                    }
                    assert forall|k: int| n < k < lanes@.len() implies self.requests@[(
                    #[trigger] lanes@[k]) as int] == before.requests@[lanes@[k] as int] by {
                        assert(lanes@[n as int] != lanes@[k]);
                        assert(self.requests@[lanes@[k] as int]
                            == middle.requests@[lanes@[k] as int]);
                    }
                    assert forall|k: int| 0 <= k < going@.len() implies self.requests@[(
                    #[trigger] going@[k]) as int] == before.requests@[going@[k] as int] by {
                        assert(was[k] != i);
                        assert(self.requests@[was[k] as int] == middle.requests@[was[k] as int]);
                    }
                }
            } else {
                going.push(i);
                assert forall|k: int| 0 <= k < going@.len() implies lanes@.take(n + 1).contains(
                    #[trigger] going@[k],
                ) && self.requests@[going@[k] as int] == before.requests@[going@[k] as int]
                    && self.requests@[going@[k] as int].remaining_work > 0 && going@[k]
                    < before.requests@.len() by {
                    if k < was.len() {
                        assert(going@[k] == was[k]);
                    }
                }
                assert forall|a: int, b: int| 0 <= a < b < going@.len() implies #[trigger] going@[a]
                    != #[trigger] going@[b] by {
                    assert(going@[a] == was[a]);
                    if b < was.len() {
                        assert(going@[b] == was[b]);
                    }
                }
            }
            n = n + 1;
        }
        proof {
            let front = lanes@.take(n as int);
            assert forall|k: int| 0 <= k < going@.len() implies (#[trigger] going@[k])
                < self.requests@.len() && self.requests@[going@[k] as int].state
                == RequestState::Running by {
                assert(front.contains(going@[k]));
                let m = choose|m: int| 0 <= m < front.len() && front[m] == going@[k];
                assert(lanes@[m] == going@[k]);
                assert(before.requests@[lanes@[m] as int].state == RequestState::Running);
            }
        }
        going
    }

    /// The jobs of a round.
    pub(crate) fn decode_jobs(&self, going: &Vec<usize>) -> (jobs: Vec<DecodeJob>)
        requires
            self.wf(),
            all_running(self.requests@, going@),
            forall|k: int|
                0 <= k < going@.len() ==> self.requests@[(#[trigger] going@[k]) as int].remaining_work
                    > 0,
        ensures
            jobs@.len() == going@.len(),
            forall|k: int|
                0 <= k < going@.len() ==> is_decode_job(
                    #[trigger] jobs@[k],
                    self.requests@[going@[k] as int],
                ),
    {
        let mut jobs: Vec<DecodeJob> = Vec::new();
        while jobs.len() < going.len()
            invariant
                self.wf(),
                all_running(self.requests@, going@),
                forall|k: int|
                    0 <= k < going@.len() ==> self.requests@[(
                    #[trigger] going@[k]) as int].remaining_work > 0,
                jobs@.len() <= going@.len(),
                forall|k: int|
                    0 <= k < jobs@.len() ==> is_decode_job(
                        #[trigger] jobs@[k],
                        self.requests@[going@[k] as int],
                    ),
            decreases going@.len() - jobs@.len(),
        {
            let n: usize = jobs.len();
            let r = &self.requests[going[n]];
            proof {
                assert(going@[n as int] < self.requests@.len());
                assert(self.requests@[going@[n as int] as int].remaining_work > 0);
                assert(request_ok(*r, self.config, self.prefix.entries@));
            }
            let lane: LaneId = match r.lane {
                Some(lane) => lane,
                None => 0,
            };
            jobs.push(decode_job(r, lane));
        }
        jobs
    }

    /// A round of the request at `i` came back.
    pub(crate) fn land_one_round(
        &mut self,
        i: usize,
        outcome: &DecodeOutcome,
        events: &mut Vec<SchedEvent>,
    )
        requires
            old(self).wf(),
            old(self).settled(),
            i < old(self).requests@.len(),
            old(self).requests@[i as int].state == RequestState::Running,
            old(self).requests@[i as int].remaining_work > 0,
        ensures
            moves_told(old(self).requests@, final(self).requests@, old(events)@, final(events)@),
            final(self).wf(),
            final(self).settled(),
            final(self).carried(*old(self)),
            final(self).same_run(*old(self)),
            old(self).round_settled(
                old(self).requests@[i as int],
                *outcome,
                final(self).requests@[i as int],
            ),
            forall|j: int|
                0 <= j < old(self).requests@.len() && j != i ==> (
                #[trigger] final(self).requests@[j]) == old(self).requests@[j],
            longer(old(events)@, final(events)@),
            is_round_report(
                old(self).requests@[i as int],
                *outcome,
                final(events)@.skip(old(events)@.len() as int),
            ),
            final(self).only_let_go(*old(self)),
    {
        let ghost before = *self;
        let ghost r = self.requests@[i as int];
        let ghost first_events = events@;
        proof {
            assert(request_ok(r, self.config, self.prefix.entries@));
        }
        let end: Option<FinishReason> = self.requests[i].land_round(outcome, events);
        let ghost with = self.requests@[i as int];
        let ghost taken = token_events(r.id, outcome.tokens@, taken_of(r, outcome.tokens@, 0));
        proof {
            assert(self.requests@ =~= before.requests@.update(i as int, with));
            a_round_never_overruns(r, outcome.tokens@, 0);
            lanes_kept(before.requests@, before.free_lanes@, i as int, with);
            hosted_kept(before.requests@, before.host.live@, i as int, with);
            self.one_request_moved(before, i as int, Seq::empty(), Seq::empty());
            assert forall|j: int|
                0 <= j < self.requests@.len() && (#[trigger] self.requests@[j]).state
                    == RequestState::Admitted implies !self.requests@[j].resident by {
                if j != i {
                    assert(self.requests@[j] == before.requests@[j]);
                }
            }
        }
        let ghost until = events@;
        let ghost landed = *self;
        proof {
            landed.lets_nothing_go(before);
        }
        if let Some(reason) = end {
            self.mark_done(i, events, reason);
            proof {
                self.let_go_on(landed, before);
                one_end_told(
                    before.requests@,
                    self.requests@,
                    i as int,
                    reason,
                    until,
                    with,
                );
                moves_told_on(
                    before.requests@,
                    before.requests@,
                    self.requests@,
                    first_events,
                    until,
                    events@,
                );
                assert(events@.skip(first_events.len() as int) =~= taken.push(
                    done_event(with, reason),
                ));
            }
        } else {
            assert(events@.skip(first_events.len() as int) =~= taken);
        }
    }

    /// The rounds came back. A lane without an outcome is left as it is.
    pub(crate) fn land_rounds(
        &mut self,
        going: &Vec<usize>,
        outcomes: &Vec<DecodeOutcome>,
        events: &mut Vec<SchedEvent>,
    )
        requires
            old(self).wf(),
            old(self).settled(),
            all_running(old(self).requests@, going@),
            forall|k: int|
                0 <= k < going@.len() ==> old(self).requests@[(
                #[trigger] going@[k]) as int].remaining_work > 0,
        ensures
            moves_told(old(self).requests@, final(self).requests@, old(events)@, final(events)@),
            final(self).wf(),
            final(self).settled(),
            final(self).carried(*old(self)),
            final(self).same_run(*old(self)),
            exists|reports: Seq<Seq<SchedEvent>>| #[trigger]
                rounds_reported(old(self).requests@, going@, outcomes@, reports) && reports.len()
                    == (if going@.len() < outcomes@.len() {
                    going@.len()
                } else {
                    outcomes@.len()
                }) && final(events)@ == old(events)@ + reports.flatten_alt(),
            longer(old(events)@, final(events)@),
            forall|k: int|
                0 <= k < going@.len() ==> if k < outcomes@.len() {
                    old(self).round_settled(
                        old(self).requests@[(#[trigger] going@[k]) as int],
                        outcomes@[k],
                        final(self).requests@[going@[k] as int],
                    )
                } else {
                    final(self).requests@[going@[k] as int]
                        == old(self).requests@[going@[k] as int]
                },
            forall|i: int|
                0 <= i < old(self).requests@.len() && !going@.contains(i as usize) ==> (
                #[trigger] final(self).requests@[i]) == old(self).requests@[i],
            final(self).only_let_go(*old(self)),
    {
        let ghost before = *self;
        let ghost first_events = events@;
        proof {
            self.lets_nothing_go(before);
        }
        let ghost mut reports: Seq<Seq<SchedEvent>> = Seq::empty();
        let mut n: usize = 0;
        assert(events@ =~= first_events + reports.flatten_alt());
        while n < going.len() && n < outcomes.len()
            invariant
                reports.len() == n,
                rounds_reported(before.requests@, going@, outcomes@, reports),
                events@ == first_events + reports.flatten_alt(),
                before == *old(self),
                first_events == old(events)@,
                self.wf(),
                self.settled(),
                self.carried(before),
                self.same_run(before),
                longer(first_events, events@),
                moves_told(before.requests@, self.requests@, first_events, events@),
                all_running(before.requests@, going@),
                self.only_let_go(before),
                forall|k: int|
                    0 <= k < going@.len() ==> before.requests@[(
                    #[trigger] going@[k]) as int].remaining_work > 0,
                n <= going@.len(),
                n <= outcomes@.len(),
                forall|k: int|
                    0 <= k < n ==> before.round_settled(
                        before.requests@[(#[trigger] going@[k]) as int],
                        outcomes@[k],
                        self.requests@[going@[k] as int],
                    ),
                forall|k: int|
                    n <= k < going@.len() ==> self.requests@[(#[trigger] going@[k]) as int]
                        == before.requests@[going@[k] as int],
                forall|i: int|
                    0 <= i < before.requests@.len() && !going@.contains(i as usize) ==> (
                    #[trigger] self.requests@[i]) == before.requests@[i],
            decreases going@.len() - n,
        {
            let i: usize = going[n];
            let ghost middle = *self;
            let ghost until = events@;
            proof {
                assert(self.requests@[going@[n as int] as int] == before.requests@[i as int]);
                assert(before.requests@[going@[n as int] as int].remaining_work > 0);
                assert(going@.contains(i));
            }
            self.land_one_round(i, &outcomes[n], events);
            proof {
                self.let_go_on(middle, before);
                let report = events@.skip(until.len() as int);
                assert(reports.push(report).drop_last() =~= reports);
                assert(events@ =~= first_events + reports.push(report).flatten_alt());
                reports = reports.push(report);
                moves_told_on(
                    before.requests@,
                    middle.requests@,
                    self.requests@,
                    first_events,
                    until,
                    events@,
                );
                assert forall|j: int| 0 <= j < before.requests@.len() implies carries_on(
                    before.requests@[j],
                    #[trigger] self.requests@[j],
                ) by {
                    assert(carries_on(before.requests@[j], middle.requests@[j]));
                    assert(carries_on(middle.requests@[j], self.requests@[j]));
                }
                assert forall|k: int| 0 <= k < n implies before.round_settled(
                    before.requests@[(#[trigger] going@[k]) as int],
                    outcomes@[k],
                    self.requests@[going@[k] as int],
                ) by {
                    assert(going@[k] != going@[n as int]);
                    assert(self.requests@[going@[k] as int] == middle.requests@[going@[k] as int]);
                }
                assert forall|k: int| n < k < going@.len() implies self.requests@[(
                #[trigger] going@[k]) as int] == before.requests@[going@[k] as int] by {
                    assert(going@[n as int] != going@[k]);
                    assert(self.requests@[going@[k] as int] == middle.requests@[going@[k] as int]);
                }
            }
            n = n + 1;
        }
    }

    /// The rounds failed: every lane sent one ends in an error.
    pub(crate) fn fail_rounds(
        &mut self,
        going: &Vec<usize>,
        error: ComputeError,
        events: &mut Vec<SchedEvent>,
    )
        requires
            old(self).wf(),
            old(self).settled(),
            all_running(old(self).requests@, going@),
        ensures
            moves_told(old(self).requests@, final(self).requests@, old(events)@, final(events)@),
            final(self).wf(),
            final(self).settled(),
            final(self).carried(*old(self)),
            final(self).same_run(
                (ConcreteScheduler { last_error: final(self).last_error, ..*old(self) }),
            ),
            final(self).last_error == Some(error),
            final(events)@ == old(events)@ + done_events(
                old(self).requests@,
                going@,
                FinishReason::Error,
                going@.len() as int,
            ),
            forall|k: int|
                0 <= k < going@.len() ==> old(self).finished(
                    old(self).requests@[(#[trigger] going@[k]) as int],
                    final(self).requests@[going@[k] as int],
                ),
            forall|i: int|
                0 <= i < old(self).requests@.len() && !going@.contains(i as usize) ==> (
                #[trigger] final(self).requests@[i]) == old(self).requests@[i],
            final(self).only_let_go(*old(self)),
    {
        let ghost before = *self;
        self.end_all(going, FinishReason::Error, events);
        let ghost ended = *self;
        self.last_error = Some(error);
        proof {
            self.lets_nothing_go(ended);
            self.let_go_on(ended, before);
        }
    }
}

} // verus!
