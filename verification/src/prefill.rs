//! Chunked prefill: at most one step per advance.
//!
//! A request half-way through its prompt is served alone. Otherwise the batch
//! is built from the queue of fresh requests: each claims what it can reuse,
//! the batch stops behind the first prompt that will not fit one chunk, and
//! every member is charged its whole reservation before it is sent.

use crate::concrete::{request_ok, ConcreteScheduler};
use crate::deal::service_keys;
use crate::lifecycle::{
    ended_request, moves_told, moves_told_on, spared, spared_on, tidied_spares,
};
use crate::order::{in_service_order, is_service_order, ordered_by, picks};
use crate::plan::{chunk, chunk_take};
use crate::request::Request;
use crate::retention::{grew, tidied, took_up};
use crate::reuse::claim_outcome;
use crate::scheduler::{Clock, Compute};
use crate::types::{RequestState, SchedEvent};
use vstd::prelude::*;

verus! {

/// Who a request is and what it asks for never change, and nothing happens to
/// one that is done.
pub open spec fn carries_on(a: Request, b: Request) -> bool {
    &&& b.id == a.id
    &&& b.class == a.class
    &&& b.input == a.input
    &&& b.cancelled == a.cancelled
    &&& a.state == RequestState::Done ==> b == a
}

/// Whether a request waits for its first chunk.
pub open spec fn waits(r: Request) -> bool {
    r.state == RequestState::Admitted
}

/// The positions among the first `n` requests that wait for their first chunk.
pub open spec fn waiting_in(reqs: Seq<Request>, n: int) -> Seq<usize>
    decreases n,
{
    if n <= 0 {
        Seq::empty()
    } else if waits(reqs[n - 1]) {
        waiting_in(reqs, n - 1).push((n - 1) as usize)
    } else {
        waiting_in(reqs, n - 1)
    }
}

/// `queue` is the queue for prefill, in service order.
pub open spec fn is_prefill_queue(reqs: Seq<Request>, queue: Seq<usize>) -> bool {
    let items = waiting_in(reqs, reqs.len() as int);
    ordered_by(items, service_keys(reqs, items), queue)
}

proof fn waiting_in_waits(reqs: Seq<Request>, n: int)
    requires
        0 <= n <= reqs.len(),
        reqs.len() <= usize::MAX,
    ensures
        forall|k: int|
            0 <= k < waiting_in(reqs, n).len() ==> (#[trigger] waiting_in(reqs, n)[k]) < n && waits(
                reqs[waiting_in(reqs, n)[k] as int],
            ),
        forall|a: int, b: int|
            0 <= a < b < waiting_in(reqs, n).len() ==> (#[trigger] waiting_in(reqs, n)[a]) < (
            #[trigger] waiting_in(reqs, n)[b]),
    decreases n,
{
    if n > 0 {
        waiting_in_waits(reqs, n - 1);
        let was = waiting_in(reqs, n - 1);
        let now = waiting_in(reqs, n);
        assert forall|k: int| 0 <= k < now.len() implies (#[trigger] now[k]) < n && waits(
            reqs[now[k] as int],
        ) by {
            if k < was.len() {
                assert(now[k] == was[k]);
            }
        }
        assert forall|a: int, b: int| 0 <= a < b < now.len() implies (#[trigger] now[a]) < (
        #[trigger] now[b]) by {
            assert(now[a] == was[a]);
            if b < was.len() {
                assert(now[b] == was[b]);
            }
        }
    }
}

/// Distinct positions of requests, each still waiting for its first chunk.
pub open spec fn all_waiting(reqs: Seq<Request>, items: Seq<usize>) -> bool {
    &&& forall|k: int|
        0 <= k < items.len() ==> (#[trigger] items[k]) < reqs.len() && waits(reqs[items[k] as int])
    &&& forall|a: int, b: int|
        0 <= a < b < items.len() ==> #[trigger] items[a] != #[trigger] items[b]
}

proof fn prefill_queue_waits(reqs: Seq<Request>, queue: Seq<usize>)
    requires
        is_prefill_queue(reqs, queue),
        reqs.len() <= usize::MAX,
    ensures
        all_waiting(reqs, queue),
{
    let items = waiting_in(reqs, reqs.len() as int);
    let keys = service_keys(reqs, items);
    waiting_in_waits(reqs, reqs.len() as int);
    let order = choose|order: Seq<usize>|
        is_service_order(keys, order) && #[trigger] picks(items, order, queue);
    assert forall|k: int| 0 <= k < queue.len() implies (#[trigger] queue[k]) < reqs.len() && waits(
        reqs[queue[k] as int],
    ) by {
        assert(queue[k] == items[order[k] as int]);
    }
    assert forall|a: int, b: int| 0 <= a < b < queue.len() implies #[trigger] queue[a]
        != #[trigger] queue[b] by {
        assert(queue[a] == items[order[a] as int]);
        assert(queue[b] == items[order[b] as int]);
        assert(crate::order::precedes(keys, order[a] as int, order[b] as int));
        if order[a] < order[b] {
            assert(items[order[a] as int] < items[order[b] as int]);
        } else {
            assert(items[order[b] as int] < items[order[a] as int]);
        }
    }
}

/// What a request that waits comes to before it is sent: a fresh one claims
/// what it can reuse, and one that holds a claim keeps it.
pub open spec fn claimed(a: Request, b: Request) -> bool {
    if a.prefix_entry is None && a.checkpoint_publisher is None {
        claim_outcome(a, b)
    } else {
        b == a
    }
}

/// Whether a request is half-way through its prompt.
pub open spec fn half_prefilled(r: Request) -> bool {
    r.state == RequestState::Prefilling && !r.prefilled()
}

/// Whether a request may be sent a chunk: on the device, waiting for its first
/// or half-way through.
pub open spec fn sendable(r: Request) -> bool {
    r.resident && (waits(r) || half_prefilled(r))
}

impl<C: Compute, K: Clock> ConcreteScheduler<C, K> {
    /// Every request carries on, and the terms stand.
    pub open spec fn carried(self, before: Self) -> bool {
        &&& self.config == before.config
        &&& self.compute == before.compute
        &&& self.clock == before.clock
        &&& self.capacity == before.capacity
        &&& self.next_id == before.next_id
        &&& self.tick == before.tick
        &&& self.requests@.len() == before.requests@.len()
        &&& forall|i: int|
            0 <= i < before.requests@.len() ==> carries_on(
                before.requests@[i],
                #[trigger] self.requests@[i],
            )
    }

    /// No one came to its end.
    pub open spec fn none_ended(self, before: Self) -> bool {
        forall|i: int|
            0 <= i < before.requests@.len() && (#[trigger] self.requests@[i]).state
                == RequestState::Done ==> before.requests@[i].state == RequestState::Done
    }

    /// Nothing is resident ahead of its first chunk but members of `batch`
    /// from the `n`-th on.
    pub open spec fn settled_but(self, batch: Seq<usize>, n: int) -> bool {
        forall|i: int|
            0 <= i < self.requests@.len() && waits(#[trigger] self.requests@[i])
                && self.requests@[i].resident ==> batch.skip(n).contains(i as usize)
    }

    /// Every member of `batch` from the `n`-th on may be sent a chunk, and none
    /// is in it twice.
    pub open spec fn batch_ready(self, batch: Seq<usize>, n: int) -> bool {
        &&& forall|k: int|
            n <= k < batch.len() ==> (#[trigger] batch[k]) < self.requests@.len() && sendable(
                self.requests@[batch[k] as int],
            )
        &&& forall|a: int, b: int|
            0 <= a < b < batch.len() ==> #[trigger] batch[a] != #[trigger] batch[b]
    }

    /// The backend was told to drop the sequence of every one of the first `n`
    /// requests that was cancelled and still live.
    pub open spec fn cancelled_freed(self, n: int) -> bool {
        forall|i: int|
            0 <= i < n && (#[trigger] self.requests@[i]).cancelled && self.requests@[i].state
                != RequestState::Done ==> self.sequence_freed(self.requests@[i].id)
    }

    /// Release every request that was cancelled since the last advance.
    pub(crate) fn sweep_cancelled(&mut self)
        requires
            old(self).wf(),
            old(self).settled(),
        ensures
            final(self).wf(),
            final(self).settled(),
            final(self).same_run(*old(self)),
            final(self).protection is None || final(self).protection == old(self).protection,
            forall|i: int|
                0 <= i < old(self).requests@.len() ==> (#[trigger] final(self).requests@[i]) == (
                if old(self).requests@[i].cancelled && old(self).requests@[i].state
                    != RequestState::Done {
                    ended_request(old(self).requests@[i])
                } else {
                    old(self).requests@[i]
                }),
            // Without anyone to let go nothing moves.
            (forall|i: int|
                0 <= i < old(self).requests@.len() && (#[trigger] old(self).requests@[i]).cancelled
                    ==> old(self).requests@[i].state == RequestState::Done) ==> *final(self)
                == *old(self),
            // The backend is told to drop the sequence of each.
            old(self).cancelled_freed(old(self).requests@.len() as int),
            final(self).only_let_go(*old(self)),
    {
        let ghost before = *self;
        let mut i: usize = 0;
        proof {
            self.lets_nothing_go(before);
        }
        while i < self.requests.len()
            invariant
                before == *old(self),
                self.wf(),
                self.settled(),
                self.same_run(before),
                self.protection is None || self.protection == before.protection,
                i <= self.requests@.len(),
                (forall|j: int|
                    0 <= j < before.requests@.len() && (#[trigger] before.requests@[j]).cancelled
                        ==> before.requests@[j].state == RequestState::Done) ==> *self == before,
                forall|j: int|
                    0 <= j < before.requests@.len() ==> (#[trigger] self.requests@[j]) == (if j < i
                        && before.requests@[j].cancelled && before.requests@[j].state
                        != RequestState::Done {
                        ended_request(before.requests@[j])
                    } else {
                        before.requests@[j]
                    }),
                before.cancelled_freed(i as int),
                self.only_let_go(before),
            decreases self.requests@.len() - i,
        {
            assert(self.requests@[i as int] == before.requests@[i as int]);
            if self.requests[i].cancelled && self.requests[i].state != RequestState::Done {
                let ghost middle = *self;
                let _ = self.release_request(i);
                proof {
                    self.lets_one_go(middle, i as int);
                    self.let_go_on(middle, before);
                }
            }
            i = i + 1;
        }
    }

    /// The first request half-way through its prompt.
    fn find_half_prefilled(&self) -> (at: Option<usize>)
        ensures
            at is None ==> forall|j: int|
                0 <= j < self.requests@.len() ==> !half_prefilled(#[trigger] self.requests@[j]),
            at matches Some(i) ==> i < self.requests@.len() && half_prefilled(
                self.requests@[i as int],
            ) && forall|j: int| 0 <= j < i ==> !half_prefilled(#[trigger] self.requests@[j]),
    {
        let mut i: usize = 0;
        while i < self.requests.len()
            invariant
                i <= self.requests@.len(),
                forall|j: int| 0 <= j < i ==> !half_prefilled(#[trigger] self.requests@[j]),
            decreases self.requests@.len() - i,
        {
            if self.requests[i].state == RequestState::Prefilling
                && !self.requests[i].prefill_complete() {
                return Some(i);
            }
            i = i + 1;
        }
        None
    }

    /// The queue for prefill, in service order.
    fn prefill_queue(&self) -> (queue: Vec<usize>)
        ensures
            is_prefill_queue(self.requests@, queue@),
            all_waiting(self.requests@, queue@),
    {
        let mut items: Vec<usize> = Vec::new();
        let mut keys: Vec<(u64, u64)> = Vec::new();
        let mut i: usize = 0;
        while i < self.requests.len()
            invariant
                i <= self.requests@.len(),
                items@ == waiting_in(self.requests@, i as int),
                keys@.len() == items@.len(),
                forall|k: int|
                    0 <= k < keys@.len() ==> #[trigger] keys@[k] == (
                        self.requests@[items@[k] as int].class.rank(),
                        self.requests@[items@[k] as int].id,
                    ),
            decreases self.requests@.len() - i,
        {
            let r = &self.requests[i];
            if r.state == RequestState::Admitted {
                items.push(i);
                keys.push((r.class.queue_rank(), r.id));
            }
            i = i + 1;
        }
        assert(keys@ =~= service_keys(self.requests@, items@));
        let queue = in_service_order(&items, &keys);
        proof {
            assert(self.requests@.len() == self.requests.len());
            prefill_queue_waits(self.requests@, queue@);
        }
        queue
    }

    /// The request at `i` chose what it resumes from, unless it chose before.
    #[verifier::opaque]
    pub open spec fn claim_step(
        self,
        before: Self,
        i: int,
        first: Seq<SchedEvent>,
        last: Seq<SchedEvent>,
    ) -> bool {
        let r = before.requests@[i];
        if r.prefix_entry is None && r.checkpoint_publisher is None {
            &&& self.only_request_and_retention_moved(before, i)
            &&& claim_outcome(r, self.requests@[i])
            &&& self.reuses_own_history(i)
            &&& self.claimed_reuse(before, i, first, last)
            &&& took_up(first, last)
        } else {
            self == before && last == first
        }
    }

    /// The first `n` of `batch` chose, one after the other.
    pub open spec fn claims(
        self,
        before: Self,
        batch: Seq<usize>,
        n: int,
        first: Seq<SchedEvent>,
        last: Seq<SchedEvent>,
    ) -> bool
        decreases n,
    {
        if n <= 0 {
            self == before && last == first
        } else {
            exists|middle: Self, until: Seq<SchedEvent>|
                middle.claims(before, batch, n - 1, first, until) && #[trigger] self.claim_step(
                    middle,
                    batch[n - 1] as int,
                    until,
                    last,
                )
        }
    }

    proof fn claims_one_more(
        self,
        middle: Self,
        before: Self,
        batch: Seq<usize>,
        n: int,
        first: Seq<SchedEvent>,
        until: Seq<SchedEvent>,
        last: Seq<SchedEvent>,
    )
        requires
            0 <= n,
            middle.claims(before, batch, n, first, until),
            self.claim_step(middle, batch[n] as int, until, last),
        ensures
            self.claims(before, batch, n + 1, first, last),
    {
        let m = n + 1;
        assert(middle.claims(before, batch, m - 1, first, until));
        assert(self.claim_step(middle, batch[m - 1] as int, until, last));
    }

    /// The front of `queue`, as many as a batch may be, chose what they resume
    /// from.
    pub open spec fn front_claimed(
        self,
        before: Self,
        queue: Seq<usize>,
        first: Seq<SchedEvent>,
        last: Seq<SchedEvent>,
    ) -> bool {
        let most = before.config.max_prefill_batch as int;
        let n = if queue.len() < most {
            queue.len() as int
        } else {
            most
        };
        self.claims(before, queue.take(n), n, first, last)
    }

    /// Let each fresh member of the batch claim what it can reuse. One that
    /// holds a claim from an attempt before keeps it.
    fn claim_for_batch(&mut self, batch: &Vec<usize>, events: &mut Vec<SchedEvent>)
        requires
            old(self).wf(),
            old(self).settled(),
            all_waiting(old(self).requests@, batch@),
        ensures
            final(self).wf(),
            final(self).settled(),
            final(self).carried(*old(self)),
            final(self).none_ended(*old(self)),
            final(self).same_run(*old(self)),
            final(self).protection == old(self).protection,
            took_up(old(events)@, final(events)@),
            spared(old(self).requests@, old(events)@, final(events)@),
            final(self).claims(
                *old(self),
                batch@,
                batch@.len() as int,
                old(events)@,
                final(events)@,
            ),
            forall|i: int|
                0 <= i < old(self).requests@.len() ==> (#[trigger] final(self).requests@[i]).state
                    == old(self).requests@[i].state,
            all_waiting(final(self).requests@, batch@),
            forall|k: int|
                0 <= k < batch@.len() ==> claimed(
                    old(self).requests@[(#[trigger] batch@[k]) as int],
                    final(self).requests@[batch@[k] as int],
                ),
            forall|i: int|
                0 <= i < old(self).requests@.len() && !batch@.contains(i as usize) ==> (
                #[trigger] final(self).requests@[i]) == old(self).requests@[i],
    {
        let ghost before = *self;
        let ghost first_events = events@;
        let mut n: usize = 0;
        while n < batch.len()
            invariant
                before == *old(self),
                first_events == old(events)@,
                self.wf(),
                self.settled(),
                self.carried(before),
                self.none_ended(before),
                self.same_run(before),
                self.protection == before.protection,
                took_up(first_events, events@),
                spared(before.requests@, first_events, events@),
                self.claims(before, batch@, n as int, first_events, events@),
                forall|i: int|
                    0 <= i < before.requests@.len() ==> (#[trigger] self.requests@[i]).state
                        == before.requests@[i].state,
                n <= batch@.len(),
                all_waiting(self.requests@, batch@),
                forall|k: int|
                    0 <= k < n ==> claimed(
                        before.requests@[(#[trigger] batch@[k]) as int],
                        self.requests@[batch@[k] as int],
                    ),
                forall|k: int|
                    n <= k < batch@.len() ==> self.requests@[(#[trigger] batch@[k]) as int]
                        == before.requests@[batch@[k] as int],
                forall|i: int|
                    0 <= i < before.requests@.len() && !batch@.contains(i as usize) ==> (
                    #[trigger] self.requests@[i]) == before.requests@[i],
            decreases batch@.len() - n,
        {
            let i: usize = batch[n];
            let fresh: bool = self.requests[i].prefix_entry.is_none()
                && self.requests[i].checkpoint_publisher.is_none();
            assert(self.requests@[batch@[n as int] as int] == before.requests@[i as int]);
            let ghost middle = *self;
            let ghost until = events@;
            if fresh {
                assert(waits(self.requests@[batch@[n as int] as int]));
                assert(!self.requests@[i as int].resident);
                self.claim_reuse(i, events);
                proof {
                    assert(claim_outcome(middle.requests@[i as int], self.requests@[i as int]));
                    assert(batch@.contains(i)) by {
                        assert(batch@[n as int] == i);
                    }
                    assert forall|j: int| 0 <= j < before.requests@.len() implies carries_on(
                        before.requests@[j],
                        #[trigger] self.requests@[j],
                    ) by {
                        assert(carries_on(before.requests@[j], middle.requests@[j]));
                        if j != i {
                            assert(self.requests@[j] == middle.requests@[j]);
                        }
                    }
                    assert forall|j: int|
                        0 <= j < self.requests@.len() && (#[trigger] self.requests@[j]).state
                            == RequestState::Admitted implies !self.requests@[j].resident by {
                        if j != i {
                            assert(self.requests@[j] == middle.requests@[j]);
                        }
                    }
                    assert forall|k: int| 0 <= k < batch@.len() && k != n implies self.requests@[(
                    #[trigger] batch@[k]) as int] == middle.requests@[batch@[k] as int] by {
                        if k < n {
                            assert(batch@[k] != batch@[n as int]);
                        } else {
                            assert(batch@[n as int] != batch@[k]);
                        }
                        assert(waits(middle.requests@[batch@[k] as int]));
                    }
                    assert forall|k: int| 0 <= k < batch@.len() implies (#[trigger] batch@[k])
                        < self.requests@.len() && waits(self.requests@[batch@[k] as int]) by {
                        assert(waits(middle.requests@[batch@[k] as int]));
                        if batch@[k] != i {
                            assert(self.requests@[batch@[k] as int]
                                == middle.requests@[batch@[k] as int]);
                        }
                    }
                    assert forall|j: int|
                        0 <= j < before.requests@.len() && !batch@.contains(j as usize) implies (
                    #[trigger] self.requests@[j]) == before.requests@[j] by {
                        assert(self.requests@[j] == middle.requests@[j]);
                    }
                    assert forall|j: int| 0 <= j < before.requests@.len() implies (
                    #[trigger] self.requests@[j]).state == before.requests@[j].state by {
                        if j != i {
                            assert(self.requests@[j] == middle.requests@[j]);
                        } else {
                            assert(middle.requests@[j].state == before.requests@[j].state);
                        }
                    }
                }
            }
            proof {
                assert forall|j: int|
                    0 <= j < before.requests@.len() && (#[trigger] before.requests@[j]).state
                        == RequestState::Done implies middle.requests@[j]
                    == before.requests@[j] by {
                    assert(carries_on(before.requests@[j], middle.requests@[j]));
                }
                spared_on(before.requests@, middle.requests@, first_events, until, events@);
                assert(self.claim_step(middle, i as int, until, events@)) by {
                    reveal(ConcreteScheduler::claim_step);
                }
                self.claims_one_more(
                    middle,
                    before,
                    batch@,
                    n as int,
                    first_events,
                    until,
                    events@,
                );
            }
            n = n + 1;
        }
    }

    /// Whether the request's next chunk ends its prompt.
    pub open spec fn one_chunk(self, i: int) -> bool {
        chunk(self.requests@[i], self.config.serving_chunk_tokens)
            >= self.requests@[i].input.tokens@.len() - self.requests@[i].prefill_progress
    }

    /// The batch up to and with the first member that one chunk does not
    /// finish: nothing beyond it may start this time.
    fn cut_batch(&self, batch: &Vec<usize>) -> (cut: Vec<usize>)
        requires
            self.wf(),
            all_waiting(self.requests@, batch@),
        ensures
            cut@.len() <= batch@.len(),
            cut@ == batch@.take(cut@.len() as int),
            forall|k: int|
                0 <= k < cut@.len() - 1 ==> self.one_chunk((#[trigger] batch@[k]) as int),
            cut@.len() < batch@.len() ==> cut@.len() > 0 && !self.one_chunk(
                batch@[cut@.len() - 1] as int,
            ),
    {
        let mut cut: Vec<usize> = Vec::new();
        assert(batch@.take(0) =~= cut@);
        while cut.len() < batch.len()
            invariant
                self.wf(),
                all_waiting(self.requests@, batch@),
                cut@.len() <= batch@.len(),
                cut@ == batch@.take(cut@.len() as int),
                forall|k: int|
                    0 <= k < cut@.len() ==> self.one_chunk((#[trigger] batch@[k]) as int),
            decreases batch@.len() - cut@.len(),
        {
            let ghost n = cut@.len() as int;
            let i: usize = batch[cut.len()];
            proof {
                assert(waits(self.requests@[batch@[n] as int]));
                assert(request_ok(self.requests@[i as int], self.config, self.prefix.entries@));
            }
            let take: u32 = chunk_take(&self.requests[i], self.config.serving_chunk_tokens);
            let left: u32 = self.requests[i].input.tokens.len() as u32
                - self.requests[i].prefill_progress;
            cut.push(i);
            assert(cut@ =~= batch@.take(n + 1));
            if take < left {
                return cut;
            }
        }
        cut
    }

    /// Make room for the request at `i`: retained state gives way first, live
    /// work after it. Whether there is room.
    fn make_device_room(&mut self, i: usize, events: &mut Vec<SchedEvent>) -> (room: bool)
        requires
            old(self).wf(),
            i < old(self).requests@.len(),
            !old(self).requests@[i as int].resident,
            waits(old(self).requests@[i as int]) || half_prefilled(old(self).requests@[i as int]),
        ensures
            final(self).wf(),
            final(self).carried(*old(self)),
            final(self).none_ended(*old(self)),
            final(self).same_run(*old(self)),
            final(self).protection is None || final(self).protection == old(self).protection,
            grew(old(events)@, final(events)@),
            moves_told(old(self).requests@, final(self).requests@, old(events)@, final(events)@),
            spared(old(self).requests@, old(events)@, final(events)@),
            room == final(self).has_room_for(old(self).requests@[i as int].resources.kv_pages, 1),
            final(self).requests@[i as int] == old(self).requests@[i as int],
            final(self).spares_the_waiting(*old(self)),
            final(self).made_device_room(
                *old(self),
                old(self).requests@[i as int].resources.kv_pages,
                room,
                old(events)@,
                final(events)@,
            ),
    {
        reveal(ConcreteScheduler::made_device_room);
        let ghost before = *self;
        let ghost first_events = events@;
        let pages: u32 = self.requests[i].resources.kv_pages;
        if self.fits_for_materialization(i) {
            return true;
        }
        let _ = self.reclaim_retained_until(pages, 1, events);
        let ghost reclaimed = *self;
        let ghost told = events@;
        proof {
            assert(reclaimed.gave_up_for(before, pages, first_events, told));
            tidied_spares(before.requests@, first_events, told);
        }
        if self.fits_for_materialization(i) {
            return true;
        }
        let room: bool = self.make_room(pages, events);
        proof {
            self.evictions_carry(reclaimed);
            spared_on(before.requests@, reclaimed.requests@, first_events, told, events@);
        }
        room
    }

    /// Retained state gave way for `pages` pages and a sequence, as far as there
    /// was need and any to give.
    pub open spec fn gave_up_for(
        self,
        before: Self,
        pages: u32,
        first: Seq<SchedEvent>,
        last: Seq<SchedEvent>,
    ) -> bool {
        &&& self.only_retention_moved(before)
        &&& tidied(first, last)
        &&& exists|n: int| #[trigger] self.gave_pages_in(before, n, pages, 1, first, last)
        &&& self.has_room_for(pages, 1) || !self.has_pages_to_give()
    }

    /// Room was sought for `pages` pages and a sequence: nothing is given up
    /// where there is room, retained state gives way first, and live work only
    /// where that is not enough.
    #[verifier::opaque]
    pub open spec fn made_device_room(
        self,
        before: Self,
        pages: u32,
        room: bool,
        first: Seq<SchedEvent>,
        last: Seq<SchedEvent>,
    ) -> bool {
        if before.has_room_for(pages, 1) {
            room && self == before && last == first
        } else {
            exists|reclaimed: Self, told: Seq<SchedEvent>| #[trigger]
                reclaimed.gave_up_for(before, pages, first, told) && if reclaimed.has_room_for(
                    pages,
                    1,
                ) {
                    room && self == reclaimed && last == told
                } else {
                    self.made_way(reclaimed, Some(pages), None, told, last) && room
                        == self.has_room_for(pages, 1)
                }
        }
    }

    /// The request at `i` was charged its reservation once room was sought for
    /// it, or, where there was none, not.
    #[verifier::opaque]
    pub open spec fn tried_admission(
        self,
        before: Self,
        i: int,
        admitted: bool,
        first: Seq<SchedEvent>,
        last: Seq<SchedEvent>,
    ) -> bool {
        if before.requests@[i].resident {
            admitted && self == before && last == first
        } else {
            exists|roomy: Self| #[trigger]
                roomy.made_device_room(
                    before,
                    before.requests@[i].resources.kv_pages,
                    admitted,
                    first,
                    last,
                ) && if admitted {
                    self.charged_for(roomy, i)
                } else {
                    self == roomy
                }
        }
    }

    /// The first `n` of `batch` were charged, one after the other.
    pub open spec fn admitted_in_turn(
        self,
        before: Self,
        batch: Seq<usize>,
        n: int,
        first: Seq<SchedEvent>,
        last: Seq<SchedEvent>,
    ) -> bool
        decreases n,
    {
        if n <= 0 {
            self == before && last == first
        } else {
            exists|middle: Self, until: Seq<SchedEvent>|
                middle.admitted_in_turn(before, batch, n - 1, first, until)
                    && #[trigger] self.tried_admission(
                    middle,
                    batch[n - 1] as int,
                    true,
                    until,
                    last,
                )
        }
    }

    /// The first `n` of `batch` were charged, and there was no room for the one
    /// after them, if there is one.
    #[verifier::opaque]
    pub open spec fn admits_front(
        self,
        before: Self,
        batch: Seq<usize>,
        n: int,
        first: Seq<SchedEvent>,
        last: Seq<SchedEvent>,
    ) -> bool {
        if n == batch.len() {
            self.admitted_in_turn(before, batch, n, first, last)
        } else {
            exists|middle: Self, until: Seq<SchedEvent>|
                middle.admitted_in_turn(before, batch, n, first, until)
                    && #[trigger] self.tried_admission(
                    middle,
                    batch[n] as int,
                    false,
                    until,
                    last,
                )
        }
    }

    proof fn admitted_one_more(
        self,
        middle: Self,
        before: Self,
        batch: Seq<usize>,
        n: int,
        first: Seq<SchedEvent>,
        until: Seq<SchedEvent>,
        last: Seq<SchedEvent>,
    )
        requires
            0 <= n,
            middle.admitted_in_turn(before, batch, n, first, until),
            self.tried_admission(middle, batch[n] as int, true, until, last),
        ensures
            self.admitted_in_turn(before, batch, n + 1, first, last),
    {
        let m = n + 1;
        assert(self.tried_admission(middle, batch[m - 1] as int, true, until, last));
    }

    /// Whoever waits for its first chunk is left as it was, and no one else
    /// comes to be resident ahead of its first chunk.
    pub open spec fn spares_the_waiting(self, before: Self) -> bool {
        &&& forall|j: int|
            0 <= j < before.requests@.len() && waits(before.requests@[j]) ==> (
            #[trigger] self.requests@[j]) == before.requests@[j]
        &&& forall|j: int|
            0 <= j < before.requests@.len() && waits(#[trigger] self.requests@[j])
                && self.requests@[j].resident ==> waits(before.requests@[j])
                && before.requests@[j].resident
    }

    /// Charge the request at `i` its whole reservation, retained state giving
    /// way first and live work after it. `false` where no room could be made.
    fn admit_to_device(&mut self, i: usize, events: &mut Vec<SchedEvent>) -> (admitted: bool)
        requires
            old(self).wf(),
            i < old(self).requests@.len(),
            old(self).requests@[i as int].resident ==> sendable(old(self).requests@[i as int]),
            waits(old(self).requests@[i as int]) || half_prefilled(old(self).requests@[i as int]),
        ensures
            final(self).wf(),
            final(self).carried(*old(self)),
            final(self).none_ended(*old(self)),
            final(self).same_run(*old(self)),
            final(self).protection is None || final(self).protection == old(self).protection,
            grew(old(events)@, final(events)@),
            moves_told(old(self).requests@, final(self).requests@, old(events)@, final(events)@),
            spared(old(self).requests@, old(events)@, final(events)@),
            admitted ==> sendable(final(self).requests@[i as int]),
            // Refused only where there is no room for it.
            !admitted ==> !final(self).has_room_for(old(self).requests@[i as int].resources.kv_pages, 1),
            final(self).requests@[i as int] == (Request {
                resident: admitted,
                ..old(self).requests@[i as int]
            }),
            // Whoever waits or is half-way through is left as it was.
            forall|j: int|
                0 <= j < old(self).requests@.len() && j != i && waits(old(self).requests@[j])
                    ==> (#[trigger] final(self).requests@[j]) == old(self).requests@[j],
            // And no one else comes to be resident ahead of its first chunk.
            forall|j: int|
                0 <= j < old(self).requests@.len() && j != i && waits(
                    #[trigger] final(self).requests@[j],
                ) && final(self).requests@[j].resident ==> waits(old(self).requests@[j])
                    && old(self).requests@[j].resident,
            old(self).requests@[i as int].resident ==> *final(self) == *old(self) && final(events)@
                == old(events)@ && admitted,
            final(self).tried_admission(
                *old(self),
                i as int,
                admitted,
                old(events)@,
                final(events)@,
            ),
    {
        reveal(ConcreteScheduler::tried_admission);
        if self.requests[i].resident {
            return true;
        }
        if !self.make_device_room(i, events) {
            return false;
        }
        self.materialize(i);
        true
    }

    proof fn ids_carry(self, before: Self)
        requires
            self.carried(before),
        ensures
            forall|j: int|
                0 <= j < before.requests@.len() ==> (#[trigger] self.requests@[j]).id
                    == before.requests@[j].id,
    {
        assert forall|j: int| 0 <= j < before.requests@.len() implies (
        #[trigger] self.requests@[j]).id == before.requests@[j].id by {
            assert(carries_on(before.requests@[j], self.requests@[j]));
        }
    }

    /// Who is done stays as it is.
    pub proof fn done_carry(self, before: Self)
        requires
            self.carried(before),
        ensures
            forall|j: int|
                0 <= j < before.requests@.len() && (#[trigger] before.requests@[j]).state
                    == RequestState::Done ==> self.requests@[j] == before.requests@[j],
    {
        assert forall|j: int|
            0 <= j < before.requests@.len() && (#[trigger] before.requests@[j]).state
                == RequestState::Done implies self.requests@[j] == before.requests@[j] by {
            assert(carries_on(before.requests@[j], self.requests@[j]));
        }
    }

    /// Evictions leave everyone who they are.
    proof fn evictions_carry(self, before: Self)
        requires
            self.only_evictions(before, -1),
            before.wf(),
        ensures
            self.carried(before),
            self.none_ended(before),
            forall|j: int|
                0 <= j < before.requests@.len() && waits(before.requests@[j]) ==> (
                #[trigger] self.requests@[j]) == before.requests@[j],
            forall|j: int|
                0 <= j < before.requests@.len() && waits(#[trigger] self.requests@[j])
                    && self.requests@[j].resident ==> self.requests@[j] == before.requests@[j],
    {
        assert forall|j: int| 0 <= j < before.requests@.len() implies carries_on(
            before.requests@[j],
            #[trigger] self.requests@[j],
        ) by {
            assert(self.requests@[j] == before.requests@[j] || crate::eviction::gave_way(
                before.requests@[j],
                self.requests@[j],
                before.config,
            ));
            assert(request_ok(before.requests@[j], before.config, before.prefix.entries@));
        }
    }

    /// The first `n` of `batch` are charged and the rest untouched.
    spec fn admitting(self, before: Self, batch: Seq<usize>, n: int) -> bool {
        &&& forall|k: int|
            0 <= k < batch.len() ==> self.requests@[(#[trigger] batch[k]) as int] == (if k < n {
                Request { resident: true, ..before.requests@[batch[k] as int] }
            } else {
                before.requests@[batch[k] as int]
            })
        &&& forall|j: int|
            0 <= j < self.requests@.len() && waits(#[trigger] self.requests@[j])
                && self.requests@[j].resident ==> batch.take(n).contains(j as usize)
    }

    /// Charging the next member keeps what the members before it were promised.
    proof fn admitting_steps(self, middle: Self, before: Self, batch: Seq<usize>, n: int, ok: bool)
        requires
            middle.admitting(before, batch, n),
            middle.carried(before),
            self.carried(middle),
            middle.none_ended(before),
            self.none_ended(middle),
            0 <= n < batch.len(),
            batch.len() <= 1 || all_waiting(before.requests@, batch),
            forall|k: int| 0 <= k < batch.len() ==> (#[trigger] batch[k]) < before.requests@.len(),
            forall|a: int, b: int|
                0 <= a < b < batch.len() ==> #[trigger] batch[a] != #[trigger] batch[b],
            self.requests@[batch[n] as int] == (Request {
                resident: ok,
                ..middle.requests@[batch[n] as int]
            }),
            ok || !middle.requests@[batch[n] as int].resident,
            forall|j: int|
                0 <= j < middle.requests@.len() && j != batch[n] && waits(middle.requests@[j])
                    ==> (#[trigger] self.requests@[j]) == middle.requests@[j],
            forall|j: int|
                0 <= j < middle.requests@.len() && j != batch[n] && waits(
                    #[trigger] self.requests@[j],
                ) && self.requests@[j].resident ==> waits(middle.requests@[j])
                    && middle.requests@[j].resident,
        ensures
            self.carried(before),
            self.none_ended(before),
            self.admitting(before, batch, if ok { n + 1 } else { n }),
    {
        let m = if ok { n + 1 } else { n };
        assert forall|j: int| 0 <= j < before.requests@.len() implies carries_on(
            before.requests@[j],
            #[trigger] self.requests@[j],
        ) by {
            assert(carries_on(before.requests@[j], middle.requests@[j]));
            assert(carries_on(middle.requests@[j], self.requests@[j]));
        }
        assert forall|k: int| 0 <= k < batch.len() implies self.requests@[(
        #[trigger] batch[k]) as int] == (if k < m {
            Request { resident: true, ..before.requests@[batch[k] as int] }
        } else {
            before.requests@[batch[k] as int]
        }) by {
            if k < n {
                assert(batch[k] != batch[n]);
            }
            if n < k {
                assert(batch[n] != batch[k]);
            }
            if k != n {
                assert(waits(before.requests@[batch[k] as int]));
                assert(waits(middle.requests@[batch[k] as int]));
            }
        }
        assert forall|j: int|
            0 <= j < self.requests@.len() && waits(#[trigger] self.requests@[j])
                && self.requests@[j].resident implies batch.take(m).contains(j as usize) by {
            if j == batch[n] {
                assert(batch.take(m)[n] == j as usize);
            } else {
                assert(batch.take(n).contains(j as usize));
                let k = choose|k: int|
                    0 <= k < batch.take(n).len() && batch.take(n)[k] == j as usize;
                assert(batch.take(m)[k] == j as usize);
            }
        }
    }

    /// Charge the batch, member by member, each seeing the charge of those
    /// before it; the batch stops where no room can be made.
    fn admit_batch(&mut self, batch: &Vec<usize>, events: &mut Vec<SchedEvent>) -> (admitted: Vec<
        usize,
    >)
        requires
            old(self).wf(),
            old(self).settled(),
            forall|k: int|
                0 <= k < batch@.len() ==> (#[trigger] batch@[k]) < old(self).requests@.len() && (
                waits(old(self).requests@[batch@[k] as int]) || half_prefilled(
                    old(self).requests@[batch@[k] as int],
                )),
            forall|a: int, b: int|
                0 <= a < b < batch@.len() ==> #[trigger] batch@[a] != #[trigger] batch@[b],
            batch@.len() <= 1 || all_waiting(old(self).requests@, batch@),
        ensures
            final(self).wf(),
            final(self).carried(*old(self)),
            final(self).none_ended(*old(self)),
            final(self).same_run(*old(self)),
            final(self).protection is None || final(self).protection == old(self).protection,
            grew(old(events)@, final(events)@),
            moves_told(old(self).requests@, final(self).requests@, old(events)@, final(events)@),
            spared(old(self).requests@, old(events)@, final(events)@),
            admitted@.len() <= batch@.len(),
            admitted@ == batch@.take(admitted@.len() as int),
            final(self).batch_ready(admitted@, 0),
            final(self).settled_but(admitted@, 0),
            // It stops short only where there is no room for the next.
            admitted@.len() < batch@.len() ==> !final(self).has_room_for(
                old(self).requests@[batch@[admitted@.len() as int] as int].resources.kv_pages,
                1,
            ),
            forall|k: int|
                0 <= k < batch@.len() ==> final(self).requests@[(#[trigger] batch@[k]) as int] == (
                if k < admitted@.len() {
                    Request { resident: true, ..old(self).requests@[batch@[k] as int] }
                } else {
                    old(self).requests@[batch@[k] as int]
                }),
            final(self).admits_front(
                *old(self),
                batch@,
                admitted@.len() as int,
                old(events)@,
                final(events)@,
            ),
    {
        let ghost before = *self;
        let ghost first_events = events@;
        let mut admitted: Vec<usize> = Vec::new();
        assert(batch@.take(0) =~= admitted@);
        let mut stopped: bool = false;
        while !stopped && admitted.len() < batch.len()
            invariant
                !stopped ==> self.admitted_in_turn(
                    before,
                    batch@,
                    admitted@.len() as int,
                    first_events,
                    events@,
                ),
                stopped ==> self.admits_front(
                    before,
                    batch@,
                    admitted@.len() as int,
                    first_events,
                    events@,
                ),
                before == *old(self),
                first_events == old(events)@,
                self.wf(),
                self.carried(before),
                self.none_ended(before),
                self.same_run(before),
                self.protection is None || self.protection == before.protection,
                grew(first_events, events@),
                moves_told(before.requests@, self.requests@, first_events, events@),
                spared(before.requests@, first_events, events@),
                admitted@.len() <= batch@.len(),
                admitted@ == batch@.take(admitted@.len() as int),
                self.admitting(before, batch@, admitted@.len() as int),
                batch@.len() <= 1 || all_waiting(before.requests@, batch@),
                forall|a: int, b: int|
                    0 <= a < b < batch@.len() ==> #[trigger] batch@[a] != #[trigger] batch@[b],
                forall|k: int|
                    0 <= k < batch@.len() ==> (#[trigger] batch@[k]) < before.requests@.len() && (
                    waits(before.requests@[batch@[k] as int]) || half_prefilled(
                        before.requests@[batch@[k] as int],
                    )),
                stopped ==> admitted@.len() < batch@.len() && !self.has_room_for(
                    before.requests@[batch@[admitted@.len() as int] as int].resources.kv_pages,
                    1,
                ),
            decreases batch@.len() - admitted@.len() + (if stopped { 0int } else { 1int }),
        {
            let ghost n = admitted@.len() as int;
            let ghost middle = *self;
            let ghost until = events@;
            let i: usize = batch[admitted.len()];
            assert(self.requests@[batch@[n] as int] == before.requests@[i as int]);
            let ok: bool = self.admit_to_device(i, events);
            proof {
                self.admitting_steps(middle, before, batch@, n, ok);
                middle.ids_carry(before);
                moves_told_on(
                    before.requests@,
                    middle.requests@,
                    self.requests@,
                    first_events,
                    until,
                    events@,
                );
                middle.done_carry(before);
                spared_on(before.requests@, middle.requests@, first_events, until, events@);
            }
            if ok {
                proof {
                    self.admitted_one_more(
                        middle,
                        before,
                        batch@,
                        n,
                        first_events,
                        until,
                        events@,
                    );
                }
                admitted.push(i);
                assert(admitted@ =~= batch@.take(n + 1));
            } else {
                proof {
                    reveal(ConcreteScheduler::admits_front);
                    assert(self.tried_admission(middle, batch@[n] as int, false, until, events@));
                }
                stopped = true;
            }
        }
        proof {
            if !stopped {
                reveal(ConcreteScheduler::admits_front);
            }
            assert(admitted@.skip(0) =~= admitted@);
            assert forall|k: int| 0 <= k < admitted@.len() implies (#[trigger] admitted@[k])
                < self.requests@.len() && sendable(self.requests@[admitted@[k] as int]) by {
                assert(admitted@[k] == batch@[k]);
            }
            assert forall|a: int, b: int| 0 <= a < b < admitted@.len() implies #[trigger] admitted@[a]
                != #[trigger] admitted@[b] by {
                assert(admitted@[a] == batch@[a] && admitted@[b] == batch@[b]);
            }
        }
        admitted
    }

    /// `batch` is the front of `queue`, and ends short of it only at the batch
    /// width, behind a prompt one chunk does not finish, or where there is no
    /// room for the next.
    pub open spec fn serves_front(self, queue: Seq<usize>, batch: Seq<usize>) -> bool {
        let n = batch.len() as int;
        &&& n <= queue.len()
        &&& batch == queue.take(n)
        &&& n < queue.len() ==> n >= self.config.max_prefill_batch || (n > 0 && !self.one_chunk(
            batch[n - 1] as int,
        )) || !self.has_room_for(self.requests@[queue[n] as int].resources.kv_pages, 1)
    }

    /// The first prompt half-way through, alone.
    fn batch_of_one(&mut self, active: usize, events: &mut Vec<SchedEvent>) -> (batch: Vec<usize>)
        requires
            old(self).wf(),
            old(self).settled(),
            active < old(self).requests@.len(),
            half_prefilled(old(self).requests@[active as int]),
        ensures
            final(self).wf(),
            final(self).carried(*old(self)),
            final(self).none_ended(*old(self)),
            final(self).same_run(*old(self)),
            final(self).protection is None || final(self).protection == old(self).protection,
            grew(old(events)@, final(events)@),
            moves_told(old(self).requests@, final(self).requests@, old(events)@, final(events)@),
            spared(old(self).requests@, old(events)@, final(events)@),
            final(self).batch_ready(batch@, 0),
            final(self).settled_but(batch@, 0),
            batch@ == seq![active] || batch@.len() == 0 && !final(self).has_room_for(
                old(self).requests@[active as int].resources.kv_pages,
                1,
            ),
            batch@.len() > 0 ==> half_prefilled(final(self).requests@[active as int]),
            final(self).admits_front(
                *old(self),
                seq![active],
                batch@.len() as int,
                old(events)@,
                final(events)@,
            ),
    {
        let mut alone: Vec<usize> = Vec::new();
        alone.push(active);
        let batch = self.admit_batch(&alone, events);
        proof {
            assert(alone@[0] == active);
            assert(alone@ =~= seq![active]);
            if batch@.len() > 0 {
                assert(batch@[0] == alone@[0]);
                assert(batch@ =~= seq![active]);
            }
        }
        batch
    }

    /// The front of the queue of fresh prompts.
    #[verifier::rlimit(30)]
    fn batch_of_fresh(&mut self, events: &mut Vec<SchedEvent>) -> (batch: Vec<usize>)
        requires
            old(self).wf(),
            old(self).settled(),
        ensures
            final(self).wf(),
            final(self).carried(*old(self)),
            final(self).none_ended(*old(self)),
            final(self).same_run(*old(self)),
            final(self).protection is None || final(self).protection == old(self).protection,
            took_up(old(events)@, final(events)@),
            moves_told(old(self).requests@, final(self).requests@, old(events)@, final(events)@),
            spared(old(self).requests@, old(events)@, final(events)@),
            final(self).batch_ready(batch@, 0),
            final(self).settled_but(batch@, 0),
            batch@.len() <= old(self).config.max_prefill_batch,
            exists|queue: Seq<usize>, taken: Self, told: Seq<SchedEvent>|
                is_prefill_queue(old(self).requests@, queue) && final(self).serves_front(
                    queue,
                    batch@,
                ) && #[trigger] taken.front_claimed(*old(self), queue, old(events)@, told) && grew(
                    told,
                    final(events)@,
                ) && final(self).charges(taken, batch@) && final(self).admits_of(
                    taken,
                    queue,
                    batch@.len() as int,
                    told,
                    final(events)@,
                ),
            forall|k: int|
                0 <= k < batch@.len() ==> claimed(
                    old(self).requests@[(#[trigger] batch@[k]) as int],
                    (Request { resident: false, ..final(self).requests@[batch@[k] as int] }),
                ),
            forall|k: int|
                0 <= k < batch@.len() - 1 ==> final(self).one_chunk((#[trigger] batch@[k]) as int),
    {
        let ghost before = *self;
        let ghost first_events = events@;
        let mut queue = self.prefill_queue();
        let ghost whole = queue@;
        queue.truncate(self.config.max_prefill_batch as usize);
        proof {
            assert(queue@ =~= whole.take(queue@.len() as int));
            assert forall|k: int| 0 <= k < queue@.len() implies (#[trigger] queue@[k])
                < self.requests@.len() && waits(self.requests@[queue@[k] as int]) by {
                assert(queue@[k] == whole[k]);
            }
            assert forall|a: int, b: int| 0 <= a < b < queue@.len() implies #[trigger] queue@[a]
                != #[trigger] queue@[b] by {
                assert(queue@[a] == whole[a] && queue@[b] == whole[b]);
            }
        }
        self.claim_for_batch(&queue, events);
        let ghost taken = *self;
        let ghost until = events@;
        let cut = self.cut_batch(&queue);
        proof {
            assert forall|k: int| 0 <= k < cut@.len() implies (#[trigger] cut@[k])
                < self.requests@.len() && waits(self.requests@[cut@[k] as int]) by {
                assert(cut@[k] == queue@[k]);
            }
            assert forall|a: int, b: int| 0 <= a < b < cut@.len() implies #[trigger] cut@[a]
                != #[trigger] cut@[b] by {
                assert(cut@[a] == queue@[a] && cut@[b] == queue@[b]);
            }
        }
        let batch = self.admit_batch(&cut, events);
        proof {
            assert(batch@ =~= whole.take(batch@.len() as int));
            self.admitted_front(taken, whole, queue@, cut@, batch@);
            self.charged_claims(taken, before, queue@, cut@, batch@);
            assert(is_prefill_queue(before.requests@, whole));
            assert(taken.front_claimed(before, whole, first_events, until));
            assert(cut@ =~= whole.take(cut@.len() as int));
            self.admits_a_front(taken, whole, cut@, batch@.len() as int, until, events@);
            taken.ids_carry(before);
            taken.done_carry(before);
            spared_on(before.requests@, taken.requests@, first_events, until, events@);
            moves_told_on(
                before.requests@,
                taken.requests@,
                self.requests@,
                first_events,
                until,
                events@,
            );
            assert forall|i: int| 0 <= i < before.requests@.len() implies carries_on(
                before.requests@[i],
                #[trigger] self.requests@[i],
            ) by {
                assert(carries_on(before.requests@[i], taken.requests@[i]));
                assert(carries_on(taken.requests@[i], self.requests@[i]));
            }
        }
        batch
    }

    /// Whoever was charged is what it came to be by its claim, and on the device.
    proof fn charged_claims(
        self,
        taken: Self,
        before: Self,
        queue: Seq<usize>,
        cut: Seq<usize>,
        batch: Seq<usize>,
    )
        requires
            cut.len() <= queue.len(),
            cut == queue.take(cut.len() as int),
            batch.len() <= cut.len(),
            batch == cut.take(batch.len() as int),
            forall|k: int|
                0 <= k < queue.len() ==> claimed(
                    before.requests@[(#[trigger] queue[k]) as int],
                    taken.requests@[queue[k] as int],
                ),
            forall|k: int|
                0 <= k < cut.len() ==> !taken.requests@[(#[trigger] cut[k]) as int].resident,
            forall|k: int|
                0 <= k < cut.len() ==> self.requests@[(#[trigger] cut[k]) as int] == (if k
                    < batch.len() {
                    Request { resident: true, ..taken.requests@[cut[k] as int] }
                } else {
                    taken.requests@[cut[k] as int]
                }),
        ensures
            self.charges(taken, batch),
            forall|k: int|
                0 <= k < batch.len() ==> claimed(
                    before.requests@[(#[trigger] batch[k]) as int],
                    (Request { resident: false, ..self.requests@[batch[k] as int] }),
                ),
    {
        assert forall|k: int| 0 <= k < batch.len() implies batch[k] == cut[k] && cut[k]
            == #[trigger] queue[k] by {}
        assert forall|k: int| 0 <= k < batch.len() implies self.requests@[(
        #[trigger] batch[k]) as int] == (Request {
            resident: true,
            ..taken.requests@[batch[k] as int]
        }) by {
            assert(batch[k] == cut[k]);
        }
        assert forall|k: int| 0 <= k < batch.len() implies claimed(
            before.requests@[(#[trigger] batch[k]) as int],
            (Request { resident: false, ..self.requests@[batch[k] as int] }),
        ) by {
            assert(batch[k] == cut[k] && cut[k] == queue[k]);
            assert(claimed(before.requests@[queue[k] as int], taken.requests@[queue[k] as int]));
        }
    }

    /// What was admitted of the cut queue is the front of the whole.
    proof fn admitted_front(
        self,
        claimed: Self,
        whole: Seq<usize>,
        queue: Seq<usize>,
        cut: Seq<usize>,
        batch: Seq<usize>,
    )
        requires
            self.config == claimed.config,
            queue.len() <= whole.len(),
            queue == whole.take(queue.len() as int),
            queue.len() < whole.len() ==> queue.len() == self.config.max_prefill_batch,
            cut.len() <= queue.len(),
            cut == queue.take(cut.len() as int),
            forall|k: int|
                0 <= k < cut.len() - 1 ==> claimed.one_chunk((#[trigger] queue[k]) as int),
            cut.len() < queue.len() ==> cut.len() > 0 && !claimed.one_chunk(
                queue[cut.len() - 1] as int,
            ),
            batch.len() <= cut.len(),
            batch == cut.take(batch.len() as int),
            batch.len() < cut.len() ==> !self.has_room_for(
                claimed.requests@[cut[batch.len() as int] as int].resources.kv_pages,
                1,
            ),
            forall|k: int|
                0 <= k < cut.len() ==> waits(claimed.requests@[(#[trigger] cut[k]) as int]),
            forall|k: int|
                0 <= k < cut.len() ==> self.requests@[(#[trigger] cut[k]) as int] == (if k
                    < batch.len() {
                    Request { resident: true, ..claimed.requests@[cut[k] as int] }
                } else {
                    claimed.requests@[cut[k] as int]
                }),
        ensures
            self.serves_front(whole, batch),
            forall|k: int|
                0 <= k < batch.len() ==> waits(self.requests@[(#[trigger] batch[k]) as int]),
            forall|k: int|
                0 <= k < batch.len() - 1 ==> self.one_chunk((#[trigger] batch[k]) as int),
    {
        let n = batch.len() as int;
        assert(batch =~= whole.take(n));
        assert forall|k: int| 0 <= k < batch.len() implies waits(
            self.requests@[(#[trigger] batch[k]) as int],
        ) by {
            assert(batch[k] == cut[k]);
        }
        assert forall|k: int| 0 <= k < batch.len() implies self.one_chunk(batch[k] as int)
            == claimed.one_chunk((#[trigger] queue[k]) as int) by {
            assert(batch[k] == cut[k]);
            assert(cut[k] == queue[k]);
        }
        assert forall|k: int| 0 <= k < batch.len() - 1 implies self.one_chunk(
            (#[trigger] batch[k]) as int,
        ) by {
            assert(batch[k] == queue[k]);
        }
        if n < cut.len() {
            assert(cut[n] == whole[n]);
        } else if n < queue.len() {
            assert(batch[n - 1] == queue[n - 1]);
        }
    }

    /// The first `n` of some front of the queue were charged, and there was no
    /// room for the one after them in it, if there is one.
    #[verifier::opaque]
    pub open spec fn admits_of(
        self,
        taken: Self,
        queue: Seq<usize>,
        n: int,
        first: Seq<SchedEvent>,
        last: Seq<SchedEvent>,
    ) -> bool {
        exists|m: int|
            n <= m <= queue.len() && #[trigger] self.admits_front(
                taken,
                queue.take(m),
                n,
                first,
                last,
            )
    }

    proof fn admits_a_front(
        self,
        taken: Self,
        queue: Seq<usize>,
        cut: Seq<usize>,
        n: int,
        first: Seq<SchedEvent>,
        last: Seq<SchedEvent>,
    )
        requires
            cut.len() <= queue.len(),
            cut == queue.take(cut.len() as int),
            n <= cut.len(),
            self.admits_front(taken, cut, n, first, last),
        ensures
            self.admits_of(taken, queue, n, first, last),
    {
        reveal(ConcreteScheduler::admits_of);
        let m = cut.len() as int;
        assert(self.admits_front(taken, queue.take(m), n, first, last));
    }

    /// Every member of `batch` is as it was, and on the device.
    pub open spec fn charges(self, taken: Self, batch: Seq<usize>) -> bool {
        forall|k: int|
            0 <= k < batch.len() ==> self.requests@[(#[trigger] batch[k]) as int] == (Request {
                resident: true,
                ..taken.requests@[batch[k] as int]
            })
    }

    /// `batch` is who an advance sends a chunk for, out of `before`.
    pub open spec fn selects(
        self,
        before: Self,
        batch: Seq<usize>,
        first: Seq<SchedEvent>,
        last: Seq<SchedEvent>,
    ) -> bool {
        let reqs = before.requests@;
        // The first prompt half-way through, alone; it waits only while there
        // is no room for it.
        &&& forall|i: int|
            0 <= i < reqs.len() && half_prefilled(#[trigger] reqs[i]) && (forall|j: int|
                0 <= j < i ==> !half_prefilled(#[trigger] reqs[j])) ==> (batch == seq![i as usize]
                || batch.len() == 0 && !self.has_room_for(reqs[i].resources.kv_pages, 1))
                && self.admits_front(before, seq![i as usize], batch.len() as int, first, last)
        // Otherwise the front of the queue, and everyone but the last is done
        // with its prompt after this chunk.
        &&& (forall|i: int| 0 <= i < reqs.len() ==> !half_prefilled(#[trigger] reqs[i])) ==> {
            &&& batch.len() <= before.config.max_prefill_batch
            &&& exists|queue: Seq<usize>, taken: Self, told: Seq<SchedEvent>|
                is_prefill_queue(reqs, queue) && self.serves_front(queue, batch)
                    && #[trigger] taken.front_claimed(before, queue, first, told) && grew(
                    told,
                    last,
                ) && self.charges(taken, batch) && self.admits_of(
                    taken,
                    queue,
                    batch.len() as int,
                    told,
                    last,
                )
            &&& forall|k: int|
                0 <= k < batch.len() ==> claimed(
                    reqs[(#[trigger] batch[k]) as int],
                    (Request { resident: false, ..self.requests@[batch[k] as int] }),
                )
            &&& forall|k: int|
                0 <= k < batch.len() - 1 ==> self.one_chunk((#[trigger] batch[k]) as int)
        }
    }

    /// Who this advance sends a chunk for, charged and ready. A prompt that is
    /// half-way through is served alone; otherwise the front of the queue, as
    /// far as one chunk finishes each prompt and room can be made.
    pub(crate) fn select_batch(&mut self, events: &mut Vec<SchedEvent>) -> (batch: Vec<usize>)
        requires
            old(self).wf(),
            old(self).settled(),
        ensures
            final(self).wf(),
            final(self).carried(*old(self)),
            final(self).none_ended(*old(self)),
            final(self).same_run(*old(self)),
            final(self).protection is None || final(self).protection == old(self).protection,
            took_up(old(events)@, final(events)@),
            moves_told(old(self).requests@, final(self).requests@, old(events)@, final(events)@),
            spared(old(self).requests@, old(events)@, final(events)@),
            final(self).batch_ready(batch@, 0),
            final(self).settled_but(batch@, 0),
            final(self).selects(*old(self), batch@, old(events)@, final(events)@),
    {
        match self.find_half_prefilled() {
            Some(active) => self.batch_of_one(active, events),
            None => self.batch_of_fresh(events),
        }
    }
}

} // verus!
