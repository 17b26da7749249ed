//! The overflow path: suspending requests to host memory and resuming them.
//!
//! When a request is blocked, the lowest-value lane that is neither a donor's
//! nor reserved is suspended: its state is snapshotted to host memory and its
//! lane, pages and slot come back. A suspended request resumes where it
//! stopped; one whose snapshot is lost prefills from the start.

use crate::admission::{
    choose_resident_candidate_victim, choose_retained_lane_victim, is_lane_victim,
    AdmissionResources, ResidentCandidate, RetainedLaneCandidate,
};
use crate::concrete::{
    hosted, is_known, loosely_hosted, request_ok, resumes, resumes_at, snapshotted,
    ConcreteScheduler,
};
use crate::host::{
    is_next_blob, is_next_snapshot, snapshot_is_first, snapshot_of, HostEntry, HostTier,
    KvRamVictim, ResumePhase, RetainedBlob, RetainedKvRamEntry, Tier,
};
use crate::ledger::{debt, debt_grows, holding, standing, stands_on};
use crate::moves::{
    a_stranger_leaves, hosted_join, hosted_kept, hosted_leave, lane_dealt, lane_returned,
    lanes_kept, loosely_kept,
};
use crate::plan::{budget, full_pages, generation_budget, pages_to_hold, reserved, sequence_tokens};
use crate::request::Request;
use crate::lifecycle::{
    moves_told, moves_told_on, names, spared, spared_on, spares, spares_all_but, tells,
    tidied_spares,
};
use crate::prefix::{after_release, dropped_by, pages_back};
use crate::retention::{copy_told, grew, longer, slots_after};
use crate::reuse::{claim_was_released, last_claim_frees};
use crate::scheduler::{instant_now, micros_since, Clock, Compute};
use crate::types::{
    ComputeError, LaneId, PrefixId, RequestClass, RequestId, RequestState, SchedEvent,
};
use vstd::prelude::*;

verus! {

/// A suspended request after its snapshot was lost: queued again, from the
/// start, for its whole reservation.
pub open spec fn is_requeued(before: Request, after: Request, config: crate::plan::SchedulerConfig) -> bool {
    &&& after.gdn@ == crate::gdn::GdnView::fresh()
    &&& after.drawn@.len() == 0
    &&& after == (Request {
        remaining_work: budget(config, before.input) as u64,
        resources: AdmissionResources {
            kv_pages: full_pages(config, before.input) as u32,
            ..before.resources
        },
        resident: false,
        ..before.requeued(after.gdn, after.drawn)
    })
}

/// A request after it was suspended: off its lane and off the device, standing
/// on nothing, and owed its whole reservation when it resumes.
pub open spec fn suspended_request(r: Request, config: crate::plan::SchedulerConfig) -> Request {
    let off = Request { resident: false, ..r }.suspended();
    if r.prefix_entry is Some {
        Request {
            prefix_entry: None,
            prefix_publisher: None,
            shared_prefix_tokens: 0,
            shared_pages: 0,
            resources: AdmissionResources {
                kv_pages: full_pages(config, r.input) as u32,
                ..r.resources
            },
            standalone_tokens: r.prefill_progress,
            ..off
        }
    } else {
        off
    }
}

/// Suspend a request, `full` pages being its whole reservation.
fn suspend(r: &mut Request, full: u32, Ghost(config): Ghost<crate::plan::SchedulerConfig>)
    requires
        full == full_pages(config, old(r).input),
    ensures
        *final(r) == suspended_request(*old(r), config),
{
    r.resident = false;
    r.evict();
    if r.prefix_entry.is_some() {
        r.prefix_entry = None;
        r.prefix_publisher = None;
        r.shared_prefix_tokens = 0;
        r.shared_pages = 0;
        r.resources.kv_pages = full;
        r.standalone_tokens = r.prefill_progress;
    }
}

/// Queue a request again from the start, `budget` tokens and `full` pages
/// being its own.
fn start_over(
    r: &mut Request,
    budget: u32,
    full: u32,
    Ghost(config): Ghost<crate::plan::SchedulerConfig>,
)
    requires
        full == full_pages(config, old(r).input),
        budget == crate::plan::budget(config, old(r).input),
    ensures
        is_requeued(*old(r), *final(r), config),
{
    r.resident = false;
    r.requeue();
    r.remaining_work = budget as u64;
    r.resources.kv_pages = full;
}

/// Whether the drop of the snapshot of `id` is reported past `before`.
pub open spec fn drop_is_told(
    before: Seq<SchedEvent>,
    after: Seq<SchedEvent>,
    id: RequestId,
) -> bool {
    exists|k: int|
        before.len() <= k < after.len() && #[trigger] after[k] == (SchedEvent::SnapshotDropped {
            request: id,
        })
}

/// The drop of the snapshot of whoever is queued again is reported.
pub open spec fn drops_told(
    before: Seq<Request>,
    after: Seq<Request>,
    first: Seq<SchedEvent>,
    last: Seq<SchedEvent>,
) -> bool {
    forall|i: int|
        0 <= i < before.len() && (#[trigger] after[i]).state != before[i].state ==> drop_is_told(
            first,
            last,
            before[i].id,
        )
}

proof fn drops_stay_told(
    a: Seq<Request>,
    b: Seq<Request>,
    first: Seq<SchedEvent>,
    until: Seq<SchedEvent>,
    last: Seq<SchedEvent>,
)
    requires
        drops_told(a, b, first, until),
        grew(until, last),
    ensures
        drops_told(a, b, first, last),
{
    assert forall|i: int|
        0 <= i < a.len() && (#[trigger] b[i]).state != a[i].state implies drop_is_told(
        first,
        last,
        a[i].id,
    ) by {
        let k = choose|k: int|
            first.len() <= k < until.len() && #[trigger] until[k] == (SchedEvent::SnapshotDropped {
                request: a[i].id,
            });
        assert(last[k] == until[k]);
    }
}

/// Every copy the tier holds is one a request waits for.
pub open spec fn all_claimed(retained: Seq<RetainedKvRamEntry>) -> bool {
    forall|j: int| 0 <= j < retained.len() ==> (#[trigger] retained[j]).claims > 0
}

/// One request moved, and the last event tells of it.
proof fn one_move_told(
    a: Seq<Request>,
    b: Seq<Request>,
    i: int,
    first: Seq<SchedEvent>,
    last: Seq<SchedEvent>,
)
    requires
        0 <= i < a.len(),
        b.len() == a.len(),
        forall|j: int| 0 <= j < a.len() && j != i ==> (#[trigger] b[j]) == a[j],
        first.len() < last.len(),
        tells(last.last(), a[i].id, b[i].state),
    ensures
        moves_told(a, b, first, last),
{
    assert(last[last.len() - 1] == last.last());
}

/// What is reported of a request that leaves the device names no one else.
proof fn leaving_spares(
    reqs: Seq<Request>,
    bound: RequestId,
    i: int,
    snapshot_micros: u64,
    first: Seq<SchedEvent>,
    last: Seq<SchedEvent>,
)
    requires
        crate::ledger::requests_ascend(reqs, bound),
        0 <= i < reqs.len(),
        reqs[i].state != RequestState::Done,
        last == first.push(SchedEvent::Evicted { request: reqs[i].id, snapshot_micros }) || last
            == first.push(SchedEvent::SnapshotDropped { request: reqs[i].id }).push(
            SchedEvent::Requeued { request: reqs[i].id },
        ),
    ensures
        spared(reqs, first, last),
{
    assert forall|k: int| first.len() <= k < last.len() implies spares(
        reqs,
        #[trigger] last[k],
    ) by {
        spares_all_but(reqs, bound, i, last[k]);
    }
}

/// How many of the events report a snapshot dropped.
pub open spec fn drops(events: Seq<SchedEvent>) -> int
    decreases events.len(),
{
    if events.len() == 0 {
        0
    } else if events.last() is SnapshotDropped {
        drops(events.drop_last()) + 1
    } else {
        drops(events.drop_last())
    }
}

proof fn one_event_more(events: Seq<SchedEvent>, event: SchedEvent)
    ensures
        drops(events.push(event)) == drops(events) + if event is SnapshotDropped {
            1int
        } else {
            0
        },
{
    assert(events.push(event).drop_last() =~= events);
}

/// Whether none of the events past `first` reports a request suspended.
pub open spec fn none_suspended(first: Seq<SchedEvent>, last: Seq<SchedEvent>) -> bool {
    forall|k: int| first.len() <= k < last.len() ==> !((#[trigger] last[k]) is Evicted)
}

/// Whether a request may be suspended: its sequence is on the device, and it
/// is decoding or has been prefilled at least in part.
pub open spec fn suspendable(r: Request) -> bool {
    r.resident && (r.state == RequestState::Running || r.state == RequestState::Prefilling)
}

impl<C: Compute, K: Clock> ConcreteScheduler<C, K> {
    /// The invariant holds but for the suspended request at `i`, whose snapshot
    /// has just left the tier.
    pub open spec fn lost_snapshot(self, i: int) -> bool {
        &&& self.books(Seq::empty())
        &&& 0 <= i < self.requests@.len()
        &&& self.requests@[i].state == RequestState::Evicted
        &&& loosely_hosted(
            self.requests@.update(i, self.requests@[i].aborted()),
            self.host.live@,
        )
    }

    /// With the suspended request at `i` out of the way, no snapshot is
    /// without a request behind it.
    pub open spec fn has_no_strangers_but(self, i: int) -> bool {
        hosted(self.requests@.update(i, self.requests@[i].aborted()), self.host.live@)
    }

    /// Everything but host memory, and the suspended requests it lost, as it
    /// was in `before`.
    pub open spec fn only_suspended_moved(self, before: Self) -> bool {
        &&& self == (ConcreteScheduler {
            requests: self.requests,
            host: self.host,
            prefix: self.prefix,
            checkpoints: self.checkpoints,
            ..before
        })
        &&& self.requests@.len() == before.requests@.len()
        &&& forall|i: int|
            0 <= i < before.requests@.len() ==> #[trigger] self.requests@[i] == before.requests@[i]
                || (before.requests@[i].state == RequestState::Evicted && is_requeued(
                before.requests@[i],
                self.requests@[i],
                before.config,
            ))
        &&& self.host.capacity_bytes == before.host.capacity_bytes
        &&& self.host.ttl == before.host.ttl
        &&& self.checkpoints.identity == before.checkpoints.identity
        &&& self.checkpoints.tiers == before.checkpoints.tiers
    }

    proof fn suspended_moved_twice(self, middle: Self, before: Self)
        requires
            self.only_suspended_moved(middle),
            middle.only_suspended_moved(before),
        ensures
            self.only_suspended_moved(before),
    {
        assert forall|i: int| 0 <= i < before.requests@.len() implies #[trigger] self.requests@[i]
            == before.requests@[i] || (before.requests@[i].state == RequestState::Evicted
            && is_requeued(before.requests@[i], self.requests@[i], before.config)) by {
            assert(middle.requests@[i] == before.requests@[i] || is_requeued(
                before.requests@[i],
                middle.requests@[i],
                before.config,
            ));
        }
    }

    proof fn ids_stand(self, before: Self)
        requires
            self.only_suspended_moved(before),
        ensures
            forall|i: int|
                0 <= i < before.requests@.len() ==> (#[trigger] self.requests@[i]).id
                    == before.requests@[i].id,
    {
    }

    /// Queue a suspended request whose snapshot was lost for a fresh prefill.
    pub(crate) fn requeue_request(&mut self, idx: usize, events: &mut Vec<SchedEvent>)
        requires
            old(self).lost_snapshot(idx as int),
        ensures
            final(self).wf_but_strangers(),
            old(self).has_no_strangers_but(idx as int) ==> final(self).wf(),
            *final(self) == (ConcreteScheduler { requests: final(self).requests, ..*old(self) }),
            final(self).requests@ == old(self).requests@.update(
                idx as int,
                final(self).requests@[idx as int],
            ),
            is_requeued(
                old(self).requests@[idx as int],
                final(self).requests@[idx as int],
                old(self).config,
            ),
            final(events)@ == old(events)@.push(
                SchedEvent::Requeued { request: old(self).requests@[idx as int].id },
            ),
    {
        let ghost before = *self;
        proof {
            assert(request_ok(before.requests@[idx as int], before.config, before.prefix.entries@));
        }
        let budget: u32 = generation_budget(&self.config, &self.requests[idx].input);
        let tokens: u32 = sequence_tokens(&self.config, &self.requests[idx].input);
        let full: u32 = pages_to_hold(tokens, self.config.kv_page_tokens);
        start_over(&mut self.requests[idx], budget, full, Ghost(self.config));
        proof {
            let i = idx as int;
            let was = before.requests@[i];
            let with = self.requests@[i];
            assert(self.requests@ =~= before.requests@.update(i, with));
            assert(is_requeued(was, with, before.config));
            lanes_kept(before.requests@, before.free_lanes@, i, with);
            let ended = before.requests@.update(i, was.aborted());
            loosely_kept(ended, before.host.live@, i, with);
            if before.has_no_strangers_but(i) {
                hosted_kept(ended, before.host.live@, i, with);
            }
            assert(ended.update(i, with) =~= self.requests@);
            assert(request_ok(with, self.config, self.prefix.entries@));
            self.one_request_moved(before, i, Seq::empty(), Seq::empty());
        }
        events.push(SchedEvent::Requeued { request: self.requests[idx].id });
    }

    /// The snapshot at `at` left the tier: its request is the one that lost it.
    proof fn snapshot_lost(self, before: Self, at: int, i: int)
        requires
            before.wf_but_strangers(),
            self == (ConcreteScheduler { host: self.host, ..before }),
            self.host.wf(),
            self.host.capacity_bytes == before.host.capacity_bytes,
            0 <= at < before.host.live@.len(),
            self.host.live@ == before.host.live@.remove(at),
            0 <= i < before.requests@.len(),
            before.requests@[i].id == before.host.live@[at].request,
        ensures
            self.lost_snapshot(i),
            before.wf() ==> self.has_no_strangers_but(i),
            before.requests@[i].resources.kv_pages == before.host.live@[at].pages,
            before.requests@[i].prefill_progress == before.host.live@[at].prefill_progress,
    {
        let e = before.host.live@[at];
        assert(is_known(before.requests@, e.request));
        assert(resumes(before.requests@, e));
        let j = choose|j: int| #[trigger] resumes_at(before.requests@, e, j);
        if j < i {
            assert(before.requests@[j].id < before.requests@[i].id);
        } else if i < j {
            assert(before.requests@[i].id < before.requests@[j].id);
        }
        hosted_leave(
            before.requests@,
            before.host.live@,
            before.next_id,
            i,
            before.requests@[i].aborted(),
            at,
        );
        assert forall|p: PrefixId| #[trigger]
            self.prefix.refs(p) == standing(self.requests@, p) + holding(
                self.checkpoints.entries@,
                p,
            ) + debt(Seq::empty(), p) by {
            assert(before.prefix.refs(p) == self.prefix.refs(p));
        }
        assert forall|k: int| 0 <= k < self.requests@.len() implies request_ok(
            #[trigger] self.requests@[k],
            self.config,
            self.prefix.entries@,
        ) by {
            assert(request_ok(before.requests@[k], before.config, before.prefix.entries@));
        }
    }

    /// Host memory was found short of `bytes`: the budget has no room for them,
    /// or the backend said it has no span.
    pub open spec fn found_short(self, bytes: u64) -> bool {
        self.host.used_bytes + bytes > self.host.capacity_bytes || call_ensures(
            C::host_blob_fits,
            (&*self.compute, bytes),
            false,
        )
    }

    /// Host memory was found to have room for `bytes`: in the budget, and, as
    /// the backend said, in one span.
    pub open spec fn found_room(self, bytes: u64) -> bool {
        self.host.used_bytes + bytes <= self.host.capacity_bytes && call_ensures(
            C::host_blob_fits,
            (&*self.compute, bytes),
            true,
        )
    }

    /// The copy at `at`, the next by the clock's reading, left the tier.
    #[verifier::opaque]
    pub open spec fn gave_copy(
        self,
        before: Self,
        now: u64,
        at: int,
        first: Seq<SchedEvent>,
        last: Seq<SchedEvent>,
    ) -> bool {
        &&& is_next_blob(before.host.retained@, now, before.host.ttl, at)
        &&& self.host.retained@ == before.host.retained@.remove(at)
        &&& self.host.live == before.host.live
        &&& self.host.used_bytes == before.host.used_bytes - before.host.retained@[at].bytes
        &&& self.requests == before.requests
        &&& self.name_forgotten(before, before.host.retained@[at])
        &&& last == first.push(copy_told(before.host.retained@[at].blob))
    }

    /// No copy being left to give, the snapshot at `at`, the next, left the
    /// tier, the backend was told to free it, and the request at `i` it was of,
    /// if there is one, is queued again.
    #[verifier::opaque]
    pub open spec fn gave_snapshot(
        self,
        before: Self,
        at: int,
        i: Option<int>,
        first: Seq<SchedEvent>,
        last: Seq<SchedEvent>,
    ) -> bool {
        let id = before.host.live@[at].request;
        let dropped = first.push(SchedEvent::SnapshotDropped { request: id });
        &&& all_claimed(before.host.retained@)
        &&& is_next_snapshot(before.host.live@, at)
        &&& self.host.live@ == before.host.live@.remove(at)
        &&& self.host.retained == before.host.retained
        &&& self.host.used_bytes == before.host.used_bytes - before.host.live@[at].bytes
        &&& self.prefix == before.prefix
        &&& self.checkpoints == before.checkpoints
        &&& before.snapshot_freed(id)
        &&& match i {
            Some(i) => {
                &&& 0 <= i < before.requests@.len()
                &&& before.requests@[i].id == id
                &&& self.requests@ == before.requests@.update(i, self.requests@[i])
                &&& is_requeued(before.requests@[i], self.requests@[i], before.config)
                &&& last == dropped.push(SchedEvent::Requeued { request: id })
            },
            None => {
                &&& !is_known(before.requests@, id)
                &&& self.requests == before.requests
                &&& last == dropped
            },
        }
    }

    /// Host memory being short of `bytes`, one entry left the tier.
    #[verifier::opaque]
    pub open spec fn gave_host_entry(
        self,
        before: Self,
        bytes: u64,
        first: Seq<SchedEvent>,
        last: Seq<SchedEvent>,
    ) -> bool {
        &&& before.found_short(bytes)
        &&& self.only_suspended_moved(before)
        &&& {
            ||| exists|now: u64, at: int|
                call_ensures(K::now, (&before.clock,), now) && #[trigger] self.gave_copy(
                    before,
                    now,
                    at,
                    first,
                    last,
                )
            ||| exists|at: int, i: Option<int>| #[trigger]
                self.gave_snapshot(before, at, i, first, last)
        }
    }

    /// `n` entries left the tier, one after the other, each while host memory
    /// was short of `bytes`.
    pub open spec fn gave_host_entries(
        self,
        before: Self,
        n: int,
        bytes: u64,
        first: Seq<SchedEvent>,
        last: Seq<SchedEvent>,
    ) -> bool
        decreases n,
    {
        if n <= 0 {
            self == before && last == first
        } else {
            exists|middle: Self, until: Seq<SchedEvent>|
                middle.gave_host_entries(before, n - 1, bytes, first, until)
                    && #[trigger] self.gave_host_entry(middle, bytes, until, last)
        }
    }

    /// Room was made for `bytes`, by as many entries as it took, or everything
    /// that could go went and there is none.
    pub open spec fn made_host_room(
        self,
        before: Self,
        bytes: u64,
        room: bool,
        first: Seq<SchedEvent>,
        last: Seq<SchedEvent>,
    ) -> bool {
        &&& exists|n: int| 0 <= n && #[trigger] self.gave_host_entries(before, n, bytes, first, last)
        &&& room ==> self.found_room(bytes)
        &&& !room ==> self.found_short(bytes) && self.host.live@.len() == 0 && all_claimed(
            self.host.retained@,
        )
    }

    proof fn gave_one_host_entry_more(
        self,
        middle: Self,
        before: Self,
        n: int,
        bytes: u64,
        first: Seq<SchedEvent>,
        until: Seq<SchedEvent>,
        last: Seq<SchedEvent>,
    )
        requires
            0 <= n,
            middle.gave_host_entries(before, n, bytes, first, until),
            self.gave_host_entry(middle, bytes, until, last),
        ensures
            self.gave_host_entries(before, n + 1, bytes, first, last),
    {
    }

    /// Where host memory has room at the start, no first entry leaves.
    proof fn room_is_left_alone(
        self,
        before: Self,
        n: int,
        bytes: u64,
        first: Seq<SchedEvent>,
        last: Seq<SchedEvent>,
    )
        requires
            self.gave_host_entries(before, n, bytes, first, last),
            !before.found_short(bytes),
        ensures
            self == before,
            last == first,
        decreases n,
    {
        reveal(ConcreteScheduler::gave_host_entry);
        if n > 0 {
            let (middle, until) = choose|middle: Self, until: Seq<SchedEvent>|
                middle.gave_host_entries(before, n - 1, bytes, first, until)
                    && #[trigger] self.gave_host_entry(middle, bytes, until, last);
            middle.room_is_left_alone(before, n - 1, bytes, first, until);
        }
    }

    /// A change of the tier's snapshots alone leaves the books as they were.
    proof fn stranger_left(self, before: Self)
        requires
            before.books(Seq::empty()),
            self == (ConcreteScheduler { host: self.host, ..before }),
            self.host.wf(),
            self.host.capacity_bytes == before.host.capacity_bytes,
        ensures
            self.books(Seq::empty()),
    {
        assert forall|p: PrefixId| #[trigger]
            self.prefix.refs(p) == standing(self.requests@, p) + holding(
                self.checkpoints.entries@,
                p,
            ) + debt(Seq::empty(), p) by {
            assert(before.prefix.refs(p) == self.prefix.refs(p));
        }
        assert forall|k: int| 0 <= k < self.requests@.len() implies request_ok(
            #[trigger] self.requests@[k],
            self.config,
            self.prefix.entries@,
        ) by {
            assert(request_ok(before.requests@[k], before.config, before.prefix.entries@));
        }
    }

    /// Make room in the host tier for a snapshot of `bytes`: give up entries in
    /// the tier's own order, retained copies first, until the budget can hold
    /// it and the backend has a span for it. A suspended request that loses
    /// its snapshot is queued again. `false` once the tier has nothing left to
    /// give up.
    #[verifier::rlimit(40)]
    pub fn make_host_room_for_bytes(&mut self, bytes: u64, events: &mut Vec<SchedEvent>) -> (room:
        bool)
        requires
            old(self).wf_but_strangers(),
        ensures
            final(self).wf_but_strangers(),
            old(self).wf() ==> final(self).wf(),
            final(self).only_suspended_moved(*old(self)),
            grew(old(events)@, final(events)@),
            moves_told(old(self).requests@, final(self).requests@, old(events)@, final(events)@),
            spared(old(self).requests@, old(events)@, final(events)@),
            // Every snapshot given up raises its own drop.
            drops_told(old(self).requests@, final(self).requests@, old(events)@, final(events)@),
            // None is given up while a copy may be.
            final(self).requests@ == old(self).requests@ || all_claimed(
                final(self).host.retained@,
            ),
            // Which entries left, in which order, and that each left only while
            // there was no room yet.
            final(self).made_host_room(*old(self), bytes, room, old(events)@, final(events)@),
            // Nothing leaves where there is room.
            !old(self).found_short(bytes) ==> room && *final(self) == *old(self) && final(events)@
                == old(events)@,
            // One drop is reported for each snapshot that left.
            drops(final(events)@) - drops(old(events)@) == old(self).host.live@.len()
                - final(self).host.live@.len(),
            none_suspended(old(events)@, final(events)@),
    {
        let ghost before = *self;
        let ghost first_events = events@;
        let ghost mut n: int = 0;
        loop
            invariant
                0 <= n,
                self.gave_host_entries(before, n, bytes, first_events, events@),
                drops(events@) - drops(first_events) == before.host.live@.len()
                    - self.host.live@.len(),
                none_suspended(first_events, events@),
                before == *old(self),
                first_events == old(events)@,
                drops_told(before.requests@, self.requests@, first_events, events@),
                self.requests@ == before.requests@ || all_claimed(self.host.retained@),
                self.wf_but_strangers(),
                before.wf() ==> self.wf(),
                self.only_suspended_moved(before),
                grew(first_events, events@),
                moves_told(before.requests@, self.requests@, first_events, events@),
                spared(before.requests@, first_events, events@),
            decreases self.host.live@.len() + self.host.retained@.len(),
        {
            let ghost until = events@;
            if self.host.has_room(bytes) && self.compute.host_blob_fits(bytes) {
                proof {
                    if !before.found_short(bytes) {
                        self.room_is_left_alone(before, n, bytes, first_events, events@);
                    }
                }
                return true;
            }
            assert(self.found_short(bytes));
            let ghost asked = *self;
            let now: u64 = self.now();
            match self.host.evict_for_live(now) {
                None => {
                    proof {
                        if !before.found_short(bytes) {
                            self.room_is_left_alone(before, n, bytes, first_events, events@);
                        }
                    }
                    return false;
                },
                Some(KvRamVictim::Retained(discarded)) => {
                    proof {
                        self.host_moved_only(asked, Seq::empty());
                    }
                    self.forget_kv_ram_blob(discarded, events);
                    proof {
                        assert(self.only_suspended_moved(asked));
                        self.suspended_moved_twice(asked, before);
                        asked.ids_stand(before);
                        moves_told_on(
                            before.requests@,
                            asked.requests@,
                            self.requests@,
                            first_events,
                            until,
                            events@,
                        );
                        drops_stay_told(
                            before.requests@,
                            asked.requests@,
                            first_events,
                            until,
                            events@,
                        );
                        let at = choose|at: int| #[trigger]
                            is_next_blob(asked.host.retained@, now, asked.host.ttl, at) && discarded
                                == asked.host.retained@[at] && self.host.retained@
                                == asked.host.retained@.remove(at);
                        if asked.requests@ != before.requests@ {
                            assert(asked.host.retained@[at].claims > 0);
                        }
                        assert(self.gave_copy(asked, now, at, until, events@)) by {
                            reveal(ConcreteScheduler::gave_copy);
                        }
                        assert(self.gave_host_entry(asked, bytes, until, events@)) by {
                            reveal(ConcreteScheduler::gave_host_entry);
                        }
                        self.gave_one_host_entry_more(
                            asked,
                            before,
                            n,
                            bytes,
                            first_events,
                            until,
                            events@,
                        );
                        n = n + 1;
                        one_event_more(until, events@.last());
                        tidied_spares(asked.requests@, until, events@);
                        spared_on(
                            before.requests@,
                            asked.requests@,
                            first_events,
                            until,
                            events@,
                        );
                    }
                },
                Some(KvRamVictim::Live(discarded)) => {
                    self.compute.discard_snapshot(discarded.request);
                    events.push(SchedEvent::SnapshotDropped { request: discarded.request });
                    let ghost at = choose|at: int| #[trigger]
                        is_next_snapshot(asked.host.live@, at) && discarded
                            == asked.host.live@[at] && self.host.live@
                            == asked.host.live@.remove(at);
                    match self.find(discarded.request) {
                        Some(idx) => {
                            proof {
                                self.snapshot_lost(asked, at, idx as int);
                            }
                            self.requeue_request(idx, events);
                            proof {
                                assert(self.only_suspended_moved(asked));
                                self.suspended_moved_twice(asked, before);
                                asked.ids_stand(before);
                                drops_stay_told(
                                    before.requests@,
                                    asked.requests@,
                                    first_events,
                                    until,
                                    events@,
                                );
                                assert(events@[until.len() as int] == (
                                SchedEvent::SnapshotDropped { request: discarded.request }));
                                assert forall|j: int|
                                    0 <= j < before.requests@.len() && (
                                    #[trigger] self.requests@[j]).state
                                        != before.requests@[j].state implies drop_is_told(
                                    first_events,
                                    events@,
                                    before.requests@[j].id,
                                ) by {
                                    if j != idx {
                                        assert(self.requests@[j] == asked.requests@[j]);
                                    } else {
                                        assert(asked.requests@[j].id == before.requests@[j].id);
                                    }
                                }
                                assert(self.gave_snapshot(
                                    asked,
                                    at,
                                    Some(idx as int),
                                    until,
                                    events@,
                                )) by {
                                    reveal(ConcreteScheduler::gave_snapshot);
                                }
                                assert(self.gave_host_entry(asked, bytes, until, events@)) by {
                                    reveal(ConcreteScheduler::gave_host_entry);
                                }
                                self.gave_one_host_entry_more(
                                    asked,
                                    before,
                                    n,
                                    bytes,
                                    first_events,
                                    until,
                                    events@,
                                );
                                n = n + 1;
                                let dropped = SchedEvent::SnapshotDropped {
                                    request: discarded.request,
                                };
                                spares_all_but(
                                    asked.requests@,
                                    asked.next_id,
                                    idx as int,
                                    dropped,
                                );
                                spares_all_but(
                                    asked.requests@,
                                    asked.next_id,
                                    idx as int,
                                    events@.last(),
                                );
                                assert(spared(asked.requests@, until, events@));
                                spared_on(
                                    before.requests@,
                                    asked.requests@,
                                    first_events,
                                    until,
                                    events@,
                                );
                                one_event_more(until, dropped);
                                one_event_more(until.push(dropped), events@.last());
                                one_move_told(
                                    asked.requests@,
                                    self.requests@,
                                    idx as int,
                                    until,
                                    events@,
                                );
                                moves_told_on(
                                    before.requests@,
                                    asked.requests@,
                                    self.requests@,
                                    first_events,
                                    until,
                                    events@,
                                );
                            }
                        },
                        None => {
                            proof {
                                a_stranger_leaves(asked.requests@, asked.host.live@, at);
                                self.stranger_left(asked);
                                assert(self.only_suspended_moved(asked));
                                self.suspended_moved_twice(asked, before);
                                asked.ids_stand(before);
                                moves_told_on(
                                    before.requests@,
                                    asked.requests@,
                                    self.requests@,
                                    first_events,
                                    until,
                                    events@,
                                );
                                drops_stay_told(
                                    before.requests@,
                                    asked.requests@,
                                    first_events,
                                    until,
                                    events@,
                                );
                                assert(self.gave_snapshot(asked, at, None, until, events@)) by {
                                    reveal(ConcreteScheduler::gave_snapshot);
                                }
                                assert(self.gave_host_entry(asked, bytes, until, events@)) by {
                                    reveal(ConcreteScheduler::gave_host_entry);
                                }
                                self.gave_one_host_entry_more(
                                    asked,
                                    before,
                                    n,
                                    bytes,
                                    first_events,
                                    until,
                                    events@,
                                );
                                n = n + 1;
                                one_event_more(until, events@.last());
                                assert(spares(asked.requests@, events@.last())) by {
                                    reveal(spares);
                                    assert forall|j: int|
                                        0 <= j < asked.requests@.len() && (
                                        #[trigger] asked.requests@[j]).state
                                            == RequestState::Done implies !names(
                                        events@.last(),
                                        asked.requests@[j].id,
                                    ) by {
                                        assert(asked.requests@[j].id != discarded.request);
                                    }
                                }
                                spared_on(
                                    before.requests@,
                                    asked.requests@,
                                    first_events,
                                    until,
                                    events@,
                                );
                            }
                        },
                    }
                },
            }
        }
    }

    /// The device half of a request's leaving: its lane is free, its charge is
    /// gone, and the prefix it stood on is owed a release.
    proof fn left_the_device(self, before: Self, i: int, owed: Seq<PrefixId>)
        requires
            before.books(Seq::empty()),
            0 <= i < before.requests@.len(),
            self == (ConcreteScheduler {
                requests: self.requests,
                host: self.host,
                free_lanes: self.free_lanes,
                resident_slots_used: self.resident_slots_used,
                kv_used_pages: self.kv_used_pages,
                protection: self.protection,
                ..before
            }),
            self.protection is None || self.protection == before.protection,
            self.requests@ == before.requests@.update(i, self.requests@[i]),
            self.requests@[i].id == before.requests@[i].id,
            self.requests@[i].lane is None,
            self.requests@[i].prefix_entry is None,
            !self.requests@[i].resident,
            before.requests@[i].resident,
            request_ok(self.requests@[i], self.config, self.prefix.entries@),
            self.host.wf(),
            self.free_lanes@ == (match before.requests@[i].lane {
                Some(lane) => before.free_lanes@.push(lane),
                None => before.free_lanes@,
            }),
            self.resident_slots_used == before.resident_slots_used - 1,
            self.kv_used_pages == before.kv_used_pages - before.requests@[i].resources.kv_pages,
            owed == (match before.requests@[i].prefix_entry {
                Some(p) => Seq::<PrefixId>::empty().push(p),
                None => Seq::<PrefixId>::empty(),
            }),
        ensures
            self.books(owed),
    {
        let was = before.requests@[i];
        let with = self.requests@[i];
        if was.lane is Some {
            lane_returned(before.requests@, before.free_lanes@, i, with);
        } else {
            lanes_kept(before.requests@, before.free_lanes@, i, with);
        }
        assert forall|p: PrefixId| #[trigger]
            debt(owed, p) == debt(Seq::empty(), p) + stands_on(p)(was) - stands_on(p)(with) by {
            match was.prefix_entry {
                Some(q) => debt_grows(Seq::empty(), q, p),
                None => debt_grows(Seq::empty(), 0, p),
            }
        }
        self.one_request_moved(before, i, Seq::empty(), owed);
    }

    /// Everything an eviction may move: the victim, suspended requests that
    /// lost their snapshots, retained copies, and what the victim gave back.
    pub open spec fn evicted_only(self, before: Self, victim: int) -> bool {
        &&& self.same_run(before)
        &&& forall|i: int|
            0 <= i < before.requests@.len() && i != victim ==> (
            #[trigger] self.requests@[i] == before.requests@[i] || (before.requests@[i].state
                == RequestState::Evicted && is_requeued(
                before.requests@[i],
                self.requests@[i],
                before.config,
            )))
        &&& self.kv_used_pages <= before.kv_used_pages
    }

    /// Take the request at `v_idx` off its lane and off the device: suspended,
    /// where its snapshot was `kept`, or queued again.
    fn take_off_device(&mut self, v_idx: usize, kept: bool)
        requires
            old(self).books(Seq::empty()),
            v_idx < old(self).requests@.len(),
            suspendable(old(self).requests@[v_idx as int]),
            old(self).requests@[v_idx as int].kv_ram_claim is None,
            kept ==> hosted(
                old(self).requests@.update(
                    v_idx as int,
                    suspended_request(old(self).requests@[v_idx as int], old(self).config),
                ),
                old(self).host.live@,
            ),
            !kept ==> hosted(
                old(self).requests@.update(
                    v_idx as int,
                    old(self).requests@[v_idx as int].aborted(),
                ),
                old(self).host.live@,
            ),
        ensures
            final(self).owing(
                match old(self).requests@[v_idx as int].prefix_entry {
                    Some(p) => Seq::<PrefixId>::empty().push(p),
                    None => Seq::<PrefixId>::empty(),
                },
            ),
            *final(self) == (ConcreteScheduler {
                requests: final(self).requests,
                free_lanes: final(self).free_lanes,
                resident_slots_used: (old(self).resident_slots_used - 1) as u32,
                kv_used_pages: (old(self).kv_used_pages
                    - old(self).requests@[v_idx as int].resources.kv_pages) as u32,
                protection: final(self).protection,
                ..*old(self)
            }),
            old(self).resident_slots_used >= 1,
            old(self).kv_used_pages >= old(self).requests@[v_idx as int].resources.kv_pages,
            final(self).free_lanes@ == (match old(self).requests@[v_idx as int].lane {
                Some(lane) => old(self).free_lanes@.push(lane),
                None => old(self).free_lanes@,
            }),
            final(self).protection == (if old(self).protection matches Some(p) && p.head_request_id
                == old(self).requests@[v_idx as int].id {
                None
            } else {
                old(self).protection
            }),
            final(self).requests@ == old(self).requests@.update(
                v_idx as int,
                final(self).requests@[v_idx as int],
            ),
            kept ==> final(self).requests@[v_idx as int] == suspended_request(
                old(self).requests@[v_idx as int],
                old(self).config,
            ),
            !kept ==> is_requeued(
                old(self).requests@[v_idx as int],
                final(self).requests@[v_idx as int],
                old(self).config,
            ),
    {
        let ghost before = *self;
        let ghost i = v_idx as int;
        let ghost was = self.requests@[i];
        proof {
            assert(request_ok(was, self.config, self.prefix.entries@));
            self.charge_is_counted(i);
        }
        let v_id: RequestId = self.requests[v_idx].id;
        let tokens: u32 = sequence_tokens(&self.config, &self.requests[v_idx].input);
        let full: u32 = pages_to_hold(tokens, self.config.kv_page_tokens);
        let lane: Option<LaneId> = self.requests[v_idx].lane;
        if let Some(lane) = lane {
            self.free_lanes.push(lane);
        }
        self.resident_slots_used = self.resident_slots_used.saturating_sub(1);
        self.kv_used_pages = self.kv_used_pages.saturating_sub(
            self.requests[v_idx].resources.kv_pages,
        );
        if kept {
            suspend(&mut self.requests[v_idx], full, Ghost(self.config));
        } else {
            let budget: u32 = generation_budget(&self.config, &self.requests[v_idx].input);
            start_over(&mut self.requests[v_idx], budget, full, Ghost(self.config));
        }
        let is_head: bool = match &self.protection {
            Some(p) => p.head_request_id == v_id,
            None => false,
        };
        if is_head {
            self.protection = None;
        }
        proof {
            let with = self.requests@[i];
            assert(self.requests@ =~= before.requests@.update(i, with));
            if kept {
                assert(with == suspended_request(was, self.config));
            } else {
                assert(is_requeued(was, with, self.config));
                let ended = before.requests@.update(i, was.aborted());
                hosted_kept(ended, before.host.live@, i, with);
                assert(ended.update(i, with) =~= self.requests@);
            }
            assert(request_ok(with, self.config, self.prefix.entries@));
            self.left_the_device(
                before,
                i,
                match was.prefix_entry {
                    Some(p) => Seq::<PrefixId>::empty().push(p),
                    None => Seq::<PrefixId>::empty(),
                },
            );
        }
    }

    /// `tier` is the tier once the request at `v` let go of its claim on a copy.
    pub open spec fn claim_let_go(self, v: int, tier: HostTier) -> bool {
        &&& tier.wf()
        &&& tier.live == self.host.live
        &&& tier.proven == self.host.proven
        &&& tier.capacity_bytes == self.host.capacity_bytes
        &&& tier.ttl == self.host.ttl
        &&& match self.requests@[v].kv_ram_claim {
            None => tier == self.host,
            Some(id) => claim_was_released(self.host, RetainedBlob::Checkpoint(id), None, tier),
        }
    }

    /// The backend having snapshotted the request at `v` of `before` as
    /// `bytes`, it is off its lane and off the device: suspended, its snapshot
    /// the tier's newest, or, where the tier has no room for it, queued again.
    #[verifier::opaque]
    pub open spec fn eviction_recorded(
        self,
        before: Self,
        v: int,
        bytes: u64,
        snapshot_micros: u64,
        first: Seq<SchedEvent>,
        last: Seq<SchedEvent>,
    ) -> bool {
        let r = before.requests@[v];
        let was = Request { kv_ram_claim: None, ..r };
        let now = self.requests@[v];
        &&& self.requests@ == before.requests@.update(v, now)
        &&& exists|tier: HostTier| #[trigger]
            before.claim_let_go(v, tier) && if tier.used_bytes + bytes <= tier.capacity_bytes {
                &&& now == suspended_request(was, before.config)
                &&& self.host.live@.len() > 0
                &&& self.host.live@ == tier.live@.push(self.host.live@.last())
                &&& is_snapshot_of(self.host.live@.last(), before.config, r, bytes, before.tick)
                &&& self.host.live@.last().tier == (if tier.proven@.contains(r.id) {
                    Tier::Protected
                } else {
                    Tier::Probation
                })
                &&& self.host.retained == tier.retained
                &&& last == first.push(SchedEvent::Evicted { request: r.id, snapshot_micros })
            } else {
                &&& is_requeued(was, now, before.config)
                &&& self.host == tier
                &&& before.snapshot_freed(r.id)
                &&& last == first.push(SchedEvent::SnapshotDropped { request: r.id }).push(
                    SchedEvent::Requeued { request: r.id },
                )
            }
        &&& match r.prefix_entry {
            None => {
                &&& self.prefix == before.prefix
                &&& self.retained == before.retained
                &&& self.kv_used_pages == before.kv_used_pages - r.resources.kv_pages
            },
            Some(p) => {
                let dropped = dropped_by(before.prefix.entries@, Some(p));
                &&& self.prefix.same_but_entries(before.prefix)
                &&& self.prefix.entries@ == after_release(before.prefix.entries@, Some(p))
                &&& self.retained.slots@ == slots_after(before.retained.slots@, dropped)
                &&& self.kv_used_pages == before.kv_used_pages - r.resources.kv_pages
                    - pages_back(dropped)
                &&& before.heads_freed(dropped)
            },
        }
        &&& self.checkpoints == before.checkpoints
        &&& self.tail_pages == before.tail_pages
        &&& r.kv_ram_claim matches Some(id) ==> last_claim_frees(
            before,
            RetainedBlob::Checkpoint(id),
        )
    }

    /// The backend snapshotted the request at `v_idx` as `bytes` and released
    /// its sequence: record the snapshot and give back its lane, its charge and
    /// its hold on a shared prefix. A snapshot the tier will not take is
    /// dropped, and the request queued again.
    #[verifier::rlimit(30)]
    fn record_eviction(
        &mut self,
        v_idx: usize,
        resume_phase: ResumePhase,
        bytes: u64,
        snapshot_micros: u64,
        events: &mut Vec<SchedEvent>,
    )
        requires
            old(self).wf(),
            v_idx < old(self).requests@.len(),
            suspendable(old(self).requests@[v_idx as int]),
            resume_phase == ResumePhase::Running <==> old(self).requests@[v_idx as int].state
                == RequestState::Running,
            old(self).requests@[v_idx as int].gdn@.boundaries.contains(
                old(self).requests@[v_idx as int].gdn@.position,
            ),
        ensures
            final(self).wf(),
            final(self).evicted_only(*old(self), v_idx as int),
            final(self).resident_slots_used == old(self).resident_slots_used - 1,
            final(self).free_lanes@ == (match old(self).requests@[v_idx as int].lane {
                Some(lane) => old(self).free_lanes@.push(lane),
                None => old(self).free_lanes@,
            }),
            final(self).protection == (if old(self).protection matches Some(p) && p.head_request_id
                == old(self).requests@[v_idx as int].id {
                None
            } else {
                old(self).protection
            }),
            forall|i: int|
                0 <= i < old(self).requests@.len() && i != v_idx ==> (
                #[trigger] final(self).requests@[i]) == old(self).requests@[i],
            final(self).eviction_recorded(
                *old(self),
                v_idx as int,
                bytes,
                snapshot_micros,
                old(events)@,
                final(events)@,
            ),
            grew(old(events)@, final(events)@),
            spared(old(self).requests@, old(events)@, final(events)@),
    {
        let ghost before = *self;
        self.release_kv_ram_claim(v_idx, false);
        let ghost claimless = *self;
        let ghost i = v_idx as int;
        let ghost was = self.requests@[i];
        proof {
            assert(request_ok(was, self.config, self.prefix.entries@));
            self.not_snapshotted(i);
        }
        let v_id: RequestId = self.requests[v_idx].id;
        let v_prefix: Option<PrefixId> = self.requests[v_idx].prefix_entry;
        let v_pages: u32 = self.requests[v_idx].resources.kv_pages;
        let tokens: u32 = sequence_tokens(&self.config, &self.requests[v_idx].input);
        let restore_pages: u32 = if v_prefix.is_some() {
            pages_to_hold(tokens, self.config.kv_page_tokens)
        } else {
            v_pages
        };
        let entry = HostEntry {
            request: v_id,
            resume_phase,
            lane: self.requests[v_idx].lane,
            owner: self.requests[v_idx].class,
            pages: restore_pages,
            bytes,
            tokens: self.requests[v_idx].tokens,
            prefill_progress: self.requests[v_idx].prefill_progress,
            remaining_work: self.requests[v_idx].remaining_work,
            gdn: self.requests[v_idx].gdn.clone(),
            tier: Tier::Probation,
            use_tick: self.tick,
        };
        let kept: bool = self.host.capture(entry).is_ok();
        let ghost captured = *self;
        proof {
            captured.books_after_capture(claimless);
        }
        proof {
            if kept {
                assert(captured.host.live@ == claimless.host.live@.push(captured.host.live@.last()));
                let with = suspended_request(was, self.config);
                hosted_join(
                    claimless.requests@,
                    claimless.host.live@,
                    i,
                    with,
                    captured.host.live@.last(),
                );
            } else {
                hosted_kept(claimless.requests@, claimless.host.live@, i, was.aborted());
            }
        }
        self.take_off_device(v_idx, kept);
        if !kept {
            self.compute.discard_snapshot(v_id);
        }
        if let Some(p) = v_prefix {
            self.release_prefix_claim(p, Ghost(Seq::empty()));
        }
        if kept {
            events.push(SchedEvent::Evicted { request: v_id, snapshot_micros });
        } else {
            events.push(SchedEvent::SnapshotDropped { request: v_id });
            events.push(SchedEvent::Requeued { request: v_id });
        }
        proof {
            leaving_spares(
                before.requests@,
                before.next_id,
                i,
                snapshot_micros,
                old(events)@,
                events@,
            );
            reveal(ConcreteScheduler::eviction_recorded);
            assert(before.claim_let_go(i, claimless.host));
            assert(self.requests@ =~= before.requests@.update(i, self.requests@[i]));
            if kept {
                assert(captured.host.live@.drop_last() =~= claimless.host.live@);
                assert(is_snapshot_of(
                    self.host.live@.last(),
                    before.config,
                    before.requests@[i],
                    bytes,
                    before.tick,
                ));
            }
        }
    }

    /// A request that is not suspended has no snapshot in the tier.
    proof fn not_snapshotted(self, i: int)
        requires
            self.wf(),
            0 <= i < self.requests@.len(),
            self.requests@[i].state != RequestState::Evicted,
        ensures
            snapshot_of(self.host.live@, self.requests@[i].id, 0) is None,
    {
        let id = self.requests@[i].id;
        snapshot_is_first(self.host.live@, id, 0);
        if let Some(at) = snapshot_of(self.host.live@, id, 0) {
            assert(resumes(self.requests@, self.host.live@[at]));
            let j = choose|j: int| #[trigger] resumes_at(self.requests@, self.host.live@[at], j);
            if j < i {
                assert(self.requests@[j].id < self.requests@[i].id);
            } else if i < j {
                assert(self.requests@[i].id < self.requests@[j].id);
            }
        }
    }

    /// A snapshot captured ahead of its request's suspension leaves the books
    /// as they were.
    proof fn books_after_capture(self, before: Self)
        requires
            before.wf(),
            self == (ConcreteScheduler { host: self.host, ..before }),
            self.host.wf(),
        ensures
            self.books(Seq::empty()),
    {
        assert forall|p: PrefixId| #[trigger]
            self.prefix.refs(p) == standing(self.requests@, p) + holding(
                self.checkpoints.entries@,
                p,
            ) + debt(Seq::empty(), p) by {
            assert(before.prefix.refs(p) == self.prefix.refs(p));
        }
        assert forall|k: int| 0 <= k < self.requests@.len() implies request_ok(
            #[trigger] self.requests@[k],
            self.config,
            self.prefix.entries@,
        ) by {
            assert(request_ok(before.requests@[k], before.config, before.prefix.entries@));
        }
    }
}

/// `e` is the snapshot `r` leaves when it is suspended at `tick`: where it
/// stands, what it has drawn and is still owed, and the pages it needs back.
pub open spec fn is_snapshot_of(
    e: HostEntry,
    config: crate::plan::SchedulerConfig,
    r: Request,
    bytes: u64,
    tick: u64,
) -> bool {
    &&& e.gdn@ == r.gdn@
    &&& e == (HostEntry {
        request: r.id,
        resume_phase: if r.state == RequestState::Running {
            ResumePhase::Running
        } else {
            ResumePhase::Prefilling
        },
        lane: r.lane,
        owner: r.class,
        pages: if r.prefix_entry is Some {
            full_pages(config, r.input) as u32
        } else {
            r.resources.kv_pages
        },
        bytes,
        tokens: r.tokens,
        prefill_progress: r.prefill_progress,
        remaining_work: r.remaining_work,
        gdn: e.gdn,
        tier: e.tier,
        use_tick: tick,
    })
}

/// What suspending a request went through: the size the backend gave, if it
/// was asked; the state and the reports once room was made for it, and whether
/// there is room; what the backend answered the suspension with, if it was
/// asked; and how long that took.
pub struct EvictionTrace<C: Compute, K: Clock> {
    pub size: Option<Result<u64, ComputeError>>,
    pub room: bool,
    pub roomy: ConcreteScheduler<C, K>,
    pub told: Seq<SchedEvent>,
    pub answer: Option<Result<u64, ComputeError>>,
    pub snapshot_micros: u64,
}

impl<C: Compute, K: Clock> EvictionTrace<C, K> {
    /// The suspension of the request at `v` that led from `before` to `after`.
    /// The backend is asked for its size only at a resumable position, room is
    /// made for exactly that size, and only then is it asked to suspend it.
    #[verifier::opaque]
    pub open spec fn explains(
        self,
        before: ConcreteScheduler<C, K>,
        after: ConcreteScheduler<C, K>,
        v: int,
        evicted: bool,
        first: Seq<SchedEvent>,
        last: Seq<SchedEvent>,
    ) -> bool {
        let r = before.requests@[v];
        &&& 0 <= v < before.requests@.len()
        &&& self.size is Some <==> r.gdn@.boundaries.contains(r.gdn@.position)
        &&& self.size matches Some(size) ==> call_ensures(
            C::snapshot_size,
            (&*before.compute, r.id),
            size,
        )
        &&& match self.size {
            Some(Ok(bytes)) => self.roomy.made_host_room(
                before,
                bytes,
                self.room,
                first,
                self.told,
            ),
            _ => !self.room && self.roomy == before && self.told == first,
        }
        &&& self.answer is Some <==> self.room
        &&& self.answer matches Some(answer) ==> call_ensures(
            C::evict,
            (&*before.compute, r.id),
            answer,
        )
        &&& match self.answer {
            Some(Ok(bytes)) => evicted && after.eviction_recorded(
                self.roomy,
                v,
                bytes,
                self.snapshot_micros,
                self.told,
                last,
            ),
            _ => !evicted && after == self.roomy && last == self.told,
        }
    }
}

impl<C: Compute, K: Clock> ConcreteScheduler<C, K> {
    /// The request at `i`, whose protection stood, gave way itself.
    pub open spec fn lost_protected(self, before: Self, i: int) -> bool {
        &&& 0 <= i < before.requests@.len()
        &&& before.protection matches Some(p) && p.head_request_id == before.requests@[i].id
        &&& gave_way(before.requests@[i], self.requests@[i], before.config)
    }

    /// What evictions may do: suspend requests on the device, and queue
    /// suspended ones that lost their snapshots again. `exclude` is never
    /// touched, nothing fresh or ended is, and neither is a running donor of a
    /// protection that still stands.
    pub open spec fn only_evictions(self, before: Self, exclude: int) -> bool {
        &&& self.same_run(before)
        &&& self.kv_used_pages <= before.kv_used_pages
        &&& self.protection == before.protection || (self.protection is None && exists|i: int|
            #[trigger] self.lost_protected(before, i))
        &&& forall|i: int|
            0 <= i < before.requests@.len() ==> (#[trigger] self.requests@[i]
                == before.requests@[i] || (i != exclude && (suspendable(before.requests@[i])
                || before.requests@[i].state == RequestState::Evicted) && gave_way(
                before.requests@[i],
                self.requests@[i],
                before.config,
            )))
        &&& self.protection matches Some(p) ==> forall|i: int|
            0 <= i < before.requests@.len() && (#[trigger] before.requests@[i]).state
                == RequestState::Running && p.donor(before.requests@[i].id) ==> self.requests@[i]
                == before.requests@[i]
    }

    proof fn evictions_twice(self, middle: Self, before: Self, exclude: int)
        requires
            self.only_evictions(middle, exclude),
            middle.only_evictions(before, exclude),
        ensures
            self.only_evictions(before, exclude),
    {
        assert forall|i: int| 0 <= i < before.requests@.len() implies (#[trigger] self.requests@[i]
            == before.requests@[i] || (i != exclude && (suspendable(before.requests@[i])
            || before.requests@[i].state == RequestState::Evicted) && gave_way(
            before.requests@[i],
            self.requests@[i],
            before.config,
        ))) by {
            gives_way_once(
                before.requests@[i],
                middle.requests@[i],
                self.requests@[i],
                before.config,
            );
        }
        if self.protection != before.protection {
            if middle.protection != before.protection {
                let i = choose|i: int| #[trigger] middle.lost_protected(before, i);
                gives_way_once(
                    before.requests@[i],
                    middle.requests@[i],
                    self.requests@[i],
                    before.config,
                );
                assert(self.lost_protected(before, i));
            } else {
                let i = choose|i: int| #[trigger] self.lost_protected(middle, i);
                gives_way_once(
                    before.requests@[i],
                    middle.requests@[i],
                    self.requests@[i],
                    before.config,
                );
                assert(self.lost_protected(before, i));
            }
        }
        if let Some(p) = self.protection {
            assert forall|i: int|
                0 <= i < before.requests@.len() && (#[trigger] before.requests@[i]).state
                    == RequestState::Running && p.donor(
                    before.requests@[i].id,
                ) implies self.requests@[i] == before.requests@[i] by {
                assert(middle.requests@[i] == before.requests@[i]);
            }
        }
    }

    proof fn evictions_told(
        self,
        middle: Self,
        before: Self,
        exclude: int,
        first: Seq<SchedEvent>,
        until: Seq<SchedEvent>,
        last: Seq<SchedEvent>,
    )
        requires
            self.only_evictions(middle, exclude),
            middle.only_evictions(before, exclude),
            moves_told(before.requests@, middle.requests@, first, until),
            moves_told(middle.requests@, self.requests@, until, last),
            grew(first, until),
            grew(until, last),
        ensures
            moves_told(before.requests@, self.requests@, first, last),
    {
        assert forall|i: int| 0 <= i < before.requests@.len() implies (
        #[trigger] middle.requests@[i]).id == before.requests@[i].id by {
            assert(middle.requests@[i] == before.requests@[i] || gave_way(
                before.requests@[i],
                middle.requests@[i],
                before.config,
            ));
        }
        moves_told_on(before.requests@, middle.requests@, self.requests@, first, until, last);
    }

    proof fn suspended_moves_are_evictions(self, before: Self, exclude: int)
        requires
            self.only_suspended_moved(before),
            self.kv_used_pages == before.kv_used_pages,
            exclude < 0 || exclude >= before.requests@.len() || before.requests@[exclude].state
                != RequestState::Evicted,
        ensures
            self.only_evictions(before, exclude),
    {
        assert forall|i: int| 0 <= i < before.requests@.len() implies (#[trigger] self.requests@[i]
            == before.requests@[i] || (i != exclude && (suspendable(before.requests@[i])
            || before.requests@[i].state == RequestState::Evicted) && gave_way(
            before.requests@[i],
            self.requests@[i],
            before.config,
        ))) by {}
    }

    proof fn recorded_gives_way(
        self,
        before: Self,
        v: int,
        bytes: u64,
        snapshot_micros: u64,
        first: Seq<SchedEvent>,
        last: Seq<SchedEvent>,
    )
        requires
            self.eviction_recorded(before, v, bytes, snapshot_micros, first, last),
            0 <= v < before.requests@.len(),
        ensures
            gave_way(before.requests@[v], self.requests@[v], before.config),
            self.requests@ == before.requests@.update(v, self.requests@[v]),
            first.len() < last.len(),
            tells(last.last(), before.requests@[v].id, self.requests@[v].state),
    {
        reveal(ConcreteScheduler::eviction_recorded);
    }

    /// Snapshot the request at `v_idx` to host memory and release its lane and
    /// its device state. `false` on any refusal: the request is left as it was.
    pub(crate) fn snapshot_and_evict(
        &mut self,
        v_idx: usize,
        resume_phase: ResumePhase,
        events: &mut Vec<SchedEvent>,
    ) -> (evicted: bool)
        requires
            old(self).wf(),
            v_idx < old(self).requests@.len(),
            suspendable(old(self).requests@[v_idx as int]),
            resume_phase == ResumePhase::Running <==> old(self).requests@[v_idx as int].state
                == RequestState::Running,
            old(self).protection matches Some(p) ==> !(p.donor(
                old(self).requests@[v_idx as int].id,
            ) && old(self).requests@[v_idx as int].state == RequestState::Running),
        ensures
            final(self).wf(),
            forall|exclude: int|
                exclude != v_idx && (exclude < 0 || exclude >= old(self).requests@.len()
                    || old(self).requests@[exclude].state != RequestState::Evicted)
                    ==> #[trigger] final(self).only_evictions(*old(self), exclude),
            grew(old(events)@, final(events)@),
            moves_told(old(self).requests@, final(self).requests@, old(events)@, final(events)@),
            spared(old(self).requests@, old(events)@, final(events)@),
            evicted ==> gave_way(
                old(self).requests@[v_idx as int],
                final(self).requests@[v_idx as int],
                old(self).config,
            ) && final(self).resident_slots_used == old(self).resident_slots_used - 1
                && final(self).free_lanes@ == (match old(self).requests@[v_idx as int].lane {
                Some(lane) => old(self).free_lanes@.push(lane),
                None => old(self).free_lanes@,
            }),
            !evicted ==> final(self).requests@[v_idx as int] == old(self).requests@[v_idx as int]
                && final(self).resident_slots_used == old(self).resident_slots_used
                && final(self).free_lanes == old(self).free_lanes,
            // Only a resumable position is ever snapshotted.
            evicted ==> old(self).requests@[v_idx as int].gdn@.boundaries.contains(
                old(self).requests@[v_idx as int].gdn@.position,
            ),
            !evicted ==> none_suspended(old(events)@, final(events)@),
            // What was asked of the backend, and what came of its answers.
            exists|trace: EvictionTrace<C, K>| #[trigger]
                trace.explains(
                    *old(self),
                    *final(self),
                    v_idx as int,
                    evicted,
                    old(events)@,
                    final(events)@,
                ),
    {
        let ghost before = *self;
        let ghost first_events = events@;
        let ghost v = v_idx as int;
        let v_id: RequestId = self.requests[v_idx].id;
        let ghost mut trace = EvictionTrace {
            size: None,
            room: false,
            roomy: before,
            told: first_events,
            answer: None,
            snapshot_micros: 0,
        };
        if !self.requests[v_idx].gdn.is_valid_snapshot_point(self.requests[v_idx].gdn.position()) {
            proof {
                reveal(EvictionTrace::explains);
                assert(trace.explains(before, *self, v, false, first_events, events@));
            }
            return false;
        }
        let size = self.compute.snapshot_size(v_id);
        proof {
            trace = EvictionTrace { size: Some(size), ..trace };
        }
        let bytes: u64 = match size {
            Ok(bytes) => bytes,
            Err(_) => {
                proof {
                    reveal(EvictionTrace::explains);
                    assert(trace.explains(before, *self, v, false, first_events, events@));
                }
                return false;
            },
        };
        let room: bool = self.make_host_room_for_bytes(bytes, events);
        let ghost roomy = *self;
        proof {
            trace = EvictionTrace { room, roomy, told: events@, ..trace };
        }
        proof {
            assert forall|exclude: int|
                exclude != v_idx && (exclude < 0 || exclude >= before.requests@.len()
                    || before.requests@[exclude].state
                    != RequestState::Evicted) implies #[trigger] self.only_evictions(
                before,
                exclude,
            ) by {
                self.suspended_moves_are_evictions(before, exclude);
            }
            assert(self.requests@[v_idx as int] == before.requests@[v_idx as int]);
        }
        if !room {
            proof {
                reveal(EvictionTrace::explains);
                assert(trace.explains(before, *self, v, false, first_events, events@));
            }
            return false;
        }
        let started = instant_now();
        let answer = self.compute.evict(v_id);
        proof {
            trace = EvictionTrace { answer: Some(answer), ..trace };
        }
        let bytes: u64 = match answer {
            Ok(bytes) => bytes,
            Err(_) => {
                proof {
                    reveal(EvictionTrace::explains);
                    assert(trace.explains(before, *self, v, false, first_events, events@));
                }
                return false;
            },
        };
        let snapshot_micros: u64 = micros_since(&started);
        let ghost until = events@;
        self.record_eviction(v_idx, resume_phase, bytes, snapshot_micros, events);
        proof {
            trace = EvictionTrace { snapshot_micros, ..trace };
            assert(trace.explains(before, *self, v, true, first_events, events@)) by {
                reveal(EvictionTrace::explains);
            }
            self.recorded_gives_way(roomy, v, bytes, snapshot_micros, until, events@);
            roomy.ids_stand(before);
            spared_on(before.requests@, roomy.requests@, first_events, until, events@);
            one_move_told(roomy.requests@, self.requests@, v, until, events@);
            moves_told_on(
                before.requests@,
                roomy.requests@,
                self.requests@,
                first_events,
                until,
                events@,
            );
            assert(gave_way(roomy.requests@[v], self.requests@[v], roomy.config));
            assert forall|exclude: int|
                exclude != v_idx && (exclude < 0 || exclude >= before.requests@.len()
                    || before.requests@[exclude].state
                    != RequestState::Evicted) implies #[trigger] self.only_evictions(
                before,
                exclude,
            ) by {
                roomy.suspended_moves_are_evictions(before, exclude);
                assert forall|i: int| 0 <= i < roomy.requests@.len() implies (
                #[trigger] self.requests@[i] == roomy.requests@[i] || (i != exclude && (suspendable(
                    roomy.requests@[i],
                ) || roomy.requests@[i].state == RequestState::Evicted) && gave_way(
                    roomy.requests@[i],
                    self.requests@[i],
                    roomy.config,
                ))) by {
                    if i != v {
                        assert(self.requests@[i] == roomy.requests@[i]);
                    }
                }
                if self.protection != roomy.protection {
                    assert(self.lost_protected(roomy, v));
                }
                assert(self.only_evictions(roomy, exclude));
                self.evictions_twice(roomy, before, exclude);
            }
        }
        true
    }

    /// Whether the request's lane is reserved: an earlier Interactive request
    /// still waits on the shared prefix it stands on.
    pub open spec fn is_reserved(self, r: Request) -> bool {
        r.prefix_entry is Some && exists|i: int| #[trigger]
            self.waits_earlier(i, r.prefix_entry->Some_0, r.id)
    }

    pub open spec fn waits_earlier(self, i: int, prefix: PrefixId, id: RequestId) -> bool {
        &&& 0 <= i < self.requests@.len()
        &&& self.requests@[i].prefix_entry == Some(prefix)
        &&& self.requests@[i].class == RequestClass::Interactive
        &&& self.requests@[i].id < id
        &&& self.requests@[i].state == RequestState::Admitted || self.requests@[i].state
            == RequestState::Prefilling
    }

    pub(crate) fn reserved_for_earlier_interactive(&self, r: &Request) -> (reserved: bool)
        ensures
            reserved == self.is_reserved(*r),
    {
        let entry: PrefixId = match r.prefix_entry {
            Some(entry) => entry,
            None => {
                return false;
            },
        };
        let mut i: usize = 0;
        while i < self.requests.len()
            invariant
                i <= self.requests@.len(),
                r.prefix_entry == Some(entry),
                forall|j: int| 0 <= j < i ==> !#[trigger] self.waits_earlier(j, entry, r.id),
            decreases self.requests@.len() - i,
        {
            let c = &self.requests[i];
            let same: bool = match c.prefix_entry {
                Some(p) => p == entry,
                None => false,
            };
            if same && c.class == RequestClass::Interactive && c.id < r.id && (c.state
                == RequestState::Admitted || c.state == RequestState::Prefilling) {
                assert(self.waits_earlier(i as int, entry, r.id));
                return true;
            }
            i = i + 1;
        }
        false
    }

    /// The candidate the request's lane makes.
    pub open spec fn candidate(self, r: Request) -> RetainedLaneCandidate {
        RetainedLaneCandidate {
            lane: r.lane->Some_0,
            owner: r.class,
            use_tick: self.tick,
            reserved_for_earlier_interactive: self.is_reserved(r),
        }
    }

    /// Whether the request's lane may be a victim's: it runs, and donates to no
    /// protection.
    pub open spec fn evictable_lane(self, r: Request) -> bool {
        r.state == RequestState::Running && (self.protection matches Some(p) ==> !p.donor(r.id))
    }

    /// The candidates among the first `n` requests.
    pub open spec fn lane_candidates(self, n: int) -> Seq<RetainedLaneCandidate>
        decreases n,
    {
        if n <= 0 {
            Seq::empty()
        } else if self.evictable_lane(self.requests@[n - 1]) {
            self.lane_candidates(n - 1).push(self.candidate(self.requests@[n - 1]))
        } else {
            self.lane_candidates(n - 1)
        }
    }

    /// The retained-lane candidates: every running request's lane but the
    /// donors'.
    pub(crate) fn retained_lane_candidates(&self) -> (out: Vec<RetainedLaneCandidate>)
        requires
            self.wf(),
        ensures
            out@ == self.lane_candidates(self.requests@.len() as int),
    {
        let mut out: Vec<RetainedLaneCandidate> = Vec::new();
        let mut i: usize = 0;
        while i < self.requests.len()
            invariant
                self.wf(),
                i <= self.requests@.len(),
                out@ == self.lane_candidates(i as int),
            decreases self.requests@.len() - i,
        {
            let r = &self.requests[i];
            assert(request_ok(self.requests@[i as int], self.config, self.prefix.entries@));
            let donor: bool = match &self.protection {
                Some(p) => p.is_donor(r.id),
                None => false,
            };
            if r.state == RequestState::Running && !donor {
                if let Some(lane) = r.lane {
                    out.push(
                        RetainedLaneCandidate {
                            lane,
                            owner: r.class,
                            use_tick: self.tick,
                            reserved_for_earlier_interactive: self.reserved_for_earlier_interactive(
                                r,
                            ),
                        },
                    );
                }
            }
            i = i + 1;
        }
        out
    }

    /// Which request a candidate is of.
    proof fn candidate_source(self, n: int, k: int) -> (i: int)
        requires
            0 <= n <= self.requests@.len(),
            0 <= k < self.lane_candidates(n).len(),
        ensures
            0 <= i < n,
            self.evictable_lane(self.requests@[i]),
            self.lane_candidates(n)[k] == self.candidate(self.requests@[i]),
        decreases n,
    {
        if self.evictable_lane(self.requests@[n - 1]) && k == self.lane_candidates(n).len() - 1 {
            n - 1
        } else {
            self.candidate_source(n - 1, k)
        }
    }

    /// Whether the request at `i` may be suspended off no lane: resident,
    /// prefilling, and not the one excluded.
    pub open spec fn evictable_prefill(self, i: int, exclude: Option<usize>) -> bool {
        &&& 0 <= i < self.requests@.len()
        &&& self.requests@[i].state == RequestState::Prefilling
        &&& self.requests@[i].resident
        &&& exclude != Some(i as usize)
    }

    /// The lowest-value resident request without a lane: Agent before
    /// Interactive, the oldest submitted.
    pub(crate) fn prefilling_eviction_candidate(&self, exclude: Option<usize>) -> (victim: Option<
        usize,
    >)
        requires
            self.wf(),
        ensures
            victim is None ==> forall|i: int| !#[trigger] self.evictable_prefill(i, exclude),
            victim matches Some(v) ==> self.evictable_prefill(v as int, exclude) && forall|i: int|
                #[trigger]
                self.evictable_prefill(i, exclude) ==> !(ResidentCandidate {
                    request_id: self.requests@[i].id,
                    owner: self.requests@[i].class,
                }).worth_less_than(
                    ResidentCandidate {
                        request_id: self.requests@[v as int].id,
                        owner: self.requests@[v as int].class,
                    },
                ),
    {
        let mut candidates: Vec<ResidentCandidate> = Vec::new();
        let ghost mut sources: Seq<int> = Seq::empty();
        let mut i: usize = 0;
        while i < self.requests.len()
            invariant
                i <= self.requests@.len(),
                candidates@.len() == sources.len(),
                forall|k: int|
                    0 <= k < sources.len() ==> self.evictable_prefill(#[trigger] sources[k], exclude)
                        && candidates@[k].request_id == self.requests@[sources[k]].id
                        && candidates@[k].owner == self.requests@[sources[k]].class,
                forall|j: int|
                    0 <= j < i && #[trigger] self.evictable_prefill(j, exclude) ==> sources.contains(
                        j,
                    ),
            decreases self.requests@.len() - i,
        {
            let r = &self.requests[i];
            let excluded: bool = match exclude {
                Some(x) => x == i,
                None => false,
            };
            if !excluded && r.state == RequestState::Prefilling && r.resident {
                candidates.push(ResidentCandidate { request_id: r.id, owner: r.class });
                proof {
                    let was = sources;
                    sources = sources.push(i as int);
                    assert(sources[was.len() as int] == i);
                    assert forall|j: int|
                        0 <= j < i + 1 && #[trigger] self.evictable_prefill(
                            j,
                            exclude,
                        ) implies sources.contains(j) by {
                        if j < i {
                            let k = choose|k: int| 0 <= k < was.len() && was[k] == j;
                            assert(sources[k] == j);
                        }
                    }
                }
            }
            i = i + 1;
        }
        match choose_resident_candidate_victim(candidates.as_slice()) {
            None => None,
            Some(victim_id) => {
                let found = self.find(victim_id);
                proof {
                    let at = choose|at: int|
                        0 <= at < candidates@.len() && (#[trigger] candidates@[at]).request_id
                            == victim_id && forall|j: int|
                            0 <= j < candidates@.len() ==> !(
                            #[trigger] candidates@[j]).worth_less_than(candidates@[at]);
                    let s = sources[at];
                    assert(self.evictable_prefill(s, exclude));
                    assert(self.requests@[s].id == victim_id);
                    let v = found->Some_0 as int;
                    if v < s {
                        assert(self.requests@[v].id < self.requests@[s].id);
                    } else if s < v {
                        assert(self.requests@[s].id < self.requests@[v].id);
                    }
                    assert forall|i: int| #[trigger] self.evictable_prefill(i, exclude) implies !(
                    ResidentCandidate {
                        request_id: self.requests@[i].id,
                        owner: self.requests@[i].class,
                    }).worth_less_than(
                        ResidentCandidate {
                            request_id: self.requests@[v].id,
                            owner: self.requests@[v].class,
                        },
                    ) by {
                        let k = choose|k: int| 0 <= k < sources.len() && sources[k] == i;
                        assert(self.evictable_prefill(sources[k], exclude));
                        assert(!candidates@[k].worth_less_than(candidates@[at]));
                    }
                }
                found
            },
        }
    }

    /// Whether the request at `v` runs on the lane worth least.
    pub open spec fn is_lane_victim_at(self, v: int) -> bool {
        let candidates = self.lane_candidates(self.requests@.len() as int);
        &&& 0 <= v < self.requests@.len()
        &&& self.evictable_lane(self.requests@[v])
        &&& exists|at: int| #[trigger]
            is_lane_victim(candidates, at) && candidates[at] == self.candidate(self.requests@[v])
    }

    /// Whether the request at `v` is the next to be suspended: the lane worth
    /// least, or, where no lane may go, the resident request worth least.
    pub open spec fn is_next_victim(self, v: int, exclude: Option<usize>) -> bool {
        ||| self.is_lane_victim_at(v)
        ||| (forall|w: int| !#[trigger] self.is_lane_victim_at(w)) && self.evictable_prefill(
            v,
            exclude,
        ) && forall|i: int| #[trigger]
            self.evictable_prefill(i, exclude) ==> !(ResidentCandidate {
                request_id: self.requests@[i].id,
                owner: self.requests@[i].class,
            }).worth_less_than(
                ResidentCandidate {
                    request_id: self.requests@[v].id,
                    owner: self.requests@[v].class,
                },
            )
    }

    /// The next victim was sought and tried: `evicted` says whether it was
    /// suspended. Without one nothing was done.
    pub open spec fn tried_victim(
        self,
        before: Self,
        exclude: Option<usize>,
        evicted: bool,
        first: Seq<SchedEvent>,
        last: Seq<SchedEvent>,
    ) -> bool {
        ||| (forall|v: int| !#[trigger] before.is_next_victim(v, exclude)) && !evicted && self
            == before && last == first
        ||| exists|v: int, trace: EvictionTrace<C, K>|
            before.is_next_victim(v, exclude) && #[trigger] trace.explains(
                before,
                self,
                v,
                evicted,
                first,
                last,
            )
    }

    /// Whether what victims are sought for is still not to be had: `pages`
    /// pages and a sequence more, or, without a number, a free lane.
    pub open spec fn is_short(self, pages: Option<u32>) -> bool {
        match pages {
            Some(pages) => !self.has_room_for(pages, 1),
            None => self.free_lanes@.len() == 0,
        }
    }

    /// `n` victims were suspended, one after the other, each while there was
    /// need of one.
    pub open spec fn victims_went(
        self,
        before: Self,
        pages: Option<u32>,
        exclude: Option<usize>,
        n: int,
        first: Seq<SchedEvent>,
        last: Seq<SchedEvent>,
    ) -> bool
        decreases n,
    {
        if n <= 0 {
            self == before && last == first
        } else {
            exists|middle: Self, until: Seq<SchedEvent>|
                middle.victims_went(before, pages, exclude, n - 1, first, until)
                    && middle.is_short(pages) && #[trigger] self.tried_victim(
                    middle,
                    exclude,
                    true,
                    until,
                    last,
                )
        }
    }

    /// `n` victims went, and then either there was no more need of one, or the
    /// next could not be suspended.
    pub open spec fn made_way_by(
        self,
        before: Self,
        pages: Option<u32>,
        exclude: Option<usize>,
        n: int,
        first: Seq<SchedEvent>,
        last: Seq<SchedEvent>,
    ) -> bool {
        ||| self.victims_went(before, pages, exclude, n, first, last) && !self.is_short(pages)
        ||| exists|middle: Self, until: Seq<SchedEvent>|
            middle.victims_went(before, pages, exclude, n, first, until) && middle.is_short(pages)
                && #[trigger] self.tried_victim(middle, exclude, false, until, last)
    }

    /// Victims went, as many as there was need of or could be suspended.
    #[verifier::opaque]
    pub open spec fn made_way(
        self,
        before: Self,
        pages: Option<u32>,
        exclude: Option<usize>,
        first: Seq<SchedEvent>,
        last: Seq<SchedEvent>,
    ) -> bool {
        exists|n: int| 0 <= n && #[trigger]
            self.made_way_by(before, pages, exclude, n, first, last)
    }

    /// Suspend the lowest-value eligible victim: a lane first, a resident
    /// request without one otherwise. `exclude` is never picked. Whether one
    /// was suspended.
    pub(crate) fn evict_one_victim(
        &mut self,
        exclude: Option<usize>,
        events: &mut Vec<SchedEvent>,
    ) -> (evicted: bool)
        requires
            old(self).wf(),
            exclude matches Some(x) ==> x < old(self).requests@.len()
                && old(self).requests@[x as int].state == RequestState::Prefilling,
        ensures
            final(self).wf(),
            final(self).only_evictions(
                *old(self),
                match exclude {
                    Some(x) => x as int,
                    None => -1,
                },
            ),
            grew(old(events)@, final(events)@),
            moves_told(old(self).requests@, final(self).requests@, old(events)@, final(events)@),
            spared(old(self).requests@, old(events)@, final(events)@),
            evicted ==> final(self).resident_slots_used == old(self).resident_slots_used - 1,
            !evicted ==> final(self).resident_slots_used == old(self).resident_slots_used
                && final(self).free_lanes == old(self).free_lanes,
            // The one suspended is the next victim, and without one no one is.
            evicted ==> exists|v: int| #[trigger]
                old(self).is_next_victim(v, exclude) && gave_way(
                    old(self).requests@[v],
                    final(self).requests@[v],
                    old(self).config,
                ),
            (forall|v: int| !#[trigger] old(self).is_next_victim(v, exclude)) ==> !evicted
                && *final(self) == *old(self) && final(events)@ == old(events)@,
            final(self).tried_victim(
                *old(self),
                exclude,
                evicted,
                old(events)@,
                final(events)@,
            ),
    {
        let ghost before = *self;
        let ghost out = match exclude {
            Some(x) => x as int,
            None => -1,
        };
        let candidates = self.retained_lane_candidates();
        if let Some(victim_lane) = choose_retained_lane_victim(candidates.as_slice()) {
            let ghost source = 0int;
            proof {
                let at = choose|at: int| #[trigger]
                    is_lane_victim(candidates@, at) && candidates@[at].lane
                        == victim_lane;
                source = self.candidate_source(self.requests@.len() as int, at);
                assert(request_ok(
                    self.requests@[source],
                    self.config,
                    self.prefix.entries@,
                ));
            }
            let found = self.find_lane(victim_lane);
            match found {
                None => {
                    assert(self.requests@[source].lane == Some(victim_lane));
                    return false;
                },
                Some(v_idx) => {
                    proof {
                        let v = v_idx as int;
                        if v < source {
                            assert(self.requests@[v].lane != self.requests@[source].lane);
                        } else if source < v {
                            assert(self.requests@[source].lane != self.requests@[v].lane);
                        }
                        assert(self.is_lane_victim_at(v));
                        assert(self.is_next_victim(v, exclude));
                    }
                    let evicted: bool = self.snapshot_and_evict(
                        v_idx,
                        ResumePhase::Running,
                        events,
                    );
                    assert(self.only_evictions(before, out));
                    return evicted;
                },
            }
        }
        assert forall|w: int| !#[trigger] self.is_lane_victim_at(w) by {}
        if let Some(v_idx) = self.prefilling_eviction_candidate(exclude) {
            assert(self.is_next_victim(v_idx as int, exclude));
            let evicted: bool = self.snapshot_and_evict(v_idx, ResumePhase::Prefilling, events);
            assert(self.only_evictions(before, out));
            return evicted;
        }
        false
    }

    /// The request on `lane`.
    fn find_lane(&self, lane: LaneId) -> (at: Option<usize>)
        ensures
            at is None ==> forall|j: int|
                0 <= j < self.requests@.len() ==> (#[trigger] self.requests@[j]).lane != Some(lane),
            at matches Some(i) ==> i < self.requests@.len() && self.requests@[i as int].lane == Some(
                lane,
            ),
    {
        let mut i: usize = 0;
        while i < self.requests.len()
            invariant
                i <= self.requests@.len(),
                forall|j: int| 0 <= j < i ==> (#[trigger] self.requests@[j]).lane != Some(lane),
            decreases self.requests@.len() - i,
        {
            let here: bool = match self.requests[i].lane {
                Some(l) => l == lane,
                None => false,
            };
            if here {
                return Some(i);
            }
            i = i + 1;
        }
        None
    }

    /// Suspend victims until `pages` pages and one sequence more fit what is in
    /// use, or until no victim is left. Whether they fit.
    pub(crate) fn make_room(&mut self, pages: u32, events: &mut Vec<SchedEvent>) -> (room: bool)
        requires
            old(self).wf(),
        ensures
            final(self).wf(),
            final(self).only_evictions(*old(self), -1),
            grew(old(events)@, final(events)@),
            moves_told(old(self).requests@, final(self).requests@, old(events)@, final(events)@),
            spared(old(self).requests@, old(events)@, final(events)@),
            room == final(self).has_room_for(pages, 1),
            // No one is suspended where there is room, or where no one may be.
            old(self).has_room_for(pages, 1) || (forall|v: int| !#[trigger]
                old(self).is_next_victim(v, None)) ==> *final(self) == *old(self)
                && final(events)@ == old(events)@,
            final(self).made_way(
                *old(self),
                Some(pages),
                None,
                old(events)@,
                final(events)@,
            ),
    {
        let ghost before = *self;
        let ghost first_events = events@;
        let ghost mut n: int = 0;
        loop
            invariant
                0 <= n,
                self.victims_went(before, Some(pages), None, n, first_events, events@),
                before == *old(self),
                first_events == old(events)@,
                self.wf(),
                self.only_evictions(before, -1),
                grew(first_events, events@),
                moves_told(before.requests@, self.requests@, first_events, events@),
                spared(before.requests@, first_events, events@),
                before.has_room_for(pages, 1) || (forall|v: int| !#[trigger]
                    before.is_next_victim(v, None)) ==> *self == before && events@
                    == first_events,
            decreases self.resident_slots_used,
        {
            if pages <= self.capacity.kv_pages - self.kv_used_pages && self.resident_slots_used
                < self.config.resident_slot_capacity {
                proof {
                    reveal(ConcreteScheduler::made_way);
                    assert(self.made_way_by(before, Some(pages), None, n, first_events, events@));
                }
                return true;
            }
            let ghost asked = *self;
            let ghost until = events@;
            let evicted: bool = self.evict_one_victim(None, events);
            proof {
                assert(asked.is_short(Some(pages)));
                if evicted {
                    n = n + 1;
                } else {
                    reveal(ConcreteScheduler::made_way);
                    assert(self.made_way_by(before, Some(pages), None, n, first_events, events@));
                }
                self.evictions_twice(asked, before, -1);
                self.evictions_told(asked, before, -1, first_events, until, events@);
                spared_on(before.requests@, asked.requests@, first_events, until, events@);
            }
            if !evicted {
                return pages <= self.capacity.kv_pages - self.kv_used_pages
                    && self.resident_slots_used < self.config.resident_slot_capacity;
            }
        }
    }

    /// Suspend victims until a lane is free for the head, or until no victim is
    /// left. Whether one is.
    pub(crate) fn try_evict_for_head(&mut self, head_idx: usize, events: &mut Vec<SchedEvent>) -> (
    free: bool)
        requires
            old(self).wf(),
            head_idx < old(self).requests@.len(),
            old(self).requests@[head_idx as int].state == RequestState::Prefilling,
        ensures
            final(self).wf(),
            final(self).only_evictions(*old(self), head_idx as int),
            final(self).requests@[head_idx as int] == old(self).requests@[head_idx as int],
            grew(old(events)@, final(events)@),
            moves_told(old(self).requests@, final(self).requests@, old(events)@, final(events)@),
            spared(old(self).requests@, old(events)@, final(events)@),
            free == (final(self).free_lanes@.len() > 0),
            // No one is suspended where a lane is free, or where no one may be.
            old(self).free_lanes@.len() > 0 || (forall|v: int| !#[trigger]
                old(self).is_next_victim(v, Some(head_idx))) ==> *final(self) == *old(self)
                && final(events)@ == old(events)@,
            final(self).made_way(
                *old(self),
                None,
                Some(head_idx),
                old(events)@,
                final(events)@,
            ),
    {
        let ghost before = *self;
        let ghost first_events = events@;
        let ghost mut n: int = 0;
        loop
            invariant
                0 <= n,
                self.victims_went(before, None, Some(head_idx), n, first_events, events@),
                before == *old(self),
                first_events == old(events)@,
                before.free_lanes@.len() > 0 || (forall|v: int| !#[trigger]
                    before.is_next_victim(v, Some(head_idx))) ==> *self == before && events@
                    == first_events,
                self.wf(),
                head_idx < self.requests@.len(),
                before.requests@[head_idx as int].state == RequestState::Prefilling,
                self.only_evictions(before, head_idx as int),
                self.requests@[head_idx as int] == before.requests@[head_idx as int],
                grew(first_events, events@),
                moves_told(before.requests@, self.requests@, first_events, events@),
                spared(before.requests@, first_events, events@),
            decreases self.resident_slots_used,
        {
            if self.free_lanes.len() > 0 {
                proof {
                    reveal(ConcreteScheduler::made_way);
                    assert(self.made_way_by(
                        before,
                        None,
                        Some(head_idx),
                        n,
                        first_events,
                        events@,
                    ));
                }
                return true;
            }
            let ghost asked = *self;
            let ghost until = events@;
            let evicted: bool = self.evict_one_victim(Some(head_idx), events);
            proof {
                assert(asked.is_short(None));
                if evicted {
                    n = n + 1;
                } else {
                    reveal(ConcreteScheduler::made_way);
                    assert(self.made_way_by(
                        before,
                        None,
                        Some(head_idx),
                        n,
                        first_events,
                        events@,
                    ));
                }
                self.evictions_twice(asked, before, head_idx as int);
                self.evictions_told(
                    asked,
                    before,
                    head_idx as int,
                    first_events,
                    until,
                    events@,
                );
                spared_on(before.requests@, asked.requests@, first_events, until, events@);
            }
            if !evicted {
                return self.free_lanes.len() > 0;
            }
        }
    }
}

/// To give way twice is to give way once: who was suspended and then lost its
/// snapshot is queued again.
proof fn gives_way_once(
    a: Request,
    b: Request,
    c: Request,
    config: crate::plan::SchedulerConfig,
)
    requires
        b == a || gave_way(a, b, config),
        c == b || (suspendable(b) || b.state == RequestState::Evicted) && gave_way(b, c, config),
    ensures
        b.id == a.id,
        c == a || gave_way(a, c, config),
        gave_way(a, b, config) ==> gave_way(a, c, config),
{
}

/// `after` is `before` off its lane and off the device: suspended, or queued
/// again. A claim on a spilled checkpoint may have been let go.
pub open spec fn gave_way(
    before: Request,
    after: Request,
    config: crate::plan::SchedulerConfig,
) -> bool {
    let was = Request { kv_ram_claim: after.kv_ram_claim, ..before };
    &&& after.kv_ram_claim is None || after.kv_ram_claim == before.kv_ram_claim
    &&& after == suspended_request(was, config) || is_requeued(was, after, config)
}

impl<C: Compute, K: Clock> ConcreteScheduler<C, K> {
    /// The request at `i` after it resumed: on the device, and on the last free
    /// lane or prefilling from where it stopped.
    pub open spec fn resumed_request(self, i: int, phase: ResumePhase) -> Request {
        let on = Request { resident: true, ..self.requests@[i] };
        match phase {
            ResumePhase::Running => Request {
                state: RequestState::Running,
                lane: Some(self.free_lanes@.last()),
                ..on
            },
            ResumePhase::Prefilling => Request { state: RequestState::Prefilling, ..on },
        }
    }

    /// The backend brought the suspended request at `idx` back: its snapshot
    /// leaves the tier, its charge is taken again, and it resumes.
    fn record_restore(
        &mut self,
        idx: usize,
        phase: ResumePhase,
        restore_micros: u64,
        events: &mut Vec<SchedEvent>,
    )
        requires
            old(self).wf(),
            idx < old(self).requests@.len(),
            old(self).requests@[idx as int].state == RequestState::Evicted,
            phase == ResumePhase::Running ==> old(self).free_lanes@.len() > 0
                && old(self).requests@[idx as int].prefilled(),
            old(self).has_room_for(old(self).requests@[idx as int].resources.kv_pages, 1),
        ensures
            final(self).wf(),
            final(self).requests@ == old(self).requests@.update(
                idx as int,
                old(self).resumed_request(idx as int, phase),
            ),
            final(self).free_lanes@ == (if phase == ResumePhase::Running {
                old(self).free_lanes@.drop_last()
            } else {
                old(self).free_lanes@
            }),
            final(self).kv_used_pages == old(self).kv_used_pages
                + old(self).requests@[idx as int].resources.kv_pages,
            final(self).resident_slots_used == old(self).resident_slots_used + 1,
            *final(self) == (ConcreteScheduler {
                requests: final(self).requests,
                free_lanes: final(self).free_lanes,
                kv_used_pages: final(self).kv_used_pages,
                resident_slots_used: final(self).resident_slots_used,
                host: final(self).host,
                ..*old(self)
            }),
            snapshot_of(old(self).host.live@, old(self).requests@[idx as int].id, 0) matches Some(at)
                && final(self).host.live@ == old(self).host.live@.remove(at),
            final(self).host.proven@ == old(self).host.proven@.push(
                old(self).requests@[idx as int].id,
            ),
            final(self).host.capacity_bytes == old(self).host.capacity_bytes,
            final(self).host.ttl == old(self).host.ttl,
            final(self).host.retained == old(self).host.retained,
            final(events)@ == old(events)@.push(
                SchedEvent::Restored {
                    request: old(self).requests@[idx as int].id,
                    lane: if phase == ResumePhase::Running {
                        Some(old(self).free_lanes@.last())
                    } else {
                        None
                    },
                    restore_micros,
                },
            ),
    {
        let ghost before = *self;
        let ghost i = idx as int;
        let ghost was = self.requests@[i];
        let request: RequestId = self.requests[idx].id;
        proof {
            assert(request_ok(was, self.config, self.prefix.entries@));
            assert(snapshotted(self.host.live@, was.id));
            snapshot_is_first(self.host.live@, request, 0);
        }
        let _ = self.host.restore(request);
        let ghost at = snapshot_of(before.host.live@, request, 0)->Some_0;
        self.resident_slots_used = self.resident_slots_used + 1;
        self.kv_used_pages = self.kv_used_pages + self.requests[idx].resources.kv_pages;
        let mut lane: Option<LaneId> = None;
        let ghost with = before.resumed_request(i, phase);
        proof {
            hosted_leave(before.requests@, before.host.live@, before.next_id, i, with, at);
        }
        match phase {
            ResumePhase::Running => {
                lane = self.free_lanes.pop();
                if let Some(lane) = lane {
                    self.requests[idx].resident = true;
                    self.requests[idx].restore_lane(lane);
                }
                proof {
                    lane_dealt(before.requests@, before.free_lanes@, i, with);
                }
            },
            ResumePhase::Prefilling => {
                self.requests[idx].resident = true;
                let progress: u32 = self.requests[idx].prefill_progress;
                self.requests[idx].restore_prefilling(progress);
                proof {
                    lanes_kept(before.requests@, before.free_lanes@, i, with);
                }
            },
        }
        proof {
            assert(self.requests@ =~= before.requests@.update(i, with));
            assert(request_ok(with, self.config, self.prefix.entries@));
            self.one_request_moved(before, i, Seq::empty(), Seq::empty());
        }
        events.push(SchedEvent::Restored { request, lane, restore_micros });
    }

    /// What a pass of restores may do: bring suspended requests back, or queue
    /// them again where their snapshot could not be restored.
    pub open spec fn only_restores(self, before: Self) -> bool {
        &&& self.same_run(before)
        &&& self.protection == before.protection
        &&& self.free_lanes@.len() <= before.free_lanes@.len()
        &&& forall|i: int|
            0 <= i < before.requests@.len() ==> (#[trigger] self.requests@[i]
                == before.requests@[i] || (before.requests@[i].state == RequestState::Evicted
                && came_back(before.requests@[i], self.requests@[i], before.config)))
    }

    /// `back` is who came back, in turn, as reported between `first` and
    /// `last`; no one else moved.
    pub open spec fn returned(
        self,
        before: Self,
        back: Seq<int>,
        first: Seq<SchedEvent>,
        last: Seq<SchedEvent>,
    ) -> bool {
        &&& longer(first, last)
        &&& last.len() == first.len() + back.len()
        &&& forall|k: int|
            0 <= k < back.len() ==> 0 <= #[trigger] back[k] < before.requests@.len()
                && before.requests@[back[k]].state == RequestState::Evicted && came_back(
                before.requests@[back[k]],
                self.requests@[back[k]],
                before.config,
            ) && return_is_told(self.requests@[back[k]], last[first.len() + k])
        &&& forall|i: int|
            0 <= i < before.requests@.len() && !back.contains(i) ==> (#[trigger] self.requests@[i])
                == before.requests@[i]
    }

    proof fn one_more_returned(
        self,
        asked: Self,
        before: Self,
        back: Seq<int>,
        i: int,
        first: Seq<SchedEvent>,
        until: Seq<SchedEvent>,
        last: Seq<SchedEvent>,
    )
        requires
            asked.returned(before, back, first, until),
            asked.only_restores(before),
            self.same_run(asked),
            self.protection == asked.protection,
            self.free_lanes@.len() <= asked.free_lanes@.len(),
            0 <= i < asked.requests@.len(),
            self.requests@ == asked.requests@.update(i, self.requests@[i]),
            asked.requests@[i].state == RequestState::Evicted,
            came_back(asked.requests@[i], self.requests@[i], before.config),
            last.len() == until.len() + 1,
            longer(until, last),
            return_is_told(self.requests@[i], last.last()),
        ensures
            self.returned(before, back.push(i), first, last),
            self.only_restores(before),
    {
        assert(!back.contains(i)) by {
            if back.contains(i) {
                let k = choose|k: int| 0 <= k < back.len() && back[k] == i;
                assert(came_back(before.requests@[back[k]], asked.requests@[i], before.config));
            }
        }
        assert(asked.requests@[i] == before.requests@[i]);
        let more = back.push(i);
        assert forall|k: int| 0 <= k < more.len() implies 0 <= #[trigger] more[k]
            < before.requests@.len() && before.requests@[more[k]].state == RequestState::Evicted
            && came_back(before.requests@[more[k]], self.requests@[more[k]], before.config)
            && return_is_told(self.requests@[more[k]], last[first.len() + k]) by {
            if k < back.len() {
                assert(back[k] == more[k]);
                assert(back.contains(more[k]));
                assert(self.requests@[more[k]] == asked.requests@[more[k]]);
                assert(last[first.len() + k] == until[first.len() + k]);
            }
        }
        assert forall|j: int| 0 <= j < before.requests@.len() && !more.contains(j) implies (
        #[trigger] self.requests@[j]) == before.requests@[j] by {
            assert(more[back.len() as int] == i);
            if back.contains(j) {
                let k = choose|k: int| 0 <= k < back.len() && back[k] == j;
                assert(more[k] == j);
            }
            assert(self.requests@[j] == asked.requests@[j]);
        }
        assert forall|j: int| 0 <= j < before.requests@.len() implies (#[trigger] self.requests@[j]
            == before.requests@[j] || (before.requests@[j].state == RequestState::Evicted
            && came_back(before.requests@[j], self.requests@[j], before.config))) by {
            if j != i {
                assert(self.requests@[j] == asked.requests@[j]);
            }
        }
    }

    /// Whether the request whose snapshot is at `at` has nowhere to come back
    /// to: it was decoding and no lane is free, or the device has no room.
    pub open spec fn has_no_place(self, at: int) -> bool {
        let e = self.host.live@[at];
        ||| e.resume_phase == ResumePhase::Running && self.free_lanes@.len() == 0
        ||| !self.has_room_for(e.pages, 1)
    }

    /// The next snapshot, at `at`, was restored, as the backend answered: the
    /// request at `i` it is of resumes, or is queued again.
    #[verifier::opaque]
    pub open spec fn restored(
        self,
        before: Self,
        at: int,
        i: int,
        answer: Result<(), ComputeError>,
        first: Seq<SchedEvent>,
        last: Seq<SchedEvent>,
    ) -> bool {
        let e = before.host.live@[at];
        let r = before.requests@[i];
        &&& is_next_snapshot(before.host.live@, at)
        &&& !before.has_no_place(at)
        &&& 0 <= i < before.requests@.len()
        &&& r.id == e.request
        &&& call_ensures(
            C::restore,
            (&*before.compute, r.id, reserved(before.config, r.input) as u32),
            answer,
        )
        &&& self == (ConcreteScheduler {
            requests: self.requests,
            free_lanes: self.free_lanes,
            kv_used_pages: self.kv_used_pages,
            resident_slots_used: self.resident_slots_used,
            host: self.host,
            ..before
        })
        &&& self.host.live@ == before.host.live@.remove(at)
        &&& self.host.retained == before.host.retained
        &&& self.requests@ == before.requests@.update(i, self.requests@[i])
        &&& longer(first, last)
        &&& last.len() == first.len() + 1
        &&& return_is_told(self.requests@[i], last.last())
        &&& match answer {
            Ok(_) => {
                &&& self.requests@[i] == before.resumed_request(i, e.resume_phase)
                &&& self.free_lanes@ == (if e.resume_phase == ResumePhase::Running {
                    before.free_lanes@.drop_last()
                } else {
                    before.free_lanes@
                })
                &&& self.kv_used_pages == before.kv_used_pages + r.resources.kv_pages
                &&& self.resident_slots_used == before.resident_slots_used + 1
                &&& self.host.proven@ == before.host.proven@.push(r.id)
            },
            Err(_) => {
                &&& is_requeued(r, self.requests@[i], before.config)
                &&& before.snapshot_freed(r.id)
                &&& self.free_lanes == before.free_lanes
                &&& self.kv_used_pages == before.kv_used_pages
                &&& self.resident_slots_used == before.resident_slots_used
                &&& self.host.proven == before.host.proven
            },
        }
    }

    #[verifier::opaque]
    pub open spec fn restored_next(
        self,
        before: Self,
        first: Seq<SchedEvent>,
        last: Seq<SchedEvent>,
    ) -> bool {
        exists|at: int, i: int, answer: Result<(), ComputeError>| #[trigger]
            self.restored(before, at, i, answer, first, last)
    }

    /// `n` snapshots were restored, each the next one when its turn came.
    pub open spec fn restored_in_turn(
        self,
        before: Self,
        n: int,
        first: Seq<SchedEvent>,
        last: Seq<SchedEvent>,
    ) -> bool
        decreases n,
    {
        if n <= 0 {
            self == before && last == first
        } else {
            exists|middle: Self, until: Seq<SchedEvent>|
                middle.restored_in_turn(before, n - 1, first, until)
                    && #[trigger] self.restored_next(middle, until, last)
        }
    }

    proof fn restored_one_more(
        self,
        middle: Self,
        before: Self,
        n: int,
        first: Seq<SchedEvent>,
        until: Seq<SchedEvent>,
        last: Seq<SchedEvent>,
    )
        requires
            0 <= n,
            middle.restored_in_turn(before, n, first, until),
            self.restored_next(middle, until, last),
        ensures
            self.restored_in_turn(before, n + 1, first, last),
    {
    }

    /// The one snapshot of a request is where it is found.
    proof fn snapshot_is_at(self, at: int)
        requires
            self.host.wf(),
            0 <= at < self.host.live@.len(),
        ensures
            snapshot_of(self.host.live@, self.host.live@[at].request, 0) == Some(at),
    {
        let live = self.host.live@;
        snapshot_is_first(live, live[at].request, 0);
        let k = snapshot_of(live, live[at].request, 0)->Some_0;
        if k < at {
            assert(live[k].request != live[at].request);
        } else if at < k {
            assert(live[at].request != live[k].request);
        }
    }

    /// Bring suspended requests back, as many as there is room for, in the
    /// tier's own order. A request that was decoding needs a free lane. One
    /// whose snapshot cannot be restored is queued again.
    #[verifier::rlimit(40)]
    pub(crate) fn restore_pass(&mut self, events: &mut Vec<SchedEvent>)
        requires
            old(self).wf(),
        ensures
            final(self).wf(),
            final(self).only_restores(*old(self)),
            longer(old(events)@, final(events)@),
            old(self).settled() ==> final(self).settled(),
            exists|back: Seq<int>| #[trigger]
                final(self).returned(*old(self), back, old(events)@, final(events)@),
            // Each in its turn, as the backend answered.
            exists|n: int|
                0 <= n && #[trigger] final(self).restored_in_turn(
                    *old(self),
                    n,
                    old(events)@,
                    final(events)@,
                ),
            // It stops only where the next snapshot has no place, or none is left.
            final(self).host.live@.len() == 0 || exists|at: int| #[trigger]
                is_next_snapshot(final(self).host.live@, at) && final(self).has_no_place(at),
    {
        let ghost before = *self;
        let ghost first_events = events@;
        let ghost mut back: Seq<int> = Seq::empty();
        let ghost mut n: int = 0;
        loop
            invariant
                0 <= n,
                self.restored_in_turn(before, n, first_events, events@),
                before == *old(self),
                first_events == old(events)@,
                self.wf(),
                self.only_restores(before),
                self.returned(before, back, first_events, events@),
                longer(first_events, events@),
                before.settled() ==> self.settled(),
            decreases self.host.live@.len(),
        {
            let at: usize = match self.host.victim() {
                Some(at) => at,
                None => {
                    return;
                },
            };
            let request: RequestId = self.host.live[at].request;
            let phase: ResumePhase = self.host.live[at].resume_phase;
            let pages: u32 = self.host.live[at].pages;
            if phase == ResumePhase::Running && self.free_lanes.len() == 0 {
                return;
            }
            if self.resident_slots_used >= self.config.resident_slot_capacity || pages
                > self.capacity.kv_pages - self.kv_used_pages {
                return;
            }
            let ghost asked = *self;
            let ghost until = events@;
            let idx: usize = match self.find(request) {
                Some(idx) => idx,
                None => {
                    proof {
                        assert(resumes(self.requests@, self.host.live@[at as int]));
                        let j = choose|j: int| #[trigger]
                            resumes_at(self.requests@, self.host.live@[at as int], j);
                        assert(self.requests@[j].id == request);
                        assert(false);
                    }
                    return;
                },
            };
            proof {
                assert(self.wf_but_strangers());
                self.snapshot_is_of(at as int, idx as int);
                self.snapshot_is_at(at as int);
                assert(!self.has_no_place(at as int));
            }
            let context_tokens: u32 = sequence_tokens(&self.config, &self.requests[idx].input);
            let started = instant_now();
            let answer = self.compute.restore(request, context_tokens);
            match answer {
                Ok(()) => {
                    let restore_micros: u64 = micros_since(&started);
                    self.record_restore(idx, phase, restore_micros, events);
                },
                Err(_) => {
                    let _ = self.host.discard_request(request);
                    self.compute.discard_snapshot(request);
                    proof {
                        snapshot_is_first(asked.host.live@, request, 0);
                        self.snapshot_lost(
                            asked,
                            snapshot_of(asked.host.live@, request, 0)->Some_0,
                            idx as int,
                        );
                    }
                    self.requeue_request(idx, events);
                },
            }
            proof {
                let i = idx as int;
                assert(came_back(asked.requests@[i], self.requests@[i], before.config));
                self.one_more_returned(asked, before, back, i, first_events, until, events@);
                back = back.push(i);
                assert(self.requests@ =~= asked.requests@.update(i, self.requests@[i]));
                assert(self.restored(asked, at as int, i, answer, until, events@)) by {
                    reveal(ConcreteScheduler::restored);
                }
                assert(self.restored_next(asked, until, events@)) by {
                    reveal(ConcreteScheduler::restored_next);
                }
                self.restored_one_more(asked, before, n, first_events, until, events@);
                n = n + 1;
                if before.settled() {
                    assert forall|j: int|
                        0 <= j < self.requests@.len() && (#[trigger] self.requests@[j]).state
                            == RequestState::Admitted implies !self.requests@[j].resident by {
                        if j != i {
                            assert(self.requests@[j] == asked.requests@[j]);
                        }
                    }
                }
            }
        }
    }

    /// The snapshot at `at` is of the request at `i` that bears its id.
    proof fn snapshot_is_of(self, at: int, i: int)
        requires
            self.wf(),
            0 <= at < self.host.live@.len(),
            0 <= i < self.requests@.len(),
            self.requests@[i].id == self.host.live@[at].request,
        ensures
            self.requests@[i].state == RequestState::Evicted,
            self.requests@[i].resources.kv_pages == self.host.live@[at].pages,
            self.requests@[i].prefill_progress == self.host.live@[at].prefill_progress,
            self.host.live@[at].resume_phase == ResumePhase::Running
                ==> self.requests@[i].prefilled(),
            snapshot_of(self.host.live@, self.requests@[i].id, 0) is Some,
    {
        let e = self.host.live@[at];
        assert(resumes(self.requests@, e));
        let j = choose|j: int| #[trigger] resumes_at(self.requests@, e, j);
        if j < i {
            assert(self.requests@[j].id < self.requests@[i].id);
        } else if i < j {
            assert(self.requests@[i].id < self.requests@[j].id);
        }
        snapshot_is_first(self.host.live@, self.requests@[i].id, 0);
    }
}

/// `after` is the suspended `before`, resumed where it stopped or queued
/// again.
pub open spec fn came_back(
    before: Request,
    after: Request,
    config: crate::plan::SchedulerConfig,
) -> bool {
    &&& after.id == before.id
    &&& after.class == before.class
    &&& after.input == before.input
    &&& after.cancelled == before.cancelled
    &&& match after.state {
        RequestState::Running => after.resident && after.lane is Some && after == (Request {
            state: RequestState::Running,
            lane: after.lane,
            resident: true,
            ..before
        }),
        RequestState::Prefilling => after == (Request {
            state: RequestState::Prefilling,
            resident: true,
            ..before
        }),
        RequestState::Admitted => is_requeued(before, after, config),
        _ => false,
    }
}

/// `event` reports that the suspended request came back as `after`: restored,
/// on its lane where it decodes, or queued again.
pub open spec fn return_is_told(after: Request, event: SchedEvent) -> bool {
    match after.state {
        RequestState::Admitted => event == (SchedEvent::Requeued { request: after.id }),
        _ => event matches SchedEvent::Restored { request, lane, .. } && request == after.id && lane
            == (if after.state == RequestState::Running {
            after.lane
        } else {
            None
        }),
    }
}

} // verus!
