//! Dealing lanes: the admission state machine over prefilled requests.
//!
//! The queue is the prefilled requests in class and submission order. While a
//! lane is free the queue is served in order. A blocked head opens a
//! protection, may take a lane from a victim, and otherwise holds everyone
//! behind it but backfills that fit its future.

use crate::admission::{
    admission_resources_fit, held, held_by, is_protection_of, lanes_alone_decide,
    make_admission_protection, not_a_borrower,
    persistent_backfill_is_safe, protected_head_safe_without_temporal,
    protection_frontier_distance, ActiveAdmissionSnapshot, AdmissionProtection, AdmissionResources,
    ProtectionPhase,
};
use crate::concrete::{lane_only, request_ok, ConcreteScheduler};
use crate::ledger::{lane_charge, tally};
use crate::lifecycle::{is_told, moves_told, spared, tells, told_longer};
use crate::moves::{hosted_kept, lane_dealt};
use crate::order::{in_service_order, is_service_order, ordered_by, picks};
use crate::request::Request;
use crate::retention::{capped, grew, longer, tails_back};
use crate::scheduler::{Clock, Compute};
use crate::types::{
    BackfillClass, LaneId, PrefixId, RequestId, RequestState, SchedEvent, N_DECODE_LANES,
};
use vstd::prelude::*;

verus! {

/// Whether a request is queued for a lane: prefilled, and not running yet.
pub open spec fn queued(r: Request) -> bool {
    r.state == RequestState::Prefilling && r.prefilled()
}

/// The positions among the first `n` requests that are queued for a lane.
pub open spec fn queued_in(reqs: Seq<Request>, n: int) -> Seq<usize>
    decreases n,
{
    if n <= 0 {
        Seq::empty()
    } else if queued(reqs[n - 1]) {
        queued_in(reqs, n - 1).push((n - 1) as usize)
    } else {
        queued_in(reqs, n - 1)
    }
}

/// The keys a queue is served by: class, then submission.
pub open spec fn service_keys(reqs: Seq<Request>, items: Seq<usize>) -> Seq<(u64, u64)> {
    Seq::new(
        items.len(),
        |k: int| (reqs[items[k] as int].class.rank(), reqs[items[k] as int].id),
    )
}

/// `queue` is the queue for lanes, in service order.
pub open spec fn is_lane_queue(reqs: Seq<Request>, queue: Seq<usize>) -> bool {
    let items = queued_in(reqs, reqs.len() as int);
    ordered_by(items, service_keys(reqs, items), queue)
}

pub proof fn queued_in_is_queued(reqs: Seq<Request>, n: int)
    requires
        0 <= n <= reqs.len(),
        reqs.len() <= usize::MAX,
    ensures
        queued_in(reqs, n).len() <= n,
        forall|k: int|
            0 <= k < queued_in(reqs, n).len() ==> (#[trigger] queued_in(reqs, n)[k]) < n && queued(
                reqs[queued_in(reqs, n)[k] as int],
            ),
        forall|a: int, b: int|
            0 <= a < b < queued_in(reqs, n).len() ==> (#[trigger] queued_in(reqs, n)[a]) < (
            #[trigger] queued_in(reqs, n)[b]),
        forall|i: int|
            0 <= i < n && queued(#[trigger] reqs[i]) ==> queued_in(reqs, n).contains(i as usize),
    decreases n,
{
    if n > 0 {
        queued_in_is_queued(reqs, n - 1);
        let was = queued_in(reqs, n - 1);
        let now = queued_in(reqs, n);
        assert forall|i: int| 0 <= i < n && queued(#[trigger] reqs[i]) implies now.contains(
            i as usize,
        ) by {
            if i < n - 1 {
                let k = choose|k: int| 0 <= k < was.len() && was[k] == i as usize;
                assert(now[k] == was[k]);
            } else {
                assert(now[now.len() - 1] == i as usize);
            }
        }
    }
}

/// The lanes are dealt by class, and within a class by submission: of two
/// queued requests the one further ahead is of a class served no later, and
/// where the classes are the same it was submitted first.
pub proof fn the_queue_is_served_by_class_and_age(
    reqs: Seq<Request>,
    queue: Seq<usize>,
    a: int,
    b: int,
)
    requires
        is_lane_queue(reqs, queue),
        reqs.len() <= usize::MAX,
        forall|i: int, j: int|
            0 <= i < j < reqs.len() ==> (#[trigger] reqs[i]).id < (#[trigger] reqs[j]).id,
        0 <= a < b < queue.len(),
    ensures
        reqs[queue[a] as int].class.rank() <= reqs[queue[b] as int].class.rank(),
        reqs[queue[a] as int].class == reqs[queue[b] as int].class ==> reqs[queue[a] as int].id
            < reqs[queue[b] as int].id,
{
    let items = queued_in(reqs, reqs.len() as int);
    let keys = service_keys(reqs, items);
    queued_in_is_queued(reqs, reqs.len() as int);
    let order = choose|order: Seq<usize>|
        is_service_order(keys, order) && #[trigger] picks(items, order, queue);
    assert(queue[a] == items[order[a] as int]);
    assert(queue[b] == items[order[b] as int]);
    assert(crate::order::precedes(keys, order[a] as int, order[b] as int));
    if order[a] < order[b] {
        assert(items[order[a] as int] < items[order[b] as int]);
    }
}

/// A queue in service order holds queued requests, each once.
pub proof fn lane_queue_is_queued(reqs: Seq<Request>, queue: Seq<usize>)
    requires
        is_lane_queue(reqs, queue),
        reqs.len() <= usize::MAX,
    ensures
        forall|k: int|
            0 <= k < queue.len() ==> (#[trigger] queue[k]) < reqs.len() && queued(
                reqs[queue[k] as int],
            ),
        forall|a: int, b: int|
            0 <= a < b < queue.len() ==> #[trigger] queue[a] != #[trigger] queue[b],
        queue.len() == queued_in(reqs, reqs.len() as int).len(),
{
    let items = queued_in(reqs, reqs.len() as int);
    let keys = service_keys(reqs, items);
    queued_in_is_queued(reqs, reqs.len() as int);
    let order = choose|order: Seq<usize>|
        is_service_order(keys, order) && #[trigger] picks(items, order, queue);
    assert forall|k: int| 0 <= k < queue.len() implies (#[trigger] queue[k]) < reqs.len() && queued(
        reqs[queue[k] as int],
    ) by {
        assert(queue[k] == items[order[k] as int]);
    }
    assert forall|a: int, b: int| 0 <= a < b < queue.len() implies #[trigger] queue[a]
        != #[trigger] queue[b] by {
        assert(queue[a] == items[order[a] as int]);
        assert(queue[b] == items[order[b] as int]);
        assert(crate::order::precedes(keys, order[a] as int, order[b] as int));
        if order[a] < order[b] {
            assert(items[order[a] as int] < items[order[b] as int]);
        } else {
            assert(items[order[b] as int] < items[order[a] as int]);
        }
    }
}

/// The snapshot a running request makes for the protection arithmetic: a lane,
/// and nothing that is already settled.
pub open spec fn active_snapshot(r: Request) -> ActiveAdmissionSnapshot {
    ActiveAdmissionSnapshot {
        request_id: r.id,
        resources: AdmissionResources {
            lanes: r.resources.lanes,
            kv_pages: 0,
            backend_pages: r.resources.backend_pages,
        },
        remaining_work_quanta: r.remaining_work,
        backfill_epoch: r.backfill_epoch,
        backfill_class: r.backfill_class,
    }
}

/// The active set among the first `n` requests.
pub open spec fn active_in(reqs: Seq<Request>, n: int) -> Seq<ActiveAdmissionSnapshot>
    decreases n,
{
    if n <= 0 {
        Seq::empty()
    } else if reqs[n - 1].state == RequestState::Running && reqs[n - 1].remaining_work > 0 {
        active_in(reqs, n - 1).push(active_snapshot(reqs[n - 1]))
    } else {
        active_in(reqs, n - 1)
    }
}

/// Every snapshot holds one lane and nothing else.
pub open spec fn all_lane_only(active: Seq<ActiveAdmissionSnapshot>) -> bool {
    forall|k: int| 0 <= k < active.len() ==> lane_only((#[trigger] active[k]).resources)
}

/// What lane-only snapshots hold: no pages, and no more lanes than there are
/// of them.
pub proof fn lane_only_holds(
    active: Seq<ActiveAdmissionSnapshot>,
    counted: spec_fn(ActiveAdmissionSnapshot) -> bool,
)
    requires
        all_lane_only(active),
    ensures
        0 <= held_by(active, counted).lanes <= active.len(),
        held_by(active, counted).kv_pages == 0,
        held_by(active, counted).backend_pages == 0,
    decreases active.len(),
{
    if active.len() > 0 {
        assert forall|k: int| 0 <= k < active.drop_last().len() implies lane_only(
            (#[trigger] active.drop_last()[k]).resources,
        ) by {
            assert(lane_only(active[k].resources));
        }
        lane_only_holds(active.drop_last(), counted);
        assert(lane_only(active[active.len() - 1].resources));
    }
}

/// The protection after it was looked at: draining, once the head fits beside
/// everyone but the temporal borrowers of its epoch.
pub open spec fn drained(
    p: AdmissionProtection,
    active: Seq<ActiveAdmissionSnapshot>,
) -> AdmissionProtection {
    AdmissionProtection {
        phase: if 1 + held_by(active, not_a_borrower(p)).lanes <= N_DECODE_LANES {
            ProtectionPhase::Drain
        } else {
            p.phase
        },
        ..p
    }
}

/// Whether one more lane fits the future of the head `p` protects: beside the
/// head's own and those of everyone who stays.
pub open spec fn persists_beside(
    p: AdmissionProtection,
    active: Seq<ActiveAdmissionSnapshot>,
) -> bool {
    1 + held_by(active, crate::admission::stays_beside_the_head(p)).lanes + 1 <= N_DECODE_LANES
}

/// Lane-only snapshots hold as many lanes as there are of them.
pub proof fn lane_only_counts(active: Seq<ActiveAdmissionSnapshot>)
    requires
        all_lane_only(active),
    ensures
        held(active).lanes == active.len(),
    decreases active.len(),
{
    if active.len() > 0 {
        assert forall|k: int| 0 <= k < active.drop_last().len() implies lane_only(
            (#[trigger] active.drop_last()[k]).resources,
        ) by {
            assert(lane_only(active[k].resources));
        }
        lane_only_counts(active.drop_last());
        assert(lane_only(active[active.len() - 1].resources));
    }
}

/// Everyone in the active set has work left.
pub proof fn active_have_work(reqs: Seq<Request>, n: int)
    requires
        0 <= n <= reqs.len(),
    ensures
        crate::admission::all_in_progress(active_in(reqs, n)),
    decreases n,
{
    if n > 0 {
        active_have_work(reqs, n - 1);
    }
}

impl<C: Compute, K: Clock> ConcreteScheduler<C, K> {
    /// The pages the machine may count on: the pool less what shared prefixes
    /// and tails pin, but for what giving up retained state would return.
    pub(crate) fn available_capacity(&self) -> (available: AdmissionResources)
        requires
            self.wf(),
        ensures
            available.lanes == self.capacity.lanes,
            available.backend_pages == self.capacity.backend_pages,
            available.kv_pages <= self.capacity.kv_pages,
            exists|claimed: Seq<crate::checkpoint::CheckpointId>|
                (forall|id: crate::checkpoint::CheckpointId| #[trigger]
                    claimed.contains(id) <==> self.is_claimed_image(id)) && available.kv_pages
                    == pages_left(
                    self.capacity.kv_pages as int,
                    self.prefix.pins() + self.tail_pages@.len(),
                    capped(
                        #[trigger] tails_back(
                            self.checkpoints.entries@,
                            self.tail_pages@,
                            claimed,
                            self.checkpoints.entries@.len() as int,
                        ) + self.reclaimable_in(self.prefix.entries@.len() as int),
                    ),
                ),
    {
        proof {
            self.tails_are_few();
        }
        let pinned: u32 = self.prefix.pinned_pages() + self.tail_pages.len() as u32;
        let back: u32 = self.reclaimable_retained_pages();
        AdmissionResources {
            lanes: self.capacity.lanes,
            kv_pages: self.capacity.kv_pages.saturating_sub(pinned.saturating_sub(back)),
            backend_pages: self.capacity.backend_pages,
        }
    }

    /// What dealing a lane to `r` newly takes: its pages and its device slot
    /// are charged already.
    pub(crate) fn deal_only(r: &Request) -> (resources: AdmissionResources)
        ensures
            resources == active_snapshot(*r).resources,
    {
        AdmissionResources {
            lanes: r.resources.lanes,
            kv_pages: 0,
            backend_pages: r.resources.backend_pages,
        }
    }

    /// Whether `r` can be dealt a lane right now: one is free.
    pub(crate) fn fits(&self, idx: usize) -> (fits: bool)
        requires
            self.wf(),
            idx < self.requests@.len(),
        ensures
            fits == (self.free_lanes@.len() > 0),
    {
        proof {
            assert(request_ok(
                self.requests@[idx as int],
                self.config,
                self.prefix.entries@,
            ));
            crate::ledger::tally_bounds(
                self.requests@,
                lane_charge(),
                -1,
                self.requests@.len() as int,
            );
        }
        let running = AdmissionResources {
            lanes: N_DECODE_LANES as u32 - self.free_lanes.len() as u32,
            kv_pages: self.kv_used_pages,
            backend_pages: 0,
        };
        let asked = Self::deal_only(&self.requests[idx]);
        let total = running.add(&asked);
        admission_resources_fit(&total, &self.capacity)
    }

    /// Whether the request at `idx`, not on the device yet, can be charged its
    /// whole reservation and a device slot.
    pub(crate) fn fits_for_materialization(&self, idx: usize) -> (fits: bool)
        requires
            self.wf(),
            idx < self.requests@.len(),
        ensures
            fits == self.has_room_for(self.requests@[idx as int].resources.kv_pages, 1),
    {
        self.requests[idx].resources.kv_pages <= self.capacity.kv_pages - self.kv_used_pages
            && self.resident_slots_used < self.config.resident_slot_capacity
    }

    /// The request at `i` dealt the last free lane as a `backfill`.
    pub open spec fn dealt_request(self, i: int, backfill: BackfillClass) -> Request {
        Request {
            state: RequestState::Running,
            lane: Some(self.free_lanes@.last()),
            backfill_class: backfill,
            backfill_epoch: if backfill == BackfillClass::Plain {
                0
            } else {
                match self.protection {
                    Some(p) => p.epoch_id,
                    None => 0,
                }
            },
            ..self.requests@[i]
        }
    }

    /// Deal a lane to the prefilled request at `idx`. `false`, dealing nothing,
    /// when no lane is free.
    pub(crate) fn try_admit(
        &mut self,
        idx: usize,
        backfill: BackfillClass,
        events: &mut Vec<SchedEvent>,
    ) -> (dealt: bool)
        requires
            old(self).wf(),
            idx < old(self).requests@.len(),
            queued(old(self).requests@[idx as int]),
        ensures
            final(self).wf(),
            old(self).settled() ==> final(self).settled(),
            dealt == (old(self).free_lanes@.len() > 0),
            !dealt ==> *final(self) == *old(self) && final(events)@ == old(events)@,
            dealt ==> {
                &&& *final(self) == (ConcreteScheduler {
                    requests: final(self).requests,
                    free_lanes: final(self).free_lanes,
                    ..*old(self)
                })
                &&& final(self).free_lanes@ == old(self).free_lanes@.drop_last()
                &&& final(self).requests@ == old(self).requests@.update(
                    idx as int,
                    old(self).dealt_request(idx as int, backfill),
                )
                &&& final(events)@ == old(events)@.push(
                    SchedEvent::Admitted {
                        request: old(self).requests@[idx as int].id,
                        lane: old(self).free_lanes@.last(),
                        backfill,
                    },
                )
            },
    {
        let ghost before = *self;
        if self.free_lanes.len() == 0 {
            return false;
        }
        let lane: LaneId = match self.free_lanes.pop() {
            Some(lane) => lane,
            None => {
                return false;
            },
        };
        let request: RequestId = self.requests[idx].id;
        proof {
            assert(request_ok(before.requests@[idx as int], before.config, before.prefix.entries@));
        }
        let _ = self.requests[idx].assign_lane(lane);
        let backfill_epoch: u64 = if backfill == BackfillClass::Plain {
            0
        } else {
            match &self.protection {
                Some(p) => p.epoch_id,
                None => 0,
            }
        };
        self.requests[idx].backfill_class = backfill;
        self.requests[idx].backfill_epoch = backfill_epoch;
        proof {
            let i = idx as int;
            let with = before.dealt_request(i, backfill);
            assert(self.requests@ =~= before.requests@.update(i, with));
            lane_dealt(before.requests@, before.free_lanes@, i, with);
            hosted_kept(before.requests@, before.host.live@, i, with);
            assert(request_ok(with, self.config, self.prefix.entries@));
            self.one_request_moved(before, i, Seq::empty(), Seq::empty());
            if before.settled() {
                assert forall|j: int|
                    0 <= j < self.requests@.len() && (#[trigger] self.requests@[j]).state
                        == RequestState::Admitted implies !self.requests@[j].resident by {
                    assert(self.requests@[j] == before.requests@[j]);
                }
            }
        }
        events.push(SchedEvent::Admitted { request, lane, backfill });
        true
    }

    /// Every running request with work left, as the protection arithmetic sees
    /// it.
    pub(crate) fn active_admission_set(&self) -> (active: Vec<ActiveAdmissionSnapshot>)
        ensures
            active@ == active_in(self.requests@, self.requests@.len() as int),
    {
        let mut active: Vec<ActiveAdmissionSnapshot> = Vec::new();
        let mut i: usize = 0;
        while i < self.requests.len()
            invariant
                i <= self.requests@.len(),
                active@ == active_in(self.requests@, i as int),
            decreases self.requests@.len() - i,
        {
            let r = &self.requests[i];
            if r.state == RequestState::Running && r.remaining_work > 0 {
                active.push(
                    ActiveAdmissionSnapshot {
                        request_id: r.id,
                        resources: Self::deal_only(r),
                        remaining_work_quanta: r.remaining_work,
                        backfill_epoch: r.backfill_epoch,
                        backfill_class: r.backfill_class,
                    },
                );
            }
            i = i + 1;
        }
        active
    }

    /// The active set holds lanes only, and no more of them than there are.
    proof fn active_is_lanes(self, n: int)
        requires
            self.wf(),
            0 <= n <= self.requests@.len(),
        ensures
            all_lane_only(active_in(self.requests@, n)),
            active_in(self.requests@, n).len() <= tally(self.requests@, lane_charge(), n),
        decreases n,
    {
        if n > 0 {
            self.active_is_lanes(n - 1);
            assert(request_ok(self.requests@[n - 1], self.config, self.prefix.entries@));
        }
    }

    /// The queue for lanes, in service order.
    fn lane_queue(&self) -> (queue: Vec<usize>)
        ensures
            is_lane_queue(self.requests@, queue@),
    {
        let mut items: Vec<usize> = Vec::new();
        let mut keys: Vec<(u64, u64)> = Vec::new();
        let mut i: usize = 0;
        while i < self.requests.len()
            invariant
                i <= self.requests@.len(),
                items@ == queued_in(self.requests@, i as int),
                keys@.len() == items@.len(),
                forall|k: int|
                    0 <= k < keys@.len() ==> #[trigger] keys@[k] == (
                        self.requests@[items@[k] as int].class.rank(),
                        self.requests@[items@[k] as int].id,
                    ),
            decreases self.requests@.len() - i,
        {
            let r = &self.requests[i];
            if r.state == RequestState::Prefilling && r.prefill_complete() {
                items.push(i);
                keys.push((r.class.queue_rank(), r.id));
            }
            i = i + 1;
        }
        assert(keys@ =~= service_keys(self.requests@, items@));
        in_service_order(&items, &keys)
    }

    /// What dealing the first `n` of the queue does, in order, while a lane is
    /// free for each.
    pub open spec fn dealt_in_order(self, before: Self, queue: Seq<usize>, n: int) -> bool {
        &&& 0 <= n <= queue.len()
        &&& n <= before.free_lanes@.len()
        &&& self.free_lanes@ == before.free_lanes@.take(before.free_lanes@.len() - n)
        &&& self == (ConcreteScheduler {
            requests: self.requests,
            free_lanes: self.free_lanes,
            protection: self.protection,
            ..before
        })
        &&& self.requests@.len() == before.requests@.len()
        &&& forall|k: int|
            0 <= k < n ==> self.requests@[(#[trigger] queue[k]) as int] == (Request {
                state: RequestState::Running,
                lane: Some(before.free_lanes@[before.free_lanes@.len() - 1 - k]),
                backfill_class: BackfillClass::Plain,
                backfill_epoch: 0,
                ..before.requests@[queue[k] as int]
            })
        &&& forall|i: int|
            0 <= i < before.requests@.len() && !queue.take(n).contains(i as usize)
                ==> #[trigger] self.requests@[i] == before.requests@[i]
    }

    /// How dealing the first `n` of the queue is reported, in order.
    pub open spec fn dealt_events(self, queue: Seq<usize>, n: int) -> Seq<SchedEvent> {
        Seq::new(
            n as nat,
            |k: int|
                SchedEvent::Admitted {
                    request: self.requests@[queue[k] as int].id,
                    lane: self.free_lanes@[self.free_lanes@.len() - 1 - k],
                    backfill: BackfillClass::Plain,
                },
        )
    }

    /// Deal the free lanes to the queue, in order.
    fn deal_free_lanes(&mut self, queue: &Vec<usize>, events: &mut Vec<SchedEvent>)
        requires
            old(self).wf(),
            old(self).settled(),
            is_lane_queue(old(self).requests@, queue@),
            queue@.len() > 0,
            old(self).free_lanes@.len() > 0,
        ensures
            final(self).wf(),
            final(self).settled(),
            longer(old(events)@, final(events)@),
            moves_told(old(self).requests@, final(self).requests@, old(events)@, final(events)@),
            // As many as there are lanes for, and no one out of turn.
            exists|n: int| #[trigger]
                final(self).dealt_in_order(*old(self), queue@, n) && (n == queue@.len() || n
                    == old(self).free_lanes@.len()) && final(events)@ == old(events)@
                    + old(self).dealt_events(queue@, n),
            // A protection of the head that was dealt is over.
            final(self).protection == (if old(self).protection matches Some(p)
                && p.head_request_id == old(self).requests@[queue@[0] as int].id {
                None
            } else {
                old(self).protection
            }),
    {
        let ghost before = *self;
        let ghost first_events = events@;
        proof {
            assert(before.requests@.len() == before.requests.len());
            lane_queue_is_queued(before.requests@, queue@);
        }
        let head_id: RequestId = self.requests[queue[0]].id;
        let mut n: usize = 0;
        proof {
            assert(before.free_lanes@.take(before.free_lanes@.len() as int) =~= before.free_lanes@);
            assert(events@ =~= first_events + before.dealt_events(queue@, 0));
        }
        while n < queue.len() && self.fits(queue[n])
            invariant
                events@ == first_events + before.dealt_events(queue@, n as int),
                before == *old(self),
                first_events == old(events)@,
                self.wf(),
                self.settled(),
                n <= queue@.len(),
                self.dealt_in_order(before, queue@, n as int),
                self.protection == before.protection,
                longer(first_events, events@),
                forall|k: int|
                    0 <= k < queue@.len() ==> (#[trigger] queue@[k]) < before.requests@.len()
                        && queued(before.requests@[queue@[k] as int]),
                forall|a: int, b: int|
                    0 <= a < b < queue@.len() ==> #[trigger] queue@[a] != #[trigger] queue@[b],
            ensures
                n == queue@.len() || self.free_lanes@.len() == 0,
            decreases queue@.len() - n,
        {
            let ghost middle = *self;
            proof {
                let q = queue@[n as int] as int;
                if queue@.take(n as int).contains(q as usize) {
                    let k = choose|k: int| 0 <= k < n && queue@.take(n as int)[k] == q as usize;
                    assert(queue@[k] == queue@[n as int]);
                }
                assert(self.requests@[q] == before.requests@[q]);
            }
            let _ = self.try_admit(queue[n], BackfillClass::Plain, events);
            proof {
                let m = n + 1;
                let free = before.free_lanes@;
                assert(middle.free_lanes@.drop_last() =~= free.take(free.len() - m));
                assert(middle.free_lanes@.last() == free[free.len() - 1 - n]);
                assert(events@ =~= first_events + before.dealt_events(queue@, m));
                assert forall|k: int| 0 <= k < m implies self.requests@[(
                #[trigger] queue@[k]) as int] == (Request {
                    state: RequestState::Running,
                    lane: Some(free[free.len() - 1 - k]),
                    backfill_class: BackfillClass::Plain,
                    backfill_epoch: 0,
                    ..before.requests@[queue@[k] as int]
                }) by {
                    if k < n {
                        assert(queue@[k] != queue@[n as int]);
                        assert(self.requests@[queue@[k] as int] == middle.requests@[queue@[k] as int]);
                    }
                }
                assert forall|i: int|
                    0 <= i < before.requests@.len() && !queue@.take(m).contains(
                        i as usize,
                    ) implies #[trigger] self.requests@[i] == before.requests@[i] by {
                    assert(queue@.take(m)[n as int] == queue@[n as int]);
                    if queue@.take(n as int).contains(i as usize) {
                        let k = choose|k: int|
                            0 <= k < n && queue@.take(n as int)[k] == i as usize;
                        assert(queue@.take(m)[k] == i as usize);
                    }
                    assert(self.requests@[i] == middle.requests@[i]);
                }
            }
            n = n + 1;
        }
        let is_head: bool = match &self.protection {
            Some(p) => p.head_request_id == head_id,
            None => false,
        };
        let ghost dealt = *self;
        if is_head {
            self.protection = None;
            proof {
                self.protection_cleared(dealt);
            }
        }
        proof {
            assert(self.dealt_in_order(before, queue@, n as int));
            assert forall|i: int|
                0 <= i < before.requests@.len() && (#[trigger] self.requests@[i]).state
                    != before.requests@[i].state implies is_told(
                first_events,
                events@,
                before.requests@[i].id,
                self.requests@[i].state,
            ) by {
                let front = queue@.take(n as int);
                assert(front.contains(i as usize));
                let k = choose|k: int| 0 <= k < front.len() && front[k] == i as usize;
                assert(queue@[k] == i as usize);
                assert(events@[first_events.len() + k] == before.dealt_events(queue@, n as int)[k]);
                assert(tells(
                    events@[first_events.len() + k],
                    before.requests@[i].id,
                    RequestState::Running,
                ));
            }
        }
    }

    /// Clearing a protection keeps the invariant.
    proof fn protection_cleared(self, before: Self)
        requires
            before.wf(),
            self == (ConcreteScheduler { protection: self.protection, ..before }),
            self.protection matches Some(p) ==> lane_only(p.head_resources),
        ensures
            self.wf(),
            before.settled() ==> self.settled(),
    {
        assert forall|p: PrefixId| #[trigger]
            self.prefix.refs(p) == crate::ledger::standing(self.requests@, p)
                + crate::ledger::holding(self.checkpoints.entries@, p) + crate::ledger::debt(
                Seq::empty(),
                p,
            ) by {
            assert(before.prefix.refs(p) == self.prefix.refs(p));
        }
        assert forall|i: int| 0 <= i < self.requests@.len() implies request_ok(
            #[trigger] self.requests@[i],
            self.config,
            self.prefix.entries@,
        ) by {
            assert(request_ok(before.requests@[i], before.config, before.prefix.entries@));
        }
    }
}

/// What is left of `capacity` once `pinned` pages are taken and `back` of them
/// could be returned.
pub open spec fn pages_left(capacity: int, pinned: int, back: int) -> int {
    let gone = if pinned > back { pinned - back } else { 0 };
    if capacity > gone {
        capacity - gone
    } else {
        0
    }
}

impl<C: Compute, K: Clock> ConcreteScheduler<C, K> {
    /// The protection arithmetic over the active set can be counted.
    proof fn active_is_countable(self, head: AdmissionResources, active: Seq<ActiveAdmissionSnapshot>)
        requires
            self.wf(),
            lane_only(head),
            active == active_in(self.requests@, self.requests@.len() as int),
        ensures
            all_lane_only(active),
            active.len() <= N_DECODE_LANES,
            crate::admission::frontier_countable(head, active),
    {
        self.active_is_lanes(self.requests@.len() as int);
        assert forall|k: int|
            0 <= k <= active.len() && crate::admission::all_in_progress(
                active.take(k),
            ) implies #[trigger] head.demand().plus(held(active.take(k))).countable() by {
            assert forall|j: int| 0 <= j < active.take(k).len() implies lane_only(
                (#[trigger] active.take(k)[j]).resources,
            ) by {
                assert(lane_only(active[j].resources));
            }
            lane_only_holds(active.take(k), |s: ActiveAdmissionSnapshot| true);
        }
    }

    /// Open a protection for the blocked head over the active set; `false`
    /// where none can be frozen.
    fn open_protection(
        &mut self,
        head: usize,
        active: &Vec<ActiveAdmissionSnapshot>,
        events: &mut Vec<SchedEvent>,
    ) -> (opened: bool)
        requires
            old(self).wf(),
            head < old(self).requests@.len(),
            old(self).protection is None,
            old(self).protection_epoch <= old(self).tick,
            old(self).protection_epoch < u64::MAX,
            active@ == active_in(old(self).requests@, old(self).requests@.len() as int),
        ensures
            final(self).wf(),
            old(self).settled() ==> final(self).settled(),
            longer(old(events)@, final(events)@),
            // It is opened while every lane has work left.
            opened <==> active@.len() == N_DECODE_LANES,
            !opened ==> *final(self) == *old(self) && final(events)@ == old(events)@,
            opened ==> *final(self) == (ConcreteScheduler {
                protection: final(self).protection,
                protection_epoch: (old(self).protection_epoch + 1) as u64,
                ..*old(self)
            }),
            // The head is blocked by donors whose release lets it in.
            opened ==> (final(self).protection matches Some(p) && old(self).opens_for(
                head as int,
                p,
                old(events)@,
                final(events)@,
            )),
    {
        let ghost before = *self;
        proof {
            assert(request_ok(
                self.requests@[head as int],
                self.config,
                self.prefix.entries@,
            ));
            self.active_is_countable(
                active_snapshot(self.requests@[head as int]).resources,
                active@,
            );
        }
        let available = self.available_capacity();
        let head_id: RequestId = self.requests[head].id;
        proof {
            lane_only_counts(active@);
            lane_only_holds(active@, |s: ActiveAdmissionSnapshot| true);
            active_have_work(self.requests@, self.requests@.len() as int);
        }
        match make_admission_protection(
            self.protection_epoch,
            head_id,
            Self::deal_only(&self.requests[head]),
            active.as_slice(),
            &available,
        ) {
            Err(_) => false,
            Ok(protection) => {
                let donors = protection.donor_ids.clone();
                assert(donors@ =~= protection.donor_ids@);
                proof {
                    lanes_alone_decide(
                        protection,
                        self.protection_epoch,
                        head_id,
                        active_snapshot(self.requests@[head as int]).resources,
                        active@,
                        available,
                        self.capacity,
                    );
                }
                events.push(
                    SchedEvent::Protected { epoch: protection.epoch_id, head: head_id, donors },
                );
                self.protection_epoch = self.protection_epoch + 1;
                self.protection = Some(protection);
                proof {
                    self.protection_moved(before);
                }
                true
            },
        }
    }

    /// A new protection and a later epoch keep the invariant.
    proof fn protection_moved(self, before: Self)
        requires
            before.wf(),
            self == (ConcreteScheduler {
                protection: self.protection,
                protection_epoch: self.protection_epoch,
                ..before
            }),
            self.protection matches Some(p) ==> lane_only(p.head_resources),
            before.protection_epoch <= self.protection_epoch <= self.tick + 1,
        ensures
            self.wf(),
            before.settled() ==> self.settled(),
    {
        assert forall|p: PrefixId| #[trigger]
            self.prefix.refs(p) == crate::ledger::standing(self.requests@, p)
                + crate::ledger::holding(self.checkpoints.entries@, p) + crate::ledger::debt(
                Seq::empty(),
                p,
            ) by {
            assert(before.prefix.refs(p) == self.prefix.refs(p));
        }
        assert forall|i: int| 0 <= i < self.requests@.len() implies request_ok(
            #[trigger] self.requests@[i],
            self.config,
            self.prefix.entries@,
        ) by {
            assert(request_ok(before.requests@[i], before.config, before.prefix.entries@));
        }
    }

    /// Once the protected head fits without the temporal borrowers of its
    /// epoch, no new backfill is admitted.
    fn drain_when_safe(&mut self, active: &Vec<ActiveAdmissionSnapshot>)
        requires
            old(self).wf(),
            active@ == active_in(old(self).requests@, old(self).requests@.len() as int),
        ensures
            final(self).wf(),
            old(self).settled() ==> final(self).settled(),
            *final(self) == (ConcreteScheduler {
                protection: final(self).protection,
                ..*old(self)
            }),
            old(self).protection is None ==> final(self).protection is None,
            old(self).protection matches Some(p) ==> (final(self).protection matches Some(q) && q
                == drained(p, active@)),
    {
        let ghost before = *self;
        let available = self.available_capacity();
        let safe: bool = match &self.protection {
            None => false,
            Some(p) => {
                proof {
                    self.active_is_countable(p.head_resources, active@);
                    lane_only_holds(active@, not_a_borrower(*p));
                }
                protected_head_safe_without_temporal(p, active.as_slice(), &available)
            },
        };
        if safe {
            if let Some(mut p) = self.protection.take() {
                p.phase = ProtectionPhase::Drain;
                self.protection = Some(p);
            }
        }
        proof {
            self.protection_moved(before);
        }
    }

    /// Open a protection for the blocked head where none stands, and drain the
    /// one that stands once it may. Whether one stands.
    fn protect_head(
        &mut self,
        head: usize,
        active: &Vec<ActiveAdmissionSnapshot>,
        events: &mut Vec<SchedEvent>,
    ) -> (stands: bool)
        requires
            old(self).wf(),
            old(self).settled(),
            head < old(self).requests@.len(),
            old(self).protection_epoch <= old(self).tick,
            old(self).protection_epoch < u64::MAX,
            active@ == active_in(old(self).requests@, old(self).requests@.len() as int),
        ensures
            final(self).wf(),
            final(self).settled(),
            longer(old(events)@, final(events)@),
            stands == (old(self).protection is Some || active@.len() == N_DECODE_LANES),
            !stands ==> *final(self) == *old(self) && final(events)@ == old(events)@,
            stands ==> final(self).protects(
                *old(self),
                head as int,
                old(events)@,
                final(events)@,
            ),
    {
        let ghost before = *self;
        let ghost first_events = events@;
        if self.protection.is_none() {
            if !self.open_protection(head, active, events) {
                return false;
            }
        }
        let ghost opened = self.protection->Some_0;
        self.drain_when_safe(active);
        proof {
            if before.protection is None {
                assert(before.opens_for(head as int, opened, first_events, events@));
            }
        }
        true
    }

    /// `p` is the protection opened for the head, and how that is reported: its
    /// epoch, and the donors whose release lets the head in.
    pub open spec fn opens_for(
        self,
        head: int,
        p: AdmissionProtection,
        first: Seq<SchedEvent>,
        last: Seq<SchedEvent>,
    ) -> bool {
        let r = self.requests@[head];
        &&& is_protection_of(
            p,
            self.protection_epoch,
            r.id,
            active_snapshot(r).resources,
            active_in(self.requests@, self.requests@.len() as int),
            self.capacity,
        )
        &&& longer(first, last)
        &&& last.len() == first.len() + 1
        &&& last.last() matches SchedEvent::Protected { epoch, head: id, donors } && epoch
            == self.protection_epoch && id == r.id && donors@ == p.donor_ids@
    }

    /// A protection stands: the one that stood, looked at again, or a new one
    /// opened for the head while every lane has work left.
    pub open spec fn protects(
        self,
        before: Self,
        head: int,
        first: Seq<SchedEvent>,
        last: Seq<SchedEvent>,
    ) -> bool {
        let active = active_in(before.requests@, before.requests@.len() as int);
        match before.protection {
            Some(p) => {
                &&& self == (ConcreteScheduler {
                    protection: Some(drained(p, active)),
                    ..before
                })
                &&& last == first
            },
            None => {
                &&& active.len() == N_DECODE_LANES
                &&& exists|p: AdmissionProtection| #[trigger]
                    before.opens_for(head, p, first, last) && self == (ConcreteScheduler {
                        protection: Some(drained(p, active)),
                        protection_epoch: (before.protection_epoch + 1) as u64,
                        ..before
                    })
            },
        }
    }

    /// The head was dealt the last free lane, or, where none is free, nobody
    /// was dealt any.
    pub open spec fn head_served(
        self,
        freed: Self,
        head: int,
        first: Seq<SchedEvent>,
        last: Seq<SchedEvent>,
    ) -> bool {
        if freed.free_lanes@.len() > 0 {
            &&& 0 <= head < freed.requests@.len()
            &&& self == (ConcreteScheduler {
                requests: self.requests,
                free_lanes: self.free_lanes,
                protection: None,
                ..freed
            })
            &&& self.free_lanes@ == freed.free_lanes@.drop_last()
            &&& self.requests@ == freed.requests@.update(
                head,
                freed.dealt_request(head, BackfillClass::Plain),
            )
            &&& last == first.push(
                SchedEvent::Admitted {
                    request: freed.requests@[head].id,
                    lane: freed.free_lanes@.last(),
                    backfill: BackfillClass::Plain,
                },
            )
        } else {
            self == freed && last == first
        }
    }

    /// A blocked head's turn: nothing where no protection stands or can be
    /// opened; otherwise it is protected, victims make way for it, and it is
    /// dealt a lane if one came free. Each is reported as it happens.
    #[verifier::opaque]
    pub open spec fn head_had_its_turn(
        self,
        before: Self,
        head: int,
        first: Seq<SchedEvent>,
        last: Seq<SchedEvent>,
    ) -> bool {
        let active = active_in(before.requests@, before.requests@.len() as int);
        if before.protection is None && active.len() != N_DECODE_LANES {
            self == before && last == first
        } else {
            exists|protected: Self, opened: Seq<SchedEvent>, freed: Self, told: Seq<SchedEvent>|
                protected.protects(before, head, first, opened) && #[trigger] freed.made_way(
                    protected,
                    None,
                    Some(head as usize),
                    opened,
                    told,
                ) && grew(opened, told) && spared(before.requests@, opened, told)
                    && #[trigger] self.head_served(freed, head, told, last)
        }
    }

    proof fn turn_was_had(
        self,
        freed: Self,
        protected: Self,
        before: Self,
        head: usize,
        first: Seq<SchedEvent>,
        opened: Seq<SchedEvent>,
        told: Seq<SchedEvent>,
        last: Seq<SchedEvent>,
    )
        requires
            before.protection is Some || active_in(
                before.requests@,
                before.requests@.len() as int,
            ).len() == N_DECODE_LANES,
            protected.protects(before, head as int, first, opened),
            freed.made_way(protected, None, Some(head), opened, told),
            grew(opened, told),
            spared(before.requests@, opened, told),
            self.head_served(freed, head as int, told, last),
        ensures
            self.head_had_its_turn(before, head as int, first, last),
    {
        reveal(ConcreteScheduler::head_had_its_turn);
        assert(head as int as usize == head);
    }

    /// What became of a head's protection when victims were sought for it: it
    /// stands, unless the request it was for gave way itself.
    proof fn protection_of_head(
        self,
        protected: Self,
        before: Self,
        head: int,
        first: Seq<SchedEvent>,
        opened: Seq<SchedEvent>,
    )
        requires
            before.wf(),
            0 <= head < before.requests@.len(),
            queued(before.requests@[head]),
            protected.protects(before, head, first, opened),
            self.only_evictions(protected, head),
            self.requests@[head] == before.requests@[head],
        ensures
            self.protection == protected.protection || (before.protection is Some
                && self.protection is None && exists|i: int| #[trigger]
                self.lost_protected(before, i)),
    {
        if self.protection != protected.protection {
            let i = choose|i: int| #[trigger] self.lost_protected(protected, i);
            match before.protection {
                Some(_) => {
                    assert(self.lost_protected(before, i));
                },
                None => {
                    if i < head {
                        assert(before.requests@[i].id < before.requests@[head].id);
                    } else if head < i {
                        assert(before.requests@[head].id < before.requests@[i].id);
                    }
                },
            }
        }
    }

    /// The head is blocked: open or keep its protection, take a lane from a
    /// victim if one can be had, and otherwise admit only what fits the head's
    /// future.
    fn hold_for_head(&mut self, queue: &Vec<usize>, events: &mut Vec<SchedEvent>)
        requires
            old(self).wf(),
            old(self).settled(),
            old(self).protection_epoch <= old(self).tick,
            old(self).protection_epoch < u64::MAX,
            is_lane_queue(old(self).requests@, queue@),
            queue@.len() > 0,
            old(self).free_lanes@.len() == 0,
        ensures
            final(self).wf(),
            final(self).settled(),
            longer(old(events)@, final(events)@),
            moves_told(old(self).requests@, final(self).requests@, old(events)@, final(events)@),
            final(self).held_back(*old(self), queue@[0] as int),
            final(self).head_had_its_turn(
                *old(self),
                queue@[0] as int,
                old(events)@,
                final(events)@,
            ),
    {
        let ghost before = *self;
        proof {
            assert(before.requests@.len() == before.requests.len());
            lane_queue_is_queued(before.requests@, queue@);
        }
        let head: usize = queue[0];
        let active = self.active_admission_set();
        if !self.protect_head(head, &active, events) {
            reveal(ConcreteScheduler::head_had_its_turn);
            return;
        }
        let ghost protected = *self;
        let ghost opened = events@;
        let freed: bool = self.try_evict_for_head(head, events);
        proof {
            assert(queued(self.requests@[head as int]));
            self.evictions_settle(protected, head as int);
        }
        proof {
            self.protection_of_head(
                protected,
                before,
                head as int,
                old(events)@,
                opened,
            );
        }
        let ghost first_events = old(events)@;
        proof {
            assert(longer(first_events, opened));
            assert forall|i: int| 0 <= i < before.requests@.len() && (
            #[trigger] self.requests@[i]).state != before.requests@[i].state implies is_told(
                first_events,
                events@,
                before.requests@[i].id,
                self.requests@[i].state,
            ) by {
                told_longer(
                    first_events,
                    opened,
                    events@,
                    events@,
                    before.requests@[i].id,
                    self.requests@[i].state,
                );
            }
        }
        let ghost until = events@;
        let ghost evicted = *self;
        if freed {
            let _ = self.try_admit(head, BackfillClass::Plain, events);
            let ghost dealt = *self;
            self.protection = None;
            proof {
                self.protection_cleared(dealt);
                self.turn_was_had(
                    evicted,
                    protected,
                    before,
                    head,
                    first_events,
                    opened,
                    until,
                    events@,
                );
                assert forall|i: int| 0 <= i < before.requests@.len() && i != head implies (
                #[trigger] self.requests@[i] == before.requests@[i] || (crate::eviction::gave_way(
                    before.requests@[i],
                    self.requests@[i],
                    before.config,
                ) && (crate::eviction::suspendable(before.requests@[i]) || before.requests@[i].state
                    == RequestState::Evicted))) by {
                    assert(self.requests@[i] == evicted.requests@[i]);
                }
                assert forall|i: int| 0 <= i < before.requests@.len() && (
                #[trigger] self.requests@[i]).state != before.requests@[i].state implies is_told(
                    first_events,
                    events@,
                    before.requests@[i].id,
                    self.requests@[i].state,
                ) by {
                    if i == head {
                        assert(tells(
                            events@[until.len() as int],
                            before.requests@[i].id,
                            RequestState::Running,
                        ));
                    } else {
                        assert(self.requests@[i] == evicted.requests@[i]);
                        told_longer(
                            first_events,
                            first_events,
                            until,
                            events@,
                            before.requests@[i].id,
                            self.requests@[i].state,
                        );
                    }
                }
            }
            return;
        }
        proof {
            self.turn_was_had(
                evicted,
                protected,
                before,
                head,
                first_events,
                opened,
                until,
                events@,
            );
        }
        let frontier: u64 = match &self.protection {
            Some(p) => {
                if p.phase == ProtectionPhase::Open {
                    protection_frontier_distance(p, active.as_slice())
                } else {
                    return;
                }
            },
            None => {
                return;
            },
        };
        proof {
            before.active_is_countable(
                AdmissionResources { lanes: 1, kv_pages: 0, backend_pages: 0 },
                active@,
            );
        }
        self.backfill_behind_head(queue, &active, frontier, events);
    }

    /// What backfilling may do: deal free lanes to queued requests as
    /// persistent or temporal backfills of the standing protection, spending
    /// its credit on the temporal ones.
    pub open spec fn only_backfills(self, before: Self) -> bool {
        &&& self == (ConcreteScheduler {
            requests: self.requests,
            free_lanes: self.free_lanes,
            protection: self.protection,
            ..before
        })
        &&& self.requests@.len() == before.requests@.len()
        &&& forall|i: int|
            0 <= i < before.requests@.len() ==> (#[trigger] self.requests@[i]
                == before.requests@[i] || (queued(before.requests@[i]) && self.requests@[i].state
                == RequestState::Running && self.requests@[i].backfill_class
                != BackfillClass::Plain && self.requests@[i] == (Request {
                state: RequestState::Running,
                lane: self.requests@[i].lane,
                backfill_class: self.requests@[i].backfill_class,
                backfill_epoch: self.requests@[i].backfill_epoch,
                ..before.requests@[i]
            })))
        &&& before.protection is None ==> self.protection is None
        &&& before.protection matches Some(p) ==> (self.protection matches Some(q) && q == (
        AdmissionProtection { temporal_credit: q.temporal_credit, ..p })
            && q.temporal_credit <= p.temporal_credit)
    }

    /// Admit what fits behind a blocked head: persistently where the head's
    /// future has room for it, temporarily where its work is done before the
    /// last donor's and the credit covers it.
    fn backfill_behind_head(
        &mut self,
        queue: &Vec<usize>,
        active: &Vec<ActiveAdmissionSnapshot>,
        frontier: u64,
        events: &mut Vec<SchedEvent>,
    )
        requires
            old(self).wf(),
            old(self).settled(),
            all_lane_only(active@),
            active@.len() <= N_DECODE_LANES,
            forall|k: int|
                0 <= k < queue@.len() ==> (#[trigger] queue@[k]) < old(self).requests@.len(),
        ensures
            final(self).wf(),
            final(self).settled(),
            longer(old(events)@, final(events)@),
            final(self).only_backfills(*old(self)),
            // With every lane held, no one behind the head fits.
            old(self).free_lanes@.len() == 0 ==> *final(self) == *old(self) && final(events)@
                == old(events)@,
    {
        let ghost before = *self;
        let ghost first_events = events@;
        let mut n: usize = 1;
        while n < queue.len()
            invariant
                before == *old(self),
                first_events == old(events)@,
                self.wf(),
                self.settled(),
                all_lane_only(active@),
                active@.len() <= N_DECODE_LANES,
                1 <= n,
                forall|k: int|
                    0 <= k < queue@.len() ==> (#[trigger] queue@[k]) < before.requests@.len(),
                longer(first_events, events@),
                self.only_backfills(before),
                before.free_lanes@.len() == 0 ==> *self == before && events@ == first_events,
            decreases queue@.len() - n,
        {
            let c: usize = queue[n];
            let waiting: bool = self.requests[c].state == RequestState::Prefilling
                && self.requests[c].prefill_complete();
            if waiting && self.fits(c) {
                self.backfill_one(c, active, frontier, events);
            }
            n = n + 1;
        }
    }

    /// The queued request at `c` was dealt the last free lane as a `backfill`,
    /// leaving the protection `p`.
    pub open spec fn backfilled(
        self,
        before: Self,
        c: int,
        backfill: BackfillClass,
        p: AdmissionProtection,
        first: Seq<SchedEvent>,
        last: Seq<SchedEvent>,
    ) -> bool {
        &&& self == (ConcreteScheduler {
            requests: self.requests,
            free_lanes: self.free_lanes,
            protection: Some(p),
            ..before
        })
        &&& self.free_lanes@ == before.free_lanes@.drop_last()
        &&& self.requests@ == before.requests@.update(c, before.dealt_request(c, backfill))
        &&& last == first.push(
            SchedEvent::Admitted {
                request: before.requests@[c].id,
                lane: before.free_lanes@.last(),
                backfill,
            },
        )
    }

    /// Admit the queued request at `c` as a backfill, if it is safe as one.
    fn backfill_one(
        &mut self,
        c: usize,
        active: &Vec<ActiveAdmissionSnapshot>,
        frontier: u64,
        events: &mut Vec<SchedEvent>,
    )
        requires
            old(self).wf(),
            old(self).settled(),
            all_lane_only(active@),
            active@.len() <= N_DECODE_LANES,
            c < old(self).requests@.len(),
            queued(old(self).requests@[c as int]),
            old(self).free_lanes@.len() > 0,
        ensures
            final(self).wf(),
            final(self).settled(),
            longer(old(events)@, final(events)@),
            final(self).only_backfills(*old(self)),
            match old(self).protection {
                None => *final(self) == *old(self) && final(events)@ == old(events)@,
                Some(p) => {
                    let work = old(self).requests@[c as int].remaining_work;
                    if persists_beside(p, active@) {
                        final(self).backfilled(
                            *old(self),
                            c as int,
                            BackfillClass::Persistent,
                            p,
                            old(events)@,
                            final(events)@,
                        )
                    } else if work <= frontier && work <= p.temporal_credit {
                        // A temporal backfill spends its own work out of the credit.
                        final(self).backfilled(
                            *old(self),
                            c as int,
                            BackfillClass::Temporal,
                            AdmissionProtection {
                                temporal_credit: (p.temporal_credit - work) as u64,
                                ..p
                            },
                            old(events)@,
                            final(events)@,
                        )
                    } else {
                        *final(self) == *old(self) && final(events)@ == old(events)@
                    }
                },
            },
    {
        let ghost before = *self;
        proof {
            assert(request_ok(
                self.requests@[c as int],
                self.config,
                self.prefix.entries@,
            ));
        }
        let asked = Self::deal_only(&self.requests[c]);
        let available = self.available_capacity();
        let work: u64 = self.requests[c].remaining_work;
        let safe: bool = match &self.protection {
            Some(p) => {
                proof {
                    lane_only_holds(active@, crate::admission::stays_beside_the_head(*p));
                }
                persistent_backfill_is_safe(p, active.as_slice(), &asked, &available)
            },
            None => false,
        };
        if safe {
            let _ = self.try_admit(c, BackfillClass::Persistent, events);
        } else if let Some(mut p) = self.protection.take() {
            let borrows: bool = work <= frontier && work <= p.temporal_credit;
            if borrows {
                p.temporal_credit = p.temporal_credit - work;
            }
            self.protection = Some(p);
            proof {
                self.protection_moved(before);
            }
            if borrows {
                let _ = self.try_admit(c, BackfillClass::Temporal, events);
            }
        } else {
            proof {
                self.protection_moved(before);
            }
        }
    }

    /// Evictions leave nothing resident ahead of its first chunk.
    proof fn evictions_settle(self, before: Self, exclude: int)
        requires
            self.only_evictions(before, exclude),
            before.settled(),
        ensures
            self.settled(),
    {
        assert forall|j: int|
            0 <= j < self.requests@.len() && (#[trigger] self.requests@[j]).state
                == RequestState::Admitted implies !self.requests@[j].resident by {
            assert(self.requests@[j] == before.requests@[j] || crate::eviction::gave_way(
                before.requests@[j],
                self.requests@[j],
                before.config,
            ));
        }
    }

    /// What a blocked head's turn may do: deal the head a victim's lane, or
    /// deal nobody. No one overtakes it.
    pub open spec fn held_back(self, before: Self, head: int) -> bool {
        &&& self.config == before.config
        &&& self.compute == before.compute
        &&& self.clock == before.clock
        &&& self.capacity == before.capacity
        &&& self.next_id == before.next_id
        &&& self.tick == before.tick
        &&& self.last_error == before.last_error
        &&& self.reported_slots == before.reported_slots
        &&& self.requests@.len() == before.requests@.len()
        // Where no protection stands, one is opened while every lane has work
        // left, and nothing happens otherwise.
        &&& before.protection is None && active_in(
            before.requests@,
            before.requests@.len() as int,
        ).len() < N_DECODE_LANES ==> self == before
        &&& self.protection_epoch == before.protection_epoch + (if before.protection is None
            && active_in(before.requests@, before.requests@.len() as int).len()
            == N_DECODE_LANES {
            1int
        } else {
            0
        })
        &&& before.protection is None && active_in(
            before.requests@,
            before.requests@.len() as int,
        ).len() == N_DECODE_LANES ==> self.requests@[head].state == RequestState::Running || (
        self.protection matches Some(p) && p.head_request_id == before.requests@[head].id
            && exists|q: AdmissionProtection| #[trigger]
            is_protection_of(
                q,
                before.protection_epoch,
                before.requests@[head].id,
                active_snapshot(before.requests@[head]).resources,
                active_in(before.requests@, before.requests@.len() as int),
                before.capacity,
            ) && p == drained(q, active_in(before.requests@, before.requests@.len() as int)))
        // A protection that stood is looked at; it goes with its own request or
        // once the head runs.
        &&& before.protection matches Some(p) ==> self.requests@[head].state
            == RequestState::Running || self.protection == Some(
            drained(p, active_in(before.requests@, before.requests@.len() as int)),
        ) || (self.protection is None && exists|i: int| #[trigger] self.lost_protected(before, i))
        &&& forall|i: int|
            0 <= i < before.requests@.len() && i != head ==> (#[trigger] self.requests@[i]
                == before.requests@[i] || (crate::eviction::gave_way(
                before.requests@[i],
                self.requests@[i],
                before.config,
            ) && (crate::eviction::suspendable(before.requests@[i]) || before.requests@[i].state
                == RequestState::Evicted)))
        &&& self.requests@[head] == before.requests@[head] || (self.requests@[head] == (Request {
            state: RequestState::Running,
            lane: self.requests@[head].lane,
            backfill_class: BackfillClass::Plain,
            backfill_epoch: 0,
            ..before.requests@[head]
        }) && self.protection is None)
    }

    /// What dealing lanes to `queue` comes to: nothing for an empty one; as
    /// many lanes as are free, in order, a protection of the first being over;
    /// or a blocked head's turn.
    #[verifier::opaque]
    pub open spec fn dealt(
        self,
        before: Self,
        queue: Seq<usize>,
        first: Seq<SchedEvent>,
        last: Seq<SchedEvent>,
    ) -> bool {
        ||| queue.len() == 0 && self == before && last == first
        ||| queue.len() > 0 && before.free_lanes@.len() > 0 && exists|n: int| #[trigger]
            self.dealt_in_order(before, queue, n) && (n == queue.len() || n
                == before.free_lanes@.len()) && last == first + before.dealt_events(queue, n)
                && self.protection == (if before.protection matches Some(p) && p.head_request_id
                == before.requests@[queue[0] as int].id {
                None
            } else {
                before.protection
            })
        ||| queue.len() > 0 && before.free_lanes@.len() == 0 && self.held_back(
            before,
            queue[0] as int,
        ) && self.head_had_its_turn(before, queue[0] as int, first, last)
    }

    /// The admission state machine: deal free lanes to the queue in order, or
    /// hold everyone for a blocked head.
    pub(crate) fn run_admission(&mut self, events: &mut Vec<SchedEvent>)
        requires
            old(self).wf(),
            old(self).settled(),
            old(self).protection_epoch <= old(self).tick,
            old(self).protection_epoch < u64::MAX,
        ensures
            final(self).wf(),
            final(self).settled(),
            longer(old(events)@, final(events)@),
            moves_told(old(self).requests@, final(self).requests@, old(events)@, final(events)@),
            exists|queue: Seq<usize>| #[trigger]
                is_lane_queue(old(self).requests@, queue) && final(self).dealt(
                    *old(self),
                    queue,
                    old(events)@,
                    final(events)@,
                ),
    {
        reveal(ConcreteScheduler::dealt);
        let queue = self.lane_queue();
        if queue.len() == 0 {
            return;
        }
        proof {
            assert(self.requests@.len() == self.requests.len());
            lane_queue_is_queued(self.requests@, queue@);
        }
        if self.fits(queue[0]) {
            self.deal_free_lanes(&queue, events);
        } else {
            self.hold_for_head(&queue, events);
        }
    }
}

/// No one behind a blocked head is dealt a lane.
pub proof fn no_one_overtakes_a_blocked_head<C: Compute, K: Clock>(
    before: ConcreteScheduler<C, K>,
    after: ConcreteScheduler<C, K>,
    head: int,
    i: int,
)
    requires
        after.held_back(before, head),
        0 <= i < before.requests@.len(),
        i != head,
        before.requests@[i].state != RequestState::Running,
    ensures
        after.requests@[i].state != RequestState::Running,
{
}

} // verus!
