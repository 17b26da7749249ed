//! The concrete scheduler: resident lanes, chunked prefill, admission,
//! eviction to host memory and cross-request reuse.
//!
//! One `advance` runs, in order: the cancellation sweep; at most one prefill
//! step; the finish of prefilled decisions; restores from host memory; the
//! admission state machine; one decode round over every running lane; and
//! restores again. This module holds the scheduler's state, its invariant and
//! its observers; the phases live in the modules beside it.
//!
//! The invariant ties the ledgers together. Lanes are free or held by exactly
//! one request. Every KV page in use is charged exactly once: to the resident
//! request that reserved it, to the shared prefix it was published as, or to
//! the checkpoint whose tail it is; the pool is never overrun. Every reference
//! on a shared prefix is a live request's, a device checkpoint's, its own
//! retention's or a chained prefix's. A request is suspended exactly while the
//! host tier holds its snapshot.

use crate::admission::{AdmissionProtection, AdmissionResources};
use crate::checkpoint::{CheckpointCounters, CheckpointPool, ResidencyTier, ReuseSource, TierList};
use crate::host::{HostEntry, HostTier, ResumePhase, DEFAULT_RETAINED_INTERACTIVE_TTL};
use crate::identity::{ArtifactHash, BlobIdentity};
use crate::ledger::{
    charged, debt, device_images, flying, holding, lanes_add_up, requests_ascend, residents,
    standing, tally_bounds,
};
use crate::plan::{
    budget, full_pages, SchedulerConfig, DEFAULT_SERVING_CHUNK_TOKENS, MAX_PREFILL_ATTEMPTS,
};
use crate::prefix::{
    entry_of, retained_count, whole_pages, DroppedPrefix, PrefixCache, PrefixEntry,
};
use crate::request::Request;
use crate::retained_slot::RetainedSlotLedger;
use crate::scheduler::{Clock, Compute, Occupancy, SystemClock};
use crate::types::{
    ComputeError, EngineMode, LaneId, PrefixId, RequestId, RequestState, N_DECODE_LANES,
};
use std::sync::Arc;
use vstd::prelude::*;

verus! {

/// Prompt tokens a match in host memory must reuse beyond every device reuse.
pub const KV_RAM_RESTORE_FLOOR_TOKENS: u32 = 1024;

/// The image ledger's ceiling: the retained slots are the bound that is felt.
pub const IMAGE_LEDGER_CEILING: u64 = 0x7fff_ffff_ffff_ffff;

/// The device alone.
pub open spec fn device_tier() -> Seq<ResidencyTier> {
    seq![ResidencyTier { source: ReuseSource::Device, restore_floor_tokens: 0 }]
}

/// The device, and host memory past its restore floor.
pub open spec fn with_host_tier() -> Seq<ResidencyTier> {
    seq![
        ResidencyTier { source: ReuseSource::Device, restore_floor_tokens: 0 },
        ResidencyTier {
            source: ReuseSource::KvRam,
            restore_floor_tokens: KV_RAM_RESTORE_FLOOR_TOKENS,
        },
    ]
}

/// The scheduler over `N_DECODE_LANES` resident lanes.
pub struct ConcreteScheduler<C: Compute, K: Clock> {
    pub config: SchedulerConfig,
    pub compute: Arc<C>,
    pub clock: K,
    pub next_id: RequestId,
    /// Every request ever submitted, in submission order.
    pub requests: Vec<Request>,
    pub free_lanes: Vec<LaneId>,
    /// The compute error the last advance hit, if any.
    pub last_error: Option<ComputeError>,
    /// What the machine admits against.
    pub capacity: AdmissionResources,
    /// KV pages in use.
    pub kv_used_pages: u32,
    /// Device sequence slots in use.
    pub resident_slots_used: u32,
    pub protection: Option<AdmissionProtection>,
    /// The next protection's epoch.
    pub protection_epoch: u64,
    pub host: HostTier,
    /// Advances so far.
    pub tick: u64,
    pub prefix: PrefixCache,
    pub checkpoints: CheckpointPool,
    pub retained: RetainedSlotLedger,
    /// The slot count last reported.
    pub reported_slots: u32,
    /// The device checkpoints that hold a tail page, by publisher.
    pub tail_pages: Vec<RequestId>,
}

/// One request's own ledger is in order.
pub open spec fn request_ok(r: Request, config: SchedulerConfig, entries: Seq<PrefixEntry>) -> bool {
    &&& r.input.wf()
    &&& r.input.tokens@.len() < config.max_sequence_tokens
    &&& r.input.tokens@.len() + budget(config, r.input) <= config.max_sequence_tokens
    &&& full_pages(config, r.input) <= config.kv_capacity_pages
    &&& r.resources.lanes == 1
    &&& r.resources.backend_pages == 0
    &&& r.prefill_progress <= r.input.tokens@.len()
    &&& r.publish_tokens <= r.input.tokens@.len()
    &&& r.publish_tokens % config.kv_page_tokens == 0
    // With reuse on, what is published ends no later than the opener does.
    &&& config.prompt_reuse ==> (r.input.opener_tokens matches Some(at) ==> r.publish_tokens <= at)
    // A lane is held exactly while running, and running means resident.
    &&& r.lane is Some <==> r.state == RequestState::Running
    &&& r.state == RequestState::Running ==> r.resident
    // Only a request whose whole prompt is prefilled is ever dealt one.
    &&& r.state == RequestState::Running ==> r.prefilled()
    &&& r.state == RequestState::Prefilling && r.prefilled() ==> r.resident
    &&& r.resident ==> r.state != RequestState::Evicted && r.state != RequestState::Done
    // Its own pages and the shared ones are its whole reservation.
    &&& r.state != RequestState::Done ==> r.resources.kv_pages + r.shared_pages == full_pages(
        config,
        r.input,
    )
    &&& match r.prefix_entry {
        None => r.shared_pages == 0,
        Some(p) => r.shared_pages == whole_pages(
            entry_of(entries, p).length_tokens,
            config.kv_page_tokens,
        ),
    }
    // A suspended or ended request holds no claim.
    &&& r.state == RequestState::Evicted || r.state == RequestState::Done ==> r.prefix_entry is None
        && r.kv_ram_claim is None
    &&& r.tokens + r.remaining_work <= budget(config, r.input)
    &&& r.state != RequestState::Done ==> r.prefill_failures < MAX_PREFILL_ATTEMPTS
}

/// Whether the snapshot is that of a suspended request, ready to resume it.
pub open spec fn resumes(reqs: Seq<Request>, e: HostEntry) -> bool {
    exists|i: int| #[trigger] resumes_at(reqs, e, i)
}

pub open spec fn resumes_at(reqs: Seq<Request>, e: HostEntry, i: int) -> bool {
    &&& 0 <= i < reqs.len()
    &&& reqs[i].id == e.request
    &&& reqs[i].state == RequestState::Evicted
    &&& reqs[i].resources.kv_pages == e.pages
    &&& reqs[i].prefill_progress == e.prefill_progress
    &&& reqs[i].tokens == e.tokens
    &&& reqs[i].remaining_work == e.remaining_work
    &&& reqs[i].gdn@ == e.gdn@
    &&& reqs[i].class == e.owner
    &&& e.resume_phase == ResumePhase::Running ==> reqs[i].prefilled()
}

/// Whether the tier holds a snapshot of `id`.
pub open spec fn snapshotted(live: Seq<HostEntry>, id: RequestId) -> bool {
    exists|k: int| 0 <= k < live.len() && (#[trigger] live[k]).request == id
}

/// A request is suspended exactly while the tier holds its snapshot.
pub open spec fn hosted(reqs: Seq<Request>, live: Seq<HostEntry>) -> bool {
    &&& forall|k: int| 0 <= k < live.len() ==> resumes(reqs, #[trigger] live[k])
    &&& forall|i: int|
        0 <= i < reqs.len() && (#[trigger] reqs[i]).state == RequestState::Evicted ==> snapshotted(
            live,
            reqs[i].id,
        )
}

/// Whether some request has that id.
pub open spec fn is_known(reqs: Seq<Request>, id: RequestId) -> bool {
    exists|i: int| 0 <= i < reqs.len() && (#[trigger] reqs[i]).id == id
}

/// A request is suspended exactly while the tier holds its snapshot; beside
/// those the tier may hold snapshots with no request behind them.
pub open spec fn loosely_hosted(reqs: Seq<Request>, live: Seq<HostEntry>) -> bool {
    &&& forall|k: int|
        0 <= k < live.len() ==> resumes(reqs, #[trigger] live[k]) || !is_known(
            reqs,
            live[k].request,
        )
    &&& forall|i: int|
        0 <= i < reqs.len() && (#[trigger] reqs[i]).state == RequestState::Evicted ==> snapshotted(
            live,
            reqs[i].id,
        )
}

/// A protection's head asks for a lane and nothing else.
pub open spec fn lane_only(resources: AdmissionResources) -> bool {
    resources.lanes == 1 && resources.kv_pages == 0 && resources.backend_pages == 0
}

/// What the backend is told to let go of. It answers nothing, so all there is
/// to say is that it was called, and of what.
impl<C: Compute, K: Clock> ConcreteScheduler<C, K> {
    /// It was told to drop the sequence of `request`.
    pub open spec fn sequence_freed(self, request: RequestId) -> bool {
        call_ensures(C::release, (&*self.compute, request), ())
    }

    /// It was told to free the snapshot of `request`.
    pub open spec fn snapshot_freed(self, request: RequestId) -> bool {
        call_ensures(C::discard_snapshot, (&*self.compute, request), ())
    }

    /// It was told to drop its handle on the checkpoint of `publisher`.
    pub open spec fn image_freed(self, publisher: RequestId) -> bool {
        call_ensures(C::release_checkpoint, (&*self.compute, publisher), ())
    }

    /// It was told to drop its handle on a published prefix.
    pub open spec fn head_freed(self, publisher: RequestId, tokens: u32) -> bool {
        call_ensures(C::release_prefix, (&*self.compute, publisher, tokens), ())
    }

    /// It was told to free the copy of a prefix.
    pub open spec fn copy_freed(self, publisher: RequestId, tokens: u32) -> bool {
        call_ensures(C::discard_spilled_prefix, (&*self.compute, publisher, tokens), ())
    }

    /// It was told to drop its handle on each of the prefixes that dropped.
    pub open spec fn heads_freed(self, dropped: Seq<DroppedPrefix>) -> bool {
        forall|n: int|
            0 <= n < dropped.len() ==> self.head_freed(
                (#[trigger] dropped[n]).publisher,
                dropped[n].tokens,
            )
    }
}

impl<C: Compute, K: Clock> ConcreteScheduler<C, K> {
    /// The terms the scheduler was built under hold.
    pub open spec fn terms_ok(self) -> bool {
        &&& self.config.valid()
        &&& self.capacity.lanes == N_DECODE_LANES
        &&& self.capacity.kv_pages == self.config.kv_capacity_pages
        &&& self.capacity.backend_pages == 0
        &&& self.prefix.page_tokens == self.config.kv_page_tokens
        &&& self.checkpoints.capacity_bytes == IMAGE_LEDGER_CEILING
        &&& self.checkpoints.tiers.carries(ReuseSource::Device)
        &&& self.protection matches Some(p) ==> lane_only(p.head_resources)
        &&& 1 <= self.protection_epoch <= self.tick + 1
    }

    /// Every ledger is well-formed by itself.
    pub open spec fn ledgers_ok(self) -> bool {
        &&& self.prefix.wf()
        &&& self.checkpoints.wf()
        &&& self.host.wf()
        &&& self.retained.wf()
    }

    /// Every page and every device slot in use is charged once, within
    /// capacity.
    pub open spec fn charges_ok(self) -> bool {
        &&& self.kv_used_pages == charged(self.requests@) + self.prefix.pins()
            + self.tail_pages@.len()
        &&& self.kv_used_pages <= self.capacity.kv_pages
        &&& self.resident_slots_used == residents(self.requests@)
        &&& self.resident_slots_used <= self.config.resident_slot_capacity
    }

    /// Every outside reference on a shared prefix is a request's, a device
    /// checkpoint's, or one in `owed` that is about to be let go.
    pub open spec fn refs_ok(self, owed: Seq<PrefixId>) -> bool {
        forall|p: PrefixId| #[trigger]
            self.prefix.refs(p) == standing(self.requests@, p) + holding(
                self.checkpoints.entries@,
                p,
            ) + debt(owed, p)
    }

    pub open spec fn requests_ok(self) -> bool {
        forall|i: int|
            0 <= i < self.requests@.len() ==> request_ok(
                #[trigger] self.requests@[i],
                self.config,
                self.prefix.entries@,
            )
    }

    /// With reuse off nothing is retained: no checkpoint, no prefix past its
    /// last holder, and no copy of one.
    pub open spec fn cold_without_reuse(self) -> bool {
        !self.config.prompt_reuse ==> self.checkpoints.entries@.len() == 0 && retained_count(
            self.prefix.entries@,
        ) == 0 && self.prefix.spilled@.len() == 0
    }

    /// The books balance, but for the references in `owed`, whoever the host
    /// tier holds.
    pub open spec fn books(self, owed: Seq<PrefixId>) -> bool {
        &&& self.terms_ok()
        &&& self.ledgers_ok()
        &&& self.charges_ok()
        &&& self.refs_ok(owed)
        &&& self.cold_without_reuse()
        &&& self.requests_ok()
        &&& requests_ascend(self.requests@, self.next_id)
        &&& lanes_add_up(self.requests@, self.free_lanes@)
    }

    /// The scheduler's invariant, but for the references in `owed`.
    pub open spec fn owing(self, owed: Seq<PrefixId>) -> bool {
        &&& self.books(owed)
        &&& hosted(self.requests@, self.host.live@)
    }

    /// The scheduler's invariant.
    pub open spec fn wf(self) -> bool {
        self.owing(Seq::empty())
    }

    /// The scheduler's invariant, but that the tier may hold snapshots with no
    /// request behind them.
    pub open spec fn wf_but_strangers(self) -> bool {
        &&& self.books(Seq::empty())
        &&& loosely_hosted(self.requests@, self.host.live@)
    }

    /// Between advances no request is resident before its first chunk.
    pub open spec fn settled(self) -> bool {
        forall|i: int|
            0 <= i < self.requests@.len() && (#[trigger] self.requests@[i]).state
                == RequestState::Admitted ==> !self.requests@[i].resident
    }

    /// Retained state that can still be given up on the device.
    pub open spec fn retained_bets(self) -> int {
        device_images(self.checkpoints.entries@) + retained_count(self.prefix.entries@)
    }

    /// Everything retained state is not, as it was in `before`.
    pub open spec fn only_retention_moved(self, before: Self) -> bool {
        &&& self == (ConcreteScheduler {
            prefix: self.prefix,
            checkpoints: self.checkpoints,
            retained: self.retained,
            host: self.host,
            tail_pages: self.tail_pages,
            kv_used_pages: self.kv_used_pages,
            ..before
        })
        &&& self.host.live == before.host.live
        &&& self.host.proven == before.host.proven
        &&& self.host.capacity_bytes == before.host.capacity_bytes
        &&& self.host.ttl == before.host.ttl
        &&& self.prefix.page_tokens == before.prefix.page_tokens
        &&& self.checkpoints.identity == before.checkpoints.identity
        &&& self.checkpoints.tiers == before.checkpoints.tiers
        &&& self.retained.slots@.len() == before.retained.slots@.len()
    }

    /// A scheduler with the default knobs.
    pub fn new(model: &str, compute: Arc<C>) -> (scheduler: ConcreteScheduler<C, SystemClock>)
        ensures
            scheduler.wf(),
            scheduler.settled(),
            scheduler.is_fresh(),
            scheduler.config.model@ == model@,
            scheduler.config.max_in_flight == N_DECODE_LANES,
            scheduler.config.max_prefill_batch == N_DECODE_LANES,
            scheduler.config.kv_page_tokens == 16,
            scheduler.config.max_sequence_tokens == 8192,
            scheduler.config.kv_capacity_pages == 8 * 512,
            scheduler.config.resident_slot_capacity == N_DECODE_LANES,
            scheduler.config.host_capacity_bytes == 8 * 512,
            scheduler.config.serving_chunk_tokens == DEFAULT_SERVING_CHUNK_TOKENS,
            scheduler.config.prompt_reuse,
            scheduler.config.retained_slots == N_DECODE_LANES,
            scheduler.config.retained_interactive_ttl == DEFAULT_RETAINED_INTERACTIVE_TTL,
            scheduler.compute == compute,
            call_ensures(C::blob_identity, (&*compute,), scheduler.checkpoints.identity),
            scheduler.checkpoints.tiers.order@ == with_host_tier(),
    {
        let config = SchedulerConfig { model: model.to_owned(), ..SchedulerConfig::default() };
        ConcreteScheduler::<C, SystemClock>::with_config(config, compute)
    }

    /// Nothing has been submitted, and nothing is held.
    pub open spec fn is_fresh(self) -> bool {
        &&& self.requests@.len() == 0
        &&& self.next_id == 0
        &&& self.tick == 0
        &&& self.kv_used_pages == 0
        &&& self.resident_slots_used == 0
        &&& self.protection is None
        &&& self.protection_epoch == 1
        &&& self.last_error is None
        &&& self.free_lanes@ == Seq::new(N_DECODE_LANES as nat, |i: int| i as usize)
        &&& self.prefix.entries@.len() == 0
        &&& self.prefix.spilled@.len() == 0
        &&& self.prefix.reused_tok == 0
        &&& self.checkpoints.entries@.len() == 0
        &&& self.checkpoints.next_id == 0
        &&& self.checkpoints.counters == (CheckpointCounters {
            captures: 0,
            skipped_captures: 0,
            refused_blobs: 0,
            discards: 0,
            reused_tok: 0,
        })
        &&& self.host.live@.len() == 0
        &&& self.host.retained@.len() == 0
        &&& self.host.used_bytes == 0
        &&& self.host.capacity_bytes == self.config.host_capacity_bytes
        &&& self.host.ttl == self.config.retained_interactive_ttl
        &&& self.retained.slots@.len() == self.config.retained_slots
        &&& self.retained.used() == 0
        &&& self.reported_slots == 0
        &&& self.tail_pages@.len() == 0
    }

    /// A scheduler with explicit knobs.
    pub fn with_config(config: SchedulerConfig, compute: Arc<C>) -> (scheduler: ConcreteScheduler<
        C,
        SystemClock,
    >)
        requires
            config.valid(),
        ensures
            scheduler.wf(),
            scheduler.settled(),
            scheduler.is_fresh(),
            scheduler.config == config,
            scheduler.compute == compute,
            // Retained state is held to what the backend says it is loaded with.
            call_ensures(C::blob_identity, (&*compute,), scheduler.checkpoints.identity),
            scheduler.checkpoints.tiers.order@ == (if config.prompt_reuse
                && config.host_capacity_bytes > 0 {
                with_host_tier()
            } else {
                device_tier()
            }),
            scheduler.checkpoints.tiers.carries(ReuseSource::Device),
            scheduler.checkpoints.tiers.carries(ReuseSource::KvRam) <==> config.prompt_reuse
                && config.host_capacity_bytes > 0,
            scheduler.free_lanes@.len() == 8,
            scheduler.capacity.kv_pages == config.kv_capacity_pages,
            config.prompt_reuse && config.host_capacity_bytes > 0
                ==> scheduler.checkpoints.tiers.order@[1].restore_floor_tokens == 1024,
    {
        let mut host = HostTier::new(config.host_capacity_bytes);
        host.set_retained_interactive_ttl(config.retained_interactive_ttl);
        let tiers = if config.prompt_reuse && config.host_capacity_bytes > 0 {
            TierList::new(
                vec![
                    ResidencyTier { source: ReuseSource::Device, restore_floor_tokens: 0 },
                    ResidencyTier {
                        source: ReuseSource::KvRam,
                        restore_floor_tokens: KV_RAM_RESTORE_FLOOR_TOKENS,
                    },
                ],
            )
        } else {
            TierList::device_only()
        };
        proof {
            reveal_with_fuel(crate::checkpoint::rank_from, 3);
        }
        let identity = compute.blob_identity();
        let checkpoints = CheckpointPool::with_tiers(IMAGE_LEDGER_CEILING, identity, tiers);
        let mut free_lanes: Vec<LaneId> = Vec::new();
        let mut lane: usize = 0;
        while lane < N_DECODE_LANES
            invariant
                lane <= N_DECODE_LANES,
                free_lanes@ == Seq::new(lane as nat, |i: int| i as usize),
            decreases N_DECODE_LANES - lane,
        {
            free_lanes.push(lane);
            assert(free_lanes@ =~= Seq::new((lane + 1) as nat, |i: int| i as usize));
            lane = lane + 1;
        }
        let scheduler = ConcreteScheduler {
            capacity: AdmissionResources {
                lanes: N_DECODE_LANES as u32,
                kv_pages: config.kv_capacity_pages,
                backend_pages: 0,
            },
            kv_used_pages: 0,
            resident_slots_used: 0,
            protection: None,
            protection_epoch: 1,
            host,
            tick: 0,
            prefix: PrefixCache::new(config.kv_page_tokens),
            checkpoints,
            retained: RetainedSlotLedger::new(config.retained_slots),
            reported_slots: 0,
            tail_pages: Vec::new(),
            clock: SystemClock::new(),
            config,
            compute,
            next_id: 0,
            requests: Vec::new(),
            free_lanes,
            last_error: None,
        };
        proof {
            assert forall|p: PrefixId| #[trigger]
                scheduler.prefix.refs(p) == standing(scheduler.requests@, p) + holding(
                    scheduler.checkpoints.entries@,
                    p,
                ) + debt(Seq::empty(), p) by {
                assert(!crate::prefix::held(scheduler.prefix.entries@, p));
            }
        }
        scheduler
    }

    /// Read wall time from `clock`.
    pub fn with_clock<L: Clock>(self, clock: L) -> (scheduler: ConcreteScheduler<C, L>)
        requires
            self.wf(),
        ensures
            scheduler.wf(),
            self.settled() ==> scheduler.settled(),
            self.is_fresh() ==> scheduler.is_fresh(),
            scheduler.clock == clock,
            scheduler.config == self.config,
            scheduler.compute == self.compute,
            scheduler.requests == self.requests,
            scheduler.checkpoints == self.checkpoints,
            scheduler.host == self.host,
    {
        let scheduler = ConcreteScheduler {
            config: self.config,
            compute: self.compute,
            clock,
            next_id: self.next_id,
            requests: self.requests,
            free_lanes: self.free_lanes,
            last_error: self.last_error,
            capacity: self.capacity,
            kv_used_pages: self.kv_used_pages,
            resident_slots_used: self.resident_slots_used,
            protection: self.protection,
            protection_epoch: self.protection_epoch,
            host: self.host,
            tick: self.tick,
            prefix: self.prefix,
            checkpoints: self.checkpoints,
            retained: self.retained,
            reported_slots: self.reported_slots,
            tail_pages: self.tail_pages,
        };
        assert(scheduler.refs_ok(Seq::empty())) by {
            assert(self.refs_ok(Seq::empty()));
            assert forall|p: PrefixId| #[trigger]
                scheduler.prefix.refs(p) == standing(scheduler.requests@, p) + holding(
                    scheduler.checkpoints.entries@,
                    p,
                ) + debt(Seq::empty(), p) by {
                assert(self.prefix.refs(p) == scheduler.prefix.refs(p));
            }
        }
        scheduler
    }

    /// Wall time now.
    pub fn now(&self) -> (micros: u64)
        ensures
            call_ensures(K::now, (&self.clock,), micros),
    {
        self.clock.now()
    }

    /// Where the request `id` stands.
    pub fn find(&self, id: RequestId) -> (at: Option<usize>)
        ensures
            at is None ==> forall|j: int|
                0 <= j < self.requests@.len() ==> (#[trigger] self.requests@[j]).id != id,
            at matches Some(i) ==> i < self.requests@.len() && self.requests@[i as int].id == id
                && forall|j: int| 0 <= j < i ==> (#[trigger] self.requests@[j]).id != id,
    {
        let mut i: usize = 0;
        while i < self.requests.len()
            invariant
                i <= self.requests@.len(),
                forall|j: int| 0 <= j < i ==> (#[trigger] self.requests@[j]).id != id,
            decreases self.requests@.len() - i,
        {
            if self.requests[i].id == id {
                return Some(i);
            }
            i = i + 1;
        }
        None
    }

    /// The request `id`, as an observer reads it.
    pub open spec fn request_at(self, id: RequestId, i: int) -> bool {
        &&& 0 <= i < self.requests@.len()
        &&& self.requests@[i].id == id
        &&& forall|j: int| 0 <= j < i ==> (#[trigger] self.requests@[j]).id != id
    }

    pub open spec fn unknown(self, id: RequestId) -> bool {
        forall|j: int| 0 <= j < self.requests@.len() ==> (#[trigger] self.requests@[j]).id != id
    }

    /// The KV-RAM tier.
    pub fn host(&self) -> (tier: &HostTier)
        ensures
            *tier == self.host,
    {
        &self.host
    }

    /// The KV-RAM tier.
    pub fn host_tier(&self) -> (tier: &HostTier)
        ensures
            *tier == self.host,
    {
        &self.host
    }

    /// Whether `request` is still being served.
    pub fn is_live(&self, request: RequestId) -> (live: bool)
        ensures
            live == exists|j: int|
                0 <= j < self.requests@.len() && (#[trigger] self.requests@[j]).id == request
                    && self.requests@[j].state != RequestState::Done,
    {
        let mut i: usize = 0;
        while i < self.requests.len()
            invariant
                i <= self.requests@.len(),
                forall|j: int|
                    0 <= j < i ==> !((#[trigger] self.requests@[j]).id == request
                        && self.requests@[j].state != RequestState::Done),
            decreases self.requests@.len() - i,
        {
            if self.requests[i].id == request && self.requests[i].state != RequestState::Done {
                return true;
            }
            i = i + 1;
        }
        false
    }

    /// Requests that are not done.
    pub fn in_flight(&self) -> (n: usize)
        ensures
            n == flying(self.requests@),
    {
        let mut n: usize = 0;
        let mut i: usize = 0;
        while i < self.requests.len()
            invariant
                i <= self.requests@.len(),
                n == crate::ledger::tally(self.requests@, crate::ledger::flight_charge(), i as int),
                n <= i,
            decreases self.requests@.len() - i,
        {
            if self.requests[i].state != RequestState::Done {
                n = n + 1;
            }
            i = i + 1;
        }
        n
    }

    /// The protection of the blocked head, if one is open.
    pub fn protection(&self) -> (protection: Option<&AdmissionProtection>)
        ensures
            protection is Some <==> self.protection is Some,
            protection matches Some(p) ==> self.protection == Some(*p),
    {
        self.protection.as_ref()
    }

    /// KV pages in use.
    pub fn kv_used_pages(&self) -> (pages: u32)
        ensures
            pages == self.kv_used_pages,
            self.wf() ==> pages == charged(self.requests@) + self.prefix.pins()
                + self.tail_pages@.len() && pages <= self.config.kv_capacity_pages,
    {
        self.kv_used_pages
    }

    /// Prompt tokens siblings skipped through a shared prefix.
    pub fn sibling_prefix_reused_tok(&self) -> (tokens: u64)
        ensures
            tokens == self.prefix.reused_tok,
    {
        self.prefix.reused_tok()
    }

    /// Pages the shared prefixes pin, each counted once.
    pub fn prefix_pinned_pages(&self) -> (pages: u32)
        requires
            self.prefix.wf(),
        ensures
            pages == self.prefix.pins(),
    {
        self.prefix.pinned_pages()
    }

    /// The shared prefix `request` stands on, and the tokens it skips.
    pub fn shared_prefix_of(&self, request: RequestId) -> (shared: Option<(u64, u32)>)
        ensures
            self.unknown(request) ==> shared is None,
            forall|i: int| #[trigger]
                self.request_at(request, i) ==> shared == (match self.requests@[i].prefix_entry {
                    Some(e) => Some((e, self.requests@[i].shared_prefix_tokens)),
                    None => None,
                }),
    {
        match self.find(request) {
            Some(at) => match self.requests[at].prefix_entry {
                Some(e) => Some((e, self.requests[at].shared_prefix_tokens)),
                None => None,
            },
            None => None,
        }
    }

    /// The ledger of retained prompt checkpoints.
    pub fn checkpoint_pool(&self) -> (pool: &CheckpointPool)
        ensures
            *pool == self.checkpoints,
    {
        &self.checkpoints
    }

    /// The retained slots this scheduler hands out.
    pub fn retained_slot_count(&self) -> (n: u32)
        requires
            self.retained.wf(),
        ensures
            n == self.retained.slots@.len(),
    {
        self.retained.capacity()
    }

    /// The retained slots held right now.
    pub fn retained_slots_in_use(&self) -> (n: u32)
        requires
            self.retained.wf(),
        ensures
            n == self.retained.used(),
    {
        self.retained.in_use()
    }

    /// The KV pages device checkpoints hold of their own.
    pub fn retained_tail_pages(&self) -> (n: u32)
        requires
            self.wf(),
        ensures
            n == self.tail_pages@.len(),
    {
        proof {
            self.tails_are_few();
        }
        self.tail_pages.len() as u32
    }

    /// Tail pages are pages of the pool.
    pub proof fn tails_are_few(self)
        requires
            self.charges_ok(),
            self.prefix.wf(),
        ensures
            self.tail_pages@.len() + self.prefix.pins() <= self.kv_used_pages,
            charged(self.requests@) >= 0,
            self.prefix.pins() >= 0,
    {
        tally_bounds(
            self.requests@,
            crate::ledger::page_charge(),
            -1,
            self.requests@.len() as int,
        );
        crate::prefix::pins_are_a_count(self.prefix.entries@);
    }

    /// The compute error the last advance hit, if any.
    pub fn last_error(&self) -> (error: Option<&ComputeError>)
        ensures
            error is Some <==> self.last_error is Some,
            error matches Some(e) ==> self.last_error == Some(*e),
    {
        self.last_error.as_ref()
    }

    /// The request's lifecycle state.
    pub fn request_state(&self, request: RequestId) -> (state: Option<RequestState>)
        ensures
            self.unknown(request) ==> state is None,
            forall|i: int| #[trigger]
                self.request_at(request, i) ==> state == Some(self.requests@[i].state),
    {
        match self.find(request) {
            Some(at) => Some(self.requests[at].state),
            None => None,
        }
    }

    /// Prompt tokens the request has prefilled or reused.
    pub fn prefill_progress(&self, request: RequestId) -> (tokens: Option<u32>)
        ensures
            self.unknown(request) ==> tokens is None,
            forall|i: int| #[trigger]
                self.request_at(request, i) ==> tokens == Some(self.requests@[i].prefill_progress),
    {
        match self.find(request) {
            Some(at) => Some(self.requests[at].prefill_progress),
            None => None,
        }
    }

    /// The position of the request's recurrent state.
    pub fn gdn_position(&self, request: RequestId) -> (position: Option<usize>)
        ensures
            self.unknown(request) ==> position is None,
            forall|i: int| #[trigger]
                self.request_at(request, i) ==> (position matches Some(p) && p
                    == self.requests@[i].gdn@.position),
    {
        match self.find(request) {
            Some(at) => Some(self.requests[at].gdn.position()),
            None => None,
        }
    }

    /// Whether nothing is in flight.
    pub fn is_idle(&self) -> (idle: bool)
        ensures
            idle == (flying(self.requests@) == 0),
            idle <==> forall|i: int|
                0 <= i < self.requests@.len() ==> (#[trigger] self.requests@[i]).state
                    == RequestState::Done,
    {
        proof {
            crate::ledger::nothing_flies_once_all_are_done(self.requests@);
        }
        self.in_flight() == 0
    }

    /// The loaded model.
    pub fn model_id(&self) -> (model: &str)
        ensures
            model@ == self.config.model@,
    {
        self.config.model.as_str()
    }

    /// The longest sequence, prompt included.
    pub fn max_sequence_tokens(&self) -> (tokens: u32)
        ensures
            tokens == self.config.max_sequence_tokens,
    {
        self.config.max_sequence_tokens
    }

    /// Whether anything is in flight.
    pub fn mode(&self) -> (mode: EngineMode)
        ensures
            mode == (if flying(self.requests@) > 0 {
                EngineMode::Serving
            } else {
                EngineMode::Idle
            }),
    {
        if self.in_flight() > 0 {
            EngineMode::Serving
        } else {
            EngineMode::Idle
        }
    }

    /// The pool as an observer sees it.
    pub fn occupancy(&self) -> (occupancy: Occupancy)
        ensures
            occupancy == (Occupancy {
                kv_used_pages: self.kv_used_pages,
                kv_pool_pages: self.capacity.kv_pages,
                kv_ram_used_bytes: self.host.used_bytes,
            }),
    {
        Occupancy {
            kv_used_pages: self.kv_used_pages,
            kv_pool_pages: self.capacity.kv_pages,
            kv_ram_used_bytes: self.host.used_bytes(),
        }
    }

    /// The artifact the backend has loaded, as it says now.
    pub fn artifact(&self) -> (hash: ArtifactHash)
        ensures
            exists|id: BlobIdentity|
                #![trigger call_ensures(C::blob_identity, (&*self.compute,), id)]
                call_ensures(C::blob_identity, (&*self.compute,), id) && hash == id.artifact,
    {
        self.compute.blob_identity().artifact
    }
}

} // verus!
