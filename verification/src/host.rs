//! The host-memory tier: suspended requests and spilled retained state, in
//! one byte budget.
//!
//! A suspended request's snapshot is certain work and a retained blob is a
//! bet, so a live snapshot displaces retained blobs first. Among live
//! snapshots the tier gives up probation before protected, Agent before
//! Interactive, the least recently used first; among retained blobs Agent
//! before Interactive, probation before protected, the least recently used
//! first. An Interactive blob unused for longer than a set time ranks as an
//! Agent's. A blob a request has claimed is never given up before that claim
//! is released.

use crate::checkpoint::{CheckpointId, RetainedKind};
use crate::gdn::GdnState;
use crate::order::{is_service_order, precedes, service_order};
use crate::prefix::SpilledPrefixId;
use crate::types::{LaneId, RequestClass, RequestId};
use vstd::prelude::*;

verus! {

/// How long an Interactive blob keeps its class after its last use, in
/// microseconds.
pub const DEFAULT_RETAINED_INTERACTIVE_TTL: u64 = 1_800_000_000;

/// Whether an entry has come back once already.
#[derive(Debug, Clone, Copy, PartialEq, Eq, Structural)]
pub enum Tier {
    Probation,
    Protected,
}

/// Where a suspended request resumes.
#[derive(Debug, Clone, Copy, PartialEq, Eq, Structural)]
pub enum ResumePhase {
    /// Decoding, on a lane.
    Running,
    /// Prefilling, or prefilled and queued for a lane.
    Prefilling,
}

/// A suspended request's snapshot.
#[derive(Debug)]
pub struct HostEntry {
    pub request: RequestId,
    pub resume_phase: ResumePhase,
    /// The lane it held.
    pub lane: Option<LaneId>,
    pub owner: RequestClass,
    /// The KV pages it needs back.
    pub pages: u32,
    pub bytes: u64,
    pub tokens: u32,
    pub prefill_progress: u32,
    pub remaining_work: u64,
    pub gdn: GdnState,
    pub tier: Tier,
    pub use_tick: u64,
}

/// A spilled blob of retained state.
#[derive(Debug, Clone, Copy, PartialEq, Eq, Structural)]
pub enum RetainedBlob {
    Checkpoint(CheckpointId),
    Prefix(SpilledPrefixId),
}

impl RetainedBlob {
    pub open spec fn kind_of(self) -> RetainedKind {
        match self {
            RetainedBlob::Checkpoint(_) => RetainedKind::Checkpoint,
            RetainedBlob::Prefix(_) => RetainedKind::Prefix,
        }
    }

    /// What kind of state the blob holds.
    pub fn kind(self) -> (kind: RetainedKind)
        ensures
            kind == self.kind_of(),
    {
        match self {
            RetainedBlob::Checkpoint(_) => RetainedKind::Checkpoint,
            RetainedBlob::Prefix(_) => RetainedKind::Prefix,
        }
    }
}

/// A retained blob in the tier.
#[derive(Debug, Clone, Copy, PartialEq, Eq, Structural)]
pub struct RetainedKvRamEntry {
    pub blob: RetainedBlob,
    /// The backend's handle.
    pub publisher: RequestId,
    pub owner: RequestClass,
    pub bytes: u64,
    pub used_at: u64,
    pub tier: Tier,
    /// Requests that chose it and have not restored from it yet.
    pub claims: u32,
    /// Discarded while claimed: nothing new can choose it.
    pub orphaned: bool,
}

impl RetainedKvRamEntry {
    /// A blob nobody has claimed yet.
    pub fn new(
        blob: RetainedBlob,
        publisher: RequestId,
        owner: RequestClass,
        bytes: u64,
        used_at: u64,
    ) -> (entry: RetainedKvRamEntry)
        ensures
            entry == (RetainedKvRamEntry {
                blob,
                publisher,
                owner,
                bytes,
                used_at,
                tier: Tier::Probation,
                claims: 0,
                orphaned: false,
            }),
    {
        RetainedKvRamEntry {
            blob,
            publisher,
            owner,
            bytes,
            used_at,
            tier: Tier::Probation,
            claims: 0,
            orphaned: false,
        }
    }
}

/// What the tier gave up for a live snapshot.
#[derive(Debug)]
pub enum KvRamVictim {
    Retained(RetainedKvRamEntry),
    Live(HostEntry),
}

/// Why the tier would not take an entry.
#[derive(Debug, Clone, Copy, PartialEq, Eq, Structural)]
pub enum HostRefused {
    /// The recurrent state is not at a resumable boundary.
    NotAtBoundary,
    /// It is in the tier already.
    AlreadyHeld,
    /// The budget cannot hold it.
    NoRoom,
}

/// Bytes of the first `n` snapshots.
pub open spec fn live_bytes(live: Seq<HostEntry>, n: int) -> int
    decreases n,
{
    if n <= 0 {
        0
    } else {
        live_bytes(live, n - 1) + live[n - 1].bytes
    }
}

/// Bytes of the first `n` retained blobs.
pub open spec fn blob_bytes(retained: Seq<RetainedKvRamEntry>, n: int) -> int
    decreases n,
{
    if n <= 0 {
        0
    } else {
        blob_bytes(retained, n - 1) + retained[n - 1].bytes
    }
}

proof fn live_without(live: Seq<HostEntry>, at: int, n: int)
    requires
        0 <= at < n <= live.len(),
    ensures
        live_bytes(live, n) == live_bytes(live.remove(at), n - 1) + live[at].bytes,
    decreases n,
{
    if at < n - 1 {
        live_without(live, at, n - 1);
        assert(live.remove(at)[n - 2] == live[n - 1]);
    } else {
        live_same(live, live.remove(at), n - 1);
    }
}

proof fn live_same(a: Seq<HostEntry>, b: Seq<HostEntry>, n: int)
    requires
        0 <= n <= a.len(),
        n <= b.len(),
        forall|i: int| 0 <= i < n ==> (#[trigger] a[i]).bytes == b[i].bytes,
    ensures
        live_bytes(a, n) == live_bytes(b, n),
    decreases n,
{
    if n > 0 {
        live_same(a, b, n - 1);
        assert(a[n - 1].bytes == b[n - 1].bytes);
    }
}

proof fn live_is_a_size(a: Seq<HostEntry>, n: int)
    requires
        0 <= n <= a.len(),
    ensures
        live_bytes(a, n) >= 0,
    decreases n,
{
    if n > 0 {
        live_is_a_size(a, n - 1);
    }
}

proof fn blobs_without(a: Seq<RetainedKvRamEntry>, at: int, n: int)
    requires
        0 <= at < n <= a.len(),
    ensures
        blob_bytes(a, n) == blob_bytes(a.remove(at), n - 1) + a[at].bytes,
    decreases n,
{
    if at < n - 1 {
        blobs_without(a, at, n - 1);
        assert(a.remove(at)[n - 2] == a[n - 1]);
    } else {
        blobs_same(a, a.remove(at), n - 1);
    }
}

proof fn blobs_same(a: Seq<RetainedKvRamEntry>, b: Seq<RetainedKvRamEntry>, n: int)
    requires
        0 <= n <= a.len(),
        n <= b.len(),
        forall|i: int| 0 <= i < n ==> (#[trigger] a[i]).bytes == b[i].bytes,
    ensures
        blob_bytes(a, n) == blob_bytes(b, n),
    decreases n,
{
    if n > 0 {
        blobs_same(a, b, n - 1);
        assert(a[n - 1].bytes == b[n - 1].bytes);
    }
}

proof fn blobs_are_a_size(a: Seq<RetainedKvRamEntry>, n: int)
    requires
        0 <= n <= a.len(),
    ensures
        blob_bytes(a, n) >= 0,
    decreases n,
{
    if n > 0 {
        blobs_are_a_size(a, n - 1);
    }
}

/// Worth strictly less: probation before protected, Agent before Interactive,
/// the least recently used, the older request.
pub open spec fn snapshot_worth_less(a: HostEntry, b: HostEntry) -> bool {
    if a.tier != b.tier {
        a.tier == Tier::Probation
    } else if a.owner != b.owner {
        a.owner == RequestClass::Agent
    } else if a.use_tick != b.use_tick {
        a.use_tick < b.use_tick
    } else {
        a.request < b.request
    }
}

/// The snapshot at `at` is the one the tier gives up, or restores, next.
pub open spec fn is_next_snapshot(live: Seq<HostEntry>, at: int) -> bool {
    &&& 0 <= at < live.len()
    &&& forall|j: int|
        0 <= j < live.len() && j != at ==> snapshot_worth_less(live[at], #[trigger] live[j])
}

/// The class a blob ranks as: an Interactive one past its time is an Agent's.
pub open spec fn ranks_as(owner: RequestClass, used_at: u64, now: u64, ttl: u64) -> RequestClass {
    if owner == RequestClass::Interactive && now - used_at <= ttl {
        RequestClass::Interactive
    } else {
        RequestClass::Agent
    }
}

/// A blob's rank, the least first: class, tier, last use.
pub open spec fn blob_rank(
    owner: RequestClass,
    tier: Tier,
    used_at: u64,
    now: u64,
    ttl: u64,
) -> (u64, u64) {
    let class: u64 = if ranks_as(owner, used_at, now, ttl) == RequestClass::Agent { 0 } else { 2 };
    let proven: u64 = if tier == Tier::Probation { 0 } else { 1 };
    ((class + proven) as u64, used_at)
}

/// A rank strictly under another.
pub open spec fn ranks_under(a: (u64, u64), b: (u64, u64)) -> bool {
    a.0 < b.0 || (a.0 == b.0 && a.1 < b.1)
}

/// The ranks of the blobs in the tier.
pub open spec fn blob_ranks(retained: Seq<RetainedKvRamEntry>, now: u64, ttl: u64) -> Seq<
    (u64, u64),
> {
    Seq::new(
        retained.len(),
        |i: int|
            blob_rank(retained[i].owner, retained[i].tier, retained[i].used_at, now, ttl),
    )
}

/// The blob at `at` is the next the tier gives up: of the unclaimed ones, none
/// ranks before it.
pub open spec fn is_next_blob(
    retained: Seq<RetainedKvRamEntry>,
    now: u64,
    ttl: u64,
    at: int,
) -> bool {
    &&& 0 <= at < retained.len()
    &&& retained[at].claims == 0
    &&& forall|j: int|
        0 <= j < retained.len() && j != at && (#[trigger] retained[j]).claims == 0 ==> precedes(
            blob_ranks(retained, now, ttl),
            at,
            j,
        )
}

/// Where `request`'s snapshot is.
pub open spec fn snapshot_of(live: Seq<HostEntry>, request: RequestId, from: int) -> Option<int>
    decreases live.len() - from,
{
    if from < 0 || from >= live.len() {
        None
    } else if live[from].request == request {
        Some(from)
    } else {
        snapshot_of(live, request, from + 1)
    }
}

/// Where `blob` is.
pub open spec fn blob_at(retained: Seq<RetainedKvRamEntry>, blob: RetainedBlob, from: int) -> Option<
    int,
>
    decreases retained.len() - from,
{
    if from < 0 || from >= retained.len() {
        None
    } else if retained[from].blob == blob {
        Some(from)
    } else {
        blob_at(retained, blob, from + 1)
    }
}

pub proof fn snapshot_is_first(live: Seq<HostEntry>, request: RequestId, from: int)
    requires
        0 <= from <= live.len(),
    ensures
        snapshot_of(live, request, from) matches Some(i) ==> from <= i < live.len()
            && live[i].request == request,
        snapshot_of(live, request, from) is None ==> forall|j: int|
            from <= j < live.len() ==> (#[trigger] live[j]).request != request,
    decreases live.len() - from,
{
    if from < live.len() && live[from].request != request {
        snapshot_is_first(live, request, from + 1);
    }
}

pub proof fn blob_is_first(retained: Seq<RetainedKvRamEntry>, blob: RetainedBlob, from: int)
    requires
        0 <= from <= retained.len(),
    ensures
        blob_at(retained, blob, from) matches Some(i) ==> from <= i < retained.len()
            && retained[i].blob == blob,
        blob_at(retained, blob, from) is None ==> forall|j: int|
            from <= j < retained.len() ==> (#[trigger] retained[j]).blob != blob,
    decreases retained.len() - from,
{
    if from < retained.len() && retained[from].blob != blob {
        blob_is_first(retained, blob, from + 1);
    }
}

/// The positions a plan gives up, in order, until `bytes` fit: each the next
/// in rank of the unclaimed blobs under `rank`, and no more of them than it
/// takes.
pub open spec fn is_room_plan(
    tier: HostTier,
    bytes: u64,
    rank: (u64, u64),
    now: u64,
    order: Seq<usize>,
    n: int,
    plan: Seq<RetainedBlob>,
) -> bool {
    &&& 0 <= n <= order.len()
    &&& plan == yielded(tier.retained@, order, n)
    &&& tier.used_bytes - yielded_bytes(tier.retained@, order, n) + bytes <= tier.capacity_bytes
    &&& forall|k: int|
        0 <= k < n ==> tier.used_bytes - (#[trigger] yielded_bytes(tier.retained@, order, k)) + bytes
            > tier.capacity_bytes
    &&& forall|k: int|
        0 <= k < n && tier.retained@[(#[trigger] order[k]) as int].claims == 0 ==> ranks_under(
            blob_ranks(tier.retained@, now, tier.ttl)[order[k] as int],
            rank,
        )
}

/// `plan` is the shortest run of unclaimed blobs under `rank`, in rank order,
/// whose bytes make room for `bytes`.
pub open spec fn makes_room(
    tier: HostTier,
    bytes: u64,
    rank: (u64, u64),
    now: u64,
    plan: Seq<RetainedBlob>,
) -> bool {
    exists|order: Seq<usize>, n: int|
        is_service_order(blob_ranks(tier.retained@, now, tier.ttl), order) && #[trigger] is_room_plan(
            tier,
            bytes,
            rank,
            now,
            order,
            n,
            plan,
        )
}

/// The unclaimed blobs among the first `n` of `order`.
pub open spec fn yielded(retained: Seq<RetainedKvRamEntry>, order: Seq<usize>, n: int) -> Seq<
    RetainedBlob,
>
    decreases n,
{
    if n <= 0 {
        Seq::empty()
    } else if retained[order[n - 1] as int].claims == 0 {
        yielded(retained, order, n - 1).push(retained[order[n - 1] as int].blob)
    } else {
        yielded(retained, order, n - 1)
    }
}

/// What the unclaimed blobs among the first `n` of `order` give back.
pub open spec fn yielded_bytes(retained: Seq<RetainedKvRamEntry>, order: Seq<usize>, n: int) -> int
    decreases n,
{
    if n <= 0 {
        0
    } else if retained[order[n - 1] as int].claims == 0 {
        yielded_bytes(retained, order, n - 1) + retained[order[n - 1] as int].bytes
    } else {
        yielded_bytes(retained, order, n - 1)
    }
}

/// The host-memory tier.
#[derive(Debug)]
pub struct HostTier {
    pub capacity_bytes: u64,
    pub used_bytes: u64,
    pub live: Vec<HostEntry>,
    pub retained: Vec<RetainedKvRamEntry>,
    /// Requests that resumed once: their next snapshot is protected.
    pub proven: Vec<RequestId>,
    /// How long an Interactive blob keeps its class.
    pub ttl: u64,
}

impl HostTier {
    /// The budget adds up and holds; no request and no blob is in the tier
    /// twice; every snapshot is resumable where it stands; only a claimed blob
    /// is orphaned.
    pub open spec fn wf(self) -> bool {
        &&& self.used_bytes == live_bytes(self.live@, self.live@.len() as int) + blob_bytes(
            self.retained@,
            self.retained@.len() as int,
        )
        &&& self.used_bytes <= self.capacity_bytes
        &&& forall|i: int, j: int|
            0 <= i < j < self.live@.len() ==> (#[trigger] self.live@[i]).request != (
            #[trigger] self.live@[j]).request
        &&& forall|i: int, j: int|
            0 <= i < j < self.retained@.len() ==> (#[trigger] self.retained@[i]).blob != (
            #[trigger] self.retained@[j]).blob
        &&& forall|i: int|
            0 <= i < self.live@.len() ==> (#[trigger] self.live@[i]).gdn@.boundaries.contains(
                self.live@[i].gdn@.position,
            )
        &&& forall|i: int|
            0 <= i < self.retained@.len() ==> ((#[trigger] self.retained@[i]).orphaned
                ==> self.retained@[i].claims > 0)
    }

    /// Everything but the snapshots and the bytes used.
    pub open spec fn same_but_live(self, other: HostTier) -> bool {
        &&& self.capacity_bytes == other.capacity_bytes
        &&& self.retained == other.retained
        &&& self.ttl == other.ttl
    }

    /// Everything but the retained blobs and the bytes used.
    pub open spec fn same_but_retained(self, other: HostTier) -> bool {
        &&& self.capacity_bytes == other.capacity_bytes
        &&& self.live == other.live
        &&& self.proven == other.proven
        &&& self.ttl == other.ttl
    }

    /// An empty tier of `capacity_bytes`.
    pub fn new(capacity_bytes: u64) -> (tier: HostTier)
        ensures
            tier.wf(),
            tier.capacity_bytes == capacity_bytes,
            tier.live@.len() == 0,
            tier.retained@.len() == 0,
            tier.proven@.len() == 0,
            tier.used_bytes == 0,
            tier.ttl == DEFAULT_RETAINED_INTERACTIVE_TTL,
    {
        HostTier {
            capacity_bytes,
            used_bytes: 0,
            live: Vec::new(),
            retained: Vec::new(),
            proven: Vec::new(),
            ttl: DEFAULT_RETAINED_INTERACTIVE_TTL,
        }
    }

    /// How long an Interactive blob keeps its class after its last use.
    pub fn set_retained_interactive_ttl(&mut self, ttl: u64)
        ensures
            *final(self) == (HostTier { ttl, ..*old(self) }),
    {
        self.ttl = ttl;
    }

    pub fn used_bytes(&self) -> (bytes: u64)
        ensures
            bytes == self.used_bytes,
    {
        self.used_bytes
    }

    pub fn capacity_bytes(&self) -> (bytes: u64)
        ensures
            bytes == self.capacity_bytes,
    {
        self.capacity_bytes
    }

    /// Snapshots in the tier.
    pub fn entry_count(&self) -> (n: usize)
        ensures
            n == self.live@.len(),
    {
        self.live.len()
    }

    /// Retained blobs in the tier.
    pub fn retained_count(&self) -> (n: usize)
        ensures
            n == self.retained@.len(),
    {
        self.retained.len()
    }

    /// Whether `bytes` more fit the budget.
    pub fn has_room(&self, bytes: u64) -> (room: bool)
        requires
            self.used_bytes <= self.capacity_bytes,
        ensures
            room == (self.used_bytes + bytes <= self.capacity_bytes),
    {
        bytes <= self.capacity_bytes - self.used_bytes
    }

    /// Where `request`'s snapshot is.
    pub fn find(&self, request: RequestId) -> (at: Option<usize>)
        ensures
            at is Some <==> snapshot_of(self.live@, request, 0) is Some,
            at matches Some(i) ==> i < self.live@.len() && snapshot_of(self.live@, request, 0) == Some(
                i as int,
            ) && self.live@[i as int].request == request,
            at is None ==> forall|j: int|
                0 <= j < self.live@.len() ==> (#[trigger] self.live@[j]).request != request,
    {
        let mut i: usize = 0;
        while i < self.live.len()
            invariant
                i <= self.live@.len(),
                snapshot_of(self.live@, request, 0) == snapshot_of(self.live@, request, i as int),
                forall|j: int| 0 <= j < i ==> (#[trigger] self.live@[j]).request != request,
            decreases self.live@.len() - i,
        {
            if self.live[i].request == request {
                return Some(i);
            }
            i = i + 1;
        }
        None
    }

    /// Where `blob` is.
    pub fn find_blob(&self, blob: RetainedBlob) -> (at: Option<usize>)
        ensures
            at is Some <==> blob_at(self.retained@, blob, 0) is Some,
            at matches Some(i) ==> i < self.retained@.len() && blob_at(self.retained@, blob, 0)
                == Some(i as int) && self.retained@[i as int].blob == blob,
            at is None ==> forall|j: int|
                0 <= j < self.retained@.len() ==> (#[trigger] self.retained@[j]).blob != blob,
    {
        let mut i: usize = 0;
        while i < self.retained.len()
            invariant
                i <= self.retained@.len(),
                blob_at(self.retained@, blob, 0) == blob_at(self.retained@, blob, i as int),
                forall|j: int| 0 <= j < i ==> (#[trigger] self.retained@[j]).blob != blob,
            decreases self.retained@.len() - i,
        {
            if self.retained[i].blob == blob {
                return Some(i);
            }
            i = i + 1;
        }
        None
    }

    /// Whether `request` resumed from this tier before.
    fn is_proven(&self, request: RequestId) -> (proven: bool)
        ensures
            proven == self.proven@.contains(request),
    {
        let mut i: usize = 0;
        while i < self.proven.len()
            invariant
                i <= self.proven@.len(),
                forall|j: int| 0 <= j < i ==> self.proven@[j] != request,
            decreases self.proven@.len() - i,
        {
            if self.proven[i] == request {
                assert(self.proven@[i as int] == request);
                return true;
            }
            i = i + 1;
        }
        false
    }

    /// The tier the entry would land in.
    pub open spec fn lands_in(self, entry: HostEntry) -> Tier {
        if self.proven@.contains(entry.request) {
            Tier::Protected
        } else {
            entry.tier
        }
    }

    /// Why the tier would refuse `entry`.
    pub open spec fn refusal_of(self, entry: HostEntry) -> Option<HostRefused> {
        if !entry.gdn@.boundaries.contains(entry.gdn@.position) {
            Some(HostRefused::NotAtBoundary)
        } else if snapshot_of(self.live@, entry.request, 0) is Some {
            Some(HostRefused::AlreadyHeld)
        } else if self.used_bytes + entry.bytes > self.capacity_bytes {
            Some(HostRefused::NoRoom)
        } else {
            None
        }
    }

    /// Record a suspended request's snapshot. One whose recurrent state is
    /// mid-prefill is rejected.
    pub fn capture(&mut self, entry: HostEntry) -> (result: Result<(), HostRefused>)
        requires
            old(self).wf(),
        ensures
            final(self).wf(),
            final(self).same_but_live(*old(self)),
            final(self).proven == old(self).proven,
            // Taken where it stands at a boundary, is not there yet, and fits.
            result is Ok <==> entry.gdn@.boundaries.contains(entry.gdn@.position) && (forall|i: int|
                0 <= i < old(self).live@.len() ==> (#[trigger] old(self).live@[i]).request
                    != entry.request) && old(self).used_bytes + entry.bytes
                <= old(self).capacity_bytes,
            result is Ok ==> {
                let last = final(self).live@.last();
                &&& last == (HostEntry { tier: last.tier, ..entry })
                &&& old(self).proven@.contains(entry.request) ==> last.tier == Tier::Protected
                &&& !old(self).proven@.contains(entry.request) ==> last.tier == entry.tier
            },
            match old(self).refusal_of(entry) {
                Some(refused) => {
                    &&& result matches Err(r) && r == refused
                    &&& *final(self) == *old(self)
                },
                None => {
                    &&& result is Ok
                    &&& final(self).live@ == old(self).live@.push(
                        HostEntry { tier: old(self).lands_in(entry), ..entry },
                    )
                    &&& final(self).used_bytes == old(self).used_bytes + entry.bytes
                },
            },
    {
        proof {
            snapshot_is_first(self.live@, entry.request, 0);
            if forall|i: int|
                0 <= i < self.live@.len() ==> (#[trigger] self.live@[i]).request != entry.request {
                assert(snapshot_of(self.live@, entry.request, 0) is None);
            }
        }
        if !entry.gdn.is_valid_snapshot_point(entry.gdn.position()) {
            return Err(HostRefused::NotAtBoundary);
        }
        if self.find(entry.request).is_some() {
            return Err(HostRefused::AlreadyHeld);
        }
        if !self.has_room(entry.bytes) {
            return Err(HostRefused::NoRoom);
        }
        proof {
            snapshot_is_first(self.live@, entry.request, 0);
        }
        let ghost before = *self;
        let mut entry = entry;
        if self.is_proven(entry.request) {
            entry.tier = Tier::Protected;
        }
        self.used_bytes = self.used_bytes + entry.bytes;
        self.live.push(entry);
        proof {
            live_same(before.live@, self.live@, before.live@.len() as int);
            assert forall|i: int| 0 <= i < self.live@.len() implies (
            #[trigger] self.live@[i]).gdn@.boundaries.contains(self.live@[i].gdn@.position) by {
                if i < before.live@.len() {
                    assert(self.live@[i] == before.live@[i]);
                }
            }
        }
        Ok(())
    }

    /// The snapshot closest to being discarded.
    pub fn victim(&self) -> (at: Option<usize>)
        requires
            self.wf(),
        ensures
            at is None <==> self.live@.len() == 0,
            at matches Some(i) ==> is_next_snapshot(self.live@, i as int),
    {
        if self.live.len() == 0 {
            return None;
        }
        let mut best: usize = 0;
        let mut i: usize = 1;
        while i < self.live.len()
            invariant
                self.wf(),
                best < i <= self.live@.len(),
                forall|j: int|
                    0 <= j < i && j != best ==> snapshot_worth_less(
                        self.live@[best as int],
                        #[trigger] self.live@[j],
                    ),
            decreases self.live@.len() - i,
        {
            let a = &self.live[i];
            let b = &self.live[best];
            let less: bool = if a.tier != b.tier {
                a.tier == Tier::Probation
            } else if a.owner != b.owner {
                a.owner == RequestClass::Agent
            } else if a.use_tick != b.use_tick {
                a.use_tick < b.use_tick
            } else {
                a.request < b.request
            };
            assert(self.live@[best as int].request != self.live@[i as int].request);
            if less {
                best = i;
            }
            i = i + 1;
        }
        Some(best)
    }

    /// Take the snapshot at `at` out of the tier.
    fn remove_live(&mut self, at: usize) -> (entry: HostEntry)
        requires
            old(self).wf(),
            at < old(self).live@.len(),
        ensures
            final(self).wf(),
            final(self).same_but_live(*old(self)),
            final(self).proven == old(self).proven,
            entry == old(self).live@[at as int],
            final(self).live@ == old(self).live@.remove(at as int),
            final(self).used_bytes == old(self).used_bytes - entry.bytes,
    {
        let ghost before = self.live@;
        let entry = self.live.remove(at);
        proof {
            live_without(before, at as int, before.len() as int);
            live_is_a_size(self.live@, self.live@.len() as int);
            blobs_are_a_size(self.retained@, self.retained@.len() as int);
            assert forall|i: int| 0 <= i < self.live@.len() implies (#[trigger] self.live@[i])
                == before[if i < at {
                i
            } else {
                i + 1
            }] by {}
        }
        self.used_bytes = self.used_bytes - entry.bytes;
        entry
    }

    /// Take the blob at `at` out of the tier.
    fn remove_blob(&mut self, at: usize) -> (entry: RetainedKvRamEntry)
        requires
            old(self).wf(),
            at < old(self).retained@.len(),
        ensures
            final(self).wf(),
            final(self).same_but_retained(*old(self)),
            entry == old(self).retained@[at as int],
            final(self).retained@ == old(self).retained@.remove(at as int),
            final(self).used_bytes == old(self).used_bytes - entry.bytes,
    {
        let ghost before = self.retained@;
        let entry = self.retained.remove(at);
        proof {
            blobs_without(before, at as int, before.len() as int);
            blobs_are_a_size(self.retained@, self.retained@.len() as int);
            live_is_a_size(self.live@, self.live@.len() as int);
            assert forall|i: int| 0 <= i < self.retained@.len() implies (
            #[trigger] self.retained@[i]) == before[if i < at {
                i
            } else {
                i + 1
            }] by {}
        }
        self.used_bytes = self.used_bytes - entry.bytes;
        entry
    }

    /// `request` resumed: its snapshot leaves the tier, and its next one is
    /// protected.
    pub fn restore(&mut self, request: RequestId) -> (entry: Option<HostEntry>)
        requires
            old(self).wf(),
        ensures
            final(self).wf(),
            final(self).same_but_live(*old(self)),
            entry is Some <==> snapshot_of(old(self).live@, request, 0) is Some,
            entry is None ==> *final(self) == *old(self),
            entry matches Some(e) ==> {
                let at = snapshot_of(old(self).live@, request, 0)->Some_0;
                &&& e == old(self).live@[at]
                &&& final(self).live@ == old(self).live@.remove(at)
                &&& final(self).used_bytes == old(self).used_bytes - e.bytes
                &&& final(self).proven@ == old(self).proven@.push(request)
            },
    {
        match self.find(request) {
            Some(at) => {
                let entry = self.remove_live(at);
                self.proven.push(request);
                Some(entry)
            },
            None => None,
        }
    }

    /// Drop `request`'s snapshot; it did not resume.
    pub fn discard_request(&mut self, request: RequestId) -> (entry: Option<HostEntry>)
        requires
            old(self).wf(),
        ensures
            final(self).wf(),
            final(self).same_but_live(*old(self)),
            final(self).proven == old(self).proven,
            entry is Some <==> snapshot_of(old(self).live@, request, 0) is Some,
            entry is None ==> *final(self) == *old(self),
            entry matches Some(e) ==> {
                let at = snapshot_of(old(self).live@, request, 0)->Some_0;
                &&& e == old(self).live@[at]
                &&& final(self).live@ == old(self).live@.remove(at)
                &&& final(self).used_bytes == old(self).used_bytes - e.bytes
            },
    {
        match self.find(request) {
            Some(at) => Some(self.remove_live(at)),
            None => None,
        }
    }

    /// Record a spilled blob.
    pub fn capture_retained(&mut self, entry: RetainedKvRamEntry) -> (result: Result<(), HostRefused>)
        requires
            old(self).wf(),
            !entry.orphaned,
        ensures
            final(self).wf(),
            final(self).same_but_retained(*old(self)),
            result matches Err(r) ==> *final(self) == *old(self),
            (result matches Err(r) && r == HostRefused::AlreadyHeld) <==> blob_at(
                old(self).retained@,
                entry.blob,
                0,
            ) is Some,
            (result matches Err(r) && r == HostRefused::NoRoom) <==> blob_at(
                old(self).retained@,
                entry.blob,
                0,
            ) is None && old(self).used_bytes + entry.bytes > old(self).capacity_bytes,
            !(result matches Err(r) && r == HostRefused::NotAtBoundary),
            result is Ok ==> final(self).retained@ == old(self).retained@.push(entry)
                && final(self).used_bytes == old(self).used_bytes + entry.bytes,
    {
        if self.find_blob(entry.blob).is_some() {
            return Err(HostRefused::AlreadyHeld);
        }
        if !self.has_room(entry.bytes) {
            return Err(HostRefused::NoRoom);
        }
        let ghost before = *self;
        self.used_bytes = self.used_bytes + entry.bytes;
        self.retained.push(entry);
        proof {
            blobs_same(before.retained@, self.retained@, before.retained@.len() as int);
            blob_is_first(before.retained@, entry.blob, 0);
        }
        Ok(())
    }

    /// Whether the tier holds `blob`, and one more may stand on it.
    pub open spec fn can_claim(self, blob: RetainedBlob) -> bool {
        blob_at(self.retained@, blob, 0) matches Some(at) && !self.retained@[at].orphaned
            && self.retained@[at].claims < u32::MAX
    }

    /// Hold `blob` until a restore from it lands or is abandoned.
    pub fn claim_retained(&mut self, blob: RetainedBlob) -> (held: bool)
        requires
            old(self).wf(),
        ensures
            final(self).wf(),
            final(self).same_but_retained(*old(self)),
            final(self).used_bytes == old(self).used_bytes,
            held == old(self).can_claim(blob),
            held ==> exists|i: int|
                0 <= i < old(self).retained@.len() && (#[trigger] old(self).retained@[i]).blob
                    == blob && !old(self).retained@[i].orphaned && final(self).retained@[i].claims
                    == old(self).retained@[i].claims + 1,
            !held ==> *final(self) == *old(self),
            held ==> {
                let at = blob_at(old(self).retained@, blob, 0)->Some_0;
                final(self).retained@ == old(self).retained@.update(
                    at,
                    RetainedKvRamEntry {
                        claims: (old(self).retained@[at].claims + 1) as u32,
                        ..old(self).retained@[at]
                    },
                )
            },
    {
        let ghost before = *self;
        match self.find_blob(blob) {
            Some(at) => {
                if !self.retained[at].orphaned && self.retained[at].claims < u32::MAX {
                    self.retained[at].claims = self.retained[at].claims + 1;
                    proof {
                        self.after_change(before, at as int);
                    }
                    true
                } else {
                    false
                }
            },
            None => false,
        }
    }

    /// A blob whose bytes and name stand keeps the tier well-formed.
    proof fn after_change(self, before: HostTier, at: int)
        requires
            before.wf(),
            self.same_but_retained(before),
            self.used_bytes == before.used_bytes,
            0 <= at < before.retained@.len(),
            self.retained@ == before.retained@.update(at, self.retained@[at]),
            self.retained@[at].blob == before.retained@[at].blob,
            self.retained@[at].bytes == before.retained@[at].bytes,
            self.retained@[at].orphaned ==> self.retained@[at].claims > 0,
        ensures
            self.wf(),
    {
        blobs_same(self.retained@, before.retained@, before.retained@.len() as int);
        assert forall|i: int| 0 <= i < self.retained@.len() implies (
        #[trigger] self.retained@[i]).blob == before.retained@[i].blob by {}
    }

    /// Drop `blob`. A claimed one outlives the discard, orphaned, until its
    /// last claim is released.
    pub fn discard_retained(&mut self, blob: RetainedBlob) -> (entry: Option<RetainedKvRamEntry>)
        requires
            old(self).wf(),
        ensures
            final(self).wf(),
            final(self).same_but_retained(*old(self)),
            match blob_at(old(self).retained@, blob, 0) {
                None => entry is None && *final(self) == *old(self),
                Some(at) => if old(self).retained@[at].claims > 0 {
                    &&& entry is None
                    &&& final(self).used_bytes == old(self).used_bytes
                    &&& final(self).retained@ == old(self).retained@.update(
                        at,
                        RetainedKvRamEntry { orphaned: true, ..old(self).retained@[at] },
                    )
                } else {
                    &&& entry == Some(old(self).retained@[at])
                    &&& final(self).retained@ == old(self).retained@.remove(at)
                    &&& final(self).used_bytes == old(self).used_bytes - old(self).retained@[at].bytes
                },
            },
    {
        let ghost before = *self;
        match self.find_blob(blob) {
            None => None,
            Some(at) => {
                if self.retained[at].claims > 0 {
                    self.retained[at].orphaned = true;
                    proof {
                        self.after_change(before, at as int);
                    }
                    None
                } else {
                    Some(self.remove_blob(at))
                }
            },
        }
    }

    /// The blob after one claim on it is released, restored from at
    /// `restored_at` or abandoned.
    pub open spec fn unclaimed(entry: RetainedKvRamEntry, restored_at: Option<u64>) -> RetainedKvRamEntry {
        let claims = if entry.claims > 0 { (entry.claims - 1) as u32 } else { 0 };
        match restored_at {
            Some(at) => RetainedKvRamEntry {
                claims,
                used_at: at,
                tier: Tier::Protected,
                ..entry
            },
            None => RetainedKvRamEntry { claims, ..entry },
        }
    }

    /// Release one claim on `blob`. A restore that landed promotes it; the last
    /// claim on an orphaned blob gives it up.
    pub fn release_retained_claim(&mut self, blob: RetainedBlob, restored_at: Option<u64>) -> (entry:
        Option<RetainedKvRamEntry>)
        requires
            old(self).wf(),
        ensures
            final(self).wf(),
            final(self).same_but_retained(*old(self)),
            match blob_at(old(self).retained@, blob, 0) {
                None => entry is None && *final(self) == *old(self),
                Some(at) => {
                    let after = HostTier::unclaimed(old(self).retained@[at], restored_at);
                    if after.orphaned && after.claims == 0 {
                        &&& entry == Some(after)
                        &&& final(self).retained@ == old(self).retained@.remove(at)
                        &&& final(self).used_bytes == old(self).used_bytes - after.bytes
                    } else {
                        &&& entry is None
                        &&& final(self).retained@ == old(self).retained@.update(at, after)
                        &&& final(self).used_bytes == old(self).used_bytes
                    }
                },
            },
    {
        let ghost before = *self;
        match self.find_blob(blob) {
            None => None,
            Some(at) => {
                let was = self.retained[at];
                let claims: u32 = if was.claims > 0 {
                    was.claims - 1
                } else {
                    0
                };
                let after = match restored_at {
                    Some(used_at) => RetainedKvRamEntry {
                        claims,
                        used_at,
                        tier: Tier::Protected,
                        ..was
                    },
                    None => RetainedKvRamEntry { claims, ..was },
                };
                if after.orphaned && after.claims == 0 {
                    let _ = self.remove_blob(at);
                    Some(after)
                } else {
                    self.retained.set(at, after);
                    proof {
                        self.after_change(before, at as int);
                    }
                    None
                }
            },
        }
    }

    /// `blob` now ranks by a use at `used_at`.
    pub fn refresh_retained(&mut self, blob: RetainedBlob, used_at: u64)
        requires
            old(self).wf(),
        ensures
            final(self).wf(),
            final(self).same_but_retained(*old(self)),
            final(self).used_bytes == old(self).used_bytes,
            match blob_at(old(self).retained@, blob, 0) {
                None => *final(self) == *old(self),
                Some(at) => final(self).retained@ == old(self).retained@.update(
                    at,
                    RetainedKvRamEntry { used_at, ..old(self).retained@[at] },
                ),
            },
    {
        let ghost before = *self;
        if let Some(at) = self.find_blob(blob) {
            self.retained[at].used_at = used_at;
            proof {
                self.after_change(before, at as int);
            }
        }
    }

    /// The rank of a blob, the least first.
    fn rank(&self, owner: RequestClass, tier: Tier, used_at: u64, now: u64) -> (rank: (u64, u64))
        ensures
            rank == blob_rank(owner, tier, used_at, now, self.ttl),
    {
        let class: u64 = if owner == RequestClass::Interactive && (now < used_at || now - used_at
            <= self.ttl) {
            2
        } else {
            0
        };
        let proven: u64 = if tier == Tier::Probation {
            0
        } else {
            1
        };
        (class + proven, used_at)
    }

    fn ranks(&self, now: u64) -> (ranks: Vec<(u64, u64)>)
        ensures
            ranks@ == blob_ranks(self.retained@, now, self.ttl),
    {
        let mut ranks: Vec<(u64, u64)> = Vec::new();
        let mut i: usize = 0;
        while i < self.retained.len()
            invariant
                i <= self.retained@.len(),
                ranks@.len() == i,
                forall|j: int|
                    0 <= j < i ==> #[trigger] ranks@[j] == blob_rank(
                        self.retained@[j].owner,
                        self.retained@[j].tier,
                        self.retained@[j].used_at,
                        now,
                        self.ttl,
                    ),
            decreases self.retained@.len() - i,
        {
            let e = &self.retained[i];
            ranks.push(self.rank(e.owner, e.tier, e.used_at, now));
            i = i + 1;
        }
        assert(ranks@ =~= blob_ranks(self.retained@, now, self.ttl));
        ranks
    }

    /// The next unclaimed blob the tier gives up.
    fn next_blob(&self, now: u64) -> (at: Option<usize>)
        ensures
            at is None <==> forall|j: int|
                0 <= j < self.retained@.len() ==> (#[trigger] self.retained@[j]).claims > 0,
            at matches Some(i) ==> is_next_blob(self.retained@, now, self.ttl, i as int),
    {
        let ranks = self.ranks(now);
        let order = service_order(&ranks);
        let mut n: usize = 0;
        while n < order.len()
            invariant
                n <= order@.len(),
                is_service_order(ranks@, order@),
                ranks@ == blob_ranks(self.retained@, now, self.ttl),
                forall|k: int|
                    0 <= k < n ==> self.retained@[(#[trigger] order@[k]) as int].claims > 0,
            decreases order@.len() - n,
        {
            let at: usize = order[n];
            if self.retained[at].claims == 0 {
                proof {
                    assert forall|j: int|
                        0 <= j < self.retained@.len() && j != at && (
                        #[trigger] self.retained@[j]).claims == 0 implies precedes(
                        ranks@,
                        at as int,
                        j,
                    ) by {
                        assert(order@.contains(j as usize));
                        let k = choose|k: int| 0 <= k < order@.len() && order@[k] == j as usize;
                        assert(k > n);
                        assert(precedes(ranks@, order@[n as int] as int, order@[k] as int));
                    }
                }
                return Some(at);
            }
            n = n + 1;
        }
        proof {
            assert forall|j: int| 0 <= j < self.retained@.len() implies (
            #[trigger] self.retained@[j]).claims > 0 by {
                assert(0 <= j < ranks@.len());
                assert(order@.contains(j as usize));
                let k = choose|k: int| 0 <= k < order@.len() && order@[k] == j as usize;
                assert(self.retained@[order@[k] as int].claims > 0);
            }
        }
        None
    }

    /// The next blob to give up for a newcomer of `owner`, last used at
    /// `used_at`: only one ranking strictly under it.
    pub fn next_retained_victim_below(&self, owner: RequestClass, used_at: u64, now: u64) -> (victim:
        Option<RetainedBlob>)
        ensures
            victim matches Some(blob) ==> exists|at: int| #[trigger]
                is_next_blob(self.retained@, now, self.ttl, at) && self.retained@[at].blob == blob
                    && ranks_under(
                    blob_ranks(self.retained@, now, self.ttl)[at],
                    blob_rank(owner, Tier::Probation, used_at, now, self.ttl),
                ),
            victim is None ==> forall|at: int| #[trigger]
                is_next_blob(self.retained@, now, self.ttl, at) ==> !ranks_under(
                    blob_ranks(self.retained@, now, self.ttl)[at],
                    blob_rank(owner, Tier::Probation, used_at, now, self.ttl),
                ),
    {
        match self.next_blob(now) {
            Some(at) => {
                let e = &self.retained[at];
                let mine = self.rank(e.owner, e.tier, e.used_at, now);
                let newcomer = self.rank(owner, Tier::Probation, used_at, now);
                proof {
                    assert forall|other: int| #[trigger]
                        is_next_blob(self.retained@, now, self.ttl, other) implies other == at by {
                        if other != at {
                            assert(self.retained@[other].claims == 0);
                            assert(self.retained@[at as int].claims == 0);
                        }
                    }
                }
                if mine.0 < newcomer.0 || (mine.0 == newcomer.0 && mine.1 < newcomer.1) {
                    Some(e.blob)
                } else {
                    None
                }
            },
            None => None,
        }
    }

    /// The blobs to give up, in order, so that a newcomer of `bytes` fits the
    /// budget; `None` when the blobs under it are not enough.
    pub fn plan_retained_room(&self, bytes: u64, owner: RequestClass, used_at: u64, now: u64) -> (plan:
        Option<Vec<RetainedBlob>>)
        requires
            self.wf(),
        ensures
            plan matches Some(blobs) ==> makes_room(
                *self,
                bytes,
                blob_rank(owner, Tier::Probation, used_at, now, self.ttl),
                now,
                blobs@,
            ),
            plan is None ==> forall|blobs: Seq<RetainedBlob>|
                !#[trigger] makes_room(
                    *self,
                    bytes,
                    blob_rank(owner, Tier::Probation, used_at, now, self.ttl),
                    now,
                    blobs,
                ),
    {
        let ranks = self.ranks(now);
        let order = service_order(&ranks);
        let newcomer = self.rank(owner, Tier::Probation, used_at, now);
        let mut plan: Vec<RetainedBlob> = Vec::new();
        let mut used: u64 = self.used_bytes;
        let mut n: usize = 0;
        loop
            invariant
                self.wf(),
                n <= order@.len(),
                is_service_order(ranks@, order@),
                ranks@ == blob_ranks(self.retained@, now, self.ttl),
                newcomer == blob_rank(owner, Tier::Probation, used_at, now, self.ttl),
                plan@ == yielded(self.retained@, order@, n as int),
                used == self.used_bytes - yielded_bytes(self.retained@, order@, n as int),
                used <= self.capacity_bytes,
                forall|k: int|
                    0 <= k < n ==> self.used_bytes - (#[trigger] yielded_bytes(
                        self.retained@,
                        order@,
                        k,
                    )) + bytes > self.capacity_bytes,
                forall|k: int|
                    0 <= k < n && self.retained@[(#[trigger] order@[k]) as int].claims == 0
                        ==> ranks_under(ranks@[order@[k] as int], newcomer),
            decreases order@.len() - n,
        {
            if bytes <= self.capacity_bytes - used {
                proof {
                    assert(is_room_plan(*self, bytes, newcomer, now, order@, n as int, plan@));
                    assert(makes_room(*self, bytes, newcomer, now, plan@));
                }
                return Some(plan);
            }
            if n == order.len() {
                proof {
                    self.no_plan(bytes, newcomer, now, ranks@, order@, n as int);
                }
                return None;
            }
            let at: usize = order[n];
            if self.retained[at].claims == 0 {
                let mine = ranks[at];
                if !(mine.0 < newcomer.0 || (mine.0 == newcomer.0 && mine.1 < newcomer.1)) {
                    proof {
                        self.no_plan(bytes, newcomer, now, ranks@, order@, n as int);
                    }
                    return None;
                }
                proof {
                    self.yield_within_use(ranks@, order@, n + 1);
                }
                used = used - self.retained[at].bytes;
                plan.push(self.retained[at].blob);
            }
            n = n + 1;
        }
    }

    /// Where the first `n` of `order` do not make room and the next may not be
    /// given up, no plan does.
    proof fn no_plan(
        self,
        bytes: u64,
        rank: (u64, u64),
        now: u64,
        ranks: Seq<(u64, u64)>,
        order: Seq<usize>,
        n: int,
    )
        requires
            self.retained@.len() <= usize::MAX,
            ranks == blob_ranks(self.retained@, now, self.ttl),
            is_service_order(ranks, order),
            0 <= n <= order.len(),
            forall|k: int|
                0 <= k <= n ==> self.used_bytes - (#[trigger] yielded_bytes(self.retained@, order, k))
                    + bytes > self.capacity_bytes,
            n < order.len() ==> self.retained@[order[n] as int].claims == 0 && !ranks_under(
                ranks[order[n] as int],
                rank,
            ),
        ensures
            forall|blobs: Seq<RetainedBlob>| !#[trigger] makes_room(self, bytes, rank, now, blobs),
    {
        assert forall|other: Seq<usize>, m: int, blobs: Seq<RetainedBlob>|
            is_service_order(ranks, other) implies !#[trigger] is_room_plan(
            self,
            bytes,
            rank,
            now,
            other,
            m,
            blobs,
        ) by {
            crate::order::service_order_is_unique(ranks, order, other);
            if is_room_plan(self, bytes, rank, now, other, m, blobs) {
                if m <= n {
                    assert(self.used_bytes - yielded_bytes(self.retained@, order, m) + bytes
                        > self.capacity_bytes);
                } else {
                    assert(self.retained@[other[n] as int].claims == 0);
                }
            }
        }
    }

    /// What an order gives back never exceeds what the blobs hold.
    proof fn yield_within_use(self, ranks: Seq<(u64, u64)>, order: Seq<usize>, n: int)
        requires
            self.wf(),
            is_service_order(ranks, order),
            ranks.len() == self.retained@.len(),
            self.retained@.len() <= usize::MAX,
            0 <= n <= order.len(),
        ensures
            0 <= yielded_bytes(self.retained@, order, n) <= self.used_bytes,
    {
        assert forall|a: int, b: int| 0 <= a < b < order.len() implies order[a] != order[b] by {
            assert(precedes(ranks, order[a] as int, order[b] as int));
        }
        distinct_yield_is_bounded(self.retained@, order.take(n));
        yielded_by_prefix(self.retained@, order, n, n);
        live_is_a_size(self.live@, self.live@.len() as int);
    }

    /// Give up one entry for a live snapshot: a retained blob if any is
    /// unclaimed, else the next snapshot.
    pub fn evict_for_live(&mut self, now: u64) -> (victim: Option<KvRamVictim>)
        requires
            old(self).wf(),
        ensures
            final(self).wf(),
            final(self).capacity_bytes == old(self).capacity_bytes,
            final(self).ttl == old(self).ttl,
            final(self).proven == old(self).proven,
            gave_up_for_live(*old(self), now, victim, *final(self)),
    {
        match self.next_blob(now) {
            Some(at) => Some(KvRamVictim::Retained(self.remove_blob(at))),
            None => match self.victim() {
                Some(at) => Some(KvRamVictim::Live(self.remove_live(at))),
                None => None,
            },
        }
    }
}

/// `victim` is what the tier gave up for a live snapshot.
pub open spec fn gave_up_for_live(
    before: HostTier,
    now: u64,
    victim: Option<KvRamVictim>,
    after: HostTier,
) -> bool {
    match victim {
        Some(KvRamVictim::Retained(entry)) => {
            &&& after.live == before.live
            &&& exists|at: int| #[trigger]
                is_next_blob(before.retained@, now, before.ttl, at) && entry == before.retained@[at]
                    && after.retained@ == before.retained@.remove(at)
            &&& after.used_bytes == before.used_bytes - entry.bytes
        },
        Some(KvRamVictim::Live(entry)) => {
            &&& after.retained == before.retained
            &&& forall|j: int|
                0 <= j < before.retained@.len() ==> (#[trigger] before.retained@[j]).claims > 0
            &&& exists|at: int| #[trigger]
                is_next_snapshot(before.live@, at) && entry == before.live@[at] && after.live@
                    == before.live@.remove(at)
            &&& after.used_bytes == before.used_bytes - entry.bytes
        },
        None => {
            &&& after == before
            &&& before.live@.len() == 0
            &&& forall|j: int|
                0 <= j < before.retained@.len() ==> (#[trigger] before.retained@[j]).claims > 0
        },
    }
}

proof fn yielded_by_prefix(
    retained: Seq<RetainedKvRamEntry>,
    order: Seq<usize>,
    n: int,
    k: int,
)
    requires
        0 <= k <= n <= order.len(),
    ensures
        yielded_bytes(retained, order.take(n), k) == yielded_bytes(retained, order, k),
    decreases k,
{
    if k > 0 {
        yielded_by_prefix(retained, order, n, k - 1);
        assert(order.take(n)[k - 1] == order[k - 1]);
    }
}

/// Distinct positions give back no more than all the blobs hold.
proof fn distinct_yield_is_bounded(retained: Seq<RetainedKvRamEntry>, order: Seq<usize>)
    requires
        retained.len() <= usize::MAX,
        forall|a: int| 0 <= a < order.len() ==> 0 <= #[trigger] order[a] < retained.len(),
        forall|a: int, b: int|
            0 <= a < b < order.len() ==> #[trigger] order[a] != #[trigger] order[b],
    ensures
        0 <= yielded_bytes(retained, order, order.len() as int) <= blob_bytes(
            retained,
            retained.len() as int,
        ),
    decreases retained.len(),
{
    if order.len() == 0 {
        blobs_are_a_size(retained, retained.len() as int);
    } else {
        assert(order[0] < retained.len());
        let last = (retained.len() - 1) as usize;
        let rest = retained.drop_last();
        blobs_same(retained, rest, rest.len() as int);
        if order.contains(last) {
            let p = choose|p: int| 0 <= p < order.len() && order[p] == last;
            let shorter = order.remove(p);
            assert forall|a: int| 0 <= a < shorter.len() implies 0 <= #[trigger] shorter[a]
                < rest.len() by {
                if a < p {
                    assert(shorter[a] == order[a]);
                } else {
                    assert(shorter[a] == order[a + 1]);
                }
            }
            distinct_yield_is_bounded(rest, shorter);
            yield_without(retained, order, p, order.len() as int);
            yield_in_part(retained, rest, shorter, shorter.len() as int);
        } else {
            assert forall|a: int| 0 <= a < order.len() implies 0 <= #[trigger] order[a] < rest.len() by {
                assert(order.contains(order[a]));
            }
            distinct_yield_is_bounded(rest, order);
            yield_in_part(retained, rest, order, order.len() as int);
        }
    }
}

proof fn yield_without(retained: Seq<RetainedKvRamEntry>, order: Seq<usize>, p: int, k: int)
    requires
        0 <= p < k <= order.len(),
    ensures
        yielded_bytes(retained, order, k) == yielded_bytes(retained, order.remove(p), k - 1) + (
        if retained[order[p] as int].claims == 0 {
            retained[order[p] as int].bytes as int
        } else {
            0
        }),
    decreases k,
{
    if p < k - 1 {
        yield_without(retained, order, p, k - 1);
        assert(order.remove(p)[k - 2] == order[k - 1]);
    } else {
        yield_same(retained, order, order.remove(p), k - 1);
    }
}

proof fn yield_same(retained: Seq<RetainedKvRamEntry>, a: Seq<usize>, b: Seq<usize>, k: int)
    requires
        0 <= k <= a.len(),
        k <= b.len(),
        forall|i: int| 0 <= i < k ==> a[i] == b[i],
    ensures
        yielded_bytes(retained, a, k) == yielded_bytes(retained, b, k),
    decreases k,
{
    if k > 0 {
        yield_same(retained, a, b, k - 1);
    }
}

proof fn yield_in_part(
    retained: Seq<RetainedKvRamEntry>,
    rest: Seq<RetainedKvRamEntry>,
    order: Seq<usize>,
    k: int,
)
    requires
        retained.len() > 0,
        rest == retained.drop_last(),
        0 <= k <= order.len(),
        forall|a: int| 0 <= a < order.len() ==> 0 <= #[trigger] order[a] < rest.len(),
    ensures
        yielded_bytes(retained, order, k) == yielded_bytes(rest, order, k),
    decreases k,
{
    if k > 0 {
        yield_in_part(retained, rest, order, k - 1);
        assert(retained[order[k - 1] as int] == rest[order[k - 1] as int]);
    }
}

/// The snapshot given up or restored next is worth no more than any other: one
/// on probation goes before every protected one; of one tier an Agent's before
/// every Interactive one; of one class the least recently used; and of those the
/// older request's.
pub proof fn the_next_snapshot_is_worth_least(live: Seq<HostEntry>, at: int, j: int)
    requires
        is_next_snapshot(live, at),
        0 <= j < live.len(),
    ensures
        ({
            let (a, b) = (live[at], live[j]);
            &&& a.tier == Tier::Protected ==> b.tier == Tier::Protected
            &&& a.tier == b.tier && a.owner == RequestClass::Interactive ==> b.owner
                == RequestClass::Interactive
            &&& a.tier == b.tier && a.owner == b.owner ==> a.use_tick <= b.use_tick
            &&& a.tier == b.tier && a.owner == b.owner && a.use_tick == b.use_tick ==> a.request
                <= b.request
        }),
{
}

/// Of any two snapshots of different requests exactly one is worth less, and
/// worth carries over.
pub proof fn snapshots_are_strictly_ordered(a: HostEntry, b: HostEntry, c: HostEntry)
    ensures
        a.request != b.request ==> snapshot_worth_less(a, b) != snapshot_worth_less(b, a),
        !snapshot_worth_less(a, a),
        snapshot_worth_less(a, b) && snapshot_worth_less(b, c) ==> snapshot_worth_less(a, c),
{
}

/// The blob given up next is unclaimed, and of the unclaimed ones the least: one
/// that ranks with the Agents', being one or unused for longer than an
/// Interactive one keeps its class, before any other; of those one on probation;
/// of those the least recently used.
pub proof fn the_next_blob_is_worth_least(
    retained: Seq<RetainedKvRamEntry>,
    now: u64,
    ttl: u64,
    at: int,
    j: int,
)
    requires
        is_next_blob(retained, now, ttl, at),
        0 <= j < retained.len(),
        retained[j].claims == 0,
    ensures
        retained[at].claims == 0,
        ({
            let (a, b) = (retained[at], retained[j]);
            let a_is_stale = a.owner == RequestClass::Agent || a.used_at + ttl < now;
            let b_is_stale = b.owner == RequestClass::Agent || b.used_at + ttl < now;
            &&& b_is_stale ==> a_is_stale
            &&& a_is_stale == b_is_stale ==> {
                &&& a.tier == Tier::Protected ==> b.tier == Tier::Protected
                &&& a.tier == b.tier ==> a.used_at <= b.used_at
            }
        }),
{
    if j != at {
        let ranks = blob_ranks(retained, now, ttl);
        assert(precedes(ranks, at, j));
        assert(ranks[at] == blob_rank(
            retained[at].owner,
            retained[at].tier,
            retained[at].used_at,
            now,
            ttl,
        ));
        assert(ranks[j] == blob_rank(
            retained[j].owner,
            retained[j].tier,
            retained[j].used_at,
            now,
            ttl,
        ));
    }
}

/// One blob ranks under another where it ranks with the Agents' and the other does
/// not, or is on probation and the other not, or was used before it.
pub proof fn ranks_tell_worth(a: RetainedKvRamEntry, b: RetainedKvRamEntry, now: u64, ttl: u64)
    ensures
        ({
            let x = blob_rank(a.owner, a.tier, a.used_at, now, ttl);
            let y = blob_rank(b.owner, b.tier, b.used_at, now, ttl);
            let a_is_stale = a.owner == RequestClass::Agent || a.used_at + ttl < now;
            let b_is_stale = b.owner == RequestClass::Agent || b.used_at + ttl < now;
            &&& a_is_stale && !b_is_stale ==> ranks_under(x, y)
            &&& a_is_stale == b_is_stale ==> {
                &&& a.tier == Tier::Probation && b.tier == Tier::Protected ==> ranks_under(x, y)
                &&& a.tier == b.tier ==> (ranks_under(x, y) <==> a.used_at < b.used_at)
            }
            &&& !(ranks_under(x, y) && ranks_under(y, x))
        }),
{
}

/// A claim let go is one claim less; a restore that landed proves the blob and
/// counts as a use of it, and one that did not leaves it as it was.
pub proof fn a_claim_let_go_is_one_less(entry: RetainedKvRamEntry, restored_at: Option<u64>)
    ensures
        ({
            let after = HostTier::unclaimed(entry, restored_at);
            &&& entry.claims > 0 ==> after.claims + 1 == entry.claims
            &&& entry.claims == 0 ==> after.claims == 0
            &&& after == (RetainedKvRamEntry {
                claims: after.claims,
                used_at: after.used_at,
                tier: after.tier,
                ..entry
            })
            &&& restored_at matches Some(at) ==> after.used_at == at && after.tier
                == Tier::Protected
            &&& restored_at is None ==> after.used_at == entry.used_at && after.tier == entry.tier
        }),
{
}

/// What is held counts what each holds: nothing holds nothing, and one more adds
/// its own.
pub proof fn bytes_add_up(live: Seq<HostEntry>, retained: Seq<RetainedKvRamEntry>, n: int)
    requires
        0 <= n,
    ensures
        live_bytes(live, 0) == 0,
        blob_bytes(retained, 0) == 0,
        live_bytes(live, n + 1) - live_bytes(live, n) == live[n].bytes,
        blob_bytes(retained, n + 1) - blob_bytes(retained, n) == retained[n].bytes,
{
}

/// A plan that makes room gives up unclaimed blobs alone, each ranking under what
/// room is made for; it gives up nothing where there is room already, and the
/// bytes fit once it is carried out.
pub proof fn a_room_plan_gives_up_what_ranks_under(
    tier: HostTier,
    bytes: u64,
    rank: (u64, u64),
    now: u64,
    plan: Seq<RetainedBlob>,
    k: int,
)
    requires
        makes_room(tier, bytes, rank, now, plan),
        0 <= k < plan.len(),
    ensures
        tier.used_bytes + bytes > tier.capacity_bytes,
        exists|j: int|
            0 <= j < tier.retained@.len() && (#[trigger] tier.retained@[j]).blob == plan[k]
                && tier.retained@[j].claims == 0 && ranks_under(
                blob_rank(
                    tier.retained@[j].owner,
                    tier.retained@[j].tier,
                    tier.retained@[j].used_at,
                    now,
                    tier.ttl,
                ),
                rank,
            ),
{
    let ranks = blob_ranks(tier.retained@, now, tier.ttl);
    let (order, n) = choose|order: Seq<usize>, n: int|
        is_service_order(ranks, order) && #[trigger] is_room_plan(
            tier,
            bytes,
            rank,
            now,
            order,
            n,
            plan,
        );
    let m = yielded_at(tier.retained@, order, n, k);
    let j = order[m] as int;
    assert(ranks[j] == blob_rank(
        tier.retained@[j].owner,
        tier.retained@[j].tier,
        tier.retained@[j].used_at,
        now,
        tier.ttl,
    ));
    assert(yielded_bytes(tier.retained@, order, 0) == 0);
}

proof fn yielded_at(
    retained: Seq<RetainedKvRamEntry>,
    order: Seq<usize>,
    n: int,
    k: int,
) -> (m: int)
    requires
        0 <= k < yielded(retained, order, n).len(),
    ensures
        0 <= m < n,
        retained[order[m] as int].claims == 0,
        yielded(retained, order, n)[k] == retained[order[m] as int].blob,
    decreases n,
{
    if k < yielded(retained, order, n - 1).len() {
        yielded_at(retained, order, n - 1, k)
    } else {
        n - 1
    }
}

/// A plan that makes room gives up no more than it takes: what it gives up makes
/// the bytes fit, and one step short of it they would not.
pub proof fn a_room_plan_gives_up_no_more_than_it_takes(
    tier: HostTier,
    bytes: u64,
    rank: (u64, u64),
    now: u64,
    plan: Seq<RetainedBlob>,
) -> (steps: (Seq<usize>, int))
    requires
        makes_room(tier, bytes, rank, now, plan),
    ensures
        ({
            let (order, n) = steps;
            &&& is_service_order(blob_ranks(tier.retained@, now, tier.ttl), order)
            &&& 0 <= n <= order.len()
            &&& plan == yielded(tier.retained@, order, n)
            &&& tier.used_bytes + bytes - yielded_bytes(tier.retained@, order, n)
                <= tier.capacity_bytes
            &&& n > 0 ==> tier.used_bytes + bytes - yielded_bytes(tier.retained@, order, n - 1)
                > tier.capacity_bytes
        }),
{
    let ranks = blob_ranks(tier.retained@, now, tier.ttl);
    let (order, n) = choose|order: Seq<usize>, n: int|
        is_service_order(ranks, order) && #[trigger] is_room_plan(
            tier,
            bytes,
            rank,
            now,
            order,
            n,
            plan,
        );
    if n > 0 {
        assert(tier.used_bytes - yielded_bytes(tier.retained@, order, n - 1) + bytes
            > tier.capacity_bytes);
    }
    (order, n)
}

/// A copy nobody waits for goes before any snapshot of a request: a snapshot is
/// given up only where every copy is claimed, and nothing only where there is
/// nothing to give.
pub proof fn copies_go_before_snapshots(
    before: HostTier,
    now: u64,
    victim: Option<KvRamVictim>,
    after: HostTier,
    j: int,
)
    requires
        gave_up_for_live(before, now, victim, after),
        0 <= j < before.retained@.len(),
        before.retained@[j].claims == 0,
    ensures
        victim matches Some(KvRamVictim::Retained(e)) && e.claims == 0 && after.live == before.live
            && after.used_bytes == before.used_bytes - e.bytes && after.retained@.len()
            == before.retained@.len() - 1,
{
}

} // verus!
