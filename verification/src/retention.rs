//! Retained state: what outlives its request, and how it is given up.
//!
//! Retained state is the first victim. It goes back before any live request is
//! refused, evicted or made to wait; what can be kept in host memory is copied
//! there first, and only over copies worth less than itself.

use crate::checkpoint::{
    gives_a_slot, gives_pages, holds_id, kept, place_of, resolved, CheckpointEntry, CheckpointId,
    RetainedKind, RetainedStateOperation, ReuseSource,
};
use crate::concrete::{request_ok, ConcreteScheduler};
use crate::host::{
    blob_at, blob_rank, blob_ranks, is_next_blob, is_room_plan, makes_room, ranks_under, yielded,
    HostTier, RetainedBlob, RetainedKvRamEntry, Tier,
};
use crate::ledger::{
    charged, debt, debt_grows, device_images, holding, image_on, images_are_counts, images_updated,
    images_without, standing, standing_is_a_count, standing_is_seen,
};
use crate::prefix::{
    after_release, copies_cleared, dropped_by, entry_of, held, keeps_terms, only_retained,
    pages_back, retained_count, same_length, DroppedPrefix, PrefixCache, PrefixEntry, Retention,
    SpilledPrefixId,
};
use crate::retained_slot::{first_slot, given_back, taken, RetainedHolder, RetainedSkip};
use crate::scheduler::{Clock, Compute};
use crate::types::{ComputeError, PrefixId, RequestClass, RequestId, RequestState, SchedEvent};
use vstd::prelude::*;

verus! {

/// `after` begins with `before`: events are only ever added.
pub open spec fn longer(before: Seq<SchedEvent>, after: Seq<SchedEvent>) -> bool {
    &&& before.len() <= after.len()
    &&& forall|i: int| 0 <= i < before.len() ==> #[trigger] after[i] == before[i]
}

/// Whether the event reports upkeep: retained state moved or skipped, a
/// request suspended, or a snapshot lost and its request queued again.
pub open spec fn is_upkeep(event: SchedEvent) -> bool {
    match event {
        SchedEvent::RetainedState { .. } => true,
        SchedEvent::RetainedSlotSkipped { .. } => true,
        SchedEvent::Evicted { .. } => true,
        SchedEvent::Requeued { .. } => true,
        SchedEvent::SnapshotDropped { .. } => true,
        _ => false,
    }
}

/// Whether the event reports upkeep or a shared prefix taken up.
pub open spec fn is_taking_up(event: SchedEvent) -> bool {
    is_upkeep(event) || event is PrefixReused
}

/// `after` is `before` and reports of upkeep.
pub open spec fn grew(before: Seq<SchedEvent>, after: Seq<SchedEvent>) -> bool {
    &&& longer(before, after)
    &&& forall|i: int| before.len() <= i < after.len() ==> is_upkeep(#[trigger] after[i])
}

/// `after` is `before` and reports of retained state moved or given up.
pub open spec fn tidied(before: Seq<SchedEvent>, after: Seq<SchedEvent>) -> bool {
    &&& longer(before, after)
    &&& forall|i: int| before.len() <= i < after.len() ==> (#[trigger] after[i]) is RetainedState
}

/// `after` is `before` and reports of upkeep and of shared prefixes taken up.
pub open spec fn took_up(before: Seq<SchedEvent>, after: Seq<SchedEvent>) -> bool {
    &&& longer(before, after)
    &&& forall|i: int| before.len() <= i < after.len() ==> is_taking_up(#[trigger] after[i])
}

/// The slots after the images of `dropped` prefixes went back.
pub open spec fn slots_after(
    slots: Seq<Option<RetainedHolder>>,
    dropped: Seq<DroppedPrefix>,
) -> Seq<Option<RetainedHolder>>
    decreases dropped.len(),
{
    if dropped.len() == 0 {
        slots
    } else {
        slots_after(
            given_back(
                slots,
                RetainedHolder::Prefix {
                    publisher: dropped[0].publisher,
                    tokens: dropped[0].tokens,
                },
            ),
            dropped.skip(1),
        )
    }
}

/// Where `publisher` is named first in `tails`.
pub open spec fn tail_of(tails: Seq<RequestId>, publisher: RequestId, from: int) -> Option<int>
    decreases tails.len() - from,
{
    if from < 0 || from >= tails.len() {
        None
    } else if tails[from] == publisher {
        Some(from)
    } else {
        tail_of(tails, publisher, from + 1)
    }
}

/// The tails after `publisher` gave its own back.
pub open spec fn without_tail(tails: Seq<RequestId>, publisher: RequestId) -> Seq<RequestId> {
    match tail_of(tails, publisher, 0) {
        Some(i) => tails.remove(i),
        None => tails,
    }
}

proof fn tail_is_first(tails: Seq<RequestId>, publisher: RequestId, from: int)
    requires
        0 <= from <= tails.len(),
    ensures
        tail_of(tails, publisher, from) matches Some(i) ==> from <= i < tails.len() && tails[i]
            == publisher,
    decreases tails.len() - from,
{
    if from < tails.len() && tails[from] != publisher {
        tail_is_first(tails, publisher, from + 1);
    }
}

/// The device checkpoint `id`, if it is one.
pub open spec fn device_entry(entries: Seq<CheckpointEntry>, id: CheckpointId) -> Option<
    CheckpointEntry,
> {
    if holds_id(entries, id) && entries[place_of(entries, id)].tier == ReuseSource::Device {
        Some(entries[place_of(entries, id)])
    } else {
        None
    }
}

/// Whether the newcomer may displace `e`: nobody claims it, and at some moment
/// it ranked strictly under the newcomer.
pub open spec fn displaceable(
    e: RetainedKvRamEntry,
    owner: RequestClass,
    used_at: u64,
    ttl: u64,
) -> bool {
    e.claims == 0 && exists|now: u64| #[trigger]
        ranks_under(
            blob_rank(e.owner, e.tier, e.used_at, now, ttl),
            blob_rank(owner, Tier::Probation, used_at, now, ttl),
        )
}

/// Every blob of `before` is still there, or was displaceable.
pub open spec fn displaced_only_less(
    before: Seq<RetainedKvRamEntry>,
    after: Seq<RetainedKvRamEntry>,
    owner: RequestClass,
    used_at: u64,
    ttl: u64,
) -> bool {
    forall|k: int|
        0 <= k < before.len() ==> after.contains(#[trigger] before[k]) || displaceable(
            before[k],
            owner,
            used_at,
            ttl,
        )
}

/// How what became of a retained prefix is reported.
pub open spec fn prefix_told(
    operation: RetainedStateOperation,
    source: ReuseSource,
) -> SchedEvent {
    SchedEvent::RetainedState { operation, source, kind: RetainedKind::Prefix }
}

/// How what became of a checkpoint is reported.
pub open spec fn image_told(operation: RetainedStateOperation, source: ReuseSource) -> SchedEvent {
    SchedEvent::RetainedState { operation, source, kind: RetainedKind::Checkpoint }
}

/// How a copy that is given up is reported.
pub open spec fn copy_told(blob: RetainedBlob) -> SchedEvent {
    SchedEvent::RetainedState {
        operation: RetainedStateOperation::Discard,
        source: ReuseSource::KvRam,
        kind: blob.kind_of(),
    }
}

/// The blob's latest use is `used_at`; nothing else moved.
pub open spec fn refreshed(
    before: Seq<RetainedKvRamEntry>,
    blob: RetainedBlob,
    used_at: u64,
    after: Seq<RetainedKvRamEntry>,
) -> bool {
    match blob_at(before, blob, 0) {
        None => after == before,
        Some(at) => after == before.update(at, RetainedKvRamEntry { used_at, ..before[at] }),
    }
}

impl<C: Compute, K: Clock> ConcreteScheduler<C, K> {
    /// The invariant holds of a state that differs in its retention ledgers
    /// only, where those add up.
    pub proof fn retention_keeps_order(
        self,
        before: Self,
        owed: Seq<PrefixId>,
        still_owed: Seq<PrefixId>,
    )
        requires
            before.books(owed),
            self.only_retention_moved(before),
            self.ledgers_ok(),
            self.checkpoints.capacity_bytes == before.checkpoints.capacity_bytes,
            self.kv_used_pages == charged(self.requests@) + self.prefix.pins()
                + self.tail_pages@.len(),
            self.kv_used_pages <= self.capacity.kv_pages,
            self.refs_ok(still_owed),
            self.cold_without_reuse(),
            forall|p: PrefixId| #[trigger]
                same_length(before.prefix.entries@, self.prefix.entries@, p),
        ensures
            self.books(still_owed),
            before.owing(owed) ==> self.owing(still_owed),
    {
        assert forall|i: int| 0 <= i < self.requests@.len() implies request_ok(
            #[trigger] self.requests@[i],
            self.config,
            self.prefix.entries@,
        ) by {
            assert(request_ok(before.requests@[i], before.config, before.prefix.entries@));
            if let Some(p) = self.requests@[i].prefix_entry {
                self.standing_is_held(still_owed, i);
                assert(same_length(before.prefix.entries@, self.prefix.entries@, p));
            }
        }
    }

    /// What a request stands on is held.
    pub proof fn standing_is_held(self, owed: Seq<PrefixId>, i: int)
        requires
            self.refs_ok(owed),
            0 <= i < self.requests@.len(),
            self.requests@[i].prefix_entry is Some,
        ensures
            self.prefix.refs(self.requests@[i].prefix_entry->Some_0) >= 1 + debt(
                owed,
                self.requests@[i].prefix_entry->Some_0,
            ),
            held(self.prefix.entries@, self.requests@[i].prefix_entry->Some_0),
    {
        let p = self.requests@[i].prefix_entry->Some_0;
        standing_is_seen(self.requests@, p, i);
        images_are_counts(
            self.checkpoints.entries@,
            p,
            -1,
            self.checkpoints.entries@.len() as int,
        );
        debt_grows(owed, 0, p);
        assert(self.prefix.refs(p) >= 1);
    }

    /// Drop the backend's handle on a published prefix and give back the slot
    /// its image held.
    pub(crate) fn release_prefix_handle(&mut self, publisher: RequestId, tokens: u32)
        requires
            old(self).retained.wf(),
        ensures
            final(self).retained.wf(),
            *final(self) == (ConcreteScheduler { retained: final(self).retained, ..*old(self) }),
            final(self).retained.slots@ == given_back(
                old(self).retained.slots@,
                RetainedHolder::Prefix { publisher, tokens },
            ),
            final(self).retained.slots@.len() == old(self).retained.slots@.len(),
            old(self).head_freed(publisher, tokens),
    {
        self.compute.release_prefix(publisher, tokens);
        self.retained.give_back(RetainedHolder::Prefix { publisher, tokens });
    }

    /// What the device image of `publisher`'s checkpoint held came back: its
    /// slot and its tail page.
    pub open spec fn forgot_image(self, before: Self, publisher: RequestId) -> bool {
        &&& self == (ConcreteScheduler {
            retained: self.retained,
            tail_pages: self.tail_pages,
            kv_used_pages: self.kv_used_pages,
            ..before
        })
        &&& self.retained.slots@ == given_back(
            before.retained.slots@,
            RetainedHolder::Checkpoint { publisher },
        )
        &&& self.tail_pages@ == without_tail(before.tail_pages@, publisher)
        &&& self.kv_used_pages - self.tail_pages@.len() == before.kv_used_pages
            - before.tail_pages@.len()
        &&& self.kv_used_pages <= before.kv_used_pages
    }

    /// One reference to the prefix `p` was let go. Every link of its chain that
    /// nothing else held dropped with it: its pages and its slot came back, and
    /// the backend was told to drop it.
    pub open spec fn let_prefix_go(self, before: Self, p: PrefixId) -> bool {
        let dropped = dropped_by(before.prefix.entries@, Some(p));
        &&& self == (ConcreteScheduler {
            prefix: self.prefix,
            retained: self.retained,
            kv_used_pages: self.kv_used_pages,
            ..before
        })
        &&& self.prefix.same_but_entries(before.prefix)
        &&& self.prefix.entries@ == after_release(before.prefix.entries@, Some(p))
        &&& self.kv_used_pages == before.kv_used_pages - pages_back(dropped)
        &&& self.retained.slots@ == slots_after(before.retained.slots@, dropped)
        &&& before.heads_freed(dropped)
    }

    /// The device checkpoint `e`, out of the ledger, was released: its image,
    /// and its reference on the prefix under it.
    pub open spec fn image_dropped(self, before: Self, e: CheckpointEntry) -> bool {
        &&& before.image_freed(e.publisher)
        &&& exists|middle: Self| #[trigger]
            middle.forgot_image(before, e.publisher) && self.let_prefix_go(middle, e.prefix)
    }

    /// The copy of the checkpoint `id`, out of the ledger, was given up: freed,
    /// or, where a restore still needs it, orphaned.
    pub open spec fn image_copy_dropped(self, before: Self, id: CheckpointId) -> bool {
        let blob = RetainedBlob::Checkpoint(id);
        let copies = before.host.retained@;
        &&& self == (ConcreteScheduler { host: self.host, ..before })
        &&& self.host.same_but_retained(before.host)
        &&& self.host.retained@ == copies_without(copies, blob)
        &&& blob_at(copies, blob, 0) matches Some(at) ==> copies[at].claims == 0
            ==> before.image_freed(copies[at].publisher)
    }

    /// The checkpoint `e`, out of the ledger, was discarded where it lives, and
    /// reported.
    pub open spec fn checkpoint_discarded(
        self,
        before: Self,
        e: CheckpointEntry,
        first: Seq<SchedEvent>,
        last: Seq<SchedEvent>,
    ) -> bool {
        &&& match e.tier {
            ReuseSource::Device => self.image_dropped(before, e),
            ReuseSource::KvRam => self.image_copy_dropped(before, e.id),
        }
        &&& last == first.push(image_told(RetainedStateOperation::Discard, e.tier))
    }

    /// The first `n` checkpoints of `list` were discarded, one after the other.
    pub open spec fn discards(
        self,
        before: Self,
        list: Seq<CheckpointEntry>,
        n: int,
        first: Seq<SchedEvent>,
        last: Seq<SchedEvent>,
    ) -> bool
        decreases n,
    {
        if n <= 0 {
            self == before && last == first
        } else {
            exists|middle: Self, until: Seq<SchedEvent>|
                middle.discards(before, list, n - 1, first, until)
                    && #[trigger] self.checkpoint_discarded(middle, list[n - 1], until, last)
        }
    }

    pub proof fn discards_one_more(
        self,
        middle: Self,
        before: Self,
        list: Seq<CheckpointEntry>,
        n: int,
        first: Seq<SchedEvent>,
        until: Seq<SchedEvent>,
        last: Seq<SchedEvent>,
    )
        requires
            0 <= n,
            middle.discards(before, list, n, first, until),
            self.checkpoint_discarded(middle, list[n], until, last),
        ensures
            self.discards(before, list, n + 1, first, last),
    {
        let m = n + 1;
        assert(self.checkpoint_discarded(middle, list[m - 1], until, last));
    }

    /// Give back what a device checkpoint's image held: its slot and its tail
    /// page. A no-op for one that held neither.
    pub(crate) fn forget_checkpoint_image(&mut self, publisher: RequestId)
        requires
            old(self).retained.wf(),
            old(self).tail_pages@.len() <= old(self).kv_used_pages,
        ensures
            final(self).retained.wf(),
            final(self).retained.slots@.len() == old(self).retained.slots@.len(),
            final(self).forgot_image(*old(self), publisher),
    {
        self.retained.give_back(RetainedHolder::Checkpoint { publisher });
        proof {
            tail_is_first(self.tail_pages@, publisher, 0);
        }
        if let Some(at) = find_tail(&self.tail_pages, publisher) {
            let _ = self.tail_pages.remove(at);
            self.kv_used_pages = self.kv_used_pages.saturating_sub(1);
        }
    }

    /// Drop the backend's handle on a checkpoint and give back what its device
    /// image held.
    pub(crate) fn release_checkpoint_handle(&mut self, publisher: RequestId)
        requires
            old(self).retained.wf(),
            old(self).tail_pages@.len() <= old(self).kv_used_pages,
        ensures
            final(self).retained.wf(),
            final(self).retained.slots@.len() == old(self).retained.slots@.len(),
            final(self).forgot_image(*old(self), publisher),
            old(self).image_freed(publisher),
    {
        self.compute.release_checkpoint(publisher);
        self.forget_checkpoint_image(publisher);
    }

    /// Let one reference to the shared prefix `entry` go. Every link of the
    /// chain that drops returns its own pages, its handle and its slot.
    pub(crate) fn release_prefix_claim(&mut self, entry: PrefixId, Ghost(owed): Ghost<Seq<PrefixId>>)
        requires
            old(self).owing(owed.push(entry)),
        ensures
            final(self).owing(owed),
            final(self).only_retention_moved(*old(self)),
            final(self).let_prefix_go(*old(self), entry),
            final(self).kv_used_pages <= old(self).kv_used_pages,
            final(self).retained_bets() == old(self).retained_bets(),
    {
        let ghost before = *self;
        proof {
            debt_grows(owed, entry, entry);
            standing_is_a_count(self.requests@, entry);
            images_are_counts(
                self.checkpoints.entries@,
                entry,
                -1,
                self.checkpoints.entries@.len() as int,
            );
            assert(self.prefix.refs(entry) >= 1);
            self.tails_are_few();
        }
        let dropped = self.prefix.release(entry);
        let ghost released = self.prefix;
        proof {
            crate::prefix::pins_are_a_count(self.prefix.entries@);
            assert(dropped@.skip(0) =~= dropped@);
        }
        let mut n: usize = 0;
        while n < dropped.len()
            invariant
                n <= dropped@.len(),
                self.retained.wf(),
                *self == (ConcreteScheduler {
                    prefix: self.prefix,
                    retained: self.retained,
                    kv_used_pages: self.kv_used_pages,
                    ..before
                }),
                self.prefix == released,
                self.retained.slots@.len() == before.retained.slots@.len(),
                slots_after(self.retained.slots@, dropped@.skip(n as int)) == slots_after(
                    before.retained.slots@,
                    dropped@,
                ),
                self.kv_used_pages - pages_back(dropped@.skip(n as int)) == before.kv_used_pages
                    - pages_back(dropped@),
                before.kv_used_pages - pages_back(dropped@) >= 0,
                pages_back(dropped@.skip(n as int)) >= 0,
                forall|m: int|
                    0 <= m < n ==> before.head_freed(
                        (#[trigger] dropped@[m]).publisher,
                        dropped@[m].tokens,
                    ),
            decreases dropped@.len() - n,
        {
            let drop = dropped[n];
            proof {
                let rest = dropped@.skip(n as int);
                assert(rest[0] == dropped@[n as int]);
                assert(rest.skip(1) =~= dropped@.skip(n + 1));
                pages_back_is_a_count(rest.skip(1));
            }
            self.kv_used_pages = self.kv_used_pages.saturating_sub(drop.pages);
            self.release_prefix_handle(drop.publisher, drop.tokens);
            n = n + 1;
        }
        proof {
            assert(dropped@.skip(n as int) =~= Seq::<DroppedPrefix>::empty());
            assert forall|p: PrefixId| #[trigger]
                self.prefix.refs(p) == standing(self.requests@, p) + holding(
                    self.checkpoints.entries@,
                    p,
                ) + debt(owed, p) by {
                debt_grows(owed, entry, p);
                assert(released.refs(p) == before.prefix.refs(p) - (if p == entry {
                    1int
                } else {
                    0
                }));
                assert(before.prefix.refs(p) == standing(before.requests@, p) + holding(
                    before.checkpoints.entries@,
                    p,
                ) + debt(owed.push(entry), p));
            }
            assert forall|p: PrefixId| #[trigger]
                same_length(before.prefix.entries@, self.prefix.entries@, p) by {
                assert(keeps_terms(before.prefix.entries@, self.prefix.entries@, p));
            }
            self.retention_keeps_order(before, owed.push(entry), owed);
        }
    }

    /// Discard a checkpoint that has left the ledger, wherever it lives: let go
    /// of what a device image held, or of the blob's budget. A blob a request
    /// has claimed outlives the discard.
    pub(crate) fn discard_checkpoint(
        &mut self,
        entry: CheckpointEntry,
        events: &mut Vec<SchedEvent>,
        Ghost(owed): Ghost<Seq<PrefixId>>,
    )
        requires
            entry.tier == ReuseSource::Device ==> old(self).owing(owed.push(entry.prefix)),
            entry.tier == ReuseSource::KvRam ==> old(self).owing(owed),
        ensures
            final(self).owing(owed),
            final(self).only_retention_moved(*old(self)),
            final(self).kv_used_pages <= old(self).kv_used_pages,
            final(self).checkpoints == old(self).checkpoints,
            final(self).retained_bets() == old(self).retained_bets(),
            final(self).checkpoint_discarded(*old(self), entry, old(events)@, final(events)@),
    {
        events.push(
            SchedEvent::RetainedState {
                operation: RetainedStateOperation::Discard,
                source: entry.tier,
                kind: RetainedKind::Checkpoint,
            },
        );
        let ghost before = *self;
        match entry.tier {
            ReuseSource::Device => {
                proof {
                    self.tails_are_few();
                }
                self.release_checkpoint_handle(entry.publisher);
                proof {
                    assert(self.refs_ok(owed.push(entry.prefix))) by {
                        assert forall|p: PrefixId| #[trigger]
                            self.prefix.refs(p) == standing(self.requests@, p) + holding(
                                self.checkpoints.entries@,
                                p,
                            ) + debt(owed.push(entry.prefix), p) by {
                            assert(before.prefix.refs(p) == self.prefix.refs(p));
                        }
                    }
                    self.retention_keeps_order(
                        before,
                        owed.push(entry.prefix),
                        owed.push(entry.prefix),
                    );
                }
                let ghost forgot = *self;
                self.release_prefix_claim(entry.prefix, Ghost(owed));
                assert(forgot.forgot_image(before, entry.publisher));
            },
            ReuseSource::KvRam => {
                let blob = self.host.discard_retained(RetainedBlob::Checkpoint(entry.id));
                if let Some(blob) = blob {
                    self.compute.release_checkpoint(blob.publisher);
                }
                proof {
                    self.host_moved_only(before, owed);
                }
            },
        }
    }

    /// A change of the host tier's blobs alone keeps the invariant.
    pub proof fn host_moved_only(self, before: Self, owed: Seq<PrefixId>)
        requires
            before.books(owed),
            self == (ConcreteScheduler { host: self.host, ..before }),
            self.host.wf(),
            self.host.live == before.host.live,
            self.host.proven == before.host.proven,
            self.host.capacity_bytes == before.host.capacity_bytes,
            self.host.ttl == before.host.ttl,
        ensures
            self.books(owed),
            before.owing(owed) ==> self.owing(owed),
            self.only_retention_moved(before),
            self.retained_bets() == before.retained_bets(),
    {
        assert forall|p: PrefixId| #[trigger]
            self.prefix.refs(p) == standing(self.requests@, p) + holding(
                self.checkpoints.entries@,
                p,
            ) + debt(owed, p) by {
            assert(before.prefix.refs(p) == self.prefix.refs(p));
        }
        self.retention_keeps_order(before, owed, owed);
    }
}

/// Where `publisher` is named first in `tails`.
pub(crate) fn find_tail(tails: &Vec<RequestId>, publisher: RequestId) -> (at: Option<usize>)
    ensures
        at is Some <==> tail_of(tails@, publisher, 0) is Some,
        at matches Some(i) ==> i < tails@.len() && tail_of(tails@, publisher, 0) == Some(i as int),
        at is Some <==> tails@.contains(publisher),
{
    let mut i: usize = 0;
    while i < tails.len()
        invariant
            i <= tails@.len(),
            tail_of(tails@, publisher, 0) == tail_of(tails@, publisher, i as int),
            forall|j: int| 0 <= j < i ==> tails@[j] != publisher,
        decreases tails@.len() - i,
    {
        if tails[i] == publisher {
            assert(tails@[i as int] == publisher);
            return Some(i);
        }
        i = i + 1;
    }
    None
}

/// What a run of drops gives back is a count.
pub proof fn pages_back_is_a_count(dropped: Seq<DroppedPrefix>)
    ensures
        pages_back(dropped) >= 0,
    decreases dropped.len(),
{
    if dropped.len() > 0 {
        pages_back_is_a_count(dropped.skip(1));
    }
}

/// Whether `id` is in `list`.
pub(crate) fn listed(list: &Vec<u64>, id: u64) -> (found: bool)
    ensures
        found == list@.contains(id),
{
    let mut i: usize = 0;
    while i < list.len()
        invariant
            i <= list@.len(),
            forall|j: int| 0 <= j < i ==> list@[j] != id,
        decreases list@.len() - i,
    {
        if list[i] == id {
            assert(list@[i as int] == id);
            return true;
        }
        i = i + 1;
    }
    false
}

/// References to `p` in all.
pub open spec fn refcount(entries: Seq<PrefixEntry>, p: PrefixId) -> int {
    if held(entries, p) {
        entry_of(entries, p).refcount as int
    } else {
        0
    }
}

/// Whether `p` is retained past its requests.
pub open spec fn is_kept(entries: Seq<PrefixEntry>, p: PrefixId) -> bool {
    held(entries, p) && entry_of(entries, p).retained is Some
}

/// Whether a device checkpoint is one a tail page comes back with: it holds
/// one, and no request is about to be built from it.
pub open spec fn tail_comes_back(
    e: CheckpointEntry,
    tails: Seq<RequestId>,
    claimed: Seq<CheckpointId>,
) -> bool {
    e.tier == ReuseSource::Device && !claimed.contains(e.id) && tails.contains(e.publisher)
}

/// How many of the first `n` checkpoints a tail page comes back with.
pub open spec fn tails_back(
    entries: Seq<CheckpointEntry>,
    tails: Seq<RequestId>,
    claimed: Seq<CheckpointId>,
    n: int,
) -> int
    decreases n,
{
    if n <= 0 {
        0
    } else {
        tails_back(entries, tails, claimed, n - 1) + (if tail_comes_back(
            entries[n - 1],
            tails,
            claimed,
        ) {
            1int
        } else {
            0
        })
    }
}

/// The smaller of a count and the largest `u32`.
pub open spec fn capped(n: int) -> int {
    if n > u32::MAX {
        u32::MAX as int
    } else {
        n
    }
}

impl<C: Compute, K: Clock> ConcreteScheduler<C, K> {
    /// Whether retained state alone holds `p`, and some does: giving it all up
    /// returns the pages.
    pub open spec fn reclaimable(self, p: PrefixId) -> bool {
        let images = holding(self.checkpoints.entries@, p);
        let kept = is_kept(self.prefix.entries@, p);
        &&& images >= 1 || kept
        &&& refcount(self.prefix.entries@, p) == images + (if kept {
            1int
        } else {
            0
        })
    }

    /// The checkpoints an admitted request has claimed on the device and has
    /// not been built from yet.
    pub open spec fn is_claimed_image(self, id: CheckpointId) -> bool {
        exists|i: int| #[trigger] self.claims_image(i, id)
    }

    pub open spec fn claims_image(self, i: int, id: CheckpointId) -> bool {
        &&& 0 <= i < self.requests@.len()
        &&& self.requests@[i].state == RequestState::Admitted
        &&& self.requests@[i].reuse_source == Some(ReuseSource::Device)
        &&& self.requests@[i].checkpoint_entry == Some(id)
    }

    /// Pages of the first `n` prefixes that retained state alone holds.
    pub open spec fn reclaimable_in(self, n: int) -> int
        decreases n,
    {
        if n <= 0 {
            0
        } else {
            self.reclaimable_in(n - 1) + (if self.reclaimable(self.prefix.entries@[n - 1].id) {
                self.prefix.entries@[n - 1].own_pages as int
            } else {
                0
            })
        }
    }

    /// A prefix that retained state alone holds has no live request on it and
    /// no prefix chained on it.
    pub proof fn nothing_live_stands_on_reclaimable(self, p: PrefixId, i: int)
        requires
            self.wf(),
            self.reclaimable(p),
            0 <= i < self.requests@.len(),
        ensures
            self.requests@[i].prefix_entry != Some(p),
    {
        debt_grows(Seq::empty(), 0, p);
        assert(self.prefix.refs(p) == standing(self.requests@, p) + holding(
            self.checkpoints.entries@,
            p,
        ) + debt(Seq::empty(), p));
        crate::prefix::outside_refs_bound(self.prefix.entries@, p);
        if self.requests@[i].prefix_entry == Some(p) {
            standing_is_seen(self.requests@, p, i);
        }
    }

    /// Device checkpoints that stand on `prefix`.
    fn images_standing_on(&self, prefix: PrefixId) -> (n: usize)
        ensures
            n == holding(self.checkpoints.entries@, prefix),
    {
        let mut n: usize = 0;
        let mut i: usize = 0;
        while i < self.checkpoints.entries.len()
            invariant
                i <= self.checkpoints.entries@.len(),
                n == crate::ledger::images_on(self.checkpoints.entries@, prefix, i as int),
                n <= i,
            decreases self.checkpoints.entries@.len() - i,
        {
            let e = &self.checkpoints.entries[i];
            if e.tier == ReuseSource::Device && e.prefix == prefix {
                n = n + 1;
            }
            i = i + 1;
        }
        n
    }

    /// Whether retained state alone holds `prefix`.
    fn retained_alone(&self, prefix: PrefixId) -> (alone: bool)
        ensures
            alone == self.reclaimable(prefix),
    {
        let images: usize = self.images_standing_on(prefix);
        let kept: bool = self.prefix.is_retained(prefix);
        let count: u32 = self.prefix.refcount_of(prefix);
        proof {
            images_are_counts(
                self.checkpoints.entries@,
                prefix,
                -1,
                self.checkpoints.entries@.len() as int,
            );
        }
        if kept {
            count > 0 && (count - 1) as usize == images
        } else {
            images > 0 && count as usize == images
        }
    }

    /// The shared prefixes whose pages would come back if every retained entry
    /// on them were given up.
    pub(crate) fn reclaimable_prefixes(&self) -> (out: Vec<PrefixId>)
        ensures
            forall|p: PrefixId| #[trigger] out@.contains(p) <==> self.reclaimable(p),
    {
        let mut out: Vec<PrefixId> = Vec::new();
        let mut i: usize = 0;
        while i < self.checkpoints.entries.len()
            invariant
                i <= self.checkpoints.entries@.len(),
                forall|k: int| 0 <= k < out@.len() ==> self.reclaimable(#[trigger] out@[k]),
                forall|j: int|
                    0 <= j < i && (#[trigger] self.checkpoints.entries@[j]).tier
                        == ReuseSource::Device && self.reclaimable(
                        self.checkpoints.entries@[j].prefix,
                    ) ==> out@.contains(self.checkpoints.entries@[j].prefix),
            decreases self.checkpoints.entries@.len() - i,
        {
            let p: PrefixId = self.checkpoints.entries[i].prefix;
            let ghost was = out@;
            if !listed(&out, p) && self.retained_alone(p) {
                out.push(p);
                proof {
                    assert(out@[was.len() as int] == p);
                    assert forall|j: int|
                        0 <= j < i && (#[trigger] self.checkpoints.entries@[j]).tier
                            == ReuseSource::Device && self.reclaimable(
                            self.checkpoints.entries@[j].prefix,
                        ) implies out@.contains(self.checkpoints.entries@[j].prefix) by {
                        let k = choose|k: int|
                            0 <= k < was.len() && was[k] == self.checkpoints.entries@[j].prefix;
                        assert(out@[k] == was[k]);
                    }
                }
            }
            i = i + 1;
        }
        let kept = self.prefix.reclaimable_retained();
        let ghost first = out@;
        let mut n: usize = 0;
        while n < kept.len()
            invariant
                n <= kept@.len(),
                kept@ == crate::prefix::retained_ids(
                    self.prefix.entries@,
                    self.prefix.entries@.len() as int,
                ),
                forall|k: int| 0 <= k < out@.len() ==> self.reclaimable(#[trigger] out@[k]),
                first.len() <= out@.len(),
                forall|k: int| 0 <= k < first.len() ==> #[trigger] out@[k] == first[k],
                forall|j: int|
                    0 <= j < n && self.reclaimable(#[trigger] kept@[j]) ==> out@.contains(kept@[j]),
            decreases kept@.len() - n,
        {
            let p: PrefixId = kept[n];
            let ghost was = out@;
            if !listed(&out, p) && self.retained_alone(p) {
                out.push(p);
                proof {
                    assert(out@[was.len() as int] == p);
                    assert forall|j: int|
                        0 <= j < n && self.reclaimable(#[trigger] kept@[j]) implies out@.contains(
                        kept@[j],
                    ) by {
                        let k = choose|k: int| 0 <= k < was.len() && was[k] == kept@[j];
                        assert(out@[k] == was[k]);
                    }
                }
            }
            n = n + 1;
        }
        proof {
            assert forall|p: PrefixId| self.reclaimable(p) implies #[trigger] out@.contains(p) by {
                if is_kept(self.prefix.entries@, p) {
                    crate::prefix::retained_is_listed(self.prefix.entries@, p);
                    let j = choose|j: int| 0 <= j < kept@.len() && kept@[j] == p;
                    assert(self.reclaimable(kept@[j]));
                } else {
                    let j = an_image_stands_there(
                        self.checkpoints.entries@,
                        p,
                        self.checkpoints.entries@.len() as int,
                    );
                    assert(self.checkpoints.entries@[j].prefix == p);
                    let k = choose|k: int| 0 <= k < first.len() && first[k] == p;
                    assert(out@[k] == p);
                }
            }
        }
        out
    }

    /// The device checkpoints admitted requests have claimed.
    pub(crate) fn claimed_device_checkpoints(&self) -> (out: Vec<CheckpointId>)
        ensures
            forall|id: CheckpointId| #[trigger] out@.contains(id) <==> self.is_claimed_image(id),
    {
        let mut out: Vec<CheckpointId> = Vec::new();
        let mut i: usize = 0;
        while i < self.requests.len()
            invariant
                i <= self.requests@.len(),
                forall|k: int| 0 <= k < out@.len() ==> self.is_claimed_image(#[trigger] out@[k]),
                forall|j: int, id: CheckpointId|
                    0 <= j < i && #[trigger] self.claims_image(j, id) ==> out@.contains(id),
            decreases self.requests@.len() - i,
        {
            let r = &self.requests[i];
            let ghost was = out@;
            let on_device: bool = match r.reuse_source {
                Some(source) => source == ReuseSource::Device,
                None => false,
            };
            if r.state == RequestState::Admitted && on_device {
                if let Some(id) = r.checkpoint_entry {
                    out.push(id);
                    proof {
                        assert(self.claims_image(i as int, id));
                        assert(out@[was.len() as int] == id);
                        assert forall|j: int, other: CheckpointId|
                            0 <= j < i && #[trigger] self.claims_image(j, other) implies out@.contains(
                            other,
                        ) by {
                            let k = choose|k: int| 0 <= k < was.len() && was[k] == other;
                            assert(out@[k] == other);
                        }
                    }
                }
            }
            i = i + 1;
        }
        proof {
            assert forall|id: CheckpointId| #[trigger] out@.contains(id) implies self.is_claimed_image(
                id,
            ) by {
                let k = choose|k: int| 0 <= k < out@.len() && out@[k] == id;
                assert(self.is_claimed_image(out@[k]));
            }
        }
        out
    }

    /// The KV pages a checkpoint at `tokens` holds of its own: the page its
    /// opener ends inside.
    pub(crate) fn tail_pages_at(&self, tokens: u32) -> (pages: u32)
        requires
            self.config.kv_page_tokens > 0,
        ensures
            pages == (if tokens % self.config.kv_page_tokens != 0 {
                1int
            } else {
                0
            }),
    {
        if tokens % self.config.kv_page_tokens != 0 {
            1
        } else {
            0
        }
    }

    /// KV pages giving up retained state would return: the tail page of every
    /// device checkpoint nothing is about to be built from, and the prefixes
    /// retained state alone holds.
    pub(crate) fn reclaimable_retained_pages(&self) -> (pages: u32)
        requires
            self.prefix.wf(),
        ensures
            exists|claimed: Seq<CheckpointId>|
                (forall|id: CheckpointId| #[trigger]
                    claimed.contains(id) <==> self.is_claimed_image(id)) && pages == capped(
                    #[trigger] tails_back(
                        self.checkpoints.entries@,
                        self.tail_pages@,
                        claimed,
                        self.checkpoints.entries@.len() as int,
                    ) + self.reclaimable_in(self.prefix.entries@.len() as int),
                ),
    {
        let claimed = self.claimed_device_checkpoints();
        let mut tails: u32 = 0;
        let mut i: usize = 0;
        while i < self.checkpoints.entries.len()
            invariant
                i <= self.checkpoints.entries@.len(),
                tails == capped(
                    tails_back(
                        self.checkpoints.entries@,
                        self.tail_pages@,
                        claimed@,
                        i as int,
                    ),
                ),
                tails_back(self.checkpoints.entries@, self.tail_pages@, claimed@, i as int) >= 0,
            decreases self.checkpoints.entries@.len() - i,
        {
            let e = &self.checkpoints.entries[i];
            if e.tier == ReuseSource::Device && !listed(&claimed, e.id) && listed(
                &self.tail_pages,
                e.publisher,
            ) {
                tails = tails.saturating_add(1);
            }
            i = i + 1;
        }
        let mut pages: u32 = 0;
        let mut n: usize = 0;
        while n < self.prefix.entries.len()
            invariant
                self.prefix.wf(),
                n <= self.prefix.entries@.len(),
                pages == self.reclaimable_in(n as int),
                pages <= crate::prefix::pages_in(self.prefix.entries@, n as int),
            decreases self.prefix.entries@.len() - n,
        {
            proof {
                crate::prefix::runs_pin_less(self.prefix.entries@, n + 1);
            }
            let e = &self.prefix.entries[n];
            if self.retained_alone(e.id) {
                pages = pages + e.own_pages;
            }
            n = n + 1;
        }
        let total: u32 = tails.saturating_add(pages);
        proof {
            let back = tails_back(
                self.checkpoints.entries@,
                self.tail_pages@,
                claimed@,
                self.checkpoints.entries@.len() as int,
            );
            assert(total == capped(back + self.reclaimable_in(self.prefix.entries@.len() as int)));
        }
        total
    }
}

/// A prefix a device checkpoint stands on names one that does.
proof fn an_image_stands_there(entries: Seq<CheckpointEntry>, p: PrefixId, n: int) -> (j: int)
    requires
        0 <= n <= entries.len(),
        crate::ledger::images_on(entries, p, n) >= 1,
    ensures
        0 <= j < n,
        entries[j].tier == ReuseSource::Device,
        entries[j].prefix == p,
    decreases n,
{
    if image_on(entries[n - 1], p) == 1 {
        n - 1
    } else {
        an_image_stands_there(entries, p, n - 1)
    }
}

/// With ascending ids, an entry's place is wherever its id is.
pub proof fn place_is_unique(entries: Seq<CheckpointEntry>, bound: CheckpointId, i: int)
    requires
        crate::checkpoint::ids_ascend(entries, bound),
        0 <= i < entries.len(),
    ensures
        holds_id(entries, entries[i].id),
        place_of(entries, entries[i].id) == i,
{
    let p = place_of(entries, entries[i].id);
    assert(holds_id(entries, entries[i].id));
    if p < i {
        assert(entries[p].id < entries[i].id);
    } else if p > i {
        assert(entries[i].id < entries[p].id);
    }
}

/// Taking out an entry that is not on the device leaves the device's alone.
proof fn device_untouched_by_remove(
    entries: Seq<CheckpointEntry>,
    bound: CheckpointId,
    at: int,
    id: CheckpointId,
)
    requires
        crate::checkpoint::ids_ascend(entries, bound),
        0 <= at < entries.len(),
        entries[at].tier != ReuseSource::Device || entries[at].id != id,
    ensures
        device_entry(entries.remove(at), id) == device_entry(entries, id),
{
    let after = entries.remove(at);
    assert forall|i: int| 0 <= i < after.len() implies (#[trigger] after[i]) == entries[if i < at {
        i
    } else {
        i + 1
    }] by {}
    assert(crate::checkpoint::ids_ascend(after, bound));
    if holds_id(entries, id) {
        let p = place_of(entries, id);
        assert(entries[p].id == id);
        if p != at {
            let now = if p < at { p } else { p - 1 };
            assert(after[now] == entries[p]);
            place_is_unique(after, bound, now);
        } else if holds_id(after, id) {
            let q = place_of(after, id);
            let was = if q < at { q } else { q + 1 };
            assert(after[q] == entries[was]);
            if was < at {
                assert(entries[was].id < entries[at].id);
            } else {
                assert(entries[at].id < entries[was].id);
            }
        }
    } else if holds_id(after, id) {
        let q = place_of(after, id);
        let was = if q < at { q } else { q + 1 };
        assert(after[q] == entries[was]);
    }
}

impl<C: Compute, K: Clock> ConcreteScheduler<C, K> {
    /// Everything but what host memory holds of retained state, as it was in
    /// `before`: no page, slot, device image or reference has moved.
    pub open spec fn only_copies_moved(self, before: Self) -> bool {
        &&& self.only_retention_moved(before)
        &&& self == (ConcreteScheduler {
            prefix: self.prefix,
            checkpoints: self.checkpoints,
            host: self.host,
            ..before
        })
        &&& self.prefix.next_id == before.prefix.next_id
        &&& self.prefix.reused_tok == before.prefix.reused_tok
        &&& self.prefix.pins() == before.prefix.pins()
        &&& retained_count(self.prefix.entries@) == retained_count(before.prefix.entries@)
        // Only what is retained is copied.
        &&& retained_count(before.prefix.entries@) == 0 ==> self.prefix.spilled@.len()
            <= before.prefix.spilled@.len()
        &&& self.checkpoints.entries@.len() <= before.checkpoints.entries@.len()
        &&& forall|p: PrefixId| #[trigger] self.prefix.refs(p) == before.prefix.refs(p)
        &&& forall|p: PrefixId| #[trigger]
            held(self.prefix.entries@, p) == held(before.prefix.entries@, p)
        &&& forall|p: PrefixId| #[trigger]
            keeps_terms(before.prefix.entries@, self.prefix.entries@, p)
        &&& self.checkpoints.same_terms(before.checkpoints)
        &&& device_images(self.checkpoints.entries@) == device_images(before.checkpoints.entries@)
        &&& forall|p: PrefixId| #[trigger]
            holding(self.checkpoints.entries@, p) == holding(before.checkpoints.entries@, p)
        &&& forall|id: CheckpointId| #[trigger]
            device_entry(self.checkpoints.entries@, id) == device_entry(
                before.checkpoints.entries@,
                id,
            )
    }

    proof fn copies_moved_twice(self, middle: Self, before: Self)
        requires
            self.only_copies_moved(middle),
            middle.only_copies_moved(before),
        ensures
            self.only_copies_moved(before),
    {
        assert forall|p: PrefixId| #[trigger] self.prefix.refs(p) == before.prefix.refs(p) by {
            assert(middle.prefix.refs(p) == before.prefix.refs(p));
        }
        assert forall|p: PrefixId| #[trigger]
            held(self.prefix.entries@, p) == held(before.prefix.entries@, p) by {
            assert(held(middle.prefix.entries@, p) == held(before.prefix.entries@, p));
        }
        assert forall|p: PrefixId| #[trigger]
            keeps_terms(before.prefix.entries@, self.prefix.entries@, p) by {
            assert(keeps_terms(before.prefix.entries@, middle.prefix.entries@, p));
            assert(keeps_terms(middle.prefix.entries@, self.prefix.entries@, p));
        }
        assert forall|p: PrefixId| #[trigger]
            holding(self.checkpoints.entries@, p) == holding(before.checkpoints.entries@, p) by {
            assert(holding(middle.checkpoints.entries@, p) == holding(
                before.checkpoints.entries@,
                p,
            ));
        }
        assert forall|id: CheckpointId| #[trigger]
            device_entry(self.checkpoints.entries@, id) == device_entry(
                before.checkpoints.entries@,
                id,
            ) by {
            assert(device_entry(middle.checkpoints.entries@, id) == device_entry(
                before.checkpoints.entries@,
                id,
            ));
        }
    }

    /// Moving copies alone keeps the invariant.
    proof fn copies_keep_order(self, before: Self)
        requires
            before.books(Seq::empty()),
            self.only_copies_moved(before),
            self.ledgers_ok(),
        ensures
            self.books(Seq::empty()),
            before.wf() ==> self.wf(),
            self.retained_bets() == before.retained_bets(),
    {
        assert forall|p: PrefixId| #[trigger]
            self.prefix.refs(p) == standing(self.requests@, p) + holding(
                self.checkpoints.entries@,
                p,
            ) + debt(Seq::empty(), p) by {
            assert(before.prefix.refs(p) == standing(before.requests@, p) + holding(
                before.checkpoints.entries@,
                p,
            ) + debt(Seq::empty(), p));
            assert(holding(self.checkpoints.entries@, p) == holding(before.checkpoints.entries@, p));
        }
        assert forall|p: PrefixId| #[trigger]
            same_length(before.prefix.entries@, self.prefix.entries@, p) by {
            assert(keeps_terms(before.prefix.entries@, self.prefix.entries@, p));
        }
        self.retention_keeps_order(before, Seq::empty(), Seq::empty());
    }

    /// What named the copy `entry` is gone, and the backend was told to free
    /// it.
    pub open spec fn name_forgotten(self, before: Self, entry: RetainedKvRamEntry) -> bool {
        match entry.blob {
            RetainedBlob::Checkpoint(id) => {
                &&& self.prefix == before.prefix
                &&& match resolved(before.checkpoints, Some(id), ReuseSource::KvRam) {
                    None => self.checkpoints == before.checkpoints,
                    Some(at) => self.checkpoints.same_terms(before.checkpoints)
                        && self.checkpoints.entries@ == before.checkpoints.entries@.remove(at),
                }
                &&& before.image_freed(entry.publisher)
            },
            RetainedBlob::Prefix(id) => {
                &&& self.checkpoints == before.checkpoints
                &&& self.copy_forgotten(before, id)
            },
        }
    }

    /// The copy `id` of a prefix is forgotten, if there was one: out of the list
    /// and named by no entry, and the backend was told to free it.
    pub open spec fn copy_forgotten(self, before: Self, id: SpilledPrefixId) -> bool {
        ||| self.prefix == before.prefix && forall|j: int|
            0 <= j < before.prefix.spilled@.len() ==> (
            #[trigger] before.prefix.spilled@[j]).id != id
        ||| exists|at: int|
            0 <= at < before.prefix.spilled@.len() && (
            #[trigger] before.prefix.spilled@[at]).id == id && self.prefix == (PrefixCache {
                entries: self.prefix.entries,
                spilled: self.prefix.spilled,
                ..before.prefix
            }) && self.prefix.spilled@ == before.prefix.spilled@.remove(at) && copies_cleared(
                before.prefix.entries@,
                self.prefix.entries@,
                id,
            ) && before.copy_freed(
                before.prefix.spilled@[at].publisher,
                before.prefix.spilled@[at].length_tokens,
            )
    }

    /// A copy already out of the tier's budget: drop what names it, free it and
    /// report the discard.
    pub(crate) fn forget_kv_ram_blob(
        &mut self,
        entry: RetainedKvRamEntry,
        events: &mut Vec<SchedEvent>,
    )
        requires
            old(self).books(Seq::empty()),
        ensures
            final(self).books(Seq::empty()),
            old(self).wf() ==> final(self).wf(),
            final(self).only_copies_moved(*old(self)),
            final(self).host == old(self).host,
            final(events)@ == old(events)@.push(copy_told(entry.blob)),
            final(self).name_forgotten(*old(self), entry),
    {
        let ghost before = *self;
        let kind = entry.blob.kind();
        match entry.blob {
            RetainedBlob::Checkpoint(id) => {
                if self.checkpoints.still_in(Some(id), ReuseSource::KvRam).is_some() {
                    let _ = self.checkpoints.discard(id);
                    proof {
                        self.copy_left_the_pool(before, id);
                    }
                } else {
                    proof {
                        self.nothing_moved(before);
                    }
                }
                self.compute.release_checkpoint(entry.publisher);
            },
            RetainedBlob::Prefix(id) => {
                let forgotten = self.prefix.forget_spilled(id);
                proof {
                    self.only_names_moved(before);
                }
                if let Some(spilled) = forgotten {
                    self.compute.discard_spilled_prefix(spilled.publisher, spilled.length_tokens);
                }
            },
        }
        events.push(
            SchedEvent::RetainedState {
                operation: RetainedStateOperation::Discard,
                source: ReuseSource::KvRam,
                kind,
            },
        );
    }

    proof fn nothing_moved(self, before: Self)
        requires
            self == before,
            before.books(Seq::empty()),
        ensures
            self.only_copies_moved(before),
    {
    }

    proof fn only_names_moved(self, before: Self)
        requires
            before.books(Seq::empty()),
            self == (ConcreteScheduler { prefix: self.prefix, ..before }),
            self.prefix.wf(),
            self.prefix.page_tokens == before.prefix.page_tokens,
            self.prefix.next_id == before.prefix.next_id,
            self.prefix.reused_tok == before.prefix.reused_tok,
            self.prefix.pins() == before.prefix.pins(),
            retained_count(self.prefix.entries@) == retained_count(before.prefix.entries@),
            retained_count(before.prefix.entries@) == 0 ==> self.prefix.spilled@.len()
                <= before.prefix.spilled@.len(),
            forall|p: PrefixId| #[trigger] self.prefix.refs(p) == before.prefix.refs(p),
            forall|p: PrefixId| #[trigger]
                held(self.prefix.entries@, p) == held(before.prefix.entries@, p),
            forall|p: PrefixId| #[trigger]
                keeps_terms(before.prefix.entries@, self.prefix.entries@, p),
        ensures
            self.only_copies_moved(before),
            self.books(Seq::empty()),
            before.wf() ==> self.wf(),
    {
        self.copies_keep_order(before);
    }

    proof fn copy_left_the_pool(self, before: Self, id: CheckpointId)
        requires
            before.books(Seq::empty()),
            self == (ConcreteScheduler { checkpoints: self.checkpoints, ..before }),
            self.checkpoints.wf(),
            self.checkpoints.same_terms(before.checkpoints),
            holds_id(before.checkpoints.entries@, id),
            before.checkpoints.entries@[place_of(before.checkpoints.entries@, id)].tier
                == ReuseSource::KvRam,
            self.checkpoints.entries@ == before.checkpoints.entries@.remove(
                place_of(before.checkpoints.entries@, id),
            ),
        ensures
            self.only_copies_moved(before),
            self.books(Seq::empty()),
            before.wf() ==> self.wf(),
    {
        let entries = before.checkpoints.entries@;
        let at = place_of(entries, id);
        assert(entries[at].id == id);
        assert forall|p: PrefixId| #[trigger]
            holding(self.checkpoints.entries@, p) == holding(entries, p) by {
            images_without(entries, at, p, entries.len() as int);
        }
        images_without(entries, at, 0, entries.len() as int);
        assert forall|other: CheckpointId| #[trigger]
            device_entry(self.checkpoints.entries@, other) == device_entry(entries, other) by {
            device_untouched_by_remove(entries, before.checkpoints.next_id, at, other);
        }
        self.copies_keep_order(before);
    }

    /// The copy `blob` was given up: out of the tier, or, where a restore still
    /// needs it, orphaned in it. Nothing is done for an image the pool does not
    /// have there.
    #[verifier::opaque]
    pub open spec fn gave_up_copy(
        self,
        before: Self,
        blob: RetainedBlob,
        first: Seq<SchedEvent>,
        last: Seq<SchedEvent>,
    ) -> bool {
        let copies = before.host.retained@;
        &&& self.only_copies_moved(before)
        &&& match blob {
            RetainedBlob::Checkpoint(id) => match resolved(
                before.checkpoints,
                Some(id),
                ReuseSource::KvRam,
            ) {
                Some(at) => exists|middle: Self|
                    middle == (ConcreteScheduler { checkpoints: middle.checkpoints, ..before })
                        && middle.checkpoints.entries@ == before.checkpoints.entries@.remove(at)
                        && #[trigger] self.image_copy_dropped(middle, id) && last == first.push(
                        copy_told(blob),
                    ),
                None => self == before && last == first,
            },
            RetainedBlob::Prefix(_) => {
                &&& self.host.same_but_retained(before.host)
                &&& self.host.retained@ == copies_without(copies, blob)
                &&& match blob_at(copies, blob, 0) {
                    Some(at) if copies[at].claims == 0 => self.name_forgotten(before, copies[at])
                        && last == first.push(copy_told(blob)),
                    _ => self.prefix == before.prefix && self.checkpoints == before.checkpoints
                        && last == first,
                }
            },
        }
    }

    /// Give up the copy `blob`, whichever kind it is.
    pub(crate) fn discard_kv_ram_blob(&mut self, blob: RetainedBlob, events: &mut Vec<SchedEvent>)
        requires
            old(self).wf(),
        ensures
            final(self).wf(),
            final(self).only_copies_moved(*old(self)),
            tidied(old(events)@, final(events)@),
            final(self).gave_up_copy(*old(self), blob, old(events)@, final(events)@),
    {
        reveal(ConcreteScheduler::gave_up_copy);
        let ghost before = *self;
        match blob {
            RetainedBlob::Checkpoint(id) => {
                if self.checkpoints.still_in(Some(id), ReuseSource::KvRam).is_some() {
                    let entry = self.checkpoints.discard(id);
                    proof {
                        self.copy_left_the_pool(before, id);
                    }
                    let ghost middle = *self;
                    if let Some(entry) = entry {
                        self.discard_checkpoint(entry, events, Ghost(Seq::empty()));
                        proof {
                            assert(self.only_copies_moved(middle));
                            self.copies_moved_twice(middle, before);
                        }
                    }
                } else {
                    proof {
                        self.nothing_moved(before);
                    }
                }
            },
            RetainedBlob::Prefix(_) => {
                let entry = self.host.discard_retained(blob);
                proof {
                    crate::host::blob_is_first(before.host.retained@, blob, 0);
                    self.host_moved_only(before, Seq::empty());
                    assert(self.only_copies_moved(before));
                }
                let ghost middle = *self;
                if let Some(entry) = entry {
                    self.forget_kv_ram_blob(entry, events);
                    proof {
                        self.copies_moved_twice(middle, before);
                    }
                }
            },
        }
    }
}

/// The copies after `blob` was given up.
pub open spec fn copies_without(copies: Seq<RetainedKvRamEntry>, blob: RetainedBlob) -> Seq<
    RetainedKvRamEntry,
> {
    match blob_at(copies, blob, 0) {
        None => copies,
        Some(at) => if copies[at].claims > 0 {
            copies.update(at, RetainedKvRamEntry { orphaned: true, ..copies[at] })
        } else {
            copies.remove(at)
        },
    }
}

/// Every blob of `now` was there in `before`.
pub open spec fn nothing_added(
    before: Seq<RetainedKvRamEntry>,
    now: Seq<RetainedKvRamEntry>,
) -> bool {
    forall|k: int| 0 <= k < now.len() ==> before.contains(#[trigger] now[k])
}

/// Taking out one displaceable blob more.
proof fn displacing_one(
    before: Seq<RetainedKvRamEntry>,
    now: Seq<RetainedKvRamEntry>,
    at: int,
    owner: RequestClass,
    used_at: u64,
    ttl: u64,
)
    requires
        displaced_only_less(before, now, owner, used_at, ttl),
        nothing_added(before, now),
        0 <= at < now.len(),
        displaceable(now[at], owner, used_at, ttl),
    ensures
        displaced_only_less(before, now.remove(at), owner, used_at, ttl),
        nothing_added(before, now.remove(at)),
{
    let after = now.remove(at);
    assert forall|k: int| 0 <= k < before.len() implies after.contains(#[trigger] before[k])
        || displaceable(before[k], owner, used_at, ttl) by {
        if now.contains(before[k]) {
            let j = choose|j: int| 0 <= j < now.len() && now[j] == before[k];
            if j < at {
                assert(after[j] == now[j]);
            } else if j > at {
                assert(after[j - 1] == now[j]);
            }
        }
    }
    assert forall|k: int| 0 <= k < after.len() implies before.contains(#[trigger] after[k]) by {
        let was = if k < at { k } else { k + 1 };
        assert(after[k] == now[was]);
    }
}

/// A planned blob is one of the tier's, and displaceable.
proof fn planned_is_displaceable(
    tier: HostTier,
    bytes: u64,
    owner: RequestClass,
    used_at: u64,
    now: u64,
    plan: Seq<RetainedBlob>,
    m: int,
)
    requires
        tier.wf(),
        makes_room(
            tier,
            bytes,
            blob_rank(owner, Tier::Probation, used_at, now, tier.ttl),
            now,
            plan,
        ),
        0 <= m < plan.len(),
    ensures
        exists|i: int|
            0 <= i < tier.retained@.len() && (#[trigger] tier.retained@[i]).blob == plan[m]
                && displaceable(tier.retained@[i], owner, used_at, tier.ttl),
{
    let rank = blob_rank(owner, Tier::Probation, used_at, now, tier.ttl);
    let (order, n) = choose|order: Seq<usize>, n: int|
        crate::order::is_service_order(blob_ranks(tier.retained@, now, tier.ttl), order)
            && #[trigger] is_room_plan(tier, bytes, rank, now, order, n, plan);
    let k = yielded_from(tier.retained@, order, n, m);
    let i = order[k] as int;
    let e = tier.retained@[i];
    assert(ranks_under(blob_ranks(tier.retained@, now, tier.ttl)[i], rank));
    assert(ranks_under(blob_rank(e.owner, e.tier, e.used_at, now, tier.ttl), rank));
    assert(displaceable(e, owner, used_at, tier.ttl));
}

proof fn yielded_from(
    retained: Seq<RetainedKvRamEntry>,
    order: Seq<usize>,
    n: int,
    m: int,
) -> (k: int)
    requires
        0 <= n <= order.len(),
        0 <= m < yielded(retained, order, n).len(),
    ensures
        0 <= k < n,
        retained[order[k] as int].claims == 0,
        retained[order[k] as int].blob == yielded(retained, order, n)[m],
    decreases n,
{
    if retained[order[n - 1] as int].claims == 0 && m == yielded(retained, order, n).len() - 1 {
        n - 1
    } else {
        yielded_from(retained, order, n - 1, m)
    }
}

/// The blob found is the one of that name.
proof fn found_blob(
    before: Seq<RetainedKvRamEntry>,
    now: Seq<RetainedKvRamEntry>,
    blob: RetainedBlob,
    i: int,
)
    requires
        nothing_added(before, now),
        forall|a: int, b: int|
            0 <= a < b < before.len() ==> (#[trigger] before[a]).blob != (#[trigger] before[b]).blob,
        0 <= i < before.len(),
        before[i].blob == blob,
        blob_at(now, blob, 0) is Some,
    ensures
        0 <= blob_at(now, blob, 0)->Some_0 < now.len(),
        now[blob_at(now, blob, 0)->Some_0] == before[i],
{
    crate::host::blob_is_first(now, blob, 0);
    let at = blob_at(now, blob, 0)->Some_0;
    assert(before.contains(now[at]));
    let j = choose|j: int| 0 <= j < before.len() && before[j] == now[at];
    if j < i {
        assert(before[j].blob != before[i].blob);
    } else if j > i {
        assert(before[i].blob != before[j].blob);
    }
}

/// What making room for a copy went through: the clock's reading, what was
/// planned to go by it, the state and the reports once that had gone, and how
/// many went past the plan.
pub struct CopyRoomTrace<C: Compute, K: Clock> {
    pub now: u64,
    pub plan: Option<Seq<RetainedBlob>>,
    pub planned: ConcreteScheduler<C, K>,
    pub told: Seq<SchedEvent>,
    pub further: int,
}

impl<C: Compute, K: Clock> CopyRoomTrace<C, K> {
    /// What led from `before` to `after`. Nothing goes where the copies ranking
    /// under the newcomer are not enough. Otherwise the shortest run that makes
    /// room in the budget goes, and then, while the backend has no span, one
    /// more at a time.
    #[verifier::opaque]
    pub open spec fn explains(
        self,
        before: ConcreteScheduler<C, K>,
        after: ConcreteScheduler<C, K>,
        bytes: u64,
        owner: RequestClass,
        used_at: u64,
        room: bool,
        first: Seq<SchedEvent>,
        last: Seq<SchedEvent>,
    ) -> bool {
        let rank = blob_rank(owner, Tier::Probation, used_at, self.now, before.host.ttl);
        &&& call_ensures(K::now, (&before.clock,), self.now)
        &&& match self.plan {
            None => {
                &&& forall|plan: Seq<RetainedBlob>|
                    !#[trigger] makes_room(before.host, bytes, rank, self.now, plan)
                &&& !room
                &&& after == before
                &&& last == first
            },
            Some(plan) => {
                &&& makes_room(before.host, bytes, rank, self.now, plan)
                &&& self.planned.gave_up_copies(
                    before,
                    plan,
                    plan.len() as int,
                    first,
                    self.told,
                )
                &&& 0 <= self.further
                &&& after.some_yielded(
                    self.planned,
                    self.further,
                    bytes,
                    owner,
                    used_at,
                    self.told,
                    last,
                )
                &&& room ==> after.found_room(bytes)
                &&& !room ==> after.found_short(bytes) && exists|now: u64|
                    #![trigger after.none_yields(owner, used_at, now)]
                    call_ensures(K::now, (&after.clock,), now) && after.none_yields(
                        owner,
                        used_at,
                        now,
                    )
            },
        }
    }
}

/// What copying retained state to host memory went through: the size the
/// backend gave; the state and the reports once room was made for it, and
/// whether there is room; and what the backend answered the copy with, if it
/// was asked.
pub struct CopyTrace<C: Compute, K: Clock> {
    pub size: Result<u64, ComputeError>,
    pub room: bool,
    pub roomy: ConcreteScheduler<C, K>,
    pub told: Seq<SchedEvent>,
    pub answer: Option<Result<u64, ComputeError>>,
}

impl<C: Compute, K: Clock> CopyTrace<C, K> {
    /// Room is made for exactly the size the backend gave, and only then is it
    /// asked to copy.
    pub open spec fn seeks_room(
        self,
        before: ConcreteScheduler<C, K>,
        owner: RequestClass,
        used_at: u64,
        first: Seq<SchedEvent>,
    ) -> bool {
        &&& match self.size {
            Ok(bytes) => exists|trace: CopyRoomTrace<C, K>| #[trigger]
                trace.explains(
                    before,
                    self.roomy,
                    bytes,
                    owner,
                    used_at,
                    self.room,
                    first,
                    self.told,
                ),
            Err(_) => !self.room && self.roomy == before && self.told == first,
        }
        &&& self.roomy.only_copies_moved(before)
        &&& self.answer is Some <==> self.room
    }

    /// The copy of the prefix `entry` that led from `before` to `after`. The
    /// tier takes what the backend copied where its budget still does and the
    /// prefix is still retained.
    #[verifier::opaque]
    pub open spec fn explains_prefix(
        self,
        before: ConcreteScheduler<C, K>,
        after: ConcreteScheduler<C, K>,
        entry: PrefixId,
        publisher: RequestId,
        tokens: u32,
        retention: Retention,
        written: bool,
        first: Seq<SchedEvent>,
        last: Seq<SchedEvent>,
    ) -> bool {
        &&& call_ensures(
            C::prefix_snapshot_size,
            (&*before.compute, publisher, tokens),
            self.size,
        )
        &&& self.seeks_room(before, retention.class, retention.used_at, first)
        &&& self.answer matches Some(answer) ==> call_ensures(
            C::spill_prefix,
            (&*self.roomy.compute, publisher, tokens),
            answer,
        )
        &&& match self.answer {
            Some(Ok(bytes)) => {
                let copy = self.roomy.prefix.next_spill;
                &&& written == (is_kept(self.roomy.prefix.entries@, entry) && copy < u64::MAX
                    && blob_at(self.roomy.host.retained@, RetainedBlob::Prefix(copy), 0) is None
                    && self.roomy.host.used_bytes + bytes <= self.roomy.host.capacity_bytes)
                &&& written ==> after.host.retained@ == self.roomy.host.retained@.push(
                    RetainedKvRamEntry {
                        blob: RetainedBlob::Prefix(copy),
                        publisher,
                        owner: retention.class,
                        bytes,
                        used_at: retention.used_at,
                        tier: Tier::Probation,
                        claims: 0,
                        orphaned: false,
                    },
                ) && after.is_copied(before, entry, copy) && after.prefix.spilled@.drop_last()
                    == self.roomy.prefix.spilled@ && last == self.told.push(
                    prefix_told(RetainedStateOperation::Spill, ReuseSource::KvRam),
                )
                &&& !written ==> after.host == self.roomy.host && after.prefix.spilled@
                    == self.roomy.prefix.spilled@ && before.copy_freed(publisher, tokens) && last
                    == self.told
                // What stands on the device stands as it did.
                &&& after.only_copies_moved(self.roomy)
                &&& after.checkpoints == self.roomy.checkpoints
            },
            _ => !written && after == self.roomy && last == self.told,
        }
    }

    /// The copy of the checkpoint `entry` that led from `before` to `after`.
    #[verifier::opaque]
    pub open spec fn explains_image(
        self,
        before: ConcreteScheduler<C, K>,
        after: ConcreteScheduler<C, K>,
        entry: CheckpointEntry,
        spilled: bool,
        first: Seq<SchedEvent>,
        last: Seq<SchedEvent>,
    ) -> bool {
        &&& call_ensures(
            C::checkpoint_snapshot_size,
            (&*before.compute, entry.publisher),
            self.size,
        )
        &&& self.seeks_room(before, entry.owner, entry.used_at, first)
        &&& self.answer matches Some(answer) ==> call_ensures(
            C::spill_checkpoint,
            (&*self.roomy.compute, entry.publisher),
            answer,
        )
        &&& match self.answer {
            Some(Ok(bytes)) => {
                let copies = self.roomy.host.retained@;
                &&& spilled == (blob_at(copies, RetainedBlob::Checkpoint(entry.id), 0) is None
                    && self.roomy.host.used_bytes + bytes <= self.roomy.host.capacity_bytes
                    && self.roomy.checkpoints.tiers.carries(ReuseSource::KvRam))
                &&& spilled ==> after.image_moved(self.roomy, entry, bytes) && last
                    == self.told.push(image_told(RetainedStateOperation::Spill, ReuseSource::KvRam))
                // The backend released its device image all the same.
                &&& !spilled ==> after.forgot_image(self.roomy, entry.publisher) && last
                    == self.told
            },
            _ => !spilled && after == self.roomy && last == self.told,
        }
    }
}

impl<C: Compute, K: Clock> ConcreteScheduler<C, K> {
    /// The device checkpoint `e` moved to host memory, as `bytes`: its image is
    /// forgotten, its entry is of that tier, the tier holds its blob, and its
    /// reference on the prefix under it is let go.
    pub open spec fn image_moved(self, before: Self, e: CheckpointEntry, bytes: u64) -> bool {
        let at = place_of(before.checkpoints.entries@, e.id);
        exists|forgot: Self, moved: Self|
            #![trigger forgot.forgot_image(before, e.publisher), self.let_prefix_go(moved, e.prefix)]
            {
                &&& forgot.forgot_image(before, e.publisher)
                &&& moved == (ConcreteScheduler {
                    checkpoints: moved.checkpoints,
                    host: moved.host,
                    ..forgot
                })
                &&& moved.checkpoints.same_terms(before.checkpoints)
                &&& moved.checkpoints.entries@ == before.checkpoints.entries@.update(
                    at,
                    CheckpointEntry {
                        tier: ReuseSource::KvRam,
                        ..before.checkpoints.entries@[at]
                    },
                )
                &&& moved.host.same_but_retained(before.host)
                &&& moved.host.retained@ == before.host.retained@.push(
                    RetainedKvRamEntry {
                        blob: RetainedBlob::Checkpoint(e.id),
                        publisher: e.publisher,
                        owner: e.owner,
                        bytes,
                        used_at: e.used_at,
                        tier: Tier::Probation,
                        claims: 0,
                        orphaned: false,
                    },
                )
                &&& self.let_prefix_go(moved, e.prefix)
            }
    }

    /// The first `n` copies of `plan` were given up, in order.
    pub open spec fn gave_up_copies(
        self,
        before: Self,
        plan: Seq<RetainedBlob>,
        n: int,
        first: Seq<SchedEvent>,
        last: Seq<SchedEvent>,
    ) -> bool
        decreases n,
    {
        if n <= 0 {
            self == before && last == first
        } else {
            exists|middle: Self, until: Seq<SchedEvent>|
                middle.gave_up_copies(before, plan, n - 1, first, until)
                    && #[trigger] self.gave_up_copy(middle, plan[n - 1], until, last)
        }
    }

    proof fn gave_up_one_more(
        self,
        middle: Self,
        before: Self,
        plan: Seq<RetainedBlob>,
        n: int,
        first: Seq<SchedEvent>,
        until: Seq<SchedEvent>,
        last: Seq<SchedEvent>,
    )
        requires
            0 <= n,
            middle.gave_up_copies(before, plan, n, first, until),
            self.gave_up_copy(middle, plan[n], until, last),
        ensures
            self.gave_up_copies(before, plan, n + 1, first, last),
    {
        let m = n + 1;
        assert(self.gave_up_copy(middle, plan[m - 1], until, last));
    }

    /// The copy at `at` is the next by the reading `now` and ranks under one of
    /// `owner` last used at `used_at`.
    pub open spec fn yields_to(
        self,
        owner: RequestClass,
        used_at: u64,
        now: u64,
        at: int,
    ) -> bool {
        &&& is_next_blob(self.host.retained@, now, self.host.ttl, at)
        &&& ranks_under(
            blob_ranks(self.host.retained@, now, self.host.ttl)[at],
            blob_rank(owner, Tier::Probation, used_at, now, self.host.ttl),
        )
    }

    /// Host memory being short of `bytes`, the next copy that yields left it.
    #[verifier::opaque]
    pub open spec fn one_yielded(
        self,
        before: Self,
        bytes: u64,
        owner: RequestClass,
        used_at: u64,
        first: Seq<SchedEvent>,
        last: Seq<SchedEvent>,
    ) -> bool {
        &&& before.found_short(bytes)
        &&& self.only_copies_moved(before)
        &&& exists|now: u64, at: int|
            call_ensures(K::now, (&before.clock,), now) && #[trigger] before.yields_to(
                owner,
                used_at,
                now,
                at,
            ) && self.host.retained@ == before.host.retained@.remove(at) && self.host.used_bytes
                == before.host.used_bytes - before.host.retained@[at].bytes && self.name_forgotten(
                before,
                before.host.retained@[at],
            ) && last == first.push(copy_told(before.host.retained@[at].blob))
    }

    /// `n` copies yielded, one after the other.
    pub open spec fn some_yielded(
        self,
        before: Self,
        n: int,
        bytes: u64,
        owner: RequestClass,
        used_at: u64,
        first: Seq<SchedEvent>,
        last: Seq<SchedEvent>,
    ) -> bool
        decreases n,
    {
        if n <= 0 {
            self == before && last == first
        } else {
            exists|middle: Self, until: Seq<SchedEvent>|
                middle.some_yielded(before, n - 1, bytes, owner, used_at, first, until)
                    && #[trigger] self.one_yielded(middle, bytes, owner, used_at, until, last)
        }
    }

    /// Make room in host memory for a retained copy of `bytes`, captured by
    /// `owner` and last used at `used_at`: `true` when the tier can both hold
    /// it and place it. Only copies ranking under it are given up, one at a
    /// time in rank order; whatever was given up stays given up.
    pub fn make_kv_ram_room_for_retained(
        &mut self,
        bytes: u64,
        owner: RequestClass,
        used_at: u64,
        events: &mut Vec<SchedEvent>,
    ) -> (room: bool)
        requires
            old(self).wf(),
        ensures
            final(self).wf(),
            final(self).only_copies_moved(*old(self)),
            tidied(old(events)@, final(events)@),
            displaced_only_less(
                old(self).host.retained@,
                final(self).host.retained@,
                owner,
                used_at,
                old(self).host.ttl,
            ),
            nothing_added(old(self).host.retained@, final(self).host.retained@),
            room ==> final(self).host.used_bytes + bytes <= final(self).host.capacity_bytes,
            // What was planned, what went, and what the backend said of it.
            exists|trace: CopyRoomTrace<C, K>| #[trigger]
                trace.explains(
                    *old(self),
                    *final(self),
                    bytes,
                    owner,
                    used_at,
                    room,
                    old(events)@,
                    final(events)@,
                ),
    {
        let ghost before = *self;
        let ghost first_events = events@;
        proof {
            self.nothing_moved(before);
        }
        let now: u64 = self.now();
        let ghost mut trace = CopyRoomTrace {
            now,
            plan: None,
            planned: before,
            told: first_events,
            further: 0,
        };
        let victims = match self.host.plan_retained_room(bytes, owner, used_at, now) {
            Some(victims) => victims,
            None => {
                proof {
                    reveal(CopyRoomTrace::explains);
                    assert(trace.explains(
                        before,
                        *self,
                        bytes,
                        owner,
                        used_at,
                        false,
                        first_events,
                        events@,
                    ));
                }
                return false;
            },
        };
        let mut n: usize = 0;
        while n < victims.len()
            invariant
                self.gave_up_copies(before, victims@, n as int, first_events, events@),
                before == *old(self),
                first_events == old(events)@,
                before.wf(),
                self.wf(),
                self.only_copies_moved(before),
                tidied(first_events, events@),
                n <= victims@.len(),
                makes_room(
                    before.host,
                    bytes,
                    blob_rank(owner, Tier::Probation, used_at, now, before.host.ttl),
                    now,
                    victims@,
                ),
                displaced_only_less(
                    before.host.retained@,
                    self.host.retained@,
                    owner,
                    used_at,
                    before.host.ttl,
                ),
                nothing_added(before.host.retained@, self.host.retained@),
            decreases victims@.len() - n,
        {
            let blob = victims[n];
            let ghost middle = *self;
            proof {
                planned_is_displaceable(
                    before.host,
                    bytes,
                    owner,
                    used_at,
                    now,
                    victims@,
                    n as int,
                );
                let i = choose|i: int|
                    0 <= i < before.host.retained@.len() && (
                    #[trigger] before.host.retained@[i]).blob == blob && displaceable(
                        before.host.retained@[i],
                        owner,
                        used_at,
                        before.host.ttl,
                    );
                if blob_at(middle.host.retained@, blob, 0) is Some {
                    found_blob(before.host.retained@, middle.host.retained@, blob, i);
                    displacing_one(
                        before.host.retained@,
                        middle.host.retained@,
                        blob_at(middle.host.retained@, blob, 0)->Some_0,
                        owner,
                        used_at,
                        before.host.ttl,
                    );
                }
            }
            let ghost until = events@;
            self.discard_kv_ram_blob(blob, events);
            proof {
                reveal(ConcreteScheduler::gave_up_copy);
                self.copies_moved_twice(middle, before);
                self.gave_up_one_more(
                    middle,
                    before,
                    victims@,
                    n as int,
                    first_events,
                    until,
                    events@,
                );
            }
            n = n + 1;
        }
        let ghost planned = *self;
        let ghost told = events@;
        let ghost mut further: int = 0;
        proof {
            trace = CopyRoomTrace { plan: Some(victims@), planned, told, ..trace };
        }
        loop
            invariant
                0 <= further,
                self.some_yielded(planned, further, bytes, owner, used_at, told, events@),
                planned.gave_up_copies(
                    before,
                    victims@,
                    victims@.len() as int,
                    first_events,
                    told,
                ),
                makes_room(
                    before.host,
                    bytes,
                    blob_rank(owner, Tier::Probation, used_at, now, before.host.ttl),
                    now,
                    victims@,
                ),
                call_ensures(K::now, (&before.clock,), now),
                trace == (CopyRoomTrace {
                    now,
                    plan: Some(victims@),
                    planned,
                    told,
                    further: trace.further,
                }),
                before == *old(self),
                first_events == old(events)@,
                before.wf(),
                self.wf(),
                self.only_copies_moved(before),
                tidied(first_events, events@),
                displaced_only_less(
                    before.host.retained@,
                    self.host.retained@,
                    owner,
                    used_at,
                    before.host.ttl,
                ),
                nothing_added(before.host.retained@, self.host.retained@),
            decreases self.host.retained@.len(),
        {
            if self.host.has_room(bytes) && self.compute.host_blob_fits(bytes) {
                proof {
                    trace = CopyRoomTrace { further, ..trace };
                    reveal(CopyRoomTrace::explains);
                    assert(trace.explains(
                        before,
                        *self,
                        bytes,
                        owner,
                        used_at,
                        true,
                        first_events,
                        events@,
                    ));
                }
                return true;
            }
            assert(self.found_short(bytes));
            let now: u64 = self.now();
            let blob = match self.host.next_retained_victim_below(owner, used_at, now) {
                Some(blob) => blob,
                None => {
                    proof {
                        trace = CopyRoomTrace { further, ..trace };
                        reveal(CopyRoomTrace::explains);
                        assert(self.none_yields(owner, used_at, now));
                        assert(trace.explains(
                            before,
                            *self,
                            bytes,
                            owner,
                            used_at,
                            false,
                            first_events,
                            events@,
                        ));
                    }
                    return false;
                },
            };
            let ghost middle = *self;
            let ghost until = events@;
            let ghost taken: int;
            proof {
                let at = choose|at: int| #[trigger]
                    is_next_blob(middle.host.retained@, now, middle.host.ttl, at)
                        && middle.host.retained@[at].blob == blob && ranks_under(
                        blob_ranks(middle.host.retained@, now, middle.host.ttl)[at],
                        blob_rank(owner, Tier::Probation, used_at, now, middle.host.ttl),
                    );
                let e = middle.host.retained@[at];
                assert(ranks_under(
                    blob_rank(e.owner, e.tier, e.used_at, now, middle.host.ttl),
                    blob_rank(owner, Tier::Probation, used_at, now, middle.host.ttl),
                ));
                assert(displaceable(e, owner, used_at, before.host.ttl));
                crate::host::blob_is_first(middle.host.retained@, blob, 0);
                let found = blob_at(middle.host.retained@, blob, 0)->Some_0;
                if found < at {
                    assert(middle.host.retained@[found].blob != middle.host.retained@[at].blob);
                } else if found > at {
                    assert(middle.host.retained@[at].blob != middle.host.retained@[found].blob);
                }
                displacing_one(
                    before.host.retained@,
                    middle.host.retained@,
                    at,
                    owner,
                    used_at,
                    before.host.ttl,
                );
                taken = at;
                assert(middle.yields_to(owner, used_at, now, at));
            }
            let entry = match self.host.discard_retained(blob) {
                Some(entry) => entry,
                None => {
                    assert(false);
                    return false;
                },
            };
            proof {
                self.host_moved_only(middle, Seq::empty());
                assert(self.only_copies_moved(middle));
                self.copies_moved_twice(middle, before);
            }
            let ghost freed = *self;
            self.forget_kv_ram_blob(entry, events);
            proof {
                self.copies_moved_twice(freed, before);
                self.copies_moved_twice(freed, middle);
                assert(self.one_yielded(middle, bytes, owner, used_at, until, events@)) by {
                    reveal(ConcreteScheduler::one_yielded);
                    assert(middle.yields_to(owner, used_at, now, taken));
                }
                further = further + 1;
            }
        }
    }

    /// No copy yields by the reading `now`.
    pub open spec fn none_yields(self, owner: RequestClass, used_at: u64, now: u64) -> bool {
        forall|at: int| !#[trigger] self.yields_to(owner, used_at, now, at)
    }

    /// `copy` is the name of the prefix `entry` in host memory: the same head,
    /// with a blob in the tier.
    pub open spec fn is_copied(
        self,
        before: Self,
        entry: PrefixId,
        copy: SpilledPrefixId,
    ) -> bool {
        let e = entry_of(before.prefix.entries@, entry);
        let s = self.prefix.spilled@.last();
        &&& self.prefix.spilled@.len() > 0
        &&& s.id == copy
        &&& s.key == e.key
        &&& s.length_tokens == e.length_tokens
        &&& s.publisher == e.publisher
        &&& entry_of(self.prefix.entries@, entry).copy == Some(copy)
        &&& blob_at(self.host.retained@, RetainedBlob::Prefix(copy), 0) is Some
    }

    /// Copy the retained prefix `entry` to host memory, where the budget takes
    /// it. Whether it went there.
    fn write_prefix_blob(
        &mut self,
        entry: PrefixId,
        publisher: RequestId,
        tokens: u32,
        retention: Retention,
        events: &mut Vec<SchedEvent>,
    ) -> (written: bool)
        requires
            old(self).wf(),
        ensures
            final(self).wf(),
            final(self).only_copies_moved(*old(self)),
            tidied(old(events)@, final(events)@),
            written ==> final(events)@.len() > old(events)@.len() && final(events)@.last()
                == prefix_told(RetainedStateOperation::Spill, ReuseSource::KvRam),
            written ==> is_kept(old(self).prefix.entries@, entry),
            written ==> exists|copy: SpilledPrefixId| #[trigger]
                final(self).is_copied(*old(self), entry, copy),
            exists|trace: CopyTrace<C, K>| #[trigger]
                trace.explains_prefix(
                    *old(self),
                    *final(self),
                    entry,
                    publisher,
                    tokens,
                    retention,
                    written,
                    old(events)@,
                    final(events)@,
                ),
    {
        let ghost before = *self;
        let ghost first = events@;
        proof {
            self.nothing_moved(before);
            reveal(CopyTrace::explains_prefix);
        }
        let size = self.compute.prefix_snapshot_size(publisher, tokens);
        let ghost mut trace = CopyTrace {
            size,
            room: false,
            roomy: before,
            told: first,
            answer: None,
        };
        let bytes: u64 = match size {
            Ok(bytes) => bytes,
            Err(_) => {
                assert(trace.explains_prefix(
                    before,
                    *self,
                    entry,
                    publisher,
                    tokens,
                    retention,
                    false,
                    first,
                    events@,
                ));
                return false;
            },
        };
        let room: bool = self.make_kv_ram_room_for_retained(
            bytes,
            retention.class,
            retention.used_at,
            events,
        );
        proof {
            trace = CopyTrace { room, roomy: *self, told: events@, ..trace };
        }
        if !room {
            assert(trace.explains_prefix(
                before,
                *self,
                entry,
                publisher,
                tokens,
                retention,
                false,
                first,
                events@,
            ));
            return false;
        }
        let answer = self.compute.spill_prefix(publisher, tokens);
        proof {
            let made = choose|made: CopyRoomTrace<C, K>| #[trigger]
                made.explains(before, *self, bytes, retention.class, retention.used_at, true, first, events@);
            trace = CopyTrace { answer: Some(answer), ..trace };
            assert(made.explains(
                before,
                trace.roomy,
                trace.size->Ok_0,
                retention.class,
                retention.used_at,
                trace.room,
                first,
                trace.told,
            ));
        }
        let bytes: u64 = match answer {
            Ok(bytes) => bytes,
            Err(_) => {
                assert(trace.explains_prefix(
                    before,
                    *self,
                    entry,
                    publisher,
                    tokens,
                    retention,
                    false,
                    first,
                    events@,
                ));
                return false;
            },
        };
        let ghost roomy = *self;
        let id: SpilledPrefixId = match self.prefix.record_spill(entry) {
            Some(id) => id,
            None => {
                self.compute.discard_spilled_prefix(publisher, tokens);
                assert(trace.explains_prefix(
                    before,
                    *self,
                    entry,
                    publisher,
                    tokens,
                    retention,
                    false,
                    first,
                    events@,
                ));
                return false;
            },
        };
        proof {
            crate::prefix::retained_is_listed(roomy.prefix.entries@, entry);
            self.only_names_moved(roomy);
            self.copies_moved_twice(roomy, before);
        }
        let ghost recorded = *self;
        let blob = RetainedKvRamEntry::new(
            RetainedBlob::Prefix(id),
            publisher,
            retention.class,
            bytes,
            retention.used_at,
        );
        if self.host.capture_retained(blob).is_err() {
            let _ = self.prefix.forget_spilled(id);
            proof {
                self.only_names_moved(recorded);
                self.copies_moved_twice(recorded, before);
                self.copies_moved_twice(recorded, roomy);
                let was = recorded.prefix.spilled@;
                assert(was[was.len() - 1].id == id);
                assert forall|j: int| 0 <= j < was.len() - 1 implies (#[trigger] was[j]).id
                    != id by {
                    assert(was[j].id < was[was.len() - 1].id);
                }
                assert(self.prefix.spilled@ =~= was.drop_last());
            }
            self.compute.discard_spilled_prefix(publisher, tokens);
            assert(trace.explains_prefix(
                before,
                *self,
                entry,
                publisher,
                tokens,
                retention,
                false,
                first,
                events@,
            ));
            return false;
        }
        proof {
            self.host_moved_only(recorded, Seq::empty());
            assert(self.only_copies_moved(recorded));
            self.copies_moved_twice(recorded, before);
            self.copies_moved_twice(recorded, roomy);
            assert(held(roomy.prefix.entries@, entry) == held(before.prefix.entries@, entry));
            assert(keeps_terms(before.prefix.entries@, roomy.prefix.entries@, entry));
            crate::host::blob_is_first(self.host.retained@, RetainedBlob::Prefix(id), 0);
            let last = self.host.retained@.len() - 1;
            assert(self.host.retained@[last].blob == RetainedBlob::Prefix(id));
            assert(self.is_copied(before, entry, id));
        }
        events.push(
            SchedEvent::RetainedState {
                operation: RetainedStateOperation::Spill,
                source: ReuseSource::KvRam,
                kind: RetainedKind::Prefix,
            },
        );
        assert(trace.explains_prefix(
            before,
            *self,
            entry,
            publisher,
            tokens,
            retention,
            true,
            first,
            events@,
        ));
        true
    }

    /// Whether what leaves the device may go to host memory.
    pub open spec fn spills_to_host(self) -> bool {
        self.checkpoints.tiers.next_below(ReuseSource::Device) == Some(ReuseSource::KvRam)
    }

    /// The retained prefix `entry`, about to be given up, was seen to: one with
    /// a copy already ranks by its latest use and is not copied again; any
    /// other is copied, where host memory is the next tier and the backend and
    /// the budget let it be, and reported given up where it is not.
    #[verifier::opaque]
    pub open spec fn head_spilled(
        self,
        before: Self,
        entry: PrefixId,
        first: Seq<SchedEvent>,
        last: Seq<SchedEvent>,
    ) -> bool {
        let e = entry_of(before.prefix.entries@, entry);
        let given_up = prefix_told(RetainedStateOperation::Discard, ReuseSource::Device);
        if !is_kept(before.prefix.entries@, entry) {
            self == before && last == first
        } else {
            match e.copy {
                Some(copy) => {
                    &&& self == (ConcreteScheduler { host: self.host, ..before })
                    &&& self.host.same_but_retained(before.host)
                    &&& refreshed(
                        before.host.retained@,
                        RetainedBlob::Prefix(copy),
                        e.retained->Some_0.used_at,
                        self.host.retained@,
                    )
                    &&& last == first
                },
                None => if before.spills_to_host() {
                    exists|trace: CopyTrace<C, K>, written: bool, told: Seq<SchedEvent>| #[trigger]
                        trace.explains_prefix(
                            before,
                            self,
                            entry,
                            e.publisher,
                            e.length_tokens,
                            e.retained->Some_0,
                            written,
                            first,
                            told,
                        ) && last == (if written {
                            told
                        } else {
                            told.push(given_up)
                        })
                } else {
                    self == before && last == first.push(given_up)
                },
            }
        }
    }

    /// The retained prefix `entry` is about to be given up: copy it to host
    /// memory if the budget takes it, while its pages are still there. One that
    /// has a copy already just ranks by its latest use.
    pub(crate) fn spill_prefix(&mut self, entry: PrefixId, events: &mut Vec<SchedEvent>)
        requires
            old(self).wf(),
        ensures
            final(self).wf(),
            final(self).only_copies_moved(*old(self)),
            tidied(old(events)@, final(events)@),
            final(self).head_spilled(*old(self), entry, old(events)@, final(events)@),
    {
        reveal(ConcreteScheduler::head_spilled);
        let ghost before = *self;
        proof {
            self.nothing_moved(before);
        }
        let (publisher, tokens, retention, copy) = match self.prefix.find(entry) {
            None => {
                return;
            },
            Some(at) => {
                let e = &self.prefix.entries[at];
                match e.retained {
                    None => {
                        return;
                    },
                    Some(retention) => (e.publisher, e.length_tokens, retention, e.copy),
                }
            },
        };
        if let Some(copy) = copy {
            self.host.refresh_retained(RetainedBlob::Prefix(copy), retention.used_at);
            proof {
                self.host_moved_only(before, Seq::empty());
                assert(self.only_copies_moved(before));
            }
            return;
        }
        let below_device: bool = match self.checkpoints.tiers().below(ReuseSource::Device) {
            Some(source) => source == ReuseSource::KvRam,
            None => false,
        };
        let spilled: bool = below_device && self.write_prefix_blob(
            entry,
            publisher,
            tokens,
            retention,
            events,
        );
        if !spilled {
            events.push(
                SchedEvent::RetainedState {
                    operation: RetainedStateOperation::Discard,
                    source: ReuseSource::Device,
                    kind: RetainedKind::Prefix,
                },
            );
        }
    }

    /// Move a device checkpoint that is being given up into host memory, or
    /// report that it has to be discarded. Room is made before a byte moves.
    pub(crate) fn spill_checkpoint(&mut self, entry: &CheckpointEntry, events: &mut Vec<SchedEvent>)
        -> (spilled: bool)
        requires
            old(self).wf(),
            device_entry(old(self).checkpoints.entries@, entry.id) matches Some(e) && e.same_as(
                *entry,
            ),
        ensures
            final(self).wf(),
            final(self).only_retention_moved(*old(self)),
            final(self).kv_used_pages <= old(self).kv_used_pages,
            tidied(old(events)@, final(events)@),
            final(self).checkpoints.same_terms(old(self).checkpoints),
            retained_count(final(self).prefix.entries@) == retained_count(
                old(self).prefix.entries@,
            ),
            // Spilled: off the device, and in the tier.
            spilled ==> device_entry(final(self).checkpoints.entries@, entry.id) is None && blob_at(
                final(self).host.retained@,
                RetainedBlob::Checkpoint(entry.id),
                0,
            ) is Some && device_images(final(self).checkpoints.entries@) == device_images(
                old(self).checkpoints.entries@,
            ) - 1,
            spilled ==> final(events)@.len() > old(events)@.len() && final(events)@.last()
                == image_told(RetainedStateOperation::Spill, ReuseSource::KvRam),
            // Not spilled: still on the device's books, for the caller to discard.
            !spilled ==> device_entry(final(self).checkpoints.entries@, entry.id) == device_entry(
                old(self).checkpoints.entries@,
                entry.id,
            ) && device_images(final(self).checkpoints.entries@) == device_images(
                old(self).checkpoints.entries@,
            ),
            // It is spilled where host memory is the next tier and the backend
            // and the budget let it be.
            !old(self).spills_to_host() ==> !spilled && *final(self) == *old(self)
                && final(events)@ == old(events)@,
            old(self).spills_to_host() ==> exists|trace: CopyTrace<C, K>| #[trigger]
                trace.explains_image(
                    *old(self),
                    *final(self),
                    *entry,
                    spilled,
                    old(events)@,
                    final(events)@,
                ),
    {
        let ghost before = *self;
        let ghost first = events@;
        proof {
            self.nothing_moved(before);
            reveal(CopyTrace::explains_image);
        }
        let below_device: bool = match self.checkpoints.tiers().below(ReuseSource::Device) {
            Some(source) => source == ReuseSource::KvRam,
            None => false,
        };
        if !below_device {
            return false;
        }
        let size = self.compute.checkpoint_snapshot_size(entry.publisher);
        let ghost mut trace = CopyTrace {
            size,
            room: false,
            roomy: before,
            told: first,
            answer: None,
        };
        let bytes: u64 = match size {
            Ok(bytes) => bytes,
            Err(_) => {
                assert(trace.explains_image(before, *self, *entry, false, first, events@));
                return false;
            },
        };
        let room: bool = self.make_kv_ram_room_for_retained(
            bytes,
            entry.owner,
            entry.used_at,
            events,
        );
        proof {
            trace = CopyTrace { room, roomy: *self, told: events@, ..trace };
        }
        if !room {
            assert(trace.explains_image(before, *self, *entry, false, first, events@));
            assert(device_entry(self.checkpoints.entries@, entry.id) == device_entry(
                before.checkpoints.entries@,
                entry.id,
            ));
            return false;
        }
        assert(device_entry(self.checkpoints.entries@, entry.id) == device_entry(
            before.checkpoints.entries@,
            entry.id,
        ));
        let answer = self.compute.spill_checkpoint(entry.publisher);
        proof {
            let made = choose|made: CopyRoomTrace<C, K>| #[trigger]
                made.explains(before, *self, bytes, entry.owner, entry.used_at, true, first, events@);
            trace = CopyTrace { answer: Some(answer), ..trace };
            assert(made.explains(
                before,
                trace.roomy,
                trace.size->Ok_0,
                entry.owner,
                entry.used_at,
                trace.room,
                first,
                trace.told,
            ));
        }
        let bytes: u64 = match answer {
            Ok(bytes) => bytes,
            Err(_) => {
                assert(trace.explains_image(before, *self, *entry, false, first, events@));
                return false;
            },
        };
        let spilled: bool = self.record_checkpoint_spill(entry, bytes, events);
        assert(trace.explains_image(before, *self, *entry, spilled, first, events@));
        spilled
    }

    /// The backend moved a checkpoint to host memory, as `bytes`: its slot and
    /// its tail page come back now, whatever follows. The tier takes the blob
    /// or refuses it.
    fn record_checkpoint_spill(
        &mut self,
        entry: &CheckpointEntry,
        bytes: u64,
        events: &mut Vec<SchedEvent>,
    ) -> (spilled: bool)
        requires
            old(self).wf(),
            device_entry(old(self).checkpoints.entries@, entry.id) matches Some(e) && e.same_as(
                *entry,
            ),
        ensures
            final(self).wf(),
            final(self).only_retention_moved(*old(self)),
            final(self).kv_used_pages <= old(self).kv_used_pages,
            final(self).checkpoints.same_terms(old(self).checkpoints),
            final(self).tail_pages@ == without_tail(old(self).tail_pages@, entry.publisher),
            retained_count(final(self).prefix.entries@) == retained_count(
                old(self).prefix.entries@,
            ),
            spilled == (blob_at(
                old(self).host.retained@,
                RetainedBlob::Checkpoint(entry.id),
                0,
            ) is None && old(self).host.used_bytes + bytes <= old(self).host.capacity_bytes
                && old(self).checkpoints.tiers.carries(ReuseSource::KvRam)),
            spilled ==> final(self).image_moved(*old(self), *entry, bytes) && final(events)@
                == old(events)@.push(image_told(RetainedStateOperation::Spill, ReuseSource::KvRam)),
            spilled ==> device_entry(final(self).checkpoints.entries@, entry.id) is None && blob_at(
                final(self).host.retained@,
                RetainedBlob::Checkpoint(entry.id),
                0,
            ) is Some && device_images(final(self).checkpoints.entries@) == device_images(
                old(self).checkpoints.entries@,
            ) - 1,
            !spilled ==> final(self).forgot_image(*old(self), entry.publisher) && final(events)@
                == old(events)@,
    {
        let ghost before = *self;
        proof {
            self.tails_are_few();
        }
        self.forget_checkpoint_image(entry.publisher);
        proof {
            assert forall|p: PrefixId| #[trigger]
                self.prefix.refs(p) == standing(self.requests@, p) + holding(
                    self.checkpoints.entries@,
                    p,
                ) + debt(Seq::empty(), p) by {
                assert(before.prefix.refs(p) == self.prefix.refs(p));
            }
            self.retention_keeps_order(before, Seq::empty(), Seq::empty());
        }
        let ghost forgot = *self;
        if self.checkpoints.tiers.rank(ReuseSource::KvRam).is_none() {
            return false;
        }
        let blob = RetainedKvRamEntry::new(
            RetainedBlob::Checkpoint(entry.id),
            entry.publisher,
            entry.owner,
            bytes,
            entry.used_at,
        );
        if self.host.capture_retained(blob).is_err() {
            proof {
                self.host_moved_only(forgot, Seq::empty());
            }
            return false;
        }
        proof {
            self.host_moved_only(forgot, Seq::empty());
        }
        let ghost captured = *self;
        let moved: bool = self.checkpoints.move_to_tier(entry.id, ReuseSource::KvRam);
        proof {
            assert(moved);
            let entries = captured.checkpoints.entries@;
            let at = place_of(entries, entry.id);
            let with = CheckpointEntry { tier: ReuseSource::KvRam, ..entries[at] };
            assert(entries[at].id == entry.id);
            let owed = Seq::<PrefixId>::empty().push(entry.prefix);
            assert forall|p: PrefixId| #[trigger]
                self.prefix.refs(p) == standing(self.requests@, p) + holding(
                    self.checkpoints.entries@,
                    p,
                ) + debt(owed, p) by {
                images_updated(entries, at, with, p, entries.len() as int);
                debt_grows(Seq::empty(), entry.prefix, p);
                assert(captured.prefix.refs(p) == self.prefix.refs(p));
            }
            images_updated(entries, at, with, 0, entries.len() as int);
            self.retention_keeps_order(captured, Seq::empty(), owed);
            place_is_unique(self.checkpoints.entries@, self.checkpoints.next_id, at);
            assert(self.checkpoints.entries@[at].id == entry.id);
            crate::host::blob_is_first(
                self.host.retained@,
                RetainedBlob::Checkpoint(entry.id),
                0,
            );
            let last = self.host.retained@.len() - 1;
            assert(self.host.retained@[last].blob == RetainedBlob::Checkpoint(entry.id));
        }
        let ghost moved_state = *self;
        self.release_prefix_claim(entry.prefix, Ghost(Seq::empty()));
        proof {
            assert(forgot.forgot_image(before, entry.publisher));
            assert(self.let_prefix_go(moved_state, entry.prefix));
        }
        events.push(
            SchedEvent::RetainedState {
                operation: RetainedStateOperation::Spill,
                source: ReuseSource::KvRam,
                kind: RetainedKind::Checkpoint,
            },
        );
        true
    }
}

impl<C: Compute, K: Clock> ConcreteScheduler<C, K> {
    /// The device checkpoint `id` was discarded: out of the ledger, released,
    /// and reported.
    pub open spec fn image_discarded(
        self,
        before: Self,
        id: CheckpointId,
        first: Seq<SchedEvent>,
        last: Seq<SchedEvent>,
    ) -> bool {
        let at = place_of(before.checkpoints.entries@, id);
        &&& exists|out: Self|
            out == (ConcreteScheduler { checkpoints: out.checkpoints, ..before })
                && out.checkpoints.same_terms(before.checkpoints) && out.checkpoints.entries@
                == before.checkpoints.entries@.remove(at) && #[trigger] self.image_dropped(
                out,
                before.checkpoints.entries@[at],
            )
        &&& last == first.push(image_told(RetainedStateOperation::Discard, ReuseSource::Device))
    }

    /// The device checkpoint at `at` was given up: moved to host memory where
    /// that is the next tier and took it, discarded otherwise.
    #[verifier::opaque]
    pub open spec fn gave_up_image(
        self,
        before: Self,
        at: int,
        first: Seq<SchedEvent>,
        last: Seq<SchedEvent>,
    ) -> bool {
        let e = before.checkpoints.entries@[at];
        exists|kept: Self, spilled: bool, told: Seq<SchedEvent>| #[trigger]
            kept.image_spilled(before, e, spilled, first, told) && if spilled {
                self == kept && last == told
            } else {
                self.image_discarded(kept, e.id, told, last)
            }
    }

    /// The device checkpoint `e` was to move to host memory.
    pub open spec fn image_spilled(
        self,
        before: Self,
        e: CheckpointEntry,
        spilled: bool,
        first: Seq<SchedEvent>,
        last: Seq<SchedEvent>,
    ) -> bool {
        if before.spills_to_host() {
            exists|trace: CopyTrace<C, K>| #[trigger]
                trace.explains_image(before, self, e, spilled, first, last)
        } else {
            !spilled && self == before && last == first
        }
    }

    proof fn image_spilled_alike(
        self,
        before: Self,
        e: CheckpointEntry,
        other: CheckpointEntry,
        spilled: bool,
        first: Seq<SchedEvent>,
        last: Seq<SchedEvent>,
    )
        requires
            self.image_spilled(before, e, spilled, first, last),
            e.same_as(other),
        ensures
            self.image_spilled(before, other, spilled, first, last),
    {
        reveal(CopyTrace::explains_image);
        if before.spills_to_host() {
            let trace = choose|trace: CopyTrace<C, K>| #[trigger]
                trace.explains_image(before, self, e, spilled, first, last);
            assert(trace.explains_image(before, self, other, spilled, first, last));
        }
    }

    /// The prefix `p` is no longer retained; its reference is still to be let
    /// go.
    pub open spec fn unretained(self, before: Self, p: PrefixId) -> bool {
        let at = crate::prefix::place(before.prefix.entries@, p)->Some_0;
        &&& self == (ConcreteScheduler { prefix: self.prefix, ..before })
        &&& self.prefix.same_but_entries(before.prefix)
        &&& self.prefix.entries@ == before.prefix.entries@.update(
            at,
            PrefixEntry { retained: None, ..before.prefix.entries@[at] },
        )
    }

    /// The retention of the prefix `p` was given up, once it was copied to host
    /// memory where that takes it.
    #[verifier::opaque]
    pub open spec fn gave_up_head(
        self,
        before: Self,
        p: PrefixId,
        first: Seq<SchedEvent>,
        last: Seq<SchedEvent>,
    ) -> bool {
        exists|spilled: Self, unkept: Self| #[trigger]
            spilled.head_spilled(before, p, first, last) && #[trigger] unkept.unretained(
                spilled,
                p,
            ) && self.let_prefix_go(unkept, p)
    }

    /// Discard the device checkpoint `id`: out of the ledger, its image
    /// released, its hold on the pages below it let go.
    pub(crate) fn discard_device_checkpoint(
        &mut self,
        id: CheckpointId,
        events: &mut Vec<SchedEvent>,
    )
        requires
            old(self).wf(),
            device_entry(old(self).checkpoints.entries@, id) is Some,
        ensures
            final(self).wf(),
            final(self).only_retention_moved(*old(self)),
            final(self).kv_used_pages <= old(self).kv_used_pages,
            final(self).retained_bets() == old(self).retained_bets() - 1,
            final(self).image_discarded(*old(self), id, old(events)@, final(events)@),
            final(self).checkpoints.entries@ == old(self).checkpoints.entries@.remove(
                place_of(old(self).checkpoints.entries@, id),
            ),
    {
        let ghost before = *self;
        let entry = self.checkpoints.discard(id);
        if let Some(entry) = entry {
            proof {
                let entries = before.checkpoints.entries@;
                let at = place_of(entries, id);
                let owed = Seq::<PrefixId>::empty().push(entry.prefix);
                assert forall|p: PrefixId| #[trigger]
                    self.prefix.refs(p) == standing(self.requests@, p) + holding(
                        self.checkpoints.entries@,
                        p,
                    ) + debt(owed, p) by {
                    images_without(entries, at, p, entries.len() as int);
                    debt_grows(Seq::empty(), entry.prefix, p);
                    assert(before.prefix.refs(p) == self.prefix.refs(p));
                }
                images_without(entries, at, 0, entries.len() as int);
                self.retention_keeps_order(before, Seq::empty(), owed);
            }
            let ghost out = *self;
            self.discard_checkpoint(entry, events, Ghost(Seq::empty()));
            assert(self.image_dropped(out, entry));
        }
    }

    /// Give up the retention of the prefix `p`, copied to host memory first
    /// where the budget takes it.
    fn give_up_prefix(&mut self, p: PrefixId, events: &mut Vec<SchedEvent>) -> (gave: bool)
        requires
            old(self).wf(),
        ensures
            final(self).wf(),
            final(self).only_retention_moved(*old(self)),
            final(self).kv_used_pages <= old(self).kv_used_pages,
            tidied(old(events)@, final(events)@),
            gave == is_kept(old(self).prefix.entries@, p),
            gave ==> !is_kept(final(self).prefix.entries@, p),
            gave ==> final(self).retained_bets() == old(self).retained_bets() - 1,
            gave ==> final(self).gave_up_head(*old(self), p, old(events)@, final(events)@),
            !gave ==> *final(self) == *old(self) && final(events)@ == old(events)@,
    {
        let ghost before = *self;
        let ghost first = events@;
        self.spill_prefix(p, events);
        let ghost spilled = *self;
        proof {
            assert(held(spilled.prefix.entries@, p) == held(before.prefix.entries@, p));
            assert(keeps_terms(before.prefix.entries@, spilled.prefix.entries@, p));
        }
        if !self.prefix.unretain(p) {
            proof {
                reveal(ConcreteScheduler::head_spilled);
            }
            return false;
        }
        let ghost unkept = *self;
        proof {
            let owed = Seq::<PrefixId>::empty().push(p);
            assert forall|q: PrefixId| #[trigger]
                self.prefix.refs(q) == standing(self.requests@, q) + holding(
                    self.checkpoints.entries@,
                    q,
                ) + debt(owed, q) by {
                debt_grows(Seq::empty(), p, q);
                assert(spilled.prefix.refs(q) == standing(spilled.requests@, q) + holding(
                    spilled.checkpoints.entries@,
                    q,
                ) + debt(Seq::empty(), q));
            }
            self.retention_keeps_order(spilled, Seq::empty(), owed);
            let at = crate::prefix::place(spilled.prefix.entries@, p)->Some_0;
            crate::prefix::held_is_somewhere(spilled.prefix.entries@, p);
            crate::prefix::place_is_where_it_is(
                self.prefix.entries@,
                self.prefix.next_id,
                at,
            );
            standing_is_a_count(self.requests@, p);
            images_are_counts(
                self.checkpoints.entries@,
                p,
                -1,
                self.checkpoints.entries@.len() as int,
            );
            debt_grows(Seq::empty(), p, p);
            assert(self.prefix.refs(p) >= 1);
            crate::prefix::release_is_sound(
                self.prefix.entries@,
                self.prefix.page_tokens,
                self.prefix.next_id,
                p,
            );
            assert(keeps_terms(
                self.prefix.entries@,
                crate::prefix::after_release(self.prefix.entries@, Some(p)),
                p,
            ));
        }
        self.release_prefix_claim(p, Ghost(Seq::empty()));
        proof {
            reveal(ConcreteScheduler::gave_up_head);
            assert(spilled.head_spilled(before, p, first, events@));
            assert(unkept.unretained(spilled, p));
        }
        true
    }

    /// Give up a device checkpoint: moved to host memory where that takes it,
    /// discarded otherwise.
    fn give_up_checkpoint(&mut self, at: usize, events: &mut Vec<SchedEvent>)
        requires
            old(self).wf(),
            at < old(self).checkpoints.entries@.len(),
            old(self).checkpoints.entries@[at as int].tier == ReuseSource::Device,
        ensures
            final(self).wf(),
            final(self).only_retention_moved(*old(self)),
            final(self).kv_used_pages <= old(self).kv_used_pages,
            tidied(old(events)@, final(events)@),
            device_entry(
                final(self).checkpoints.entries@,
                old(self).checkpoints.entries@[at as int].id,
            ) is None,
            final(self).retained_bets() == old(self).retained_bets() - 1,
            final(self).gave_up_image(*old(self), at as int, old(events)@, final(events)@),
    {
        let ghost before = *self;
        proof {
            place_is_unique(
                self.checkpoints.entries@,
                self.checkpoints.next_id,
                at as int,
            );
        }
        let victim = self.checkpoints.entries[at].clone();
        let ghost first = events@;
        let spilled: bool = self.spill_checkpoint(&victim, events);
        let ghost kept = *self;
        let ghost told = events@;
        proof {
            reveal(ConcreteScheduler::gave_up_image);
            assert(kept.image_spilled(before, victim, spilled, first, told));
            kept.image_spilled_alike(
                before,
                victim,
                before.checkpoints.entries@[at as int],
                spilled,
                first,
                told,
            );
        }
        if !spilled {
            self.discard_device_checkpoint(victim.id, events);
            proof {
                crate::checkpoint::a_discarded_entry_is_gone(
                    kept.checkpoints,
                    victim.id,
                    self.checkpoints,
                );
            }
        }
    }

    /// Whether retained state has a slot to give up: a device checkpoint
    /// nothing is waiting on, or a prefix only its retention holds.
    pub open spec fn has_a_slot_to_give(self) -> bool {
        ||| exists|j: int|
            0 <= j < self.checkpoints.entries@.len() && (
            #[trigger] self.checkpoints.entries@[j]).tier == ReuseSource::Device
                && !self.is_claimed_image(self.checkpoints.entries@[j].id)
        ||| exists|j: int|
            0 <= j < self.prefix.entries@.len() && only_retained(#[trigger] self.prefix.entries@[j])
    }

    /// The entry at `at` is the device checkpoint to give up for its slot: no
    /// request is about to be built from it, and none that may go is cheaper.
    pub open spec fn is_cheapest_image(self, at: int) -> bool {
        let entries = self.checkpoints.entries@;
        &&& 0 <= at < entries.len()
        &&& entries[at].tier == ReuseSource::Device && !self.is_claimed_image(entries[at].id)
        &&& forall|j: int|
            0 <= j < entries.len() && (#[trigger] entries[j]).tier == ReuseSource::Device
                && !self.is_claimed_image(entries[j].id) ==> !crate::checkpoint::cheaper_slot(
                entries[j],
                entries[at],
            )
    }

    /// `p` is the prefix to give up for its slot: only its retention holds it,
    /// and none like it is cheaper.
    pub open spec fn is_cheapest_prefix(self, p: PrefixId) -> bool {
        let entries = self.prefix.entries@;
        &&& held(entries, p)
        &&& only_retained(entry_of(entries, p))
        &&& forall|j: int|
            0 <= j < entries.len() && only_retained(#[trigger] entries[j])
                ==> !crate::prefix::cheaper_slot(entries[j], entry_of(entries, p))
    }

    /// One thing that holds a slot was given up: a checkpoint where one may go,
    /// and a prefix only where none may.
    pub open spec fn gave_slot(
        self,
        before: Self,
        first: Seq<SchedEvent>,
        last: Seq<SchedEvent>,
    ) -> bool {
        ||| exists|at: int| #[trigger]
            before.is_cheapest_image(at) && self.gave_up_image(before, at, first, last)
        ||| (forall|at: int| !#[trigger] before.is_cheapest_image(at)) && exists|p: PrefixId|
            #[trigger]
            before.is_cheapest_prefix(p) && self.gave_up_head(before, p, first, last)
    }

    /// Every slot is held, and there are some.
    pub open spec fn slots_are_out(self) -> bool {
        self.retained.slots@.len() > 0 && self.retained.used() == self.retained.slots@.len()
    }

    /// `n` things that held a slot were given up, one after the other, none
    /// while a slot was free.
    pub open spec fn gave_slots(
        self,
        before: Self,
        n: int,
        first: Seq<SchedEvent>,
        last: Seq<SchedEvent>,
    ) -> bool
        decreases n,
    {
        if n <= 0 {
            self == before && last == first
        } else {
            exists|middle: Self, until: Seq<SchedEvent>|
                middle.gave_slots(before, n - 1, first, until) && middle.slots_are_out()
                    && #[trigger] self.gave_slot(middle, until, last)
        }
    }

    /// So many things that held a slot were given up.
    pub open spec fn gave_slots_in(
        self,
        before: Self,
        n: int,
        first: Seq<SchedEvent>,
        last: Seq<SchedEvent>,
    ) -> bool {
        0 <= n && self.gave_slots(before, n, first, last)
    }

    /// A slot was sought for `holder`: retained state gave up what it took for
    /// one to be free, and the first free one is its own; or none was to be
    /// had.
    #[verifier::opaque]
    pub open spec fn sought_slot(
        self,
        before: Self,
        holder: RetainedHolder,
        slot: Option<u32>,
        first: Seq<SchedEvent>,
        last: Seq<SchedEvent>,
    ) -> bool {
        &&& tidied(first, last)
        &&& exists|n: int, given: Self| #[trigger]
            given.gave_slots_in(before, n, first, last) && match slot {
                Some(s) => {
                    &&& self == (ConcreteScheduler { retained: self.retained, ..given })
                    &&& first_slot(given.retained.slots@, None, 0) == Some(s as int)
                    &&& self.retained.slots@ == taken(given.retained.slots@, holder)
                },
                None => {
                    &&& self == given
                    &&& self.retained.used() == self.retained.slots@.len()
                    &&& self.retained.slots@.len() == 0 || !self.has_a_slot_to_give()
                },
            }
    }

    proof fn gave_one_more_slot(
        self,
        middle: Self,
        before: Self,
        n: int,
        first: Seq<SchedEvent>,
        until: Seq<SchedEvent>,
        last: Seq<SchedEvent>,
    )
        requires
            0 <= n,
            middle.gave_slots(before, n, first, until),
            middle.slots_are_out(),
            self.gave_slot(middle, until, last),
        ensures
            self.gave_slots(before, n + 1, first, last),
    {
        let m = n + 1;
        assert(middle.gave_slots(before, m - 1, first, until));
        assert(self.gave_slot(middle, until, last));
    }

    /// Give up the lowest-ranked retained state that holds a slot: checkpoints
    /// before prefixes, Agent before Interactive, the least recently used.
    /// Whether anything was given up.
    pub(crate) fn give_up_retained_for_slot(&mut self, events: &mut Vec<SchedEvent>) -> (gave: bool)
        requires
            old(self).wf(),
        ensures
            final(self).wf(),
            final(self).only_retention_moved(*old(self)),
            final(self).kv_used_pages <= old(self).kv_used_pages,
            tidied(old(events)@, final(events)@),
            gave == old(self).has_a_slot_to_give(),
            gave ==> final(self).retained_bets() == old(self).retained_bets() - 1,
            gave ==> final(self).gave_slot(*old(self), old(events)@, final(events)@),
            !gave ==> *final(self) == *old(self) && final(events)@ == old(events)@,
    {
        let ghost before = *self;
        let claimed = self.claimed_device_checkpoints();
        if let Some(at) = self.checkpoints.retained_slot_victim(&claimed) {
            proof {
                assert(!claimed@.contains(self.checkpoints.entries@[at as int].id));
                assert forall|j: int|
                    0 <= j < self.checkpoints.entries@.len() && (
                    #[trigger] self.checkpoints.entries@[j]).tier == ReuseSource::Device
                        && !self.is_claimed_image(
                        self.checkpoints.entries@[j].id,
                    ) implies !crate::checkpoint::cheaper_slot(
                    self.checkpoints.entries@[j],
                    self.checkpoints.entries@[at as int],
                ) by {
                    assert(claimed@.contains(self.checkpoints.entries@[j].id)
                        <==> self.is_claimed_image(self.checkpoints.entries@[j].id));
                    assert(gives_a_slot(self.checkpoints.entries@[j], claimed@));
                }
                assert(self.is_cheapest_image(at as int));
            }
            self.give_up_checkpoint(at, events);
            return true;
        }
        proof {
            assert forall|j: int|
                0 <= j < self.checkpoints.entries@.len() && (
                #[trigger] self.checkpoints.entries@[j]).tier
                    == ReuseSource::Device implies self.is_claimed_image(
                self.checkpoints.entries@[j].id,
            ) by {
                assert(!gives_a_slot(self.checkpoints.entries@[j], claimed@));
                assert(claimed@.contains(self.checkpoints.entries@[j].id));
            }
        }
        match self.prefix.retained_slot_victim() {
            None => false,
            Some(p) => {
                proof {
                    crate::prefix::held_is_somewhere(self.prefix.entries@, p);
                    assert(self.is_cheapest_prefix(p));
                }
                self.give_up_prefix(p, events)
            },
        }
    }

    /// A retained slot for `holder`, retained state giving one up when none is
    /// free; `None` when nothing can.
    pub(crate) fn take_retained_slot(
        &mut self,
        holder: RetainedHolder,
        events: &mut Vec<SchedEvent>,
    ) -> (slot: Option<u32>)
        requires
            old(self).wf(),
        ensures
            final(self).wf(),
            final(self).only_retention_moved(*old(self)),
            final(self).kv_used_pages <= old(self).kv_used_pages,
            tidied(old(events)@, final(events)@),
            slot matches Some(s) ==> s < final(self).retained.slots@.len()
                && final(self).retained.slots@[s as int] == Some(holder),
            // What gave way did so one at a time, the cheapest first.
            final(self).sought_slot(*old(self), holder, slot, old(events)@, final(events)@),
            // Nothing is given up while a slot is free.
            old(self).retained.used() < old(self).retained.slots@.len() ==> slot is Some
                && final(self).retained.slots@ == taken(old(self).retained.slots@, holder)
                && *final(self) == (ConcreteScheduler {
                retained: final(self).retained,
                ..*old(self)
            }) && final(events)@ == old(events)@,
            // None only when every slot is held and retained state has none to give.
            slot is None ==> final(self).retained.used() == final(self).retained.slots@.len() && (
            final(self).retained.slots@.len() == 0 || !final(self).has_a_slot_to_give()),
    {
        let ghost before = *self;
        let ghost first_events = events@;
        let ghost mut n: int = 0;
        loop
            invariant
                self.gave_slots_in(before, n, first_events, events@),
                before == *old(self),
                first_events == old(events)@,
                self.wf(),
                self.only_retention_moved(before),
                self.kv_used_pages <= before.kv_used_pages,
                tidied(first_events, events@),
                before.retained.used() < before.retained.slots@.len() ==> *self == before && events@
                    == first_events,
            decreases self.retained_bets(),
        {
            let ghost asked = *self;
            let ghost until = events@;
            if let Some(slot) = self.retained.take(holder) {
                proof {
                    reveal(ConcreteScheduler::sought_slot);
                    assert(asked.gave_slots_in(before, n, first_events, events@));
                    self.slots_moved_only(asked);
                    crate::retained_slot::took_the_first(asked.retained.slots@, holder);
                }
                return Some(slot);
            }
            proof {
                reveal(ConcreteScheduler::sought_slot);
                assert(asked.gave_slots_in(before, n, first_events, events@));
            }
            if self.retained.capacity() == 0 {
                return None;
            }
            if !self.give_up_retained_for_slot(events) {
                return None;
            }
            proof {
                self.bets_are_counts();
                self.gave_one_more_slot(asked, before, n, first_events, until, events@);
                n = n + 1;
            }
        }
    }

    /// A change of the slots alone keeps the invariant.
    proof fn slots_moved_only(self, before: Self)
        requires
            before.wf(),
            self == (ConcreteScheduler { retained: self.retained, ..before }),
            self.retained.wf(),
            self.retained.slots@.len() == before.retained.slots@.len(),
        ensures
            self.wf(),
            self.only_retention_moved(before),
            self.retained_bets() == before.retained_bets(),
            self.has_a_slot_to_give() == before.has_a_slot_to_give(),
    {
        assert forall|p: PrefixId| #[trigger]
            self.prefix.refs(p) == standing(self.requests@, p) + holding(
                self.checkpoints.entries@,
                p,
            ) + debt(Seq::empty(), p) by {
            assert(before.prefix.refs(p) == self.prefix.refs(p));
        }
        self.retention_keeps_order(before, Seq::empty(), Seq::empty());
        assert forall|id: CheckpointId| #[trigger]
            self.is_claimed_image(id) == before.is_claimed_image(id) by {
            if self.is_claimed_image(id) {
                let i = choose|i: int| #[trigger] self.claims_image(i, id);
                assert(before.claims_image(i, id));
            }
            if before.is_claimed_image(id) {
                let i = choose|i: int| #[trigger] before.claims_image(i, id);
                assert(self.claims_image(i, id));
            }
        }
    }

    /// Bets are counted.
    proof fn bets_are_counts(self)
        ensures
            self.retained_bets() >= 0,
    {
        images_are_counts(
            self.checkpoints.entries@,
            0,
            -1,
            self.checkpoints.entries@.len() as int,
        );
    }

    /// The reports once `request` was told that its publish or capture was not
    /// taken.
    pub open spec fn skip_told(
        self,
        events: Seq<SchedEvent>,
        request: RequestId,
        skip: RetainedSkip,
    ) -> Seq<SchedEvent> {
        if self.config.prompt_reuse || self.retained.slots@.len() > 0 {
            events.push(
                SchedEvent::RetainedSlotSkipped {
                    request,
                    skip,
                    in_use: self.retained.used() as u32,
                    capacity: self.retained.slots@.len() as u32,
                },
            )
        } else {
            events
        }
    }

    /// Tell `request` its publish or capture was not taken, with the slots held
    /// right then; nothing is said where nothing could be.
    pub(crate) fn skip_retained(
        &self,
        request: RequestId,
        skip: RetainedSkip,
        events: &mut Vec<SchedEvent>,
    )
        requires
            self.retained.wf(),
        ensures
            final(events)@ == self.skip_told(old(events)@, request, skip),
    {
        if self.config.prompt_reuse || self.retained.capacity() > 0 {
            events.push(
                SchedEvent::RetainedSlotSkipped {
                    request,
                    skip,
                    in_use: self.retained.in_use(),
                    capacity: self.retained.capacity(),
                },
            );
        }
    }

    /// Report how many retained slots are held, when that changed.
    pub(crate) fn report_retained_slots(&mut self, events: &mut Vec<SchedEvent>)
        requires
            old(self).retained.wf(),
        ensures
            *final(self) == (ConcreteScheduler {
                reported_slots: old(self).retained.used() as u32,
                ..*old(self)
            }),
            final(self).reported_slots == old(self).retained.used(),
            final(events)@ == (if old(self).reported_slots != old(self).retained.used() {
                old(events)@.push(
                    SchedEvent::RetainedSlots {
                        in_use: old(self).retained.used() as u32,
                        capacity: old(self).retained.slots@.len() as u32,
                    },
                )
            } else {
                old(events)@
            }),
    {
        let in_use: u32 = self.retained.in_use();
        if self.reported_slots != in_use {
            self.reported_slots = in_use;
            events.push(
                SchedEvent::RetainedSlots { in_use, capacity: self.retained.capacity() },
            );
        }
    }

    /// Whether `pages` more, and `slots` more sequences, fit what is in use.
    pub open spec fn has_room_for(self, pages: u32, slots: u32) -> bool {
        self.kv_used_pages + pages <= self.capacity.kv_pages && self.resident_slots_used + slots
            <= self.config.resident_slot_capacity
    }

    /// Whether giving up retained state can still return a page.
    pub open spec fn has_pages_to_give(self) -> bool {
        ||| exists|j: int|
            0 <= j < self.checkpoints.entries@.len() && self.gives_pages_now(
                #[trigger] self.checkpoints.entries@[j],
            )
        ||| exists|j: int|
            0 <= j < self.prefix.entries@.len() && only_retained(#[trigger] self.prefix.entries@[j])
    }

    /// Whether giving up the checkpoint `e` returns pages: those of the prefix
    /// under it, which nothing live stands on, or its own tail page, which no
    /// request is about to be built from.
    pub open spec fn gives_pages_now(self, e: CheckpointEntry) -> bool {
        e.tier == ReuseSource::Device && (self.reclaimable(e.prefix) || (self.tail_pages@.contains(
            e.publisher,
        ) && !self.is_claimed_image(e.id)))
    }

    /// The entry at `at` is the checkpoint to give up for its pages: giving it up
    /// returns some, and none that would is staler.
    pub open spec fn is_stalest_image(self, at: int) -> bool {
        let entries = self.checkpoints.entries@;
        &&& 0 <= at < entries.len()
        &&& self.gives_pages_now(entries[at])
        &&& forall|j: int|
            0 <= j < entries.len() && self.gives_pages_now(#[trigger] entries[j])
                ==> !crate::checkpoint::staler(entries[j], entries[at])
    }

    /// `p` is the prefix to give up for its pages: only its retention holds it,
    /// and none like it is staler.
    pub open spec fn is_stalest_prefix(self, p: PrefixId) -> bool {
        let entries = self.prefix.entries@;
        &&& held(entries, p)
        &&& only_retained(entry_of(entries, p))
        &&& forall|j: int|
            0 <= j < entries.len() && only_retained(#[trigger] entries[j])
                ==> !crate::prefix::staler(entries[j], entry_of(entries, p))
    }

    /// One thing that holds pages was given up, there being no room: a
    /// checkpoint where one may go, and a prefix only where none may.
    pub open spec fn gave_pages_once(
        self,
        before: Self,
        pages: u32,
        slots: u32,
        first: Seq<SchedEvent>,
        last: Seq<SchedEvent>,
    ) -> bool {
        &&& !before.has_room_for(pages, slots)
        &&& {
            ||| exists|at: int| #[trigger]
                before.is_stalest_image(at) && self.gave_up_image(before, at, first, last)
            ||| (forall|at: int| !#[trigger] before.is_stalest_image(at)) && exists|p: PrefixId|
                #[trigger]
                before.is_stalest_prefix(p) && self.gave_up_head(before, p, first, last)
        }
    }

    /// `n` things that held pages were given up, one after the other.
    pub open spec fn gave_pages(
        self,
        before: Self,
        n: int,
        pages: u32,
        slots: u32,
        first: Seq<SchedEvent>,
        last: Seq<SchedEvent>,
    ) -> bool
        decreases n,
    {
        if n <= 0 {
            self == before && last == first
        } else {
            exists|middle: Self, until: Seq<SchedEvent>|
                middle.gave_pages(before, n - 1, pages, slots, first, until)
                    && #[trigger] self.gave_pages_once(middle, pages, slots, until, last)
        }
    }

    /// So many things that held pages were given up.
    pub open spec fn gave_pages_in(
        self,
        before: Self,
        n: int,
        pages: u32,
        slots: u32,
        first: Seq<SchedEvent>,
        last: Seq<SchedEvent>,
    ) -> bool {
        0 <= n && self.gave_pages(before, n, pages, slots, first, last)
    }

    proof fn gave_pages_once_more(
        self,
        middle: Self,
        before: Self,
        n: int,
        pages: u32,
        slots: u32,
        first: Seq<SchedEvent>,
        until: Seq<SchedEvent>,
        last: Seq<SchedEvent>,
    )
        requires
            0 <= n,
            middle.gave_pages(before, n, pages, slots, first, until),
            self.gave_pages_once(middle, pages, slots, until, last),
        ensures
            self.gave_pages(before, n + 1, pages, slots, first, last),
    {
        let m = n + 1;
        assert(middle.gave_pages(before, m - 1, pages, slots, first, until));
        assert(self.gave_pages_once(middle, pages, slots, until, last));
    }

    /// Give up retained state until `pages` pages and `slots` sequence slots
    /// more fit, or until nothing retained can return a page: checkpoints
    /// first, then retained prefixes, the least recently used first. Whether
    /// they fit.
    pub(crate) fn reclaim_retained_until(
        &mut self,
        pages: u32,
        slots: u32,
        events: &mut Vec<SchedEvent>,
    ) -> (fits: bool)
        requires
            old(self).wf(),
        ensures
            final(self).wf(),
            final(self).only_retention_moved(*old(self)),
            final(self).kv_used_pages <= old(self).kv_used_pages,
            tidied(old(events)@, final(events)@),
            fits == final(self).has_room_for(pages, slots),
            !fits ==> !final(self).has_pages_to_give(),
            // What gave way did so one at a time, the stalest first.
            exists|n: int| #[trigger]
                final(self).gave_pages_in(
                    *old(self),
                    n,
                    pages,
                    slots,
                    old(events)@,
                    final(events)@,
                ),
            old(self).has_room_for(pages, slots) ==> *final(self) == *old(self) && final(events)@
                == old(events)@,
    {
        let ghost before = *self;
        let ghost first_events = events@;
        let ghost mut n: int = 0;
        loop
            invariant
                self.gave_pages_in(before, n, pages, slots, first_events, events@),
                before == *old(self),
                first_events == old(events)@,
                self.wf(),
                self.only_retention_moved(before),
                self.kv_used_pages <= before.kv_used_pages,
                tidied(first_events, events@),
                before.has_room_for(pages, slots) ==> *self == before && events@ == first_events,
            decreases self.retained_bets(),
        {
            if pages <= self.capacity.kv_pages - self.kv_used_pages && slots
                <= self.config.resident_slot_capacity - self.resident_slots_used {
                return true;
            }
            let ghost asked = *self;
            let ghost until = events@;
            let reclaimable = self.reclaimable_prefixes();
            let claimed = self.claimed_device_checkpoints();
            if let Some(at) = self.checkpoints.page_victim(
                &reclaimable,
                &self.tail_pages,
                &claimed,
            ) {
                proof {
                    assert forall|e: CheckpointEntry| #[trigger]
                        self.gives_pages_now(e) == gives_pages(
                            e,
                            reclaimable@,
                            self.tail_pages@,
                            claimed@,
                        ) by {
                        assert(reclaimable@.contains(e.prefix) <==> self.reclaimable(e.prefix));
                        assert(claimed@.contains(e.id) <==> self.is_claimed_image(e.id));
                    }
                    assert(self.is_stalest_image(at as int));
                }
                self.give_up_checkpoint(at, events);
                proof {
                    self.bets_are_counts();
                    self.gave_pages_once_more(
                        asked,
                        before,
                        n,
                        pages,
                        slots,
                        first_events,
                        until,
                        events@,
                    );
                    n = n + 1;
                }
            } else {
                proof {
                    assert forall|j: int|
                        0 <= j < self.checkpoints.entries@.len() implies !self.gives_pages_now(
                        #[trigger] self.checkpoints.entries@[j],
                    ) by {
                        let e = self.checkpoints.entries@[j];
                        assert(!gives_pages(e, reclaimable@, self.tail_pages@, claimed@));
                        assert(reclaimable@.contains(e.prefix) <==> self.reclaimable(e.prefix));
                        assert(claimed@.contains(e.id) <==> self.is_claimed_image(e.id));
                    }
                }
                match self.prefix.lru_retained() {
                    None => {
                        return false;
                    },
                    Some(p) => {
                        assert(asked.is_stalest_prefix(p));
                        let gave: bool = self.give_up_prefix(p, events);
                        proof {
                            assert(gave);
                            self.bets_are_counts();
                            assert forall|at: int| !#[trigger] asked.is_stalest_image(at) by {}
                            self.gave_pages_once_more(
                        asked,
                        before,
                        n,
                        pages,
                        slots,
                        first_events,
                        until,
                        events@,
                    );
                            n = n + 1;
                        }
                    },
                }
            }
        }
    }
}

} // verus!
