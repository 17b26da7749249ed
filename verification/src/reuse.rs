//! Cross-request reuse: what a fresh request resumes from, and what it leaves
//! behind for later ones.
//!
//! A request reuses only identical history: a shared prefix or a checkpoint
//! whose content key is the key of the request's own prompt at that length.

use crate::admission::AdmissionResources;
use crate::checkpoint::{
    a_capture_is_the_newest_entry, given_up, holds_id, id_at, joined_lineage, kept, longest,
    outlives_cut, place_of, sat_u64, selected, was_retained, CheckpointCapture,
    CheckpointCounters, CheckpointEntry, CheckpointId, CheckpointLookup, CheckpointMatch,
    CheckpointPool, Retained, RetainedKind, RetainedMisses, RetainedStateOperation, ReuseSource,
    TierList,
};
use crate::concrete::{request_ok, ConcreteScheduler, KV_RAM_RESTORE_FLOOR_TOKENS};
use crate::host::{blob_at, HostTier, RetainedBlob, RetainedKvRamEntry};
use crate::identity::{content_key, MatchKey, PromptContent, PromptKeys};
use crate::ledger::{
    a_cut_splits_the_images, charged, debt, debt_grows, holding, image_prefixes, images_are_counts,
    images_are_owed, images_same, images_without, standing, standing_is_a_count, stands_on,
};
use crate::lifecycle::{spared, spares, spares_all_but, tidied_spares};
use crate::moves::{hosted_kept, hosted_kept_suspended, lanes_kept};
use crate::plan::{head_pages_fit, media_keys};
use crate::prefix::{
    begins_with, entry_of, held, keeps_terms, longest_copy, longest_head, pages_past,
    retained_count, same_length, whole_pages, PrefixCache, PrefixClaim, PrefixEntry, Retention,
    SpilledPrefix, SpilledPrefixId,
};
use crate::request::Request;
use crate::retained_slot::{given_back, RetainedHolder};
use crate::retention::{
    copy_told, place_is_unique, prefix_told, tidied, took_up, without_tail,
};
use crate::scheduler::{Clock, Compute};
use crate::types::{ComputeError, PrefixId, RequestClass, RequestId, RequestState, SchedEvent};
use vstd::prelude::*;

verus! {

impl<C: Compute, K: Clock> ConcreteScheduler<C, K> {
    /// Everything but retention and the request at `i`, as it was in `before`.
    pub open spec fn only_request_and_retention_moved(self, before: Self, i: int) -> bool {
        &&& self == (ConcreteScheduler {
            requests: self.requests,
            prefix: self.prefix,
            checkpoints: self.checkpoints,
            retained: self.retained,
            host: self.host,
            tail_pages: self.tail_pages,
            kv_used_pages: self.kv_used_pages,
            ..before
        })
        &&& self.requests@.len() == before.requests@.len()
        &&& forall|j: int|
            0 <= j < before.requests@.len() && j != i ==> #[trigger] self.requests@[j]
                == before.requests@[j]
        &&& self.host.live == before.host.live
        &&& self.host.capacity_bytes == before.host.capacity_bytes
        &&& self.host.ttl == before.host.ttl
        &&& self.host.proven == before.host.proven
        &&& self.prefix.page_tokens == before.prefix.page_tokens
        &&& self.checkpoints.identity == before.checkpoints.identity
        &&& self.checkpoints.tiers == before.checkpoints.tiers
        &&& self.retained.slots@.len() == before.retained.slots@.len()
    }

    /// Let go of the request's claim on a spilled checkpoint, if it holds one.
    /// A restore that landed promotes the blob; the last claim on an orphaned
    /// one frees it.
    pub(crate) fn release_kv_ram_claim(&mut self, idx: usize, restored: bool)
        requires
            old(self).wf(),
            idx < old(self).requests@.len(),
        ensures
            final(self).wf(),
            *final(self) == (ConcreteScheduler {
                requests: final(self).requests,
                host: final(self).host,
                ..*old(self)
            }),
            final(self).requests@ == old(self).requests@.update(
                idx as int,
                Request { kv_ram_claim: None, ..old(self).requests@[idx as int] },
            ),
            final(self).host.live == old(self).host.live,
            final(self).host.proven == old(self).host.proven,
            final(self).host.capacity_bytes == old(self).host.capacity_bytes,
            final(self).host.ttl == old(self).host.ttl,
            final(self).host.retained@.len() <= old(self).host.retained@.len(),
            final(self).host.used_bytes <= old(self).host.used_bytes,
            old(self).requests@[idx as int].kv_ram_claim is None ==> final(self).host
                == old(self).host,
            !restored ==> (old(self).requests@[idx as int].kv_ram_claim matches Some(id)
                ==> claim_was_released(
                old(self).host,
                RetainedBlob::Checkpoint(id),
                None,
                final(self).host,
            )),
            restored ==> (old(self).requests@[idx as int].kv_ram_claim matches Some(id)
                ==> exists|at: u64| #[trigger]
                claim_was_released(
                    old(self).host,
                    RetainedBlob::Checkpoint(id),
                    Some(at),
                    final(self).host,
                )),
            // The last claim on a copy given up meanwhile frees it.
            old(self).requests@[idx as int].kv_ram_claim matches Some(id)
                ==> last_claim_frees(*old(self), RetainedBlob::Checkpoint(id)),
            restored ==> old(self).restore_ends_claim(idx as int, final(self).host),
    {
        let ghost before = *self;
        let checkpoint: CheckpointId = match self.requests[idx].kv_ram_claim {
            Some(checkpoint) => checkpoint,
            None => {
                assert(self.requests@ =~= before.requests@.update(
                    idx as int,
                    Request { kv_ram_claim: None, ..before.requests@[idx as int] },
                ));
                return;
            },
        };
        self.requests[idx].kv_ram_claim = None;
        let restored_at: Option<u64> = if restored {
            Some(self.now())
        } else {
            None
        };
        let blob = self.host.release_retained_claim(
            RetainedBlob::Checkpoint(checkpoint),
            restored_at,
        );
        if let Some(blob) = blob {
            self.compute.release_checkpoint(blob.publisher);
        }
        proof {
            let with = self.requests@[idx as int];
            lanes_kept(before.requests@, before.free_lanes@, idx as int, with);
            hosted_kept_suspended(before.requests@, before.host.live@, idx as int, with);
            self.one_request_moved(before, idx as int, Seq::empty(), Seq::empty());
            crate::host::blob_is_first(
                before.host.retained@,
                RetainedBlob::Checkpoint(checkpoint),
                0,
            );
            assert(claim_was_released(
                before.host,
                RetainedBlob::Checkpoint(checkpoint),
                restored_at,
                self.host,
            ));
            if let Some(now) = restored_at {
                assert(before.restored_at(checkpoint, now, self.host));
            }
        }
    }

    /// `host` is the host tier once a restore that landed by the clock at `now`
    /// let its claim on the copy of `checkpoint` go.
    pub open spec fn restored_at(self, checkpoint: CheckpointId, now: u64, host: HostTier) -> bool {
        let blob = RetainedBlob::Checkpoint(checkpoint);
        &&& call_ensures(K::now, (&self.clock,), now)
        &&& claim_was_released(self.host, blob, Some(now), host)
        &&& last_claim_frees(self, blob)
    }

    /// `host` is the host tier once a restore that landed ended what claim the
    /// request at `i` has on a copy.
    pub open spec fn restore_ends_claim(self, i: int, host: HostTier) -> bool {
        match self.requests@[i].kv_ram_claim {
            None => host == self.host,
            Some(checkpoint) => exists|now: u64| #[trigger]
                self.restored_at(checkpoint, now, host),
        }
    }

    /// The request's prompt keyed at every length a claim may reach.
    pub(crate) fn reuse_keys(&self, i: usize) -> (keys: PromptKeys)
        requires
            i < self.requests@.len(),
            self.requests@[i as int].input.tokens@.len() < u32::MAX,
        ensures
            keys.keys@ == own_keys(self.requests@[i as int]),
            keys.reach() == self.requests@[i as int].input.reach(),
            forall|n: int|
                0 <= n <= keys.reach() ==> #[trigger] keys.at(n) == content_key(
                    self.requests@[i as int].input.tokens@,
                    self.requests@[i as int].input.media(),
                    n,
                ),
    {
        let input = &self.requests[i].input;
        let media = media_keys(input);
        let prompt = PromptContent::new(input.tokens.as_slice(), media.as_slice());
        let reach: u32 = input.reuse_reach();
        let keys = prompt.keys_within(reach);
        assert forall|n: int| 0 <= n <= keys.reach() implies #[trigger] keys.at(n) == content_key(
            self.requests@[i as int].input.tokens@,
            self.requests@[i as int].input.media(),
            n,
        ) by {
            assert(keys.at(n) == prompt.key(n));
        }
        assert(keys.keys@ =~= own_keys(self.requests@[i as int])) by {
            assert forall|n: int| 0 <= n < keys.keys@.len() implies keys.keys@[n] == own_keys(
                self.requests@[i as int],
            )[n] by {
                assert(keys.at(n) == keys.keys@[n]);
            }
        }
        keys
    }

    /// Stand the fresh request at `i` on the shared prefix it claimed: the
    /// shared head is warm, and its own reservation shrinks by the shared
    /// pages, which are charged once for every claimant.
    fn stand_on_prefix(&mut self, i: usize, claim: PrefixClaim, events: &mut Vec<SchedEvent>)
        requires
            i < old(self).requests@.len(),
            old(self).owing(Seq::empty().push(claim.id)),
            fresh_for_claim(old(self).requests@[i as int]),
            held(old(self).prefix.entries@, claim.id),
            claim.tokens == entry_of(old(self).prefix.entries@, claim.id).length_tokens,
            claim.pages == whole_pages(claim.tokens, old(self).config.kv_page_tokens),
            claim.tokens <= old(self).requests@[i as int].input.tokens@.len(),
        ensures
            final(self).wf(),
            final(self).only_request_and_retention_moved(*old(self), i as int),
            final(self).requests@[i as int] == (Request {
                prefix_entry: Some(claim.id),
                prefix_publisher: Some(claim.publisher),
                shared_prefix_tokens: claim.tokens,
                shared_pages: claim.pages,
                prefill_progress: claim.tokens,
                gdn: claim.gdn,
                resources: AdmissionResources {
                    kv_pages: (old(self).requests@[i as int].resources.kv_pages
                        - claim.pages) as u32,
                    ..old(self).requests@[i as int].resources
                },
                ..old(self).requests@[i as int]
            }),
            final(self).kv_used_pages == old(self).kv_used_pages,
            final(events)@.len() == old(events)@.len() + 1,
            took_up(old(events)@, final(events)@),
            final(events)@.last() == (SchedEvent::PrefixReused {
                request: old(self).requests@[i as int].id,
                tokens: claim.tokens,
                retained: !old(self).serves(claim.publisher),
            }),
            same_length(old(self).prefix.entries@, final(self).prefix.entries@, claim.id),
            held(final(self).prefix.entries@, claim.id),
            exists|now: u64| #[trigger]
                final(self).head_touched(*old(self), i as int, claim.id, now),
    {
        let ghost before = *self;
        let now: u64 = self.now();
        self.prefix.touch_retained(claim.id, self.tick, now);
        let ghost owed = Seq::<PrefixId>::empty().push(claim.id);
        proof {
            assert forall|p: PrefixId| #[trigger]
                self.prefix.refs(p) == standing(self.requests@, p) + holding(
                    self.checkpoints.entries@,
                    p,
                ) + debt(owed, p) by {
                assert(before.prefix.refs(p) == standing(before.requests@, p) + holding(
                    before.checkpoints.entries@,
                    p,
                ) + debt(owed, p));
            }
            self.retention_keeps_order(before, owed, owed);
            debt_grows(Seq::empty(), claim.id, claim.id);
            standing_is_a_count(self.requests@, claim.id);
            images_are_counts(
                self.checkpoints.entries@,
                claim.id,
                -1,
                self.checkpoints.entries@.len() as int,
            );
            assert(self.prefix.refs(claim.id) >= 1);
            assert(same_length(before.prefix.entries@, self.prefix.entries@, claim.id));
            assert(request_ok(before.requests@[i as int], before.config, before.prefix.entries@));
            head_pages_fit(
                claim.tokens,
                crate::plan::reserved(before.config, before.requests@[i as int].input),
                before.config.kv_page_tokens,
            );
        }
        let ghost touched = *self;
        let kv_pages: u32 = self.requests[i].resources.kv_pages;
        self.requests[i].prefix_entry = Some(claim.id);
        self.requests[i].prefix_publisher = Some(claim.publisher);
        self.requests[i].shared_prefix_tokens = claim.tokens;
        self.requests[i].shared_pages = claim.pages;
        self.requests[i].prefill_progress = claim.tokens;
        self.requests[i].gdn = claim.gdn;
        self.requests[i].resources.kv_pages = kv_pages.saturating_sub(claim.pages);
        proof {
            let with = self.requests@[i as int];
            assert(self.requests@ =~= touched.requests@.update(i as int, with));
            lanes_kept(touched.requests@, touched.free_lanes@, i as int, with);
            hosted_kept(touched.requests@, touched.host.live@, i as int, with);
            assert forall|p: PrefixId| #[trigger]
                debt(Seq::<PrefixId>::empty(), p) == debt(owed, p) + stands_on(p)(
                    touched.requests@[i as int],
                ) - stands_on(p)(with) by {
                debt_grows(Seq::empty(), claim.id, p);
            }
            self.one_request_moved(touched, i as int, owed, Seq::empty());
        }
        let request: RequestId = self.requests[i].id;
        let live: bool = self.is_live(claim.publisher);
        proof {
            same_lives(before.requests@, self.requests@, i as int, claim.publisher);
        }
        events.push(
            SchedEvent::PrefixReused { request, tokens: claim.tokens, retained: !live },
        );
        proof {
            assert(self.head_touched(before, i as int, claim.id, now)) by {
                reveal(ConcreteScheduler::head_touched);
                let heads = before.prefix.entries@;
                let at = crate::prefix::place(heads, claim.id)->Some_0;
                crate::prefix::find_from_is_first(heads, claim.id, 0);
                if heads[at].retained is None {
                    assert(heads =~= heads.update(at, heads[at]));
                }
            }
        }
    }

    /// The request at `i` changed, and a use of the head `id` was noted at
    /// `now`, where it is retained. Nothing else moved.
    #[verifier::opaque]
    pub open spec fn head_touched(self, before: Self, i: int, id: PrefixId, now: u64) -> bool {
        let at = crate::prefix::place(before.prefix.entries@, id)->Some_0;
        let e = before.prefix.entries@[at];
        &&& call_ensures(K::now, (&before.clock,), now)
        &&& self == (ConcreteScheduler { requests: self.requests, prefix: self.prefix, ..before })
        &&& self.requests@ == before.requests@.update(i, self.requests@[i])
        &&& self.prefix.same_but_entries(before.prefix)
        &&& self.prefix.entries@ == before.prefix.entries@.update(
            at,
            PrefixEntry { retained: used_anew(e.retained, before.tick, now), ..e },
        )
    }

    /// The request at `i` stands on the head at `at`, which it claimed: the
    /// head is referenced once more, and a use of it noted at `now` where it is
    /// retained. Nothing else moved.
    #[verifier::opaque]
    pub open spec fn head_claimed(self, before: Self, i: int, at: int, now: u64) -> bool {
        let e = before.prefix.entries@[at];
        &&& call_ensures(K::now, (&before.clock,), now)
        &&& self == (ConcreteScheduler { requests: self.requests, prefix: self.prefix, ..before })
        &&& self.requests@ == before.requests@.update(i, self.requests@[i])
        &&& stood_on(before.requests@[i], self.requests@[i], e, before.config.kv_page_tokens)
        &&& self.prefix.page_tokens == before.prefix.page_tokens
        &&& self.prefix.next_id == before.prefix.next_id
        &&& self.prefix.spilled == before.prefix.spilled
        &&& self.prefix.next_spill == before.prefix.next_spill
        &&& self.prefix.reused_tok == sat_u64(before.prefix.reused_tok + e.length_tokens)
        &&& self.prefix.entries@ == before.prefix.entries@.update(
            at,
            PrefixEntry {
                refcount: (e.refcount + 1) as u32,
                retained: used_anew(e.retained, before.tick, now),
                ..e
            },
        )
    }

    /// The request at `i` claimed the head at `at`, at some time.
    pub open spec fn claimed_head(self, before: Self, i: int, at: int) -> bool {
        exists|now: u64| #[trigger] self.head_claimed(before, i, at, now)
    }

    /// The request at `i` resumed from the match `m`, at some time.
    pub open spec fn claimed_image(self, before: Self, i: int, m: CheckpointMatch) -> bool {
        exists|now: u64| #[trigger] self.image_claimed(before, i, m, now)
    }

    /// The request at `i` resumed from the checkpoint `e`.
    pub open spec fn resumed_at(self, before: Self, i: int, e: CheckpointEntry) -> bool {
        exists|m: CheckpointMatch| m.is_of(e) && #[trigger] self.claimed_image(before, i, m)
    }

    /// The request at `i` resumed from the match `m`: a use of the checkpoint
    /// was noted at `now`, and what it stands on, or its copy, is held once
    /// more. Nothing else moved.
    #[verifier::opaque]
    pub open spec fn image_claimed(
        self,
        before: Self,
        i: int,
        m: CheckpointMatch,
        now: u64,
    ) -> bool {
        let entries = before.checkpoints.entries@;
        let at = place_of(entries, m.id);
        &&& call_ensures(K::now, (&before.clock,), now)
        &&& self == (ConcreteScheduler {
            requests: self.requests,
            prefix: self.prefix,
            checkpoints: self.checkpoints,
            host: self.host,
            ..before
        })
        &&& self.requests@ == before.requests@.update(i, self.requests@[i])
        &&& resumed_from(before.requests@[i], self.requests@[i], m)
        &&& self.checkpoints.same_terms(before.checkpoints)
        &&& self.checkpoints.used_bytes == before.checkpoints.used_bytes
        &&& self.checkpoints.counters == (CheckpointCounters {
            reused_tok: sat_u64(
                before.checkpoints.counters.reused_tok + entries[at].tokens,
            ) as u64,
            ..before.checkpoints.counters
        })
        &&& self.checkpoints.entries@ == entries.update(
            at,
            CheckpointEntry { use_tick: before.tick, used_at: now, ..entries[at] },
        )
        &&& if m.source == ReuseSource::Device {
            let on = crate::prefix::place(before.prefix.entries@, m.prefix)->Some_0;
            let e = before.prefix.entries@[on];
            &&& self.host == before.host
            &&& self.prefix.same_but_entries(before.prefix)
            &&& self.prefix.entries@ == before.prefix.entries@.update(
                on,
                PrefixEntry { refcount: (e.refcount + 1) as u32, ..e },
            )
        } else {
            let copies = before.host.retained@;
            let copy = blob_at(copies, RetainedBlob::Checkpoint(m.id), 0)->Some_0;
            &&& self.prefix == before.prefix
            &&& self.host.same_but_retained(before.host)
            &&& self.host.used_bytes == before.host.used_bytes
            &&& self.host.retained@ == copies.update(
                copy,
                RetainedKvRamEntry { claims: (copies[copy].claims + 1) as u32, ..copies[copy] },
            )
        }
    }

    /// Whether `request` is still being served.
    pub open spec fn serves(self, request: RequestId) -> bool {
        lives(self.requests@, request)
    }

    /// Whether `r` can resume from the match `m`: it is still where it was
    /// found and of the prompt's own history, and what it stands on, or its
    /// copy, can be held.
    pub open spec fn can_resume(self, r: Request, m: CheckpointMatch, keys: Seq<MatchKey>) -> bool {
        let entries = self.checkpoints.entries@;
        &&& holds_id(entries, m.id)
        &&& entries[place_of(entries, m.id)].tier == m.source
        &&& m.tokens < keys.len() && keys[m.tokens as int] == entries[place_of(entries, m.id)].key
        &&& if m.source == ReuseSource::Device {
            &&& held(self.prefix.entries@, m.prefix)
            &&& entry_of(self.prefix.entries@, m.prefix).refcount < u32::MAX
            &&& m.pages == whole_pages(
                entry_of(self.prefix.entries@, m.prefix).length_tokens,
                self.config.kv_page_tokens,
            )
            &&& m.pages <= r.resources.kv_pages
        } else {
            blob_at(self.host.retained@, RetainedBlob::Checkpoint(m.id), 0) matches Some(at)
                && !self.host.retained@[at].orphaned && self.host.retained@[at].claims < u32::MAX
        }
    }

    /// Resume the fresh request at `i` from a retained checkpoint. On the
    /// device it stands on the checkpoint's prefix like a sibling; from host
    /// memory it holds the blob until the restore lands and keeps its whole
    /// reservation. Declined, changing nothing, where the match is not of the
    /// request's own history any more or cannot be held.
    #[verifier::spinoff_prover]
    #[verifier::rlimit(40)]
    fn resume_from_checkpoint(
        &mut self,
        i: usize,
        m: CheckpointMatch,
        keys: &PromptKeys,
        events: &mut Vec<SchedEvent>,
    )
        requires
            old(self).wf(),
            i < old(self).requests@.len(),
            fresh_for_claim(old(self).requests@[i as int]),
            keys.reach() <= old(self).requests@[i as int].input.tokens@.len(),
        ensures
            final(self).wf(),
            final(self).only_request_and_retention_moved(*old(self), i as int),
            final(self).kv_used_pages == old(self).kv_used_pages,
            tidied(old(events)@, final(events)@),
            !old(self).can_resume(old(self).requests@[i as int], m, keys.keys@) ==> *final(self)
                == *old(self) && final(events)@ == old(events)@,
            old(self).can_resume(old(self).requests@[i as int], m, keys.keys@) ==> {
                let r = final(self).requests@[i as int];
                &&& holds_id(final(self).checkpoints.entries@, m.id)
                &&& keys.covers(
                    final(self).checkpoints.entries@[place_of(
                        final(self).checkpoints.entries@,
                        m.id,
                    )].key,
                    m.tokens,
                )
                &&& resumed_from(old(self).requests@[i as int], r, m)
                &&& final(self).claimed_image(*old(self), i as int, m)
                &&& final(events)@ == old(events)@.push(
                    SchedEvent::RetainedState {
                        operation: RetainedStateOperation::Hit,
                        source: m.source,
                        kind: RetainedKind::Checkpoint,
                    },
                )
            },
    {
        let ghost before = *self;
        let at: usize = match self.checkpoints.find(m.id) {
            Some(at) => at,
            None => {
                return;
            },
        };
        if self.checkpoints.entries[at].tier != m.source || !keys.matches_at(
            self.checkpoints.entries[at].key,
            m.tokens,
        ) {
            return;
        }
        let on_device: bool = m.source == ReuseSource::Device;
        let pages: u32 = if on_device {
            self.prefix.total_pages_of(m.prefix)
        } else {
            0
        };
        if pages > self.requests[i].resources.kv_pages || (on_device && pages != m.pages) {
            return;
        }
        let ghost owed = if on_device {
            Seq::<PrefixId>::empty().push(m.prefix)
        } else {
            Seq::<PrefixId>::empty()
        };
        if on_device {
            if !self.prefix.retain(m.prefix) {
                return;
            }
            proof {
                assert forall|p: PrefixId| #[trigger]
                    self.prefix.refs(p) == standing(self.requests@, p) + holding(
                        self.checkpoints.entries@,
                        p,
                    ) + debt(owed, p) by {
                    debt_grows(Seq::empty(), m.prefix, p);
                    assert(before.prefix.refs(p) == standing(before.requests@, p) + holding(
                        before.checkpoints.entries@,
                        p,
                    ) + debt(Seq::empty(), p));
                }
                assert forall|p: PrefixId| #[trigger]
                    same_length(before.prefix.entries@, self.prefix.entries@, p) by {
                    assert(keeps_terms(before.prefix.entries@, self.prefix.entries@, p));
                }
                self.retention_keeps_order(before, Seq::empty(), owed);
                assert(same_length(before.prefix.entries@, self.prefix.entries@, m.prefix));
            }
        } else {
            if !self.host.claim_retained(RetainedBlob::Checkpoint(m.id)) {
                return;
            }
            proof {
                self.host_moved_only(before, Seq::empty());
            }
        }
        let ghost held_now = *self;
        let now: u64 = self.now();
        self.checkpoints.record_claim(m.id, self.tick);
        let owner = self.checkpoints.entries[at].owner;
        self.checkpoints.note_owner(m.id, owner, now);
        proof {
            let a = held_now.checkpoints.entries@;
            let b = self.checkpoints.entries@;
            assert forall|k: int| 0 <= k < a.len() implies (#[trigger] a[k]).tier == b[k].tier
                && a[k].prefix == b[k].prefix by {}
            assert forall|p: PrefixId| #[trigger]
                self.prefix.refs(p) == standing(self.requests@, p) + holding(
                    self.checkpoints.entries@,
                    p,
                ) + debt(owed, p) by {
                images_same(a, b, p, a.len() as int);
                assert(held_now.prefix.refs(p) == standing(held_now.requests@, p) + holding(a, p)
                    + debt(owed, p));
            }
            self.retention_keeps_order(held_now, owed, owed);
            assert(b[at as int].id == m.id && b[at as int].key == a[at as int].key);
            place_is_unique(b, self.checkpoints.next_id, at as int);
        }
        events.push(
            SchedEvent::RetainedState {
                operation: RetainedStateOperation::Hit,
                source: m.source,
                kind: RetainedKind::Checkpoint,
            },
        );
        let ghost claimed = *self;
        let kv_pages: u32 = self.requests[i].resources.kv_pages;
        if on_device {
            self.requests[i].prefix_entry = Some(m.prefix);
            self.requests[i].resources.kv_pages = kv_pages - pages;
        } else {
            self.requests[i].kv_ram_claim = Some(m.id);
            self.requests[i].standalone_tokens = m.tokens;
        }
        self.requests[i].checkpoint_publisher = Some(m.publisher);
        self.requests[i].checkpoint_entry = Some(m.id);
        self.requests[i].checkpoint_tokens = m.tokens;
        self.requests[i].reuse_source = Some(m.source);
        self.requests[i].shared_pages = pages;
        self.requests[i].prefill_progress = m.tokens;
        self.requests[i].gdn = m.gdn;
        proof {
            let with = self.requests@[i as int];
            assert(self.requests@ =~= claimed.requests@.update(i as int, with));
            assert(request_ok(
                claimed.requests@[i as int],
                claimed.config,
                claimed.prefix.entries@,
            ));
            lanes_kept(claimed.requests@, claimed.free_lanes@, i as int, with);
            hosted_kept(claimed.requests@, claimed.host.live@, i as int, with);
            assert forall|p: PrefixId| #[trigger]
                debt(Seq::<PrefixId>::empty(), p) == debt(owed, p) + stands_on(p)(
                    claimed.requests@[i as int],
                ) - stands_on(p)(with) by {
                debt_grows(Seq::empty(), m.prefix, p);
            }
            self.one_request_moved(claimed, i as int, owed, Seq::empty());
            assert(self.image_claimed(before, i as int, m, now)) by {
                reveal(ConcreteScheduler::image_claimed);
                assert(self.checkpoints.entries@ =~= before.checkpoints.entries@.update(
                    at as int,
                    CheckpointEntry {
                        use_tick: before.tick,
                        used_at: now,
                        ..before.checkpoints.entries@[at as int]
                    },
                ));
            }
        }
    }
}

/// A retention used anew: at `tick`, and by the clock at `now`.
pub open spec fn used_anew(retained: Option<Retention>, tick: u64, now: u64) -> Option<Retention> {
    match retained {
        Some(r) => Some(Retention { at: tick, used_at: now, ..r }),
        None => None,
    }
}

/// `after` is `before` standing on the shared head `e`.
pub open spec fn stood_on(
    before: Request,
    after: Request,
    e: PrefixEntry,
    page_tokens: u32,
) -> bool {
    let pages = whole_pages(e.length_tokens, page_tokens);
    &&& after == (Request {
        prefix_entry: Some(e.id),
        prefix_publisher: Some(e.publisher),
        shared_prefix_tokens: e.length_tokens,
        shared_pages: pages as u32,
        prefill_progress: e.length_tokens,
        gdn: after.gdn,
        resources: AdmissionResources {
            kv_pages: (before.resources.kv_pages - pages) as u32,
            ..before.resources
        },
        ..before
    })
    &&& after.gdn@ == e.gdn@
}

/// Whether `request` is one of `reqs` that is not done.
pub open spec fn lives(reqs: Seq<Request>, request: RequestId) -> bool {
    exists|j: int|
        0 <= j < reqs.len() && (#[trigger] reqs[j]).id == request && reqs[j].state
            != RequestState::Done
}

/// Who is served does not depend on what a request has claimed.
proof fn same_lives(a: Seq<Request>, b: Seq<Request>, i: int, request: RequestId)
    requires
        a.len() == b.len(),
        0 <= i < a.len(),
        forall|j: int| 0 <= j < a.len() && j != i ==> #[trigger] b[j] == a[j],
        a[i].id == b[i].id,
        a[i].state == b[i].state,
    ensures
        lives(a, request) == lives(b, request),
{
    if lives(a, request) {
        let j = choose|j: int|
            0 <= j < a.len() && (#[trigger] a[j]).id == request && a[j].state != RequestState::Done;
        assert(b[j].id == request);
    }
    if lives(b, request) {
        let j = choose|j: int|
            0 <= j < b.len() && (#[trigger] b[j]).id == request && b[j].state != RequestState::Done;
        assert(a[j].id == request);
    }
}

/// A request's prompt keyed at every length a claim may reach.
pub open spec fn own_keys(r: Request) -> Seq<MatchKey> {
    Seq::new(
        (r.input.reach() + 1) as nat,
        |n: int| content_key(r.input.tokens@, r.input.media(), n),
    )
}

/// The longest match of a prompt in each tier.
pub open spec fn looked_up(pool: CheckpointPool, keys: Seq<MatchKey>) -> CheckpointLookup {
    let n = pool.entries@.len() as int;
    CheckpointLookup {
        device: id_at(pool.entries@, longest(pool, keys, ReuseSource::Device, n)),
        kv_ram: id_at(pool.entries@, longest(pool, keys, ReuseSource::KvRam, n)),
    }
}

/// The carried tiers a lookup found nothing in.
pub open spec fn missed(tiers: TierList, lookup: CheckpointLookup) -> RetainedMisses {
    RetainedMisses {
        device: tiers.carries(ReuseSource::Device) && lookup.device is None,
        kv_ram: tiers.carries(ReuseSource::KvRam) && lookup.kv_ram is None,
    }
}

/// An entry as a match.
pub open spec fn match_of(e: CheckpointEntry) -> CheckpointMatch {
    CheckpointMatch {
        id: e.id,
        publisher: e.publisher,
        source: e.tier,
        prefix: e.prefix,
        tokens: e.tokens,
        pages: e.pages,
        gdn: e.gdn,
    }
}

/// A request that may claim reuse: queued for its first chunk, and holding
/// nothing.
pub open spec fn fresh_for_claim(r: Request) -> bool {
    &&& r.state == RequestState::Admitted
    &&& !r.resident
    &&& r.prefix_entry is None
    &&& r.checkpoint_publisher is None
}

/// `after` is `before` resumed from the match `m`.
pub open spec fn resumed_from(before: Request, after: Request, m: CheckpointMatch) -> bool {
    let on_device = m.source == ReuseSource::Device;
    after == (Request {
        prefix_entry: if on_device { Some(m.prefix) } else { before.prefix_entry },
        kv_ram_claim: if on_device { before.kv_ram_claim } else { Some(m.id) },
        standalone_tokens: if on_device { before.standalone_tokens } else { m.tokens },
        checkpoint_publisher: Some(m.publisher),
        checkpoint_entry: Some(m.id),
        checkpoint_tokens: m.tokens,
        reuse_source: Some(m.source),
        shared_pages: if on_device { m.pages } else { 0 },
        prefill_progress: m.tokens,
        gdn: m.gdn,
        resources: AdmissionResources {
            kv_pages: if on_device {
                (before.resources.kv_pages - m.pages) as u32
            } else {
                before.resources.kv_pages
            },
            ..before.resources
        },
        ..before
    })
}

/// `after` is the tier after one claim on `blob` was released.
pub open spec fn claim_was_released(
    before: HostTier,
    blob: RetainedBlob,
    restored_at: Option<u64>,
    after: HostTier,
) -> bool {
    match blob_at(before.retained@, blob, 0) {
        None => after == before,
        Some(at) => {
            let entry = HostTier::unclaimed(before.retained@[at], restored_at);
            if entry.orphaned && entry.claims == 0 {
                after.retained@ == before.retained@.remove(at)
            } else {
                after.retained@ == before.retained@.update(at, entry)
            }
        },
    }
}

/// The copies once one claim on `blob`, whose restore never landed, was let go:
/// the last claim on one given up takes it along.
pub open spec fn without_claim(
    copies: Seq<RetainedKvRamEntry>,
    blob: RetainedBlob,
) -> Seq<RetainedKvRamEntry> {
    match blob_at(copies, blob, 0) {
        None => copies,
        Some(at) => {
            let entry = HostTier::unclaimed(copies[at], None);
            if entry.orphaned && entry.claims == 0 {
                copies.remove(at)
            } else {
                copies.update(at, entry)
            }
        },
    }
}

/// The backend was told to free the copy `blob` of a checkpoint, where the
/// claim that is released was the last on one given up.
pub open spec fn last_claim_frees<C: Compute, K: Clock>(
    s: ConcreteScheduler<C, K>,
    blob: RetainedBlob,
) -> bool {
    let copies = s.host.retained@;
    blob_at(copies, blob, 0) matches Some(at) ==> copies[at].orphaned && copies[at].claims <= 1
        ==> s.image_freed(copies[at].publisher)
}

/// What bringing a copied prefix back went through: the state and the reports
/// once its copy was claimed, once its pages were made room for, once it had a
/// slot, and once its claim was released; the slot, if there was one; what the
/// backend answered, if it was asked; and the clock's reading then.
pub struct ReturnTrace<C: Compute, K: Clock> {
    pub claimed: ConcreteScheduler<C, K>,
    pub roomy: ConcreteScheduler<C, K>,
    pub told_roomy: Seq<SchedEvent>,
    pub slotted: ConcreteScheduler<C, K>,
    pub told_slotted: Seq<SchedEvent>,
    pub slot: Option<u32>,
    pub answer: Option<Result<(), ComputeError>>,
    pub now: u64,
    pub released: ConcreteScheduler<C, K>,
    pub settled: ConcreteScheduler<C, K>,
    pub told_settled: Seq<SchedEvent>,
}

impl<C: Compute, K: Clock> ReturnTrace<C, K> {
    /// The backend was asked to restore `copy` where there were pages and a
    /// slot for it, retained state making both as far as it could.
    #[verifier::opaque]
    pub open spec fn asked_for(
        self,
        before: ConcreteScheduler<C, K>,
        copy: SpilledPrefix,
        first: Seq<SchedEvent>,
    ) -> bool {
        let blob = RetainedBlob::Prefix(copy.id);
        let holder = RetainedHolder::Prefix {
            publisher: copy.publisher,
            tokens: copy.length_tokens,
        };
        let pages = (copy.length_tokens / before.config.kv_page_tokens) as u32;
        &&& self.claimed == (ConcreteScheduler { host: self.claimed.host, ..before })
        &&& self.claimed.host.same_but_retained(before.host)
        &&& blob_at(before.host.retained@, blob, 0) matches Some(at)
            && self.claimed.host.retained@ == before.host.retained@.update(
            at,
            RetainedKvRamEntry {
                claims: (before.host.retained@[at].claims + 1) as u32,
                ..before.host.retained@[at]
            },
        )
        &&& exists|n: int| #[trigger]
            self.roomy.gave_pages_in(self.claimed, n, pages, 0, first, self.told_roomy)
        &&& self.roomy.has_room_for(pages, 0) || !self.roomy.has_pages_to_give()
        &&& if self.roomy.has_room_for(pages, 0) {
            &&& self.slotted.sought_slot(
                self.roomy,
                holder,
                self.slot,
                self.told_roomy,
                self.told_slotted,
            )
            &&& self.slot is None <==> self.answer is None
            &&& self.answer matches Some(answer) ==> call_ensures(
                C::restore_prefix,
                (
                    &*self.slotted.compute,
                    copy.publisher,
                    copy.length_tokens,
                    self.slot->Some_0,
                ),
                answer,
            )
        } else {
            self.slot is None && self.answer is None && self.slotted == self.roomy
                && self.told_slotted == self.told_roomy
        }
    }

    /// The claim on the copy was released: a restore that landed promotes it,
    /// and the last claim on one given up meanwhile frees it.
    #[verifier::opaque]
    pub open spec fn let_go_of(self, copy: SpilledPrefix) -> bool {
        let blob = RetainedBlob::Prefix(copy.id);
        let restored_at = if self.answer matches Some(Ok(_)) { Some(self.now) } else { None };
        let copies = self.slotted.host.retained@;
        &&& call_ensures(K::now, (&self.slotted.clock,), self.now)
        &&& self.released == (ConcreteScheduler { host: self.released.host, ..self.slotted })
        &&& self.released.host.same_but_retained(self.slotted.host)
        &&& claim_was_released(self.slotted.host, blob, restored_at, self.released.host)
        &&& match blob_at(copies, blob, 0) {
            Some(at) if HostTier::unclaimed(copies[at], restored_at).orphaned
                && HostTier::unclaimed(copies[at], restored_at).claims == 0 => {
                &&& self.settled.only_copies_moved(self.released)
                &&& self.settled.host == self.released.host
                &&& self.settled.name_forgotten(
                    self.released,
                    HostTier::unclaimed(copies[at], restored_at),
                )
                &&& self.told_settled == self.told_slotted.push(copy_told(blob))
            },
            _ => self.settled == self.released && self.told_settled == self.told_slotted,
        }
    }

    /// The return of `copy` that led from `before` to `after`. It comes back
    /// where its copy can be claimed, there are pages and a slot for it, the
    /// backend restores it, and no head on the device already is that head.
    #[verifier::opaque]
    pub open spec fn explains(
        self,
        before: ConcreteScheduler<C, K>,
        after: ConcreteScheduler<C, K>,
        copy: SpilledPrefix,
        returned: bool,
        first: Seq<SchedEvent>,
        last: Seq<SchedEvent>,
    ) -> bool {
        let restored = self.answer matches Some(Ok(_));
        &&& self.asked_for(before, copy, first)
        &&& self.let_go_of(copy)
        &&& returned == (restored && self.settled.prefix.registrable(
            copy.key,
            copy.length_tokens,
            copy.gdn,
            None,
        ))
        &&& returned ==> after.head_came_back(self.settled, copy, self.now) && last
            == self.told_settled.push(
            prefix_told(RetainedStateOperation::Hit, ReuseSource::KvRam),
        ).push(prefix_told(RetainedStateOperation::Restore, ReuseSource::KvRam))
        // Otherwise its slot goes back, and so does what the backend restored.
        &&& !returned ==> {
            &&& after == (ConcreteScheduler { retained: after.retained, ..self.settled })
            &&& after.retained.slots@ == given_back(
                self.settled.retained.slots@,
                RetainedHolder::Prefix { publisher: copy.publisher, tokens: copy.length_tokens },
            )
            &&& restored ==> before.head_freed(copy.publisher, copy.length_tokens)
            &&& last == self.told_settled
        }
    }
}

impl<C: Compute, K: Clock> ConcreteScheduler<C, K> {
    /// The head that was copied is the newest entry of the cache again,
    /// retained, its pages charged; every other entry stands.
    pub open spec fn head_came_back(self, before: Self, copy: SpilledPrefix, now: u64) -> bool {
        let e = self.prefix.entries@.last();
        &&& self == (ConcreteScheduler {
            prefix: self.prefix,
            kv_used_pages: self.kv_used_pages,
            ..before
        })
        &&& self.kv_used_pages == before.kv_used_pages + e.own_pages
        &&& self.prefix == (PrefixCache {
            entries: self.prefix.entries,
            next_id: (before.prefix.next_id + 1) as u64,
            ..before.prefix
        })
        &&& self.prefix.entries@.len() == before.prefix.entries@.len() + 1
        &&& self.prefix.entries@.drop_last() == before.prefix.entries@
        &&& e.id == before.prefix.next_id
        &&& e.publisher == copy.publisher
        &&& e.key == copy.key
        &&& e.length_tokens == copy.length_tokens
        &&& e.own_pages == pages_past(
            before.prefix.entries@,
            copy.length_tokens,
            before.prefix.page_tokens,
            None,
        )
        &&& e.parent is None
        &&& e.refcount == 1
        &&& e.gdn@ == copy.gdn@
        &&& e.copy == Some(copy.id)
        &&& e.retained == Some(Retention { at: before.tick, class: copy.class, used_at: now })
    }

    /// `copy` was to come back. Without a free sequence, or a copy to claim,
    /// nothing is tried.
    pub open spec fn head_returned(
        self,
        before: Self,
        copy: SpilledPrefix,
        returned: bool,
        first: Seq<SchedEvent>,
        last: Seq<SchedEvent>,
    ) -> bool {
        if before.resident_slots_used < before.config.resident_slot_capacity
            && before.host.can_claim(RetainedBlob::Prefix(copy.id)) {
            exists|trace: ReturnTrace<C, K>| #[trigger]
                trace.explains(before, self, copy, returned, first, last)
        } else {
            !returned && self == before && last == first
        }
    }
}

impl<C: Compute, K: Clock> ConcreteScheduler<C, K> {
    /// Bring the spilled prefix `id` back onto the device as a retained prefix,
    /// where retained state can make its pages and a slot and the backend can
    /// restore it. The copy stays in host memory. It never evicts live work.
    #[verifier::spinoff_prover]
    #[verifier::rlimit(60)]
    pub(crate) fn return_prefix(&mut self, id: SpilledPrefixId, events: &mut Vec<SchedEvent>) -> (
    returned: bool)
        requires
            old(self).wf(),
        ensures
            final(self).wf(),
            final(self).only_retention_moved(*old(self)),
            tidied(old(events)@, final(events)@),
            // Without a copy of that name nothing is brought back.
            (forall|k: int|
                0 <= k < old(self).prefix.spilled@.len() ==> (
                #[trigger] old(self).prefix.spilled@[k]).id != id) ==> !returned && *final(self)
                == *old(self) && final(events)@ == old(events)@,
            forall|k: int|
                0 <= k < old(self).prefix.spilled@.len() && (
                #[trigger] old(self).prefix.spilled@[k]).id == id ==> final(self).head_returned(
                    *old(self),
                    old(self).prefix.spilled@[k],
                    returned,
                    old(events)@,
                    final(events)@,
                ),
    {
        let ghost before = *self;
        let ghost first = events@;
        let at: usize = match self.prefix.find_copy(id) {
            Some(at) => at,
            None => {
                return false;
            },
        };
        let spilled = self.prefix.spilled[at].clone();
        if self.resident_slots_used >= self.config.resident_slot_capacity {
            return false;
        }
        let blob = RetainedBlob::Prefix(id);
        if !self.host.claim_retained(blob) {
            return false;
        }
        let ghost claimed = *self;
        let ghost copy = before.prefix.spilled@[at as int];
        proof {
            self.host_moved_only(before, Seq::empty());
        }
        let holder = RetainedHolder::Prefix {
            publisher: spilled.publisher,
            tokens: spilled.length_tokens,
        };
        let pages: u32 = spilled.length_tokens / self.config.kv_page_tokens;
        let mut fits: bool = false;
        let ghost mut trace = ReturnTrace {
            claimed,
            roomy: claimed,
            told_roomy: first,
            slotted: claimed,
            told_slotted: first,
            slot: None,
            answer: None,
            now: 0,
            released: claimed,
            settled: claimed,
            told_settled: first,
        };
        let room: bool = self.reclaim_retained_until(pages, 0, events);
        let ghost given = choose|n: int| #[trigger]
            self.gave_pages_in(claimed, n, pages, 0, first, events@);
        assert(self.gave_pages_in(claimed, given, pages, 0, first, events@));
        proof {
            trace = ReturnTrace {
                roomy: *self,
                told_roomy: events@,
                slotted: *self,
                told_slotted: events@,
                ..trace
            };
        }
        if room {
            let taken = self.take_retained_slot(holder, events);
            proof {
                trace = ReturnTrace {
                    slotted: *self,
                    told_slotted: events@,
                    slot: taken,
                    ..trace
                };
            }
            if let Some(slot) = taken {
                let answer = self.compute.restore_prefix(
                    spilled.publisher,
                    spilled.length_tokens,
                    slot,
                );
                proof {
                    trace = ReturnTrace { answer: Some(answer), ..trace };
                }
                fits = answer.is_ok();
            }
        }
        let ghost roomy = *self;
        let now: u64 = self.now();
        let restored_at: Option<u64> = if fits {
            Some(now)
        } else {
            None
        };
        let orphan = self.host.release_retained_claim(blob, restored_at);
        let ghost let_go = *self;
        proof {
            self.host_moved_only(roomy, Seq::empty());
            crate::host::blob_is_first(roomy.host.retained@, blob, 0);
        }
        if let Some(entry) = orphan {
            self.forget_kv_ram_blob(entry, events);
        }
        let ghost settled = *self;
        proof {
            trace = ReturnTrace {
                now,
                released: let_go,
                settled: *self,
                told_settled: events@,
                ..trace
            };
            assert(trace.asked_for(before, copy, first)) by {
                reveal(ReturnTrace::asked_for);
                assert(pages == (copy.length_tokens / before.config.kv_page_tokens) as u32);
                assert(trace.roomy.gave_pages_in(
                    trace.claimed,
                    given,
                    pages,
                    0,
                    first,
                    trace.told_roomy,
                ));
            }
            assert(trace.let_go_of(copy)) by {
                reveal(ReturnTrace::let_go_of);
            }
            reveal(ReturnTrace::explains);
        }
        if !fits {
            self.retained.give_back(holder);
            proof {
                self.slots_moved(settled);
                assert(trace.explains(before, *self, copy, false, first, events@));
                self.one_copy_of_a_name(before, at as int, false, first, events@);
            }
            return false;
        }
        match self.prefix.register(
            spilled.publisher,
            spilled.key,
            spilled.length_tokens,
            &spilled.gdn,
            None,
        ) {
            None => {
                self.release_prefix_handle(spilled.publisher, spilled.length_tokens);
                proof {
                    self.slots_moved(settled);
                    assert(trace.explains(before, *self, copy, false, first, events@));
                    self.one_copy_of_a_name(before, at as int, false, first, events@);
                }
                false
            },
            Some((entry, own_pages)) => {
                self.kv_used_pages = self.kv_used_pages + own_pages;
                let ghost owed = Seq::<PrefixId>::empty().push(entry);
                proof {
                    assert forall|p: PrefixId| #[trigger]
                        self.prefix.refs(p) == standing(self.requests@, p) + holding(
                            self.checkpoints.entries@,
                            p,
                        ) + debt(owed, p) by {
                        debt_grows(Seq::empty(), entry, p);
                        assert(settled.prefix.refs(p) == standing(settled.requests@, p) + holding(
                            settled.checkpoints.entries@,
                            p,
                        ) + debt(Seq::empty(), p));
                    }
                    self.registered_keeps_order(settled, entry, owed);
                }
                let ghost registered = *self;
                let retention = Retention { at: self.tick, class: spilled.class, used_at: now };
                let took: bool = self.prefix.retain_published(entry, retention);
                assert(took);
                let ghost kept = *self;
                let dropped = self.prefix.release(entry);
                proof {
                    assert(kept.prefix.refs(entry) == registered.prefix.refs(entry));
                    debt_grows(Seq::empty(), entry, entry);
                    assert(crate::prefix::dropped_by(kept.prefix.entries@, Some(entry))
                        =~= Seq::<crate::prefix::DroppedPrefix>::empty()) by {
                        crate::prefix::held_is_somewhere(kept.prefix.entries@, entry);
                        crate::prefix::held_is_somewhere(registered.prefix.entries@, entry);
                    }
                    assert(dropped@.len() == 0);
                    assert forall|p: PrefixId| #[trigger]
                        self.prefix.refs(p) == standing(self.requests@, p) + holding(
                            self.checkpoints.entries@,
                            p,
                        ) + debt(Seq::empty(), p) by {
                        debt_grows(Seq::empty(), entry, p);
                        assert(kept.prefix.refs(p) == registered.prefix.refs(p));
                        assert(registered.prefix.refs(p) == standing(registered.requests@, p)
                            + holding(registered.checkpoints.entries@, p) + debt(owed, p));
                    }
                    assert forall|p: PrefixId| #[trigger]
                        same_length(registered.prefix.entries@, self.prefix.entries@, p) by {
                        assert(same_length(
                            registered.prefix.entries@,
                            kept.prefix.entries@,
                            p,
                        ));
                        assert(keeps_terms(kept.prefix.entries@, self.prefix.entries@, p));
                    }
                    self.retention_keeps_order(registered, owed, Seq::empty());
                    crate::prefix::held_is_somewhere(kept.prefix.entries@, entry);
                    crate::prefix::still_there(kept.prefix.entries@, kept.prefix.next_id, entry);
                }
                let ghost released = *self;
                self.prefix.record_return(id, entry);
                proof {
                    assert forall|p: PrefixId| #[trigger]
                        self.prefix.refs(p) == standing(self.requests@, p) + holding(
                            self.checkpoints.entries@,
                            p,
                        ) + debt(Seq::empty(), p) by {
                        assert(released.prefix.refs(p) == standing(released.requests@, p) + holding(
                            released.checkpoints.entries@,
                            p,
                        ) + debt(Seq::empty(), p));
                    }
                    assert forall|p: PrefixId| #[trigger]
                        same_length(released.prefix.entries@, self.prefix.entries@, p) by {
                        assert(keeps_terms(released.prefix.entries@, self.prefix.entries@, p));
                    }
                    self.retention_keeps_order(released, Seq::empty(), Seq::empty());
                    assert(held(self.prefix.entries@, entry) == held(released.prefix.entries@, entry));
                    assert(keeps_terms(released.prefix.entries@, self.prefix.entries@, entry));
                    assert(same_length(registered.prefix.entries@, released.prefix.entries@, entry));
                    let newest = settled.prefix.entries@.len() as int;
                    crate::prefix::place_is_where_it_is(
                        registered.prefix.entries@,
                        registered.prefix.next_id,
                        newest,
                    );
                    crate::prefix::place_is_where_it_is(
                        kept.prefix.entries@,
                        kept.prefix.next_id,
                        newest,
                    );
                    crate::prefix::place_is_where_it_is(
                        released.prefix.entries@,
                        released.prefix.next_id,
                        newest,
                    );
                    assert(self.prefix.entries@.drop_last() =~= settled.prefix.entries@);
                    assert(self.head_came_back(settled, copy, now));
                }
                events.push(
                    SchedEvent::RetainedState {
                        operation: RetainedStateOperation::Hit,
                        source: ReuseSource::KvRam,
                        kind: RetainedKind::Prefix,
                    },
                );
                events.push(
                    SchedEvent::RetainedState {
                        operation: RetainedStateOperation::Restore,
                        source: ReuseSource::KvRam,
                        kind: RetainedKind::Prefix,
                    },
                );
                proof {
                    assert(trace.explains(before, *self, copy, true, first, events@));
                    self.one_copy_of_a_name(before, at as int, true, first, events@);
                }
                true
            },
        }
    }

    /// The copy of a name is the one.
    proof fn one_copy_of_a_name(
        self,
        before: Self,
        at: int,
        returned: bool,
        first: Seq<SchedEvent>,
        last: Seq<SchedEvent>,
    )
        requires
            before.prefix.wf(),
            0 <= at < before.prefix.spilled@.len(),
            self.head_returned(before, before.prefix.spilled@[at], returned, first, last),
        ensures
            forall|k: int|
                0 <= k < before.prefix.spilled@.len() && (#[trigger] before.prefix.spilled@[k]).id
                    == before.prefix.spilled@[at].id ==> self.head_returned(
                    before,
                    before.prefix.spilled@[k],
                    returned,
                    first,
                    last,
                ),
    {
        let copies = before.prefix.spilled@;
        assert forall|k: int| 0 <= k < copies.len() && (#[trigger] copies[k]).id
            == copies[at].id implies k == at by {
            if k < at {
                assert(copies[k].id < copies[at].id);
            } else if at < k {
                assert(copies[at].id < copies[k].id);
            }
        }
    }

    /// A change of the slots alone keeps the invariant.
    proof fn slots_moved(self, before: Self)
        requires
            before.wf(),
            self == (ConcreteScheduler { retained: self.retained, ..before }),
            self.retained.wf(),
            self.retained.slots@.len() == before.retained.slots@.len(),
        ensures
            self.wf(),
            self.only_retention_moved(before),
    {
        assert forall|p: PrefixId| #[trigger]
            self.prefix.refs(p) == standing(self.requests@, p) + holding(
                self.checkpoints.entries@,
                p,
            ) + debt(Seq::empty(), p) by {
            assert(before.prefix.refs(p) == self.prefix.refs(p));
        }
        self.retention_keeps_order(before, Seq::empty(), Seq::empty());
    }

    /// A head nobody stands on yet was registered, its pages charged.
    proof fn registered_keeps_order(self, before: Self, entry: PrefixId, owed: Seq<PrefixId>)
        requires
            before.wf(),
            self.only_retention_moved(before),
            self.ledgers_ok(),
            self.checkpoints == before.checkpoints,
            self.kv_used_pages == charged(self.requests@) + self.prefix.pins()
                + self.tail_pages@.len(),
            self.kv_used_pages <= self.capacity.kv_pages,
            self.refs_ok(owed),
            self.config.prompt_reuse,
            !held(before.prefix.entries@, entry),
            forall|p: PrefixId|
                p != entry ==> #[trigger] keeps_terms(
                    before.prefix.entries@,
                    self.prefix.entries@,
                    p,
                ),
        ensures
            self.owing(owed),
    {
        assert forall|i: int| 0 <= i < self.requests@.len() implies request_ok(
            #[trigger] self.requests@[i],
            self.config,
            self.prefix.entries@,
        ) by {
            assert(request_ok(before.requests@[i], before.config, before.prefix.entries@));
            if let Some(p) = self.requests@[i].prefix_entry {
                before.standing_is_held(Seq::empty(), i);
                self.standing_is_held(owed, i);
                assert(p != entry);
                assert(keeps_terms(before.prefix.entries@, self.prefix.entries@, p));
            }
        }
    }

    /// Note the tiers a lookup found nothing in, to be reported with the
    /// request's first chunk.
    fn note_misses(&mut self, i: usize, misses: RetainedMisses)
        requires
            old(self).wf(),
            i < old(self).requests@.len(),
            old(self).requests@[i as int].state == RequestState::Admitted,
        ensures
            final(self).wf(),
            *final(self) == (ConcreteScheduler { requests: final(self).requests, ..*old(self) }),
            final(self).requests@ == old(self).requests@.update(
                i as int,
                Request { pending_retained_misses: misses, ..old(self).requests@[i as int] },
            ),
    {
        let ghost before = *self;
        self.requests[i].pending_retained_misses = misses;
        proof {
            let with = self.requests@[i as int];
            assert(request_ok(before.requests@[i as int], before.config, before.prefix.entries@));
            lanes_kept(before.requests@, before.free_lanes@, i as int, with);
            hosted_kept(before.requests@, before.host.live@, i as int, with);
            self.one_request_moved(before, i as int, Seq::empty(), Seq::empty());
        }
    }

    /// What a prompt goes by: the longest copied head is brought back first,
    /// where that is worth it, and `best` is the checkpoint worth resuming from
    /// beside what the device then shares.
    #[verifier::opaque]
    pub open spec fn chose(
        self,
        before: Self,
        keys: Seq<MatchKey>,
        lookup: CheckpointLookup,
        best: Option<CheckpointEntry>,
        first: Seq<SchedEvent>,
        last: Seq<SchedEvent>,
    ) -> bool {
        let copies = before.prefix.spilled@;
        let alone = before.best_beside(lookup, before.shared_by(keys));
        &&& tidied(first, last)
        &&& if before.worth_bringing(keys, lookup) {
            let copy = copies[longest_copy(copies, keys, copies.len() as int)->Some_0];
            exists|returned: bool| #[trigger]
                self.head_returned(before, copy, returned, first, last) && best == (if returned {
                    self.best_beside(lookup, copy.length_tokens)
                } else {
                    alone
                })
        } else {
            self == before && last == first && best == alone
        }
    }

    /// How long the longest head on the device is that a prompt begins with.
    pub open spec fn shared_by(self, keys: Seq<MatchKey>) -> u32 {
        let heads = self.prefix.entries@;
        match longest_head(heads, keys, heads.len() as int) {
            Some(at) => heads[at].length_tokens,
            None => 0,
        }
    }

    /// The looked-up checkpoint worth resuming from beside `shared` tokens.
    pub open spec fn best_beside(self, lookup: CheckpointLookup, shared: u32) -> Option<
        CheckpointEntry,
    > {
        match selected(self.checkpoints, lookup, shared) {
            Some(at) => Some(self.checkpoints.entries@[at]),
            None => None,
        }
    }

    /// The checkpoint worth resuming from, once a spilled prefix that beats
    /// every device reuse by the restore floor, and every spilled checkpoint
    /// outright, has been brought back.
    fn choose_retained(&mut self, keys: &PromptKeys, lookup: &CheckpointLookup, events: &mut Vec<SchedEvent>) -> (retained:
        Option<CheckpointMatch>)
        requires
            old(self).wf(),
        ensures
            final(self).wf(),
            final(self).only_retention_moved(*old(self)),
            tidied(old(events)@, final(events)@),
            exists|best: Option<CheckpointEntry>|
                #![trigger final(self).chose(
                    *old(self),
                    keys.keys@,
                    *lookup,
                    best,
                    old(events)@,
                    final(events)@,
                )]
                final(self).chose(
                    *old(self),
                    keys.keys@,
                    *lookup,
                    best,
                    old(events)@,
                    final(events)@,
                ) && (retained is Some <==> best is Some) && (retained matches Some(m) ==> m.is_of(
                    best->Some_0,
                )),
    {
        reveal(ConcreteScheduler::chose);
        let ghost before = *self;
        let ghost first = events@;
        let device_prefix: u32 = self.prefix.longest_match_tokens(keys);
        let retained = self.checkpoints.select(lookup, device_prefix);
        let ghost alone = self.best_beside(*lookup, device_prefix);
        if let Some(at) = self.prefix.longest_spilled_match(keys) {
            let spilled: SpilledPrefixId = self.prefix.spilled[at].id;
            let length: u32 = self.prefix.spilled[at].length_tokens;
            let device_checkpoint: u32 = self.checkpoints.length_of(
                lookup.device,
                ReuseSource::Device,
            );
            let kv_ram_checkpoint: u32 = match &retained {
                Some(m) => {
                    if m.source == ReuseSource::KvRam {
                        m.tokens
                    } else {
                        0
                    }
                },
                None => 0,
            };
            let best_on_device: u32 = if device_checkpoint > device_prefix {
                device_checkpoint
            } else {
                device_prefix
            };
            if length >= best_on_device.saturating_add(KV_RAM_RESTORE_FLOOR_TOKENS) && length
                > kv_ram_checkpoint {
                assert(before.worth_bringing(keys.keys@, *lookup));
                let ghost copy = before.prefix.spilled@[at as int];
                let returned: bool = self.return_prefix(spilled, events);
                assert(self.head_returned(before, copy, returned, first, events@));
                if returned {
                    assert(self.chose(
                        before,
                        keys.keys@,
                        *lookup,
                        self.best_beside(*lookup, length),
                        first,
                        events@,
                    ));
                    return self.checkpoints.select(lookup, length);
                }
                assert(self.chose(before, keys.keys@, *lookup, alone, first, events@));
                return retained;
            }
        }
        assert(self.chose(before, keys.keys@, *lookup, alone, first, events@));
        retained
    }

    /// Take the longest cached head past the chosen checkpoint, or else the
    /// checkpoint.
    fn take_reuse(
        &mut self,
        i: usize,
        keys: &PromptKeys,
        retained: Option<CheckpointMatch>,
        events: &mut Vec<SchedEvent>,
    )
        requires
            old(self).wf(),
            i < old(self).requests@.len(),
            fresh_for_claim(old(self).requests@[i as int]),
            keys.reach() == old(self).requests@[i as int].input.reach(),
        ensures
            final(self).wf(),
            final(self).only_request_and_retention_moved(*old(self), i as int),
            final(self).kv_used_pages == old(self).kv_used_pages,
            took_up(old(events)@, final(events)@),
            claim_outcome(old(self).requests@[i as int], final(self).requests@[i as int]),
            final(events)@ == old(events)@ + old(self).claim_report(
                final(self).requests@[i as int],
            ),
            // The longest cached head past the checkpoint is the one claimed.
            old(self).prefix.claimable(
                keys.keys@,
                (match retained {
                    Some(m) => m.tokens,
                    None => 0,
                }),
            ) matches Some(at) ==> {
                let r = final(self).requests@[i as int];
                &&& 0 <= at < old(self).prefix.entries@.len()
                &&& r.prefix_entry == Some(old(self).prefix.entries@[at].id)
                &&& r.prefill_progress == old(self).prefix.entries@[at].length_tokens
                &&& held(final(self).prefix.entries@, r.prefix_entry->Some_0)
                &&& begins_with(
                    keys.keys@,
                    entry_of(final(self).prefix.entries@, r.prefix_entry->Some_0).key,
                    r.prefill_progress,
                )
                &&& r.checkpoint_publisher is None
                &&& final(self).claimed_head(*old(self), i as int, at)
            },
            // Else the checkpoint, where it is of the request's own history.
            old(self).prefix.claimable(
                keys.keys@,
                (match retained {
                    Some(m) => m.tokens,
                    None => 0,
                }),
            ) is None ==> {
                let r = final(self).requests@[i as int];
                let was = old(self).requests@[i as int];
                match retained {
                    Some(m) if old(self).can_resume(was, m, keys.keys@) => {
                        &&& resumed_from(was, r, m)
                        &&& final(self).claimed_image(*old(self), i as int, m)
                        &&& holds_id(final(self).checkpoints.entries@, m.id)
                        &&& keys.covers(
                            final(self).checkpoints.entries@[place_of(
                                final(self).checkpoints.entries@,
                                m.id,
                            )].key,
                            m.tokens,
                        )
                    },
                    _ => *final(self) == *old(self),
                }
            },
    {
        let ghost before = *self;
        let floor: u32 = match &retained {
            Some(m) => m.tokens,
            None => 0,
        };
        match self.prefix.claim_longer_than(keys, floor) {
            Some(claim) => {
                proof {
                    self.claim_is_owed(before, keys, floor, claim);
                }
                let ghost claimed = *self;
                self.stand_on_prefix(i, claim, events);
                proof {
                    let at = before.prefix.claimable(keys.keys@, floor)->Some_0;
                    let now = choose|now: u64| #[trigger]
                        self.head_touched(claimed, i as int, claim.id, now);
                    assert(self.head_claimed(before, i as int, at, now)) by {
                        reveal(ConcreteScheduler::head_touched);
                        reveal(ConcreteScheduler::head_claimed);
                        crate::prefix::place_is_where_it_is(
                            claimed.prefix.entries@,
                            claimed.prefix.next_id,
                            at,
                        );
                        let e = before.prefix.entries@[at];
                        assert(self.prefix.entries@ =~= before.prefix.entries@.update(
                            at,
                            PrefixEntry {
                                refcount: (e.refcount + 1) as u32,
                                retained: used_anew(e.retained, before.tick, now),
                                ..e
                            },
                        ));
                    }
                    assert(self.claimed_head(before, i as int, at));
                    assert(events@ =~= old(events)@ + before.claim_report(
                        self.requests@[i as int],
                    ));
                }
            },
            None => {
                if let Some(m) = retained {
                    self.resume_from_checkpoint(i, m, keys, events);
                }
                assert(events@ =~= old(events)@ + before.claim_report(self.requests@[i as int]));
            },
        }
    }

    /// A claimed head is referenced once more than anything stands on it, until
    /// its claimant does.
    proof fn claim_is_owed(self, before: Self, keys: &PromptKeys, floor: u32, claim: PrefixClaim)
        requires
            before.wf(),
            self == (ConcreteScheduler { prefix: self.prefix, ..before }),
            self.prefix.wf(),
            self.prefix.page_tokens == before.prefix.page_tokens,
            before.prefix.claimable(keys.keys@, floor) is Some,
            ({
                let at = before.prefix.claimable(keys.keys@, floor)->Some_0;
                &&& 0 <= at < before.prefix.entries@.len()
                &&& claim.id == before.prefix.entries@[at].id
                &&& claim.tokens == before.prefix.entries@[at].length_tokens
            }),
            self.prefix.pins() == before.prefix.pins(),
            self.prefix.spilled == before.prefix.spilled,
            retained_count(self.prefix.entries@) == retained_count(before.prefix.entries@),
            held(self.prefix.entries@, claim.id),
            forall|p: PrefixId| #[trigger]
                self.prefix.refs(p) == before.prefix.refs(p) + (if p == claim.id {
                    1int
                } else {
                    0
                }),
            forall|p: PrefixId| #[trigger]
                keeps_terms(before.prefix.entries@, self.prefix.entries@, p),
        ensures
            self.owing(Seq::empty().push(claim.id)),
            claim.tokens == entry_of(self.prefix.entries@, claim.id).length_tokens,
            begins_with(keys.keys@, entry_of(self.prefix.entries@, claim.id).key, claim.tokens),
    {
        let at = before.prefix.claimable(keys.keys@, floor)->Some_0;
        let owed = Seq::<PrefixId>::empty().push(claim.id);
        crate::prefix::longest_head_is_a_match(
            before.prefix.entries@,
            keys.keys@,
            before.prefix.entries@.len() as int,
        );
        crate::prefix::place_is_where_it_is(before.prefix.entries@, before.prefix.next_id, at);
        assert(keeps_terms(before.prefix.entries@, self.prefix.entries@, claim.id));
        assert forall|p: PrefixId| #[trigger]
            self.prefix.refs(p) == standing(self.requests@, p) + holding(
                self.checkpoints.entries@,
                p,
            ) + debt(owed, p) by {
            debt_grows(Seq::empty(), claim.id, p);
            assert(before.prefix.refs(p) == standing(before.requests@, p) + holding(
                before.checkpoints.entries@,
                p,
            ) + debt(Seq::empty(), p));
        }
        assert forall|p: PrefixId| #[trigger]
            same_length(before.prefix.entries@, self.prefix.entries@, p) by {
            assert(keeps_terms(before.prefix.entries@, self.prefix.entries@, p));
        }
        self.retention_keeps_order(before, Seq::empty(), owed);
    }

    /// Choose and take what the fresh request at `i` resumes from: the longest
    /// reuse wins, and a copy in host memory has to beat every device reuse by
    /// its restore floor.
    pub(crate) fn claim_reuse(&mut self, i: usize, events: &mut Vec<SchedEvent>)
        requires
            old(self).wf(),
            i < old(self).requests@.len(),
            fresh_for_claim(old(self).requests@[i as int]),
        ensures
            final(self).wf(),
            final(self).only_request_and_retention_moved(*old(self), i as int),
            took_up(old(events)@, final(events)@),
            claim_outcome(old(self).requests@[i as int], final(self).requests@[i as int]),
            final(self).reuses_own_history(i as int),
            final(self).claimed_reuse(*old(self), i as int, old(events)@, final(events)@),
            spared(old(self).requests@, old(events)@, final(events)@),
    {
        let ghost before = *self;
        proof {
            assert(request_ok(self.requests@[i as int], self.config, self.prefix.entries@));
        }
        let ghost first = events@;
        let keys = self.reuse_keys(i);
        let lookup = self.checkpoints.lookup(&keys);
        let misses = lookup.misses(self.checkpoints.tiers());
        self.note_misses(i, misses);
        let ghost noted = *self;
        let retained = self.choose_retained(&keys, &lookup, events);
        let ghost chosen = *self;
        let ghost told = events@;
        self.take_reuse(i, &keys, retained, events);
        proof {
            reveal(ConcreteScheduler::claimed_reuse);
            let best = choose|best: Option<CheckpointEntry>|
                #![trigger chosen.chose(noted, keys.keys@, lookup, best, first, told)]
                chosen.chose(noted, keys.keys@, lookup, best, first, told) && (
                retained is Some <==> best is Some) && (retained matches Some(m) ==> m.is_of(
                    best->Some_0,
                ));
            assert(lookup == looked_up(before.checkpoints, keys.keys@));
            assert(misses == missed(before.checkpoints.tiers, lookup));
            assert(noted.noted_misses(before, i as int, lookup));
            let report = chosen.claim_report(self.requests@[i as int]);
            assert(tidied(first, told)) by {
                reveal(ConcreteScheduler::chose);
            }
            tidied_spares(before.requests@, first, told);
            assert forall|k: int| first.len() <= k < events@.len() implies spares(
                before.requests@,
                #[trigger] events@[k],
            ) by {
                if k < told.len() {
                    assert(events@[k] == told[k]);
                } else {
                    assert(events@[k] == report[k - told.len()]);
                    spares_all_but(before.requests@, before.next_id, i as int, events@[k]);
                }
            }
            assert(own_keys(chosen.requests@[i as int]) == keys.keys@);
            let r = chosen.requests@[i as int];
            assert(r == noted.requests@[i as int]);
            if let Some(e) = best {
                let m = retained->Some_0;
                assert(m.is_of(e));
                assert(chosen.can_resume(r, m, keys.keys@) == chosen.can_resume(
                    r,
                    match_of(e),
                    keys.keys@,
                ));
                if chosen.prefix.claimable(keys.keys@, e.tokens) is None && chosen.can_resume(
                    r,
                    m,
                    keys.keys@,
                ) {
                    assert(m.is_of(e) && self.claimed_image(chosen, i as int, m));
                    assert(self.resumed_at(chosen, i as int, e));
                }
            }
            assert(self.took_reuse(chosen, i as int, best));
            assert(chosen.chose(noted, keys.keys@, lookup, best, first, told));
            let r = self.requests@[i as int];
            if r.prefill_progress <= keys.reach() {
                assert(keys.at(r.prefill_progress as int) == content_key(
                    r.input.tokens@,
                    r.input.media(),
                    r.prefill_progress as int,
                ));
            }
        }
    }

    /// Whether a prompt's longest copied head is worth bringing back from host
    /// memory: it beats every reuse on the device by the restore floor, and a
    /// checkpoint in host memory outright.
    pub open spec fn worth_bringing(self, keys: Seq<MatchKey>, lookup: CheckpointLookup) -> bool {
        let heads = self.prefix.entries@;
        let copies = self.prefix.spilled@;
        let entries = self.checkpoints.entries@;
        let shared = match longest_head(heads, keys, heads.len() as int) {
            Some(at) => heads[at].length_tokens,
            None => 0,
        };
        let image = crate::checkpoint::resolved_tokens(
            self.checkpoints,
            lookup.device,
            ReuseSource::Device,
        );
        let best = if image > shared {
            image
        } else {
            shared
        };
        let copied_image = match selected(self.checkpoints, lookup, shared) {
            Some(at) => if entries[at].tier == ReuseSource::KvRam {
                entries[at].tokens
            } else {
                0
            },
            None => 0,
        };
        match longest_copy(copies, keys, copies.len() as int) {
            Some(k) => copies[k].length_tokens >= crate::checkpoint::sat_u32(
                best + KV_RAM_RESTORE_FLOOR_TOKENS,
            ) && copies[k].length_tokens > copied_image,
            None => false,
        }
    }

    /// How what a request resumed from is reported.
    pub open spec fn claim_report(self, after: Request) -> Seq<SchedEvent> {
        if after.checkpoint_publisher is Some {
            seq![
                SchedEvent::RetainedState {
                    operation: RetainedStateOperation::Hit,
                    source: after.reuse_source->Some_0,
                    kind: RetainedKind::Checkpoint,
                },
            ]
        } else if after.prefix_entry is Some {
            seq![
                SchedEvent::PrefixReused {
                    request: after.id,
                    tokens: after.shared_prefix_tokens,
                    retained: !self.serves(after.prefix_publisher->Some_0),
                },
            ]
        } else {
            Seq::empty()
        }
    }

    /// The request at `i` took the longest reuse there is: the longest cached
    /// head past the checkpoint `best`, or else that checkpoint, or nothing.
    pub open spec fn took_reuse(self, before: Self, i: int, best: Option<CheckpointEntry>) -> bool {
        let r = before.requests@[i];
        let keys = own_keys(r);
        let floor = match best {
            Some(e) => e.tokens,
            None => 0,
        };
        match before.prefix.claimable(keys, floor) {
            Some(at) => self.claimed_head(before, i, at),
            None => match best {
                Some(e) => if before.can_resume(r, match_of(e), keys) {
                    self.resumed_at(before, i, e)
                } else {
                    self == before
                },
                None => self == before,
            },
        }
    }

    /// The tiers the lookup of the request at `i` found nothing in were noted.
    pub open spec fn noted_misses(self, before: Self, i: int, lookup: CheckpointLookup) -> bool {
        &&& self == (ConcreteScheduler { requests: self.requests, ..before })
        &&& self.requests@ == before.requests@.update(
            i,
            Request {
                pending_retained_misses: missed(before.checkpoints.tiers, lookup),
                ..before.requests@[i]
            },
        )
    }

    /// The fresh request at `i` chose and took what it resumes from, and it is
    /// reported after what bringing a copy back reports.
    #[verifier::opaque]
    pub open spec fn claimed_reuse(
        self,
        before: Self,
        i: int,
        first: Seq<SchedEvent>,
        last: Seq<SchedEvent>,
    ) -> bool {
        let r = before.requests@[i];
        let lookup = looked_up(before.checkpoints, own_keys(r));
        exists|noted: Self, chosen: Self, best: Option<CheckpointEntry>, told: Seq<SchedEvent>|
            #[trigger] noted.noted_misses(before, i, lookup) && #[trigger] chosen.chose(
                noted,
                own_keys(r),
                lookup,
                best,
                first,
                told,
            ) && #[trigger] self.took_reuse(chosen, i, best) && last == told
                + chosen.claim_report(self.requests@[i])
    }

    /// What the request at `i` claimed is its own history: the content key of
    /// the prefix it stands on, or of the checkpoint it resumed from, is the
    /// key of its own prompt at that length.
    pub open spec fn reuses_own_history(self, i: int) -> bool {
        let r = self.requests@[i];
        let own = content_key(r.input.tokens@, r.input.media(), r.prefill_progress as int);
        &&& r.checkpoint_publisher is Some ==> {
            &&& r.checkpoint_entry is Some
            &&& r.prefill_progress <= r.input.reach()
            &&& holds_id(self.checkpoints.entries@, r.checkpoint_entry->Some_0)
            &&& self.checkpoints.entries@[place_of(
                self.checkpoints.entries@,
                r.checkpoint_entry->Some_0,
            )].key == own
        }
        &&& r.checkpoint_publisher is None ==> (r.prefix_entry matches Some(p) ==> {
            &&& r.prefill_progress <= r.input.reach()
            &&& held(self.prefix.entries@, p)
            &&& entry_of(self.prefix.entries@, p).key == own
        })
    }
}

/// What a claim may do to a request: nothing but note its misses, stand it on
/// a shared prefix, or resume it from a checkpoint. Who it is, what it asks
/// for and where it is in its lifecycle stay.
pub open spec fn claim_outcome(before: Request, after: Request) -> bool {
    &&& after.id == before.id
    &&& after.class == before.class
    &&& after.input == before.input
    &&& after.state == before.state
    &&& after.lane == before.lane
    &&& after.resident == before.resident
    &&& after.tokens == before.tokens
    &&& after.remaining_work == before.remaining_work
    &&& after.publish_tokens == before.publish_tokens
    &&& after.prefill_failures == before.prefill_failures
    &&& after.cancelled == before.cancelled
    &&& after.checkpoint_captured == before.checkpoint_captured
    &&& after.resources.kv_pages + after.shared_pages == before.resources.kv_pages
        + before.shared_pages
    &&& after.prefix_entry is None && after.checkpoint_publisher is None ==> after == (Request {
        pending_retained_misses: after.pending_retained_misses,
        ..before
    })
}

impl<C: Compute, K: Clock> ConcreteScheduler<C, K> {
    /// What is owed may be listed in any order.
    proof fn owed_in_any_order(self, a: Seq<PrefixId>, b: Seq<PrefixId>)
        requires
            self.owing(a),
            forall|p: PrefixId| #[trigger] debt(a, p) == debt(b, p),
        ensures
            self.owing(b),
    {
        assert forall|p: PrefixId| #[trigger]
            self.prefix.refs(p) == standing(self.requests@, p) + holding(
                self.checkpoints.entries@,
                p,
            ) + debt(b, p) by {
            assert(debt(a, p) == debt(b, p));
        }
    }

    /// Discard the checkpoints a capture superseded, oldest first.
    fn discard_superseded(
        &mut self,
        superseded: Vec<CheckpointEntry>,
        events: &mut Vec<SchedEvent>,
    )
        requires
            old(self).owing(image_prefixes(superseded@, superseded@.len() as int)),
        ensures
            final(self).wf(),
            final(self).only_retention_moved(*old(self)),
            final(self).checkpoints == old(self).checkpoints,
            final(self).kv_used_pages <= old(self).kv_used_pages,
            tidied(old(events)@, final(events)@),
            final(self).discards(
                *old(self),
                superseded@,
                superseded@.len() as int,
                old(events)@,
                final(events)@,
            ),
    {
        let ghost before = *self;
        let ghost first_events = events@;
        let ghost list = superseded@;
        let ghost mut n: int = 0;
        assert(list.skip(0) =~= list);
        let mut rest = superseded;
        while rest.len() > 0
            invariant
                self.owing(image_prefixes(rest@, rest@.len() as int)),
                self.only_retention_moved(before),
                self.checkpoints == before.checkpoints,
                self.kv_used_pages <= before.kv_used_pages,
                tidied(first_events, events@),
                0 <= n <= list.len(),
                rest@ == list.skip(n),
                self.discards(before, list, n, first_events, events@),
            decreases rest@.len(),
        {
            let ghost all = rest@;
            let ghost middle = *self;
            let ghost until = events@;
            let entry = rest.remove(0);
            proof {
                let owed = image_prefixes(all, all.len() as int);
                let left = image_prefixes(rest@, rest@.len() as int);
                let still = if entry.tier == ReuseSource::Device {
                    left.push(entry.prefix)
                } else {
                    left
                };
                assert forall|p: PrefixId| #[trigger] debt(owed, p) == debt(still, p) by {
                    images_are_owed(all, p, all.len() as int);
                    images_are_owed(rest@, p, rest@.len() as int);
                    images_without(all, 0, p, all.len() as int);
                    debt_grows(left, entry.prefix, p);
                }
                self.owed_in_any_order(owed, still);
            }
            self.discard_checkpoint(
                entry,
                events,
                Ghost(image_prefixes(rest@, rest@.len() as int)),
            );
            proof {
                assert(entry == list[n]);
                assert(rest@ =~= list.skip(n + 1));
                self.discards_one_more(middle, before, list, n, first_events, until, events@);
                n = n + 1;
            }
        }
        proof {
            assert(image_prefixes(rest@, rest@.len() as int) =~= Seq::<PrefixId>::empty());
        }
    }

    /// Whether a checkpoint of `r` at `at` tokens can be kept: it has a prefix
    /// to stand on, a page for its tail where it has one, and a name.
    pub open spec fn keeps_checkpoint(self, r: Request, at: u32) -> bool {
        &&& self.config.prompt_reuse
        &&& r.prefix_entry matches Some(p) && entry_of(self.prefix.entries@, p).refcount < u32::MAX
        &&& self.checkpoints.next_id < u64::MAX
        &&& at % self.config.kv_page_tokens == 0 || self.kv_used_pages < self.capacity.kv_pages
        &&& self.checkpoints.used_bytes + 1 <= self.checkpoints.capacity_bytes
    }

    /// The image captured for the request at `idx` was kept, where it can be:
    /// the newest entry of the ledger, under the prompt's own key, what it
    /// supersedes discarded and reported. Otherwise it was released.
    #[verifier::opaque]
    pub open spec fn checkpoint_left(
        self,
        before: Self,
        idx: int,
        at: u32,
        first: Seq<SchedEvent>,
        last: Seq<SchedEvent>,
    ) -> bool {
        let r = before.requests@[idx];
        let entries = self.checkpoints.entries@;
        if before.keeps_checkpoint(r, at) {
            &&& entries.len() > 0
            &&& entries.last().publisher == r.id
            &&& entries.last().tokens == at
            &&& entries.last().key == content_key(r.input.tokens@, r.input.media(), at as int)
            &&& entries.last().tier == ReuseSource::Device
            &&& entries.last().owner == r.class
            &&& entries.last().turn_opening == r.new_turn()
            &&& Some(entries.last().prefix) == r.prefix_entry
            &&& self.requests@[idx].checkpoint_captured
            &&& exists|referenced: Self, capture: CheckpointCapture| #[trigger]
                referenced.referenced_once_more(before, r.prefix_entry->Some_0)
                    && #[trigger] is_capture_of(capture, r, at) && self.capture_kept(
                    referenced,
                    idx,
                    capture,
                    first,
                    last,
                )
        } else {
            &&& self.requests@ == before.requests@
            &&& entries == before.checkpoints.entries@
            &&& self.tail_pages@ == without_tail(before.tail_pages@, r.id)
            &&& before.image_freed(r.id)
            &&& last == first
        }
    }

    /// The prefix `p` has one reference more.
    pub open spec fn referenced_once_more(self, before: Self, p: PrefixId) -> bool {
        let at = crate::prefix::place(before.prefix.entries@, p)->Some_0;
        let e = before.prefix.entries@[at];
        &&& self == (ConcreteScheduler { prefix: self.prefix, ..before })
        &&& self.prefix.same_but_entries(before.prefix)
        &&& self.prefix.entries@ == before.prefix.entries@.update(
            at,
            PrefixEntry { refcount: (e.refcount + 1) as u32, ..e },
        )
    }

    /// `capture` is in the ledger, its owner noted and a page of the pool its
    /// own where its opener ends inside one; and what it supersedes of its own
    /// conversation was discarded, oldest first.
    pub open spec fn capture_kept(
        self,
        before: Self,
        idx: int,
        capture: CheckpointCapture,
        first: Seq<SchedEvent>,
        last: Seq<SchedEvent>,
    ) -> bool {
        exists|booked: Self, pool: CheckpointPool, retained: Retained, now: u64|
            #![trigger owner_noted(
                pool,
                retained.id,
                before.requests@[idx].class,
                now,
                booked.checkpoints,
            )]
            {
                let tail = capture.tokens % before.config.kv_page_tokens != 0;
                &&& was_retained(before.checkpoints, capture, before.tick, retained, pool)
                &&& call_ensures(K::now, (&before.clock,), now)
                &&& owner_noted(
                    pool,
                    retained.id,
                    before.requests@[idx].class,
                    now,
                    booked.checkpoints,
                )
                &&& booked == (ConcreteScheduler {
                    requests: booked.requests,
                    checkpoints: booked.checkpoints,
                    tail_pages: booked.tail_pages,
                    kv_used_pages: booked.kv_used_pages,
                    ..before
                })
                &&& booked.requests@ == before.requests@.update(
                    idx,
                    Request { checkpoint_captured: true, ..before.requests@[idx] },
                )
                &&& booked.tail_pages@ == (if tail {
                    before.tail_pages@.push(capture.publisher)
                } else {
                    before.tail_pages@
                })
                &&& booked.kv_used_pages == before.kv_used_pages + (if tail {
                    1int
                } else {
                    0
                })
                &&& self.discards(
                    booked,
                    retained.superseded@,
                    retained.superseded@.len() as int,
                    first,
                    last,
                )
            }
    }

    /// Record the checkpoint the backend captured for the request at `idx`,
    /// at `at` tokens. The entry takes a reference on the prefix under it and,
    /// where its opener ends inside a page, a page of the pool; what it
    /// supersedes of its own conversation is released here and now. Where
    /// nothing could name the image it is released instead.
    pub(crate) fn retain_checkpoint(&mut self, idx: usize, at: u32, events: &mut Vec<SchedEvent>)
        requires
            old(self).wf(),
            idx < old(self).requests@.len(),
            at <= old(self).requests@[idx as int].input.tokens@.len(),
        ensures
            final(self).wf(),
            final(self).only_request_and_retention_moved(*old(self), idx as int),
            tidied(old(events)@, final(events)@),
            final(self).requests@[idx as int] == (Request {
                checkpoint_captured: final(self).requests@[idx as int].checkpoint_captured,
                ..old(self).requests@[idx as int]
            }),
            final(self).checkpoint_left(
                *old(self),
                idx as int,
                at,
                old(events)@,
                final(events)@,
            ),
    {
        reveal(ConcreteScheduler::checkpoint_left);
        let ghost before = *self;
        let ghost first = events@;
        let publisher: RequestId = self.requests[idx].id;
        let tail: u32 = self.tail_pages_at(at);
        proof {
            self.tails_are_few();
            assert(request_ok(self.requests@[idx as int], self.config, self.prefix.entries@));
        }
        let prefix: PrefixId = match self.requests[idx].prefix_entry {
            Some(prefix) => prefix,
            None => {
                self.release_checkpoint_handle(publisher);
                proof {
                    self.image_let_go(before);
                }
                return;
            },
        };
        proof {
            self.standing_is_held(Seq::empty(), idx as int);
        }
        if !self.config.prompt_reuse || self.checkpoints.next_id == u64::MAX || (tail > 0 && self.kv_used_pages
            == self.capacity.kv_pages) || !self.prefix.retain(prefix) {
            self.release_checkpoint_handle(publisher);
            proof {
                self.image_let_go(before);
            }
            return;
        }
        proof {
            self.reference_is_owed(before, prefix);
        }
        let media = media_keys(&self.requests[idx].input);
        let key = PromptContent::new(
            self.requests[idx].input.tokens.as_slice(),
            media.as_slice(),
        ).key_at(at);
        let capture = CheckpointCapture {
            publisher,
            key,
            tokens: at,
            prefix,
            pages: self.prefix.total_pages_of(prefix),
            bytes: 1,
            gdn: self.requests[idx].gdn.clone(),
            identity: self.checkpoints.identity(),
            tier: ReuseSource::Device,
            claimed: self.requests[idx].checkpoint_entry,
            turn_opening: self.requests[idx].opens_a_turn(),
        };
        let now: u64 = self.now();
        let ghost referenced = *self;
        let ghost offered = capture;
        proof {
            assert(referenced.referenced_once_more(before, prefix));
            assert(is_capture_of(offered, before.requests@[idx as int], at));
        }
        self.record_capture(idx, capture, now, events);
    }

    /// Put a captured image, one reference on its prefix already taken, in the
    /// ledger; release it where the ledger will not take it.
    fn record_capture(
        &mut self,
        idx: usize,
        capture: CheckpointCapture,
        now: u64,
        events: &mut Vec<SchedEvent>,
    )
        requires
            old(self).owing(Seq::empty().push(capture.prefix)),
            idx < old(self).requests@.len(),
            old(self).checkpoints.next_id < u64::MAX,
            old(self).config.prompt_reuse,
            capture.tier == ReuseSource::Device,
            capture.bytes == 1,
            capture.identity == old(self).checkpoints.identity,
            capture.tokens % old(self).config.kv_page_tokens != 0 ==> old(self).kv_used_pages
                < old(self).capacity.kv_pages,
            call_ensures(K::now, (&old(self).clock,), now),
        ensures
            final(self).wf(),
            final(self).only_request_and_retention_moved(*old(self), idx as int),
            tidied(old(events)@, final(events)@),
            final(self).requests@[idx as int] == (Request {
                checkpoint_captured: final(self).requests@[idx as int].checkpoint_captured,
                ..old(self).requests@[idx as int]
            }),
            old(self).checkpoints.used_bytes + 1 > old(self).checkpoints.capacity_bytes
                ==> final(self).requests@ == old(self).requests@
                && final(self).checkpoints.entries@ == old(self).checkpoints.entries@
                && final(self).tail_pages@ == without_tail(
                old(self).tail_pages@,
                capture.publisher,
            ) && old(self).image_freed(capture.publisher) && final(events)@ == old(events)@,
            old(self).checkpoints.used_bytes + 1 <= old(self).checkpoints.capacity_bytes
                ==> final(self).capture_kept(
                *old(self),
                idx as int,
                capture,
                old(events)@,
                final(events)@,
            ),
            old(self).checkpoints.used_bytes + 1 <= old(self).checkpoints.capacity_bytes ==> {
                let last = final(self).checkpoints.entries@.last();
                &&& final(self).checkpoints.entries@.len() > 0
                &&& last.publisher == capture.publisher
                &&& last.tokens == capture.tokens
                &&& last.key == capture.key
                &&& last.tier == capture.tier
                &&& last.prefix == capture.prefix
                &&& last.turn_opening == capture.turn_opening
                &&& last.owner == old(self).requests@[idx as int].class
                &&& final(self).requests@[idx as int].checkpoint_captured
            },
    {
        let ghost before = *self;
        let ghost offered = capture;
        let publisher: RequestId = capture.publisher;
        let prefix: PrefixId = capture.prefix;
        let tail: u32 = self.tail_pages_at(capture.tokens);
        let ghost owed = Seq::<PrefixId>::empty().push(prefix);
        let class = self.requests[idx].class;
        let tick: u64 = self.tick;
        match self.checkpoints.retain(capture, tick) {
            Err(_) => {
                proof {
                    self.ledger_refused(before, owed);
                }
                self.release_prefix_claim(prefix, Ghost(Seq::empty()));
                let ghost let_go = *self;
                proof {
                    self.tails_are_few();
                }
                self.release_checkpoint_handle(publisher);
                proof {
                    self.image_let_go(let_go);
                }
            },
            Ok(retained) => {
                let ghost middle = self.checkpoints;
                proof {
                    a_capture_is_the_newest_entry(
                        before.checkpoints,
                        offered,
                        tick,
                        retained,
                        middle,
                    );
                }
                self.checkpoints.note_owner(retained.id, class, now);
                proof {
                    assert(owner_noted(middle, retained.id, class, now, self.checkpoints));
                    self.image_is_charged(before, offered, tick, retained, class, now, prefix);
                }
                if tail > 0 {
                    self.tail_pages.push(publisher);
                    self.kv_used_pages = self.kv_used_pages + 1;
                }
                let ghost still = image_prefixes(
                    retained.superseded@,
                    retained.superseded@.len() as int,
                );
                proof {
                    self.ledger_took(before, owed, still);
                }
                self.mark_captured(idx, Ghost(still));
                let ghost booked = *self;
                let ghost what = retained;
                self.discard_superseded(retained.superseded, events);
                proof {
                    assert(was_retained(before.checkpoints, offered, tick, what, middle));
                    assert(owner_noted(middle, what.id, class, now, booked.checkpoints));
                    assert(self.capture_kept(
                        before,
                        idx as int,
                        offered,
                        old(events)@,
                        events@,
                    ));
                }
            },
        }
    }

    /// The request at `idx` has left a checkpoint of its own.
    fn mark_captured(&mut self, idx: usize, Ghost(owed): Ghost<Seq<PrefixId>>)
        requires
            old(self).owing(owed),
            idx < old(self).requests@.len(),
        ensures
            final(self).owing(owed),
            *final(self) == (ConcreteScheduler { requests: final(self).requests, ..*old(self) }),
            final(self).requests@ == old(self).requests@.update(
                idx as int,
                Request { checkpoint_captured: true, ..old(self).requests@[idx as int] },
            ),
    {
        let ghost before = *self;
        self.requests[idx].checkpoint_captured = true;
        proof {
            let with = self.requests@[idx as int];
            lanes_kept(before.requests@, before.free_lanes@, idx as int, with);
            hosted_kept_suspended(before.requests@, before.host.live@, idx as int, with);
            assert(request_ok(before.requests@[idx as int], before.config, before.prefix.entries@));
            self.one_request_moved(before, idx as int, owed, owed);
        }
    }

    /// Giving back a slot and a tail page keeps the invariant.
    proof fn image_let_go(self, before: Self)
        requires
            before.wf(),
            self == (ConcreteScheduler {
                retained: self.retained,
                tail_pages: self.tail_pages,
                kv_used_pages: self.kv_used_pages,
                ..before
            }),
            self.retained.wf(),
            self.retained.slots@.len() == before.retained.slots@.len(),
            self.kv_used_pages - self.tail_pages@.len() == before.kv_used_pages
                - before.tail_pages@.len(),
            self.kv_used_pages <= before.kv_used_pages,
        ensures
            self.wf(),
            self.only_retention_moved(before),
    {
        assert forall|p: PrefixId| #[trigger]
            self.prefix.refs(p) == standing(self.requests@, p) + holding(
                self.checkpoints.entries@,
                p,
            ) + debt(Seq::empty(), p) by {
            assert(before.prefix.refs(p) == self.prefix.refs(p));
        }
        self.retention_keeps_order(before, Seq::empty(), Seq::empty());
    }

    /// One reference more on `prefix` is owed until something holds it.
    proof fn reference_is_owed(self, before: Self, prefix: PrefixId)
        requires
            before.wf(),
            self == (ConcreteScheduler { prefix: self.prefix, ..before }),
            self.prefix.wf(),
            self.prefix.same_but_entries(before.prefix),
            self.prefix.pins() == before.prefix.pins(),
            retained_count(self.prefix.entries@) == retained_count(before.prefix.entries@),
            forall|p: PrefixId| #[trigger]
                self.prefix.refs(p) == before.prefix.refs(p) + (if p == prefix {
                    1int
                } else {
                    0
                }),
            forall|p: PrefixId| #[trigger]
                keeps_terms(before.prefix.entries@, self.prefix.entries@, p),
        ensures
            self.owing(Seq::empty().push(prefix)),
            self.only_retention_moved(before),
    {
        let owed = Seq::<PrefixId>::empty().push(prefix);
        assert forall|p: PrefixId| #[trigger]
            self.prefix.refs(p) == standing(self.requests@, p) + holding(
                self.checkpoints.entries@,
                p,
            ) + debt(owed, p) by {
            debt_grows(Seq::empty(), prefix, p);
            assert(before.prefix.refs(p) == standing(before.requests@, p) + holding(
                before.checkpoints.entries@,
                p,
            ) + debt(Seq::empty(), p));
        }
        assert forall|p: PrefixId| #[trigger]
            same_length(before.prefix.entries@, self.prefix.entries@, p) by {
            assert(keeps_terms(before.prefix.entries@, self.prefix.entries@, p));
        }
        self.retention_keeps_order(before, Seq::empty(), owed);
    }

    /// A refused capture leaves the entries and the debt as they were.
    proof fn ledger_refused(self, before: Self, owed: Seq<PrefixId>)
        requires
            before.owing(owed),
            self == (ConcreteScheduler { checkpoints: self.checkpoints, ..before }),
            self.checkpoints.wf(),
            self.checkpoints.same_terms(before.checkpoints),
            self.checkpoints.entries@ == before.checkpoints.entries@,
        ensures
            self.owing(owed),
            self.only_retention_moved(before),
    {
        assert forall|p: PrefixId| #[trigger]
            self.prefix.refs(p) == standing(self.requests@, p) + holding(
                self.checkpoints.entries@,
                p,
            ) + debt(owed, p) by {
            assert(before.prefix.refs(p) == self.prefix.refs(p));
        }
        self.retention_keeps_order(before, owed, owed);
    }

    /// A retained capture holds the reference that was owed; what its lineage's
    /// cut gave up is owed in its place.
    proof fn image_is_charged(
        self,
        before: Self,
        capture: CheckpointCapture,
        tick: u64,
        retained: Retained,
        class: RequestClass,
        now: u64,
        prefix: PrefixId,
    )
        requires
            before.owing(Seq::empty().push(prefix)),
            self.requests == before.requests,
            self.prefix == before.prefix,
            capture.prefix == prefix,
            capture.tier == ReuseSource::Device,
            exists|middle: CheckpointPool|
                was_retained(before.checkpoints, capture, tick, retained, middle) && middle.wf()
                    && #[trigger] owner_noted(middle, retained.id, class, now, self.checkpoints),
        ensures
            forall|p: PrefixId| #[trigger]
                self.prefix.refs(p) == standing(self.requests@, p) + holding(
                    self.checkpoints.entries@,
                    p,
                ) + debt(
                    image_prefixes(retained.superseded@, retained.superseded@.len() as int),
                    p,
                ),
            self.checkpoints.entries@.len() > 0,
            ({
                let last = self.checkpoints.entries@.last();
                &&& last.publisher == capture.publisher
                &&& last.tokens == capture.tokens
                &&& last.key == capture.key
                &&& last.tier == capture.tier
                &&& last.prefix == capture.prefix
                &&& last.turn_opening == capture.turn_opening
                &&& last.owner == class
            }),
    {
        let middle = choose|middle: CheckpointPool|
            was_retained(before.checkpoints, capture, tick, retained, middle) && middle.wf()
                && #[trigger] owner_noted(middle, retained.id, class, now, self.checkpoints);
        let joined = joined_lineage(before.checkpoints.entries@, capture.claimed);
        let lineage = match joined {
            Some(lineage) => lineage,
            None => before.checkpoints.next_lineage,
        };
        let entry = CheckpointEntry {
            id: before.checkpoints.next_id,
            publisher: capture.publisher,
            key: capture.key,
            tokens: capture.tokens,
            identity: capture.identity,
            tier: capture.tier,
            prefix: capture.prefix,
            pages: capture.pages,
            bytes: capture.bytes,
            gdn: capture.gdn,
            lineage,
            turn_opening: capture.turn_opening,
            use_tick: tick,
            owner: RequestClass::Interactive,
            used_at: 0,
        };
        let was = before.checkpoints.entries@;
        let all = was.push(entry);
        let n = all.len() as int;
        let kept_now = kept(all, lineage, n);
        let gone = given_up(all, lineage, n);
        assert(outlives_cut(all, lineage, n - 1));
        assert(kept_now == kept(all, lineage, n - 1).push(all[n - 1]));
        let last = kept_now.len() - 1;
        assert(kept_now[last] == entry);
        assert(middle.entries@ == kept_now);
        assert(kept_now[last].id == retained.id);
        place_is_unique(kept_now, middle.next_id, last);
        assert forall|k: int| 0 <= k < kept_now.len() implies (
        #[trigger] self.checkpoints.entries@[k]).tier == kept_now[k].tier
            && self.checkpoints.entries@[k].prefix == kept_now[k].prefix by {}
        assert forall|p: PrefixId| #[trigger]
            self.prefix.refs(p) == standing(self.requests@, p) + holding(
                self.checkpoints.entries@,
                p,
            ) + debt(image_prefixes(gone, gone.len() as int), p) by {
            images_same(self.checkpoints.entries@, kept_now, p, kept_now.len() as int);
            a_cut_splits_the_images(all, lineage, p, n);
            images_same(all, was, p, was.len() as int);
            images_are_owed(gone, p, gone.len() as int);
            debt_grows(Seq::empty(), prefix, p);
            assert(before.prefix.refs(p) == standing(before.requests@, p) + holding(was, p) + debt(
                Seq::<PrefixId>::empty().push(prefix),
                p,
            ));
        }
    }

    /// With the new image charged, the invariant holds but for what its
    /// lineage's cut gave up.
    proof fn ledger_took(self, before: Self, owed: Seq<PrefixId>, still_owed: Seq<PrefixId>)
        requires
            before.owing(owed),
            self.only_retention_moved(before),
            self.checkpoints.wf(),
            self.checkpoints.capacity_bytes == before.checkpoints.capacity_bytes,
            self.prefix == before.prefix,
            self.host == before.host,
            self.retained == before.retained,
            self.kv_used_pages - self.tail_pages@.len() == before.kv_used_pages
                - before.tail_pages@.len(),
            self.kv_used_pages <= self.capacity.kv_pages,
            self.config.prompt_reuse,
            self.refs_ok(still_owed),
        ensures
            self.owing(still_owed),
    {
        self.retention_keeps_order(before, owed, still_owed);
    }
}

/// `capture` is the checkpoint of `r` at `at` tokens, on the device.
pub open spec fn is_capture_of(capture: CheckpointCapture, r: Request, at: u32) -> bool {
    &&& capture.publisher == r.id
    &&& capture.key == content_key(r.input.tokens@, r.input.media(), at as int)
    &&& capture.tokens == at
    &&& Some(capture.prefix) == r.prefix_entry
    &&& capture.bytes == 1
    &&& capture.gdn@ == r.gdn@
    &&& capture.tier == ReuseSource::Device
    &&& capture.claimed == r.checkpoint_entry
    &&& capture.turn_opening == r.new_turn()
}

/// `after` is `before` with the owner of `id` noted.
pub open spec fn owner_noted(
    before: CheckpointPool,
    id: CheckpointId,
    owner: RequestClass,
    used_at: u64,
    after: CheckpointPool,
) -> bool {
    let at = place_of(before.entries@, id);
    &&& holds_id(before.entries@, id)
    &&& after.entries@ == before.entries@.update(
        at,
        CheckpointEntry { owner, used_at, ..before.entries@[at] },
    )
}

} // verus!
