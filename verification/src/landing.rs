//! What a prefill step leaves behind: chunks that landed, heads published and
//! checkpoints captured with them; or nothing at all, where it failed.

use crate::admission::AdmissionResources;
use crate::checkpoint::{RetainedKind, RetainedMisses, RetainedStateOperation};
use crate::chunks::head_of;
use crate::concrete::{request_ok, ConcreteScheduler};
use crate::decision::Readout;
use crate::host::HostTier;
use crate::identity::{MatchKey, PromptContent};
use crate::ledger::{counts_move, debt, holding, standing, stands_on};
use crate::moves::{hosted_kept, lanes_kept};
use crate::plan::{head_pages_fit, media_keys, reserved, MAX_PREFILL_ATTEMPTS};
use crate::prefill::{carries_on, sendable, waits};
use crate::prefix::{
    entry_of, held, keeps_terms, pages_past, retained_count, same_length, whole_pages, Retention,
};
use crate::request::Request;
use crate::lifecycle::{done_event, is_told, moves_told, moves_told_on, one_end_told, tells};
use crate::retained_slot::{given_back, RetainedHolder};
use crate::retention::{longer, tidied};
use crate::scheduler::{CheckpointClaim, Clock, Compute, PrefillJob, PrefillOutcome};
use crate::types::{
    AttentionScores, ComputeError, FinishReason, PrefixId, RequestId, RequestState, SchedEvent,
};
use vstd::prelude::*;

verus! {

impl Request {
    /// A chunk of `width` tokens landed.
    pub open spec fn chunk_landed(
        self,
        width: int,
        readout: Option<Readout>,
        attention: Option<AttentionScores>,
        after: Request,
    ) -> bool {
        &&& after == (Request {
            state: if self.state == RequestState::Admitted {
                RequestState::Prefilling
            } else {
                self.state
            },
            prefill_failures: 0,
            prefill_progress: (self.prefill_progress + width) as u32,
            readout: if readout is Some {
                readout
            } else {
                self.readout
            },
            attention: if attention is Some {
                attention
            } else {
                self.attention
            },
            gdn: after.gdn,
            ..self
        })
        &&& after.gdn@ == self.gdn@.checkpointed((self.prefill_progress + width) as nat)
    }

    /// Record that a chunk of `width` tokens landed.
    pub fn land_chunk(
        &mut self,
        width: u32,
        readout: Option<Readout>,
        attention: Option<AttentionScores>,
    )
        requires
            old(self).prefill_progress + width <= u32::MAX,
        ensures
            old(self).chunk_landed(width as int, readout, attention, *final(self)),
    {
        self.prefill_failures = 0;
        self.start_prefill();
        self.prefill_progress = self.prefill_progress + width;
        if readout.is_some() {
            self.readout = readout;
        }
        if attention.is_some() {
            self.attention = attention;
        }
        self.checkpoint(self.prefill_progress as usize);
    }

    /// The request after it published a head of `pages` pages of its own.
    pub open spec fn published(self, entry: PrefixId, pages: int) -> Request {
        Request {
            prefix_entry: Some(entry),
            prefix_publisher: Some(self.id),
            shared_pages: (self.shared_pages + pages) as u32,
            resources: AdmissionResources {
                kv_pages: (self.resources.kv_pages - pages) as u32,
                ..self.resources
            },
            ..self
        }
    }

    /// Stand on the head just published: its pages pass from the request's own
    /// reservation to the shared ones.
    fn stand_on_own(&mut self, entry: PrefixId, pages: u32)
        requires
            pages <= old(self).resources.kv_pages,
            old(self).shared_pages + pages <= u32::MAX,
        ensures
            *final(self) == old(self).published(entry, pages as int),
    {
        self.prefix_entry = Some(entry);
        self.prefix_publisher = Some(self.id);
        self.shared_pages = self.shared_pages + pages;
        self.resources.kv_pages = self.resources.kv_pages - pages;
    }
}

/// What is reported of a claim whose chunk landed.
pub open spec fn claim_events(
    request: RequestId,
    claim: Option<CheckpointClaim>,
    restore_micros: u64,
) -> Seq<SchedEvent> {
    match claim {
        None => Seq::empty(),
        Some(c) => seq![
            SchedEvent::StateReused {
                request,
                source: c.source,
                tokens: c.tokens,
                restore_micros,
                kind: RetainedKind::Checkpoint,
            },
            SchedEvent::RetainedState {
                operation: RetainedStateOperation::Restore,
                source: c.source,
                kind: RetainedKind::Checkpoint,
            },
        ],
    }
}

/// What is reported of the tiers a lookup found nothing in.
pub open spec fn miss_events(misses: RetainedMisses) -> Seq<SchedEvent> {
    let device = if misses.device {
        seq![
            SchedEvent::RetainedState {
                operation: RetainedStateOperation::Miss,
                source: crate::checkpoint::ReuseSource::Device,
                kind: RetainedKind::Checkpoint,
            },
        ]
    } else {
        Seq::empty()
    };
    let kv_ram = if misses.kv_ram {
        seq![
            SchedEvent::RetainedState {
                operation: RetainedStateOperation::Miss,
                source: crate::checkpoint::ReuseSource::KvRam,
                kind: RetainedKind::Checkpoint,
            },
        ]
    } else {
        Seq::empty()
    };
    device + kv_ram
}

/// Report the tiers a lookup found nothing in.
fn report_misses(misses: RetainedMisses, events: &mut Vec<SchedEvent>)
    ensures
        final(events)@ == old(events)@ + miss_events(misses),
{
    let ghost before = events@;
    if misses.device {
        events.push(
            SchedEvent::RetainedState {
                operation: RetainedStateOperation::Miss,
                source: crate::checkpoint::ReuseSource::Device,
                kind: RetainedKind::Checkpoint,
            },
        );
    }
    if misses.kv_ram {
        events.push(
            SchedEvent::RetainedState {
                operation: RetainedStateOperation::Miss,
                source: crate::checkpoint::ReuseSource::KvRam,
                kind: RetainedKind::Checkpoint,
            },
        );
    }
    assert(events@ =~= before + miss_events(misses));
}

/// What a chunk of `r` is reported as: the chunk itself first, what its claim
/// resumed from and its lookup missed last, and between the two only what
/// retaining the checkpoint it captured gave up.
pub open spec fn is_chunk_report(
    r: Request,
    job: PrefillJob,
    outcome: PrefillOutcome,
    report: Seq<SchedEvent>,
) -> bool {
    let width = job.tokens@.len();
    let tail = claim_events(r.id, job.checkpoint, outcome.restore_micros) + miss_events(
        r.pending_retained_misses,
    );
    &&& report.len() > tail.len()
    &&& report[0] == (SchedEvent::PrefillChunk {
        request: r.id,
        chunk_tokens: width as u32,
        prefilled_tokens: (r.prefill_progress + width) as u32,
        encode_micros: outcome.encode_micros,
    })
    &&& report.skip(report.len() - tail.len()) == tail
    &&& forall|k: int|
        1 <= k < report.len() - tail.len() ==> (#[trigger] report[k]) is RetainedState
    &&& job.capture_checkpoint is None || !outcome.checkpoint_captured ==> report.len() == 1
        + tail.len()
}

/// A request whose first chunk landed is told of.
proof fn chunk_is_told(
    a: Seq<Request>,
    b: Seq<Request>,
    i: int,
    first: Seq<SchedEvent>,
    last: Seq<SchedEvent>,
)
    requires
        0 <= i < a.len(),
        b.len() == a.len(),
        forall|j: int| 0 <= j < a.len() && j != i ==> (#[trigger] b[j]) == a[j],
        b[i].state == RequestState::Prefilling || b[i].state == a[i].state,
        first.len() < last.len(),
        tells(last[first.len() as int], a[i].id, RequestState::Prefilling),
    ensures
        moves_told(a, b, first, last),
{
}

/// `reports` are the reports of the batch's chunks, in its order.
pub open spec fn chunks_reported(
    reqs: Seq<Request>,
    batch: Seq<usize>,
    jobs: Seq<PrefillJob>,
    outcomes: Seq<PrefillOutcome>,
    reports: Seq<Seq<SchedEvent>>,
) -> bool {
    forall|n: int|
        0 <= n < reports.len() ==> is_chunk_report(
            reqs[batch[n] as int],
            jobs[n],
            outcome_of(outcomes, n),
            #[trigger] reports[n],
        )
}

impl<C: Compute, K: Clock> ConcreteScheduler<C, K> {
    /// Record on the request at `i` that a chunk of `width` tokens landed.
    fn record_chunk(
        &mut self,
        i: usize,
        width: u32,
        readout: Option<Readout>,
        attention: Option<AttentionScores>,
    )
        requires
            old(self).wf(),
            i < old(self).requests@.len(),
            sendable(old(self).requests@[i as int]),
            old(self).requests@[i as int].prefill_progress + width <= old(self).requests@[i as int].input.tokens@.len(),
        ensures
            final(self).wf(),
            *final(self) == (ConcreteScheduler { requests: final(self).requests, ..*old(self) }),
            final(self).requests@ == old(self).requests@.update(
                i as int,
                final(self).requests@[i as int],
            ),
            old(self).requests@[i as int].chunk_landed(
                width as int,
                readout,
                attention,
                final(self).requests@[i as int],
            ),
    {
        let ghost before = *self;
        assert(request_ok(self.requests@[i as int], self.config, self.prefix.entries@));
        self.requests[i].land_chunk(width, readout, attention);
        proof {
            let with = self.requests@[i as int];
            assert(self.requests@ =~= before.requests@.update(i as int, with));
            lanes_kept(before.requests@, before.free_lanes@, i as int, with);
            hosted_kept(before.requests@, before.host.live@, i as int, with);
            self.one_request_moved(before, i as int, Seq::empty(), Seq::empty());
        }
    }

    /// The books balance after a resident request published a head chained on
    /// what it stood on: its reference passes to the new entry, and the pages
    /// of the head pass from its own reservation to the pinned ones.
    proof fn head_was_published(self, before: Self, i: int, entry: PrefixId, pages: u32)
        requires
            before.wf(),
            0 <= i < before.requests@.len(),
            before.requests@[i].resident,
            self == (ConcreteScheduler {
                requests: self.requests,
                prefix: self.prefix,
                ..before
            }),
            self.requests@ == before.requests@.update(
                i,
                before.requests@[i].published(entry, pages as int),
            ),
            pages <= before.requests@[i].resources.kv_pages,
            before.requests@[i].shared_pages + pages <= u32::MAX,
            self.prefix.wf(),
            self.prefix.page_tokens == before.prefix.page_tokens,
            self.prefix.pins() == before.prefix.pins() + pages,
            retained_count(self.prefix.entries@) == retained_count(before.prefix.entries@),
            self.prefix.spilled == before.prefix.spilled,
            !held(before.prefix.entries@, entry),
            held(self.prefix.entries@, entry),
            before.requests@[i].shared_pages + pages == whole_pages(
                entry_of(self.prefix.entries@, entry).length_tokens,
                before.config.kv_page_tokens,
            ),
            forall|p: PrefixId| #[trigger]
                self.prefix.refs(p) == before.prefix.refs(p) + (if p == entry {
                    1int
                } else {
                    0
                }) - (if before.requests@[i].prefix_entry == Some(p) {
                    1int
                } else {
                    0
                }),
            forall|p: PrefixId|
                p != entry ==> #[trigger] keeps_terms(
                    before.prefix.entries@,
                    self.prefix.entries@,
                    p,
                ),
        ensures
            self.wf(),
    {
        let was = before.requests@[i];
        let with = self.requests@[i];
        assert(request_ok(was, before.config, before.prefix.entries@));
        counts_move(before.requests@, i, with);
        lanes_kept(before.requests@, before.free_lanes@, i, with);
        hosted_kept(before.requests@, before.host.live@, i, with);
        assert forall|p: PrefixId| #[trigger]
            self.prefix.refs(p) == standing(self.requests@, p) + holding(
                self.checkpoints.entries@,
                p,
            ) + debt(Seq::empty(), p) by {
            assert(before.prefix.refs(p) == standing(before.requests@, p) + holding(
                before.checkpoints.entries@,
                p,
            ) + debt(Seq::empty(), p));
            assert(standing(self.requests@, p) == standing(before.requests@, p) + stands_on(p)(with)
                - stands_on(p)(was));
            if was.prefix_entry == Some(entry) {
                before.standing_is_held(Seq::empty(), i);
            }
        }
        assert forall|j: int| 0 <= j < self.requests@.len() implies request_ok(
            #[trigger] self.requests@[j],
            self.config,
            self.prefix.entries@,
        ) by {
            if j != i {
                assert(self.requests@[j] == before.requests@[j]);
                assert(request_ok(before.requests@[j], before.config, before.prefix.entries@));
                if let Some(p) = self.requests@[j].prefix_entry {
                    before.standing_is_held(Seq::empty(), j);
                    assert(p != entry);
                    self.standing_is_held(Seq::empty(), j);
                    assert(keeps_terms(before.prefix.entries@, self.prefix.entries@, p));
                }
            }
        }
        assert forall|a: int, b: int| 0 <= a < b < self.requests@.len() implies (
        #[trigger] self.requests@[a]).id < (#[trigger] self.requests@[b]).id by {
            assert(self.requests@[a].id == before.requests@[a].id);
            assert(self.requests@[b].id == before.requests@[b].id);
        }
    }

    /// The head of the request at `i`, of `published` tokens, was published,
    /// where it can be registered: it is the newest entry of the cache, and the
    /// request stands on it. Otherwise its slot and its handle went back.
    #[verifier::opaque]
    pub open spec fn published_head(self, before: Self, i: int, published: u32) -> bool {
        let r = before.requests@[i];
        let cache = before.prefix;
        let pages = pages_past(cache.entries@, published, cache.page_tokens, r.prefix_entry);
        let block = r.block_point(before.config.kv_page_tokens);
        if cache.registrable(head_of(r, published as int), published, r.gdn, r.prefix_entry) {
            let e = self.prefix.entries@.last();
            &&& self == (ConcreteScheduler {
                requests: self.requests,
                prefix: self.prefix,
                ..before
            })
            &&& self.requests@ == before.requests@.update(i, r.published(cache.next_id, pages))
            &&& self.prefix.entries@.len() == cache.entries@.len() + 1
            &&& self.prefix.entries@.drop_last() == cache.entries@
            &&& self.prefix.next_id == cache.next_id + 1
            &&& self.prefix.spilled == cache.spilled
            &&& e.id == cache.next_id
            &&& e.key == head_of(r, published as int)
            &&& e.length_tokens == published
            &&& e.publisher == r.id
            &&& e.own_pages == pages
            &&& e.parent == r.prefix_entry
            &&& e.gdn@ == r.gdn@
            &&& e.copy is None
            // A head that ends in the system block outlives its publisher.
            &&& if before.config.prompt_reuse && 0 < block && published <= block {
                &&& e.refcount == 2
                &&& e.retained matches Some(kept) && kept.at == before.tick && kept.class
                    == r.class && call_ensures(K::now, (&before.clock,), kept.used_at)
            } else {
                e.refcount == 1 && e.retained is None
            }
        } else {
            &&& self == (ConcreteScheduler { retained: self.retained, ..before })
            &&& self.retained.slots@ == given_back(
                before.retained.slots@,
                RetainedHolder::Prefix { publisher: r.id, tokens: published },
            )
            &&& before.head_freed(r.id, published)
        }
    }

    /// Register the head the request at `i` just published: it and everyone
    /// after it stand on the entry. A head that cannot be registered is let go.
    fn publish_head(&mut self, i: usize, published: u32)
        requires
            old(self).wf(),
            i < old(self).requests@.len(),
            old(self).requests@[i as int].resident,
            published <= old(self).requests@[i as int].input.tokens@.len(),
        ensures
            final(self).wf(),
            final(self).only_request_and_retention_moved(*old(self), i as int),
            final(self).kv_used_pages == old(self).kv_used_pages,
            final(self).checkpoints == old(self).checkpoints,
            final(self).published_head(*old(self), i as int, published),
    {
        reveal(ConcreteScheduler::published_head);
        let ghost before = *self;
        let publisher: RequestId = self.requests[i].id;
        let parent: Option<PrefixId> = self.requests[i].prefix_entry;
        let media = media_keys(&self.requests[i].input);
        let key: MatchKey = PromptContent::new(
            self.requests[i].input.tokens.as_slice(),
            media.as_slice(),
        ).key_at(published);
        proof {
            assert(request_ok(self.requests@[i as int], self.config, self.prefix.entries@));
            if parent is Some {
                self.standing_is_held(Seq::empty(), i as int);
            }
            head_pages_fit(
                published,
                reserved(self.config, self.requests@[i as int].input),
                self.config.kv_page_tokens,
            );
        }
        let registered = self.prefix.register(
            publisher,
            key,
            published,
            &self.requests[i].gdn,
            parent,
        );
        match registered {
            Some((entry, pages)) => {
                let ghost registered_cache = self.prefix;
                self.requests[i].stand_on_own(entry, pages);
                proof {
                    assert(self.requests@ =~= before.requests@.update(
                        i as int,
                        before.requests@[i as int].published(entry, pages as int),
                    ));
                    self.head_was_published(before, i as int, entry, pages);
                }
                let block: u32 = self.requests[i].retained_prefix_point(self.config.kv_page_tokens);
                if self.config.prompt_reuse && block > 0 && published <= block {
                    let retention = Retention {
                        at: self.tick,
                        class: self.requests[i].class,
                        used_at: self.now(),
                    };
                    let ghost standing_state = *self;
                    let _ = self.prefix.retain_published(entry, retention);
                    proof {
                        crate::prefix::place_is_where_it_is(
                            registered_cache.entries@,
                            registered_cache.next_id,
                            before.prefix.entries@.len() as int,
                        );
                        assert(self.prefix.entries@.drop_last() =~= before.prefix.entries@);
                        assert(entry_of(registered_cache.entries@, entry)
                            == registered_cache.entries@.last());
                        assert(same_length(registered_cache.entries@, self.prefix.entries@, entry));
                        assert forall|p: PrefixId| #[trigger]
                            self.prefix.refs(p) == standing(self.requests@, p) + holding(
                                self.checkpoints.entries@,
                                p,
                            ) + debt(Seq::empty(), p) by {
                            assert(standing_state.prefix.refs(p) == self.prefix.refs(p));
                        }
                        self.retention_keeps_order(standing_state, Seq::empty(), Seq::empty());
                    }
                }
            },
            None => {
                self.release_prefix_handle(publisher, published);
                proof {
                    assert forall|p: PrefixId| #[trigger]
                        self.prefix.refs(p) == standing(self.requests@, p) + holding(
                            self.checkpoints.entries@,
                            p,
                        ) + debt(Seq::empty(), p) by {
                        assert(before.prefix.refs(p) == self.prefix.refs(p));
                    }
                    self.retention_keeps_order(before, Seq::empty(), Seq::empty());
                }
            },
        }
    }

    /// What became of the request at `i` once its job landed.
    pub open spec fn landed(
        self,
        r: Request,
        job: PrefillJob,
        outcome: PrefillOutcome,
        after: Request,
    ) -> bool {
        let standing = self.stands_after((Request { gdn: after.gdn, ..r }), job);
        &&& r.chunk_landed(
            job.tokens@.len() as int,
            outcome.readout,
            outcome.attention,
            (Request {
                prefix_entry: r.prefix_entry,
                prefix_publisher: r.prefix_publisher,
                shared_pages: r.shared_pages,
                resources: r.resources,
                checkpoint_captured: r.checkpoint_captured,
                kv_ram_claim: r.kv_ram_claim,
                pending_retained_misses: r.pending_retained_misses,
                ..after
            }),
        )
        // A head that can be registered is what the request stands on now.
        &&& after.prefix_entry == standing.prefix_entry
        &&& after.prefix_publisher == standing.prefix_publisher
        &&& after.shared_pages == standing.shared_pages
        &&& after.resources == standing.resources
        // A restore that landed ends the claim on its copy.
        &&& after.kv_ram_claim == (if job.checkpoint is Some { None } else { r.kv_ram_claim })
        &&& !after.pending_retained_misses.device && !after.pending_retained_misses.kv_ram
    }

    /// The job of the request at `i` landed with `outcome`, and nothing but the
    /// request and what is retained moved.
    pub open spec fn chunk_lands(
        self,
        before: Self,
        i: int,
        job: PrefillJob,
        outcome: PrefillOutcome,
        first: Seq<SchedEvent>,
        last: Seq<SchedEvent>,
    ) -> bool {
        &&& self.only_request_and_retention_moved(before, i)
        &&& before.landed(before.requests@[i], job, outcome, self.requests@[i])
        &&& self.landed_in_steps(before, i, job, outcome, first, last)
    }

    /// The steps a job lands in: its chunk is recorded and reported, the head it
    /// published and the checkpoint it captured are kept, and the claim it was
    /// built from ends.
    #[verifier::opaque]
    pub open spec fn landed_in_steps(
        self,
        before: Self,
        i: int,
        job: PrefillJob,
        outcome: PrefillOutcome,
        first: Seq<SchedEvent>,
        last: Seq<SchedEvent>,
    ) -> bool {
        let r = before.requests@[i];
        let width = job.tokens@.len();
        let chunk = SchedEvent::PrefillChunk {
            request: r.id,
            chunk_tokens: width as u32,
            prefilled_tokens: (r.prefill_progress + width) as u32,
            encode_micros: outcome.encode_micros,
        };
        exists|recorded: Self, stored: Self, told: Seq<SchedEvent>|
            #[trigger] recorded.chunk_recorded(before, i, job, outcome)
                && #[trigger] stored.retained_landed(
                recorded,
                i,
                job,
                outcome.checkpoint_captured,
                first.push(chunk),
                told,
            ) && self == (ConcreteScheduler {
                requests: self.requests,
                host: self.host,
                ..stored
            }) && stored.claim_ends(i, job.checkpoint, self.host) && last == told + (claim_events(r.id, job.checkpoint, outcome.restore_micros)
                + miss_events(r.pending_retained_misses))
    }

    /// `host` is the host tier once the request at `i` was built from `claim`.
    pub open spec fn claim_ends(
        self,
        i: int,
        claim: Option<CheckpointClaim>,
        host: HostTier,
    ) -> bool {
        if claim is Some {
            self.restore_ends_claim(i, host)
        } else {
            host == self.host
        }
    }

    /// The chunk of the request at `i` was recorded, and nothing else moved.
    pub open spec fn chunk_recorded(
        self,
        before: Self,
        i: int,
        job: PrefillJob,
        outcome: PrefillOutcome,
    ) -> bool {
        &&& self == (ConcreteScheduler { requests: self.requests, ..before })
        &&& self.requests@ == before.requests@.update(i, self.requests@[i])
        &&& before.requests@[i].chunk_landed(
            job.tokens@.len() as int,
            outcome.readout,
            outcome.attention,
            self.requests@[i],
        )
    }

    /// The head the job published was published, and after it the checkpoint it
    /// captured was kept or released; one the backend did not take only gives
    /// its slot back.
    #[verifier::opaque]
    pub open spec fn retained_landed(
        self,
        before: Self,
        i: int,
        job: PrefillJob,
        captured: bool,
        first: Seq<SchedEvent>,
        last: Seq<SchedEvent>,
    ) -> bool {
        exists|published: Self| #[trigger]
            published.head_landed(before, i, job) && match job.capture_checkpoint {
                None => self == published && last == first,
                Some(capture) => if captured {
                    self.checkpoint_left(published, i, capture.tokens, first, last)
                } else {
                    &&& self == (ConcreteScheduler { retained: self.retained, ..published })
                    &&& self.retained.slots@ == given_back(
                        published.retained.slots@,
                        RetainedHolder::Checkpoint { publisher: before.requests@[i].id },
                    )
                    &&& last == first
                },
            }
    }

    /// The head the job published was published, if it published one.
    pub open spec fn head_landed(self, before: Self, i: int, job: PrefillJob) -> bool {
        match job.publish_prefix {
            Some(publish) => self.published_head(before, i, publish.tokens),
            None => self == before,
        }
    }

    /// The first `n` jobs of the batch landed, one after the other.
    pub open spec fn lands(
        self,
        before: Self,
        batch: Seq<usize>,
        jobs: Seq<PrefillJob>,
        outcomes: Seq<PrefillOutcome>,
        n: int,
        first: Seq<SchedEvent>,
        last: Seq<SchedEvent>,
    ) -> bool
        decreases n,
    {
        if n <= 0 {
            self == before && last == first
        } else {
            exists|middle: Self, until: Seq<SchedEvent>|
                middle.lands(before, batch, jobs, outcomes, n - 1, first, until)
                    && #[trigger] self.chunk_lands(
                    middle,
                    batch[n - 1] as int,
                    jobs[n - 1],
                    outcome_of(outcomes, n - 1),
                    until,
                    last,
                )
        }
    }

    proof fn lands_one_more(
        self,
        middle: Self,
        before: Self,
        batch: Seq<usize>,
        jobs: Seq<PrefillJob>,
        outcomes: Seq<PrefillOutcome>,
        n: int,
        first: Seq<SchedEvent>,
        until: Seq<SchedEvent>,
        last: Seq<SchedEvent>,
    )
        requires
            0 <= n,
            middle.lands(before, batch, jobs, outcomes, n, first, until),
            self.chunk_lands(
                middle,
                batch[n] as int,
                jobs[n],
                outcome_of(outcomes, n),
                until,
                last,
            ),
        ensures
            self.lands(before, batch, jobs, outcomes, n + 1, first, last),
    {
        let m = n + 1;
        assert(middle.lands(before, batch, jobs, outcomes, m - 1, first, until));
        assert(self.chunk_lands(
            middle,
            batch[m - 1] as int,
            jobs[m - 1],
            outcome_of(outcomes, m - 1),
            until,
            last,
        ));
    }

    /// The job of the request at `i` landed with `outcome`.
    fn land_prefill(
        &mut self,
        i: usize,
        job: &PrefillJob,
        outcome: PrefillOutcome,
        events: &mut Vec<SchedEvent>,
    )
        requires
            old(self).wf(),
            i < old(self).requests@.len(),
            sendable(old(self).requests@[i as int]),
            old(self).requests@[i as int].prefill_progress + job.tokens@.len()
                <= old(self).requests@[i as int].input.tokens@.len(),
            job.publish_prefix matches Some(p) ==> p.tokens
                <= old(self).requests@[i as int].input.tokens@.len(),
            job.capture_checkpoint matches Some(c) ==> c.tokens
                <= old(self).requests@[i as int].input.tokens@.len(),
        ensures
            final(self).wf(),
            final(self).only_request_and_retention_moved(*old(self), i as int),
            final(self).chunk_lands(
                *old(self),
                i as int,
                *job,
                outcome,
                old(events)@,
                final(events)@,
            ),
            longer(old(events)@, final(events)@),
            is_chunk_report(
                old(self).requests@[i as int],
                *job,
                outcome,
                final(events)@.skip(old(events)@.len() as int),
            ),
    {
        let ghost before = *self;
        let ghost first_events = events@;
        let ghost r = self.requests@[i as int];
        proof {
            assert(request_ok(r, self.config, self.prefix.entries@));
        }
        let request: RequestId = self.requests[i].id;
        let width: u32 = job.tokens.len() as u32;
        let PrefillOutcome {
            readout,
            attention,
            checkpoint_captured,
            restore_micros,
            encode_micros,
        } = outcome;
        self.record_chunk(i, width, readout, attention);
        let ghost recorded = *self;
        events.push(
            SchedEvent::PrefillChunk {
                request,
                chunk_tokens: width,
                prefilled_tokens: self.requests[i].prefill_progress,
                encode_micros,
            },
        );
        let ghost chunk_events = events@;
        self.land_retained(i, job, checkpoint_captured, events);
        let ghost stored = *self;
        let ghost middle_events = events@;
        self.land_claim(i, job.checkpoint, restore_micros, events);
        proof {
            let tail = claim_events(r.id, job.checkpoint, restore_micros) + miss_events(
                r.pending_retained_misses,
            );
            let report = events@.skip(first_events.len() as int);
            assert(middle_events[first_events.len() as int]
                == chunk_events[first_events.len() as int]);
            assert(report.skip(report.len() - tail.len()) =~= tail);
            assert forall|k: int| 1 <= k < report.len() - tail.len() implies (
            #[trigger] report[k]) is RetainedState by {
                assert(report[k] == middle_events[first_events.len() + k]);
            }
            assert(recorded.chunk_recorded(before, i as int, *job, outcome));
            assert(self.landed_in_steps(
                before,
                i as int,
                *job,
                outcome,
                first_events,
                events@,
            )) by {
                reveal(ConcreteScheduler::landed_in_steps);
                assert(stored.retained_landed(
                    recorded,
                    i as int,
                    *job,
                    checkpoint_captured,
                    chunk_events,
                    middle_events,
                ));
            }
        }
    }

    /// What the request at `i` stands on once its job's publish landed.
    pub open spec fn stands_after(self, r: Request, job: PrefillJob) -> Request {
        let cache = self.prefix;
        match job.publish_prefix {
            Some(p) if cache.registrable(
                head_of(r, p.tokens as int),
                p.tokens,
                r.gdn,
                r.prefix_entry,
            ) => r.published(
                cache.next_id,
                pages_past(cache.entries@, p.tokens, cache.page_tokens, r.prefix_entry),
            ),
            _ => r,
        }
    }

    /// Record the head the job published and the checkpoint it captured.
    fn land_retained(
        &mut self,
        i: usize,
        job: &PrefillJob,
        checkpoint_captured: bool,
        events: &mut Vec<SchedEvent>,
    )
        requires
            old(self).wf(),
            i < old(self).requests@.len(),
            old(self).requests@[i as int].resident,
            job.publish_prefix matches Some(p) ==> p.tokens
                <= old(self).requests@[i as int].input.tokens@.len(),
            job.capture_checkpoint matches Some(c) ==> c.tokens
                <= old(self).requests@[i as int].input.tokens@.len(),
        ensures
            final(self).wf(),
            final(self).only_request_and_retention_moved(*old(self), i as int),
            tidied(old(events)@, final(events)@),
            final(self).requests@[i as int] == (Request {
                checkpoint_captured: final(self).requests@[i as int].checkpoint_captured,
                ..old(self).stands_after(old(self).requests@[i as int], *job)
            }),
            final(self).retained_landed(
                *old(self),
                i as int,
                *job,
                checkpoint_captured,
                old(events)@,
                final(events)@,
            ),
            // Only a capture that was taken is told.
            job.capture_checkpoint is None || !checkpoint_captured ==> final(events)@
                == old(events)@,
    {
        let ghost before = *self;
        let request: RequestId = self.requests[i].id;
        if let Some(publish) = job.publish_prefix {
            self.publish_head(i, publish.tokens);
        }
        proof {
            reveal(ConcreteScheduler::retained_landed);
            reveal(ConcreteScheduler::published_head);
            reveal(ConcreteScheduler::checkpoint_left);
            assert(self.head_landed(before, i as int, *job));
        }
        if let Some(capture) = job.capture_checkpoint {
            if checkpoint_captured {
                self.retain_checkpoint(i, capture.tokens, events);
            } else {
                self.give_back_slot(RetainedHolder::Checkpoint { publisher: request });
            }
        }
    }

    /// Report what the request's first chunk resumed from and what its lookup
    /// missed, and end its claim on the copy it was restored from.
    fn land_claim(
        &mut self,
        i: usize,
        claim: Option<CheckpointClaim>,
        restore_micros: u64,
        events: &mut Vec<SchedEvent>,
    )
        requires
            old(self).wf(),
            i < old(self).requests@.len(),
            old(self).requests@[i as int].resident,
        ensures
            final(self).wf(),
            final(self).only_request_and_retention_moved(*old(self), i as int),
            *final(self) == (ConcreteScheduler {
                requests: final(self).requests,
                host: final(self).host,
                ..*old(self)
            }),
            final(self).requests@[i as int] == (Request {
                kv_ram_claim: if claim is Some {
                    None
                } else {
                    old(self).requests@[i as int].kv_ram_claim
                },
                pending_retained_misses: RetainedMisses { device: false, kv_ram: false },
                ..old(self).requests@[i as int]
            }),
            old(self).claim_ends(i as int, claim, final(self).host),
            final(events)@ == old(events)@ + (claim_events(
                old(self).requests@[i as int].id,
                claim,
                restore_micros,
            ) + miss_events(old(self).requests@[i as int].pending_retained_misses)),
    {
        let ghost first_events = events@;
        let request: RequestId = self.requests[i].id;
        assert(request_ok(self.requests@[i as int], self.config, self.prefix.entries@));
        if let Some(claim) = claim {
            events.push(
                SchedEvent::StateReused {
                    request,
                    source: claim.source,
                    tokens: claim.tokens,
                    restore_micros,
                    kind: RetainedKind::Checkpoint,
                },
            );
            events.push(
                SchedEvent::RetainedState {
                    operation: RetainedStateOperation::Restore,
                    source: claim.source,
                    kind: RetainedKind::Checkpoint,
                },
            );
            self.release_kv_ram_claim(i, true);
        }
        assert(events@ =~= first_events + claim_events(request, claim, restore_micros));
        let misses = self.take_misses(i);
        report_misses(misses, events);
        assert(events@ =~= first_events + (claim_events(request, claim, restore_micros)
            + miss_events(misses)));
    }

    /// Give back the slot `holder` holds.
    fn give_back_slot(&mut self, holder: RetainedHolder)
        requires
            old(self).wf(),
        ensures
            final(self).wf(),
            *final(self) == (ConcreteScheduler { retained: final(self).retained, ..*old(self) }),
            final(self).retained.slots@ == given_back(
                old(self).retained.slots@,
                holder,
            ),
            final(self).retained.slots@.len() == old(self).retained.slots@.len(),
    {
        let ghost before = *self;
        self.retained.give_back(holder);
        proof {
            assert forall|p: PrefixId| #[trigger]
                self.prefix.refs(p) == standing(self.requests@, p) + holding(
                    self.checkpoints.entries@,
                    p,
                ) + debt(Seq::empty(), p) by {
                assert(before.prefix.refs(p) == self.prefix.refs(p));
            }
            self.retention_keeps_order(before, Seq::empty(), Seq::empty());
        }
    }

    /// The misses the request's lookup left, now reported.
    fn take_misses(&mut self, i: usize) -> (misses: RetainedMisses)
        requires
            old(self).wf(),
            i < old(self).requests@.len(),
            old(self).requests@[i as int].state != RequestState::Evicted,
        ensures
            final(self).wf(),
            *final(self) == (ConcreteScheduler { requests: final(self).requests, ..*old(self) }),
            final(self).requests@ == old(self).requests@.update(
                i as int,
                Request {
                    pending_retained_misses: RetainedMisses { device: false, kv_ram: false },
                    ..old(self).requests@[i as int]
                },
            ),
            misses == old(self).requests@[i as int].pending_retained_misses,
    {
        let ghost before = *self;
        let misses = self.requests[i].pending_retained_misses;
        self.requests[i].pending_retained_misses = RetainedMisses { device: false, kv_ram: false };
        proof {
            let with = self.requests@[i as int];
            assert(request_ok(before.requests@[i as int], self.config, self.prefix.entries@));
            assert(self.requests@ =~= before.requests@.update(i as int, with));
            lanes_kept(before.requests@, before.free_lanes@, i as int, with);
            hosted_kept(before.requests@, before.host.live@, i as int, with);
            self.one_request_moved(before, i as int, Seq::empty(), Seq::empty());
        }
        misses
    }

    /// Every job of the batch landed. A job without an outcome landed with
    /// nothing to report.
    pub(crate) fn land_batch(
        &mut self,
        batch: &Vec<usize>,
        jobs: &Vec<PrefillJob>,
        outcomes: Vec<PrefillOutcome>,
        events: &mut Vec<SchedEvent>,
    )
        requires
            old(self).wf(),
            old(self).batch_ready(batch@, 0),
            old(self).settled_but(batch@, 0),
            jobs@.len() == batch@.len(),
            forall|n: int|
                0 <= n < batch@.len() ==> job_fits(
                    #[trigger] jobs@[n],
                    old(self).requests@[batch@[n] as int],
                ),
        ensures
            final(self).wf(),
            final(self).settled(),
            final(self).carried(*old(self)),
            final(self).same_run(*old(self)),
            final(self).protection == old(self).protection,
            longer(old(events)@, final(events)@),
            moves_told(old(self).requests@, final(self).requests@, old(events)@, final(events)@),
            final(self).lands(
                *old(self),
                batch@,
                jobs@,
                outcomes@,
                batch@.len() as int,
                old(events)@,
                final(events)@,
            ),
            exists|reports: Seq<Seq<SchedEvent>>| #[trigger]
                chunks_reported(old(self).requests@, batch@, jobs@, outcomes@, reports)
                    && reports.len() == batch@.len() && final(events)@ == old(events)@
                    + reports.flatten_alt(),
            forall|n: int|
                0 <= n < batch@.len() ==> chunk_arrived(
                    old(self).requests@[(#[trigger] batch@[n]) as int],
                    jobs@[n],
                    outcome_of(outcomes@, n),
                    final(self).requests@[batch@[n] as int],
                ),
            forall|i: int|
                0 <= i < old(self).requests@.len() && !batch@.contains(i as usize) ==> (
                #[trigger] final(self).requests@[i]) == old(self).requests@[i],
    {
        let ghost before = *self;
        let ghost first_events = events@;
        let ghost all = outcomes@;
        let mut outcomes = outcomes;
        let ghost mut reports: Seq<Seq<SchedEvent>> = Seq::empty();
        let mut n: usize = 0;
        assert(events@ =~= first_events + reports.flatten_alt());
        while n < batch.len()
            invariant
                reports.len() == n,
                chunks_reported(before.requests@, batch@, jobs@, all, reports),
                moves_told(before.requests@, self.requests@, first_events, events@),
                events@ == first_events + reports.flatten_alt(),
                before == *old(self),
                first_events == old(events)@,
                self.wf(),
                self.carried(before),
                self.same_run(before),
                self.protection == before.protection,
                longer(first_events, events@),
                n <= batch@.len(),
                jobs@.len() == batch@.len(),
                before.batch_ready(batch@, 0),
                forall|k: int|
                    0 <= k < batch@.len() ==> job_fits(
                        #[trigger] jobs@[k],
                        before.requests@[batch@[k] as int],
                    ),
                outcomes@ == (if n < all.len() {
                    all.skip(n as int)
                } else {
                    Seq::empty()
                }),
                self.settled_but(batch@, n as int),
                self.lands(before, batch@, jobs@, all, n as int, first_events, events@),
                forall|k: int|
                    0 <= k < n ==> chunk_arrived(
                        before.requests@[(#[trigger] batch@[k]) as int],
                        jobs@[k],
                        outcome_of(all, k),
                        self.requests@[batch@[k] as int],
                    ),
                forall|k: int|
                    n <= k < batch@.len() ==> self.requests@[(#[trigger] batch@[k]) as int]
                        == before.requests@[batch@[k] as int],
                forall|i: int|
                    0 <= i < before.requests@.len() && !batch@.contains(i as usize) ==> (
                    #[trigger] self.requests@[i]) == before.requests@[i],
            decreases batch@.len() - n,
        {
            let ghost middle = *self;
            let i: usize = batch[n];
            let outcome = if outcomes.len() > 0 {
                outcomes.remove(0)
            } else {
                PrefillOutcome::default()
            };
            proof {
                assert(sendable(before.requests@[batch@[n as int] as int]));
                assert(self.requests@[batch@[n as int] as int] == before.requests@[i as int]);
                if n < all.len() {
                    assert(outcome == all[n as int]);
                    if n + 1 < all.len() {
                        assert(outcomes@ =~= all.skip(n + 1));
                    } else {
                        assert(outcomes@ =~= Seq::empty());
                    }
                }
            }
            let ghost given = outcome;
            let ghost until = events@;
            self.land_prefill(i, &jobs[n], outcome, events);
            proof {
                let report = events@.skip(until.len() as int);
                assert(reports.push(report).drop_last() =~= reports);
                assert(events@ =~= first_events + reports.push(report).flatten_alt());
                reports = reports.push(report);
                assert forall|j: int| 0 <= j < before.requests@.len() implies (
                #[trigger] middle.requests@[j]).id == before.requests@[j].id by {
                    assert(carries_on(before.requests@[j], middle.requests@[j]));
                }
                assert(middle.landed(
                    before.requests@[i as int],
                    jobs@[n as int],
                    given,
                    self.requests@[i as int],
                ));
                assert(events@[until.len() as int] == report[0]);
                chunk_is_told(middle.requests@, self.requests@, i as int, until, events@);
                moves_told_on(
                    before.requests@,
                    middle.requests@,
                    self.requests@,
                    first_events,
                    until,
                    events@,
                );
                self.landing_steps(middle, before, batch@, n as int);
                assert(given == outcome_of(all, n as int));
                assert(self.chunk_lands(
                    middle,
                    batch@[n as int] as int,
                    jobs@[n as int],
                    outcome_of(all, n as int),
                    until,
                    events@,
                ));
                self.lands_one_more(
                    middle,
                    before,
                    batch@,
                    jobs@,
                    all,
                    n as int,
                    first_events,
                    until,
                    events@,
                );
                assert forall|k: int| 0 <= k < n + 1 implies chunk_arrived(
                    before.requests@[(#[trigger] batch@[k]) as int],
                    jobs@[k],
                    outcome_of(all, k),
                    self.requests@[batch@[k] as int],
                ) by {
                    if k < n {
                        assert(batch@[k] != batch@[n as int]);
                        assert(self.requests@[batch@[k] as int]
                            == middle.requests@[batch@[k] as int]);
                    } else {
                        assert(middle.landed(
                            before.requests@[i as int],
                            jobs@[n as int],
                            given,
                            self.requests@[i as int],
                        ));
                    }
                }
            }
            n = n + 1;
        }
        proof {
            assert forall|i: int|
                0 <= i < self.requests@.len() && (#[trigger] self.requests@[i]).state
                    == RequestState::Admitted implies !self.requests@[i].resident by {
                assert(waits(self.requests@[i]));
                assert(batch@.skip(n as int).len() == 0);
            }
        }
    }

    /// One landing keeps what holds of the rest of the batch.
    proof fn landing_steps(self, middle: Self, before: Self, batch: Seq<usize>, n: int)
        requires
            middle.carried(before),
            before.batch_ready(batch, 0),
            0 <= n < batch.len(),
            middle.settled_but(batch, n),
            self.only_request_and_retention_moved(middle, batch[n] as int),
            carries_on(middle.requests@[batch[n] as int], self.requests@[batch[n] as int]),
            !waits(self.requests@[batch[n] as int]),
            forall|k: int|
                n <= k < batch.len() ==> middle.requests@[(#[trigger] batch[k]) as int]
                    == before.requests@[batch[k] as int],
            forall|i: int|
                0 <= i < before.requests@.len() && !batch.contains(i as usize) ==> (
                #[trigger] middle.requests@[i]) == before.requests@[i],
        ensures
            self.carried(before),
            self.settled_but(batch, n + 1),
            forall|k: int|
                n + 1 <= k < batch.len() ==> self.requests@[(#[trigger] batch[k]) as int]
                    == before.requests@[batch[k] as int],
            forall|i: int|
                0 <= i < before.requests@.len() && !batch.contains(i as usize) ==> (
                #[trigger] self.requests@[i]) == before.requests@[i],
    {
        assert forall|j: int| 0 <= j < before.requests@.len() implies carries_on(
            before.requests@[j],
            #[trigger] self.requests@[j],
        ) by {
            assert(carries_on(before.requests@[j], middle.requests@[j]));
            if j != batch[n] {
                assert(self.requests@[j] == middle.requests@[j]);
            }
        }
        assert forall|k: int| n + 1 <= k < batch.len() implies self.requests@[(
        #[trigger] batch[k]) as int] == before.requests@[batch[k] as int] by {
            assert(batch[n] != batch[k]);
            assert(sendable(before.requests@[batch[k] as int]));
            assert(self.requests@[batch[k] as int] == middle.requests@[batch[k] as int]);
        }
        assert forall|i: int|
            0 <= i < before.requests@.len() && !batch.contains(i as usize) implies (
        #[trigger] self.requests@[i]) == before.requests@[i] by {
            assert(batch.contains(batch[n]));
            assert(sendable(before.requests@[batch[n] as int]));
            assert(i != batch[n]);
            assert(self.requests@[i] == middle.requests@[i]);
        }
        assert(self.requests@.len() == self.requests.len());
        assert forall|i: int|
            0 <= i < self.requests@.len() && waits(#[trigger] self.requests@[i])
                && self.requests@[i].resident implies batch.skip(n + 1).contains(i as usize) by {
            assert(i != batch[n]);
            assert(self.requests@[i] == middle.requests@[i]);
            assert(batch.skip(n).contains(i as usize));
            let k = choose|k: int| 0 <= k < batch.skip(n).len() && batch.skip(n)[k] == i as usize;
            assert(batch.skip(n)[k] == batch[n + k]);
            assert(k > 0);
            assert(batch.skip(n + 1)[k - 1] == i as usize);
        }
    }

    /// The request at `i` after its prefill failed: off the device, one more
    /// failure counted while it may still be tried again. Whether it was its
    /// last attempt.
    fn fail_member(&mut self, i: usize) -> (exhausted: bool)
        requires
            old(self).wf(),
            i < old(self).requests@.len(),
            sendable(old(self).requests@[i as int]),
        ensures
            final(self).wf(),
            *final(self) == (ConcreteScheduler {
                requests: final(self).requests,
                kv_used_pages: final(self).kv_used_pages,
                resident_slots_used: final(self).resident_slots_used,
                ..*old(self)
            }),
            final(self).requests@ == old(self).requests@.update(
                i as int,
                attempt_failed(old(self).requests@[i as int]),
            ),
            exhausted == is_last_attempt(old(self).requests@[i as int]),
            final(self).kv_used_pages == old(self).kv_used_pages - old(self).requests@[i as int].resources.kv_pages,
            final(self).resident_slots_used == old(self).resident_slots_used - 1,
    {
        proof {
            assert(request_ok(self.requests@[i as int], self.config, self.prefix.entries@));
            self.charge_is_counted(i as int);
        }
        self.unmaterialize(i);
        let ghost off = *self;
        let failures: u32 = self.requests[i].prefill_failures;
        if failures + 1 >= MAX_PREFILL_ATTEMPTS {
            return true;
        }
        self.requests[i].prefill_failures = failures + 1;
        proof {
            let with = self.requests@[i as int];
            assert(self.requests@ =~= off.requests@.update(i as int, with));
            assert(request_ok(off.requests@[i as int], self.config, self.prefix.entries@));
            lanes_kept(off.requests@, off.free_lanes@, i as int, with);
            hosted_kept(off.requests@, off.host.live@, i as int, with);
            self.one_request_moved(off, i as int, Seq::empty(), Seq::empty());
        }
        false
    }

    /// Give back the slots the jobs were to fill.
    fn give_back_job_slots(&mut self, jobs: &Vec<PrefillJob>)
        requires
            old(self).wf(),
        ensures
            final(self).wf(),
            *final(self) == (ConcreteScheduler { retained: final(self).retained, ..*old(self) }),
            final(self).retained.slots@ == slots_returned(
                old(self).retained.slots@,
                jobs@,
                jobs@.len() as int,
            ),
            final(self).retained.slots@.len() == old(self).retained.slots@.len(),
    {
        let ghost before = *self;
        let mut n: usize = 0;
        while n < jobs.len()
            invariant
                before == *old(self),
                self.wf(),
                *self == (ConcreteScheduler { retained: self.retained, ..before }),
                n <= jobs@.len(),
                self.retained.slots@ == slots_returned(
                    before.retained.slots@,
                    jobs@,
                    n as int,
                ),
                self.retained.slots@.len() == before.retained.slots@.len(),
            decreases jobs@.len() - n,
        {
            let job = &jobs[n];
            if let Some(publish) = job.publish_prefix {
                self.give_back_slot(
                    RetainedHolder::Prefix { publisher: job.request, tokens: publish.tokens },
                );
            }
            if job.capture_checkpoint.is_some() {
                self.give_back_slot(RetainedHolder::Checkpoint { publisher: job.request });
            }
            n = n + 1;
        }
    }

    /// Take every member of the batch off the device and count the failure.
    /// Gives those whose attempts are spent, in the batch's order.
    fn fail_members(&mut self, batch: &Vec<usize>) -> (spent: Vec<usize>)
        requires
            old(self).wf(),
            old(self).batch_ready(batch@, 0),
            old(self).settled_but(batch@, 0),
        ensures
            final(self).wf(),
            final(self).settled(),
            *final(self) == (ConcreteScheduler {
                requests: final(self).requests,
                kv_used_pages: final(self).kv_used_pages,
                resident_slots_used: final(self).resident_slots_used,
                ..*old(self)
            }),
            final(self).requests@.len() == old(self).requests@.len(),
            spent@ == spent_in(old(self).requests@, batch@, batch@.len() as int),
            forall|n: int|
                0 <= n < batch@.len() ==> final(self).requests@[(#[trigger] batch@[n]) as int]
                    == attempt_failed(old(self).requests@[batch@[n] as int]),
            forall|i: int|
                0 <= i < old(self).requests@.len() && !batch@.contains(i as usize) ==> (
                #[trigger] final(self).requests@[i]) == old(self).requests@[i],
    {
        let ghost before = *self;
        let mut spent: Vec<usize> = Vec::new();
        let mut n: usize = 0;
        while n < batch.len()
            invariant
                before == *old(self),
                self.wf(),
                *self == (ConcreteScheduler {
                    requests: self.requests,
                    kv_used_pages: self.kv_used_pages,
                    resident_slots_used: self.resident_slots_used,
                    ..before
                }),
                self.requests@.len() == before.requests@.len(),
                before.batch_ready(batch@, 0),
                self.settled_but(batch@, n as int),
                n <= batch@.len(),
                spent@ == spent_in(before.requests@, batch@, n as int),
                forall|k: int|
                    0 <= k < batch@.len() ==> self.requests@[(#[trigger] batch@[k]) as int] == (if k
                        < n {
                        attempt_failed(before.requests@[batch@[k] as int])
                    } else {
                        before.requests@[batch@[k] as int]
                    }),
                forall|i: int|
                    0 <= i < before.requests@.len() && !batch@.contains(i as usize) ==> (
                    #[trigger] self.requests@[i]) == before.requests@[i],
            decreases batch@.len() - n,
        {
            let i: usize = batch[n];
            let ghost middle = *self;
            proof {
                assert(sendable(before.requests@[batch@[n as int] as int]));
                assert(self.requests@[batch@[n as int] as int] == before.requests@[i as int]);
                assert(batch@.contains(i));
            }
            if self.fail_member(i) {
                spent.push(i);
            }
            proof {
                assert forall|k: int|
                    0 <= k < batch@.len() implies self.requests@[(#[trigger] batch@[k]) as int] == (
                if k < n + 1 {
                    attempt_failed(before.requests@[batch@[k] as int])
                } else {
                    before.requests@[batch@[k] as int]
                }) by {
                    assert(sendable(before.requests@[batch@[k] as int]));
                    if k < n {
                        assert(batch@[k] != batch@[n as int]);
                    } else if n < k {
                        assert(batch@[n as int] != batch@[k]);
                    }
                }
                self.failing_steps(middle, batch@, n as int);
            }
            n = n + 1;
        }
        proof {
            assert forall|i: int|
                0 <= i < self.requests@.len() && (#[trigger] self.requests@[i]).state
                    == RequestState::Admitted implies !self.requests@[i].resident by {
                assert(waits(self.requests@[i]));
                assert(batch@.skip(n as int).len() == 0);
            }
        }
        spent
    }

    /// A member taken off the device leaves the rest of the batch to settle.
    proof fn failing_steps(self, middle: Self, batch: Seq<usize>, n: int)
        requires
            middle.settled_but(batch, n),
            0 <= n < batch.len(),
            batch[n] < middle.requests@.len(),
            self.requests@ == middle.requests@.update(
                batch[n] as int,
                attempt_failed(middle.requests@[batch[n] as int]),
            ),
        ensures
            self.settled_but(batch, n + 1),
    {
        assert(self.requests@.len() == self.requests.len());
        assert forall|i: int|
            0 <= i < self.requests@.len() && waits(#[trigger] self.requests@[i])
                && self.requests@[i].resident implies batch.skip(n + 1).contains(i as usize) by {
            assert(i != batch[n]);
            assert(self.requests@[i] == middle.requests@[i]);
            assert(batch.skip(n).contains(i as usize));
            let k = choose|k: int| 0 <= k < batch.skip(n).len() && batch.skip(n)[k] == i as usize;
            assert(batch.skip(n)[k] == batch[n + k]);
            assert(batch.skip(n + 1)[k - 1] == i as usize);
        }
    }

    /// Complete every request of `list` for the same reason, in that order.
    pub(crate) fn end_all(
        &mut self,
        list: &Vec<usize>,
        reason: FinishReason,
        events: &mut Vec<SchedEvent>,
    )
        requires
            old(self).wf(),
            old(self).settled(),
            all_live(old(self).requests@, list@),
        ensures
            moves_told(old(self).requests@, final(self).requests@, old(events)@, final(events)@),
            final(self).wf(),
            final(self).settled(),
            final(self).carried(*old(self)),
            final(self).same_run(*old(self)),
            final(events)@ == old(events)@ + done_events(
                old(self).requests@,
                list@,
                reason,
                list@.len() as int,
            ),
            forall|k: int|
                0 <= k < list@.len() ==> old(self).finished(
                    old(self).requests@[(#[trigger] list@[k]) as int],
                    final(self).requests@[list@[k] as int],
                ),
            forall|i: int|
                0 <= i < old(self).requests@.len() && !list@.contains(i as usize) ==> (
                #[trigger] final(self).requests@[i]) == old(self).requests@[i],
            final(self).only_let_go(*old(self)),
    {
        let ghost before = *self;
        let ghost first_events = events@;
        proof {
            self.lets_nothing_go(before);
        }
        let mut n: usize = 0;
        assert(events@ =~= first_events + done_events(before.requests@, list@, reason, 0));
        while n < list.len()
            invariant
                before == *old(self),
                first_events == old(events)@,
                all_live(before.requests@, list@),
                self.only_let_go(before),
                self.wf(),
                self.settled(),
                self.carried(before),
                self.same_run(before),
                longer(first_events, events@),
                moves_told(before.requests@, self.requests@, first_events, events@),
                n <= list@.len(),
                events@ == first_events + done_events(before.requests@, list@, reason, n as int),
                forall|k: int|
                    0 <= k < n ==> before.finished(
                        before.requests@[(#[trigger] list@[k]) as int],
                        self.requests@[list@[k] as int],
                    ),
                forall|k: int|
                    n <= k < list@.len() ==> self.requests@[(#[trigger] list@[k]) as int]
                        == before.requests@[list@[k] as int],
                forall|i: int|
                    0 <= i < before.requests@.len() && !list@.contains(i as usize) ==> (
                    #[trigger] self.requests@[i]) == before.requests@[i],
            decreases list@.len() - n,
        {
            let i: usize = list[n];
            let ghost middle = *self;
            let ghost until = events@;
            assert(self.requests@[list@[n as int] as int] == before.requests@[i as int]);
            assert(list@.contains(i));
            self.mark_done(i, events, reason);
            proof {
                self.let_go_on(middle, before);
                one_end_told(
                    middle.requests@,
                    self.requests@,
                    i as int,
                    reason,
                    until,
                    middle.requests@[i as int],
                );
                moves_told_on(
                    before.requests@,
                    middle.requests@,
                    self.requests@,
                    first_events,
                    until,
                    events@,
                );
                assert forall|j: int| 0 <= j < before.requests@.len() implies carries_on(
                    before.requests@[j],
                    #[trigger] self.requests@[j],
                ) by {
                    assert(carries_on(before.requests@[j], middle.requests@[j]));
                    if j != i {
                        assert(self.requests@[j] == middle.requests@[j]);
                    }
                }
                assert(events@ =~= first_events + done_events(
                    before.requests@,
                    list@,
                    reason,
                    n + 1,
                ));
                assert forall|k: int| n < k < list@.len() implies self.requests@[(
                #[trigger] list@[k]) as int] == before.requests@[list@[k] as int] by {
                    assert(list@[n as int] != list@[k]);
                    assert(self.requests@[list@[k] as int] == middle.requests@[list@[k] as int]);
                }
                assert forall|k: int| 0 <= k < n implies before.finished(
                    before.requests@[(#[trigger] list@[k]) as int],
                    self.requests@[list@[k] as int],
                ) by {
                    assert(list@[k] != list@[n as int]);
                    assert(self.requests@[list@[k] as int] == middle.requests@[list@[k] as int]);
                }
            }
            n = n + 1;
        }
    }

    /// The step failed: nothing of the batch is on the device. Each member may
    /// be tried again until its attempts are spent; then it ends in an error.
    #[verifier::rlimit(40)]
    pub(crate) fn fail_batch(
        &mut self,
        batch: &Vec<usize>,
        jobs: &Vec<PrefillJob>,
        error: ComputeError,
        events: &mut Vec<SchedEvent>,
    )
        requires
            old(self).wf(),
            old(self).batch_ready(batch@, 0),
            old(self).settled_but(batch@, 0),
        ensures
            moves_told(old(self).requests@, final(self).requests@, old(events)@, final(events)@),
            final(self).wf(),
            final(self).settled(),
            final(self).carried(*old(self)),
            final(self).same_run(
                (ConcreteScheduler { last_error: final(self).last_error, ..*old(self) }),
            ),
            final(self).last_error == Some(error),
            final(self).batch_failed(*old(self), jobs@),
            ({
                let reqs = old(self).requests@;
                let spent = spent_in(reqs, batch@, batch@.len() as int);
                &&& final(events)@ == old(events)@ + done_events(
                    reqs,
                    spent,
                    FinishReason::Error,
                    spent.len() as int,
                )
                &&& forall|k: int|
                    0 <= k < batch@.len() ==> {
                        let r = reqs[(#[trigger] batch@[k]) as int];
                        let after = final(self).requests@[batch@[k] as int];
                        if is_last_attempt(r) {
                            old(self).finished(attempt_failed(r), after)
                        } else {
                            after == attempt_failed(r)
                        }
                    }
            }),
            forall|i: int|
                0 <= i < old(self).requests@.len() && !batch@.contains(i as usize) ==> (
                #[trigger] final(self).requests@[i]) == old(self).requests@[i],
    {
        let ghost before = *self;
        let ghost first_events = events@;
        let spent = self.fail_members(batch);
        self.give_back_job_slots(jobs);
        let ghost failed = *self;
        proof {
            spent_are_members(before.requests@, batch@, batch@.len() as int);
            assert forall|i: int| 0 <= i < before.requests@.len() implies carries_on(
                before.requests@[i],
                #[trigger] failed.requests@[i],
            ) by {
                if batch@.contains(i as usize) {
                    let k = choose|k: int| 0 <= k < batch@.len() && batch@[k] == i as usize;
                    assert(self.requests@.len() == self.requests.len());
                    assert(sendable(before.requests@[batch@[k] as int]));
                    assert(failed.requests@[batch@[k] as int] == attempt_failed(
                        before.requests@[batch@[k] as int],
                    ));
                }
            }
            assert forall|k: int| 0 <= k < spent@.len() implies (#[trigger] spent@[k])
                < failed.requests@.len() && failed.requests@[spent@[k] as int].state
                != RequestState::Done by {
                assert(batch@.contains(spent@[k]));
                let m = choose|m: int| 0 <= m < batch@.len() && batch@[m] == spent@[k];
                assert(sendable(before.requests@[batch@[m] as int]));
                assert(failed.requests@[batch@[m] as int] == attempt_failed(
                    before.requests@[batch@[m] as int],
                ));
            }
        }
        self.end_all(&spent, FinishReason::Error, events);
        let ghost ended = *self;
        self.last_error = Some(error);
        proof {
            self.lets_nothing_go(ended);
            self.let_go_on(ended, failed);
            assert(failed.gave_slots_back(before, jobs@));
            self.failing_ends(failed, before, batch@, spent@);
            assert forall|i: int|
                0 <= i < before.requests@.len() && (#[trigger] self.requests@[i]).state
                    != before.requests@[i].state implies is_told(
                first_events,
                events@,
                before.requests@[i].id,
                self.requests@[i].state,
            ) by {
                assert(carries_on(before.requests@[i], failed.requests@[i]));
                if batch@.contains(i as usize) {
                    let k = choose|k: int| 0 <= k < batch@.len() && batch@[k] == i as usize;
                    assert(self.requests@.len() == self.requests.len());
                    assert(failed.requests@[batch@[k] as int] == attempt_failed(
                        before.requests@[batch@[k] as int],
                    ));
                }
                assert(is_told(
                    first_events,
                    events@,
                    failed.requests@[i].id,
                    self.requests@[i].state,
                ));
            }
            assert forall|k: int| 0 <= k < spent@.len() implies done_alike(
                failed.requests@[(#[trigger] spent@[k]) as int],
                before.requests@[spent@[k] as int],
            ) by {
                assert(batch@.contains(spent@[k]));
                let m = choose|m: int| 0 <= m < batch@.len() && batch@[m] == spent@[k];
                assert(sendable(before.requests@[batch@[m] as int]));
                assert(failed.requests@[batch@[m] as int] == attempt_failed(
                    before.requests@[batch@[m] as int],
                ));
            }
            same_done_events(
                failed.requests@,
                before.requests@,
                spent@,
                FinishReason::Error,
                spent@.len() as int,
            );
        }
    }

    /// The slots `jobs` took were given back, and of what else is kept nothing
    /// moved.
    pub open spec fn gave_slots_back(self, before: Self, jobs: Seq<PrefillJob>) -> bool {
        &&& self == (ConcreteScheduler {
            requests: self.requests,
            kv_used_pages: self.kv_used_pages,
            resident_slots_used: self.resident_slots_used,
            retained: self.retained,
            ..before
        })
        &&& self.retained.slots@ == slots_returned(
            before.retained.slots@,
            jobs,
            jobs.len() as int,
        )
    }

    /// The batch sent as `jobs` failed: the slots they took were given back, and
    /// after that whoever was tried for the last time let go of what it held.
    pub open spec fn batch_failed(self, before: Self, jobs: Seq<PrefillJob>) -> bool {
        exists|failed: Self| #[trigger]
            failed.gave_slots_back(before, jobs) && self.only_let_go(failed)
    }

    /// Who of the batch ended, who may be tried again, and that no one else
    /// was touched.
    proof fn failing_ends(self, failed: Self, before: Self, batch: Seq<usize>, spent: Seq<usize>)
        requires
            before.batch_ready(batch, 0),
            failed.requests@.len() == before.requests@.len(),
            self.requests@.len() == before.requests@.len(),
            spent == spent_in(before.requests@, batch, batch.len() as int),
            forall|k: int|
                0 <= k < batch.len() ==> failed.requests@[(#[trigger] batch[k]) as int]
                    == attempt_failed(before.requests@[batch[k] as int]),
            forall|i: int|
                0 <= i < before.requests@.len() && !batch.contains(i as usize) ==> (
                #[trigger] failed.requests@[i]) == before.requests@[i],
            forall|i: int|
                0 <= i < before.requests@.len() ==> carries_on(
                    before.requests@[i],
                    #[trigger] failed.requests@[i],
                ),
            forall|i: int|
                0 <= i < before.requests@.len() ==> carries_on(
                    failed.requests@[i],
                    #[trigger] self.requests@[i],
                ),
            forall|k: int|
                0 <= k < spent.len() ==> before.finished(
                    failed.requests@[(#[trigger] spent[k]) as int],
                    self.requests@[spent[k] as int],
                ),
            forall|i: int|
                0 <= i < failed.requests@.len() && !spent.contains(i as usize) ==> (
                #[trigger] self.requests@[i]) == failed.requests@[i],
        ensures
            forall|i: int|
                0 <= i < before.requests@.len() ==> carries_on(
                    before.requests@[i],
                    #[trigger] self.requests@[i],
                ),
            forall|k: int|
                0 <= k < batch.len() ==> {
                    let r = before.requests@[(#[trigger] batch[k]) as int];
                    let after = self.requests@[batch[k] as int];
                    if is_last_attempt(r) {
                        before.finished(attempt_failed(r), after)
                    } else {
                        after == attempt_failed(r)
                    }
                },
            forall|i: int|
                0 <= i < before.requests@.len() && !batch.contains(i as usize) ==> (
                #[trigger] self.requests@[i]) == before.requests@[i],
    {
        spent_are_members(before.requests@, batch, batch.len() as int);
        assert forall|i: int| 0 <= i < before.requests@.len() implies carries_on(
            before.requests@[i],
            #[trigger] self.requests@[i],
        ) by {
            assert(carries_on(before.requests@[i], failed.requests@[i]));
            assert(carries_on(failed.requests@[i], self.requests@[i]));
        }
        assert forall|k: int| 0 <= k < batch.len() implies {
            let r = before.requests@[(#[trigger] batch[k]) as int];
            let after = self.requests@[batch[k] as int];
            if is_last_attempt(r) {
                before.finished(attempt_failed(r), after)
            } else {
                after == attempt_failed(r)
            }
        } by {
            let i = batch[k] as int;
            assert(sendable(before.requests@[i]));
            if is_last_attempt(before.requests@[i]) {
                assert(spent.contains(batch[k]));
                let m = choose|m: int| 0 <= m < spent.len() && spent[m] == batch[k];
                assert(before.finished(
                    failed.requests@[spent[m] as int],
                    self.requests@[spent[m] as int],
                ));
            } else {
                if spent.contains(i as usize) {
                    let m = choose|m: int| 0 <= m < spent.len() && spent[m] == i as usize;
                    assert(is_last_attempt(before.requests@[spent[m] as int]));
                }
                assert(self.requests@[i] == failed.requests@[i]);
            }
        }
        assert forall|i: int|
            0 <= i < before.requests@.len() && !batch.contains(i as usize) implies (
        #[trigger] self.requests@[i]) == before.requests@[i] by {
            if spent.contains(i as usize) {
                let m = choose|m: int| 0 <= m < spent.len() && spent[m] == i as usize;
                assert(batch.contains(spent[m]));
            }
            assert(failed.requests@[i] == before.requests@[i]);
        }
    }
}

/// Whether a failed prefill is the last a request may make.
pub open spec fn is_last_attempt(r: Request) -> bool {
    r.prefill_failures + 1 >= MAX_PREFILL_ATTEMPTS
}

/// A request after a failed prefill: off the device, and one attempt fewer.
pub open spec fn attempt_failed(r: Request) -> Request {
    Request {
        resident: false,
        prefill_failures: if is_last_attempt(r) {
            r.prefill_failures
        } else {
            (r.prefill_failures + 1) as u32
        },
        ..r
    }
}

/// Those of the first `n` members whose attempts are spent.
pub open spec fn spent_in(reqs: Seq<Request>, batch: Seq<usize>, n: int) -> Seq<usize>
    decreases n,
{
    if n <= 0 {
        Seq::empty()
    } else if is_last_attempt(reqs[batch[n - 1] as int]) {
        spent_in(reqs, batch, n - 1).push(batch[n - 1])
    } else {
        spent_in(reqs, batch, n - 1)
    }
}

proof fn spent_are_members(reqs: Seq<Request>, batch: Seq<usize>, n: int)
    requires
        0 <= n <= batch.len(),
        forall|a: int, b: int|
            0 <= a < b < batch.len() ==> #[trigger] batch[a] != #[trigger] batch[b],
    ensures
        forall|k: int|
            0 <= k < spent_in(reqs, batch, n).len() ==> batch.take(n).contains(
                #[trigger] spent_in(reqs, batch, n)[k],
            ) && batch.contains(spent_in(reqs, batch, n)[k]) && is_last_attempt(
                reqs[spent_in(reqs, batch, n)[k] as int],
            ),
        forall|k: int|
            0 <= k < n && is_last_attempt(reqs[(#[trigger] batch[k]) as int]) ==> spent_in(
                reqs,
                batch,
                n,
            ).contains(batch[k]),
        forall|a: int, b: int|
            0 <= a < b < spent_in(reqs, batch, n).len() ==> #[trigger] spent_in(reqs, batch, n)[a]
                != #[trigger] spent_in(reqs, batch, n)[b],
    decreases n,
{
    if n > 0 {
        spent_are_members(reqs, batch, n - 1);
        let was = spent_in(reqs, batch, n - 1);
        let now = spent_in(reqs, batch, n);
        let front = batch.take(n - 1);
        assert forall|k: int| 0 <= k < now.len() implies batch.take(n).contains(#[trigger] now[k])
            && batch.contains(now[k]) && is_last_attempt(reqs[now[k] as int]) by {
            if k < was.len() {
                assert(now[k] == was[k]);
                assert(batch.take(n - 1).contains(was[k]));
                let m = choose|m: int| 0 <= m < front.len() && front[m] == was[k];
                assert(batch.take(n)[m] == was[k]);
                assert(batch[m] == was[k]);
            } else {
                assert(batch.take(n)[n - 1] == now[k]);
                assert(batch[n - 1] == now[k]);
            }
        }
        assert forall|k: int|
            0 <= k < n && is_last_attempt(reqs[(#[trigger] batch[k]) as int]) implies now.contains(
            batch[k],
        ) by {
            if k < n - 1 {
                assert(was.contains(batch[k]));
                let m = choose|m: int| 0 <= m < was.len() && was[m] == batch[k];
                assert(now[m] == batch[k]);
            } else {
                assert(now[now.len() - 1] == batch[k]);
            }
        }
        assert forall|a: int, b: int| 0 <= a < b < now.len() implies #[trigger] now[a]
            != #[trigger] now[b] by {
            assert(now[a] == was[a]);
            if b < was.len() {
                assert(now[b] == was[b]);
            } else {
                assert(batch.take(n - 1).contains(was[a]));
                let m = choose|m: int| 0 <= m < front.len() && front[m] == was[a];
                assert(batch[m] == was[a]);
                assert(batch[m] != batch[n - 1]);
            }
        }
    }
}

/// The slots once the first `n` jobs gave back those they were to fill.
pub open spec fn slots_returned(
    slots: Seq<Option<RetainedHolder>>,
    jobs: Seq<PrefillJob>,
    n: int,
) -> Seq<Option<RetainedHolder>>
    decreases n,
{
    if n <= 0 {
        slots
    } else {
        let job = jobs[n - 1];
        let before = slots_returned(slots, jobs, n - 1);
        let published = match job.publish_prefix {
            Some(p) => given_back(
                before,
                RetainedHolder::Prefix { publisher: job.request, tokens: p.tokens },
            ),
            None => before,
        };
        if job.capture_checkpoint is Some {
            given_back(published, RetainedHolder::Checkpoint { publisher: job.request })
        } else {
            published
        }
    }
}

/// Positions of requests that are not done, each once.
pub open spec fn all_live(reqs: Seq<Request>, list: Seq<usize>) -> bool {
    &&& forall|k: int|
        0 <= k < list.len() ==> (#[trigger] list[k]) < reqs.len() && reqs[list[k] as int].state
            != RequestState::Done
    &&& forall|a: int, b: int| 0 <= a < b < list.len() ==> #[trigger] list[a] != #[trigger] list[b]
}

/// How the first `n` of `list` are reported done.
pub open spec fn done_events(
    reqs: Seq<Request>,
    list: Seq<usize>,
    reason: FinishReason,
    n: int,
) -> Seq<SchedEvent>
    decreases n,
{
    if n <= 0 {
        Seq::empty()
    } else {
        done_events(reqs, list, reason, n - 1).push(
            done_event(reqs[list[n - 1] as int], reason),
        )
    }
}

/// Two records of a request that are reported done alike.
spec fn done_alike(a: Request, b: Request) -> bool {
    forall|reason: FinishReason| #[trigger] done_event(a, reason) == done_event(b, reason)
}

proof fn same_done_events(
    a: Seq<Request>,
    b: Seq<Request>,
    list: Seq<usize>,
    reason: FinishReason,
    n: int,
)
    requires
        0 <= n <= list.len(),
        forall|k: int|
            0 <= k < list.len() ==> done_alike(
                a[(#[trigger] list[k]) as int],
                b[list[k] as int],
            ),
    ensures
        done_events(a, list, reason, n) == done_events(b, list, reason, n),
    decreases n,
{
    if n > 0 {
        same_done_events(a, b, list, reason, n - 1);
        assert(done_alike(a[list[n - 1] as int], b[list[n - 1] as int]));
    }
}

/// What the `n`-th job came back with: nothing to report, where nothing came.
pub open spec fn outcome_of(outcomes: Seq<PrefillOutcome>, n: int) -> PrefillOutcome {
    if n < outcomes.len() {
        outcomes[n]
    } else {
        PrefillOutcome::nothing()
    }
}

/// The job is a chunk of `r` that ends where it publishes and captures.
pub open spec fn job_fits(job: PrefillJob, r: Request) -> bool {
    let end = r.prefill_progress + job.tokens@.len();
    &&& job.request == r.id
    &&& end <= r.input.tokens@.len()
    &&& job.publish_prefix matches Some(p) ==> p.tokens == end
    &&& job.capture_checkpoint matches Some(c) ==> c.tokens == end
}

/// A chunk arrived: the prompt is that much further, and what was read off it
/// is kept.
pub open spec fn chunk_arrived(
    r: Request,
    job: PrefillJob,
    outcome: PrefillOutcome,
    after: Request,
) -> bool {
    &&& after.state == RequestState::Prefilling
    &&& after.resident
    &&& after.prefill_progress == r.prefill_progress + job.tokens@.len()
    &&& after.prefill_failures == 0
    &&& after.tokens == r.tokens
    &&& after.remaining_work == r.remaining_work
    &&& after.gdn@ == r.gdn@.checkpointed((r.prefill_progress + job.tokens@.len()) as nat)
    &&& after.readout == (if outcome.readout is Some {
        outcome.readout
    } else {
        r.readout
    })
    &&& after.attention == (if outcome.attention is Some {
        outcome.attention
    } else {
        r.attention
    })
}

} // verus!