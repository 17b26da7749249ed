//! One request's ledger: where it is in its lifecycle, what it holds and what
//! it has reused.

use crate::admission::AdmissionResources;
use crate::checkpoint::{CheckpointId, RetainedMisses, ReuseSource};
use crate::constrained::Draw;
use crate::decision::Readout;
use crate::gdn::{GdnState, GdnView};
use crate::types::{
    AttentionScores, BackfillClass, LaneId, PrefixId, RequestClass, RequestId, RequestInput,
    RequestState, SpecStats,
};
use vstd::prelude::*;

verus! {

/// A request the scheduler serves.
#[derive(Debug)]
pub struct Request {
    pub id: RequestId,
    pub class: RequestClass,
    pub input: RequestInput,
    pub state: RequestState,
    /// The decode lane, while running.
    pub lane: Option<LaneId>,
    /// What it reserves; its pages are those it holds of its own.
    pub resources: AdmissionResources,
    /// Whether its sequence is on the device, its reservation charged.
    pub resident: bool,
    /// Tokens generated.
    pub tokens: u32,
    /// Tokens it may still generate.
    pub remaining_work: u64,
    pub backfill_class: BackfillClass,
    pub backfill_epoch: u64,
    /// Prompt tokens already sent to the backend or reused.
    pub prefill_progress: u32,
    /// Consecutive failed prefills.
    pub prefill_failures: u32,
    pub gdn: GdnState,
    pub cancelled: bool,
    /// The shared prefix it stands on.
    pub prefix_entry: Option<PrefixId>,
    pub prefix_publisher: Option<RequestId>,
    pub shared_prefix_tokens: u32,
    /// Whole pages of that prefix.
    pub shared_pages: u32,
    /// Where it publishes its prompt's head.
    pub publish_tokens: u32,
    /// The checkpoint it resumed from.
    pub checkpoint_publisher: Option<RequestId>,
    pub checkpoint_entry: Option<CheckpointId>,
    pub checkpoint_tokens: u32,
    pub reuse_source: Option<ReuseSource>,
    /// Whether it has left a checkpoint of its own.
    pub checkpoint_captured: bool,
    /// A spilled checkpoint it chose and has not restored from yet.
    pub kv_ram_claim: Option<CheckpointId>,
    /// Prompt tokens whose pages it owns outright, shared with nobody.
    pub standalone_tokens: u32,
    /// Tiers its lookup found nothing in, reported with its first chunk.
    pub pending_retained_misses: RetainedMisses,
    pub readout: Option<Readout>,
    pub attention: Option<AttentionScores>,
    pub drawn: Vec<Draw>,
    pub spec: Option<SpecStats>,
}

/// The larger of two lengths.
pub open spec fn longer(a: u32, b: u32) -> u32 {
    if a > b { a } else { b }
}

impl Request {
    /// Whether the whole prompt has been prefilled.
    pub open spec fn prefilled(self) -> bool {
        self.prefill_progress >= self.input.tokens@.len()
    }

    /// A request as it is submitted.
    pub fn new(
        id: RequestId,
        class: RequestClass,
        input: RequestInput,
        resources: AdmissionResources,
        remaining_work: u64,
    ) -> (request: Request)
        ensures
            request.id == id,
            request.class == class,
            request.input == input,
            request.state == RequestState::Admitted,
            request.lane is None,
            request.resources == resources,
            !request.resident,
            request.tokens == 0,
            request.remaining_work == remaining_work,
            request.backfill_class == BackfillClass::Plain,
            request.backfill_epoch == 0,
            request.prefill_progress == 0,
            request.prefill_failures == 0,
            request.gdn@ == GdnView::fresh(),
            !request.cancelled,
            request.prefix_entry is None,
            request.prefix_publisher is None,
            request.shared_prefix_tokens == 0,
            request.shared_pages == 0,
            request.publish_tokens == 0,
            request.checkpoint_publisher is None,
            request.checkpoint_entry is None,
            request.checkpoint_tokens == 0,
            request.reuse_source is None,
            !request.checkpoint_captured,
            request.kv_ram_claim is None,
            request.standalone_tokens == 0,
            !request.pending_retained_misses.device && !request.pending_retained_misses.kv_ram,
            request.readout is None,
            request.attention is None,
            request.drawn@.len() == 0,
            request.spec is None,
    {
        Request {
            id,
            class,
            input,
            state: RequestState::Admitted,
            lane: None,
            resources,
            resident: false,
            tokens: 0,
            remaining_work,
            backfill_class: BackfillClass::Plain,
            backfill_epoch: 0,
            prefill_progress: 0,
            prefill_failures: 0,
            gdn: GdnState::new(),
            cancelled: false,
            prefix_entry: None,
            prefix_publisher: None,
            shared_prefix_tokens: 0,
            shared_pages: 0,
            publish_tokens: 0,
            checkpoint_publisher: None,
            checkpoint_entry: None,
            checkpoint_tokens: 0,
            reuse_source: None,
            checkpoint_captured: false,
            kv_ram_claim: None,
            standalone_tokens: 0,
            pending_retained_misses: RetainedMisses { device: false, kv_ram: false },
            readout: None,
            attention: None,
            drawn: Vec::new(),
            spec: None,
        }
    }

    /// Whether the whole prompt has been prefilled.
    pub fn prefill_complete(&self) -> (complete: bool)
        ensures
            complete == self.prefilled(),
            complete <==> self.prefill_progress >= self.input.tokens@.len(),
    {
        self.prefill_progress as usize >= self.input.tokens.len()
    }

    /// The request dealt `lane`, from `Prefilling` only.
    pub fn assign_lane(&mut self, lane: LaneId) -> (dealt: bool)
        ensures
            dealt == (old(self).state == RequestState::Prefilling),
            *final(self) == (if dealt {
                Request { state: RequestState::Running, lane: Some(lane), ..*old(self) }
            } else {
                *old(self)
            }),
    {
        if self.state == RequestState::Prefilling {
            self.state = RequestState::Running;
            self.lane = Some(lane);
            true
        } else {
            false
        }
    }

    /// The first chunk landed.
    pub fn start_prefill(&mut self)
        ensures
            *final(self) == (if old(self).state == RequestState::Admitted {
                Request { state: RequestState::Prefilling, ..*old(self) }
            } else {
                *old(self)
            }),
    {
        if self.state == RequestState::Admitted {
            self.state = RequestState::Prefilling;
        }
    }

    /// The request after it ended, in whatever state it was: it holds no lane
    /// and no claim.
    pub open spec fn aborted(self) -> Request {
        Request {
            state: RequestState::Done,
            lane: None,
            prefix_entry: None,
            prefix_publisher: None,
            shared_prefix_tokens: 0,
            shared_pages: 0,
            ..self
        }
    }

    /// End the request.
    pub fn abort(&mut self)
        ensures
            *final(self) == old(self).aborted(),
    {
        self.state = RequestState::Done;
        self.lane = None;
        self.prefix_entry = None;
        self.prefix_publisher = None;
        self.shared_prefix_tokens = 0;
        self.shared_pages = 0;
    }

    /// The request after it was suspended in host memory.
    pub open spec fn suspended(self) -> Request {
        Request { state: RequestState::Evicted, lane: None, ..self }
    }

    /// Suspend the request: it holds no lane.
    pub fn evict(&mut self)
        ensures
            *final(self) == old(self).suspended(),
    {
        self.state = RequestState::Evicted;
        self.lane = None;
    }

    /// Resume decoding on `lane`.
    pub fn restore_lane(&mut self, lane: LaneId)
        ensures
            *final(self) == (Request {
                state: RequestState::Running,
                lane: Some(lane),
                ..*old(self)
            }),
    {
        self.state = RequestState::Running;
        self.lane = Some(lane);
    }

    /// Resume prefilling at `progress`.
    pub fn restore_prefilling(&mut self, progress: u32)
        ensures
            *final(self) == (Request {
                state: RequestState::Prefilling,
                prefill_progress: progress,
                ..*old(self)
            }),
    {
        self.state = RequestState::Prefilling;
        self.prefill_progress = progress;
    }

    /// The request after it lost its snapshot: it prefills from the start and
    /// holds nothing.
    pub open spec fn requeued(self, fresh: GdnState, no_draws: Vec<Draw>) -> Request {
        Request {
            state: RequestState::Admitted,
            lane: None,
            tokens: 0,
            drawn: no_draws,
            backfill_class: BackfillClass::Plain,
            backfill_epoch: 0,
            prefill_progress: 0,
            gdn: fresh,
            prefix_entry: None,
            prefix_publisher: None,
            shared_prefix_tokens: 0,
            shared_pages: 0,
            checkpoint_publisher: None,
            checkpoint_entry: None,
            checkpoint_tokens: 0,
            reuse_source: None,
            checkpoint_captured: false,
            standalone_tokens: 0,
            readout: None,
            attention: None,
            ..self
        }
    }

    /// Queue the request again, from the start.
    pub fn requeue(&mut self)
        ensures
            final(self).gdn@ == GdnView::fresh(),
            final(self).drawn@.len() == 0,
            *final(self) == old(self).requeued(final(self).gdn, final(self).drawn),
    {
        self.state = RequestState::Admitted;
        self.lane = None;
        self.tokens = 0;
        self.drawn = Vec::new();
        self.backfill_class = BackfillClass::Plain;
        self.backfill_epoch = 0;
        self.prefill_progress = 0;
        self.gdn = GdnState::new();
        self.prefix_entry = None;
        self.prefix_publisher = None;
        self.shared_prefix_tokens = 0;
        self.shared_pages = 0;
        self.checkpoint_publisher = None;
        self.checkpoint_entry = None;
        self.checkpoint_tokens = 0;
        self.reuse_source = None;
        self.checkpoint_captured = false;
        self.standalone_tokens = 0;
        self.readout = None;
        self.attention = None;
    }

    /// Record a resumable boundary at `position`.
    pub fn checkpoint(&mut self, position: usize)
        ensures
            final(self).gdn@ == old(self).gdn@.checkpointed(position as nat),
            *final(self) == (Request { gdn: final(self).gdn, ..*old(self) }),
    {
        self.gdn.checkpoint(position);
    }

    /// Where the system block ends, in whole pages; 0 without one.
    pub open spec fn block_point(self, page_tokens: u32) -> int {
        match self.input.system_block_tokens {
            Some(at) => (at as int / page_tokens as int) * page_tokens,
            None => 0,
        }
    }

    /// Where the system block ends, in whole pages.
    pub fn retained_prefix_point(&self, page_tokens: u32) -> (point: u32)
        requires
            page_tokens > 0,
        ensures
            point == self.block_point(page_tokens),
            point % page_tokens == 0,
    {
        match self.input.system_block_tokens {
            Some(at) => {
                proof {
                    crate::prefix::floored(at, page_tokens);
                }
                (at / page_tokens) * page_tokens
            },
            None => 0,
        }
    }

    /// Where the next chunk may end to publish a head: the system block first,
    /// while neither it nor anything past it has been reached; then the
    /// request's own head; 0 once that is behind.
    pub open spec fn publishes_at(self, page_tokens: u32) -> int {
        let reached = longer(self.prefill_progress, self.standalone_tokens);
        let block = self.block_point(page_tokens);
        if self.publish_tokens <= reached {
            0
        } else if reached < block < self.publish_tokens {
            block
        } else {
            self.publish_tokens as int
        }
    }

    pub fn publish_point(&self, page_tokens: u32) -> (point: u32)
        requires
            page_tokens > 0,
        ensures
            point == self.publishes_at(page_tokens),
            point <= self.publish_tokens,
            point == 0 <==> self.publish_tokens <= self.prefill_progress || self.publish_tokens
                <= self.standalone_tokens,
            point > 0 ==> point > self.standalone_tokens,
            // The system block's own pages first, while they are ahead.
            self.input.system_block_tokens is None && point > 0 ==> point == self.publish_tokens,
            self.input.system_block_tokens matches Some(at) ==> point > 0 && point
                != self.publish_tokens ==> point <= at < point + page_tokens && point % page_tokens
                == 0,
            self.input.system_block_tokens matches Some(at) ==> {
                let block = at - at % page_tokens;
                block > self.prefill_progress && block > self.standalone_tokens && block
                    < self.publish_tokens ==> point == block
            },
            point > 0 ==> point > self.prefill_progress,
            self.publish_tokens % page_tokens == 0 ==> point % page_tokens == 0,
    {
        let reached: u32 = if self.prefill_progress > self.standalone_tokens {
            self.prefill_progress
        } else {
            self.standalone_tokens
        };
        let block: u32 = self.retained_prefix_point(page_tokens);
        proof {
            if let Some(at) = self.input.system_block_tokens {
                pages_around(at as int, page_tokens as int, at as int / page_tokens as int);
                vstd::arithmetic::div_mod::lemma_fundamental_div_mod(
                    at as int,
                    page_tokens as int,
                );
                let q = at as int / page_tokens as int;
                assert(q * page_tokens == page_tokens * q) by (nonlinear_arith);
                assert(block == at - at % page_tokens);
            }
            assert(block % page_tokens == 0);
            vstd::arithmetic::div_mod::lemma_small_mod(0, page_tokens as nat);
        }
        if self.publish_tokens <= reached {
            0
        } else if reached < block && block < self.publish_tokens {
            block
        } else {
            self.publish_tokens
        }
    }

    /// Where the prompt checkpoint is captured: at the generation opener, while
    /// it is ahead and falls in the first page past the shared prefix; 0
    /// otherwise.
    pub open spec fn captures_at(self, page_tokens: u32) -> int {
        match self.input.opener_tokens {
            Some(at) => if !self.checkpoint_captured && self.prefix_entry is Some && at
                > self.prefill_progress && at <= self.input.tokens@.len() && at as int
                / page_tokens as int == self.shared_pages {
                at as int
            } else {
                0
            },
            None => 0,
        }
    }

    pub fn checkpoint_point(&self, page_tokens: u32) -> (point: u32)
        requires
            page_tokens > 0,
        ensures
            point == self.captures_at(page_tokens),
            point <= self.input.tokens@.len(),
            point > 0 ==> self.input.opener_tokens == Some(point) && point > self.prefill_progress
                && !self.checkpoint_captured && self.prefix_entry is Some,
            point > 0 ==> self.shared_pages * page_tokens <= point < (self.shared_pages + 1)
                * page_tokens,
            self.input.opener_tokens matches Some(at) ==> !self.checkpoint_captured
                && self.prefix_entry is Some && self.prefill_progress < at
                <= self.input.tokens@.len() && self.shared_pages * page_tokens <= at < (
            self.shared_pages + 1) * page_tokens ==> point == at,
    {
        match self.input.opener_tokens {
            Some(at) => {
                proof {
                    pages_around(at as int, page_tokens as int, self.shared_pages as int);
                }
                if !self.checkpoint_captured && self.prefix_entry.is_some() && at
                    > self.prefill_progress && at as usize <= self.input.tokens.len() && at
                    / page_tokens == self.shared_pages {
                    at
                } else {
                    0
                }
            },
            None => 0,
        }
    }

    /// Whether a user message lies past the checkpoint this request resumed
    /// from; always, of one that resumed from none.
    pub open spec fn new_turn(self) -> bool {
        self.checkpoint_entry is None || (self.input.last_user_tokens matches Some(at) && at
            >= self.checkpoint_tokens)
    }

    pub fn opens_a_turn(&self) -> (opens: bool)
        ensures
            opens == self.new_turn(),
            self.checkpoint_entry is None ==> opens,
            self.checkpoint_entry is Some ==> match self.input.last_user_tokens {
                Some(at) => opens == (at >= self.checkpoint_tokens),
                None => !opens,
            },
    {
        if self.checkpoint_entry.is_none() {
            return true;
        }
        match self.input.last_user_tokens {
            Some(at) => at >= self.checkpoint_tokens,
            None => false,
        }
    }
}

/// A place is in the page counted for it, and in no other.
pub proof fn pages_around(at: int, page: int, n: int)
    requires
        page > 0,
        0 <= at,
    ensures
        at / page == n <==> n * page <= at < (n + 1) * page,
        (at / page) * page <= at < (at / page) * page + page,
{
    vstd::arithmetic::div_mod::lemma_fundamental_div_mod(at, page);
    vstd::arithmetic::div_mod::lemma_mod_bound(at, page);
    let q = at / page;
    assert(q * page == page * q) by (nonlinear_arith);
    assert((q + 1) * page == page * q + page) by (nonlinear_arith);
    if n * page <= at < (n + 1) * page {
        assert(n == q) by (nonlinear_arith)
            requires
                page > 0,
                n * page <= at < (n + 1) * page,
                q * page <= at < (q + 1) * page,
        ;
    }
}

} // verus!
