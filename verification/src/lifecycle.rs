//! A request's life: submission, the charge it takes while its sequence is on
//! the device, its end, and its cancellation.

use crate::admission::{admission_resources_fit, AdmissionResources};
use crate::concrete::{hosted, request_ok, ConcreteScheduler};
use crate::host::{snapshot_of, RetainedBlob};
use crate::ledger::{
    counts_grow, counts_move, debt, debt_grows, flying, holding, page_charge, slot_charge,
    standing, stands_on,
};
use crate::moves::{hosted_kept, hosted_kept_suspended, hosted_leave, lane_returned, lanes_kept};
use crate::plan::{
    budget, full_pages, generation_budget, pages_for, pages_for_fits,
    pages_hold_and_no_fewer_would, pages_to_hold, reserved,
};
use crate::prefix::{after_release, dropped_by, floored};
use crate::request::Request;
use crate::retention::{longer, slots_after, tidied};
use crate::reuse::{last_claim_frees, without_claim};
use crate::scheduler::{Clock, Compute};
use crate::types::{
    FinishReason, LaneId, PrefixId, RequestClass, RequestId, RequestInput, RequestState,
    SchedEvent, SubmitError,
};
use vstd::prelude::*;

verus! {

/// The input as it is served: a constrained decode generates under its
/// schedule, whatever cap it was sent with.
pub open spec fn served(input: RequestInput) -> RequestInput {
    if input.constrained is Some {
        RequestInput {
            params: crate::types::DecodeParams { max_tokens: None, ..input.params },
            ..input
        }
    } else {
        input
    }
}

/// Why a submission is refused, if it is.
pub enum Refusal {
    UnknownModel,
    Full,
    ContextExceeded,
    Oversized,
}

impl<C: Compute, K: Clock> ConcreteScheduler<C, K> {
    /// Why `input` would be refused: another model, too much in flight, a
    /// sequence longer than one may be, or one larger than the whole pool.
    pub open spec fn refusal(self, input: RequestInput) -> Option<Refusal> {
        let served = served(input);
        let asked = served.tokens@.len() + budget(self.config, served);
        if input.model@ != self.config.model@ {
            Some(Refusal::UnknownModel)
        } else if flying(self.requests@) >= self.config.max_in_flight {
            Some(Refusal::Full)
        } else if served.tokens@.len() >= self.config.max_sequence_tokens || asked
            > self.config.max_sequence_tokens {
            Some(Refusal::ContextExceeded)
        } else if pages_for(asked, self.config.kv_page_tokens) > self.capacity.kv_pages {
            Some(Refusal::Oversized)
        } else {
            None
        }
    }

    /// The page the opener ends in, in tokens, or the whole shareable head.
    pub open spec fn head_to_publish(self, input: RequestInput) -> int {
        let page = self.config.kv_page_tokens as int;
        let head = (input.shares() / page) * page;
        match input.opener_tokens {
            Some(opener) => if self.config.prompt_reuse && (opener as int / page) * page < head {
                (opener as int / page) * page
            } else {
                head
            },
            None => head,
        }
    }

    /// Queue a request, or say why it is refused. Nothing changes on a refusal.
    pub fn submit(&mut self, input: RequestInput, class: RequestClass) -> (result: Result<
        RequestId,
        SubmitError,
    >)
        requires
            old(self).wf(),
            old(self).settled(),
            old(self).next_id < u64::MAX,
            input.wf(),
            input.tokens@.len() <= u64::MAX - u32::MAX,
        ensures
            final(self).wf(),
            final(self).settled(),
            match old(self).refusal(input) {
                Some(refusal) => {
                    &&& *final(self) == *old(self)
                    &&& match refusal {
                        Refusal::UnknownModel => result matches Err(SubmitError::UnknownModel(m))
                            && m == input.model,
                        Refusal::Full => result matches Err(SubmitError::Full),
                        Refusal::ContextExceeded => result matches Err(
                            SubmitError::ContextExceeded { requested, limit },
                        ) && requested == served(input).tokens@.len() + budget(
                            old(self).config,
                            served(input),
                        ) && limit == old(self).config.max_sequence_tokens,
                        Refusal::Oversized => result matches Err(SubmitError::Oversized),
                    }
                },
                None => {
                    &&& result matches Ok(id) && id == old(self).next_id
                    &&& was_submitted(*old(self), input, class, *final(self))
                },
            },
            // What is accepted is of this model, fits the context with all it may
            // generate, and is charged the pages that holds and no more.
            result is Ok ==> {
                let r = final(self).requests@.last();
                let prompt = input.tokens@.len();
                let longest = old(self).config.max_sequence_tokens;
                let page = old(self).config.kv_page_tokens;
                let sequence = prompt + r.remaining_work;
                &&& result == Ok::<RequestId, SubmitError>(r.id)
                &&& r.id == old(self).next_id
                &&& final(self).next_id == old(self).next_id + 1
                &&& final(self).requests@ == old(self).requests@.push(r)
                &&& r.class == class
                &&& r.state == RequestState::Admitted
                &&& r.tokens == 0 && r.prefill_progress == 0
                &&& !r.cancelled && !r.resident && r.lane is None
                &&& final(self).kv_used_pages == old(self).kv_used_pages
                &&& final(self).prefix == old(self).prefix
                &&& final(self).checkpoints == old(self).checkpoints
                &&& final(self).host == old(self).host
                &&& input.model@ == old(self).config.model@
                &&& prompt < longest
                &&& sequence <= longest
                &&& if input.decision is Some {
                    r.remaining_work == 0
                } else if let Some(schedule) = input.constrained {
                    r.remaining_work == schedule.steps@.len() || r.remaining_work == u32::MAX
                        < schedule.steps@.len()
                } else if let Some(asked) = input.params.max_tokens {
                    r.remaining_work == asked
                } else {
                    r.remaining_work == longest - prompt
                }
                &&& r.resources.kv_pages * page >= sequence
                &&& (r.resources.kv_pages - 1) * page < sequence
                &&& r.resources.kv_pages <= old(self).capacity.kv_pages
                &&& r.resources.lanes == 1
                &&& r.publish_tokens as int % page as int == 0
                &&& r.publish_tokens <= prompt
                &&& input.decision is Some ==> r.publish_tokens < prompt || prompt == 0
                &&& input.multimodal matches Some(m) ==> forall|i: int|
                    0 <= i < m.media@.len() ==> (#[trigger] m.media@[i]).begin >= r.publish_tokens
                        || m.media@[i].begin + m.media@[i].count <= r.publish_tokens
                &&& r.input == (RequestInput {
                    params: r.input.params,
                    system_block_tokens: r.input.system_block_tokens,
                    ..input
                })
                &&& r.input.params == (crate::types::DecodeParams {
                    max_tokens: r.input.params.max_tokens,
                    ..input.params
                })
            },
            // What is refused for its length would not fit the context.
            result matches Err(SubmitError::ContextExceeded { requested, limit }) ==> {
                &&& limit == old(self).config.max_sequence_tokens
                &&& input.tokens@.len() >= limit || requested > limit
                &&& requested >= input.tokens@.len()
                &&& input.decision is Some ==> requested == input.tokens@.len()
                &&& input.decision is None && input.constrained is None ==> (
                input.params.max_tokens matches Some(asked) ==> requested == input.tokens@.len()
                    + asked)
            },
            // What is refused for its size would not fit the whole pool.
            result matches Err(SubmitError::Oversized) ==> {
                let prompt = input.tokens@.len();
                let room = old(self).capacity.kv_pages * old(self).config.kv_page_tokens;
                &&& prompt < old(self).config.max_sequence_tokens
                &&& input.decision is Some ==> room < prompt
                &&& input.decision is None && input.constrained is None
                    ==> match input.params.max_tokens {
                    Some(asked) => room < prompt + asked,
                    None => room < old(self).config.max_sequence_tokens,
                }
            },
            // A request of this model that fits the context is refused only where
            // too many are in flight, or where the whole pool could not hold it.
            input.model@ == old(self).config.model@ && result is Err ==> {
                ||| result matches Err(SubmitError::Full) && flying(old(self).requests@)
                    >= old(self).config.max_in_flight
                ||| result matches Err(SubmitError::ContextExceeded { .. })
                ||| result matches Err(SubmitError::Oversized)
            },
            input.model@ != old(self).config.model@ ==> (result matches Err(
                SubmitError::UnknownModel(_),
            )),
    {
        let mut input = input;
        let ghost asked = input;
        if input.model != self.config.model {
            return Err(SubmitError::UnknownModel(input.model));
        }
        if input.is_constrained() {
            input.params.max_tokens = None;
        }
        if self.in_flight() >= self.config.max_in_flight {
            return Err(SubmitError::Full);
        }
        let effective_max: u32 = generation_budget(&self.config, &input);
        let limit: u32 = self.config.max_sequence_tokens;
        let prompt_tokens: u64 = input.tokens.len() as u64;
        let reserved_tokens: u64 = prompt_tokens + effective_max as u64;
        if prompt_tokens >= limit as u64 || reserved_tokens > limit as u64 {
            return Err(SubmitError::ContextExceeded { requested: reserved_tokens, limit });
        }
        let kv_pages: u32 = pages_to_hold(reserved_tokens as u32, self.config.kv_page_tokens);
        let resources = AdmissionResources { lanes: 1, kv_pages, backend_pages: 0 };
        if !admission_resources_fit(&resources, &self.capacity) {
            proof {
                let (page, room) = (self.config.kv_page_tokens as int, self.capacity.kv_pages);
                pages_hold_and_no_fewer_would(reserved_tokens as int, self.config.kv_page_tokens);
                assert(room * page <= (kv_pages - 1) * page) by (nonlinear_arith)
                    requires
                        room <= kv_pages - 1,
                        page > 0,
                ;
            }
            return Err(SubmitError::Oversized);
        }
        let ghost before = *self;
        let id: RequestId = self.next_id;
        self.next_id = self.next_id + 1;
        let head: u32 = self.prefix.shareable_head_tokens(input.publish_reach());
        let page: u32 = self.config.kv_page_tokens;
        let publish: u32 = match input.opener_tokens {
            Some(opener) => {
                proof {
                    floored(opener, page);
                }
                let opener_page: u32 = (opener / page) * page;
                if self.config.prompt_reuse && opener_page < head {
                    opener_page
                } else {
                    head
                }
            },
            None => head,
        };
        let publish_tokens: u32 = input.prefix_floor(publish, page);
        let mut request = Request::new(id, class, input, resources, effective_max as u64);
        request.publish_tokens = publish_tokens;
        if !self.config.prompt_reuse {
            request.input.system_block_tokens = None;
        }
        let ghost with = request;
        self.requests.push(request);
        proof {
            pages_for_fits(reserved_tokens as int, page);
            pages_hold_and_no_fewer_would(reserved_tokens as int, page);
            crate::types::a_shared_head_splits_no_item(
                served(asked).media(),
                page,
                publish_tokens,
            );
            assert(reserved(before.config, served(asked)) == reserved_tokens);
            assert(full_pages(before.config, served(asked)) == kv_pages);
            assert(budget(before.config, with.input) == budget(before.config, served(asked)));
            assert(request_ok(with, self.config, self.prefix.entries@));
            self.request_joined(before, with);
            assert(self.requests@.last() == with);
            assert(self.requests@ =~= before.requests@.push(with));
            assert(self.requests@.drop_last() =~= before.requests@);
            assert(publish == before.head_to_publish(served(asked)));
            assert(was_submitted(before, asked, class, *self));
        }
        Ok(id)
    }

    /// The invariant holds with a fresh request queued behind the others.
    proof fn request_joined(self, before: Self, with: Request)
        requires
            before.wf(),
            before.settled(),
            before.next_id < u64::MAX,
            self == (ConcreteScheduler {
                requests: self.requests,
                next_id: self.next_id,
                ..before
            }),
            self.next_id == before.next_id + 1,
            self.requests@ == before.requests@.push(with),
            with.id == before.next_id,
            with.state == RequestState::Admitted,
            with.lane is None,
            !with.resident,
            with.prefix_entry is None,
            request_ok(with, self.config, self.prefix.entries@),
        ensures
            self.wf(),
            self.settled(),
    {
        counts_grow(before.requests@, with);
        let after = self.requests@;
        assert forall|i: int| 0 <= i < before.requests@.len() implies #[trigger] after[i]
            == before.requests@[i] by {}
        assert forall|p: PrefixId| #[trigger]
            self.prefix.refs(p) == standing(self.requests@, p) + holding(
                self.checkpoints.entries@,
                p,
            ) + debt(Seq::empty(), p) by {
            assert(before.prefix.refs(p) == standing(before.requests@, p) + holding(
                before.checkpoints.entries@,
                p,
            ) + debt(Seq::empty(), p));
        }
        assert forall|i: int| 0 <= i < after.len() implies request_ok(
            #[trigger] after[i],
            self.config,
            self.prefix.entries@,
        ) by {
            if i < before.requests@.len() {
                assert(after[i] == before.requests@[i]);
            }
        }
        assert forall|k: int| 0 <= k < self.host.live@.len() implies crate::concrete::resumes(
            after,
            #[trigger] self.host.live@[k],
        ) by {
            assert(crate::concrete::resumes(before.requests@, before.host.live@[k]));
            let j = choose|j: int| #[trigger]
                crate::concrete::resumes_at(before.requests@, before.host.live@[k], j);
            assert(crate::concrete::resumes_at(after, self.host.live@[k], j));
        }
        assert(hosted(after, self.host.live@));
    }

    /// Mark `request` for release at the next advance. `false`, changing
    /// nothing, when it is unknown or done.
    pub fn cancel(&mut self, request: RequestId) -> (known: bool)
        requires
            old(self).wf(),
        ensures
            final(self).wf(),
            old(self).settled() ==> final(self).settled(),
            known == crate::reuse::lives(old(self).requests@, request),
            !known ==> *final(self) == *old(self),
            known ==> was_cancelled(*old(self), request, *final(self)),
            // The mark is all that moves, and it is on every live request of that
            // name.
            final(self).requests@.len() == old(self).requests@.len(),
            forall|j: int|
                0 <= j < old(self).requests@.len() ==> (#[trigger] final(self).requests@[j]) == (
                if known && old(self).requests@[j].id == request && old(self).requests@[j].state
                    != RequestState::Done {
                    Request { cancelled: true, ..old(self).requests@[j] }
                } else {
                    old(self).requests@[j]
                }),
            final(self).kv_used_pages == old(self).kv_used_pages,
            final(self).free_lanes == old(self).free_lanes,
            final(self).host == old(self).host,
            final(self).prefix == old(self).prefix,
            known <==> exists|j: int|
                0 <= j < old(self).requests@.len() && (#[trigger] old(self).requests@[j]).id
                    == request && old(self).requests@[j].state != RequestState::Done,
    {
        let ghost before = *self;
        let mut i: usize = 0;
        while i < self.requests.len()
            invariant
                *self == before,
                before == *old(self),
                before.wf(),
                i <= self.requests@.len(),
                forall|j: int|
                    0 <= j < i ==> !((#[trigger] self.requests@[j]).id == request
                        && self.requests@[j].state != RequestState::Done),
            decreases self.requests@.len() - i,
        {
            if self.requests[i].id == request && self.requests[i].state != RequestState::Done {
                proof {
                    assert forall|j: int| 0 <= j < before.requests@.len() && j != i implies (
                    #[trigger] before.requests@[j]).id != request by {
                        if j < i {
                            assert(before.requests@[j].id < before.requests@[i as int].id);
                        } else {
                            assert(before.requests@[i as int].id < before.requests@[j].id);
                        }
                    }
                }
                return self.mark_cancelled(i);
            }
            i = i + 1;
        }
        false
    }

    fn mark_cancelled(&mut self, i: usize) -> (marked: bool)
        requires
            old(self).wf(),
            i < old(self).requests@.len(),
        ensures
            marked,
            final(self).wf(),
            old(self).settled() ==> final(self).settled(),
            *final(self) == (ConcreteScheduler { requests: final(self).requests, ..*old(self) }),
            final(self).requests@ == old(self).requests@.update(
                i as int,
                Request { cancelled: true, ..old(self).requests@[i as int] },
            ),
    {
        let ghost before = *self;
        self.requests[i].cancelled = true;
        proof {
            let with = self.requests@[i as int];
            lanes_kept(before.requests@, before.free_lanes@, i as int, with);
            hosted_kept_suspended(before.requests@, before.host.live@, i as int, with);
            assert(request_ok(before.requests@[i as int], before.config, before.prefix.entries@));
            self.one_request_moved(before, i as int, Seq::empty(), Seq::empty());
            if before.settled() {
                assert forall|j: int|
                    0 <= j < self.requests@.len() && (#[trigger] self.requests@[j]).state
                        == RequestState::Admitted implies !self.requests@[j].resident by {
                    assert(before.requests@[j].state == RequestState::Admitted);
                }
            }
        }
        true
    }

    /// The request at `i` was charged its slot and its pages, and nothing else
    /// happened.
    pub open spec fn charged_for(self, before: Self, i: int) -> bool {
        &&& self == (ConcreteScheduler {
            requests: self.requests,
            kv_used_pages: (before.kv_used_pages + before.requests@[i].resources.kv_pages) as u32,
            resident_slots_used: (before.resident_slots_used + 1) as u32,
            ..before
        })
        &&& self.requests@ == before.requests@.update(
            i,
            Request { resident: true, ..before.requests@[i] },
        )
    }

    /// The request at `i` was let off its slot and its pages, and nothing else
    /// happened.
    pub open spec fn let_off(self, before: Self, i: int) -> bool {
        &&& self == (ConcreteScheduler {
            requests: self.requests,
            kv_used_pages: (before.kv_used_pages - before.requests@[i].resources.kv_pages) as u32,
            resident_slots_used: (before.resident_slots_used - 1) as u32,
            ..before
        })
        &&& self.requests@ == before.requests@.update(
            i,
            Request { resident: false, ..before.requests@[i] },
        )
    }

    /// Charge the request's device slot and pages, once per sequence; a no-op
    /// for one that is charged.
    pub(crate) fn materialize(&mut self, idx: usize)
        requires
            old(self).wf(),
            idx < old(self).requests@.len(),
            old(self).requests@[idx as int].state == RequestState::Admitted
                || old(self).requests@[idx as int].state == RequestState::Prefilling
                || old(self).requests@[idx as int].resident,
            old(self).requests@[idx as int].resident || old(self).has_room_for(
                old(self).requests@[idx as int].resources.kv_pages,
                1,
            ),
        ensures
            final(self).wf(),
            old(self).requests@[idx as int].resident ==> *final(self) == *old(self),
            !old(self).requests@[idx as int].resident ==> final(self).charged_for(
                *old(self),
                idx as int,
            ),
            final(self).requests@[idx as int].resident,
    {
        if self.requests[idx].resident {
            return;
        }
        let ghost before = *self;
        self.requests[idx].resident = true;
        self.resident_slots_used = self.resident_slots_used + 1;
        self.kv_used_pages = self.kv_used_pages + self.requests[idx].resources.kv_pages;
        proof {
            let with = self.requests@[idx as int];
            lanes_kept(before.requests@, before.free_lanes@, idx as int, with);
            hosted_kept(before.requests@, before.host.live@, idx as int, with);
            assert(request_ok(before.requests@[idx as int], before.config, before.prefix.entries@));
            self.one_request_moved(before, idx as int, Seq::empty(), Seq::empty());
        }
    }

    /// Release the request's device slot and pages: the inverse of
    /// [`Self::materialize`].
    pub(crate) fn unmaterialize(&mut self, idx: usize)
        requires
            old(self).wf(),
            idx < old(self).requests@.len(),
            old(self).requests@[idx as int].state != RequestState::Running,
            !(old(self).requests@[idx as int].state == RequestState::Prefilling
                && old(self).requests@[idx as int].prefilled()),
        ensures
            final(self).wf(),
            !old(self).requests@[idx as int].resident ==> *final(self) == *old(self),
            old(self).requests@[idx as int].resident ==> final(self).let_off(
                *old(self),
                idx as int,
            ),
    {
        if !self.requests[idx].resident {
            return;
        }
        let ghost before = *self;
        proof {
            self.charge_is_counted(idx as int);
        }
        self.requests[idx].resident = false;
        self.resident_slots_used = self.resident_slots_used.saturating_sub(1);
        self.kv_used_pages = self.kv_used_pages.saturating_sub(
            self.requests[idx].resources.kv_pages,
        );
        proof {
            let with = self.requests@[idx as int];
            lanes_kept(before.requests@, before.free_lanes@, idx as int, with);
            assert(request_ok(before.requests@[idx as int], before.config, before.prefix.entries@));
            hosted_kept(before.requests@, before.host.live@, idx as int, with);
            self.one_request_moved(before, idx as int, Seq::empty(), Seq::empty());
        }
    }

    /// What a resident request charges is part of what is in use.
    pub proof fn charge_is_counted(self, i: int)
        requires
            self.charges_ok(),
            self.prefix.wf(),
            0 <= i < self.requests@.len(),
            self.requests@[i].resident,
        ensures
            self.requests@[i].resources.kv_pages <= self.kv_used_pages,
            self.resident_slots_used >= 1,
    {
        counts_move(self.requests@, i, self.requests@[i]);
        crate::prefix::pins_are_a_count(self.prefix.entries@);
    }

    /// The snapshot of `request` left the tier, if it had one, and the backend
    /// was told to free it.
    pub open spec fn snapshot_let_go(self, before: Self, request: RequestId) -> bool {
        match snapshot_of(before.host.live@, request, 0) {
            Some(at) => self.host.live@ == before.host.live@.remove(at) && before.snapshot_freed(
                request,
            ),
            None => self.host == before.host,
        }
    }

    /// Everything `r` held was let go, and the backend told of each: its
    /// sequence, its claim on a copy, its snapshot, and its reference on a
    /// shared prefix. Nothing else that is kept moved.
    #[verifier::opaque]
    pub open spec fn let_request_go(self, before: Self, r: Request) -> bool {
        let dropped = dropped_by(before.prefix.entries@, r.prefix_entry);
        &&& before.sequence_freed(r.id)
        &&& self.checkpoints == before.checkpoints
        &&& self.tail_pages == before.tail_pages
        &&& self.host.capacity_bytes == before.host.capacity_bytes
        &&& self.host.ttl == before.host.ttl
        &&& self.host.proven == before.host.proven
        &&& match r.kv_ram_claim {
            Some(id) => {
                let blob = RetainedBlob::Checkpoint(id);
                &&& self.host.retained@ == without_claim(before.host.retained@, blob)
                &&& last_claim_frees(before, blob)
            },
            None => self.host.retained == before.host.retained,
        }
        &&& match snapshot_of(before.host.live@, r.id, 0) {
            Some(at) => self.host.live@ == before.host.live@.remove(at) && before.snapshot_freed(
                r.id,
            ),
            None => self.host.live == before.host.live,
        }
        &&& if r.prefix_entry is Some {
            &&& self.prefix.same_but_entries(before.prefix)
            &&& self.prefix.entries@ == after_release(before.prefix.entries@, r.prefix_entry)
            &&& self.retained.slots@ == slots_after(before.retained.slots@, dropped)
            &&& before.heads_freed(dropped)
        } else {
            self.prefix == before.prefix && self.retained == before.retained
        }
    }

    /// What is kept for requests, on the device and off it, is as it was.
    pub open spec fn same_holdings(self, before: Self) -> bool {
        &&& self.prefix == before.prefix
        &&& self.checkpoints == before.checkpoints
        &&& self.retained == before.retained
        &&& self.host == before.host
        &&& self.tail_pages == before.tail_pages
    }

    /// What each of `who` held was let go, one after the other, and nothing
    /// else.
    pub open spec fn let_go_in_turn(self, before: Self, who: Seq<Request>) -> bool
        decreases who.len(),
    {
        if who.len() == 0 {
            self.same_holdings(before)
        } else {
            exists|middle: Self|
                middle.let_go_in_turn(before, who.drop_last()) && #[trigger] self.let_request_go(
                    middle,
                    who.last(),
                )
        }
    }

    /// What moved of what is kept for requests is what those who ended let go.
    #[verifier::opaque]
    pub open spec fn only_let_go(self, before: Self) -> bool {
        &&& stand_or_end(before.requests@, self.requests@)
        &&& exists|who: Seq<Request>| #[trigger]
            self.let_go_in_turn(before, who) && all_ended(before.requests@, self.requests@, who)
    }

    /// Where nothing moved, nothing was let go.
    pub(crate) proof fn lets_nothing_go(self, before: Self)
        requires
            self.same_holdings(before),
            stand_or_end(before.requests@, self.requests@),
        ensures
            self.only_let_go(before),
    {
        reveal(ConcreteScheduler::only_let_go);
        assert(self.let_go_in_turn(before, Seq::empty()));
        assert(all_ended(before.requests@, self.requests@, Seq::empty()));
    }

    /// Where one request ended, what it held was let go.
    pub(crate) proof fn lets_one_go(self, before: Self, i: int)
        requires
            0 <= i < before.requests@.len(),
            before.requests@[i].state != RequestState::Done,
            self.requests@[i].state == RequestState::Done,
            self.let_request_go(before, before.requests@[i]),
            stand_or_end(before.requests@, self.requests@),
        ensures
            self.only_let_go(before),
    {
        reveal(ConcreteScheduler::only_let_go);
        let r = before.requests@[i];
        let who = Seq::<Request>::empty().push(r);
        assert(who.drop_last() =~= Seq::empty());
        assert(who.last() == r);
        assert(before.let_go_in_turn(before, who.drop_last()));
        assert(self.let_request_go(before, who.last()));
        assert(self.let_go_in_turn(before, who));
        assert(ended_at(before.requests@, self.requests@, r, i));
    }

    proof fn turns_on(self, middle: Self, before: Self, a: Seq<Request>, b: Seq<Request>)
        requires
            middle.let_go_in_turn(before, a),
            self.let_go_in_turn(middle, b),
        ensures
            self.let_go_in_turn(before, a + b),
        decreases b.len(),
    {
        if b.len() == 0 {
            assert(a + b =~= a);
            if a.len() > 0 {
                let m = choose|m: Self|
                    m.let_go_in_turn(before, a.drop_last()) && #[trigger] middle.let_request_go(
                        m,
                        a.last(),
                    );
                reveal(ConcreteScheduler::let_request_go);
                assert(self.let_request_go(m, a.last()));
            }
        } else {
            let m = choose|m: Self|
                m.let_go_in_turn(middle, b.drop_last()) && #[trigger] self.let_request_go(
                    m,
                    b.last(),
                );
            m.turns_on(middle, before, a, b.drop_last());
            assert((a + b).drop_last() =~= a + b.drop_last());
            assert((a + b).last() == b.last());
        }
    }

    /// What was let go in one stretch and in the next was let go in both
    /// together.
    pub(crate) proof fn let_go_on(self, middle: Self, before: Self)
        requires
            middle.only_let_go(before),
            self.only_let_go(middle),
        ensures
            self.only_let_go(before),
    {
        reveal(ConcreteScheduler::only_let_go);
        let a = choose|a: Seq<Request>| #[trigger]
            middle.let_go_in_turn(before, a) && all_ended(before.requests@, middle.requests@, a);
        let b = choose|b: Seq<Request>| #[trigger]
            self.let_go_in_turn(middle, b) && all_ended(middle.requests@, self.requests@, b);
        self.turns_on(middle, before, a, b);
        assert forall|i: int| 0 <= i < before.requests@.len() implies stands_or_ends(
            before.requests@[i],
            #[trigger] self.requests@[i],
        ) by {
            assert(stands_or_ends(before.requests@[i], middle.requests@[i]));
        }
        let who = a + b;
        assert forall|k: int| 0 <= k < who.len() implies has_ended(
            before.requests@,
            self.requests@,
            #[trigger] who[k],
        ) by {
            if k < a.len() {
                assert(has_ended(before.requests@, middle.requests@, a[k]));
                let i = choose|i: int| ended_at(before.requests@, middle.requests@, a[k], i);
                assert(stands_or_ends(middle.requests@[i], self.requests@[i]));
                assert(ended_at(before.requests@, self.requests@, who[k], i));
            } else {
                let r = b[k - a.len()];
                assert(has_ended(middle.requests@, self.requests@, r));
                let i = choose|i: int| ended_at(middle.requests@, self.requests@, r, i);
                assert(stands_or_ends(before.requests@[i], middle.requests@[i]));
                assert(ended_at(before.requests@, self.requests@, who[k], i));
            }
        }
    }

    /// The request's own half of its end: done, its lane free, its charge gone,
    /// its snapshot dropped. The prefix it stood on is still owed a release.
    fn end_request(&mut self, idx: usize)
        requires
            old(self).wf(),
            idx < old(self).requests@.len(),
            old(self).requests@[idx as int].kv_ram_claim is None,
        ensures
            final(self).owing(
                match old(self).requests@[idx as int].prefix_entry {
                    Some(p) => Seq::<PrefixId>::empty().push(p),
                    None => Seq::<PrefixId>::empty(),
                },
            ),
            final(self).requests@ == old(self).requests@.update(
                idx as int,
                ended_request(old(self).requests@[idx as int]),
            ),
            final(self).free_lanes@ == (match old(self).requests@[idx as int].lane {
                Some(lane) => old(self).free_lanes@.push(lane),
                None => old(self).free_lanes@,
            }),
            final(self).resident_slots_used == old(self).resident_slots_used - slot_charge()(
                old(self).requests@[idx as int],
            ),
            final(self).kv_used_pages == old(self).kv_used_pages - page_charge()(
                old(self).requests@[idx as int],
            ),
            final(self).protection == (if old(self).protection matches Some(p) && p.head_request_id
                == old(self).requests@[idx as int].id {
                None
            } else {
                old(self).protection
            }),
            *final(self) == (ConcreteScheduler {
                requests: final(self).requests,
                host: final(self).host,
                free_lanes: final(self).free_lanes,
                resident_slots_used: final(self).resident_slots_used,
                kv_used_pages: final(self).kv_used_pages,
                protection: final(self).protection,
                ..*old(self)
            }),
            final(self).host.capacity_bytes == old(self).host.capacity_bytes,
            final(self).host.ttl == old(self).host.ttl,
            final(self).host.retained == old(self).host.retained,
            final(self).host.proven == old(self).host.proven,
            final(self).snapshot_let_go(*old(self), old(self).requests@[idx as int].id),
    {
        let ghost before = *self;
        let request_id: RequestId = self.requests[idx].id;
        proof {
            assert(request_ok(
                before.requests@[idx as int],
                before.config,
                before.prefix.entries@,
            ));
            if self.requests@[idx as int].resident {
                self.charge_is_counted(idx as int);
            }
        }
        let snapshot = self.host.discard_request(request_id);
        if snapshot.is_some() {
            self.compute.discard_snapshot(request_id);
        }
        let lane: Option<LaneId> = self.requests[idx].lane;
        if let Some(lane) = lane {
            self.free_lanes.push(lane);
        }
        if self.requests[idx].resident {
            self.resident_slots_used = self.resident_slots_used.saturating_sub(1);
            self.kv_used_pages = self.kv_used_pages.saturating_sub(
                self.requests[idx].resources.kv_pages,
            );
            self.requests[idx].resident = false;
        }
        self.requests[idx].abort();
        let is_head: bool = match &self.protection {
            Some(p) => p.head_request_id == request_id,
            None => false,
        };
        if is_head {
            self.protection = None;
        }
        proof {
            assert(self.requests@ =~= before.requests@.update(
                idx as int,
                ended_request(before.requests@[idx as int]),
            ));
            self.request_ended(
                before,
                idx as int,
                match before.requests@[idx as int].prefix_entry {
                    Some(p) => Seq::<PrefixId>::empty().push(p),
                    None => Seq::<PrefixId>::empty(),
                },
            );
        }
    }

    /// Release everything the request holds, whatever state it is in, and end
    /// it: its lane, its device charge, its claims and its snapshot.
    pub(crate) fn release_request(&mut self, idx: usize) -> (ended: (RequestId, u32))
        requires
            old(self).wf(),
            idx < old(self).requests@.len(),
        ensures
            final(self).wf(),
            ended.0 == old(self).requests@[idx as int].id,
            ended.1 == old(self).requests@[idx as int].tokens,
            final(self).requests@ == old(self).requests@.update(
                idx as int,
                ended_request(old(self).requests@[idx as int]),
            ),
            final(self).free_lanes@ == (match old(self).requests@[idx as int].lane {
                Some(lane) => old(self).free_lanes@.push(lane),
                None => old(self).free_lanes@,
            }),
            final(self).resident_slots_used == old(self).resident_slots_used - (
            if old(self).requests@[idx as int].resident {
                1int
            } else {
                0
            }),
            final(self).kv_used_pages <= old(self).kv_used_pages - (
            if old(self).requests@[idx as int].resident {
                old(self).requests@[idx as int].resources.kv_pages as int
            } else {
                0
            }),
            final(self).protection == (if old(self).protection matches Some(p) && p.head_request_id
                == old(self).requests@[idx as int].id {
                None
            } else {
                old(self).protection
            }),
            final(self).same_run(*old(self)),
            old(self).settled() ==> final(self).settled(),
            final(self).let_request_go(*old(self), old(self).requests@[idx as int]),
            old(self).sequence_freed(old(self).requests@[idx as int].id),
    {
        let ghost before = *self;
        let request_id: RequestId = self.requests[idx].id;
        let tokens: u32 = self.requests[idx].tokens;
        self.compute.release(request_id);
        self.release_kv_ram_claim(idx, false);
        let ghost unclaimed = *self;
        let prefix_entry: Option<PrefixId> = self.requests[idx].prefix_entry;
        self.end_request(idx);
        if let Some(p) = prefix_entry {
            self.release_prefix_claim(p, Ghost(Seq::empty()));
        }
        proof {
            assert(self.requests@ =~= before.requests@.update(
                idx as int,
                ended_request(before.requests@[idx as int]),
            ));
            assert(self.let_request_go(before, before.requests@[idx as int])) by {
                reveal(ConcreteScheduler::let_request_go);
            }
            if before.settled() {
                assert forall|j: int|
                    0 <= j < self.requests@.len() && (#[trigger] self.requests@[j]).state
                        == RequestState::Admitted implies !self.requests@[j].resident by {
                    assert(j != idx);
                    assert(self.requests@[j] == before.requests@[j]);
                }
            }
        }
        (request_id, tokens)
    }

    /// What stays through a run of serving: the terms, the ids and the clock.
    pub open spec fn same_run(self, before: Self) -> bool {
        &&& self.config == before.config
        &&& self.compute == before.compute
        &&& self.clock == before.clock
        &&& self.capacity == before.capacity
        &&& self.next_id == before.next_id
        &&& self.tick == before.tick
        &&& self.protection_epoch == before.protection_epoch
        &&& self.last_error == before.last_error
        &&& self.reported_slots == before.reported_slots
        &&& self.requests@.len() == before.requests@.len()
        &&& self.host.capacity_bytes == before.host.capacity_bytes
        &&& self.host.ttl == before.host.ttl
        &&& self.checkpoints.identity == before.checkpoints.identity
        &&& self.checkpoints.tiers == before.checkpoints.tiers
        &&& self.retained.slots@.len() == before.retained.slots@.len()
    }

    /// The invariant holds, but for the prefix it stood on, once a request
    /// gave back its lane, its charge and its snapshot.
    proof fn request_ended(self, before: Self, i: int, owed: Seq<PrefixId>)
        requires
            before.wf(),
            0 <= i < before.requests@.len(),
            self == (ConcreteScheduler {
                requests: self.requests,
                host: self.host,
                free_lanes: self.free_lanes,
                resident_slots_used: self.resident_slots_used,
                kv_used_pages: self.kv_used_pages,
                protection: self.protection,
                ..before
            }),
            self.protection is None || self.protection == before.protection,
            self.requests@ == before.requests@.update(
                i,
                ended_request(before.requests@[i]),
            ),
            self.host.wf(),
            snapshot_of(before.host.live@, before.requests@[i].id, 0) is None ==> self.host
                == before.host,
            snapshot_of(before.host.live@, before.requests@[i].id, 0) matches Some(at)
                ==> self.host.live@ == before.host.live@.remove(at),
            self.free_lanes@ == (match before.requests@[i].lane {
                Some(lane) => before.free_lanes@.push(lane),
                None => before.free_lanes@,
            }),
            self.resident_slots_used == before.resident_slots_used - slot_charge()(
                before.requests@[i],
            ),
            self.kv_used_pages == before.kv_used_pages - page_charge()(before.requests@[i]),
            owed == (match before.requests@[i].prefix_entry {
                Some(p) => Seq::<PrefixId>::empty().push(p),
                None => Seq::<PrefixId>::empty(),
            }),
        ensures
            self.owing(owed),
    {
        let was = before.requests@[i];
        let with = ended_request(was);
        assert(request_ok(was, before.config, before.prefix.entries@));
        assert(request_ok(with, self.config, self.prefix.entries@));
        if was.lane is Some {
            lane_returned(before.requests@, before.free_lanes@, i, with);
        } else {
            lanes_kept(before.requests@, before.free_lanes@, i, with);
        }
        crate::host::snapshot_is_first(before.host.live@, was.id, 0);
        match snapshot_of(before.host.live@, was.id, 0) {
            Some(at) => {
                hosted_leave(
                    before.requests@,
                    before.host.live@,
                    before.next_id,
                    i,
                    with,
                    at,
                );
            },
            None => {
                assert(was.state != RequestState::Evicted) by {
                    if was.state == RequestState::Evicted {
                        assert(crate::concrete::snapshotted(before.host.live@, was.id));
                    }
                }
                hosted_kept(before.requests@, before.host.live@, i, with);
            },
        }
        assert forall|p: PrefixId| #[trigger]
            debt(owed, p) == debt(Seq::empty(), p) + stands_on(p)(was) - stands_on(p)(with) by {
            match was.prefix_entry {
                Some(q) => debt_grows(Seq::empty(), q, p),
                None => debt_grows(Seq::empty(), 0, p),
            }
        }
        self.one_request_moved(before, i, Seq::empty(), owed);
    }

    /// Why a request whose budget is spent stopped: a constrained decode is
    /// finished, an ordinary one was cut off.
    pub(crate) fn budget_spent_reason(&self, idx: usize) -> (reason: FinishReason)
        requires
            idx < self.requests@.len(),
        ensures
            reason == (if self.requests@[idx as int].input.constrained is Some {
                FinishReason::Stop
            } else {
                FinishReason::Length
            }),
    {
        if self.requests[idx].input.is_constrained() {
            FinishReason::Stop
        } else {
            FinishReason::Length
        }
    }

    /// Complete the request: release what it holds, and report its answer,
    /// moved out of it.
    pub(crate) fn mark_done(
        &mut self,
        idx: usize,
        events: &mut Vec<SchedEvent>,
        reason: FinishReason,
    )
        requires
            old(self).wf(),
            idx < old(self).requests@.len(),
        ensures
            final(self).wf(),
            old(self).settled() ==> final(self).settled(),
            final(self).same_run(*old(self)),
            old(self).finished(
                old(self).requests@[idx as int],
                final(self).requests@[idx as int],
            ),
            final(self).requests@[idx as int].state == RequestState::Done,
            final(self).requests@[idx as int].id == old(self).requests@[idx as int].id,
            final(self).requests@[idx as int].input == old(self).requests@[idx as int].input,
            final(self).requests@[idx as int].class == old(self).requests@[idx as int].class,
            final(self).requests@[idx as int].cancelled == old(self).requests@[idx as int].cancelled,
            forall|j: int|
                0 <= j < old(self).requests@.len() && j != idx ==> (
                #[trigger] final(self).requests@[j]) == old(self).requests@[j],
            final(self).free_lanes@ == (match old(self).requests@[idx as int].lane {
                Some(lane) => old(self).free_lanes@.push(lane),
                None => old(self).free_lanes@,
            }),
            final(self).kv_used_pages <= old(self).kv_used_pages,
            final(self).resident_slots_used <= old(self).resident_slots_used,
            final(events)@ == old(events)@.push(
                done_event(old(self).requests@[idx as int], reason),
            ),
            old(self).requests@[idx as int].state != RequestState::Done
                ==> final(self).only_let_go(*old(self)),
    {
        let ghost before = *self;
        let ghost was = self.requests@[idx as int];
        let spec = self.requests[idx].spec;
        let readout = self.requests[idx].readout.take();
        let attention = self.requests[idx].attention.take();
        let mut draws: Vec<crate::constrained::Draw> = Vec::new();
        std::mem::swap(&mut self.requests[idx].drawn, &mut draws);
        let constrained: bool = self.requests[idx].input.is_constrained();
        let drawn: Option<Vec<crate::constrained::Draw>> = if constrained {
            Some(draws)
        } else {
            None
        };
        proof {
            let with = self.requests@[idx as int];
            assert(self.requests@ =~= before.requests@.update(idx as int, with));
            assert(request_ok(was, before.config, before.prefix.entries@));
            lanes_kept(before.requests@, before.free_lanes@, idx as int, with);
            hosted_kept_suspended(before.requests@, before.host.live@, idx as int, with);
            self.one_request_moved(before, idx as int, Seq::empty(), Seq::empty());
            if before.settled() {
                assert forall|j: int|
                    0 <= j < self.requests@.len() && (#[trigger] self.requests@[j]).state
                        == RequestState::Admitted implies !self.requests@[j].resident by {
                    assert(before.requests@[j].state == RequestState::Admitted);
                }
            }
        }
        let ghost emptied = *self;
        let (request_id, tokens) = self.release_request(idx);
        proof {
            assert forall|j: int|
                0 <= j < before.requests@.len() && j != idx implies #[trigger] self.requests@[j]
                == before.requests@[j] by {
                assert(self.requests@[j] == emptied.requests@[j]);
            }
            if was.state != RequestState::Done {
                emptied.lets_nothing_go(before);
                self.lets_one_go(emptied, idx as int);
                self.let_go_on(emptied, before);
            }
        }
        events.push(
            SchedEvent::Done {
                request: request_id,
                tokens,
                reason,
                spec,
                readout,
                attention,
                drawn,
            },
        );
    }
}

/// A request once it has ended: done, holding nothing.
pub open spec fn ended_request(r: Request) -> Request {
    Request { kv_ram_claim: None, resident: false, ..r }.aborted()
}

impl<C: Compute, K: Clock> ConcreteScheduler<C, K> {
    /// `after` is `r` once it was completed: ended, what it had to tell handed
    /// out, and the backend told to drop its sequence.
    pub open spec fn finished(self, r: Request, after: Request) -> bool {
        &&& after.drawn@.len() == 0
        &&& after == (Request {
            readout: None,
            attention: None,
            drawn: after.drawn,
            ..ended_request(r)
        })
        &&& self.sequence_freed(r.id)
    }
}

/// `after` is the request `before`, and holds what it held, unless it has ended
/// since.
pub open spec fn stands_or_ends(before: Request, after: Request) -> bool {
    &&& after.id == before.id
    &&& before.state == RequestState::Done ==> after.state == RequestState::Done
    &&& after.state != RequestState::Done ==> after.prefix_entry == before.prefix_entry
        && after.kv_ram_claim == before.kv_ram_claim
}

/// Everyone holds what they held, unless they have ended since.
pub open spec fn stand_or_end(before: Seq<Request>, after: Seq<Request>) -> bool {
    &&& after.len() == before.len()
    &&& forall|i: int|
        0 <= i < before.len() ==> stands_or_ends(before[i], #[trigger] after[i])
}

/// `r` held what the request at `i` held, which has ended since.
pub open spec fn ended_at(before: Seq<Request>, after: Seq<Request>, r: Request, i: int) -> bool {
    &&& 0 <= i < before.len()
    &&& before[i].state != RequestState::Done
    &&& after[i].state == RequestState::Done
    &&& r.id == before[i].id
    &&& r.prefix_entry == before[i].prefix_entry
    &&& r.kv_ram_claim == before[i].kv_ram_claim
}

/// `r` held what one of the requests held that has ended since.
pub open spec fn has_ended(before: Seq<Request>, after: Seq<Request>, r: Request) -> bool {
    exists|i: int| ended_at(before, after, r, i)
}

/// Each of `who` held what one of the requests held that has ended since.
pub open spec fn all_ended(before: Seq<Request>, after: Seq<Request>, who: Seq<Request>) -> bool {
    forall|k: int| 0 <= k < who.len() ==> has_ended(before, after, #[trigger] who[k])
}

/// How a request's end is reported.
pub open spec fn done_event(r: Request, reason: FinishReason) -> SchedEvent {
    SchedEvent::Done {
        request: r.id,
        tokens: r.tokens,
        reason,
        spec: r.spec,
        readout: r.readout,
        attention: r.attention,
        drawn: if r.input.constrained is Some {
            Some(r.drawn)
        } else {
            None
        },
    }
}

/// Whether `event` reports that the request `id` came to be in `state`.
pub open spec fn tells(event: SchedEvent, id: RequestId, state: RequestState) -> bool {
    match state {
        RequestState::Admitted => event == (SchedEvent::Requeued { request: id }),
        RequestState::Prefilling => {
            ||| event matches SchedEvent::PrefillChunk { request, .. } && request == id
            ||| event matches SchedEvent::Restored { request, .. } && request == id
        },
        RequestState::Running => {
            ||| event matches SchedEvent::Admitted { request, .. } && request == id
            ||| event matches SchedEvent::Restored { request, .. } && request == id
        },
        RequestState::Evicted => event matches SchedEvent::Evicted { request, .. } && request == id,
        RequestState::Done => event matches SchedEvent::Done { request, .. } && request == id,
    }
}

/// Whether that the request `id` came to be in `state` is reported among the
/// events past `before`.
pub open spec fn is_told(
    before: Seq<SchedEvent>,
    after: Seq<SchedEvent>,
    id: RequestId,
    state: RequestState,
) -> bool {
    exists|k: int| before.len() <= k < after.len() && tells(#[trigger] after[k], id, state)
}

/// Whoever is in another state than before is reported among the events
/// between the two.
pub open spec fn moves_told(
    before: Seq<Request>,
    after: Seq<Request>,
    first: Seq<SchedEvent>,
    last: Seq<SchedEvent>,
) -> bool {
    forall|i: int|
        0 <= i < before.len() && (#[trigger] after[i]).state != before[i].state ==> is_told(
            first,
            last,
            before[i].id,
            after[i].state,
        )
}

/// What is told in one stretch is told in a longer one.
pub proof fn told_longer(
    before: Seq<SchedEvent>,
    first: Seq<SchedEvent>,
    until: Seq<SchedEvent>,
    last: Seq<SchedEvent>,
    id: RequestId,
    state: RequestState,
)
    requires
        is_told(first, until, id, state),
        before.len() <= first.len(),
        longer(until, last),
    ensures
        is_told(before, last, id, state),
{
    let k = choose|k: int| first.len() <= k < until.len() && tells(#[trigger] until[k], id, state);
    assert(last[k] == until[k]);
}

/// Whether `event` names the request `id`.
pub open spec fn names(event: SchedEvent, id: RequestId) -> bool {
    match event {
        SchedEvent::Admitted { request, .. } => request == id,
        SchedEvent::Protected { head, donors, .. } => head == id || donors@.contains(id),
        SchedEvent::Token { request, .. } => request == id,
        SchedEvent::Done { request, .. } => request == id,
        SchedEvent::PrefillChunk { request, .. } => request == id,
        SchedEvent::PrefixReused { request, .. } => request == id,
        SchedEvent::StateReused { request, .. } => request == id,
        SchedEvent::RetainedState { .. } => false,
        SchedEvent::RetainedSlotSkipped { request, .. } => request == id,
        SchedEvent::RetainedSlots { .. } => false,
        SchedEvent::Evicted { request, .. } => request == id,
        SchedEvent::Restored { request, .. } => request == id,
        SchedEvent::Requeued { request } => request == id,
        SchedEvent::SnapshotDropped { request } => request == id,
    }
}

/// `event` names no request that is done.
#[verifier::opaque]
pub open spec fn spares(reqs: Seq<Request>, event: SchedEvent) -> bool {
    forall|i: int|
        0 <= i < reqs.len() && (#[trigger] reqs[i]).state == RequestState::Done ==> !names(
            event,
            reqs[i].id,
        )
}

/// What was reported from `first` to `last` names no request that is done.
pub open spec fn spared(
    reqs: Seq<Request>,
    first: Seq<SchedEvent>,
    last: Seq<SchedEvent>,
) -> bool {
    forall|k: int| first.len() <= k < last.len() ==> spares(reqs, #[trigger] last[k])
}

/// An event that names no one but a request still served.
pub proof fn spares_all_but(reqs: Seq<Request>, bound: RequestId, i: int, event: SchedEvent)
    requires
        crate::ledger::requests_ascend(reqs, bound),
        0 <= i < reqs.len(),
        reqs[i].state != RequestState::Done,
        forall|id: RequestId| #[trigger] names(event, id) ==> id == reqs[i].id,
    ensures
        spares(reqs, event),
{
    reveal(spares);
    assert forall|j: int|
        0 <= j < reqs.len() && (#[trigger] reqs[j]).state == RequestState::Done implies !names(
        event,
        reqs[j].id,
    ) by {
        if j < i {
            assert(reqs[j].id < reqs[i].id);
        } else {
            assert(reqs[i].id < reqs[j].id);
        }
    }
}

/// Reports of retained state name no one.
pub proof fn tidied_spares(
    reqs: Seq<Request>,
    first: Seq<SchedEvent>,
    last: Seq<SchedEvent>,
)
    requires
        tidied(first, last),
    ensures
        spared(reqs, first, last),
{
    reveal(spares);
}

/// Who is spared in one stretch and in the next is spared in both together.
pub proof fn spared_on(
    a: Seq<Request>,
    b: Seq<Request>,
    first: Seq<SchedEvent>,
    middle: Seq<SchedEvent>,
    last: Seq<SchedEvent>,
)
    requires
        spared(a, first, middle),
        spared(b, middle, last),
        longer(middle, last),
        forall|i: int|
            0 <= i < a.len() && (#[trigger] a[i]).state == RequestState::Done ==> i < b.len()
                && b[i] == a[i],
    ensures
        spared(a, first, last),
{
    reveal(spares);
    assert forall|k: int| first.len() <= k < last.len() implies spares(a, #[trigger] last[k]) by {
        if k < middle.len() {
            assert(last[k] == middle[k]);
        } else {
            assert(spares(b, last[k]));
            assert forall|i: int|
                0 <= i < a.len() && (#[trigger] a[i]).state == RequestState::Done implies !names(
                last[k],
                a[i].id,
            ) by {
                assert(b[i] == a[i]);
            }
        }
    }
}

/// What is told in one stretch and in the next is told in both together.
pub proof fn moves_told_on(
    a: Seq<Request>,
    b: Seq<Request>,
    c: Seq<Request>,
    first: Seq<SchedEvent>,
    middle: Seq<SchedEvent>,
    last: Seq<SchedEvent>,
)
    requires
        moves_told(a, b, first, middle),
        moves_told(b, c, middle, last),
        longer(first, middle),
        longer(middle, last),
        a.len() == b.len() == c.len(),
        forall|i: int| 0 <= i < a.len() ==> (#[trigger] b[i]).id == a[i].id,
    ensures
        moves_told(a, c, first, last),
{
    assert forall|i: int|
        0 <= i < a.len() && (#[trigger] c[i]).state != a[i].state implies is_told(
        first,
        last,
        a[i].id,
        c[i].state,
    ) by {
        assert(b[i].id == a[i].id);
        if b[i].state == c[i].state {
            told_longer(first, first, middle, last, a[i].id, c[i].state);
        } else {
            told_longer(first, middle, last, last, a[i].id, c[i].state);
        }
    }
}

/// One request ended, or none did, and it is told of.
pub proof fn one_end_told(
    a: Seq<Request>,
    b: Seq<Request>,
    i: int,
    reason: FinishReason,
    first: Seq<SchedEvent>,
    with: Request,
)
    requires
        0 <= i < a.len(),
        b.len() == a.len(),
        forall|j: int| 0 <= j < a.len() && j != i ==> (#[trigger] b[j]) == a[j],
        b[i].state == RequestState::Done || b[i].state == a[i].state,
        with.id == a[i].id,
    ensures
        moves_told(a, b, first, first.push(done_event(with, reason))),
        longer(first, first.push(done_event(with, reason))),
{
    let last = first.push(done_event(with, reason));
    assert forall|j: int|
        0 <= j < a.len() && (#[trigger] b[j]).state != a[j].state implies is_told(
        first,
        last,
        a[j].id,
        b[j].state,
    ) by {
        assert(j == i);
        assert(last[first.len() as int] == done_event(with, reason));
    }
}

/// `after` is `before` with `request`, which is not done, marked cancelled.
pub open spec fn was_cancelled<C: Compute, K: Clock>(
    before: ConcreteScheduler<C, K>,
    request: RequestId,
    after: ConcreteScheduler<C, K>,
) -> bool {
    exists|i: int|
        0 <= i < before.requests@.len() && (#[trigger] before.requests@[i]).id == request
            && before.requests@[i].state != RequestState::Done && after == (ConcreteScheduler {
            requests: after.requests,
            ..before
        }) && after.requests@ == before.requests@.update(
            i,
            Request { cancelled: true, ..before.requests@[i] },
        )
}

/// `after` is `before` with `input` queued as a fresh request.
pub open spec fn was_submitted<C: Compute, K: Clock>(
    before: ConcreteScheduler<C, K>,
    input: RequestInput,
    class: RequestClass,
    after: ConcreteScheduler<C, K>,
) -> bool {
    let served = served(input);
    let r = after.requests@.last();
    let publish = r.publish_tokens;
    &&& after == (ConcreteScheduler { requests: after.requests, next_id: after.next_id, ..before })
    &&& after.next_id == before.next_id + 1
    &&& after.requests@.len() == before.requests@.len() + 1
    &&& after.requests@.drop_last() == before.requests@
    &&& r.id == before.next_id
    &&& r.class == class
    &&& r.state == RequestState::Admitted
    &&& r.input == (if before.config.prompt_reuse {
        served
    } else {
        RequestInput { system_block_tokens: None, ..served }
    })
    &&& r.resources == (AdmissionResources {
        lanes: 1,
        kv_pages: full_pages(before.config, served) as u32,
        backend_pages: 0,
    })
    &&& r.remaining_work == budget(before.config, served)
    &&& !r.resident
    &&& !r.cancelled
    &&& r.tokens == 0
    &&& r.prefill_progress == 0
    &&& publish <= before.head_to_publish(served)
    &&& crate::types::is_share_point(served.media(), before.config.kv_page_tokens, publish)
    &&& forall|t: u32|
        publish < t <= before.head_to_publish(served) ==> !#[trigger] crate::types::is_share_point(
            served.media(),
            before.config.kv_page_tokens,
            t,
        )
}

} // verus!
