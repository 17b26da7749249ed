//! The vocabulary the modules share: ids, request classes and lifecycle
//! states, what a request asks for, and what the scheduler reports.
//!
//! Sampling parameters, logits and scores are IEEE values the scheduler only
//! carries; they are held as bit patterns.

use crate::checkpoint::{RetainedKind, RetainedStateOperation, ReuseSource};
use crate::constrained::{Draw, Schedule};
use crate::decision::Readout;
use crate::identity::MediaKey;
use crate::retained_slot::RetainedSkip;
use vstd::prelude::*;

verus! {

/// A request's id, in submission order.
pub type RequestId = u64;

/// A decode lane.
pub type LaneId = usize;

/// An entry of the shared-prefix cache.
pub type PrefixId = u64;

/// A token of the model's vocabulary.
pub type TokenId = u32;

/// The resident decode lanes.
pub const N_DECODE_LANES: usize = 8;

/// Who is waiting on a request. `Interactive` is served first.
#[derive(Debug, Clone, Copy, PartialEq, Eq, Structural)]
pub enum RequestClass {
    Interactive,
    Agent,
}

impl RequestClass {
    /// The class's place in a queue: the smaller is served first.
    pub open spec fn rank(self) -> u64 {
        match self {
            RequestClass::Interactive => 0,
            RequestClass::Agent => 1,
        }
    }

    pub fn queue_rank(self) -> (rank: u64)
        ensures
            rank == self.rank(),
            self == RequestClass::Interactive <==> rank == 0,
            self == RequestClass::Agent ==> rank == 1,
    {
        match self {
            RequestClass::Interactive => 0,
            RequestClass::Agent => 1,
        }
    }
}

/// What a request was dealt its lane as, while a protection is open.
#[derive(Debug, Clone, Copy, PartialEq, Eq, Structural)]
pub enum BackfillClass {
    /// Not a backfill.
    Plain,
    /// Fits beside the protected head; never borrows a donor's pages.
    Persistent,
    /// Borrows a donor's capacity and is done before it is needed.
    Temporal,
}

/// A request's lifecycle state.
#[derive(Debug, Clone, Copy, PartialEq, Eq, Structural)]
pub enum RequestState {
    /// Queued for its first prefill chunk.
    Admitted,
    /// Prefilling, or prefilled and queued for a lane.
    Prefilling,
    /// Decoding on a lane.
    Running,
    /// Suspended in the host tier.
    Evicted,
    /// Finished or cancelled.
    Done,
}

/// Why a request finished.
#[derive(Debug, Clone, Copy, PartialEq, Eq, Structural)]
pub enum FinishReason {
    Stop,
    Length,
    Error,
}

/// What a compute backend may fail with.
#[derive(Debug, Clone, Copy, PartialEq, Eq, Structural)]
pub enum ComputeError {
    /// A kernel fault, with its return code.
    Kernel(i32),
    /// The backend was stopped; not a fault.
    Stopped,
}

/// Whether anything is in flight.
#[derive(Debug, Clone, Copy, PartialEq, Eq, Structural)]
pub enum EngineMode {
    Serving,
    Idle,
}

/// How a request samples.
#[derive(Debug, Clone, Copy, PartialEq, Eq, Structural)]
pub struct DecodeParams {
    /// The most tokens to generate; the context limit when not given.
    pub max_tokens: Option<u32>,
    pub temperature_bits: u32,
    pub top_p_bits: u32,
    pub top_k: u32,
    pub seed: u64,
}

impl DecodeParams {
    /// Greedy sampling, without a cap.
    pub open spec fn greedy() -> DecodeParams {
        DecodeParams { max_tokens: None, temperature_bits: 0, top_p_bits: 0, top_k: 0, seed: 0 }
    }
}

impl Default for DecodeParams {
    fn default() -> (params: DecodeParams)
        ensures
            params == DecodeParams::greedy(),
            params.max_tokens is None,
            params.temperature_bits == 0,
            params.top_p_bits == 0,
            params.top_k == 0,
            params.seed == 0,
    {
        DecodeParams { max_tokens: None, temperature_bits: 0, top_p_bits: 0, top_k: 0, seed: 0 }
    }
}

/// The media inside a prompt, in prompt order.
#[derive(Debug)]
pub struct MultimodalInput {
    pub media: Vec<MediaKey>,
}

/// Whether the item stands for a token of the span from `start` to `end`.
pub open spec fn overlaps(item: MediaKey, start: int, end: int) -> bool {
    item.begin < end && item.begin + item.count > start
}

/// Whether one of the first `k` items overlaps the span.
pub open spec fn any_overlaps(media: Seq<MediaKey>, start: int, end: int, k: int) -> bool {
    exists|i: int| 0 <= i < k && overlaps(#[trigger] media[i], start, end)
}

/// The item at or past `k` that a span already carrying another item has to
/// stop short of.
pub open spec fn second_item(media: Seq<MediaKey>, start: int, end: int, k: int) -> Option<int>
    decreases media.len() - k,
{
    if k < 0 || k >= media.len() {
        None
    } else if overlaps(media[k], start, end) && media[k].begin > start && any_overlaps(
        media,
        start,
        end,
        k,
    ) {
        Some(k)
    } else {
        second_item(media, start, end, k + 1)
    }
}

/// The span cut so that it carries one media item at most.
pub open spec fn capped_span(media: Seq<MediaKey>, start: u32, take: u32) -> int {
    match second_item(media, start as int, start + take, 0) {
        Some(k) => media[k].begin - start,
        None => take as int,
    }
}

/// Media stand in prompt order.
pub open spec fn in_prompt_order(media: Seq<MediaKey>) -> bool {
    forall|i: int, j: int| 0 <= i < j < media.len() ==> media[i].begin <= media[j].begin
}

/// A capped chunk carries one media item at most that begins inside it, and
/// none beside one it began inside of; and it is only cut at the beginning of an
/// item, for another that the whole span would have carried before it.
pub proof fn a_capped_chunk_carries_one_item(media: Seq<MediaKey>, start: u32, take: u32)
    requires
        in_prompt_order(media),
    ensures
        ({
            let capped = capped_span(media, start, take);
            let end = start + capped;
            &&& 0 <= capped <= take
            &&& forall|i: int, j: int|
                0 <= i < j < media.len() && media[i].begin < end && media[i].begin + media[i].count
                    > start && media[j].begin < end && media[j].begin + media[j].count > start
                    ==> media[j].begin <= start
            &&& capped < take ==> exists|i: int, j: int|
                0 <= i < j < media.len() && (#[trigger] media[j]).begin == end && (#[trigger] media[i]).begin < start + take && media[i].begin
                    + media[i].count > start
        }),
{
    let (s, e) = (start as int, start + take);
    second_item_is_ahead(media, s, e, 0);
    second_item_is_first(media, s, e, 0);
    let capped = capped_span(media, start, take);
    let end = start + capped;
    let first = second_item(media, s, e, 0);
    assert forall|i: int, j: int|
        0 <= i < j < media.len() && media[i].begin < end && media[i].begin + media[i].count > start
            && media[j].begin < end && media[j].begin + media[j].count > start implies media[j].begin
        <= start by {
        assert(overlaps(media[i], s, e));
        assert(overlaps(media[j], s, e));
        assert(any_overlaps(media, s, e, j));
        if let Some(k) = first {
            if j >= k {
                assert(media[k].begin <= media[j].begin);
            }
        }
    }
    if let Some(k) = first {
        let i = choose|i: int| 0 <= i < k && overlaps(#[trigger] media[i], s, e);
        assert(media[k].begin == end && media[i].begin < e);
    }
}

proof fn second_item_is_first(media: Seq<MediaKey>, start: int, end: int, k: int)
    requires
        0 <= k,
    ensures
        match second_item(media, start, end, k) {
            Some(x) => {
                &&& k <= x < media.len()
                &&& overlaps(media[x], start, end)
                &&& media[x].begin > start
                &&& any_overlaps(media, start, end, x)
                &&& forall|j: int|
                    k <= j < x ==> !(overlaps(#[trigger] media[j], start, end) && media[j].begin
                        > start && any_overlaps(media, start, end, j))
            },
            None => forall|j: int|
                k <= j < media.len() ==> !(overlaps(#[trigger] media[j], start, end)
                    && media[j].begin > start && any_overlaps(media, start, end, j)),
        },
    decreases media.len() - k,
{
    if k < media.len() {
        second_item_is_first(media, start, end, k + 1);
    }
}

/// The item a span has to stop short of lies inside it.
pub proof fn second_item_is_ahead(media: Seq<MediaKey>, start: int, end: int, k: int)
    requires
        0 <= k,
    ensures
        second_item(media, start, end, k) matches Some(j) ==> k <= j < media.len() && start
            < media[j].begin < end,
    decreases media.len() - k,
{
    if k < media.len() {
        second_item_is_ahead(media, start, end, k + 1);
    }
}

impl MultimodalInput {
    /// The part of a chunk of `take` tokens at `start` that carries one media
    /// item at most.
    pub fn cap_chunk(&self, start: u32, take: u32) -> (capped: u32)
        ensures
            capped == capped_span(self.media@, start, take),
            capped <= take,
            take > 0 ==> capped > 0,
    {
        let end: u64 = start as u64 + take as u64;
        let mut seen: bool = false;
        let mut k: usize = 0;
        while k < self.media.len()
            invariant
                k <= self.media@.len(),
                end == start + take,
                seen == any_overlaps(self.media@, start as int, end as int, k as int),
                second_item(self.media@, start as int, end as int, 0) == second_item(
                    self.media@,
                    start as int,
                    end as int,
                    k as int,
                ),
            decreases self.media@.len() - k,
        {
            let item = &self.media[k];
            let inside: bool = (item.begin as u64) < end && item.begin as u64 + item.count as u64
                > start as u64;
            if inside {
                if seen && item.begin > start {
                    return item.begin - start;
                }
                assert(overlaps(self.media@[k as int], start as int, end as int));
                seen = true;
            }
            k = k + 1;
        }
        take
    }

    pub fn copy(&self) -> (copy: MultimodalInput)
        ensures
            copy.media@ == self.media@,
    {
        let mut media: Vec<MediaKey> = Vec::new();
        let mut k: usize = 0;
        while k < self.media.len()
            invariant
                k <= self.media@.len(),
                media@ == self.media@.take(k as int),
            decreases self.media@.len() - k,
        {
            media.push(self.media[k]);
            assert(self.media@.take(k + 1) =~= self.media@.take(k as int).push(self.media@[k as int]));
            k = k + 1;
        }
        assert(self.media@.take(self.media@.len() as int) =~= self.media@);
        MultimodalInput { media }
    }
}

/// An attention readout: which positions to score, off a final chunk at least
/// `min_chunk` tokens wide.
#[derive(Debug)]
pub struct AttentionRead {
    pub positions: Vec<u32>,
    pub min_chunk: u32,
}

impl AttentionRead {
    pub fn copy(&self) -> (copy: AttentionRead)
        ensures
            copy.positions@ == self.positions@,
            copy.min_chunk == self.min_chunk,
    {
        let positions = self.positions.clone();
        assert(positions@ =~= self.positions@);
        AttentionRead { positions, min_chunk: self.min_chunk }
    }
}

/// The scores an attention readout came back with.
#[derive(Debug)]
pub struct AttentionScores {
    pub score_bits: Vec<u32>,
}

impl AttentionScores {
    pub fn copy(&self) -> (copy: AttentionScores)
        ensures
            copy.score_bits@ == self.score_bits@,
    {
        let score_bits = self.score_bits.clone();
        assert(score_bits@ =~= self.score_bits@);
        AttentionScores { score_bits }
    }
}

/// What a decision reads off its prompt's last position.
#[derive(Debug)]
pub enum DecisionRead {
    /// One logit per answer token.
    Answers(Vec<TokenId>),
    Attention(AttentionRead),
}

/// What a request asks for.
#[derive(Debug)]
pub struct RequestInput {
    pub model: String,
    pub tokens: Vec<TokenId>,
    pub params: DecodeParams,
    pub multimodal: Option<MultimodalInput>,
    /// A decision generates nothing and answers with a readout.
    pub decision: Option<DecisionRead>,
    /// A constrained decode generates under a schedule.
    pub constrained: Option<Schedule>,
    /// Where the generation opener ends.
    pub opener_tokens: Option<u32>,
    /// Where the system block ends.
    pub system_block_tokens: Option<u32>,
    /// Where the last user message begins, where the frontend could tell.
    pub last_user_tokens: Option<u32>,
}

impl RequestInput {
    pub open spec fn decides(self) -> bool {
        self.decision is Some
    }

    pub open spec fn media(self) -> Seq<MediaKey> {
        match self.multimodal {
            Some(m) => m.media@,
            None => Seq::empty(),
        }
    }

    /// The narrowest final chunk this request can be answered from.
    pub open spec fn tail(self) -> int {
        match self.decision {
            Some(DecisionRead::Attention(a)) => a.min_chunk as int,
            _ => 0,
        }
    }

    /// Tokens a claim must leave for the request's own prefill: one where the
    /// last chunk carries something only a prefill can, and the tail.
    pub open spec fn held_back(self) -> int {
        let one = if self.decision is Some || self.constrained is Some || self.multimodal is Some {
            1int
        } else {
            0
        };
        if self.tail() > one {
            self.tail()
        } else {
            one
        }
    }

    pub open spec fn reach(self) -> int {
        if self.held_back() <= self.tokens@.len() {
            self.tokens@.len() - self.held_back()
        } else {
            0
        }
    }

    /// How much of the prompt may be published as a head. A decision holds back
    /// what its own last chunk is read off, one token at least: a head as long
    /// as its prompt is one no decision could claim.
    pub open spec fn shares(self) -> int {
        let held = if self.decision is Some && self.tail() < 1 {
            1int
        } else {
            self.tail()
        };
        if held <= self.tokens@.len() {
            self.tokens@.len() - held
        } else {
            0
        }
    }

    /// A schedule, where there is one, is one that can be drawn from.
    pub open spec fn wf(self) -> bool {
        self.constrained matches Some(schedule) ==> schedule.wf()
    }

    pub fn is_decision(&self) -> (decides: bool)
        ensures
            decides == self.decides(),
    {
        self.decision.is_some()
    }

    pub fn is_constrained(&self) -> (constrained: bool)
        ensures
            constrained == self.constrained is Some,
    {
        self.constrained.is_some()
    }

    /// The attention readout asked for, if any.
    pub fn attention(&self) -> (read: Option<&AttentionRead>)
        ensures
            read is Some <==> (self.decision matches Some(DecisionRead::Attention(_))),
            read matches Some(a) ==> self.decision == Some(DecisionRead::Attention(*a)),
    {
        match &self.decision {
            Some(DecisionRead::Attention(a)) => Some(a),
            _ => None,
        }
    }

    /// The narrowest final chunk this request can be answered from.
    pub fn prefill_tail(&self) -> (tail: u32)
        ensures
            tail == self.tail(),
    {
        match &self.decision {
            Some(DecisionRead::Attention(a)) => a.min_chunk,
            _ => 0,
        }
    }

    /// How far into the prompt a claim may reach.
    pub fn reuse_reach(&self) -> (reach: u32)
        requires
            self.tokens@.len() <= u32::MAX,
        ensures
            reach == self.reach(),
            reach <= self.tokens@.len(),
            // A plain prompt may be reused whole; of one whose last chunk carries
            // something a token is left, and what an attention readout is read off.
            self.decision is None && self.constrained is None && self.multimodal is None ==> reach
                == self.tokens@.len(),
            self.decision is Some || self.constrained is Some || self.multimodal is Some ==> reach
                < self.tokens@.len() || self.tokens@.len() == 0,
            !(self.decision matches Some(DecisionRead::Attention(_))) ==> reach + 1
                >= self.tokens@.len(),
            self.decision matches Some(DecisionRead::Attention(a)) ==> {
                &&& reach + a.min_chunk <= self.tokens@.len() || reach == 0
                &&& a.min_chunk > 0 ==> reach + a.min_chunk >= self.tokens@.len()
            },
    {
        let one: u32 = if self.decision.is_some() || self.constrained.is_some()
            || self.multimodal.is_some() {
            1
        } else {
            0
        };
        let tail: u32 = self.prefill_tail();
        let held: u32 = if tail > one {
            tail
        } else {
            one
        };
        (self.tokens.len() as u32).saturating_sub(held)
    }

    /// How far into the prompt a head may be published.
    pub fn publish_reach(&self) -> (reach: u32)
        requires
            self.tokens@.len() <= u32::MAX,
        ensures
            reach == self.shares(),
            reach <= self.tokens@.len(),
            // All of a prompt may be shared but what its own decision is read off.
            self.decision is None ==> reach == self.tokens@.len(),
            self.decision is Some ==> reach < self.tokens@.len() || self.tokens@.len() == 0,
            !(self.decision matches Some(DecisionRead::Attention(_))) ==> reach + 1
                >= self.tokens@.len(),
            self.decision matches Some(DecisionRead::Attention(a)) ==> {
                &&& reach + a.min_chunk <= self.tokens@.len() || reach == 0
                &&& a.min_chunk > 0 ==> reach + a.min_chunk >= self.tokens@.len()
            },
    {
        let tail: u32 = self.prefill_tail();
        let held: u32 = if self.decision.is_some() && tail < 1 {
            1
        } else {
            tail
        };
        (self.tokens.len() as u32).saturating_sub(held)
    }

    /// The longest run of whole pages up to `tokens` that ends inside no media
    /// item.
    pub fn prefix_floor(&self, tokens: u32, page_tokens: u32) -> (floor: u32)
        requires
            page_tokens > 0,
            tokens % page_tokens == 0,
        ensures
            floor <= tokens,
            is_share_point(self.media(), page_tokens, floor),
            forall|t: u32|
                floor < t <= tokens ==> !#[trigger] is_share_point(self.media(), page_tokens, t),
    {
        match &self.multimodal {
            None => {
                proof {
                    assert forall|t: u32| tokens < t <= tokens implies !#[trigger] is_share_point(
                        self.media(),
                        page_tokens,
                        t,
                    ) by {}
                }
                tokens
            },
            Some(multimodal) => {
                let mut t: u32 = tokens;
                while t > 0 && splits_an_item(&multimodal.media, t)
                    invariant
                        self.media() == multimodal.media@,
                        page_tokens > 0,
                        t <= tokens,
                        t % page_tokens == 0,
                        forall|u: u32|
                            t < u <= tokens ==> !#[trigger] is_share_point(
                                self.media(),
                                page_tokens,
                                u,
                            ),
                    decreases t,
                {
                    proof {
                        one_page_less(t as int, page_tokens as int);
                        assert forall|u: u32|
                            t - page_tokens < u <= tokens implies !#[trigger] is_share_point(
                            self.media(),
                            page_tokens,
                            u,
                        ) by {
                            if t - page_tokens < u < t {
                                between_pages(t as int, page_tokens as int, u as int);
                            }
                        }
                    }
                    t = t - page_tokens;
                }
                t
            },
        }
    }
}

/// Whether a head of `t` tokens may be shared: whole pages, ending inside no
/// media item.
pub open spec fn is_share_point(media: Seq<MediaKey>, page_tokens: u32, t: u32) -> bool {
    &&& t % page_tokens == 0
    &&& t == 0 || !split_by(media, t)
}

/// A head that may be shared is whole pages, and every media item lies wholly
/// inside it or wholly past it; any such head may be shared.
pub proof fn a_shared_head_splits_no_item(media: Seq<MediaKey>, page_tokens: u32, t: u32)
    requires
        page_tokens > 0,
    ensures
        is_share_point(media, page_tokens, t) <==> t as int % page_tokens as int == 0 && forall|
            i: int,
        |
            0 <= i < media.len() ==> (#[trigger] media[i]).begin >= t || media[i].begin
                + media[i].count <= t,
{
    if t as int % page_tokens as int == 0 && forall|i: int|
        0 <= i < media.len() ==> (#[trigger] media[i]).begin >= t || media[i].begin
            + media[i].count <= t {
        assert(!split_by(media, t));
    }
    if is_share_point(media, page_tokens, t) && t > 0 {
        assert forall|i: int| 0 <= i < media.len() implies (#[trigger] media[i]).begin >= t
            || media[i].begin + media[i].count <= t by {
            if media[i].begin < t && media[i].begin + media[i].count > t {
                assert(split_by(media, t));
            }
        }
    }
}

/// Whether a head of `t` tokens ends inside an item.
pub open spec fn split_by(media: Seq<MediaKey>, t: u32) -> bool {
    exists|i: int|
        0 <= i < media.len() && (#[trigger] media[i]).begin < t && media[i].begin + media[i].count
            > t
}

fn splits_an_item(media: &Vec<MediaKey>, t: u32) -> (splits: bool)
    ensures
        splits == split_by(media@, t),
{
    let mut i: usize = 0;
    while i < media.len()
        invariant
            i <= media@.len(),
            forall|j: int|
                0 <= j < i ==> !((#[trigger] media@[j]).begin < t && media@[j].begin
                    + media@[j].count > t),
        decreases media@.len() - i,
    {
        let item = &media[i];
        if item.begin < t && item.begin as u64 + item.count as u64 > t as u64 {
            return true;
        }
        i = i + 1;
    }
    false
}

proof fn one_page_less(t: int, page: int)
    requires
        page > 0,
        t > 0,
        t % page == 0,
    ensures
        t >= page,
        (t - page) % page == 0,
{
    if t < page {
        vstd::arithmetic::div_mod::lemma_small_mod(t as nat, page as nat);
    }
    vstd::arithmetic::div_mod::lemma_mod_sub_multiples_vanish(t, page);
}

proof fn between_pages(t: int, page: int, u: int)
    requires
        page > 0,
        t % page == 0,
        t - page < u < t,
    ensures
        u % page != 0,
{
    vstd::arithmetic::div_mod::lemma_fundamental_div_mod(t, page);
    vstd::arithmetic::div_mod::lemma_fundamental_div_mod(u, page);
    let a = t / page;
    let b = u / page;
    if u % page == 0 {
        assert(page * a - page < page * b);
        assert(page * b < page * a);
        assert(page * a - page == page * (a - 1)) by (nonlinear_arith);
        assert(b > a - 1) by (nonlinear_arith)
            requires
                page > 0,
                page * (a - 1) < page * b,
        ;
        assert(b < a) by (nonlinear_arith)
            requires
                page > 0,
                page * b < page * a,
        ;
    }
}

/// Why a submission was refused.
#[derive(Debug)]
pub enum SubmitError {
    UnknownModel(String),
    /// The in-flight cap is reached.
    Full,
    /// The sequence is longer than one may be.
    ContextExceeded { requested: u64, limit: u32 },
    /// The reservation exceeds the whole pool.
    Oversized,
}

/// What speculative decoding drafted and kept.
#[derive(Debug, Clone, Copy, PartialEq, Eq, Structural)]
pub struct SpecStats {
    pub drafted: u64,
    pub accepted: u64,
}

impl SpecStats {
    /// The sum of two rounds' counts; each count stays at its ceiling.
    pub open spec fn total(self, other: SpecStats) -> SpecStats {
        SpecStats {
            drafted: crate::checkpoint::sat_u64(self.drafted + other.drafted) as u64,
            accepted: crate::checkpoint::sat_u64(self.accepted + other.accepted) as u64,
        }
    }

    pub fn plus(self, other: SpecStats) -> (sum: SpecStats)
        ensures
            sum == self.total(other),
            self.drafted + other.drafted <= u64::MAX ==> sum.drafted == self.drafted
                + other.drafted,
            self.accepted + other.accepted <= u64::MAX ==> sum.accepted == self.accepted
                + other.accepted,
            self.drafted + other.drafted > u64::MAX ==> sum.drafted == u64::MAX,
            self.accepted + other.accepted > u64::MAX ==> sum.accepted == u64::MAX,
    {
        SpecStats {
            drafted: self.drafted.saturating_add(other.drafted),
            accepted: self.accepted.saturating_add(other.accepted),
        }
    }
}

/// What the scheduler reports.
#[derive(Debug)]
pub enum SchedEvent {
    /// A lane was dealt.
    Admitted { request: RequestId, lane: LaneId, backfill: BackfillClass },
    /// A protection was opened for a blocked head.
    Protected { epoch: u64, head: RequestId, donors: Vec<RequestId> },
    Token { request: RequestId, token: TokenId },
    Done {
        request: RequestId,
        tokens: u32,
        reason: FinishReason,
        spec: Option<SpecStats>,
        readout: Option<Readout>,
        attention: Option<AttentionScores>,
        drawn: Option<Vec<Draw>>,
    },
    PrefillChunk {
        request: RequestId,
        chunk_tokens: u32,
        prefilled_tokens: u32,
        encode_micros: u64,
    },
    /// A shared prefix was claimed; `retained` once its publisher has finished.
    PrefixReused { request: RequestId, tokens: u32, retained: bool },
    /// A checkpoint was resumed from.
    StateReused {
        request: RequestId,
        source: ReuseSource,
        tokens: u32,
        restore_micros: u64,
        kind: RetainedKind,
    },
    RetainedState { operation: RetainedStateOperation, source: ReuseSource, kind: RetainedKind },
    RetainedSlotSkipped { request: RequestId, skip: RetainedSkip, in_use: u32, capacity: u32 },
    RetainedSlots { in_use: u32, capacity: u32 },
    Evicted { request: RequestId, snapshot_micros: u64 },
    Restored { request: RequestId, lane: Option<LaneId>, restore_micros: u64 },
    Requeued { request: RequestId },
    SnapshotDropped { request: RequestId },
}

} // verus!
