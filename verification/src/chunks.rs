//! What each chunk of a batch carries: where it ends, what it publishes and
//! captures there, and the job the backend is sent.

use crate::checkpoint::{CheckpointPool, ReuseSource};
use crate::concrete::{request_ok, ConcreteScheduler};
use crate::constrained::PermittedSet;
use crate::identity::{content_key, MatchKey, PromptContent};
use crate::plan::{
    chunk, chunk_take, cut, cut_at, lands_on, media_keys, reaches, reserved, sequence_tokens,
    SchedulerConfig,
};
use crate::prefill::sendable;
use crate::request::Request;
use crate::retained_slot::{RetainedHolder, RetainedSkip};
use crate::lifecycle::{spared, spared_on, spares, spares_all_but};
use crate::retention::grew;
use crate::scheduler::{CheckpointClaim, Clock, Compute, PrefillJob, RetainedAt, SharedPrefixClaim};
use crate::types::{
    DecisionRead, DecodeParams, MultimodalInput, RequestId, RequestInput, RequestState, SchedEvent,
    TokenId,
};
use vstd::prelude::*;

verus! {

/// The content of a request's first `at` prompt tokens.
pub open spec fn head_of(r: Request, at: int) -> MatchKey {
    content_key(r.input.tokens@, r.input.media(), at)
}

/// Whether a member of the batch before the `n`-th publishes the same head.
pub open spec fn head_is_taken(
    reqs: Seq<Request>,
    batch: Seq<usize>,
    points: Seq<u32>,
    n: int,
    at: u32,
) -> bool {
    at > 0 && exists|m: int|
        0 <= m < n && #[trigger] points[m] == at && head_of(reqs[batch[m] as int], at as int)
            == head_of(reqs[batch[n] as int], at as int)
}

/// Where each of the first `n` members publishes: its own point, unless one
/// before it in the batch publishes the same head.
pub open spec fn publish_plan(
    reqs: Seq<Request>,
    batch: Seq<usize>,
    page_tokens: u32,
    n: int,
) -> Seq<u32>
    decreases n,
{
    if n <= 0 {
        Seq::empty()
    } else {
        let points = publish_plan(reqs, batch, page_tokens, n - 1);
        let at = reqs[batch[n - 1] as int].publishes_at(page_tokens) as u32;
        points.push(
            if head_is_taken(reqs, batch, points, n - 1, at) {
                0
            } else {
                at
            },
        )
    }
}

/// Whether a checkpoint over exactly this content is retained.
pub open spec fn is_kept(pool: CheckpointPool, key: MatchKey) -> bool {
    exists|i: int| 0 <= i < pool.entries@.len() && (#[trigger] pool.entries@[i]).key == key
}

/// Where a request captures a checkpoint, publishing at `publish_at`: its own
/// point, or the one it publishes at where that is its opener; nowhere without
/// reuse, for a decision, or where the same content is retained already.
pub open spec fn capture_plan(
    config: SchedulerConfig,
    pool: CheckpointPool,
    r: Request,
    publish_at: u32,
) -> int {
    let own = r.captures_at(config.kv_page_tokens);
    let at = if own != 0 {
        own
    } else if publish_at > 0 && r.input.opener_tokens == Some(publish_at)
        && !r.checkpoint_captured {
        publish_at as int
    } else {
        0
    };
    if !config.prompt_reuse || r.input.decides() || at == 0 || is_kept(pool, head_of(r, at)) {
        0
    } else {
        at
    }
}

/// Where one chunk publishes and captures, and the slots taken for it.
#[derive(Debug, Clone, Copy, PartialEq, Eq, Structural)]
pub struct ChunkPlan {
    pub publish_at: u32,
    pub capture_at: u32,
    /// The slot the head is published into, where this chunk ends on it.
    pub publish: Option<RetainedAt>,
    /// The slot the checkpoint is captured into, where this chunk ends on it.
    pub capture: Option<RetainedAt>,
}

/// The width of the chunk: it stops at a point ahead of it.
pub open spec fn job_width(r: Request, config: SchedulerConfig, plan: ChunkPlan) -> int {
    let start = r.prefill_progress;
    let take = chunk(r, config.serving_chunk_tokens) as u32;
    cut(start, cut(start, take, plan.publish_at) as u32, plan.capture_at)
}

/// `plan` is what became of a wish to publish at `publish_at` and to capture
/// at `capture_at`: a slot is taken only for a point this chunk reaches, and a
/// point it reaches without a slot is given up.
pub open spec fn settles(
    r: Request,
    config: SchedulerConfig,
    publish_at: u32,
    capture_at: u32,
    plan: ChunkPlan,
) -> bool {
    let start = r.prefill_progress;
    let take = chunk(r, config.serving_chunk_tokens) as u32;
    let publishing = reaches(start, take, publish_at);
    let refused = publishing && plan.publish is None;
    // A checkpoint that was to ride a refused publish is not captured either.
    let wanted = if refused && capture_at == publish_at { 0 } else { capture_at };
    let capturing = reaches(start, cut(start, take, plan.publish_at) as u32, wanted);
    &&& plan.publish_at == (if refused { 0 } else { publish_at })
    &&& plan.publish is Some ==> publishing
    &&& plan.publish matches Some(p) ==> p.tokens == publish_at
    &&& plan.capture_at == (if capturing && plan.capture is None { 0 } else { wanted })
    &&& plan.capture is Some ==> capturing
    &&& plan.capture matches Some(c) ==> c.tokens == wanted
}

/// Whether a chunk of `r` that ends at `end` is the one that ends its prompt.
pub open spec fn ends_prompt(r: Request, end: int) -> bool {
    end >= r.input.tokens@.len()
}

/// `job` is the chunk of `r` that `plan` settles.
pub open spec fn is_prefill_job(
    job: PrefillJob,
    r: Request,
    config: SchedulerConfig,
    plan: ChunkPlan,
) -> bool {
    let start = r.prefill_progress;
    let end = start + job_width(r, config, plan);
    &&& job.request == r.id
    &&& job.start_position == start
    &&& job.tokens@ == r.input.tokens@.subrange(start as int, end)
    &&& job.context_tokens == reserved(config, r.input)
    // Only the last chunk samples.
    &&& job.params == (if ends_prompt(r, end) {
        r.input.params
    } else {
        DecodeParams { max_tokens: r.input.params.max_tokens, ..DecodeParams::greedy() }
    })
    // A claim goes with the first chunk of the claimant.
    &&& job.shared_prefix == (match r.prefix_publisher {
        Some(publisher) if start == r.shared_prefix_tokens => Some(
            SharedPrefixClaim { publisher, tokens: start },
        ),
        _ => None,
    })
    &&& job.checkpoint == (match r.checkpoint_publisher {
        Some(publisher) if start == r.checkpoint_tokens => Some(
            CheckpointClaim {
                publisher,
                tokens: start,
                source: match r.reuse_source {
                    Some(source) => source,
                    None => ReuseSource::Device,
                },
            },
        ),
        _ => None,
    })
    &&& job.publish_prefix == plan.publish
    &&& job.capture_checkpoint == plan.capture
    &&& job.multimodal is Some <==> r.input.multimodal is Some
    &&& job.multimodal matches Some(m) ==> m.media@ == r.input.media()
    // What is read off the prompt's last position goes with the last chunk.
    &&& match job.readout {
        Some(answers) => ends_prompt(r, end) && (r.input.decision matches Some(
            DecisionRead::Answers(asked),
        ) && answers@ == asked@),
        None => !ends_prompt(r, end) || !(r.input.decision matches Some(DecisionRead::Answers(_))),
    }
    &&& match job.permitted {
        Some(set) => ends_prompt(r, end) && (r.input.constrained matches Some(schedule)
            && schedule.steps@.len() > 0 && set@ == schedule.steps@[0]@),
        None => !ends_prompt(r, end) || !(r.input.constrained matches Some(schedule)
            && schedule.steps@.len() > 0),
    }
    &&& match job.attention {
        Some(read) => ends_prompt(r, end) && (r.input.decision matches Some(
            DecisionRead::Attention(asked),
        ) && read.positions@ == asked.positions@ && read.min_chunk == asked.min_chunk),
        None => !ends_prompt(r, end) || !(r.input.decision matches Some(
            DecisionRead::Attention(_),
        )),
    }
}

/// A slot is taken only for the chunk that ends on its point: where the head
/// published lies no further than the opener, a job's chunk ends exactly where
/// it publishes and exactly where it captures.
pub proof fn a_slot_is_taken_for_the_chunk_that_lands(
    r: Request,
    config: SchedulerConfig,
    publish_at: u32,
    capture_at: u32,
    plan: ChunkPlan,
)
    requires
        settles(r, config, publish_at, capture_at, plan),
        capture_at == 0 || capture_at >= publish_at,
        r.prefill_progress <= r.input.tokens@.len() <= u32::MAX,
        0 <= chunk(r, config.serving_chunk_tokens) <= config.serving_chunk_tokens,
    ensures
        plan.publish matches Some(p) ==> r.prefill_progress + job_width(r, config, plan)
            == p.tokens,
        plan.capture matches Some(c) ==> r.prefill_progress + job_width(r, config, plan)
            == c.tokens,
{
}

proof fn a_point_stays_planned(
    reqs: Seq<Request>,
    batch: Seq<usize>,
    page_tokens: u32,
    m: int,
    n: int,
)
    requires
        0 <= m < n,
    ensures
        publish_plan(reqs, batch, page_tokens, n).len() == n,
        publish_plan(reqs, batch, page_tokens, m + 1).len() == m + 1,
        publish_plan(reqs, batch, page_tokens, n)[m] == publish_plan(
            reqs,
            batch,
            page_tokens,
            m + 1,
        )[m],
    decreases n,
{
    reveal_with_fuel(publish_plan, 2);
    if n > m + 1 {
        a_point_stays_planned(reqs, batch, page_tokens, m, n - 1);
    } else if m > 0 {
        a_point_stays_planned(reqs, batch, page_tokens, m - 1, m);
    }
}

/// A batch publishes a head once: two of its members that publish at the same
/// point publish different content.
pub proof fn a_head_is_published_once(
    reqs: Seq<Request>,
    batch: Seq<usize>,
    page_tokens: u32,
    n: int,
    a: int,
    b: int,
)
    requires
        0 <= a < b < n,
        publish_plan(reqs, batch, page_tokens, n)[a] == publish_plan(
            reqs,
            batch,
            page_tokens,
            n,
        )[b],
        publish_plan(reqs, batch, page_tokens, n)[b] > 0,
    ensures
        head_of(
            reqs[batch[a] as int],
            publish_plan(reqs, batch, page_tokens, n)[a] as int,
        ) != head_of(
            reqs[batch[b] as int],
            publish_plan(reqs, batch, page_tokens, n)[b] as int,
        ),
{
    a_point_stays_planned(reqs, batch, page_tokens, b, n);
    a_point_stays_planned(reqs, batch, page_tokens, a, n);
    a_point_stays_planned(reqs, batch, page_tokens, a, b);
    let points = publish_plan(reqs, batch, page_tokens, b);
    let at = reqs[batch[b] as int].publishes_at(page_tokens) as u32;
    if b > 0 {
        a_point_stays_planned(reqs, batch, page_tokens, b - 1, b);
    }
    assert(publish_plan(reqs, batch, page_tokens, b + 1)[b] == if head_is_taken(
        reqs,
        batch,
        points,
        b,
        at,
    ) {
        0
    } else {
        at
    });
    assert(points[a] == at);
}

/// A job is one chunk of its request's prompt, from where that stands and no
/// wider than the serving width: a long prompt costs the lanes one chunk of
/// latency.
pub proof fn a_job_is_one_chunk(
    job: PrefillJob,
    r: Request,
    config: SchedulerConfig,
    plan: ChunkPlan,
)
    requires
        is_prefill_job(job, r, config, plan),
        r.prefill_progress <= r.input.tokens@.len() <= u32::MAX,
    ensures
        job.tokens@.len() <= config.serving_chunk_tokens,
        job.start_position == r.prefill_progress,
        r.prefill_progress + job.tokens@.len() <= r.input.tokens@.len(),
        job.tokens@ == r.input.tokens@.subrange(
            r.prefill_progress as int,
            r.prefill_progress + job.tokens@.len(),
        ),
{
    chunk_is_bounded(r, config.serving_chunk_tokens);
}

/// A copy of the media of a prompt.
fn copied_media(input: &RequestInput) -> (copy: Option<MultimodalInput>)
    ensures
        copy is Some <==> input.multimodal is Some,
        copy matches Some(m) ==> m.media@ == input.media(),
{
    match &input.multimodal {
        Some(m) => Some(m.copy()),
        None => None,
    }
}

/// The answer tokens of a decision that reads logits.
fn asked_answers(input: &RequestInput) -> (answers: Option<Vec<TokenId>>)
    ensures
        match answers {
            Some(a) => input.decision matches Some(DecisionRead::Answers(asked)) && a@ == asked@,
            None => !(input.decision matches Some(DecisionRead::Answers(_))),
        },
{
    match &input.decision {
        Some(DecisionRead::Answers(asked)) => {
            let answers = asked.clone();
            assert(answers@ =~= asked@);
            Some(answers)
        },
        _ => None,
    }
}

/// The first step of a constrained run.
fn first_step(input: &RequestInput) -> (step: Option<PermittedSet>)
    ensures
        match step {
            Some(set) => input.constrained matches Some(schedule) && schedule.steps@.len() > 0
                && set@ == schedule.steps@[0]@,
            None => !(input.constrained matches Some(schedule) && schedule.steps@.len() > 0),
        },
{
    match &input.constrained {
        Some(schedule) => schedule.step(0),
        None => None,
    }
}

/// The job that sends the chunk of `r` that `plan` settles.
pub fn prefill_job(r: &Request, config: &SchedulerConfig, plan: &ChunkPlan) -> (job: PrefillJob)
    requires
        r.prefill_progress <= r.input.tokens@.len() <= u32::MAX,
    ensures
        is_prefill_job(job, *r, *config, *plan),
        0 <= job_width(*r, *config, *plan) <= r.input.tokens@.len() - r.prefill_progress,
        job_width(*r, *config, *plan) <= config.serving_chunk_tokens,
        config.serving_chunk_tokens > 0 && r.prefill_progress < r.input.tokens@.len()
            ==> job.tokens@.len() > 0,
{
    let start: u32 = r.prefill_progress;
    let whole: u32 = chunk_take(r, config.serving_chunk_tokens);
    let take: u32 = cut_at(start, cut_at(start, whole, plan.publish_at), plan.capture_at);
    let end: u32 = start + take;
    let last: bool = end as usize >= r.input.tokens.len();
    let piece = vstd::slice::slice_subrange(r.input.tokens.as_slice(), start as usize, end as usize);
    let tokens = vstd::slice::slice_to_vec(piece);
    assert(tokens@ =~= r.input.tokens@.subrange(start as int, end as int));
    let params = if last {
        r.input.params
    } else {
        DecodeParams { max_tokens: r.input.params.max_tokens, ..DecodeParams::default() }
    };
    let shared_prefix = match r.prefix_publisher {
        Some(publisher) => if start == r.shared_prefix_tokens {
            Some(SharedPrefixClaim { publisher, tokens: r.shared_prefix_tokens })
        } else {
            None
        },
        None => None,
    };
    let source = match r.reuse_source {
        Some(source) => source,
        None => ReuseSource::Device,
    };
    let checkpoint = match r.checkpoint_publisher {
        Some(publisher) => if start == r.checkpoint_tokens {
            Some(CheckpointClaim { publisher, tokens: r.checkpoint_tokens, source })
        } else {
            None
        },
        None => None,
    };
    let readout = if last {
        asked_answers(&r.input)
    } else {
        None
    };
    let permitted = if last {
        first_step(&r.input)
    } else {
        None
    };
    let attention = if last {
        match r.input.attention() {
            Some(read) => Some(read.copy()),
            None => None,
        }
    } else {
        None
    };
    PrefillJob {
        request: r.id,
        tokens,
        context_tokens: sequence_tokens(config, &r.input),
        start_position: start,
        params,
        shared_prefix,
        publish_prefix: plan.publish,
        checkpoint,
        capture_checkpoint: plan.capture,
        multimodal: copied_media(&r.input),
        readout,
        permitted,
        attention,
    }
}

impl<C: Compute, K: Clock> ConcreteScheduler<C, K> {
    /// The content of the request's first `at` prompt tokens.
    fn head_key(&self, i: usize, at: u32) -> (key: MatchKey)
        requires
            i < self.requests@.len(),
            at <= self.requests@[i as int].input.tokens@.len(),
        ensures
            key == head_of(self.requests@[i as int], at as int),
    {
        let input = &self.requests[i].input;
        let media = media_keys(input);
        PromptContent::new(input.tokens.as_slice(), media.as_slice()).key_at(at)
    }

    /// Where each of the batch publishes. One head is published once: of
    /// members with the same head, the first publishes it.
    pub(crate) fn publish_points(&self, batch: &Vec<usize>) -> (points: Vec<u32>)
        requires
            self.wf(),
            self.batch_ready(batch@, 0),
        ensures
            points@ == publish_plan(
                self.requests@,
                batch@,
                self.config.kv_page_tokens,
                batch@.len() as int,
            ),
            points@.len() == batch@.len(),
            forall|n: int|
                0 <= n < batch@.len() ==> #[trigger] points@[n]
                    <= self.requests@[batch@[n] as int].publish_tokens,
            forall|n: int|
                0 <= n < batch@.len() && #[trigger] points@[n] > 0 ==> points@[n]
                    > self.requests@[batch@[n] as int].prefill_progress,
    {
        let mut points: Vec<u32> = Vec::new();
        while points.len() < batch.len()
            invariant
                self.wf(),
                self.batch_ready(batch@, 0),
                points@.len() <= batch@.len(),
                points@ == publish_plan(
                    self.requests@,
                    batch@,
                    self.config.kv_page_tokens,
                    points@.len() as int,
                ),
                forall|n: int|
                    0 <= n < points@.len() ==> #[trigger] points@[n]
                        <= self.requests@[batch@[n] as int].publish_tokens,
                forall|n: int|
                    0 <= n < points@.len() && #[trigger] points@[n] > 0 ==> points@[n]
                        > self.requests@[batch@[n] as int].prefill_progress,
            decreases batch@.len() - points@.len(),
        {
            let n: usize = points.len();
            let i: usize = batch[n];
            assert(sendable(self.requests@[batch@[n as int] as int]));
            assert(request_ok(self.requests@[i as int], self.config, self.prefix.entries@));
            let at: u32 = self.requests[i].publish_point(self.config.kv_page_tokens);
            let taken: bool = self.is_head_taken(batch, &points, at);
            points.push(
                if taken {
                    0
                } else {
                    at
                },
            );
        }
        points
    }

    /// Whether a member before the next one publishes the same head at `at`.
    fn is_head_taken(&self, batch: &Vec<usize>, points: &Vec<u32>, at: u32) -> (taken: bool)
        requires
            self.wf(),
            self.batch_ready(batch@, 0),
            points@.len() < batch@.len(),
            at <= self.requests@[batch@[points@.len() as int] as int].input.tokens@.len(),
            forall|n: int|
                0 <= n < points@.len() ==> #[trigger] points@[n]
                    <= self.requests@[batch@[n] as int].publish_tokens,
        ensures
            taken == head_is_taken(self.requests@, batch@, points@, points@.len() as int, at),
    {
        if at == 0 {
            return false;
        }
        assert(sendable(self.requests@[batch@[points@.len() as int] as int]));
        let key: MatchKey = self.head_key(batch[points.len()], at);
        let mut m: usize = 0;
        while m < points.len()
            invariant
                self.wf(),
                self.batch_ready(batch@, 0),
                points@.len() < batch@.len(),
                m <= points@.len(),
                at > 0,
                key == head_of(
                    self.requests@[batch@[points@.len() as int] as int],
                    at as int,
                ),
                forall|n: int|
                    0 <= n < points@.len() ==> #[trigger] points@[n]
                        <= self.requests@[batch@[n] as int].publish_tokens,
                forall|n: int|
                    0 <= n < m ==> !(#[trigger] points@[n] == at && head_of(
                        self.requests@[batch@[n] as int],
                        at as int,
                    ) == key),
            decreases points@.len() - m,
        {
            if points[m] == at {
                assert(sendable(self.requests@[batch@[m as int] as int]));
                assert(request_ok(
                    self.requests@[batch@[m as int] as int],
                    self.config,
                    self.prefix.entries@,
                ));
                if self.head_key(batch[m], at) == key {
                    assert(points@[m as int] == at);
                    return true;
                }
            }
            m = m + 1;
        }
        false
    }

    /// Where the request captures a checkpoint, publishing at `publish_at`.
    fn capture_point(&self, i: usize, publish_at: u32) -> (point: u32)
        requires
            self.wf(),
            i < self.requests@.len(),
            publish_at <= self.requests@[i as int].publish_tokens,
        ensures
            point == capture_plan(
                self.config,
                self.checkpoints,
                self.requests@[i as int],
                publish_at,
            ),
            point <= self.requests@[i as int].input.tokens@.len(),
            point == 0 || point >= publish_at,
    {
        let r = &self.requests[i];
        assert(request_ok(self.requests@[i as int], self.config, self.prefix.entries@));
        if !self.config.prompt_reuse || r.input.is_decision() {
            return 0;
        }
        let own: u32 = r.checkpoint_point(self.config.kv_page_tokens);
        let rides: bool = publish_at > 0 && !r.checkpoint_captured && match r.input.opener_tokens {
            Some(opener) => opener == publish_at,
            None => false,
        };
        let at: u32 = if own != 0 {
            own
        } else if rides {
            publish_at
        } else {
            0
        };
        if at == 0 {
            return 0;
        }
        let head: MatchKey = self.head_key(i, at);
        if self.checkpoints.holds(head) {
            0
        } else {
            at
        }
    }

    /// Where each of the batch captures a checkpoint.
    fn capture_points(&self, batch: &Vec<usize>, publish: &Vec<u32>) -> (points: Vec<u32>)
        requires
            self.wf(),
            self.batch_ready(batch@, 0),
            publish@.len() == batch@.len(),
            forall|n: int|
                0 <= n < batch@.len() ==> #[trigger] publish@[n]
                    <= self.requests@[batch@[n] as int].publish_tokens,
        ensures
            points@.len() == batch@.len(),
            forall|n: int|
                0 <= n < batch@.len() ==> #[trigger] points@[n] == capture_plan(
                    self.config,
                    self.checkpoints,
                    self.requests@[batch@[n] as int],
                    publish@[n],
                ),
            forall|n: int|
                0 <= n < batch@.len() ==> #[trigger] points@[n]
                    <= self.requests@[batch@[n] as int].input.tokens@.len(),
            forall|n: int|
                0 <= n < batch@.len() ==> #[trigger] points@[n] == 0 || points@[n] >= publish@[n],
    {
        let mut points: Vec<u32> = Vec::new();
        while points.len() < batch.len()
            invariant
                self.wf(),
                self.batch_ready(batch@, 0),
                publish@.len() == batch@.len(),
                points@.len() <= batch@.len(),
                forall|n: int|
                    0 <= n < batch@.len() ==> #[trigger] publish@[n]
                        <= self.requests@[batch@[n] as int].publish_tokens,
                forall|n: int|
                    0 <= n < points@.len() ==> #[trigger] points@[n] == capture_plan(
                        self.config,
                        self.checkpoints,
                        self.requests@[batch@[n] as int],
                        publish@[n],
                    ),
                forall|n: int|
                    0 <= n < points@.len() ==> #[trigger] points@[n]
                        <= self.requests@[batch@[n] as int].input.tokens@.len(),
                forall|n: int|
                    0 <= n < points@.len() ==> #[trigger] points@[n] == 0 || points@[n]
                        >= publish@[n],
            decreases batch@.len() - points@.len(),
        {
            let n: usize = points.len();
            assert(sendable(self.requests@[batch@[n as int] as int]));
            let point: u32 = self.capture_point(batch[n], publish[n]);
            points.push(point);
        }
        points
    }

    /// `plan` is what became of a chunk's wish to publish and to capture.
    /// Retained state gives up a slot for either before it is refused one.
    #[verifier::opaque]
    pub open spec fn took_slots(
        self,
        before: Self,
        i: int,
        publish_at: u32,
        capture_at: u32,
        asked: u32,
        plan: ChunkPlan,
        first: Seq<SchedEvent>,
        last: Seq<SchedEvent>,
    ) -> bool {
        let r = before.requests@[i];
        let start = r.prefill_progress;
        let take = chunk(r, before.config.serving_chunk_tokens) as u32;
        let publishing = reaches(start, take, publish_at);
        let wanted = if publishing && plan.publish is None && capture_at == publish_at {
            0
        } else {
            capture_at
        };
        let capturing = reaches(start, cut(start, take, plan.publish_at) as u32, wanted);
        &&& self.only_retention_moved(before)
        &&& grew(first, last)
        &&& settles(r, before.config, publish_at, capture_at, plan)
        &&& exists|published: Self, until: Seq<SchedEvent>| #[trigger]
            published.sought_publish(before, r.id, publishing, publish_at, plan.publish, first, until)
                && self.sought_capture(
                published,
                r.id,
                capturing,
                wanted,
                asked,
                plan.capture,
                until,
                last,
            )
    }

    /// A slot was sought for the head a chunk publishes, if it does; where none
    /// was to be had the request hears of it.
    pub open spec fn sought_publish(
        self,
        before: Self,
        request: RequestId,
        publishing: bool,
        at: u32,
        publish: Option<RetainedAt>,
        first: Seq<SchedEvent>,
        last: Seq<SchedEvent>,
    ) -> bool {
        let holder = RetainedHolder::Prefix { publisher: request, tokens: at };
        if publishing {
            exists|slot: Option<u32>, told: Seq<SchedEvent>| #[trigger]
                self.sought_slot(before, holder, slot, first, told) && match slot {
                    Some(slot) => publish == Some(RetainedAt { tokens: at, slot }) && last == told,
                    None => publish is None && last == self.skip_told(
                        told,
                        request,
                        RetainedSkip::PublishNoSlot,
                    ),
                }
        } else {
            publish is None && self == before && last == first
        }
    }

    /// A slot was sought for the checkpoint a chunk captures, if it does and the
    /// pool has a page for its tail; where either was not to be had the request
    /// hears of it.
    pub open spec fn sought_capture(
        self,
        before: Self,
        request: RequestId,
        capturing: bool,
        at: u32,
        asked: u32,
        capture: Option<RetainedAt>,
        first: Seq<SchedEvent>,
        last: Seq<SchedEvent>,
    ) -> bool {
        let holder = RetainedHolder::Checkpoint { publisher: request };
        let tail = if at % before.config.kv_page_tokens != 0 { 1int } else { 0 };
        if !capturing {
            capture is None && self == before && last == first
        } else if before.kv_used_pages + asked + tail > before.capacity.kv_pages {
            capture is None && self == before && last == before.skip_told(
                first,
                request,
                RetainedSkip::CaptureNoPage,
            )
        } else {
            exists|slot: Option<u32>, told: Seq<SchedEvent>| #[trigger]
                self.sought_slot(before, holder, slot, first, told) && match slot {
                    Some(slot) => capture == Some(RetainedAt { tokens: at, slot }) && last == told,
                    None => capture is None && last == self.skip_told(
                        told,
                        request,
                        RetainedSkip::CaptureNoSlot,
                    ),
                }
        }
    }

    /// The pages the captures of the first `n` plans will take.
    pub open spec fn asked_by(self, plans: Seq<ChunkPlan>, n: int) -> int
        decreases n,
    {
        if n <= 0 {
            0
        } else {
            crate::checkpoint::sat_u32(
                self.asked_by(plans, n - 1) + if plans[n - 1].capture is Some
                    && plans[n - 1].capture_at % self.config.kv_page_tokens != 0 {
                    1int
                } else {
                    0
                },
            )
        }
    }

    /// The first `n` of the batch took the slots their chunks need, one after
    /// the other.
    pub open spec fn slots_taken(
        self,
        before: Self,
        batch: Seq<usize>,
        plans: Seq<ChunkPlan>,
        n: int,
        first: Seq<SchedEvent>,
        last: Seq<SchedEvent>,
    ) -> bool
        decreases n,
    {
        if n <= 0 {
            self == before && last == first
        } else {
            exists|middle: Self, until: Seq<SchedEvent>|
                middle.slots_taken(before, batch, plans, n - 1, first, until)
                    && #[trigger] self.took_slots(
                    middle,
                    batch[n - 1] as int,
                    before.wished_publish(batch, n - 1),
                    before.wished_capture(batch, n - 1),
                    before.asked_by(plans, n - 1) as u32,
                    plans[n - 1],
                    until,
                    last,
                )
        }
    }

    /// Where the `n`-th of the batch wishes to publish.
    pub open spec fn wished_publish(self, batch: Seq<usize>, n: int) -> u32 {
        publish_plan(
            self.requests@,
            batch,
            self.config.kv_page_tokens,
            batch.len() as int,
        )[n]
    }

    /// Where the `n`-th of the batch wishes to capture.
    pub open spec fn wished_capture(self, batch: Seq<usize>, n: int) -> u32 {
        capture_plan(
            self.config,
            self.checkpoints,
            self.requests@[batch[n] as int],
            self.wished_publish(batch, n),
        ) as u32
    }

    proof fn slots_taken_on(
        self,
        middle: Self,
        before: Self,
        batch: Seq<usize>,
        was: Seq<ChunkPlan>,
        plan: ChunkPlan,
        first: Seq<SchedEvent>,
        until: Seq<SchedEvent>,
        last: Seq<SchedEvent>,
    )
        requires
            middle.slots_taken(before, batch, was, was.len() as int, first, until),
            self.took_slots(
                middle,
                batch[was.len() as int] as int,
                before.wished_publish(batch, was.len() as int),
                before.wished_capture(batch, was.len() as int),
                before.asked_by(was, was.len() as int) as u32,
                plan,
                until,
                last,
            ),
        ensures
            self.slots_taken(before, batch, was.push(plan), was.len() as int + 1, first, last),
    {
        let n = was.len() as int;
        let plans = was.push(plan);
        before.same_asked(was, plans, n);
        middle.same_slots_taken(before, batch, was, plans, n, first, until);
        let m = n + 1;
        assert(self.took_slots(
            middle,
            batch[m - 1] as int,
            before.wished_publish(batch, m - 1),
            before.wished_capture(batch, m - 1),
            before.asked_by(plans, m - 1) as u32,
            plans[m - 1],
            until,
            last,
        ));
    }

    proof fn same_asked(self, a: Seq<ChunkPlan>, b: Seq<ChunkPlan>, n: int)
        requires
            n <= a.len(),
            n <= b.len(),
            forall|k: int| 0 <= k < n ==> #[trigger] a[k] == b[k],
        ensures
            self.asked_by(a, n) == self.asked_by(b, n),
        decreases n,
    {
        if n > 0 {
            self.same_asked(a, b, n - 1);
            assert(a[n - 1] == b[n - 1]);
        }
    }

    proof fn same_slots_taken(
        self,
        before: Self,
        batch: Seq<usize>,
        a: Seq<ChunkPlan>,
        b: Seq<ChunkPlan>,
        n: int,
        first: Seq<SchedEvent>,
        last: Seq<SchedEvent>,
    )
        requires
            self.slots_taken(before, batch, a, n, first, last),
            n <= a.len(),
            n <= b.len(),
            forall|k: int| 0 <= k < n ==> #[trigger] a[k] == b[k],
        ensures
            self.slots_taken(before, batch, b, n, first, last),
        decreases n,
    {
        if n > 0 {
            let (middle, until) = choose|middle: Self, until: Seq<SchedEvent>|
                middle.slots_taken(before, batch, a, n - 1, first, until)
                    && #[trigger] self.took_slots(
                    middle,
                    batch[n - 1] as int,
                    before.wished_publish(batch, n - 1),
                    before.wished_capture(batch, n - 1),
                    before.asked_by(a, n - 1) as u32,
                    a[n - 1],
                    until,
                    last,
                );
            middle.same_slots_taken(before, batch, a, b, n - 1, first, until);
            before.same_asked(a, b, n - 1);
            assert(a[n - 1] == b[n - 1]);
            assert(self.took_slots(
                middle,
                batch[n - 1] as int,
                before.wished_publish(batch, n - 1),
                before.wished_capture(batch, n - 1),
                before.asked_by(b, n - 1) as u32,
                b[n - 1],
                until,
                last,
            ));
        }
    }

    /// Take the slots the request's chunk needs. `asked` counts the pages the
    /// captures before it in the batch will take.
    fn take_chunk_slots(
        &mut self,
        i: usize,
        publish_at: u32,
        capture_at: u32,
        asked: u32,
        events: &mut Vec<SchedEvent>,
    ) -> (plan: ChunkPlan)
        requires
            old(self).wf(),
            i < old(self).requests@.len(),
        ensures
            final(self).wf(),
            final(self).only_retention_moved(*old(self)),
            grew(old(events)@, final(events)@),
            old(self).requests@[i as int].state != RequestState::Done ==> spared(
                old(self).requests@,
                old(events)@,
                final(events)@,
            ),
            settles(
                old(self).requests@[i as int],
                old(self).config,
                publish_at,
                capture_at,
                plan,
            ),
            final(self).took_slots(
                *old(self),
                i as int,
                publish_at,
                capture_at,
                asked,
                plan,
                old(events)@,
                final(events)@,
            ),
    {
        reveal(ConcreteScheduler::took_slots);
        let ghost before = *self;
        let ghost first_events = events@;
        assert(request_ok(self.requests@[i as int], self.config, self.prefix.entries@));
        let request: RequestId = self.requests[i].id;
        let start: u32 = self.requests[i].prefill_progress;
        let take: u32 = chunk_take(&self.requests[i], self.config.serving_chunk_tokens);
        let mut plan = ChunkPlan { publish_at, capture_at, publish: None, capture: None };
        if lands_on(start, take, publish_at) {
            let holder = RetainedHolder::Prefix { publisher: request, tokens: publish_at };
            match self.take_retained_slot(holder, events) {
                Some(slot) => {
                    plan.publish = Some(RetainedAt { tokens: publish_at, slot });
                },
                None => {
                    plan.publish_at = 0;
                    if capture_at == publish_at {
                        plan.capture_at = 0;
                    }
                    self.skip_retained(request, RetainedSkip::PublishNoSlot, events);
                },
            }
        }
        let ghost published = *self;
        let ghost half_way = events@;
        let width: u32 = cut_at(start, take, plan.publish_at);
        if lands_on(start, width, plan.capture_at) {
            let wanted: u32 = plan.capture_at;
            let tail: u32 = self.tail_pages_at(wanted);
            let short: bool = self.kv_used_pages as u64 + asked as u64 + tail as u64
                > self.capacity.kv_pages as u64;
            let slot: Option<u32> = if short {
                None
            } else {
                self.take_retained_slot(RetainedHolder::Checkpoint { publisher: request }, events)
            };
            match slot {
                Some(slot) => {
                    plan.capture = Some(RetainedAt { tokens: wanted, slot });
                },
                None => {
                    plan.capture_at = 0;
                    let why = if short {
                        RetainedSkip::CaptureNoPage
                    } else {
                        RetainedSkip::CaptureNoSlot
                    };
                    self.skip_retained(request, why, events);
                },
            }
        }
        proof {
            assert(grew(half_way, events@));
            if before.requests@[i as int].state != RequestState::Done {
                assert forall|k: int| first_events.len() <= k < events@.len() implies spares(
                    before.requests@,
                    #[trigger] events@[k],
                ) by {
                    spares_all_but(before.requests@, before.next_id, i as int, events@[k]);
                }
            }
            assert(published.sought_publish(
                before,
                request,
                reaches(start, take, publish_at),
                publish_at,
                plan.publish,
                first_events,
                half_way,
            ));
            let wanted = if reaches(start, take, publish_at) && plan.publish is None && capture_at
                == publish_at {
                0
            } else {
                capture_at
            };
            assert(self.sought_capture(
                published,
                request,
                reaches(start, cut(start, take, plan.publish_at) as u32, wanted),
                wanted,
                asked,
                plan.capture,
                half_way,
                events@,
            ));
            assert(take == chunk(
                before.requests@[i as int],
                before.config.serving_chunk_tokens,
            ) as u32);
            assert(self.took_slots(
                before,
                i as int,
                publish_at,
                capture_at,
                asked,
                plan,
                first_events,
                events@,
            ));
        }
        plan
    }

    /// Settle what each chunk of the batch publishes and captures.
    pub(crate) fn plan_chunks(&mut self, batch: &Vec<usize>, events: &mut Vec<SchedEvent>) -> (
        plans: Vec<ChunkPlan>)
        requires
            old(self).wf(),
            old(self).batch_ready(batch@, 0),
        ensures
            final(self).wf(),
            final(self).only_retention_moved(*old(self)),
            grew(old(events)@, final(events)@),
            spared(old(self).requests@, old(events)@, final(events)@),
            plans@.len() == batch@.len(),
            forall|n: int|
                0 <= n < batch@.len() ==> old(self).settles_wish(batch@, n, #[trigger] plans@[n]),
            final(self).slots_taken(
                *old(self),
                batch@,
                plans@,
                batch@.len() as int,
                old(events)@,
                final(events)@,
            ),
            forall|n: int|
                0 <= n < batch@.len() ==> lands_exactly(
                    final(self).requests@[batch@[n] as int],
                    final(self).config,
                    #[trigger] plans@[n],
                ),
    {
        let ghost before = *self;
        let ghost first_events = events@;
        let publish = self.publish_points(batch);
        let capture = self.capture_points(batch, &publish);
        let mut plans: Vec<ChunkPlan> = Vec::new();
        let mut asked: u32 = 0;
        while plans.len() < batch.len()
            invariant
                self.slots_taken(
                    before,
                    batch@,
                    plans@,
                    plans@.len() as int,
                    first_events,
                    events@,
                ),
                asked == before.asked_by(plans@, plans@.len() as int),
                before == *old(self),
                first_events == old(events)@,
                self.wf(),
                self.only_retention_moved(before),
                grew(first_events, events@),
                spared(before.requests@, first_events, events@),
                before.wf(),
                before.batch_ready(batch@, 0),
                plans@.len() <= batch@.len(),
                publish@.len() == batch@.len(),
                capture@.len() == batch@.len(),
                publish@ == publish_plan(
                    before.requests@,
                    batch@,
                    before.config.kv_page_tokens,
                    batch@.len() as int,
                ),
                forall|n: int|
                    0 <= n < batch@.len() ==> #[trigger] capture@[n] == capture_plan(
                        before.config,
                        before.checkpoints,
                        before.requests@[batch@[n] as int],
                        publish@[n],
                    ),
                forall|n: int|
                    0 <= n < batch@.len() ==> #[trigger] capture@[n]
                        <= before.requests@[batch@[n] as int].input.tokens@.len(),
                forall|n: int|
                    0 <= n < batch@.len() ==> #[trigger] publish@[n]
                        <= before.requests@[batch@[n] as int].publish_tokens,
                forall|n: int|
                    0 <= n < batch@.len() ==> #[trigger] capture@[n] == 0 || capture@[n]
                        >= publish@[n],
                forall|n: int|
                    0 <= n < plans@.len() ==> before.settles_wish(batch@, n, #[trigger] plans@[n]),
                forall|n: int|
                    0 <= n < plans@.len() ==> lands_exactly(
                        before.requests@[batch@[n] as int],
                        before.config,
                        #[trigger] plans@[n],
                    ),
            decreases batch@.len() - plans@.len(),
        {
            let n: usize = plans.len();
            let i: usize = batch[n];
            assert(sendable(before.requests@[batch@[n as int] as int]));
            let ghost middle = *self;
            let ghost until = events@;
            let plan = self.take_chunk_slots(i, publish[n], capture[n], asked, events);
            proof {
                spared_on(before.requests@, middle.requests@, first_events, until, events@);
                self.slots_taken_on(
                    middle,
                    before,
                    batch@,
                    plans@,
                    plan,
                    first_events,
                    until,
                    events@,
                );
                before.same_asked(plans@, plans@.push(plan), plans@.len() as int);
            }
            if plan.capture.is_some() {
                asked = asked.saturating_add(self.tail_pages_at(plan.capture_at));
            }
            proof {
                let r = before.requests@[i as int];
                assert(request_ok(r, before.config, before.prefix.entries@));
                chunk_is_bounded(r, before.config.serving_chunk_tokens);
                a_slot_is_taken_for_the_chunk_that_lands(
                    r,
                    before.config,
                    publish@[n as int],
                    capture@[n as int],
                    plan,
                );
            }
            plans.push(plan);
        }
        plans
    }

    /// `plan` is what became of what the `n`-th of the batch wished.
    pub open spec fn settles_wish(self, batch: Seq<usize>, n: int, plan: ChunkPlan) -> bool {
        let r = self.requests@[batch[n] as int];
        let publish_at = publish_plan(
            self.requests@,
            batch,
            self.config.kv_page_tokens,
            batch.len() as int,
        )[n];
        settles(
            r,
            self.config,
            publish_at,
            capture_plan(self.config, self.checkpoints, r, publish_at) as u32,
            plan,
        )
    }

    /// The jobs of the batch.
    pub(crate) fn prefill_jobs(&self, batch: &Vec<usize>, plans: &Vec<ChunkPlan>) -> (jobs: Vec<
        PrefillJob,
    >)
        requires
            self.wf(),
            self.batch_ready(batch@, 0),
            plans@.len() == batch@.len(),
        ensures
            jobs@.len() == batch@.len(),
            forall|n: int|
                0 <= n < batch@.len() ==> is_prefill_job(
                    #[trigger] jobs@[n],
                    self.requests@[batch@[n] as int],
                    self.config,
                    plans@[n],
                ),
    {
        let mut jobs: Vec<PrefillJob> = Vec::new();
        while jobs.len() < batch.len()
            invariant
                self.wf(),
                self.batch_ready(batch@, 0),
                plans@.len() == batch@.len(),
                jobs@.len() <= batch@.len(),
                forall|n: int|
                    0 <= n < jobs@.len() ==> is_prefill_job(
                        #[trigger] jobs@[n],
                        self.requests@[batch@[n] as int],
                        self.config,
                        plans@[n],
                    ),
            decreases batch@.len() - jobs@.len(),
        {
            let n: usize = jobs.len();
            assert(sendable(self.requests@[batch@[n as int] as int]));
            assert(request_ok(
                self.requests@[batch@[n as int] as int],
                self.config,
                self.prefix.entries@,
            ));
            jobs.push(prefill_job(&self.requests[batch[n]], &self.config, &plans[n]));
        }
        jobs
    }
}

/// The chunk ends exactly where it publishes and where it captures.
pub open spec fn lands_exactly(r: Request, config: SchedulerConfig, plan: ChunkPlan) -> bool {
    let end = r.prefill_progress + job_width(r, config, plan);
    &&& plan.publish matches Some(p) ==> end == p.tokens
    &&& plan.capture matches Some(c) ==> end == c.tokens
}

/// A chunk stays within the prompt and the serving width.
pub proof fn chunk_is_bounded(r: Request, serving_chunk: u32)
    requires
        r.prefill_progress <= r.input.tokens@.len() <= u32::MAX,
    ensures
        0 <= chunk(r, serving_chunk) <= serving_chunk,
        r.prefill_progress + chunk(r, serving_chunk) <= r.input.tokens@.len(),
        serving_chunk > 0 && r.prefill_progress < r.input.tokens@.len() ==> chunk(r, serving_chunk)
            > 0,
{
    let remaining = r.input.tokens@.len() - r.prefill_progress;
    let width = if remaining < serving_chunk { remaining } else { serving_chunk as int };
    if let Some(m) = r.input.multimodal {
        crate::types::second_item_is_ahead(
            m.media@,
            r.prefill_progress as int,
            r.prefill_progress + width,
            0,
        );
    }
}

} // verus!
