//! The scheduler over a mock backend: admission, prefill, decode, reuse, and
//! the host tier.

use ignis_core::checkpoint::{RetainedStateOperation, ReuseSource};
use ignis_core::concrete::ConcreteScheduler;
use ignis_core::constrained::{Draw, Schedule};
use ignis_core::decision::Readout;
use ignis_core::gdn::GdnState;
use ignis_core::host::{HostEntry, ResumePhase, RetainedBlob, RetainedKvRamEntry, Tier};
use ignis_core::identity::{ArtifactHash, BlobIdentity, KvFormat, MediaKey};
use ignis_core::plan::{resolve_serving_chunk_tokens, SchedulerConfig};
use ignis_core::retained_slot::RetainedSkip;
use ignis_core::scheduler::{
    CheckpointClaim, Clock, Compute, DecodeJob, DecodeOutcome, PrefillJob, PrefillOutcome,
    RetainedAt, SharedPrefixClaim, SystemClock,
};
use ignis_core::types::{
    AttentionRead, AttentionScores, ComputeError, DecisionRead, DecodeParams, EngineMode,
    FinishReason, MultimodalInput, RequestClass, RequestId, RequestInput, RequestState, SchedEvent,
    SpecStats, SubmitError, TokenId,
};
use std::sync::{Arc, Mutex};

/// What a prefill step was asked for, flattened.
#[derive(Debug, Clone, PartialEq)]
struct SeenPrefill {
    request: RequestId,
    tokens: Vec<TokenId>,
    start: u32,
    context: u32,
    shared_prefix: Option<SharedPrefixClaim>,
    publish: Option<RetainedAt>,
    checkpoint: Option<CheckpointClaim>,
    capture: Option<RetainedAt>,
    readout: Option<Vec<TokenId>>,
    permitted: Option<Vec<TokenId>>,
    attention: bool,
    max_tokens: Option<u32>,
    seed: u64,
}

/// What a decode step was asked for, flattened.
#[derive(Debug, Clone, PartialEq)]
struct SeenDecode {
    request: RequestId,
    lane: usize,
    remaining: u32,
    permitted: Option<Vec<TokenId>>,
}

#[derive(Debug, Clone, Copy, PartialEq)]
enum Blob {
    Snapshot(RequestId),
    Checkpoint(RequestId),
    Prefix(RequestId, u32),
}

#[derive(Default)]
struct Inner {
    arena: Vec<Option<Blob>>,
    prefills: Vec<Vec<SeenPrefill>>,
    decodes: Vec<Vec<SeenDecode>>,
    released: Vec<RequestId>,
    fail_prefill: Vec<ComputeError>,
    fail_decode: Vec<ComputeError>,
    fail_restore: bool,
    skip_readout: bool,
    refuse_capture: bool,
    /// Tokens each decode round commits, and why it finishes.
    rounds: Vec<(Vec<TokenId>, Option<FinishReason>)>,
    snapshot_bytes: u64,
}

/// A backend that answers from a script.
struct MockCompute {
    inner: Mutex<Inner>,
}

impl MockCompute {
    fn with_host_arena(bytes: usize) -> MockCompute {
        MockCompute {
            inner: Mutex::new(Inner {
                arena: vec![None; bytes],
                snapshot_bytes: 1,
                ..Inner::default()
            }),
        }
    }

    fn new() -> MockCompute {
        MockCompute::with_host_arena(64)
    }

    fn host_arena_used(&self) -> u64 {
        let inner = self.inner.lock().unwrap();
        inner.arena.iter().filter(|b| b.is_some()).count() as u64
    }

    fn span(inner: &Inner, bytes: u64) -> Option<usize> {
        let n = bytes as usize;
        if n > inner.arena.len() {
            return None;
        }
        (0..=inner.arena.len() - n).find(|&at| inner.arena[at..at + n].iter().all(|b| b.is_none()))
    }

    fn put(&self, blob: Blob) -> Result<u64, ComputeError> {
        let mut inner = self.inner.lock().unwrap();
        let bytes = inner.snapshot_bytes;
        match MockCompute::span(&inner, bytes) {
            None => Err(ComputeError::Kernel(-2)),
            Some(at) => {
                for slot in inner.arena[at..at + bytes as usize].iter_mut() {
                    *slot = Some(blob);
                }
                Ok(bytes)
            }
        }
    }

    fn drop_blob(&self, blob: Blob) {
        let mut inner = self.inner.lock().unwrap();
        for slot in inner.arena.iter_mut() {
            if *slot == Some(blob) {
                *slot = None;
            }
        }
    }

    fn prefills(&self) -> Vec<Vec<SeenPrefill>> {
        self.inner.lock().unwrap().prefills.clone()
    }

    fn decodes(&self) -> Vec<Vec<SeenDecode>> {
        self.inner.lock().unwrap().decodes.clone()
    }
}

impl Compute for MockCompute {
    fn blob_identity(&self) -> BlobIdentity {
        BlobIdentity::of_load(ArtifactHash::from_bytes([7; 32]), KvFormat::Bf16, None, 2)
    }

    fn prefill_step(&self, jobs: &Vec<PrefillJob>) -> Result<Vec<PrefillOutcome>, ComputeError> {
        let mut inner = self.inner.lock().unwrap();
        inner.prefills.push(
            jobs.iter()
                .map(|j| SeenPrefill {
                    request: j.request,
                    tokens: j.tokens.clone(),
                    start: j.start_position,
                    context: j.context_tokens,
                    shared_prefix: j.shared_prefix,
                    publish: j.publish_prefix,
                    checkpoint: j.checkpoint,
                    capture: j.capture_checkpoint,
                    readout: j.readout.clone(),
                    permitted: j.permitted.clone(),
                    attention: j.attention.is_some(),
                    max_tokens: j.params.max_tokens,
                    seed: j.params.seed,
                })
                .collect(),
        );
        if !inner.fail_prefill.is_empty() {
            return Err(inner.fail_prefill.remove(0));
        }
        let skip = inner.skip_readout;
        let captured = !inner.refuse_capture;
        Ok(jobs
            .iter()
            .map(|j| PrefillOutcome {
                readout: if skip {
                    None
                } else {
                    j.readout.as_ref().map(|answers| Readout {
                        logit_bits: answers.iter().map(|_| 0x3f80_0000).collect(),
                        full_log_sum_exp_bits: 0,
                        full_argmax: 1,
                    })
                },
                attention: if skip {
                    None
                } else {
                    j.attention.as_ref().map(|a| AttentionScores {
                        score_bits: a.positions.clone(),
                    })
                },
                checkpoint_captured: captured && j.capture_checkpoint.is_some(),
                restore_micros: 11,
                encode_micros: 22,
            })
            .collect())
    }

    fn decode_step(&self, jobs: &Vec<DecodeJob>) -> Result<Vec<DecodeOutcome>, ComputeError> {
        let mut inner = self.inner.lock().unwrap();
        inner.decodes.push(
            jobs.iter()
                .map(|j| SeenDecode {
                    request: j.request,
                    lane: j.lane,
                    remaining: j.remaining_tokens,
                    permitted: j.permitted.clone(),
                })
                .collect(),
        );
        if !inner.fail_decode.is_empty() {
            return Err(inner.fail_decode.remove(0));
        }
        let (tokens, finish) = if inner.rounds.is_empty() {
            (vec![42], None)
        } else {
            inner.rounds.remove(0)
        };
        Ok(jobs
            .iter()
            .map(|_| DecodeOutcome {
                tokens: tokens.clone(),
                probability_bits: tokens.iter().map(|_| 0x3f00_0000).collect(),
                finish,
                spec: Some(SpecStats { drafted: 2, accepted: 1 }),
            })
            .collect())
    }

    fn release(&self, request: RequestId) {
        self.inner.lock().unwrap().released.push(request);
    }

    fn snapshot_size(&self, _request: RequestId) -> Result<u64, ComputeError> {
        Ok(self.inner.lock().unwrap().snapshot_bytes)
    }

    fn evict(&self, request: RequestId) -> Result<u64, ComputeError> {
        self.put(Blob::Snapshot(request))
    }

    fn restore(&self, request: RequestId, _context_tokens: u32) -> Result<(), ComputeError> {
        let failing = self.inner.lock().unwrap().fail_restore;
        self.drop_blob(Blob::Snapshot(request));
        if failing {
            Err(ComputeError::Kernel(-3))
        } else {
            Ok(())
        }
    }

    fn discard_snapshot(&self, request: RequestId) {
        self.drop_blob(Blob::Snapshot(request));
    }

    fn host_blob_fits(&self, bytes: u64) -> bool {
        MockCompute::span(&self.inner.lock().unwrap(), bytes).is_some()
    }

    fn release_prefix(&self, _publisher: RequestId, _tokens: u32) {}

    fn release_checkpoint(&self, publisher: RequestId) {
        self.drop_blob(Blob::Checkpoint(publisher));
    }

    fn prefix_snapshot_size(&self, _publisher: RequestId, _tokens: u32) -> Result<u64, ComputeError> {
        Ok(self.inner.lock().unwrap().snapshot_bytes)
    }

    fn spill_prefix(&self, publisher: RequestId, tokens: u32) -> Result<u64, ComputeError> {
        self.put(Blob::Prefix(publisher, tokens))
    }

    fn discard_spilled_prefix(&self, publisher: RequestId, tokens: u32) {
        self.drop_blob(Blob::Prefix(publisher, tokens));
    }

    fn restore_prefix(
        &self,
        _publisher: RequestId,
        _tokens: u32,
        _slot: u32,
    ) -> Result<(), ComputeError> {
        Ok(())
    }

    fn checkpoint_snapshot_size(&self, _publisher: RequestId) -> Result<u64, ComputeError> {
        Ok(self.inner.lock().unwrap().snapshot_bytes)
    }

    fn spill_checkpoint(&self, publisher: RequestId) -> Result<u64, ComputeError> {
        self.put(Blob::Checkpoint(publisher))
    }
}

/// A clock that stands still.
struct StillClock;

impl Clock for StillClock {
    fn now(&self) -> u64 {
        1_000
    }
}

type Sched = ConcreteScheduler<MockCompute, SystemClock>;

fn entry(request: RequestId, bytes: u64, owner: RequestClass, tick: u64) -> HostEntry {
    let mut gdn = GdnState::new();
    gdn.checkpoint(0);
    HostEntry {
        request,
        resume_phase: ResumePhase::Running,
        lane: Some(0),
        owner,
        pages: 1,
        bytes,
        tokens: 0,
        prefill_progress: 0,
        remaining_work: 8,
        gdn,
        tier: Tier::Probation,
        use_tick: tick,
    }
}

fn three_blobs() -> (Sched, Arc<MockCompute>) {
    let compute = Arc::new(MockCompute::with_host_arena(4));
    let mut sched = ConcreteScheduler::<MockCompute, SystemClock>::with_config(
        SchedulerConfig { host_capacity_bytes: 4, ..SchedulerConfig::default() },
        compute.clone(),
    );
    for (request, owner) in [
        (1, RequestClass::Interactive),
        (2, RequestClass::Agent),
        (3, RequestClass::Interactive),
    ] {
        compute.evict(request).expect("the arena has room for a byte");
        sched
            .host
            .capture(entry(request, 1, owner, request))
            .expect("the tier has room for a byte");
    }
    assert_eq!(sched.host.used_bytes(), 3);
    assert_eq!(compute.host_arena_used(), 3);
    (sched, compute)
}

#[test]
fn making_room_keeps_going_until_a_hole_fits_not_until_the_bytes_do() {
    let (mut sched, compute) = three_blobs();
    let mut events = Vec::new();
    assert!(
        sched.make_host_room_for_bytes(2, &mut events),
        "two of the four bytes can be freed"
    );
    assert!(
        compute.host_blob_fits(2),
        "the loop stopped on free bytes, not on a free span"
    );
    assert_eq!(
        sched.host.used_bytes(),
        1,
        "and stopped at the first hole that fits, not by emptying the tier"
    );
    assert_eq!(
        sched.host.used_bytes(),
        compute.host_arena_used(),
        "the ledger and the arena agree after every step"
    );
}

#[test]
fn every_live_snapshot_the_tier_gives_up_raises_its_own_drop() {
    let (mut sched, _compute) = three_blobs();
    let mut events = Vec::new();
    assert!(sched.make_host_room_for_bytes(2, &mut events));
    let dropped: Vec<RequestId> = events
        .iter()
        .filter_map(|e| match e {
            SchedEvent::SnapshotDropped { request } => Some(*request),
            _ => None,
        })
        .collect();
    assert_eq!(
        dropped.len(),
        2,
        "the two blobs the tier gave up each raised a drop: {events:?}"
    );
    assert_eq!(sched.host.entry_count(), 1, "and only those two left");
}

#[test]
fn a_refused_blob_still_reports_what_the_tier_gave_up_trying() {
    let (mut sched, _compute) = three_blobs();
    let mut events = Vec::new();
    assert!(!sched.make_host_room_for_bytes(5, &mut events));
    let drops = events
        .iter()
        .filter(|e| matches!(e, SchedEvent::SnapshotDropped { .. }))
        .count();
    assert_eq!(drops, 3, "all three blobs left the tier: {events:?}");
}

#[test]
fn a_blob_no_victim_order_can_fit_leaves_the_tier_empty_and_refuses() {
    let (mut sched, compute) = three_blobs();
    let mut events = Vec::new();
    assert!(
        !sched.make_host_room_for_bytes(5, &mut events),
        "nothing the tier can give up makes a five-byte hole in a four-byte arena"
    );
    assert_eq!(sched.host.entry_count(), 0, "it gave up everything trying");
    assert_eq!(sched.host.used_bytes(), 0);
    assert_eq!(compute.host_arena_used(), 0, "and every blob went back to the arena");
}

fn three_retained_blobs() -> (Sched, Arc<MockCompute>) {
    let compute = Arc::new(MockCompute::with_host_arena(4));
    let mut sched = ConcreteScheduler::<MockCompute, SystemClock>::with_config(
        SchedulerConfig { host_capacity_bytes: 4, ..SchedulerConfig::default() },
        compute.clone(),
    );
    let used_at = sched.now();
    for (publisher, owner) in [
        (1, RequestClass::Interactive),
        (2, RequestClass::Agent),
        (3, RequestClass::Interactive),
    ] {
        compute
            .spill_checkpoint(publisher)
            .expect("the arena has room for a byte");
        sched
            .host
            .capture_retained(RetainedKvRamEntry::new(
                RetainedBlob::Checkpoint(publisher),
                publisher,
                owner,
                1,
                used_at,
            ))
            .expect("the tier has room for a byte");
    }
    assert_eq!(sched.host.used_bytes(), 3);
    assert_eq!(compute.host_arena_used(), 3);
    (sched, compute)
}

#[test]
fn a_retained_spill_keeps_taking_victims_until_one_of_the_holes_fits() {
    let (mut sched, compute) = three_retained_blobs();
    let used_at = sched.now();
    let mut events = Vec::new();
    assert!(
        sched.make_kv_ram_room_for_retained(2, RequestClass::Interactive, used_at, &mut events),
        "two of the four bytes belong to entries this newcomer outranks"
    );
    assert!(compute.host_blob_fits(2), "the spill has a span to be placed in");
    assert_eq!(sched.host.used_bytes(), 1, "and it took one more, not everything");
    assert_eq!(sched.host.used_bytes(), compute.host_arena_used());
}

#[test]
fn a_retained_spill_no_entry_below_it_can_place_does_not_happen() {
    let (mut sched, compute) = three_retained_blobs();
    let used_at = sched.now();
    let mut events = Vec::new();
    assert!(
        !sched.make_kv_ram_room_for_retained(2, RequestClass::Agent, used_at, &mut events),
        "a bet does not displace what the tier values more, however fragmented"
    );
    assert_eq!(
        sched.host.retained_count(),
        2,
        "the two it may not take are still there"
    );
    assert_eq!(sched.host.used_bytes(), compute.host_arena_used());
}

fn input(tokens: Vec<TokenId>, max_tokens: u32) -> RequestInput {
    RequestInput {
        model: "m".to_string(),
        tokens,
        params: DecodeParams { max_tokens: Some(max_tokens), seed: 9, ..DecodeParams::default() },
        multimodal: None,
        decision: None,
        constrained: None,
        opener_tokens: None,
        system_block_tokens: None,
        last_user_tokens: None,
    }
}

fn config() -> SchedulerConfig {
    SchedulerConfig { model: "m".to_string(), ..SchedulerConfig::default() }
}

fn scheduler(config: SchedulerConfig) -> (Sched, Arc<MockCompute>) {
    let compute = Arc::new(MockCompute::new());
    (ConcreteScheduler::<MockCompute, SystemClock>::with_config(config, compute.clone()), compute)
}

fn run_until_idle(sched: &mut Sched) -> Vec<SchedEvent> {
    let mut events = Vec::new();
    for _ in 0..200 {
        if sched.is_idle() {
            return events;
        }
        events.extend(sched.advance());
    }
    panic!("the scheduler never went idle: {events:?}");
}

fn tokens_of(events: &[SchedEvent], id: RequestId) -> Vec<TokenId> {
    events
        .iter()
        .filter_map(|e| match e {
            SchedEvent::Token { request, token } if *request == id => Some(*token),
            _ => None,
        })
        .collect()
}

fn reason_of(events: &[SchedEvent], id: RequestId) -> Option<FinishReason> {
    events.iter().find_map(|e| match e {
        SchedEvent::Done { request, reason, .. } if *request == id => Some(*reason),
        _ => None,
    })
}

#[test]
fn a_request_prefills_takes_a_lane_and_spends_its_budget() {
    let (mut sched, compute) = scheduler(config());
    let id = sched.submit(input((1..=20).collect(), 3), RequestClass::Interactive).unwrap();
    assert_eq!(sched.request_state(id), Some(RequestState::Admitted));
    assert_eq!(sched.mode(), EngineMode::Serving);
    let first = sched.advance();
    assert!(first.iter().any(|e| matches!(
        e,
        SchedEvent::PrefillChunk { request, chunk_tokens: 16, prefilled_tokens: 16, encode_micros: 22 }
            if *request == id
    )), "the head is published on its page: {first:?}");
    let second = sched.advance();
    assert!(second.iter().any(|e| matches!(
        e,
        SchedEvent::PrefillChunk { chunk_tokens: 4, prefilled_tokens: 20, .. }
    )));
    assert!(second.iter().any(|e| matches!(e, SchedEvent::Admitted { request, .. } if *request == id)));
    assert_eq!(sched.request_state(id), Some(RequestState::Running));
    assert_eq!(sched.kv_used_pages(), 2, "one page shared, one its own");
    let mut events = second;
    events.extend(run_until_idle(&mut sched));
    assert_eq!(tokens_of(&events, id), vec![42, 42, 42]);
    assert_eq!(reason_of(&events, id), Some(FinishReason::Length));
    assert_eq!(sched.request_state(id), Some(RequestState::Done));
    assert_eq!(sched.kv_used_pages(), 0, "everything it held came back");
    assert_eq!(sched.mode(), EngineMode::Idle);
    let seen = compute.prefills();
    assert_eq!(seen.len(), 2);
    assert_eq!(seen[0][0].tokens, (1..=16).collect::<Vec<_>>());
    assert_eq!(seen[0][0].seed, 0, "only the last chunk samples");
    assert_eq!(seen[1][0].seed, 9);
    assert_eq!(seen[0][0].max_tokens, Some(3));
    assert_eq!(seen[0][0].context, 23);
    assert_eq!(seen[0][0].publish.map(|p| p.tokens), Some(16));
    let decodes = compute.decodes();
    assert_eq!(decodes.iter().map(|d| d[0].remaining).collect::<Vec<_>>(), vec![3, 2, 1]);
    match events.iter().find(|e| matches!(e, SchedEvent::Done { .. })) {
        Some(SchedEvent::Done { tokens, spec, drawn, readout, .. }) => {
            assert_eq!(*tokens, 3);
            assert_eq!(*spec, Some(SpecStats { drafted: 6, accepted: 3 }));
            assert!(drawn.is_none(), "an unconstrained run reports no draws");
            assert!(readout.is_none());
        }
        other => panic!("no end was reported: {other:?}"),
    }
}

#[test]
fn a_submission_is_refused_for_each_reason() {
    let (mut sched, _compute) = scheduler(SchedulerConfig {
        max_in_flight: 1,
        max_sequence_tokens: 64,
        kv_capacity_pages: 2,
        ..config()
    });
    let mut other = input(vec![1], 1);
    other.model = "x".to_string();
    match sched.submit(other, RequestClass::Agent) {
        Err(SubmitError::UnknownModel(model)) => assert_eq!(model, "x"),
        other => panic!("{other:?}"),
    }
    match sched.submit(input((0..60).collect(), 10), RequestClass::Agent) {
        Err(SubmitError::ContextExceeded { requested, limit }) => {
            assert_eq!((requested, limit), (70, 64));
        }
        other => panic!("{other:?}"),
    }
    assert!(matches!(
        sched.submit(input((0..40).collect(), 10), RequestClass::Agent),
        Err(SubmitError::Oversized)
    ));
    let id = sched.submit(input(vec![1], 1), RequestClass::Agent).unwrap();
    assert!(matches!(
        sched.submit(input(vec![1], 1), RequestClass::Agent),
        Err(SubmitError::Full)
    ));
    run_until_idle(&mut sched);
    let next = sched.submit(input(vec![1], 1), RequestClass::Agent).unwrap();
    assert!(next > id, "an id is never given out twice");
}

#[test]
fn a_cancelled_request_is_let_go_at_the_next_advance() {
    let (mut sched, compute) = scheduler(config());
    let id = sched.submit(input((1..=20).collect(), 50), RequestClass::Interactive).unwrap();
    sched.advance();
    sched.advance();
    assert_eq!(sched.request_state(id), Some(RequestState::Running));
    assert!(sched.cancel(id));
    let rounds = compute.decodes().len();
    let events = sched.advance();
    assert_eq!(sched.request_state(id), Some(RequestState::Done));
    assert_eq!(reason_of(&events, id), None, "a cancelled request is not reported done");
    assert_eq!(compute.decodes().len(), rounds, "it is dealt no further round");
    assert_eq!(sched.kv_used_pages(), 0);
    assert!(!sched.cancel(id), "it is gone once");
    assert!(!sched.cancel(99), "and an unknown one was never there");
}

#[test]
fn a_cancelled_request_is_sent_nothing_and_named_nowhere() {
    let (mut sched, compute) = scheduler(config());
    let gone = sched.submit(input((1..=20).collect(), 50), RequestClass::Interactive).unwrap();
    let stays = sched.submit(input((41..=60).collect(), 50), RequestClass::Interactive).unwrap();
    sched.advance();
    let asked = compute.prefills().len();
    assert!(sched.cancel(gone));
    let events = sched.advance();
    assert_eq!(sched.request_state(gone), Some(RequestState::Done));
    for batch in &compute.prefills()[asked..] {
        assert!(batch.iter().all(|job| job.request != gone), "no chunk is sent for it");
    }
    assert!(compute.decodes().iter().flatten().all(|job| job.request != gone));
    assert!(!events.iter().any(|e| match e {
        SchedEvent::Admitted { request, .. }
        | SchedEvent::Token { request, .. }
        | SchedEvent::Done { request, .. }
        | SchedEvent::PrefillChunk { request, .. }
        | SchedEvent::PrefixReused { request, .. }
        | SchedEvent::StateReused { request, .. }
        | SchedEvent::RetainedSlotSkipped { request, .. }
        | SchedEvent::Evicted { request, .. }
        | SchedEvent::Restored { request, .. }
        | SchedEvent::Requeued { request }
        | SchedEvent::SnapshotDropped { request } => *request == gone,
        SchedEvent::Protected { head, donors, .. } => *head == gone || donors.contains(&gone),
        _ => false,
    }), "nothing names it: {events:?}");
    assert_ne!(sched.request_state(stays), Some(RequestState::Done));
}

#[test]
fn a_decision_holds_its_last_token_back_from_a_published_head() {
    let mut asked = input((1..=16).collect(), 1);
    assert_eq!(asked.publish_reach(), 16);
    asked.decision = Some(DecisionRead::Answers(vec![8, 9]));
    assert_eq!(asked.publish_reach(), 15);
}

#[test]
fn the_last_error_is_forgotten_by_an_advance_that_hits_none() {
    let (mut sched, compute) = scheduler(config());
    compute.inner.lock().unwrap().fail_prefill = vec![ComputeError::Kernel(5)];
    sched.submit(input((1..=20).collect(), 3), RequestClass::Interactive).unwrap();
    sched.advance();
    assert_eq!(sched.last_error(), Some(&ComputeError::Kernel(5)));
    sched.advance();
    assert_eq!(sched.last_error(), None);
}

#[test]
fn the_last_error_stands_until_the_next_advance() {
    let (mut sched, compute) = scheduler(config());
    assert_eq!(sched.last_error(), None);
    compute.inner.lock().unwrap().fail_prefill = vec![ComputeError::Kernel(5)];
    let id = sched.submit(input((1..=20).collect(), 3), RequestClass::Interactive).unwrap();
    assert_eq!(sched.last_error(), None);
    sched.advance();
    sched.submit(input((1..=20).collect(), 3), RequestClass::Interactive).unwrap();
    assert!(sched.cancel(id));
    assert_eq!(sched.last_error(), Some(&ComputeError::Kernel(5)));
    sched.advance();
    assert_eq!(sched.last_error(), None);
}

#[test]
fn a_cancel_alone_moves_nothing() {
    let (mut sched, compute) = scheduler(config());
    let id = sched.submit(input((1..=20).collect(), 50), RequestClass::Interactive).unwrap();
    sched.advance();
    sched.advance();
    let pages = sched.kv_used_pages();
    let (chunks, rounds) = (compute.prefills().len(), compute.decodes().len());
    assert!(sched.cancel(id));
    assert_eq!(sched.request_state(id), Some(RequestState::Running));
    assert_eq!(sched.kv_used_pages(), pages);
    assert_eq!((compute.prefills().len(), compute.decodes().len()), (chunks, rounds));
}

#[test]
fn a_short_prompt_spends_a_budget_of_one() {
    let (mut sched, compute) = scheduler(config());
    compute.inner.lock().unwrap().rounds = vec![(vec![7], None)];
    let id = sched.submit(input(vec![1, 2, 3], 1), RequestClass::Interactive).unwrap();
    let mut events = sched.advance();
    events.extend(run_until_idle(&mut sched));
    assert_eq!(tokens_of(&events, id), vec![7]);
    assert_eq!(reason_of(&events, id), Some(FinishReason::Length));
    assert!(sched.is_idle());
}

#[test]
fn a_prompt_gives_up_after_three_failed_prefills() {
    let (mut sched, compute) = scheduler(config());
    compute.inner.lock().unwrap().fail_prefill =
        vec![ComputeError::Kernel(5), ComputeError::Kernel(6), ComputeError::Kernel(7)];
    let id = sched.submit(input((1..=8).collect(), 4), RequestClass::Interactive).unwrap();
    assert_eq!(reason_of(&sched.advance(), id), None);
    assert_eq!(sched.last_error(), Some(&ComputeError::Kernel(5)));
    assert_eq!(sched.kv_used_pages(), 0, "nothing stays charged for a failed chunk");
    assert_eq!(reason_of(&sched.advance(), id), None);
    let last = sched.advance();
    assert_eq!(reason_of(&last, id), Some(FinishReason::Error));
    assert_eq!(sched.last_error(), Some(&ComputeError::Kernel(7)));
    assert_eq!(compute.prefills().len(), 3);
    sched.advance();
    assert!(sched.last_error().is_none(), "an advance without a fault clears it");
}

#[test]
fn a_failed_prefill_is_tried_again() {
    let (mut sched, compute) = scheduler(config());
    compute.inner.lock().unwrap().fail_prefill = vec![ComputeError::Stopped];
    let id = sched.submit(input((1..=8).collect(), 2), RequestClass::Interactive).unwrap();
    let events = run_until_idle(&mut sched);
    assert_eq!(tokens_of(&events, id).len(), 2);
    assert_eq!(reason_of(&events, id), Some(FinishReason::Length));
}

#[test]
fn a_failed_round_ends_every_lane_it_was_for() {
    let (mut sched, compute) = scheduler(config());
    let a = sched.submit(input(vec![1, 2], 9), RequestClass::Interactive).unwrap();
    let b = sched.submit(input(vec![3, 4], 9), RequestClass::Interactive).unwrap();
    compute.inner.lock().unwrap().fail_decode = vec![ComputeError::Kernel(-9)];
    let events = sched.advance();
    assert_eq!(reason_of(&events, a), Some(FinishReason::Error));
    assert_eq!(reason_of(&events, b), Some(FinishReason::Error));
    assert_eq!(sched.last_error(), Some(&ComputeError::Kernel(-9)));
    assert!(sched.is_idle());
}

#[test]
fn a_round_past_the_budget_is_cut_and_its_reason_ignored() {
    let (mut sched, compute) = scheduler(config());
    compute.inner.lock().unwrap().rounds = vec![(vec![1, 2, 3, 4], Some(FinishReason::Stop))];
    let id = sched.submit(input(vec![5], 2), RequestClass::Interactive).unwrap();
    let events = run_until_idle(&mut sched);
    assert_eq!(tokens_of(&events, id), vec![1, 2]);
    assert_eq!(
        reason_of(&events, id),
        Some(FinishReason::Length),
        "the backend's reason is of tokens it was not given"
    );
}

#[test]
fn a_round_that_finishes_says_why() {
    let (mut sched, compute) = scheduler(config());
    compute.inner.lock().unwrap().rounds = vec![(vec![1, 2], Some(FinishReason::Stop))];
    let id = sched.submit(input(vec![5], 20), RequestClass::Interactive).unwrap();
    let events = run_until_idle(&mut sched);
    assert_eq!(tokens_of(&events, id), vec![1, 2]);
    assert_eq!(reason_of(&events, id), Some(FinishReason::Stop));
}

#[test]
fn a_constrained_run_draws_from_its_schedule_and_stops_on_its_terminator() {
    let (mut sched, compute) = scheduler(config());
    let schedule = Schedule::new(vec![vec![1, 2], vec![3, 7], vec![4]])
        .unwrap()
        .ending_on(7)
        .unwrap();
    let mut asked = input(vec![5, 6], 50);
    asked.constrained = Some(schedule);
    compute.inner.lock().unwrap().rounds = vec![(vec![1], None), (vec![7], None)];
    let id = sched.submit(asked, RequestClass::Interactive).unwrap();
    let events = run_until_idle(&mut sched);
    assert_eq!(tokens_of(&events, id), vec![1, 7]);
    assert_eq!(reason_of(&events, id), Some(FinishReason::Stop));
    assert_eq!(compute.prefills()[0][0].permitted, Some(vec![1, 2]), "the prefill draws step 0");
    let decodes = compute.decodes();
    assert_eq!(decodes[0][0].permitted, Some(vec![3, 7]));
    assert_eq!(decodes[1][0].permitted, Some(vec![4]));
    let drawn = events.iter().find_map(|e| match e {
        SchedEvent::Done { drawn, .. } => drawn.as_ref(),
        _ => None,
    });
    assert_eq!(
        drawn.map(|d| d.as_slice()),
        Some(
            &[
                Draw { token: 1, probability_bits: 0x3f00_0000 },
                Draw { token: 7, probability_bits: 0x3f00_0000 },
            ][..]
        )
    );
}

#[test]
fn a_constrained_run_that_spends_its_schedule_is_finished() {
    let (mut sched, _compute) = scheduler(config());
    let mut asked = input(vec![5, 6], 1);
    asked.constrained = Some(Schedule::new(vec![vec![42], vec![42]]).unwrap());
    let id = sched.submit(asked, RequestClass::Interactive).unwrap();
    let events = run_until_idle(&mut sched);
    assert_eq!(tokens_of(&events, id), vec![42, 42], "the schedule is the budget");
    assert_eq!(reason_of(&events, id), Some(FinishReason::Stop));
}

#[test]
fn a_decision_is_answered_off_its_prompt_and_generates_nothing() {
    let (mut sched, compute) = scheduler(config());
    let mut asked = input((1..=6).collect(), 50);
    asked.decision = Some(DecisionRead::Answers(vec![8, 9]));
    let id = sched.submit(asked, RequestClass::Interactive).unwrap();
    let events = run_until_idle(&mut sched);
    assert_eq!(reason_of(&events, id), Some(FinishReason::Stop));
    assert!(tokens_of(&events, id).is_empty());
    assert!(compute.decodes().is_empty());
    assert_eq!(compute.prefills()[0][0].readout, Some(vec![8, 9]));
    match events.iter().find(|e| matches!(e, SchedEvent::Done { .. })) {
        Some(SchedEvent::Done { readout: Some(readout), .. }) => {
            assert_eq!(readout.logit_bits.len(), 2);
        }
        other => panic!("the answer comes with the end: {other:?}"),
    }
}

#[test]
fn a_decision_without_its_readout_ends_in_an_error() {
    let (mut sched, compute) = scheduler(config());
    compute.inner.lock().unwrap().skip_readout = true;
    let mut asked = input((1..=6).collect(), 50);
    asked.decision = Some(DecisionRead::Answers(vec![8]));
    let id = sched.submit(asked, RequestClass::Interactive).unwrap();
    assert_eq!(reason_of(&run_until_idle(&mut sched), id), Some(FinishReason::Error));
}

#[test]
fn an_attention_readout_rides_the_last_chunk() {
    let (mut sched, compute) = scheduler(SchedulerConfig {
        serving_chunk_tokens: 8,
        prompt_reuse: false,
        kv_page_tokens: 64,
        ..config()
    });
    let mut asked = input((1..=18).collect(), 50);
    asked.decision = Some(DecisionRead::Attention(AttentionRead {
        positions: vec![3, 4],
        min_chunk: 4,
    }));
    let id = sched.submit(asked, RequestClass::Interactive).unwrap();
    let events = run_until_idle(&mut sched);
    assert_eq!(reason_of(&events, id), Some(FinishReason::Stop));
    let widths: Vec<usize> = compute.prefills().iter().map(|p| p[0].tokens.len()).collect();
    assert_eq!(widths, vec![8, 6, 4], "the last chunk is no narrower than it has to be");
    let asked: Vec<bool> = compute.prefills().iter().map(|p| p[0].attention).collect();
    assert_eq!(asked, vec![false, false, true]);
}

#[test]
fn a_chunk_carries_one_media_item_at_most() {
    let (mut sched, compute) = scheduler(SchedulerConfig {
        kv_page_tokens: 64,
        prompt_reuse: false,
        ..config()
    });
    let item = |begin: u32, byte: u8| MediaKey {
        begin,
        count: 3,
        digest: [byte; 32],
        grid: [1, 1, 1],
    };
    let mut asked = input((1..=20).collect(), 1);
    asked.multimodal = Some(MultimodalInput { media: vec![item(2, 1), item(9, 2)] });
    sched.submit(asked, RequestClass::Interactive).unwrap();
    run_until_idle(&mut sched);
    let spans: Vec<(u32, usize)> =
        compute.prefills().iter().map(|p| (p[0].start, p[0].tokens.len())).collect();
    assert_eq!(spans, vec![(0, 9), (9, 11)], "the second item begins the second chunk");
}

#[test]
fn siblings_share_a_published_head() {
    let (mut sched, compute) = scheduler(config());
    let head: Vec<TokenId> = (1..=32).collect();
    let mut one = head.clone();
    one.extend([100, 101]);
    let mut two = head.clone();
    two.extend([200, 201]);
    let a = sched.submit(input(one, 60), RequestClass::Interactive).unwrap();
    sched.advance();
    let b = sched.submit(input(two, 60), RequestClass::Interactive).unwrap();
    let mut events = sched.advance();
    events.extend(sched.advance());
    assert!(
        events.iter().any(|e| matches!(
            e,
            SchedEvent::PrefixReused { request, tokens: 32, retained: false } if *request == b
        )),
        "{events:?}"
    );
    assert_eq!(sched.sibling_prefix_reused_tok(), 32);
    assert_eq!(sched.prefix_pinned_pages(), 2);
    let jobs: Vec<SeenPrefill> =
        compute.prefills().into_iter().flatten().filter(|j| j.request == b).collect();
    assert_eq!(jobs[0].shared_prefix, Some(SharedPrefixClaim { publisher: a, tokens: 32 }));
    assert_eq!(jobs[0].start, 32);
    assert_eq!(jobs[0].tokens, vec![200, 201]);
    run_until_idle(&mut sched);
    assert_eq!(sched.kv_used_pages(), sched.prefix_pinned_pages() + sched.retained_tail_pages());
}

#[test]
fn a_turn_resumes_from_the_checkpoint_of_the_turn_before() {
    let (mut sched, compute) = scheduler(config());
    let mut first = input((1..=40).collect(), 2);
    first.opener_tokens = Some(36);
    first.last_user_tokens = Some(20);
    let a = sched.submit(first, RequestClass::Interactive).unwrap();
    run_until_idle(&mut sched);
    assert_eq!(sched.checkpoint_pool().entry_count(), 1, "the turn left a checkpoint");
    assert_eq!(sched.retained_tail_pages(), 1, "its opener ends inside a page");
    let captures: Vec<u32> = compute
        .prefills()
        .iter()
        .flatten()
        .filter_map(|j| j.capture.map(|c| c.tokens))
        .collect();
    assert_eq!(captures, vec![36]);
    let mut second = input((1..=60).collect(), 2);
    second.opener_tokens = Some(58);
    second.last_user_tokens = Some(45);
    let b = sched.submit(second, RequestClass::Interactive).unwrap();
    let events = run_until_idle(&mut sched);
    assert!(
        events.iter().any(|e| matches!(
            e,
            SchedEvent::StateReused { request, source: ReuseSource::Device, tokens: 36, restore_micros: 11, .. }
                if *request == b
        )),
        "{events:?}"
    );
    assert!(events.iter().any(|e| matches!(
        e,
        SchedEvent::RetainedState { operation: RetainedStateOperation::Restore, .. }
    )));
    let job = compute
        .prefills()
        .into_iter()
        .flatten()
        .find(|j| j.request == b)
        .expect("the second turn was prefilled");
    assert_eq!(job.start, 36);
    assert_eq!(
        job.checkpoint,
        Some(CheckpointClaim { publisher: a, tokens: 36, source: ReuseSource::Device })
    );
    assert_eq!(sched.gdn_position(b), Some(62), "it ends at its last token");
}

#[test]
fn a_capture_the_backend_did_not_take_leaves_nothing() {
    let (mut sched, compute) = scheduler(config());
    compute.inner.lock().unwrap().refuse_capture = true;
    let mut asked = input((1..=40).collect(), 2);
    asked.opener_tokens = Some(36);
    sched.submit(asked, RequestClass::Interactive).unwrap();
    run_until_idle(&mut sched);
    assert_eq!(sched.checkpoint_pool().entry_count(), 0);
    assert_eq!(sched.retained_tail_pages(), 0);
}

#[test]
fn without_a_slot_nothing_is_published_and_the_request_hears_of_it() {
    let (mut sched, compute) = scheduler(SchedulerConfig { retained_slots: 0, ..config() });
    let mut asked = input((1..=40).collect(), 2);
    asked.opener_tokens = Some(36);
    let id = sched.submit(asked, RequestClass::Interactive).unwrap();
    let events = run_until_idle(&mut sched);
    assert!(events.iter().any(|e| matches!(
        e,
        SchedEvent::RetainedSlotSkipped { request, skip: RetainedSkip::PublishNoSlot, in_use: 0, capacity: 0 }
            if *request == id
    )));
    assert!(compute.prefills().iter().flatten().all(|j| j.publish.is_none()));
    assert_eq!(compute.prefills().len(), 1, "without a point to land on one chunk is enough");
}

#[test]
fn without_reuse_a_request_leaves_nothing_behind() {
    let (mut sched, compute) = scheduler(SchedulerConfig { prompt_reuse: false, ..config() });
    for _ in 0..2 {
        let mut asked = input((1..=40).collect(), 2);
        asked.opener_tokens = Some(36);
        sched.submit(asked, RequestClass::Interactive).unwrap();
        run_until_idle(&mut sched);
    }
    assert_eq!(sched.checkpoint_pool().entry_count(), 0);
    assert_eq!(sched.kv_used_pages(), 0);
    assert!(compute.prefills().iter().flatten().all(|j| j.capture.is_none() && j.start % 16 == 0));
}

#[test]
fn lanes_are_dealt_in_class_order_and_a_blocked_head_is_protected() {
    let (mut sched, _compute) = scheduler(SchedulerConfig {
        max_in_flight: 32,
        resident_slot_capacity: 32,
        max_prefill_batch: 32,
        host_capacity_bytes: 0,
        ..config()
    });
    let mut agents = Vec::new();
    for n in 0..8 {
        agents.push(sched.submit(input(vec![n, 1], 40), RequestClass::Interactive).unwrap());
    }
    let first = sched.advance();
    let dealt: Vec<(RequestId, usize)> = first
        .iter()
        .filter_map(|e| match e {
            SchedEvent::Admitted { request, lane, .. } => Some((*request, *lane)),
            _ => None,
        })
        .collect();
    assert_eq!(dealt.iter().map(|d| d.0).collect::<Vec<_>>(), agents, "in submission order");
    let mut lanes: Vec<usize> = dealt.iter().map(|d| d.1).collect();
    lanes.sort();
    assert_eq!(lanes, (0..8).collect::<Vec<_>>(), "every lane once");
    let late = sched.submit(input(vec![9, 1], 4), RequestClass::Agent).unwrap();
    let head = sched.submit(input(vec![8, 1], 4), RequestClass::Interactive).unwrap();
    let events = sched.advance();
    assert!(
        events.iter().any(|e| matches!(e, SchedEvent::Protected { head: h, .. } if *h == head)),
        "the foreground request is the head, though it came last: {events:?}"
    );
    assert_eq!(sched.protection().map(|p| p.head_request_id), Some(head));
    assert!(!events.iter().any(|e| matches!(e, SchedEvent::Admitted { request, .. } if *request == late)));
    run_until_idle(&mut sched);
    assert!(sched.protection().is_none());
}

#[test]
fn a_suspended_lane_comes_back_where_it_left_off() {
    let (mut sched, compute) = scheduler(SchedulerConfig {
        max_in_flight: 32,
        resident_slot_capacity: 9,
        max_prefill_batch: 32,
        prompt_reuse: false,
        ..config()
    });
    let mut lanes = Vec::new();
    for n in 0..8 {
        lanes.push(sched.submit(input(vec![n, 1], 40), RequestClass::Agent).unwrap());
    }
    sched.advance();
    let head = sched.submit(input(vec![99, 1], 2), RequestClass::Interactive).unwrap();
    let mut events = Vec::new();
    for _ in 0..4 {
        events.extend(sched.advance());
    }
    let evicted = events.iter().find_map(|e| match e {
        SchedEvent::Evicted { request, .. } => Some(*request),
        _ => None,
    });
    let victim = evicted.expect("an agent gave its lane to the foreground request");
    assert!(lanes.contains(&victim));
    assert_eq!(tokens_of(&events, head).len(), 2);
    events.extend(run_until_idle(&mut sched));
    assert!(events.iter().any(|e| matches!(e, SchedEvent::Restored { request, .. } if *request == victim)));
    assert_eq!(reason_of(&events, victim), Some(FinishReason::Length));
    assert_eq!(compute.host_arena_used(), 0, "its snapshot went back");
    assert_eq!(sched.host_tier().entry_count(), 0);
}

#[test]
fn a_snapshot_that_cannot_be_restored_is_queued_again() {
    let (mut sched, compute) = scheduler(SchedulerConfig {
        max_in_flight: 32,
        resident_slot_capacity: 9,
        max_prefill_batch: 32,
        prompt_reuse: false,
        ..config()
    });
    for n in 0..8 {
        sched.submit(input(vec![n, 1], 40), RequestClass::Agent).unwrap();
    }
    sched.advance();
    compute.inner.lock().unwrap().fail_restore = true;
    sched.submit(input(vec![99, 1], 2), RequestClass::Interactive).unwrap();
    let events = run_until_idle(&mut sched);
    let victim = events.iter().find_map(|e| match e {
        SchedEvent::Evicted { request, .. } => Some(*request),
        _ => None,
    });
    let victim = victim.expect("an agent was suspended");
    assert!(events.iter().any(|e| matches!(e, SchedEvent::Requeued { request } if *request == victim)));
    assert_eq!(reason_of(&events, victim), Some(FinishReason::Length), "and still finished");
}

#[test]
fn a_cancelled_suspended_request_is_dealt_no_further_round() {
    let (mut sched, compute) = scheduler(SchedulerConfig {
        max_in_flight: 32,
        resident_slot_capacity: 9,
        max_prefill_batch: 32,
        prompt_reuse: false,
        ..config()
    });
    for n in 0..8 {
        sched.submit(input(vec![n, 1], 40), RequestClass::Agent).unwrap();
    }
    sched.advance();
    sched.submit(input(vec![99, 1], 20), RequestClass::Interactive).unwrap();
    let mut events = Vec::new();
    for _ in 0..3 {
        events.extend(sched.advance());
    }
    let victim = events
        .iter()
        .find_map(|e| match e {
            SchedEvent::Evicted { request, .. } => Some(*request),
            _ => None,
        })
        .expect("an agent was suspended");
    assert_eq!(sched.request_state(victim), Some(RequestState::Evicted));
    assert!(sched.cancel(victim));
    sched.advance();
    assert_eq!(sched.request_state(victim), Some(RequestState::Done));
    assert_eq!(sched.host_tier().entry_count(), 0, "its snapshot is gone with it");
    assert_eq!(compute.host_arena_used(), 0);
    let later = run_until_idle(&mut sched);
    assert!(!later.iter().any(|e| matches!(e, SchedEvent::Restored { request, .. } if *request == victim)));
}

#[test]
fn the_pool_is_never_overrun_under_pressure() {
    let (mut sched, _compute) = scheduler(SchedulerConfig {
        max_in_flight: 64,
        max_prefill_batch: 4,
        kv_capacity_pages: 12,
        resident_slot_capacity: 6,
        serving_chunk_tokens: 24,
        host_capacity_bytes: 3,
        ..config()
    });
    let mut ids = Vec::new();
    for n in 0..24u32 {
        let class = if n % 3 == 0 { RequestClass::Interactive } else { RequestClass::Agent };
        let mut tokens: Vec<TokenId> = (0..(10 + (n * 7) % 50)).collect();
        tokens[0] = n % 5;
        let len = tokens.len() as u32;
        let mut asked = input(tokens, 5 + n % 9);
        if n % 2 == 0 {
            asked.opener_tokens = Some(len - 2);
        }
        ids.push(sched.submit(asked, class).unwrap());
    }
    let mut events = Vec::new();
    for round in 0..2_000 {
        if sched.is_idle() {
            break;
        }
        if round == 7 {
            sched.cancel(ids[5]);
        }
        events.extend(sched.advance());
        let seen = sched.occupancy();
        assert!(seen.kv_used_pages <= 12);
        assert!(sched.host_tier().used_bytes() <= 3);
        assert!(sched.retained_slots_in_use() <= sched.retained_slot_count());
    }
    assert!(sched.is_idle(), "every request came to an end");
    for (n, id) in ids.iter().enumerate() {
        if n != 5 {
            assert_eq!(reason_of(&events, *id), Some(FinishReason::Length), "request {n}");
        }
    }
}

#[test]
fn the_load_and_its_limits_are_reported() {
    let (sched, _compute) = scheduler(config());
    assert_eq!(sched.model_id(), "m");
    assert_eq!(sched.max_sequence_tokens(), 8192);
    assert_eq!(sched.artifact(), ArtifactHash::from_bytes([7; 32]));
    assert_eq!(sched.occupancy().kv_pool_pages, 4096);
    assert_eq!(sched.retained_slot_count(), 8);
    assert_eq!(sched.request_state(3), None);
    assert_eq!(sched.prefill_progress(3), None);
    let still = sched.with_clock(StillClock);
    assert_eq!(still.now(), 1_000);
}

#[test]
fn a_default_scheduler_serves_its_model() {
    let compute = Arc::new(MockCompute::new());
    let sched = ConcreteScheduler::<MockCompute, SystemClock>::new("only", compute);
    assert_eq!(sched.model_id(), "only");
    assert!(sched.is_idle());
    let first = sched.now();
    assert!(sched.now() >= first, "the clock does not run backwards");
}

#[test]
fn a_serving_chunk_is_no_wider_than_the_load_reserved() {
    assert_eq!(resolve_serving_chunk_tokens(512, 1024), Ok(512));
    assert_eq!(resolve_serving_chunk_tokens(1024, 1024), Ok(1024));
    assert_eq!(
        resolve_serving_chunk_tokens(2048, 1024),
        Err("serving chunk width 2048 exceeds the 1024-token width reserved at model load".to_string())
    );
}

#[test]
fn a_batch_publishes_a_head_once() {
    let (mut sched, compute) = scheduler(config());
    let prompt: Vec<TokenId> = (1..=20).collect();
    let mut other = prompt.clone();
    other[0] = 77;
    let a = sched.submit(input(prompt.clone(), 4), RequestClass::Interactive).unwrap();
    let b = sched.submit(input(prompt, 4), RequestClass::Interactive).unwrap();
    let c = sched.submit(input(other, 4), RequestClass::Interactive).unwrap();
    sched.advance();
    let sent = compute.prefills();
    let published: Vec<(RequestId, Option<u32>, usize)> = sent[0]
        .iter()
        .map(|j| (j.request, j.publish.map(|p| p.tokens), j.tokens.len()))
        .collect();
    assert_eq!(
        published,
        vec![(a, Some(16), 16), (b, None, 20), (c, Some(16), 16)],
        "one publisher for the content both sent, and one for the other"
    );
    assert_eq!(sched.prefix_pinned_pages(), 2);
    assert_eq!(sched.shared_prefix_of(b), None);
    assert_eq!(sched.shared_prefix_of(a).map(|(_, skipped)| skipped), Some(0));
    run_until_idle(&mut sched);
}

fn is_told(events: &[SchedEvent], id: RequestId, state: RequestState) -> bool {
    events.iter().any(|e| match e {
        SchedEvent::Requeued { request } => *request == id && state == RequestState::Admitted,
        SchedEvent::PrefillChunk { request, .. } => {
            *request == id && state == RequestState::Prefilling
        }
        SchedEvent::Admitted { request, .. } => *request == id && state == RequestState::Running,
        SchedEvent::Restored { request, .. } => {
            *request == id && (state == RequestState::Running || state == RequestState::Prefilling)
        }
        SchedEvent::Evicted { request, .. } => *request == id && state == RequestState::Evicted,
        SchedEvent::Done { request, .. } => *request == id && state == RequestState::Done,
        _ => false,
    })
}

#[test]
fn every_change_of_state_is_reported() {
    let (mut sched, _compute) = scheduler(SchedulerConfig {
        max_in_flight: 64,
        max_prefill_batch: 4,
        kv_capacity_pages: 12,
        resident_slot_capacity: 6,
        serving_chunk_tokens: 24,
        host_capacity_bytes: 3,
        ..config()
    });
    let mut ids = Vec::new();
    for n in 0..24u32 {
        let class = if n % 3 == 0 { RequestClass::Interactive } else { RequestClass::Agent };
        let tokens: Vec<TokenId> = (n..n + 10 + (n * 7) % 50).collect();
        ids.push(sched.submit(input(tokens, 5 + n % 9), class).unwrap());
    }
    let mut moves = 0;
    for _ in 0..2_000 {
        if sched.is_idle() {
            break;
        }
        let before: Vec<_> = ids.iter().map(|&id| sched.request_state(id)).collect();
        let events = sched.advance();
        for (&id, was) in ids.iter().zip(before) {
            let now = sched.request_state(id);
            if now != was {
                moves += 1;
                assert!(is_told(&events, id, now.unwrap()), "{id}: {was:?} to {now:?}: {events:?}");
            }
        }
    }
    assert!(sched.is_idle());
    assert!(moves > 48, "{moves}");
}
