//! The seams of the scheduler: what it asks of a compute backend and of a
//! clock, and what it offers its driver.
//!
//! A backend answers as it likes: nothing is promised of what it returns, and
//! the scheduler holds its own ledgers whatever comes back.

use crate::checkpoint::ReuseSource;
use crate::constrained::PermittedSet;
use crate::decision::Readout;
use crate::identity::BlobIdentity;
use crate::types::{
    AttentionRead, AttentionScores, ComputeError, DecodeParams, FinishReason, LaneId,
    MultimodalInput, RequestId, SpecStats, TokenId,
};
use vstd::prelude::*;

verus! {

/// Where a retained image goes: the prompt length it covers and its slot.
#[derive(Debug, Clone, Copy, PartialEq, Eq, Structural)]
pub struct RetainedAt {
    pub tokens: u32,
    pub slot: u32,
}

/// The shared prefix a sequence is built on.
#[derive(Debug, Clone, Copy, PartialEq, Eq, Structural)]
pub struct SharedPrefixClaim {
    pub publisher: RequestId,
    pub tokens: u32,
}

/// The checkpoint a sequence is built on.
#[derive(Debug, Clone, Copy, PartialEq, Eq, Structural)]
pub struct CheckpointClaim {
    pub publisher: RequestId,
    pub tokens: u32,
    pub source: ReuseSource,
}

/// One request's chunk of prefill.
#[derive(Debug)]
pub struct PrefillJob {
    pub request: RequestId,
    pub tokens: Vec<TokenId>,
    /// The whole sequence's reservation, in tokens.
    pub context_tokens: u32,
    pub start_position: u32,
    pub params: DecodeParams,
    /// Carried by the first job of a claimant.
    pub shared_prefix: Option<SharedPrefixClaim>,
    /// Publish the head this chunk ends.
    pub publish_prefix: Option<RetainedAt>,
    /// Carried by the first job of a claimant.
    pub checkpoint: Option<CheckpointClaim>,
    /// Capture a checkpoint where this chunk ends.
    pub capture_checkpoint: Option<RetainedAt>,
    pub multimodal: Option<MultimodalInput>,
    /// Answer tokens to read, on the chunk that ends the prompt.
    pub readout: Option<Vec<TokenId>>,
    /// The first step's permitted set, on the chunk that ends the prompt.
    pub permitted: Option<PermittedSet>,
    /// The attention readout, on the chunk that ends the prompt.
    pub attention: Option<AttentionRead>,
}

/// What one chunk came back with.
#[derive(Debug)]
pub struct PrefillOutcome {
    pub readout: Option<Readout>,
    pub attention: Option<AttentionScores>,
    pub checkpoint_captured: bool,
    pub restore_micros: u64,
    pub encode_micros: u64,
}

impl PrefillOutcome {
    /// Nothing to report.
    pub open spec fn nothing() -> PrefillOutcome {
        PrefillOutcome {
            readout: None,
            attention: None,
            checkpoint_captured: false,
            restore_micros: 0,
            encode_micros: 0,
        }
    }
}

impl Default for PrefillOutcome {
    fn default() -> (outcome: PrefillOutcome)
        ensures
            outcome == PrefillOutcome::nothing(),
    {
        PrefillOutcome {
            readout: None,
            attention: None,
            checkpoint_captured: false,
            restore_micros: 0,
            encode_micros: 0,
        }
    }
}

/// One running request's decode round.
#[derive(Debug)]
pub struct DecodeJob {
    pub request: RequestId,
    pub lane: LaneId,
    pub params: DecodeParams,
    pub remaining_tokens: u32,
    /// The set the next token is drawn from.
    pub permitted: Option<PermittedSet>,
}

/// What one round came back with: the tokens it committed, with their
/// probabilities' bit patterns, and why the request finished if it did.
#[derive(Debug)]
pub struct DecodeOutcome {
    pub tokens: Vec<TokenId>,
    pub probability_bits: Vec<u32>,
    pub finish: Option<FinishReason>,
    pub spec: Option<SpecStats>,
}

/// A compute backend.
pub trait Compute {
    /// What this load's state is produced under.
    fn blob_identity(&self) -> BlobIdentity;

    /// Run one chunk of each job; all or nothing.
    fn prefill_step(&self, jobs: &Vec<PrefillJob>) -> Result<Vec<PrefillOutcome>, ComputeError>;

    /// Run one round over every running lane.
    fn decode_step(&self, jobs: &Vec<DecodeJob>) -> Result<Vec<DecodeOutcome>, ComputeError>;

    /// Drop a request's sequence.
    fn release(&self, request: RequestId);

    /// What a snapshot of `request` would take.
    fn snapshot_size(&self, request: RequestId) -> Result<u64, ComputeError>;

    /// Snapshot `request` to host memory and release its sequence.
    fn evict(&self, request: RequestId) -> Result<u64, ComputeError>;

    /// Bring `request` back from its snapshot.
    fn restore(&self, request: RequestId, context_tokens: u32) -> Result<(), ComputeError>;

    /// Free a snapshot that will not be restored.
    fn discard_snapshot(&self, request: RequestId);

    /// Whether host memory has a span for `bytes`.
    fn host_blob_fits(&self, bytes: u64) -> bool;

    /// Drop the handle on a published prefix.
    fn release_prefix(&self, publisher: RequestId, tokens: u32);

    /// Drop the handle on a checkpoint, wherever it lives.
    fn release_checkpoint(&self, publisher: RequestId);

    /// What a copy of a prefix would take.
    fn prefix_snapshot_size(&self, publisher: RequestId, tokens: u32) -> Result<u64, ComputeError>;

    /// Copy a prefix to host memory.
    fn spill_prefix(&self, publisher: RequestId, tokens: u32) -> Result<u64, ComputeError>;

    /// Free a prefix's copy.
    fn discard_spilled_prefix(&self, publisher: RequestId, tokens: u32);

    /// Bring a prefix back from its copy, into `slot`.
    fn restore_prefix(&self, publisher: RequestId, tokens: u32, slot: u32) -> Result<
        (),
        ComputeError,
    >;

    /// What a copy of a checkpoint would take.
    fn checkpoint_snapshot_size(&self, publisher: RequestId) -> Result<u64, ComputeError>;

    /// Move a checkpoint to host memory, releasing its device image.
    fn spill_checkpoint(&self, publisher: RequestId) -> Result<u64, ComputeError>;
}

/// Wall time, in microseconds from some fixed start. Nothing is ordered by it:
/// it only measures how long retained state has sat unused.
pub trait Clock {
    fn now(&self) -> u64;
}

/// The pool as an observer sees it.
#[derive(Debug, Clone, Copy, PartialEq, Eq, Structural)]
pub struct Occupancy {
    pub kv_used_pages: u32,
    pub kv_pool_pages: u32,
    pub kv_ram_used_bytes: u64,
}

/// `std::time::Instant`, opaque: a reading of the system's monotonic clock.
#[verifier::external_type_specification]
#[verifier::external_body]
pub struct ExInstant(std::time::Instant);

/// `std::time::Instant::now`. Nothing is claimed of the reading.
#[verifier::external_body]
pub(crate) fn instant_now() -> (reading: std::time::Instant) {
    std::time::Instant::now()
}

/// `std::time::Instant::elapsed`, in microseconds. Nothing is claimed of it.
#[verifier::external_body]
pub(crate) fn micros_since(start: &std::time::Instant) -> (micros: u64) {
    start.elapsed().as_micros() as u64
}

/// The system's monotonic clock.
pub struct SystemClock {
    pub start: std::time::Instant,
}

impl SystemClock {
    /// A clock that starts at zero now.
    pub fn new() -> (clock: SystemClock) {
        SystemClock { start: instant_now() }
    }
}

impl Clock for SystemClock {
    fn now(&self) -> u64 {
        micros_since(&self.start)
    }
}

} // verus!
