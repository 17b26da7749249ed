//! What the compute backend decides between its kernel calls: which pass a
//! prompt takes, what a failed pass leads to, and when a lane may replay the
//! captured decode graph.

use crate::model::ModelConfig;
use crate::types::{ComputeError, TokenId};
use vstd::prelude::*;

verus! {

/// The batch a decode graph was captured for.
#[derive(Debug, Clone, Copy, PartialEq, Eq, Structural)]
pub struct GraphGeometry {
    pub batch: i64,
}

impl GraphGeometry {
    /// The batch every graph is captured for: a single token.
    pub fn captured() -> (geometry: GraphGeometry)
        ensures
            geometry.batch == 1,
    {
        GraphGeometry { batch: 1 }
    }
}

/// Whether a prompt may run through the layers in one pass: more than one
/// token, into an empty cache.
pub fn batched_prefill_eligible(seq: u64, kv_len: u64) -> (eligible: bool)
    ensures
        eligible == (seq > 1 && kv_len == 0),
{
    seq > 1 && kv_len == 0
}

/// How a prompt runs through the layers.
#[derive(Debug, Clone, Copy, PartialEq, Eq, Structural)]
pub enum PrefillPass {
    /// All its tokens at once.
    Batched,
    /// One token at a time.
    Eager,
}

/// The pass a prompt is tried with first.
pub fn first_pass(seq: u64, kv_len: u64) -> (pass: PrefillPass)
    ensures
        pass == (if seq > 1 && kv_len == 0 {
            PrefillPass::Batched
        } else {
            PrefillPass::Eager
        }),
{
    if batched_prefill_eligible(seq, kv_len) {
        PrefillPass::Batched
    } else {
        PrefillPass::Eager
    }
}

/// What a pass over a prompt leads to.
#[derive(Debug, Clone, Copy, PartialEq, Eq, Structural)]
pub enum AfterPass {
    /// The prompt is prefilled.
    Prefilled,
    /// The sequence is made fresh and the prompt run one token at a time.
    RunEagerly,
    Fail(ComputeError),
}

/// What a pass leads to: a kernel fault in the batched pass leads to the eager
/// one; any other fault ends the prefill.
pub open spec fn leads_to(pass: PrefillPass, result: Result<(), ComputeError>) -> AfterPass {
    match result {
        Ok(_) => AfterPass::Prefilled,
        Err(ComputeError::Kernel(rc)) => if pass == PrefillPass::Batched {
            AfterPass::RunEagerly
        } else {
            AfterPass::Fail(ComputeError::Kernel(rc))
        },
        Err(e) => AfterPass::Fail(e),
    }
}

/// What a pass leads to.
pub fn after_pass(pass: PrefillPass, result: Result<(), ComputeError>) -> (after: AfterPass)
    ensures
        after == leads_to(pass, result),
        result is Ok <==> after == AfterPass::Prefilled,
        after == AfterPass::RunEagerly <==> pass == PrefillPass::Batched && (result matches Err(
            ComputeError::Kernel(_),
        )),
        after matches AfterPass::Fail(e) ==> result == Err::<(), ComputeError>(e),
{
    match result {
        Ok(_) => AfterPass::Prefilled,
        Err(ComputeError::Kernel(rc)) => if pass == PrefillPass::Batched {
            AfterPass::RunEagerly
        } else {
            AfterPass::Fail(ComputeError::Kernel(rc))
        },
        Err(e) => AfterPass::Fail(e),
    }
}

/// An eager pass is the last: whatever comes of it, the prompt is not run
/// again.
pub proof fn an_eager_pass_is_the_last(result: Result<(), ComputeError>)
    ensures
        leads_to(PrefillPass::Eager, result) != AfterPass::RunEagerly,
{
}

/// Whatever a pass came to is answered: a pass that ran is done, a kernel fault
/// of the batched pass is tried again, and any other fault is handed on as it
/// is.
pub proof fn a_fault_is_retried_or_handed_on(
    pass: PrefillPass,
    result: Result<(), ComputeError>,
)
    ensures
        result is Ok <==> leads_to(pass, result) == AfterPass::Prefilled,
        leads_to(pass, result) == AfterPass::RunEagerly <==> pass == PrefillPass::Batched && (
        result matches Err(ComputeError::Kernel(_))),
        leads_to(pass, result) matches AfterPass::Fail(e) ==> result == Err::<(), ComputeError>(e),
{
}

/// A draw that is no negative number is the token of that number, and no
/// negative one is a token of a vocabulary that a draw can name whole.
pub proof fn a_draw_is_the_token_of_its_number(out: i32)
    ensures
        out >= 0 ==> token_of(out) == out,
        out < 0 ==> token_of(out) > i32::MAX,
        (token_of(out) - out) % 0x1_0000_0000 == 0,
        0 <= token_of(out) < 0x1_0000_0000,
{
}

/// A draw as the token id it stands for; a negative one wraps past every other.
pub open spec fn token_of(out: i32) -> int {
    if out < 0 {
        out + 0x1_0000_0000
    } else {
        out as int
    }
}

/// The token a sampler drew, where it is one of the vocabulary.
pub fn drawn_token(out: i32, vocab: u64) -> (token: Result<TokenId, ComputeError>)
    ensures
        match token {
            Ok(t) => t == token_of(out) && token_of(out) < vocab,
            Err(e) => token_of(out) >= vocab && e == ComputeError::Kernel(-1i32),
        },
        0 <= out < vocab ==> (token matches Ok(t) && t == out),
        out >= vocab ==> token is Err,
        out < 0 && vocab <= 0x8000_0000 ==> token is Err,
{
    let token: u64 = if out < 0 {
        (out as i64 + 0x1_0000_0000) as u64
    } else {
        out as u64
    };
    if token >= vocab {
        return Err(ComputeError::Kernel(-1));
    }
    Ok(token as u32)
}

/// How a decode step is run.
#[derive(Debug, Clone, Copy, PartialEq, Eq, Structural)]
pub enum DecodePath {
    /// The captured graph is replayed.
    Graph,
    /// Every lane runs through the layers.
    Eager,
}

/// How a decode step over `jobs` lanes is run: a graph serves the batch it was
/// captured for.
pub fn decode_path(jobs: usize, graph: Option<GraphGeometry>) -> (path: DecodePath)
    ensures
        path == (if jobs == 1 && graph is Some {
            DecodePath::Graph
        } else {
            DecodePath::Eager
        }),
{
    if jobs == 1 && graph.is_some() {
        DecodePath::Graph
    } else {
        DecodePath::Eager
    }
}

/// The dimensions a decode graph is captured with.
#[derive(Debug, Clone, Copy, PartialEq, Eq, Structural)]
pub struct DecodeGraphGeom {
    pub hidden: i64,
    pub vocab: i64,
    pub num_q_heads: i64,
    pub num_kv_heads: i64,
    pub head_dim: i64,
    pub block_size: i64,
    pub num_blocks: i64,
    pub gdn_state_rows: i64,
    pub gdn_state_cols: i64,
    pub gdn_state_dim: i64,
    pub gdn_num_layers: i64,
}

/// The sizes in bytes of the weights a decode graph holds.
#[derive(Debug, Clone, Copy, PartialEq, Eq, Structural)]
pub struct DecodeGraphBytes {
    pub embedding: i64,
    pub final_norm: i64,
    pub lm_head: i64,
}

/// The dimensions a decode graph of this topology is captured with.
pub fn decode_graph_geom(config: &ModelConfig) -> (geom: DecodeGraphGeom)
    requires
        config.hidden <= i64::MAX,
        config.vocab <= i64::MAX,
        config.head_dim <= i64::MAX,
        config.gdn_state_cols + config.gdn_state_rows + 2 <= i64::MAX,
        config.num_q_heads <= i64::MAX,
        config.num_kv_heads <= i64::MAX,
        config.block_size <= i64::MAX,
        config.num_blocks <= i64::MAX,
        config.gdn_num_layers <= i64::MAX,
    ensures
        geom.hidden == config.hidden,
        geom.vocab == config.vocab,
        geom.num_q_heads == config.num_q_heads,
        geom.num_kv_heads == config.num_kv_heads,
        geom.head_dim == config.head_dim,
        geom.block_size == config.block_size,
        geom.num_blocks == config.num_blocks,
        geom.gdn_state_rows == config.gdn_state_rows,
        geom.gdn_state_cols == config.gdn_state_cols,
        geom.gdn_state_dim == config.gdn_state_cols + config.gdn_state_rows + 2,
        geom.gdn_num_layers == config.gdn_num_layers,
{
    DecodeGraphGeom {
        hidden: config.hidden as i64,
        vocab: config.vocab as i64,
        num_q_heads: config.num_q_heads as i64,
        num_kv_heads: config.num_kv_heads as i64,
        head_dim: config.head_dim as i64,
        block_size: config.block_size as i64,
        num_blocks: config.num_blocks as i64,
        gdn_state_rows: config.gdn_state_rows as i64,
        gdn_state_cols: config.gdn_state_cols as i64,
        gdn_state_dim: config.gdn_state_dim() as i64,
        gdn_num_layers: config.gdn_num_layers as i64,
    }
}

/// The sizes of a decode graph's weights: two bytes to an element.
pub fn decode_graph_bytes(config: &ModelConfig) -> (bytes: DecodeGraphBytes)
    requires
        config.vocab * config.hidden * 2 <= i64::MAX,
        config.hidden * 2 <= i64::MAX,
    ensures
        bytes.embedding == config.vocab * config.hidden * 2,
        bytes.final_norm == config.hidden * 2,
        bytes.lm_head == config.vocab * config.hidden * 2,
{
    let table: i64 = (config.vocab * config.hidden * 2) as i64;
    DecodeGraphBytes { embedding: table, final_norm: (config.hidden * 2) as i64, lm_head: table }
}

} // verus!
