//! The forward pass of one decoder layer, as the steps the kernels run.
//!
//! A layer is planned for a number of tokens at once; one token is the decode
//! step, more are a batched prefill. Every step says where in its buffers it
//! reads and writes.

use crate::model::{LayerKind, ModelConfig};
use crate::sequence::{conv_plane, gdn_plane};
use crate::types::ComputeError;
use crate::weights::{buildable, Bf16Weight, LayerWeights, Nvfp4DevicePlane, Nvfp4Weight};
use vstd::prelude::*;

verus! {

/// The buffers of a pass, `[token][width]` each.
#[derive(Debug, Clone, Copy, PartialEq, Eq, Structural)]
pub enum Plane {
    /// The residual stream.
    Stream,
    /// The stream, normed.
    Normed,
    Query,
    Key,
    Value,
    /// What attention gave.
    Attended,
    /// The GDN input projection: query, key, value and output gate.
    Feature,
    /// Its query, key and value rows after the conv.
    Convolved,
    /// The alpha and beta projection.
    Gates,
    /// The GDN readout, gated.
    Readout,
    FfnGate,
    FfnUp,
    Active,
    /// What a block adds to the stream.
    Delta,
}

/// Elements `start` to `start + len`.
#[derive(Debug, Clone, Copy, PartialEq, Eq, Structural)]
pub struct Span {
    pub start: u64,
    pub len: u64,
}

/// A GEMM of a layer.
#[derive(Debug, Clone, Copy, PartialEq, Eq, Structural)]
pub enum GemmSlot {
    Query,
    Key,
    Value,
    AttnOut,
    GdnIn,
    GdnOut,
    Gates,
    FfnGate,
    FfnUp,
    FfnDown,
}

/// What a GEMM reads its weight from.
#[derive(Debug, Clone, Copy, PartialEq, Eq, Structural)]
pub enum GemmSource {
    /// Rows of a device-resident plane.
    Device(Nvfp4DevicePlane),
    /// Rows of the layer's unquantized weight.
    Bf16,
    /// The layer's own host weight, whole.
    Host,
}

/// One GEMM: `m` rows of the weight from `row_off` on, over an input width of
/// `k`.
#[derive(Debug, Clone, Copy, PartialEq, Eq, Structural)]
pub struct GemmCall {
    pub slot: GemmSlot,
    pub source: GemmSource,
    pub row_off: u64,
    pub m: u64,
    pub k: u64,
}

/// Which of a layer's two norms.
#[derive(Debug, Clone, Copy, PartialEq, Eq, Structural)]
pub enum NormSlot {
    Input,
    PostAttention,
}

/// Where a token's gate and its beta are among the gates.
#[derive(Debug, Clone, Copy, PartialEq, Eq, Structural)]
pub struct GatePair {
    pub gate: u64,
    pub beta: u64,
}

/// One step of a layer.
#[derive(Debug, Clone, Copy, PartialEq, Eq, Structural)]
pub enum Step {
    /// The stream is taken as it is.
    Copy,
    /// One token's row of the stream is normed.
    Norm { slot: NormSlot, row: Span },
    Gemm { call: GemmCall, from: Plane, to: Plane },
    /// Every query head of one token is normed.
    QueryNorm { row: Span, heads: u64 },
    /// Every key head of one token is normed.
    KeyNorm { row: Span, heads: u64 },
    /// One token's query and key are rotated to a position.
    Rope { query: Span, key: Span, position: u64 },
    /// One token's key and value are placed in the cache.
    StoreKv { row: Span },
    /// Every token's query attends over the cache.
    Attend { tokens: u64 },
    /// The query, key and value rows of every token are convolved, `width`
    /// elements of each row of `stride`; the rolling state moves on.
    Conv { width: u64, stride: u64, state: Span },
    /// One token's recurrence: its key and value, its gate and beta where it
    /// has them, the layer's state, and where the readout goes, gated by the
    /// output gate where there is one.
    Recur {
        key: Span,
        value: Span,
        gates: Option<GatePair>,
        state: Span,
        gate: Option<Span>,
        out: Span,
    },
    /// `silu(gate) * up`.
    Activate,
    /// The stream takes what the block adds.
    AddDelta,
    /// The rotary position moves on.
    Advance { by: u64 },
}

/// A kernel's return code.
pub fn kernel_result(rc: i32) -> (result: Result<(), ComputeError>)
    ensures
        rc == 0 ==> result is Ok,
        rc != 0 ==> result == Err::<(), ComputeError>(ComputeError::Kernel(rc)),
{
    if rc == 0 {
        Ok(())
    } else {
        Err(ComputeError::Kernel(rc))
    }
}

/// The input width and the output rows of a GEMM, and where its rows begin in
/// a plane fused of several.
pub open spec fn gemm_shape(config: ModelConfig, lw: LayerWeights, slot: GemmSlot) -> (
    int,
    int,
    int,
) {
    let hidden = config.hidden as int;
    let q = config.q_width();
    let kv = config.kv_width();
    let ffn = config.ffn_intermediate as int;
    match slot {
        GemmSlot::Query => (0, q, hidden),
        GemmSlot::Key => (q, kv, hidden),
        GemmSlot::Value => (q + kv, kv, hidden),
        GemmSlot::AttnOut => (0, hidden, q),
        GemmSlot::GdnIn => (0, config.in_width(), hidden),
        GemmSlot::GdnOut => (0, hidden, config.gdn_state_rows as int),
        GemmSlot::Gates => (0, lw.gdn_ab.m as int, hidden),
        GemmSlot::FfnGate => (0, ffn, hidden),
        GemmSlot::FfnUp => (ffn, ffn, hidden),
        GemmSlot::FfnDown => (0, hidden, ffn),
    }
}

/// The device plane a GEMM may read.
pub open spec fn device_plane(lw: LayerWeights, slot: GemmSlot) -> Option<Nvfp4DevicePlane> {
    match slot {
        GemmSlot::Query | GemmSlot::Key | GemmSlot::Value => lw.dev.qkv,
        GemmSlot::AttnOut => lw.dev.attn_out,
        GemmSlot::GdnIn => lw.dev.gdn_in,
        GemmSlot::GdnOut => lw.dev.gdn_out,
        GemmSlot::Gates => None,
        GemmSlot::FfnGate | GemmSlot::FfnUp => lw.dev.mlp_gate_up,
        GemmSlot::FfnDown => lw.dev.mlp_down,
    }
}

/// The unquantized weight a GEMM may read; the gates have no other.
pub open spec fn bf16_weight(lw: LayerWeights, slot: GemmSlot) -> Option<Bf16Weight> {
    match slot {
        GemmSlot::Query | GemmSlot::Key | GemmSlot::Value => if lw.qkv_bf16.data@.len() > 0 {
            Some(lw.qkv_bf16)
        } else {
            None
        },
        GemmSlot::AttnOut => if lw.attn_out_bf16.data@.len() > 0 {
            Some(lw.attn_out_bf16)
        } else {
            None
        },
        GemmSlot::GdnOut => if lw.gdn_out_bf16.data@.len() > 0 {
            Some(lw.gdn_out_bf16)
        } else {
            None
        },
        GemmSlot::Gates => Some(lw.gdn_ab),
        _ => None,
    }
}

/// The host weight of a GEMM.
pub open spec fn host_weight(lw: LayerWeights, slot: GemmSlot) -> Nvfp4Weight {
    match slot {
        GemmSlot::Query => lw.projection@[0],
        GemmSlot::Key => lw.projection@[1],
        GemmSlot::Value => lw.projection@[2],
        GemmSlot::AttnOut => lw.projection@[3],
        GemmSlot::GdnIn => lw.projection@[0],
        GemmSlot::GdnOut => lw.gdn_output,
        GemmSlot::Gates => lw.gdn_output,
        GemmSlot::FfnGate => lw.ffn_gate,
        GemmSlot::FfnUp => lw.ffn_up,
        GemmSlot::FfnDown => lw.ffn_down,
    }
}

/// The unquantized weight a GEMM may read.
pub fn matrix_of(lw: &LayerWeights, slot: GemmSlot) -> (matrix: Option<&Bf16Weight>)
    ensures
        matrix is Some <==> bf16_weight(*lw, slot) is Some,
        matrix matches Some(w) ==> bf16_weight(*lw, slot) == Some(*w),
{
    let matrix = match slot {
        GemmSlot::Query | GemmSlot::Key | GemmSlot::Value => &lw.qkv_bf16,
        GemmSlot::AttnOut => &lw.attn_out_bf16,
        GemmSlot::GdnOut => &lw.gdn_out_bf16,
        GemmSlot::Gates => {
            return Some(&lw.gdn_ab);
        },
        _ => {
            return None;
        },
    };
    if matrix.data.len() > 0 {
        Some(matrix)
    } else {
        None
    }
}

/// The host weight of a GEMM.
pub fn host_matrix_of(lw: &LayerWeights, slot: GemmSlot) -> (matrix: &Nvfp4Weight)
    ensures
        *matrix == host_weight(*lw, slot),
{
    match slot {
        GemmSlot::Query | GemmSlot::GdnIn => &lw.projection[0],
        GemmSlot::Key => &lw.projection[1],
        GemmSlot::Value => &lw.projection[2],
        GemmSlot::AttnOut => &lw.projection[3],
        GemmSlot::GdnOut | GemmSlot::Gates => &lw.gdn_output,
        GemmSlot::FfnGate => &lw.ffn_gate,
        GemmSlot::FfnUp => &lw.ffn_up,
        GemmSlot::FfnDown => &lw.ffn_down,
    }
}

/// A GEMM reads the device plane where there is one, the unquantized weight
/// where there is one, and the host weight otherwise. A host weight is its
/// own slot's, so its rows begin at the first.
pub open spec fn gemm(config: ModelConfig, lw: LayerWeights, slot: GemmSlot) -> GemmCall {
    let (row_off, m, k) = gemm_shape(config, lw, slot);
    if device_plane(lw, slot) is Some {
        GemmCall {
            slot,
            source: GemmSource::Device(device_plane(lw, slot)->Some_0),
            row_off: row_off as u64,
            m: m as u64,
            k: k as u64,
        }
    } else if bf16_weight(lw, slot) is Some {
        GemmCall {
            slot,
            source: GemmSource::Bf16,
            row_off: row_off as u64,
            m: m as u64,
            k: k as u64,
        }
    } else {
        GemmCall { slot, source: GemmSource::Host, row_off: 0, m: m as u64, k: k as u64 }
    }
}

/// The GEMM of a slot.
pub fn plan_gemm(config: &ModelConfig, lw: &LayerWeights, slot: GemmSlot) -> (call: GemmCall)
    requires
        config.countable(),
    ensures
        call == gemm(*config, *lw, slot),
{
    let hidden: u64 = config.hidden;
    let ffn: u64 = config.ffn_intermediate;
    let q: u64 = config.gqa_width();
    let kv: u64 = config.gqa_kv_width();
    let (row_off, m, k): (u64, u64, u64) = match slot {
        GemmSlot::Query => (0, q, hidden),
        GemmSlot::Key => (q, kv, hidden),
        GemmSlot::Value => (q + kv, kv, hidden),
        GemmSlot::AttnOut => (0, hidden, q),
        GemmSlot::GdnIn => (0, config.gdn_in_proj_m(), hidden),
        GemmSlot::GdnOut => (0, hidden, config.gdn_readout_k()),
        GemmSlot::Gates => (0, lw.gdn_ab.m, hidden),
        GemmSlot::FfnGate => (0, ffn, hidden),
        GemmSlot::FfnUp => (ffn, ffn, hidden),
        GemmSlot::FfnDown => (0, hidden, ffn),
    };
    let device: Option<Nvfp4DevicePlane> = match slot {
        GemmSlot::Query | GemmSlot::Key | GemmSlot::Value => lw.dev.qkv,
        GemmSlot::AttnOut => lw.dev.attn_out,
        GemmSlot::GdnIn => lw.dev.gdn_in,
        GemmSlot::GdnOut => lw.dev.gdn_out,
        GemmSlot::Gates => None,
        GemmSlot::FfnGate | GemmSlot::FfnUp => lw.dev.mlp_gate_up,
        GemmSlot::FfnDown => lw.dev.mlp_down,
    };
    let unquantized: bool = match slot {
        GemmSlot::Query | GemmSlot::Key | GemmSlot::Value => lw.qkv_bf16.data.len() > 0,
        GemmSlot::AttnOut => lw.attn_out_bf16.data.len() > 0,
        GemmSlot::GdnOut => lw.gdn_out_bf16.data.len() > 0,
        GemmSlot::Gates => true,
        _ => false,
    };
    match device {
        Some(plane) => GemmCall { slot, source: GemmSource::Device(plane), row_off, m, k },
        None => if unquantized {
            GemmCall { slot, source: GemmSource::Bf16, row_off, m, k }
        } else {
            GemmCall { slot, source: GemmSource::Host, row_off: 0, m, k }
        },
    }
}

/// Which tokens a layer is planned for: `tokens` of them, in layer `layer` of
/// `layers`. A single token rotates at the sequence's position; the tokens of
/// a fresh batch rotate where one at a time they would have.
pub struct Pass {
    pub tokens: u64,
    pub layer: u64,
    pub layers: u64,
    pub seq_pos: u64,
}

impl Pass {
    /// The position token `i` rotates to.
    pub open spec fn position(self, i: int) -> int {
        if self.tokens == 1 {
            self.seq_pos as int
        } else {
            i * self.layers + self.layer
        }
    }

    /// The pass's buffers can be counted.
    pub open spec fn fits(self, config: ModelConfig, lw: LayerWeights) -> bool {
        let n = self.tokens as int;
        &&& config.countable()
        &&& n * config.hidden <= u64::MAX
        &&& n * config.q_width() <= u64::MAX
        &&& n * config.kv_width() <= u64::MAX
        &&& n * config.in_width() <= u64::MAX
        &&& n * config.gdn_state_rows <= u64::MAX
        &&& n * lw.gdn_ab.m <= u64::MAX
        &&& n * self.layers + self.layer <= u64::MAX
        &&& config.conv_width() * 3 * (lw.gdn_index + 1) <= u64::MAX
        &&& config.state_elems() * (lw.gdn_index + 1) <= u64::MAX
        &&& lw.gdn_index < u64::MAX
    }
}

/// Whether `n` rows of `width` elements can be counted.
fn rows_fit(n: u64, width: u64) -> (fit: bool)
    ensures
        fit == (n * width <= u64::MAX),
{
    n.checked_mul(width).is_some()
}

impl Pass {
    /// Whether the pass's buffers can be counted.
    pub fn is_counted(&self, config: &ModelConfig, lw: &LayerWeights) -> (counted: bool)
        ensures
            counted == self.fits(*config, *lw),
    {
        if !config.is_countable() {
            return false;
        }
        let n: u64 = self.tokens;
        let rows: bool = rows_fit(n, config.hidden) && rows_fit(n, config.gqa_width()) && rows_fit(
            n,
            config.gqa_kv_width(),
        ) && rows_fit(n, config.gdn_in_proj_m()) && rows_fit(n, config.gdn_state_rows) && rows_fit(
            n,
            lw.gdn_ab.m,
        );
        let last: bool = match n.checked_mul(self.layers) {
            Some(end) => end.checked_add(self.layer).is_some(),
            None => false,
        };
        let index: u64 = lw.gdn_index as u64;
        if index == u64::MAX {
            return false;
        }
        let taps: Option<u64> = config.gdn_conv_channels().checked_mul(3);
        let mat: Option<u64> = config.gdn_state_rows.checked_mul(config.gdn_state_cols);
        let states: bool = match (taps, mat) {
            (Some(taps), Some(mat)) => rows_fit(taps, index + 1) && rows_fit(mat, index + 1),
            _ => false,
        };
        proof {
            let (t, m, n) = (config.conv_width() * 3, config.state_elems(), index + 1);
            assert(t <= t * n && m <= m * n) by (nonlinear_arith)
                requires
                    t >= 0,
                    m >= 0,
                    n >= 1,
            ;
        }
        rows && last && states
    }
}

/// Row `i` of a plane `width` wide.
pub open spec fn row(i: int, width: int) -> Span {
    Span { start: (i * width) as u64, len: width as u64 }
}

/// The stream is normed row by row, or taken as it is where there is no norm.
pub open spec fn norm_steps(tokens: int, hidden: int, slot: NormSlot, normed: bool) -> Seq<Step> {
    if normed {
        Seq::new(tokens as nat, |i: int| Step::Norm { slot, row: row(i, hidden) })
    } else {
        seq![Step::Copy]
    }
}

/// What each of the first `n` tokens does before attention.
pub open spec fn gqa_token_steps(config: ModelConfig, pass: Pass, n: int) -> Seq<Step>
    decreases n,
{
    if n <= 0 {
        Seq::empty()
    } else {
        let i = n - 1;
        let query = row(i, config.q_width());
        let key = row(i, config.kv_width());
        gqa_token_steps(config, pass, i) + seq![
            Step::QueryNorm { row: query, heads: config.num_q_heads },
            Step::KeyNorm { row: key, heads: config.num_kv_heads },
            Step::Rope { query, key, position: pass.position(i) as u64 },
            Step::StoreKv { row: key },
        ]
    }
}

/// An attention block.
pub open spec fn gqa_steps(config: ModelConfig, lw: LayerWeights, pass: Pass) -> Seq<Step> {
    seq![
        Step::Gemm {
            call: gemm(config, lw, GemmSlot::Query),
            from: Plane::Normed,
            to: Plane::Query,
        },
        Step::Gemm { call: gemm(config, lw, GemmSlot::Key), from: Plane::Normed, to: Plane::Key },
        Step::Gemm {
            call: gemm(config, lw, GemmSlot::Value),
            from: Plane::Normed,
            to: Plane::Value,
        },
    ] + gqa_token_steps(config, pass, pass.tokens as int) + seq![
        Step::Attend { tokens: pass.tokens },
        Step::Gemm {
            call: gemm(config, lw, GemmSlot::AttnOut),
            from: Plane::Attended,
            to: Plane::Delta,
        },
    ]
}

/// One token's recurrence.
pub open spec fn recur_step(config: ModelConfig, lw: LayerWeights, i: int) -> Step {
    let conv = config.conv_width();
    let cols = config.gdn_state_cols as int;
    let rows = config.gdn_state_rows as int;
    let key = i * conv + config.gdn_q_width;
    Step::Recur {
        key: Span { start: key as u64, len: cols as u64 },
        value: Span { start: (key + cols) as u64, len: rows as u64 },
        gates: if lw.gdn_ab.m > 0 {
            Some(
                GatePair {
                    gate: (i * lw.gdn_ab.m) as u64,
                    beta: (i * lw.gdn_ab.m + lw.gdn_ab.m as int / 2) as u64,
                },
            )
        } else {
            None
        },
        state: row(lw.gdn_index as int, config.state_elems()),
        gate: if config.gdn_z_width > 0 {
            Some(
                Span {
                    start: (i * config.in_width() + conv) as u64,
                    len: config.gdn_z_width,
                },
            )
        } else {
            None
        },
        out: row(i, rows),
    }
}

/// A recurrent block.
pub open spec fn gdn_steps(config: ModelConfig, lw: LayerWeights, pass: Pass) -> Seq<Step> {
    seq![
        Step::Gemm {
            call: gemm(config, lw, GemmSlot::GdnIn),
            from: Plane::Normed,
            to: Plane::Feature,
        },
        Step::Conv {
            width: config.conv_width() as u64,
            stride: config.in_width() as u64,
            state: row(lw.gdn_index as int, config.conv_width() * 3),
        },
    ] + (if lw.gdn_ab.m > 0 {
        seq![
            Step::Gemm {
                call: gemm(config, lw, GemmSlot::Gates),
                from: Plane::Normed,
                to: Plane::Gates,
            },
        ]
    } else {
        Seq::empty()
    }) + Seq::new(pass.tokens as nat, |i: int| recur_step(config, lw, i)) + seq![
        Step::Gemm {
            call: gemm(config, lw, GemmSlot::GdnOut),
            from: Plane::Readout,
            to: Plane::Delta,
        },
    ]
}

/// A feed-forward block.
pub open spec fn ffn_steps(config: ModelConfig, lw: LayerWeights, pass: Pass) -> Seq<Step> {
    seq![
        Step::Gemm {
            call: gemm(config, lw, GemmSlot::FfnGate),
            from: Plane::Normed,
            to: Plane::FfnGate,
        },
        Step::Gemm {
            call: gemm(config, lw, GemmSlot::FfnUp),
            from: Plane::Normed,
            to: Plane::FfnUp,
        },
        Step::Activate,
        Step::Gemm {
            call: gemm(config, lw, GemmSlot::FfnDown),
            from: Plane::Active,
            to: Plane::Delta,
        },
        Step::AddDelta,
        Step::Advance { by: pass.tokens },
    ]
}

/// A layer: norm, attention or recurrence, residual; norm, feed-forward,
/// residual.
pub open spec fn layer_steps(config: ModelConfig, lw: LayerWeights, pass: Pass) -> Seq<Step> {
    let tokens = pass.tokens as int;
    let hidden = config.hidden as int;
    norm_steps(tokens, hidden, NormSlot::Input, lw.norm_in@.len() > 0) + (match lw.kind {
        LayerKind::Gqa => gqa_steps(config, lw, pass),
        LayerKind::Gdn => gdn_steps(config, lw, pass),
    }) + seq![Step::AddDelta] + norm_steps(
        tokens,
        hidden,
        NormSlot::PostAttention,
        lw.norm_post@.len() > 0,
    ) + ffn_steps(config, lw, pass)
}

/// A row lies inside a plane that can be counted.
proof fn row_fits(i: int, n: int, width: int)
    requires
        0 <= i < n,
        0 <= width,
        n * width <= u64::MAX,
    ensures
        0 <= i * width <= u64::MAX,
        i * width + width <= n * width,
        width <= n * width,
{
    assert(0 <= i * width && i * width + width <= n * width && width <= n * width)
        by (nonlinear_arith)
        requires
            0 <= i,
            i + 1 <= n,
            0 <= width,
    ;
}

fn push_norms(tokens: u64, hidden: u64, slot: NormSlot, normed: bool, steps: &mut Vec<Step>)
    requires
        tokens * hidden <= u64::MAX,
    ensures
        final(steps)@ == old(steps)@ + norm_steps(tokens as int, hidden as int, slot, normed),
{
    let ghost first = steps@;
    if !normed {
        steps.push(Step::Copy);
        assert(steps@ =~= first + norm_steps(tokens as int, hidden as int, slot, normed));
        return;
    }
    let mut i: u64 = 0;
    while i < tokens
        invariant
            normed,
            i <= tokens,
            tokens * hidden <= u64::MAX,
            steps@ == first + norm_steps(tokens as int, hidden as int, slot, true).take(i as int),
        decreases tokens - i,
    {
        proof {
            row_fits(i as int, tokens as int, hidden as int);
        }
        steps.push(Step::Norm { slot, row: Span { start: i * hidden, len: hidden } });
        assert(steps@ =~= first + norm_steps(tokens as int, hidden as int, slot, true).take(i + 1));
        i = i + 1;
    }
    assert(steps@ =~= first + norm_steps(tokens as int, hidden as int, slot, normed));
}

fn push_gqa(config: &ModelConfig, lw: &LayerWeights, pass: &Pass, steps: &mut Vec<Step>)
    requires
        pass.fits(*config, *lw),
    ensures
        final(steps)@ == old(steps)@ + gqa_steps(*config, *lw, *pass),
{
    let ghost first = steps@;
    let q: u64 = config.gqa_width();
    let kv: u64 = config.gqa_kv_width();
    let query_gemm = plan_gemm(config, lw, GemmSlot::Query);
    let key_gemm = plan_gemm(config, lw, GemmSlot::Key);
    let value_gemm = plan_gemm(config, lw, GemmSlot::Value);
    steps.push(Step::Gemm { call: query_gemm, from: Plane::Normed, to: Plane::Query });
    steps.push(Step::Gemm { call: key_gemm, from: Plane::Normed, to: Plane::Key });
    steps.push(Step::Gemm { call: value_gemm, from: Plane::Normed, to: Plane::Value });
    let ghost projected = steps@;
    let mut i: u64 = 0;
    assert(steps@ =~= projected + gqa_token_steps(*config, *pass, 0));
    while i < pass.tokens
        invariant
            pass.fits(*config, *lw),
            q == config.q_width(),
            kv == config.kv_width(),
            i <= pass.tokens,
            steps@ == projected + gqa_token_steps(*config, *pass, i as int),
        decreases pass.tokens - i,
    {
        proof {
            row_fits(i as int, pass.tokens as int, q as int);
            row_fits(i as int, pass.tokens as int, kv as int);
            assert(0 <= i * pass.layers && i * pass.layers <= pass.tokens * pass.layers)
                by (nonlinear_arith)
                requires
                    0 <= i <= pass.tokens,
                    0 <= pass.layers,
            ;
        }
        let query = Span { start: i * q, len: q };
        let key = Span { start: i * kv, len: kv };
        let position: u64 = if pass.tokens == 1 {
            pass.seq_pos
        } else {
            i * pass.layers + pass.layer
        };
        let ghost was = steps@;
        steps.push(Step::QueryNorm { row: query, heads: config.num_q_heads });
        steps.push(Step::KeyNorm { row: key, heads: config.num_kv_heads });
        steps.push(Step::Rope { query, key, position });
        steps.push(Step::StoreKv { row: key });
        assert(steps@ =~= projected + gqa_token_steps(*config, *pass, i + 1));
        i = i + 1;
    }
    steps.push(Step::Attend { tokens: pass.tokens });
    let out_gemm = plan_gemm(config, lw, GemmSlot::AttnOut);
    steps.push(Step::Gemm { call: out_gemm, from: Plane::Attended, to: Plane::Delta });
    assert(steps@ =~= first + gqa_steps(*config, *lw, *pass));
}

fn push_gdn(config: &ModelConfig, lw: &LayerWeights, pass: &Pass, steps: &mut Vec<Step>)
    requires
        pass.fits(*config, *lw),
        lw.gdn_index <= u64::MAX,
        config.state_elems() <= u64::MAX,
    ensures
        final(steps)@ == old(steps)@ + gdn_steps(*config, *lw, *pass),
{
    let ghost first = steps@;
    let conv: u64 = config.gdn_conv_channels();
    let wide: u64 = config.gdn_in_proj_m();
    let mat: u64 = config.gdn_state_mat();
    let rows: u64 = config.gdn_state_rows;
    let cols: u64 = config.gdn_state_cols;
    let gates: u64 = lw.gdn_ab.m;
    let index: u64 = lw.gdn_index as u64;
    proof {
        assert(conv * 3 * (index + 1) == (index + 1) * (conv * 3)) by (nonlinear_arith);
        assert(mat * (index + 1) == (index + 1) * mat) by (nonlinear_arith);
        row_fits(index as int, index + 1, conv * 3);
        row_fits(index as int, index + 1, mat as int);
    }
    let in_gemm = plan_gemm(config, lw, GemmSlot::GdnIn);
    steps.push(Step::Gemm { call: in_gemm, from: Plane::Normed, to: Plane::Feature });
    steps.push(
        Step::Conv {
            width: conv,
            stride: wide,
            state: Span { start: index * (conv * 3), len: conv * 3 },
        },
    );
    if gates > 0 {
        let gate_gemm = plan_gemm(config, lw, GemmSlot::Gates);
        steps.push(Step::Gemm { call: gate_gemm, from: Plane::Normed, to: Plane::Gates });
    }
    let ghost projected = steps@;
    let ghost tokens = Seq::new(pass.tokens as nat, |i: int| recur_step(*config, *lw, i));
    let state = Span { start: index * mat, len: mat };
    let mut i: u64 = 0;
    assert(steps@ =~= projected + tokens.take(0));
    while i < pass.tokens
        invariant
            pass.fits(*config, *lw),
            conv == config.conv_width(),
            wide == config.in_width(),
            rows == config.gdn_state_rows,
            cols == config.gdn_state_cols,
            gates == lw.gdn_ab.m,
            state == row(lw.gdn_index as int, config.state_elems()),
            i <= pass.tokens,
            tokens == Seq::new(pass.tokens as nat, |i: int| recur_step(*config, *lw, i)),
            steps@ == projected + tokens.take(i as int),
        decreases pass.tokens - i,
    {
        proof {
            let n = pass.tokens as int;
            row_fits(i as int, n, wide as int);
            row_fits(i as int, n, rows as int);
            row_fits(i as int, n, gates as int);
            assert(i * conv <= i * wide) by (nonlinear_arith)
                requires
                    0 <= i,
                    conv <= wide,
            ;
            assert(0 <= i * conv) by (nonlinear_arith);
        }
        let key: u64 = i * conv + config.gdn_q_width;
        let step = Step::Recur {
            key: Span { start: key, len: cols },
            value: Span { start: key + cols, len: rows },
            gates: if gates > 0 {
                Some(GatePair { gate: i * gates, beta: i * gates + gates / 2 })
            } else {
                None
            },
            state,
            gate: if config.gdn_z_width > 0 {
                Some(Span { start: i * wide + conv, len: config.gdn_z_width })
            } else {
                None
            },
            out: Span { start: i * rows, len: rows },
        };
        assert(step == recur_step(*config, *lw, i as int));
        steps.push(step);
        assert(steps@ =~= projected + tokens.take(i + 1));
        i = i + 1;
    }
    assert(tokens.take(pass.tokens as int) =~= tokens);
    let out_gemm = plan_gemm(config, lw, GemmSlot::GdnOut);
    steps.push(Step::Gemm { call: out_gemm, from: Plane::Readout, to: Plane::Delta });
    assert(steps@ =~= first + gdn_steps(*config, *lw, *pass));
}

fn push_ffn(config: &ModelConfig, lw: &LayerWeights, pass: &Pass, steps: &mut Vec<Step>)
    requires
        pass.fits(*config, *lw),
    ensures
        final(steps)@ == old(steps)@ + ffn_steps(*config, *lw, *pass),
{
    let ghost first = steps@;
    let gate = plan_gemm(config, lw, GemmSlot::FfnGate);
    let up = plan_gemm(config, lw, GemmSlot::FfnUp);
    let down = plan_gemm(config, lw, GemmSlot::FfnDown);
    steps.push(Step::Gemm { call: gate, from: Plane::Normed, to: Plane::FfnGate });
    steps.push(Step::Gemm { call: up, from: Plane::Normed, to: Plane::FfnUp });
    steps.push(Step::Activate);
    steps.push(Step::Gemm { call: down, from: Plane::Active, to: Plane::Delta });
    steps.push(Step::AddDelta);
    steps.push(Step::Advance { by: pass.tokens });
    assert(steps@ =~= first + ffn_steps(*config, *lw, *pass));
}

/// The steps of one layer.
pub fn plan_layer(config: &ModelConfig, lw: &LayerWeights, pass: &Pass) -> (steps: Vec<Step>)
    requires
        pass.fits(*config, *lw),
    ensures
        steps@ == layer_steps(*config, *lw, *pass),
{
    let mut steps: Vec<Step> = Vec::new();
    proof {
        let elems = config.state_elems();
        let places = lw.gdn_index + 1;
        assert(0 <= config.gdn_state_rows * config.gdn_state_cols) by (nonlinear_arith);
        assert(elems <= elems * places) by (nonlinear_arith)
            requires
                0 <= elems,
                places >= 1,
        ;
    }
    let ghost tokens = pass.tokens as int;
    let ghost hidden = config.hidden as int;
    push_norms(pass.tokens, config.hidden, NormSlot::Input, lw.norm_in.len() > 0, &mut steps);
    let ghost normed = steps@;
    assert(normed =~= norm_steps(tokens, hidden, NormSlot::Input, lw.norm_in@.len() > 0));
    match lw.kind {
        LayerKind::Gqa => push_gqa(config, lw, pass, &mut steps),
        LayerKind::Gdn => push_gdn(config, lw, pass, &mut steps),
    }
    steps.push(Step::AddDelta);
    push_norms(
        pass.tokens,
        config.hidden,
        NormSlot::PostAttention,
        lw.norm_post.len() > 0,
        &mut steps,
    );
    push_ffn(config, lw, pass, &mut steps);
    assert(steps@ =~= layer_steps(*config, *lw, *pass));
    steps
}

/// The pass layer `layer` of `layers` makes over `tokens` tokens: every layer
/// before it moved the sequence on by as many.
pub open spec fn pass_at(tokens: u64, layers: int, seq_pos: u64, layer: int) -> Pass {
    Pass {
        tokens,
        layer: layer as u64,
        layers: layers as u64,
        seq_pos: (seq_pos + layer * tokens) as u64,
    }
}

/// The steps of a whole stack, layer by layer. `None` where one of its buffers
/// or the positions it reaches cannot be counted.
pub fn plan_stack(
    config: &ModelConfig,
    per_layer: &Vec<LayerWeights>,
    tokens: u64,
    seq_pos: u64,
) -> (plan: Option<Vec<Vec<Step>>>)
    ensures
        plan is Some <==> {
            &&& seq_pos + per_layer@.len() * tokens <= u64::MAX
            &&& forall|l: int|
                0 <= l < per_layer@.len() ==> pass_at(
                    tokens,
                    per_layer@.len() as int,
                    seq_pos,
                    l,
                ).fits(*config, #[trigger] per_layer@[l])
        },
        plan matches Some(steps) ==> {
            &&& steps@.len() == per_layer@.len()
            &&& forall|l: int|
                0 <= l < per_layer@.len() ==> (#[trigger] steps@[l])@ == layer_steps(
                    *config,
                    per_layer@[l],
                    pass_at(tokens, per_layer@.len() as int, seq_pos, l),
                )
        },
{
    let n: usize = per_layer.len();
    let mut plan: Vec<Vec<Step>> = Vec::new();
    let mut at: u64 = seq_pos;
    while plan.len() < n
        invariant
            n == per_layer@.len(),
            plan@.len() <= n,
            at == seq_pos + plan@.len() * tokens,
            forall|l: int|
                0 <= l < plan@.len() ==> pass_at(tokens, n as int, seq_pos, l).fits(
                    *config,
                    #[trigger] per_layer@[l],
                ),
            forall|l: int|
                0 <= l < plan@.len() ==> (#[trigger] plan@[l])@ == layer_steps(
                    *config,
                    per_layer@[l],
                    pass_at(tokens, n as int, seq_pos, l),
                ),
        decreases n - plan@.len(),
    {
        let l: usize = plan.len();
        let pass = Pass { tokens, layer: l as u64, layers: n as u64, seq_pos: at };
        assert(pass == pass_at(tokens, n as int, seq_pos, l as int));
        if !pass.is_counted(config, &per_layer[l]) {
            assert(!pass_at(tokens, n as int, seq_pos, l as int).fits(
                *config,
                per_layer@[l as int],
            ));
            return None;
        }
        proof {
            assert((l + 1) * tokens == l * tokens + tokens) by (nonlinear_arith);
            assert((l + 1) * tokens <= n * tokens) by (nonlinear_arith)
                requires
                    l + 1 <= n,
            ;
        }
        at = match at.checked_add(tokens) {
            Some(next) => next,
            None => {
                return None;
            },
        };
        plan.push(plan_layer(config, &per_layer[l], &pass));
    }
    Some(plan)
}

/// The width of a plane.
pub open spec fn plane_width(config: ModelConfig, lw: LayerWeights, plane: Plane) -> int {
    match plane {
        Plane::Stream | Plane::Normed | Plane::Delta => config.hidden as int,
        Plane::Query | Plane::Attended => config.q_width(),
        Plane::Key | Plane::Value => config.kv_width(),
        Plane::Feature => config.in_width(),
        Plane::Convolved => config.conv_width(),
        Plane::Gates => lw.gdn_ab.m as int,
        Plane::Readout => config.gdn_state_rows as int,
        Plane::FfnGate | Plane::FfnUp | Plane::Active => config.ffn_intermediate as int,
    }
}

/// The span lies inside `size` elements.
pub open spec fn inside(span: Span, size: int) -> bool {
    span.start + span.len <= size
}

/// Whether a layer runs the GEMM of this slot.
pub open spec fn runs(lw: LayerWeights, slot: GemmSlot) -> bool {
    match slot {
        GemmSlot::Query | GemmSlot::Key | GemmSlot::Value | GemmSlot::AttnOut => lw.kind
            == LayerKind::Gqa,
        GemmSlot::GdnIn | GemmSlot::GdnOut => lw.kind == LayerKind::Gdn,
        GemmSlot::Gates => lw.kind == LayerKind::Gdn && lw.gdn_ab.m > 0,
        GemmSlot::FfnGate | GemmSlot::FfnUp | GemmSlot::FfnDown => true,
    }
}

/// The weight a GEMM reads has its rows and its width, and holds them.
pub open spec fn source_holds(lw: LayerWeights, call: GemmCall) -> bool {
    match call.source {
        GemmSource::Device(plane) => plane.k == call.k && call.row_off + call.m <= plane.m,
        GemmSource::Bf16 => bf16_weight(lw, call.slot) matches Some(w) && w.k == call.k
            && call.row_off + call.m <= w.m && w.data@.len() == w.m * w.k,
        GemmSource::Host => {
            let w = host_weight(lw, call.slot);
            w.is_whole() && w.m == call.m && w.k == call.k
        },
    }
}

/// The layer's weights serve this topology.
pub open spec fn serves(config: ModelConfig, lw: LayerWeights) -> bool {
    &&& forall|slot: GemmSlot|
        runs(lw, slot) ==> source_holds(lw, #[trigger] gemm(config, lw, slot))
    &&& lw.kind == LayerKind::Gdn ==> {
        &&& lw.gdn_index < config.gdn_num_layers
        &&& lw.gdn_conv.m == 4
        &&& lw.gdn_conv.k == config.conv_width()
        &&& lw.gdn_conv.data@.len() == 4 * config.conv_width()
    }
}

/// The step reads and writes inside its buffers, at the widths its kernel
/// takes.
pub open spec fn step_fits(
    config: ModelConfig,
    lw: LayerWeights,
    pass: Pass,
    step: Step,
) -> bool {
    let n = pass.tokens as int;
    match step {
        Step::Copy | Step::Activate | Step::AddDelta => true,
        Step::Norm { row, .. } => inside(row, n * config.hidden) && row.len == config.hidden,
        Step::Gemm { call, from, to } => {
            &&& plane_width(config, lw, from) == call.k
            &&& plane_width(config, lw, to) == call.m
            &&& source_holds(lw, call)
        },
        Step::QueryNorm { row, heads } => inside(row, n * config.q_width()) && row.len == heads
            * config.head_dim,
        Step::KeyNorm { row, heads } => inside(row, n * config.kv_width()) && row.len == heads
            * config.head_dim,
        Step::Rope { query, key, .. } => {
            &&& inside(query, n * config.q_width())
            &&& query.len == config.q_width()
            &&& inside(key, n * config.kv_width())
            &&& key.len == config.kv_width()
        },
        Step::StoreKv { row } => inside(row, n * config.kv_width()) && row.len
            == config.kv_width(),
        Step::Attend { tokens } => tokens == n,
        Step::Conv { width, stride, state } => {
            &&& width <= stride
            &&& stride == config.in_width()
            &&& width == lw.gdn_conv.k
            &&& state.len == 3 * width
            &&& inside(state, conv_plane(config))
        },
        Step::Recur { key, value, gates, state, gate, out } => {
            &&& inside(key, n * config.conv_width())
            &&& key.len == config.gdn_state_cols
            &&& inside(value, n * config.conv_width())
            &&& value.len == config.gdn_state_rows
            &&& gates matches Some(g) ==> g.gate <= g.beta < n * lw.gdn_ab.m
            &&& inside(state, gdn_plane(config))
            &&& state.len == config.state_elems()
            &&& gate matches Some(z) ==> inside(z, n * config.in_width())
            &&& inside(out, n * config.gdn_state_rows)
            &&& out.len == config.gdn_state_rows
        },
        Step::Advance { by } => by == n,
    }
}

/// Every step of a layer reads and writes inside its buffers, at the widths
/// its kernel takes, and every GEMM's input is as wide as its weight.
pub proof fn every_step_stays_in_its_buffers(
    config: ModelConfig,
    lw: LayerWeights,
    pass: Pass,
    s: int,
)
    requires
        pass.fits(config, lw),
        serves(config, lw),
        0 <= s < layer_steps(config, lw, pass).len(),
    ensures
        step_fits(config, lw, pass, layer_steps(config, lw, pass)[s]),
{
    let n = pass.tokens as int;
    let hidden = config.hidden as int;
    let a = norm_steps(n, hidden, NormSlot::Input, lw.norm_in@.len() > 0);
    let b = match lw.kind {
        LayerKind::Gqa => gqa_steps(config, lw, pass),
        LayerKind::Gdn => gdn_steps(config, lw, pass),
    };
    let c = seq![Step::AddDelta];
    let d = norm_steps(n, hidden, NormSlot::PostAttention, lw.norm_post@.len() > 0);
    let e = ffn_steps(config, lw, pass);
    let all = layer_steps(config, lw, pass);
    if s < a.len() {
        assert(all[s] == a[s]);
        norms_fit(config, lw, pass, NormSlot::Input, lw.norm_in@.len() > 0, s);
    } else if s < a.len() + b.len() {
        let t = s - a.len();
        assert(all[s] == b[t]);
        match lw.kind {
            LayerKind::Gqa => gqa_fits(config, lw, pass, t),
            LayerKind::Gdn => gdn_fits(config, lw, pass, t),
        }
    } else if s < a.len() + b.len() + c.len() {
        assert(all[s] == c[s - a.len() - b.len()]);
    } else if s < a.len() + b.len() + c.len() + d.len() {
        let t = s - a.len() - b.len() - c.len();
        assert(all[s] == d[t]);
        norms_fit(config, lw, pass, NormSlot::PostAttention, lw.norm_post@.len() > 0, t);
    } else {
        let t = s - a.len() - b.len() - c.len() - d.len();
        assert(all[s] == e[t]);
        assert(source_holds(lw, gemm(config, lw, GemmSlot::FfnGate)));
        assert(source_holds(lw, gemm(config, lw, GemmSlot::FfnUp)));
        assert(source_holds(lw, gemm(config, lw, GemmSlot::FfnDown)));
        assert(t == 0 || t == 1 || t == 2 || t == 3 || t == 4 || t == 5);
    }
}

proof fn norms_fit(
    config: ModelConfig,
    lw: LayerWeights,
    pass: Pass,
    slot: NormSlot,
    normed: bool,
    s: int,
)
    requires
        pass.fits(config, lw),
        0 <= s < norm_steps(pass.tokens as int, config.hidden as int, slot, normed).len(),
    ensures
        step_fits(
            config,
            lw,
            pass,
            norm_steps(pass.tokens as int, config.hidden as int, slot, normed)[s],
        ),
{
    if normed {
        row_fits(s, pass.tokens as int, config.hidden as int);
    }
}

proof fn gqa_tokens_fit(config: ModelConfig, lw: LayerWeights, pass: Pass, n: int, s: int)
    requires
        pass.fits(config, lw),
        0 <= n <= pass.tokens,
        0 <= s < gqa_token_steps(config, pass, n).len(),
    ensures
        step_fits(config, lw, pass, gqa_token_steps(config, pass, n)[s]),
    decreases n,
{
    if n > 0 {
        let front = gqa_token_steps(config, pass, n - 1);
        let all = gqa_token_steps(config, pass, n);
        if s < front.len() {
            gqa_tokens_fit(config, lw, pass, n - 1, s);
            assert(all[s] == front[s]);
        } else {
            let i = n - 1;
            let t = s - front.len();
            row_fits(i, pass.tokens as int, config.q_width());
            row_fits(i, pass.tokens as int, config.kv_width());
            let query = row(i, config.q_width());
            let key = row(i, config.kv_width());
            let last = seq![
                Step::QueryNorm { row: query, heads: config.num_q_heads },
                Step::KeyNorm { row: key, heads: config.num_kv_heads },
                Step::Rope { query, key, position: pass.position(i) as u64 },
                Step::StoreKv { row: key },
            ];
            assert(all[s] == last[t]);
            assert(t == 0 || t == 1 || t == 2 || t == 3);
        }
    }
}

proof fn gqa_fits(config: ModelConfig, lw: LayerWeights, pass: Pass, s: int)
    requires
        pass.fits(config, lw),
        serves(config, lw),
        lw.kind == LayerKind::Gqa,
        0 <= s < gqa_steps(config, lw, pass).len(),
    ensures
        step_fits(config, lw, pass, gqa_steps(config, lw, pass)[s]),
{
    let tokens = gqa_token_steps(config, pass, pass.tokens as int);
    let all = gqa_steps(config, lw, pass);
    assert(source_holds(lw, gemm(config, lw, GemmSlot::Query)));
    assert(source_holds(lw, gemm(config, lw, GemmSlot::Key)));
    assert(source_holds(lw, gemm(config, lw, GemmSlot::Value)));
    assert(source_holds(lw, gemm(config, lw, GemmSlot::AttnOut)));
    if s < 3 {
        assert(s == 0 || s == 1 || s == 2);
    } else if s < 3 + tokens.len() {
        assert(all[s] == tokens[s - 3]);
        gqa_tokens_fit(config, lw, pass, pass.tokens as int, s - 3);
    } else {
        let t = s - 3 - tokens.len();
        assert(t == 0 || t == 1);
    }
}

proof fn gdn_fits(config: ModelConfig, lw: LayerWeights, pass: Pass, s: int)
    requires
        pass.fits(config, lw),
        serves(config, lw),
        lw.kind == LayerKind::Gdn,
        0 <= s < gdn_steps(config, lw, pass).len(),
    ensures
        step_fits(config, lw, pass, gdn_steps(config, lw, pass)[s]),
{
    let all = gdn_steps(config, lw, pass);
    let tokens = Seq::new(pass.tokens as nat, |i: int| recur_step(config, lw, i));
    let before: int = if lw.gdn_ab.m > 0 { 3 } else { 2 };
    assert(source_holds(lw, gemm(config, lw, GemmSlot::GdnIn)));
    assert(source_holds(lw, gemm(config, lw, GemmSlot::GdnOut)));
    let index = lw.gdn_index as int;
    let taps = config.conv_width() * 3;
    let mat = config.state_elems();
    layer_state_fits(index, config.gdn_num_layers as int, taps);
    layer_state_fits(index, config.gdn_num_layers as int, mat);
    assert(config.gdn_num_layers * taps == conv_plane(config)) by (nonlinear_arith)
        requires
            taps == config.conv_width() * 3,
            conv_plane(config) == config.gdn_num_layers * config.conv_width() * 3,
    ;
    assert(config.gdn_num_layers * mat == gdn_plane(config)) by (nonlinear_arith)
        requires
            mat == config.gdn_state_rows * config.gdn_state_cols,
            gdn_plane(config) == config.gdn_num_layers * config.gdn_state_rows
                * config.gdn_state_cols,
    ;
    assert(taps * (index + 1) == (index + 1) * taps) by (nonlinear_arith);
    assert(mat * (index + 1) == (index + 1) * mat) by (nonlinear_arith);
    assert(0 <= mat) by (nonlinear_arith)
        requires
            mat == config.gdn_state_rows * config.gdn_state_cols,
    ;
    row_fits(index, index + 1, taps);
    row_fits(index, index + 1, mat);
    if s < before {
        if lw.gdn_ab.m > 0 {
            assert(source_holds(lw, gemm(config, lw, GemmSlot::Gates)));
        }
        assert(s == 0 || s == 1 || s == 2);
    } else if s < before + tokens.len() {
        let i = s - before;
        assert(all[s] == tokens[i]);
        recur_fits(config, lw, pass, i);
    } else {
        assert(s == before + tokens.len());
        assert(all[s] == (Step::Gemm {
            call: gemm(config, lw, GemmSlot::GdnOut),
            from: Plane::Readout,
            to: Plane::Delta,
        }));
    }
}

proof fn recur_fits(config: ModelConfig, lw: LayerWeights, pass: Pass, i: int)
    requires
        pass.fits(config, lw),
        0 <= i < pass.tokens,
        lw.gdn_index < config.gdn_num_layers,
    ensures
        step_fits(config, lw, pass, recur_step(config, lw, i)),
{
    let n = pass.tokens as int;
    let conv = config.conv_width();
    let wide = config.in_width();
    let index = lw.gdn_index as int;
    let mat = config.state_elems();
    assert(n * conv <= n * wide) by (nonlinear_arith)
        requires
            0 <= n,
            conv <= wide,
    ;
    row_fits(i, n, conv);
    row_fits(i, n, wide);
    row_fits(i, n, config.gdn_state_rows as int);
    row_fits(i, n, lw.gdn_ab.m as int);
    assert(0 <= mat) by (nonlinear_arith)
        requires
            mat == config.gdn_state_rows * config.gdn_state_cols,
    ;
    assert(mat * (index + 1) == (index + 1) * mat) by (nonlinear_arith);
    row_fits(index, index + 1, mat);
    layer_state_fits(index, config.gdn_num_layers as int, mat);
    assert(config.gdn_num_layers * mat == gdn_plane(config)) by (nonlinear_arith)
        requires
            mat == config.gdn_state_rows * config.gdn_state_cols,
            gdn_plane(config) == config.gdn_num_layers * config.gdn_state_rows
                * config.gdn_state_cols,
    ;
}

/// One layer's part of a state of `layers` equal parts lies inside it.
proof fn layer_state_fits(index: int, layers: int, part: int)
    requires
        0 <= index < layers,
        0 <= part,
    ensures
        index * part + part <= layers * part,
{
    assert(index * part + part <= layers * part) by (nonlinear_arith)
        requires
            0 <= index,
            index + 1 <= layers,
            0 <= part,
    ;
}

/// Every GEMM of this topology has an input width its kernel takes, and no
/// width is nothing.
pub open spec fn kernels_take(config: ModelConfig) -> bool {
    &&& config.hidden > 0
    &&& config.hidden % 16 == 0
    &&& config.q_width() > 0
    &&& config.q_width() % 16 == 0
    &&& config.kv_width() > 0
    &&& config.gdn_state_rows > 0
    &&& config.gdn_state_rows % 16 == 0
    &&& config.ffn_intermediate > 0
    &&& config.ffn_intermediate % 16 == 0
}

/// The layers of a synthetic model serve its topology.
pub proof fn synthetic_layers_serve(
    config: ModelConfig,
    lw: LayerWeights,
    kind: LayerKind,
    gdn_index: int,
    seed: u64,
)
    requires
        buildable(config),
        kernels_take(config),
        lw.is_synthetic(config, kind, gdn_index, seed),
        kind == LayerKind::Gdn ==> gdn_index < config.gdn_num_layers,
    ensures
        serves(config, lw),
{
    assert forall|slot: GemmSlot| runs(lw, slot) implies source_holds(
        lw,
        #[trigger] gemm(config, lw, slot),
    ) by {
        assert(device_plane(lw, slot) is None);
    }
}

/// Where one token at a time stands: `token` whole tokens through `layers`
/// layers, each moving on by one, and `layer` layers of the next.
pub open spec fn one_at_a_time(token: int, layer: int, layers: int) -> int
    decreases token, layer,
{
    if token < 0 || layer < 0 {
        0
    } else if layer > 0 {
        one_at_a_time(token, layer - 1, layers) + 1
    } else if token > 0 && layers >= 0 {
        one_at_a_time(token - 1, layers, layers)
    } else {
        0
    }
}

/// A batch rotates every token where one at a time it would have been rotated,
/// and leaves the position where they would have left it.
pub proof fn a_batch_rotates_as_one_at_a_time(pass: Pass, token: int)
    requires
        0 <= token < pass.tokens,
        pass.tokens > 1,
        pass.layer < pass.layers,
    ensures
        pass.position(token) == one_at_a_time(token, pass.layer as int, pass.layers as int),
        pass.layers * pass.tokens == one_at_a_time(pass.tokens as int, 0, pass.layers as int),
{
    stands_at(token, pass.layer as int, pass.layers as int);
    stands_at(pass.tokens as int, 0, pass.layers as int);
    assert(pass.layers * pass.tokens == pass.tokens * pass.layers) by (nonlinear_arith);
}

proof fn stands_at(token: int, layer: int, layers: int)
    requires
        0 <= token,
        0 <= layer,
        0 <= layers,
    ensures
        one_at_a_time(token, layer, layers) == token * layers + layer,
    decreases token, layer,
{
    if layer > 0 {
        stands_at(token, layer - 1, layers);
    } else if token > 0 {
        stands_at(token - 1, layers, layers);
        assert((token - 1) * layers + layers == token * layers) by (nonlinear_arith);
    } else {
        assert(token * layers == 0) by (nonlinear_arith)
            requires
                token == 0,
        ;
    }
}

} // verus!
